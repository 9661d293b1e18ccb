use vstd::prelude::*;
use crate::chunk::{
    BlockType, Chunk, block_index, index_x, index_y, index_z, lemma_block_index,
    lemma_index_decode, BLOCKS_PER_CHUNK,
};
use crate::chunk_manager::{BEDROCK, SEA_LEVEL};
use crate::vector::Vector2i;

verus! {

/// What the world's noise says of each block position of a chunk, indexed like
/// `Chunk::blocks`.
///
/// `solid[i]` holds where the density at block `i` is positive. `ore[i]` grades
/// the ore noise there: 0 up to 0.7, 1 above 0.7, 2 above 0.75, 3 above 0.8
/// and 4 above 0.85.
#[derive(Clone, Debug)]
pub struct TerrainSamples {
    pub solid: Vec<bool>,
    pub ore: Vec<u8>,
}

impl TerrainSamples {
    /// One sample for each block of a chunk.
    pub open spec fn wf(&self) -> bool {
        &&& self.solid@.len() == BLOCKS_PER_CHUNK
        &&& self.ore@.len() == BLOCKS_PER_CHUNK
    }
}

/// The random draws that decorate one column of a chunk: the surface
/// layers under water (one draw for each of the two layers right under the
/// surface) and the depth of the dirt on land.
#[derive(Clone, Copy, Debug)]
pub struct ColumnRolls {
    pub sediment_near: u32,
    pub sediment_far: u32,
    pub dirt: u64,
}

/// The block that the density and the ore grade give at height `z`.
pub open spec fn shaped_block(solid: bool, ore: u8, z: int) -> BlockType {
    if !solid {
        BlockType::BlockAir
    } else if ore >= 1 {
        if z < 16 && ore >= 4 {
            BlockType::BlockDiamondOre
        } else if z < 32 && ore >= 3 {
            BlockType::BlockGoldOre
        } else if z < 48 && ore >= 2 {
            BlockType::BlockIronOre
        } else {
            BlockType::BlockCoalOre
        }
    } else if z < BEDROCK {
        BlockType::BlockBedrock
    } else {
        BlockType::BlockStone
    }
}

/// The blocks of a chunk as the noise shapes them, before the surface is
/// decorated.
pub open spec fn shaped_blocks(solid: Seq<bool>, ore: Seq<u8>) -> Seq<BlockType> {
    Seq::new(BLOCKS_PER_CHUNK as nat, |i: int| shaped_block(solid[i], ore[i], index_z(i)))
}

/// The height of the highest block of column `(x, y)` below height `h` that is
/// not air, or -1 where there is none.
pub open spec fn column_top(blocks: Seq<BlockType>, x: int, y: int, h: int) -> int
    decreases h,
{
    if h <= 0 {
        -1
    } else if blocks[block_index(x, y, h - 1)] != BlockType::BlockAir {
        h - 1
    } else {
        column_top(blocks, x, y, h - 1)
    }
}

/// The block at height `z` of column `(x, y)` once its surface is decorated.
///
/// The highest solid block turns to sand below sea level and to grass above.
/// Under sand, stone at depth 1 and 2 turns to gravel where its draw is a
/// multiple of 3 and to sand otherwise, and stone at depth 3 turns to gravel.
/// Under grass, stone turns to dirt down to depth 2, or 3 where the dirt draw
/// is odd. Height 0 is never changed.
pub open spec fn decorated_block(blocks: Seq<BlockType>, r: ColumnRolls, x: int, y: int, z: int) -> BlockType {
    let t = column_top(blocks, x, y, 256);
    let b = blocks[block_index(x, y, z)];
    if t < 0 {
        b
    } else if t < SEA_LEVEL {
        if z == t {
            BlockType::BlockSand
        } else if z < t && t - z <= 3 && z > 0 && b == BlockType::BlockStone {
            if t - z == 1 {
                if r.sediment_near % 3 == 0 { BlockType::BlockGravel } else { BlockType::BlockSand }
            } else if t - z == 2 {
                if r.sediment_far % 3 == 0 { BlockType::BlockGravel } else { BlockType::BlockSand }
            } else {
                BlockType::BlockGravel
            }
        } else {
            b
        }
    } else {
        if z == t {
            BlockType::BlockGrass
        } else if z < t && t - z <= 2 + r.dirt % 2 && z > 0 && b == BlockType::BlockStone {
            BlockType::BlockDirt
        } else {
            b
        }
    }
}

/// The block at flat position `i` of a generated chunk: the shaped block,
/// decorated with the draws of its column (`rolls[x + 16 * y]`), and air below
/// sea level filled with water.
pub open spec fn terrain_block(solid: Seq<bool>, ore: Seq<u8>, rolls: Seq<ColumnRolls>, i: int) -> BlockType {
    let x = index_x(i);
    let y = index_y(i);
    let z = index_z(i);
    let b = decorated_block(shaped_blocks(solid, ore), rolls[x + 16 * y], x, y, z);
    if z < SEA_LEVEL && b == BlockType::BlockAir {
        BlockType::BlockWater
    } else {
        b
    }
}

/// The blocks of a chunk generated from its noise samples and draws.
pub open spec fn terrain_blocks(solid: Seq<bool>, ore: Seq<u8>, rolls: Seq<ColumnRolls>) -> Seq<BlockType> {
    Seq::new(BLOCKS_PER_CHUNK as nat, |i: int| terrain_block(solid, ore, rolls, i))
}

/// The surface decoration of every column, before the water fill.
spec fn decorated_blocks(base: Seq<BlockType>, rolls: Seq<ColumnRolls>) -> Seq<BlockType> {
    Seq::new(
        BLOCKS_PER_CHUNK as nat,
        |j: int| decorated_block(base, rolls[index_x(j) + 16 * index_y(j)], index_x(j), index_y(j), index_z(j)),
    )
}

proof fn lemma_column_top_range(blocks: Seq<BlockType>, x: int, y: int, h: int)
    ensures
        -1 <= column_top(blocks, x, y, h) < if h > 0 { h } else { 0 },
        column_top(blocks, x, y, h) >= 0 ==> blocks[block_index(x, y, column_top(blocks, x, y, h))]
            != BlockType::BlockAir,
    decreases h,
{
    if h > 0 {
        lemma_column_top_range(blocks, x, y, h - 1);
    }
}

proof fn lemma_column_top_same(a: Seq<BlockType>, b: Seq<BlockType>, x: int, y: int, h: int)
    requires
        forall|z: int| 0 <= z < h ==> a[block_index(x, y, z)] == b[block_index(x, y, z)],
    ensures
        column_top(a, x, y, h) == column_top(b, x, y, h),
    decreases h,
{
    if h > 0 {
        assert(a[block_index(x, y, h - 1)] == b[block_index(x, y, h - 1)]);
        lemma_column_top_same(a, b, x, y, h - 1);
    }
}

/// The block that the density and the ore grade give at height `z`.
fn shape_block(solid: bool, ore: u8, z: usize) -> (b: BlockType)
    ensures
        b == shaped_block(solid, ore, z as int),
{
    if !solid {
        BlockType::BlockAir
    } else if ore >= 1 {
        if z < 16 && ore >= 4 {
            BlockType::BlockDiamondOre
        } else if z < 32 && ore >= 3 {
            BlockType::BlockGoldOre
        } else if z < 48 && ore >= 2 {
            BlockType::BlockIronOre
        } else {
            BlockType::BlockCoalOre
        }
    } else if z < BEDROCK {
        BlockType::BlockBedrock
    } else {
        BlockType::BlockStone
    }
}

/// The height of the highest block of column `(x, y)` that is not air, or -1.
fn column_top_of(blocks: &[BlockType; BLOCKS_PER_CHUNK], x: usize, y: usize) -> (t: i32)
    requires
        x < 16,
        y < 16,
    ensures
        t == column_top(blocks@, x as int, y as int, 256),
        -1 <= t < 256,
{
    let mut h: usize = 256;
    while h > 0
        invariant
            h <= 256,
            x < 16,
            y < 16,
            column_top(blocks@, x as int, y as int, 256) == column_top(blocks@, x as int, y as int, h as int),
        decreases h,
    {
        proof {
            lemma_block_index(x as int, y as int, h - 1);
        }
        let i: usize = Chunk::index(x, y, h - 1);
        if blocks[i] != BlockType::BlockAir {
            return (h - 1) as i32;
        }
        h = h - 1;
    }
    -1
}

/// In column `(x, y)`, the block at flat position `j` has its decorated value
/// where its depth under `t` is below `d`, and is untouched elsewhere.
spec fn decorated_down_to(
    now: Seq<BlockType>,
    start: Seq<BlockType>,
    r: ColumnRolls,
    x: int,
    y: int,
    t: int,
    d: int,
) -> bool {
    forall|j: int|
        0 <= j < BLOCKS_PER_CHUNK ==> #[trigger] now[j] == if index_x(j) == x && index_y(j) == y
            && index_z(j) <= t && t - index_z(j) < d {
            decorated_block(start, r, x, y, index_z(j))
        } else {
            start[j]
        }
}

proof fn lemma_decorated_step(
    now: Seq<BlockType>,
    start: Seq<BlockType>,
    r: ColumnRolls,
    x: int,
    y: int,
    t: int,
    d: int,
    v: BlockType,
)
    requires
        0 <= x < 16,
        0 <= y < 16,
        0 < d <= t < 256,
        now.len() == BLOCKS_PER_CHUNK,
        start.len() == BLOCKS_PER_CHUNK,
        decorated_down_to(now, start, r, x, y, t, d),
        v == decorated_block(start, r, x, y, t - d),
    ensures
        decorated_down_to(now.update(block_index(x, y, t - d), v), start, r, x, y, t, d + 1),
{
    let k = block_index(x, y, t - d);
    lemma_block_index(x, y, t - d);
    assert forall|j: int| 0 <= j < BLOCKS_PER_CHUNK implies #[trigger] now.update(k, v)[j] == if index_x(j) == x
        && index_y(j) == y && index_z(j) <= t && t - index_z(j) < d + 1 {
        decorated_block(start, r, x, y, index_z(j))
    } else {
        start[j]
    } by {
        lemma_index_decode(j);
        assert(now[j] == now[j]);
    }
}

/// Decorates the surface of column `(x, y)` with the draws `r`.
fn decorate_column(blocks: &mut [BlockType; BLOCKS_PER_CHUNK], x: usize, y: usize, r: ColumnRolls)
    requires
        x < 16,
        y < 16,
    ensures
        forall|j: int|
            0 <= j < BLOCKS_PER_CHUNK ==> #[trigger] final(blocks)@[j] == if index_x(j) == x && index_y(j) == y {
                decorated_block(old(blocks)@, r, x as int, y as int, index_z(j))
            } else {
                old(blocks)@[j]
            },
{
    let ghost start = blocks@;
    let top: i32 = column_top_of(blocks, x, y);
    proof {
        lemma_column_top_range(start, x as int, y as int, 256);
    }
    if top >= 0 {
        let tz: usize = top as usize;
        proof {
            lemma_block_index(x as int, y as int, tz as int);
        }
        let index: usize = Chunk::index(x, y, tz);
        if tz < SEA_LEVEL {
            blocks[index] = BlockType::BlockSand;
            proof {
                lemma_decorated_step_top(start, r, x as int, y as int, top as int, BlockType::BlockSand);
            }
            cover_with_sediment(blocks, x, y, top, r, Ghost(start));
        } else {
            blocks[index] = BlockType::BlockGrass;
            proof {
                lemma_decorated_step_top(start, r, x as int, y as int, top as int, BlockType::BlockGrass);
            }
            cover_with_dirt(blocks, x, y, top, r, Ghost(start));
        }
    } else {
        proof {
            lemma_decorated_bare(start, r, x as int, y as int);
        }
    }
}

/// A column with no solid block is left as it is.
proof fn lemma_decorated_bare(start: Seq<BlockType>, r: ColumnRolls, x: int, y: int)
    requires
        0 <= x < 16,
        0 <= y < 16,
        column_top(start, x, y, 256) < 0,
    ensures
        forall|j: int|
            0 <= j < BLOCKS_PER_CHUNK ==> #[trigger] start[j] == if index_x(j) == x && index_y(j) == y {
                decorated_block(start, r, x, y, index_z(j))
            } else {
                start[j]
            },
{
    assert forall|j: int| 0 <= j < BLOCKS_PER_CHUNK implies #[trigger] start[j] == if index_x(j) == x
        && index_y(j) == y {
        decorated_block(start, r, x, y, index_z(j))
    } else {
        start[j]
    } by {
        lemma_index_decode(j);
    }
}

/// Under the sand at the top `top` of a column below sea level, turns stone to
/// sand or gravel down to depth 3.
fn cover_with_sediment(
    blocks: &mut [BlockType; BLOCKS_PER_CHUNK],
    x: usize,
    y: usize,
    top: i32,
    r: ColumnRolls,
    Ghost(start): Ghost<Seq<BlockType>>,
)
    requires
        x < 16,
        y < 16,
        0 <= top < SEA_LEVEL,
        top == column_top(start, x as int, y as int, 256),
        start.len() == BLOCKS_PER_CHUNK,
        decorated_down_to(old(blocks)@, start, r, x as int, y as int, top as int, 1),
    ensures
        forall|j: int|
            0 <= j < BLOCKS_PER_CHUNK ==> #[trigger] final(blocks)@[j] == if index_x(j) == x && index_y(j) == y {
                decorated_block(start, r, x as int, y as int, index_z(j))
            } else {
                start[j]
            },
{
    let ghost (xs, ys) = (x as int, y as int);
    let mut d: i32 = 1;
    while d <= 3
        invariant
            1 <= d <= 4,
            x < 16,
            y < 16,
            0 <= top < 25,
            top == column_top(start, xs, ys, 256),
            xs == x,
            ys == y,
            start.len() == BLOCKS_PER_CHUNK,
            blocks@.len() == BLOCKS_PER_CHUNK,
            decorated_down_to(blocks@, start, r, xs, ys, top as int, d as int),
        decreases 4 - d,
    {
        let below_z: i32 = top - d;
        if below_z > 0 {
            proof {
                lemma_block_index(xs, ys, below_z as int);
            }
            let below_index: usize = Chunk::index(x, y, below_z as usize);
            let ghost before = blocks@;
            assert(blocks@[below_index as int] == start[below_index as int]);
            if blocks[below_index] == BlockType::BlockStone {
                let v = if d <= 2 {
                    let roll = if d == 1 { r.sediment_near } else { r.sediment_far };
                    if roll % 3 == 0 { BlockType::BlockGravel } else { BlockType::BlockSand }
                } else {
                    BlockType::BlockGravel
                };
                blocks[below_index] = v;
                proof {
                    lemma_decorated_step(before, start, r, xs, ys, top as int, d as int, v);
                }
            } else {
                proof {
                    lemma_decorated_step(before, start, r, xs, ys, top as int, d as int, start[below_index as int]);
                    assert(before.update(below_index as int, start[below_index as int]) =~= before);
                }
            }
        } else {
            proof {
                lemma_decorated_skip(blocks@, start, r, xs, ys, top as int, d as int);
            }
        }
        d = d + 1;
    }
    proof {
        lemma_decorated_done(blocks@, start, r, xs, ys, top as int, 4);
    }
}

/// Under the grass at the top `top` of a column at or above sea level, turns
/// stone to dirt down to the depth that the dirt draw gives.
fn cover_with_dirt(
    blocks: &mut [BlockType; BLOCKS_PER_CHUNK],
    x: usize,
    y: usize,
    top: i32,
    r: ColumnRolls,
    Ghost(start): Ghost<Seq<BlockType>>,
)
    requires
        x < 16,
        y < 16,
        SEA_LEVEL <= top < 256,
        top == column_top(start, x as int, y as int, 256),
        start.len() == BLOCKS_PER_CHUNK,
        decorated_down_to(old(blocks)@, start, r, x as int, y as int, top as int, 1),
    ensures
        forall|j: int|
            0 <= j < BLOCKS_PER_CHUNK ==> #[trigger] final(blocks)@[j] == if index_x(j) == x && index_y(j) == y {
                decorated_block(start, r, x as int, y as int, index_z(j))
            } else {
                start[j]
            },
{
    let ghost (xs, ys) = (x as int, y as int);
    let dirt_depth: usize = 2 + (r.dirt % 2) as usize;
    let mut d: usize = 1;
    while d <= dirt_depth
        invariant
            1 <= d <= dirt_depth + 1,
            dirt_depth == 2 + r.dirt % 2,
            x < 16,
            y < 16,
            25 <= top < 256,
            top == column_top(start, xs, ys, 256),
            xs == x,
            ys == y,
            start.len() == BLOCKS_PER_CHUNK,
            blocks@.len() == BLOCKS_PER_CHUNK,
            decorated_down_to(blocks@, start, r, xs, ys, top as int, d as int),
        decreases dirt_depth + 1 - d,
    {
        let dirt_z: i32 = top - d as i32;
        if dirt_z > 0 {
            proof {
                lemma_block_index(xs, ys, dirt_z as int);
            }
            let dirt_index: usize = Chunk::index(x, y, dirt_z as usize);
            let ghost before = blocks@;
            assert(blocks@[dirt_index as int] == start[dirt_index as int]);
            if blocks[dirt_index] == BlockType::BlockStone {
                blocks[dirt_index] = BlockType::BlockDirt;
                proof {
                    lemma_decorated_step(before, start, r, xs, ys, top as int, d as int, BlockType::BlockDirt);
                }
            } else {
                proof {
                    lemma_decorated_step(before, start, r, xs, ys, top as int, d as int, start[dirt_index as int]);
                    assert(before.update(dirt_index as int, start[dirt_index as int]) =~= before);
                }
            }
        } else {
            proof {
                lemma_decorated_skip(blocks@, start, r, xs, ys, top as int, d as int);
            }
        }
        d = d + 1;
    }
    proof {
        lemma_decorated_done(blocks@, start, r, xs, ys, top as int, dirt_depth as int + 1);
    }
}

/// The top of the column takes its decorated value first.
proof fn lemma_decorated_step_top(start: Seq<BlockType>, r: ColumnRolls, x: int, y: int, t: int, v: BlockType)
    requires
        0 <= x < 16,
        0 <= y < 16,
        0 <= t < 256,
        start.len() == BLOCKS_PER_CHUNK,
        v == decorated_block(start, r, x, y, t),
    ensures
        decorated_down_to(start.update(block_index(x, y, t), v), start, r, x, y, t, 1),
{
    let k = block_index(x, y, t);
    lemma_block_index(x, y, t);
    assert forall|j: int| 0 <= j < BLOCKS_PER_CHUNK implies #[trigger] start.update(k, v)[j] == if index_x(j) == x
        && index_y(j) == y && index_z(j) <= t && t - index_z(j) < 1 {
        decorated_block(start, r, x, y, index_z(j))
    } else {
        start[j]
    } by {
        lemma_index_decode(j);
    }
}

/// Depth `d` reaches height 0 or below: the block there keeps its value.
proof fn lemma_decorated_skip(now: Seq<BlockType>, start: Seq<BlockType>, r: ColumnRolls, x: int, y: int, t: int, d: int)
    requires
        0 <= x < 16,
        0 <= y < 16,
        0 <= t < 256,
        t - d <= 0,
        0 < d,
        t == column_top(start, x, y, 256),
        start.len() == BLOCKS_PER_CHUNK,
        decorated_down_to(now, start, r, x, y, t, d),
    ensures
        decorated_down_to(now, start, r, x, y, t, d + 1),
{
    assert forall|j: int| 0 <= j < BLOCKS_PER_CHUNK implies #[trigger] now[j] == if index_x(j) == x
        && index_y(j) == y && index_z(j) <= t && t - index_z(j) < d + 1 {
        decorated_block(start, r, x, y, index_z(j))
    } else {
        start[j]
    } by {
        lemma_index_decode(j);
    }
}

/// Once the decoration has gone deep enough, the whole column is decorated.
proof fn lemma_decorated_done(now: Seq<BlockType>, start: Seq<BlockType>, r: ColumnRolls, x: int, y: int, t: int, d: int)
    requires
        0 <= x < 16,
        0 <= y < 16,
        0 <= t < 256,
        t == column_top(start, x, y, 256),
        t < SEA_LEVEL ==> d == 4,
        t >= SEA_LEVEL ==> d == 3 + r.dirt % 2,
        start.len() == BLOCKS_PER_CHUNK,
        decorated_down_to(now, start, r, x, y, t, d),
    ensures
        forall|j: int|
            0 <= j < BLOCKS_PER_CHUNK ==> #[trigger] now[j] == if index_x(j) == x && index_y(j) == y {
                decorated_block(start, r, x, y, index_z(j))
            } else {
                start[j]
            },
{
    assert forall|j: int| 0 <= j < BLOCKS_PER_CHUNK implies #[trigger] now[j] == if index_x(j) == x
        && index_y(j) == y {
        decorated_block(start, r, x, y, index_z(j))
    } else {
        start[j]
    } by {
        lemma_index_decode(j);
    }
}

proof fn lemma_decorated_same_column(a: Seq<BlockType>, b: Seq<BlockType>, r: ColumnRolls, x: int, y: int)
    requires
        0 <= x < 16,
        0 <= y < 16,
        forall|z: int| 0 <= z < 256 ==> a[block_index(x, y, z)] == b[block_index(x, y, z)],
    ensures
        forall|z: int| 0 <= z < 256 ==> decorated_block(a, r, x, y, z) == decorated_block(b, r, x, y, z),
{
    lemma_column_top_same(a, b, x, y, 256);
}

/// The blocks of a chunk at `xy` generated from its noise samples, with the
/// draws `rolls[x + 16 * y]` for the column `(x, y)`.
///
/// Solid positions become stone, ore or (below `BEDROCK`) bedrock as the ore
/// grade and the height say; the surface of each column is then decorated;
/// and air below `SEA_LEVEL` turns to water.
pub fn build_terrain(xy: Vector2i, samples: &TerrainSamples, rolls: &Vec<ColumnRolls>) -> (chunk: Chunk)
    requires
        samples.wf(),
        rolls@.len() == 256,
    ensures
        chunk.xy == xy,
        chunk.blocks@ == terrain_blocks(samples.solid@, samples.ore@, rolls@),
        forall|i: int|
            0 <= i < BLOCKS_PER_CHUNK ==> (#[trigger] chunk.blocks@[i] == BlockType::BlockAir <==> !samples.solid@[i]
                && index_z(i) >= SEA_LEVEL),
{
    let ghost base = shaped_blocks(samples.solid@, samples.ore@);
    let mut blocks = [BlockType::BlockAir; BLOCKS_PER_CHUNK];
    let mut i: usize = 0;
    while i < BLOCKS_PER_CHUNK
        invariant
            i <= BLOCKS_PER_CHUNK,
            samples.wf(),
            base == shaped_blocks(samples.solid@, samples.ore@),
            blocks@.len() == BLOCKS_PER_CHUNK,
            forall|j: int| 0 <= j < i ==> #[trigger] blocks@[j] == base[j],
        decreases BLOCKS_PER_CHUNK - i,
    {
        blocks[i] = shape_block(samples.solid[i], samples.ore[i], i / 256);
        i = i + 1;
    }
    assert(blocks@ =~= base);
    let ghost decorated = decorated_blocks(base, rolls@);
    let mut c: usize = 0;
    while c < 256
        invariant
            c <= 256,
            rolls@.len() == 256,
            base.len() == BLOCKS_PER_CHUNK,
            decorated == decorated_blocks(base, rolls@),
            blocks@.len() == BLOCKS_PER_CHUNK,
            forall|j: int|
                0 <= j < BLOCKS_PER_CHUNK ==> #[trigger] blocks@[j] == if index_x(j) + 16 * index_y(j) < c {
                    decorated[j]
                } else {
                    base[j]
                },
        decreases 256 - c,
    {
        let x: usize = c % 16;
        let y: usize = c / 16;
        let ghost before = blocks@;
        proof {
            assert forall|z: int| 0 <= z < 256 implies before[block_index(x as int, y as int, z)]
                == base[block_index(x as int, y as int, z)] by {
                lemma_block_index(x as int, y as int, z);
            }
            lemma_decorated_same_column(before, base, rolls@[c as int], x as int, y as int);
        }
        decorate_column(&mut blocks, x, y, rolls[c]);
        proof {
            assert forall|j: int| 0 <= j < BLOCKS_PER_CHUNK implies #[trigger] blocks@[j] == if index_x(j) + 16
                * index_y(j) < c + 1 {
                decorated[j]
            } else {
                base[j]
            } by {
                lemma_index_decode(j);
                assert(before[j] == before[j]);
            }
        }
        c = c + 1;
    }
    let mut i: usize = 0;
    while i < SEA_LEVEL * 256
        invariant
            i <= 6400,
            blocks@.len() == BLOCKS_PER_CHUNK,
            decorated.len() == BLOCKS_PER_CHUNK,
            forall|j: int|
                0 <= j < BLOCKS_PER_CHUNK ==> #[trigger] blocks@[j] == if j < i && decorated[j] == BlockType::BlockAir {
                    BlockType::BlockWater
                } else {
                    decorated[j]
                },
        decreases 6400 - i,
    {
        if blocks[i] == BlockType::BlockAir {
            blocks[i] = BlockType::BlockWater;
        }
        i = i + 1;
    }
    proof {
        assert forall|j: int| 0 <= j < BLOCKS_PER_CHUNK implies #[trigger] blocks@[j] == terrain_block(
            samples.solid@,
            samples.ore@,
            rolls@,
            j,
        ) by {
            lemma_index_decode(j);
        }
        assert(blocks@ =~= terrain_blocks(samples.solid@, samples.ore@, rolls@));
        assert forall|i: int| 0 <= i < BLOCKS_PER_CHUNK implies (#[trigger] blocks@[i] == BlockType::BlockAir
            <==> !samples.solid@[i] && index_z(i) >= SEA_LEVEL) by {
            lemma_index_decode(i);
            lemma_decoration_keeps_air(base, rolls@[index_x(i) + 16 * index_y(i)], index_x(i), index_y(i), index_z(i));
        }
    }
    Chunk { blocks, xy }
}

/// Draws a random `u32` from `rand::random`.
///
/// Nothing is stated of the value: it comes from the thread's random number
/// generator.
#[verifier::external_body]
fn random_u32() -> u32 {
    rand::random::<u32>()
}

/// Draws a random `u64` from `rand::random`.
///
/// Nothing is stated of the value: it comes from the thread's random number
/// generator.
#[verifier::external_body]
fn random_u64() -> u64 {
    rand::random::<u64>()
}

/// Fresh random draws for the 256 columns of a chunk.
pub fn draw_column_rolls() -> (rolls: Vec<ColumnRolls>)
    ensures
        rolls@.len() == 256,
{
    let mut rolls: Vec<ColumnRolls> = Vec::new();
    let mut c: usize = 0;
    while c < 256
        invariant
            c <= 256,
            rolls@.len() == c,
        decreases 256 - c,
    {
        let sediment_near = random_u32();
        let sediment_far = random_u32();
        let dirt = random_u64();
        rolls.push(ColumnRolls { sediment_near, sediment_far, dirt });
        c = c + 1;
    }
    rolls
}

/// The hash of lattice point `(x, y, z)` under `seed` that value noise is made
/// of: products with three primes mixed by exclusive or, a quadratic scramble,
/// a fold of the high bits onto the low ones, and the low 31 bits kept. All
/// products and sums wrap around on 64 bits.
pub open spec fn lattice_hash(x: i64, y: i64, z: i64, seed: i64) -> i64 {
    let n0 = vstd::wrapping::i64_specs::wrapping_mul(x, 73856093) ^ vstd::wrapping::i64_specs::wrapping_mul(
        y,
        19349663,
    ) ^ vstd::wrapping::i64_specs::wrapping_mul(z, 83492791) ^ seed;
    let n1 = vstd::wrapping::i64_specs::wrapping_mul(
        n0,
        vstd::wrapping::i64_specs::wrapping_add(vstd::wrapping::i64_specs::wrapping_mul(n0, 60493), 19990303),
    );
    let n2 = n1 ^ (n1 >> 19u64);
    n2 & 0x7fffffff
}

/// The hash of lattice point `(x, y, z)` under `seed`, between 0 and
/// `0x7fffffff`; the noise value there is this hash over `2^30`, less one.
pub fn hash_lattice_point(x: i64, y: i64, z: i64, seed: i64) -> (h: i64)
    ensures
        h == lattice_hash(x, y, z, seed),
        0 <= h <= 0x7fffffff,
{
    let mut n: i64 = x.wrapping_mul(73856093) ^ y.wrapping_mul(19349663) ^ z.wrapping_mul(83492791) ^ seed;
    n = n.wrapping_mul(n.wrapping_mul(60493).wrapping_add(19990303));
    n = n ^ (n >> 19u64);
    let h: i64 = n & 0x7fffffff;
    assert(0 <= n & 0x7fffffff <= 0x7fffffff) by (bit_vector);
    h
}

/// Decoration turns no air into a block and no block into air.
proof fn lemma_decoration_keeps_air(blocks: Seq<BlockType>, r: ColumnRolls, x: int, y: int, z: int)
    requires
        0 <= x < 16,
        0 <= y < 16,
        0 <= z < 256,
    ensures
        (decorated_block(blocks, r, x, y, z) == BlockType::BlockAir) == (blocks[block_index(x, y, z)]
            == BlockType::BlockAir),
{
    lemma_column_top_range(blocks, x, y, 256);
}

proof fn lemma_column_top_above(blocks: Seq<BlockType>, x: int, y: int, h: int)
    ensures
        forall|z: int|
            column_top(blocks, x, y, h) < z < h ==> #[trigger] blocks[block_index(x, y, z)] == BlockType::BlockAir,
    decreases h,
{
    if h > 0 {
        lemma_column_top_above(blocks, x, y, h - 1);
    }
}

/// The top of a column is its highest block that is not air: no block above
/// it is anything but air, and the top itself is not air. Where the column is
/// all air, its top is -1.
pub proof fn lemma_column_top_is_highest(blocks: Seq<BlockType>, x: int, y: int)
    ensures
        -1 <= column_top(blocks, x, y, 256) < 256,
        column_top(blocks, x, y, 256) >= 0 ==> blocks[block_index(x, y, column_top(blocks, x, y, 256))]
            != BlockType::BlockAir,
        forall|z: int|
            column_top(blocks, x, y, 256) < z < 256 ==> #[trigger] blocks[block_index(x, y, z)]
                == BlockType::BlockAir,
{
    lemma_column_top_range(blocks, x, y, 256);
    lemma_column_top_above(blocks, x, y, 256);
}

/// A block that is not air, with only air above it, is the top of its column.
proof fn lemma_column_top_at(blocks: Seq<BlockType>, x: int, y: int, t: int, h: int)
    requires
        0 <= t < h,
        blocks[block_index(x, y, t)] != BlockType::BlockAir,
        forall|z: int| t < z < h ==> #[trigger] blocks[block_index(x, y, z)] == BlockType::BlockAir,
    ensures
        column_top(blocks, x, y, h) == t,
    decreases h,
{
    if h - 1 > t {
        assert(blocks[block_index(x, y, h - 1)] == BlockType::BlockAir);
        lemma_column_top_at(blocks, x, y, t, h - 1);
    }
}

/// The sample at height `z` of column `(x, y)` is solid stone: solid, with no
/// ore, at or above the bedrock.
pub open spec fn stone_sample(solid: Seq<bool>, ore: Seq<u8>, x: int, y: int, z: int) -> bool {
    &&& solid[block_index(x, y, z)]
    &&& ore[block_index(x, y, z)] == 0
    &&& z >= BEDROCK
}

/// The surface of a generated column, in terms of the samples and the draws.
///
/// Let `t` be the highest solid sample of column `(x, y)`. Above it there is
/// water below sea level and air from sea level up. At or above sea level the
/// top turns to grass, and the stone under it to dirt down to depth 2, or 3
/// where the dirt draw is odd. Below sea level the top turns to sand; the
/// stone at depth 1 turns to gravel where `sediment_near` is a multiple of 3
/// and to sand otherwise, at depth 2 likewise by `sediment_far`, and at depth
/// 3 to gravel. Height 0 keeps what the samples give it.
pub proof fn lemma_terrain_surface(
    solid: Seq<bool>,
    ore: Seq<u8>,
    rolls: Seq<ColumnRolls>,
    x: int,
    y: int,
    t: int,
)
    requires
        solid.len() == BLOCKS_PER_CHUNK,
        ore.len() == BLOCKS_PER_CHUNK,
        rolls.len() == 256,
        0 <= x < 16,
        0 <= y < 16,
        0 <= t < 256,
        solid[block_index(x, y, t)],
        forall|z: int| t < z < 256 ==> !#[trigger] solid[block_index(x, y, z)],
    ensures
        ({
            let b = terrain_blocks(solid, ore, rolls);
            let r = rolls[x + 16 * y];
            &&& forall|z: int|
                t < z < 256 ==> #[trigger] b[block_index(x, y, z)] == if z < SEA_LEVEL {
                    BlockType::BlockWater
                } else {
                    BlockType::BlockAir
                }
            &&& t >= SEA_LEVEL ==> b[block_index(x, y, t)] == BlockType::BlockGrass
            &&& t >= SEA_LEVEL ==> forall|z: int|
                0 < z < t && t - z <= 2 + r.dirt % 2 && stone_sample(solid, ore, x, y, z) ==> #[trigger] b[block_index(
                    x,
                    y,
                    z,
                )] == BlockType::BlockDirt
            &&& t < SEA_LEVEL ==> b[block_index(x, y, t)] == BlockType::BlockSand
            &&& t < SEA_LEVEL && t - 1 > 0 && stone_sample(solid, ore, x, y, t - 1) ==> b[block_index(x, y, t - 1)]
                == if r.sediment_near % 3 == 0 {
                BlockType::BlockGravel
            } else {
                BlockType::BlockSand
            }
            &&& t < SEA_LEVEL && t - 2 > 0 && stone_sample(solid, ore, x, y, t - 2) ==> b[block_index(x, y, t - 2)]
                == if r.sediment_far % 3 == 0 {
                BlockType::BlockGravel
            } else {
                BlockType::BlockSand
            }
            &&& t < SEA_LEVEL && t - 3 > 0 && stone_sample(solid, ore, x, y, t - 3) ==> b[block_index(x, y, t - 3)]
                == BlockType::BlockGravel
            &&& forall|z: int|
                0 <= z < t && stone_sample(solid, ore, x, y, z) && (t - z > if t < SEA_LEVEL {
                    3
                } else {
                    2 + r.dirt % 2
                }) ==> #[trigger] b[block_index(x, y, z)] == BlockType::BlockStone
            &&& forall|z: int|
                0 <= z < t && !solid[block_index(x, y, z)] ==> #[trigger] b[block_index(x, y, z)] == if z
                    < SEA_LEVEL {
                    BlockType::BlockWater
                } else {
                    BlockType::BlockAir
                }
        }),
{
    lemma_terrain_column(solid, ore, rolls, x, y, t);
    let base = shaped_blocks(solid, ore);
    let r = rolls[x + 16 * y];
    let b = terrain_blocks(solid, ore, rolls);
    if t < SEA_LEVEL {
        lemma_shore_layer(solid, ore, r, x, y, t, 1);
        lemma_shore_layer(solid, ore, r, x, y, t, 2);
        lemma_shore_layer(solid, ore, r, x, y, t, 3);
    }
}

/// Under the sand of a column below sea level, the stone at depth `d`.
proof fn lemma_shore_layer(solid: Seq<bool>, ore: Seq<u8>, r: ColumnRolls, x: int, y: int, t: int, d: int)
    requires
        solid.len() == BLOCKS_PER_CHUNK,
        ore.len() == BLOCKS_PER_CHUNK,
        0 <= x < 16,
        0 <= y < 16,
        0 <= t < SEA_LEVEL,
        1 <= d <= 3,
        column_top(shaped_blocks(solid, ore), x, y, 256) == t,
        t - d > 0 ==> shaped_blocks(solid, ore)[block_index(x, y, t - d)] == shaped_block(
            solid[block_index(x, y, t - d)],
            ore[block_index(x, y, t - d)],
            t - d,
        ),
    ensures
        t - d > 0 && stone_sample(solid, ore, x, y, t - d) ==> {
            let v = decorated_block(shaped_blocks(solid, ore), r, x, y, t - d);
            &&& v == BlockType::BlockGravel || v == BlockType::BlockSand
            &&& d == 1 ==> ((v == BlockType::BlockGravel) <==> r.sediment_near % 3 == 0)
            &&& d == 2 ==> ((v == BlockType::BlockGravel) <==> r.sediment_far % 3 == 0)
            &&& d == 3 ==> v == BlockType::BlockGravel
        },
{
}

/// In a generated column with highest solid sample `t`, each block is the
/// shaped block decorated with the column's draws around the top `t`, and air
/// below sea level filled with water.
proof fn lemma_terrain_column(solid: Seq<bool>, ore: Seq<u8>, rolls: Seq<ColumnRolls>, x: int, y: int, t: int)
    requires
        solid.len() == BLOCKS_PER_CHUNK,
        ore.len() == BLOCKS_PER_CHUNK,
        rolls.len() == 256,
        0 <= x < 16,
        0 <= y < 16,
        0 <= t < 256,
        solid[block_index(x, y, t)],
        forall|z: int| t < z < 256 ==> !#[trigger] solid[block_index(x, y, z)],
    ensures
        column_top(shaped_blocks(solid, ore), x, y, 256) == t,
        forall|z: int|
            0 <= z < 256 ==> #[trigger] shaped_blocks(solid, ore)[block_index(x, y, z)] == shaped_block(
                solid[block_index(x, y, z)],
                ore[block_index(x, y, z)],
                z,
            ),
        forall|z: int|
            0 <= z < 256 ==> #[trigger] terrain_blocks(solid, ore, rolls)[block_index(x, y, z)] == {
                let d = decorated_block(shaped_blocks(solid, ore), rolls[x + 16 * y], x, y, z);
                if z < SEA_LEVEL && d == BlockType::BlockAir {
                    BlockType::BlockWater
                } else {
                    d
                }
            },
{
    let base = shaped_blocks(solid, ore);
    assert forall|z: int| 0 <= z < 256 implies #[trigger] base[block_index(x, y, z)] == shaped_block(
        solid[block_index(x, y, z)],
        ore[block_index(x, y, z)],
        z,
    ) by {
        lemma_block_index(x, y, z);
    }
    assert forall|z: int| t < z < 256 implies #[trigger] base[block_index(x, y, z)] == BlockType::BlockAir by {
        assert(!solid[block_index(x, y, z)]);
    }
    assert(base[block_index(x, y, t)] != BlockType::BlockAir);
    lemma_column_top_at(base, x, y, t, 256);
    assert forall|z: int| 0 <= z < 256 implies #[trigger] terrain_blocks(solid, ore, rolls)[block_index(x, y, z)] == {
        let d = decorated_block(base, rolls[x + 16 * y], x, y, z);
        if z < SEA_LEVEL && d == BlockType::BlockAir { BlockType::BlockWater } else { d }
    } by {
        lemma_block_index(x, y, z);
    }
}

/// What shaping gives a position: air exactly where the density is not
/// positive; where it is, bedrock or stone where there is no ore (bedrock
/// below `BEDROCK`), and otherwise ore: diamond only below height 16 at the
/// highest grade, gold only below 32 at grade 3 or more, iron only below 48 at
/// grade 2 or more, and coal where none of these fits.
pub proof fn lemma_shaped_block_kinds(solid: bool, ore: u8, z: int)
    ensures
        (shaped_block(solid, ore, z) == BlockType::BlockAir) == !solid,
        solid && ore == 0 && z < BEDROCK ==> shaped_block(solid, ore, z) == BlockType::BlockBedrock,
        solid && ore == 0 && z >= BEDROCK ==> shaped_block(solid, ore, z) == BlockType::BlockStone,
        solid && ore >= 1 ==> {
            let b = shaped_block(solid, ore, z);
            &&& (b == BlockType::BlockDiamondOre) == (z < 16 && ore >= 4)
            &&& (b == BlockType::BlockGoldOre) == (!(z < 16 && ore >= 4) && z < 32 && ore >= 3)
            &&& (b == BlockType::BlockIronOre) == (!(z < 16 && ore >= 4) && !(z < 32 && ore >= 3) && z < 48
                && ore >= 2)
            &&& (b == BlockType::BlockCoalOre) == (!(z < 16 && ore >= 4) && !(z < 32 && ore >= 3) && !(z < 48
                && ore >= 2))
        },
{
}

} // verus!
