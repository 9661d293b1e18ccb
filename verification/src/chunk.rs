use vstd::prelude::*;
use crate::vector::{Vector2i, Vector3i};

verus! {

/// Width of a chunk along `x` and along `y`, in blocks.
pub const CHUNK_SIZE: usize = 16;
/// Height of a chunk along `z`, in blocks.
pub const CHUNK_HEIGHT: usize = 256;
/// Number of blocks a chunk holds.
pub const BLOCKS_PER_CHUNK: usize = CHUNK_SIZE * CHUNK_SIZE * CHUNK_HEIGHT;

/// The material of one block.
#[derive(Clone, Copy, PartialEq, Eq, Structural, Debug)]
pub enum BlockType {
    BlockAir,
    BlockStone,
    BlockGrass,
    BlockDirt,
    BlockSand,
    BlockGravel,
    BlockWater,
    BlockCoalOre,
    BlockIronOre,
    BlockGoldOre,
    BlockDiamondOre,
    BlockBedrock,
}

/// A piece of the world: `CHUNK_SIZE` by `CHUNK_SIZE` blocks of
/// ground, `CHUNK_HEIGHT` blocks high, placed at chunk coordinates `xy`.
#[derive(Clone, Copy)]
pub struct Chunk {
    /// Blocks stored flat; the block at `(x, y, z)` sits at `Chunk::index(x, y, z)`.
    pub blocks: [BlockType; BLOCKS_PER_CHUNK],
    pub xy: Vector2i,
}

/// Where the block at `(x, y, z)` sits in a chunk's flat storage.
pub open spec fn block_index(x: int, y: int, z: int) -> int {
    x + 16 * y + 256 * z
}

/// `(x, y, z)` names a block inside a chunk.
pub open spec fn in_chunk(x: int, y: int, z: int) -> bool {
    0 <= x < 16 && 0 <= y < 16 && 0 <= z < 256
}

/// The `x` of the block stored at flat position `i`.
pub open spec fn index_x(i: int) -> int {
    i % 16
}

/// The `y` of the block stored at flat position `i`.
pub open spec fn index_y(i: int) -> int {
    (i / 16) % 16
}

/// The `z` of the block stored at flat position `i`.
pub open spec fn index_z(i: int) -> int {
    i / 256
}

/// Each block inside a chunk has its own flat position, and the flat positions
/// of the blocks are exactly `0 .. BLOCKS_PER_CHUNK`.
pub proof fn lemma_block_index(x: int, y: int, z: int)
    requires
        in_chunk(x, y, z),
    ensures
        0 <= block_index(x, y, z) < BLOCKS_PER_CHUNK,
        index_x(block_index(x, y, z)) == x,
        index_y(block_index(x, y, z)) == y,
        index_z(block_index(x, y, z)) == z,
{
    assert(BLOCKS_PER_CHUNK == 65536);
    let i = x + 16 * y + 256 * z;
    assert(i % 16 == x && i / 16 == y + 16 * z) by (nonlinear_arith)
        requires
            i == x + 16 * y + 256 * z,
            0 <= x < 16,
            0 <= y < 16,
            0 <= z,
    ;
    assert((y + 16 * z) % 16 == y) by (nonlinear_arith)
        requires
            0 <= y < 16,
            0 <= z,
    ;
    assert(i / 256 == z) by (nonlinear_arith)
        requires
            i == x + 16 * y + 256 * z,
            0 <= x < 16,
            0 <= y < 16,
    ;
}

/// Every flat position of a chunk names one block inside it.
pub proof fn lemma_index_decode(i: int)
    requires
        0 <= i < BLOCKS_PER_CHUNK,
    ensures
        in_chunk(index_x(i), index_y(i), index_z(i)),
        block_index(index_x(i), index_y(i), index_z(i)) == i,
        i % 256 == index_x(i) + 16 * index_y(i),
        (i < 6400) == (index_z(i) < 25),
{
    assert(BLOCKS_PER_CHUNK == 65536);
    assert(0 <= i % 16 < 16 && 0 <= (i / 16) % 16 < 16 && 0 <= i / 256 < 256
        && i % 16 + 16 * ((i / 16) % 16) + 256 * (i / 256) == i) by (nonlinear_arith)
        requires
            0 <= i < 65536,
    {
        assert(i == 16 * (i / 16) + i % 16);
        let j = i / 16;
        assert(j == 16 * (j / 16) + j % 16);
        assert(j / 16 == i / 256);
    }
    assert(i % 256 == i % 16 + 16 * ((i / 16) % 16) && ((i < 6400) == (i / 256 < 25))) by (nonlinear_arith)
        requires
            0 <= i < 65536,
            i == i % 16 + 16 * ((i / 16) % 16) + 256 * (i / 256),
            0 <= i % 16 < 16,
            0 <= (i / 16) % 16 < 16,
    {
        assert(i == 256 * (i / 256) + i % 256);
    }
}

impl Chunk {
    /// The block at `(x, y, z)`, for a position inside the chunk.
    pub open spec fn block_at(&self, x: int, y: int, z: int) -> BlockType {
        self.blocks@[block_index(x, y, z)]
    }

    /// The flat position of the block at `(x, y, z)`.
    pub fn index(x: usize, y: usize, z: usize) -> (i: usize)
        requires
            x + 16 * y + 256 * z <= usize::MAX,
        ensures
            i == block_index(x as int, y as int, z as int),
    {
        x + y * CHUNK_SIZE + z * CHUNK_SIZE * CHUNK_SIZE
    }

    /// The block at `xyz`, or `None` where `xyz` lies outside the chunk.
    pub fn get_block(&self, xyz: Vector3i) -> (b: Option<BlockType>)
        ensures
            in_chunk(xyz.x as int, xyz.y as int, xyz.z as int) ==> b == Some(
                self.block_at(xyz.x as int, xyz.y as int, xyz.z as int),
            ),
            !in_chunk(xyz.x as int, xyz.y as int, xyz.z as int) ==> b is None,
    {
        if xyz.x < 0 || xyz.x >= CHUNK_SIZE as i32 || xyz.y < 0 || xyz.y >= CHUNK_SIZE as i32
            || xyz.z < 0 || xyz.z >= CHUNK_HEIGHT as i32 {
            return None;
        }
        let index: usize = Self::index(xyz.x as usize, xyz.y as usize, xyz.z as usize);
        proof {
            lemma_block_index(xyz.x as int, xyz.y as int, xyz.z as int);
        }
        Some(self.blocks[index])
    }

    /// A chunk at `xy` made of air only.
    pub fn new(xy: Vector2i) -> (c: Self)
        ensures
            c.xy == xy,
            forall|i: int| 0 <= i < BLOCKS_PER_CHUNK ==> #[trigger] c.blocks@[i] == BlockType::BlockAir,
    {
        Self { blocks: [BlockType::BlockAir; BLOCKS_PER_CHUNK], xy }
    }
}

} // verus!
