use block_game::chunk::{BlockType, Chunk, BLOCKS_PER_CHUNK};
use block_game::chunk_manager::{ChunkManager, SEA_LEVEL};
use block_game::terrain::{build_terrain, hash_lattice_point, ColumnRolls, TerrainSamples};
use block_game::vector::Vector2i;

fn samples(solid: impl Fn(usize, usize, usize) -> bool, ore: impl Fn(usize, usize, usize) -> u8) -> TerrainSamples {
    let mut s = TerrainSamples { solid: vec![false; BLOCKS_PER_CHUNK], ore: vec![0; BLOCKS_PER_CHUNK] };
    for x in 0..16 {
        for y in 0..16 {
            for z in 0..256 {
                let i = Chunk::index(x, y, z);
                s.solid[i] = solid(x, y, z);
                s.ore[i] = ore(x, y, z);
            }
        }
    }
    s
}

fn rolls(near: u32, far: u32, dirt: u64) -> Vec<ColumnRolls> {
    vec![ColumnRolls { sediment_near: near, sediment_far: far, dirt }; 256]
}

fn at(chunk: &Chunk, x: usize, y: usize, z: usize) -> BlockType {
    chunk.blocks[Chunk::index(x, y, z)]
}

#[test]
fn lattice_hash_values() {
    assert_eq!(hash_lattice_point(0, 0, 0, 0), 0);
    assert_eq!(hash_lattice_point(1, 2, 3, 0), 1431828248);
    assert_eq!(hash_lattice_point(100000, 100000, 100000, 10), 79134369);
    assert_eq!(hash_lattice_point(-5, 7, -9, 30), 1425815216);
}

#[test]
fn lattice_hash_stays_in_31_bits() {
    for x in -20..20i64 {
        for seed in [0i64, 10, 20, i64::MAX, i64::MIN] {
            let h = hash_lattice_point(x * 7919, x * x, -x, seed);
            assert!((0..=0x7fffffff).contains(&h));
        }
    }
}

#[test]
fn empty_samples_give_water_below_sea_level() {
    let s = samples(|_, _, _| false, |_, _, _| 0);
    let chunk = Box::new(build_terrain(Vector2i::new(2, 3), &s, &rolls(0, 0, 0)));
    assert_eq!(chunk.xy.x, 2);
    assert_eq!(chunk.xy.y, 3);
    for z in 0..256 {
        let expected = if z < SEA_LEVEL { BlockType::BlockWater } else { BlockType::BlockAir };
        assert_eq!(at(&chunk, 4, 9, z), expected);
    }
}

#[test]
fn land_column_gets_grass_and_dirt() {
    let s = samples(|_, _, z| z < 40, |_, _, _| 0);
    let chunk = Box::new(build_terrain(Vector2i::new(0, 0), &s, &rolls(0, 0, 0)));
    assert_eq!(at(&chunk, 3, 3, 40), BlockType::BlockAir);
    assert_eq!(at(&chunk, 3, 3, 39), BlockType::BlockGrass);
    assert_eq!(at(&chunk, 3, 3, 38), BlockType::BlockDirt);
    assert_eq!(at(&chunk, 3, 3, 37), BlockType::BlockDirt);
    assert_eq!(at(&chunk, 3, 3, 36), BlockType::BlockStone);
    assert_eq!(at(&chunk, 3, 3, 5), BlockType::BlockStone);
    assert_eq!(at(&chunk, 3, 3, 4), BlockType::BlockBedrock);
    assert_eq!(at(&chunk, 3, 3, 0), BlockType::BlockBedrock);
}

#[test]
fn odd_dirt_draw_adds_a_layer() {
    let s = samples(|_, _, z| z < 40, |_, _, _| 0);
    let chunk = Box::new(build_terrain(Vector2i::new(0, 0), &s, &rolls(0, 0, 7)));
    assert_eq!(at(&chunk, 0, 0, 36), BlockType::BlockDirt);
    assert_eq!(at(&chunk, 0, 0, 35), BlockType::BlockStone);
}

#[test]
fn shore_column_gets_sand_and_gravel() {
    let s = samples(|_, _, z| z < 10, |_, _, _| 0);
    let chunk = Box::new(build_terrain(Vector2i::new(0, 0), &s, &rolls(3, 4, 0)));
    assert_eq!(at(&chunk, 8, 8, 12), BlockType::BlockWater);
    assert_eq!(at(&chunk, 8, 8, 10), BlockType::BlockWater);
    assert_eq!(at(&chunk, 8, 8, 9), BlockType::BlockSand);
    assert_eq!(at(&chunk, 8, 8, 8), BlockType::BlockGravel);
    assert_eq!(at(&chunk, 8, 8, 7), BlockType::BlockSand);
    assert_eq!(at(&chunk, 8, 8, 6), BlockType::BlockGravel);
    assert_eq!(at(&chunk, 8, 8, 5), BlockType::BlockStone);
    assert_eq!(at(&chunk, 8, 8, 4), BlockType::BlockBedrock);
}

#[test]
fn decoration_never_touches_height_zero() {
    let s = samples(|_, _, z| z < 2, |_, _, _| 0);
    let chunk = Box::new(build_terrain(Vector2i::new(0, 0), &s, &rolls(0, 0, 0)));
    assert_eq!(at(&chunk, 1, 1, 1), BlockType::BlockSand);
    assert_eq!(at(&chunk, 1, 1, 0), BlockType::BlockBedrock);
}

#[test]
fn ore_grades_by_height() {
    let s = samples(|_, _, z| z < 100, |x, _, _| x as u8 % 5);
    let chunk = Box::new(build_terrain(Vector2i::new(0, 0), &s, &rolls(1, 1, 0)));
    // Grade 4 is diamond below 16, gold below 32, iron below 48, coal above.
    assert_eq!(at(&chunk, 4, 0, 10), BlockType::BlockDiamondOre);
    assert_eq!(at(&chunk, 4, 0, 20), BlockType::BlockGoldOre);
    assert_eq!(at(&chunk, 4, 0, 40), BlockType::BlockIronOre);
    assert_eq!(at(&chunk, 4, 0, 60), BlockType::BlockCoalOre);
    assert_eq!(at(&chunk, 3, 0, 10), BlockType::BlockGoldOre);
    assert_eq!(at(&chunk, 2, 0, 10), BlockType::BlockIronOre);
    assert_eq!(at(&chunk, 1, 0, 10), BlockType::BlockCoalOre);
    assert_eq!(at(&chunk, 1, 0, 2), BlockType::BlockCoalOre);
    assert_eq!(at(&chunk, 0, 0, 2), BlockType::BlockBedrock);
    assert_eq!(at(&chunk, 0, 0, 50), BlockType::BlockStone);
    // The top of each column is decorated whatever it was.
    assert_eq!(at(&chunk, 4, 0, 99), BlockType::BlockGrass);
}

#[test]
fn generated_noise_chunk_has_no_air_below_sea_level() {
    let manager = ChunkManager::new();
    let s = samples(|x, y, z| (x * 7 + y * 3 + z) % 5 == 0 && z < 60, |x, _, z| ((x + z) % 5) as u8);
    let chunk = Box::new(manager.generate_noise(Vector2i::new(-1, 5), &s));
    assert_eq!(chunk.xy.x, -1);
    assert_eq!(chunk.xy.y, 5);
    for i in 0..SEA_LEVEL * 256 {
        assert_ne!(chunk.blocks[i], BlockType::BlockAir);
    }
}

#[test]
fn wedge_chunk_rises_along_x() {
    let manager = ChunkManager::new();
    let chunk = Box::new(manager.generate(Vector2i::new(1, 1)));
    for x in 0..16 {
        for y in 0..16 {
            for z in 0..256 {
                let expected = if z <= x { BlockType::BlockStone } else { BlockType::BlockAir };
                assert_eq!(at(&chunk, x, y, z), expected);
            }
        }
    }
}

#[test]
fn decoration_keeps_air_where_the_noise_is_empty() {
    let manager = ChunkManager::new();
    let s = samples(|x, y, z| (x * 5 + y * 11 + z * 3) % 7 < 3 && z < 90, |x, y, _| ((x + y) % 5) as u8);
    for _ in 0..3 {
        let chunk = Box::new(manager.generate_noise(Vector2i::new(0, 0), &s));
        for i in 0..BLOCKS_PER_CHUNK {
            let above_sea = i / 256 >= SEA_LEVEL;
            assert_eq!(chunk.blocks[i] == BlockType::BlockAir, !s.solid[i] && above_sea);
        }
    }
}
