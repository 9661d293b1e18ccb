use block_game::chunk::{BlockType, Chunk, BLOCKS_PER_CHUNK, CHUNK_HEIGHT, CHUNK_SIZE};
use block_game::mesh::Vertex;
use block_game::vector::{Vector2i, Vector3i};

fn chunk_with(blocks: &[(usize, usize, usize, BlockType)]) -> Box<Chunk> {
    let mut chunk = Box::new(Chunk::new(Vector2i::new(0, 0)));
    for &(x, y, z, b) in blocks {
        chunk.blocks[Chunk::index(x, y, z)] = b;
    }
    chunk
}

#[test]
fn index_is_x_then_y_then_z() {
    assert_eq!(Chunk::index(0, 0, 0), 0);
    assert_eq!(Chunk::index(1, 2, 3), 1 + 2 * 16 + 3 * 256);
    assert_eq!(Chunk::index(15, 15, 255), BLOCKS_PER_CHUNK - 1);
    assert_eq!(BLOCKS_PER_CHUNK, CHUNK_SIZE * CHUNK_SIZE * CHUNK_HEIGHT);
}

#[test]
fn index_is_one_to_one_inside_a_chunk() {
    let mut seen = vec![false; BLOCKS_PER_CHUNK];
    for x in 0..CHUNK_SIZE {
        for y in 0..CHUNK_SIZE {
            for z in 0..CHUNK_HEIGHT {
                let i = Chunk::index(x, y, z);
                assert!(!seen[i]);
                seen[i] = true;
            }
        }
    }
    assert!(seen.iter().all(|s| *s));
}

#[test]
fn new_chunk_is_air() {
    let chunk = Box::new(Chunk::new(Vector2i::new(3, -4)));
    assert_eq!(chunk.xy.x, 3);
    assert_eq!(chunk.xy.y, -4);
    assert!(chunk.blocks.iter().all(|b| *b == BlockType::BlockAir));
}

#[test]
fn get_block_reads_the_stored_block() {
    let chunk = chunk_with(&[(2, 3, 4, BlockType::BlockStone), (15, 15, 255, BlockType::BlockGoldOre)]);
    assert_eq!(chunk.get_block(Vector3i::new(2, 3, 4)), Some(BlockType::BlockStone));
    assert_eq!(chunk.get_block(Vector3i::new(15, 15, 255)), Some(BlockType::BlockGoldOre));
    assert_eq!(chunk.get_block(Vector3i::new(0, 0, 0)), Some(BlockType::BlockAir));
}

#[test]
fn get_block_outside_the_chunk_is_none() {
    let chunk = chunk_with(&[]);
    assert_eq!(chunk.get_block(Vector3i::new(-1, 0, 0)), None);
    assert_eq!(chunk.get_block(Vector3i::new(0, 16, 0)), None);
    assert_eq!(chunk.get_block(Vector3i::new(0, 0, 256)), None);
    assert_eq!(chunk.get_block(Vector3i::new(0, 0, -1)), None);
    assert_eq!(chunk.get_block(Vector3i::new(16, 0, 0)), None);
}

#[test]
fn air_chunk_has_an_empty_mesh() {
    let chunk = chunk_with(&[]);
    let mesh = chunk.generate_mesh();
    assert!(mesh.vertices.is_empty());
    assert!(mesh.indices.is_empty());
}

#[test]
fn lone_block_has_six_faces() {
    let chunk = chunk_with(&[(5, 5, 5, BlockType::BlockStone)]);
    let mesh = chunk.generate_mesh();
    assert_eq!(mesh.vertices.len(), 24);
    assert_eq!(mesh.indices.len(), 36);
    // Front face (+y) first: the block's centre is at (-3, -3, 5), i.e.
    // (-6, -6, 10) in half blocks.
    assert_eq!(mesh.vertices[0], Vertex::new(-7, -5, 9, BlockType::BlockStone));
    assert_eq!(mesh.vertices[1], Vertex::new(-5, -5, 9, BlockType::BlockStone));
    assert_eq!(mesh.vertices[2], Vertex::new(-5, -5, 11, BlockType::BlockStone));
    assert_eq!(mesh.vertices[3], Vertex::new(-7, -5, 11, BlockType::BlockStone));
    // Top face (+z) last.
    assert_eq!(mesh.vertices[20], Vertex::new(-7, -7, 11, BlockType::BlockStone));
    assert_eq!(mesh.vertices[22], Vertex::new(-5, -5, 11, BlockType::BlockStone));
    assert_eq!(&mesh.indices[0..12], &[0, 1, 2, 0, 2, 3, 4, 5, 6, 4, 6, 7]);
    assert_eq!(&mesh.indices[30..36], &[20, 21, 22, 20, 22, 23]);
}

#[test]
fn touching_blocks_hide_their_shared_faces() {
    let chunk = chunk_with(&[(5, 5, 5, BlockType::BlockStone), (6, 5, 5, BlockType::BlockDirt)]);
    let mesh = chunk.generate_mesh();
    assert_eq!(mesh.vertices.len(), 40);
    assert_eq!(mesh.indices.len(), 60);
    // The first block lists front, back, left, bottom, top; no right face.
    assert!(mesh.vertices[..20].iter().all(|v| v.block == BlockType::BlockStone));
    assert!(mesh.vertices[..20].iter().all(|v| v.x <= -5));
    assert!(mesh.vertices[20..].iter().all(|v| v.block == BlockType::BlockDirt));
    assert!(mesh.vertices[20..].iter().all(|v| v.x >= -5));
}

#[test]
fn faces_on_the_chunk_border_are_drawn() {
    let chunk = chunk_with(&[(0, 0, 0, BlockType::BlockStone), (0, 0, 1, BlockType::BlockStone)]);
    let mesh = chunk.generate_mesh();
    // Two stacked blocks: 12 faces less the two they share.
    assert_eq!(mesh.vertices.len(), 40);
    assert_eq!(mesh.vertices[16], Vertex::new(-17, -17, -1, BlockType::BlockStone));
}

#[test]
fn mesh_indices_name_mesh_vertices() {
    let mut cells = Vec::new();
    for x in 0..16 {
        for z in 0..x + 1 {
            cells.push((x, 7, z, BlockType::BlockSand));
        }
    }
    let chunk = chunk_with(&cells);
    let mesh = chunk.generate_mesh();
    assert_eq!(mesh.vertices.len() % 4, 0);
    assert_eq!(mesh.indices.len(), mesh.vertices.len() / 4 * 6);
    assert!(mesh.indices.iter().all(|i| (*i as usize) < mesh.vertices.len()));
}
