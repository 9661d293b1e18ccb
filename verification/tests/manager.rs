use block_game::chunk::{BlockType, Chunk, BLOCKS_PER_CHUNK};
use block_game::terrain::TerrainSamples;
use block_game::chunk_manager::{ChunkManager, MAX_CHUNKS};
use block_game::player::Player;
use block_game::vector::{Vector2i, Vector3i};

fn chunk_at(x: i32, y: i32) -> Chunk {
    Chunk::new(Vector2i::new(x, y))
}

fn slot_count(m: &ChunkManager) -> usize {
    let mut n = 0;
    while n < 1000 && m.get_chunk(n).is_some() {
        n += 1;
    }
    n
}

#[test]
fn new_manager_is_empty() {
    let m = ChunkManager::new();
    assert!(m.get_chunk(0).is_none());
    assert!(m.get_meshes().is_empty());
    assert!(m.get_player(&"a".to_string()).is_none());
    assert!(!m.needs_mesh_update());
    assert!(m.find_chunks_to_load().is_empty());
}

#[test]
fn added_player_is_found_by_name() {
    let mut m = ChunkManager::new();
    m.add_player(Vector3i::new(1, 2, 3), "alice".to_string());
    m.add_player(Vector3i::new(4, 5, 6), "bob".to_string());
    let p = m.get_player(&"bob".to_string()).unwrap();
    assert_eq!(p.pos.x, 4);
    assert_eq!(p.get_name().as_deref(), Some("bob"));
    assert!(m.get_player(&"carol".to_string()).is_none());
}

#[test]
fn first_player_of_a_name_is_found() {
    let mut m = ChunkManager::new();
    m.add_player(Vector3i::new(1, 0, 0), "alice".to_string());
    m.add_player(Vector3i::new(2, 0, 0), "alice".to_string());
    assert_eq!(m.get_player(&"alice".to_string()).unwrap().pos.x, 1);
}

#[test]
fn player_changed_in_place_stays_changed() {
    let mut m = ChunkManager::new();
    m.add_player(Vector3i::new(1, 2, 3), "alice".to_string());
    if let Some(p) = m.get_player_mut(&"alice".to_string()) {
        p.pos = Vector3i::new(40, 50, 60);
    }
    assert_eq!(m.get_player(&"alice".to_string()).unwrap().pos.y, 50);
    assert!(m.get_player_mut(&"nobody".to_string()).is_none());
}

#[test]
fn removed_player_is_gone() {
    let mut m = ChunkManager::new();
    m.add_player(Vector3i::new(1, 0, 0), "alice".to_string());
    m.add_player(Vector3i::new(2, 0, 0), "bob".to_string());
    m.add_player(Vector3i::new(3, 0, 0), "alice".to_string());
    m.remove_player(&"alice".to_string());
    assert!(m.get_player(&"alice".to_string()).is_none());
    assert_eq!(m.get_player(&"bob".to_string()).unwrap().pos.x, 2);
}

#[test]
fn player_name_can_be_set() {
    let mut p = Player::new(None, Vector3i::new(0, 0, 0));
    assert!(p.get_name().is_none());
    p.set_name(Some("dana".to_string()));
    assert_eq!(p.get_name().as_deref(), Some("dana"));
    assert_eq!(p.pos.z, 0);
}

#[test]
fn inserted_chunk_is_found() {
    let mut m = ChunkManager::new();
    m.insert_chunk(chunk_at(3, 4));
    m.insert_chunk(chunk_at(-1, 2));
    let c = m.find_chunk(Vector2i::new(-1, 2)).unwrap();
    assert_eq!(c.xy.x, -1);
    assert!(m.find_chunk(Vector2i::new(4, 3)).is_none());
    assert_eq!(m.get_chunk(0).unwrap().xy.x, 3);
    assert_eq!(m.get_chunk(1).unwrap().xy.y, 2);
    assert!(m.get_chunk(2).is_none());
}

#[test]
fn slots_stop_at_max_chunks() {
    let mut m = ChunkManager::new();
    for i in 0..(MAX_CHUNKS as i32 + 5) {
        m.insert_chunk(chunk_at(i, 0));
    }
    assert_eq!(MAX_CHUNKS, 49);
    assert_eq!(slot_count(&m), MAX_CHUNKS);
    assert!(m.find_chunk(Vector2i::new(MAX_CHUNKS as i32 - 1, 0)).is_some());
    assert!(m.find_chunk(Vector2i::new(MAX_CHUNKS as i32, 0)).is_none());
}

#[test]
fn chunks_to_load_form_a_disc() {
    let mut m = ChunkManager::new();
    m.add_player(Vector3i::new(5, 5, 10), "p".to_string());
    let to_load = m.find_chunks_to_load();
    assert_eq!(to_load.len(), 49);
    assert_eq!((to_load[0].x, to_load[0].y), (-4, 0));
    assert_eq!((to_load[1].x, to_load[1].y), (-3, -2));
    assert!(to_load.iter().all(|v| v.x * v.x + v.y * v.y <= 16));
}

#[test]
fn chunks_to_load_skip_loaded_ones() {
    let mut m = ChunkManager::new();
    m.add_player(Vector3i::new(0, 0, 0), "p".to_string());
    m.insert_chunk(chunk_at(0, 0));
    m.insert_chunk(chunk_at(-4, 0));
    let to_load = m.find_chunks_to_load();
    assert_eq!(to_load.len(), 47);
    assert!(to_load.iter().all(|v| !(v.x == 0 && v.y == 0) && !(v.x == -4 && v.y == 0)));
}

#[test]
fn player_chunk_rounds_toward_zero() {
    let mut m = ChunkManager::new();
    m.add_player(Vector3i::new(-17, 33, 0), "p".to_string());
    let to_load = m.find_chunks_to_load();
    // The player is in chunk (-1, 2): the disc runs from x = -5 to x = 3.
    assert_eq!((to_load[0].x, to_load[0].y), (-5, 2));
    assert_eq!((to_load[48].x, to_load[48].y), (3, 2));
}

#[test]
fn two_players_ask_twice_for_shared_chunks() {
    let mut m = ChunkManager::new();
    m.add_player(Vector3i::new(0, 0, 0), "a".to_string());
    m.add_player(Vector3i::new(0, 0, 0), "b".to_string());
    assert_eq!(m.find_chunks_to_load().len(), 98);
}

#[test]
fn remove_chunks_without_players_clears_everything() {
    let mut m = ChunkManager::new();
    m.insert_chunk(chunk_at(0, 0));
    m.generate_meshes();
    assert_eq!(m.remove_chunks(), 0);
    assert!(m.get_chunk(0).is_none());
    assert!(m.get_meshes().is_empty());
}

#[test]
fn remove_chunks_drops_far_chunks() {
    let mut m = ChunkManager::new();
    m.add_player(Vector3i::new(0, 0, 0), "p".to_string());
    m.insert_chunk(chunk_at(0, 0));
    m.insert_chunk(chunk_at(10, 10));
    m.insert_chunk(chunk_at(4, 0));
    m.insert_chunk(chunk_at(3, 3));
    let mut stone = chunk_at(0, 1);
    stone.blocks[Chunk::index(1, 1, 1)] = BlockType::BlockStone;
    m.insert_chunk(stone);
    assert_eq!(m.remove_chunks(), 2);
    assert_eq!(m.get_chunk(0).unwrap().xy.x, 0);
    assert_eq!(m.get_chunk(1).unwrap().xy.x, 4);
    assert_eq!(m.get_chunk(2).unwrap().xy.y, 1);
    assert!(m.get_chunk(3).is_none());
    // The meshes were remade: one per chunk, the stone block's with 6 faces.
    assert_eq!(m.get_meshes().len(), 3);
    assert_eq!(m.get_meshes()[2].vertices.len(), 24);
    assert!(!m.needs_mesh_update());
}

#[test]
fn remove_chunks_keeps_meshes_when_nothing_goes() {
    let mut m = ChunkManager::new();
    m.add_player(Vector3i::new(0, 0, 0), "p".to_string());
    m.insert_chunk(chunk_at(1, 1));
    assert!(m.needs_mesh_update());
    assert_eq!(m.remove_chunks(), 0);
    assert!(m.get_meshes().is_empty());
    assert!(m.needs_mesh_update());
}

#[test]
fn far_coordinates_do_not_overflow() {
    let mut m = ChunkManager::new();
    m.add_player(Vector3i::new(i32::MAX, i32::MIN, 0), "p".to_string());
    m.insert_chunk(chunk_at(i32::MIN, i32::MAX));
    m.insert_chunk(chunk_at(i32::MAX / 16, i32::MIN / 16));
    assert_eq!(m.remove_chunks(), 1);
    assert_eq!(m.get_chunk(0).unwrap().xy.x, i32::MAX / 16);
}

#[test]
fn chunks_asked_for_are_kept_once_loaded() {
    let mut m = ChunkManager::new();
    m.add_player(Vector3i::new(100, -40, 0), "p".to_string());
    for xy in m.find_chunks_to_load() {
        if m.find_chunk(xy).is_none() {
            let chunk = m.generate(xy);
            m.insert_chunk(chunk);
        }
    }
    assert_eq!(slot_count(&m), MAX_CHUNKS);
    assert_eq!(m.remove_chunks(), 0);
    assert!(m.find_chunks_to_load().is_empty());
}

#[test]
fn slots_close_up_after_removal() {
    let mut m = ChunkManager::new();
    m.add_player(Vector3i::new(0, 0, 0), "p".to_string());
    m.insert_chunk(chunk_at(0, 0));
    m.insert_chunk(chunk_at(20, 0));
    m.insert_chunk(chunk_at(1, 0));
    assert_eq!(m.remove_chunks(), 1);
    m.insert_chunk(chunk_at(2, 0));
    assert_eq!(m.get_chunk(2).unwrap().xy.x, 2);
    assert_eq!(m.generate_meshes().len(), 3);
}

fn flat_samples(height: usize) -> TerrainSamples {
    let mut s = TerrainSamples { solid: vec![false; BLOCKS_PER_CHUNK], ore: vec![0; BLOCKS_PER_CHUNK] };
    for i in 0..height * 256 {
        s.solid[i] = true;
    }
    s
}

#[test]
fn load_chunks_fills_the_disc_around_players() {
    let mut m = ChunkManager::new();
    m.add_player(Vector3i::new(-40, 70, 0), "p".to_string());
    m.load_chunks(|_xy| flat_samples(30));
    assert_eq!(slot_count(&m), MAX_CHUNKS);
    assert!(m.find_chunks_to_load().is_empty());
    let c = m.find_chunk(Vector2i::new(-2, 4)).unwrap();
    assert_eq!(c.blocks[Chunk::index(0, 0, 29)], BlockType::BlockGrass);
    assert_eq!(c.blocks[Chunk::index(0, 0, 30)], BlockType::BlockAir);
    assert_eq!(m.remove_chunks(), 0);
}

#[test]
fn load_chunks_skips_loaded_and_stops_when_full() {
    let mut m = ChunkManager::new();
    for i in 0..(MAX_CHUNKS as i32 - 3) {
        m.insert_chunk(chunk_at(1000 + i, 0));
    }
    m.insert_chunk(chunk_at(0, 0));
    m.add_player(Vector3i::new(0, 0, 0), "p".to_string());
    let calls = std::cell::Cell::new(0);
    m.load_chunks(|_xy| {
        calls.set(calls.get() + 1);
        flat_samples(0)
    });
    // (0, 0) was loaded: two more chunks fill the slots and the rest are
    // generated and dropped.
    assert_eq!(calls.get(), 48);
    assert_eq!(slot_count(&m), MAX_CHUNKS);
    assert_eq!(m.get_chunk(MAX_CHUNKS - 3).unwrap().xy.x, 0);
    assert_eq!((m.get_chunk(MAX_CHUNKS - 2).unwrap().xy.x, m.get_chunk(MAX_CHUNKS - 2).unwrap().xy.y), (-4, 0));
    assert_eq!((m.get_chunk(MAX_CHUNKS - 1).unwrap().xy.x, m.get_chunk(MAX_CHUNKS - 1).unwrap().xy.y), (-3, -2));
}

#[test]
fn load_chunks_loads_a_shared_chunk_once() {
    let mut m = ChunkManager::new();
    m.add_player(Vector3i::new(0, 0, 10), "a".to_string());
    m.add_player(Vector3i::new(5, 5, 10), "b".to_string());
    assert_eq!(m.find_chunks_to_load().len(), 98);
    m.load_chunks(|_xy| flat_samples(0));
    assert_eq!(slot_count(&m), MAX_CHUNKS);
    for i in 0..MAX_CHUNKS {
        for j in 0..i {
            let a = m.get_chunk(i).unwrap().xy;
            let b = m.get_chunk(j).unwrap().xy;
            assert!(a.x != b.x || a.y != b.y);
        }
    }
    assert!(m.find_chunks_to_load().is_empty());
}

#[test]
fn load_chunks_around_one_player_fills_every_slot() {
    let mut m = ChunkManager::new();
    m.add_player(Vector3i::new(0, 0, 10), "Player".to_string());
    m.load_chunks(|_xy| flat_samples(0));
    assert!(m.get_chunk(48).is_some());
    assert!(m.get_chunk(49).is_none());
    assert!(m.find_chunk(Vector2i::new(4, 0)).is_some());
    assert!(m.find_chunk(Vector2i::new(3, 3)).is_none());
    assert!(m.find_chunks_to_load().is_empty());
    assert!(m.needs_mesh_update());
    assert!(m.get_meshes().is_empty());
}
