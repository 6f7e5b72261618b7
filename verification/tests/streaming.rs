use chunkstream::chunk::ChunkState;
use chunkstream::coords::ChunkPos;
use chunkstream::field::NoiseField;
use chunkstream::manager::{ChunkManager, ConfigError};
use chunkstream::store::GameWorld;

const SEED: u64 = 0xC0FF_EE00_1234_5678;
const THRESHOLD: u32 = 0x8000;

#[test]
fn config_rejects_zero_chunk_size() {
    let r = ChunkManager::new(NoiseField { seed: SEED }, THRESHOLD, 0, 16, 1, 12);
    assert_eq!(r.err(), Some(ConfigError::ZeroChunkSize));
}

#[test]
fn config_rejects_zero_tile_size() {
    let r = ChunkManager::new(NoiseField { seed: SEED }, THRESHOLD, 16, 0, 1, 12);
    assert_eq!(r.err(), Some(ConfigError::ZeroTileSize));
}

#[test]
fn config_rejects_inverted_bands() {
    let r = ChunkManager::new(NoiseField { seed: SEED }, THRESHOLD, 16, 1, 12, 12);
    assert_eq!(r.err(), Some(ConfigError::InvertedDistanceBands));
    let r2 = ChunkManager::new(NoiseField { seed: SEED }, THRESHOLD, 16, 1, 12, 1);
    assert_eq!(r2.err(), Some(ConfigError::InvertedDistanceBands));
}

#[test]
fn config_accepts_valid_setup() {
    let m = ChunkManager::new(NoiseField { seed: SEED }, THRESHOLD, 16, 1, 1, 12).unwrap();
    assert_eq!(m.chunk_size_in_tiles, 16);
    assert_eq!(m.tile_size_in_units, 1);
    assert_eq!(m.chunk_size_in_units, 16);
    assert_eq!(m.unloading_distance, 1);
    assert_eq!(m.freeing_distance, 12);
    assert_eq!(m.player_chunk, ChunkPos { x: 0, y: 0 });
}

fn state_at(world: &GameWorld, x: i64, y: i64) -> Option<ChunkState> {
    for e in world.chunks.iter() {
        if e.chunk.pos.x == x && e.chunk.pos.y == y {
            return Some(e.chunk.state);
        }
    }
    None
}

#[test]
fn first_pass_loads_the_observer_chunk() {
    let mut cm = ChunkManager::new(NoiseField { seed: SEED }, THRESHOLD, 16, 1, 1, 12).unwrap();
    let mut world = GameWorld::new();
    cm.run(&mut world, 5, 5);
    assert_eq!(cm.player_chunk, ChunkPos { x: 0, y: 0 });
    assert_eq!(state_at(&world, 0, 0), Some(ChunkState::Loaded));
    // With a load band of 1 chunk squared, only distance 0 qualifies.
    assert_eq!(world.chunks.len(), 1);
    let e = &world.chunks[0];
    assert!(e.chunk.matrix.is_some());
    assert_eq!(e.body.state, ChunkState::Loaded);
}

#[test]
fn hysteresis_unloads_near_and_frees_far() {
    // The configured bands: unload at 1 chunk squared, free at 12.
    let mut cm = ChunkManager::new(NoiseField { seed: SEED }, THRESHOLD, 16, 1, 1, 12).unwrap();
    let mut world = GameWorld::new();

    // Visit chunk (4,0) and chunk (1,0) so that both exist.
    cm.run(&mut world, 70, 5);
    assert_eq!(state_at(&world, 4, 0), Some(ChunkState::Loaded));
    cm.run(&mut world, 16, 0);
    assert_eq!(state_at(&world, 1, 0), Some(ChunkState::Loaded));
    // From (1,0), chunk (4,0) is at squared distance 9: inside the
    // freeing band, so it stays, unloaded.
    assert_eq!(state_at(&world, 4, 0), Some(ChunkState::Unloaded));

    // Step back to the origin. Chunk (1,0) is at squared distance 1:
    // unloaded but still present. Chunk (4,0) is at squared distance 16,
    // beyond the freeing band: its entity is removed entirely.
    cm.run(&mut world, 0, 0);
    assert_eq!(state_at(&world, 0, 0), Some(ChunkState::Loaded));
    assert_eq!(state_at(&world, 1, 0), Some(ChunkState::Unloaded));
    assert_eq!(state_at(&world, 4, 0), None);
}

#[test]
fn unloaded_chunk_keeps_no_tiles_or_handles() {
    let mut cm = ChunkManager::new(NoiseField { seed: SEED }, THRESHOLD, 8, 2, 1, 12).unwrap();
    let mut world = GameWorld::new();
    cm.run(&mut world, 20, 0);  // chunk (1,0) loaded
    cm.run(&mut world, 0, 0);  // chunk (1,0) unloaded
    let e = world.chunks.iter().find(|e| e.chunk.pos.x == 1 && e.chunk.pos.y == 0).unwrap();
    assert_eq!(e.chunk.state, ChunkState::Unloaded);
    assert!(e.chunk.matrix.is_none());
    assert!(e.body.body_handles.data.iter().all(|h| h.is_none()));
    assert!(e.body.collider_handles.data.iter().all(|h| h.is_none()));
}

#[test]
fn loaded_chunks_pair_bodies_with_solid_tiles() {
    let mut cm = ChunkManager::new(NoiseField { seed: SEED }, THRESHOLD, 6, 2, 2, 20).unwrap();
    let mut world = GameWorld::new();
    cm.run(&mut world, 0, 0);
    assert!(world.chunks.len() >= 5);
    for e in world.chunks.iter() {
        assert_eq!(e.chunk.state, ChunkState::Loaded);
        let tiles = &e.chunk.matrix.as_ref().unwrap().data;
        let solid = tiles.iter().filter(|&&t| t != 0).count();
        let with_body = e.body.body_handles.data.iter().filter(|h| h.is_some()).count();
        let with_collider = e.body.collider_handles.data.iter().filter(|h| h.is_some()).count();
        assert_eq!(with_body, solid);
        assert_eq!(with_collider, solid);
    }
}

#[test]
fn adjacent_loaded_chunks_share_their_edge() {
    let mut cm = ChunkManager::new(NoiseField { seed: SEED }, THRESHOLD, 4, 4, 2, 20).unwrap();
    let mut world = GameWorld::new();
    cm.run(&mut world, 0, 0);
    let center = world.chunks.iter().find(|e| e.chunk.pos == ChunkPos { x: 0, y: 0 }).unwrap();
    let east = world.chunks.iter().find(|e| e.chunk.pos == ChunkPos { x: 1, y: 0 }).unwrap();
    let mc = center.chunk.matrix.as_ref().unwrap();
    let me = east.chunk.matrix.as_ref().unwrap();
    for ty in 0..=4usize {
        assert_eq!(mc.get(4, ty), me.get(0, ty));
    }
    let south = world.chunks.iter().find(|e| e.chunk.pos == ChunkPos { x: 0, y: 1 }).unwrap();
    let ms = south.chunk.matrix.as_ref().unwrap();
    for tx in 0..=4usize {
        assert_eq!(mc.get(tx, 4), ms.get(tx, 0));
    }
}

#[test]
fn repeating_a_pass_changes_nothing() {
    let mut cm = ChunkManager::new(NoiseField { seed: SEED }, THRESHOLD, 8, 2, 2, 20).unwrap();
    let mut world = GameWorld::new();
    cm.run(&mut world, 37, -12);
    cm.run(&mut world, 5, 3);
    let chunks = world.chunks.clone();
    let monsters = world.monsters.clone();
    let physics = world.physics.clone();
    cm.run(&mut world, 5, 3);
    assert_eq!(world.chunks, chunks);
    assert_eq!(world.monsters, monsters);
    assert_eq!(world.physics, physics);
}

#[test]
fn monster_follows_its_chunks_lifecycle() {
    let mut cm = ChunkManager::new(NoiseField { seed: SEED }, THRESHOLD, 16, 1, 1, 12).unwrap();
    let mut world = GameWorld::new();
    // A monster in chunk (2,2); its chunk coordinate is recomputed each
    // pass from its world position.
    world.spawn_monster(35, 37, false);

    // While chunk (2,2) does not exist, the monster is left inactive.
    cm.run(&mut world, 100, 100);
    assert_eq!(world.monsters.len(), 1);
    assert_eq!(world.monsters[0].chunk, ChunkPos { x: 2, y: 2 });
    assert!(!world.monsters[0].active);

    // Entering (2,2) creates the chunk already loaded; a first load
    // spawns no dependents and wakes none.
    cm.run(&mut world, 33, 33);
    assert_eq!(state_at(&world, 2, 2), Some(ChunkState::Loaded));
    assert!(!world.monsters[0].active);

    // Stepping one chunk away unloads (2,2): the monster is off.
    cm.run(&mut world, 24, 33);
    assert_eq!(state_at(&world, 2, 2), Some(ChunkState::Unloaded));
    assert!(!world.monsters[0].active);

    // Returning reloads (2,2): the monster wakes.
    cm.run(&mut world, 33, 33);
    assert_eq!(state_at(&world, 2, 2), Some(ChunkState::Loaded));
    assert!(world.monsters[0].active);

    // Stepping away again puts it back to sleep.
    cm.run(&mut world, 24, 33);
    assert!(!world.monsters[0].active);
    cm.run(&mut world, 33, 33);
    assert!(world.monsters[0].active);

    // Leaving far enough frees (2,2) and destroys the monster with it.
    cm.run(&mut world, 97, 33);
    assert_eq!(state_at(&world, 2, 2), None);
    assert_eq!(world.monsters.len(), 0);
}

#[test]
fn monsters_elsewhere_survive_an_eviction() {
    let mut cm = ChunkManager::new(NoiseField { seed: SEED }, THRESHOLD, 16, 1, 1, 12).unwrap();
    let mut world = GameWorld::new();
    world.spawn_monster(35, 37, false);  // chunk (2,2)
    world.spawn_monster(100, 100, true);  // chunk (6,6)
    cm.run(&mut world, 33, 33);  // creates (2,2)
    cm.run(&mut world, 97, 33);  // frees (2,2); (6,6) never existed
    assert_eq!(world.monsters.len(), 1);
    assert_eq!(world.monsters[0].chunk, ChunkPos { x: 6, y: 6 });
    assert!(world.monsters[0].active);
}

#[test]
fn physics_log_accumulates_and_drains() {
    let mut cm = ChunkManager::new(NoiseField { seed: SEED }, THRESHOLD, 8, 2, 1, 12).unwrap();
    let mut world = GameWorld::new();
    cm.run(&mut world, 0, 0);
    let after_first = world.physics.log.len();
    assert!(after_first > 0);
    cm.run(&mut world, 40, 0);
    assert!(world.physics.log.len() > after_first);
    let drained = world.physics.take_commands();
    assert!(drained.len() > after_first);
    assert_eq!(world.physics.log.len(), 0);
}
