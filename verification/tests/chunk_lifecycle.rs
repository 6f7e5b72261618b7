use chunkstream::body::{ChunkBody, SyncError};
use chunkstream::chunk::{Chunk, ChunkState};
use chunkstream::coords::{ChunkPos, WorldRect};
use chunkstream::field::NoiseField;
use chunkstream::physics::{PhysicsCommand, PhysicsWorld};

const SEED: u64 = 0xDEAD_BEEF_0BAD_F00D;
const THRESHOLD: u32 = 0x8000;

#[test]
fn new_chunk_starts_freed_without_tiles() {
    let pos = ChunkPos { x: 5, y: -2 };
    let rect = WorldRect { x: 80, y: -32, w: 16, h: 16 };
    let c = Chunk::new(pos, rect);
    assert_eq!(c.pos, pos);
    assert_eq!(c.rect, rect);
    assert_eq!(c.state, ChunkState::Freed);
    assert!(c.matrix.is_none());
}

#[test]
fn gen_matrix_has_one_extra_row_and_column() {
    let field = NoiseField { seed: SEED };
    let c = Chunk::new(ChunkPos { x: 0, y: 0 }, WorldRect { x: 0, y: 0, w: 16, h: 16 });
    let m = c.gen_matrix(&field, THRESHOLD, 4);
    assert_eq!(m.width, 5);
    assert_eq!(m.height, 5);
    assert_eq!(m.data.len(), 25);
    for &t in m.data.iter() {
        assert!(t == 0 || t == 1);
    }
}

#[test]
fn gen_matrix_is_deterministic() {
    let field = NoiseField { seed: SEED };
    let c = Chunk::new(ChunkPos { x: -3, y: 7 }, WorldRect { x: -48, y: 112, w: 16, h: 16 });
    let m1 = c.gen_matrix(&field, THRESHOLD, 8);
    let m2 = c.gen_matrix(&field, THRESHOLD, 8);
    assert_eq!(m1, m2);
}

#[test]
fn seam_matches_along_x() {
    let field = NoiseField { seed: SEED };
    let cs: u8 = 6;
    let left = Chunk::new(ChunkPos { x: 0, y: 0 }, WorldRect { x: 0, y: 0, w: 6, h: 6 });
    let right = Chunk::new(ChunkPos { x: 1, y: 0 }, WorldRect { x: 6, y: 0, w: 6, h: 6 });
    let ml = left.gen_matrix(&field, THRESHOLD, cs);
    let mr = right.gen_matrix(&field, THRESHOLD, cs);
    for ty in 0..=(cs as usize) {
        assert_eq!(ml.get(cs as usize, ty), mr.get(0, ty));
    }
}

#[test]
fn seam_matches_along_y() {
    let field = NoiseField { seed: SEED };
    let cs: u8 = 6;
    let top = Chunk::new(ChunkPos { x: -4, y: -1 }, WorldRect { x: -24, y: -6, w: 6, h: 6 });
    let bottom = Chunk::new(ChunkPos { x: -4, y: 0 }, WorldRect { x: -24, y: 0, w: 6, h: 6 });
    let mt = top.gen_matrix(&field, THRESHOLD, cs);
    let mb = bottom.gen_matrix(&field, THRESHOLD, cs);
    for tx in 0..=(cs as usize) {
        assert_eq!(mt.get(tx, cs as usize), mb.get(tx, 0));
    }
}

#[test]
fn load_materializes_and_is_idempotent() {
    let field = NoiseField { seed: SEED };
    let mut c = Chunk::new(ChunkPos { x: 1, y: 1 }, WorldRect { x: 16, y: 16, w: 16, h: 16 });
    c.load(&field, THRESHOLD, 4);
    assert_eq!(c.state, ChunkState::Loaded);
    assert!(c.matrix.is_some());
    let snapshot = c.clone();
    c.load(&field, THRESHOLD, 4);
    assert_eq!(c, snapshot);
}

#[test]
fn unload_discards_tiles_and_is_idempotent() {
    let field = NoiseField { seed: SEED };
    let mut c = Chunk::new(ChunkPos { x: 1, y: 1 }, WorldRect { x: 16, y: 16, w: 16, h: 16 });
    c.load(&field, THRESHOLD, 4);
    c.unload();
    assert_eq!(c.state, ChunkState::Unloaded);
    assert!(c.matrix.is_none());
    let snapshot = c.clone();
    c.unload();
    assert_eq!(c, snapshot);
}

#[test]
fn body_load_pairs_handles_with_solid_tiles() {
    let field = NoiseField { seed: SEED };
    let cs: u8 = 5;
    let pos = ChunkPos { x: 2, y: 3 };
    let mut c = Chunk::new(pos, WorldRect { x: 20, y: 30, w: 10, h: 10 });
    c.load(&field, THRESHOLD, cs);
    let mut body = ChunkBody::new(cs, pos);
    let mut pw = PhysicsWorld::new();
    assert_eq!(body.load(&c, cs, 2, &mut pw), Ok(()));
    assert_eq!(body.state, ChunkState::Loaded);

    let tiles = &c.matrix.as_ref().unwrap().data;
    let mut solid = 0;
    for &t in tiles.iter() {
        if t != 0 {
            solid += 1;
        }
    }
    let mut with_body = 0;
    let mut with_collider = 0;
    for (i, h) in body.body_handles.data.iter().enumerate() {
        assert_eq!(h.is_some(), tiles[i] != 0);
        if h.is_some() {
            with_body += 1;
        }
    }
    for (i, h) in body.collider_handles.data.iter().enumerate() {
        assert_eq!(h.is_some(), tiles[i] != 0);
        if h.is_some() {
            with_collider += 1;
        }
    }
    assert_eq!(with_body, solid);
    assert_eq!(with_collider, solid);
    assert_eq!(pw.body_count(), solid);
    assert_eq!(pw.collider_count(), solid);
    assert_eq!(pw.log.len(), solid);
    for cmd in pw.log.iter() {
        assert!(matches!(cmd, PhysicsCommand::CreateBody { .. }));
    }
    assert!(solid > 0, "threshold should leave some solid tiles for this seed");
}

#[test]
fn body_load_is_idempotent() {
    let field = NoiseField { seed: SEED };
    let cs: u8 = 4;
    let pos = ChunkPos { x: 0, y: 0 };
    let mut c = Chunk::new(pos, WorldRect { x: 0, y: 0, w: 8, h: 8 });
    c.load(&field, THRESHOLD, cs);
    let mut body = ChunkBody::new(cs, pos);
    let mut pw = PhysicsWorld::new();
    assert_eq!(body.load(&c, cs, 2, &mut pw), Ok(()));
    let body_snapshot = body.clone();
    let pw_snapshot = pw.clone();
    assert_eq!(body.load(&c, cs, 2, &mut pw), Ok(()));
    assert_eq!(body, body_snapshot);
    assert_eq!(pw, pw_snapshot);
}

#[test]
fn body_load_without_tiles_is_an_error() {
    let pos = ChunkPos { x: 0, y: 0 };
    let bare = Chunk::new(pos, WorldRect { x: 0, y: 0, w: 8, h: 8 });
    let mut body = ChunkBody::new(4, pos);
    let mut pw = PhysicsWorld::new();
    assert_eq!(body.load(&bare, 4, 2, &mut pw), Err(SyncError::TilesNotMaterialized));
    assert_eq!(body.state, ChunkState::Freed);
    assert_eq!(pw.body_count(), 0);
    assert_eq!(pw.log.len(), 0);
}

#[test]
fn body_unload_clears_grids_and_logs_removals() {
    let field = NoiseField { seed: SEED };
    let cs: u8 = 5;
    let pos = ChunkPos { x: 1, y: -1 };
    let mut c = Chunk::new(pos, WorldRect { x: 10, y: -10, w: 10, h: 10 });
    c.load(&field, THRESHOLD, cs);
    let mut body = ChunkBody::new(cs, pos);
    let mut pw = PhysicsWorld::new();
    assert_eq!(body.load(&c, cs, 2, &mut pw), Ok(()));
    let solid = pw.body_count();
    let created = pw.log.len();

    body.unload(cs, &mut pw);
    assert_eq!(body.state, ChunkState::Unloaded);
    for h in body.body_handles.data.iter() {
        assert!(h.is_none());
    }
    for h in body.collider_handles.data.iter() {
        assert!(h.is_none());
    }
    assert_eq!(pw.body_count(), 0);
    assert_eq!(pw.collider_count(), 0);
    assert_eq!(pw.log.len(), created + solid);
    for cmd in pw.log[created..].iter() {
        assert!(matches!(cmd, PhysicsCommand::RemoveBody { .. }));
    }

    let body_snapshot = body.clone();
    let pw_snapshot = pw.clone();
    body.unload(cs, &mut pw);
    assert_eq!(body, body_snapshot);
    assert_eq!(pw, pw_snapshot);
}

#[test]
fn unload_spares_other_chunks_bodies() {
    let field = NoiseField { seed: SEED };
    let cs: u8 = 5;
    let mut pw = PhysicsWorld::new();

    let pos_a = ChunkPos { x: 0, y: 0 };
    let mut chunk_a = Chunk::new(pos_a, WorldRect { x: 0, y: 0, w: 10, h: 10 });
    chunk_a.load(&field, THRESHOLD, cs);
    let mut body_a = ChunkBody::new(cs, pos_a);
    assert_eq!(body_a.load(&chunk_a, cs, 2, &mut pw), Ok(()));

    let pos_b = ChunkPos { x: 5, y: 5 };
    let mut chunk_b = Chunk::new(pos_b, WorldRect { x: 50, y: 50, w: 10, h: 10 });
    chunk_b.load(&field, THRESHOLD, cs);
    let mut body_b = ChunkBody::new(cs, pos_b);
    assert_eq!(body_b.load(&chunk_b, cs, 2, &mut pw), Ok(()));

    let solid_b = body_b.body_handles.data.iter().filter(|h| h.is_some()).count();
    body_a.unload(cs, &mut pw);

    // Exactly the first chunk's bodies left; the second chunk's are all
    // still live.
    assert_eq!(pw.body_count(), solid_b);
    assert_eq!(pw.collider_count(), solid_b);
    for h in body_b.body_handles.data.iter().flatten() {
        assert!(pw.bodies.contains(h));
    }
    for h in body_b.collider_handles.data.iter().flatten() {
        assert!(pw.colliders.contains(h));
    }
    assert!(solid_b > 0, "threshold should leave some solid tiles for this seed");
}

#[test]
fn physics_world_handles_and_log() {
    let mut pw = PhysicsWorld::new();
    let (b0, c0) = pw.insert_fixed(8, 8, 16, chunkstream::physics::BodyType::Rect);
    assert_eq!((b0, c0), (0, 1));
    let (b1, _c1) = pw.insert_fixed(24, 8, 16, chunkstream::physics::BodyType::Rect);
    assert_eq!(b1, 2);
    assert_eq!(pw.body_count(), 2);
    pw.remove_body(b0, c0);
    assert_eq!(pw.body_count(), 1);
    assert_eq!(pw.collider_count(), 1);
    assert_eq!(pw.log.len(), 3);
    assert_eq!(pw.log[2], PhysicsCommand::RemoveBody { body: 0 });
    // Removing a handle that is no longer live changes the sets no
    // further, though the removal is still logged for the backend.
    pw.remove_body(b0, c0);
    assert_eq!(pw.body_count(), 1);
    assert_eq!(pw.log.len(), 4);

    let drained = pw.take_commands();
    assert_eq!(drained.len(), 4);
    assert_eq!(pw.log.len(), 0);
    assert_eq!(pw.body_count(), 1);
}
