use engine_core::chunk::BlockId;
use engine_core::chunk::ChunkConfig;
use engine_core::chunk::ChunkData;
use engine_core::chunk::ChunkManager;
use engine_core::chunk::ChunkPos;
use engine_core::CHUNK_HEIGHT;
use engine_core::CHUNK_SIZE;

#[test]
fn chunk_height_round_trip() {
    let mut cfg = ChunkConfig::new();
    assert_eq!(cfg.get_chunk_height(), 64);
    cfg.set_chunk_height(128);
    assert_eq!(cfg.get_chunk_height(), 128);
    cfg.set_chunk_height(1);
    assert_eq!(cfg.get_chunk_height(), 1);
}

#[test]
fn from_world_tracks_height() {
    let mut cfg = ChunkConfig::new();
    let p = ChunkPos::from_world(40, -1, 130, &cfg);
    assert_eq!((p.x, p.y, p.z), (1, -1, 2));
    cfg.set_chunk_height(32);
    let q = ChunkPos::from_world(40, -1, 130, &cfg);
    assert_eq!((q.x, q.y, q.z), (1, -1, 4));
    // floor semantics on negatives: -1 / 32 buckets to cell -1, not 0
    let r = ChunkPos::from_world(-1, -32, -33, &cfg);
    assert_eq!((r.x, r.y, r.z), (-1, -1, -2));
}

#[test]
fn world_origin_is_scaled_corner() {
    let mut cfg = ChunkConfig::new();
    cfg.set_chunk_height(48);
    let p = ChunkPos::new(2, -3, 5);
    assert_eq!(p.world_origin(&cfg), (64, -96, 240));
}

#[test]
fn neighbors_are_the_26_surrounding_cells() {
    let p = ChunkPos::new(10, 20, 30);
    let ns = p.neighbors();
    assert_eq!(ns.len(), 26);
    for n in ns.iter() {
        let dx = (n.x - p.x).abs();
        let dy = (n.y - p.y).abs();
        let dz = (n.z - p.z).abs();
        assert!(dx <= 1 && dy <= 1 && dz <= 1);
        assert!(dx + dy + dz >= 1);
    }
    // all distinct
    for i in 0..26 {
        for j in (i + 1)..26 {
            assert_ne!(ns[i], ns[j]);
        }
    }
}

#[test]
fn block_get_set_and_bounds() {
    let mut c = ChunkData::new(ChunkPos::new(0, 0, 0));
    assert_eq!(c.get(1, 2, 3), BlockId(0));
    c.set(1, 2, 3, BlockId(7));
    assert_eq!(c.get(1, 2, 3), BlockId(7));
    // out-of-range reads give the default block, writes are ignored
    assert_eq!(c.get(CHUNK_SIZE, 0, 0), BlockId(0));
    c.set(0, CHUNK_SIZE, 0, BlockId(9));
    assert_eq!(c.get(0, CHUNK_SIZE, 0), BlockId(0));
    c.set(0, 0, CHUNK_HEIGHT, BlockId(9));
}

#[test]
fn set_same_value_keeps_dirty_flag() {
    let mut c = ChunkData::new(ChunkPos::new(0, 0, 0));
    c.set(4, 4, 4, BlockId(3));
    c.dirty = false;
    // writing the value already stored must not re-dirty the chunk
    c.set(4, 4, 4, BlockId(3));
    assert!(!c.dirty);
    // writing a different value must
    c.set(4, 4, 4, BlockId(5));
    assert!(c.dirty);
}

#[test]
fn fill_and_fill_layer() {
    let mut c = ChunkData::new(ChunkPos::new(0, 0, 0));
    c.fill(BlockId(2));
    assert!(c.dirty);
    assert_eq!(c.get(0, 0, 0), BlockId(2));
    assert_eq!(c.get(31, 31, 63), BlockId(2));
    c.fill_layer(5, BlockId(8));
    assert_eq!(c.get(10, 10, 5), BlockId(8));
    assert_eq!(c.get(10, 10, 4), BlockId(2));
    assert_eq!(c.get(10, 10, 6), BlockId(2));
    // out-of-range layer is ignored
    c.fill_layer(CHUNK_HEIGHT, BlockId(9));
    assert_eq!(c.get(0, 0, 63), BlockId(2));
}

#[test]
fn first_update_loads_the_full_cube() {
    let mut m = ChunkManager::new(1);
    let loaded = m.upd_around(ChunkPos::new(0, 0, 0));
    assert_eq!(loaded.len(), 27);
    assert_eq!(m.cnt(), 27);
    for dz in -1..=1 {
        for dy in -1..=1 {
            for dx in -1..=1 {
                assert!(m.get(&ChunkPos::new(dx, dy, dz)).is_some());
            }
        }
    }
}

#[test]
fn update_keeps_hysteresis_ring() {
    let mut m = ChunkManager::new(1);
    m.upd_around(ChunkPos::new(0, 0, 0));
    // moving one cell: chunks at distance 2 on the trailing side stay within
    // the +1 ring; nothing past it survives
    let loaded = m.upd_around(ChunkPos::new(1, 0, 0));
    assert_eq!(loaded.len(), 9);
    assert_eq!(m.cnt(), 36);
    assert!(m.get(&ChunkPos::new(-1, 0, 0)).is_some());
    let loaded2 = m.upd_around(ChunkPos::new(5, 0, 0));
    assert_eq!(loaded2.len(), 27);
    for p in loaded2.iter() {
        assert!((p.x - 5).abs() <= 1 && p.y.abs() <= 1 && p.z.abs() <= 1);
    }
    // everything around the old center is gone now
    assert!(m.get(&ChunkPos::new(0, 0, 0)).is_none());
    assert_eq!(m.cnt(), 27);
}

#[test]
fn load_is_idempotent_and_unload_removes() {
    let mut m = ChunkManager::new(2);
    let p = ChunkPos::new(3, 4, 5);
    m.load(p).set(0, 0, 0, BlockId(6));
    // a second load returns the same chunk, not a fresh one
    assert_eq!(m.load(p).get(0, 0, 0), BlockId(6));
    assert_eq!(m.cnt(), 1);
    let taken = m.unload(&p).expect("chunk was resident");
    assert_eq!(taken.get(0, 0, 0), BlockId(6));
    assert!(m.get(&p).is_none());
    assert!(m.unload(&p).is_none());
}

#[test]
fn dirty_tracking_roundtrip() {
    let mut m = ChunkManager::new(1);
    let a = ChunkPos::new(0, 0, 0);
    let b = ChunkPos::new(1, 0, 0);
    m.load(a);
    m.load(b);
    // fresh chunks are dirty
    let dirty = m.dirty_chunks();
    assert_eq!(dirty.len(), 2);
    m.mark_clean(&a);
    let dirty = m.dirty_chunks();
    assert_eq!(dirty, vec![b]);
    // a real write re-dirties, a no-op write does not
    if let Some(c) = m.get_mut(&b) {
        c.dirty = false;
    }
    assert_eq!(m.dirty_chunks().len(), 0);
    if let Some(c) = m.get_mut(&a) {
        c.set(1, 1, 1, BlockId(4));
    }
    assert_eq!(m.dirty_chunks(), vec![a]);
    // marking a missing coordinate clean is a no-op
    m.mark_clean(&ChunkPos::new(9, 9, 9));
    assert_eq!(m.cnt(), 2);
}
