use qp_rs::qf::event::Event;
use qp_rs::qf::event::Signal;
use qp_rs::qf::event_pool::{gc, q_new, q_new_x, PoolRegistry};
use qp_rs::qf::pool::QMPool;

// ── QMPool ───────────────────────────────────────────────────────────────────

#[test]
fn pool_basic_alloc_free() {
    let mut pool = QMPool::uninit();
    let n = pool.init(vec![0u8; 128], 16);

    assert!(n >= 2, "should have at least 2 blocks");
    assert_eq!(pool.get_free(), n);
    assert_eq!(pool.get_use(), 0);

    let b1 = pool.get(0).expect("first alloc");
    let b2 = pool.get(0).expect("second alloc");
    assert_ne!(b1, b2, "distinct blocks");
    assert_eq!(pool.get_free(), n - 2);
    assert_eq!(pool.get_use(), 2);

    pool.put(b1);
    assert_eq!(pool.get_free(), n - 1);
    assert_eq!(pool.get_use(), 1);

    pool.put(b2);
    assert_eq!(pool.get_free(), n);
    assert_eq!(pool.get_use(), 0);
}

#[test]
fn pool_watermark_tracks_minimum_free() {
    let mut pool = QMPool::uninit();
    let n = pool.init(vec![0u8; 128], 16);

    let blocks: Vec<usize> = (0..n).map(|_| pool.get(0).unwrap()).collect();
    assert_eq!(pool.get_min(), 0, "watermark hit zero");

    for b in blocks {
        pool.put(b);
    }
    assert_eq!(pool.get_min(), 0);
    assert_eq!(pool.get_free(), n);
}

#[test]
fn pool_exhausted_returns_none() {
    let mut pool = QMPool::uninit();
    let n = pool.init(vec![0u8; 64], 16);

    let blocks: Vec<usize> = (0..n).map(|_| pool.get(0).unwrap()).collect();
    assert!(pool.get(0).is_none(), "pool exhausted");

    pool.put(blocks[0]);
    let b = pool.get(0);
    assert!(b.is_some(), "should succeed after free");
}

#[test]
fn pool_margin_prevents_allocation() {
    let mut pool = QMPool::uninit();
    let n = pool.init(vec![0u8; 64], 16);
    assert!(n >= 2);

    let mut blocks = Vec::new();
    while pool.get_free() > 1 {
        blocks.push(pool.get(0).unwrap());
    }
    assert!(pool.get(1).is_none(), "margin=1 should reject when only 1 free");
    let b = pool.get(0);
    assert!(b.is_some());

    for b in blocks {
        pool.put(b);
    }
    if let Some(b) = b {
        pool.put(b);
    }
}

#[test]
fn pool_small_block_size_rounded_up() {
    let mut pool = QMPool::uninit();
    let n = pool.init(vec![0u8; 256], 1);
    assert_eq!(pool.block_size(), 2 * core::mem::size_of::<usize>());
    assert!(n > 0);

    let b = pool.get(0).expect("alloc from tiny-block pool");
    // The block's byte offset is word-aligned.
    assert_eq!((b * pool.block_size()) % core::mem::size_of::<usize>(), 0);
    pool.put(b);
}

#[test]
fn pool_can_serve_checks_size() {
    let mut pool = QMPool::uninit();
    pool.init(vec![0u8; 256], 32);

    assert!(pool.can_serve(1));
    assert!(pool.can_serve(32));
    assert!(!pool.can_serve(33));
}

#[test]
fn pool_block_size_rounds_to_words() {
    let mut pool = QMPool::uninit();
    let w = core::mem::size_of::<usize>();
    let n = pool.init(vec![0u8; 100], 3 * w + 1);
    assert_eq!(pool.block_size(), 4 * w);
    assert_eq!(n, 100 / (4 * w));
    assert_eq!(pool.num_blocks(), n);
    assert!(pool.is_init());
    assert!(!QMPool::uninit().is_init());
}

#[test]
fn pool_hands_out_blocks_in_index_order_and_lifo_after_put() {
    let mut pool = QMPool::uninit();
    pool.init(vec![0u8; 128], 16);
    assert_eq!(pool.get(0), Some(0));
    assert_eq!(pool.get(0), Some(1));
    pool.put(0);
    assert_eq!(pool.get(0), Some(0));
    assert_eq!(pool.get(0), Some(2));
}

// ── PoolRegistry / q_new / q_new_x ───────────────────────────────────────────

#[test]
fn registry_alloc_and_free_via_q_new() {
    let mut reg = PoolRegistry::new();

    let pool_id = reg.init_pool(vec![0u8; 512], 64);
    assert_eq!(pool_id, 1);
    assert_eq!(reg.pool_count(), 1);

    let size = core::mem::size_of::<Event<u32>>();
    let event_box = reg.alloc_block(size, 0);
    assert!(event_box.is_some(), "should allocate");
    let (_, block) = event_box.unwrap();
    assert_eq!(reg.get_use(1).unwrap(), 1);

    reg.free(1, block);
    assert_eq!(reg.get_use(1).unwrap(), 0);
}

#[test]
fn q_new_returns_event_box_and_gc_on_drop() {
    let mut reg = PoolRegistry::new();
    reg.init_pool(vec![0u8; 1024], 128);

    let initial_free = reg.get_free(1).unwrap();
    let size = core::mem::size_of::<Event<u64>>();
    let alloc = reg.alloc_block(size, 0);
    assert!(alloc.is_some());
    let (pool_id, block) = alloc.unwrap();
    assert_eq!(reg.get_free(1).unwrap(), initial_free - 1);

    reg.free(pool_id, block);
    assert_eq!(reg.get_free(1).unwrap(), initial_free);
}

#[test]
fn q_new_x_margin_0_succeeds_when_free() {
    let mut reg = PoolRegistry::new();
    reg.init_pool(vec![0u8; 512], 64);

    let size = core::mem::size_of::<Event<[u8; 8]>>();
    let (pool_id, block) = reg.alloc_block(size, 0).expect("should alloc");
    assert_eq!(pool_id, 1);
    reg.free(pool_id, block);
}

#[test]
fn registry_selects_smallest_fitting_pool() {
    let mut reg = PoolRegistry::new();

    let small_id = reg.init_pool(vec![0u8; 256], 32);
    let large_id = reg.init_pool(vec![0u8; 256], 128);
    assert_eq!(small_id, 1);
    assert_eq!(large_id, 2);

    let r = reg.alloc_block(20, 0).unwrap();
    assert_eq!(r.0, small_id, "20-byte alloc should use small pool");
    reg.free(r.0, r.1);

    let r = reg.alloc_block(64, 0).unwrap();
    assert_eq!(r.0, large_id, "64-byte alloc should use large pool");
    reg.free(r.0, r.1);
}

#[test]
fn registry_margin_falls_through_to_next_pool() {
    let mut reg = PoolRegistry::new();

    let s_id = reg.init_pool(vec![0u8; 256], 64);
    let _l_id = reg.init_pool(vec![0u8; 512], 64);
    let small_total = reg.get_free(s_id).unwrap();
    assert!(small_total >= 2, "expected at least 2 blocks, got {}", small_total);

    let mut blocks = Vec::new();
    while reg.get_free(s_id).unwrap() > 0 {
        let (id, b) = reg.alloc_block(32, 0).unwrap();
        if id == s_id {
            blocks.push((id, b));
        } else {
            reg.free(id, b);
            break;
        }
    }

    let r = reg.alloc_block(32, 1);
    if let Some((id, b)) = r {
        assert_eq!(id, _l_id);
        reg.free(id, b);
    }

    for (id, b) in blocks {
        reg.free(id, b);
    }
}

#[test]
fn registry_reports_unknown_pool_ids() {
    let mut reg = PoolRegistry::new();
    assert_eq!(reg.get_free(1), None);
    reg.init_pool(vec![0u8; 128], 16);
    assert_eq!(reg.get_free(0), None);
    assert_eq!(reg.get_free(2), None);
    assert_eq!(reg.get_min(1), Some(128 / 16));
    assert_eq!(reg.alloc_block(17, 0), None);
}

#[test]
fn q_new_stamps_pool_id_and_gc_returns_block() {
    let mut reg = PoolRegistry::new();
    reg.init_pool(vec![0u8; 1024], 64);
    let free0 = reg.get_free(1).unwrap();

    let b = q_new(&mut reg, Signal::from_raw(42), 7u32).expect("allocates");
    assert_eq!(b.event().header.signal, Signal::from_raw(42));
    assert_eq!(b.event().header.pool_id, Some(1));
    assert_eq!(b.event().payload, 7);
    assert_eq!(reg.get_free(1).unwrap(), free0 - 1);

    let e = gc(&mut reg, b);
    assert_eq!(e.payload, 7);
    assert_eq!(reg.get_free(1).unwrap(), free0);

    // A margin as large as the pool refuses the allocation.
    assert!(q_new_x(&mut reg, Signal::from_raw(1), 0u8, free0).is_none());
}
