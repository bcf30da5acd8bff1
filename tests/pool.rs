use ntex_pool::pool::{window_table_of, BufParams, MemoryPool, PoolId, Pools};
use ntex_pool::waiters::NONE;

type Bank = Pools<u32, Vec<u8>>;

#[test]
fn no_spawner_means_always_ready() {
    let mut pools: Bank = Pools::new();
    PoolId::P0.set_pool_size(&mut pools, 1000);
    let pool = pools.get_mut(PoolId::P0);
    pool.acquire(5000);
    let mut slot = NONE;
    for w in 0..3u32 {
        let r = pool.poll_ready(&mut slot, w);
        assert!(r.ready);
        assert!(r.wake.is_none());
    }
    assert_eq!(slot, NONE);
}

#[test]
fn pressure_blocks_then_driver_releases() {
    let mut pools: Bank = Pools::new();
    PoolId::P1.set_spawn_fn(&mut pools);
    PoolId::P1.set_pool_size(&mut pools, 1000);
    let pool = pools.get_mut(PoolId::P1);
    pool.acquire(1001);
    let mut slot = NONE;
    let r = pool.poll_ready(&mut slot, 7);
    assert!(!r.ready);
    assert!(r.spawn_driver);
    assert!(r.wake.is_none());
    assert!(!pool.is_ready(slot));

    let (done, woken) = pool.driver_poll();
    assert!(!done);
    assert!(woken.is_empty());
    assert!(pool.waker_alive);

    assert!(pool.release(500));
    let (done, woken) = pool.driver_poll();
    assert!(done);
    assert_eq!(woken, vec![7]);
    assert!(pool.is_ready(slot));

    let r = pool.poll_ready(&mut slot, 7);
    assert!(r.ready);
    assert_eq!(slot, NONE);
}

#[test]
fn set_pool_size_wakes_every_waiter() {
    let mut pools: Bank = Pools::new();
    PoolId::P2.set_spawn_fn(&mut pools);
    PoolId::P2.set_pool_size(&mut pools, 1000);
    let pool = pools.get_mut(PoolId::P2);
    pool.acquire(2000);
    let mut s1 = NONE;
    let mut s2 = NONE;
    assert!(!pool.poll_ready(&mut s1, 1).ready);
    assert!(!pool.poll_ready(&mut s2, 2).ready);
    let woken = PoolId::P2.set_pool_size(&mut pools, 5000);
    assert_eq!(woken, vec![1, 2]);
}

#[test]
fn buffers_cached_only_within_water_marks() {
    let mut pool: MemoryPool<u32, Vec<u8>> = MemoryPool::create(PoolId::P3);
    assert!(pool.release_read_buf(vec![1u8], 2048).is_none());
    assert_eq!(pool.release_read_buf(vec![2u8], 8192), Some(vec![2u8]));
    assert_eq!(pool.release_read_buf(vec![3u8], 1024), Some(vec![3u8]));
    assert_eq!(pool.get_read_buf(), Some(vec![1u8]));
    assert_eq!(pool.get_read_buf(), None);
    assert!(pool.release_write_buf(vec![4u8], 4096).is_none());
    assert_eq!(pool.get_write_buf(), Some(vec![4u8]));
}

#[test]
fn cache_holds_at_most_sixteen() {
    let mut pool: MemoryPool<u32, Vec<u8>> = MemoryPool::create(PoolId::P4);
    for i in 0..16u8 {
        assert!(pool.release_write_buf(vec![i], 2000).is_none());
    }
    assert_eq!(pool.release_write_buf(vec![99u8], 2000), Some(vec![99u8]));
}

#[test]
fn allocated_follows_acquire_and_release() {
    let mut pool: MemoryPool<u32, Vec<u8>> = MemoryPool::create(PoolId::P5);
    pool.acquire(100);
    pool.acquire(50);
    pool.release(30);
    assert_eq!(pool.size, 120);
}

#[test]
fn windows_step_down_by_one_percent() {
    let t = window_table_of(1000);
    assert_eq!(t[0], (1000, usize::MAX));
    assert_eq!(t[1], (990, 1000));
    assert_eq!(t[9], (910, 920));
    for i in 1..10 {
        assert_eq!(t[i].1, t[i - 1].0);
    }
}

#[test]
fn resize_reads_write_marks() {
    let mut pools: Bank = Pools::new();
    PoolId::P6.set_write_params(&mut pools, 8000, 2000);
    PoolId::P6.set_read_params(&mut pools, 100, 10);
    let pool = pools.get_mut(PoolId::P6);
    assert_eq!(pool.resize_read_buf(500), 7500);
    assert_eq!(pool.resize_read_buf(2000), 0);
    assert_eq!(pool.resize_write_buf(1999), 6001);
    assert_eq!(pool.read_wm, BufParams { high: 100, low: 10 });
    assert_eq!(BufParams { high: 7, low: 3 }.unpack(), (7, 3));
}

#[test]
fn rising_allocation_moves_window_up() {
    let mut pools: Bank = Pools::new();
    PoolId::P7.set_spawn_fn(&mut pools);
    PoolId::P7.set_pool_size(&mut pools, 1000);
    let pool = pools.get_mut(PoolId::P7);
    pool.acquire(1000);
    let mut slot = NONE;
    assert!(!pool.poll_ready(&mut slot, 1).ready);
    pool.driver_poll();
    pool.release(15);
    let (done, _) = pool.driver_poll();
    assert!(!done);
    assert_eq!(pool.window_idx, 2);
    pool.acquire(10);
    let (_, woken) = pool.driver_poll();
    assert!(woken.is_empty());
    assert_eq!(pool.window_idx, 1);
    assert!(pool.flags.increased);
}

#[test]
fn spawner_for_all_reaches_every_pool() {
    let mut pools: Bank = Pools::new();
    PoolId::set_spawn_fn_all(&mut pools);
    assert!(pools.get(PoolId::P0).spawn);
    assert!(pools.get(PoolId::P14).spawn);
    assert!(pools.get(PoolId::DEFAULT).spawn);
}
