use rust_recipes::design_patterns::raii_resource_guard;
use rust_recipes::mem_pool::Pool;

#[test]
fn mem_pool_acquire_use_release() {
    let mut pool: Pool<Vec<u8>> = Pool::new(4, || Vec::with_capacity(1024));
    assert_eq!(pool.capacity(), 4);
    assert_eq!(pool.available(), 4);
    // Two buffers held at once: slot 0, then slot 1 inside it.
    let seen = pool
        .acquire(|g1, buf1, pool| {
            buf1.extend_from_slice(b"hello");
            pool.acquire(|g2, buf2, pool| {
                buf2.extend_from_slice(b"world");
                (g1.index(), g2.index(), pool.available(), pool.in_use(), buf1.clone(), buf2.clone())
            })
        })
        .expect("pool exhausted")
        .expect("pool exhausted");
    assert_eq!(seen, (0, 1, 2, 2, b"hello".to_vec(), b"world".to_vec()));
    // Both slots came back.
    assert_eq!(pool.available(), 4);
    assert_eq!(pool.in_use(), 0);
    // Slot 0 is on top again and keeps what was written into it.
    let again = pool.acquire(|g, buf, _| (g.index(), buf.clone())).expect("pool exhausted");
    assert_eq!(again, (0, b"hello".to_vec()));
}

#[test]
fn mem_pool_exhausted_returns_none() {
    let mut empty = raii_resource_guard::Pool::new(0, || 0u32);
    assert!(empty.acquire(|_, x, _| *x).is_none());
    let mut one = raii_resource_guard::Pool::new(1, || 0u32);
    let inner = one.acquire(|_, x, pool| {
        *x = 5;
        pool.acquire(|_, y, _| *y)
    });
    assert_eq!(inner, Some(None));
    assert_eq!(one.acquire(|g, x, _| (g.index(), *x)), Some((0, 5)));
    assert_eq!(one.available(), 1);
}
