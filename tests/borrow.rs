use archetype_storage::AtomicBorrow;

#[test]
fn test_borrow() {
    let mut counter = AtomicBorrow::new();
    assert!(counter.borrow());
    assert!(counter.borrow());
    assert!(!counter.borrow_mut());
    counter.release();
    counter.release();

    assert!(counter.borrow_mut());
    assert!(!counter.borrow());
    counter.release_mut();
    assert!(counter.borrow());
}

#[test]
fn shared_borrow_blocks_exclusive_until_released() {
    let mut g = AtomicBorrow::new();
    assert!(g.borrow());
    assert!(!g.borrow_mut());
    g.release();
    assert!(g.borrow_mut());
}

#[test]
fn exclusive_borrow_blocks_everything_until_released() {
    let mut g = AtomicBorrow::new();
    assert!(g.borrow_mut());
    assert!(!g.borrow());
    assert!(!g.borrow_mut());
    g.release_mut();
    assert!(g.borrow());
    assert!(g.borrow());
    g.release();
    g.release();
    assert!(g.borrow_mut());
}
