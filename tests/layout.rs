use archetype_storage::{align, Layout};

#[test]
fn align_rounds_up_to_multiple() {
    assert_eq!(align(0, 8), 0);
    assert_eq!(align(1, 8), 8);
    assert_eq!(align(8, 8), 8);
    assert_eq!(align(9, 4), 12);
    assert_eq!(align(13, 1), 13);
    assert_eq!(align(17, 16), 32);
}

#[test]
fn layout_requires_power_of_two_alignment() {
    assert!(Layout::from_size_align(4, 0).is_none());
    assert!(Layout::from_size_align(4, 3).is_none());
    assert!(Layout::from_size_align(12, 6).is_none());
    let l = Layout::from_size_align(12, 4).unwrap();
    assert_eq!(l.size(), 12);
    assert_eq!(l.align(), 4);
}

#[test]
fn layout_of_primitive_types() {
    let l = Layout::new::<u64>();
    assert_eq!(l.size(), 8);
    assert_eq!(l.align(), std::mem::align_of::<u64>());
    let l = Layout::new::<u8>();
    assert_eq!(l.size(), 1);
    assert_eq!(l.align(), 1);
}
