use archetype_storage::{Archetype, Layout, TypeInfo};

fn ty(id: u64, size: usize, align: usize) -> TypeInfo {
    TypeInfo::new(id, Layout::from_size_align(size, align).unwrap())
}

fn two_types() -> (TypeInfo, TypeInfo, Archetype) {
    let a = TypeInfo::of::<u32>();
    let b = TypeInfo::of::<u8>();
    (a, b, Archetype::new(vec![a, b]))
}

fn spawn(arch: &mut Archetype, a: &TypeInfo, b: &TypeInfo, id: u32, x: u32, c: u8) -> u32 {
    let i = arch.allocate(id);
    arch.put(&x.to_le_bytes(), a.id(), i);
    arch.put(&[c], b.id(), i);
    i
}

#[test]
fn concrete_scenario_remove_first_of_three() {
    let (a, b, mut arch) = two_types();
    assert_eq!(spawn(&mut arch, &a, &b, 10, 1, b'a'), 0);
    assert_eq!(spawn(&mut arch, &a, &b, 11, 2, b'b'), 1);
    assert_eq!(spawn(&mut arch, &a, &b, 12, 3, b'c'), 2);
    assert_eq!(arch.remove(0), Some(12));
    assert_eq!(arch.len(), 2);
    assert_eq!(&arch.entities()[..2], &[12, 11]);
    assert_eq!(arch.get(a.id(), 0), 3u32.to_le_bytes().to_vec());
    assert_eq!(arch.get(b.id(), 0), vec![b'c']);
    assert_eq!(arch.get(a.id(), 1), 2u32.to_le_bytes().to_vec());
    assert_eq!(arch.get(b.id(), 1), vec![b'b']);
}

#[test]
fn removing_last_slot_returns_none_and_keeps_others() {
    let (a, b, mut arch) = two_types();
    spawn(&mut arch, &a, &b, 10, 1, b'a');
    spawn(&mut arch, &a, &b, 11, 2, b'b');
    assert_eq!(arch.remove(1), None);
    assert_eq!(arch.len(), 1);
    assert_eq!(arch.entities()[0], 10);
    assert_eq!(arch.get(a.id(), 0), 1u32.to_le_bytes().to_vec());
    assert_eq!(arch.get(b.id(), 0), vec![b'a']);
}

#[test]
fn swap_remove_middle_index() {
    let (a, b, mut arch) = two_types();
    for k in 0..5u32 {
        spawn(&mut arch, &a, &b, 100 + k, k * 7, k as u8);
    }
    assert_eq!(arch.remove(2), Some(104));
    assert_eq!(arch.len(), 4);
    assert_eq!(&arch.entities()[..4], &[100, 101, 104, 103]);
    assert_eq!(arch.get(a.id(), 2), 28u32.to_le_bytes().to_vec());
    assert_eq!(arch.get(b.id(), 2), vec![4]);
}

#[test]
fn removing_every_entity_empties_the_archetype() {
    let (a, b, mut arch) = two_types();
    for k in 0..10u32 {
        spawn(&mut arch, &a, &b, k, k, k as u8);
    }
    while arch.len() > 0 {
        arch.remove(0);
    }
    assert_eq!(arch.len(), 0);
}

#[test]
fn growth_keeps_every_value() {
    let (a, b, mut arch) = two_types();
    for k in 0..300u32 {
        assert_eq!(spawn(&mut arch, &a, &b, 1000 + k, k * 3 + 1, (k % 251) as u8), k);
    }
    assert_eq!(arch.len(), 300);
    assert_eq!(arch.entities().len(), 512);
    for k in 0..300u32 {
        assert_eq!(arch.entities()[k as usize], 1000 + k);
        assert_eq!(arch.get(a.id(), k), (k * 3 + 1).to_le_bytes().to_vec());
        assert_eq!(arch.get(b.id(), k), vec![(k % 251) as u8]);
    }
}

#[test]
fn first_allocation_reserves_sixty_four_slots() {
    let (a, b, mut arch) = two_types();
    assert_eq!(arch.entities().len(), 0);
    spawn(&mut arch, &a, &b, 1, 1, 1);
    assert_eq!(arch.entities().len(), 64);
    assert_eq!(arch.entities()[1], u32::MAX);
}

#[test]
fn columns_are_aligned_for_mixed_alignments() {
    let types = vec![ty(3, 16, 16), ty(2, 8, 8), ty(1, 1, 1), ty(4, 3, 1)];
    let mut arch = Archetype::new(types.clone());
    for k in 0..200u32 {
        arch.allocate(k);
        for t in &types {
            arch.put(&vec![k as u8; t.layout().size()], t.id(), k);
        }
        for t in &types {
            let off = arch.data(t.id()).unwrap();
            assert_eq!(off % t.layout().align(), 0);
        }
    }
    // 16 * 256, then 8 * 256, then 1 * 256: all multiples of their alignment.
    assert_eq!(arch.data(3), Some(0));
    assert_eq!(arch.data(2), Some(4096));
    assert_eq!(arch.data(1), Some(6144));
    assert_eq!(arch.data(4), Some(6400));
}

#[test]
fn unaligned_end_is_padded_for_next_column() {
    let types = vec![ty(1, 3, 1), ty(2, 8, 8)];
    let mut arch = Archetype::new(types);
    arch.allocate(0);
    // 3 * 64 = 192 is already a multiple of 8; with capacity 64 the second
    // column starts right after the first.
    assert_eq!(arch.data(2), Some(192));
    let types = vec![ty(1, 1, 1), ty(2, 8, 8)];
    let mut arch = Archetype::new(types);
    arch.allocate(0);
    assert_eq!(arch.data(2), Some(64));
}

#[test]
fn unknown_type_is_absent() {
    let (_, _, arch) = two_types();
    assert_eq!(arch.data(12345), None);
}

#[test]
fn move_keeps_shared_values_and_leaves_others() {
    let ta = ty(1, 4, 4);
    let tb = ty(2, 2, 2);
    let tc = ty(3, 1, 1);
    let mut src = Archetype::new(vec![ta, tb]);
    let mut dst = Archetype::new(vec![ta, tc]);
    for k in 0..3u32 {
        src.allocate(50 + k);
        src.put(&(k + 10).to_le_bytes(), 1, k);
        src.put(&[k as u8, 0xee], 2, k);
    }
    // Extract B before the move, since the destination lacks it.
    let b_value = src.read(2, 0);
    assert_eq!(b_value, vec![0, 0xee]);
    let t = dst.allocate(50);
    dst.put(&[9], 3, t);
    let set = src.move_component_set(0);
    assert_eq!(set.elements(), vec![1, 2]);
    assert_eq!(set.info().len(), 2);
    set.store(&mut src, &mut dst, t);
    assert_eq!(dst.get(1, t), 10u32.to_le_bytes().to_vec());
    assert_eq!(dst.get(3, t), vec![9]);
    assert_eq!(src.len(), 2);
    assert_eq!(&src.entities()[..2], &[52, 51]);
    assert_eq!(src.get(1, 0), 12u32.to_le_bytes().to_vec());
    assert_eq!(src.get(2, 0), vec![2, 0xee]);
}

#[test]
fn put_dynamic_writes_bytes() {
    let (a, _b, mut arch) = two_types();
    let i = arch.allocate(7);
    arch.put_dynamic(&[1, 2, 3, 4], a.id(), a.layout(), i);
    assert_eq!(arch.get(a.id(), i), vec![1, 2, 3, 4]);
}

#[test]
fn type_info_ordering_and_identity() {
    let big = ty(5, 8, 8);
    let small = ty(1, 1, 1);
    assert!(big < small);
    assert!(!(small < big));
    assert!(ty(1, 4, 4) < ty(2, 4, 4));
    assert_eq!(ty(3, 4, 4).partial_cmp(&ty(3, 4, 4)), Some(std::cmp::Ordering::Equal));
    assert!(ty(1, 4, 4) == ty(1, 4, 4));
    assert!(ty(1, 4, 4) != ty(2, 4, 4));
    assert!(ty(1, 4, 4) != ty(1, 8, 8));
    assert_ne!(ty(1, 4, 4).partial_cmp(&ty(1, 8, 8)), Some(std::cmp::Ordering::Equal));
    let mut sorted = vec![ty(2, 1, 1), ty(9, 16, 16), ty(1, 1, 1), ty(4, 8, 8)];
    sorted.sort_by(|x, y| x.partial_cmp(y).unwrap());
    let ids: Vec<u64> = sorted.iter().map(|t| t.id()).collect();
    assert_eq!(ids, vec![9, 4, 1, 2]);
    let u = TypeInfo::of::<u32>();
    let v = TypeInfo::of::<u8>();
    assert_ne!(u.id(), v.id());
    assert_eq!(u.id(), TypeInfo::of::<u32>().id());
    assert_eq!(u.layout().size(), 4);
}

#[test]
fn try_new_refuses_shared_identifiers() {
    assert!(Archetype::try_new(vec![ty(1, 4, 4), ty(1, 8, 8)]).is_none());
    assert!(Archetype::try_new(vec![ty(1, 4, 4), ty(2, 8, 8), ty(1, 4, 4)]).is_none());
    let arch = Archetype::try_new(vec![ty(2, 8, 8), ty(1, 4, 4)]).unwrap();
    assert_eq!(arch.len(), 0);
    assert_eq!(arch.types().len(), 2);
    assert!(Archetype::try_new(vec![]).is_some());
}

#[test]
fn try_allocate_appends_and_grows() {
    let mut arch = Archetype::try_new(vec![ty(1, 4, 4)]).unwrap();
    for k in 0..70u32 {
        assert_eq!(arch.try_allocate(500 + k), Some(k));
        arch.put(&k.to_le_bytes(), 1, k);
    }
    assert_eq!(arch.entities().len(), 128);
    assert_eq!(arch.get(1, 3), 3u32.to_le_bytes().to_vec());
    assert_eq!(arch.get(1, 69), 69u32.to_le_bytes().to_vec());
}

#[test]
fn try_allocate_refuses_storage_that_cannot_fit() {
    let mut arch = Archetype::try_new(vec![ty(1, usize::MAX / 8, 1)]).unwrap();
    assert_eq!(arch.try_allocate(1), None);
    assert_eq!(arch.len(), 0);
    assert_eq!(arch.entities().len(), 0);
}

#[test]
fn archetype_without_types_holds_entities() {
    let mut arch = Archetype::try_new(vec![]).unwrap();
    assert_eq!(arch.allocate(4), 0);
    assert_eq!(arch.allocate(5), 1);
    assert_eq!(arch.remove(0), Some(5));
    assert_eq!(arch.len(), 1);
    assert_eq!(arch.entities()[0], 5);
}
