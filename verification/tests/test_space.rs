use copying_gc::{slot_count, Heap, Rooted, Space, SpacePtr};

#[test]
fn test_space() {
    let mut space: Space<i64> = Space::new(1024);

    for i in 0..500 {
        let p: SpacePtr = space.allocate(i as i64).unwrap();

        assert_eq!(*p.borrow(&space), i);
    }
}

#[test]
fn footprints_round_up_to_double_words() {
    assert_eq!(slot_count::<u8>(), 1);
    assert_eq!(slot_count::<i64>(), 1);
    assert_eq!(slot_count::<[u8; 9]>(), 2);
    assert_eq!(slot_count::<[u8; 16]>(), 2);
    assert_eq!(slot_count::<[u8; 17]>(), 3);
    assert_eq!(slot_count::<()>(), 1);
}

#[test]
fn allocation_without_room_has_no_effect() {
    let mut space: Space<i64> = Space::new(2);
    let p0 = space.allocate(5).unwrap();
    let p1 = space.allocate(6).unwrap();
    assert!(space.allocate(7).is_none());
    assert_eq!(*p0.borrow(&space), 5);
    assert_eq!(*p1.borrow(&space), 6);
    assert!(space.allocate(8).is_none());
}

#[test]
fn mark_bits_follow_slot_references() {
    let mut space: Space<i64> = Space::new(8);
    let p = space.allocate(1).unwrap();
    assert!(!space.marked(&p));
    space.set_mark(&p);
    assert!(space.marked(&p));
    space.unset_mark(&p);
    assert!(!space.marked(&p));
}

#[test]
fn forwarding_rewrites_relocated_references_only() {
    let mut src: Space<i64> = Space::new(4);
    let mut dst: Space<i64> = Space::new(4);
    let r0 = src.allocate(11).unwrap();
    let r1 = src.allocate(22).unwrap();

    let mut rec = Rooted::new(r1, 0);
    dst.realloc(&mut rec, &mut src);
    assert_eq!(*rec.borrow(&dst), 22);

    let mut moved = Heap::new(r1);
    src.forward(&mut moved);
    assert_eq!(moved.inner().inner(), 0);
    assert_eq!(*moved.borrow(&dst), 22);

    let mut stayed = Heap::new(r0);
    src.forward(&mut stayed);
    assert_eq!(stayed.inner().inner(), r0.inner());
    assert_eq!(*stayed.borrow(&src), 11);
}
