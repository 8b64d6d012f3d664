use elise::{
    alloc_managed, collect, count_managed_objects, count_roots, GcState, HeapRoot, Root, RootIds,
};

#[test]
fn ten_thousand_roots_in_sequence_leave_no_root_and_one_recycled_id() {
    let mut gc: GcState<u32> = GcState::new();
    let mut ids = RootIds::new();
    let target = alloc_managed(&mut gc, 7u32);
    for _ in 0..10_000 {
        assert!(ids.can_issue());
        let root = Root::new(&mut ids);
        assert_eq!(root.idx(), 0);
        root.enroot(&mut gc, target);
        assert_eq!(count_roots(&gc), 1);
        root.release(&mut ids, &mut gc);
    }
    assert_eq!(count_roots(&gc), 0);
    assert_eq!(ids.count_recycled(), 1);
}

#[test]
fn identifiers_come_from_the_pool_first_and_then_from_the_counter() {
    let mut gc: GcState<u32> = GcState::new();
    let mut ids = RootIds::new();
    let a = Root::new(&mut ids);
    let b = Root::new(&mut ids);
    let c = Root::new(&mut ids);
    assert_eq!((a.idx(), b.idx(), c.idx()), (0, 1, 2));
    b.release(&mut ids, &mut gc);
    a.release(&mut ids, &mut gc);
    assert_eq!(ids.count_recycled(), 2);
    let d = Root::new(&mut ids);
    let e = Root::new(&mut ids);
    let f = Root::new(&mut ids);
    assert_eq!((d.idx(), e.idx(), f.idx()), (1, 0, 3));
    assert_eq!(ids.count_recycled(), 0);
    c.release(&mut ids, &mut gc);
    d.release(&mut ids, &mut gc);
    e.release(&mut ids, &mut gc);
    f.release(&mut ids, &mut gc);
    assert_eq!(ids.count_recycled(), 4);
}

#[test]
fn a_root_that_was_never_bound_releases_cleanly() {
    let mut gc: GcState<u32> = GcState::new();
    let mut ids = RootIds::new();
    let root = Root::new(&mut ids);
    assert_eq!(count_roots(&gc), 0);
    root.release(&mut ids, &mut gc);
    assert_eq!(count_roots(&gc), 0);
    assert_eq!(ids.count_recycled(), 1);
}

#[test]
fn heap_root_keeps_its_object_alive_until_released() {
    let mut gc: GcState<u32> = GcState::new();
    let mut ids = RootIds::new();
    let rooted = HeapRoot::new(&mut gc, &mut ids, 41u32);
    let handle = rooted.gc();
    collect(&mut gc);
    assert_eq!(rooted.deref(&gc), Some(&41));
    assert_eq!(count_managed_objects(&gc), 1);
    rooted.release(&mut gc, &mut ids);
    collect(&mut gc);
    assert_eq!(handle.data(&gc), None);
    assert_eq!(count_managed_objects(&gc), 0);
}

#[test]
fn cloning_a_heap_root_takes_a_second_identifier() {
    let mut gc: GcState<u32> = GcState::new();
    let mut ids = RootIds::new();
    let first = HeapRoot::new(&mut gc, &mut ids, 5u32);
    assert_eq!(count_roots(&gc), 1);
    let second = first.clone(&mut gc, &mut ids);
    assert_eq!(count_roots(&gc), 2);
    assert_eq!(first.gc().erased(), second.gc().erased());

    first.release(&mut gc, &mut ids);
    collect(&mut gc);
    assert_eq!(second.deref(&gc), Some(&5));

    let handle = second.gc();
    second.release(&mut gc, &mut ids);
    assert_eq!(count_roots(&gc), 0);
    collect(&mut gc);
    assert_eq!(handle.data(&gc), None);
}

#[test]
fn reroot_binds_a_root_to_an_existing_object() {
    let mut gc: GcState<u32> = GcState::new();
    let mut ids = RootIds::new();
    let handle = alloc_managed(&mut gc, 9u32);
    let rooted = HeapRoot::reroot(&mut gc, &mut ids, handle);
    collect(&mut gc);
    assert_eq!(handle.data(&gc), Some(&9));
    rooted.release(&mut gc, &mut ids);
    collect(&mut gc);
    assert_eq!(handle.data(&gc), None);
}
