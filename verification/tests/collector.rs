use elise::{
    alloc_managed, alloc_unmanaged, collect, count_managed_objects, count_roots, manage, pop_root,
    set_root, GcPtr, GcState, Ptr, Root, RootIds, Trace, Tracer,
};
use std::cell::RefCell;
use std::sync::atomic::{AtomicUsize, Ordering};
use std::sync::Arc;

/// A payload with references that can be rewired after allocation, and a
/// finalizer that counts its runs.
struct Node {
    label: u32,
    children: RefCell<Vec<GcPtr<Node>>>,
    finalized: Arc<AtomicUsize>,
}

impl Node {
    fn leaf(label: u32, finalized: &Arc<AtomicUsize>) -> Node {
        Node { label, children: RefCell::new(Vec::new()), finalized: finalized.clone() }
    }

    fn with_children(
        label: u32,
        children: Vec<GcPtr<Node>>,
        finalized: &Arc<AtomicUsize>,
    ) -> Node {
        Node { label, children: RefCell::new(children), finalized: finalized.clone() }
    }
}

impl Trace for Node {
    fn no_trace(&self) -> bool {
        false
    }

    fn mark(&self, tracer: &mut Tracer) {
        for child in self.children.borrow().iter() {
            tracer.visit(child.erased());
        }
    }

    fn manage(&self, tracer: &mut Tracer) {
        for child in self.children.borrow().iter() {
            tracer.visit(child.erased());
        }
    }

    fn finalize(&mut self) {
        self.finalized.fetch_add(1, Ordering::SeqCst);
    }
}

fn counter() -> Arc<AtomicUsize> {
    Arc::new(AtomicUsize::new(0))
}

#[test]
fn rooted_object_survives_until_its_root_is_released() {
    let mut gc: GcState<Node> = GcState::new();
    let mut ids = RootIds::new();
    let runs = counter();

    let a = alloc_unmanaged(&mut gc, Node::leaf(1, &runs));
    assert!(a.is_unmanaged(&gc));
    assert_eq!(count_managed_objects(&gc), 0);
    manage(&mut gc, a);
    assert!(!a.is_unmanaged(&gc));
    let root = Root::new(&mut ids);
    root.enroot(&mut gc, a);
    assert_eq!(count_roots(&gc), 1);

    collect(&mut gc);
    assert_eq!(count_managed_objects(&gc), 1);
    assert_eq!(a.data(&gc).map(|node| node.label), Some(1));
    assert_eq!(runs.load(Ordering::SeqCst), 0);

    root.release(&mut ids, &mut gc);
    assert_eq!(count_roots(&gc), 0);
    collect(&mut gc);
    assert_eq!(count_managed_objects(&gc), 0);
    assert!(a.data(&gc).is_none());
    assert_eq!(runs.load(Ordering::SeqCst), 1);
}

#[test]
fn unrooted_parent_and_child_are_both_freed() {
    let mut gc: GcState<Node> = GcState::new();
    let c_runs = counter();
    let b_runs = counter();

    let c = alloc_managed(&mut gc, Node::leaf(3, &c_runs));
    let b = alloc_managed(&mut gc, Node::with_children(2, vec![c], &b_runs));
    assert_eq!(count_managed_objects(&gc), 2);

    collect(&mut gc);
    assert_eq!(count_managed_objects(&gc), 0);
    assert!(b.data(&gc).is_none());
    assert!(c.data(&gc).is_none());
    assert_eq!(b_runs.load(Ordering::SeqCst), 1);
    assert_eq!(c_runs.load(Ordering::SeqCst), 1);
}

#[test]
fn everything_reachable_from_a_root_survives() {
    let mut gc: GcState<Node> = GcState::new();
    let runs = counter();
    let lost_runs = counter();

    let leaf = alloc_managed(&mut gc, Node::leaf(10, &runs));
    let middle = alloc_managed(&mut gc, Node::with_children(11, vec![leaf], &runs));
    let top = alloc_managed(&mut gc, Node::with_children(12, vec![middle], &runs));
    let lost_leaf = alloc_managed(&mut gc, Node::leaf(20, &lost_runs));
    let lost = alloc_managed(&mut gc, Node::with_children(21, vec![lost_leaf, leaf], &lost_runs));
    set_root(&mut gc, 7, top);

    collect(&mut gc);
    assert_eq!(count_managed_objects(&gc), 3);
    assert_eq!(top.data(&gc).map(|node| node.label), Some(12));
    assert_eq!(middle.data(&gc).map(|node| node.label), Some(11));
    assert_eq!(leaf.data(&gc).map(|node| node.label), Some(10));
    assert!(lost.data(&gc).is_none());
    assert!(lost_leaf.data(&gc).is_none());
    assert_eq!(runs.load(Ordering::SeqCst), 0);
    assert_eq!(lost_runs.load(Ordering::SeqCst), 2);
}

#[test]
fn survivors_keep_their_registry_order() {
    let mut gc: GcState<Node> = GcState::new();
    let runs = counter();
    let a = alloc_managed(&mut gc, Node::leaf(0, &runs));
    let b = alloc_managed(&mut gc, Node::leaf(1, &runs));
    let c = alloc_managed(&mut gc, Node::leaf(2, &runs));
    let d = alloc_managed(&mut gc, Node::leaf(3, &runs));
    set_root(&mut gc, 0, d);
    set_root(&mut gc, 1, b);
    assert_eq!(gc.objects(), vec![a.erased().0, b.erased().0, c.erased().0, d.erased().0]);
    assert_eq!(gc.objects(), vec![0, 1, 2, 3]);

    collect(&mut gc);
    assert_eq!(gc.objects(), vec![b.erased().0, d.erased().0]);
    assert_eq!(runs.load(Ordering::SeqCst), 2);
}

#[test]
fn collecting_a_cycle_terminates_and_frees_it_once_unrooted() {
    let mut gc: GcState<Node> = GcState::new();
    let runs = counter();
    let n = 50;
    let mut ring = Vec::new();
    for label in 0..n {
        ring.push(alloc_managed(&mut gc, Node::leaf(label, &runs)));
    }
    for i in 0..ring.len() {
        let next = ring[(i + 1) % ring.len()];
        gc.data(ring[i]).unwrap().children.borrow_mut().push(next);
    }
    // A self-reference and a duplicate edge on top of the ring.
    gc.data(ring[0]).unwrap().children.borrow_mut().push(ring[0]);
    gc.data(ring[0]).unwrap().children.borrow_mut().push(ring[1]);
    set_root(&mut gc, 0, ring[17]);

    collect(&mut gc);
    assert_eq!(count_managed_objects(&gc), 50);
    collect(&mut gc);
    assert_eq!(count_managed_objects(&gc), 50);
    assert_eq!(runs.load(Ordering::SeqCst), 0);

    pop_root(&mut gc, 0);
    collect(&mut gc);
    assert_eq!(count_managed_objects(&gc), 0);
    assert_eq!(runs.load(Ordering::SeqCst), 50);
}

#[test]
fn marks_do_not_outlive_a_cycle() {
    // If a mark were left behind, the second collection would stop at the
    // marked parent and free the child that only the parent refers to.
    let mut gc: GcState<Node> = GcState::new();
    let runs = counter();
    let child = alloc_managed(&mut gc, Node::leaf(1, &runs));
    let parent = alloc_managed(&mut gc, Node::with_children(2, vec![child], &runs));
    set_root(&mut gc, 3, parent);
    for _ in 0..3 {
        collect(&mut gc);
        assert_eq!(count_managed_objects(&gc), 2);
        assert_eq!(child.data(&gc).map(|node| node.label), Some(1));
    }
    assert_eq!(runs.load(Ordering::SeqCst), 0);
}

#[test]
fn an_unmanaged_object_on_the_way_keeps_what_it_refers_to() {
    let mut gc: GcState<Node> = GcState::new();
    let runs = counter();
    let child = alloc_managed(&mut gc, Node::leaf(1, &runs));
    let loose = alloc_unmanaged(&mut gc, Node::leaf(2, &runs));
    gc.data(loose).unwrap().children.borrow_mut().push(child);
    set_root(&mut gc, 0, loose);
    for _ in 0..3 {
        collect(&mut gc);
        assert_eq!(count_managed_objects(&gc), 1);
        assert!(child.data(&gc).is_some());
        assert!(loose.data(&gc).is_some());
        assert!(loose.is_unmanaged(&gc));
    }
    pop_root(&mut gc, 0);
    collect(&mut gc);
    assert!(child.data(&gc).is_none());
    // The collector never frees what it does not manage.
    assert!(loose.data(&gc).is_some());
    assert_eq!(runs.load(Ordering::SeqCst), 1);
}

#[test]
fn a_finalizer_runs_exactly_once() {
    let mut gc: GcState<Node> = GcState::new();
    let runs = counter();
    let a = alloc_managed(&mut gc, Node::leaf(1, &runs));
    assert_eq!(runs.load(Ordering::SeqCst), 0);
    collect(&mut gc);
    assert_eq!(runs.load(Ordering::SeqCst), 1);
    for _ in 0..5 {
        collect(&mut gc);
    }
    assert_eq!(runs.load(Ordering::SeqCst), 1);
    assert!(a.data(&gc).is_none());
    // Promoting or rooting the freed handle brings nothing back.
    manage(&mut gc, a);
    set_root(&mut gc, 0, a);
    collect(&mut gc);
    assert_eq!(count_managed_objects(&gc), 0);
    assert_eq!(runs.load(Ordering::SeqCst), 1);
}

#[test]
fn promotion_is_idempotent_and_reaches_embedded_references() {
    let mut gc: GcState<Node> = GcState::new();
    let runs = counter();
    let inner = alloc_unmanaged(&mut gc, Node::leaf(1, &runs));
    let outer = alloc_unmanaged(&mut gc, Node::with_children(2, vec![inner], &runs));
    gc.data(inner).unwrap().children.borrow_mut().push(outer);
    assert_eq!(count_managed_objects(&gc), 0);

    manage(&mut gc, outer);
    assert_eq!(count_managed_objects(&gc), 2);
    assert!(!inner.is_unmanaged(&gc));
    assert!(!outer.is_unmanaged(&gc));

    manage(&mut gc, outer);
    manage(&mut gc, inner);
    assert_eq!(count_managed_objects(&gc), 2);
}

#[test]
fn promotion_stops_at_managed_objects() {
    let mut gc: GcState<Node> = GcState::new();
    let runs = counter();
    let far = alloc_unmanaged(&mut gc, Node::leaf(1, &runs));
    let wall = alloc_managed(&mut gc, Node::leaf(2, &runs));
    gc.data(wall).unwrap().children.borrow_mut().push(far);
    let start = alloc_unmanaged(&mut gc, Node::with_children(3, vec![wall], &runs));
    manage(&mut gc, start);
    assert_eq!(count_managed_objects(&gc), 2);
    assert!(far.is_unmanaged(&gc));
}

#[test]
fn deallocate_takes_only_unmanaged_objects() {
    let mut gc: GcState<Node> = GcState::new();
    let runs = counter();
    let loose = alloc_unmanaged(&mut gc, Node::leaf(5, &runs));
    let kept = alloc_managed(&mut gc, Node::leaf(6, &runs));

    assert!(kept.deallocate(&mut gc).is_none());
    assert!(kept.data(&gc).is_some());

    let data = loose.deallocate(&mut gc);
    assert_eq!(data.map(|node| node.label), Some(5));
    assert!(loose.data(&gc).is_none());
    assert!(loose.deallocate(&mut gc).is_none());
    // No finalizer ran.
    assert_eq!(runs.load(Ordering::SeqCst), 0);
}

#[test]
fn handles_are_slot_numbers_that_are_never_reused() {
    let mut gc: GcState<Node> = GcState::new();
    let runs = counter();
    let a = alloc_managed(&mut gc, Node::leaf(0, &runs));
    assert_eq!(a.erased(), Ptr(0));
    collect(&mut gc);
    let b = alloc_managed(&mut gc, Node::leaf(1, &runs));
    assert_eq!(b.erased(), Ptr(1));
    assert!(a.data(&gc).is_none());
    assert_eq!(GcPtr::<Node>::from_erased(Ptr(1)).data(&gc).map(|node| node.label), Some(1));
    assert!(GcPtr::<Node>::from_erased(Ptr(99)).data(&gc).is_none());
}

#[test]
fn dangling_roots_and_references_are_skipped() {
    let mut gc: GcState<Node> = GcState::new();
    let runs = counter();
    let ghost = GcPtr::<Node>::from_erased(Ptr(1234));
    let a = alloc_managed(&mut gc, Node::with_children(0, vec![ghost], &runs));
    set_root(&mut gc, 0, ghost);
    set_root(&mut gc, 1, a);
    collect(&mut gc);
    assert_eq!(count_managed_objects(&gc), 1);
    assert_eq!(count_roots(&gc), 2);
}

#[test]
fn set_root_overwrites_and_pop_root_removes_the_entry() {
    let mut gc: GcState<Node> = GcState::new();
    let runs = counter();
    let a = alloc_managed(&mut gc, Node::leaf(0, &runs));
    let b = alloc_managed(&mut gc, Node::leaf(1, &runs));
    set_root(&mut gc, 4, a);
    set_root(&mut gc, 4, b);
    assert_eq!(count_roots(&gc), 1);
    assert_eq!(gc.roots(), vec![(4, Some(b.erased().0))]);
    set_root(&mut gc, 9, a);
    let mut pairs = gc.roots();
    pairs.sort();
    assert_eq!(pairs, vec![(4, Some(1)), (9, Some(0))]);
    pop_root(&mut gc, 4);
    assert_eq!(gc.roots(), vec![(9, Some(0))]);
    pop_root(&mut gc, 4);
    assert_eq!(count_roots(&gc), 1);
    collect(&mut gc);
    assert!(a.data(&gc).is_some());
    assert!(b.data(&gc).is_none());
}

#[test]
fn an_object_promoted_during_a_cycle_survives_it() {
    let mut gc: GcState<Node> = GcState::new();
    let runs = counter();
    let late_runs = counter();
    let kept = alloc_managed(&mut gc, Node::leaf(0, &runs));
    let dropped = alloc_managed(&mut gc, Node::leaf(1, &runs));
    let also_kept = alloc_managed(&mut gc, Node::leaf(2, &runs));
    set_root(&mut gc, 0, kept);
    set_root(&mut gc, 1, also_kept);

    let mut cycle = gc.begin_cycle();
    assert!(gc.sweep_step(&mut cycle));
    assert_eq!(gc.objects(), vec![1, 2, 0]);

    // Unrooted, unmarked, and in the registry: only being late saves it.
    let late = alloc_managed(&mut gc, Node::leaf(3, &late_runs));
    assert_eq!(gc.objects(), vec![1, 2, 0, 3]);

    assert!(gc.sweep_step(&mut cycle));
    assert_eq!(gc.objects(), vec![2, 0, 3]);
    assert!(dropped.data(&gc).is_none());
    assert!(gc.sweep_step(&mut cycle));
    assert_eq!(gc.objects(), vec![0, 3, 2]);
    assert!(!gc.sweep_step(&mut cycle));
    assert_eq!(gc.objects(), vec![0, 3, 2]);

    assert_eq!(late.data(&gc).map(|node| node.label), Some(3));
    assert_eq!(late_runs.load(Ordering::SeqCst), 0);
    assert_eq!(runs.load(Ordering::SeqCst), 1);

    // The next cycle is its first full one, and it is unreachable.
    collect(&mut gc);
    assert!(late.data(&gc).is_none());
    assert_eq!(late_runs.load(Ordering::SeqCst), 1);
    assert_eq!(gc.objects(), vec![0, 2]);
}

#[test]
fn stepping_through_a_cycle_does_what_collect_does() {
    let build = |gc: &mut GcState<Node>, runs: &Arc<AtomicUsize>| {
        let a = alloc_managed(gc, Node::leaf(0, runs));
        let b = alloc_managed(gc, Node::with_children(1, vec![a], runs));
        let _c = alloc_managed(gc, Node::leaf(2, runs));
        let _d = alloc_managed(gc, Node::with_children(3, vec![b], runs));
        let e = alloc_managed(gc, Node::leaf(4, runs));
        set_root(gc, 0, b);
        set_root(gc, 1, e);
    };
    let mut whole: GcState<Node> = GcState::new();
    let whole_runs = counter();
    build(&mut whole, &whole_runs);
    collect(&mut whole);

    let mut stepped: GcState<Node> = GcState::new();
    let stepped_runs = counter();
    build(&mut stepped, &stepped_runs);
    let mut cycle = stepped.begin_cycle();
    let mut steps = 0;
    while stepped.sweep_step(&mut cycle) {
        steps += 1;
    }
    assert_eq!(steps, 5);
    assert_eq!(stepped.objects(), whole.objects());
    assert_eq!(whole.objects(), vec![0, 1, 4]);
    assert_eq!(stepped_runs.load(Ordering::SeqCst), 2);
    assert_eq!(whole_runs.load(Ordering::SeqCst), 2);
}

#[test]
fn a_linked_registry_takes_new_entries_at_the_front() {
    let mut gc: GcState<Node> = GcState::new_linked();
    let runs = counter();
    let a = alloc_managed(&mut gc, Node::leaf(0, &runs));
    let b = alloc_managed(&mut gc, Node::leaf(1, &runs));
    let c = alloc_managed(&mut gc, Node::leaf(2, &runs));
    let d = alloc_managed(&mut gc, Node::leaf(3, &runs));
    assert_eq!(gc.objects(), vec![3, 2, 1, 0]);
    assert_eq!(count_managed_objects(&gc), 4);
    set_root(&mut gc, 0, d);
    set_root(&mut gc, 1, b);

    collect(&mut gc);
    assert_eq!(gc.objects(), vec![3, 1]);
    assert_eq!(count_managed_objects(&gc), 2);
    assert!(a.data(&gc).is_none());
    assert!(c.data(&gc).is_none());
    assert_eq!(runs.load(Ordering::SeqCst), 2);

    pop_root(&mut gc, 0);
    pop_root(&mut gc, 1);
    collect(&mut gc);
    assert_eq!(gc.objects(), Vec::<usize>::new());
    assert_eq!(runs.load(Ordering::SeqCst), 4);
}

#[test]
fn a_linked_registry_collects_graphs_like_a_queue_does() {
    let mut gc: GcState<Node> = GcState::new_linked();
    let runs = counter();
    let mut ring = Vec::new();
    for label in 0..20 {
        ring.push(alloc_managed(&mut gc, Node::leaf(label, &runs)));
    }
    for i in 0..ring.len() {
        let next = ring[(i + 1) % ring.len()];
        gc.data(ring[i]).unwrap().children.borrow_mut().push(next);
    }
    let stray = alloc_managed(&mut gc, Node::with_children(99, vec![ring[3]], &runs));
    set_root(&mut gc, 0, ring[5]);

    collect(&mut gc);
    assert_eq!(count_managed_objects(&gc), 20);
    assert!(stray.data(&gc).is_none());
    collect(&mut gc);
    assert_eq!(count_managed_objects(&gc), 20);
    assert_eq!(runs.load(Ordering::SeqCst), 1);

    pop_root(&mut gc, 0);
    collect(&mut gc);
    assert_eq!(count_managed_objects(&gc), 0);
    assert_eq!(runs.load(Ordering::SeqCst), 21);
}

#[test]
fn an_object_promoted_during_a_linked_cycle_survives_it() {
    let mut gc: GcState<Node> = GcState::new_linked();
    let runs = counter();
    let late_runs = counter();
    let kept = alloc_managed(&mut gc, Node::leaf(0, &runs));
    let dropped = alloc_managed(&mut gc, Node::leaf(1, &runs));
    let also_dropped = alloc_managed(&mut gc, Node::leaf(2, &runs));
    set_root(&mut gc, 0, kept);
    assert_eq!(gc.objects(), vec![2, 1, 0]);

    let mut cycle = gc.begin_cycle();
    assert!(gc.sweep_step(&mut cycle));
    assert_eq!(gc.objects(), vec![1, 0]);
    assert!(also_dropped.data(&gc).is_none());

    let late = alloc_managed(&mut gc, Node::leaf(3, &late_runs));
    assert_eq!(gc.objects(), vec![3, 1, 0]);

    assert!(gc.sweep_step(&mut cycle));
    assert_eq!(gc.objects(), vec![3, 0]);
    assert!(dropped.data(&gc).is_none());
    assert!(gc.sweep_step(&mut cycle));
    assert!(!gc.sweep_step(&mut cycle));
    assert_eq!(gc.objects(), vec![3, 0]);
    assert_eq!(late.data(&gc).map(|node| node.label), Some(3));
    assert_eq!(late_runs.load(Ordering::SeqCst), 0);

    collect(&mut gc);
    assert_eq!(gc.objects(), vec![0]);
    assert_eq!(late_runs.load(Ordering::SeqCst), 1);
}

#[test]
fn promotion_enters_a_linked_registry_once() {
    let mut gc: GcState<Node> = GcState::new_linked();
    let runs = counter();
    let inner = alloc_unmanaged(&mut gc, Node::leaf(1, &runs));
    let outer = alloc_unmanaged(&mut gc, Node::with_children(2, vec![inner, inner], &runs));
    gc.data(inner).unwrap().children.borrow_mut().push(outer);
    manage(&mut gc, outer);
    manage(&mut gc, inner);
    manage(&mut gc, outer);
    assert_eq!(gc.objects(), vec![0, 1]);
}

#[test]
fn collecting_an_empty_heap_changes_nothing() {
    let mut gc: GcState<Node> = GcState::new();
    collect(&mut gc);
    assert_eq!(count_managed_objects(&gc), 0);
    assert_eq!(count_roots(&gc), 0);
    assert_eq!(gc.objects(), Vec::<usize>::new());
    let mut cycle = gc.begin_cycle();
    assert!(!gc.sweep_step(&mut cycle));

    let mut linked: GcState<Node> = GcState::new_linked();
    collect(&mut linked);
    assert_eq!(linked.count_objects(), 0);
    let mut cycle = linked.begin_cycle();
    assert!(!linked.sweep_step(&mut cycle));
}

#[test]
fn rebinding_a_root_lets_go_of_its_old_target() {
    let mut gc: GcState<Node> = GcState::new();
    let mut ids = RootIds::new();
    let runs = counter();
    let first = GcPtr::new(&mut gc, Node::leaf(1, &runs));
    let second = gc.allocate(Node::leaf(2, &runs));
    manage(&mut gc, first);
    manage(&mut gc, second);
    let root = Root::new(&mut ids);
    root.enroot(&mut gc, first);
    root.enroot(&mut gc, second);
    assert_eq!(count_roots(&gc), 1);
    assert_eq!(gc.roots(), vec![(root.idx(), Some(second.erased().0))]);
    collect(&mut gc);
    assert!(first.data(&gc).is_none());
    assert_eq!(second.data(&gc).map(|node| node.label), Some(2));
    assert_eq!(gc.objects(), vec![1]);
    root.release(&mut ids, &mut gc);
    collect(&mut gc);
    assert_eq!(runs.load(Ordering::SeqCst), 2);
}

#[test]
fn two_roots_on_one_object_both_have_to_go() {
    let mut gc: GcState<Node> = GcState::new();
    let runs = counter();
    let a = alloc_managed(&mut gc, Node::leaf(1, &runs));
    set_root(&mut gc, 10, a);
    set_root(&mut gc, 11, a);
    pop_root(&mut gc, 10);
    collect(&mut gc);
    assert!(a.data(&gc).is_some());
    pop_root(&mut gc, 11);
    collect(&mut gc);
    assert!(a.data(&gc).is_none());
}

#[test]
fn marking_from_a_handle_marks_what_it_leads_to_and_nothing_else() {
    let mut gc: GcState<Node> = GcState::new();
    let runs = counter();
    let leaf = alloc_managed(&mut gc, Node::leaf(0, &runs));
    let middle = alloc_managed(&mut gc, Node::with_children(1, vec![leaf, leaf], &runs));
    let top = alloc_managed(&mut gc, Node::with_children(2, vec![middle], &runs));
    let aside = alloc_unmanaged(&mut gc, Node::with_children(3, vec![top], &runs));
    gc.data(leaf).unwrap().children.borrow_mut().push(middle);
    let all = [leaf, middle, top, aside];
    assert!(all.iter().all(|ptr| !gc.is_marked(*ptr)));

    gc.mark(middle);
    assert!(gc.is_marked(middle));
    assert!(gc.is_marked(leaf));
    assert!(!gc.is_marked(top));
    assert!(!gc.is_marked(aside));
    gc.unmark();
    assert!(all.iter().all(|ptr| !gc.is_marked(*ptr)));

    gc.mark(aside);
    assert!(all.iter().all(|ptr| gc.is_marked(*ptr)));
    gc.unmark();

    gc.mark(GcPtr::from_erased(Ptr(77)));
    assert!(all.iter().all(|ptr| !gc.is_marked(*ptr)));
    assert!(!gc.is_marked(GcPtr::from_erased(Ptr(77))));
    gc.unmark();

    // With the marks cleared, a cycle goes by the roots alone.
    set_root(&mut gc, 0, middle);
    collect(&mut gc);
    assert_eq!(gc.objects(), vec![0, 1]);
    assert!(all.iter().all(|ptr| !gc.is_marked(*ptr)));
    assert_eq!(runs.load(Ordering::SeqCst), 1);
}
