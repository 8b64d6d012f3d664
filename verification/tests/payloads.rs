use elise::{
    alloc_managed, alloc_unmanaged, collect, count_managed_objects, set_root, Allocation, Data,
    GcPtr, GcState, Ptr, Trace, Tracer,
};
use std::sync::atomic::{AtomicUsize, Ordering};
use std::sync::Arc;

fn drain(tracer: &mut Tracer) -> Vec<Ptr> {
    let mut out = Vec::new();
    while let Some(ptr) = tracer.take() {
        out.push(ptr);
    }
    out.reverse();
    out
}

#[test]
fn a_tracer_hands_back_the_last_report_first() {
    let mut tracer = Tracer::new();
    assert_eq!(tracer.len(), 0);
    assert_eq!(tracer.take(), None);
    tracer.visit(Ptr(3));
    tracer.visit(Ptr(1));
    assert_eq!(tracer.len(), 2);
    assert_eq!(tracer.take(), Some(Ptr(1)));
    assert_eq!(tracer.take(), Some(Ptr(3)));
    assert_eq!(tracer.take(), None);
}

#[test]
fn plain_values_report_nothing() {
    let mut tracer = Tracer::new();
    7u32.mark(&mut tracer);
    7u64.manage(&mut tracer);
    true.mark(&mut tracer);
    ().mark(&mut tracer);
    (-3i32).mark(&mut tracer);
    (-3i64).mark(&mut tracer);
    9usize.manage(&mut tracer);
    assert_eq!(tracer.len(), 0);
}

#[test]
fn handles_report_themselves() {
    let mut tracer = Tracer::new();
    Ptr(5).mark(&mut tracer);
    GcPtr::<u32>::from_erased(Ptr(8)).mark(&mut tracer);
    Ptr(2).manage(&mut tracer);
    assert_eq!(drain(&mut tracer), vec![Ptr(5), Ptr(8), Ptr(2)]);
}

#[test]
fn containers_report_what_their_items_report_in_order() {
    let mut tracer = Tracer::new();
    let items: Vec<Option<Ptr>> = vec![Some(Ptr(4)), None, Some(Ptr(6)), Some(Ptr(4))];
    items.mark(&mut tracer);
    assert_eq!(drain(&mut tracer), vec![Ptr(4), Ptr(6), Ptr(4)]);
    items.manage(&mut tracer);
    assert_eq!(drain(&mut tracer), vec![Ptr(4), Ptr(6), Ptr(4)]);
    let nested: Vec<Vec<Ptr>> = vec![vec![Ptr(1)], vec![], vec![Ptr(2), Ptr(3)]];
    nested.mark(&mut tracer);
    assert_eq!(drain(&mut tracer), vec![Ptr(1), Ptr(2), Ptr(3)]);
    let nothing: Option<Ptr> = None;
    nothing.mark(&mut tracer);
    assert_eq!(tracer.len(), 0);
}

#[test]
fn a_fresh_allocation_is_unmarked_and_unmanaged() {
    let mut allocation = Allocation::new(vec![Ptr(1), Ptr(2)]);
    assert!(allocation.is_unmanaged());
    assert!(!allocation.marked());
    assert_eq!(allocation.data(), &vec![Ptr(1), Ptr(2)]);
    allocation.managed();
    assert!(!allocation.is_unmanaged());
    assert_eq!(allocation.into_data(), vec![Ptr(1), Ptr(2)]);
}

#[test]
fn marking_twice_reports_once() {
    let mut allocation = Allocation::new(vec![Ptr(1), Ptr(2)]);
    let mut tracer = Tracer::new();
    assert!(!allocation.carries_mark());
    assert!(allocation.mark(&mut tracer));
    assert!(allocation.carries_mark());
    assert_eq!(tracer.len(), 2);
    assert!(!allocation.mark(&mut tracer));
    assert!(!allocation.mark(&mut tracer));
    assert_eq!(drain(&mut tracer), vec![Ptr(1), Ptr(2)]);
    // Reading the mark clears it.
    assert!(allocation.marked());
    assert!(!allocation.marked());
    assert!(allocation.mark(&mut tracer));
    assert_eq!(tracer.len(), 2);
}

#[test]
fn promotion_reports_whether_marked_or_not() {
    let mut allocation = Allocation::new(Some(Ptr(9)));
    let mut tracer = Tracer::new();
    allocation.manage(&mut tracer);
    assert!(allocation.mark(&mut tracer));
    allocation.manage(&mut tracer);
    assert_eq!(drain(&mut tracer), vec![Ptr(9), Ptr(9), Ptr(9)]);
}

struct Flagged {
    runs: Arc<AtomicUsize>,
}

impl Trace for Flagged {
    fn no_trace(&self) -> bool {
        false
    }

    fn mark(&self, _tracer: &mut Tracer) {
    }

    fn manage(&self, _tracer: &mut Tracer) {
    }

    fn finalize(&mut self) {
        self.runs.fetch_add(1, Ordering::SeqCst);
    }
}

#[test]
fn freeing_an_allocation_runs_its_finalizer() {
    let runs = Arc::new(AtomicUsize::new(0));
    let allocation = Allocation::new(Flagged { runs: runs.clone() });
    let remains = allocation.free();
    assert_eq!(runs.load(Ordering::SeqCst), 1);
    drop(remains);
    assert_eq!(runs.load(Ordering::SeqCst), 1);
}

#[test]
fn finalizers_of_contained_payloads_run() {
    let runs = Arc::new(AtomicUsize::new(0));
    let mut items =
        vec![Some(Flagged { runs: runs.clone() }), None, Some(Flagged { runs: runs.clone() })];
    items.finalize();
    assert_eq!(runs.load(Ordering::SeqCst), 2);
}

#[test]
fn erased_payloads_of_different_types_share_a_heap() {
    let runs = Arc::new(AtomicUsize::new(0));
    let mut gc: GcState<Data> = GcState::new();
    let number = alloc_managed(&mut gc, Data::new(17u32));
    let flagged = alloc_managed(&mut gc, Data::new(Flagged { runs: runs.clone() }));
    let list = alloc_managed(&mut gc, Data::new(vec![number.erased()]));
    let loose = alloc_unmanaged(&mut gc, Data::new(Some(flagged.erased())));
    assert_eq!(count_managed_objects(&gc), 3);
    set_root(&mut gc, 0, list);

    collect(&mut gc);
    assert!(number.data(&gc).is_some());
    assert!(list.data(&gc).is_some());
    assert!(flagged.data(&gc).is_none());
    assert!(loose.data(&gc).is_some());
    assert_eq!(runs.load(Ordering::SeqCst), 1);
    assert_eq!(count_managed_objects(&gc), 2);

    let mut tracer = Tracer::new();
    list.data(&gc).unwrap().mark(&mut tracer);
    assert_eq!(drain(&mut tracer), vec![number.erased()]);
    loose.data(&gc).unwrap().manage(&mut tracer);
    assert_eq!(drain(&mut tracer), vec![flagged.erased()]);
}

struct Counting {
    marks: Arc<AtomicUsize>,
    skip: bool,
}

impl Trace for Counting {
    fn no_trace(&self) -> bool {
        self.skip
    }

    fn mark(&self, _tracer: &mut Tracer) {
        self.marks.fetch_add(1, Ordering::SeqCst);
    }

    fn manage(&self, _tracer: &mut Tracer) {
        self.marks.fetch_add(1, Ordering::SeqCst);
    }

    fn finalize(&mut self) {
    }
}

#[test]
fn a_payload_that_asks_for_no_tracing_is_not_traced() {
    let marks = Arc::new(AtomicUsize::new(0));
    let mut tracer = Tracer::new();

    let mut skipped = Allocation::new(Counting { marks: marks.clone(), skip: true });
    assert!(skipped.mark(&mut tracer));
    skipped.manage(&mut tracer);
    assert_eq!(marks.load(Ordering::SeqCst), 0);

    let mut traced = Allocation::new(Counting { marks: marks.clone(), skip: false });
    assert!(traced.mark(&mut tracer));
    traced.manage(&mut tracer);
    assert!(!traced.mark(&mut tracer));
    assert_eq!(marks.load(Ordering::SeqCst), 2);

    assert!(7u32.no_trace());
    assert!(!Ptr(1).no_trace());
    assert!(!vec![Ptr(1)].no_trace());
    assert!(Data::new(7u32).no_trace());
    assert!(!Data::new(Ptr(3)).no_trace());
}

#[test]
fn an_erased_payload_asks_what_its_payload_asked() {
    let marks = Arc::new(AtomicUsize::new(0));
    let quiet = Data::new(Counting { marks: marks.clone(), skip: true });
    assert!(quiet.no_trace());
    let mut tracer = Tracer::new();
    quiet.mark(&mut tracer);
    quiet.manage(&mut tracer);
    assert_eq!(marks.load(Ordering::SeqCst), 0);

    let loud = Data::new(Counting { marks: marks.clone(), skip: false });
    assert!(!loud.no_trace());
    let before = marks.load(Ordering::SeqCst);
    loud.mark(&mut tracer);
    loud.manage(&mut tracer);
    assert_eq!(marks.load(Ordering::SeqCst), before + 2);
}

#[test]
fn an_erased_payload_reports_what_its_payload_holds() {
    let mut tracer = Tracer::new();
    let list = Data::new(vec![Ptr(4), Ptr(2), Ptr(4)]);
    list.mark(&mut tracer);
    assert_eq!(drain(&mut tracer), vec![Ptr(4), Ptr(2), Ptr(4)]);
    list.manage(&mut tracer);
    assert_eq!(drain(&mut tracer), vec![Ptr(4), Ptr(2), Ptr(4)]);
    let nothing = Data::new(Vec::<Ptr>::new());
    nothing.mark(&mut tracer);
    assert_eq!(tracer.len(), 0);
    let nested = Data::new(Data::new(Some(GcPtr::<u32>::from_erased(Ptr(7)))));
    nested.mark(&mut tracer);
    assert_eq!(drain(&mut tracer), vec![Ptr(7)]);
}

#[test]
fn tracers_compare_by_what_they_hold() {
    let mut a = Tracer::new();
    let mut b = Tracer::new();
    assert!(a.same_as(&b));
    a.visit(Ptr(1));
    assert!(!a.same_as(&b));
    b.visit(Ptr(2));
    assert!(!a.same_as(&b));
    b.take();
    b.visit_all(&vec![Ptr(1)]);
    assert!(a.same_as(&b));
    a.visit_all(&vec![Ptr(5), Ptr(6)]);
    assert_eq!(a.into_vec(), vec![Ptr(1), Ptr(5), Ptr(6)]);
}

#[test]
fn finalizing_an_erased_payload_runs_the_payloads_finalizer() {
    let runs = Arc::new(AtomicUsize::new(0));
    let mut data = Data::new(Flagged { runs: runs.clone() });
    data.finalize();
    assert_eq!(runs.load(Ordering::SeqCst), 1);
    assert!(!data.no_trace());

    let mut one = Some(Flagged { runs: runs.clone() });
    one.finalize();
    assert!(one.is_some());
    assert_eq!(runs.load(Ordering::SeqCst), 2);
    let mut none: Option<Flagged> = None;
    none.finalize();
    assert!(none.is_none());

    let mut items = vec![Flagged { runs: runs.clone() }, Flagged { runs: runs.clone() }];
    items.finalize();
    assert_eq!(items.len(), 2);
    assert_eq!(runs.load(Ordering::SeqCst), 4);
}
