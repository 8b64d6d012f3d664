//! What the collector's invariants say of a heap: a list of slots, each
//! empty or holding an allocation.
use crate::allocation::{Allocation, Ptr};
use crate::reach::{connected, lemma_tally_clear, tally};
use crate::trace::Trace;
use vstd::prelude::*;

verus! {

/// The slots that some entry of the root table points at.
pub open spec fn targets(table: Map<usize, Option<usize>>) -> Set<usize> {
    Set::new(|slot: usize| exists|id: usize| table.contains_pair(id, Some(slot)))
}

/// For each slot, the references that its allocation holds.
pub open spec fn graph_of<T: Trace>(heap: Seq<Option<Allocation<T>>>) -> Seq<Option<Seq<Ptr>>> {
    Seq::new(
        heap.len(),
        |i: int|
            match heap[i] {
                Some(allocation) => Some(allocation.payload().edges()),
                None => None,
            },
    )
}

/// The slots that `starts` lead to in `graph`: those that a chain of
/// references, each held by an allocation that exists, links to one of
/// them.
pub open spec fn slots_led_to(graph: Seq<Option<Seq<Ptr>>>, starts: Set<usize>) -> Set<usize> {
    Set::new(|slot: usize| connected(graph, Set::<usize>::empty(), starts, slot))
}

/// Slot `slot` of `heap` holds an allocation.
pub open spec fn holds<T>(heap: Seq<Option<Allocation<T>>>, slot: usize) -> bool {
    slot < heap.len() && heap[slot as int] is Some
}

/// The registry lists each managed allocation of the heap once, and
/// nothing else.
pub open spec fn registry_ok<T>(heap: Seq<Option<Allocation<T>>>, registry: Seq<usize>) -> bool {
    &&& registry.no_duplicates()
    &&& forall|k: int|
        0 <= k < registry.len() ==> holds(heap, #[trigger] registry[k])
            && heap[registry[k] as int].unwrap().is_managed()
    &&& forall|slot: usize|
        #[trigger] holds(heap, slot) && heap[slot as int].unwrap().is_managed()
            ==> registry.contains(slot)
}

/// No finalizer has run twice, and none on an allocation that still exists.
pub open spec fn log_ok<T>(heap: Seq<Option<Allocation<T>>>, log: Seq<usize>) -> bool {
    &&& log.no_duplicates()
    &&& forall|k: int|
        0 <= k < log.len() ==> (#[trigger] log[k]) < heap.len() && heap[log[k] as int] is None
}

/// No allocation of the heap carries a mark.
pub open spec fn marks_clear<T>(heap: Seq<Option<Allocation<T>>>) -> bool {
    forall|slot: usize| #[trigger]
        holds(heap, slot) ==> !heap[slot as int].unwrap().is_marked()
}

/// The slots whose allocation carries a mark.
pub open spec fn marked_slots<T>(heap: Seq<Option<Allocation<T>>>) -> Set<usize> {
    Set::new(|slot: usize| holds(heap, slot) && heap[slot as int].unwrap().is_marked())
}

/// The slots whose allocation is managed.
pub open spec fn managed_slots<T>(heap: Seq<Option<Allocation<T>>>) -> Set<usize> {
    Set::new(|slot: usize| holds(heap, slot) && heap[slot as int].unwrap().is_managed())
}

/// The two heaps hold the same allocations in the same slots, up to their
/// mark bits.
pub open spec fn same_but_marks<T>(
    before: Seq<Option<Allocation<T>>>,
    after: Seq<Option<Allocation<T>>>,
) -> bool {
    &&& before.len() == after.len()
    &&& forall|i: int|
        0 <= i < before.len() ==> ((#[trigger] after[i]) is Some) == (before[i] is Some)
    &&& forall|i: int|
        0 <= i < before.len() && (#[trigger] after[i]) is Some ==> after[i].unwrap().with_mark(
            false,
        ) == before[i].unwrap().with_mark(false)
}

/// For each slot, whether it holds an allocation without a mark.
pub open spec fn unmarked_flags<T>(heap: Seq<Option<Allocation<T>>>) -> Seq<bool> {
    Seq::new(heap.len(), |i: int| heap[i] is Some && !heap[i].unwrap().is_marked())
}

/// For each slot, whether it holds an allocation that is not managed.
pub open spec fn unmanaged_flags<T>(heap: Seq<Option<Allocation<T>>>) -> Seq<bool> {
    Seq::new(heap.len(), |i: int| heap[i] is Some && !heap[i].unwrap().is_managed())
}

/// Heaps that differ in mark bits only have the same graph.
pub(crate) proof fn lemma_same_graph<T: Trace>(
    before: Seq<Option<Allocation<T>>>,
    after: Seq<Option<Allocation<T>>>,
)
    requires
        same_but_marks(before, after),
    ensures
        graph_of(after) == graph_of(before),
        managed_slots(after) == managed_slots(before),
{
    broadcast use Allocation::lemma_flags;

    assert forall|i: int|
        0 <= i < before.len() implies
        graph_of(after)[i] == graph_of(before)[i] by {
        if after[i] is Some {
            let a = after[i].unwrap();
            let b = before[i].unwrap();
            assert(a.payload() == a.with_mark(false).payload());
            assert(b.payload() == b.with_mark(false).payload());
        }
    }
    assert(graph_of(after) =~= graph_of(before));
    assert forall|slot: usize|
        managed_slots(after).contains(slot) == managed_slots(before).contains(
        slot,
    ) by {
        if slot < before.len() && after[slot as int] is Some {
            let a = after[slot as int].unwrap();
            let b = before[slot as int].unwrap();
            assert(a.is_managed() == a.with_mark(false).is_managed());
            assert(b.is_managed() == b.with_mark(false).is_managed());
        }
    }
    assert(managed_slots(after) =~= managed_slots(before));
}

/// Heaps that differ in mark bits only keep the same registry and the same
/// log in order.
pub(crate) proof fn lemma_marks_keep_order<T: Trace>(
    before: Seq<Option<Allocation<T>>>,
    after: Seq<Option<Allocation<T>>>,
    registry: Seq<usize>,
    log: Seq<usize>,
)
    requires
        same_but_marks(before, after),
        registry_ok(before, registry),
        log_ok(before, log),
    ensures
        registry_ok(after, registry),
        log_ok(after, log),
{
    lemma_same_graph(before, after);
    assert forall|k: int| 0 <= k < registry.len() implies holds(after, #[trigger] registry[k])
        && after[registry[k] as int].unwrap().is_managed() by {
        let slot = registry[k];
        assert(holds(before, slot));
        assert(managed_slots(before).contains(slot));
        assert(managed_slots(after).contains(slot));
    }
    assert forall|slot: usize|
        #[trigger] holds(after, slot) && after[slot as int].unwrap().is_managed() implies
        registry.contains(slot) by {
        assert(managed_slots(after).contains(slot));
        assert(managed_slots(before).contains(slot));
        assert(holds(before, slot));
    }
}

/// Marking an unmarked allocation changes nothing but its mark.
pub(crate) proof fn lemma_mark_fresh<T: Trace>(
    before: Seq<Option<Allocation<T>>>,
    heap: Seq<Option<Allocation<T>>>,
    index: usize,
)
    requires
        same_but_marks(before, heap),
        holds(heap, index),
        !heap[index as int].unwrap().is_marked(),
    ensures
        same_but_marks(
            before,
            heap.update(index as int, Some(heap[index as int].unwrap().with_mark(true))),
        ),
        marked_slots(
            heap.update(index as int, Some(heap[index as int].unwrap().with_mark(true))),
        ) == marked_slots(heap).insert(index),
        tally(
            unmarked_flags(
                heap.update(index as int, Some(heap[index as int].unwrap().with_mark(true))),
            ),
        ) + 1 == tally(unmarked_flags(heap)),
        graph_of(before)[index as int] == Some(heap[index as int].unwrap().payload().edges()),
{
    broadcast use Allocation::lemma_flags;

    let marked = heap[index as int].unwrap().with_mark(true);
    let after = heap.update(index as int, Some(marked));
    assert(marked.with_mark(false) == heap[index as int].unwrap().with_mark(false));
    assert(same_but_marks(before, after));
    assert(marked_slots(after) =~= marked_slots(heap).insert(index));
    assert(unmarked_flags(after) =~= unmarked_flags(heap).update(index as int, false));
    lemma_tally_clear(unmarked_flags(heap), index as int);
    let a = heap[index as int].unwrap();
    let b = before[index as int].unwrap();
    assert(a.payload() == a.with_mark(false).payload());
    assert(b.payload() == b.with_mark(false).payload());
}

/// Marking a marked allocation changes nothing.
pub(crate) proof fn lemma_mark_stale<T: Trace>(heap: Seq<Option<Allocation<T>>>, index: usize)
    requires
        holds(heap, index),
        heap[index as int].unwrap().is_marked(),
    ensures
        heap.update(index as int, Some(heap[index as int].unwrap().with_mark(true))) == heap,
{
    broadcast use Allocation::lemma_flags;

    let a = heap[index as int].unwrap();
    assert(a.with_mark(true) == a);
    assert(heap.update(index as int, Some(a)) =~= heap);
}

/// A slot that was noted stays noted when another is.
pub(crate) proof fn lemma_noted(noted: Seq<usize>, slot: usize, more: usize)
    requires
        noted.contains(slot) || slot == more,
    ensures
        noted.push(more).contains(slot),
{
    if slot == more {
        assert(noted.push(more)[noted.len() as int] == slot);
    } else {
        let j = choose|j: int| 0 <= j < noted.len() && noted[j] == slot;
        assert(noted.push(more)[j] == slot);
    }
}

/// Differing in mark bits only is transitive.
pub(crate) proof fn lemma_same_but_marks_chain<T>(
    first: Seq<Option<Allocation<T>>>,
    second: Seq<Option<Allocation<T>>>,
    third: Seq<Option<Allocation<T>>>,
)
    requires
        same_but_marks(first, second),
        same_but_marks(second, third),
    ensures
        same_but_marks(first, third),
{
    assert forall|i: int| 0 <= i < first.len() implies ((#[trigger] third[i]) is Some) == (
    first[i] is Some) by {
        assert((second[i] is Some) == (first[i] is Some));
    }
    assert forall|i: int| 0 <= i < first.len()
        && (#[trigger] third[i]) is Some implies
    third[i].unwrap().with_mark(
        false,
    ) == first[i].unwrap().with_mark(false) by {
        assert(second[i] is Some);
    }
}

/// Clearing the mark of an allocation changes nothing but that mark.
pub(crate) proof fn lemma_unmark<T>(heap: Seq<Option<Allocation<T>>>, index: usize)
    requires
        holds(heap, index),
    ensures
        same_but_marks(
            heap,
            heap.update(index as int, Some(heap[index as int].unwrap().with_mark(false))),
        ),
        marked_slots(
            heap.update(index as int, Some(heap[index as int].unwrap().with_mark(false))),
        ) == marked_slots(heap).remove(index),
{
    broadcast use Allocation::lemma_flags;

    let cleared = heap[index as int].unwrap().with_mark(false);
    let after = heap.update(index as int, Some(cleared));
    assert(cleared.with_mark(false) == cleared);
    assert(!cleared.is_marked());
    assert(same_but_marks(heap, after));
    assert(marked_slots(after) =~= marked_slots(heap).remove(index));
}

/// Promoting slot `from` promotes slot `slot` with it: a chain of
/// references, each held by an allocation that is not managed yet, links
/// the one to the other.
pub open spec fn promotes<T: Trace>(
    heap: Seq<Option<Allocation<T>>>,
    from: usize,
    slot: usize,
) -> bool {
    connected(graph_of(heap), managed_slots(heap), set![from], slot)
}

/// The heap after slot `from` has been promoted.
pub open spec fn promoted_heap<T: Trace>(heap: Seq<Option<Allocation<T>>>, from: usize) -> Seq<
    Option<Allocation<T>>,
> {
    Seq::new(
        heap.len(),
        |i: int|
            if i <= usize::MAX && promotes(heap, from, i as usize) {
                Some(heap[i].unwrap().promoted())
            } else {
                heap[i]
            },
    )
}

/// Promoting an unmanaged allocation and entering it in the registry keeps
/// the registry in order, and leaves one unmanaged allocation less.
pub(crate) proof fn lemma_registry_enter<T>(
    heap: Seq<Option<Allocation<T>>>,
    registry: Seq<usize>,
    index: usize,
    entered: Seq<usize>,
)
    requires
        registry_ok(heap, registry),
        holds(heap, index),
        !heap[index as int].unwrap().is_managed(),
        entered.no_duplicates(),
        forall|slot: usize| #[trigger]
            entered.contains(slot) <==> registry.contains(slot) || slot == index,
    ensures
        !registry.contains(index),
        registry_ok(
            heap.update(index as int, Some(heap[index as int].unwrap().promoted())),
            entered,
        ),
        managed_slots(heap.update(index as int, Some(heap[index as int].unwrap().promoted())))
            == managed_slots(heap).insert(index),
        marked_slots(heap.update(index as int, Some(heap[index as int].unwrap().promoted())))
            == marked_slots(heap),
        tally(
            unmanaged_flags(
                heap.update(index as int, Some(heap[index as int].unwrap().promoted())),
            ),
        ) + 1 == tally(unmanaged_flags(heap)),
{
    broadcast use Allocation::lemma_promoted;

    let after = heap.update(index as int, Some(heap[index as int].unwrap().promoted()));
    assert(!registry.contains(index)) by {
        if registry.contains(index) {
            let k = choose|k: int| 0 <= k < registry.len() && registry[k] == index;
            assert(holds(heap, registry[k]));
        }
    }
    assert forall|k: int| 0 <= k < entered.len() implies holds(after, #[trigger] entered[k])
        && after[entered[k] as int].unwrap().is_managed() by {
        assert(entered.contains(entered[k]));
        if entered[k] != index {
            let j = choose|j: int| 0 <= j < registry.len() && registry[j] == entered[k];
            assert(holds(heap, registry[j]));
        }
    }
    assert forall|slot: usize|
        #[trigger] holds(after, slot) && after[slot as int].unwrap().is_managed() implies
        entered.contains(
        slot,
    ) by {
        if slot != index {
            assert(holds(heap, slot));
        }
    }
    assert(managed_slots(after) =~= managed_slots(heap).insert(index));
    assert(marked_slots(after) =~= marked_slots(heap));
    assert(unmanaged_flags(after) =~= unmanaged_flags(heap).update(index as int, false));
    lemma_tally_clear(unmanaged_flags(heap), index as int);
}

/// What a sweep leaves in a slot: nothing where a managed allocation
/// carried no mark, and otherwise the allocation with its mark cleared.
pub open spec fn swept<T>(entry: Option<Allocation<T>>) -> Option<Allocation<T>> {
    match entry {
        Some(allocation) => if allocation.is_managed() && !allocation.is_marked() {
            None
        } else {
            Some(allocation.with_mark(false))
        },
        None => None,
    }
}

/// Sweeping the slot of a registry entry keeps the registry in order: the
/// entry stays if its allocation carried a mark and leaves if not, and the
/// other entries stay, in whatever order.
pub(crate) proof fn lemma_registry_settle<T>(
    heap: Seq<Option<Allocation<T>>>,
    registry: Seq<usize>,
    object: usize,
    settled: Seq<usize>,
)
    requires
        registry_ok(heap, registry),
        registry.contains(object),
        settled.no_duplicates(),
        forall|slot: usize| #[trigger]
            settled.contains(slot) <==> registry.contains(slot) && (slot != object
                || heap[object as int].unwrap().is_marked()),
    ensures
        holds(heap, object),
        heap[object as int].unwrap().is_managed(),
        registry_ok(heap.update(object as int, swept(heap[object as int])), settled),
{
    broadcast use Allocation::lemma_flags;

    let k = choose|k: int| 0 <= k < registry.len() && registry[k] == object;
    assert(holds(heap, registry[k]));
    let after = heap.update(object as int, swept(heap[object as int]));
    assert forall|k: int| 0 <= k < settled.len() implies holds(after, #[trigger] settled[k])
        && after[settled[k] as int].unwrap().is_managed() by {
        assert(settled.contains(settled[k]));
        let j = choose|j: int| 0 <= j < registry.len() && registry[j] == settled[k];
        assert(holds(heap, registry[j]));
    }
    assert forall|slot: usize|
        #[trigger] holds(after, slot) && after[slot as int].unwrap().is_managed() implies
        settled.contains(
        slot,
    ) by {
        assert(holds(heap, slot));
    }
}

/// Emptying a slot and logging its finalizer keeps the log in order.
pub(crate) proof fn lemma_log_push<T>(
    heap: Seq<Option<Allocation<T>>>,
    log: Seq<usize>,
    slot: usize,
)
    requires
        log_ok(heap, log),
        holds(heap, slot),
    ensures
        log_ok(heap.update(slot as int, None), log.push(slot)),
{
    let after = heap.update(slot as int, None);
    let longer = log.push(slot);
    assert forall|i: int, j: int| 0 <= i < j < longer.len() implies longer[i] != longer[j] by {
        assert(longer[i] == log[i]);
        if j < log.len() {
            assert(longer[j] == log[j]);
        }
    }
    assert forall|k: int| 0 <= k < longer.len() implies (#[trigger] longer[k]) < after.len()
        && after[longer[k] as int] is None by {
        if k < log.len() {
            assert(longer[k] == log[k]);
        }
    }
}

} // verus!
