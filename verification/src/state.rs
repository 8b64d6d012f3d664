//! The collector's state: the heap, the registry of managed allocations and
//! the root table.
use crate::allocation::{Allocation, Ptr};
use crate::gc_ptr::GcPtr;
use crate::heap::{
    lemma_marks_keep_order, slots_led_to,
    graph_of, holds, lemma_log_push, lemma_mark_fresh, lemma_mark_stale, lemma_noted,
    lemma_registry_enter, lemma_registry_settle, lemma_same_but_marks_chain, lemma_same_graph,
    lemma_unmark, log_ok, managed_slots, marked_slots, marks_clear, promoted_heap, registry_ok,
    same_but_marks, swept, targets, unmanaged_flags, unmarked_flags,
};
use crate::registry::{grown, join, Cycle, Registry};
use crate::reach::{
    connected, frontier, lemma_frontier_done, lemma_frontier_skip, lemma_frontier_visit,
    lemma_start_connected, passable, tally,
};
use crate::select::{
    discard, lemma_enter_members, lemma_remove_members, lemma_rotate_members, lemma_split_agree,
    lemma_split_empty, lemma_split_step, pick,
};
use crate::table::{
    lists_entries, no_entries, table_entries, table_insert, table_len, table_new, table_pairs,
    table_remove,
};
use crate::trace::{Trace, Tracer};
use dashmap::DashMap;
use std::collections::hash_map::RandomState;
use vstd::prelude::*;

verus! {

/// A heap with its collector.
///
/// Allocations live in numbered slots that are never reused. The registry
/// lists the managed ones, the root table names the allocations that are
/// kept alive from outside, and a log records every finalizer run.
pub struct GcState<T> {
    slots: Vec<Option<Allocation<T>>>,
    objects: Registry,
    roots: DashMap<usize, Option<usize>, RandomState>,
    finalized: Ghost<Seq<usize>>,
}

impl<T: Trace> Default for GcState<T> {
    /// An empty heap with no root, and a queue for its registry.
    fn default() -> (gc: GcState<T>)
        ensures
            gc.wf(),
            gc.idle(),
            !gc.is_linked(),
            gc.heap().len() == 0,
            gc.registry().len() == 0,
            gc.root_table() == no_entries(),
            gc.finalized().len() == 0,
    {
        GcState::new()
    }
}

impl<T: Trace> GcState<T> {
    /// The slots of the heap; a freed slot holds `None`.
    pub closed spec fn heap(&self) -> Seq<Option<Allocation<T>>> {
        self.slots@
    }

    /// The slots of the managed allocations, in the order in which the next
    /// sweep visits them.
    pub closed spec fn registry(&self) -> Seq<usize> {
        self.objects@
    }

    /// Whether the registry is a linked list, and not a queue.
    pub closed spec fn is_linked(&self) -> bool {
        self.objects.is_linked()
    }

    /// The registry's own structure is in order.
    pub closed spec fn registry_sound(&self) -> bool {
        self.objects.inv()
    }

    /// The root table: root identifier to the slot it keeps alive.
    pub closed spec fn root_table(&self) -> Map<usize, Option<usize>> {
        table_entries(&self.roots)
    }

    /// The slots whose finalizer has run, in the order in which they ran.
    pub closed spec fn finalized(&self) -> Seq<usize> {
        self.finalized@
    }

    /// The slot that `ptr` names holds an allocation.
    pub open spec fn live(&self, ptr: Ptr) -> bool {
        holds(self.heap(), ptr.0)
    }

    /// The allocation that `ptr` names.
    pub open spec fn at(&self, ptr: Ptr) -> Allocation<T>
        recommends
            self.live(ptr),
    {
        self.heap()[ptr.0 as int].unwrap()
    }

    /// The graph of references between the allocations of the heap.
    pub open spec fn graph(&self) -> Seq<Option<Seq<Ptr>>> {
        graph_of(self.heap())
    }

    /// `ptr` names an allocation that a chain of references, each held by a
    /// live allocation, links to some root.
    pub open spec fn reachable(&self, ptr: Ptr) -> bool {
        connected(self.graph(), Set::empty(), targets(self.root_table()), ptr.0)
    }

    /// The slots that `ptr` leads to through references held by
    /// allocations that exist, its own slot included if it holds one.
    pub open spec fn led_to(&self, ptr: Ptr) -> Set<usize> {
        slots_led_to(self.graph(), set![ptr.0])
    }

    /// The slots of all reachable allocations.
    pub open spec fn reachable_slots(&self) -> Set<usize> {
        Set::new(|slot: usize| self.reachable(Ptr(slot)))
    }

    /// The registry entries that the next collection keeps.
    pub open spec fn survivors(&self) -> Seq<usize> {
        pick(self.registry(), self.reachable_slots())
    }

    /// The registry entries that the next collection frees.
    pub open spec fn garbage(&self) -> Seq<usize> {
        discard(self.registry(), self.reachable_slots())
    }

    /// The state is in order: the heap has no more slots than a handle can
    /// number, the registry lists each managed allocation once and nothing
    /// else, and no finalizer has run twice or on an allocation that still
    /// exists.
    pub open spec fn wf(&self) -> bool {
        &&& self.heap().len() <= usize::MAX
        &&& self.registry_sound()
        &&& registry_ok(self.heap(), self.registry())
        &&& log_ok(self.heap(), self.finalized())
        &&& self.root_table().dom().finite()
    }

    /// No cycle is under way: no allocation carries a mark.
    pub open spec fn idle(&self) -> bool {
        marks_clear(self.heap())
    }

    /// `cycle` is a sweep of this state's registry.
    pub closed spec fn tracks(&self, cycle: &Cycle) -> bool {
        self.objects.tracks(cycle)
    }

    /// The registry entries that `cycle` has still to visit, next one
    /// first.
    pub closed spec fn unvisited(&self, cycle: &Cycle) -> Seq<usize> {
        self.objects.unvisited(cycle)
    }

    /// The registry entries that `cycle` does not visit any more: those it
    /// has kept, and those that entered after it began.
    pub closed spec fn settled(&self, cycle: &Cycle) -> Seq<usize> {
        self.objects.settled(cycle)
    }

    /// `cycle` is under way on this state: it is a sweep of the registry,
    /// and only what it has still to visit carries a mark.
    pub open spec fn active(&self, cycle: &Cycle) -> bool {
        &&& self.wf()
        &&& self.tracks(cycle)
        &&& forall|slot: usize| #[trigger]
            marked_slots(self.heap()).contains(slot) ==> self.unvisited(cycle).contains(slot)
    }

    /// The entry that `cycle` visits next.
    pub open spec fn next_due(&self, cycle: &Cycle) -> usize
        recommends
            self.unvisited(cycle).len() > 0,
    {
        self.unvisited(cycle)[0]
    }

    /// The allocation that `cycle` visits next carries a mark, so that the
    /// visit keeps it.
    pub open spec fn keeps_next(&self, cycle: &Cycle) -> bool
        recommends
            self.unvisited(cycle).len() > 0,
    {
        marked_slots(self.heap()).contains(self.next_due(cycle))
    }

    /// A step from this state to `after` has spared `slot`: the slot holds
    /// what it held, and `cycle` is not due to visit it.
    pub open spec fn spared(&self, after: &GcState<T>, cycle: &Cycle, slot: usize) -> bool {
        &&& !after.unvisited(cycle).contains(slot)
        &&& slot < self.heap().len() ==> after.heap()[slot as int] == self.heap()[slot as int]
    }

    /// The registry consists of what a cycle has still to visit and of
    /// what is settled: the settled entries are behind the others in a
    /// queue, and before them in a list.
    pub proof fn lemma_cycle_parts(&self, cycle: &Cycle)
        requires
            self.tracks(cycle),
        ensures
            self.registry() == join(self.is_linked(), self.unvisited(cycle), self.settled(cycle)),
    {
        self.objects.lemma_parts(cycle);
    }

    /// An empty heap with no root, and a queue for its registry.
    pub fn new() -> (gc: GcState<T>)
        ensures
            gc.wf(),
            gc.idle(),
            !gc.is_linked(),
            gc.heap().len() == 0,
            gc.registry().len() == 0,
            gc.root_table() == no_entries(),
            gc.finalized().len() == 0,
    {
        GcState {
            slots: Vec::new(),
            objects: Registry::new_queue(),
            roots: table_new(),
            finalized: Ghost(Seq::empty()),
        }
    }

    /// An empty heap with no root, and a linked list for its registry.
    pub fn new_linked() -> (gc: GcState<T>)
        ensures
            gc.wf(),
            gc.idle(),
            gc.is_linked(),
            gc.heap().len() == 0,
            gc.registry().len() == 0,
            gc.root_table() == no_entries(),
            gc.finalized().len() == 0,
    {
        GcState {
            slots: Vec::new(),
            objects: Registry::new_linked(),
            roots: table_new(),
            finalized: Ghost(Seq::empty()),
        }
    }

    /// Puts `data` into a fresh allocation: unmarked, unmanaged, in a slot
    /// that was never used before.
    pub fn allocate(&mut self, data: T) -> (handle: GcPtr<T>)
        requires
            old(self).wf(),
        ensures
            final(self).wf(),
            final(self).is_linked() == old(self).is_linked(),
            old(self).idle() ==> final(self).idle(),
            final(self).live(handle.addr()),
            handle.addr() == Ptr(old(self).heap().len() as usize),
            final(self).heap() == old(self).heap().push(Some(Allocation::fresh(data))),
            marked_slots(final(self).heap()) == marked_slots(old(self).heap()),
            final(self).registry() == old(self).registry(),
            final(self).root_table() == old(self).root_table(),
            final(self).finalized() == old(self).finalized(),
    {
        broadcast use Allocation::lemma_fresh;

        let index = self.slots.len();
        self.slots.push(Some(Allocation::new(data)));
        let slots = self.slots.len();
        proof {
            assert(self.heap().len() == slots);
            let before = old(self).heap();
            let after = self.heap();
            assert forall|slot: usize| #[trigger] holds(after, slot) && slot != index implies holds(
                before,
                slot,
            ) && after[slot as int] == before[slot as int] by {}
            assert forall|k: int| 0 <= k < self.registry().len() implies holds(
                after,
                #[trigger] self.registry()[k],
            ) && after[self.registry()[k] as int].unwrap().is_managed() by {
                assert(holds(before, self.registry()[k]));
            }
            assert(marked_slots(after) =~= marked_slots(before));
        }
        GcPtr::from_erased(Ptr(index))
    }

    /// Frees the allocation behind `ptr` without running its finalizer and
    /// hands out its payload, if the allocation exists and is unmanaged.
    /// A managed allocation is the collector's to free: it is left alone.
    pub fn deallocate(&mut self, ptr: GcPtr<T>) -> (data: Option<T>)
        requires
            old(self).wf(),
        ensures
            final(self).wf(),
            final(self).is_linked() == old(self).is_linked(),
            old(self).idle() ==> final(self).idle(),
            data.is_some() == (
                old(self).live(ptr.addr()) && !old(self).at(ptr.addr()).is_managed()
            ),
            data.is_some() ==> data == Some(old(self).at(ptr.addr()).payload())
                && final(self).heap() == old(self).heap().update(ptr.addr().0 as int, None),
            data.is_none() ==> final(self).heap() == old(self).heap(),
            final(self).registry() == old(self).registry(),
            final(self).root_table() == old(self).root_table(),
            final(self).finalized() == old(self).finalized(),
    {
        let index = ptr.erased().0;
        if !self.is_unmanaged(ptr) {
            return None;
        }
        let mut taken: Option<Allocation<T>> = None;
        std::mem::swap(&mut taken, &mut self.slots[index]);
        proof {
            let before = old(self).heap();
            let after = self.heap();
            assert forall|k: int| 0 <= k < self.registry().len() implies holds(
                after,
                #[trigger] self.registry()[k],
            ) && after[self.registry()[k] as int].unwrap().is_managed() by {
                assert(holds(before, self.registry()[k]));
            }
            assert forall|slot: usize|
                #[trigger] holds(after, slot) && after[slot as int].unwrap().is_managed() implies
                self.registry().contains(
                slot,
            ) by {
                assert(holds(before, slot));
            }
            if old(self).idle() {
                assert forall|slot: usize|
                    #[trigger] holds(after, slot) implies
                    !after[slot as int].unwrap().is_marked() by {
                    assert(holds(before, slot));
                }
            }
        }
        match taken {
            Some(allocation) => Some(allocation.into_data()),
            None => None,
        }
    }

    /// The payload behind `ptr`, or `None` once it has been freed.
    pub fn data(&self, ptr: GcPtr<T>) -> (data: Option<&T>)
        ensures
            data.is_some() == self.live(ptr.addr()),
            data.is_some() ==> *data.unwrap() == self.at(ptr.addr()).payload(),
    {
        let index = ptr.erased().0;
        if index < self.slots.len() {
            match &self.slots[index] {
                Some(allocation) => Some(allocation.data()),
                None => None,
            }
        } else {
            None
        }
    }

    /// Whether `ptr` names an allocation that has not been promoted.
    pub fn is_unmanaged(&self, ptr: GcPtr<T>) -> (unmanaged: bool)
        ensures
            unmanaged == (self.live(ptr.addr()) && !self.at(ptr.addr()).is_managed()),
    {
        let index = ptr.erased().0;
        if index < self.slots.len() {
            match &self.slots[index] {
                Some(allocation) => allocation.is_unmanaged(),
                None => false,
            }
        } else {
            false
        }
    }

    /// Whether `ptr` names an allocation that carries a mark.
    pub fn is_marked(&self, ptr: GcPtr<T>) -> (marked: bool)
        ensures
            marked == marked_slots(self.heap()).contains(ptr.addr().0),
    {
        let index = ptr.erased().0;
        if index < self.slots.len() {
            match &self.slots[index] {
                Some(allocation) => allocation.carries_mark(),
                None => false,
            }
        } else {
            false
        }
    }

    /// Makes root `idx` point at `ptr`, whatever it pointed at before.
    pub fn set_root(&mut self, idx: usize, ptr: GcPtr<T>)
        requires
            old(self).wf(),
        ensures
            final(self).wf(),
            final(self).is_linked() == old(self).is_linked(),
            old(self).idle() ==> final(self).idle(),
            final(self).root_table() == old(self).root_table().insert(idx, Some(ptr.addr().0)),
            final(self).heap() == old(self).heap(),
            final(self).registry() == old(self).registry(),
            final(self).finalized() == old(self).finalized(),
    {
        let root = ptr.erased();
        table_insert(&mut self.roots, idx, Some(root.0));
    }

    /// Removes root `idx` from the table, entry and all.
    pub fn pop_root(&mut self, idx: usize)
        requires
            old(self).wf(),
        ensures
            final(self).wf(),
            final(self).is_linked() == old(self).is_linked(),
            old(self).idle() ==> final(self).idle(),
            final(self).root_table() == old(self).root_table().remove(idx),
            final(self).heap() == old(self).heap(),
            final(self).registry() == old(self).registry(),
            final(self).finalized() == old(self).finalized(),
    {
        table_remove(&mut self.roots, idx);
    }

    /// Every entry of the root table, once, in no particular order.
    pub fn roots(&self) -> (pairs: Vec<(usize, Option<usize>)>)
        ensures
            lists_entries(pairs@, self.root_table()),
    {
        table_pairs(&self.roots)
    }

    /// How many entries the root table has.
    pub fn count_roots(&self) -> (n: usize)
        ensures
            n == self.root_table().len(),
    {
        table_len(&self.roots)
    }

    /// The registry's entries, in the order in which a sweep visits them.
    pub fn objects(&mut self) -> (entries: Vec<usize>)
        requires
            old(self).wf(),
        ensures
            final(self).wf(),
            entries@ == old(self).registry(),
            final(self).registry() == old(self).registry(),
            final(self).is_linked() == old(self).is_linked(),
            final(self).heap() == old(self).heap(),
            final(self).root_table() == old(self).root_table(),
            final(self).finalized() == old(self).finalized(),
    {
        self.objects.entries()
    }

    /// How many allocations are managed.
    pub fn count_objects(&self) -> (n: usize)
        requires
            self.wf(),
        ensures
            n == self.registry().len(),
    {
        self.objects.len()
    }

    /// Sets the mark of the allocation in slot `index`, if there is one.
    /// Where the mark was clear, the payload's references are reported to
    /// `tracer`, and an unmanaged allocation is noted in `loose`.
    fn mark_slot(&mut self, index: usize, tracer: &mut Tracer, loose: &mut Vec<usize>) -> (fresh:
        bool)
        ensures
            fresh == (
                holds(old(self).heap(), index)
                    && !old(self).heap()[index as int].unwrap().is_marked()
            ),
            holds(old(self).heap(), index) ==> final(self).heap() == old(self).heap().update(
                index as int,
                Some(old(self).heap()[index as int].unwrap().with_mark(true)),
            ),
            !holds(old(self).heap(), index) ==> final(self).heap() == old(self).heap(),
            fresh ==> final(tracer)@ == old(tracer)@
                + old(self).heap()[index as int].unwrap().payload().edges(),
            !fresh ==> final(tracer)@ == old(tracer)@,
            fresh && !managed_slots(old(self).heap()).contains(index) ==> final(loose)@ == old(
                loose,
            )@.push(index),
            !fresh ==> final(loose)@ == old(loose)@,
            managed_slots(old(self).heap()).contains(index) ==> final(loose)@ == old(loose)@,
            final(self).objects == old(self).objects,
            final(self).registry() == old(self).registry(),
            final(self).root_table() == old(self).root_table(),
            final(self).finalized() == old(self).finalized(),
    {
        broadcast use Allocation::lemma_flags;

        if index < self.slots.len() {
            match &mut self.slots[index] {
                Some(allocation) => {
                    let fresh = allocation.mark(tracer);
                    if fresh && allocation.is_unmanaged() {
                        loose.push(index);
                    }
                    fresh
                },
                None => false,
            }
        } else {
            false
        }
    }

    /// Marks every allocation that the references in `tracer` lead to,
    /// through allocations that exist, and returns the unmanaged ones among
    /// them. `starts` are the slots that `tracer` holds.
    fn trace_from(&mut self, tracer: Tracer, Ghost(starts): Ghost<Set<usize>>) -> (loose: Vec<
        usize,
    >)
        requires
            old(self).idle(),
            forall|k: int| 0 <= k < tracer@.len() ==> starts.contains((#[trigger] tracer@[k]).0),
            forall|s: usize| starts.contains(s) ==> tracer@.contains(Ptr(s)),
        ensures
            same_but_marks(old(self).heap(), final(self).heap()),
            marked_slots(final(self).heap()) == slots_led_to(old(self).graph(), starts),
            forall|slot: usize|
                #[trigger] marked_slots(final(self).heap()).contains(slot) && !managed_slots(
                    final(self).heap(),
                ).contains(slot) ==> loose@.contains(slot),
            final(self).objects == old(self).objects,
            final(self).registry() == old(self).registry(),
            final(self).root_table() == old(self).root_table(),
            final(self).finalized() == old(self).finalized(),
    {
        broadcast use Allocation::lemma_flags;

        let ghost heap0 = self.heap();
        let ghost graph = self.graph();
        let ghost blocked = Set::<usize>::empty();
        let mut tracer = tracer;
        let ghost mut seen = Set::<usize>::empty();
        let mut loose: Vec<usize> = Vec::new();
        proof {
            assert forall|k: int|
                0 <= k < tracer@.len() && passable(
                    graph,
                    blocked,
                    (#[trigger] tracer@[k]).0,
                ) implies connected(graph, blocked, starts, tracer@[k].0) by {
                lemma_start_connected(graph, blocked, starts, tracer@[k].0);
            }
            assert(marked_slots(self.heap()) =~= seen);
        }
        while tracer.len() > 0
            invariant
                graph == graph_of(heap0),
                blocked == Set::<usize>::empty(),
                same_but_marks(heap0, self.heap()),
                marked_slots(self.heap()) == seen,
                frontier(graph, blocked, starts, seen, tracer@),
                forall|slot: usize|
                    #[trigger] seen.contains(slot) && !managed_slots(heap0).contains(slot)
                        ==> loose@.contains(slot),
                self.objects == old(self).objects,
                self.registry() == old(self).registry(),
                self.root_table() == old(self).root_table(),
                self.finalized() == old(self).finalized(),
            decreases tally(unmarked_flags(self.heap())), tracer@.len(),
        {
            let ghost heap1 = self.heap();
            let ghost pending = tracer@;
            let ghost noted = loose@;
            let next = tracer.take();
            let ptr = next.unwrap();
            let fresh = self.mark_slot(ptr.0, &mut tracer, &mut loose);
            proof {
                let index = ptr.0;
                lemma_same_graph(heap0, heap1);
                assert(passable(graph, blocked, index) == holds(heap1, index));
                if fresh {
                    assert(!marked_slots(heap1).contains(index));
                    lemma_mark_fresh(heap0, heap1, index);
                    lemma_frontier_visit(graph, blocked, starts, seen, pending);
                    assert forall|slot: usize|
                        #[trigger] seen.insert(index).contains(slot) && !managed_slots(
                            heap0,
                        ).contains(slot) implies loose@.contains(slot) by {
                        if slot == index {
                            assert(!managed_slots(heap1).contains(index));
                        }
                        lemma_noted(noted, slot, index);
                    }
                    seen = seen.insert(index);
                } else {
                    if holds(heap1, index) {
                        assert(marked_slots(heap1).contains(index));
                        lemma_mark_stale(heap1, index);
                    }
                    lemma_frontier_skip(graph, blocked, starts, seen, pending);
                }
            }
        }
        proof {
            lemma_frontier_done(graph, blocked, starts, seen, tracer@);
            assert(seen =~= slots_led_to(graph, starts));
            lemma_same_graph(heap0, self.heap());
        }
        loose
    }

    /// The mark phase: marks every allocation that is reachable from a
    /// root, and returns the unmanaged ones among them.
    fn mark_roots(&mut self) -> (loose: Vec<usize>)
        requires
            old(self).idle(),
        ensures
            same_but_marks(old(self).heap(), final(self).heap()),
            marked_slots(final(self).heap()) == old(self).reachable_slots(),
            forall|slot: usize|
                #[trigger] marked_slots(final(self).heap()).contains(slot) && !managed_slots(
                    final(self).heap(),
                ).contains(slot) ==> loose@.contains(slot),
            final(self).objects == old(self).objects,
            final(self).registry() == old(self).registry(),
            final(self).root_table() == old(self).root_table(),
            final(self).finalized() == old(self).finalized(),
    {
        broadcast use Allocation::lemma_flags;

        let ghost starts = targets(self.root_table());
        let pairs = table_pairs(&self.roots);
        let mut tracer = Tracer::new();
        let mut i: usize = 0;
        while i < pairs.len()
            invariant
                i <= pairs.len(),
                lists_entries(pairs@, self.root_table()),
                starts == targets(self.root_table()),
                forall|k: int|
                    0 <= k < i && (#[trigger] pairs@[k]).1 is Some ==> tracer@.contains(
                        Ptr(pairs@[k].1.unwrap()),
                    ),
                forall|k: int|
                    0 <= k < tracer@.len() ==> starts.contains((#[trigger] tracer@[k]).0),
            decreases pairs.len() - i,
        {
            let ghost before = tracer@;
            match pairs[i].1 {
                Some(root) => {
                    tracer.visit(Ptr(root));
                    proof {
                        assert(tracer@[before.len() as int] == Ptr(root));
                        assert(self.root_table().contains_pair(pairs@[i as int].0, Some(root)));
                        assert forall|k: int| 0 <= k < tracer@.len() implies starts.contains(
                            (#[trigger] tracer@[k]).0,
                        ) by {
                            if k < before.len() {
                                assert(tracer@[k] == before[k]);
                            }
                        }
                    }
                },
                None => {},
            }
            proof {
                assert forall|k: int|
                    0 <= k < i + 1 && (#[trigger] pairs@[k]).1 is Some implies tracer@.contains(
                    Ptr(pairs@[k].1.unwrap()),
                ) by {
                    if k < i {
                        let j = choose|j: int|
                            0 <= j < before.len() && before[j] == Ptr(pairs@[k].1.unwrap());
                        assert(tracer@[j] == before[j]);
                    }
                }
            }
            i += 1;
        }
        proof {
            assert forall|s: usize| starts.contains(s) implies tracer@.contains(Ptr(s)) by {
                let id = choose|id: usize| self.root_table().contains_pair(id, Some(s));
                let k = choose|k: int| 0 <= k < pairs@.len() && (#[trigger] pairs@[k]).0 == id;
                assert(self.root_table().contains_pair(pairs@[k].0, pairs@[k].1));
            }
        }
        let loose = self.trace_from(tracer, Ghost(starts));
        proof {
            assert(marked_slots(self.heap()) =~= old(self).reachable_slots());
        }
        loose
    }


    /// Marks the allocation behind `ptr` and every allocation that it leads
    /// to through references held by allocations that exist, and no other.
    /// Each of them is marked once, however many references lead to it.
    ///
    /// The marks stay until `unmark` clears them; no cycle can begin before.
    pub fn mark(&mut self, ptr: GcPtr<T>)
        requires
            old(self).wf(),
            old(self).idle(),
        ensures
            final(self).wf(),
            final(self).is_linked() == old(self).is_linked(),
            same_but_marks(old(self).heap(), final(self).heap()),
            marked_slots(final(self).heap()) == old(self).led_to(ptr.addr()),
            final(self).registry() == old(self).registry(),
            final(self).root_table() == old(self).root_table(),
            final(self).finalized() == old(self).finalized(),
    {
        let ghost starts = set![ptr.addr().0];
        let mut tracer = Tracer::new();
        tracer.visit(ptr.erased());
        proof {
            assert(tracer@[0] == ptr.addr());
            assert forall|s: usize| starts.contains(s) implies tracer@.contains(Ptr(s)) by {
                assert(Ptr(s) == tracer@[0]);
            }
        }
        self.trace_from(tracer, Ghost(starts));
        proof {
            lemma_marks_keep_order(
                old(self).heap(),
                self.heap(),
                self.registry(),
                self.finalized(),
            );
        }
    }

    /// Clears the mark of the allocation in slot `index`, if there is one.
    fn wipe_slot(&mut self, index: usize)
        requires
            index < old(self).heap().len(),
        ensures
            holds(old(self).heap(), index) ==> final(self).heap() == old(self).heap().update(
                index as int,
                Some(old(self).heap()[index as int].unwrap().with_mark(false)),
            ),
            !holds(old(self).heap(), index) ==> final(self).heap() == old(self).heap(),
            final(self).objects == old(self).objects,
            final(self).registry() == old(self).registry(),
            final(self).root_table() == old(self).root_table(),
            final(self).finalized() == old(self).finalized(),
    {
        match &mut self.slots[index] {
            Some(allocation) => {
                allocation.marked();
            },
            None => {},
        }
    }

    /// Clears every mark, so that the state is idle again. A cycle that is
    /// under way must be brought to its end, not cut short by this.
    pub fn unmark(&mut self)
        requires
            old(self).wf(),
        ensures
            final(self).wf(),
            final(self).idle(),
            final(self).is_linked() == old(self).is_linked(),
            same_but_marks(old(self).heap(), final(self).heap()),
            final(self).registry() == old(self).registry(),
            final(self).root_table() == old(self).root_table(),
            final(self).finalized() == old(self).finalized(),
    {
        let ghost heap0 = self.heap();
        let total = self.slots.len();
        let mut index: usize = 0;
        while index < total
            invariant
                index <= total == heap0.len(),
                same_but_marks(heap0, self.heap()),
                forall|slot: usize|
                    #[trigger] marked_slots(self.heap()).contains(slot) ==> index <= slot,
                self.objects == old(self).objects,
                self.registry() == old(self).registry(),
                self.root_table() == old(self).root_table(),
                self.finalized() == old(self).finalized(),
            decreases total - index,
        {
            let ghost heap1 = self.heap();
            self.wipe_slot(index);
            proof {
                if holds(heap1, index) {
                    lemma_unmark(heap1, index);
                }
                lemma_same_but_marks_chain(heap0, heap1, self.heap());
            }
            index += 1;
        }
        proof {
            lemma_marks_keep_order(heap0, self.heap(), self.registry(), self.finalized());
            assert forall|slot: usize| #[trigger] holds(self.heap(), slot) implies
                !self.heap()[slot as int].unwrap().is_marked() by {
                if self.heap()[slot as int].unwrap().is_marked() {
                    assert(marked_slots(self.heap()).contains(slot));
                }
            }
        }
    }

    /// Clears the mark of the allocation in slot `index` if it is unmanaged.
    fn unmark_slot(&mut self, index: usize)
        ensures
            holds(old(self).heap(), index) && !managed_slots(old(self).heap()).contains(index)
                ==> final(self).heap() == old(self).heap().update(
                index as int,
                Some(old(self).heap()[index as int].unwrap().with_mark(false)),
            ),
            !holds(old(self).heap(), index) || managed_slots(old(self).heap()).contains(index)
                ==> final(self).heap() == old(self).heap(),
            final(self).objects == old(self).objects,
            final(self).registry() == old(self).registry(),
            final(self).root_table() == old(self).root_table(),
            final(self).finalized() == old(self).finalized(),
    {
        if index < self.slots.len() {
            match &mut self.slots[index] {
                Some(allocation) => {
                    if allocation.is_unmanaged() {
                        allocation.marked();
                    }
                },
                None => {},
            }
        }
    }

    /// Clears the marks of the unmanaged allocations, which the sweep does
    /// not visit. `loose` lists all of them that carry a mark.
    fn clear_marks(&mut self, loose: &Vec<usize>)
        requires
            forall|slot: usize|
                #[trigger] marked_slots(old(self).heap()).contains(slot) && !managed_slots(
                    old(self).heap(),
                ).contains(slot) ==> loose@.contains(slot),
        ensures
            same_but_marks(old(self).heap(), final(self).heap()),
            marked_slots(final(self).heap()) == marked_slots(old(self).heap()).intersect(
                managed_slots(old(self).heap()),
            ),
            final(self).objects == old(self).objects,
            final(self).registry() == old(self).registry(),
            final(self).root_table() == old(self).root_table(),
            final(self).finalized() == old(self).finalized(),
    {
        broadcast use Allocation::lemma_flags;

        let ghost heap0 = self.heap();
        let mut j: usize = 0;
        while j < loose.len()
            invariant
                j <= loose.len(),
                same_but_marks(heap0, self.heap()),
                forall|slot: usize|
                    managed_slots(heap0).contains(slot) ==> (#[trigger] marked_slots(
                        self.heap(),
                    ).contains(slot)) == marked_slots(heap0).contains(slot),
                forall|slot: usize|
                    #[trigger] marked_slots(self.heap()).contains(slot) && !managed_slots(
                        heap0,
                    ).contains(slot) ==> exists|k: int|
                        j <= k < loose@.len() && loose@[k] == slot,
                self.objects == old(self).objects,
                self.registry() == old(self).registry(),
                self.root_table() == old(self).root_table(),
                self.finalized() == old(self).finalized(),
            decreases loose.len() - j,
        {
            let ghost heap1 = self.heap();
            let index = loose[j];
            proof {
                lemma_same_graph(heap0, heap1);
            }
            self.unmark_slot(index);
            proof {
                let heap2 = self.heap();
                if holds(heap1, index) && !managed_slots(heap1).contains(index) {
                    lemma_unmark(heap1, index);
                }
                lemma_same_but_marks_chain(heap0, heap1, heap2);
                assert forall|slot: usize|
                    managed_slots(heap0).contains(slot) implies (#[trigger] marked_slots(
                    heap2,
                ).contains(slot)) == marked_slots(heap0).contains(slot) by {
                    assert(marked_slots(heap1).contains(slot)
                        == marked_slots(heap0).contains(slot));
                    assert(managed_slots(heap1).contains(slot));
                }
                assert forall|slot: usize|
                    #[trigger] marked_slots(heap2).contains(slot) && !managed_slots(heap0).contains(
                        slot,
                    ) implies exists|k: int| j + 1 <= k < loose@.len() && loose@[k] == slot by {
                    assert(!managed_slots(heap1).contains(slot));
                    assert(marked_slots(heap1).contains(slot));
                    let k = choose|k: int| j <= k < loose@.len() && loose@[k] == slot;
                    assert(slot != index);
                    assert(j + 1 <= k);
                }
            }
            j += 1;
        }
        proof {
            assert(marked_slots(self.heap()) =~= marked_slots(heap0).intersect(
                managed_slots(heap0),
            ));
        }
    }

    /// Reads and clears the mark of the allocation in slot `object`. An
    /// allocation that carried no mark is finalized and its slot emptied.
    fn sweep_slot(&mut self, object: usize) -> (kept: bool)
        requires
            holds(old(self).heap(), object),
        ensures
            kept == old(self).heap()[object as int].unwrap().is_marked(),
            kept ==> final(self).heap() == old(self).heap().update(
                object as int,
                Some(old(self).heap()[object as int].unwrap().with_mark(false)),
            ) && final(self).finalized() == old(self).finalized(),
            !kept ==> final(self).heap() == old(self).heap().update(object as int, None)
                && final(self).finalized() == old(self).finalized().push(object),
            final(self).objects == old(self).objects,
            final(self).registry() == old(self).registry(),
            final(self).root_table() == old(self).root_table(),
    {
        let was_marked = match &mut self.slots[object] {
            Some(allocation) => allocation.marked(),
            None => true,
        };
        if !was_marked {
            let mut taken: Option<Allocation<T>> = None;
            std::mem::swap(&mut taken, &mut self.slots[object]);
            match taken {
                Some(allocation) => {
                    let remains = allocation.free();
                    self.release(object, remains);
                },
                None => {},
            }
        }
        was_marked
    }

    /// Releases what remains of the payload that slot `object` held, and
    /// enters the slot in the log of finalizer runs. Only a payload whose
    /// finalizer has run is released.
    fn release(&mut self, object: usize, remains: T)
        requires
            remains.finalized(),
        ensures
            final(self).finalized() == old(self).finalized().push(object),
            final(self).heap() == old(self).heap(),
            final(self).objects == old(self).objects,
            final(self).registry() == old(self).registry(),
            final(self).root_table() == old(self).root_table(),
    {
        proof {
            self.finalized@ = self.finalized@.push(object);
        }
    }

    /// Starts a collection cycle with the mark phase: marks every managed
    /// allocation that is reachable from a root, and sets the cycle to visit
    /// the registry as it stands now.
    pub fn begin_cycle(&mut self) -> (cycle: Cycle)
        requires
            old(self).wf(),
            old(self).idle(),
        ensures
            final(self).active(&cycle),
            final(self).is_linked() == old(self).is_linked(),
            final(self).unvisited(&cycle) == old(self).registry(),
            final(self).settled(&cycle) == Seq::<usize>::empty(),
            same_but_marks(old(self).heap(), final(self).heap()),
            marked_slots(final(self).heap()) == old(self).reachable_slots().intersect(
                managed_slots(old(self).heap()),
            ),
            final(self).registry() == old(self).registry(),
            final(self).root_table() == old(self).root_table(),
            final(self).finalized() == old(self).finalized(),
    {
        let ghost heap0 = self.heap();
        let loose = self.mark_roots();
        let ghost heap1 = self.heap();
        self.clear_marks(&loose);
        let cycle = self.objects.begin();
        proof {
            let heap2 = self.heap();
            let registry = self.registry();
            lemma_same_graph(heap0, heap1);
            lemma_same_graph(heap1, heap2);
            lemma_same_but_marks_chain(heap0, heap1, heap2);
            lemma_marks_keep_order(heap0, heap2, registry, self.finalized());
            assert forall|slot: usize| #[trigger]
                marked_slots(heap2).contains(slot) implies self.unvisited(&cycle).contains(
                slot,
            ) by {
                assert(managed_slots(heap1).contains(slot));
                assert(managed_slots(heap2).contains(slot));
                assert(holds(heap2, slot));
            }
        }
        cycle
    }

    /// Lets `cycle` visit the next registry entry that it has still to
    /// visit, if there is one, and says whether there was.
    ///
    /// A marked allocation stays, with its mark cleared, and its entry is
    /// settled. An unmarked one is finalized and freed, and leaves the
    /// registry. Nothing else changes: in particular, an allocation that
    /// the cycle is not due to visit is not freed, and does not become due.
    pub fn sweep_step(&mut self, cycle: &mut Cycle) -> (more: bool)
        requires
            old(self).active(old(cycle)),
        ensures
            final(self).active(final(cycle)),
            final(self).is_linked() == old(self).is_linked(),
            final(self).root_table() == old(self).root_table(),
            more == (old(self).unvisited(old(cycle)).len() > 0),
            more ==> final(self).heap() == old(self).heap().update(
                old(self).next_due(old(cycle)) as int,
                swept(old(self).heap()[old(self).next_due(old(cycle)) as int]),
            ),
            more ==> final(self).unvisited(final(cycle)) == old(self).unvisited(
                old(cycle),
            ).drop_first(),
            more ==> final(self).settled(final(cycle)) == if old(self).keeps_next(old(cycle)) {
                old(self).settled(old(cycle)).push(old(self).next_due(old(cycle)))
            } else {
                old(self).settled(old(cycle))
            },
            more ==> final(self).finalized() == if old(self).keeps_next(old(cycle)) {
                old(self).finalized()
            } else {
                old(self).finalized().push(old(self).next_due(old(cycle)))
            },
            !more ==> final(self).idle(),
            !more ==> final(self).heap() == old(self).heap(),
            !more ==> final(self).registry() == old(self).registry(),
            !more ==> final(self).finalized() == old(self).finalized(),
            !more ==> final(self).unvisited(final(cycle)) == old(self).unvisited(old(cycle)),
            !more ==> final(self).settled(final(cycle)) == old(self).settled(old(cycle)),
            forall|slot: usize|
                #![trigger old(self).unvisited(old(cycle)).contains(slot)]
                !old(self).unvisited(old(cycle)).contains(slot) ==> old(self).spared(
                    final(self),
                    final(cycle),
                    slot,
                ),
    {
        broadcast use Allocation::lemma_flags;

        let ghost heap0 = self.heap();
        let ghost queue0 = self.registry();
        let ghost log0 = self.finalized();
        let ghost due = self.unvisited(cycle);
        let ghost done = self.settled(cycle);
        let ghost linked = self.is_linked();
        proof {
            self.objects.lemma_parts(cycle);
        }
        let item = self.objects.visit(cycle);
        let object = match item {
            Some(object) => object,
            None => {
                proof {
                    assert forall|slot: usize|
                        #[trigger] holds(heap0, slot) implies
                        !heap0[slot as int].unwrap().is_marked() by {
                        if heap0[slot as int].unwrap().is_marked() {
                            assert(marked_slots(heap0).contains(slot));
                            assert(due.contains(slot));
                        }
                    }
                }
                return false;
            },
        };
        proof {
            assert(queue0.contains(object)) by {
                if linked {
                    assert(queue0[done.len() as int] == due[0]);
                } else {
                    assert(queue0[0] == due[0]);
                }
            }
            let k = choose|k: int| 0 <= k < queue0.len() && queue0[k] == object;
            assert(holds(heap0, queue0[k]));
        }
        let kept = self.sweep_slot(object);
        self.objects.settle(cycle, object, kept);
        proof {
            let heap1 = self.heap();
            let queue1 = self.registry();
            let left = self.unvisited(cycle);
            self.objects.lemma_parts(cycle);
            assert(left == due.drop_first());
            assert(heap1 == heap0.update(object as int, swept(heap0[object as int])));
            assert(queue1.no_duplicates() && forall|slot: usize| #[trigger]
                queue1.contains(slot) <==> queue0.contains(slot) && (slot != object || kept)) by {
                if linked {
                    if kept {
                        assert(queue1 =~= queue0);
                    } else {
                        assert(queue1 =~= queue0.remove(done.len() as int));
                        assert(queue0[done.len() as int] == object);
                        lemma_remove_members(queue0, done.len() as int);
                    }
                } else {
                    if kept {
                        assert(queue1 =~= queue0.drop_first().push(queue0[0]));
                        lemma_rotate_members(queue0);
                    } else {
                        assert(queue1 =~= queue0.remove(0));
                        lemma_remove_members(queue0, 0);
                    }
                }
            }
            lemma_registry_settle(heap0, queue0, object, queue1);
            if !kept {
                lemma_log_push(heap0, log0, object);
            }
            assert(log_ok(heap1, self.finalized())) by {
                if kept {
                    assert forall|k: int| 0 <= k < log0.len() implies heap1[(
                    #[trigger] log0[k]) as int] is None by {
                        assert(log0[k] != object);
                    }
                }
            }
            assert forall|slot: usize| #[trigger]
                marked_slots(heap1).contains(slot) implies left.contains(slot) by {
                assert(slot != object);
                assert(marked_slots(heap0).contains(slot));
                let k = choose|k: int| 0 <= k < due.len() && due[k] == slot;
                assert(k != 0);
                assert(left[k - 1] == slot);
            }
            assert forall|slot: usize|
                #![trigger due.contains(slot)]
                !due.contains(slot) implies !left.contains(slot) && (slot < heap0.len()
                ==> heap1[slot as int] == heap0[slot as int]) by {
                if left.contains(slot) {
                    let k = choose|k: int| 0 <= k < left.len() && left[k] == slot;
                    assert(due[k + 1] == slot);
                }
                assert(due[0] == object);
            }
        }
        true
    }

    /// Runs one collection cycle.
    ///
    /// The mark phase marks every allocation that is reachable from a root.
    /// The sweep phase then visits each registry entry once: a marked
    /// allocation stays, with its mark cleared; an unmarked one is finalized
    /// and freed, and leaves the registry. Unmanaged allocations are never
    /// freed, and no survivor is changed.
    pub fn collect(&mut self)
        requires
            old(self).wf(),
            old(self).idle(),
        ensures
            final(self).wf(),
            final(self).idle(),
            final(self).is_linked() == old(self).is_linked(),
            final(self).heap().len() == old(self).heap().len(),
            forall|ptr: Ptr| #[trigger]
                final(self).live(ptr) <==> old(self).live(ptr) && (old(self).at(ptr).is_managed()
                    ==> old(self).reachable(ptr)),
            forall|ptr: Ptr| #[trigger]
                final(self).live(ptr) ==> final(self).at(ptr) == old(self).at(ptr),
            final(self).registry() == old(self).survivors(),
            final(self).finalized() == old(self).finalized() + old(self).garbage(),
            final(self).root_table() == old(self).root_table(),
    {
        broadcast use Allocation::lemma_flags;

        let ghost heap0 = self.heap();
        let ghost log0 = self.finalized();
        let mut cycle = self.begin_cycle();
        let ghost heap1 = self.heap();
        let ghost queue0 = self.registry();
        let ghost marked0 = marked_slots(heap1);
        let ghost mut visited: int = 0;
        let mut more = true;
        proof {
            lemma_split_empty(marked0);
            assert(queue0.take(0) == Seq::<usize>::empty());
            assert(queue0.skip(0) == queue0);
            assert(log0 + Seq::<usize>::empty() == log0);
        }
        while more
            invariant
                self.active(&cycle),
                self.is_linked() == old(self).is_linked(),
                0 <= visited <= queue0.len(),
                !more ==> self.unvisited(&cycle).len() == 0 && self.idle(),
                registry_ok(heap1, queue0),
                marked0 == marked_slots(heap1),
                self.unvisited(&cycle) == queue0.skip(visited),
                self.settled(&cycle) == pick(queue0.take(visited), marked0),
                self.finalized() == log0 + discard(queue0.take(visited), marked0),
                self.heap().len() == heap1.len(),
                forall|slot: usize|
                    slot < heap1.len() ==> #[trigger] self.heap()[slot as int] == if queue0.take(
                        visited,
                    ).contains(slot) {
                        swept(heap1[slot as int])
                    } else {
                        heap1[slot as int]
                    },
                self.root_table() == old(self).root_table(),
            decreases
                    self.unvisited(&cycle).len() + if more {
                        1nat
                    } else {
                        0nat
                    },
        {
            let ghost heap2 = self.heap();
            let ghost seen = queue0.take(visited);
            more = self.sweep_step(&mut cycle);
            proof {
                if more {
                    let rest = queue0.skip(visited);
                    let object = rest[0];
                    assert(rest[0] == queue0[visited]);
                    assert(rest.drop_first() == queue0.skip(visited + 1));
                    assert(!seen.contains(object)) by {
                        if seen.contains(object) {
                            let k = choose|k: int| 0 <= k < seen.len() && seen[k] == object;
                            assert(queue0[k] == queue0[visited]);
                        }
                    }
                    assert(holds(heap1, queue0[visited]));
                    assert(heap2[object as int] == heap1[object as int]);
                    assert(marked_slots(heap2).contains(object) == marked0.contains(object));
                    lemma_split_step(queue0, visited, marked0);
                    let heap3 = self.heap();
                    let seen3 = queue0.take(visited + 1);
                    assert(seen3 == seen.push(object));
                    assert forall|slot: usize|
                        slot < heap1.len() implies
                        #[trigger] heap3[slot as int]
                        == if seen3.contains(slot) {
                        swept(heap1[slot as int])
                    } else {
                        heap1[slot as int]
                    } by {
                        if slot == object {
                            assert(seen3[visited] == object);
                        } else if seen.contains(slot) {
                            let k = choose|k: int| 0 <= k < seen.len() && seen[k] == slot;
                            assert(seen3[k] == slot);
                        } else if seen3.contains(slot) {
                            let k = choose|k: int| 0 <= k < seen3.len() && seen3[k] == slot;
                            assert(seen3[visited] == object);
                            assert(k < seen.len());
                            assert(seen[k] == slot);
                        }
                    }
                    visited = visited + 1;
                }
            }
        }
        proof {
            let heap3 = self.heap();
            self.lemma_cycle_parts(&cycle);
            assert(visited == queue0.len());
            assert(queue0.take(visited) == queue0);
            assert(self.registry() =~= pick(queue0, marked0));
            lemma_same_graph(heap0, heap1);
            assert forall|i: int| 0 <= i < queue0.len() implies marked0.contains(
                #[trigger] queue0[i],
            ) == old(self).reachable_slots().contains(queue0[i]) by {
                let slot = queue0[i];
                assert(holds(heap1, slot));
                assert(managed_slots(heap1).contains(slot));
            }
            lemma_split_agree(queue0, marked0, old(self).reachable_slots());
            assert forall|slot: usize| slot < heap1.len() implies #[trigger] heap3[slot as int]
                == swept(heap1[slot as int]) by {
                if !queue0.contains(slot) && heap1[slot as int] is Some {
                    assert(holds(heap1, slot));
                    let a = heap1[slot as int].unwrap();
                    assert(!a.is_managed());
                    assert(!marked0.contains(slot)) by {
                        if marked0.contains(slot) {
                            assert(managed_slots(heap0).contains(slot));
                            assert(managed_slots(heap1).contains(slot));
                        }
                    }
                    assert(a.with_mark(false) == a);
                }
            }
            assert forall|ptr: Ptr| #[trigger]
                self.live(ptr) <==> old(self).live(ptr) && (old(self).at(ptr).is_managed()
                    ==> old(self).reachable(ptr)) by {
                let slot = ptr.0;
                if slot < heap0.len() {
                    assert(heap3[slot as int] == swept(heap1[slot as int]));
                    if heap0[slot as int] is Some {
                        assert(holds(heap0, slot));
                        assert(holds(heap1, slot));
                        assert(managed_slots(heap1).contains(slot) == managed_slots(
                            heap0,
                        ).contains(slot));
                        assert(marked0.contains(slot) == (old(self).reachable_slots().contains(slot)
                            && managed_slots(heap0).contains(slot)));
                    }
                }
            }
            assert forall|ptr: Ptr| #[trigger] self.live(ptr) implies self.at(ptr) == old(self).at(
                ptr,
            ) by {
                let slot = ptr.0;
                assert(heap3[slot as int] == swept(heap1[slot as int]));
                let a0 = heap0[slot as int].unwrap();
                let a1 = heap1[slot as int].unwrap();
                assert(holds(heap0, slot));
                assert(a1.with_mark(false) == a0.with_mark(false));
                assert(a0.with_mark(false) == a0);
            }
        }
    }

    /// Promotes the allocation in slot `index` if there is one that is not
    /// managed yet: it enters the registry, and its payload reports the
    /// references it embeds to `tracer`.
    fn promote_slot(&mut self, index: usize, tracer: &mut Tracer) -> (fresh: bool)
        requires
            old(self).registry_sound(),
            registry_ok(old(self).heap(), old(self).registry()),
        ensures
            final(self).registry_sound(),
            final(self).is_linked() == old(self).is_linked(),
            fresh == (holds(old(self).heap(), index) && !managed_slots(old(self).heap()).contains(
                index,
            )),
            fresh ==> final(self).heap() == old(self).heap().update(
                index as int,
                Some(old(self).heap()[index as int].unwrap().promoted()),
            ),
            fresh ==> final(self).registry() == if old(self).is_linked() {
                seq![index] + old(self).registry()
            } else {
                old(self).registry().push(index)
            },
            fresh ==> final(tracer)@ == old(tracer)@
                + old(self).heap()[index as int].unwrap().payload().edges(),
            !fresh ==> final(self).heap() == old(self).heap(),
            !fresh ==> final(self).registry() == old(self).registry(),
            !fresh ==> final(tracer)@ == old(tracer)@,
            final(self).root_table() == old(self).root_table(),
            final(self).finalized() == old(self).finalized(),
    {
        broadcast use Allocation::lemma_promoted;

        let fresh = if index < self.slots.len() {
            match &mut self.slots[index] {
                Some(allocation) => {
                    if allocation.is_unmanaged() {
                        allocation.managed();
                        allocation.manage(tracer);
                        true
                    } else {
                        false
                    }
                },
                None => false,
            }
        } else {
            false
        };
        if fresh {
            proof {
                if self.registry().contains(index) {
                    let k = choose|k: int|
                        0 <= k < self.registry().len() && self.registry()[k] == index;
                    assert(holds(old(self).heap(), old(self).registry()[k]));
                }
            }
            self.objects.enter(index);
        }
        fresh
    }

    /// Promotes the allocation behind `ptr` to managed, and with it every
    /// allocation that it leads to through allocations that are not managed
    /// yet. Promoting a managed or freed allocation changes nothing.
    ///
    /// Each promoted allocation enters the registry behind the entries that
    /// are already there.
    pub fn manage(&mut self, ptr: GcPtr<T>)
        requires
            old(self).wf(),
        ensures
            final(self).wf(),
            final(self).is_linked() == old(self).is_linked(),
            old(self).idle() ==> final(self).idle(),
            final(self).heap() == promoted_heap(old(self).heap(), ptr.addr().0),
            marked_slots(final(self).heap()) == marked_slots(old(self).heap()),
            grown(old(self).is_linked(), old(self).registry(), final(self).registry()),
            final(self).root_table() == old(self).root_table(),
            final(self).finalized() == old(self).finalized(),
    {
        broadcast use Allocation::lemma_promoted;

        let ghost heap0 = self.heap();
        let ghost graph = self.graph();
        let ghost blocked = managed_slots(heap0);
        let ghost starts = set![ptr.addr().0];
        let ghost mut seen = Set::<usize>::empty();
        let mut tracer = Tracer::new();
        tracer.visit(ptr.erased());
        proof {
            assert(tracer@[0] == ptr.addr());
            assert forall|k: int|
                0 <= k < tracer@.len() && passable(
                    graph,
                    blocked,
                    (#[trigger] tracer@[k]).0,
                ) implies connected(graph, blocked, starts, tracer@[k].0) by {
                lemma_start_connected(graph, blocked, starts, tracer@[k].0);
            }
            assert forall|s: usize| starts.contains(s) implies tracer@.contains(Ptr(s)) by {
                assert(Ptr(s) == tracer@[0]);
            }
        }
        while tracer.len() > 0
            invariant
                graph == graph_of(heap0),
                blocked == managed_slots(heap0),
                self.heap().len() == heap0.len(),
                forall|slot: usize|
                    slot < heap0.len() ==> #[trigger] self.heap()[slot as int] == if seen.contains(
                        slot,
                    ) {
                        Some(heap0[slot as int].unwrap().promoted())
                    } else {
                        heap0[slot as int]
                    },
                forall|slot: usize| seen.contains(slot) ==> passable(graph, blocked, slot),
                frontier(graph, blocked, starts, seen, tracer@),
                self.registry_sound(),
                self.is_linked() == old(self).is_linked(),
                registry_ok(self.heap(), self.registry()),
                grown(old(self).is_linked(), old(self).registry(), self.registry()),
                self.root_table() == old(self).root_table(),
                self.finalized() == old(self).finalized(),
            decreases tally(unmanaged_flags(self.heap())), tracer@.len(),
        {
            let ghost heap1 = self.heap();
            let ghost queue1 = self.registry();
            let ghost pending = tracer@;
            let next = tracer.take();
            let target = next.unwrap();
            let fresh = self.promote_slot(target.0, &mut tracer);
            proof {
                let index = target.0;
                let heap2 = self.heap();
                if index < heap0.len() {
                    assert(heap1[index as int] == if seen.contains(index) {
                        Some(heap0[index as int].unwrap().promoted())
                    } else {
                        heap0[index as int]
                    });
                }
                if fresh {
                    assert(!seen.contains(index)) by {
                        if seen.contains(index) {
                            heap0[index as int].unwrap().lemma_promoted();
                            assert(heap1[index as int].unwrap().is_managed());
                            assert(managed_slots(heap1).contains(index));
                        }
                    }
                    assert(passable(graph, blocked, index));
                    assert(!queue1.contains(index)) by {
                        if queue1.contains(index) {
                            let k = choose|k: int| 0 <= k < queue1.len() && queue1[k] == index;
                            assert(holds(heap1, queue1[k]));
                        }
                    }
                    lemma_enter_members(queue1, index);
                    lemma_registry_enter(heap1, queue1, index, self.registry());
                    assert(grown(old(self).is_linked(), old(self).registry(), self.registry())) by {
                        let first = old(self).registry();
                        let now = self.registry();
                        if old(self).is_linked() {
                            assert(first =~=
                                now.subrange(now.len() - first.len(), now.len() as int));
                        } else {
                            assert(first =~= now.subrange(0, first.len() as int));
                        }
                    }
                    lemma_frontier_visit(graph, blocked, starts, seen, pending);
                    assert forall|slot: usize|
                        slot < heap0.len() implies
                        #[trigger] heap2[slot as int]
                        == if seen.insert(index).contains(slot) {
                        Some(heap0[slot as int].unwrap().promoted())
                    } else {
                        heap0[slot as int]
                    } by {
                        assert(heap1[slot as int] == if seen.contains(slot) {
                            Some(heap0[slot as int].unwrap().promoted())
                        } else {
                            heap0[slot as int]
                        });
                    }
                    seen = seen.insert(index);
                } else {
                    assert(!passable(graph, blocked, index) || seen.contains(index));
                    lemma_frontier_skip(graph, blocked, starts, seen, pending);
                }
            }
        }
        let total = self.slots.len();
        proof {
            lemma_frontier_done(graph, blocked, starts, seen, tracer@);
            let heap2 = self.heap();
            assert(heap0.len() == total);
            assert forall|i: int| 0 <= i < heap0.len() implies heap2[i] == promoted_heap(
                heap0,
                ptr.addr().0,
            )[i] by {
                let slot = i as usize;
                assert(seen.contains(slot) == connected(graph, blocked, starts, slot));
                assert(heap2[slot as int] == if seen.contains(slot) {
                    Some(heap0[slot as int].unwrap().promoted())
                } else {
                    heap0[slot as int]
                });
            }
            assert(heap2 =~= promoted_heap(heap0, ptr.addr().0));
            assert(marked_slots(heap2) =~= marked_slots(heap0));
            assert(log_ok(heap2, self.finalized())) by {
                assert forall|k: int| 0 <= k < self.finalized().len() implies heap2[(
                #[trigger] self.finalized()[k]) as int] is None by {
                    let slot = self.finalized()[k];
                    assert(!holds(heap0, slot));
                    assert(!passable(graph, blocked, slot));
                }
            }
            if old(self).idle() {
                assert forall|slot: usize|
                    #[trigger] holds(heap2, slot) implies
                    !heap2[slot as int].unwrap().is_marked() by {
                    assert(holds(heap0, slot));
                }
            }
        }
    }

    /// A cycle that is under way is not disturbed by what enters the
    /// registry: the cycle stays under way and is due to visit exactly
    /// what it was due to visit before. What entered late is therefore not
    /// visited, and `sweep_step` frees nothing else than what it visits: an
    /// allocation that is promoted during a cycle survives it.
    pub proof fn lemma_late_entries_are_spared(
        before: &GcState<T>,
        after: &GcState<T>,
        cycle: &Cycle,
        slot: usize,
    )
        requires
            before.active(cycle),
            after.wf(),
            after.is_linked() == before.is_linked(),
            grown(before.is_linked(), before.registry(), after.registry()),
            marked_slots(after.heap()) == marked_slots(before.heap()),
            !before.registry().contains(slot),
        ensures
            after.active(cycle),
            after.unvisited(cycle) == before.unvisited(cycle),
            !after.unvisited(cycle).contains(slot),
    {
        Registry::lemma_grown(&before.objects, &after.objects, cycle);
        before.objects.lemma_parts(cycle);
        let due = before.unvisited(cycle);
        if due.contains(slot) {
            let k = choose|k: int| 0 <= k < due.len() && due[k] == slot;
            if before.is_linked() {
                assert(before.registry()[before.settled(cycle).len() + k] == slot);
            } else {
                assert(before.registry()[k] == slot);
            }
        }
    }

    /// After a collection, the finalizer of each allocation that this or
    /// an earlier collection freed has run exactly once, and no other
    /// finalizer has run.
    pub proof fn lemma_finalized_once(before: &GcState<T>, after: &GcState<T>, slot: usize)
        requires
            after.wf(),
            after.finalized() == before.finalized() + before.garbage(),
        ensures
            after.finalized().to_multiset().count(slot) == if before.finalized().contains(slot)
                || before.garbage().contains(slot) {
                1nat
            } else {
                0nat
            },
    {
        broadcast use vstd::seq_lib::to_multiset_contains;

        let log = after.finalized();
        log.lemma_multiset_has_no_duplicates();
        if before.finalized().contains(slot) {
            let k = choose|k: int|
                0 <= k < before.finalized().len() && before.finalized()[k] == slot;
            assert(log[k] == slot);
        }
        if before.garbage().contains(slot) {
            let k = choose|k: int| 0 <= k < before.garbage().len() && before.garbage()[k] == slot;
            assert(log[before.finalized().len() + k] == slot);
        }
        if log.contains(slot) {
            let k = choose|k: int| 0 <= k < log.len() && log[k] == slot;
            if k < before.finalized().len() {
                assert(before.finalized()[k] == slot);
            } else {
                assert(before.garbage()[k - before.finalized().len()] == slot);
            }
        }
    }
}

} // verus!
