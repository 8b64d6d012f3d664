//! The registry of managed allocations, in either of two forms.
//!
//! As a queue, new entries go to the tail; a sweep takes each entry from
//! the head and puts the survivors back at the tail. As a linked list, new
//! entries go to the front; a sweep walks the list and unlinks what it
//! frees. Either way a sweep visits the entries that were there when it
//! began, in their order, and leaves the survivors in that order.
use crate::list::{Iter, List};
use crate::queue::{queue_items, queue_len, queue_new, queue_pop, queue_push};
use crossbeam::queue::SegQueue;
use vstd::prelude::*;

verus! {

/// The registry.
pub(crate) enum Registry {
    Queue(SegQueue<usize>),
    Linked(List),
}

/// How far a sweep has come.
pub struct Cycle {
    remaining: usize,
    cursor: Iter,
}

/// The registry that is made of the entries still to visit and of those
/// that are settled: the settled ones are behind the others in a queue,
/// and before them in a list.
pub open spec fn join(linked: bool, due: Seq<usize>, done: Seq<usize>) -> Seq<usize> {
    if linked {
        done + due
    } else {
        due + done
    }
}

/// `after` is `before` with entries added where new entries go: at the
/// tail of a queue, at the front of a list.
pub open spec fn grown(linked: bool, before: Seq<usize>, after: Seq<usize>) -> bool {
    if linked {
        before.is_suffix_of(after)
    } else {
        before.is_prefix_of(after)
    }
}

impl View for Registry {
    type V = Seq<usize>;

    /// The entries, in the order in which a sweep visits them.
    closed spec fn view(&self) -> Seq<usize> {
        match self {
            Registry::Queue(queue) => queue_items(queue),
            Registry::Linked(list) => list@,
        }
    }
}

impl Registry {
    /// Whether the registry is a linked list.
    pub(crate) closed spec fn is_linked(&self) -> bool {
        self is Linked
    }

    /// The registry is in order.
    pub(crate) closed spec fn inv(&self) -> bool {
        match self {
            Registry::Queue(_) => true,
            Registry::Linked(list) => list.wf(),
        }
    }

    /// `cycle` is a sweep of this registry.
    pub(crate) closed spec fn tracks(&self, cycle: &Cycle) -> bool {
        match self {
            Registry::Queue(queue) => cycle.remaining <= queue_items(queue).len(),
            Registry::Linked(list) => list.wf() && cycle.cursor.within(list),
        }
    }

    /// The entries that `cycle` has still to visit, next one first.
    pub(crate) closed spec fn unvisited(&self, cycle: &Cycle) -> Seq<usize> {
        match self {
            Registry::Queue(queue) => queue_items(queue).take(cycle.remaining as int),
            Registry::Linked(list) => list@.skip(cycle.cursor.position(list)),
        }
    }

    /// The entries that `cycle` does not visit any more: those it has
    /// kept, and those that entered after it began.
    pub(crate) closed spec fn settled(&self, cycle: &Cycle) -> Seq<usize> {
        match self {
            Registry::Queue(queue) => queue_items(queue).skip(cycle.remaining as int),
            Registry::Linked(list) => list@.take(cycle.cursor.position(list)),
        }
    }

    /// `cycle` has taken up `item` and not settled it yet.
    pub(crate) closed spec fn in_hand(&self, cycle: &Cycle, item: usize) -> bool {
        match self {
            Registry::Queue(queue) => cycle.remaining <= queue_items(queue).len(),
            Registry::Linked(list) => list.wf() && cycle.cursor.within(list)
                && cycle.cursor.position(list) >= 1 && list@[cycle.cursor.position(list) - 1]
                == item,
        }
    }

    /// While an item is in hand: the entries still to visit.
    pub(crate) closed spec fn due_in_hand(&self, cycle: &Cycle) -> Seq<usize> {
        match self {
            Registry::Queue(queue) => queue_items(queue).take(cycle.remaining as int),
            Registry::Linked(list) => list@.skip(cycle.cursor.position(list)),
        }
    }

    /// While an item is in hand: the entries that are settled.
    pub(crate) closed spec fn done_in_hand(&self, cycle: &Cycle) -> Seq<usize> {
        match self {
            Registry::Queue(queue) => queue_items(queue).skip(cycle.remaining as int),
            Registry::Linked(list) => list@.take(cycle.cursor.position(list) - 1),
        }
    }

    /// The registry consists of what a sweep has still to visit and of what
    /// is settled.
    pub(crate) proof fn lemma_parts(&self, cycle: &Cycle)
        requires
            self.tracks(cycle),
        ensures
            self@ == join(self.is_linked(), self.unvisited(cycle), self.settled(cycle)),
    {
        match self {
            Registry::Queue(queue) => {
                let items = queue_items(queue);
                assert(items =~= items.take(cycle.remaining as int) + items.skip(
                    cycle.remaining as int,
                ));
            },
            Registry::Linked(list) => {
                cycle.cursor.lemma_position(list);
                let at = cycle.cursor.position(list);
                assert(list@ =~= list@.take(at) + list@.skip(at));
            },
        }
    }

    /// A sweep is not disturbed by entries that are added where new entries
    /// go: it has still to visit what it had to visit before.
    pub(crate) proof fn lemma_grown(before: &Registry, after: &Registry, cycle: &Cycle)
        requires
            before.tracks(cycle),
            after.inv(),
            after.is_linked() == before.is_linked(),
            grown(before.is_linked(), before@, after@),
        ensures
            after.tracks(cycle),
            after.unvisited(cycle) == before.unvisited(cycle),
    {
        match (before, after) {
            (Registry::Queue(old_queue), Registry::Queue(new_queue)) => {
                assert(after.unvisited(cycle) =~= before.unvisited(cycle));
            },
            (Registry::Linked(old_list), Registry::Linked(new_list)) => {
                let added = new_list@.take(new_list@.len() - old_list@.len());
                assert(new_list@ =~= added + old_list@);
                cycle.cursor.lemma_after_prepend(old_list, new_list, added);
                cycle.cursor.lemma_position(old_list);
                assert(after.unvisited(cycle) =~= before.unvisited(cycle));
            },
            _ => {},
        }
    }

    /// An empty registry in the form of a queue.
    pub(crate) fn new_queue() -> (registry: Registry)
        ensures
            registry.inv(),
            !registry.is_linked(),
            registry@ == Seq::<usize>::empty(),
    {
        Registry::Queue(queue_new())
    }

    /// An empty registry in the form of a linked list.
    pub(crate) fn new_linked() -> (registry: Registry)
        ensures
            registry.inv(),
            registry.is_linked(),
            registry@ == Seq::<usize>::empty(),
    {
        Registry::Linked(List::default())
    }

    /// How many entries the registry has.
    pub(crate) fn len(&self) -> (n: usize)
        requires
            self.inv(),
        ensures
            n == self@.len(),
    {
        match self {
            Registry::Queue(queue) => queue_len(queue),
            Registry::Linked(list) => list.len(),
        }
    }

    /// Adds `slot` where new entries go: at the tail of a queue, at the
    /// front of a list.
    pub(crate) fn enter(&mut self, slot: usize)
        requires
            old(self).inv(),
            !old(self)@.contains(slot),
        ensures
            final(self).inv(),
            final(self).is_linked() == old(self).is_linked(),
            final(self)@ == if old(self).is_linked() {
                seq![slot] + old(self)@
            } else {
                old(self)@.push(slot)
            },
    {
        match self {
            Registry::Queue(queue) => queue_push(queue, slot),
            Registry::Linked(list) => list.insert(slot),
        }
    }

    /// The entries in order. A queue is handed round once and ends as it
    /// began.
    pub(crate) fn entries(&mut self) -> (entries: Vec<usize>)
        requires
            old(self).inv(),
        ensures
            final(self).inv(),
            final(self).is_linked() == old(self).is_linked(),
            final(self)@ == old(self)@,
            entries@ == old(self)@,
    {
        let mut entries: Vec<usize> = Vec::new();
        match self {
            Registry::Queue(queue) => {
                let ghost items = queue_items(queue);
                let count = queue_len(queue);
                let mut i: usize = 0;
                proof {
                    assert(items.skip(0) + items.take(0) == items);
                }
                while i < count
                    invariant
                        i <= count == items.len(),
                        entries@ == items.take(i as int),
                        queue_items(queue) == items.skip(i as int) + items.take(i as int),
                    decreases count - i,
                {
                    let ghost now = queue_items(queue);
                    let head = queue_pop(queue);
                    proof {
                        assert(now[0] == items.skip(i as int)[0]);
                    }
                    let entry = head.unwrap();
                    queue_push(queue, entry);
                    entries.push(entry);
                    proof {
                        assert(items.take(i + 1) == items.take(i as int).push(items[i as int]));
                        assert(queue_items(queue) == items.skip(i + 1) + items.take(i + 1));
                    }
                    i += 1;
                }
                proof {
                    assert(items.take(count as int) == items);
                    assert(items.skip(count as int) + items == items);
                }
            },
            Registry::Linked(list) => {
                let mut iter = list.iter();
                let mut item = iter.next(list);
                proof {
                    assert(list@.take(0) == Seq::<usize>::empty());
                }
                while item.is_some()
                    invariant
                        list.wf(),
                        iter.within(list),
                        item.is_some() ==> 1 <= iter.position(list) <= list@.len()
                            && item.unwrap() == list@[iter.position(list) - 1] && entries@
                            == list@.take(iter.position(list) - 1),
                        item.is_none() ==> entries@ == list@,
                    decreases list@.len() + 1 - iter.position(list) + if item.is_some() {
                        1int
                    } else {
                        0int
                    },
                {
                    let ghost at = iter.position(list);
                    proof {
                        iter.lemma_position(list);
                        assert(list@.take(at) == list@.take(at - 1).push(list@[at - 1]));
                    }
                    entries.push(item.unwrap());
                    item = iter.next(list);
                    proof {
                        if item.is_none() {
                            assert(list@.take(at) == list@);
                        }
                    }
                }
                proof {
                    if list@.len() == 0 {
                        assert(list@ =~= entries@);
                    }
                }
            },
        }
        entries
    }

    /// A sweep that has every entry to visit.
    pub(crate) fn begin(&self) -> (cycle: Cycle)
        requires
            self.inv(),
        ensures
            self.tracks(&cycle),
            self.unvisited(&cycle) == self@,
            self.settled(&cycle) == Seq::<usize>::empty(),
    {
        match self {
            Registry::Queue(queue) => {
                let remaining = queue_len(queue);
                proof {
                    let items = queue_items(queue);
                    assert(items.take(remaining as int) == items);
                    assert(items.skip(remaining as int) == Seq::<usize>::empty());
                }
                Cycle { remaining, cursor: Iter::finished() }
            },
            Registry::Linked(list) => {
                proof {
                    assert(list@.skip(0) == list@);
                    assert(list@.take(0) == Seq::<usize>::empty());
                }
                Cycle { remaining: 0, cursor: list.iter() }
            },
        }
    }

    /// Takes up the next entry that `cycle` has to visit, if there is one.
    /// In a queue the entry leaves the registry until it is settled.
    pub(crate) fn visit(&mut self, cycle: &mut Cycle) -> (item: Option<usize>)
        requires
            old(self).tracks(old(cycle)),
        ensures
            final(self).is_linked() == old(self).is_linked(),
            item.is_none() ==> final(self).inv(),
            item.is_some() == (old(self).unvisited(old(cycle)).len() > 0),
            item.is_some() ==> item == Some(old(self).unvisited(old(cycle))[0]),
            item.is_some() ==> final(self).in_hand(final(cycle), item.unwrap()),
            item.is_some() ==> final(self).due_in_hand(final(cycle)) == old(self).unvisited(
                old(cycle),
            ).drop_first(),
            item.is_some() ==> final(self).done_in_hand(final(cycle)) == old(self).settled(
                old(cycle),
            ),
            item.is_none() ==> final(self)@ == old(self)@,
            item.is_none() ==> final(self).tracks(final(cycle)),
            item.is_none() ==> final(self).unvisited(final(cycle)) == old(self).unvisited(
                old(cycle),
            ),
            item.is_none() ==> final(self).settled(final(cycle)) == old(self).settled(old(cycle)),
    {
        match self {
            Registry::Queue(queue) => {
                if cycle.remaining == 0 {
                    return None;
                }
                let ghost items = queue_items(queue);
                let head = queue_pop(queue);
                cycle.remaining = cycle.remaining - 1;
                proof {
                    let rest = queue_items(queue);
                    assert(rest.take(cycle.remaining as int) =~= items.take(
                        cycle.remaining + 1,
                    ).drop_first());
                    assert(rest.skip(cycle.remaining as int) =~= items.skip(cycle.remaining + 1));
                }
                head
            },
            Registry::Linked(list) => {
                let ghost at = cycle.cursor.position(list);
                proof {
                    cycle.cursor.lemma_position(list);
                }
                let item = cycle.cursor.next(list);
                proof {
                    if item.is_some() {
                        assert(list@.skip(at + 1) =~= list@.skip(at).drop_first());
                    }
                }
                item
            },
        }
    }

    /// Settles the entry that `cycle` has in hand: it stays in the
    /// registry if it is kept, and is out of it if not.
    pub(crate) fn settle(&mut self, cycle: &Cycle, item: usize, kept: bool)
        requires
            old(self).in_hand(cycle, item),
        ensures
            final(self).is_linked() == old(self).is_linked(),
            final(self).inv(),
            final(self).tracks(cycle),
            final(self).unvisited(cycle) == old(self).due_in_hand(cycle),
            final(self).settled(cycle) == if kept {
                old(self).done_in_hand(cycle).push(item)
            } else {
                old(self).done_in_hand(cycle)
            },
    {
        match self {
            Registry::Queue(queue) => {
                if kept {
                    let ghost items = queue_items(queue);
                    queue_push(queue, item);
                    proof {
                        let more = queue_items(queue);
                        assert(more.take(cycle.remaining as int) =~= items.take(
                            cycle.remaining as int,
                        ));
                        assert(more.skip(cycle.remaining as int) =~= items.skip(
                            cycle.remaining as int,
                        ).push(item));
                    }
                }
            },
            Registry::Linked(list) => {
                let ghost before = *list;
                let ghost at = cycle.cursor.position(list);
                proof {
                    cycle.cursor.lemma_position(list);
                }
                if kept {
                    proof {
                        assert(list@.take(at) =~= list@.take(at - 1).push(item));
                    }
                } else {
                    proof {
                        list.lemma_no_duplicates();
                        assert(list@.contains(item));
                        let found = list@.index_of(item);
                        assert(list@[found] == item);
                        assert(found == at - 1);
                    }
                    list.remove(item);
                    proof {
                        cycle.cursor.lemma_after_remove(&before, list, at - 1);
                        assert(list@.skip(at - 1) =~= before@.skip(at));
                        assert(list@.take(at - 1) =~= before@.take(at - 1));
                    }
                }
            },
        }
    }
}

} // verus!
