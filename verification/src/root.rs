//! Root handles and the pool that their identifiers come from.
use crate::gc_ptr::GcPtr;
use crate::queue::{queue_items, queue_len, queue_new, queue_pop, queue_push};
use crate::state::GcState;
use crate::trace::Trace;
use crossbeam::queue::SegQueue;
use vstd::prelude::*;

verus! {

/// What a pool of root identifiers amounts to: the identifier that the
/// counter issues next, and the released identifiers that wait for reuse,
/// oldest first.
pub struct IdPool {
    pub next: nat,
    pub recycled: Seq<usize>,
}

impl IdPool {
    /// No identifier waits twice, and each that waits was issued by the
    /// counter.
    pub open spec fn wf(self) -> bool {
        &&& self.recycled.no_duplicates()
        &&& forall|k: int|
            0 <= k < self.recycled.len() ==> (#[trigger] self.recycled[k]) < self.next
    }

    /// `id` is in use: the counter has issued it and it does not wait for
    /// reuse.
    pub open spec fn issued(self, id: usize) -> bool {
        id < self.next && !self.recycled.contains(id)
    }

    /// The pool can hand out an identifier.
    pub open spec fn can_issue(self) -> bool {
        self.recycled.len() > 0 || self.next <= usize::MAX
    }

    /// The identifier that the pool hands out next: the oldest released
    /// one, or else the counter's.
    pub open spec fn pending(self) -> usize {
        if self.recycled.len() > 0 {
            self.recycled.first()
        } else {
            self.next as usize
        }
    }

    /// The pool after it has handed out `pending`.
    pub open spec fn acquire(self) -> IdPool {
        if self.recycled.len() > 0 {
            IdPool { next: self.next, recycled: self.recycled.drop_first() }
        } else {
            IdPool { next: self.next + 1, recycled: self.recycled }
        }
    }

    /// The pool after `id` has been released.
    pub open spec fn release(self, id: usize) -> IdPool {
        IdPool { next: self.next, recycled: self.recycled.push(id) }
    }

    /// The pool after `rounds` roots were created and destroyed one after
    /// the other.
    pub open spec fn churn(self, rounds: nat) -> IdPool
        decreases rounds,
    {
        if rounds == 0 {
            self
        } else {
            self.acquire().release(self.pending()).churn((rounds - 1) as nat)
        }
    }

    /// Handing out an identifier puts it in use, leaves every other
    /// identifier as it was, and keeps the pool in order.
    pub proof fn lemma_acquire(self)
        requires
            self.wf(),
            self.can_issue(),
        ensures
            self.acquire().wf(),
            !self.issued(self.pending()),
            self.acquire().issued(self.pending()),
            forall|id: usize|
                id != self.pending() ==> self.acquire().issued(id) == #[trigger] self.issued(id),
    {
        let after = self.acquire();
        if self.recycled.len() > 0 {
            let rest = self.recycled.drop_first();
            assert forall|i: int, j: int| 0 <= i < j < rest.len() implies rest[i] != rest[j] by {
                assert(rest[i] == self.recycled[i + 1]);
                assert(rest[j] == self.recycled[j + 1]);
            }
            assert forall|k: int| 0 <= k < rest.len() implies (#[trigger] rest[k]) < self.next by {
                assert(rest[k] == self.recycled[k + 1]);
            }
            assert(self.recycled[0] == self.pending());
            assert(!rest.contains(self.pending())) by {
                if rest.contains(self.pending()) {
                    let k = choose|k: int| 0 <= k < rest.len() && rest[k] == self.pending();
                    assert(self.recycled[k + 1] == self.recycled[0]);
                }
            }
            assert forall|id: usize| id != self.pending() implies after.issued(id)
                == #[trigger] self.issued(id) by {
                if self.recycled.contains(id) {
                    let k = choose|k: int| 0 <= k < self.recycled.len() && self.recycled[k] == id;
                    assert(rest[k - 1] == id);
                }
                if rest.contains(id) {
                    let k = choose|k: int| 0 <= k < rest.len() && rest[k] == id;
                    assert(self.recycled[k + 1] == id);
                }
            }
        }
    }

    /// Releasing an identifier that is in use takes it out of use, leaves
    /// every other identifier as it was, and keeps the pool in order.
    pub proof fn lemma_release(self, id: usize)
        requires
            self.wf(),
            self.issued(id),
        ensures
            self.release(id).wf(),
            !self.release(id).issued(id),
            forall|other: usize|
                other != id ==> self.release(id).issued(other) == #[trigger] self.issued(other),
    {
        let longer = self.recycled.push(id);
        assert forall|i: int, j: int| 0 <= i < j < longer.len() implies longer[i] != longer[j] by {
            assert(longer[i] == self.recycled[i]);
            if j < self.recycled.len() {
                assert(longer[j] == self.recycled[j]);
            }
        }
        assert forall|k: int| 0 <= k < longer.len() implies (#[trigger] longer[k]) < self.next by {
            if k < self.recycled.len() {
                assert(longer[k] == self.recycled[k]);
            }
        }
        assert(longer[self.recycled.len() as int] == id);
        assert forall|other: usize| other != id implies self.release(id).issued(other)
            == #[trigger] self.issued(other) by {
            if self.recycled.contains(other) {
                let k = choose|k: int| 0 <= k < self.recycled.len() && self.recycled[k] == other;
                assert(longer[k] == other);
            }
            if longer.contains(other) {
                let k = choose|k: int| 0 <= k < longer.len() && longer[k] == other;
                assert(self.recycled[k] == other);
            }
        }
    }

    /// Creating a root and destroying it again leaves as many identifiers
    /// waiting as before, or one where none waited, and moves the counter
    /// only where none waited.
    pub proof fn lemma_round_trip(self)
        requires
            self.wf(),
            self.can_issue(),
        ensures
            self.churn(1).wf(),
            self.churn(1).can_issue(),
            self.recycled.len() > 0 ==> self.churn(1).recycled.len() == self.recycled.len()
                && self.churn(1).next == self.next,
            self.recycled.len() == 0 ==> self.churn(1).recycled.len() == 1 && self.churn(1).next
                == self.next + 1,
    {
        reveal_with_fuel(IdPool::churn, 2);
        self.lemma_acquire();
        self.acquire().lemma_release(self.pending());
    }

    /// However many roots are created and destroyed one after the other,
    /// the identifiers that wait for reuse never become more than there
    /// were, or than one, and the counter moves at most once.
    pub proof fn lemma_churn_bounded(self, rounds: nat)
        requires
            self.wf(),
            self.can_issue(),
        ensures
            self.churn(rounds).wf(),
            self.churn(rounds).can_issue(),
            self.churn(rounds).recycled.len() <= if self.recycled.len() > 0 {
                self.recycled.len()
            } else {
                1
            },
            self.churn(rounds).next <= self.next + 1,
            self.recycled.len() > 0 ==> self.churn(rounds).next == self.next,
        decreases rounds,
    {
        if rounds > 0 {
            self.lemma_round_trip();
            reveal_with_fuel(IdPool::churn, 2);
            let once = self.churn(1);
            assert(once == self.acquire().release(self.pending()));
            once.lemma_churn_bounded((rounds - 1) as nat);
        }
    }
}

/// Every entry of the root table stands under an identifier that is in
/// use. A table that is changed through roots only stays so.
pub open spec fn keys_in_use(pool: IdPool, table: Map<usize, Option<usize>>) -> bool {
    forall|id: usize| table.dom().contains(id) ==> pool.issued(id)
}

/// A root that is made, bound and released leaves no entry under its
/// identifier and every other entry as it was: the root table never gains
/// an entry by it, and is as before where the identifier had no entry.
pub proof fn lemma_bound_and_released(table: Map<usize, Option<usize>>, id: usize, target: usize)
    requires
        table.dom().finite(),
    ensures
        table.insert(id, Some(target)).remove(id) == table.remove(id),
        table.remove(id).len() <= table.len(),
        !table.dom().contains(id) ==> table.remove(id) == table,
{
    assert(table.insert(id, Some(target)).remove(id) =~= table.remove(id));
    if !table.dom().contains(id) {
        assert(table.remove(id) =~= table);
    }
}

/// The pool that root identifiers come from: a counter, and the released
/// identifiers that wait for reuse.
pub struct RootIds {
    counter: usize,
    exhausted: bool,
    recycle: SegQueue<usize>,
}

impl View for RootIds {
    type V = IdPool;

    closed spec fn view(&self) -> IdPool {
        IdPool {
            next: if self.exhausted {
                self.counter as nat + 1
            } else {
                self.counter as nat
            },
            recycled: queue_items(&self.recycle),
        }
    }
}

impl RootIds {
    /// The counter has run out exactly when it stands at its last value.
    pub closed spec fn inv(&self) -> bool {
        self.exhausted ==> self.counter == usize::MAX
    }

    /// The pool is in order.
    pub open spec fn wf(&self) -> bool {
        self.inv() && self@.wf()
    }

    /// A pool that has issued nothing.
    pub fn new() -> (ids: RootIds)
        ensures
            ids.wf(),
            ids@.next == 0,
            ids@.recycled.len() == 0,
    {
        RootIds { counter: 0, exhausted: false, recycle: queue_new() }
    }

    /// Whether the pool can hand out an identifier.
    pub fn can_issue(&self) -> (can: bool)
        requires
            self.wf(),
        ensures
            can == self@.can_issue(),
    {
        queue_len(&self.recycle) > 0 || !self.exhausted
    }

    /// How many released identifiers wait for reuse.
    pub fn count_recycled(&self) -> (n: usize)
        ensures
            n == self@.recycled.len(),
    {
        queue_len(&self.recycle)
    }

    /// Hands out an identifier: the oldest released one, or else the
    /// counter's.
    fn acquire(&mut self) -> (id: usize)
        requires
            old(self).wf(),
            old(self)@.can_issue(),
        ensures
            final(self).wf(),
            id == old(self)@.pending(),
            final(self)@ == old(self)@.acquire(),
    {
        proof {
            self@.lemma_acquire();
        }
        match queue_pop(&mut self.recycle) {
            Some(id) => id,
            None => {
                let id = self.counter;
                if self.counter < usize::MAX {
                    self.counter = self.counter + 1;
                } else {
                    self.exhausted = true;
                }
                id
            },
        }
    }

    /// Takes back an identifier for reuse.
    fn release(&mut self, id: usize)
        requires
            old(self).wf(),
            old(self)@.issued(id),
        ensures
            final(self).wf(),
            final(self)@ == old(self)@.release(id),
    {
        proof {
            self@.lemma_release(id);
        }
        queue_push(&mut self.recycle, id);
    }
}

/// A root: the one owner of a root identifier.
///
/// A root is not registered when it is made: `enroot` binds it to an
/// allocation, and `release` ends it.
pub struct Root {
    idx: usize,
}

impl Root {
    /// The root's identifier.
    pub closed spec fn id(&self) -> usize {
        self.idx
    }

    /// A new root, with an identifier that no other root holds.
    pub fn new(ids: &mut RootIds) -> (root: Root)
        requires
            old(ids).wf(),
            old(ids)@.can_issue(),
        ensures
            final(ids).wf(),
            root.id() == old(ids)@.pending(),
            final(ids)@ == old(ids)@.acquire(),
            !old(ids)@.issued(root.id()),
            final(ids)@.issued(root.id()),
            forall|table: Map<usize, Option<usize>>| #[trigger]
                keys_in_use(old(ids)@, table) ==> keys_in_use(final(ids)@, table)
                    && !table.dom().contains(root.id()),
    {
        proof {
            ids@.lemma_acquire();
            assert forall|table: Map<usize, Option<usize>>| #[trigger]
                keys_in_use(ids@, table) implies keys_in_use(ids@.acquire(), table)
                && !table.dom().contains(ids@.pending()) by {
                assert forall|id: usize| table.dom().contains(id) implies ids@.acquire().issued(
                    id,
                ) by {
                    assert(ids@.issued(id));
                }
            }
        }
        Root { idx: ids.acquire() }
    }

    /// The root's identifier.
    pub fn idx(&self) -> (idx: usize)
        ensures
            idx == self.id(),
    {
        self.idx
    }

    /// Binds the root to `gc_ptr`: the root table maps the root's
    /// identifier to it, whatever the identifier was mapped to before.
    pub fn enroot<T: Trace>(&self, gc: &mut GcState<T>, gc_ptr: GcPtr<T>)
        requires
            old(gc).wf(),
        ensures
            final(gc).wf(),
            final(gc).is_linked() == old(gc).is_linked(),
            old(gc).idle() ==> final(gc).idle(),
            final(gc).root_table() == old(gc).root_table().insert(
                self.id(),
                Some(gc_ptr.addr().0),
            ),
            final(gc).heap() == old(gc).heap(),
            final(gc).registry() == old(gc).registry(),
            final(gc).finalized() == old(gc).finalized(),
            forall|pool: IdPool|
                pool.issued(self.id()) && #[trigger] keys_in_use(pool, old(gc).root_table())
                    ==> keys_in_use(pool, final(gc).root_table()),
    {
        gc.set_root(self.idx, gc_ptr);
    }

    /// Ends the root: its identifier goes back to the pool, and its entry
    /// leaves the root table.
    pub fn release<T: Trace>(self, ids: &mut RootIds, gc: &mut GcState<T>)
        requires
            old(ids).wf(),
            old(ids)@.issued(self.id()),
            old(gc).wf(),
        ensures
            final(ids).wf(),
            final(ids)@ == old(ids)@.release(self.id()),
            final(gc).wf(),
            final(gc).is_linked() == old(gc).is_linked(),
            old(gc).idle() ==> final(gc).idle(),
            final(gc).root_table() == old(gc).root_table().remove(self.id()),
            final(gc).heap() == old(gc).heap(),
            final(gc).registry() == old(gc).registry(),
            final(gc).finalized() == old(gc).finalized(),
            keys_in_use(old(ids)@, old(gc).root_table()) ==> keys_in_use(
                final(ids)@,
                final(gc).root_table(),
            ),
    {
        proof {
            ids@.lemma_release(self.idx);
        }
        ids.release(self.idx);
        gc.pop_root(self.idx);
        proof {
            if keys_in_use(old(ids)@, old(gc).root_table()) {
                assert forall|id: usize| gc.root_table().dom().contains(id) implies ids@.issued(
                    id,
                ) by {
                    assert(old(gc).root_table().dom().contains(id));
                    assert(old(ids)@.issued(id));
                }
            }
        }
    }
}

} // verus!
