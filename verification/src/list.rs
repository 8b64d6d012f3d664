//! A registry of slots as a doubly linked list.
//!
//! The links of a slot stand beside the heap, under the slot's number, so
//! that entering and leaving the list costs the same whatever its length.
//! New entries go to the front.
use crate::reach::{lemma_tally_clear, tally};
use vstd::prelude::*;

verus! {

#[derive(Clone, Copy)]
struct Link {
    prev: Option<usize>,
    next: Option<usize>,
}

/// The list: its first entry, and the links of every slot that is in it.
pub struct List {
    first: Option<usize>,
    links: Vec<Option<Link>>,
    count: usize,
    order: Ghost<Seq<usize>>,
}

/// The entry before position `k` of `order`, if any.
pub open spec fn before(order: Seq<usize>, k: int) -> Option<usize> {
    if k == 0 {
        None
    } else {
        Some(order[k - 1])
    }
}

/// The entry behind position `k` of `order`, if any.
pub open spec fn behind(order: Seq<usize>, k: int) -> Option<usize> {
    if k + 1 < order.len() {
        Some(order[k + 1])
    } else {
        None
    }
}

spec fn linked(links: Seq<Option<Link>>) -> Seq<bool> {
    Seq::new(links.len(), |i: int| links[i] is Some)
}

proof fn lemma_tally_bound(flags: Seq<bool>)
    ensures
        tally(flags) <= flags.len(),
    decreases flags.len(),
{
    if flags.len() > 0 {
        lemma_tally_bound(flags.drop_last());
    }
}

proof fn lemma_tally_set(flags: Seq<bool>, i: int)
    requires
        0 <= i < flags.len(),
        !flags[i],
    ensures
        tally(flags.update(i, true)) == tally(flags) + 1,
{
    let set = flags.update(i, true);
    lemma_tally_clear(set, i);
    assert(set.update(i, false) == flags);
}

proof fn lemma_tally_push(flags: Seq<bool>)
    ensures
        tally(flags.push(false)) == tally(flags),
{
    assert(flags.push(false).drop_last() == flags);
}

/// Where an entry stands in a list without repetitions.
proof fn lemma_index(order: Seq<usize>, k: int)
    requires
        order.no_duplicates(),
        0 <= k < order.len(),
    ensures
        order.index_of(order[k]) == k,
        order.contains(order[k]),
{
    let found = order.index_of(order[k]);
    assert(0 <= found < order.len() && order[found] == order[k]);
}

/// The links agree with the order of the entries: no entry repeats, each
/// names its neighbours, and no slot outside the list carries links.
spec fn links_ok(links: Seq<Option<Link>>, order: Seq<usize>) -> bool {
    &&& order.no_duplicates()
    &&& forall|k: int| 0 <= k < order.len() ==> #[trigger] entry_ok(links, order, k)
    &&& forall|i: usize|
        i < links.len() && (#[trigger] links[i as int]) is Some ==> order.contains(i)
}

/// The entry at position `k` carries links that name its neighbours.
spec fn entry_ok(links: Seq<Option<Link>>, order: Seq<usize>, k: int) -> bool {
    order[k] < links.len() && links[order[k] as int] == Some(
        Link { prev: before(order, k), next: behind(order, k) },
    )
}

/// The links after `node` went in at the front.
spec fn links_with(links: Seq<Option<Link>>, order: Seq<usize>, node: usize) -> Seq<Option<Link>> {
    let entered = links.update(
        node as int,
        Some(Link { prev: None, next: if order.len() > 0 {
            Some(order[0])
        } else {
            None
        } }),
    );
    if order.len() > 0 {
        entered.update(order[0] as int, Some(Link { prev: Some(node), next: behind(order, 0) }))
    } else {
        entered
    }
}

proof fn lemma_links_with(links: Seq<Option<Link>>, order: Seq<usize>, node: usize)
    requires
        links_ok(links, order),
        node < links.len(),
        links[node as int] is None,
    ensures
        links_ok(links_with(links, order, node), seq![node] + order),
        linked(links_with(links, order, node)) == linked(links).update(node as int, true),
{
    let after = links_with(links, order, node);
    let longer = seq![node] + order;
    assert(!order.contains(node)) by {
        if order.contains(node) {
            let k = order.index_of(node);
            assert(entry_ok(links, order, k));
        }
    }
    assert forall|i: int, j: int| 0 <= i < j < longer.len() implies longer[i] != longer[j] by {
        assert(longer[j] == order[j - 1]);
        if i > 0 {
            assert(longer[i] == order[i - 1]);
        }
    }
    if order.len() > 0 {
        assert(entry_ok(links, order, 0));
    }
    assert forall|k: int| 0 <= k < longer.len() implies #[trigger] entry_ok(after, longer, k) by {
        if k == 0 {
            if order.len() > 0 {
                assert(longer[1] == order[0]);
                assert(order[0] != node);
            }
        } else {
            assert(entry_ok(links, order, k - 1));
            assert(longer[k] == order[k - 1]);
            assert(longer[k - 1] == if k == 1 {
                node
            } else {
                order[k - 2]
            });
            if k + 1 < longer.len() {
                assert(longer[k + 1] == order[k]);
            }
            assert(order[k - 1] != node);
            if k > 1 {
                assert(order[k - 1] != order[0]);
            }
        }
    }
    assert forall|i: usize|
        i < after.len() && (#[trigger] after[i as int]) is Some implies longer.contains(i) by {
        if i == node {
            assert(longer[0] == node);
        } else {
            assert(links[i as int] is Some);
            let k = order.index_of(i);
            assert(order[k] == i);
            assert(longer[k + 1] == i);
        }
    }
    assert(linked(after) =~= linked(links).update(node as int, true));
}

/// The links after the entry at position `at` left.
spec fn links_without(links: Seq<Option<Link>>, order: Seq<usize>, at: int) -> Seq<Option<Link>> {
    let joined_prev = if at > 0 {
        links.update(
            order[at - 1] as int,
            Some(Link { prev: before(order, at - 1), next: behind(order, at) }),
        )
    } else {
        links
    };
    let joined_next = if at + 1 < order.len() {
        joined_prev.update(
            order[at + 1] as int,
            Some(Link { prev: before(order, at), next: behind(order, at + 1) }),
        )
    } else {
        joined_prev
    };
    joined_next.update(order[at] as int, None)
}

/// Positions in a list from which the entry at `at` was taken map back to
/// positions in the list as it was.
spec fn origin(k: int, at: int) -> int {
    if k < at {
        k
    } else {
        k + 1
    }
}

proof fn lemma_removed_no_duplicates(order: Seq<usize>, at: int)
    requires
        order.no_duplicates(),
        0 <= at < order.len(),
    ensures
        order.remove(at).no_duplicates(),
        forall|k: int|
            0 <= k < order.len() - 1 ==> #[trigger] order.remove(at)[k] == order[origin(k, at)],
        !order.remove(at).contains(order[at]),
{
    let shorter = order.remove(at);
    assert forall|k: int| 0 <= k < order.len() - 1 implies #[trigger] shorter[k] == order[origin(
        k,
        at,
    )] by {}
    assert forall|i: int, j: int| 0 <= i < j < shorter.len() implies shorter[i] != shorter[j] by {
        assert(shorter[i] == order[origin(i, at)]);
        assert(shorter[j] == order[origin(j, at)]);
    }
    if shorter.contains(order[at]) {
        let k = shorter.index_of(order[at]);
        assert(shorter[k] == order[origin(k, at)]);
    }
}

proof fn lemma_links_without(links: Seq<Option<Link>>, order: Seq<usize>, at: int)
    requires
        links_ok(links, order),
        0 <= at < order.len(),
    ensures
        links_ok(links_without(links, order, at), order.remove(at)),
        linked(links_without(links, order, at)) == linked(links).update(order[at] as int, false),
{
    let after = links_without(links, order, at);
    let shorter = order.remove(at);
    let node = order[at];
    lemma_removed_no_duplicates(order, at);
    assert(entry_ok(links, order, at));
    if at > 0 {
        assert(entry_ok(links, order, at - 1));
        assert(order[at - 1] != order[at]);
    }
    if at + 1 < order.len() {
        assert(entry_ok(links, order, at + 1));
        assert(order[at + 1] != order[at]);
        if at > 0 {
            assert(order[at - 1] != order[at + 1]);
        }
    }
    assert forall|k: int| 0 <= k < shorter.len() implies #[trigger] entry_ok(after, shorter, k) by {
        let ok = origin(k, at);
        assert(entry_ok(links, order, ok));
        assert(shorter[k] == order[ok]);
        assert(order[ok] != order[at]);
        if k > 0 {
            assert(shorter[k - 1] == order[origin(k - 1, at)]);
        }
        if k + 1 < shorter.len() {
            assert(shorter[k + 1] == order[origin(k + 1, at)]);
        }
        if at > 0 && ok != at - 1 {
            assert(order[ok] != order[at - 1]);
        }
        if at + 1 < order.len() && ok != at + 1 {
            assert(order[ok] != order[at + 1]);
        }
    }
    assert forall|i: usize|
        i < after.len() && (#[trigger] after[i as int]) is Some implies shorter.contains(i) by {
        assert(i != node);
        assert(links[i as int] is Some);
        let k = order.index_of(i);
        assert(order[k] == i);
        let sk = if k < at {
            k
        } else {
            k - 1
        };
        assert(shorter[sk] == order[origin(sk, at)]);
    }
    assert(linked(after) =~= linked(links).update(node as int, false));
}

impl View for List {
    type V = Seq<usize>;

    /// The entries, first to last.
    closed spec fn view(&self) -> Seq<usize> {
        self.order@
    }
}

impl Default for List {
    /// A list without entries.
    fn default() -> (list: List)
        ensures
            list.wf(),
            list@ == Seq::<usize>::empty(),
    {
        List { first: None, links: Vec::new(), count: 0, order: Ghost(Seq::empty()) }
    }
}

impl List {
    /// The links agree with the order of the entries: each entry names its
    /// neighbours, the head names the first entry, and no slot outside the
    /// list carries links.
    pub closed spec fn wf(&self) -> bool {
        &&& links_ok(self.links@, self.order@)
        &&& self.first == if self.order@.len() == 0 {
            None
        } else {
            Some(self.order@[0])
        }
        &&& self.count == self.order@.len()
        &&& self.count == tally(linked(self.links@))
    }

    /// No slot stands in a list twice.
    pub proof fn lemma_no_duplicates(&self)
        requires
            self.wf(),
        ensures
            self@.no_duplicates(),
    {
    }

    /// How many entries the list has.
    pub fn len(&self) -> (n: usize)
        requires
            self.wf(),
        ensures
            n == self@.len(),
    {
        self.count
    }

    /// Whether `node` is in the list.
    pub fn contains(&self, node: usize) -> (found: bool)
        requires
            self.wf(),
        ensures
            found == self@.contains(node),
    {
        proof {
            if self@.contains(node) {
                let k = self@.index_of(node);
                assert(entry_ok(self.links@, self.order@, k));
            }
        }
        if node < self.links.len() {
            self.links[node].is_some()
        } else {
            false
        }
    }

    /// Whether slot `node` is a head: nothing stands before it, because it
    /// is in no list. Every entry of the list has the list's head or
    /// another entry before it, and is no head.
    pub fn is_head(&self, node: usize) -> (head: bool)
        requires
            self.wf(),
        ensures
            head == !self@.contains(node),
    {
        !self.contains(node)
    }

    /// Makes room for the links of slot `node`.
    fn reserve(&mut self, node: usize)
        requires
            old(self).wf(),
        ensures
            final(self).wf(),
            final(self)@ == old(self)@,
            node < final(self).links@.len(),
    {
        while self.links.len() <= node
            invariant
                self.wf(),
                self@ == old(self)@,
            decreases node + 1 - self.links.len(),
        {
            proof {
                lemma_tally_push(linked(self.links@));
                assert(linked(self.links@.push(None)) == linked(self.links@).push(false));
                assert(links_ok(self.links@.push(None), self.order@)) by {
                    let grown = self.links@.push(None);
                    assert forall|k: int| 0 <= k < self.order@.len() implies #[trigger] entry_ok(
                        grown,
                        self.order@,
                        k,
                    ) by {
                        assert(entry_ok(self.links@, self.order@, k));
                    }
                    assert forall|i: usize|
                        i < grown.len()
                            && (#[trigger] grown[i as int]) is Some implies
                        self.order@.contains(
                        i,
                    ) by {
                        assert(self.links@[i as int] is Some);
                    }
                }
            }
            self.links.push(None);
        }
    }

    /// Splices `node` in directly behind the head. A slot that is in the
    /// list already stays where it is.
    pub fn insert(&mut self, node: usize)
        requires
            old(self).wf(),
        ensures
            final(self).wf(),
            final(self)@ == if old(self)@.contains(node) {
                old(self)@
            } else {
                seq![node] + old(self)@
            },
    {
        self.reserve(node);
        if self.contains(node) {
            return ;
        }
        let ghost order0 = self.order@;
        let ghost links0 = self.links@;
        let first = self.first;
        let slots = self.links.len();
        proof {
            assert(linked(links0).len() == slots);
            assert(links0[node as int] is None) by {
                if links0[node as int] is Some {
                    assert(order0.contains(node));
                }
            }
            lemma_links_with(links0, order0, node);
            lemma_tally_set(linked(links0), node as int);
            lemma_tally_bound(linked(links0).update(node as int, true));
        }
        self.links.set(node, Some(Link { prev: None, next: first }));
        match first {
            Some(entry) => {
                proof {
                    assert(order0[0] == entry);
                    assert(entry_ok(links0, order0, 0));
                    assert(order0[0] != node) by {
                        if order0[0] == node {
                            assert(order0.contains(node));
                        }
                    }
                }
                let link = self.links[entry].unwrap();
                self.links.set(entry, Some(Link { prev: Some(node), next: link.next }));
            },
            None => {},
        }
        self.first = Some(node);
        self.count = self.count + 1;
        proof {
            self.order@ = seq![node] + order0;
            assert(self.links@ == links_with(links0, order0, node));
            assert(self.order@[0] == node);
        }
    }

    /// Takes `node` out of the list and joins its neighbours. A slot that
    /// is not in the list changes nothing.
    pub fn remove(&mut self, node: usize)
        requires
            old(self).wf(),
        ensures
            final(self).wf(),
            final(self)@ == if old(self)@.contains(node) {
                old(self)@.remove(old(self)@.index_of(node))
            } else {
                old(self)@
            },
    {
        if !self.contains(node) {
            return ;
        }
        let ghost order0 = self.order@;
        let ghost links0 = self.links@;
        let ghost at = order0.index_of(node);
        proof {
            assert(order0[at] == node);
            assert(entry_ok(links0, order0, at));
            lemma_links_without(links0, order0, at);
            lemma_tally_clear(linked(links0), node as int);
            if at > 0 {
                assert(entry_ok(links0, order0, at - 1));
                assert(order0[at - 1] != order0[at]);
            }
            if at + 1 < order0.len() {
                assert(entry_ok(links0, order0, at + 1));
                assert(order0[at + 1] != order0[at]);
                if at > 0 {
                    assert(order0[at - 1] != order0[at + 1]);
                }
            }
        }
        let link = self.links[node].unwrap();
        match link.prev {
            Some(prev) => {
                let neighbour = self.links[prev].unwrap();
                self.links.set(prev, Some(Link { prev: neighbour.prev, next: link.next }));
            },
            None => {
                self.first = link.next;
            },
        }
        match link.next {
            Some(next) => {
                let neighbour = self.links[next].unwrap();
                self.links.set(next, Some(Link { prev: link.prev, next: neighbour.next }));
            },
            None => {},
        }
        self.links.set(node, None);
        self.count = self.count - 1;
        proof {
            self.order@ = order0.remove(at);
            assert(self.links@ == links_without(links0, order0, at));
            if order0.len() > 1 {
                assert(order0.remove(at)[0] == order0[origin(0, at)]);
            }
        }
    }

    /// An iterator that stands before the first entry.
    pub fn iter(&self) -> (iter: Iter)
        requires
            self.wf(),
        ensures
            iter.within(self),
            iter.position(self) == 0,
    {
        proof {
            if self.order@.len() > 0 {
                lemma_index(self.order@, 0);
            }
        }
        Iter { next: self.first }
    }
}

/// A place in a list: the entry that comes next, if any.
///
/// The iterator holds no borrow of the list. It stays usable while entries
/// other than its next one enter or leave.
pub struct Iter {
    next: Option<usize>,
}

impl Iter {
    /// The entry that comes next is in `list`, if there is one.
    pub closed spec fn within(&self, list: &List) -> bool {
        match self.next {
            Some(node) => list@.contains(node),
            None => true,
        }
    }

    /// How many entries of `list` stand before the iterator.
    pub closed spec fn position(&self, list: &List) -> int {
        match self.next {
            Some(node) => list@.index_of(node),
            None => list@.len() as int,
        }
    }

    /// An iterator that stands behind the last entry of every list.
    pub fn finished() -> (iter: Iter)
        ensures
            forall|list: &List| #[trigger] iter.within(list) && iter.position(list) == list@.len(),
    {
        Iter { next: None }
    }

    /// An iterator keeps its entry when entries go in at the front, and
    /// stands as many positions further back as went in.
    pub proof fn lemma_after_prepend(&self, before: &List, after: &List, added: Seq<usize>)
        requires
            after.wf(),
            self.within(before),
            after@ == added + before@,
        ensures
            self.within(after),
            self.position(after) == self.position(before) + added.len(),
    {
        match self.next {
            Some(node) => {
                let p = before@.index_of(node);
                assert(before@[p] == node);
                assert(after@[added.len() + p] == node);
                lemma_index(after@, added.len() + p);
            },
            None => {},
        }
    }

    /// The iterator stands before the entry at its position, or at the end.
    pub proof fn lemma_position(&self, list: &List)
        requires
            self.within(list),
        ensures
            0 <= self.position(list) <= list@.len(),
    {
    }

    /// An iterator stays where it is, counted from the front, when an entry
    /// behind it leaves the list; and moves one to the front when an entry
    /// before it does.
    pub proof fn lemma_after_remove(&self, before: &List, after: &List, at: int)
        requires
            before.wf(),
            self.within(before),
            0 <= at < before@.len(),
            at != self.position(before),
            after@ == before@.remove(at),
        ensures
            self.within(after),
            self.position(after) == if at < self.position(before) {
                self.position(before) - 1
            } else {
                self.position(before)
            },
    {
        let order0 = before@;
        let order1 = after@;
        lemma_removed_no_duplicates(order0, at);
        match self.next {
            Some(node) => {
                let p = order0.index_of(node);
                assert(order0[p] == node);
                let q = if at < p {
                    p - 1
                } else {
                    p
                };
                assert(order1[q] == order0[origin(q, at)]);
                lemma_index(order1, q);
            },
            None => {},
        }
    }

    /// Hands out the entry that comes next and moves behind it.
    pub fn next(&mut self, list: &List) -> (item: Option<usize>)
        requires
            list.wf(),
            old(self).within(list),
        ensures
            final(self).within(list),
            old(self).position(list) < list@.len() ==> item == Some(
                list@[old(self).position(list)],
            ) && final(self).position(list) == old(self).position(list) + 1,
            old(self).position(list) >= list@.len() ==> item.is_none() && final(self).position(
                list,
            ) == old(self).position(list),
    {
        match self.next {
            Some(node) => {
                let ghost at = list.order@.index_of(node);
                proof {
                    assert(list.order@[at] == node);
                    assert(entry_ok(list.links@, list.order@, at));
                    if at + 1 < list.order@.len() {
                        lemma_index(list.order@, at + 1);
                    }
                }
                self.next = list.links[node].unwrap().next;
                Some(node)
            },
            None => None,
        }
    }
}

} // verus!
