//! Splitting a list of slots by membership in a set.
use vstd::prelude::*;

verus! {

/// The entries of `items` that are in `wanted`, in their order.
pub open spec fn pick(items: Seq<usize>, wanted: Set<usize>) -> Seq<usize> {
    items.filter(|slot: usize| wanted.contains(slot))
}

/// The entries of `items` that are not in `unwanted`, in their order.
pub open spec fn discard(items: Seq<usize>, unwanted: Set<usize>) -> Seq<usize> {
    items.filter(|slot: usize| !unwanted.contains(slot))
}

/// What one more entry adds to `pick` and to `discard`.
pub(crate) proof fn lemma_split_step(items: Seq<usize>, i: int, set: Set<usize>)
    requires
        0 <= i < items.len(),
    ensures
        set.contains(items[i]) ==> pick(items.take(i + 1), set) == pick(items.take(i), set).push(
            items[i],
        ) && discard(items.take(i + 1), set) == discard(items.take(i), set),
        !set.contains(items[i]) ==> pick(items.take(i + 1), set) == pick(items.take(i), set)
            && discard(items.take(i + 1), set) == discard(items.take(i), set).push(items[i]),
{
    assert(items.take(i + 1) == items.take(i).push(items[i]));
    items.take(i).lemma_filter_push(items[i], |slot: usize| set.contains(slot));
    items.take(i).lemma_filter_push(items[i], |slot: usize| !set.contains(slot));
}

/// Two sets that agree on every entry of `items` split it alike.
pub(crate) proof fn lemma_split_agree(items: Seq<usize>, a: Set<usize>, b: Set<usize>)
    requires
        forall|i: int|
            0 <= i < items.len() ==> a.contains(#[trigger] items[i]) == b.contains(items[i]),
    ensures
        pick(items, a) == pick(items, b),
        discard(items, a) == discard(items, b),
    decreases items.len(),
{
    reveal(Seq::filter);
    if items.len() > 0 {
        let front = items.drop_last();
        assert forall|i: int| 0 <= i < front.len() implies a.contains(#[trigger] front[i])
            == b.contains(front[i]) by {
            assert(front[i] == items[i]);
        }
        lemma_split_agree(front, a, b);
        assert(a.contains(items[items.len() - 1]) == b.contains(items.last()));
    }
}

/// Nothing is picked from, or discarded from, an empty list.
pub(crate) proof fn lemma_split_empty(set: Set<usize>)
    ensures
        pick(Seq::<usize>::empty(), set) == Seq::<usize>::empty(),
        discard(Seq::<usize>::empty(), set) == Seq::<usize>::empty(),
{
    reveal(Seq::filter);
}

/// Taking one entry out of a list without repetitions leaves a list
/// without repetitions that holds the other entries.
pub(crate) proof fn lemma_remove_members(items: Seq<usize>, at: int)
    requires
        items.no_duplicates(),
        0 <= at < items.len(),
    ensures
        items.remove(at).no_duplicates(),
        forall|slot: usize|
            #[trigger] items.remove(at).contains(slot) <==> items.contains(slot) && slot
                != items[at],
{
    let rest = items.remove(at);
    assert forall|i: int, j: int| 0 <= i < j < rest.len() implies rest[i] != rest[j] by {
        let oi = if i < at {
            i
        } else {
            i + 1
        };
        let oj = if j < at {
            j
        } else {
            j + 1
        };
        assert(rest[i] == items[oi]);
        assert(rest[j] == items[oj]);
    }
    assert forall|slot: usize|
        #[trigger] rest.contains(slot) <==> items.contains(slot) && slot != items[at] by {
        if rest.contains(slot) {
            let k = choose|k: int| 0 <= k < rest.len() && rest[k] == slot;
            let ok = if k < at {
                k
            } else {
                k + 1
            };
            assert(items[ok] == slot);
        }
        if items.contains(slot) && slot != items[at] {
            let k = choose|k: int| 0 <= k < items.len() && items[k] == slot;
            let rk = if k < at {
                k
            } else {
                k - 1
            };
            assert(rest[rk] == slot);
        }
    }
}

/// Moving the first entry of a list without repetitions to its end leaves
/// a list without repetitions that holds the same entries.
pub(crate) proof fn lemma_rotate_members(items: Seq<usize>)
    requires
        items.no_duplicates(),
        items.len() > 0,
    ensures
        items.drop_first().push(items[0]).no_duplicates(),
        forall|slot: usize|
            #[trigger] items.drop_first().push(items[0]).contains(slot) <==> items.contains(slot),
{
    let turned = items.drop_first().push(items[0]);
    assert forall|i: int, j: int| 0 <= i < j < turned.len() implies turned[i] != turned[j] by {
        assert(turned[i] == items[i + 1]);
        if j < turned.len() - 1 {
            assert(turned[j] == items[j + 1]);
        } else {
            assert(turned[j] == items[0]);
        }
    }
    assert forall|slot: usize| #[trigger] turned.contains(slot) <==> items.contains(slot) by {
        if turned.contains(slot) {
            let k = choose|k: int| 0 <= k < turned.len() && turned[k] == slot;
            if k < turned.len() - 1 {
                assert(items[k + 1] == slot);
            } else {
                assert(items[0] == slot);
            }
        }
        if items.contains(slot) {
            let k = choose|k: int| 0 <= k < items.len() && items[k] == slot;
            if k == 0 {
                assert(turned[turned.len() - 1] == slot);
            } else {
                assert(turned[k - 1] == slot);
            }
        }
    }
}

/// Putting an entry that a list without repetitions does not hold before
/// it or behind it leaves a list without repetitions that holds the entry
/// and what the list held.
pub(crate) proof fn lemma_enter_members(items: Seq<usize>, slot: usize)
    requires
        items.no_duplicates(),
        !items.contains(slot),
    ensures
        items.push(slot).no_duplicates(),
        (seq![slot] + items).no_duplicates(),
        forall|other: usize|
            #[trigger] items.push(slot).contains(other) <==> items.contains(other) || other
                == slot,
        forall|other: usize|
            #[trigger] (seq![slot] + items).contains(other) <==> items.contains(other) || other
                == slot,
{
    let behind = items.push(slot);
    let before = seq![slot] + items;
    assert forall|i: int, j: int| 0 <= i < j < behind.len() implies behind[i] != behind[j] by {
        assert(behind[i] == items[i]);
        if j < items.len() {
            assert(behind[j] == items[j]);
        }
    }
    assert forall|i: int, j: int| 0 <= i < j < before.len() implies before[i] != before[j] by {
        assert(before[j] == items[j - 1]);
        if i > 0 {
            assert(before[i] == items[i - 1]);
        }
    }
    assert forall|other: usize|
        #[trigger] behind.contains(other) <==> items.contains(other) || other == slot by {
        if behind.contains(other) {
            let k = choose|k: int| 0 <= k < behind.len() && behind[k] == other;
            if k < items.len() {
                assert(items[k] == other);
            }
        }
        if items.contains(other) {
            let k = choose|k: int| 0 <= k < items.len() && items[k] == other;
            assert(behind[k] == other);
        }
        if other == slot {
            assert(behind[items.len() as int] == other);
        }
    }
    assert forall|other: usize|
        #[trigger] before.contains(other) <==> items.contains(other) || other == slot by {
        if before.contains(other) {
            let k = choose|k: int| 0 <= k < before.len() && before[k] == other;
            if k > 0 {
                assert(items[k - 1] == other);
            }
        }
        if items.contains(other) {
            let k = choose|k: int| 0 <= k < items.len() && items[k] == other;
            assert(before[k + 1] == other);
        }
        if other == slot {
            assert(before[0] == other);
        }
    }
}

} // verus!
