//! Reachability in the graph that the allocations' references form.
//!
//! A graph gives, for each slot of the heap, `None` where the slot holds no
//! allocation and otherwise the references that its payload holds. Nodes are
//! slot numbers.
use crate::allocation::Ptr;
use vstd::prelude::*;

verus! {

/// Slot `node` of `graph` holds an allocation.
pub open spec fn is_node(graph: Seq<Option<Seq<Ptr>>>, node: usize) -> bool {
    node < graph.len() && graph[node as int] is Some
}

/// The allocation in slot `from` holds a reference to slot `to`.
pub open spec fn has_edge(graph: Seq<Option<Seq<Ptr>>>, from: usize, to: usize) -> bool {
    is_node(graph, from) && graph[from as int].unwrap().contains(Ptr(to))
}

/// A traversal may enter `node`: it holds an allocation and is not blocked.
pub open spec fn passable(graph: Seq<Option<Seq<Ptr>>>, blocked: Set<usize>, node: usize) -> bool {
    is_node(graph, node) && !blocked.contains(node)
}

/// `path` is a non-empty walk along references, through passable nodes only.
pub open spec fn is_path(
    graph: Seq<Option<Seq<Ptr>>>,
    blocked: Set<usize>,
    path: Seq<usize>,
) -> bool {
    &&& path.len() > 0
    &&& forall|k: int| 0 <= k < path.len() ==> passable(graph, blocked, #[trigger] path[k])
    &&& forall|k: int|
        0 <= k < path.len() - 1 ==> has_edge(graph, #[trigger] path[k], path[k + 1])
}

/// `path` leads from one of `starts` to `target`.
pub open spec fn connects(
    graph: Seq<Option<Seq<Ptr>>>,
    blocked: Set<usize>,
    starts: Set<usize>,
    path: Seq<usize>,
    target: usize,
) -> bool {
    is_path(graph, blocked, path) && starts.contains(path[0]) && path.last() == target
}

/// Some path through passable nodes leads from one of `starts` to `target`.
pub open spec fn connected(
    graph: Seq<Option<Seq<Ptr>>>,
    blocked: Set<usize>,
    starts: Set<usize>,
    target: usize,
) -> bool {
    exists|path: Seq<usize>| connects(graph, blocked, starts, path, target)
}

/// A passable start is connected.
pub proof fn lemma_start_connected(
    graph: Seq<Option<Seq<Ptr>>>,
    blocked: Set<usize>,
    starts: Set<usize>,
    start: usize,
)
    requires
        starts.contains(start),
        passable(graph, blocked, start),
    ensures
        connected(graph, blocked, starts, start),
{
    assert(connects(graph, blocked, starts, seq![start], start));
}

/// A passable node that a connected node refers to is connected.
pub proof fn lemma_edge_connected(
    graph: Seq<Option<Seq<Ptr>>>,
    blocked: Set<usize>,
    starts: Set<usize>,
    from: usize,
    to: usize,
)
    requires
        connected(graph, blocked, starts, from),
        has_edge(graph, from, to),
        passable(graph, blocked, to),
    ensures
        connected(graph, blocked, starts, to),
{
    let path = choose|path: Seq<usize>| connects(graph, blocked, starts, path, from);
    let longer = path.push(to);
    assert forall|k: int| 0 <= k < longer.len() implies passable(
        graph,
        blocked,
        #[trigger] longer[k],
    ) by {
        if k < path.len() {
            assert(longer[k] == path[k]);
        }
    }
    assert forall|k: int| 0 <= k < longer.len() - 1 implies has_edge(
        graph,
        #[trigger] longer[k],
        longer[k + 1],
    ) by {
        if k < path.len() - 1 {
            assert(longer[k] == path[k]);
            assert(longer[k + 1] == path[k + 1]);
        }
    }
    assert(connects(graph, blocked, starts, longer, to));
}

/// `seen` holds every passable start and, with a node, every passable node
/// that it refers to.
pub open spec fn closed_under_edges(
    graph: Seq<Option<Seq<Ptr>>>,
    blocked: Set<usize>,
    starts: Set<usize>,
    seen: Set<usize>,
) -> bool {
    &&& forall|s: usize| starts.contains(s) && passable(graph, blocked, s) ==> seen.contains(s)
    &&& forall|a: usize, b: usize|
        seen.contains(a) && #[trigger] has_edge(graph, a, b) && passable(graph, blocked, b)
            ==> seen.contains(b)
}

proof fn lemma_prefix_in_closed(
    graph: Seq<Option<Seq<Ptr>>>,
    blocked: Set<usize>,
    starts: Set<usize>,
    seen: Set<usize>,
    path: Seq<usize>,
    k: int,
)
    requires
        closed_under_edges(graph, blocked, starts, seen),
        is_path(graph, blocked, path),
        starts.contains(path[0]),
        0 <= k < path.len(),
    ensures
        seen.contains(path[k]),
    decreases k,
{
    if k == 0 {
        assert(passable(graph, blocked, path[0]));
    } else {
        lemma_prefix_in_closed(graph, blocked, starts, seen, path, k - 1);
        assert(has_edge(graph, path[k - 1], path[k - 1 + 1]));
        assert(passable(graph, blocked, path[k]));
    }
}

/// A set that is closed under edges holds every connected node.
pub proof fn lemma_closed_holds_connected(
    graph: Seq<Option<Seq<Ptr>>>,
    blocked: Set<usize>,
    starts: Set<usize>,
    seen: Set<usize>,
    target: usize,
)
    requires
        closed_under_edges(graph, blocked, starts, seen),
        connected(graph, blocked, starts, target),
    ensures
        seen.contains(target),
{
    let path = choose|path: Seq<usize>| connects(graph, blocked, starts, path, target);
    lemma_prefix_in_closed(graph, blocked, starts, seen, path, path.len() - 1);
}

/// What a traversal has established part of the way: `seen` are the nodes
/// it has entered, `pending` the references it has still to follow.
///
/// Every entered node is connected, and so is every pending one that is
/// passable; every passable start, and every passable node that an entered
/// node refers to, is entered or pending.
pub open spec fn frontier(
    graph: Seq<Option<Seq<Ptr>>>,
    blocked: Set<usize>,
    starts: Set<usize>,
    seen: Set<usize>,
    pending: Seq<Ptr>,
) -> bool {
    &&& forall|n: usize| seen.contains(n) ==> connected(graph, blocked, starts, n)
    &&& forall|k: int|
        0 <= k < pending.len() && passable(graph, blocked, (#[trigger] pending[k]).0)
            ==> connected(graph, blocked, starts, pending[k].0)
    &&& forall|s: usize|
        starts.contains(s) && passable(graph, blocked, s) ==> seen.contains(s)
            || pending.contains(Ptr(s))
    &&& forall|a: usize, b: usize|
        seen.contains(a) && #[trigger] has_edge(graph, a, b) && passable(graph, blocked, b)
            ==> seen.contains(b) || pending.contains(Ptr(b))
}

/// A pending reference other than the last one is still pending when the
/// last one has been taken.
proof fn lemma_still_pending(pending: Seq<Ptr>, node: usize)
    requires
        pending.len() > 0,
        pending.contains(Ptr(node)),
        pending.last().0 != node,
    ensures
        pending.drop_last().contains(Ptr(node)),
{
    let i = choose|i: int| 0 <= i < pending.len() && pending[i] == Ptr(node);
    assert(i != pending.len() - 1);
    assert(pending.drop_last()[i] == Ptr(node));
}

/// Taking a pending reference that leads nowhere new keeps the frontier.
pub(crate) proof fn lemma_frontier_skip(
    graph: Seq<Option<Seq<Ptr>>>,
    blocked: Set<usize>,
    starts: Set<usize>,
    seen: Set<usize>,
    pending: Seq<Ptr>,
)
    requires
        frontier(graph, blocked, starts, seen, pending),
        pending.len() > 0,
        !passable(graph, blocked, pending.last().0) || seen.contains(pending.last().0),
    ensures
        frontier(graph, blocked, starts, seen, pending.drop_last()),
{
    let rest = pending.drop_last();
    assert forall|k: int|
        0 <= k < rest.len() && passable(graph, blocked, (#[trigger] rest[k]).0) implies connected(
        graph,
        blocked,
        starts,
        rest[k].0,
    ) by {
        assert(rest[k] == pending[k]);
    }
    assert forall|s: usize| starts.contains(s) && passable(graph, blocked, s) implies seen.contains(
        s,
    ) || rest.contains(Ptr(s)) by {
        if !seen.contains(s) {
            lemma_still_pending(pending, s);
        }
    }
    assert forall|a: usize, b: usize|
        seen.contains(a) && #[trigger] has_edge(graph, a, b) && passable(
            graph,
            blocked,
            b,
        ) implies seen.contains(b) || rest.contains(Ptr(b)) by {
        if !seen.contains(b) {
            lemma_still_pending(pending, b);
        }
    }
}

/// Entering the node of the last pending reference, and making the
/// references that it holds pending in its place, keeps the frontier.
pub(crate) proof fn lemma_frontier_visit(
    graph: Seq<Option<Seq<Ptr>>>,
    blocked: Set<usize>,
    starts: Set<usize>,
    seen: Set<usize>,
    pending: Seq<Ptr>,
)
    requires
        frontier(graph, blocked, starts, seen, pending),
        pending.len() > 0,
        passable(graph, blocked, pending.last().0),
        !seen.contains(pending.last().0),
    ensures
        frontier(
            graph,
            blocked,
            starts,
            seen.insert(pending.last().0),
            pending.drop_last() + graph[pending.last().0 as int].unwrap(),
        ),
{
    let node = pending.last().0;
    let edges = graph[node as int].unwrap();
    let rest = pending.drop_last();
    let next = rest + edges;
    let entered = seen.insert(node);
    assert(connected(graph, blocked, starts, node)) by {
        assert(passable(graph, blocked, pending[pending.len() - 1].0));
    }
    assert forall|k: int|
        0 <= k < next.len() && passable(graph, blocked, (#[trigger] next[k]).0) implies connected(
        graph,
        blocked,
        starts,
        next[k].0,
    ) by {
        if k < rest.len() {
            assert(next[k] == pending[k]);
        } else {
            let j = k - rest.len();
            assert(next[k] == edges[j]);
            assert(Ptr(edges[j].0) == edges[j]);
            assert(edges.contains(Ptr(next[k].0)));
            assert(has_edge(graph, node, next[k].0));
            lemma_edge_connected(graph, blocked, starts, node, next[k].0);
        }
    }
    assert forall|s: usize|
        starts.contains(s) && passable(graph, blocked, s) implies entered.contains(s)
        || next.contains(Ptr(s)) by {
        if !entered.contains(s) {
            lemma_still_pending(pending, s);
            let i = choose|i: int| 0 <= i < rest.len() && rest[i] == Ptr(s);
            assert(next[i] == Ptr(s));
        }
    }
    assert forall|a: usize, b: usize|
        entered.contains(a) && #[trigger] has_edge(graph, a, b) && passable(
            graph,
            blocked,
            b,
        ) implies entered.contains(b) || next.contains(Ptr(b)) by {
        if !entered.contains(b) {
            if a == node {
                let j = choose|j: int| 0 <= j < edges.len() && edges[j] == Ptr(b);
                assert(next[rest.len() + j] == Ptr(b));
            } else {
                lemma_still_pending(pending, b);
                let i = choose|i: int| 0 <= i < rest.len() && rest[i] == Ptr(b);
                assert(next[i] == Ptr(b));
            }
        }
    }
}

/// When nothing is pending, the entered nodes are exactly the connected
/// ones.
pub(crate) proof fn lemma_frontier_done(
    graph: Seq<Option<Seq<Ptr>>>,
    blocked: Set<usize>,
    starts: Set<usize>,
    seen: Set<usize>,
    pending: Seq<Ptr>,
)
    requires
        frontier(graph, blocked, starts, seen, pending),
        pending.len() == 0,
    ensures
        forall|n: usize| seen.contains(n) <==> connected(graph, blocked, starts, n),
{
    assert(closed_under_edges(graph, blocked, starts, seen));
    assert forall|n: usize| connected(graph, blocked, starts, n) implies seen.contains(n) by {
        lemma_closed_holds_connected(graph, blocked, starts, seen, n);
    }
}

/// How many entries of `flags` are set.
pub open spec fn tally(flags: Seq<bool>) -> nat
    decreases flags.len(),
{
    if flags.len() == 0 {
        0
    } else {
        tally(flags.drop_last()) + if flags.last() {
            1nat
        } else {
            0nat
        }
    }
}

/// Clearing a set entry makes the tally one less.
pub(crate) proof fn lemma_tally_clear(flags: Seq<bool>, i: int)
    requires
        0 <= i < flags.len(),
        flags[i],
    ensures
        tally(flags.update(i, false)) + 1 == tally(flags),
    decreases flags.len(),
{
    let cleared = flags.update(i, false);
    if i == flags.len() - 1 {
        assert(cleared.drop_last() == flags.drop_last());
    } else {
        lemma_tally_clear(flags.drop_last(), i);
        assert(cleared.drop_last() == flags.drop_last().update(i, false));
    }
}

} // verus!
