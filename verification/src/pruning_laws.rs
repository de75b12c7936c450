//! What holds of a pruned graph: it is well-formed, nothing in it is an
//! orphan, and pruning or substituting again changes nothing.

use crate::assoc::{
    distinct_keys, has_key, key_index, keys_of, lemma_filter_assoc, lemma_key_at, value_of,
};
use crate::follows::{
    dangling_input, is_input, lemma_rewrite_idempotent, replacement, rewrite, substituted,
};
use crate::model::{
    follow, hop, idle, lemma_idle_push, resolve, resolve_edge, EdgeView, GraphError, GraphView,
    Hop, NodeView,
};
use crate::prune::{pruned, reached};
use crate::visits::{
    bump, count_from, lemma_unvisited_push, unvisited, visit, visit_edges, zero_tally,
};
use vstd::multiset::Multiset;
use vstd::prelude::*;

verus! {

/// Whatever `fewer` holds, `busy` holds too.
spec fn among(fewer: Seq<Hop>, busy: Seq<Hop>) -> bool {
    forall|h: Hop| fewer.contains(h) ==> busy.contains(h)
}

proof fn lemma_among_push(fewer: Seq<Hop>, busy: Seq<Hop>, h: Hop)
    requires
        among(fewer, busy),
    ensures
        among(fewer.push(h), busy.push(h)),
{
    assert forall|x: Hop| fewer.push(h).contains(x) implies busy.push(h).contains(x) by {
        let j = choose|j: int| 0 <= j < fewer.push(h).len() && fewer.push(h)[j] == x;
        if j < fewer.len() {
            assert(fewer[j] == x);
            assert(fewer.contains(x));
            assert(busy.contains(x));
            let m = choose|m: int| 0 <= m < busy.len() && busy[m] == x;
            assert(busy.push(h)[m] == x);
        } else {
            assert(busy.push(h)[busy.len() as int] == x);
        }
    }
}

/// A resolution that succeeds succeeds alike while fewer inputs are busy.
proof fn lemma_resolve_freer(g: GraphView, e: EdgeView, busy: Seq<Hop>, fewer: Seq<Hop>)
    requires
        resolve(g, e, busy) is Ok,
        among(fewer, busy),
    ensures
        resolve(g, e, fewer) == resolve(g, e, busy),
    decreases idle(g, busy), 1nat, 0nat,
{
    match e {
        EdgeView::Indexed(_) => {},
        EdgeView::Follows(path) => {
            lemma_follow_freer(g, g.root, path, 0, busy, fewer);
        },
    }
}

proof fn lemma_follow_freer(
    g: GraphView,
    cur: Seq<char>,
    path: Seq<Seq<char>>,
    from: int,
    busy: Seq<Hop>,
    fewer: Seq<Hop>,
)
    requires
        follow(g, cur, path, from, busy) is Ok,
        among(fewer, busy),
    ensures
        follow(g, cur, path, from, fewer) == follow(g, cur, path, from, busy),
    decreases idle(g, busy), 0nat, path.len() - from,
{
    if 0 <= from < path.len() {
        let name = path[from];
        let next = hop(g, cur, name, busy)->Ok_0;
        lemma_idle_push(g, busy, cur, name);
        lemma_among_push(fewer, busy, (cur, name));
        lemma_resolve_freer(
            g,
            value_of(g.node(cur), name),
            busy.push((cur, name)),
            fewer.push((cur, name)),
        );
        assert(hop(g, cur, name, fewer) == hop(g, cur, name, busy));
        lemma_follow_freer(g, next, path, from + 1, busy, fewer);
    }
}

/// Every edge of `edges[from..]` leads to a node that `steps` holds.
spec fn lead_into(
    g: GraphView,
    edges: NodeView,
    from: int,
    steps: Multiset<Seq<char>>,
) -> bool {
    forall|k: int|
        from <= k < edges.len() && 0 <= k ==> resolve_edge(g, (#[trigger] edges[k]).1) is Ok
            && steps.count(resolve_edge(g, edges[k].1)->Ok_0) > 0
}

/// `steps` holds nodes of the graph only, and with a node every node that
/// its edges lead to.
spec fn closed(g: GraphView, steps: Multiset<Seq<char>>) -> bool {
    forall|x: Seq<char>|
        #![trigger steps.count(x)]
        steps.count(x) > 0 ==> has_key(g.nodes, x) && lead_into(g, g.node(x), 0, steps)
}

/// Whatever `part` holds, `whole` holds too.
spec fn within(part: Multiset<Seq<char>>, whole: Multiset<Seq<char>>) -> bool {
    forall|x: Seq<char>| #![trigger part.count(x)] part.count(x) > 0 ==> whole.count(x) > 0
}

proof fn lemma_closed_add(g: GraphView, a: Multiset<Seq<char>>, b: Multiset<Seq<char>>)
    requires
        closed(g, a),
        closed(g, b),
    ensures
        closed(g, a.add(b)),
        within(a, a.add(b)),
        within(b, a.add(b)),
{
    let s = a.add(b);
    assert forall|x: Seq<char>| #![trigger s.count(x)] s.count(x) > 0 implies has_key(g.nodes, x)
        && lead_into(g, g.node(x), 0, s) by {
        let edges = g.node(x);
        if a.count(x) > 0 {
            assert(lead_into(g, edges, 0, a));
            assert forall|k: int| 0 <= k < edges.len() implies resolve_edge(
                g,
                (#[trigger] edges[k]).1,
            ) is Ok && s.count(resolve_edge(g, edges[k].1)->Ok_0) > 0 by {
                assert(a.count(resolve_edge(g, edges[k].1)->Ok_0) > 0);
            }
        } else {
            assert(b.count(x) > 0);
            assert(lead_into(g, edges, 0, b));
            assert forall|k: int| 0 <= k < edges.len() implies resolve_edge(
                g,
                (#[trigger] edges[k]).1,
            ) is Ok && s.count(resolve_edge(g, edges[k].1)->Ok_0) > 0 by {
                assert(b.count(resolve_edge(g, edges[k].1)->Ok_0) > 0);
            }
        }
    }
}

/// What a walk steps on is closed, and holds the node it began at.
proof fn lemma_visit_closed(g: GraphView, id: Seq<char>, visited: Seq<Seq<char>>)
    requires
        visit(g, id, visited) is Ok,
    ensures
        closed(g, visit(g, id, visited)->Ok_0),
        visit(g, id, visited)->Ok_0.count(id) > 0,
        has_key(g.nodes, id),
    decreases unvisited(g, visited), 0nat, 0nat,
{
    lemma_unvisited_push(g, visited, id);
    let edges = g.node(id);
    let below = visit_edges(g, edges, 0, visited.push(id))->Ok_0;
    lemma_visit_edges_closed(g, edges, 0, visited.push(id));
    let s = below.insert(id);
    assert forall|x: Seq<char>| #![trigger s.count(x)] s.count(x) > 0 implies has_key(g.nodes, x)
        && lead_into(g, g.node(x), 0, s) by {
        let ex = g.node(x);
        if below.count(x) > 0 {
            assert(lead_into(g, ex, 0, below));
            assert forall|k: int| 0 <= k < ex.len() implies resolve_edge(g, (#[trigger] ex[k]).1) is Ok
                && s.count(resolve_edge(g, ex[k].1)->Ok_0) > 0 by {
                assert(below.count(resolve_edge(g, ex[k].1)->Ok_0) > 0);
            }
        } else {
            assert(x == id);
            assert forall|k: int| 0 <= k < ex.len() implies resolve_edge(g, (#[trigger] ex[k]).1) is Ok
                && s.count(resolve_edge(g, ex[k].1)->Ok_0) > 0 by {
                assert(below.count(resolve_edge(g, ex[k].1)->Ok_0) > 0);
            }
        }
    }
}

proof fn lemma_visit_edges_closed(
    g: GraphView,
    edges: NodeView,
    from: int,
    visited: Seq<Seq<char>>,
)
    requires
        0 <= from,
        visit_edges(g, edges, from, visited) is Ok,
    ensures
        closed(g, visit_edges(g, edges, from, visited)->Ok_0),
        lead_into(g, edges, from, visit_edges(g, edges, from, visited)->Ok_0),
        forall|k: int|
            from <= k < edges.len() ==> visit(
                g,
                resolve_edge(g, (#[trigger] edges[k]).1)->Ok_0,
                visited,
            ) is Ok,
    decreases unvisited(g, visited), 1nat, edges.len() - from,
{
    if from < edges.len() {
        let next = resolve_edge(g, edges[from].1)->Ok_0;
        let first = visit(g, next, visited)->Ok_0;
        let rest = visit_edges(g, edges, from + 1, visited)->Ok_0;
        lemma_visit_closed(g, next, visited);
        lemma_visit_edges_closed(g, edges, from + 1, visited);
        lemma_closed_add(g, first, rest);
        let s = first.add(rest);
        assert forall|k: int| from <= k < edges.len() implies resolve_edge(
            g,
            (#[trigger] edges[k]).1,
        ) is Ok && s.count(resolve_edge(g, edges[k].1)->Ok_0) > 0 by {
            if k > from {
                assert(rest.count(resolve_edge(g, edges[k].1)->Ok_0) > 0);
            }
        }
    } else {
        let s = Multiset::<Seq<char>>::empty();
        assert forall|x: Seq<char>| #![trigger s.count(x)] s.count(x) > 0 implies has_key(
            g.nodes,
            x,
        ) && lead_into(g, g.node(x), 0, s) by {}
    }
}

/// `h` is `g` cut down to the nodes that `steps` holds, where `steps` is
/// closed and holds the root.
spec fn cut_to(g: GraphView, h: GraphView, steps: Multiset<Seq<char>>) -> bool {
    &&& g.wf()
    &&& closed(g, steps)
    &&& steps.count(g.root) > 0
    &&& h == GraphView { nodes: g.nodes.filter(reached(steps)), ..g }
}

/// In the cut graph the nodes kept are there as they were.
proof fn lemma_cut_nodes(g: GraphView, h: GraphView, steps: Multiset<Seq<char>>)
    requires
        cut_to(g, h, steps),
    ensures
        h.wf(),
        forall|x: Seq<char>|
            #![trigger steps.count(x)]
            steps.count(x) > 0 ==> has_key(h.nodes, x) && h.node(x) == g.node(x),
        forall|x: Seq<char>|
            #![trigger has_key(h.nodes, x)]
            has_key(h.nodes, x) ==> steps.count(x) > 0 && has_key(g.nodes, x),
{
    let p = reached(steps);
    lemma_filter_assoc(g.nodes, p);
    assert forall|x: Seq<char>| #![trigger steps.count(x)] steps.count(x) > 0 implies has_key(
        h.nodes,
        x,
    ) && h.node(x) == g.node(x) by {
        let i = key_index(g.nodes, x);
        assert(g.nodes[i].0 == x);
        assert(p(g.nodes[i]));
    }
    assert forall|x: Seq<char>| #![trigger has_key(h.nodes, x)] has_key(h.nodes, x) implies steps.count(
        x,
    ) > 0 && has_key(g.nodes, x) by {
        let j = key_index(h.nodes, x);
        assert(h.nodes[j].0 == x);
        assert(p(h.nodes[j]));
    }
    assert forall|j: int| 0 <= j < h.nodes.len() implies distinct_keys((#[trigger] h.nodes[j]).1) by {
        let x = h.nodes[j].0;
        let i = key_index(g.nodes, x);
        assert(g.nodes[i].0 == x);
        assert(value_of(g.nodes, x) == h.nodes[j].1);
        assert(distinct_keys(g.nodes[i].1));
    }
}

/// An edge that leads to a node kept leads there in the cut graph too.
proof fn lemma_resolve_cut(
    g: GraphView,
    h: GraphView,
    steps: Multiset<Seq<char>>,
    e: EdgeView,
    busy: Seq<Hop>,
)
    requires
        cut_to(g, h, steps),
        resolve(g, e, busy) is Ok,
        steps.count(resolve(g, e, busy)->Ok_0) > 0,
    ensures
        resolve(h, e, busy) == resolve(g, e, busy),
    decreases idle(g, busy), 1nat, 0nat,
{
    lemma_cut_nodes(g, h, steps);
    match e {
        EdgeView::Indexed(id) => {},
        EdgeView::Follows(path) => {
            lemma_follow_cut(g, h, steps, g.root, path, 0, busy);
        },
    }
}

proof fn lemma_follow_cut(
    g: GraphView,
    h: GraphView,
    steps: Multiset<Seq<char>>,
    cur: Seq<char>,
    path: Seq<Seq<char>>,
    from: int,
    busy: Seq<Hop>,
)
    requires
        cut_to(g, h, steps),
        steps.count(cur) > 0,
        follow(g, cur, path, from, busy) is Ok,
    ensures
        follow(h, cur, path, from, busy) == follow(g, cur, path, from, busy),
        steps.count(follow(g, cur, path, from, busy)->Ok_0) > 0,
    decreases idle(g, busy), 0nat, path.len() - from,
{
    lemma_cut_nodes(g, h, steps);
    if 0 <= from < path.len() {
        let name = path[from];
        let next = hop(g, cur, name, busy)->Ok_0;
        let edges = g.node(cur);
        let k = key_index(edges, name);
        let edge = value_of(edges, name);
        let deeper = busy.push((cur, name));
        assert(edges[k].1 == edge);
        assert(lead_into(g, edges, 0, steps));
        assert(resolve_edge(g, edges[k].1) is Ok);
        lemma_idle_push(g, busy, cur, name);
        lemma_resolve_freer(g, edge, deeper, Seq::empty());
        assert(steps.count(next) > 0);
        lemma_resolve_cut(g, h, steps, edge, deeper);
        assert(hop(h, cur, name, busy) == hop(g, cur, name, busy));
        lemma_follow_cut(g, h, steps, next, path, from + 1, busy);
    }
}

/// A walk that stays within the nodes kept goes the same way in the cut
/// graph.
proof fn lemma_visit_cut(
    g: GraphView,
    h: GraphView,
    steps: Multiset<Seq<char>>,
    id: Seq<char>,
    visited: Seq<Seq<char>>,
)
    requires
        cut_to(g, h, steps),
        visit(g, id, visited) is Ok,
        within(visit(g, id, visited)->Ok_0, steps),
    ensures
        visit(h, id, visited) == visit(g, id, visited),
    decreases unvisited(g, visited), 0nat, 0nat,
{
    lemma_cut_nodes(g, h, steps);
    lemma_unvisited_push(g, visited, id);
    let edges = g.node(id);
    let below = visit_edges(g, edges, 0, visited.push(id))->Ok_0;
    let s = below.insert(id);
    assert(s.count(id) > 0);
    assert(steps.count(id) > 0);
    assert forall|x: Seq<char>| #![trigger below.count(x)] below.count(x) > 0 implies steps.count(
        x,
    ) > 0 by {
        assert(s.count(x) > 0);
    }
    lemma_visit_edges_cut(g, h, steps, edges, 0, visited.push(id));
}

proof fn lemma_visit_edges_cut(
    g: GraphView,
    h: GraphView,
    steps: Multiset<Seq<char>>,
    edges: NodeView,
    from: int,
    visited: Seq<Seq<char>>,
)
    requires
        cut_to(g, h, steps),
        0 <= from,
        visit_edges(g, edges, from, visited) is Ok,
        within(visit_edges(g, edges, from, visited)->Ok_0, steps),
    ensures
        visit_edges(h, edges, from, visited) == visit_edges(g, edges, from, visited),
    decreases unvisited(g, visited), 1nat, edges.len() - from,
{
    if from < edges.len() {
        let next = resolve_edge(g, edges[from].1)->Ok_0;
        let first = visit(g, next, visited)->Ok_0;
        let rest = visit_edges(g, edges, from + 1, visited)->Ok_0;
        let s = first.add(rest);
        lemma_visit_closed(g, next, visited);
        assert(s.count(next) > 0);
        assert(steps.count(next) > 0);
        lemma_resolve_cut(g, h, steps, edges[from].1, Seq::empty());
        assert forall|x: Seq<char>| #![trigger first.count(x)] first.count(x) > 0 implies steps.count(
            x,
        ) > 0 by {
            assert(s.count(x) > 0);
        }
        assert forall|x: Seq<char>| #![trigger rest.count(x)] rest.count(x) > 0 implies steps.count(
            x,
        ) > 0 by {
            assert(s.count(x) > 0);
        }
        lemma_visit_cut(g, h, steps, next, visited);
        lemma_visit_edges_cut(g, h, steps, edges, from + 1, visited);
    }
}

/// Pruning leaves a well-formed graph, of which the root is a node, in which
/// every node is as it was, was reached by the walk that the pruning went by
/// and is reached as often by the walk from the root anew: no node of it is
/// an orphan, and pruning it again changes nothing.
pub proof fn lemma_pruned_graph(g: GraphView)
    requires
        g.wf(),
        pruned(g) is Ok,
    ensures
        pruned(g)->Ok_0.wf(),
        has_key(pruned(g)->Ok_0.nodes, g.root),
        visit(pruned(g)->Ok_0, g.root, Seq::empty()) == visit(g, g.root, Seq::empty()),
        forall|i: int|
            0 <= i < pruned(g)->Ok_0.nodes.len() ==> visit(g, g.root, Seq::empty())->Ok_0.count(
                (#[trigger] pruned(g)->Ok_0.nodes[i]).0,
            ) > 0,
        forall|x: Seq<char>|
            #![trigger has_key(pruned(g)->Ok_0.nodes, x)]
            has_key(pruned(g)->Ok_0.nodes, x) ==> has_key(g.nodes, x) && pruned(g)->Ok_0.node(x)
                == g.node(x),
        count_from(pruned(g)->Ok_0, g.root) is Ok,
        forall|i: int|
            0 <= i < pruned(g)->Ok_0.nodes.len() ==> (#[trigger] count_from(
                pruned(g)->Ok_0,
                g.root,
            )->Ok_0[i]).1 >= 1,
        pruned(pruned(g)->Ok_0) == pruned(g),
{
    let h = pruned(g)->Ok_0;
    let steps = visit(g, g.root, Seq::empty())->Ok_0;
    let p = reached(steps);
    lemma_visit_closed(g, g.root, Seq::empty());
    assert(cut_to(g, h, steps));
    lemma_cut_nodes(g, h, steps);
    lemma_visit_cut(g, h, steps, g.root, Seq::empty());
    lemma_filter_assoc(g.nodes, p);
    assert forall|i: int| 0 <= i < h.nodes.len() implies steps.count((#[trigger] h.nodes[i]).0)
        > 0 by {
        assert(p(h.nodes[i]));
    }
    let t = count_from(h, g.root)->Ok_0;
    assert(t == bump(zero_tally(h), steps));
    assert forall|i: int| 0 <= i < h.nodes.len() implies (#[trigger] t[i]).1 >= 1 by {
        assert(steps.count(h.nodes[i].0) > 0);
    }
    lemma_filter_all(h.nodes, p);
}

/// Filtering by a test that every element passes changes nothing.
proof fn lemma_filter_all<A>(s: Seq<A>, p: spec_fn(A) -> bool)
    requires
        forall|i: int| 0 <= i < s.len() ==> p(#[trigger] s[i]),
    ensures
        s.filter(p) == s,
    decreases s.len(),
{
    reveal(Seq::filter);
    if s.len() > 0 {
        lemma_filter_all(s.drop_last(), p);
        assert(s.drop_last().push(s.last()) =~= s);
    }
}

/// Substitution and pruning, one after the other: the substitution's
/// failure, or the pruning's, or the graph that both leave.
pub open spec fn redirected_and_pruned(g: GraphView, indexed: bool) -> Result<
    GraphView,
    GraphError,
> {
    if dangling_input(g) {
        Err(GraphError::DanglingReference)
    } else {
        pruned(substituted(g, indexed))
    }
}

/// Substitution keeps a graph well-formed: the nodes keep their identifiers
/// and their inputs keep their names.
pub proof fn lemma_substituted_wf(g: GraphView, indexed: bool)
    requires
        g.wf(),
    ensures
        substituted(g, indexed).wf(),
        keys_of(substituted(g, indexed).nodes) == keys_of(g.nodes),
        forall|x: Seq<char>|
            #![trigger has_key(g.nodes, x)]
            has_key(g.nodes, x) ==> has_key(substituted(g, indexed).nodes, x) && substituted(
                g,
                indexed,
            ).node(x) == (if is_input(g, x) {
                rewrite(g.node(x), g.root_node(), indexed)
            } else {
                g.node(x)
            }),
{
    let h = substituted(g, indexed);
    let r = g.root_node();
    crate::assoc::lemma_keys_agree(g.nodes, h.nodes);
    assert(keys_of(h.nodes) =~= keys_of(g.nodes));
    assert forall|i: int| 0 <= i < h.nodes.len() implies distinct_keys((#[trigger] h.nodes[i]).1) by {
        assert(distinct_keys(g.nodes[i].1));
        crate::assoc::lemma_keys_agree(g.nodes[i].1, rewrite(g.nodes[i].1, r, indexed));
    }
    assert forall|x: Seq<char>| #![trigger has_key(g.nodes, x)] has_key(g.nodes, x) implies has_key(
        h.nodes,
        x,
    ) && h.node(x) == (if is_input(g, x) {
        rewrite(g.node(x), r, indexed)
    } else {
        g.node(x)
    }) by {
        let i = key_index(g.nodes, x);
        assert(g.nodes[i].0 == x);
        assert(key_index(h.nodes, x) == i);
    }
}

/// A follows-path of one name that the root's input of that name is itself
/// leads nowhere.
proof fn lemma_self_follow_fails(g: GraphView, name: Seq<char>)
    requires
        has_key(g.nodes, g.root),
        has_key(g.root_node(), name),
        value_of(g.root_node(), name) == EdgeView::Follows(seq![name]),
    ensures
        resolve_edge(g, EdgeView::Follows(seq![name])) is Err,
{
    let path = seq![name];
    let busy = Seq::<Hop>::empty().push((g.root, name));
    assert(path[0] == name);
    assert(busy[0] == (g.root, name));
    lemma_idle_push(g, Seq::empty(), g.root, name);
    assert(hop(g, g.root, name, busy) is Err);
    assert(resolve(g, EdgeView::Follows(path), busy) is Err);
    assert(hop(g, g.root, name, Seq::empty()) is Err);
}

/// Where the root is an input of its own, the walk over the graph after
/// substitution fails.
proof fn lemma_self_input_fails(g: GraphView, indexed: bool)
    requires
        g.wf(),
        is_input(g, g.root),
    ensures
        visit(substituted(g, indexed), g.root, Seq::empty()) is Err,
{
    let h = substituted(g, indexed);
    let r = g.root_node();
    let r0 = h.root_node();
    lemma_substituted_wf(g, indexed);
    assert(has_key(g.nodes, g.root));
    assert(r0 == rewrite(r, r, indexed));
    let j = choose|j: int|
        0 <= j < r.len() && j < r.len() && (#[trigger] r[j]).1 == EdgeView::Indexed(g.root);
    let name = r[j].0;
    let i = key_index(g.nodes, g.root);
    assert(g.nodes[i].0 == g.root);
    assert(distinct_keys(g.nodes[i].1));
    lemma_key_at(r, j);
    assert(r0[j] == (name, replacement(r, name, indexed)));
    crate::assoc::lemma_keys_agree(r, r0);
    lemma_key_at(r0, j);
    if visit(h, g.root, Seq::empty()) is Ok {
        let path = Seq::<Seq<char>>::empty().push(g.root);
        lemma_unvisited_push(h, Seq::empty(), g.root);
        lemma_visit_edges_closed(h, r0, 0, path);
        assert(resolve_edge(h, r0[j].1) is Ok);
        if indexed {
            assert(r0[j].1 == EdgeView::Indexed(g.root));
            assert(path[0] == g.root);
            assert(visit(h, g.root, path) is Err);
        } else {
            lemma_self_follow_fails(h, name);
        }
        assert(false);
    }
}

/// Substitution followed by pruning is idempotent: carried out on the graph
/// that they left, the two leave that graph.
pub proof fn lemma_substitute_prune_idempotent(g: GraphView, indexed: bool)
    requires
        g.wf(),
        redirected_and_pruned(g, indexed) is Ok,
    ensures
        redirected_and_pruned(g, indexed)->Ok_0.wf(),
        !dangling_input(redirected_and_pruned(g, indexed)->Ok_0),
        substituted(redirected_and_pruned(g, indexed)->Ok_0, indexed) == redirected_and_pruned(
            g,
            indexed,
        )->Ok_0,
        redirected_and_pruned(redirected_and_pruned(g, indexed)->Ok_0, indexed)
            == redirected_and_pruned(g, indexed),
{
    let g0 = substituted(g, indexed);
    let g1 = pruned(g0)->Ok_0;
    let r = g.root_node();
    let steps = visit(g0, g.root, Seq::empty())->Ok_0;
    lemma_substituted_wf(g, indexed);
    lemma_pruned_graph(g0);
    if is_input(g, g.root) {
        lemma_self_input_fails(g, indexed);
    }
    assert(has_key(g.nodes, g.root));
    assert(g0.root_node() == r);
    lemma_visit_closed(g0, g.root, Seq::empty());
    assert(cut_to(g0, g1, steps));
    lemma_cut_nodes(g0, g1, steps);
    assert(g1.root_node() == r);
    assert(lead_into(g0, r, 0, steps));
    assert(!dangling_input(g1)) by {
        assert forall|j: int| 0 <= j < r.len() && (#[trigger] r[j]).1 is Indexed implies has_key(
            g1.nodes,
            r[j].1->Indexed_0,
        ) by {
            let id = r[j].1->Indexed_0;
            assert(resolve_edge(g0, r[j].1) is Ok);
            assert(r[j].1 == EdgeView::Indexed(id));
            assert(steps.count(id) > 0);
        }
    }
    let g2 = substituted(g1, indexed);
    lemma_filter_assoc(g0.nodes, reached(steps));
    assert forall|i: int| 0 <= i < g1.nodes.len() implies #[trigger] g2.nodes[i] == g1.nodes[i] by {
        let id = g1.nodes[i].0;
        assert(has_key(g1.nodes, id));
        assert(value_of(g0.nodes, id) == g1.nodes[i].1);
        assert(has_key(g.nodes, id)) by {
            crate::assoc::lemma_keys_agree(g.nodes, g0.nodes);
        }
        if is_input(g, id) {
            lemma_rewrite_idempotent(g.node(id), r, indexed);
        }
    }
    assert(g2.nodes =~= g1.nodes);
}

} // verus!
