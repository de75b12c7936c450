//! What holds of the algorithms on every graph.

use crate::assoc::{has_key, key_index, keys_of, value_of};
use crate::config::{emit_edges, emit_inputs, emit_node, follows_decls, DeclView};
use crate::model::{
    follow, hop, idle, lemma_idle_push, resolve, resolve_edge, EdgeView, GraphError, GraphView,
    Hop, NodeView,
};
use crate::visits::{bump, count_from, lemma_unvisited_push, unvisited, visit, zero_tally};
use vstd::prelude::*;

verus! {

/// An indexed edge leads to the node that it names, exactly where the graph
/// has that node.
pub proof fn lemma_resolve_indexed(g: GraphView, id: Seq<char>)
    ensures
        has_key(g.nodes, id) ==> resolve_edge(g, EdgeView::Indexed(id)) == Ok::<
            Seq<char>,
            GraphError,
        >(id),
        !has_key(g.nodes, id) ==> resolve_edge(g, EdgeView::Indexed(id)) == Err::<
            Seq<char>,
            GraphError,
        >(GraphError::DanglingReference),
{
}

/// In a well-formed graph an edge that resolves leads to a node of the
/// graph.
pub proof fn lemma_resolve_exists(g: GraphView, e: EdgeView, busy: Seq<Hop>)
    requires
        g.wf(),
        resolve(g, e, busy) is Ok,
    ensures
        has_key(g.nodes, resolve(g, e, busy)->Ok_0),
    decreases idle(g, busy), 1nat, 0nat,
{
    match e {
        EdgeView::Indexed(_) => {},
        EdgeView::Follows(path) => {
            lemma_follow_exists(g, g.root, path, 0, busy);
        },
    }
}

proof fn lemma_follow_exists(
    g: GraphView,
    cur: Seq<char>,
    path: Seq<Seq<char>>,
    from: int,
    busy: Seq<Hop>,
)
    requires
        g.wf(),
        has_key(g.nodes, cur),
        follow(g, cur, path, from, busy) is Ok,
    ensures
        has_key(g.nodes, follow(g, cur, path, from, busy)->Ok_0),
    decreases idle(g, busy), 0nat, path.len() - from,
{
    if 0 <= from < path.len() {
        let name = path[from];
        let next = hop(g, cur, name, busy)->Ok_0;
        lemma_idle_push(g, busy, cur, name);
        lemma_resolve_exists(g, value_of(g.node(cur), name), busy.push((cur, name)));
        lemma_follow_exists(g, next, path, from + 1, busy);
    }
}

/// Walking a path that is one name longer is walking the path and then
/// taking one hop more.
proof fn lemma_follow_push(
    g: GraphView,
    cur: Seq<char>,
    path: Seq<Seq<char>>,
    name: Seq<char>,
    from: int,
    busy: Seq<Hop>,
)
    requires
        0 <= from <= path.len(),
    ensures
        follow(g, cur, path.push(name), from, busy) == match follow(g, cur, path, from, busy) {
            Ok(mid) => hop(g, mid, name, busy),
            Err(e) => Err(e),
        },
    decreases path.len() - from,
{
    let longer = path.push(name);
    if from < path.len() {
        assert(longer[from] == path[from]);
        match hop(g, cur, path[from], busy) {
            Ok(next) => {
                lemma_follow_push(g, next, path, name, from + 1, busy);
            },
            Err(_) => {},
        }
    } else {
        assert(longer[from] == name);
        match hop(g, cur, name, busy) {
            Ok(next) => {
                assert(follow(g, next, longer, from + 1, busy) == Ok::<Seq<char>, GraphError>(
                    next,
                ));
            },
            Err(_) => {},
        }
    }
}

/// A follows-path that is one name longer leads to where the path leads and
/// then one hop further: the node that the input `name` of the node reached
/// leads to. So the path `[a, b]` leads to where `b` leads from the node that
/// `a` leads to from the root.
pub proof fn lemma_resolve_follows_push(g: GraphView, path: Seq<Seq<char>>, name: Seq<char>)
    ensures
        resolve_edge(g, EdgeView::Follows(path.push(name))) == match resolve_edge(
            g,
            EdgeView::Follows(path),
        ) {
            Ok(mid) => hop(g, mid, name, Seq::empty()),
            Err(e) => Err(e),
        },
        resolve_edge(g, EdgeView::Follows(Seq::empty())) == Ok::<Seq<char>, GraphError>(g.root),
{
    lemma_follow_push(g, g.root, path, name, 0, Seq::empty());
}

/// A tally has an entry for every node of the graph, in the graph's order,
/// and the node that the walk began at was counted at least once.
pub proof fn lemma_tally_total(g: GraphView, start: Seq<char>)
    requires
        g.wf(),
        count_from(g, start) is Ok,
    ensures
        keys_of(count_from(g, start)->Ok_0) == keys_of(g.nodes),
        has_key(count_from(g, start)->Ok_0, start),
        value_of(count_from(g, start)->Ok_0, start) >= 1,
{
    let t = count_from(g, start)->Ok_0;
    let steps = visit(g, start, Seq::empty())->Ok_0;
    assert(t == bump(zero_tally(g), steps));
    assert(keys_of(t) =~= keys_of(g.nodes));
    assert(steps.count(start) >= 1);
    crate::assoc::lemma_keys_agree(g.nodes, t);
    let i = key_index(g.nodes, start);
    assert(key_index(t, start) == i);
    assert(t[i].1 >= 1);
}

/// Every declaration passed as many nodes as input names, and no node twice.
pub open spec fn on_simple_paths(decls: Seq<DeclView>) -> bool {
    forall|i: int|
        0 <= i < decls.len() ==> (#[trigger] decls[i]).nodes.no_duplicates() && decls[i].nodes.len()
            == decls[i].inputs.len()
}

proof fn lemma_emit_node_simple(
    g: GraphView,
    root: NodeView,
    id: Seq<char>,
    inputs: Seq<Seq<char>>,
    visited: Seq<Seq<char>>,
)
    requires
        visited.no_duplicates(),
        inputs.len() == visited.len(),
        emit_node(g, root, id, inputs, visited) is Ok,
    ensures
        on_simple_paths(emit_node(g, root, id, inputs, visited)->Ok_0),
    decreases unvisited(g, visited), 1nat, 0nat,
{
    lemma_emit_edges_simple(g, root, g.node(id), 0, inputs, visited);
}

proof fn lemma_emit_edges_simple(
    g: GraphView,
    root: NodeView,
    edges: NodeView,
    from: int,
    inputs: Seq<Seq<char>>,
    visited: Seq<Seq<char>>,
)
    requires
        visited.no_duplicates(),
        inputs.len() == visited.len(),
        emit_edges(g, root, edges, from, inputs, visited) is Ok,
    ensures
        on_simple_paths(emit_edges(g, root, edges, from, inputs, visited)->Ok_0),
    decreases unvisited(g, visited), 0nat, edges.len() - from,
{
    if 0 <= from < edges.len() {
        let name = edges[from].0;
        if !has_key(root, name) {
            let child = resolve_edge(g, edges[from].1)->Ok_0;
            if !visited.contains(child) {
                lemma_unvisited_push(g, visited, child);
                lemma_emit_node_simple(g, root, child, inputs.push(name), visited.push(child));
            }
        }
        lemma_emit_edges_simple(g, root, edges, from + 1, inputs, visited);
    }
}

proof fn lemma_emit_inputs_simple(g: GraphView, root: NodeView, from: int)
    requires
        emit_inputs(g, root, from) is Ok,
    ensures
        on_simple_paths(emit_inputs(g, root, from)->Ok_0),
    decreases root.len() - from,
{
    if 0 <= from < root.len() {
        match root[from].1 {
            EdgeView::Indexed(id) => {
                lemma_emit_node_simple(g, root, id, seq![root[from].0], seq![id]);
            },
            EdgeView::Follows(_) => {},
        }
        lemma_emit_inputs_simple(g, root, from + 1);
    }
}

/// The declarations of a graph lie on simple paths: on the way to a
/// declaration no node is passed twice, whatever cycles the graph has.
pub proof fn lemma_follows_decls_simple(g: GraphView)
    requires
        follows_decls(g) is Ok,
    ensures
        on_simple_paths(follows_decls(g)->Ok_0),
{
    lemma_emit_inputs_simple(g, g.root_node(), 0);
}

} // verus!
