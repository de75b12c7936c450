//! The mathematical model of a lock graph, and what resolving an edge means.

use crate::assoc::{distinct_keys, has_key, key_index, value_of};
use crate::progress::{left, lemma_left_push};
use vstd::prelude::*;

verus! {

/// The oldest lock schema that is accepted.
pub const MIN_SUPPORTED_LOCK_VERSION: u32 = 7;

/// The newest lock schema that is accepted.
pub const MAX_SUPPORTED_LOCK_VERSION: u32 = 7;

/// Why a graph is refused or an algorithm on it gives up.
#[derive(Clone, Copy, Debug, PartialEq, Eq, Structural)]
pub enum GraphError {
    /// The schema version lies outside the supported range.
    SchemaVersionUnsupported,
    /// An indexed edge names a node that the graph does not have.
    DanglingReference,
    /// A follows-path names an input that the node reached so far lacks.
    UnresolvableFollowsPath,
    /// A follows-path is defined in terms of itself: resolving it comes back
    /// to an input whose edge is being resolved already.
    FollowsCycle,
    /// The walk came back to a node that it is still inside of.
    CyclicGraph,
}

/// An edge, as mathematics: a node identifier, or a path of input names that
/// is walked from the root.
pub enum EdgeView {
    Indexed(Seq<char>),
    Follows(Seq<Seq<char>>),
}

/// A node, as mathematics: its named edges, in order.
pub type NodeView = Seq<(Seq<char>, EdgeView)>;

/// A whole graph, as mathematics: the nodes by identifier, in order.
pub struct GraphView {
    pub nodes: Seq<(Seq<char>, NodeView)>,
    pub root: Seq<char>,
    pub version: u32,
}

impl GraphView {
    /// Identifiers are distinct, input names are distinct within each node,
    /// the root exists and the schema version is supported.
    pub open spec fn wf(self) -> bool {
        &&& distinct_keys(self.nodes)
        &&& forall|i: int| 0 <= i < self.nodes.len() ==> distinct_keys((#[trigger] self.nodes[i]).1)
        &&& has_key(self.nodes, self.root)
        &&& MIN_SUPPORTED_LOCK_VERSION <= self.version <= MAX_SUPPORTED_LOCK_VERSION
    }

    /// The edges of the node `id`; meaningful only where the graph has `id`.
    pub open spec fn node(self, id: Seq<char>) -> NodeView {
        value_of(self.nodes, id)
    }

    /// The edges of the root node.
    pub open spec fn root_node(self) -> NodeView {
        self.node(self.root)
    }
}

/// An input of the graph: a node and the name of one of its edges.
pub type Hop = (Seq<char>, Seq<char>);

/// The inputs of the first `upto` nodes of `g`, node by node.
pub open spec fn hops_upto(g: GraphView, upto: int) -> Seq<Hop>
    decreases upto,
{
    if upto <= 0 {
        Seq::empty()
    } else {
        let node = g.nodes[upto - 1];
        hops_upto(g, upto - 1) + Seq::new(node.1.len(), |k: int| (node.0, node.1[k].0))
    }
}

/// All inputs of `g`.
pub open spec fn hops(g: GraphView) -> Seq<Hop> {
    hops_upto(g, g.nodes.len() as int)
}

/// How many inputs of `g` are not among `busy`.
pub open spec fn idle(g: GraphView, busy: Seq<Hop>) -> nat {
    left(hops(g), busy)
}

proof fn lemma_hops_upto(g: GraphView, upto: int, i: int, k: int)
    requires
        0 <= i < upto <= g.nodes.len(),
        0 <= k < g.nodes[i].1.len(),
    ensures
        hops_upto(g, upto).contains((g.nodes[i].0, g.nodes[i].1[k].0)),
    decreases upto,
{
    let node = g.nodes[upto - 1];
    let head = hops_upto(g, upto - 1);
    let tail = Seq::new(node.1.len(), |k: int| (node.0, node.1[k].0));
    if i < upto - 1 {
        lemma_hops_upto(g, upto - 1, i, k);
        let j = choose|j: int|
            0 <= j < head.len() && head[j] == (g.nodes[i].0, g.nodes[i].1[k].0);
        assert((head + tail)[j] == head[j]);
    } else {
        assert((head + tail)[head.len() + k] == tail[k]);
    }
}

/// Taking up an input of the graph that is not busy leaves fewer idle.
pub proof fn lemma_idle_push(g: GraphView, busy: Seq<Hop>, cur: Seq<char>, name: Seq<char>)
    requires
        has_key(g.nodes, cur),
        has_key(g.node(cur), name),
        !busy.contains((cur, name)),
    ensures
        idle(g, busy.push((cur, name))) < idle(g, busy),
{
    let i = key_index(g.nodes, cur);
    let k = key_index(g.node(cur), name);
    lemma_hops_upto(g, g.nodes.len() as int, i, k);
    lemma_left_push(hops(g), busy, (cur, name));
}

/// The node that `e` leads to, `busy` being the inputs whose edges are being
/// resolved already.
///
/// An indexed edge leads to the node it names, which must exist. A
/// follows-path is walked from the root by [`follow`].
pub open spec fn resolve(g: GraphView, e: EdgeView, busy: Seq<Hop>) -> Result<
    Seq<char>,
    GraphError,
>
    decreases idle(g, busy), 1nat, 0nat,
{
    match e {
        EdgeView::Indexed(id) => if has_key(g.nodes, id) {
            Ok(id)
        } else {
            Err(GraphError::DanglingReference)
        },
        EdgeView::Follows(path) => follow(g, g.root, path, 0, busy),
    }
}

/// The node reached from `cur` by the names `path[from..]`: each name picks
/// an input of the node reached so far, and the edge of that input is
/// resolved in its turn.
pub open spec fn follow(
    g: GraphView,
    cur: Seq<char>,
    path: Seq<Seq<char>>,
    from: int,
    busy: Seq<Hop>,
) -> Result<Seq<char>, GraphError>
    decreases idle(g, busy), 0nat, path.len() - from,
{
    if from < 0 || from >= path.len() {
        Ok(cur)
    } else {
        match hop(g, cur, path[from], busy) {
            Ok(next) => follow(g, next, path, from + 1, busy),
            Err(e) => Err(e),
        }
    }
}

/// One hop of a follows-path: the node that the input `name` of the node
/// `cur` leads to. The hop fails with `DanglingReference` where the graph
/// has no node `cur`, with `UnresolvableFollowsPath` where the node has no
/// such input, and with `FollowsCycle` where the input is busy.
pub open spec fn hop(g: GraphView, cur: Seq<char>, name: Seq<char>, busy: Seq<Hop>) -> Result<
    Seq<char>,
    GraphError,
>
    decreases idle(g, busy), 0nat, 0nat,
{
    if !has_key(g.nodes, cur) {
        Err(GraphError::DanglingReference)
    } else if !has_key(g.node(cur), name) {
        Err(GraphError::UnresolvableFollowsPath)
    } else if busy.contains((cur, name)) {
        Err(GraphError::FollowsCycle)
    } else {
        proof {
            lemma_idle_push(g, busy, cur, name);
        }
        resolve(g, value_of(g.node(cur), name), busy.push((cur, name)))
    }
}

/// The node that `e` leads to in `g`.
pub open spec fn resolve_edge(g: GraphView, e: EdgeView) -> Result<Seq<char>, GraphError> {
    resolve(g, e, Seq::empty())
}

} // verus!
