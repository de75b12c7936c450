//! Follows substitution: the inputs of the root's inputs are redirected to
//! the root's own inputs of the same name.

use crate::assoc::{has_key, value_of};
use crate::lock::{LockFile, Node, NodeEdge};
use crate::model::{EdgeView, GraphError, GraphView, NodeView};
use vstd::prelude::*;

verus! {

/// What takes the place of an input called `name`: a follows-path to the
/// root's input of that name, or, where `indexed`, the root's own edge.
pub open spec fn replacement(root: NodeView, name: Seq<char>, indexed: bool) -> EdgeView {
    if indexed {
        value_of(root, name)
    } else {
        EdgeView::Follows(seq![name])
    }
}

/// The node `node` after substitution: every input whose name the root has
/// too is replaced, the others stay.
pub open spec fn rewrite(
    node: NodeView,
    root: NodeView,
    indexed: bool,
) -> NodeView {
    Seq::new(
        node.len(),
        |k: int|
            if has_key(root, node[k].0) {
                (node[k].0, replacement(root, node[k].0, indexed))
            } else {
                node[k]
            },
    )
}

/// One of the first `upto` edges of the root is an indexed edge to `id`.
pub open spec fn is_input_before(root: NodeView, id: Seq<char>, upto: int) -> bool {
    exists|j: int|
        0 <= j < upto && j < root.len() && (#[trigger] root[j]).1 == EdgeView::Indexed(id)
}

/// The node `id` is an input of the graph: an edge of the root is an indexed
/// edge to it.
pub open spec fn is_input(g: GraphView, id: Seq<char>) -> bool {
    is_input_before(g.root_node(), id, g.root_node().len() as int)
}

/// An indexed edge of the root names a node that the graph does not have.
pub open spec fn dangling_input(g: GraphView) -> bool {
    exists|j: int|
        0 <= j < g.root_node().len() && (#[trigger] g.root_node()[j]).1 is Indexed && !has_key(
            g.nodes,
            g.root_node()[j].1->Indexed_0,
        )
}

/// The graph after the targets of the first `upto` edges of `root` have been
/// rewritten.
pub open spec fn substituted_upto(
    g: GraphView,
    root: NodeView,
    indexed: bool,
    upto: int,
) -> GraphView {
    GraphView {
        nodes: Seq::new(
            g.nodes.len(),
            |i: int|
                if is_input_before(root, g.nodes[i].0, upto) {
                    (g.nodes[i].0, rewrite(g.nodes[i].1, root, indexed))
                } else {
                    g.nodes[i]
                },
        ),
        ..g
    }
}

/// The graph after substitution: every input of the graph is rewritten
/// against the root's edges as they were before, every other node stays.
pub open spec fn substituted(g: GraphView, indexed: bool) -> GraphView {
    substituted_upto(g, g.root_node(), indexed, g.root_node().len() as int)
}

/// Rewriting a node a second time against the same root changes nothing.
pub proof fn lemma_rewrite_idempotent(
    node: NodeView,
    root: NodeView,
    indexed: bool,
)
    ensures
        rewrite(rewrite(node, root, indexed), root, indexed) == rewrite(node, root, indexed),
{
    assert(rewrite(rewrite(node, root, indexed), root, indexed) =~= rewrite(node, root, indexed));
}

/// What became of one input of a node under substitution.
#[derive(Debug)]
pub struct EdgeReport {
    /// The input's name.
    pub name: String,
    /// Whether the root has an input of that name, so that the edge was
    /// replaced.
    pub replaced: bool,
}

impl View for EdgeReport {
    type V = (Seq<char>, bool);

    open spec fn view(&self) -> (Seq<char>, bool) {
        (self.name@, self.replaced)
    }
}

/// The reports of `v`, each as its model.
pub open spec fn edge_reports(v: Seq<EdgeReport>) -> Seq<(Seq<char>, bool)> {
    Seq::new(v.len(), |k: int| v[k]@)
}

/// What substitution reports of the node `node`: each input's name, and
/// whether the root has an input of that name.
pub open spec fn rewrite_report(
    node: NodeView,
    root: NodeView,
) -> Seq<(Seq<char>, bool)> {
    Seq::new(node.len(), |k: int| (node[k].0, has_key(root, node[k].0)))
}

/// Rewrites the inputs of `node` against the root node `root`: an input
/// whose name the root has too becomes a follows-path to the root's input of
/// that name or, where `indexed`, a copy of the root's own edge. Inputs
/// without a namesake in the root stay. Reports each input in order.
pub fn substitute_node_inputs_with_root_inputs(
    node: &mut Node,
    root: &Node,
    indexed: bool,
) -> (report: Vec<EdgeReport>)
    requires
        old(node).wf(),
        root.wf(),
    ensures
        final(node).wf(),
        final(node)@ == rewrite(old(node)@, root@, indexed),
        edge_reports(report@) == rewrite_report(old(node)@, root@),
{
    let ghost before = node@;
    let mut report: Vec<EdgeReport> = Vec::new();
    let n = node.len();
    let mut k: usize = 0;
    while k < n
        invariant
            root.wf(),
            node.wf(),
            n == before.len(),
            node@.len() == n,
            k <= n,
            forall|i: int| 0 <= i < k ==> node@[i] == rewrite(before, root@, indexed)[i],
            forall|i: int| k <= i < n ==> node@[i] == before[i],
            report@.len() == k,
            forall|i: int|
                0 <= i < k ==> (#[trigger] report@[i])@ == rewrite_report(before, root@)[i],
        decreases n - k,
    {
        let name = node.name_at(k).clone();
        match root.get_edge(name.as_str()) {
            Some(root_edge) => {
                let edge = if indexed {
                    root_edge.clone()
                } else {
                    NodeEdge::follows_root_input(name.as_str())
                };
                node.set_edge_at(k, edge);
                report.push(EdgeReport { name, replaced: true });
            },
            None => {
                report.push(EdgeReport { name, replaced: false });
            },
        }
        k += 1;
    }
    proof {
        assert(node@ =~= rewrite(before, root@, indexed));
        assert(edge_reports(report@) =~= rewrite_report(before, root@));
    }
    report
}

/// What became of one input of the root under substitution.
#[derive(Debug)]
pub struct InputReport {
    /// The name of the root's input.
    pub name: String,
    /// The node that the input refers to; `None` where the root's edge is a
    /// follows-path, which is left alone.
    pub index: Option<String>,
    /// The inputs of that node, in order; empty where `index` is `None`.
    pub edges: Vec<EdgeReport>,
}

/// The model of an [`InputReport`].
pub struct InputReportView {
    pub name: Seq<char>,
    pub index: Option<Seq<char>>,
    pub edges: Seq<(Seq<char>, bool)>,
}

impl View for InputReport {
    type V = InputReportView;

    open spec fn view(&self) -> InputReportView {
        InputReportView {
            name: self.name@,
            index: match self.index {
                Some(id) => Some(id@),
                None => None,
            },
            edges: edge_reports(self.edges@),
        }
    }
}

/// What substitution reports of the root's edge at position `j`.
pub open spec fn input_report(g: GraphView, j: int) -> InputReportView {
    let root = g.root_node();
    match root[j].1 {
        EdgeView::Indexed(id) => InputReportView {
            name: root[j].0,
            index: Some(id),
            edges: rewrite_report(g.node(id), root),
        },
        EdgeView::Follows(_) => InputReportView {
            name: root[j].0,
            index: None,
            edges: Seq::empty(),
        },
    }
}

/// Redirects the inputs of the root's inputs to the root.
///
/// Every node that an indexed edge of the root refers to is rewritten as
/// [`substitute_node_inputs_with_root_inputs`] does, against the root's edges
/// as they were when the call began; every other node stays. Where an
/// indexed edge of the root names a node that the graph lacks, nothing is
/// changed and `DanglingReference` comes back. The report has one entry for
/// each edge of the root, in order.
pub fn substitute_flake_inputs_with_follows(lock: &mut LockFile, indexed: bool) -> (r: Result<
    Vec<InputReport>,
    GraphError,
>)
    requires
        old(lock).wf(),
    ensures
        final(lock).wf(),
        match r {
            Ok(reports) => {
                &&& !dangling_input(old(lock)@)
                &&& final(lock)@ == substituted(old(lock)@, indexed)
                &&& reports@.len() == old(lock)@.root_node().len()
                &&& forall|j: int|
                    0 <= j < reports@.len() ==> (#[trigger] reports@[j])@ == input_report(
                        old(lock)@,
                        j,
                    )
            },
            Err(e) => {
                &&& e == GraphError::DanglingReference
                &&& dangling_input(old(lock)@)
                &&& final(lock)@ == old(lock)@
            },
        },
{
    let ghost g = lock@;
    let root = lock.root().duplicate();
    let n = root.len();
    proof {
        lock.lemma_wf();
    }
    let mut j: usize = 0;
    while j < n
        invariant
            lock.wf(),
            lock@ == g,
            root.wf(),
            root@ == g.root_node(),
            n == root@.len(),
            j <= n,
            forall|i: int|
                0 <= i < j && (#[trigger] root@[i]).1 is Indexed ==> has_key(
                    g.nodes,
                    root@[i].1->Indexed_0,
                ),
        decreases n - j,
    {
        match root.edge_at(j).index() {
            Some(id) => {
                if lock.position(id.as_str()).is_none() {
                    return Err(GraphError::DanglingReference);
                }
            },
            None => {},
        }
        j += 1;
    }
    let mut reports: Vec<InputReport> = Vec::new();
    let mut j: usize = 0;
    proof {
        assert(lock@.nodes =~= substituted_upto(g, root@, indexed, 0).nodes);
    }
    while j < n
        invariant
            lock.wf(),
            g.wf(),
            root.wf(),
            root@ == g.root_node(),
            n == root@.len(),
            j <= n,
            forall|i: int|
                0 <= i < n && (#[trigger] root@[i]).1 is Indexed ==> has_key(
                    g.nodes,
                    root@[i].1->Indexed_0,
                ),
            lock@ == substituted_upto(g, root@, indexed, j as int),
            reports@.len() == j,
            forall|i: int| 0 <= i < j ==> (#[trigger] reports@[i])@ == input_report(g, i),
        decreases n - j,
    {
        let name = root.name_at(j).clone();
        match root.edge_at(j).index() {
            Some(id) => {
                let ghost before = lock@;
                match lock.position(id.as_str()) {
                    Some(i) => {
                        let node = lock.node_at_mut(i);
                        let ghost was = node@;
                        let edges = substitute_node_inputs_with_root_inputs(node, &root, indexed);
                        proof {
                            lemma_rewrite_idempotent(g.nodes[i as int].1, root@, indexed);
                            crate::assoc::lemma_key_at(g.nodes, i as int);
                            assert(root@[j as int].1 == EdgeView::Indexed(id@));
                            assert(is_input_before(root@, id@, j + 1));
                            let after = substituted_upto(g, root@, indexed, j + 1);
                            assert forall|p: int| 0 <= p < g.nodes.len() implies lock@.nodes[p]
                                == after.nodes[p] by {
                                let pid = g.nodes[p].0;
                                if p != i {
                                    assert(pid != id@);
                                    if is_input_before(root@, pid, j + 1) {
                                        let w = choose|w: int|
                                            0 <= w < j + 1 && w < root@.len() && (
                                            #[trigger] root@[w]).1 == EdgeView::Indexed(pid);
                                        assert(w != j);
                                        assert(is_input_before(root@, pid, j as int));
                                    }
                                    if is_input_before(root@, pid, j as int) {
                                        let w = choose|w: int|
                                            0 <= w < j && w < root@.len() && (
                                            #[trigger] root@[w]).1 == EdgeView::Indexed(pid);
                                        assert(is_input_before(root@, pid, j + 1));
                                    }
                                }
                            }
                            assert(lock@.nodes =~= after.nodes);
                            assert(was.len() == g.nodes[i as int].1.len());
                            assert(rewrite_report(was, root@) =~= rewrite_report(
                                g.node(id@),
                                root@,
                            ));
                        }
                        reports.push(InputReport { name, index: Some(id.clone()), edges });
                    },
                    None => {
                        proof {
                            assert(root@[j as int].1 == EdgeView::Indexed(id@));
                            crate::assoc::lemma_keys_agree(g.nodes, before.nodes);
                            assert(false);
                        }
                    },
                }
            },
            None => {
                proof {
                    let after = substituted_upto(g, root@, indexed, j + 1);
                    assert forall|p: int| 0 <= p < g.nodes.len() implies lock@.nodes[p]
                        == after.nodes[p] by {
                        let pid = g.nodes[p].0;
                        if is_input_before(root@, pid, j + 1) {
                            let w = choose|w: int|
                                0 <= w < j + 1 && w < root@.len() && (#[trigger] root@[w]).1
                                    == EdgeView::Indexed(pid);
                            assert(w != j);
                            assert(is_input_before(root@, pid, j as int));
                        }
                        if is_input_before(root@, pid, j as int) {
                            let w = choose|w: int|
                                0 <= w < j && w < root@.len() && (#[trigger] root@[w]).1
                                    == EdgeView::Indexed(pid);
                            assert(is_input_before(root@, pid, j + 1));
                        }
                    }
                    assert(lock@.nodes =~= after.nodes);
                }
                let edges: Vec<EdgeReport> = Vec::new();
                proof {
                    assert(edge_reports(edges@) =~= Seq::<(Seq<char>, bool)>::empty());
                }
                reports.push(InputReport { name, index: None, edges });
            },
        }
        j += 1;
    }
    Ok(reports)
}

} // verus!
