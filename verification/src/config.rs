//! The follows-configuration: which inputs of which nodes are to follow the
//! root, and the block of text that says so.

use crate::assoc::{begins_with, has_key};
use crate::laws::lemma_resolve_exists;
use crate::lock::{LockFile, Node};
use crate::model::{resolve_edge, EdgeView, GraphError, GraphView, NodeView};
use crate::names::{clone_names, contains_name, names_of};
use crate::visits::{lemma_unvisited_push, unvisited};
use vstd::prelude::*;
use vstd::string::StringExecFns;

verus! {

/// The line that opens the generated block.
pub const START_MARKER: &'static str = "# START INPUT FOLLOW BLOCK -- DO NOT EDIT MANUALLY";

/// The line that closes the generated block.
pub const END_MARKER: &'static str = "# END INPUT FOLLOW BLOCK -- DO NOT EDIT MANUALLY";

/// One declaration: the input `name` of a node is to follow the root's input
/// of the same name.
#[derive(Debug)]
pub struct FollowsDecl {
    /// The input names that lead from the root to the node.
    pub inputs: Vec<String>,
    /// The nodes passed on the way, the node itself last.
    pub nodes: Vec<String>,
    /// The name of the input, which is also the name of the root's input.
    pub name: String,
}

/// The model of a [`FollowsDecl`].
pub struct DeclView {
    pub inputs: Seq<Seq<char>>,
    pub nodes: Seq<Seq<char>>,
    pub name: Seq<char>,
}

impl View for FollowsDecl {
    type V = DeclView;

    open spec fn view(&self) -> DeclView {
        DeclView { inputs: names_of(self.inputs@), nodes: names_of(self.nodes@), name: self.name@ }
    }
}

/// The declarations of `v`, each as its model.
pub open spec fn decls_of(v: Seq<FollowsDecl>) -> Seq<DeclView> {
    Seq::new(v.len(), |k: int| v[k]@)
}

/// The declarations that the walk over the node `id` gives, `inputs` being
/// the input names that led here and `visited` the nodes that the walk is
/// inside of, which `id` is the last of where the walk came here by itself.
///
/// Each edge of the node, in order, gives what [`emit_edges`] says. The walk
/// fails with `DanglingReference` where the graph has no node `id`.
pub open spec fn emit_node(
    g: GraphView,
    root: NodeView,
    id: Seq<char>,
    inputs: Seq<Seq<char>>,
    visited: Seq<Seq<char>>,
) -> Result<Seq<DeclView>, GraphError>
    decreases unvisited(g, visited), 1nat, 0nat,
{
    if !has_key(g.nodes, id) {
        Err(GraphError::DanglingReference)
    } else {
        emit_edges(g, root, g.node(id), 0, inputs, visited)
    }
}

/// The declarations that the edges `edges[from..]` of a node give.
///
/// An edge whose name the root `root` has too gives one declaration, and is
/// neither resolved nor walked. Any other edge is resolved: a target that is
/// among `visited` gives nothing, and any other target is put behind
/// `visited`, the edge's name behind `inputs`, and gives what the walk over
/// it gives. The first edge that has to be resolved and cannot be, or that
/// leads to a node that the graph lacks, fails the walk with its error.
pub open spec fn emit_edges(
    g: GraphView,
    root: NodeView,
    edges: NodeView,
    from: int,
    inputs: Seq<Seq<char>>,
    visited: Seq<Seq<char>>,
) -> Result<Seq<DeclView>, GraphError>
    decreases unvisited(g, visited), 0nat, edges.len() - from,
{
    if from < 0 || from >= edges.len() {
        Ok(Seq::empty())
    } else {
        let name = edges[from].0;
        let first = if has_key(root, name) {
            Ok(seq![DeclView { inputs, nodes: visited, name }])
        } else {
            match resolve_edge(g, edges[from].1) {
                Err(e) => Err(e),
                Ok(child) => if visited.contains(child) {
                    Ok(Seq::empty())
                } else if !has_key(g.nodes, child) {
                    Err(GraphError::DanglingReference)
                } else {
                    proof {
                        lemma_unvisited_push(g, visited, child);
                    }
                    emit_node(g, root, child, inputs.push(name), visited.push(child))
                },
            }
        };
        match first {
            Err(e) => Err(e),
            Ok(first) => match emit_edges(g, root, edges, from + 1, inputs, visited) {
                Ok(rest) => Ok(first + rest),
                Err(e) => Err(e),
            },
        }
    }
}

/// The declarations that the root's edges `root[from..]` give: an indexed
/// edge gives what the walk over its target gives, the walk being inside of
/// that target alone; a follows-path gives nothing.
pub open spec fn emit_inputs(g: GraphView, root: NodeView, from: int) -> Result<
    Seq<DeclView>,
    GraphError,
>
    decreases root.len() - from,
{
    if from < 0 || from >= root.len() {
        Ok(Seq::empty())
    } else {
        let first = match root[from].1 {
            EdgeView::Indexed(id) => emit_node(g, root, id, seq![root[from].0], seq![id]),
            EdgeView::Follows(_) => Ok(Seq::empty()),
        };
        match first {
            Err(e) => Err(e),
            Ok(first) => match emit_inputs(g, root, from + 1) {
                Ok(rest) => Ok(first + rest),
                Err(e) => Err(e),
            },
        }
    }
}

/// The declarations of the whole graph.
pub open spec fn follows_decls(g: GraphView) -> Result<Seq<DeclView>, GraphError> {
    emit_inputs(g, g.root_node(), 0)
}

/// Walks the graph depth-first over the node `current_node_index` and adds
/// to `out` a declaration for every input met that has a namesake among
/// `root_inputs`, not walking on past such an input.
///
/// `current_path` holds the input names that led here and `visited_indices`
/// the nodes that the walk is inside of; the caller has put the node itself
/// there. The edges of the node are taken in order. An edge named like an
/// input of the root gives a declaration. Any other edge is resolved, and
/// its target is walked in its turn unless it is among `visited_indices`;
/// for that walk the target is put behind `visited_indices` and the edge's
/// name behind `current_path`, and both are taken off again afterwards.
///
/// The walk fails with `DanglingReference` where the graph has no node
/// `current_node_index`, and then nothing is changed. It fails with the
/// error of the first edge that has to be resolved and cannot be; after such
/// a failure `out`, `current_path` and `visited_indices` begin as they did
/// and hold what the walk left.
pub fn traverse_and_print_config(
    lock: &LockFile,
    root_inputs: &Node,
    current_node_index: &String,
    current_path: &mut Vec<String>,
    visited_indices: &mut Vec<String>,
    out: &mut Vec<FollowsDecl>,
) -> (r: Result<(), GraphError>)
    requires
        lock.wf(),
        root_inputs.wf(),
    ensures
        begins_with(decls_of(final(out)@), decls_of(old(out)@)),
        begins_with(names_of(final(current_path)@), names_of(old(current_path)@)),
        begins_with(names_of(final(visited_indices)@), names_of(old(visited_indices)@)),
        !has_key(lock@.nodes, current_node_index@) ==> {
            &&& r == Err::<(), GraphError>(GraphError::DanglingReference)
            &&& decls_of(final(out)@) == decls_of(old(out)@)
            &&& names_of(final(current_path)@) == names_of(old(current_path)@)
            &&& names_of(final(visited_indices)@) == names_of(old(visited_indices)@)
        },
        match emit_node(
            lock@,
            root_inputs@,
            current_node_index@,
            names_of(old(current_path)@),
            names_of(old(visited_indices)@),
        ) {
            Ok(decls) => {
                &&& r is Ok
                &&& decls_of(final(out)@) == decls_of(old(out)@) + decls
                &&& names_of(final(current_path)@) == names_of(old(current_path)@)
                &&& names_of(final(visited_indices)@) == names_of(old(visited_indices)@)
            },
            Err(e) => r == Err::<(), GraphError>(e),
        },
    decreases unvisited(lock@, names_of(old(visited_indices)@)),
{
    let ghost g = lock@;
    let ghost root = root_inputs@;
    let ghost inputs = names_of(current_path@);
    let ghost trail = names_of(visited_indices@);
    let ghost out0 = decls_of(out@);
    let pos = match lock.position(current_node_index.as_str()) {
        Some(pos) => pos,
        None => {
            return Err(GraphError::DanglingReference);
        },
    };
    let ghost mut done: Seq<DeclView> = Seq::empty();
    let node = lock.node_at(pos);
    let n = node.len();
    let mut k: usize = 0;
    proof {
        lock.lemma_wf();
        assert(decls_of(out@) =~= out0 + done);
        let all = emit_edges(g, root, node@, 0, inputs, trail);
        if all is Ok {
            assert(done + all->Ok_0 =~= all->Ok_0);
        }
    }
    while k < n
        invariant
            lock.wf(),
            root_inputs.wf(),
            g == lock@,
            g.wf(),
            root == root_inputs@,
            node.wf(),
            node@ == g.node(current_node_index@),
            n == node@.len(),
            k <= n,
            names_of(visited_indices@) == trail,
            names_of(current_path@) == inputs,
            trail == names_of(old(visited_indices)@),
            inputs == names_of(old(current_path)@),
            out0 == decls_of(old(out)@),
            has_key(g.nodes, current_node_index@),
            decls_of(out@) == out0 + done,
            emit_edges(g, root, node@, 0, inputs, trail) == match emit_edges(
                g,
                root,
                node@,
                k as int,
                inputs,
                trail,
            ) {
                Ok(rest) => Ok::<Seq<DeclView>, GraphError>(done + rest),
                Err(e) => Err(e),
            },
        decreases n - k,
    {
        let name = node.name_at(k);
        let ghost rest = emit_edges(g, root, node@, k as int + 1, inputs, trail);
        if root_inputs.index_of_edge(name.as_str()).is_some() {
            let decl = FollowsDecl {
                inputs: clone_names(current_path),
                nodes: clone_names(visited_indices),
                name: name.clone(),
            };
            let ghost first = seq![decl@];
            let ghost shown = decls_of(out@);
            out.push(decl);
            proof {
                assert(decls_of(out@) =~= shown + first);
                assert(out0 + done + first =~= out0 + (done + first));
                if rest is Ok {
                    assert(done + (first + rest->Ok_0) =~= done + first + rest->Ok_0);
                }
                done = done + first;
            }
        } else {
            let child = match lock.resolve_edge(node.edge_at(k)) {
                Ok(child) => child,
                Err(e) => {
                    return Err(e);
                },
            };
            if contains_name(visited_indices, &child) {
                proof {
                    let none = Seq::<DeclView>::empty();
                    if rest is Ok {
                        assert(done + (none + rest->Ok_0) =~= done + rest->Ok_0);
                    }
                }
            } else {
                proof {
                    lemma_resolve_exists(g, node@[k as int].1, Seq::empty());
                    lemma_unvisited_push(g, trail, child@);
                }
                visited_indices.push(child.clone());
                current_path.push(name.clone());
                proof {
                    assert(names_of(visited_indices@) =~= trail.push(child@));
                    assert(names_of(current_path@) =~= inputs.push(name@));
                }
                match traverse_and_print_config(
                    lock,
                    root_inputs,
                    &child,
                    current_path,
                    visited_indices,
                    out,
                ) {
                    Ok(()) => {},
                    Err(e) => {
                        return Err(e);
                    },
                }
                let ghost long_path = current_path@;
                let ghost long_trail = visited_indices@;
                current_path.pop();
                visited_indices.pop();
                proof {
                    let first = emit_node(
                        g,
                        root,
                        child@,
                        inputs.push(name@),
                        trail.push(child@),
                    )->Ok_0;
                    assert(names_of(long_path).len() == inputs.len() + 1);
                    assert forall|j: int| 0 <= j < inputs.len() implies names_of(current_path@)[j]
                        == inputs[j] by {
                        assert(names_of(long_path)[j] == inputs.push(name@)[j]);
                    }
                    assert(names_of(current_path@) =~= inputs);
                    assert(names_of(long_trail).len() == trail.len() + 1);
                    assert forall|j: int| 0 <= j < trail.len() implies names_of(
                        visited_indices@,
                    )[j] == trail[j] by {
                        assert(names_of(long_trail)[j] == trail.push(child@)[j]);
                    }
                    assert(names_of(visited_indices@) =~= trail);
                    assert(out0 + done + first =~= out0 + (done + first));
                    if rest is Ok {
                        assert(done + (first + rest->Ok_0) =~= done + first + rest->Ok_0);
                    }
                    done = done + first;
                }
            }
        }
        k += 1;
    }
    proof {
        assert(done + Seq::<DeclView>::empty() =~= done);
    }
    Ok(())
}

/// Collects the declarations of the whole graph: for each indexed edge of
/// the root, in order, what the walk over its target gives.
pub fn collect_follows_decls(lock: &LockFile) -> (r: Result<Vec<FollowsDecl>, GraphError>)
    requires
        lock.wf(),
    ensures
        match r {
            Ok(decls) => follows_decls(lock@) == Ok::<Seq<DeclView>, GraphError>(decls_of(decls@)),
            Err(e) => follows_decls(lock@) == Err::<Seq<DeclView>, GraphError>(e),
        },
{
    let ghost g = lock@;
    let root = lock.root();
    let n = root.len();
    let mut out: Vec<FollowsDecl> = Vec::new();
    let mut j: usize = 0;
    proof {
        let all = emit_inputs(g, root@, 0);
        if all is Ok {
            assert(decls_of(out@) + all->Ok_0 =~= all->Ok_0);
        }
    }
    while j < n
        invariant
            lock.wf(),
            g == lock@,
            root.wf(),
            root@ == g.root_node(),
            n == root@.len(),
            j <= n,
            follows_decls(g) == match emit_inputs(g, root@, j as int) {
                Ok(rest) => Ok::<Seq<DeclView>, GraphError>(decls_of(out@) + rest),
                Err(e) => Err(e),
            },
        decreases n - j,
    {
        let ghost done = decls_of(out@);
        let ghost rest = emit_inputs(g, root@, j as int + 1);
        match root.edge_at(j).index() {
            Some(index) => {
                let mut path: Vec<String> = Vec::new();
                path.push(root.name_at(j).clone());
                let mut visited: Vec<String> = Vec::new();
                visited.push(index.clone());
                proof {
                    assert(names_of(path@) =~= seq![root@[j as int].0]);
                    assert(names_of(visited@) =~= seq![index@]);
                }
                match traverse_and_print_config(
                    lock,
                    root,
                    index,
                    &mut path,
                    &mut visited,
                    &mut out,
                ) {
                    Ok(()) => {},
                    Err(e) => {
                        return Err(e);
                    },
                }
                proof {
                    let first = emit_node(
                        g,
                        root@,
                        index@,
                        seq![root@[j as int].0],
                        seq![index@],
                    )->Ok_0;
                    if rest is Ok {
                        assert(done + (first + rest->Ok_0) =~= done + first + rest->Ok_0);
                    }
                }
            },
            None => {
                proof {
                    if rest is Ok {
                        let none = Seq::<DeclView>::empty();
                        assert(done + (none + rest->Ok_0) =~= done + rest->Ok_0);
                    }
                }
            },
        }
        j += 1;
    }
    proof {
        assert(decls_of(out@) + Seq::<DeclView>::empty() =~= decls_of(out@));
    }
    Ok(out)
}

/// `parts`, with `sep` between each two.
pub open spec fn joined(parts: Seq<Seq<char>>, sep: Seq<char>) -> Seq<char>
    decreases parts.len(),
{
    if parts.len() == 0 {
        Seq::empty()
    } else if parts.len() == 1 {
        parts[0]
    } else {
        joined(parts.drop_last(), sep) + sep + parts.last()
    }
}

/// The line of one declaration: the input names and the input's own name,
/// joined by `.inputs.`, are said to follow the root's input of that name.
pub open spec fn decl_line(d: DeclView) -> Seq<char> {
    "    "@ + joined(d.inputs.push(d.name), ".inputs."@) + ".follows = \""@ + d.name + "\";\n"@
}

/// The lines of `decls`, one after the other.
pub open spec fn decl_lines(decls: Seq<DeclView>) -> Seq<char>
    decreases decls.len(),
{
    if decls.len() == 0 {
        Seq::empty()
    } else {
        decl_lines(decls.drop_last()) + decl_line(decls.last())
    }
}

/// The generated block: the declarations inside `inputs = { ... };`, between
/// the two marker lines. The last line has no line end.
pub open spec fn config_text(decls: Seq<DeclView>) -> Seq<char> {
    START_MARKER@ + "\n"@ + "inputs = {\n"@ + decl_lines(decls) + "};\n"@ + END_MARKER@
}

/// Appends `parts` to `s`, with `sep` between each two.
fn append_joined(s: &mut String, parts: &Vec<String>, sep: &str)
    ensures
        final(s)@ == old(s)@ + joined(names_of(parts@), sep@),
{
    let ghost head = s@;
    let ghost all = names_of(parts@);
    let mut i: usize = 0;
    proof {
        assert(all.take(0) =~= Seq::<Seq<char>>::empty());
        assert(head + joined(all.take(0), sep@) =~= head);
    }
    while i < parts.len()
        invariant
            i <= parts.len(),
            all == names_of(parts@),
            s@ == head + joined(all.take(i as int), sep@),
        decreases parts.len() - i,
    {
        let ghost so_far = joined(all.take(i as int), sep@);
        if i > 0 {
            s.append(sep);
        }
        s.append(parts[i].as_str());
        proof {
            assert(all.take(i as int + 1).drop_last() =~= all.take(i as int));
            assert(all.take(i as int + 1).last() == parts@[i as int]@);
            if i > 0 {
                assert(s@ =~= head + (so_far + sep@ + parts@[i as int]@));
            } else {
                assert(so_far =~= Seq::<char>::empty());
                assert(s@ =~= head + parts@[i as int]@);
            }
        }
        i += 1;
    }
    proof {
        assert(all.take(parts.len() as int) =~= all);
    }
}

/// Writes the generated block for `decls`.
pub fn render_follows_config(decls: &Vec<FollowsDecl>) -> (text: String)
    ensures
        text@ == config_text(decls_of(decls@)),
{
    let ghost all = decls_of(decls@);
    let mut text = String::new();
    text.append(START_MARKER);
    text.append("\n");
    text.append("inputs = {\n");
    let ghost head = text@;
    let mut i: usize = 0;
    proof {
        assert(all.take(0) =~= Seq::<DeclView>::empty());
        assert(head + decl_lines(all.take(0)) =~= head);
    }
    while i < decls.len()
        invariant
            i <= decls.len(),
            all == decls_of(decls@),
            text@ == head + decl_lines(all.take(i as int)),
        decreases decls.len() - i,
    {
        let decl = &decls[i];
        let ghost before = text@;
        let ghost d = decl@;
        text.append("    ");
        let ghost indented = text@;
        append_joined(&mut text, &decl.inputs, ".inputs.");
        if decl.inputs.len() > 0 {
            text.append(".inputs.");
        }
        text.append(decl.name.as_str());
        proof {
            assert(d.inputs.push(d.name).drop_last() =~= d.inputs);
            if d.inputs.len() == 0 {
                assert(joined(d.inputs, ".inputs."@) =~= Seq::<char>::empty());
            }
            assert(text@ =~= indented + joined(d.inputs.push(d.name), ".inputs."@));
        }
        text.append(".follows = \"");
        text.append(decl.name.as_str());
        text.append("\";\n");
        proof {
            assert(all.take(i as int + 1).drop_last() =~= all.take(i as int));
            assert(all.take(i as int + 1).last() == d);
            assert(text@ =~= before + decl_line(d));
            assert(text@ =~= head + (decl_lines(all.take(i as int)) + decl_line(d)));
        }
        i += 1;
    }
    proof {
        assert(all.take(decls.len() as int) =~= all);
    }
    text.append("};\n");
    text.append(END_MARKER);
    text
}

/// The follows-configuration of `lock` as text: one line for every input of
/// a node below the root that has a namesake among the root's inputs, inside
/// `inputs = { ... };` and between the two marker lines.
pub fn print_flake_follows_config(lock: &LockFile) -> (r: Result<String, GraphError>)
    requires
        lock.wf(),
    ensures
        match r {
            Ok(text) => follows_decls(lock@) is Ok && text@ == config_text(
                follows_decls(lock@)->Ok_0,
            ),
            Err(e) => follows_decls(lock@) == Err::<Seq<DeclView>, GraphError>(e),
        },
{
    match collect_follows_decls(lock) {
        Ok(decls) => Ok(render_follows_config(&decls)),
        Err(e) => Err(e),
    }
}

} // verus!
