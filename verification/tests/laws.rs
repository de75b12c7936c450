use allfollow::config::{collect_follows_decls, print_flake_follows_config};
use allfollow::follows::substitute_flake_inputs_with_follows;
use allfollow::lock::{LockFile, Node, NodeEdge};
use allfollow::model::GraphError;
use allfollow::prune::prune_orphan_nodes;
use allfollow::visits::FlakeNodeVisits;

fn idx(id: &str) -> NodeEdge {
    NodeEdge::Indexed(id.to_string())
}

fn follows(path: &[&str]) -> NodeEdge {
    NodeEdge::Follows(path.iter().map(|s| s.to_string()).collect())
}

fn node(edges: &[(&str, NodeEdge)]) -> Node {
    let mut n = Node::new();
    for (name, edge) in edges {
        n.insert_edge(name.to_string(), edge.clone());
    }
    n
}

fn graph(root: Node, others: &[(&str, Node)]) -> LockFile {
    let mut lock = LockFile::new("root".to_string(), root, 7).unwrap();
    for (index, n) in others {
        lock.insert_node(index.to_string(), n.duplicate());
    }
    lock
}

fn copy(lock: &LockFile) -> LockFile {
    let mut out = LockFile::new(lock.root_index().clone(), lock.root().duplicate(), lock.version())
        .unwrap();
    for i in 0..lock.len() {
        out.insert_node(lock.index_at(i).clone(), lock.node_at(i).duplicate());
    }
    out
}

fn sample() -> LockFile {
    graph(
        node(&[("nixpkgs", idx("N1")), ("foo", idx("N2")), ("bar", idx("N4"))]),
        &[
            ("N1", Node::new()),
            ("N2", node(&[("nixpkgs", idx("N3")), ("bar", idx("N5")), ("x", idx("N6"))])),
            ("N3", Node::new()),
            ("N4", node(&[("nixpkgs", idx("N3"))])),
            ("N5", node(&[("nixpkgs", idx("N3"))])),
            ("N6", node(&[("nixpkgs", idx("N7"))])),
            ("N7", Node::new()),
        ],
    )
}

#[test]
fn second_run_of_substitution_and_pruning_changes_nothing() {
    for indexed in [false, true] {
        let mut lock = sample();
        substitute_flake_inputs_with_follows(&mut lock, indexed).unwrap();
        let removed = prune_orphan_nodes(&mut lock).unwrap();
        assert_eq!(removed, vec!["N3", "N5"]);
        let once = copy(&lock);
        substitute_flake_inputs_with_follows(&mut lock, indexed).unwrap();
        let removed = prune_orphan_nodes(&mut lock).unwrap();
        assert!(removed.is_empty());
        assert!(lock.same_as(&once));
        assert_eq!(
            lock.node_indices(),
            vec!["root", "N1", "N2", "N4", "N6", "N7"]
        );
    }
}

#[test]
fn every_node_has_an_entry_and_the_start_counts() {
    let lock = sample();
    for start in ["root", "N2", "N7"] {
        let tally = FlakeNodeVisits::count_from_index(&lock, start).unwrap();
        assert_eq!(tally.len(), lock.len());
        for i in 0..lock.len() {
            assert_eq!(tally.index_at(i), lock.index_at(i));
        }
        assert!(tally.get(start).unwrap() >= 1);
    }
}

#[test]
fn no_survivor_of_pruning_is_an_orphan() {
    let mut lock = sample();
    let before = FlakeNodeVisits::count_from_index(&lock, "root").unwrap();
    prune_orphan_nodes(&mut lock).unwrap();
    assert!(lock.get_node("root").is_some());
    let after = FlakeNodeVisits::count_from_index(&lock, "root").unwrap();
    for i in 0..after.len() {
        assert!(after.count_at(i) >= 1);
        assert_eq!(before.get(after.index_at(i)), Some(after.count_at(i)));
    }
}

#[test]
fn pruning_a_graph_without_orphans_removes_nothing() {
    let mut lock = graph(node(&[("a", idx("A"))]), &[("A", Node::new())]);
    let once = copy(&lock);
    assert_eq!(prune_orphan_nodes(&mut lock), Ok(vec![]));
    assert!(lock.same_as(&once));
}

#[test]
fn pruning_that_fails_leaves_the_graph() {
    let mut lock = graph(
        node(&[("a", idx("gone"))]),
        &[("A", Node::new())],
    );
    let once = copy(&lock);
    assert_eq!(
        prune_orphan_nodes(&mut lock),
        Err(GraphError::DanglingReference)
    );
    assert!(lock.same_as(&once));
}

#[test]
fn two_name_path_resolves_as_two_hops() {
    let lock = graph(
        node(&[("a", idx("A")), ("b", idx("B"))]),
        &[
            ("A", node(&[("b", idx("C"))])),
            ("B", Node::new()),
            ("C", Node::new()),
        ],
    );
    assert_eq!(lock.resolve_edge(&idx("C")), Ok("C".to_string()));
    let mid = lock.resolve_edge(&follows(&["a"])).unwrap();
    assert_eq!(mid, "A");
    let last = lock
        .resolve_edge(lock.get_node(&mid).unwrap().get_edge("b").unwrap())
        .unwrap();
    assert_eq!(lock.resolve_edge(&follows(&["a", "b"])), Ok(last));
    assert_eq!(lock.resolve_edge(&follows(&["a", "b"])), Ok("C".to_string()));
}

#[test]
fn emission_ends_on_a_cycle_and_passes_no_node_twice() {
    // A -> B -> C -> A, none of the names being a root input but "n".
    let lock = graph(
        node(&[("in", idx("A")), ("n", idx("N"))]),
        &[
            ("A", node(&[("x", idx("B")), ("n", idx("N"))])),
            ("B", node(&[("y", idx("C")), ("n", idx("N"))])),
            ("C", node(&[("z", idx("A")), ("n", idx("N"))])),
            ("N", Node::new()),
        ],
    );
    let decls = collect_follows_decls(&lock).unwrap();
    assert_eq!(decls.len(), 3);
    assert_eq!(decls[0].inputs, vec!["in", "x", "y"]);
    assert_eq!(decls[0].nodes, vec!["A", "B", "C"]);
    assert_eq!(decls[1].inputs, vec!["in", "x"]);
    assert_eq!(decls[1].nodes, vec!["A", "B"]);
    assert_eq!(decls[2].inputs, vec!["in"]);
    assert_eq!(decls[2].nodes, vec!["A"]);
    for decl in &decls {
        assert_eq!(decl.name, "n");
        assert_eq!(decl.inputs.len(), decl.nodes.len());
        let mut seen = decl.nodes.clone();
        seen.sort();
        seen.dedup();
        assert_eq!(seen.len(), decl.nodes.len());
    }
    assert_eq!(
        print_flake_follows_config(&lock).unwrap(),
        "# START INPUT FOLLOW BLOCK -- DO NOT EDIT MANUALLY\n\
         inputs = {\n    \
         in.inputs.x.inputs.y.inputs.n.follows = \"n\";\n    \
         in.inputs.x.inputs.n.follows = \"n\";\n    \
         in.inputs.n.follows = \"n\";\n\
         };\n\
         # END INPUT FOLLOW BLOCK -- DO NOT EDIT MANUALLY"
    );
}
