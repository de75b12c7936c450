use allfollow::lock::{LockFile, Node, NodeEdge};
use allfollow::model::{
    GraphError, MAX_SUPPORTED_LOCK_VERSION, MIN_SUPPORTED_LOCK_VERSION,
};
use allfollow::names::{clone_names, contains_name, same_names};
use allfollow::ordered_map::OrderedMap;

fn idx(id: &str) -> NodeEdge {
    NodeEdge::Indexed(id.to_string())
}

fn follows(path: &[&str]) -> NodeEdge {
    NodeEdge::Follows(path.iter().map(|s| s.to_string()).collect())
}

fn node(edges: &[(&str, NodeEdge)]) -> Node {
    let mut n = Node::new();
    for (name, edge) in edges {
        n.insert_edge(name.to_string(), edge.clone());
    }
    n
}

fn graph(root: Node, others: &[(&str, Node)]) -> LockFile {
    let mut lock = LockFile::new("root".to_string(), root, 7).unwrap();
    for (index, n) in others {
        lock.insert_node(index.to_string(), n.duplicate());
    }
    lock
}

#[test]
fn supported_versions_are_seven_only() {
    assert_eq!(MIN_SUPPORTED_LOCK_VERSION, 7);
    assert_eq!(MAX_SUPPORTED_LOCK_VERSION, 7);
    assert!(LockFile::new("root".to_string(), Node::new(), 7).is_ok());
    assert_eq!(
        LockFile::new("root".to_string(), Node::new(), 6).err(),
        Some(GraphError::SchemaVersionUnsupported)
    );
    assert_eq!(
        LockFile::new("root".to_string(), Node::new(), 8).err(),
        Some(GraphError::SchemaVersionUnsupported)
    );
}

#[test]
fn from_nodes_keeps_the_order_and_wants_the_root() {
    let mut nodes: OrderedMap<Node> = OrderedMap::new();
    nodes.insert("a".to_string(), Node::new());
    nodes.insert("root".to_string(), node(&[("x", idx("a"))]));
    nodes.insert("z".to_string(), Node::new());
    let lock = LockFile::from_nodes("root".to_string(), nodes, 7).unwrap();
    assert_eq!(lock.node_indices(), vec!["a", "root", "z"]);
    assert_eq!(lock.len(), 3);
    assert_eq!(lock.index_at(1), "root");
    assert_eq!(lock.root().len(), 1);
    assert_eq!(lock.position("z"), Some(2));

    let mut nodes: OrderedMap<Node> = OrderedMap::new();
    nodes.insert("a".to_string(), Node::new());
    assert_eq!(
        LockFile::from_nodes("root".to_string(), nodes, 7).err(),
        Some(GraphError::DanglingReference)
    );
    let nodes: OrderedMap<Node> = OrderedMap::new();
    assert_eq!(
        LockFile::from_nodes("root".to_string(), nodes, 3).err(),
        Some(GraphError::SchemaVersionUnsupported)
    );
}

#[test]
fn node_edges_are_found_replaced_and_kept_in_order() {
    let mut n = node(&[("a", idx("1")), ("b", follows(&["a"]))]);
    assert_eq!(n.len(), 2);
    assert_eq!(n.name_at(0), "a");
    assert_eq!(n.name_at(1), "b");
    assert!(n.edge_at(0).same_as(&idx("1")));
    assert!(n.get_edge("b").unwrap().same_as(&follows(&["a"])));
    assert!(n.get_edge("c").is_none());
    assert_eq!(n.index_of_edge("b"), Some(1));
    *n.edge_at_mut(0) = idx("2");
    assert!(n.edge_at(0).same_as(&idx("2")));
    assert_eq!(n.name_at(0), "a");
    n.set_edge_at(0, follows(&["b", "c"]));
    assert!(n.edge_at(0).same_as(&follows(&["b", "c"])));
    assert!(n.edge_at(1).same_as(&follows(&["a"])));
    let former = n.insert_edge("b".to_string(), idx("9")).unwrap();
    assert!(former.same_as(&follows(&["a"])));
    assert_eq!(n.len(), 2);
    assert!(n.insert_edge("c".to_string(), idx("3")).is_none());
    assert_eq!(n.name_at(2), "c");
    let copy = n.duplicate();
    assert!(copy.same_as(&n));
    assert!(!copy.same_as(&Node::new()));
}

#[test]
fn edges_compare_by_variant_and_content() {
    assert!(idx("a").same_as(&idx("a")));
    assert!(!idx("a").same_as(&idx("b")));
    assert!(!idx("a").same_as(&follows(&["a"])));
    assert!(follows(&["a", "b"]).same_as(&follows(&["a", "b"])));
    assert!(!follows(&["a", "b"]).same_as(&follows(&["a"])));
    assert!(!follows(&["a", "b"]).same_as(&follows(&["a", "c"])));
    assert_eq!(idx("a").index(), Some(&"a".to_string()));
    assert_eq!(follows(&["a"]).index(), None);
    assert!(NodeEdge::follows_root_input("n").same_as(&follows(&["n"])));
    assert!(idx("a").clone().same_as(&idx("a")));
}

#[test]
fn name_lists_are_copied_searched_and_compared() {
    let v = vec!["a".to_string(), "b".to_string()];
    assert_eq!(clone_names(&v), v);
    assert!(contains_name(&v, &"b".to_string()));
    assert!(!contains_name(&v, &"c".to_string()));
    assert!(same_names(&v, &v.clone()));
    assert!(!same_names(&v, &vec!["a".to_string()]));
    assert!(!same_names(&v, &vec!["a".to_string(), "c".to_string()]));
}

#[test]
fn nodes_are_looked_up_changed_and_removed() {
    let mut lock = graph(
        node(&[("a", idx("A"))]),
        &[("A", node(&[("b", idx("B"))])), ("B", Node::new())],
    );
    assert_eq!(lock.root_index(), "root");
    assert_eq!(lock.version(), 7);
    assert!(lock.get_node("A").is_some());
    assert!(lock.get_node("C").is_none());
    assert!(lock.get_node_mut("C").is_none());
    lock.get_node_mut("A").unwrap().set_edge_at(0, follows(&["a"]));
    assert!(lock.get_node("A").unwrap().edge_at(0).same_as(&follows(&["a"])));
    lock.node_at_mut(2).insert_edge("x".to_string(), idx("A"));
    assert_eq!(lock.node_at(2).len(), 1);
    assert!(lock.remove_node("C").is_none());
    assert_eq!(lock.len(), 3);
    let taken = lock.remove_node("A").unwrap();
    assert_eq!(taken.len(), 1);
    assert_eq!(lock.node_indices(), vec!["root", "B"]);
    let former = lock.insert_node("B".to_string(), Node::new()).unwrap();
    assert_eq!(former.len(), 1);
    assert_eq!(lock.node_indices(), vec!["root", "B"]);
}

#[test]
fn lock_files_compare_by_nodes_root_and_order() {
    let a = graph(node(&[("a", idx("A"))]), &[("A", Node::new()), ("B", Node::new())]);
    let b = graph(node(&[("a", idx("A"))]), &[("A", Node::new()), ("B", Node::new())]);
    let c = graph(node(&[("a", idx("A"))]), &[("B", Node::new()), ("A", Node::new())]);
    let d = graph(node(&[("a", idx("B"))]), &[("A", Node::new()), ("B", Node::new())]);
    assert!(a.same_as(&b));
    assert!(!a.same_as(&c));
    assert!(!a.same_as(&d));
}

#[test]
fn indexed_edge_resolves_to_its_node() {
    let lock = graph(node(&[("a", idx("A"))]), &[("A", Node::new())]);
    assert_eq!(lock.resolve_edge(&idx("A")), Ok("A".to_string()));
    assert_eq!(lock.resolve_edge(&idx("root")), Ok("root".to_string()));
}

#[test]
fn indexed_edge_to_a_missing_node_dangles() {
    let lock = graph(node(&[("a", idx("A"))]), &[("A", Node::new())]);
    assert_eq!(
        lock.resolve_edge(&idx("B")),
        Err(GraphError::DanglingReference)
    );
}

#[test]
fn follows_path_walks_from_the_root() {
    let lock = graph(
        node(&[("a", idx("A")), ("c", follows(&["a", "b"]))]),
        &[
            ("A", node(&[("b", idx("B")), ("up", follows(&["c"]))])),
            ("B", Node::new()),
        ],
    );
    assert_eq!(lock.resolve_edge(&follows(&[])), Ok("root".to_string()));
    assert_eq!(lock.resolve_edge(&follows(&["a"])), Ok("A".to_string()));
    assert_eq!(lock.resolve_edge(&follows(&["a", "b"])), Ok("B".to_string()));
    assert_eq!(lock.resolve_edge(&follows(&["c"])), Ok("B".to_string()));
    assert_eq!(lock.resolve_edge(&follows(&["a", "up"])), Ok("B".to_string()));
}

#[test]
fn follows_path_over_a_missing_input_is_unresolvable() {
    let lock = graph(node(&[("a", idx("A"))]), &[("A", Node::new())]);
    assert_eq!(
        lock.resolve_edge(&follows(&["b"])),
        Err(GraphError::UnresolvableFollowsPath)
    );
    assert_eq!(
        lock.resolve_edge(&follows(&["a", "b"])),
        Err(GraphError::UnresolvableFollowsPath)
    );
}

#[test]
fn follows_path_through_a_dangling_edge_dangles() {
    let lock = graph(node(&[("a", idx("gone"))]), &[]);
    assert_eq!(
        lock.resolve_edge(&follows(&["a"])),
        Err(GraphError::DanglingReference)
    );
}

#[test]
fn follows_path_that_defines_itself_is_a_cycle() {
    let lock = graph(node(&[("a", follows(&["a"]))]), &[]);
    assert_eq!(
        lock.resolve_edge(&follows(&["a"])),
        Err(GraphError::FollowsCycle)
    );
    let lock = graph(
        node(&[("a", follows(&["b"])), ("b", follows(&["a"]))]),
        &[],
    );
    assert_eq!(
        lock.resolve_edge(&follows(&["b"])),
        Err(GraphError::FollowsCycle)
    );
    let lock = graph(
        node(&[("a", idx("A")), ("b", follows(&["a", "x"]))]),
        &[("A", node(&[("x", follows(&["b"]))]))],
    );
    assert_eq!(
        lock.resolve_edge(&follows(&["b"])),
        Err(GraphError::FollowsCycle)
    );
    assert_eq!(lock.resolve_edge(&follows(&["a"])), Ok("A".to_string()));
}

#[test]
fn an_input_may_be_met_twice_on_one_path_when_not_inside_itself() {
    // [a, x, a]: the input "a" of the root is taken twice, one after the
    // other, never while its own edge is being resolved.
    let lock = graph(
        node(&[("a", idx("A"))]),
        &[("A", node(&[("x", idx("root"))]))],
    );
    assert_eq!(
        lock.resolve_edge(&follows(&["a", "x", "a"])),
        Ok("A".to_string())
    );
    let lock = graph(
        node(&[("a", idx("A")), ("f", follows(&["a"])), ("g", follows(&["f", "y"]))]),
        &[("A", node(&[("y", follows(&["f"]))]))],
    );
    assert_eq!(lock.resolve_edge(&follows(&["g"])), Ok("A".to_string()));
}

#[test]
fn resolution_nests_as_deep_as_the_graph_goes() {
    // i0 is indexed; each i(k+1) follows i(k).
    let mut root = node(&[("i0", idx("A"))]);
    for k in 1..=300 {
        root.insert_edge(format!("i{}", k), follows(&[&format!("i{}", k - 1)]));
    }
    let lock = graph(root, &[("A", Node::new())]);
    assert_eq!(lock.resolve_edge(&follows(&["i300"])), Ok("A".to_string()));
    let mut busy = vec![("root".to_string(), "i7".to_string())];
    assert_eq!(
        lock.resolve_from(&follows(&["i6"]), &mut busy),
        Ok("A".to_string())
    );
    assert_eq!(busy, vec![("root".to_string(), "i7".to_string())]);
    assert_eq!(
        lock.resolve_from(&follows(&["i9"]), &mut busy),
        Err(GraphError::FollowsCycle)
    );
    assert_eq!(busy[0], ("root".to_string(), "i7".to_string()));
}
