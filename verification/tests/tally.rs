use allfollow::lock::{LockFile, Node, NodeEdge};
use allfollow::model::GraphError;
use allfollow::visits::{recurse_inputs, FlakeNodeVisits, RowStyle};

fn idx(id: &str) -> NodeEdge {
    NodeEdge::Indexed(id.to_string())
}

fn follows(path: &[&str]) -> NodeEdge {
    NodeEdge::Follows(path.iter().map(|s| s.to_string()).collect())
}

fn node(edges: &[(&str, NodeEdge)]) -> Node {
    let mut n = Node::new();
    for (name, edge) in edges {
        n.insert_edge(name.to_string(), edge.clone());
    }
    n
}

fn graph(root: Node, others: &[(&str, Node)]) -> LockFile {
    let mut lock = LockFile::new("root".to_string(), root, 7).unwrap();
    for (index, n) in others {
        lock.insert_node(index.to_string(), n.duplicate());
    }
    lock
}

fn counts(tally: &FlakeNodeVisits) -> Vec<(String, u32)> {
    (0..tally.len())
        .map(|i| (tally.index_at(i).clone(), tally.count_at(i)))
        .collect()
}

fn diamond() -> LockFile {
    // root -> a, b; a -> c; b -> c; c -> d; e is an orphan
    graph(
        node(&[("a", idx("A")), ("b", idx("B"))]),
        &[
            ("A", node(&[("c", idx("C"))])),
            ("B", node(&[("c", idx("C"))])),
            ("C", node(&[("d", idx("D"))])),
            ("D", Node::new()),
            ("E", node(&[("d", idx("D"))])),
        ],
    )
}

#[test]
fn tally_counts_every_way_to_a_node() {
    let tally = FlakeNodeVisits::count_from_index(&diamond(), "root").unwrap();
    assert_eq!(
        counts(&tally),
        vec![
            ("root".to_string(), 1),
            ("A".to_string(), 1),
            ("B".to_string(), 1),
            ("C".to_string(), 2),
            ("D".to_string(), 2),
            ("E".to_string(), 0),
        ]
    );
    assert_eq!(tally.root_index(), "root");
    assert_eq!(tally.get("C"), Some(2));
    assert_eq!(tally.get("E"), Some(0));
    assert_eq!(tally.get("F"), None);
}

#[test]
fn tally_is_relative_to_where_the_walk_begins() {
    let tally = FlakeNodeVisits::count_from_index(&diamond(), "E").unwrap();
    assert_eq!(
        counts(&tally),
        vec![
            ("root".to_string(), 0),
            ("A".to_string(), 0),
            ("B".to_string(), 0),
            ("C".to_string(), 0),
            ("D".to_string(), 1),
            ("E".to_string(), 1),
        ]
    );
    assert_eq!(tally.root_index(), "E");
}

#[test]
fn tally_follows_follows_paths() {
    let lock = graph(
        node(&[("a", idx("A")), ("b", idx("B"))]),
        &[("A", node(&[("b", follows(&["b"]))])), ("B", Node::new())],
    );
    let tally = FlakeNodeVisits::count_from_index(&lock, "root").unwrap();
    assert_eq!(
        counts(&tally),
        vec![
            ("root".to_string(), 1),
            ("A".to_string(), 1),
            ("B".to_string(), 2),
        ]
    );
}

#[test]
fn tally_of_a_missing_start_dangles() {
    assert_eq!(
        FlakeNodeVisits::count_from_index(&diamond(), "nowhere").err(),
        Some(GraphError::DanglingReference)
    );
}

#[test]
fn tally_of_a_cyclic_graph_fails() {
    let lock = graph(
        node(&[("a", idx("A"))]),
        &[("A", node(&[("b", idx("B"))])), ("B", node(&[("a", idx("A"))]))],
    );
    assert_eq!(
        FlakeNodeVisits::count_from_index(&lock, "root").err(),
        Some(GraphError::CyclicGraph)
    );
    let lock = graph(node(&[("me", idx("root"))]), &[]);
    assert_eq!(
        FlakeNodeVisits::count_from_index(&lock, "root").err(),
        Some(GraphError::CyclicGraph)
    );
}

#[test]
fn tally_fails_with_the_first_edge_that_does_not_resolve() {
    let lock = graph(
        node(&[("a", idx("A")), ("b", idx("gone"))]),
        &[("A", node(&[("x", follows(&["nope"]))]))],
    );
    assert_eq!(
        FlakeNodeVisits::count_from_index(&lock, "root").err(),
        Some(GraphError::UnresolvableFollowsPath)
    );
    let lock = graph(
        node(&[("b", idx("gone")), ("a", idx("A"))]),
        &[("A", node(&[("x", follows(&["nope"]))]))],
    );
    assert_eq!(
        FlakeNodeVisits::count_from_index(&lock, "root").err(),
        Some(GraphError::DanglingReference)
    );
}

#[test]
fn walk_counts_into_a_tally_and_restores_the_path() {
    let lock = diamond();
    let mut tally = FlakeNodeVisits::count_from_index(&lock, "root").unwrap();
    let mut visited = vec!["root".to_string()];
    assert_eq!(
        recurse_inputs(&lock, &"C".to_string(), &mut visited, &mut tally),
        Ok(())
    );
    assert_eq!(visited, vec!["root".to_string()]);
    assert_eq!(tally.get("C"), Some(3));
    assert_eq!(tally.get("D"), Some(3));
    assert_eq!(tally.get("A"), Some(1));
    assert_eq!(
        recurse_inputs(&lock, &"root".to_string(), &mut visited, &mut tally),
        Err(GraphError::CyclicGraph)
    );
    assert_eq!(visited, vec!["root".to_string()]);
    assert_eq!(tally.get("root"), Some(1));
    assert_eq!(tally.get("C"), Some(3));
}

#[test]
fn walk_from_a_node_that_the_graph_lacks_counts_nothing() {
    let lock = diamond();
    let mut tally = FlakeNodeVisits::count_from_index(&lock, "root").unwrap();
    let before = counts(&tally);
    let mut visited = vec!["root".to_string(), "A".to_string()];
    assert_eq!(
        recurse_inputs(&lock, &"gone".to_string(), &mut visited, &mut tally),
        Err(GraphError::DanglingReference)
    );
    assert_eq!(counts(&tally), before);
    assert_eq!(visited, vec!["root".to_string(), "A".to_string()]);
}

#[test]
fn rows_are_styled_by_start_and_count() {
    let tally = FlakeNodeVisits::count_from_index(&diamond(), "root").unwrap();
    assert_eq!(tally.row_style(0), RowStyle::Start);
    assert_eq!(tally.row_style(1), RowStyle::Scarce);
    assert_eq!(tally.row_style(3), RowStyle::Shared);
    assert_eq!(tally.row_style(5), RowStyle::Scarce);
}

#[test]
fn pad_is_the_longest_identifier_in_bytes() {
    let lock = graph(
        node(&[("a", idx("abc"))]),
        &[("abc", Node::new()), ("näh", Node::new())],
    );
    let tally = FlakeNodeVisits::count_from_index(&lock, "root").unwrap();
    assert_eq!(tally.max_pad(), 4);
    let lock = graph(Node::new(), &[("a-longer-name", Node::new())]);
    let tally = FlakeNodeVisits::count_from_index(&lock, "root").unwrap();
    assert_eq!(tally.max_pad(), 13);
    let inner = tally.into_inner();
    assert_eq!(inner.len(), 2);
    assert_eq!(inner.get("root"), Some(&1));
    assert_eq!(inner.get_index(1), Some((&"a-longer-name".to_string(), &0)));
}
