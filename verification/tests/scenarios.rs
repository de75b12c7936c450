use allfollow::config::print_flake_follows_config;
use allfollow::follows::substitute_flake_inputs_with_follows;
use allfollow::lock::{LockFile, Node, NodeEdge};
use allfollow::manifest::update_flake_nix;
use allfollow::prune::prune_orphan_nodes;
use allfollow::visits::FlakeNodeVisits;

fn idx(id: &str) -> NodeEdge {
    NodeEdge::Indexed(id.to_string())
}

fn node(edges: &[(&str, NodeEdge)]) -> Node {
    let mut n = Node::new();
    for (name, edge) in edges {
        n.insert_edge(name.to_string(), edge.clone());
    }
    n
}

fn sample() -> LockFile {
    let root = node(&[("nixpkgs", idx("N1")), ("foo", idx("N2"))]);
    let mut lock = LockFile::new("root".to_string(), root, 7).unwrap();
    lock.insert_node("N1".to_string(), Node::new());
    lock.insert_node("N2".to_string(), node(&[("nixpkgs", idx("N3"))]));
    lock.insert_node("N3".to_string(), Node::new());
    lock
}

fn follows_path(edge: &NodeEdge) -> Option<Vec<String>> {
    match edge {
        NodeEdge::Follows(path) => Some(path.clone()),
        NodeEdge::Indexed(_) => None,
    }
}

#[test]
fn substitution_then_pruning_on_the_small_graph() {
    let mut lock = sample();
    let reports = substitute_flake_inputs_with_follows(&mut lock, false).unwrap();
    assert_eq!(reports.len(), 2);
    let n2 = lock.get_node("N2").unwrap();
    assert_eq!(
        follows_path(n2.get_edge("nixpkgs").unwrap()),
        Some(vec!["nixpkgs".to_string()])
    );
    let removed = prune_orphan_nodes(&mut lock).unwrap();
    assert_eq!(removed, vec!["N3".to_string()]);
    assert_eq!(
        lock.node_indices(),
        vec!["root".to_string(), "N1".to_string(), "N2".to_string()]
    );
    let tally = FlakeNodeVisits::count_from_index(&lock, "root").unwrap();
    assert_eq!(tally.get("root"), Some(1));
    assert_eq!(tally.get("N1"), Some(2));
    assert_eq!(tally.get("N2"), Some(1));
    assert_eq!(tally.get("N3"), None);
}

#[test]
fn config_of_the_small_graph_is_one_line() {
    let lock = sample();
    let text = print_flake_follows_config(&lock).unwrap();
    assert_eq!(
        text,
        "# START INPUT FOLLOW BLOCK -- DO NOT EDIT MANUALLY\n\
         inputs = {\n    foo.inputs.nixpkgs.follows = \"nixpkgs\";\n};\n\
         # END INPUT FOLLOW BLOCK -- DO NOT EDIT MANUALLY"
    );
}

#[test]
fn manifest_patch_keeps_indentation_and_surroundings() {
    let content = "{\n  a = 1;\n  # START INPUT FOLLOW BLOCK -- DO NOT EDIT MANUALLY\n  old\n  # END INPUT FOLLOW BLOCK -- DO NOT EDIT MANUALLY\n  b = 2;\n}\n";
    let config = print_flake_follows_config(&sample()).unwrap();
    let out = update_flake_nix(content.as_bytes(), config.as_bytes()).unwrap();
    let out = String::from_utf8(out).unwrap();
    assert_eq!(
        out,
        "{\n  a = 1;\n  # START INPUT FOLLOW BLOCK -- DO NOT EDIT MANUALLY\n  inputs = {\n      foo.inputs.nixpkgs.follows = \"nixpkgs\";\n  };\n  # END INPUT FOLLOW BLOCK -- DO NOT EDIT MANUALLY\n  b = 2;\n}\n"
    );
    assert!(out.starts_with("{\n  a = 1;\n"));
    assert!(out.ends_with("\n  b = 2;\n}\n"));
}
