use allfollow::config::print_flake_follows_config;
use allfollow::follows::substitute_flake_inputs_with_follows;
use allfollow::lock::{LockFile, Node, NodeEdge};
use allfollow::manifest::update_flake_nix;
use allfollow::ordered_map::OrderedMap;
use allfollow::prune::prune_orphan_nodes;

const HYPRLAND_LOCK_NO_FOLLOWS: &str = r#"{
  "nodes": {
    "aquamarine": {
      "inputs": {
        "hyprutils": "hyprutils_2",
        "hyprwayland-scanner": "hyprwayland-scanner_2",
        "nixpkgs": "nixpkgs_2",
        "systems": "systems_2"
      },
      "locked": { "owner": "hyprwm", "repo": "aquamarine", "type": "github" }
    },
    "hyprcursor": {
      "inputs": {
        "hyprlang": "hyprlang_2",
        "nixpkgs": "nixpkgs_3",
        "systems": "systems_3"
      }
    },
    "hyprland-protocols": {
      "inputs": { "nixpkgs": "nixpkgs_10" }
    },
    "hyprlang": {
      "inputs": {
        "hyprutils": "hyprutils_3",
        "nixpkgs": "nixpkgs_4",
        "systems": "systems_4"
      }
    },
    "hyprlang_2": {
      "inputs": {
        "hyprutils": "hyprutils_4",
        "nixpkgs": "nixpkgs_5",
        "systems": "systems_5"
      }
    },
    "hyprlang_3": {},
    "hyprutils": {
      "inputs": { "nixpkgs": "nixpkgs_6", "systems": "systems_6" }
    },
    "hyprutils_2": {
      "inputs": { "nixpkgs": "nixpkgs_7", "systems": "systems_7" }
    },
    "hyprutils_3": {},
    "hyprutils_4": {},
    "hyprwayland-scanner": {
      "inputs": { "nixpkgs": "nixpkgs_8", "systems": "systems_8" }
    },
    "hyprwayland-scanner_2": {},
    "nixpkgs": { "locked": { "type": "github" } },
    "nixpkgs_10": {},
    "nixpkgs_2": {},
    "nixpkgs_3": {},
    "nixpkgs_4": {},
    "nixpkgs_5": {},
    "nixpkgs_6": {},
    "nixpkgs_7": {},
    "nixpkgs_8": {},
    "nixpkgs_9": {},
    "root": {
      "inputs": {
        "aquamarine": "aquamarine",
        "hyprcursor": "hyprcursor",
        "hyprlang": "hyprlang",
        "hyprutils": "hyprutils",
        "hyprwayland-scanner": "hyprwayland-scanner",
        "nixpkgs": "nixpkgs",
        "systems": "systems",
        "xdph": "xdph"
      }
    },
    "systems": {},
    "systems_2": {},
    "systems_3": {},
    "systems_4": {},
    "systems_5": {},
    "systems_6": {},
    "systems_7": {},
    "systems_8": {},
    "xdph": {
      "inputs": {
        "hyprland-protocols": "hyprland-protocols",
        "hyprlang": "hyprlang_3",
        "nixpkgs": "nixpkgs_9"
      }
    }
  },
  "root": "root",
  "version": 7
}"#;

fn read_flake_lock(text: &str) -> LockFile {
    let value: serde_json::Value = serde_json::from_str(text).unwrap();
    let mut nodes: OrderedMap<Node> = OrderedMap::new();
    for (index, body) in value.get("nodes").unwrap().as_object().unwrap() {
        let mut node = Node::new();
        if let Some(inputs) = body.get("inputs") {
            for (name, edge) in inputs.as_object().unwrap() {
                let edge = match edge.as_str() {
                    Some(id) => NodeEdge::Indexed(id.to_string()),
                    None => NodeEdge::Follows(
                        edge.as_array()
                            .unwrap()
                            .iter()
                            .map(|part| part.as_str().unwrap().to_string())
                            .collect(),
                    ),
                };
                node.insert_edge(name.clone(), edge);
            }
        }
        nodes.insert(index.clone(), node);
    }
    let root = value.get("root").unwrap().as_str().unwrap().to_string();
    let version = value.get("version").unwrap().as_u64().unwrap() as u32;
    LockFile::from_nodes(root, nodes, version).unwrap()
}

fn edge_text(lock: &LockFile, index: &str, name: &str) -> String {
    match lock.get_node(index).unwrap().get_edge(name).unwrap() {
        NodeEdge::Indexed(id) => id.clone(),
        NodeEdge::Follows(path) => format!("[{}]", path.join(",")),
    }
}

#[test]
fn prune_hyprland_flake_lock() {
    let mut lock = read_flake_lock(HYPRLAND_LOCK_NO_FOLLOWS);
    substitute_flake_inputs_with_follows(&mut lock, false).unwrap();
    prune_orphan_nodes(&mut lock).unwrap();
    assert_eq!(
        lock.node_indices(),
        vec![
            "aquamarine",
            "hyprcursor",
            "hyprland-protocols",
            "hyprlang",
            "hyprutils",
            "hyprwayland-scanner",
            "nixpkgs",
            "nixpkgs_10",
            "root",
            "systems",
            "xdph",
        ]
    );
    assert_eq!(edge_text(&lock, "aquamarine", "hyprutils"), "[hyprutils]");
    assert_eq!(
        edge_text(&lock, "aquamarine", "hyprwayland-scanner"),
        "[hyprwayland-scanner]"
    );
    assert_eq!(edge_text(&lock, "aquamarine", "nixpkgs"), "[nixpkgs]");
    assert_eq!(edge_text(&lock, "aquamarine", "systems"), "[systems]");
    assert_eq!(edge_text(&lock, "hyprcursor", "hyprlang"), "[hyprlang]");
    assert_eq!(edge_text(&lock, "hyprlang", "hyprutils"), "[hyprutils]");
    assert_eq!(edge_text(&lock, "hyprutils", "nixpkgs"), "[nixpkgs]");
    assert_eq!(
        edge_text(&lock, "xdph", "hyprland-protocols"),
        "hyprland-protocols"
    );
    assert_eq!(edge_text(&lock, "xdph", "hyprlang"), "[hyprlang]");
    assert_eq!(edge_text(&lock, "xdph", "nixpkgs"), "[nixpkgs]");
    assert_eq!(
        edge_text(&lock, "hyprland-protocols", "nixpkgs"),
        "nixpkgs_10"
    );
    assert_eq!(edge_text(&lock, "root", "aquamarine"), "aquamarine");
    assert_eq!(lock.root_index(), "root");
    assert_eq!(lock.version(), 7);
}

#[test]
fn config_hyprland_flake_lock() {
    let lock = read_flake_lock(HYPRLAND_LOCK_NO_FOLLOWS);
    let output = print_flake_follows_config(&lock).unwrap();
    let expected = [
        "# START INPUT FOLLOW BLOCK -- DO NOT EDIT MANUALLY",
        "inputs = {",
        "    aquamarine.inputs.hyprutils.follows = \"hyprutils\";",
        "    aquamarine.inputs.hyprwayland-scanner.follows = \"hyprwayland-scanner\";",
        "    aquamarine.inputs.nixpkgs.follows = \"nixpkgs\";",
        "    aquamarine.inputs.systems.follows = \"systems\";",
        "    hyprcursor.inputs.hyprlang.follows = \"hyprlang\";",
        "    hyprcursor.inputs.nixpkgs.follows = \"nixpkgs\";",
        "    hyprcursor.inputs.systems.follows = \"systems\";",
        "    hyprlang.inputs.hyprutils.follows = \"hyprutils\";",
        "    hyprlang.inputs.nixpkgs.follows = \"nixpkgs\";",
        "    hyprlang.inputs.systems.follows = \"systems\";",
        "    hyprutils.inputs.nixpkgs.follows = \"nixpkgs\";",
        "    hyprutils.inputs.systems.follows = \"systems\";",
        "    hyprwayland-scanner.inputs.nixpkgs.follows = \"nixpkgs\";",
        "    hyprwayland-scanner.inputs.systems.follows = \"systems\";",
        "    xdph.inputs.hyprland-protocols.inputs.nixpkgs.follows = \"nixpkgs\";",
        "    xdph.inputs.hyprlang.follows = \"hyprlang\";",
        "    xdph.inputs.nixpkgs.follows = \"nixpkgs\";",
        "};",
        "# END INPUT FOLLOW BLOCK -- DO NOT EDIT MANUALLY",
    ]
    .join("\n");
    assert_eq!(output, expected);
}

#[test]
fn config_in_place_test() {
    let initial_content = r#"
{
  inputs.nixpkgs.url = "github:NixOS/nixpkgs/nixos-unstable";

  # START INPUT FOLLOW BLOCK -- DO NOT EDIT MANUALLY
  # END INPUT FOLLOW BLOCK -- DO NOT EDIT MANUALLY

  outputs = { self, nixpkgs }: { };
}
"#;
    let lock = read_flake_lock(HYPRLAND_LOCK_NO_FOLLOWS);
    let config_output = print_flake_follows_config(&lock).unwrap();

    let updated = update_flake_nix(initial_content.as_bytes(), config_output.as_bytes()).unwrap();
    let updated_content = String::from_utf8(updated).unwrap();

    assert!(updated_content.contains("inputs = {"));
    assert!(updated_content.contains("aquamarine.inputs.hyprutils.follows = \"hyprutils\";"));
    assert!(updated_content.contains("# START INPUT FOLLOW BLOCK -- DO NOT EDIT MANUALLY"));

    assert!(updated_content.contains("\n  inputs = {"));
}
