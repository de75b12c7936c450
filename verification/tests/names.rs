use allfollow::names::{clone_names, contains_name, contains_pair, same_names};

fn names(v: &[&str]) -> Vec<String> {
    v.iter().map(|s| s.to_string()).collect()
}

#[test]
fn pairs_are_found_by_both_parts() {
    let v = vec![
        ("a".to_string(), "x".to_string()),
        ("b".to_string(), "y".to_string()),
    ];
    assert!(contains_pair(&v, &"a".to_string(), &"x".to_string()));
    assert!(contains_pair(&v, &"b".to_string(), &"y".to_string()));
    assert!(!contains_pair(&v, &"a".to_string(), &"y".to_string()));
    assert!(!contains_pair(&v, &"b".to_string(), &"x".to_string()));
    assert!(!contains_pair(&Vec::new(), &"a".to_string(), &"x".to_string()));
}

#[test]
fn empty_lists_of_names() {
    assert!(clone_names(&Vec::new()).is_empty());
    assert!(!contains_name(&Vec::new(), &"a".to_string()));
    assert!(same_names(&Vec::new(), &Vec::new()));
    assert!(!same_names(&Vec::new(), &names(&["a"])));
}
