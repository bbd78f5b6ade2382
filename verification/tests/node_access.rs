use tr_gen::node::{duplicate_entries, position, Node};

fn leaf(text: &str) -> Node {
    Node::Leaf(text.to_string())
}

fn entry(key: &str, node: Node) -> (String, Node) {
    (key.to_string(), node)
}

fn sample() -> Node {
    Node::Branch(vec![
        entry("home", Node::Branch(vec![entry("title", leaf("Hi")), entry("sub", Node::Branch(vec![entry("label", leaf("X"))]))])),
        entry("footer", leaf("Bye")),
    ])
}

#[test]
fn new_node_is_an_empty_branch() {
    assert_eq!(Node::new(), Node::Branch(vec![]));
    assert!(Node::new().is_branch());
}

#[test]
fn leaf_and_branch_are_told_apart() {
    assert!(leaf("x").is_leaf());
    assert!(!leaf("x").is_branch());
    assert!(sample().is_branch());
    assert!(!sample().is_leaf());
}

#[test]
fn as_leaf_gives_the_text_of_a_leaf_only() {
    assert_eq!(leaf("x").as_leaf(), Some(&"x".to_string()));
    assert_eq!(sample().as_leaf(), None);
}

#[test]
fn as_branch_gives_the_entries_of_a_branch_only() {
    assert_eq!(leaf("x").as_branch(), None);
    let tree = sample();
    let entries = tree.as_branch().unwrap();
    assert_eq!(entries.len(), 2);
    assert_eq!(entries[0].0, "home");
    assert_eq!(entries[1], entry("footer", leaf("Bye")));
}

#[test]
fn get_finds_a_child_by_key() {
    let tree = sample();
    assert_eq!(tree.get("footer"), Some(&leaf("Bye")));
    assert_eq!(tree.get("missing"), None);
    assert_eq!(leaf("x").get("footer"), None);
}

#[test]
fn lookup_walks_a_path() {
    let tree = sample();
    let path = vec!["home".to_string(), "sub".to_string(), "label".to_string()];
    assert_eq!(tree.lookup(&path), Some(&leaf("X")));
    assert_eq!(tree.lookup(&vec![]), Some(&tree));
    assert_eq!(tree.lookup(&vec!["home".to_string(), "nothing".to_string()]), None);
    assert_eq!(tree.lookup(&vec!["footer".to_string(), "below".to_string()]), None);
}

#[test]
fn position_is_the_first_index_of_the_key() {
    let entries = vec![entry("a", leaf("1")), entry("b", leaf("2")), entry("a", leaf("3"))];
    assert_eq!(position(&entries, &"a".to_string()), Some(0));
    assert_eq!(position(&entries, &"b".to_string()), Some(1));
    assert_eq!(position(&entries, &"c".to_string()), None);
}

#[test]
fn duplicate_is_a_deep_copy() {
    let tree = sample();
    assert_eq!(tree.duplicate(), tree);
    assert_eq!(tree.clone(), tree);
    let entries = vec![entry("a", sample()), entry("b", leaf("2"))];
    assert_eq!(duplicate_entries(&entries), entries);
}

#[test]
fn well_formed_trees_have_unique_keys_at_every_depth() {
    assert!(sample().is_well_formed());
    assert!(leaf("x").is_well_formed());
    assert!(Node::new().is_well_formed());
    let twice = Node::Branch(vec![entry("a", leaf("1")), entry("b", leaf("2")), entry("a", leaf("3"))]);
    assert!(!twice.is_well_formed());
    let deep = Node::Branch(vec![entry("a", leaf("1")), entry("b", twice)]);
    assert!(!deep.is_well_formed());
    assert!(tr_gen::node::has_unique_keys(&vec![entry("a", leaf("1")), entry("b", leaf("1"))]));
    assert!(!tr_gen::node::has_unique_keys(&vec![entry("a", leaf("1")), entry("a", leaf("1"))]));
    assert!(tr_gen::node::entries_are_well_formed(&vec![entry("a", sample())]));
}
