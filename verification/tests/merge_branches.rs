use tr_gen::merge::{combine_nodes, extended_string_or_hashmap, merge_entries};
use tr_gen::node::Node;

fn leaf(text: &str) -> Node {
    Node::Leaf(text.to_string())
}

fn entry(key: &str, node: Node) -> (String, Node) {
    (key.to_string(), node)
}

#[test]
fn extended_adds_new_keys_behind_the_old_ones() {
    let old = vec![entry("b", leaf("1")), entry("a", leaf("2"))];
    let new = vec![entry("d", leaf("3")), entry("c", leaf("4"))];
    assert_eq!(
        extended_string_or_hashmap(old, new),
        vec![entry("b", leaf("1")), entry("a", leaf("2")), entry("d", leaf("3")), entry("c", leaf("4"))]
    );
}

#[test]
fn extended_merges_two_branches_under_one_key() {
    let old = vec![entry("a", Node::Branch(vec![entry("b", Node::Branch(vec![entry("c", leaf("1"))]))]))];
    let new = vec![entry("a", Node::Branch(vec![entry("b", Node::Branch(vec![entry("d", leaf("2"))]))]))];
    assert_eq!(
        extended_string_or_hashmap(old, new),
        vec![entry("a", Node::Branch(vec![entry("b", Node::Branch(vec![entry("c", leaf("1")), entry("d", leaf("2"))]))]))]
    );
}

#[test]
fn extended_keeps_a_branch_where_a_leaf_comes() {
    let old = vec![entry("a", Node::Branch(vec![entry("b", leaf("1"))]))];
    let new = vec![entry("a", leaf("2"))];
    assert_eq!(extended_string_or_hashmap(old.clone(), new), old);
}

#[test]
fn extended_lets_a_branch_take_the_place_of_a_leaf() {
    let old = vec![entry("x", leaf("0")), entry("a", leaf("1")), entry("y", leaf("9"))];
    let new = vec![entry("a", Node::Branch(vec![entry("b", leaf("2"))]))];
    assert_eq!(
        extended_string_or_hashmap(old, new),
        vec![entry("x", leaf("0")), entry("a", Node::Branch(vec![entry("b", leaf("2"))])), entry("y", leaf("9"))]
    );
}

#[test]
fn extended_takes_the_later_of_two_leaves() {
    let old = vec![entry("a", leaf("1"))];
    let new = vec![entry("a", leaf("2"))];
    assert_eq!(extended_string_or_hashmap(old, new), vec![entry("a", leaf("2"))]);
}

#[test]
fn extended_takes_the_later_text_of_a_nested_path_given_twice() {
    let old = vec![entry("a", Node::Branch(vec![entry("b", leaf("1"))]))];
    let new = vec![entry("a", Node::Branch(vec![entry("b", leaf("2"))]))];
    assert_eq!(extended_string_or_hashmap(old, new), vec![entry("a", Node::Branch(vec![entry("b", leaf("2"))]))]);
}

#[test]
fn extended_by_nothing_and_of_nothing() {
    let some = vec![entry("a", leaf("1")), entry("b", Node::Branch(vec![]))];
    assert_eq!(extended_string_or_hashmap(some.clone(), vec![]), some);
    assert_eq!(extended_string_or_hashmap(vec![], some.clone()), some);
    assert_eq!(extended_string_or_hashmap(vec![], vec![]), vec![]);
}

#[test]
fn merge_entries_agrees_with_extended() {
    let old = vec![entry("a", Node::Branch(vec![entry("b", leaf("1"))])), entry("k", leaf("2"))];
    let new = vec![entry("k", Node::Branch(vec![])), entry("a", Node::Branch(vec![entry("c", leaf("3"))])), entry("z", leaf("4"))];
    assert_eq!(merge_entries(&old, &new), extended_string_or_hashmap(old.clone(), new.clone()));
    assert_eq!(
        merge_entries(&old, &new),
        vec![
            entry("a", Node::Branch(vec![entry("b", leaf("1")), entry("c", leaf("3"))])),
            entry("k", Node::Branch(vec![])),
            entry("z", leaf("4")),
        ]
    );
}

#[test]
fn combine_nodes_covers_the_four_cases() {
    let b1 = Node::Branch(vec![entry("x", leaf("1"))]);
    let b2 = Node::Branch(vec![entry("y", leaf("2"))]);
    assert_eq!(combine_nodes(&b1, &b2), Node::Branch(vec![entry("x", leaf("1")), entry("y", leaf("2"))]));
    assert_eq!(combine_nodes(&b1, &leaf("l")), b1);
    assert_eq!(combine_nodes(&leaf("l"), &b2), b2);
    assert_eq!(combine_nodes(&leaf("first"), &leaf("second")), leaf("second"));
}
