use tr_gen::builder::{build, cell_text, chain_of, insert_row, put_entry};
use tr_gen::node::Node;

fn leaf(text: &str) -> Node {
    Node::Leaf(text.to_string())
}

fn entry(key: &str, node: Node) -> (String, Node) {
    (key.to_string(), node)
}

fn branch(entries: Vec<(String, Node)>) -> Node {
    Node::Branch(entries)
}

fn table(rows: &[&[&str]]) -> Vec<Vec<String>> {
    rows.iter().map(|row| row.iter().map(|cell| cell.to_string()).collect()).collect()
}

fn path(segments: &[&str]) -> Vec<String> {
    segments.iter().map(|x| x.to_string()).collect()
}

#[test]
fn cell_text_pads_short_rows_with_empty_text() {
    let row = path(&["k", "v"]);
    assert_eq!(cell_text(&row, 0), "k");
    assert_eq!(cell_text(&row, 1), "v");
    assert_eq!(cell_text(&row, 2), "");
    assert_eq!(cell_text(&vec![], 0), "");
    assert_eq!(cell_text(&row, usize::MAX), "");
}

#[test]
fn put_entry_overwrites_in_place_or_appends() {
    let mut entries = vec![entry("a", leaf("1")), entry("b", leaf("2"))];
    put_entry(&mut entries, "a".to_string(), leaf("3"));
    assert_eq!(entries, vec![entry("a", leaf("3")), entry("b", leaf("2"))]);
    put_entry(&mut entries, "c".to_string(), leaf("4"));
    assert_eq!(entries, vec![entry("a", leaf("3")), entry("b", leaf("2")), entry("c", leaf("4"))]);
}

#[test]
fn chain_of_nests_the_segments() {
    assert_eq!(chain_of(&path(&[]), "v".to_string()), leaf("v"));
    assert_eq!(chain_of(&path(&["a"]), "v".to_string()), branch(vec![entry("a", leaf("v"))]));
    assert_eq!(
        chain_of(&path(&["a", "b", "c"]), "v".to_string()),
        branch(vec![entry("a", branch(vec![entry("b", branch(vec![entry("c", leaf("v"))]))]))])
    );
}

#[test]
fn single_segment_key_is_a_leaf_under_the_root() {
    let root = insert_row(vec![], "title", "T".to_string());
    assert_eq!(root, vec![entry("title", leaf("T"))]);
}

#[test]
fn single_segment_key_overwrites_what_stood_there() {
    let root = insert_row(vec![], "a.b", "1".to_string());
    let root = insert_row(root, "x", "2".to_string());
    let root = insert_row(root, "a", "3".to_string());
    assert_eq!(root, vec![entry("a", leaf("3")), entry("x", leaf("2"))]);
    let root = insert_row(root, "x", "4".to_string());
    assert_eq!(root, vec![entry("a", leaf("3")), entry("x", leaf("4"))]);
}

#[test]
fn rows_with_a_common_prefix_are_siblings() {
    let root = insert_row(vec![], "a.b.c", "1".to_string());
    let root = insert_row(root, "a.b.d", "2".to_string());
    assert_eq!(
        root,
        vec![entry("a", branch(vec![entry("b", branch(vec![entry("c", leaf("1")), entry("d", leaf("2"))]))]))]
    );
    let tree = branch(root);
    assert_eq!(tree.lookup(&path(&["a", "b", "c"])), Some(&leaf("1")));
    assert_eq!(tree.lookup(&path(&["a", "b", "d"])), Some(&leaf("2")));
    assert!(tree.lookup(&path(&["a", "b"])).unwrap().is_branch());
}

#[test]
fn a_deeper_path_turns_a_leaf_into_a_branch() {
    let root = insert_row(vec![], "a", "1".to_string());
    let root = insert_row(root, "s", "0".to_string());
    let root = insert_row(root, "a.b", "2".to_string());
    assert_eq!(root, vec![entry("a", branch(vec![entry("b", leaf("2"))])), entry("s", leaf("0"))]);
    let root = insert_row(root, "a.b.c", "3".to_string());
    assert_eq!(
        root,
        vec![entry("a", branch(vec![entry("b", branch(vec![entry("c", leaf("3"))]))])), entry("s", leaf("0"))]
    );
}

#[test]
fn a_nested_leaf_does_not_replace_a_branch() {
    let root = insert_row(vec![], "a.b.c", "1".to_string());
    let root = insert_row(root, "a.b", "2".to_string());
    assert_eq!(root, vec![entry("a", branch(vec![entry("b", branch(vec![entry("c", leaf("1"))]))]))]);
}

#[test]
fn a_nested_path_given_twice_takes_its_last_text() {
    let root = insert_row(vec![], "a.b", "1".to_string());
    let root = insert_row(root, "a.c", "x".to_string());
    let root = insert_row(root, "a.b", "2".to_string());
    assert_eq!(root, vec![entry("a", branch(vec![entry("b", leaf("2")), entry("c", leaf("x"))]))]);
    let root = insert_row(root, "a.b", "3".to_string());
    assert_eq!(root, vec![entry("a", branch(vec![entry("b", leaf("3")), entry("c", leaf("x"))]))]);
}

#[test]
fn empty_key_and_empty_segments_build_a_tree() {
    let root = insert_row(vec![], "", "e".to_string());
    assert_eq!(root, vec![entry("", leaf("e"))]);
    let root = insert_row(root, "a..b", "1".to_string());
    assert_eq!(
        root,
        vec![entry("", leaf("e")), entry("a", branch(vec![entry("", branch(vec![entry("b", leaf("1"))]))]))]
    );
}

#[test]
fn build_takes_the_column_of_the_language() {
    let t = table(&[&["Key", "en", "fr"], &["home.title", "Hi", "Salut"], &["home.sub.label", "X", "Y"], &["footer", "Bye", "Au revoir"]]);
    assert_eq!(
        build(&t, 0),
        branch(vec![
            entry("home", branch(vec![entry("title", leaf("Hi")), entry("sub", branch(vec![entry("label", leaf("X"))]))])),
            entry("footer", leaf("Bye")),
        ])
    );
    assert_eq!(
        build(&t, 1),
        branch(vec![
            entry("home", branch(vec![entry("title", leaf("Salut")), entry("sub", branch(vec![entry("label", leaf("Y"))]))])),
            entry("footer", leaf("Au revoir")),
        ])
    );
}

#[test]
fn build_puts_empty_text_where_a_cell_is_missing() {
    let t = table(&[&["Key", "en", "fr"], &["a.b", "one"], &["c"], &[]]);
    assert_eq!(build(&t, 1), branch(vec![entry("a", branch(vec![entry("b", leaf(""))])), entry("c", leaf("")), entry("", leaf(""))]));
    assert_eq!(build(&t, 7), branch(vec![entry("a", branch(vec![entry("b", leaf(""))])), entry("c", leaf("")), entry("", leaf(""))]));
    assert_eq!(build(&t, usize::MAX), build(&t, 7));
}

#[test]
fn build_of_a_table_without_data_rows_is_an_empty_branch() {
    assert_eq!(build(&table(&[]), 0), branch(vec![]));
    assert_eq!(build(&table(&[&["Key", "en"]]), 0), branch(vec![]));
}

#[test]
fn build_skips_the_header_row() {
    let t = table(&[&["a.b", "en"], &["x", "1"]]);
    assert_eq!(build(&t, 0), branch(vec![entry("x", leaf("1"))]));
}
