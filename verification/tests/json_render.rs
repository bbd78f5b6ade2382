use tr_gen::json::{render, rendered, serialize, serialize_entries};
use tr_gen::node::Node;
use tr_gen::table::translate;

fn leaf(text: &str) -> Node {
    Node::Leaf(text.to_string())
}

fn entry(key: &str, node: Node) -> (String, Node) {
    (key.to_string(), node)
}

fn branch(entries: Vec<(String, Node)>) -> Node {
    Node::Branch(entries)
}

fn table(rows: &[&[&str]]) -> Vec<Vec<String>> {
    rows.iter().map(|row| row.iter().map(|cell| cell.to_string()).collect()).collect()
}

fn walk<'a>(document: &'a serde_json::Value, path: &[String]) -> Option<&'a serde_json::Value> {
    let mut at = document;
    for segment in path {
        at = at.as_object()?.get(segment)?;
    }
    Some(at)
}

#[test]
fn serialize_leaf_is_a_json_string() {
    assert_eq!(serialize(&leaf("Hi")), serde_json::Value::String("Hi".to_string()));
    assert_eq!(serialize(&leaf("")), serde_json::Value::String(String::new()));
}

#[test]
fn serialize_branch_is_a_json_object_in_entry_order() {
    let tree = branch(vec![entry("zeta", leaf("1")), entry("alpha", branch(vec![entry("m", leaf("2")), entry("b", leaf("3"))]))]);
    let document = serialize(&tree);
    let members = document.as_object().unwrap();
    let keys: Vec<&String> = members.keys().collect();
    assert_eq!(keys, vec!["zeta", "alpha"]);
    assert_eq!(members.get("zeta"), Some(&serde_json::Value::String("1".to_string())));
    let inner = members.get("alpha").unwrap().as_object().unwrap();
    let inner_keys: Vec<&String> = inner.keys().collect();
    assert_eq!(inner_keys, vec!["m", "b"]);
    assert_eq!(inner.get("b"), Some(&serde_json::Value::String("3".to_string())));
}

#[test]
fn serialize_empty_branch_is_an_empty_object() {
    assert_eq!(serialize(&Node::new()), serde_json::Value::Object(serde_json::Map::new()));
    assert_eq!(serialize_entries(&vec![]).len(), 0);
}

#[test]
fn serialize_entries_gives_one_member_for_each_entry() {
    let map = serialize_entries(&vec![entry("b", leaf("1")), entry("a", leaf("2"))]);
    assert_eq!(map.len(), 2);
    let keys: Vec<&String> = map.keys().collect();
    assert_eq!(keys, vec!["b", "a"]);
    assert_eq!(map.get("a"), Some(&serde_json::Value::String("2".to_string())));
}

#[test]
fn render_is_pretty_json_with_two_spaces() {
    let tree = branch(vec![entry("home", branch(vec![entry("title", leaf("Hi"))])), entry("footer", leaf("Bye"))]);
    assert_eq!(
        render(&tree).unwrap(),
        "{\n  \"home\": {\n    \"title\": \"Hi\"\n  },\n  \"footer\": \"Bye\"\n}"
    );
    assert_eq!(render(&leaf("only")).unwrap(), "\"only\"");
    assert_eq!(render(&Node::new()).unwrap(), "{}");
}

#[test]
fn render_escapes_text() {
    let tree = branch(vec![entry("q\"k", leaf("line\nbreak \\ \"quoted\""))]);
    assert_eq!(render(&tree).unwrap(), "{\n  \"q\\\"k\": \"line\\nbreak \\\\ \\\"quoted\\\"\"\n}");
}

#[test]
fn render_website_table() {
    let t = table(&[&["Key", "en", "fr"], &["home.title", "Hi", "Salut"], &["home.sub.label", "X", "Y"], &["footer", "Bye", "Au revoir"]]);
    let text = render(&translate(&t)).unwrap();
    let expected = "{\n  \"en\": {\n    \"home\": {\n      \"title\": \"Hi\",\n      \"sub\": {\n        \"label\": \"X\"\n      }\n    },\n    \"footer\": \"Bye\"\n  },\n  \"fr\": {\n    \"home\": {\n      \"title\": \"Salut\",\n      \"sub\": {\n        \"label\": \"Y\"\n      }\n    },\n    \"footer\": \"Au revoir\"\n  }\n}";
    assert_eq!(text, expected);
}

#[test]
fn rendered_passes_text_on_and_reports_errors() {
    assert_eq!(rendered(Ok("{}".to_string())).unwrap(), "{}");
    let failure = serde_json::from_str::<serde_json::Value>("{").unwrap_err();
    let message = failure.to_string();
    let error = rendered(Err(failure)).unwrap_err();
    assert_eq!(error.cause.to_string(), message);
    assert!(error.cause.is_eof());
}

#[test]
fn rendered_text_parses_back_to_the_same_leaves() {
    let t = table(&[
        &["Key", "en", "fr"],
        &["home.title", "Hi \"there\"", "Salut\n"],
        &["home.sub.label", "X", "Y"],
        &["home.sub.hint", "é ü 日本"],
        &["footer", "Bye", "Au revoir"],
        &["a..b", "\\", "\t"],
    ]);
    let document = translate(&t);
    let text = render(&document).unwrap();
    let parsed: serde_json::Value = serde_json::from_str(&text).unwrap();
    assert_eq!(parsed, serialize(&document));
    let names = tr_gen::table::languages(&t);
    let paths = tr_gen::canon::declared_paths(&t);
    for name in names.iter() {
        let tree = document.get(name).unwrap();
        let parsed_tree = parsed.as_object().unwrap().get(name).unwrap();
        for path in paths.iter() {
            let before = tree.lookup(path).unwrap().as_leaf().unwrap();
            let after = walk(parsed_tree, path).unwrap().as_str().unwrap();
            assert_eq!(after, before);
        }
    }
}
