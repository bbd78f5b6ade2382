use tr_gen::path::split;

fn strings(items: &[&str]) -> Vec<String> {
    items.iter().map(|x| x.to_string()).collect()
}

#[test]
fn split_dotted_key_into_segments() {
    assert_eq!(split("home.header.title"), strings(&["home", "header", "title"]));
}

#[test]
fn split_key_without_dot_is_one_segment() {
    assert_eq!(split("title"), strings(&["title"]));
}

#[test]
fn split_empty_key_is_one_empty_segment() {
    assert_eq!(split(""), strings(&[""]));
}

#[test]
fn split_keeps_empty_segments() {
    assert_eq!(split("a..b"), strings(&["a", "", "b"]));
    assert_eq!(split(".a"), strings(&["", "a"]));
    assert_eq!(split("a."), strings(&["a", ""]));
    assert_eq!(split("."), strings(&["", ""]));
}

#[test]
fn split_does_not_trim() {
    assert_eq!(split(" a . b "), strings(&[" a ", " b "]));
}

#[test]
fn split_counts_characters_not_bytes() {
    assert_eq!(split("é.ü.日本"), strings(&["é", "ü", "日本"]));
}

#[test]
fn split_then_join_gives_the_key_back() {
    for key in ["", "a", "a.b", "a..b", ".", "home.sub.label", " x .y"] {
        assert_eq!(split(key).join("."), key);
    }
}
