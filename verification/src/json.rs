//! Rendering a tree as a JSON document with `serde_json`.
//!
//! The documents and their text are made by `serde_json`, built with its
//! `preserve_order` feature so that the members of an object keep the order
//! in which they were inserted. What this module believes of `serde_json`
//! without proof is stated on the private functions marked `external_body`,
//! over the names `json_tree`, `json_entries` and `pretty_json`; the rest
//! is proved from that.

use crate::node::{entries_of, lemma_branch_view, Node};
use crate::tree::{lemma_find_none, put, well_formed, Entries, Tree};
use vstd::prelude::*;

verus! {

/// `serde_json::Value`, a JSON document; opaque to the proofs.
#[verifier::external_type_specification]
#[verifier::external_body]
pub struct ExJsonValue(serde_json::Value);

/// `serde_json::Map`, the members of a JSON object; opaque to the proofs.
#[verifier::external_type_specification]
#[verifier::external_body]
#[verifier::reject_recursive_types(K)]
#[verifier::reject_recursive_types(V)]
pub struct ExJsonMap<K, V>(serde_json::Map<K, V>);

/// `serde_json::Error`, what the JSON writer reports; opaque to the proofs.
#[verifier::external_type_specification]
#[verifier::external_body]
pub struct ExJsonError(serde_json::Error);

/// A JSON document as a tree: a string is a leaf with its text, an object
/// is a branch with its members in their order. What stands for a document
/// of another kind is left open; this library builds none.
pub uninterp spec fn json_tree(doc: serde_json::Value) -> Tree;

/// The members of a JSON object in their order, each with the tree that it
/// holds.
pub uninterp spec fn json_entries(map: serde_json::Map<String, serde_json::Value>) -> Entries;

/// What `serde_json::to_string_pretty` gives for a document, as a function
/// of the tree that the document is: the text that it writes, or `None`
/// where it reports an error. Documents of strings and objects that are the
/// same tree are written alike.
pub uninterp spec fn pretty_json(tree: Tree) -> Option<Seq<char>>;

/// `serde_json::Value::String`: the JSON string with the given text.
#[verifier::external_body]
fn json_string(text: String) -> (doc: serde_json::Value)
    ensures
        json_tree(doc) == Tree::Leaf(text@),
{
    serde_json::Value::String(text)
}

/// `serde_json::Map::new`: a map without members.
#[verifier::external_body]
fn json_map_new() -> (map: serde_json::Map<String, serde_json::Value>)
    ensures
        json_entries(map) == Seq::<(Seq<char>, Tree)>::empty(),
{
    serde_json::Map::new()
}

/// `serde_json::Map::insert`, which with `preserve_order` is
/// `IndexMap::insert`: a member under the key keeps its place and gets the
/// new document, a new key goes to the end.
#[verifier::external_body]
fn json_map_insert(
    map: &mut serde_json::Map<String, serde_json::Value>,
    key: String,
    doc: serde_json::Value,
)
    ensures
        json_entries(*final(map)) == put(json_entries(*old(map)), key@, json_tree(doc)),
{
    map.insert(key, doc);
}

/// `serde_json::Value::Object`: the JSON object with the members of the map.
#[verifier::external_body]
fn json_object(map: serde_json::Map<String, serde_json::Value>) -> (doc: serde_json::Value)
    ensures
        json_tree(doc) == Tree::Branch(json_entries(map)),
{
    serde_json::Value::Object(map)
}

/// `serde_json::to_string_pretty`: its outcome is the one named for the
/// tree of the document, the text of a success or the fact of an error.
/// The writer has no other input, so the same document always fares the same;
/// nothing is claimed of which documents succeed.
#[verifier::external_body]
fn json_pretty(doc: &serde_json::Value) -> (outcome: Result<String, serde_json::Error>)
    ensures
        match outcome {
            Ok(text) => pretty_json(json_tree(*doc)) == Some(text@),
            Err(_) => pretty_json(json_tree(*doc)) is None,
        },
{
    serde_json::to_string_pretty(doc)
}

/// Why a tree could not be rendered.
#[derive(Debug)]
pub struct RenderError {
    /// The error that the JSON writer reported.
    pub cause: serde_json::Error,
}

/// The JSON document of a tree: a leaf becomes a JSON string, a branch a
/// JSON object whose members are the documents of its entries, in order.
pub fn serialize(tree: &Node) -> (doc: serde_json::Value)
    requires
        tree.wf(),
    ensures
        json_tree(doc) == tree@,
    decreases tree,
{
    match tree {
        Node::Leaf(text) => json_string(text.clone()),
        Node::Branch(es) => {
            proof {
                lemma_branch_view(*es);
            }
            json_object(serialize_entries(es))
        },
    }
}

/// The JSON members of the entries of a branch, in order.
pub fn serialize_entries(es: &Vec<(String, Node)>) -> (map: serde_json::Map<
    String,
    serde_json::Value,
>)
    requires
        well_formed(Tree::Branch(entries_of(es@))),
    ensures
        json_entries(map) == entries_of(es@),
    decreases es,
{
    let ghost e = entries_of(es@);
    let mut map = json_map_new();
    let mut i: usize = 0;
    proof {
        assert(e.take(0) =~= Seq::empty());
    }
    while i < es.len()
        invariant
            i <= es.len(),
            e == entries_of(es@),
            well_formed(Tree::Branch(e)),
            json_entries(map) == e.take(i as int),
        decreases es.len() - i,
    {
        proof {
            assert(well_formed(e[i as int].1));
        }
        let member = serialize(&es[i].1);
        proof {
            lemma_find_none(e.take(i as int), e[i as int].0);
            assert(e.take(i as int).push(e[i as int]) =~= e.take(i + 1));
        }
        json_map_insert(&mut map, es[i].0.clone(), member);
        i += 1;
    }
    proof {
        assert(e.take(es.len() as int) =~= e);
    }
    map
}

/// What rendering returns for an outcome of the JSON writer: its text, or
/// an error that holds the writer's error.
pub fn rendered(outcome: Result<String, serde_json::Error>) -> (r: Result<String, RenderError>)
    ensures
        r == match outcome {
            Ok(text) => Ok::<String, RenderError>(text),
            Err(error) => Err::<String, RenderError>(RenderError { cause: error }),
        },
{
    match outcome {
        Ok(text) => Ok(text),
        Err(error) => Err(RenderError { cause: error }),
    }
}

/// The tree as pretty-printed JSON text: the text that the JSON writer
/// writes for the document of this tree, and an error exactly where the
/// writer reports one.
pub fn render(tree: &Node) -> (r: Result<String, RenderError>)
    requires
        tree.wf(),
    ensures
        match r {
            Ok(text) => pretty_json(tree@) == Some(text@),
            Err(_) => pretty_json(tree@) is None,
        },
{
    let doc = serialize(tree);
    rendered(json_pretty(&doc))
}

} // verus!
