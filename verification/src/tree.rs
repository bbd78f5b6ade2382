//! The mathematical model of a translation tree, and the functions that
//! contracts are stated over: finding a child, walking a path, replacing a
//! child.

use vstd::prelude::*;

verus! {

/// A node of a translation tree as a mathematical value: a leaf holds the
/// translated text, a branch holds its children in output order, each under
/// its segment.
pub enum Tree {
    Leaf(Seq<char>),
    Branch(Seq<(Seq<char>, Tree)>),
}

/// The children of a branch, in output order.
pub type Entries = Seq<(Seq<char>, Tree)>;

/// A key path: the segments of a dotted key, outermost first.
pub type Path = Seq<Seq<char>>;

/// The index of the first entry under `key`, if there is one.
pub open spec fn find(es: Entries, key: Seq<char>) -> Option<int>
    decreases es.len(),
{
    if es.len() == 0 {
        None
    } else {
        match find(es.drop_last(), key) {
            Some(i) => Some(i),
            None => if es.last().0 == key {
                Some(es.len() - 1)
            } else {
                None
            },
        }
    }
}

/// No two entries share a key.
pub open spec fn unique_keys(es: Entries) -> bool {
    forall|i: int, j: int| 0 <= i < j < es.len() ==> es[i].0 != es[j].0
}

/// Every branch of the tree is a mapping: its keys are pairwise distinct.
pub open spec fn well_formed(t: Tree) -> bool
    decreases t,
{
    match t {
        Tree::Leaf(_) => true,
        Tree::Branch(es) => unique_keys(es) && forall|i: int|
            0 <= i < es.len() ==> well_formed(#[trigger] es[i].1),
    }
}

/// The child of `t` under `key`: `None` where `t` is a leaf or has no such key.
pub open spec fn child(t: Tree, key: Seq<char>) -> Option<Tree> {
    match t {
        Tree::Leaf(_) => None,
        Tree::Branch(es) => match find(es, key) {
            Some(i) => Some(es[i].1),
            None => None,
        },
    }
}

/// The node reached from `t` by following the segments of `p` in order.
pub open spec fn walk(t: Tree, p: Path) -> Option<Tree>
    decreases p.len(),
{
    if p.len() == 0 {
        Some(t)
    } else {
        match child(t, p[0]) {
            Some(c) => walk(c, p.drop_first()),
            None => None,
        }
    }
}

/// The entries with `key` bound to `node`: an entry of that key keeps its
/// place and gets the new node, a new key goes to the end.
pub open spec fn put(es: Entries, key: Seq<char>, node: Tree) -> Entries {
    match find(es, key) {
        Some(i) => es.update(i, (key, node)),
        None => es.push((key, node)),
    }
}

/// `find` returns the first index that holds the key, and `None` exactly
/// when no entry holds it.
pub proof fn lemma_find(es: Entries, key: Seq<char>)
    ensures
        match find(es, key) {
            Some(i) => 0 <= i < es.len() && es[i].0 == key && forall|j: int|
                0 <= j < i ==> (#[trigger] es[j]).0 != key,
            None => forall|j: int| 0 <= j < es.len() ==> (#[trigger] es[j]).0 != key,
        },
    decreases es.len(),
{
    if es.len() > 0 {
        lemma_find(es.drop_last(), key);
        assert(forall|j: int| 0 <= j < es.len() - 1 ==> es.drop_last()[j] == es[j]);
    }
}

/// An index that holds the key, with no earlier one that does, is what
/// `find` returns.
pub proof fn lemma_find_first(es: Entries, key: Seq<char>, i: int)
    requires
        0 <= i < es.len(),
        es[i].0 == key,
        forall|j: int| 0 <= j < i ==> (#[trigger] es[j]).0 != key,
    ensures
        find(es, key) == Some(i),
{
    lemma_find(es, key);
}

/// Where no entry holds the key, `find` returns `None`.
pub proof fn lemma_find_none(es: Entries, key: Seq<char>)
    requires
        forall|j: int| 0 <= j < es.len() ==> (#[trigger] es[j]).0 != key,
    ensures
        find(es, key) is None,
{
    lemma_find(es, key);
}

/// `put` binds the key, leaves every other key as it was, and keeps the
/// keys unique.
pub proof fn lemma_put(es: Entries, key: Seq<char>, node: Tree)
    ensures
        child(Tree::Branch(put(es, key, node)), key) == Some(node),
        forall|other: Seq<char>|
            other != key ==> #[trigger] find(put(es, key, node), other) == find(es, other),
        forall|other: Seq<char>|
            other != key ==> #[trigger] child(Tree::Branch(put(es, key, node)), other) == child(
                Tree::Branch(es),
                other,
            ),
        unique_keys(es) ==> unique_keys(put(es, key, node)),
{
    let r = put(es, key, node);
    lemma_find(es, key);
    match find(es, key) {
        Some(i) => {
            lemma_find_first(r, key, i);
        },
        None => {
            lemma_find_first(r, key, es.len() as int);
        },
    }
    assert forall|other: Seq<char>| other != key implies #[trigger] find(r, other) == find(
        es,
        other,
    ) && child(Tree::Branch(r), other) == child(Tree::Branch(es), other) by {
        lemma_find(es, other);
        match find(es, other) {
            Some(j) => {
                lemma_find_first(r, other, j);
            },
            None => {
                lemma_find_none(r, other);
            },
        }
    }
}

/// Binding a key of a mapping to a mapping gives a mapping, at every depth.
pub proof fn lemma_put_well_formed(es: Entries, key: Seq<char>, node: Tree)
    requires
        well_formed(Tree::Branch(es)),
        well_formed(node),
    ensures
        well_formed(Tree::Branch(put(es, key, node))),
{
    let after = put(es, key, node);
    lemma_put(es, key, node);
    lemma_find(es, key);
    assert forall|i: int| 0 <= i < after.len() implies well_formed(#[trigger] after[i].1) by {
        if i < es.len() && after[i] == es[i] {
            assert(well_formed(es[i].1));
        }
    }
}

} // verus!
