//! The translation tree as executable data.

use crate::tree::{
    child,
    find,
    lemma_find,
    lemma_find_first,
    lemma_find_none,
    unique_keys,
    walk,
    well_formed,
    Entries,
    Tree,
};
use vstd::prelude::*;

verus! {

/// A node of a translation tree: the translated text of one key path, or the
/// children of an intermediate segment in output order.
#[derive(Debug, PartialEq, Eq)]
pub enum Node {
    Leaf(String),
    Branch(Vec<(String, Node)>),
}

/// The tree that a node stands for.
pub open spec fn tree_of(v: Node) -> Tree
    decreases v,
{
    match v {
        Node::Leaf(s) => Tree::Leaf(s@),
        Node::Branch(es) => Tree::Branch(
            Seq::new(
                es@.len(),
                |i: int|
                    if 0 <= i < es@.len() {
                        (es@[i].0@, tree_of(es@[i].1))
                    } else {
                        arbitrary()
                    },
            ),
        ),
    }
}

impl View for Node {
    type V = Tree;

    open spec fn view(&self) -> Tree {
        tree_of(*self)
    }
}

/// The children that a vector of entries stands for.
pub open spec fn entries_of(es: Seq<(String, Node)>) -> Entries {
    Seq::new(es.len(), |i: int| (es[i].0@, es[i].1@))
}

/// The view of a branch is made of the views of its entries.
pub proof fn lemma_branch_view(es: Vec<(String, Node)>)
    ensures
        Node::Branch(es)@ == Tree::Branch(entries_of(es@)),
{
    assert(Node::Branch(es)@->Branch_0 =~= entries_of(es@));
}

/// The index of the first entry under `key`.
pub fn position(es: &Vec<(String, Node)>, key: &String) -> (r: Option<usize>)
    ensures
        match r {
            Some(i) => i < es.len() && find(entries_of(es@), key@) == Some(i as int),
            None => find(entries_of(es@), key@) is None,
        },
{
    let mut i: usize = 0;
    while i < es.len()
        invariant
            i <= es.len(),
            forall|j: int| 0 <= j < i ==> (#[trigger] es@[j]).0@ != key@,
        decreases es.len() - i,
    {
        if es[i].0 == *key {
            proof {
                lemma_find_first(entries_of(es@), key@, i as int);
            }
            return Some(i);
        }
        i += 1;
    }
    proof {
        lemma_find_none(entries_of(es@), key@);
    }
    None
}

/// A deep copy of the entries.
pub fn duplicate_entries(es: &Vec<(String, Node)>) -> (r: Vec<(String, Node)>)
    ensures
        entries_of(r@) == entries_of(es@),
    decreases es, 0nat,
{
    let mut out: Vec<(String, Node)> = Vec::new();
    let mut i: usize = 0;
    while i < es.len()
        invariant
            i <= es.len(),
            out.len() == i,
            forall|j: int| 0 <= j < i ==> (#[trigger] out@[j]).0@ == es@[j].0@ && out@[j].1@ == es@[j].1@,
        decreases es.len() - i,
    {
        let node = es[i].1.duplicate();
        out.push((es[i].0.clone(), node));
        i += 1;
    }
    assert(entries_of(out@) =~= entries_of(es@));
    out
}

/// Whether no two entries share a key.
pub fn has_unique_keys(es: &Vec<(String, Node)>) -> (r: bool)
    ensures
        r == unique_keys(entries_of(es@)),
{
    let ghost e = entries_of(es@);
    let mut i: usize = 0;
    while i < es.len()
        invariant
            i <= es.len(),
            e == entries_of(es@),
            forall|a: int, b: int| 0 <= a < b < i ==> e[a].0 != e[b].0,
        decreases es.len() - i,
    {
        proof {
            lemma_find(e, e[i as int].0);
        }
        match position(es, &es[i].0) {
            Some(first) => {
                if first != i {
                    return false;
                }
            },
            None => {
                return false;
            },
        }
        i += 1;
    }
    true
}

/// Whether the entries are those of a mapping, at every depth.
pub fn entries_are_well_formed(es: &Vec<(String, Node)>) -> (r: bool)
    ensures
        r == well_formed(Tree::Branch(entries_of(es@))),
    decreases es, 0nat,
{
    if !has_unique_keys(es) {
        return false;
    }
    let ghost e = entries_of(es@);
    let mut i: usize = 0;
    while i < es.len()
        invariant
            i <= es.len(),
            e == entries_of(es@),
            forall|j: int| 0 <= j < i ==> well_formed(#[trigger] e[j].1),
        decreases es.len() - i,
    {
        if !es[i].1.is_well_formed() {
            proof {
                assert(!well_formed(e[i as int].1));
            }
            return false;
        }
        i += 1;
    }
    true
}

impl Node {
    /// Every branch of the tree is a mapping: its keys are pairwise distinct.
    pub open spec fn wf(&self) -> bool {
        well_formed(self@)
    }

    /// An empty branch.
    pub fn new() -> (r: Node)
        ensures
            r@ == Tree::Branch(Seq::empty()),
            r.wf(),
    {
        let r = Node::Branch(Vec::new());
        assert(r@->Branch_0 =~= Seq::empty());
        r
    }

    /// Whether the node holds a translated text.
    pub fn is_leaf(&self) -> (r: bool)
        ensures
            r == (self@ is Leaf),
    {
        match self {
            Node::Leaf(_) => true,
            Node::Branch(_) => false,
        }
    }

    /// Whether the node holds children.
    pub fn is_branch(&self) -> (r: bool)
        ensures
            r == (self@ is Branch),
    {
        match self {
            Node::Leaf(_) => false,
            Node::Branch(_) => true,
        }
    }

    /// The text of a leaf; `None` for a branch.
    pub fn as_leaf(&self) -> (r: Option<&String>)
        ensures
            match r {
                Some(s) => self@ == Tree::Leaf(s@),
                None => self@ is Branch,
            },
    {
        match self {
            Node::Leaf(s) => Some(s),
            Node::Branch(_) => None,
        }
    }

    /// The entries of a branch; `None` for a leaf.
    pub fn as_branch(&self) -> (r: Option<&Vec<(String, Node)>>)
        ensures
            match r {
                Some(es) => self@ == Tree::Branch(entries_of(es@)),
                None => self@ is Leaf,
            },
    {
        match self {
            Node::Leaf(_) => None,
            Node::Branch(es) => {
                proof {
                    lemma_branch_view(*es);
                }
                Some(es)
            },
        }
    }

    /// The child under `key`.
    pub fn get(&self, key: &str) -> (r: Option<&Node>)
        ensures
            match r {
                Some(node) => child(self@, key@) == Some(node@),
                None => child(self@, key@) is None,
            },
    {
        match self {
            Node::Leaf(_) => None,
            Node::Branch(es) => {
                proof {
                    lemma_branch_view(*es);
                }
                let owned = key.to_owned();
                match position(es, &owned) {
                    Some(i) => Some(&es[i].1),
                    None => None,
                }
            },
        }
    }

    /// The node reached by following the segments of `path` in order.
    pub fn lookup(&self, path: &Vec<String>) -> (r: Option<&Node>)
        ensures
            match r {
                Some(node) => walk(self@, path.deep_view()) == Some(node@),
                None => walk(self@, path.deep_view()) is None,
            },
    {
        let ghost p = path.deep_view();
        let mut node: &Node = self;
        let mut i: usize = 0;
        assert(p.skip(0) =~= p);
        while i < path.len()
            invariant
                i <= path.len(),
                p == path.deep_view(),
                walk(self@, p) == walk(node@, p.skip(i as int)),
            decreases path.len() - i,
        {
            proof {
                assert(p.skip(i as int)[0] == path@[i as int]@);
                assert(p.skip(i as int).drop_first() =~= p.skip(i + 1));
            }
            match node.get(path[i].as_str()) {
                Some(next) => {
                    node = next;
                },
                None => {
                    return None;
                },
            }
            i += 1;
        }
        Some(node)
    }

    /// Whether every branch of the tree is a mapping.
    pub fn is_well_formed(&self) -> (r: bool)
        ensures
            r == self.wf(),
        decreases self, 1nat,
    {
        match self {
            Node::Leaf(_) => true,
            Node::Branch(es) => {
                proof {
                    lemma_branch_view(*es);
                }
                entries_are_well_formed(es)
            },
        }
    }

    /// A deep copy.
    pub fn duplicate(&self) -> (r: Node)
        ensures
            r@ == self@,
        decreases self, 1nat,
    {
        match self {
            Node::Leaf(s) => Node::Leaf(s.clone()),
            Node::Branch(es) => {
                let copy = duplicate_entries(es);
                proof {
                    lemma_branch_view(*es);
                    lemma_branch_view(copy);
                }
                Node::Branch(copy)
            },
        }
    }
}

impl Clone for Node {
    fn clone(&self) -> (r: Node)
        ensures
            r@ == self@,
    {
        self.duplicate()
    }
}

} // verus!
