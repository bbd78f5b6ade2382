//! Building the tree of one language from the rows of a table.

use crate::merge::{
    combine,
    extended_string_or_hashmap,
    lemma_merge_child,
    lemma_merge_well_formed,
    merge,
};
use crate::node::{entries_of, lemma_branch_view, position, Node};
use crate::path::{dot_free, lemma_split_dot_free, lemma_split_key, split, split_key};
use crate::tree::{
    child,
    lemma_find,
    lemma_put,
    lemma_put_well_formed,
    put,
    walk,
    well_formed,
    Entries,
    Path,
    Tree,
};
use vstd::prelude::*;

verus! {

/// A table as the table source gives it: rows of cells. The first row is
/// the header, each later row holds a dotted key and one text per language.
pub type Table = Seq<Seq<Seq<char>>>;

/// The cell of a row at a column, the empty text where the row is too short.
pub open spec fn cell(row: Seq<Seq<char>>, column: int) -> Seq<char> {
    if 0 <= column < row.len() {
        row[column]
    } else {
        Seq::empty()
    }
}

/// The tree that holds nothing but `text` at the end of `p`.
pub open spec fn chain(p: Path, text: Seq<char>) -> Tree
    decreases p.len(),
{
    if p.len() == 0 {
        Tree::Leaf(text)
    } else {
        Tree::Branch(seq![(p[0], chain(p.drop_first(), text))])
    }
}

/// The root entries after one row. A single segment is bound to the text
/// at the root, whatever stood there. A longer path is merged in as a chain:
/// branches on its way are entered, a leaf on its way gives way to the
/// branch, and at its end the text is put, unless a branch stands there,
/// which stays.
pub open spec fn insert(root: Entries, p: Path, text: Seq<char>) -> Entries {
    if p.len() == 1 {
        put(root, p[0], Tree::Leaf(text))
    } else if p.len() > 1 {
        merge(root, seq![(p[0], chain(p.drop_first(), text))])
    } else {
        root
    }
}

/// The root entries of a language after the first `n` rows of the table,
/// the header counted: the data rows are taken in table order.
pub open spec fn built(table: Table, n: int, language: int) -> Entries
    decreases n,
{
    if n <= 1 {
        Seq::empty()
    } else {
        insert(
            built(table, n - 1, language),
            split_key(cell(table[n - 1], 0)),
            cell(table[n - 1], language + 1),
        )
    }
}

/// What stands at the end of a row's path of several segments after the
/// row: the branch that was found there, else the row's text.
pub open spec fn text_unless_branch(found: Option<Tree>, text: Seq<char>) -> Tree {
    match found {
        Some(Tree::Branch(es)) => Tree::Branch(es),
        _ => Tree::Leaf(text),
    }
}

/// `q` is the beginning of `p`, or all of it.
pub open spec fn is_prefix(q: Path, p: Path) -> bool {
    q.len() <= p.len() && forall|i: int| 0 <= i < q.len() ==> q[i] == p[i]
}

/// Two paths that start with the same segment compare as their rests do.
pub proof fn lemma_prefix_step(q: Path, p: Path)
    requires
        q.len() > 0,
        p.len() > 0,
        q[0] == p[0],
    ensures
        is_prefix(q, p) == is_prefix(q.drop_first(), p.drop_first()),
        (q == p) == (q.drop_first() == p.drop_first()),
{
    let q1 = q.drop_first();
    let p1 = p.drop_first();
    if is_prefix(q1, p1) {
        assert forall|i: int| 0 <= i < q.len() implies q[i] == p[i] by {
            if i > 0 {
                assert(q1[i - 1] == p1[i - 1]);
            }
        }
    }
    if is_prefix(q, p) {
        assert forall|i: int| 0 <= i < q1.len() implies q1[i] == p1[i] by {
            assert(q[i + 1] == p[i + 1]);
        }
    }
    if q1 == p1 {
        assert(q =~= seq![q[0]] + q1);
        assert(p =~= seq![p[0]] + p1);
    }
}

/// A chain holds its text at the end of its path, a branch at every proper
/// beginning of it, and nothing elsewhere.
pub proof fn lemma_chain_walk(p: Path, text: Seq<char>, q: Path)
    ensures
        walk(chain(p, text), q) == if is_prefix(q, p) {
            Some(chain(p.skip(q.len() as int), text))
        } else {
            None
        },
        well_formed(chain(p, text)),
    decreases p.len(),
{
    if p.len() == 0 {
        assert(p.skip(0) =~= p);
    } else {
        let link = seq![(p[0], chain(p.drop_first(), text))];
        lemma_chain_walk(p.drop_first(), text, Seq::empty());
        assert(well_formed(link[0].1));
        if q.len() == 0 {
            assert(p.skip(0) =~= p);
        } else {
            lemma_find(link, q[0]);
            if q[0] == p[0] {
                lemma_prefix_step(q, p);
                lemma_chain_walk(p.drop_first(), text, q.drop_first());
                if is_prefix(q, p) {
                    assert(p.drop_first().skip(q.len() - 1) =~= p.skip(q.len() as int));
                }
            }
        }
    }
}

/// What a node becomes when the chain of `p` is merged into it, seen from
/// any path `q`. At the end of `p` stands the new text, unless a branch
/// stood there, which stays. Every proper beginning of `p` is a branch.
/// Every path that is not a beginning of `p` leads where it led before.
pub proof fn lemma_graft_walk(node: Tree, p: Path, text: Seq<char>, q: Path)
    ensures
        q == p ==> walk(combine(node, chain(p, text)), q) == Some(
            text_unless_branch(walk(node, p), text),
        ),
        is_prefix(q, p) && q != p ==> walk(combine(node, chain(p, text)), q) is Some && walk(
            combine(node, chain(p, text)),
            q,
        ).unwrap() is Branch,
        !is_prefix(q, p) ==> walk(combine(node, chain(p, text)), q) == walk(node, q),
    decreases p.len(),
{
    let grafted = combine(node, chain(p, text));
    if p.len() == 0 {
        if is_prefix(q, p) {
            assert(q =~= p);
        } else {
            assert(child(grafted, q[0]) == child(node, q[0]));
        }
    } else {
        let rest = chain(p.drop_first(), text);
        let link = seq![(p[0], rest)];
        lemma_chain_walk(p, text, q);
        if is_prefix(q, p) && q.len() == p.len() {
            assert(q =~= p);
        }
        match node {
            Tree::Leaf(_) => {
                assert(grafted == chain(p, text));
                if q == p {
                    assert(p.skip(p.len() as int) =~= Seq::empty());
                } else if is_prefix(q, p) {
                    assert(p.skip(q.len() as int).len() > 0);
                }
            },
            Tree::Branch(f) => {
                assert(grafted == Tree::Branch(merge(f, link)));
                if q.len() > 0 {
                    lemma_merge_child(f, link, q[0]);
                    lemma_find(link, q[0]);
                    if q[0] == p[0] {
                        lemma_prefix_step(q, p);
                        assert(child(Tree::Branch(link), q[0]) == Some(rest));
                        match child(node, p[0]) {
                            Some(x) => {
                                lemma_graft_walk(x, p.drop_first(), text, q.drop_first());
                            },
                            None => {
                                lemma_chain_walk(p.drop_first(), text, q.drop_first());
                                if q == p {
                                    assert(p.drop_first().skip(q.len() - 1) =~= Seq::empty());
                                } else if is_prefix(q, p) {
                                    assert(p.drop_first().skip(q.len() - 1).len() > 0);
                                }
                            },
                        }
                    } else {
                        assert(child(Tree::Branch(link), q[0]) is None);
                    }
                }
            },
        }
    }
}

/// What the root becomes by one row, seen from any path `q`. At the end of
/// the row's path stands the row's text; only where the path has several
/// segments and a branch stood at its end, that branch stays. Every proper
/// beginning of the path is a branch. Below a single segment nothing is
/// left. Every other path leads where it led before.
pub proof fn lemma_insert_walk(root: Entries, p: Path, text: Seq<char>, q: Path)
    requires
        p.len() >= 1,
    ensures
        q == p ==> walk(Tree::Branch(insert(root, p, text)), q) == Some(
            if p.len() > 1 {
                text_unless_branch(walk(Tree::Branch(root), p), text)
            } else {
                Tree::Leaf(text)
            },
        ),
        is_prefix(q, p) && q != p ==> walk(Tree::Branch(insert(root, p, text)), q) is Some
            && walk(Tree::Branch(insert(root, p, text)), q).unwrap() is Branch,
        is_prefix(p, q) && q != p && p.len() == 1 ==> walk(
            Tree::Branch(insert(root, p, text)),
            q,
        ) is None,
        !is_prefix(q, p) && !(is_prefix(p, q) && p.len() == 1) ==> walk(
            Tree::Branch(insert(root, p, text)),
            q,
        ) == walk(Tree::Branch(root), q),
{
    if p.len() == 1 {
        let after = Tree::Branch(insert(root, p, text));
        lemma_put(root, p[0], Tree::Leaf(text));
        if q.len() > 0 {
            if q[0] == p[0] {
                assert(child(after, q[0]) == Some(Tree::Leaf(text)));
                assert(walk(after, q) == walk(Tree::Leaf(text), q.drop_first()));
                if q.len() == 1 {
                    assert(q =~= p);
                } else {
                    assert(child(Tree::Leaf(text), q.drop_first()[0]) is None);
                }
            } else {
                assert(child(after, q[0]) == child(Tree::Branch(root), q[0]));
            }
        }
    } else {
        assert(combine(Tree::Branch(root), chain(p, text)) == Tree::Branch(insert(root, p, text)));
        lemma_graft_walk(Tree::Branch(root), p, text, q);
    }
}

/// A row keeps the tree a mapping at every depth.
pub proof fn lemma_insert_well_formed(root: Entries, p: Path, text: Seq<char>)
    requires
        well_formed(Tree::Branch(root)),
    ensures
        well_formed(Tree::Branch(insert(root, p, text))),
{
    if p.len() == 1 {
        lemma_put_well_formed(root, p[0], Tree::Leaf(text));
    } else if p.len() > 1 {
        lemma_chain_walk(p, text, Seq::empty());
        lemma_merge_well_formed(root, seq![(p[0], chain(p.drop_first(), text))]);
    }
}

/// The rows of a table build a mapping at every depth.
pub proof fn lemma_built_well_formed(table: Table, n: int, language: int)
    ensures
        well_formed(Tree::Branch(built(table, n, language))),
    decreases n,
{
    if n > 1 {
        lemma_built_well_formed(table, n - 1, language);
        lemma_insert_well_formed(
            built(table, n - 1, language),
            split_key(cell(table[n - 1], 0)),
            cell(table[n - 1], language + 1),
        );
    }
}

/// The text of a row at a column, empty where the row has no such cell.
pub fn cell_text(row: &Vec<String>, column: usize) -> (text: String)
    ensures
        text@ == cell(row.deep_view(), column as int),
{
    if column < row.len() {
        row[column].clone()
    } else {
        String::new()
    }
}

/// Binds `key` to `node`: an entry under that key keeps its place and gets
/// the node, a new key goes to the end.
pub fn put_entry(entries: &mut Vec<(String, Node)>, key: String, node: Node)
    ensures
        entries_of(final(entries)@) == put(entries_of(old(entries)@), key@, node@),
{
    let ghost before = entries_of(entries@);
    match position(entries, &key) {
        Some(i) => {
            entries.set(i, (key, node));
            assert(entries_of(entries@) =~= before.update(i as int, (key@, node@)));
        },
        None => {
            entries.push((key, node));
            assert(entries_of(entries@) =~= before.push((key@, node@)));
        },
    }
}

/// The tree that holds nothing but `text` at the end of `path`.
pub fn chain_of(path: &Vec<String>, text: String) -> (node: Node)
    ensures
        node@ == chain(path.deep_view(), text@),
{
    let ghost p = path.deep_view();
    let mut node = Node::Leaf(text);
    let mut i: usize = path.len();
    proof {
        assert(p.skip(i as int).len() == 0);
    }
    while i > 0
        invariant
            i <= path.len(),
            p == path.deep_view(),
            node@ == chain(p.skip(i as int), text@),
        decreases i,
    {
        i -= 1;
        let mut link: Vec<(String, Node)> = Vec::new();
        let ghost below = node@;
        link.push((path[i].clone(), node));
        proof {
            lemma_branch_view(link);
            assert(p.skip(i as int).drop_first() =~= p.skip(i + 1));
            assert(entries_of(link@) =~= seq![(p[i as int], below)]);
        }
        node = Node::Branch(link);
    }
    proof {
        assert(p.skip(0) =~= p);
    }
    node
}

/// Takes one row into the root entries of a language: the dotted key and
/// the text that the row holds for that language.
pub fn insert_row(root: Vec<(String, Node)>, key: &str, text: String) -> (r: Vec<(String, Node)>)
    ensures
        entries_of(r@) == insert(entries_of(root@), split_key(key@), text@),
        dot_free(key@) ==> child(Tree::Branch(entries_of(r@)), key@) == Some(Tree::Leaf(text@)),
        well_formed(Tree::Branch(entries_of(root@))) ==> well_formed(Tree::Branch(entries_of(r@))),
{
    let path = split(key);
    proof {
        lemma_split_key(key@);
        if dot_free(key@) {
            lemma_split_dot_free(key@);
            lemma_put(entries_of(root@), key@, Tree::Leaf(text@));
        }
        if well_formed(Tree::Branch(entries_of(root@))) {
            lemma_insert_well_formed(entries_of(root@), split_key(key@), text@);
        }
    }
    if path.len() == 1 {
        let mut root = root;
        put_entry(&mut root, path[0].clone(), Node::Leaf(text));
        root
    } else {
        match chain_of(&path, text) {
            Node::Branch(link) => {
                proof {
                    lemma_branch_view(link);
                }
                extended_string_or_hashmap(root, link)
            },
            Node::Leaf(_) => root,
        }
    }
}

/// Builds the tree of one language from a table: every data row, in table
/// order, puts its text for that language at its key path. A row without a
/// cell for the language puts the empty text there.
pub fn build(table: &Vec<Vec<String>>, language: usize) -> (tree: Node)
    ensures
        tree@ == Tree::Branch(built(table.deep_view(), table.len() as int, language as int)),
        tree.wf(),
{
    let ghost t = table.deep_view();
    let mut root: Vec<(String, Node)> = Vec::new();
    let mut i: usize = 1;
    proof {
        assert(entries_of(root@) =~= Seq::empty());
    }
    while i < table.len()
        invariant
            1 <= i,
            i <= table.len() || (table.len() == 0 && i == 1),
            t == table.deep_view(),
            entries_of(root@) == built(t, i as int, language as int),
        decreases table.len() - i,
    {
        let row = &table[i];
        proof {
            assert(t[i as int] == row.deep_view());
        }
        let key = cell_text(row, 0);
        let text = if language < usize::MAX {
            cell_text(row, language + 1)
        } else {
            String::new()
        };
        proof {
            assert(row.deep_view().len() == row.len());
            assert(text@ == cell(t[i as int], language + 1));
        }
        root = insert_row(root, key.as_str(), text);
        i += 1;
    }
    proof {
        lemma_branch_view(root);
        lemma_built_well_formed(t, table.len() as int, language as int);
    }
    Node::Branch(root)
}

} // verus!
