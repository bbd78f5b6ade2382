//! From a whole table to the document of all its languages.

use crate::builder::{build, built, lemma_built_well_formed, put_entry, Table};
use crate::canon::{
    declared,
    declared_paths,
    declares_path,
    lemma_pruned_well_formed,
    prune,
    pruned,
};
use crate::laws::{is_row, lemma_declared_leaf, row_path, row_text, settled};
use crate::node::{entries_of, lemma_branch_view, Node};
use crate::tree::{child, lemma_put, lemma_put_well_formed, put, walk, well_formed, Entries, Tree};
use vstd::prelude::*;

verus! {

/// The language names of a table: the cells of its header row from the
/// second column on. A table without rows has no language.
pub open spec fn languages_of(table: Table) -> Seq<Seq<char>> {
    if table.len() > 0 && table[0].len() > 1 {
        table[0].subrange(1, table[0].len() as int)
    } else {
        Seq::empty()
    }
}

/// The canonical tree of one language: what the data rows build for it,
/// pruned against the key paths that the table declares.
pub open spec fn language_tree(table: Table, language: int) -> Tree {
    pruned(declared(table), Tree::Branch(built(table, table.len() as int, language)), 0)
}

/// The entries of the document after the first `n` languages: each
/// language name is bound to the canonical tree of its column, in header
/// order; a name that repeats keeps its place and gets the later tree.
pub open spec fn translated(table: Table, n: int) -> Entries
    decreases n,
{
    if n <= 0 {
        Seq::empty()
    } else {
        put(translated(table, n - 1), languages_of(table)[n - 1], language_tree(table, n - 1))
    }
}

/// The canonical tree of a language is a mapping at every depth, and its
/// root is a branch.
pub proof fn lemma_language_tree(table: Table, language: int)
    ensures
        well_formed(language_tree(table, language)),
        language_tree(table, language) is Branch,
{
    lemma_built_well_formed(table, table.len() as int, language);
    lemma_pruned_well_formed(
        declared(table),
        Tree::Branch(built(table, table.len() as int, language)),
        0,
    );
}

/// The document is a mapping at every depth.
pub proof fn lemma_translated_well_formed(table: Table, n: int)
    ensures
        well_formed(Tree::Branch(translated(table, n))),
    decreases n,
{
    if n > 0 {
        let before = translated(table, n - 1);
        let name = languages_of(table)[n - 1];
        let tree = language_tree(table, n - 1);
        lemma_translated_well_formed(table, n - 1);
        lemma_language_tree(table, n - 1);
        lemma_put_well_formed(before, name, tree);
    }
}

/// Under a language name the document holds the canonical tree of the
/// last column of that name.
pub proof fn lemma_translated_child(table: Table, n: int, language: int)
    requires
        0 <= language < n <= languages_of(table).len(),
        forall|later: int|
            language < later < n ==> languages_of(table)[later] != languages_of(table)[language],
    ensures
        child(Tree::Branch(translated(table, n)), languages_of(table)[language]) == Some(
            language_tree(table, language),
        ),
    decreases n,
{
    let before = translated(table, n - 1);
    lemma_put(before, languages_of(table)[n - 1], language_tree(table, n - 1));
    if language < n - 1 {
        lemma_translated_child(table, n - 1, language);
    }
}

/// The language names of a table, in header order.
pub fn languages(table: &Vec<Vec<String>>) -> (names: Vec<String>)
    ensures
        names.deep_view() == languages_of(table.deep_view()),
{
    let mut out: Vec<String> = Vec::new();
    if table.len() > 0 {
        let header = &table[0];
        let ghost h = header.deep_view();
        proof {
            assert(table.deep_view()[0] == h);
        }
        let mut i: usize = 1;
        while i < header.len()
            invariant
                1 <= i,
                i <= header.len() || (header.len() == 0 && i == 1),
                h == header.deep_view(),
                header.len() > 1 ==> out.deep_view() == h.subrange(1, i as int),
                header.len() <= 1 ==> out.deep_view() == Seq::<Seq<char>>::empty(),
            decreases header.len() - i,
        {
            let ghost before = out.deep_view();
            out.push(header[i].clone());
            proof {
                assert(out.deep_view() =~= before.push(h[i as int]));
                assert(h.subrange(1, i as int).push(h[i as int]) =~= h.subrange(1, i + 1));
            }
            i += 1;
        }
    }
    out
}

/// The canonical tree of one language of a table.
pub fn translate_language(table: &Vec<Vec<String>>, language: usize) -> (tree: Node)
    ensures
        tree@ == language_tree(table.deep_view(), language as int),
        tree.wf(),
        tree@ is Branch,
        settled(table.deep_view(), language as int) ==> forall|row: int|
            is_row(table.deep_view(), row) && declares_path(table.deep_view()[row]) ==> walk(
                tree@,
                #[trigger] row_path(table.deep_view(), row),
            ) == Some(Tree::Leaf(row_text(table.deep_view(), row, language as int))),
{
    let paths = declared_paths(table);
    let raw = build(table, language);
    proof {
        let t = table.deep_view();
        lemma_language_tree(t, language as int);
        if settled(t, language as int) {
            assert forall|row: int| is_row(t, row) && declares_path(t[row]) implies walk(
                language_tree(t, language as int),
                #[trigger] row_path(t, row),
            ) == Some(Tree::Leaf(row_text(t, row, language as int))) by {
                lemma_declared_leaf(t, language as int, row);
            }
        }
    }
    prune(&paths, &raw, 0)
}

/// The document of a table: every language name of the header, bound to
/// the canonical tree of its column.
pub fn translate(table: &Vec<Vec<String>>) -> (document: Node)
    ensures
        document@ == Tree::Branch(
            translated(table.deep_view(), languages_of(table.deep_view()).len() as int),
        ),
        document.wf(),
{
    let ghost t = table.deep_view();
    let names = languages(table);
    let paths = declared_paths(table);
    let mut entries: Vec<(String, Node)> = Vec::new();
    let mut i: usize = 0;
    proof {
        assert(entries_of(entries@) =~= Seq::empty());
    }
    while i < names.len()
        invariant
            i <= names.len(),
            t == table.deep_view(),
            names.deep_view() == languages_of(t),
            paths.deep_view().to_set() == declared(t),
            entries_of(entries@) == translated(t, i as int),
        decreases names.len() - i,
    {
        let raw = build(table, i);
        let tree = prune(&paths, &raw, 0);
        proof {
            assert(names.deep_view()[i as int] == names@[i as int]@);
        }
        put_entry(&mut entries, names[i].clone(), tree);
        i += 1;
    }
    proof {
        lemma_branch_view(entries);
        lemma_translated_well_formed(t, names.len() as int);
    }
    Node::Branch(entries)
}

} // verus!
