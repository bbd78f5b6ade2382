//! What holds of the trees that tables build.

use crate::builder::{
    built,
    cell,
    insert,
    is_prefix,
    lemma_insert_walk,
    lemma_prefix_step,
    text_unless_branch,
    Table,
};
use crate::canon::{
    declared,
    declares,
    declares_path,
    lemma_prune_keeps_declared,
    lemma_prune_only_declared,
};
use crate::path::{
    dot_free,
    lemma_split_dot_free,
    lemma_split_injective,
    lemma_split_key,
    split_key,
};
use crate::table::language_tree;
use crate::tree::{child, walk, Entries, Path, Tree};
use vstd::prelude::*;

verus! {

/// The key path of a row.
pub open spec fn row_path(table: Table, row: int) -> Path {
    split_key(cell(table[row], 0))
}

/// The text of a row for a language, empty where the row has no such cell.
pub open spec fn row_text(table: Table, row: int, language: int) -> Seq<char> {
    cell(table[row], language + 1)
}

/// `row` is a data row of the table.
pub open spec fn is_row(table: Table, row: int) -> bool {
    1 <= row < table.len()
}

/// `p` goes on from where `q` ends.
pub open spec fn extends(p: Path, q: Path) -> bool {
    is_prefix(q, p) && q != p
}

/// The rows of the table do not contradict each other for a language:
/// rows that declare one key path hold the same text, no declared key path
/// goes on as the path of another row, and where a row that declares
/// nothing stands at the beginning of a row's path, that path is given
/// again by a later row.
pub open spec fn settled(table: Table, language: int) -> bool {
    &&& forall|i: int, j: int|
        is_row(table, i) && is_row(table, j) && declares_path(table[i]) && #[trigger] row_path(
            table,
            i,
        ) == #[trigger] row_path(table, j) ==> row_text(table, i, language) == row_text(
            table,
            j,
            language,
        )
    &&& forall|i: int, j: int|
        is_row(table, i) && is_row(table, j) && declares_path(table[i]) ==> !extends(
            #[trigger] row_path(table, j),
            #[trigger] row_path(table, i),
        )
    &&& forall|i: int, j: int|
        is_row(table, i) && is_row(table, j) && !declares_path(table[j]) && extends(
            #[trigger] row_path(table, i),
            #[trigger] row_path(table, j),
        ) ==> exists|k: int|
            j < k < table.len() && #[trigger] row_path(table, k) == row_path(table, i)
}

/// A key without a dot yields a leaf directly under the root, whatever
/// the root held before.
pub proof fn lemma_single_segment_leaf(root: Entries, key: Seq<char>, text: Seq<char>)
    requires
        dot_free(key),
    ensures
        split_key(key) == seq![key],
        child(Tree::Branch(insert(root, split_key(key), text)), key) == Some(Tree::Leaf(text)),
{
    lemma_split_dot_free(key);
    lemma_insert_walk(root, seq![key], text, seq![key]);
    let after = Tree::Branch(insert(root, seq![key], text));
    assert(seq![key].drop_first().len() == 0);
    assert(walk(after, seq![key]) == match child(after, key) {
        Some(c) => walk(c, seq![key].drop_first()),
        None => None,
    });
}

/// Two rows whose paths part at their last segment both stand below
/// their common beginning: the second row leaves the first one's node as
/// it was, and each holds its row's text unless a branch stood there
/// before.
pub proof fn lemma_siblings_survive(
    root: Entries,
    stem: Path,
    first: Seq<char>,
    second: Seq<char>,
    first_text: Seq<char>,
    second_text: Seq<char>,
)
    requires
        stem.len() >= 1,
        first != second,
    ensures
        ({
            let one = insert(root, stem.push(first), first_text);
            let both = Tree::Branch(insert(one, stem.push(second), second_text));
            &&& walk(both, stem) is Some
            &&& walk(both, stem).unwrap() is Branch
            &&& walk(both, stem.push(first)) == Some(
                text_unless_branch(walk(Tree::Branch(root), stem.push(first)), first_text),
            )
            &&& walk(both, stem.push(second)) == Some(
                text_unless_branch(walk(Tree::Branch(root), stem.push(second)), second_text),
            )
        }),
{
    let p1 = stem.push(first);
    let p2 = stem.push(second);
    let one = insert(root, p1, first_text);
    assert(p1[stem.len() as int] != p2[stem.len() as int]);
    assert(is_prefix(stem, p2));
    assert(!is_prefix(p1, p2));
    assert(!is_prefix(p2, p1));
    lemma_insert_walk(root, p1, first_text, p1);
    lemma_insert_walk(root, p1, first_text, p2);
    lemma_insert_walk(one, p2, second_text, p1);
    lemma_insert_walk(one, p2, second_text, p2);
    lemma_insert_walk(one, p2, second_text, stem);
}

/// Every node of what the first `n` rows build comes from a row: a leaf
/// holds the text of a row of that very path, and a branch stands at the
/// beginning of some row's path.
pub proof fn lemma_built_origin(table: Table, n: int, language: int, q: Path)
    requires
        q.len() >= 1,
        n <= table.len(),
    ensures
        match walk(Tree::Branch(built(table, n, language)), q) {
            Some(Tree::Leaf(text)) => exists|m: int|
                1 <= m < n && #[trigger] row_path(table, m) == q && row_text(table, m, language)
                    == text,
            Some(Tree::Branch(_)) => exists|m: int|
                1 <= m < n && extends(#[trigger] row_path(table, m), q),
            None => true,
        },
    decreases n,
{
    if n <= 1 {
        assert(child(Tree::Branch(built(table, n, language)), q[0]) is None);
    } else {
        let before = built(table, n - 1, language);
        let p = row_path(table, n - 1);
        let text = row_text(table, n - 1, language);
        lemma_built_origin(table, n - 1, language, q);
        lemma_split_key(cell(table[n - 1], 0));
        lemma_insert_walk(before, p, text, q);
        match walk(Tree::Branch(built(table, n, language)), q) {
            Some(Tree::Leaf(found)) => {
                if q == p {
                    assert(row_path(table, n - 1) == q && row_text(table, n - 1, language)
                        == found);
                } else {
                    let m = choose|m: int|
                        1 <= m < n - 1 && #[trigger] row_path(table, m) == q && row_text(
                            table,
                            m,
                            language,
                        ) == found;
                    assert(row_path(table, m) == q);
                }
            },
            Some(Tree::Branch(_)) => {
                if is_prefix(q, p) && q != p {
                    assert(extends(row_path(table, n - 1), q));
                } else {
                    let m = choose|m: int| 1 <= m < n - 1 && extends(#[trigger] row_path(table, m), q);
                    assert(extends(row_path(table, m), q));
                }
            },
            None => {},
        }
    }
}

/// The last row of a declared key path stands as a leaf with its text in
/// what the table builds, from that row on.
pub proof fn lemma_last_row_stands(table: Table, language: int, row: int, n: int)
    requires
        settled(table, language),
        is_row(table, row),
        declares_path(table[row]),
        row < n <= table.len(),
        forall|j: int| row < j < table.len() ==> #[trigger] row_path(table, j) != row_path(table, row),
    ensures
        walk(Tree::Branch(built(table, n, language)), row_path(table, row)) == Some(
            Tree::Leaf(row_text(table, row, language)),
        ),
    decreases n,
{
    let p = row_path(table, row);
    lemma_split_key(cell(table[row], 0));
    if n == row + 1 {
        let before = built(table, row, language);
        lemma_built_origin(table, row, language, p);
        lemma_insert_walk(before, p, row_text(table, row, language), p);
        match walk(Tree::Branch(before), p) {
            Some(Tree::Leaf(_)) => {},
            Some(Tree::Branch(_)) => {
                let m = choose|m: int| 1 <= m < row && extends(#[trigger] row_path(table, m), p);
                assert(extends(row_path(table, m), row_path(table, row)));
            },
            None => {},
        }
    } else {
        let j = n - 1;
        let before = built(table, j, language);
        let pj = row_path(table, j);
        lemma_last_row_stands(table, language, row, j);
        lemma_split_key(cell(table[j], 0));
        lemma_insert_walk(before, pj, row_text(table, j, language), p);
        assert(pj != p);
        if is_prefix(p, pj) {
            assert(extends(row_path(table, j), row_path(table, row)));
        }
        if is_prefix(pj, p) && pj.len() == 1 {
            assert(extends(row_path(table, row), row_path(table, j)));
            if !declares_path(table[j]) {
                let k = choose|k: int| j < k < table.len() && #[trigger] row_path(table, k) == p;
                assert(row_path(table, k) != row_path(table, row));
            }
        }
    }
}

/// The last row that holds the key path of `row`.
pub proof fn lemma_last_row(table: Table, row: int, n: int) -> (last: int)
    requires
        is_row(table, row),
        row < n <= table.len(),
    ensures
        row <= last < n,
        row_path(table, last) == row_path(table, row),
        forall|j: int| last < j < n ==> #[trigger] row_path(table, j) != row_path(table, row),
    decreases n,
{
    if n == row + 1 {
        row
    } else if row_path(table, n - 1) == row_path(table, row) {
        n - 1
    } else {
        lemma_last_row(table, row, n - 1)
    }
}

/// In the canonical tree of a language every declared key path leads to a
/// leaf, and the leaf holds the text of the path's row for that language:
/// the empty text where the row has no cell for it.
pub proof fn lemma_declared_leaf(table: Table, language: int, row: int)
    requires
        settled(table, language),
        is_row(table, row),
        declares_path(table[row]),
    ensures
        walk(language_tree(table, language), row_path(table, row)) == Some(
            Tree::Leaf(row_text(table, row, language)),
        ),
{
    let p = row_path(table, row);
    let n = table.len() as int;
    let last = lemma_last_row(table, row, n);
    lemma_split_injective(cell(table[last], 0), cell(table[row], 0));
    lemma_last_row_stands(table, language, last, n);
    assert(row_path(table, row) == row_path(table, last));
    assert(declared(table).contains(p));
    assert forall|i: int| 0 <= i < p.len() implies declares(declared(table), 0 + i, #[trigger] p[i]) by {
        assert(declared(table).contains(p) && 0 <= i < p.len() && p[i] == p[i]);
    }
    lemma_prune_keeps_declared(declared(table), Tree::Branch(built(table, n, language)), 0, p);
}

/// A node that is reached stands below branches: every proper beginning
/// of its path leads to a branch.
pub proof fn lemma_walk_prefix(t: Tree, q: Path, r: Path)
    requires
        walk(t, q) is Some,
        extends(q, r),
    ensures
        walk(t, r) is Some,
        walk(t, r).unwrap() is Branch,
    decreases r.len(),
{
    if q.len() == 0 {
        assert(q =~= r);
    }
    if r.len() > 0 {
        assert(r[0] == q[0]);
        lemma_prefix_step(r, q);
        lemma_walk_prefix(child(t, q[0]).unwrap(), q.drop_first(), r.drop_first());
    } else {
        assert(child(t, q[0]) is Some);
    }
}

/// After a row of a single segment, a path that goes on from that segment
/// leads to no leaf until a row gives that very path again.
pub proof fn lemma_below_single_segment(table: Table, language: int, row: int, q: Path, n: int)
    requires
        is_row(table, row),
        row_path(table, row).len() == 1,
        extends(q, row_path(table, row)),
        row < n <= table.len(),
        forall|m: int| row < m < table.len() ==> #[trigger] row_path(table, m) != q,
    ensures
        walk(Tree::Branch(built(table, n, language)), q) is Some ==> walk(
            Tree::Branch(built(table, n, language)),
            q,
        ).unwrap() is Branch,
    decreases n,
{
    let m = n - 1;
    let p = row_path(table, m);
    lemma_split_key(cell(table[m], 0));
    if m > row {
        lemma_below_single_segment(table, language, row, q, m);
        assert(row_path(table, m) != q);
    }
    lemma_insert_walk(built(table, m, language), p, row_text(table, m, language), q);
}

/// The rows of a table must be settled for every declared key path to lead
/// to the leaf of its row: where they all do, the table is settled.
pub proof fn lemma_settled_is_needed(table: Table, language: int)
    requires
        forall|row: int|
            is_row(table, row) && declares_path(table[row]) ==> walk(
                language_tree(table, language),
                #[trigger] row_path(table, row),
            ) == Some(Tree::Leaf(row_text(table, row, language))),
    ensures
        settled(table, language),
{
    let tree = language_tree(table, language);
    let raw = Tree::Branch(built(table, table.len() as int, language));
    assert forall|i: int, j: int|
        is_row(table, i) && is_row(table, j) && declares_path(table[i]) && #[trigger] row_path(
            table,
            i,
        ) == #[trigger] row_path(table, j) implies row_text(table, i, language) == row_text(
        table,
        j,
        language,
    ) by {
        lemma_split_injective(cell(table[i], 0), cell(table[j], 0));
    }
    assert forall|i: int, j: int|
        is_row(table, i) && is_row(table, j) && declares_path(table[i]) implies !extends(
        #[trigger] row_path(table, j),
        #[trigger] row_path(table, i),
    ) by {
        if extends(row_path(table, j), row_path(table, i)) {
            lemma_long_path_is_declared(table, i, j);
            lemma_walk_prefix(tree, row_path(table, j), row_path(table, i));
        }
    }
    assert forall|i: int, j: int|
        is_row(table, i) && is_row(table, j) && !declares_path(table[j]) && extends(
            #[trigger] row_path(table, i),
            #[trigger] row_path(table, j),
        ) implies exists|k: int|
        j < k < table.len() && #[trigger] row_path(table, k) == row_path(table, i) by {
        let q = row_path(table, i);
        lemma_long_path_is_declared(table, j, i);
        lemma_short_path_of_undeclared(table, j);
        if !exists|k: int| j < k < table.len() && #[trigger] row_path(table, k) == q {
            lemma_below_single_segment(table, language, j, q, table.len() as int);
            lemma_prune_only_declared(declared(table), raw, 0, q);
            lemma_prune_keeps_declared(declared(table), raw, 0, q);
            assert(false);
        }
    }
}

/// A row whose path goes on from the path of another row declares its path.
pub proof fn lemma_long_path_is_declared(table: Table, short: int, long: int)
    requires
        is_row(table, short),
        is_row(table, long),
        extends(row_path(table, long), row_path(table, short)),
    ensures
        declares_path(table[long]),
{
    lemma_split_key(cell(table[short], 0));
    if !declares_path(table[long]) {
        lemma_short_path_of_undeclared(table, long);
        assert(row_path(table, long) =~= row_path(table, short));
    }
}

/// A row that declares no key path has a path of one segment.
pub proof fn lemma_short_path_of_undeclared(table: Table, row: int)
    requires
        !declares_path(table[row]),
    ensures
        row_path(table, row).len() == 1,
{
    lemma_split_dot_free(cell(table[row], 0));
}

} // verus!
