//! Canonicalizing a tree against the key paths that a table declares.

use crate::builder::{cell, Table};
use crate::node::{entries_of, lemma_branch_view, Node};
use crate::path::{split, split_key};
use crate::tree::{child, lemma_find, unique_keys, walk, well_formed, Entries, Path, Tree};
use vstd::prelude::*;

verus! {

/// The header's word for the key column. A row that repeats it declares
/// no key path.
pub open spec fn sentinel() -> Seq<char> {
    seq!['K', 'e', 'y']
}

/// The key paths that a table declares: the split keys of its data rows,
/// but for rows whose key cell is empty, absent or the header's word.
pub open spec fn declared(table: Table) -> Set<Path> {
    Set::new(
        |p: Path|
            exists|i: int|
                1 <= i < table.len() && declares_path(#[trigger] table[i]) && p == split_key(
                    cell(table[i], 0),
                ),
    )
}

/// The declared key paths of the first `n` rows of the table, the header
/// counted, one for each row that declares one, in table order.
pub open spec fn declared_list(table: Table, n: int) -> Seq<Path>
    decreases n,
{
    if n <= 1 {
        Seq::empty()
    } else if declares_path(table[n - 1]) {
        declared_list(table, n - 1).push(split_key(cell(table[n - 1], 0)))
    } else {
        declared_list(table, n - 1)
    }
}

/// The row's key cell declares a key path.
pub open spec fn declares_path(row: Seq<Seq<char>>) -> bool {
    cell(row, 0).len() > 0 && cell(row, 0) != sentinel()
}

/// The list of declared key paths holds the declared key paths.
pub proof fn lemma_declared_list(table: Table)
    ensures
        declared_list(table, table.len() as int).to_set() == declared(table),
{
    let all = declared_list(table, table.len() as int);
    lemma_declared_list_holds(table, table.len() as int);
    assert forall|p: Path| all.to_set().contains(p) == declared(table).contains(p) by {
        assert(all.to_set().contains(p) == all.contains(p));
    }
    assert(all.to_set() =~= declared(table));
}

/// What the list of the first `n` rows holds.
pub proof fn lemma_declared_list_holds(table: Table, n: int)
    requires
        n <= table.len(),
    ensures
        forall|p: Path|
            declared_list(table, n).contains(p) <==> exists|j: int|
                1 <= j < n && declares_path(#[trigger] table[j]) && p == split_key(
                    cell(table[j], 0),
                ),
    decreases n,
{
    let all = declared_list(table, n);
    if n > 1 {
        let before = declared_list(table, n - 1);
        lemma_declared_list_holds(table, n - 1);
        assert forall|p: Path| all.contains(p) <==> exists|j: int|
            1 <= j < n && declares_path(#[trigger] table[j]) && p == split_key(
                cell(table[j], 0),
            ) by {
            if all.contains(p) {
                let k = choose|k: int| 0 <= k < all.len() && all[k] == p;
                if k < before.len() {
                    assert(before[k] == p);
                    assert(before.contains(p));
                } else {
                    assert(declares_path(table[n - 1]));
                }
            }
            if exists|j: int|
                1 <= j < n && declares_path(#[trigger] table[j]) && p == split_key(
                    cell(table[j], 0),
                ) {
                let j = choose|j: int|
                    1 <= j < n && declares_path(#[trigger] table[j]) && p == split_key(
                        cell(table[j], 0),
                    );
                if j < n - 1 {
                    assert(before.contains(p));
                    let k = choose|k: int| 0 <= k < before.len() && before[k] == p;
                    assert(all[k] == p);
                } else {
                    assert(all[all.len() - 1] == p);
                }
            }
        }
    }
}

/// Some declared path has `segment` at index `depth`.
pub open spec fn declares(paths: Set<Path>, depth: int, segment: Seq<char>) -> bool {
    exists|p: Path| #[trigger] paths.contains(p) && 0 <= depth < p.len() && p[depth] == segment
}

/// The tree without the keys that no declared path has at their depth.
/// A leaf stays as it is; a branch keeps, in order, the entries whose key
/// some declared path has at `depth`, each pruned one level deeper.
pub open spec fn pruned(paths: Set<Path>, t: Tree, depth: int) -> Tree
    decreases t, 0nat,
{
    match t {
        Tree::Leaf(_) => t,
        Tree::Branch(es) => Tree::Branch(pruned_entries(paths, es, es.len() as int, depth)),
    }
}

/// The first `n` entries of a branch, pruned.
pub open spec fn pruned_entries(paths: Set<Path>, es: Entries, n: int, depth: int) -> Entries
    decreases es, n,
{
    if n <= 0 || n > es.len() {
        Seq::empty()
    } else if declares(paths, depth, es[n - 1].0) {
        pruned_entries(paths, es, n - 1, depth).push(
            (es[n - 1].0, pruned(paths, es[n - 1].1, depth + 1)),
        )
    } else {
        pruned_entries(paths, es, n - 1, depth)
    }
}

/// Every path's segments are declared, each at its depth, counted from
/// `depth`.
pub open spec fn all_declared(paths: Set<Path>, depth: int, q: Path) -> bool {
    forall|i: int| 0 <= i < q.len() ==> declares(paths, depth + i, #[trigger] q[i])
}

/// Pruning the first `n` entries looks at those entries only.
pub proof fn lemma_pruned_entries_prefix(
    paths: Set<Path>,
    a: Entries,
    b: Entries,
    n: int,
    depth: int,
)
    requires
        0 <= n <= a.len(),
        n <= b.len(),
        forall|i: int| 0 <= i < n ==> a[i] == b[i],
    ensures
        pruned_entries(paths, a, n, depth) == pruned_entries(paths, b, n, depth),
    decreases n,
{
    if n > 0 {
        lemma_pruned_entries_prefix(paths, a, b, n - 1, depth);
    }
}

/// What the pruned entries hold: every entry comes from an entry of the
/// branch whose key is declared, pruned one level deeper; under a declared
/// key stands the pruned node of that key, under any other key nothing.
pub proof fn lemma_pruned_entries(paths: Set<Path>, es: Entries, n: int, depth: int, key: Seq<char>)
    requires
        0 <= n <= es.len(),
    ensures
        forall|i: int|
            0 <= i < pruned_entries(paths, es, n, depth).len() ==> exists|j: int|
                0 <= j < n && declares(paths, depth, es[j].0) && #[trigger] pruned_entries(
                    paths,
                    es,
                    n,
                    depth,
                )[i] == (es[j].0, pruned(paths, es[j].1, depth + 1)),
        child(Tree::Branch(pruned_entries(paths, es, n, depth)), key) == match child(
            Tree::Branch(es.take(n)),
            key,
        ) {
            Some(x) => if declares(paths, depth, key) {
                Some(pruned(paths, x, depth + 1))
            } else {
                None
            },
            None => None,
        },
        unique_keys(es) ==> unique_keys(pruned_entries(paths, es, n, depth)),
    decreases n,
{
    let out = pruned_entries(paths, es, n, depth);
    if n == 0 {
        assert(es.take(0) =~= Seq::empty());
    } else {
        let rest = pruned_entries(paths, es, n - 1, depth);
        lemma_pruned_entries(paths, es, n - 1, depth, key);
        assert(es.take(n).drop_last() =~= es.take(n - 1));
        assert(es.take(n).last() == es[n - 1]);
        lemma_find(rest, key);
        lemma_find(es.take(n - 1), key);
        if declares(paths, depth, es[n - 1].0) {
            let last = (es[n - 1].0, pruned(paths, es[n - 1].1, depth + 1));
            assert(out.drop_last() =~= rest);
            assert(out.last() == last);
            assert forall|i: int| 0 <= i < out.len() implies exists|j: int|
                0 <= j < n && declares(paths, depth, es[j].0) && #[trigger] out[i] == (
                    es[j].0,
                    pruned(paths, es[j].1, depth + 1),
                ) by {
                if i < rest.len() {
                    let j = choose|j: int|
                        0 <= j < n - 1 && declares(paths, depth, es[j].0) && rest[i] == (
                            es[j].0,
                            pruned(paths, es[j].1, depth + 1),
                        );
                    assert(out[i] == rest[i]);
                } else {
                    assert(out[i] == last);
                }
            }
            if unique_keys(es) {
                assert forall|i: int, k: int| 0 <= i < k < out.len() implies out[i].0
                    != out[k].0 by {
                    let j = choose|j: int|
                        0 <= j < n - 1 && declares(paths, depth, es[j].0) && rest[i] == (
                            es[j].0,
                            pruned(paths, es[j].1, depth + 1),
                        );
                    if k < rest.len() {
                        assert(rest[i].0 != rest[k].0);
                    } else {
                        assert(es[j].0 != es[n - 1].0);
                    }
                }
            }
        }
    }
}

/// Pruning twice is pruning once.
pub proof fn lemma_prune_idempotent(paths: Set<Path>, t: Tree, depth: int)
    ensures
        pruned(paths, pruned(paths, t, depth), depth) == pruned(paths, t, depth),
    decreases t, 0nat,
{
    match t {
        Tree::Leaf(_) => {},
        Tree::Branch(es) => {
            lemma_prune_entries_idempotent(paths, es, es.len() as int, depth);
        },
    }
}

/// Pruning pruned entries changes nothing.
pub proof fn lemma_prune_entries_idempotent(paths: Set<Path>, es: Entries, n: int, depth: int)
    requires
        0 <= n <= es.len(),
    ensures
        pruned_entries(
            paths,
            pruned_entries(paths, es, n, depth),
            pruned_entries(paths, es, n, depth).len() as int,
            depth,
        ) == pruned_entries(paths, es, n, depth),
    decreases es, n,
{
    if n > 0 {
        let out = pruned_entries(paths, es, n, depth);
        let rest = pruned_entries(paths, es, n - 1, depth);
        lemma_prune_entries_idempotent(paths, es, n - 1, depth);
        if declares(paths, depth, es[n - 1].0) {
            lemma_prune_idempotent(paths, es[n - 1].1, depth + 1);
            lemma_pruned_entries_prefix(paths, out, rest, rest.len() as int, depth);
        }
    }
}

/// Along segments that are declared at their depths, pruning leads where
/// the tree led, to the pruned node: no leaf on such a path is lost.
pub proof fn lemma_prune_keeps_declared(paths: Set<Path>, t: Tree, depth: int, q: Path)
    requires
        all_declared(paths, depth, q),
    ensures
        walk(pruned(paths, t, depth), q) == match walk(t, q) {
            Some(x) => Some(pruned(paths, x, depth + q.len())),
            None => None,
        },
    decreases q.len(),
{
    if q.len() > 0 {
        match t {
            Tree::Leaf(_) => {},
            Tree::Branch(es) => {
                lemma_pruned_entries(paths, es, es.len() as int, depth, q[0]);
                assert(es.take(es.len() as int) =~= es);
                assert(declares(paths, depth + 0, q[0]));
                match child(t, q[0]) {
                    Some(x) => {
                        assert forall|i: int| 0 <= i < q.drop_first().len() implies declares(
                            paths,
                            depth + 1 + i,
                            #[trigger] q.drop_first()[i],
                        ) by {
                            assert(declares(paths, depth + (i + 1), q[i + 1]));
                        }
                        lemma_prune_keeps_declared(paths, x, depth + 1, q.drop_first());
                    },
                    None => {},
                }
            },
        }
    }
}

/// Every path that leads somewhere in a pruned tree is made of segments
/// declared at their depths, and leads to the pruned node of the tree: no
/// undeclared key is kept.
pub proof fn lemma_prune_only_declared(paths: Set<Path>, t: Tree, depth: int, q: Path)
    requires
        walk(pruned(paths, t, depth), q) is Some,
    ensures
        all_declared(paths, depth, q),
        walk(t, q) is Some,
    decreases q.len(),
{
    if q.len() > 0 {
        match t {
            Tree::Leaf(_) => {},
            Tree::Branch(es) => {
                lemma_pruned_entries(paths, es, es.len() as int, depth, q[0]);
                assert(es.take(es.len() as int) =~= es);
                let x = child(t, q[0]).unwrap();
                lemma_prune_only_declared(paths, x, depth + 1, q.drop_first());
                assert forall|i: int| 0 <= i < q.len() implies declares(
                    paths,
                    depth + i,
                    #[trigger] q[i],
                ) by {
                    if i > 0 {
                        assert(declares(paths, depth + 1 + (i - 1), q.drop_first()[i - 1]));
                    }
                }
            },
        }
    }
}

/// Pruning a mapping gives a mapping, at every depth.
pub proof fn lemma_pruned_well_formed(paths: Set<Path>, t: Tree, depth: int)
    requires
        well_formed(t),
    ensures
        well_formed(pruned(paths, t, depth)),
    decreases t,
{
    match t {
        Tree::Leaf(_) => {},
        Tree::Branch(es) => {
            let out = pruned_entries(paths, es, es.len() as int, depth);
            lemma_pruned_entries(paths, es, es.len() as int, depth, Seq::empty());
            assert forall|i: int| 0 <= i < out.len() implies well_formed(#[trigger] out[i].1) by {
                let j = choose|j: int|
                    0 <= j < es.len() && declares(paths, depth, es[j].0) && out[i] == (
                        es[j].0,
                        pruned(paths, es[j].1, depth + 1),
                    );
                assert(well_formed(es[j].1));
                lemma_pruned_well_formed(paths, es[j].1, depth + 1);
            }
        },
    }
}

/// Whether some path has `segment` at index `depth`.
pub fn declares_segment(paths: &Vec<Vec<String>>, depth: usize, segment: &String) -> (r: bool)
    ensures
        r == declares(paths.deep_view().to_set(), depth as int, segment@),
{
    let ghost ps = paths.deep_view();
    let mut i: usize = 0;
    while i < paths.len()
        invariant
            i <= paths.len(),
            ps == paths.deep_view(),
            forall|j: int|
                0 <= j < i ==> !(depth < (#[trigger] ps[j]).len() && ps[j][depth as int]
                    == segment@),
        decreases paths.len() - i,
    {
        let path = &paths[i];
        proof {
            assert(ps[i as int] == path.deep_view());
        }
        if depth < path.len() && path[depth] == *segment {
            proof {
                assert(ps.contains(ps[i as int]));
                assert(ps.to_set().contains(ps[i as int]));
            }
            return true;
        }
        i += 1;
    }
    proof {
        if declares(ps.to_set(), depth as int, segment@) {
            let p = choose|p: Path|
                #[trigger] ps.to_set().contains(p) && 0 <= depth < p.len() && p[depth as int]
                    == segment@;
            assert(ps.contains(p));
            let j = choose|j: int| 0 <= j < ps.len() && ps[j] == p;
            assert(!(depth < ps[j].len() && ps[j][depth as int] == segment@));
        }
    }
    false
}

/// The entries of a branch, pruned.
pub fn prune_entries(paths: &Vec<Vec<String>>, es: &Vec<(String, Node)>, depth: usize) -> (r: Vec<
    (String, Node),
>)
    ensures
        entries_of(r@) == pruned_entries(
            paths.deep_view().to_set(),
            entries_of(es@),
            es.len() as int,
            depth as int,
        ),
    decreases es,
{
    let ghost ps = paths.deep_view().to_set();
    let ghost e = entries_of(es@);
    let mut out: Vec<(String, Node)> = Vec::new();
    let mut i: usize = 0;
    proof {
        assert(entries_of(out@) =~= Seq::empty());
    }
    while i < es.len()
        invariant
            i <= es.len(),
            ps == paths.deep_view().to_set(),
            e == entries_of(es@),
            entries_of(out@) == pruned_entries(ps, e, i as int, depth as int),
        decreases es.len() - i,
    {
        let ghost before = entries_of(out@);
        if declares_segment(paths, depth, &es[i].0) {
            proof {
                let p = choose|p: Path|
                    #[trigger] ps.contains(p) && 0 <= depth < p.len() && p[depth as int] == e[i as int].0;
                assert(paths.deep_view().contains(p));
                let j = choose|j: int| 0 <= j < paths.deep_view().len() && paths.deep_view()[j] == p;
                assert(p.len() == paths@[j].len());
            }
            let node = prune(paths, &es[i].1, depth + 1);
            out.push((es[i].0.clone(), node));
            proof {
                assert(entries_of(out@) =~= before.push(
                    (e[i as int].0, pruned(ps, e[i as int].1, depth + 1)),
                ));
            }
        }
        i += 1;
    }
    out
}

/// Prunes a tree against the declared key paths: a branch at `depth` keeps
/// the keys that some path has at index `depth`, and what stays below them
/// is pruned one level deeper. Leaves stay.
pub fn prune(paths: &Vec<Vec<String>>, tree: &Node, depth: usize) -> (r: Node)
    ensures
        r@ == pruned(paths.deep_view().to_set(), tree@, depth as int),
        pruned(paths.deep_view().to_set(), r@, depth as int) == r@,
        forall|q: Path| #[trigger]
            walk(r@, q) is Some ==> walk(tree@, q) is Some && all_declared(
                paths.deep_view().to_set(),
                depth as int,
                q,
            ),
        forall|q: Path|
            all_declared(paths.deep_view().to_set(), depth as int, q) ==> #[trigger] walk(r@, q)
                == match walk(tree@, q) {
                Some(x) => Some(pruned(paths.deep_view().to_set(), x, depth + q.len())),
                None => None,
            },
        tree.wf() ==> r.wf(),
    decreases tree,
{
    let ghost ps = paths.deep_view().to_set();
    proof {
        lemma_prune_idempotent(ps, tree@, depth as int);
        assert forall|q: Path| #[trigger] walk(pruned(ps, tree@, depth as int), q) is Some implies walk(
            tree@,
            q,
        ) is Some && all_declared(ps, depth as int, q) by {
            lemma_prune_only_declared(ps, tree@, depth as int, q);
        }
        assert forall|q: Path| all_declared(ps, depth as int, q) implies #[trigger] walk(
            pruned(ps, tree@, depth as int),
            q,
        ) == match walk(tree@, q) {
            Some(x) => Some(pruned(ps, x, depth + q.len())),
            None => None,
        } by {
            lemma_prune_keeps_declared(ps, tree@, depth as int, q);
        }
        if tree.wf() {
            lemma_pruned_well_formed(ps, tree@, depth as int);
        }
    }
    match tree {
        Node::Leaf(text) => Node::Leaf(text.clone()),
        Node::Branch(es) => {
            let kept = prune_entries(paths, es, depth);
            proof {
                lemma_branch_view(*es);
                lemma_branch_view(kept);
            }
            Node::Branch(kept)
        },
    }
}

/// The key paths that a table declares, one for each data row whose key
/// cell is neither empty nor the header's word, in table order.
pub fn declared_paths(table: &Vec<Vec<String>>) -> (paths: Vec<Vec<String>>)
    ensures
        paths.deep_view() == declared_list(table.deep_view(), table.len() as int),
        paths.deep_view().to_set() == declared(table.deep_view()),
{
    let ghost t = table.deep_view();
    let word = String::from_str("Key");
    proof {
        reveal_strlit("Key");
        assert(word@ =~= sentinel());
    }
    let mut out: Vec<Vec<String>> = Vec::new();
    let mut i: usize = 1;
    proof {
        assert(out.deep_view() =~= Seq::empty());
    }
    while i < table.len()
        invariant
            1 <= i,
            i <= table.len() || (table.len() == 0 && i == 1),
            t == table.deep_view(),
            word@ == sentinel(),
            out.deep_view() == declared_list(t, i as int),
        decreases table.len() - i,
    {
        let row = &table[i];
        let ghost before = out.deep_view();
        proof {
            assert(t[i as int] == row.deep_view());
        }
        if row.len() > 0 {
            let key = &row[0];
            if key.as_str().unicode_len() > 0 && *key != word {
                let path = split(key.as_str());
                out.push(path);
                proof {
                    assert(out.deep_view() =~= before.push(split_key(cell(t[i as int], 0))));
                }
            }
        }
        i += 1;
    }
    proof {
        lemma_declared_list(t);
    }
    out
}

} // verus!
