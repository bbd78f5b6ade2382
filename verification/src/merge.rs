//! Merging two branches: the entries of the first stay in place, those of
//! the second whose key is new follow, and where a key stands in both the
//! two nodes are combined.

use crate::node::{entries_of, lemma_branch_view, position, Node};
use crate::tree::{
    child,
    find,
    lemma_find,
    lemma_find_first,
    lemma_find_none,
    unique_keys,
    well_formed,
    Entries,
    Tree,
};
use vstd::prelude::*;

verus! {

/// What stands under a key that both sides hold. Two branches merge. A
/// branch beside a leaf wins, whichever side it is on. Of two leaves the
/// later one stays.
pub open spec fn combine(earlier: Tree, later: Tree) -> Tree
    decreases earlier, 0nat,
{
    match (earlier, later) {
        (Tree::Branch(f), Tree::Branch(s)) => Tree::Branch(merge(f, s)),
        (Tree::Branch(_), Tree::Leaf(_)) => earlier,
        (Tree::Leaf(_), Tree::Branch(_)) => later,
        (Tree::Leaf(_), Tree::Leaf(_)) => later,
    }
}

/// The entries of `a`, each in its place, combined with the entry of `b`
/// under the same key where there is one.
pub open spec fn merge_kept(a: Entries, b: Entries) -> Entries
    decreases a, 0nat,
{
    Seq::new(
        a.len(),
        |i: int|
            if 0 <= i < a.len() {
                match find(b, a[i].0) {
                    Some(j) => (a[i].0, combine(a[i].1, b[j].1)),
                    None => a[i],
                }
            } else {
                arbitrary()
            },
    )
}

/// The entries of `b` whose key `a` does not hold, in their order.
pub open spec fn merge_added(a: Entries, b: Entries) -> Entries
    decreases b.len(),
{
    if b.len() == 0 {
        Seq::empty()
    } else if find(a, b.last().0) is None {
        merge_added(a, b.drop_last()).push(b.last())
    } else {
        merge_added(a, b.drop_last())
    }
}

/// The merge of two branches.
pub open spec fn merge(a: Entries, b: Entries) -> Entries
    decreases a, 1nat,
{
    merge_kept(a, b) + merge_added(a, b)
}

/// The entries that come new are entries of `b`, under keys that `a` does
/// not hold, and the first of each key in `b`.
pub proof fn lemma_merge_added(a: Entries, b: Entries, key: Seq<char>)
    ensures
        child(Tree::Branch(merge_added(a, b)), key) == if find(a, key) is None {
            child(Tree::Branch(b), key)
        } else {
            None
        },
        forall|i: int|
            0 <= i < merge_added(a, b).len() ==> exists|j: int|
                0 <= j < b.len() && b[j] == #[trigger] merge_added(a, b)[i],
        unique_keys(b) ==> unique_keys(merge_added(a, b)),
    decreases b.len(),
{
    if b.len() > 0 {
        let rest = merge_added(a, b.drop_last());
        lemma_merge_added(a, b.drop_last(), key);
        lemma_find(rest, key);
        lemma_find(b.drop_last(), key);
        if find(a, b.last().0) is None {
            let all = rest.push(b.last());
            assert(all.drop_last() =~= rest);
            assert forall|i: int| 0 <= i < all.len() implies exists|j: int|
                0 <= j < b.len() && b[j] == #[trigger] all[i] by {
                if i < rest.len() {
                    let j = choose|j: int| 0 <= j < b.len() - 1 && b.drop_last()[j] == rest[i];
                    assert(b[j] == all[i]);
                } else {
                    assert(b[b.len() - 1] == all[i]);
                }
            }
            if unique_keys(b) {
                assert forall|i: int, j: int| 0 <= i < j < all.len() implies all[i].0
                    != all[j].0 by {
                    let bi = choose|x: int| 0 <= x < b.len() - 1 && b.drop_last()[x] == rest[i];
                    if j < rest.len() {
                        assert(rest[i].0 != rest[j].0);
                    } else {
                        assert(b[bi].0 != b[b.len() - 1].0);
                    }
                }
            }
        }
    }
}

/// Under every key the merge holds what the two sides give: the combined
/// node where both hold the key, else the node of the side that holds it.
pub proof fn lemma_merge_child(a: Entries, b: Entries, key: Seq<char>)
    ensures
        child(Tree::Branch(merge(a, b)), key) == match (
            child(Tree::Branch(a), key),
            child(Tree::Branch(b), key),
        ) {
            (Some(x), Some(y)) => Some(combine(x, y)),
            (Some(x), None) => Some(x),
            (None, Some(y)) => Some(y),
            (None, None) => None,
        },
{
    let kept = merge_kept(a, b);
    let added = merge_added(a, b);
    let all = merge(a, b);
    lemma_merge_added(a, b, key);
    lemma_find(a, key);
    lemma_find(b, key);
    lemma_find(added, key);
    match find(a, key) {
        Some(i) => {
            assert(all[i] == kept[i]);
            assert forall|j: int| 0 <= j < i implies (#[trigger] all[j]).0 != key by {
                assert(all[j] == kept[j]);
                assert(kept[j].0 == a[j].0);
            }
            lemma_find_first(all, key, i);
        },
        None => {
            assert forall|j: int| 0 <= j < kept.len() implies (#[trigger] all[j]).0 != key by {
                assert(all[j] == kept[j]);
                assert(kept[j].0 == a[j].0);
            }
            match find(added, key) {
                Some(i) => {
                    assert(all[kept.len() + i] == added[i]);
                    assert forall|j: int| 0 <= j < kept.len() + i implies (#[trigger] all[j]).0
                        != key by {
                        if j >= kept.len() {
                            assert(all[j] == added[j - kept.len()]);
                        }
                    }
                    lemma_find_first(all, key, kept.len() + i);
                },
                None => {
                    assert forall|j: int| 0 <= j < all.len() implies (#[trigger] all[j]).0
                        != key by {
                        if j >= kept.len() {
                            assert(all[j] == added[j - kept.len()]);
                        }
                    }
                    lemma_find_none(all, key);
                },
            }
        },
    }
}

/// Merging mappings gives a mapping, at every depth.
pub proof fn lemma_merge_well_formed(a: Entries, b: Entries)
    requires
        well_formed(Tree::Branch(a)),
        well_formed(Tree::Branch(b)),
    ensures
        well_formed(Tree::Branch(merge(a, b))),
    decreases a,
{
    let kept = merge_kept(a, b);
    let added = merge_added(a, b);
    let all = merge(a, b);
    lemma_merge_added(a, b, Seq::empty());
    assert forall|i: int| 0 <= i < all.len() implies well_formed(#[trigger] all[i].1) by {
        if i < kept.len() {
            assert(all[i] == kept[i]);
            match find(b, a[i].0) {
                Some(j) => {
                    lemma_find(b, a[i].0);
                    assert(well_formed(a[i].1));
                    assert(well_formed(b[j].1));
                    match (a[i].1, b[j].1) {
                        (Tree::Branch(f), Tree::Branch(s)) => {
                            lemma_merge_well_formed(f, s);
                        },
                        _ => {},
                    }
                },
                None => {
                    assert(well_formed(a[i].1));
                },
            }
        } else {
            let k = i - kept.len();
            assert(all[i] == added[k]);
            let j = choose|j: int| 0 <= j < b.len() && b[j] == added[k];
            assert(well_formed(b[j].1));
        }
    }
    assert forall|i: int, j: int| 0 <= i < j < all.len() implies all[i].0 != all[j].0 by {
        if j < kept.len() {
            assert(kept[i].0 == a[i].0 && kept[j].0 == a[j].0);
        } else if i < kept.len() {
            assert(kept[i].0 == a[i].0);
            let k = j - kept.len();
            assert(all[j] == added[k]);
            lemma_merge_added(a, b, added[k].0);
            lemma_find(added, added[k].0);
            lemma_find(a, added[k].0);
            if find(a, added[k].0) is Some {
                lemma_find(added, added[k].0);
                assert(false);
            }
        } else {
            assert(all[i] == added[i - kept.len()]);
            assert(all[j] == added[j - kept.len()]);
        }
    }
}

/// The node that stands under a key which both sides hold.
pub fn combine_nodes(earlier: &Node, later: &Node) -> (r: Node)
    ensures
        r@ == combine(earlier@, later@),
    decreases earlier,
{
    match earlier {
        Node::Branch(f) => match later {
            Node::Branch(s) => {
                proof {
                    lemma_branch_view(*f);
                    lemma_branch_view(*s);
                }
                let merged = merge_entries(f, s);
                proof {
                    lemma_branch_view(merged);
                }
                Node::Branch(merged)
            },
            Node::Leaf(_) => earlier.duplicate(),
        },
        Node::Leaf(_) => later.duplicate(),
    }
}

/// The merge of two branches, given by their entries.
pub fn merge_entries(a: &Vec<(String, Node)>, b: &Vec<(String, Node)>) -> (r: Vec<
    (String, Node),
>)
    ensures
        entries_of(r@) == merge(entries_of(a@), entries_of(b@)),
    decreases a,
{
    let ghost ea = entries_of(a@);
    let ghost eb = entries_of(b@);
    let mut out: Vec<(String, Node)> = Vec::new();
    let mut i: usize = 0;
    while i < a.len()
        invariant
            i <= a.len(),
            out.len() == i,
            ea == entries_of(a@),
            eb == entries_of(b@),
            forall|j: int| 0 <= j < i ==> (#[trigger] out@[j]).0@ == merge_kept(ea, eb)[j].0
                && out@[j].1@ == merge_kept(ea, eb)[j].1,
        decreases a.len() - i,
    {
        let node = match position(b, &a[i].0) {
            Some(j) => combine_nodes(&a[i].1, &b[j].1),
            None => a[i].1.duplicate(),
        };
        out.push((a[i].0.clone(), node));
        i += 1;
    }
    assert(entries_of(out@) =~= merge_kept(ea, eb));
    let mut k: usize = 0;
    assert(eb.take(0) =~= Seq::empty());
    while k < b.len()
        invariant
            k <= b.len(),
            ea == entries_of(a@),
            eb == entries_of(b@),
            entries_of(out@) == merge_kept(ea, eb) + merge_added(ea, eb.take(k as int)),
        decreases b.len() - k,
    {
        let ghost before = entries_of(out@);
        proof {
            assert(eb.take(k + 1).drop_last() =~= eb.take(k as int));
            assert(eb.take(k + 1).last() == eb[k as int]);
        }
        if position(a, &b[k].0).is_none() {
            let node = b[k].1.duplicate();
            out.push((b[k].0.clone(), node));
            assert(entries_of(out@) =~= before.push(eb[k as int]));
            assert(before.push(eb[k as int]) =~= merge_kept(ea, eb) + merge_added(
                ea,
                eb.take(k as int),
            ).push(eb[k as int]));
        }
        k += 1;
    }
    assert(eb.take(b.len() as int) =~= eb);
    out
}

/// Extends a branch by another: entries under new keys are added behind
/// those already there, and where a key repeats the two nodes are combined.
pub fn extended_string_or_hashmap(
    hashmap: Vec<(String, Node)>,
    new_hashmap: Vec<(String, Node)>,
) -> (extended: Vec<(String, Node)>)
    ensures
        entries_of(extended@) == merge(entries_of(hashmap@), entries_of(new_hashmap@)),
{
    merge_entries(&hashmap, &new_hashmap)
}

} // verus!
