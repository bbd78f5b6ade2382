//! Splitting a dotted key into its segments.

use crate::tree::Path;
use vstd::prelude::*;

verus! {

/// The segments of a dotted key: the stretches between its dots, in order.
/// A key without a dot is its own single segment, and so is the empty key.
pub open spec fn split_key(s: Seq<char>) -> Path
    decreases s.len(),
{
    if s.len() == 0 {
        seq![Seq::empty()]
    } else {
        let before = split_key(s.drop_last());
        if s.last() == '.' {
            before.push(Seq::empty())
        } else {
            before.update(before.len() - 1, before.last().push(s.last()))
        }
    }
}

/// The dotted key made of the segments: they follow each other with one dot
/// between two neighbours.
pub open spec fn join_key(p: Path) -> Seq<char>
    decreases p.len(),
{
    if p.len() == 0 {
        Seq::empty()
    } else if p.len() == 1 {
        p[0]
    } else {
        join_key(p.drop_last()) + seq!['.'] + p.last()
    }
}

/// No character of the segment is a dot.
pub open spec fn dot_free(segment: Seq<char>) -> bool {
    forall|i: int| 0 <= i < segment.len() ==> segment[i] != '.'
}

/// Splitting gives at least one segment, none of them holds a dot, and
/// joining them gives the key back.
pub proof fn lemma_split_key(s: Seq<char>)
    ensures
        split_key(s).len() >= 1,
        forall|i: int| 0 <= i < split_key(s).len() ==> dot_free(#[trigger] split_key(s)[i]),
        join_key(split_key(s)) == s,
    decreases s.len(),
{
    if s.len() > 0 {
        let before = split_key(s.drop_last());
        lemma_split_key(s.drop_last());
        if s.last() == '.' {
            let after = before.push(Seq::empty());
            assert(after.drop_last() =~= before);
            assert(join_key(after) =~= s);
        } else {
            let after = before.update(before.len() - 1, before.last().push(s.last()));
            if before.len() > 1 {
                assert(after.drop_last() =~= before.drop_last());
            }
            assert(join_key(after) =~= join_key(before).push(s.last()));
            assert(join_key(after) =~= s);
        }
    }
}

/// A key without a dot is its own single segment.
pub proof fn lemma_split_dot_free(s: Seq<char>)
    requires
        dot_free(s),
    ensures
        split_key(s) == seq![s],
    decreases s.len(),
{
    if s.len() == 0 {
        assert(s =~= Seq::empty());
    } else {
        lemma_split_dot_free(s.drop_last());
        assert(s.drop_last().push(s.last()) =~= s);
        assert(seq![s.drop_last()].update(0, s.drop_last().push(s.last())) =~= seq![s]);
    }
}

/// Two keys with the same segments are the same key.
pub proof fn lemma_split_injective(a: Seq<char>, b: Seq<char>)
    requires
        split_key(a) == split_key(b),
    ensures
        a == b,
{
    lemma_split_key(a);
    lemma_split_key(b);
}

/// Splits a dotted key into its segments. Nothing is trimmed, and an empty
/// stretch between two dots, or at either end, is an empty segment.
pub fn split(raw: &str) -> (segments: Vec<String>)
    ensures
        segments.deep_view() == split_key(raw@),
{
    let n = raw.unicode_len();
    let mut out: Vec<String> = Vec::new();
    let mut start: usize = 0;
    let mut i: usize = 0;
    proof {
        assert(raw@.take(0) =~= Seq::empty());
        assert(out.deep_view().push(raw@.subrange(0, 0)) =~= seq![Seq::empty()]);
    }
    while i < n
        invariant
            n == raw@.len(),
            start <= i <= n,
            split_key(raw@.take(i as int)) == out.deep_view().push(
                raw@.subrange(start as int, i as int),
            ),
        decreases n - i,
    {
        let c = raw.get_char(i);
        let ghost before = out.deep_view();
        proof {
            assert(raw@.take(i + 1).drop_last() =~= raw@.take(i as int));
            assert(raw@.take(i + 1).last() == c);
        }
        if c == '.' {
            let ghost from = start;
            out.push(raw.substring_char(start, i).to_owned());
            start = i + 1;
            proof {
                assert(out.deep_view() =~= before.push(raw@.subrange(from as int, i as int)));
                assert(raw@.subrange(start as int, i + 1) =~= Seq::empty());
            }
        } else {
            proof {
                let prev = before.push(raw@.subrange(start as int, i as int));
                assert(raw@.subrange(start as int, i as int).push(c) =~= raw@.subrange(
                    start as int,
                    i + 1,
                ));
                assert(prev.update(prev.len() - 1, prev.last().push(c)) =~= before.push(
                    raw@.subrange(start as int, i + 1),
                ));
            }
        }
        i += 1;
    }
    let ghost before = out.deep_view();
    out.push(raw.substring_char(start, n).to_owned());
    proof {
        assert(raw@.take(n as int) =~= raw@);
        assert(out.deep_view() =~= before.push(raw@.subrange(start as int, n as int)));
    }
    out
}

} // verus!
