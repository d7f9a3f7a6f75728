//! The segment structure of a key: `/`-joined segments and their split.
//!
//! A key string is the segments joined by `/`; splitting a string on `/`
//! gives back the segments as long as none of them contains `/`.

use vstd::prelude::*;
use vstd::utf8::*;

verus! {

/// The segments joined by `/`. No segments give the empty string.
pub open spec fn join_segments(segs: Seq<Seq<char>>) -> Seq<char>
    decreases segs.len(),
{
    if segs.len() == 0 {
        Seq::empty()
    } else if segs.len() == 1 {
        segs[0]
    } else {
        join_segments(segs.drop_last()) + seq!['/'] + segs.last()
    }
}

/// The string split at every `/`; the empty string is one empty segment.
pub open spec fn split_segments(s: Seq<char>) -> Seq<Seq<char>>
    decreases s.len(),
{
    if s.len() == 0 {
        seq![Seq::empty()]
    } else {
        let pre = split_segments(s.drop_last());
        if s.last() == '/' {
            pre.push(Seq::empty())
        } else {
            pre.update(pre.len() - 1, pre.last().push(s.last()))
        }
    }
}

/// The segment holds no `/`.
pub open spec fn free_of_separator(seg: Seq<char>) -> bool {
    !seg.contains('/')
}

/// No segment holds a `/`.
pub open spec fn all_free_of_separator(segs: Seq<Seq<char>>) -> bool {
    forall|i: int| 0 <= i < segs.len() ==> free_of_separator(#[trigger] segs[i])
}

/// The single-segment sequence holds no `/` when its segment does not.
pub proof fn lemma_single_free(seg: Seq<char>)
    requires
        free_of_separator(seg),
    ensures
        all_free_of_separator(seq![seg]),
{
    assert forall|i: int| 0 <= i < seq![seg].len() implies free_of_separator(
        #[trigger] seq![seg][i],
    ) by {
        assert(seq![seg][i] == seg);
    }
}

/// Splitting always gives at least one segment, and none holds a `/`.
pub proof fn lemma_split_shape(s: Seq<char>)
    ensures
        split_segments(s).len() >= 1,
        all_free_of_separator(split_segments(s)),
    decreases s.len(),
{
    if s.len() > 0 {
        lemma_split_shape(s.drop_last());
        let pre = split_segments(s.drop_last());
        if s.last() != '/' {
            let segs = split_segments(s);
            assert forall|i: int| 0 <= i < segs.len() implies free_of_separator(
                #[trigger] segs[i],
            ) by {
                if i == pre.len() - 1 {
                    assert(free_of_separator(pre.last()));
                    if segs[i].contains('/') {
                        let j = choose|j: int| 0 <= j < segs[i].len() && segs[i][j] == '/';
                        assert(pre.last()[j] == '/');
                    }
                } else {
                    assert(segs[i] == pre[i]);
                }
            }
        } else {
            let segs = split_segments(s);
            assert forall|i: int| 0 <= i < segs.len() implies free_of_separator(
                #[trigger] segs[i],
            ) by {
                if i < pre.len() {
                    assert(segs[i] == pre[i]);
                }
            }
        }
    }
}

/// Appending text without `/` extends the last segment.
pub proof fn lemma_split_extend(a: Seq<char>, x: Seq<char>)
    requires
        free_of_separator(x),
    ensures
        split_segments(a + x) == split_segments(a).update(
            split_segments(a).len() - 1,
            split_segments(a).last() + x,
        ),
    decreases x.len(),
{
    lemma_split_shape(a);
    if x.len() == 0 {
        assert(a + x =~= a);
        assert(split_segments(a).last() + x =~= split_segments(a).last());
        assert(split_segments(a).update(split_segments(a).len() - 1, split_segments(a).last())
            =~= split_segments(a));
    } else {
        let y = x.drop_last();
        assert(free_of_separator(y)) by {
            if y.contains('/') {
                let j = choose|j: int| 0 <= j < y.len() && y[j] == '/';
                assert(x[j] == '/');
            }
        }
        lemma_split_extend(a, y);
        assert((a + x).drop_last() =~= a + y);
        assert((a + x).last() == x.last());
        assert(x.last() != '/') by {
            assert(x[x.len() - 1] == x.last());
        }
        assert(split_segments(a).last() + y + seq![x.last()] =~= split_segments(a).last() + x);
        let sa = split_segments(a);
        let pre = split_segments(a + y);
        assert(pre == sa.update(sa.len() - 1, sa.last() + y));
        assert(pre.len() == sa.len());
        assert(pre.last() == sa.last() + y);
        assert(split_segments(a + x) == pre.update(pre.len() - 1, pre.last().push(x.last())));
        assert(pre.last().push(x.last()) =~= sa.last() + x);
        assert(split_segments(a + x) =~= split_segments(a).update(
            split_segments(a).len() - 1,
            split_segments(a).last() + x,
        ));
    }
}

/// A `/` followed by text without `/` adds that text as a new last segment.
pub proof fn lemma_split_separator(a: Seq<char>, x: Seq<char>)
    requires
        free_of_separator(x),
    ensures
        split_segments(a + seq!['/'] + x) == split_segments(a).push(x),
{
    let a1 = a + seq!['/'];
    assert(a1.drop_last() =~= a);
    assert(a1.last() == '/');
    assert(split_segments(a1) == split_segments(a).push(Seq::empty()));
    lemma_split_extend(a1, x);
    assert(Seq::<char>::empty() + x =~= x);
    assert(split_segments(a1 + x) =~= split_segments(a).push(x));
}

/// Splitting the joined segments gives them back, when none holds a `/`.
pub proof fn lemma_split_join(segs: Seq<Seq<char>>)
    requires
        segs.len() >= 1,
        all_free_of_separator(segs),
    ensures
        split_segments(join_segments(segs)) == segs,
    decreases segs.len(),
{
    if segs.len() == 1 {
        assert(free_of_separator(segs[0]));
        lemma_split_extend(Seq::empty(), segs[0]);
        assert(Seq::<char>::empty() + segs[0] =~= segs[0]);
        assert(Seq::<char>::empty() + segs[0] =~= segs[0]);
        assert(split_segments(segs[0]) =~= segs);
    } else {
        let pre = segs.drop_last();
        assert(all_free_of_separator(pre)) by {
            assert forall|i: int| 0 <= i < pre.len() implies free_of_separator(#[trigger] pre[i]) by {
                assert(pre[i] == segs[i]);
            }
        }
        lemma_split_join(pre);
        assert(free_of_separator(segs.last())) by {
            assert(segs[segs.len() - 1] == segs.last());
        }
        lemma_split_separator(join_segments(pre), segs.last());
        assert(pre.push(segs.last()) =~= segs);
    }
}

/// Joining after appending text to the last segment appends the text.
pub proof fn lemma_join_extend_last(segs: Seq<Seq<char>>, y: Seq<char>)
    requires
        segs.len() >= 1,
    ensures
        join_segments(segs.update(segs.len() - 1, segs.last() + y)) == join_segments(segs) + y,
    decreases segs.len(),
{
    let u = segs.update(segs.len() - 1, segs.last() + y);
    if segs.len() == 1 {
        assert(u[0] == segs[0] + y);
    } else {
        assert(u.drop_last() =~= segs.drop_last());
        assert(u.last() == segs.last() + y);
        assert(join_segments(segs.drop_last()) + seq!['/'] + (segs.last() + y)
            =~= join_segments(segs.drop_last()) + seq!['/'] + segs.last() + y);
    }
}

/// Joining the split of a string gives the string back.
pub proof fn lemma_join_split(s: Seq<char>)
    ensures
        join_segments(split_segments(s)) == s,
    decreases s.len(),
{
    if s.len() > 0 {
        let p = s.drop_last();
        lemma_join_split(p);
        lemma_split_shape(p);
        let pre = split_segments(p);
        if s.last() == '/' {
            let segs = pre.push(Seq::empty());
            assert(segs.drop_last() =~= pre);
            assert(join_segments(segs) =~= p + seq!['/'] + Seq::empty());
            assert(p + seq!['/'] + Seq::<char>::empty() =~= s);
        } else {
            assert(pre.last().push(s.last()) =~= pre.last() + seq![s.last()]);
            lemma_join_extend_last(pre, seq![s.last()]);
            assert(p + seq![s.last()] =~= s);
        }
    } else {
        assert(s =~= Seq::<char>::empty());
    }
}

/// Joining two non-empty runs of segments puts a `/` between their joins.
pub proof fn lemma_join_append(a: Seq<Seq<char>>, b: Seq<Seq<char>>)
    requires
        a.len() >= 1,
        b.len() >= 1,
    ensures
        join_segments(a + b) == join_segments(a) + seq!['/'] + join_segments(b),
    decreases b.len(),
{
    if b.len() == 1 {
        assert((a + b).drop_last() =~= a);
        assert((a + b).last() == b[0]);
    } else {
        let b1 = b.drop_last();
        lemma_join_append(a, b1);
        assert((a + b).drop_last() =~= a + b1);
        assert((a + b).last() == b.last());
        assert(join_segments(a) + seq!['/'] + join_segments(b1) + seq!['/'] + b.last()
            =~= join_segments(a) + seq!['/'] + (join_segments(b1) + seq!['/'] + b.last()));
    }
}

/// UTF-8 encoding distributes over concatenation.
pub proof fn lemma_encode_utf8_append(a: Seq<char>, b: Seq<char>)
    ensures
        encode_utf8(a + b) == encode_utf8(a) + encode_utf8(b),
    decreases a.len(),
{
    if a.len() == 0 {
        assert(a + b =~= b);
        assert(encode_utf8(a) + encode_utf8(b) =~= encode_utf8(b));
    } else {
        assert((a + b).drop_first() =~= a.drop_first() + b);
        assert((a + b)[0] == a[0]);
        lemma_encode_utf8_append(a.drop_first(), b);
        assert(encode_utf8(a + b) =~= encode_utf8(a) + encode_utf8(b));
    }
}

} // verus!
