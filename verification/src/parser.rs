//! A parser that hands out the `/`-separated segments of a string key.

use crate::error::KeyError;
use crate::helper::{decode_id, decode_id_outcome, unescape, unescape_outcome};
use crate::segments::{lemma_split_shape, split_segments};
use vstd::prelude::*;
use vstd::string::*;

verus! {

/// What a parser holds: the source, its segments, the position of the next
/// segment to read, and how many segments were returned so far.
pub struct ParserView {
    pub source: Seq<char>,
    pub segments: Seq<Seq<char>>,
    pub pos: nat,
    pub index: nat,
}

impl ParserView {
    /// A fresh parser over `source`.
    pub open spec fn fresh(source: Seq<char>) -> ParserView {
        ParserView { source, segments: split_segments(source), pos: 0, index: 0 }
    }

    /// The segments not read yet.
    pub open spec fn rest(self) -> Seq<Seq<char>> {
        if self.pos <= self.segments.len() {
            self.segments.skip(self.pos as int)
        } else {
            Seq::empty()
        }
    }

    /// There is a segment left.
    pub open spec fn has_next(self) -> bool {
        self.pos < self.segments.len()
    }

    /// The next segment.
    pub open spec fn next_segment(self) -> Seq<char> {
        self.segments[self.pos as int]
    }

    /// The next segment exists and is not empty.
    pub open spec fn readable(self) -> bool {
        self.has_next() && self.next_segment().len() > 0
    }

    /// The parser after returning the next segment.
    pub open spec fn advanced(self) -> ParserView {
        ParserView { pos: self.pos + 1, index: self.index + 1, ..self }
    }

    /// The parser after passing over the next segment without returning it.
    pub open spec fn skipped(self) -> ParserView {
        ParserView { pos: self.pos + 1, ..self }
    }

    /// The parser after returning its next `n` segments.
    pub open spec fn advanced_by(self, n: nat) -> ParserView {
        ParserView { pos: self.pos + n, index: self.index + n, ..self }
    }
}

/// The first unread segment is the next segment.
pub proof fn lemma_rest_first(o: ParserView)
    requires
        o.rest().len() >= 1,
    ensures
        o.has_next(),
        o.rest()[0] == o.next_segment(),
{
}

/// `r` and `after` are how reading fails on a parser in state `o` that is
/// not `readable`: past the end, or on an empty segment.
pub open spec fn read_failure<T>(o: ParserView, r: Result<T, KeyError>, after: ParserView) -> bool {
    if !o.has_next() {
        &&& r matches Err(KeyError::WrongNumberOfSegments { expect, got }) && expect == (if o.index
            < usize::MAX {
            o.index + 1
        } else {
            o.index
        }) && got@ == o.source
        &&& after == o
    } else {
        &&& r matches Err(KeyError::EmptySegment { i }) && i == o.index
        &&& after == o.skipped()
    }
}

/// `e` is the error reading gives on a parser in state `o` that is not
/// `readable`: past the end, or on an empty segment.
pub open spec fn read_error(o: ParserView, e: KeyError) -> bool {
    if !o.has_next() {
        e matches KeyError::WrongNumberOfSegments { expect, got } && expect == (if o.index
            < usize::MAX {
            o.index + 1
        } else {
            o.index
        }) && got@ == o.source
    } else {
        e matches KeyError::EmptySegment { i } && i == o.index
    }
}

/// Hands out the `/`-separated segments of a key string one by one.
pub struct Parser<'s> {
    source: &'s str,
    segments: Vec<&'s str>,
    /// Position of the next segment to hand out.
    pos: usize,
    /// Number of segments handed out so far.
    index: usize,
}

/// The older name of `Parser`.
pub type KeyParser<'s> = Parser<'s>;

/// The characters of each of the string slices.
pub open spec fn views_of(v: Seq<&str>) -> Seq<Seq<char>> {
    v.map_values(|s: &str| s@)
}

impl<'s> View for Parser<'s> {
    type V = ParserView;

    closed spec fn view(&self) -> ParserView {
        ParserView {
            source: self.source@,
            segments: views_of(self.segments@),
            pos: self.pos as nat,
            index: self.index as nat,
        }
    }
}

impl<'s> Parser<'s> {
    #[verifier::type_invariant]
    closed spec fn inv(self) -> bool {
        &&& views_of(self.segments@) == split_segments(self.source@)
        &&& self.index <= self.pos <= self.segments@.len()
    }

    /// A parser over the segments of `source`, split at every `/`.
    pub fn new(source: &'s str) -> (r: Self)
        ensures
            r@ == ParserView::fresh(source@),
    {
        let n = source.unicode_len();
        let mut segs: Vec<&'s str> = Vec::new();
        let mut start: usize = 0;
        let mut i: usize = 0;
        proof {
            assert(source@.take(0) =~= Seq::<char>::empty());
            assert(views_of(segs@) + seq![source@.subrange(0, 0)] =~= seq![Seq::<char>::empty()]);
        }
        while i < n
            invariant
                n == source@.len(),
                start <= i <= n,
                views_of(segs@) + seq![source@.subrange(start as int, i as int)] == split_segments(
                    source@.take(i as int),
                ),
            decreases n - i,
        {
            let c = source.get_char(i);
            let ghost t = source@.take(i + 1);
            let ghost before = views_of(segs@);
            proof {
                assert(t.drop_last() =~= source@.take(i as int));
                assert(t.last() == c);
            }
            if c == '/' {
                let seg = source.substring_char(start, i);
                segs.push(seg);
                start = i + 1;
                proof {
                    assert(views_of(segs@) =~= before + seq![seg@]);
                    assert(source@.subrange(start as int, i + 1) =~= Seq::<char>::empty());
                    assert(views_of(segs@) + seq![source@.subrange(start as int, i + 1)] =~= (
                    before + seq![seg@]).push(Seq::empty()));
                }
            } else {
                proof {
                    let cur = source@.subrange(start as int, i as int);
                    let pre = split_segments(source@.take(i as int));
                    assert(pre.len() == before.len() + 1);
                    assert(pre.last() == cur);
                    assert(source@.subrange(start as int, i + 1) =~= cur.push(c));
                    assert(before + seq![cur.push(c)] =~= pre.update(pre.len() - 1, cur.push(c)));
                }
            }
            i += 1;
        }
        let last = source.substring_char(start, n);
        let ghost before = views_of(segs@);
        segs.push(last);
        proof {
            assert(source@.take(n as int) =~= source@);
            assert(views_of(segs@) =~= before + seq![last@]);
        }
        Parser { source, segments: segs, pos: 0, index: 0 }
    }

    /// A parser over `source` whose first segment must be `prefix`.
    pub fn new_prefixed(source: &'s str, prefix: &str) -> (r: Result<Self, KeyError>)
        ensures
            ({
                let o = ParserView::fresh(source@);
                if o.readable() {
                    if o.next_segment() == prefix@ {
                        r matches Ok(p) && p@ == o.advanced()
                    } else {
                        r matches Err(KeyError::InvalidSegment { i, expect, got }) && i == 0
                            && expect@ == prefix@ && got@ == o.next_segment()
                    }
                } else {
                    r matches Err(KeyError::EmptySegment { i }) && i == 0
                }
            }),
    {
        let mut p = Self::new(source);
        proof {
            lemma_split_shape(source@);
        }
        p.next_literal(prefix)?;
        Ok(p)
    }

    /// The next segment, as it stands in the source.
    pub fn next_raw(&mut self) -> (r: Result<&'s str, KeyError>)
        ensures
            old(self)@.readable() ==> (r matches Ok(s) && s@ == old(self)@.next_segment()
                && final(self)@ == old(self)@.advanced()),
            !old(self)@.readable() ==> read_failure(old(self)@, r, final(self)@),
    {
        proof {
            use_type_invariant(&*self);
        }
        if self.pos >= self.segments.len() {
            return Err(
                KeyError::WrongNumberOfSegments {
                    expect: self.index.saturating_add(1),
                    got: self.source.to_owned(),
                },
            );
        }
        let s = self.segments[self.pos];
        proof {
            assert(views_of(self.segments@)[self.pos as int] == s@);
        }
        self.pos = self.pos + 1;
        if s.unicode_len() == 0 {
            return Err(KeyError::EmptySegment { i: self.index });
        }
        self.index = self.index + 1;
        Ok(s)
    }

    /// The next segment with its `%XX` escapes decoded.
    pub fn next_str(&mut self) -> (r: Result<String, KeyError>)
        ensures
            old(self)@.readable() ==> final(self)@ == old(self)@.advanced() && unescape_outcome(
                old(self)@.next_segment(),
                r,
            ),
            !old(self)@.readable() ==> read_failure(old(self)@, r, final(self)@),
    {
        let elt = self.next_raw()?;
        let s = unescape(elt)?;
        Ok(s)
    }

    /// The next segment as a decimal `u64`.
    pub fn next_u64(&mut self) -> (r: Result<u64, KeyError>)
        ensures
            old(self)@.readable() ==> final(self)@ == old(self)@.advanced() && decode_id_outcome(
                old(self)@.next_segment(),
                r,
            ),
            !old(self)@.readable() ==> read_failure(old(self)@, r, final(self)@),
    {
        let elt = self.next_raw()?;
        decode_id(elt)
    }

    /// Read the next segment, which must be `expect`.
    pub fn next_literal(&mut self, expect: &str) -> (r: Result<(), KeyError>)
        ensures
            old(self)@.readable() ==> final(self)@ == old(self)@.advanced() && (if old(
                self,
            )@.next_segment() == expect@ {
                r is Ok
            } else {
                r matches Err(KeyError::InvalidSegment { i, expect: e, got }) && i == old(
                    self,
                )@.index && e@ == expect@ && got@ == old(self)@.next_segment()
            }),
            !old(self)@.readable() ==> read_failure(old(self)@, r, final(self)@),
    {
        let elt = self.next_raw()?;
        let got = elt.to_owned();
        let want = expect.to_owned();
        if got != want {
            return Err(KeyError::InvalidSegment { i: self.index - 1, expect: want, got });
        }
        Ok(())
    }

    /// Check that every segment was read.
    pub fn done(&mut self) -> (r: Result<(), KeyError>)
        ensures
            old(self)@.has_next() ==> (r matches Err(KeyError::WrongNumberOfSegments { expect, got })
                && expect == old(self)@.index && got@ == old(self)@.source && final(self)@ == old(
                self,
            )@.skipped()),
            !old(self)@.has_next() ==> r is Ok && final(self)@ == old(self)@,
            old(self)@.pos <= old(self)@.segments.len(),
    {
        proof {
            use_type_invariant(&*self);
        }
        if self.pos < self.segments.len() {
            self.pos = self.pos + 1;
            return Err(
                KeyError::WrongNumberOfSegments { expect: self.index, got: self.source.to_owned() },
            );
        }
        Ok(())
    }

    /// Number of segments returned so far.
    pub fn index(&self) -> (r: usize)
        ensures
            r == self@.index,
    {
        self.index
    }
}

} // verus!
