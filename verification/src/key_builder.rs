//! A helper for building a string key from a structured key, without a
//! segment budget.
//!
//! Unlike [`Builder`](crate::Builder), a separator is written only when
//! something was written before, so an empty first segment is not
//! separated from the next one.

use crate::helper::{
    decimal, escape, escape_specified, escape_specified_bytes, lemma_ascii_utf8, spec_escape,
    string_from_valid_utf8, u64_to_string,
};
use crate::segments::{join_segments, lemma_encode_utf8_append};
use vstd::prelude::*;
use vstd::utf8::*;

verus! {

/// The text after pushing `seg`: separated by `/` unless the text is empty.
pub open spec fn key_push(out: Seq<char>, seg: Seq<char>) -> Seq<char> {
    if out.len() > 0 {
        out + seq!['/'] + seg
    } else {
        seg
    }
}

/// The text after pushing each of `segs` in turn.
pub open spec fn key_push_all(out: Seq<char>, segs: Seq<Seq<char>>) -> Seq<char>
    decreases segs.len(),
{
    if segs.len() == 0 {
        out
    } else {
        key_push_all(key_push(out, segs[0]), segs.drop_first())
    }
}

/// Pushing one segment.
pub proof fn lemma_key_push_one(out: Seq<char>, seg: Seq<char>)
    ensures
        key_push_all(out, seq![seg]) == key_push(out, seg),
{
    assert(seq![seg].drop_first() =~= Seq::<Seq<char>>::empty());
    assert(key_push_all(key_push(out, seg), Seq::empty()) == key_push(out, seg));
}

/// Pushing one more segment after a run of them.
pub proof fn lemma_key_push_all_push(out: Seq<char>, segs: Seq<Seq<char>>, x: Seq<char>)
    ensures
        key_push_all(out, segs.push(x)) == key_push(key_push_all(out, segs), x),
    decreases segs.len(),
{
    if segs.len() == 0 {
        lemma_key_push_one(out, x);
        assert(segs.push(x) =~= seq![x]);
    } else {
        assert(segs.push(x).drop_first() =~= segs.drop_first().push(x));
        assert(segs.push(x)[0] == segs[0]);
        lemma_key_push_all_push(key_push(out, segs[0]), segs.drop_first(), x);
    }
}

/// When no segment is empty, the text a `KeyBuilder` builds from them is
/// what a `Builder` builds: the segments joined by `/`.
pub proof fn lemma_key_push_all_join(segs: Seq<Seq<char>>)
    requires
        forall|i: int| 0 <= i < segs.len() ==> (#[trigger] segs[i]).len() > 0,
    ensures
        key_push_all(Seq::empty(), segs) == join_segments(segs),
        segs.len() > 0 ==> join_segments(segs).len() > 0,
    decreases segs.len(),
{
    if segs.len() > 0 {
        let pre = segs.drop_last();
        assert forall|i: int| 0 <= i < pre.len() implies (#[trigger] pre[i]).len() > 0 by {
            assert(pre[i] == segs[i]);
        }
        lemma_key_push_all_join(pre);
        lemma_key_push_all_push(Seq::empty(), pre, segs.last());
        assert(pre.push(segs.last()) =~= segs);
        assert(segs.last() == segs[segs.len() - 1]);
        if pre.len() > 0 {
            assert((join_segments(pre) + seq!['/'] + segs.last()).len() > 0);
        }
    }
}

/// Builds a key string segment by segment, without a segment budget.
pub struct KeyBuilder {
    buf: Vec<u8>,
    text: Ghost<Seq<char>>,
}

impl View for KeyBuilder {
    type V = Seq<char>;

    closed spec fn view(&self) -> Seq<char> {
        self.text@
    }
}

/// A non-empty text has a non-empty UTF-8 encoding.
proof fn lemma_encode_nonempty(s: Seq<char>)
    ensures
        (encode_utf8(s).len() == 0) == (s.len() == 0),
{
    if s.len() > 0 {
        assert(encode_utf8(s) == encode_scalar(s[0] as u32) + encode_utf8(s.drop_first()));
    }
}

impl KeyBuilder {
    #[verifier::type_invariant]
    closed spec fn inv(self) -> bool {
        self.buf@ == encode_utf8(self.text@)
    }

    /// An empty builder.
    #[allow(clippy::new_without_default)]
    pub fn new() -> (r: Self)
        ensures
            r@ == Seq::<char>::empty(),
    {
        KeyBuilder { buf: Vec::new(), text: Ghost(Seq::empty()) }
    }

    /// A builder whose text starts with `prefix`.
    pub fn new_prefixed(prefix: &str) -> (r: Self)
        ensures
            r@ == prefix@,
    {
        let b = Self::new();
        b.push_raw(prefix)
    }

    /// Push a segment without escaping.
    pub fn push_raw(self, s: &str) -> (r: Self)
        ensures
            r@ == key_push(self@, s@),
    {
        proof {
            use_type_invariant(&self);
            lemma_encode_nonempty(self.text@);
        }
        let KeyBuilder { mut buf, text } = self;
        let ghost old_buf = buf@;
        if buf.len() > 0 {
            // `/`
            buf.push(0x2f);
        }
        buf.extend_from_slice(s.as_bytes());
        proof {
            if text@.len() > 0 {
                lemma_ascii_utf8(seq![0x2fu8]);
                assert(crate::helper::ascii_chars(seq![0x2fu8]) =~= seq!['/']);
                lemma_encode_utf8_append(text@, seq!['/']);
                lemma_encode_utf8_append(text@ + seq!['/'], s@);
                assert(buf@ =~= old_buf + seq![0x2fu8] + encode_utf8(s@));
            } else {
                assert(buf@ =~= encode_utf8(s@));
            }
        }
        KeyBuilder { buf, text: Ghost(key_push(text@, s@)) }
    }

    /// Push a percent-escaped segment.
    pub fn push_str(self, s: &str) -> (r: Self)
        ensures
            r@ == key_push(self@, spec_escape(s@)),
    {
        let e = escape(s);
        self.push_raw(e.as_str())
    }

    /// Push a u64 segment as decimal.
    pub fn push_u64(self, n: u64) -> (r: Self)
        ensures
            r@ == key_push(self@, decimal(n as nat)),
    {
        let d = u64_to_string(n);
        self.push_raw(d.as_str())
    }

    /// The built key.
    pub fn done(self) -> (r: String)
        ensures
            r@ == self@,
    {
        proof {
            use_type_invariant(&self);
            encode_utf8_valid_utf8(self.text@);
            encode_utf8_decode_utf8(self.text@);
        }
        let KeyBuilder { buf, text: _ } = self;
        string_from_valid_utf8(buf)
    }

    /// Escape every byte outside `[A-Za-z0-9_]` as `%XX`.
    pub fn escape(s: &str) -> (r: String)
        ensures
            r@ == spec_escape(s@),
    {
        escape(s)
    }

    /// Escape only the bytes listed in `chars` as `%XX`.
    pub fn escape_specified(s: &str, chars: &[u8]) -> (r: String)
        requires
            valid_utf8(escape_specified_bytes(encode_utf8(s@), chars@)),
        ensures
            r@ == decode_utf8(escape_specified_bytes(encode_utf8(s@), chars@)),
    {
        escape_specified(s, chars)
    }
}

} // verus!
