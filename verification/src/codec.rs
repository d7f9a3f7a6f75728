//! How one logical field of a structured key is encoded and decoded.

use crate::builder::Builder;
use crate::error::{Error, KeyError};
use crate::helper::{
    decimal, decode_id_outcome, id_failure_reason, lemma_escape_round_trip, lemma_parse_decimal,
    lemma_parse_decimal_bound, parse_decimal, spec_escape, spec_unescape, u64_to_string,
    unescape_outcome,
};
use crate::parser::{lemma_rest_first, read_error, read_failure, Parser, ParserView};
use crate::segments::{all_free_of_separator, lemma_single_free};
use vstd::prelude::*;
use vstd::utf8::*;

verus! {

/// Encode or decode one logical field of a structured key.
///
/// Implementers describe how a single value is appended to a [`Builder`]
/// and recovered from a [`Parser`]. A struct-level `Codec` is composed by
/// calling each field's codec in order, one per field, in declaration
/// order.
///
/// The builder carries its own segment budget (see
/// [`Builder::limit_segments`]); once it reaches zero further pushes are
/// no-ops, so an impl can pipe pushes through without checking a counter.
///
/// The four spec functions describe an impl to the verifier; every impl in
/// this crate defines them. Their defaults (no segments, nothing read, not
/// decodable, any error) only let code outside Verus compile an impl with
/// the three executable methods alone: such an impl, a derived one among
/// them, is not described by them, and nothing proved here holds of it or of
/// the `StructKey` methods run on it.
pub trait Codec: Sized {
    /// The segments `encode_key` pushes onto a builder with budget to spare.
    open spec fn spec_segments(&self) -> Seq<Seq<char>> {
        Seq::empty()
    }

    /// `self` is a value `decode_key` yields when the unread segments are
    /// `rest`; it then reads `self.spec_segments().len()` of them.
    open spec fn spec_reads(&self, rest: Seq<Seq<char>>) -> bool {
        false
    }

    /// Decoding the value's own segments gives it back (for `String`: the
    /// string is not empty, since an empty segment is never decoded).
    open spec fn spec_decodable(&self) -> bool {
        false
    }

    /// `e` is an error `decode_key` may give on a parser in state `p`.
    open spec fn spec_fails_with(p: ParserView, e: KeyError) -> bool {
        true
    }

    /// Encode fields of the structured key into a key builder.
    ///
    /// Each push consumes one slot of the builder's segment budget.
    fn encode_key(&self, b: Builder) -> (r: Builder)
        ensures
            r@ == b@.feed(self.spec_segments()),
    ;

    /// Decode fields of the structured key from a key parser.
    ///
    /// Reading back the segments of a value that round-trips gives a value
    /// with the same segments, whatever follows them.
    fn decode_key(parser: &mut Parser) -> (r: Result<Self, Error>)
        ensures
            final(parser)@.source == old(parser)@.source,
            final(parser)@.segments == old(parser)@.segments,
            r matches Ok(v) ==> v.spec_reads(old(parser)@.rest()) && final(parser)@ == old(
                parser,
            )@.advanced_by(v.spec_segments().len()),
            (exists|u: Self| u.spec_reads(old(parser)@.rest())) ==> r is Ok,
            r matches Err(e) ==> Self::spec_fails_with(old(parser)@, e),
            forall|u: Self|
                u.spec_decodable() && all_free_of_separator(u.spec_segments()) && starts_with(
                    old(parser)@.rest(),
                    #[trigger] u.spec_segments(),
                ) ==> (r matches Ok(v) && v.spec_segments() == u.spec_segments()),
    ;

    /// Number of segments this value contributes when fully encoded.
    fn segment_count(&self) -> (n: usize)
        ensures
            n == self.spec_segments().len(),
    ;
}

/// The value's encoding decodes back to it and splits back into its
/// segments: it is decodable and none of its segments holds a `/`.
pub open spec fn round_trips<C: Codec>(v: &C) -> bool {
    v.spec_decodable() && all_free_of_separator(v.spec_segments())
}

/// `segs` begins with `prefix`.
pub open spec fn starts_with(segs: Seq<Seq<char>>, prefix: Seq<Seq<char>>) -> bool {
    prefix.len() <= segs.len() && segs.take(prefix.len() as int) == prefix
}

/// Fields decoded in order read back their segments in order: when the
/// unread segments start with the segments of one field followed by those
/// of the next, they start with the first field's segments, and once those
/// are read they start with the next field's. With the `decode_key`
/// contract this carries a round trip through a struct's fields, as
/// `lemma_feed_append` carries the encoding.
pub proof fn lemma_decode_in_order(p: ParserView, x: Seq<Seq<char>>, y: Seq<Seq<char>>)
    requires
        starts_with(p.rest(), x + y),
    ensures
        starts_with(p.rest(), x),
        starts_with(p.advanced_by(x.len()).rest(), y),
{
    let rest = p.rest();
    if p.pos > p.segments.len() {
        assert(x =~= Seq::<Seq<char>>::empty());
        assert(y =~= Seq::<Seq<char>>::empty());
        assert(rest.take(0) =~= x);
        return;
    }
    assert(rest.take(x.len() as int) =~= (x + y).take(x.len() as int));
    assert((x + y).take(x.len() as int) =~= x);
    let q = p.advanced_by(x.len());
    assert(q.rest() =~= rest.skip(x.len() as int));
    assert(q.rest().take(y.len() as int) =~= y) by {
        assert forall|i: int| 0 <= i < y.len() implies q.rest()[i] == y[i] by {
            assert(rest.take((x + y).len() as int)[x.len() + i] == (x + y)[x.len() + i]);
        }
    }
}

/// A non-empty string is read back from a run of segments that starts
/// with its escaped form.
pub(crate) proof fn lemma_string_read_back(u: Seq<char>, rest: Seq<Seq<char>>)
    requires
        u.len() > 0,
        starts_with(rest, seq![spec_escape(u)]),
    ensures
        rest.len() >= 1,
        rest[0] == spec_escape(u),
        rest[0].len() > 0,
        spec_unescape(rest[0]) == Some(u),
{
    lemma_escape_round_trip(u);
    assert(rest.take(1)[0] == rest[0]);
}

/// A decimal `u64` is read back from a run of segments that starts with
/// its decimal form.
pub(crate) proof fn lemma_decimal_read_back(u: u64, rest: Seq<Seq<char>>)
    requires
        starts_with(rest, seq![decimal(u as nat)]),
    ensures
        rest.len() >= 1,
        rest[0] == decimal(u as nat),
        rest[0].len() > 0,
        parse_decimal(encode_utf8(rest[0])) == Ok::<nat, crate::helper::IdFailure>(u as nat),
{
    lemma_parse_decimal(u);
    assert(rest.take(1)[0] == rest[0]);
}

/// Two keys built from fields in the same order, whose leading fields push
/// equally many segments, have the same segments only if each part does:
/// equal segments split at a field boundary give equal fields' segments.
/// With the lemmas below for `String`, `u64`, `u32` and `Raw`, which push one
/// segment each, a composite key of such fields with the same segments has
/// equal fields.
pub proof fn lemma_fields_segments_determine(
    x1: Seq<Seq<char>>,
    y1: Seq<Seq<char>>,
    x2: Seq<Seq<char>>,
    y2: Seq<Seq<char>>,
)
    requires
        x1.len() == x2.len(),
        x1 + y1 == x2 + y2,
    ensures
        x1 == x2,
        y1 == y2,
{
    assert(x1 =~= (x1 + y1).take(x1.len() as int));
    assert(x2 =~= (x2 + y2).take(x2.len() as int));
    assert(y1 =~= (x1 + y1).skip(x1.len() as int));
    assert(y2 =~= (x2 + y2).skip(x2.len() as int));
}

/// A `u32` has the wire format of the same value as a `u64`: its one
/// segment is the canonical decimal form of the number.
pub proof fn lemma_u32_as_u64(n: u32)
    ensures
        n.spec_segments() == (n as u64).spec_segments(),
        n.spec_segments().len() == 1,
{
}

/// Two strings with the same segments are the same string: the escaped
/// form determines the string.
pub proof fn lemma_string_segments_determine(a: String, b: String)
    requires
        a.spec_segments() == b.spec_segments(),
    ensures
        a@ == b@,
{
    lemma_escape_round_trip(a@);
    lemma_escape_round_trip(b@);
    assert(a.spec_segments()[0] == b.spec_segments()[0]);
}

/// Two `u64`s with the same segments are the same number.
pub proof fn lemma_u64_segments_determine(a: u64, b: u64)
    requires
        a.spec_segments() == b.spec_segments(),
    ensures
        a == b,
{
    lemma_parse_decimal(a);
    lemma_parse_decimal(b);
    assert(a.spec_segments()[0] == b.spec_segments()[0]);
}

/// Two `u32`s with the same segments are the same number.
pub proof fn lemma_u32_segments_determine(a: u32, b: u32)
    requires
        a.spec_segments() == b.spec_segments(),
    ensures
        a == b,
{
    lemma_parse_decimal(a as u64);
    lemma_parse_decimal(b as u64);
    assert(a.spec_segments()[0] == b.spec_segments()[0]);
}

impl Codec for String {
    open spec fn spec_segments(&self) -> Seq<Seq<char>> {
        seq![spec_escape(self@)]
    }

    open spec fn spec_reads(&self, rest: Seq<Seq<char>>) -> bool {
        &&& rest.len() >= 1
        &&& rest[0].len() > 0
        &&& spec_unescape(rest[0]) == Some(self@)
    }

    /// The empty string encodes to an empty segment, which the parser rejects.
    open spec fn spec_decodable(&self) -> bool {
        self@.len() > 0
    }

    open spec fn spec_fails_with(p: ParserView, e: KeyError) -> bool {
        if p.readable() {
            unescape_outcome(p.next_segment(), Err(e))
        } else {
            read_error(p, e)
        }
    }

    fn encode_key(&self, b: Builder) -> (r: Builder)
        ensures
            all_free_of_separator(self.spec_segments()),
    {
        proof {
            lemma_escape_round_trip(self@);
            lemma_single_free(spec_escape(self@));
        }
        b.push_str(self.as_str())
    }

    fn decode_key(p: &mut Parser) -> (r: Result<Self, Error>)
        ensures
            old(p)@.readable() ==> final(p)@ == old(p)@.advanced() && unescape_outcome(
                old(p)@.next_segment(),
                r,
            ),
            !old(p)@.readable() ==> read_failure(old(p)@, r, final(p)@),
    {
        let ghost rest = p@.rest();
        proof {
            if rest.len() >= 1 {
                lemma_rest_first(p@);
            }
        }
        let r = p.next_str();
        proof {
            assert forall|u: String|
                u.spec_decodable() && all_free_of_separator(u.spec_segments()) && starts_with(rest, #[trigger] u.spec_segments()) implies (r matches Ok(
                v,
            ) && v.spec_segments() == u.spec_segments()) by {
                lemma_string_read_back(u@, rest);
            }
        }
        r
    }

    fn segment_count(&self) -> (n: usize) {
        1
    }
}

impl Codec for u64 {
    open spec fn spec_segments(&self) -> Seq<Seq<char>> {
        seq![decimal(*self as nat)]
    }

    open spec fn spec_reads(&self, rest: Seq<Seq<char>>) -> bool {
        &&& rest.len() >= 1
        &&& rest[0].len() > 0
        &&& parse_decimal(encode_utf8(rest[0])) == Ok::<nat, crate::helper::IdFailure>(
            *self as nat,
        )
    }

    open spec fn spec_decodable(&self) -> bool {
        true
    }

    open spec fn spec_fails_with(p: ParserView, e: KeyError) -> bool {
        if p.readable() {
            decode_id_outcome(p.next_segment(), Err(e))
        } else {
            read_error(p, e)
        }
    }

    fn encode_key(&self, b: Builder) -> (r: Builder)
        ensures
            all_free_of_separator(self.spec_segments()),
    {
        proof {
            lemma_parse_decimal(*self);
            lemma_single_free(decimal(*self as nat));
        }
        b.push_u64(*self)
    }

    fn decode_key(p: &mut Parser) -> (r: Result<Self, Error>)
        ensures
            old(p)@.readable() ==> final(p)@ == old(p)@.advanced() && decode_id_outcome(
                old(p)@.next_segment(),
                r,
            ),
            !old(p)@.readable() ==> read_failure(old(p)@, r, final(p)@),
    {
        let ghost rest = p@.rest();
        proof {
            if rest.len() >= 1 {
                lemma_rest_first(p@);
                lemma_parse_decimal_bound(encode_utf8(p@.next_segment()));
            }
        }
        let r = p.next_u64();
        proof {
            assert forall|u: u64|
                u.spec_decodable() && all_free_of_separator(u.spec_segments()) && starts_with(rest, #[trigger] u.spec_segments()) implies (r matches Ok(
                v,
            ) && v.spec_segments() == u.spec_segments()) by {
                lemma_decimal_read_back(u, rest);
            }
        }
        r
    }

    fn segment_count(&self) -> (n: usize) {
        1
    }
}

/// Wire format is identical to `u64`: a decimal segment. Decode rejects
/// values that exceed `u32::MAX` rather than silently truncating.
impl Codec for u32 {
    open spec fn spec_segments(&self) -> Seq<Seq<char>> {
        seq![decimal(*self as nat)]
    }

    open spec fn spec_reads(&self, rest: Seq<Seq<char>>) -> bool {
        &&& rest.len() >= 1
        &&& rest[0].len() > 0
        &&& parse_decimal(encode_utf8(rest[0])) == Ok::<nat, crate::helper::IdFailure>(
            *self as nat,
        )
    }

    open spec fn spec_decodable(&self) -> bool {
        true
    }

    open spec fn spec_fails_with(p: ParserView, e: KeyError) -> bool {
        if p.readable() {
            match parse_decimal(encode_utf8(p.next_segment())) {
                Ok(n) => n > u32::MAX && (e matches KeyError::InvalidId { s, reason } && s@
                    == decimal(n) && reason@ == out_of_range_reason(n)),
                Err(f) => e matches KeyError::InvalidId { s, reason } && s@ == p.next_segment()
                    && reason@ == id_failure_reason(f),
            }
        } else {
            read_error(p, e)
        }
    }

    fn encode_key(&self, b: Builder) -> (r: Builder)
        ensures
            all_free_of_separator(self.spec_segments()),
    {
        proof {
            lemma_parse_decimal(*self as u64);
            lemma_single_free(decimal(*self as nat));
        }
        b.push_u64(*self as u64)
    }

    fn decode_key(p: &mut Parser) -> (r: Result<Self, Error>)
        ensures
            old(p)@.readable() ==> final(p)@ == old(p)@.advanced() && match parse_decimal(
                encode_utf8(old(p)@.next_segment()),
            ) {
                Ok(n) => n > u32::MAX ==> (r matches Err(KeyError::InvalidId { s, reason }) && s@
                    == decimal(n) && reason@ == out_of_range_reason(n)),
                Err(f) => r matches Err(KeyError::InvalidId { s, reason }) && s@ == old(
                    p,
                )@.next_segment() && reason@ == id_failure_reason(f),
            },
            !old(p)@.readable() ==> read_failure(old(p)@, r, final(p)@),
    {
        let ghost rest = p@.rest();
        proof {
            if rest.len() >= 1 {
                lemma_rest_first(p@);
                lemma_parse_decimal_bound(encode_utf8(p@.next_segment()));
            }
            assert forall|u: u32|
                u.spec_decodable() && all_free_of_separator(u.spec_segments()) && starts_with(rest, #[trigger] u.spec_segments()) implies rest.len()
                >= 1 && rest[0].len() > 0 && parse_decimal(encode_utf8(rest[0])) == Ok::<
                nat,
                crate::helper::IdFailure,
            >(u as nat) by {
                lemma_decimal_read_back(u as u64, rest);
            }
        }
        let n = p.next_u64()?;
        if n > 0xffff_ffff {
            return Err(u32_out_of_range(n));
        }
        Ok(n as u32)
    }

    fn segment_count(&self) -> (n: usize) {
        1
    }
}

/// The message for a decimal id too large for a `u32`.
pub open spec fn out_of_range_reason(n: nat) -> Seq<char> {
    "value "@ + decimal(n) + " does not fit in u32"@
}

/// The error for a decoded id too large for a `u32`.
pub(crate) fn u32_out_of_range(n: u64) -> (e: KeyError)
    ensures
        e matches KeyError::InvalidId { s, reason } && s@ == decimal(n as nat) && reason@
            == out_of_range_reason(n as nat),
{
    let s = u64_to_string(n);
    let mut reason = "value ".to_owned();
    reason.append(s.as_str());
    reason.append(" does not fit in u32");
    KeyError::InvalidId { s, reason }
}

impl Codec for () {
    open spec fn spec_segments(&self) -> Seq<Seq<char>> {
        Seq::empty()
    }

    open spec fn spec_reads(&self, rest: Seq<Seq<char>>) -> bool {
        true
    }

    open spec fn spec_decodable(&self) -> bool {
        true
    }

    open spec fn spec_fails_with(p: ParserView, e: KeyError) -> bool {
        false
    }

    fn encode_key(&self, b: Builder) -> (r: Builder)
        ensures
            all_free_of_separator(self.spec_segments()),
    {
        proof {
            assert(b@.segments + Seq::<Seq<char>>::empty().take(0) =~= b@.segments);
        }
        b
    }

    fn decode_key(_p: &mut Parser) -> (r: Result<Self, Error>) {
        Ok(())
    }

    fn segment_count(&self) -> (n: usize) {
        0
    }
}

} // verus!
