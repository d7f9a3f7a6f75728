//! The codec trait of the budget-free [`KeyBuilder`].

use crate::codec::{lemma_decimal_read_back, lemma_string_read_back, starts_with};
use crate::error::KeyError;
use crate::helper::{
    decimal, decode_id_outcome, lemma_parse_decimal_bound, parse_decimal, spec_escape,
    spec_unescape, unescape_outcome,
};
use crate::key_builder::{key_push_all, lemma_key_push_one, KeyBuilder};
use crate::parser::{lemma_rest_first, read_failure, KeyParser};
use crate::raw::Raw;
use crate::segments::all_free_of_separator;
use vstd::prelude::*;
use vstd::utf8::*;

verus! {

/// Encode or decode one logical field of a structured key onto a
/// [`KeyBuilder`]. A struct-level `KeyCodec` calls each field's codec in
/// declaration order.
///
/// Every impl in this crate defines the spec functions. Their defaults only
/// let code outside Verus compile an impl with the executable methods alone:
/// such an impl is not described by them, and nothing proved here holds of
/// it.
pub trait KeyCodec: Sized {
    /// The segments `encode_key` pushes.
    open spec fn spec_key_segments(&self) -> Seq<Seq<char>> {
        Seq::empty()
    }

    /// `self` is a value `decode_key` yields when the unread segments are
    /// `rest`; it then reads `self.spec_key_segments().len()` of them.
    open spec fn spec_key_reads(&self, rest: Seq<Seq<char>>) -> bool {
        false
    }

    /// Decoding the value's own segments gives it back.
    open spec fn spec_key_decodable(&self) -> bool {
        false
    }

    /// Encode fields of the structured key into a key builder.
    fn encode_key(&self, b: KeyBuilder) -> (r: KeyBuilder)
        ensures
            r@ == key_push_all(b@, self.spec_key_segments()),
    ;

    /// Decode fields of the structured key from a key parser.
    ///
    /// Reading back the segments of a value that round-trips gives a value
    /// with the same segments, whatever follows them.
    fn decode_key(parser: &mut KeyParser) -> (r: Result<Self, KeyError>)
        ensures
            final(parser)@.source == old(parser)@.source,
            final(parser)@.segments == old(parser)@.segments,
            r matches Ok(v) ==> v.spec_key_reads(old(parser)@.rest()) && final(parser)@ == old(
                parser,
            )@.advanced_by(v.spec_key_segments().len()),
            (exists|u: Self| u.spec_key_reads(old(parser)@.rest())) ==> r is Ok,
            forall|u: Self|
                u.spec_key_decodable() && all_free_of_separator(u.spec_key_segments())
                    && starts_with(old(parser)@.rest(), #[trigger] u.spec_key_segments()) ==> (r matches Ok(
                    v,
                ) && v.spec_key_segments() == u.spec_key_segments()),
    ;

    /// Number of segments this value contributes when encoded.
    fn segment_count(&self) -> (n: usize)
        ensures
            n == self.spec_key_segments().len(),
    ;
}

impl KeyCodec for String {
    open spec fn spec_key_segments(&self) -> Seq<Seq<char>> {
        seq![spec_escape(self@)]
    }

    open spec fn spec_key_reads(&self, rest: Seq<Seq<char>>) -> bool {
        &&& rest.len() >= 1
        &&& rest[0].len() > 0
        &&& spec_unescape(rest[0]) == Some(self@)
    }

    open spec fn spec_key_decodable(&self) -> bool {
        self@.len() > 0
    }

    fn encode_key(&self, b: KeyBuilder) -> (r: KeyBuilder) {
        proof {
            lemma_key_push_one(b@, spec_escape(self@));
        }
        b.push_str(self.as_str())
    }

    fn decode_key(p: &mut KeyParser) -> (r: Result<Self, KeyError>)
        ensures
            old(p)@.readable() ==> final(p)@ == old(p)@.advanced() && unescape_outcome(
                old(p)@.next_segment(),
                r,
            ),
            !old(p)@.readable() ==> read_failure(old(p)@, r, final(p)@),
    {
        let ghost rest = p@.rest();
        proof {
            if rest.len() >= 1 {
                lemma_rest_first(p@);
            }
        }
        let r = p.next_str();
        proof {
            assert forall|u: String|
                u.spec_key_decodable() && all_free_of_separator(u.spec_key_segments())
                    && starts_with(rest, #[trigger] u.spec_key_segments()) implies (r matches Ok(v)
                && v.spec_key_segments() == u.spec_key_segments()) by {
                lemma_string_read_back(u@, rest);
            }
        }
        r
    }

    fn segment_count(&self) -> (n: usize) {
        1
    }
}

impl KeyCodec for u64 {
    open spec fn spec_key_segments(&self) -> Seq<Seq<char>> {
        seq![decimal(*self as nat)]
    }

    open spec fn spec_key_reads(&self, rest: Seq<Seq<char>>) -> bool {
        &&& rest.len() >= 1
        &&& rest[0].len() > 0
        &&& parse_decimal(encode_utf8(rest[0])) == Ok::<nat, crate::helper::IdFailure>(
            *self as nat,
        )
    }

    open spec fn spec_key_decodable(&self) -> bool {
        true
    }

    fn encode_key(&self, b: KeyBuilder) -> (r: KeyBuilder) {
        proof {
            lemma_key_push_one(b@, decimal(*self as nat));
        }
        b.push_u64(*self)
    }

    fn decode_key(p: &mut KeyParser) -> (r: Result<Self, KeyError>)
        ensures
            old(p)@.readable() ==> final(p)@ == old(p)@.advanced() && decode_id_outcome(
                old(p)@.next_segment(),
                r,
            ),
            !old(p)@.readable() ==> read_failure(old(p)@, r, final(p)@),
    {
        let ghost rest = p@.rest();
        proof {
            if rest.len() >= 1 {
                lemma_rest_first(p@);
                lemma_parse_decimal_bound(encode_utf8(p@.next_segment()));
            }
        }
        let r = p.next_u64();
        proof {
            assert forall|u: u64|
                u.spec_key_decodable() && all_free_of_separator(u.spec_key_segments())
                    && starts_with(rest, #[trigger] u.spec_key_segments()) implies (r matches Ok(v)
                && v.spec_key_segments() == u.spec_key_segments()) by {
                lemma_decimal_read_back(u, rest);
            }
        }
        r
    }

    fn segment_count(&self) -> (n: usize) {
        1
    }
}

/// Wire format is identical to `u64`; decode rejects values above `u32::MAX`.
impl KeyCodec for u32 {
    open spec fn spec_key_segments(&self) -> Seq<Seq<char>> {
        seq![decimal(*self as nat)]
    }

    open spec fn spec_key_reads(&self, rest: Seq<Seq<char>>) -> bool {
        &&& rest.len() >= 1
        &&& rest[0].len() > 0
        &&& parse_decimal(encode_utf8(rest[0])) == Ok::<nat, crate::helper::IdFailure>(
            *self as nat,
        )
    }

    open spec fn spec_key_decodable(&self) -> bool {
        true
    }

    fn encode_key(&self, b: KeyBuilder) -> (r: KeyBuilder) {
        proof {
            lemma_key_push_one(b@, decimal(*self as nat));
        }
        b.push_u64(*self as u64)
    }

    fn decode_key(p: &mut KeyParser) -> (r: Result<Self, KeyError>) {
        let ghost rest = p@.rest();
        proof {
            if rest.len() >= 1 {
                lemma_rest_first(p@);
                lemma_parse_decimal_bound(encode_utf8(p@.next_segment()));
            }
            assert forall|u: u32|
                u.spec_key_decodable() && all_free_of_separator(u.spec_key_segments())
                    && starts_with(rest, #[trigger] u.spec_key_segments()) implies rest.len() >= 1
                && rest[0].len() > 0 && parse_decimal(encode_utf8(rest[0])) == Ok::<
                nat,
                crate::helper::IdFailure,
            >(u as nat) by {
                lemma_decimal_read_back(u as u64, rest);
            }
        }
        let n = p.next_u64()?;
        if n > 0xffff_ffff {
            return Err(crate::codec::u32_out_of_range(n));
        }
        Ok(n as u32)
    }

    fn segment_count(&self) -> (n: usize) {
        1
    }
}

impl KeyCodec for () {
    open spec fn spec_key_segments(&self) -> Seq<Seq<char>> {
        Seq::empty()
    }

    open spec fn spec_key_reads(&self, rest: Seq<Seq<char>>) -> bool {
        true
    }

    open spec fn spec_key_decodable(&self) -> bool {
        true
    }

    fn encode_key(&self, b: KeyBuilder) -> (r: KeyBuilder) {
        b
    }

    fn decode_key(_p: &mut KeyParser) -> (r: Result<Self, KeyError>) {
        Ok(())
    }

    fn segment_count(&self) -> (n: usize) {
        0
    }
}

impl KeyCodec for Raw {
    open spec fn spec_key_segments(&self) -> Seq<Seq<char>> {
        seq![self.0@]
    }

    open spec fn spec_key_reads(&self, rest: Seq<Seq<char>>) -> bool {
        &&& rest.len() >= 1
        &&& rest[0].len() > 0
        &&& rest[0] == self.0@
    }

    /// The value must not be empty; for the key to split back it must also
    /// hold no `/`.
    open spec fn spec_key_decodable(&self) -> bool {
        self.0@.len() > 0
    }

    fn encode_key(&self, b: KeyBuilder) -> (r: KeyBuilder) {
        proof {
            lemma_key_push_one(b@, self.0@);
        }
        b.push_raw(self.0.as_str())
    }

    fn decode_key(p: &mut KeyParser) -> (r: Result<Self, KeyError>)
        ensures
            old(p)@.readable() ==> final(p)@ == old(p)@.advanced() && (r matches Ok(v) && v.0@
                == old(p)@.next_segment()),
            !old(p)@.readable() ==> read_failure(old(p)@, r, final(p)@),
    {
        let ghost rest = p@.rest();
        proof {
            if rest.len() >= 1 {
                lemma_rest_first(p@);
            }
            assert forall|u: Raw|
                u.spec_key_decodable() && all_free_of_separator(u.spec_key_segments())
                    && starts_with(rest, #[trigger] u.spec_key_segments()) implies rest.len() >= 1
                && rest[0] == u.0@ by {
                assert(rest.take(1)[0] == rest[0]);
            }
        }
        let s = p.next_raw()?;
        Ok(Raw(s.to_owned()))
    }

    fn segment_count(&self) -> (n: usize) {
        1
    }
}

/// With the budget-free builder too, a `u32` has the wire format of the same
/// value as a `u64`, and of the same value under `Codec`.
pub proof fn lemma_key_u32_as_u64(n: u32)
    ensures
        n.spec_key_segments() == (n as u64).spec_key_segments(),
        n.spec_key_segments() == crate::codec::Codec::spec_segments(&(n as u64)),
{
}

} // verus!
