//! Trait for whole structured keys.
//!
//! While [`Codec`] describes how a single field is encoded into and decoded
//! from a string, `StructKey` describes the whole key: it adds a constant
//! `PREFIX` and exact-segment-count framing on top of `Codec`, producing
//! the canonical `prefix/field1/field2/.../fieldN` form.

use crate::builder::Builder;
use crate::codec::{round_trips, starts_with, Codec};
use crate::error::{Error, KeyError};
use crate::parser::{Parser, ParserView};
use crate::segments::{
    all_free_of_separator, free_of_separator, join_segments, lemma_split_join, lemma_split_shape,
    split_segments,
};
use vstd::prelude::*;

verus! {

/// The segments a key with this prefix and these field segments is built
/// from: the prefix, then the field segments (all but the last of them if
/// there were `usize::MAX`, which the builder's budget cannot hold).
pub open spec fn key_segments(prefix: Seq<char>, fields: Seq<Seq<char>>) -> Seq<Seq<char>> {
    seq![prefix] + fields.take(
        if fields.len() < usize::MAX {
            fields.len() as int
        } else {
            usize::MAX - 1
        },
    )
}

/// A usable prefix: not empty and free of `/`.
pub open spec fn valid_prefix(prefix: Seq<char>) -> bool {
    prefix.len() > 0 && free_of_separator(prefix)
}

/// What `from_str_key` of a key type with prefix `prefix` may return for
/// the string `s`: a value read from the segments after the prefix, with
/// none left over; a value with the segments of any key that round-trips
/// and has exactly those segments; the errors for a bad prefix and for extra
/// segments; and, after the prefix, only errors the field decode may give.
pub open spec fn from_str_outcome<K: Codec>(prefix: Seq<char>, s: Seq<char>, r: Result<K, KeyError>) -> bool {
    let segs = split_segments(s);
    let after = ParserView::fresh(s).advanced();
    &&& r matches Ok(v) ==> {
        &&& segs[0] == prefix
        &&& prefix.len() > 0
        &&& segs.len() == v.spec_segments().len() + 1
        &&& v.spec_reads(segs.skip(1))
    }
    &&& forall|u: K|
        valid_prefix(prefix) && round_trips(&u) && segs == seq![prefix] + #[trigger] u.spec_segments()
            ==> (r matches Ok(v) && v.spec_segments() == u.spec_segments())
    &&& segs[0] == prefix && prefix.len() > 0 && (exists|u: K| #[trigger] u.spec_reads(segs.skip(1)))
        && (forall|u: K| #[trigger] u.spec_reads(segs.skip(1)) ==> u.spec_segments().len() + 1 < segs.len())
        ==> (r matches Err(KeyError::WrongNumberOfSegments { expect, got }) && got@ == s && exists|u: K|
        #[trigger] u.spec_reads(segs.skip(1)) && expect == u.spec_segments().len() + 1)
    &&& segs[0] == prefix && prefix.len() > 0 ==> (r matches Err(e) ==> K::spec_fails_with(after, e)
        || (e matches KeyError::WrongNumberOfSegments { got, .. } && got@ == s))
    &&& segs[0] == prefix && prefix.len() > 0 && (forall|u: K| !#[trigger] u.spec_reads(segs.skip(1)))
        ==> (r matches Err(e) && K::spec_fails_with(after, e))
    &&& segs[0].len() == 0 ==> (r matches Err(KeyError::EmptySegment { i }) && i == 0)
    &&& segs[0].len() > 0 && segs[0] != prefix ==> (r matches Err(
        KeyError::InvalidSegment { i, expect, got },
    ) && i == 0 && expect@ == prefix && got@ == segs[0])
}

/// A structured key: a constant `PREFIX` plus a sequence of `Codec` fields.
///
/// The default `to_string_key` / `from_str_key` impls compose `Codec` with
/// `PREFIX`-framing and require the parser to be fully consumed, so a key
/// that decodes successfully has exactly the segments the type expects --
/// no more, no fewer.
pub trait StructKey: Codec {
    /// The literal first segment of every encoded key of this type.
    const PREFIX: &'static str;

    /// Encode `self` into the canonical `prefix/...` string form.
    ///
    /// Uses `self.segment_count()` as the segment cap.
    fn to_string_key(&self) -> (r: String)
        ensures
            r@ == join_segments(key_segments(Self::PREFIX@, self.spec_segments())),
    {
        let b = Builder::new_prefixed(Self::PREFIX);
        let n = self.segment_count();
        let b = self.encode_key(b.limit_segments(n));
        proof {
            let fields = self.spec_segments();
            let k = if fields.len() < usize::MAX {
                fields.len() as int
            } else {
                usize::MAX - 1
            };
            assert(b@.segments =~= key_segments(Self::PREFIX@, fields)) by {
                assert(b@.segments == seq![Self::PREFIX@] + fields.take(k));
            }
        }
        b.done()
    }

    /// Decode a string into a structured key.
    ///
    /// Fails if the prefix does not match, if any field fails to decode, or
    /// if extra trailing segments remain after all fields have been consumed.
    fn from_str_key(s: &str) -> (r: Result<Self, Error>)
        ensures
            from_str_outcome::<Self>(Self::PREFIX@, s@, r),
    {
        proof {
            lemma_split_shape(s@);
        }
        let mut p = Parser::new_prefixed(s, Self::PREFIX)?;
        let ghost p1 = p@;
        proof {
            assert(p1.rest() =~= split_segments(s@).skip(1));
            assert forall|u: Self|
                valid_prefix(Self::PREFIX@) && round_trips(&u) && split_segments(s@) == seq![
                    Self::PREFIX@,
                ] + #[trigger] u.spec_segments() implies starts_with(p1.rest(), u.spec_segments()) by {
                assert(p1.rest() =~= u.spec_segments());
                assert(u.spec_segments().take(u.spec_segments().len() as int) =~= u.spec_segments());
            }
        }
        let k = Self::decode_key(&mut p)?;
        proof {
            assert(k.spec_reads(split_segments(s@).skip(1)));
        }
        p.done()?;
        Ok(k)
    }
}

/// Why a key fails its round trip through its string form.
#[derive(Debug)]
pub enum RoundTripFailure {
    /// The key encodes to `encoded`, not to the expected string.
    EncodeMismatch { encoded: String },
    /// The expected string does not decode.
    DecodeFailed(KeyError),
}

/// Check that `key` encodes to `expected` and that `expected` decodes back;
/// on success the decoded key is returned, for the caller to compare with
/// `key`.
pub fn check_round_trip<K: StructKey>(key: &K, expected: &str) -> (r: Result<K, RoundTripFailure>)
    ensures
        ({
            let encoded = join_segments(key_segments(K::PREFIX@, key.spec_segments()));
            &&& encoded != expected@ ==> (r matches Err(RoundTripFailure::EncodeMismatch { encoded: e })
                && e@ == encoded)
            &&& encoded == expected@ ==> ((r matches Ok(v) && from_str_outcome::<K>(
                K::PREFIX@,
                expected@,
                Ok(v),
            )) || (r matches Err(RoundTripFailure::DecodeFailed(e)) && from_str_outcome::<K>(
                K::PREFIX@,
                expected@,
                Err(e),
            )))
            &&& r matches Ok(v) ==> encoded == expected@ && split_segments(expected@)[0] == K::PREFIX@
                && split_segments(expected@).len() == v.spec_segments().len() + 1 && v.spec_reads(
                split_segments(expected@).skip(1),
            )
            &&& encoded == expected@ && round_trips(key) && valid_prefix(K::PREFIX@)
                && key.spec_segments().len() < usize::MAX ==> (r matches Ok(v) && v.spec_segments()
                == key.spec_segments())
        }),
{
    let encoded = key.to_string_key();
    let want = expected.to_owned();
    if encoded != want {
        return Err(RoundTripFailure::EncodeMismatch { encoded });
    }
    proof {
        if round_trips(key) && valid_prefix(K::PREFIX@) && key.spec_segments().len() < usize::MAX {
            lemma_struct_key_round_trip(*key);
        }
    }
    match K::from_str_key(expected) {
        Ok(v) => Ok(v),
        Err(e) => Err(RoundTripFailure::DecodeFailed(e)),
    }
}

/// A key that round-trips under a valid prefix is read back from its string
/// form: `to_string_key` gives the join of the prefix and the key's segments,
/// which splits back into exactly those segments; `from_str_key` on such a
/// string returns a key with the same segments as `k`.
pub proof fn lemma_struct_key_round_trip<K: StructKey>(k: K)
    requires
        round_trips(&k),
        valid_prefix(K::PREFIX@),
        k.spec_segments().len() < usize::MAX,
    ensures
        split_segments(join_segments(key_segments(K::PREFIX@, k.spec_segments()))) == seq![
            K::PREFIX@,
        ] + k.spec_segments(),
{
    let fields = k.spec_segments();
    let all = key_segments(K::PREFIX@, fields);
    assert(fields.take(fields.len() as int) =~= fields);
    assert(all =~= seq![K::PREFIX@] + fields);
    assert(all_free_of_separator(all)) by {
        assert forall|i: int| 0 <= i < all.len() implies free_of_separator(#[trigger] all[i]) by {
            if i > 0 {
                assert(all[i] == fields[i - 1]);
            }
        }
    }
    lemma_split_join(all);
}

} // verus!
