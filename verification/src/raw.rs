//! A newtype wrapper around `String` whose `Codec` impl bypasses escaping.
//!
//! `String`'s `Codec` impl uses [`Builder::push_str`] / [`Parser::next_str`],
//! which percent-escape special bytes (notably the segment separator `/`)
//! so the encoded form round-trips safely. `Raw`'s impl uses
//! [`Builder::push_raw`] / [`Parser::next_raw`]: the value is written
//! byte-for-byte. The caller is responsible for ensuring the value
//! contains no `/`; otherwise the decoder splits on it.

use crate::builder::Builder;
use crate::codec::{starts_with, Codec};
use crate::segments::all_free_of_separator;
use crate::error::{Error, KeyError};
use crate::parser::{lemma_rest_first, read_error, read_failure, Parser, ParserView};
use crate::segments::{free_of_separator, lemma_single_free};
use vstd::prelude::*;

verus! {

/// A `String` newtype whose `Codec` impl skips escaping.
#[derive(Debug, Clone, PartialEq, Eq, Hash, Default)]
pub struct Raw(pub String);

impl Raw {
    /// Consume the wrapper and return the inner `String`.
    pub fn into_inner(self) -> (r: String)
        ensures
            r == self.0,
    {
        self.0
    }
}

impl Codec for Raw {
    open spec fn spec_segments(&self) -> Seq<Seq<char>> {
        seq![self.0@]
    }

    open spec fn spec_reads(&self, rest: Seq<Seq<char>>) -> bool {
        &&& rest.len() >= 1
        &&& rest[0].len() > 0
        &&& rest[0] == self.0@
    }

    /// The value must not be empty; for the key to split back it must also
    /// hold no `/`.
    open spec fn spec_decodable(&self) -> bool {
        self.0@.len() > 0
    }

    open spec fn spec_fails_with(p: ParserView, e: KeyError) -> bool {
        !p.readable() && read_error(p, e)
    }

    fn encode_key(&self, b: Builder) -> (r: Builder)
        ensures
            all_free_of_separator(self.spec_segments()) == free_of_separator(self.0@),
    {
        proof {
            if free_of_separator(self.0@) {
                lemma_single_free(self.0@);
            } else {
                assert(self.spec_segments()[0] == self.0@);
            }
        }
        b.push_raw(self.0.as_str())
    }

    fn decode_key(p: &mut Parser) -> (r: Result<Self, Error>)
        ensures
            old(p)@.readable() ==> final(p)@ == old(p)@.advanced() && (r matches Ok(v) && v.0@
                == old(p)@.next_segment()),
            !old(p)@.readable() ==> read_failure(old(p)@, r, final(p)@),
    {
        let ghost rest = p@.rest();
        proof {
            if rest.len() >= 1 {
                lemma_rest_first(p@);
            }
            assert forall|u: Raw|
                u.spec_decodable() && all_free_of_separator(u.spec_segments()) && starts_with(rest, #[trigger] u.spec_segments()) implies rest.len()
                >= 1 && rest[0] == u.0@ by {
                assert(rest.take(1)[0] == rest[0]);
            }
        }
        let s = p.next_raw()?;
        Ok(Raw(s.to_owned()))
    }

    fn segment_count(&self) -> (n: usize) {
        1
    }
}

/// Two `Raw` values with the same segments hold the same text.
pub proof fn lemma_raw_segments_determine(a: Raw, b: Raw)
    requires
        a.spec_segments() == b.spec_segments(),
    ensures
        a.0@ == b.0@,
{
    assert(a.spec_segments()[0] == b.spec_segments()[0]);
}

} // verus!
