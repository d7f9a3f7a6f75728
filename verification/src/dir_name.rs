//! Truncated-prefix view over a `StructKey`.
//!
//! `DirName<K>` wraps a key and a `level` count. `to_string_key()` encodes
//! the key as usual and then drops `level` trailing segments. So
//! `DirName::new(k)` (level 1) prints the parent of `k`; level 2 drops two
//! segments; level 0 returns the full encoding.
//!
//! Truncation is clamped at the prefix: a level that exceeds the segment
//! count returns just `K::PREFIX`.

use crate::builder::Builder;
use crate::codec::Codec;
use crate::error::{Error, KeyError};
use crate::parser::{Parser, ParserView};
use crate::segments::{join_segments, lemma_join_append};
use crate::struct_key::{key_segments, StructKey};
use vstd::prelude::*;

verus! {

/// How many of `count` segments remain after dropping `level` of them.
pub open spec fn kept_segments(count: nat, level: nat) -> nat {
    if count >= level {
        (count - level) as nat
    } else {
        0
    }
}

/// A view of a `StructKey` truncated to its first `n` segments, where `n`
/// is the encoded segment count minus `level`.
#[derive(Clone, Debug, PartialEq, Eq)]
pub struct DirName<K> {
    key: K,
    level: usize,
}

impl<K> DirName<K> {
    /// The wrapped key.
    pub closed spec fn spec_key(&self) -> K {
        self.key
    }

    /// The number of trailing segments dropped.
    pub closed spec fn spec_level(&self) -> nat {
        self.level as nat
    }

    /// Create a `DirName` at the default level of 1 (one segment dropped).
    pub fn new(key: K) -> (r: Self)
        ensures
            r.spec_key() == key,
            r.spec_level() == 1,
    {
        DirName { key, level: 1 }
    }

    /// Create a `DirName` at an explicit truncation level.
    pub fn new_with_level(key: K, level: usize) -> (r: Self)
        ensures
            r.spec_key() == key,
            r.spec_level() == level,
    {
        DirName { key, level }
    }

    /// Update the truncation level in place.
    pub fn with_level(&mut self, level: usize) -> (r: &mut Self)
        ensures
            r.spec_level() == level,
            r.spec_key() == old(self).spec_key(),
            *final(self) == *final(r),
    {
        self.level = level;
        self
    }

    /// The wrapped key.
    pub fn key(&self) -> (r: &K)
        ensures
            *r == self.spec_key(),
    {
        &self.key
    }

    /// Unwrap the key.
    pub fn into_key(self) -> (r: K)
        ensures
            r == self.spec_key(),
    {
        self.key
    }
}

impl<K: StructKey> DirName<K> {
    /// `to_string_key()` with a trailing `/`. Convenient for building
    /// list-prefix queries against KV stores that scan by string range.
    pub fn dir_name_with_slash(&self) -> (r: String)
        ensures
            r@ == join_segments(key_segments(K::PREFIX@, self.spec_segments())) + seq!['/'],
    {
        let mut prefix = self.to_string_key();
        prefix.append("/");
        proof {
            reveal_strlit("/");
        }
        prefix
    }
}

impl<K: Codec> Codec for DirName<K> {
    open spec fn spec_segments(&self) -> Seq<Seq<char>> {
        self.spec_key().spec_segments().take(
            kept_segments(self.spec_key().spec_segments().len(), self.spec_level()) as int,
        )
    }

    /// A `DirName` is never decoded.
    open spec fn spec_reads(&self, rest: Seq<Seq<char>>) -> bool {
        false
    }

    open spec fn spec_decodable(&self) -> bool {
        false
    }

    open spec fn spec_fails_with(p: ParserView, e: KeyError) -> bool {
        e matches KeyError::NotDecodable { .. }
    }

    /// Encode the first `segment_count()` segments of the key, consuming
    /// budget only for those, so a larger budget cannot make it over-emit.
    fn encode_key(&self, b: Builder) -> (r: Builder) {
        let count = self.segment_count();
        let outer = b.budget();
        let inner = self.key.encode_key(b.limit_segments(count));
        let used = if outer < count {
            outer
        } else {
            count
        };
        proof {
            let ks = self.key.spec_segments();
            assert(ks.take(count as int).take(used as int) =~= ks.take(used as int));
        }
        inner.with_budget(outer - used)
    }

    /// `DirName` is a print-only view of a key; decoding always fails.
    /// Decode `K` directly and wrap the result instead.
    fn decode_key(_p: &mut Parser) -> (r: Result<Self, Error>)
        ensures
            r matches Err(KeyError::NotDecodable { .. }),
            final(_p)@ == old(_p)@,
    {
        Err(KeyError::NotDecodable { name: "DirName" })
    }

    fn segment_count(&self) -> (n: usize) {
        let c = self.key.segment_count();
        if c >= self.level {
            c - self.level
        } else {
            0
        }
    }
}

impl<K: StructKey> StructKey for DirName<K> {
    const PREFIX: &'static str = K::PREFIX;
}

/// A `DirName` keeps the leading segments of its key and drops `level` of
/// them from the end, all of them when the key has no more: at level 0 it
/// keeps every segment, and each further level drops one more.
pub proof fn lemma_dir_name_truncates<K: Codec>(d: DirName<K>)
    ensures
        d.spec_segments() == d.spec_key().spec_segments().take(d.spec_segments().len() as int),
        d.spec_level() <= d.spec_key().spec_segments().len() ==> d.spec_segments().len()
            + d.spec_level() == d.spec_key().spec_segments().len(),
        d.spec_level() >= d.spec_key().spec_segments().len() ==> d.spec_segments().len() == 0,
        d.spec_level() == 0 ==> d.spec_segments() == d.spec_key().spec_segments(),
{
    let ks = d.spec_key().spec_segments();
    assert(ks.take(ks.len() as int) =~= ks);
}

/// At level 0 a `DirName` prints exactly its key's string.
pub proof fn lemma_dir_name_level_zero<K: StructKey>(d: DirName<K>)
    requires
        d.spec_level() == 0,
    ensures
        join_segments(key_segments(<DirName<K> as StructKey>::PREFIX@, d.spec_segments()))
            == join_segments(key_segments(K::PREFIX@, d.spec_key().spec_segments())),
{
    lemma_dir_name_truncates(d);
}

/// A `DirName` has the prefix of the key it wraps.
pub proof fn lemma_dir_name_prefix<K: StructKey>()
    ensures
        <DirName<K> as StructKey>::PREFIX == K::PREFIX,
{
}

/// The string of a `DirName` that drops `level` segments, no more than the
/// key has, is the key's string up to the `/` before the dropped segments.
pub proof fn lemma_dir_name_is_parent<K: StructKey>(d: DirName<K>)
    requires
        d.spec_key().spec_segments().len() < usize::MAX,
        0 < d.spec_level() <= d.spec_key().spec_segments().len(),
    ensures
        ({
            let ks = d.spec_key().spec_segments();
            let kept = (ks.len() - d.spec_level()) as int;
            join_segments(key_segments(K::PREFIX@, ks)) == join_segments(
                key_segments(K::PREFIX@, d.spec_segments()),
            ) + seq!['/'] + join_segments(ks.skip(kept))
        }),
{
    let ks = d.spec_key().spec_segments();
    let kept = (ks.len() - d.spec_level()) as int;
    assert(ks.take(ks.len() as int) =~= ks);
    assert(d.spec_segments().take(kept) =~= ks.take(kept));
    let a = seq![K::PREFIX@] + ks.take(kept);
    let b = ks.skip(kept);
    lemma_join_append(a, b);
    assert(a + b =~= seq![K::PREFIX@] + ks);
}

} // verus!
