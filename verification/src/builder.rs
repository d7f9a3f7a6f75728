//! A helper for building a string key from a structured key.
//!
//! `Builder` carries a segment budget so callers can cap how many segments
//! their pushes append. Once the budget reaches zero, the `push_*` methods
//! become no-ops. This lets aggregate `Codec` impls stay a sequence of
//! pushes without threading a segment count through every field.

use crate::helper::{
    escape, escape_specified, escape_specified_bytes, lemma_ascii_utf8, spec_escape,
    string_from_valid_utf8, u64_to_string, decimal,
};
use crate::segments::{join_segments, lemma_encode_utf8_append};
use vstd::prelude::*;
use vstd::utf8::*;

verus! {

/// What a builder holds: the segments pushed so far and how many more it
/// accepts.
pub struct BuilderView {
    pub segments: Seq<Seq<char>>,
    pub budget: nat,
}

impl BuilderView {
    /// The builder after pushing `new` one by one: only as many as the
    /// budget allows are appended, and each consumes one unit of budget.
    pub open spec fn feed(self, new: Seq<Seq<char>>) -> BuilderView {
        let k = if self.budget < new.len() {
            self.budget
        } else {
            new.len()
        };
        BuilderView { segments: self.segments + new.take(k as int), budget: (self.budget - k) as nat }
    }

    /// The string the builder produces: its segments joined by `/`.
    pub open spec fn output(self) -> Seq<char> {
        join_segments(self.segments)
    }
}

/// Feeding two runs of segments one after the other is feeding their
/// concatenation: a struct's fields encoded in order push the concatenation
/// of their segments, under one shared budget.
pub proof fn lemma_feed_append(v: BuilderView, x: Seq<Seq<char>>, y: Seq<Seq<char>>)
    ensures
        v.feed(x).feed(y) == v.feed(x + y),
{
    let k1 = if v.budget < x.len() {
        v.budget
    } else {
        x.len()
    };
    let w = v.feed(x);
    let k2 = if w.budget < y.len() {
        w.budget
    } else {
        y.len()
    };
    let k = if v.budget < (x + y).len() {
        v.budget
    } else {
        (x + y).len()
    };
    assert(k == k1 + k2);
    assert(x.take(k1 as int) + y.take(k2 as int) =~= (x + y).take(k as int));
    assert(v.segments + x.take(k1 as int) + y.take(k2 as int) =~= v.segments + (x + y).take(
        k as int,
    ));
}

/// One builder call, by what it does to the builder: `limit_segments(n)`
/// is `Limit(n)`; `push_raw(s)`, `push_str(s)` and `push_u64(n)` push one
/// segment, `s@`, `spec_escape(s@)` and `decimal(n)`.
pub enum BuilderCall {
    Limit(nat),
    Push(Seq<char>),
}

/// The limit of a `Limit` call.
pub open spec fn limit_of(c: BuilderCall) -> nat {
    match c {
        BuilderCall::Limit(n) => n,
        BuilderCall::Push(_) => 0,
    }
}

/// The segment of a `Push` call.
pub open spec fn pushed_of(c: BuilderCall) -> Seq<char> {
    match c {
        BuilderCall::Push(s) => s,
        BuilderCall::Limit(_) => Seq::empty(),
    }
}

/// The builder after the calls, made in order.
pub open spec fn run_calls(v: BuilderView, calls: Seq<BuilderCall>) -> BuilderView
    decreases calls.len(),
{
    if calls.len() == 0 {
        v
    } else {
        let w = run_calls(v, calls.drop_last());
        match calls.last() {
            BuilderCall::Limit(n) => BuilderView {
                segments: w.segments,
                budget: if w.budget < n {
                    w.budget
                } else {
                    n
                },
            },
            BuilderCall::Push(seg) => w.feed(seq![seg]),
        }
    }
}

/// How many of the pushes at positions `lo..hi` of `calls` are accepted,
/// starting from a budget of `start`.
pub open spec fn accepted_count(calls: Seq<BuilderCall>, start: nat, lo: int, hi: int) -> nat
    decreases hi, 0int,
{
    if hi <= lo || hi <= 0 {
        0
    } else {
        accepted_count(calls, start, lo, hi - 1) + (if accepted(calls, start, hi - 1) {
            1nat
        } else {
            0nat
        })
    }
}

/// The call at position `i` is a push that is accepted: fewer than `start`
/// pushes were accepted before it, and for every earlier `limit_segments(n)`
/// fewer than `n` pushes were accepted after that limit.
pub open spec fn accepted(calls: Seq<BuilderCall>, start: nat, i: int) -> bool
    decreases i, 1int,
{
    if 0 <= i < calls.len() {
        &&& calls[i] is Push
        &&& accepted_count(calls, start, 0, i) < start
        &&& forall|j: int|
            0 <= j < i && #[trigger] calls[j] is Limit ==> accepted_count(calls, start, j + 1, i)
                < limit_of(calls[j])
    } else {
        false
    }
}

/// The segments of the accepted pushes among the first `n` calls, in order.
pub open spec fn accepted_segments(calls: Seq<BuilderCall>, start: nat, n: int) -> Seq<Seq<char>>
    decreases n,
{
    if n <= 0 {
        Seq::empty()
    } else {
        accepted_segments(calls, start, n - 1) + (if accepted(calls, start, n - 1) {
            seq![pushed_of(calls[n - 1])]
        } else {
            Seq::empty()
        })
    }
}

/// What holds after the first `k` calls: the accepted segments were
/// appended, and the budget is the smallest slack left under the starting
/// budget and under each limit so far.
proof fn lemma_run_prefix(v: BuilderView, calls: Seq<BuilderCall>, k: int)
    requires
        0 <= k <= calls.len(),
    ensures
        ({
            let w = run_calls(v, calls.take(k));
            let b0 = v.budget;
            &&& w.segments == v.segments + accepted_segments(calls, b0, k)
            &&& accepted_count(calls, b0, 0, k) <= b0
            &&& w.budget + accepted_count(calls, b0, 0, k) <= b0
            &&& forall|j: int|
                0 <= j < k && #[trigger] calls[j] is Limit ==> accepted_count(calls, b0, j + 1, k)
                    <= limit_of(calls[j]) && w.budget + accepted_count(calls, b0, j + 1, k)
                    <= limit_of(calls[j])
            &&& (w.budget + accepted_count(calls, b0, 0, k) == b0 || exists|j: int|
                0 <= j < k && #[trigger] calls[j] is Limit && w.budget + accepted_count(
                    calls,
                    b0,
                    j + 1,
                    k,
                ) == limit_of(calls[j]))
        }),
    decreases k,
{
    let b0 = v.budget;
    if k == 0 {
        assert(calls.take(0) =~= Seq::<BuilderCall>::empty());
        assert(v.segments + Seq::<Seq<char>>::empty() =~= v.segments);
    } else {
        let i = k - 1;
        lemma_run_prefix(v, calls, i);
        let w = run_calls(v, calls.take(i));
        assert(calls.take(k).drop_last() =~= calls.take(i));
        assert(calls.take(k).last() == calls[i]);
        let w2 = run_calls(v, calls.take(k));
        assert forall|lo: int| 0 <= lo <= i implies #[trigger] accepted_count(calls, b0, lo, k)
            == accepted_count(calls, b0, lo, i) + (if accepted(calls, b0, i) {
            1nat
        } else {
            0nat
        }) by {}
        assert(accepted_count(calls, b0, k, k) == 0);
        match calls[i] {
            BuilderCall::Limit(n) => {
                assert(!accepted(calls, b0, i));
                assert(w2.segments == w.segments);
                assert(w2.budget == if w.budget < n {
                    w.budget
                } else {
                    n
                });
                assert(accepted_segments(calls, b0, k) =~= accepted_segments(calls, b0, i));
                assert forall|j: int|
                    0 <= j < k && #[trigger] calls[j] is Limit implies accepted_count(
                    calls,
                    b0,
                    j + 1,
                    k,
                ) <= limit_of(calls[j]) && w2.budget + accepted_count(calls, b0, j + 1, k)
                    <= limit_of(calls[j]) by {
                    if j < i {
                        assert(accepted_count(calls, b0, j + 1, k) == accepted_count(
                            calls,
                            b0,
                            j + 1,
                            i,
                        ));
                    }
                }
                if w2.budget + accepted_count(calls, b0, 0, k) != b0 {
                    if w2.budget == n {
                        assert(calls[i] is Limit && w2.budget + accepted_count(calls, b0, i + 1, k)
                            == limit_of(calls[i]));
                    } else {
                        assert(w2.budget == w.budget);
                        if w.budget + accepted_count(calls, b0, 0, i) != b0 {
                            let j = choose|j: int|
                                0 <= j < i && #[trigger] calls[j] is Limit && w.budget
                                    + accepted_count(calls, b0, j + 1, i) == limit_of(calls[j]);
                            assert(accepted_count(calls, b0, j + 1, k) == accepted_count(
                                calls,
                                b0,
                                j + 1,
                                i,
                            ));
                            assert(calls[j] is Limit && w2.budget + accepted_count(
                                calls,
                                b0,
                                j + 1,
                                k,
                            ) == limit_of(calls[j]));
                        }
                    }
                }
            },
            BuilderCall::Push(seg) => {
                let acc = accepted(calls, b0, i);
                if w.budget > 0 {
                    assert(acc) by {
                        assert forall|j: int|
                            0 <= j < i && #[trigger] calls[j] is Limit implies accepted_count(
                            calls,
                            b0,
                            j + 1,
                            i,
                        ) < limit_of(calls[j]) by {}
                    }
                } else {
                    assert(!acc) by {
                        if acc {
                            if w.budget + accepted_count(calls, b0, 0, i) != b0 {
                                let j = choose|j: int|
                                    0 <= j < i && #[trigger] calls[j] is Limit && w.budget
                                        + accepted_count(calls, b0, j + 1, i) == limit_of(calls[j]);
                                assert(accepted_count(calls, b0, j + 1, i) < limit_of(calls[j]));
                            }
                        }
                    }
                }
                assert(w2 == w.feed(seq![seg]));
                if acc {
                    assert(seq![seg].take(1) =~= seq![seg]);
                    assert(pushed_of(calls[i]) == seg);
                    assert(w2.segments =~= v.segments + accepted_segments(calls, b0, k));
                    assert forall|j: int|
                        0 <= j < k && #[trigger] calls[j] is Limit implies accepted_count(
                        calls,
                        b0,
                        j + 1,
                        k,
                    ) <= limit_of(calls[j]) && w2.budget + accepted_count(calls, b0, j + 1, k)
                        <= limit_of(calls[j]) by {
                        assert(j < i);
                        assert(accepted_count(calls, b0, j + 1, k) == accepted_count(
                            calls,
                            b0,
                            j + 1,
                            i,
                        ) + 1);
                    }
                    if w.budget + accepted_count(calls, b0, 0, i) != b0 {
                        let j = choose|j: int|
                            0 <= j < i && #[trigger] calls[j] is Limit && w.budget + accepted_count(
                                calls,
                                b0,
                                j + 1,
                                i,
                            ) == limit_of(calls[j]);
                        assert(accepted_count(calls, b0, j + 1, k) == accepted_count(
                            calls,
                            b0,
                            j + 1,
                            i,
                        ) + 1);
                        assert(calls[j] is Limit && w2.budget + accepted_count(calls, b0, j + 1, k)
                            == limit_of(calls[j]));
                    }
                } else {
                    assert(seq![seg].take(0) =~= Seq::<Seq<char>>::empty());
                    assert(w2.segments =~= w.segments);
                    assert(accepted_segments(calls, b0, k) =~= accepted_segments(calls, b0, i));
                    assert forall|j: int|
                        0 <= j < k && #[trigger] calls[j] is Limit implies accepted_count(
                        calls,
                        b0,
                        j + 1,
                        k,
                    ) <= limit_of(calls[j]) && w2.budget + accepted_count(calls, b0, j + 1, k)
                        <= limit_of(calls[j]) by {
                        assert(j < i);
                        assert(accepted_count(calls, b0, j + 1, k) == accepted_count(
                            calls,
                            b0,
                            j + 1,
                            i,
                        ));
                    }
                    if w.budget + accepted_count(calls, b0, 0, i) != b0 {
                        let j = choose|j: int|
                            0 <= j < i && #[trigger] calls[j] is Limit && w.budget + accepted_count(
                                calls,
                                b0,
                                j + 1,
                                i,
                            ) == limit_of(calls[j]);
                        assert(accepted_count(calls, b0, j + 1, k) == accepted_count(
                            calls,
                            b0,
                            j + 1,
                            i,
                        ));
                        assert(calls[j] is Limit && w2.budget + accepted_count(calls, b0, j + 1, k)
                            == limit_of(calls[j]));
                    }
                }
            },
        }
    }
}

/// A chain of builder calls appends exactly the accepted pushes, in order:
/// a push is accepted when fewer pushes than the starting budget were
/// accepted before it, and, for every earlier `limit_segments(n)`, fewer
/// than `n` were accepted after that limit. `done` then gives these
/// segments joined by `/`.
pub proof fn lemma_builder_calls(v: BuilderView, calls: Seq<BuilderCall>)
    ensures
        run_calls(v, calls).segments == v.segments + accepted_segments(
            calls,
            v.budget,
            calls.len() as int,
        ),
        run_calls(v, calls).output() == join_segments(
            v.segments + accepted_segments(calls, v.budget, calls.len() as int),
        ),
{
    lemma_run_prefix(v, calls, calls.len() as int);
    assert(calls.take(calls.len() as int) =~= calls);
}

/// Builds a key string segment by segment, separating segments with `/`,
/// under a budget of how many more segments it accepts.
pub struct Builder {
    buf: Vec<u8>,
    /// Number of segments written so far. This cannot be derived from
    /// `buf.is_empty()` because an empty string is still a real segment.
    segments_written: usize,
    /// Maximum number of further segments `push_*` may append. Default
    /// `usize::MAX` is effectively unlimited; `0` makes pushes no-ops.
    budget: usize,
    segments: Ghost<Seq<Seq<char>>>,
}

impl View for Builder {
    type V = BuilderView;

    closed spec fn view(&self) -> BuilderView {
        BuilderView { segments: self.segments@, budget: self.budget as nat }
    }
}

/// The UTF-8 encoding of `/` is the single byte 0x2f.
proof fn lemma_separator_utf8()
    ensures
        encode_utf8(seq!['/']) == seq![0x2fu8],
{
    lemma_ascii_utf8(seq![0x2fu8]);
    assert(crate::helper::ascii_chars(seq![0x2fu8]) =~= seq!['/']);
}

impl Builder {
    #[verifier::type_invariant]
    closed spec fn inv(self) -> bool {
        &&& self.buf@ == encode_utf8(join_segments(self.segments@))
        &&& self.segments_written == self.segments@.len()
        &&& self.segments_written + self.budget <= usize::MAX
    }

    /// An empty builder with an unlimited budget.
    #[allow(clippy::new_without_default)]
    pub fn new() -> (r: Self)
        ensures
            r@ == (BuilderView { segments: Seq::empty(), budget: usize::MAX as nat }),
    {
        Builder { buf: Vec::new(), segments_written: 0, budget: usize::MAX, segments: Ghost(Seq::empty()) }
    }

    /// Construct a builder seeded with `prefix` as its first segment.
    ///
    /// The prefix is pushed under the default unlimited budget, so it's
    /// never suppressed by a later `limit_segments`.
    pub fn new_prefixed(prefix: &str) -> (r: Self)
        ensures
            r@ == (BuilderView { segments: seq![prefix@], budget: (usize::MAX - 1) as nat }),
    {
        let r = Self::new().push_raw(prefix);
        proof {
            assert(Seq::<Seq<char>>::empty() + seq![prefix@].take(1) =~= seq![prefix@]);
        }
        r
    }

    /// Tighten the segment budget for subsequent `push_*` calls.
    ///
    /// Always takes the minimum of the current budget and `n`, so nesting
    /// `limit_segments` calls only ever shrinks the cap.
    pub fn limit_segments(self, n: usize) -> (r: Self)
        ensures
            r@ == (BuilderView {
                segments: self@.segments,
                budget: if self@.budget < n { self@.budget } else { n as nat },
            }),
    {
        proof {
            use_type_invariant(&self);
        }
        let Builder { buf, segments_written, budget, segments } = self;
        let budget = if budget < n { budget } else { n };
        Builder { buf, segments_written, budget, segments }
    }

    /// The remaining budget.
    pub(crate) fn budget(&self) -> (r: usize)
        ensures
            r == self@.budget,
            self@.segments.len() + r <= usize::MAX,
    {
        proof {
            use_type_invariant(self);
        }
        self.budget
    }

    /// Replace the remaining budget.
    pub(crate) fn with_budget(self, n: usize) -> (r: Self)
        requires
            self@.segments.len() + n <= usize::MAX,
        ensures
            r@ == (BuilderView { segments: self@.segments, budget: n as nat }),
    {
        proof {
            use_type_invariant(&self);
        }
        let Builder { buf, segments_written, budget: _, segments } = self;
        Builder { buf, segments_written, budget: n, segments }
    }

    /// Push a segment without escaping.
    ///
    /// Returns unchanged if the segment budget is exhausted.
    pub fn push_raw(self, s: &str) -> (r: Self)
        ensures
            r@ == self@.feed(seq![s@]),
    {
        proof {
            use_type_invariant(&self);
        }
        if self.budget == 0 {
            proof {
                assert(self@.segments + seq![s@].take(0) =~= self@.segments);
            }
            return self;
        }
        let Builder { mut buf, segments_written, budget, segments } = self;
        let ghost old_buf = buf@;
        let ghost new_segments = segments@.push(s@);
        if segments_written > 0 {
            // `/`
            buf.push(0x2f);
        }
        buf.extend_from_slice(s.as_bytes());
        proof {
            lemma_separator_utf8();
            if segments@.len() == 0 {
                assert(new_segments.len() == 1 && new_segments[0] == s@);
                assert(buf@ =~= encode_utf8(s@));
            } else {
                assert(new_segments.drop_last() =~= segments@);
                assert(new_segments.last() == s@);
                lemma_encode_utf8_append(join_segments(segments@), seq!['/']);
                lemma_encode_utf8_append(join_segments(segments@) + seq!['/'], s@);
                assert(buf@ =~= old_buf + seq![0x2fu8] + encode_utf8(s@));
            }
            assert(segments@ + seq![s@].take(1) =~= new_segments);
        }
        Builder {
            buf,
            segments_written: segments_written + 1,
            budget: budget - 1,
            segments: Ghost(new_segments),
        }
    }

    /// Push a percent-escaped segment.
    ///
    /// Returns unchanged if the segment budget is exhausted.
    pub fn push_str(self, s: &str) -> (r: Self)
        ensures
            r@ == self@.feed(seq![spec_escape(s@)]),
    {
        let e = escape(s);
        self.push_raw(e.as_str())
    }

    /// Push a u64 segment as decimal.
    ///
    /// Returns unchanged if the segment budget is exhausted.
    pub fn push_u64(self, n: u64) -> (r: Self)
        ensures
            r@ == self@.feed(seq![decimal(n as nat)]),
    {
        let d = u64_to_string(n);
        self.push_raw(d.as_str())
    }

    /// The built key: the segments joined by `/`.
    pub fn done(self) -> (r: String)
        ensures
            r@ == self@.output(),
    {
        proof {
            use_type_invariant(&self);
            encode_utf8_valid_utf8(join_segments(self.segments@));
            encode_utf8_decode_utf8(join_segments(self.segments@));
        }
        let Builder { buf, segments_written: _, budget: _, segments: _ } = self;
        string_from_valid_utf8(buf)
    }

    /// Escape every byte outside `[A-Za-z0-9_]` as `%XX`.
    pub fn escape(s: &str) -> (r: String)
        ensures
            r@ == spec_escape(s@),
    {
        escape(s)
    }

    /// Escape only the bytes listed in `chars` as `%XX`.
    pub fn escape_specified(s: &str, chars: &[u8]) -> (r: String)
        requires
            valid_utf8(escape_specified_bytes(encode_utf8(s@), chars@)),
        ensures
            r@ == decode_utf8(escape_specified_bytes(encode_utf8(s@), chars@)),
    {
        escape_specified(s, chars)
    }
}

} // verus!
