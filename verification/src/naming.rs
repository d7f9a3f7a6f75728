//! The naming and validation rules behind `#[derive(Codec)]` and
//! `#[derive(StructKey)]`: enum discriminants in `snake_case`, checks on
//! prefixes and renamed discriminants, unique discriminants, the fields a
//! derive encodes, and the list of discriminants an unknown tag is
//! reported against.

use crate::helper::{decimal, u64_to_string};
use vstd::prelude::*;

verus! {

/// `char::is_uppercase`: whether the character has the Unicode `Uppercase`
/// property.
pub uninterp spec fn char_is_uppercase(c: char) -> bool;

/// `char::is_lowercase`: whether the character has the Unicode `Lowercase`
/// property.
pub uninterp spec fn char_is_lowercase(c: char) -> bool;

/// `char::to_lowercase`: the characters of the Unicode lowercase mapping.
pub uninterp spec fn char_lowercase(c: char) -> Seq<char>;

/// An ASCII character.
pub open spec fn is_ascii_char(c: char) -> bool {
    (c as u32) < 0x80
}

/// An ASCII uppercase letter, `A` to `Z`.
pub open spec fn is_ascii_upper(c: char) -> bool {
    0x41 <= (c as u32) <= 0x5a
}

/// An ASCII lowercase letter, `a` to `z`.
pub open spec fn is_ascii_lower(c: char) -> bool {
    0x61 <= (c as u32) <= 0x7a
}

/// `t` is the lowercase of the ASCII character `c`: `A`..`Z` become
/// `a`..`z`, every other ASCII character stays as it is.
pub open spec fn is_ascii_lowered(c: char, t: Seq<char>) -> bool {
    &&& t.len() == 1
    &&& if is_ascii_upper(c) {
        (t[0] as u32) == (c as u32) + 32
    } else {
        t[0] == c
    }
}

/// The ASCII lowercase of `c`: `A`..`Z` become `a`..`z`, every other
/// character stays as it is.
pub open spec fn ascii_lowercase(c: char) -> char {
    if is_ascii_upper(c) {
        (((c as u32) + 32) as u32) as char
    } else {
        c
    }
}

/// Whether an `_` goes before character `i` of the ASCII identifier `s`:
/// it is `A`..`Z` and follows `a`..`z`, or follows `A`..`Z` and comes
/// before `a`..`z`.
pub open spec fn ascii_separator_at(s: Seq<char>, i: int) -> bool {
    &&& i > 0
    &&& is_ascii_upper(s[i])
    &&& (is_ascii_lower(s[i - 1]) || (is_ascii_upper(s[i - 1]) && i + 1 < s.len()
        && is_ascii_lower(s[i + 1])))
}

/// The `snake_case` text of the first `n` characters of the ASCII
/// identifier `s`, by the ASCII rules alone.
pub open spec fn ascii_snake_prefix(s: Seq<char>, n: int) -> Seq<char>
    decreases n,
{
    if n <= 0 {
        Seq::empty()
    } else {
        ascii_snake_prefix(s, n - 1) + (if ascii_separator_at(s, n - 1) {
            seq!['_']
        } else {
            Seq::empty()
        }) + seq![ascii_lowercase(s[n - 1])]
    }
}

/// The `snake_case` text of the ASCII identifier `s`.
pub open spec fn ascii_snake_text(s: Seq<char>) -> Seq<char> {
    ascii_snake_prefix(s, s.len() as int)
}

/// What std documents of the three case functions on an ASCII character.
pub open spec fn ascii_case_facts(c: char) -> bool {
    is_ascii_char(c) ==> {
        &&& char_is_uppercase(c) == is_ascii_upper(c)
        &&& char_is_lowercase(c) == is_ascii_lower(c)
        &&& is_ascii_lowered(c, char_lowercase(c))
    }
}

/// `char::is_uppercase`. Claimed: the result depends on `c` alone, and is
/// named `char_is_uppercase(c)`; on ASCII it holds exactly of `A` to `Z`.
#[verifier::external_body]
fn is_uppercase(c: char) -> (r: bool)
    ensures
        r == char_is_uppercase(c),
        is_ascii_char(c) ==> (r == is_ascii_upper(c)),
{
    c.is_uppercase()
}

/// `char::is_lowercase`. Claimed: the result depends on `c` alone, and is
/// named `char_is_lowercase(c)`; on ASCII it holds exactly of `a` to `z`.
#[verifier::external_body]
fn is_lowercase(c: char) -> (r: bool)
    ensures
        r == char_is_lowercase(c),
        is_ascii_char(c) ==> (r == is_ascii_lower(c)),
{
    c.is_lowercase()
}

/// `char::to_lowercase`, collected into a string. Claimed: the characters
/// depend on `c` alone, and are named `char_lowercase(c)`; an ASCII
/// character maps to one character, `A` to `Z` shifted to `a` to `z`, any
/// other ASCII character to itself.
#[verifier::external_body]
fn to_lowercase(c: char) -> (r: String)
    ensures
        r@ == char_lowercase(c),
        is_ascii_char(c) ==> is_ascii_lowered(c, r@),
{
    c.to_lowercase().collect()
}

/// What the `snake_case` rules read of one character.
pub struct CharCase {
    pub upper: bool,
    pub lower: bool,
    pub lowered: String,
}

/// Whether an `_` goes before the character at `i`: it is uppercase and
/// starts a new word, after a lowercase character or at the boundary
/// between an acronym and a following word.
pub open spec fn needs_separator(cs: Seq<CharCase>, i: int) -> bool {
    &&& cs[i].upper
    &&& i > 0
    &&& (cs[i - 1].lower || (cs[i - 1].upper && i + 1 < cs.len() && cs[i + 1].lower))
}

/// The `snake_case` text of the first `n` characters.
pub open spec fn snake_prefix(cs: Seq<CharCase>, n: int) -> Seq<char>
    decreases n,
{
    if n <= 0 {
        Seq::empty()
    } else {
        snake_prefix(cs, n - 1) + (if needs_separator(cs, n - 1) {
            seq!['_']
        } else {
            Seq::empty()
        }) + cs[n - 1].lowered@
    }
}

/// The `snake_case` text of the whole identifier.
pub open spec fn spec_snake(cs: Seq<CharCase>) -> Seq<char> {
    snake_prefix(cs, cs.len() as int)
}

/// What the `char` case functions say of each character of `s`.
pub open spec fn classified(s: Seq<char>, cs: Seq<CharCase>) -> bool {
    &&& cs.len() == s.len()
    &&& forall|i: int|
        0 <= i < s.len() ==> {
            &&& (#[trigger] cs[i]).upper == char_is_uppercase(s[i])
            &&& cs[i].lower == char_is_lowercase(s[i])
            &&& cs[i].lowered@ == char_lowercase(s[i])
        }
}

/// Whether an `_` goes before character `i` of the identifier `s`, by the
/// case of the characters around it.
pub open spec fn needs_separator_at(s: Seq<char>, i: int) -> bool {
    &&& char_is_uppercase(s[i])
    &&& i > 0
    &&& (char_is_lowercase(s[i - 1]) || (char_is_uppercase(s[i - 1]) && i + 1 < s.len()
        && char_is_lowercase(s[i + 1])))
}

/// The `snake_case` text of the first `n` characters of the identifier `s`.
pub open spec fn snake_text_prefix(s: Seq<char>, n: int) -> Seq<char>
    decreases n,
{
    if n <= 0 {
        Seq::empty()
    } else {
        snake_text_prefix(s, n - 1) + (if needs_separator_at(s, n - 1) {
            seq!['_']
        } else {
            Seq::empty()
        }) + char_lowercase(s[n - 1])
    }
}

/// The `snake_case` text of the identifier `s`.
pub open spec fn snake_text(s: Seq<char>) -> Seq<char> {
    snake_text_prefix(s, s.len() as int)
}

/// Reading the characters' case and then joining gives the `snake_case`
/// text of the identifier.
pub proof fn lemma_classified_snake(s: Seq<char>, cs: Seq<CharCase>, n: int)
    requires
        classified(s, cs),
        0 <= n <= s.len(),
    ensures
        snake_prefix(cs, n) == snake_text_prefix(s, n),
    decreases n,
{
    if n > 0 {
        lemma_classified_snake(s, cs, n - 1);
        let i = n - 1;
        assert(cs[i].upper == char_is_uppercase(s[i]));
        if i > 0 {
            assert(cs[i - 1].lower == char_is_lowercase(s[i - 1]));
            assert(cs[i - 1].upper == char_is_uppercase(s[i - 1]));
        }
        if i + 1 < s.len() {
            assert(cs[i + 1].lower == char_is_lowercase(s[i + 1]));
        }
        assert(needs_separator(cs, i) == needs_separator_at(s, i));
        assert(cs[i].lowered@ == char_lowercase(s[i]));
    }
}

/// Join the lowercased characters, inserting `_` where a new word starts.
pub fn snake_case_of(cs: &Vec<CharCase>) -> (r: String)
    ensures
        r@ == spec_snake(cs@),
{
    let mut out = String::new();
    let n = cs.len();
    let mut i: usize = 0;
    while i < n
        invariant
            n == cs@.len(),
            i <= n,
            out@ == snake_prefix(cs@, i as int),
        decreases n - i,
    {
        let ghost before = out@;
        let c = &cs[i];
        let mut sep = false;
        if c.upper && i > 0 {
            let prev = &cs[i - 1];
            sep = prev.lower || (prev.upper && i + 1 < n && cs[i + 1].lower);
        }
        if sep {
            out.append("_");
        }
        proof {
            reveal_strlit("_");
            assert(sep == needs_separator(cs@, i as int));
            if sep {
                assert(out@ == before + seq!['_']);
            } else {
                assert(out@ == before + Seq::<char>::empty());
            }
        }
        out.append(c.lowered.as_str());
        proof {
            assert(c.lowered@ == cs@[i as int].lowered@);
            assert(out@ =~= snake_prefix(cs@, i + 1));
        }
        i += 1;
    }
    out
}

/// Every character is ASCII.
pub open spec fn all_ascii_text(s: Seq<char>) -> bool {
    forall|i: int| 0 <= i < s.len() ==> is_ascii_char(#[trigger] s[i])
}

/// No character is an ASCII uppercase letter.
pub open spec fn no_ascii_upper(s: Seq<char>) -> bool {
    forall|i: int| 0 <= i < s.len() ==> !is_ascii_upper(#[trigger] s[i])
}

/// On an ASCII identifier, the `snake_case` text is ASCII without uppercase
/// letters, and an identifier without uppercase letters is its own
/// `snake_case` text.
pub proof fn lemma_ascii_snake(s: Seq<char>, n: int)
    requires
        0 <= n <= s.len(),
        all_ascii_text(s),
        forall|j: int| 0 <= j < s.len() ==> ascii_case_facts(#[trigger] s[j]),
    ensures
        all_ascii_text(snake_text_prefix(s, n)),
        no_ascii_upper(snake_text_prefix(s, n)),
        no_ascii_upper(s) ==> snake_text_prefix(s, n) == s.take(n),
        snake_text_prefix(s, n) == ascii_snake_prefix(s, n),
    decreases n,
{
    if n == 0 {
        assert(s.take(0) =~= Seq::<char>::empty());
    } else {
        lemma_ascii_snake(s, n - 1);
        let c = s[n - 1];
        assert(is_ascii_char(c));
        assert(ascii_case_facts(c));
        let prev = snake_text_prefix(s, n - 1);
        let sep = if needs_separator_at(s, n - 1) {
            seq!['_']
        } else {
            Seq::<char>::empty()
        };
        let low = char_lowercase(c);
        let out = prev + sep + low;
        assert(snake_text_prefix(s, n) == out);
        assert(low.len() == 1);
        if is_ascii_upper(c) {
            vstd::utf8::char_u32_cast(low[0], ((c as u32) + 32) as u32);
        }
        assert(low =~= seq![ascii_lowercase(c)]);
        if n - 1 > 0 {
            assert(ascii_case_facts(s[n - 2]));
        }
        if n < s.len() {
            assert(ascii_case_facts(s[n]));
        }
        assert(needs_separator_at(s, n - 1) == ascii_separator_at(s, n - 1));
        assert(is_ascii_char(low[0]) && !is_ascii_upper(low[0]));
        assert forall|i: int| 0 <= i < out.len() implies is_ascii_char(#[trigger] out[i])
            && !is_ascii_upper(out[i]) by {
            if i < prev.len() {
                assert(out[i] == prev[i]);
            } else if i < prev.len() + sep.len() {
                assert(out[i] == '_');
            } else {
                assert(out[i] == low[i - prev.len() - sep.len()]);
            }
        }
        if no_ascii_upper(s) {
            assert(!is_ascii_upper(c));
            assert(!needs_separator_at(s, n - 1));
            assert(low =~= seq![c]);
            assert(out =~= s.take(n));
        }
    }
}

/// Convert a Rust identifier to `snake_case`: `TwoWords` -> `two_words`,
/// `XMLParser` -> `xml_parser`, `UDF` -> `udf`.
pub fn snake_case(ident: &str) -> (r: String)
    ensures
        r@ == snake_text(ident@),
        all_ascii_text(ident@) ==> all_ascii_text(r@) && no_ascii_upper(r@),
        all_ascii_text(ident@) && no_ascii_upper(ident@) ==> r@ == ident@,
        all_ascii_text(ident@) ==> r@ == ascii_snake_text(ident@),
        forall|j: int| 0 <= j < ident@.len() ==> ascii_case_facts(#[trigger] ident@[j]),
{
    let n = ident.unicode_len();
    let mut cs: Vec<CharCase> = Vec::new();
    let mut i: usize = 0;
    while i < n
        invariant
            n == ident@.len(),
            i <= n,
            cs@.len() == i,
            forall|j: int|
                0 <= j < i ==> {
                    &&& (#[trigger] cs@[j]).upper == char_is_uppercase(ident@[j])
                    &&& cs@[j].lower == char_is_lowercase(ident@[j])
                    &&& cs@[j].lowered@ == char_lowercase(ident@[j])
                },
            forall|j: int| 0 <= j < i ==> ascii_case_facts(#[trigger] ident@[j]),
        decreases n - i,
    {
        let c = ident.get_char(i);
        cs.push(CharCase { upper: is_uppercase(c), lower: is_lowercase(c), lowered: to_lowercase(c) });
        i += 1;
    }
    let r = snake_case_of(&cs);
    proof {
        assert(classified(ident@, cs@));
        lemma_classified_snake(ident@, cs@, n as int);
        if all_ascii_text(ident@) {
            lemma_ascii_snake(ident@, n as int);
            assert(ident@.take(n as int) =~= ident@);
        }
    }
    r
}

/// Why a prefix or a renamed discriminant is refused.
#[derive(Debug, Clone, Copy, PartialEq, Eq)]
pub enum TagProblem {
    /// It is empty.
    Empty,
    /// It holds the segment separator `/`.
    HasSeparator,
}

/// Check a `#[structkey(prefix = "...")]` or `#[codec(rename = "...")]`
/// value: it must be non-empty and must not contain `/`.
pub fn check_tag(value: &str) -> (r: Result<(), TagProblem>)
    ensures
        value@.len() == 0 ==> r == Err::<(), TagProblem>(TagProblem::Empty),
        value@.len() > 0 && value@.contains('/') ==> r == Err::<(), TagProblem>(
            TagProblem::HasSeparator,
        ),
        value@.len() > 0 && !value@.contains('/') ==> r is Ok,
{
    let n = value.unicode_len();
    if n == 0 {
        return Err(TagProblem::Empty);
    }
    let mut i: usize = 0;
    while i < n
        invariant
            n == value@.len(),
            i <= n,
            forall|j: int| 0 <= j < i ==> value@[j] != '/',
        decreases n - i,
    {
        if value.get_char(i) == '/' {
            return Err(TagProblem::HasSeparator);
        }
        i += 1;
    }
    Ok(())
}

/// The first discriminant that repeats an earlier one, with the position of
/// its first use: `(i, j)` with `j < i`, `tags[i] == tags[j]`, no repeat
/// among `tags[..i]`, and `j` the first position holding `tags[i]`.
pub fn find_duplicate_tag(tags: &Vec<String>) -> (r: Option<(usize, usize)>)
    ensures
        r is None ==> forall|a: int, b: int| 0 <= a < b < tags@.len() ==> tags@[a]@ != tags@[b]@,
        r matches Some((i, j)) ==> {
            &&& j < i < tags@.len()
            &&& tags@[i as int]@ == tags@[j as int]@
            &&& forall|a: int, b: int| 0 <= a < b < i ==> tags@[a]@ != tags@[b]@
            &&& forall|a: int| 0 <= a < j ==> tags@[a]@ != tags@[i as int]@
        },
{
    let n = tags.len();
    let mut i: usize = 0;
    while i < n
        invariant
            n == tags@.len(),
            i <= n,
            forall|a: int, b: int| 0 <= a < b < i ==> tags@[a]@ != tags@[b]@,
        decreases n - i,
    {
        let mut j: usize = 0;
        while j < i
            invariant
                n == tags@.len(),
                j <= i < n,
                forall|a: int, b: int| 0 <= a < b < i ==> tags@[a]@ != tags@[b]@,
                forall|a: int| 0 <= a < j ==> tags@[a]@ != tags@[i as int]@,
            decreases i - j,
        {
            if tags[j] == tags[i] {
                return Some((i, j));
            }
            j += 1;
        }
        i += 1;
    }
    None
}

/// The positions of the fields a derive encodes (those that are not
/// `PhantomData`), each with its `raw` flag, in declaration order.
pub open spec fn spec_active_fields(raw: Seq<bool>, phantom: Seq<bool>, n: int) -> Seq<
    (usize, bool),
>
    decreases n,
{
    if n <= 0 {
        Seq::empty()
    } else {
        spec_active_fields(raw, phantom, n - 1) + (if phantom[n - 1] {
            Seq::empty()
        } else {
            seq![((n - 1) as usize, raw[n - 1])]
        })
    }
}

/// The smaller of two lengths.
pub open spec fn min_len(a: nat, b: nat) -> int {
    if a < b {
        a as int
    } else {
        b as int
    }
}

/// Walk `(raw_flags, phantom_flags)` and yield `(position, raw)` for every
/// non-phantom field, keeping original positions.
pub fn active_fields(raw_flags: &Vec<bool>, phantom_flags: &Vec<bool>) -> (r: Vec<(usize, bool)>)
    ensures
        r@ == spec_active_fields(
            raw_flags@,
            phantom_flags@,
            min_len(raw_flags@.len(), phantom_flags@.len()),
        ),
{
    let n = if raw_flags.len() < phantom_flags.len() {
        raw_flags.len()
    } else {
        phantom_flags.len()
    };
    let mut out: Vec<(usize, bool)> = Vec::new();
    let mut i: usize = 0;
    while i < n
        invariant
            n == min_len(raw_flags@.len(), phantom_flags@.len()),
            i <= n,
            out@ == spec_active_fields(raw_flags@, phantom_flags@, i as int),
        decreases n - i,
    {
        if !phantom_flags[i] {
            out.push((i, raw_flags[i]));
        }
        proof {
            assert(out@ =~= spec_active_fields(raw_flags@, phantom_flags@, i + 1));
        }
        i += 1;
    }
    out
}

/// A field type whose last path segment is named `PhantomData` carries no
/// data and is skipped by the derives.
pub fn is_phantom_data(last_segment: &str) -> (r: bool)
    ensures
        r == (last_segment@ == "PhantomData"@),
{
    let a = last_segment.to_owned();
    let b = "PhantomData".to_owned();
    a == b
}

/// The discriminants joined by `|`.
pub open spec fn spec_tag_list(tags: Seq<Seq<char>>) -> Seq<char>
    decreases tags.len(),
{
    if tags.len() == 0 {
        Seq::empty()
    } else if tags.len() == 1 {
        tags[0]
    } else {
        spec_tag_list(tags.drop_last()) + seq!['|'] + tags.last()
    }
}

/// The discriminants joined by `|`: what an unknown discriminant is
/// reported as expecting.
pub fn tag_list(tags: &Vec<String>) -> (r: String)
    ensures
        r@ == spec_tag_list(tags@.map_values(|t: String| t@)),
{
    let ghost views = tags@.map_values(|t: String| t@);
    let mut out = String::new();
    let n = tags.len();
    let mut i: usize = 0;
    while i < n
        invariant
            n == tags@.len(),
            views == tags@.map_values(|t: String| t@),
            i <= n,
            out@ == spec_tag_list(views.take(i as int)),
        decreases n - i,
    {
        let ghost before = out@;
        if i > 0 {
            out.append("|");
        }
        out.append(tags[i].as_str());
        proof {
            let t = views.take(i + 1);
            assert(t.drop_last() =~= views.take(i as int));
            assert(t.last() == tags@[i as int]@);
            reveal_strlit("|");
            if i > 0 {
                assert(out@ =~= before + seq!['|'] + tags@[i as int]@);
            } else {
                assert(t.len() == 1 && t[0] == tags@[0]@);
                assert(out@ =~= tags@[0]@);
            }
        }
        i += 1;
    }
    proof {
        assert(views.take(n as int) =~= views);
    }
    out
}

/// The name of the binding the derives give the field at position `i`.
pub fn synth_name(i: usize) -> (r: String)
    ensures
        r@ == "__f"@ + decimal(i as nat),
{
    let mut s = "__f".to_owned();
    let d = u64_to_string(i as u64);
    s.append(d.as_str());
    s
}

} // verus!
