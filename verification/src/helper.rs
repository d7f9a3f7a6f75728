//! Percent-escaping of key segments, decimal ids, and the UTF-8 plumbing
//! they need.
//!
//! All escaping works on the UTF-8 bytes of a string: every byte outside
//! `[A-Za-z0-9_]` becomes `%XX` in lowercase hex, so the separator `/` can
//! never appear inside an escaped segment.

use crate::error::KeyError;
use std::string::FromUtf8Error;
use vstd::prelude::*;
use vstd::utf8::*;

verus! {

/// `b` is copied verbatim by `escape`: an ASCII digit, letter or `_`.
pub open spec fn is_plain_byte(b: u8) -> bool {
    (0x30 <= b <= 0x39) || (0x41 <= b <= 0x5a) || (0x61 <= b <= 0x7a) || b == 0x5f
}

/// The lowercase hex digit of a value below 16.
pub open spec fn hex_digit(n: u8) -> u8 {
    if n < 10 {
        (0x30 + n) as u8
    } else {
        (0x61 + n - 10) as u8
    }
}

/// The value of a hex digit of either case.
pub open spec fn hex_value(b: u8) -> Option<u8> {
    if 0x30 <= b <= 0x39 {
        Some((b - 0x30) as u8)
    } else if 0x61 <= b <= 0x66 {
        Some((b - 0x61 + 10) as u8)
    } else if 0x41 <= b <= 0x46 {
        Some((b - 0x41 + 10) as u8)
    } else {
        None
    }
}

/// `%XX`: the escaped form of one byte.
pub open spec fn percent_byte(b: u8) -> Seq<u8> {
    seq![0x25u8, hex_digit(b / 16), hex_digit(b % 16)]
}

/// The bytes `escape` produces from the bytes `bs`.
pub open spec fn escape_bytes(bs: Seq<u8>) -> Seq<u8>
    decreases bs.len(),
{
    if bs.len() == 0 {
        Seq::empty()
    } else {
        (if is_plain_byte(bs[0]) {
            seq![bs[0]]
        } else {
            percent_byte(bs[0])
        }) + escape_bytes(bs.drop_first())
    }
}

/// The bytes `escape_specified` produces: only bytes in `special` are escaped.
pub open spec fn escape_specified_bytes(bs: Seq<u8>, special: Seq<u8>) -> Seq<u8>
    decreases bs.len(),
{
    if bs.len() == 0 {
        Seq::empty()
    } else {
        (if special.contains(bs[0]) {
            percent_byte(bs[0])
        } else {
            seq![bs[0]]
        }) + escape_specified_bytes(bs.drop_first(), special)
    }
}

/// The characters of a sequence of ASCII bytes.
pub open spec fn ascii_chars(bs: Seq<u8>) -> Seq<char> {
    Seq::new(bs.len(), |i: int| bs[i] as char)
}

/// Every byte is below 0x80.
pub open spec fn all_ascii(bs: Seq<u8>) -> bool {
    forall|i: int| 0 <= i < bs.len() ==> bs[i] < 0x80
}

/// The escaped form of a string.
pub open spec fn spec_escape(s: Seq<char>) -> Seq<char> {
    ascii_chars(escape_bytes(encode_utf8(s)))
}

/// Decoding of `%XX` escapes: the unescaped bytes, or the byte offset of the
/// first `%` that does not start a complete escape of two hex digits.
pub open spec fn unescape_bytes(bs: Seq<u8>) -> Result<Seq<u8>, int>
    decreases bs.len(),
{
    if bs.len() == 0 {
        Ok(Seq::empty())
    } else if bs[0] == 0x25 {
        if bs.len() < 3 {
            Err(0)
        } else {
            match (hex_value(bs[1]), hex_value(bs[2])) {
                (Some(hi), Some(lo)) => match unescape_bytes(bs.skip(3)) {
                    Ok(rest) => Ok(seq![(hi * 16 + lo) as u8] + rest),
                    Err(p) => Err(p + 3),
                },
                _ => Err(0),
            }
        }
    } else {
        match unescape_bytes(bs.skip(1)) {
            Ok(rest) => Ok(seq![bs[0]] + rest),
            Err(p) => Err(p + 1),
        }
    }
}

/// Decoding of only those `%XX` escapes whose byte is in `special`;
/// everything else, incomplete or malformed escapes included, is kept.
pub open spec fn unescape_specified_bytes(bs: Seq<u8>, special: Seq<u8>) -> Seq<u8>
    decreases bs.len(),
{
    if bs.len() == 0 {
        Seq::empty()
    } else if bs[0] == 0x25 && bs.len() >= 3 {
        (match (hex_value(bs[1]), hex_value(bs[2])) {
            (Some(hi), Some(lo)) => if special.contains((hi * 16 + lo) as u8) {
                seq![(hi * 16 + lo) as u8]
            } else {
                bs.take(3)
            },
            _ => bs.take(3),
        }) + unescape_specified_bytes(bs.skip(3), special)
    } else {
        seq![bs[0]] + unescape_specified_bytes(bs.skip(1), special)
    }
}

/// The result of unescaping the rest of the input, after `out` was produced
/// from its first `at` bytes.
pub open spec fn after_prefix(out: Seq<u8>, at: int, r: Result<Seq<u8>, int>) -> Result<
    Seq<u8>,
    int,
> {
    match r {
        Ok(rest) => Ok(out + rest),
        Err(p) => Err(p + at),
    }
}

/// The string `unescape` returns for `s`, when it returns one.
pub open spec fn spec_unescape(s: Seq<char>) -> Option<Seq<char>> {
    match unescape_bytes(encode_utf8(s)) {
        Ok(out) => if valid_utf8(out) {
            Some(decode_utf8(out))
        } else {
            None
        },
        Err(_) => None,
    }
}

/// `r` is what `unescape` returns for `s`.
pub open spec fn unescape_outcome(s: Seq<char>, r: Result<String, KeyError>) -> bool {
    match unescape_bytes(encode_utf8(s)) {
        Err(p) => r matches Err(KeyError::InvalidEscape { pos, input }) && pos == p && input@ == s,
        Ok(out) => if valid_utf8(out) {
            r matches Ok(t) && t@ == decode_utf8(out)
        } else {
            r matches Err(KeyError::FromUtf8Error(_))
        },
    }
}

/// Why a string is not a decimal `u64`, as `str::parse::<u64>` classifies it.
pub enum IdFailure {
    Empty,
    InvalidDigit,
    Overflow,
}

/// Left-to-right scan of decimal digits onto the accumulated value `acc`.
pub open spec fn scan_digits(d: Seq<u8>, acc: nat) -> Result<nat, IdFailure>
    decreases d.len(),
{
    if d.len() == 0 {
        Ok(acc)
    } else if !(0x30 <= d[0] <= 0x39) {
        Err(IdFailure::InvalidDigit)
    } else if acc * 10 + (d[0] - 0x30) > u64::MAX {
        Err(IdFailure::Overflow)
    } else {
        scan_digits(d.skip(1), (acc * 10 + (d[0] - 0x30)) as nat)
    }
}

/// A decimal `u64`: an optional `+` followed by digits, at most `u64::MAX`.
pub open spec fn parse_decimal(b: Seq<u8>) -> Result<nat, IdFailure> {
    if b.len() == 0 {
        Err(IdFailure::Empty)
    } else if (b[0] == 0x2b || b[0] == 0x2d) && b.len() == 1 {
        Err(IdFailure::InvalidDigit)
    } else if b[0] == 0x2b {
        scan_digits(b.skip(1), 0)
    } else {
        scan_digits(b, 0)
    }
}

/// The message that accompanies each kind of failure.
pub open spec fn id_failure_reason(f: IdFailure) -> Seq<char> {
    match f {
        IdFailure::Empty => "cannot parse integer from empty string"@,
        IdFailure::InvalidDigit => "invalid digit found in string"@,
        IdFailure::Overflow => "number too large to fit in target type"@,
    }
}

/// `r` is what `decode_id` returns for `s`.
pub open spec fn decode_id_outcome(s: Seq<char>, r: Result<u64, KeyError>) -> bool {
    match parse_decimal(encode_utf8(s)) {
        Ok(n) => r == Ok::<u64, KeyError>(n as u64),
        Err(f) => r matches Err(KeyError::InvalidId { s: t, reason }) && t@ == s && reason@
            == id_failure_reason(f),
    }
}

/// The decimal digits of `n`, most significant first, with no leading zero.
pub open spec fn decimal_bytes(n: nat) -> Seq<u8>
    decreases n,
{
    if n < 10 {
        seq![(0x30 + n) as u8]
    } else {
        decimal_bytes(n / 10).push((0x30 + n % 10) as u8)
    }
}

/// The decimal representation of `n`.
pub open spec fn decimal(n: nat) -> Seq<char> {
    ascii_chars(decimal_bytes(n))
}

/// ASCII bytes are valid UTF-8 and decode to the characters with the same codes.
pub proof fn lemma_ascii_utf8(bs: Seq<u8>)
    requires
        all_ascii(bs),
    ensures
        valid_utf8(bs),
        decode_utf8(bs) == ascii_chars(bs),
        encode_utf8(ascii_chars(bs)) == bs,
{
    let cs = ascii_chars(bs);
    assert(is_ascii_chars(cs));
    is_ascii_chars_encode_utf8(cs);
    assert(encode_utf8(cs) =~= bs);
    encode_utf8_valid_utf8(cs);
    encode_utf8_decode_utf8(cs);
}

/// The escaped bytes are all digits, letters, `_` or `%`.
pub proof fn lemma_escape_bytes_charset(bs: Seq<u8>)
    ensures
        forall|i: int|
            0 <= i < escape_bytes(bs).len() ==> is_plain_byte(#[trigger] escape_bytes(bs)[i])
                || escape_bytes(bs)[i] == 0x25,
    decreases bs.len(),
{
    if bs.len() > 0 {
        lemma_escape_bytes_charset(bs.drop_first());
        let head = if is_plain_byte(bs[0]) {
            seq![bs[0]]
        } else {
            percent_byte(bs[0])
        };
        assert(escape_bytes(bs) == head + escape_bytes(bs.drop_first()));
        assert forall|i: int| 0 <= i < escape_bytes(bs).len() implies is_plain_byte(
            #[trigger] escape_bytes(bs)[i],
        ) || escape_bytes(bs)[i] == 0x25 by {
            if i >= head.len() {
                assert(escape_bytes(bs)[i] == escape_bytes(bs.drop_first())[i - head.len()]);
            }
        }
    }
}

/// Unescaping what `escape_bytes` produced gives back the original bytes.
pub proof fn lemma_unescape_escape_bytes(bs: Seq<u8>)
    ensures
        unescape_bytes(escape_bytes(bs)) == Ok::<Seq<u8>, int>(bs),
    decreases bs.len(),
{
    if bs.len() > 0 {
        let b = bs[0];
        let rest = escape_bytes(bs.drop_first());
        lemma_unescape_escape_bytes(bs.drop_first());
        assert(seq![b] + bs.drop_first() =~= bs);
        if is_plain_byte(b) {
            let e = seq![b] + rest;
            assert(escape_bytes(bs) == e);
            assert(e[0] == b);
            assert(e.skip(1) =~= rest);
            assert(unescape_bytes(e) == Ok::<Seq<u8>, int>(seq![b] + bs.drop_first()));
        } else {
            let e = percent_byte(b) + rest;
            assert(escape_bytes(bs) == e);
            assert(e[0] == 0x25 && e[1] == hex_digit(b / 16) && e[2] == hex_digit(b % 16));
            assert(e.skip(3) =~= rest);
            assert(hex_value(hex_digit(b / 16)) == Some((b / 16) as u8));
            assert(hex_value(hex_digit(b % 16)) == Some((b % 16) as u8));
            assert(((b / 16) as u8) * 16 + ((b % 16) as u8) == b);
            assert(unescape_bytes(e) == Ok::<Seq<u8>, int>(seq![b] + bs.drop_first()));
        }
    } else {
        assert(bs =~= Seq::<u8>::empty());
    }
}

/// When `%` itself is among the escaped bytes, unescaping the same bytes
/// undoes `escape_specified_bytes`.
pub proof fn lemma_unescape_escape_specified_bytes(bs: Seq<u8>, special: Seq<u8>)
    requires
        special.contains(0x25),
    ensures
        unescape_specified_bytes(escape_specified_bytes(bs, special), special) == bs,
    decreases bs.len(),
{
    if bs.len() > 0 {
        let b = bs[0];
        let rest = escape_specified_bytes(bs.drop_first(), special);
        lemma_unescape_escape_specified_bytes(bs.drop_first(), special);
        assert(seq![b] + bs.drop_first() =~= bs);
        if special.contains(b) {
            let e = percent_byte(b) + rest;
            assert(escape_specified_bytes(bs, special) == e);
            assert(e[0] == 0x25 && e[1] == hex_digit(b / 16) && e[2] == hex_digit(b % 16));
            assert(e.skip(3) =~= rest);
            assert(hex_value(hex_digit(b / 16)) == Some((b / 16) as u8));
            assert(hex_value(hex_digit(b % 16)) == Some((b % 16) as u8));
            assert(((b / 16) as u8) * 16 + ((b % 16) as u8) == b);
            assert(unescape_specified_bytes(e, special) == seq![b] + bs.drop_first());
        } else {
            let e = seq![b] + rest;
            assert(escape_specified_bytes(bs, special) == e);
            assert(e[0] == b);
            assert(b != 0x25);
            assert(e.skip(1) =~= rest);
            assert(unescape_specified_bytes(e, special) == seq![b] + bs.drop_first());
        }
    } else {
        assert(bs =~= Seq::<u8>::empty());
    }
}

/// When `%` is among the escaped bytes and escaping keeps the text valid
/// UTF-8, `unescape_specified` of `escape_specified` gives the string back.
pub proof fn lemma_specified_round_trip(s: Seq<char>, special: Seq<u8>)
    requires
        special.contains(0x25),
        valid_utf8(escape_specified_bytes(encode_utf8(s), special)),
    ensures
        ({
            let escaped = decode_utf8(escape_specified_bytes(encode_utf8(s), special));
            let out = unescape_specified_bytes(encode_utf8(escaped), special);
            valid_utf8(out) && decode_utf8(out) == s
        }),
{
    let e = escape_specified_bytes(encode_utf8(s), special);
    decode_utf8_encode_utf8(e);
    lemma_unescape_escape_specified_bytes(encode_utf8(s), special);
    encode_utf8_valid_utf8(s);
    encode_utf8_decode_utf8(s);
}

/// Escaping the bytes of a concatenation escapes each part.
pub proof fn lemma_escape_specified_append(a: Seq<u8>, b: Seq<u8>, special: Seq<u8>)
    ensures
        escape_specified_bytes(a + b, special) == escape_specified_bytes(a, special)
            + escape_specified_bytes(b, special),
    decreases a.len(),
{
    if a.len() == 0 {
        assert(a + b =~= b);
    } else {
        lemma_escape_specified_append(a.drop_first(), b, special);
        assert((a + b).drop_first() =~= a.drop_first() + b);
        assert((a + b)[0] == a[0]);
    }
}

/// Bytes that are all in the upper half are left alone by an escape of
/// ASCII bytes only.
proof fn lemma_escape_specified_high(bs: Seq<u8>, special: Seq<u8>)
    requires
        all_ascii(special),
        forall|i: int| 0 <= i < bs.len() ==> bs[i] >= 0x80,
    ensures
        escape_specified_bytes(bs, special) == bs,
    decreases bs.len(),
{
    if bs.len() > 0 {
        if special.contains(bs[0]) {
            let j = choose|j: int| 0 <= j < special.len() && special[j] == bs[0];
            assert(special[j] < 0x80);
        }
        lemma_escape_specified_high(bs.drop_first(), special);
        assert(seq![bs[0]] + bs.drop_first() =~= bs);
    }
}

/// The bytes of every `%XX` are ASCII.
proof fn lemma_percent_byte_ascii(b: u8)
    ensures
        all_ascii(percent_byte(b)),
{
}

/// The byte ORs that start and continue multi-byte UTF-8 sequences are in
/// the upper half.
proof fn lemma_high_bytes(x: u8)
    by (bit_vector)
    ensures
        (0x80u8 | x) >= 0x80,
        (0xC0u8 | x) >= 0x80,
        (0xE0u8 | x) >= 0x80,
        (0xF0u8 | x) >= 0x80,
{
}

/// The single byte of a one-byte UTF-8 encoding is ASCII.
proof fn lemma_low_byte(v: u32)
    by (bit_vector)
    ensures
        ((v & 0x7F) as u8) < 0x80,
{
}

/// Escaping ASCII bytes in the encoding of one character leaves valid UTF-8.
proof fn lemma_escape_specified_char(c: char, special: Seq<u8>)
    requires
        all_ascii(special),
    ensures
        valid_utf8(escape_specified_bytes(encode_scalar(c as u32), special)),
{
    let v = c as u32;
    let e = encode_scalar(v);
    char_is_scalar(c);
    assert(encode_utf8(seq![c]) == e) by {
        assert(seq![c].drop_first() =~= Seq::<char>::empty());
        assert(encode_utf8(Seq::<char>::empty()) == Seq::<u8>::empty());
        assert(seq![c][0] == c);
        assert(e + Seq::<u8>::empty() =~= e);
    }
    encode_utf8_valid_utf8(seq![c]);
    if has_width_1_encoding(v) {
        let b = (v & 0x7F) as u8;
        lemma_low_byte(v);
        assert(e == seq![b]);
        assert(seq![b].drop_first() =~= Seq::<u8>::empty());
        assert(escape_specified_bytes(Seq::<u8>::empty(), special) == Seq::<u8>::empty());
        assert(e[0] == b);
        assert(escape_specified_bytes(e, special) == (if special.contains(b) {
            percent_byte(b)
        } else {
            seq![b]
        }) + escape_specified_bytes(e.drop_first(), special));
        if special.contains(b) {
            assert(escape_specified_bytes(e, special) =~= percent_byte(b));
            lemma_percent_byte_ascii(b);
            lemma_ascii_utf8(percent_byte(b));
        } else {
            assert(escape_specified_bytes(e, special) =~= e);
        }
    } else {
        lemma_high_bytes(((v >> 6) & 0x1F) as u8);
        lemma_high_bytes(((v >> 12) & 0x0F) as u8);
        lemma_high_bytes(((v >> 18) & 0x7) as u8);
        lemma_high_bytes((v & 0x3F) as u8);
        lemma_high_bytes(((v >> 6) & 0x3F) as u8);
        lemma_high_bytes(((v >> 12) & 0x3F) as u8);
        assert forall|i: int| 0 <= i < e.len() implies e[i] >= 0x80 by {}
        lemma_escape_specified_high(e, special);
    }
}

/// Escaping only ASCII bytes keeps a string valid UTF-8: whatever the
/// string, `escape_specified` with such `chars` meets its precondition.
pub proof fn lemma_escape_specified_ascii(s: Seq<char>, special: Seq<u8>)
    requires
        all_ascii(special),
    ensures
        valid_utf8(escape_specified_bytes(encode_utf8(s), special)),
    decreases s.len(),
{
    if s.len() == 0 {
        encode_utf8_valid_utf8(s);
    } else {
        let head = encode_scalar(s[0] as u32);
        let rest = encode_utf8(s.drop_first());
        assert(encode_utf8(s) == head + rest);
        lemma_escape_specified_append(head, rest, special);
        lemma_escape_specified_char(s[0], special);
        lemma_escape_specified_ascii(s.drop_first(), special);
        valid_utf8_concat(
            escape_specified_bytes(head, special),
            escape_specified_bytes(rest, special),
        );
    }
}

/// With `%` among ASCII-only `chars`, `unescape_specified` of
/// `escape_specified` gives the string back.
pub proof fn lemma_specified_round_trip_ascii(s: Seq<char>, special: Seq<u8>)
    requires
        special.contains(0x25),
        all_ascii(special),
    ensures
        valid_utf8(escape_specified_bytes(encode_utf8(s), special)),
        ({
            let escaped = decode_utf8(escape_specified_bytes(encode_utf8(s), special));
            let out = unescape_specified_bytes(encode_utf8(escaped), special);
            valid_utf8(out) && decode_utf8(out) == s
        }),
{
    lemma_escape_specified_ascii(s, special);
    lemma_specified_round_trip(s, special);
}

/// The escaped form of a string is ASCII, free of `/`, non-empty when the
/// string is, and unescapes to the string.
pub proof fn lemma_escape_round_trip(s: Seq<char>)
    ensures
        spec_unescape(spec_escape(s)) == Some(s),
        crate::segments::free_of_separator(spec_escape(s)),
        s.len() > 0 ==> spec_escape(s).len() > 0,
{
    let bytes = encode_utf8(s);
    let e = escape_bytes(bytes);
    lemma_escape_bytes_charset(bytes);
    assert(all_ascii(e)) by {
        assert forall|i: int| 0 <= i < e.len() implies e[i] < 0x80 by {
            assert(is_plain_byte(e[i]) || e[i] == 0x25);
        }
    }
    lemma_ascii_utf8(e);
    lemma_unescape_escape_bytes(bytes);
    encode_utf8_valid_utf8(s);
    encode_utf8_decode_utf8(s);
    if spec_escape(s).contains('/') {
        let i = choose|i: int| 0 <= i < spec_escape(s).len() && spec_escape(s)[i] == '/';
        assert(is_plain_byte(e[i]) || e[i] == 0x25);
        assert((e[i] as char) == '/');
    }
    if s.len() > 0 {
        assert(bytes.len() > 0) by {
            assert(encode_utf8(s) == encode_scalar(s[0] as u32) + encode_utf8(s.drop_first()));
        }
        let head = if is_plain_byte(bytes[0]) {
            seq![bytes[0]]
        } else {
            percent_byte(bytes[0])
        };
        assert(e == head + escape_bytes(bytes.drop_first()));
    }
}

/// Digits scanned in two parts: the second part continues from the value of the first.
pub proof fn lemma_scan_digits_append(a: Seq<u8>, b: Seq<u8>, acc: nat)
    ensures
        scan_digits(a + b, acc) == (match scan_digits(a, acc) {
            Ok(v) => scan_digits(b, v),
            Err(e) => Err(e),
        }),
    decreases a.len(),
{
    if a.len() > 0 {
        assert((a + b).skip(1) =~= a.skip(1) + b);
        assert((a + b)[0] == a[0]);
        if 0x30 <= a[0] <= 0x39 && acc * 10 + (a[0] - 0x30) <= u64::MAX {
            lemma_scan_digits_append(a.skip(1), b, (acc * 10 + (a[0] - 0x30)) as nat);
        }
    } else {
        assert(a + b =~= b);
    }
}

/// The decimal form of a `u64` scans back to the same number.
pub proof fn lemma_scan_decimal(n: nat)
    requires
        n <= u64::MAX,
    ensures
        scan_digits(decimal_bytes(n), 0) == Ok::<nat, IdFailure>(n),
        decimal_bytes(n).len() > 0,
        0x30 <= decimal_bytes(n)[0] <= 0x39,
        all_ascii(decimal_bytes(n)),
    decreases n,
{
    if n < 10 {
        let d = decimal_bytes(n);
        assert(d.skip(1).len() == 0);
        assert(scan_digits(d.skip(1), n) == Ok::<nat, IdFailure>(n));
    } else {
        lemma_scan_decimal(n / 10);
        let d = (0x30 + n % 10) as u8;
        lemma_scan_digits_append(decimal_bytes(n / 10), seq![d], 0);
        assert(seq![d].skip(1).len() == 0);
        assert((n / 10) * 10 + n % 10 == n);
        assert(scan_digits(seq![d].skip(1), n) == Ok::<nat, IdFailure>(n));
        assert(scan_digits(seq![d], n / 10) == Ok::<nat, IdFailure>(n));
        assert(decimal_bytes(n) == decimal_bytes(n / 10) + seq![d]);
        assert(decimal_bytes(n)[0] == decimal_bytes(n / 10)[0]);
        assert forall|i: int| 0 <= i < decimal_bytes(n).len() implies decimal_bytes(n)[i] < 0x80 by {
            if i < decimal_bytes(n / 10).len() {
                assert(decimal_bytes(n)[i] == decimal_bytes(n / 10)[i]);
            }
        }
    }
}

/// A scan that starts below `u64::MAX` and succeeds ends below it.
pub proof fn lemma_scan_digits_bound(d: Seq<u8>, acc: nat)
    requires
        acc <= u64::MAX,
    ensures
        scan_digits(d, acc) matches Ok(v) ==> v <= u64::MAX,
    decreases d.len(),
{
    if d.len() > 0 && 0x30 <= d[0] <= 0x39 && acc * 10 + (d[0] - 0x30) <= u64::MAX {
        lemma_scan_digits_bound(d.skip(1), (acc * 10 + (d[0] - 0x30)) as nat);
    }
}

/// A parsed decimal id fits in a `u64`.
pub proof fn lemma_parse_decimal_bound(b: Seq<u8>)
    ensures
        parse_decimal(b) matches Ok(v) ==> v <= u64::MAX,
{
    lemma_scan_digits_bound(b, 0);
    if b.len() > 0 {
        lemma_scan_digits_bound(b.skip(1), 0);
    }
}

/// The decimal form of a `u64` parses back to the same number.
pub proof fn lemma_parse_decimal(n: u64)
    ensures
        parse_decimal(encode_utf8(decimal(n as nat))) == Ok::<nat, IdFailure>(n as nat),
        encode_utf8(decimal(n as nat)) == decimal_bytes(n as nat),
        decimal(n as nat).len() > 0,
        !decimal(n as nat).contains('/'),
{
    lemma_scan_decimal(n as nat);
    lemma_ascii_utf8(decimal_bytes(n as nat));
    let ds = decimal_bytes(n as nat);
    if decimal(n as nat).contains('/') {
        let i = choose|i: int| 0 <= i < decimal(n as nat).len() && decimal(n as nat)[i] == '/';
        lemma_decimal_digits(n as nat, i);
    }
}

/// Escaping works byte by byte: the escape of a concatenation is the
/// concatenation of the escapes.
pub proof fn lemma_escape_bytes_append(a: Seq<u8>, b: Seq<u8>)
    ensures
        escape_bytes(a + b) == escape_bytes(a) + escape_bytes(b),
    decreases a.len(),
{
    if a.len() == 0 {
        assert(a + b =~= b);
    } else {
        lemma_escape_bytes_append(a.drop_first(), b);
        assert((a + b).drop_first() =~= a.drop_first() + b);
        assert((a + b)[0] == a[0]);
    }
}

/// How one byte is escaped: an ASCII digit, letter or `_` is copied, any
/// other byte becomes `%` and its two lowercase hex digits.
pub proof fn lemma_escape_byte(b: u8)
    ensures
        (0x30 <= b <= 0x39) || (0x41 <= b <= 0x5a) || (0x61 <= b <= 0x7a) || b == 0x5f
            ==> escape_bytes(seq![b]) == seq![b],
        !((0x30 <= b <= 0x39) || (0x41 <= b <= 0x5a) || (0x61 <= b <= 0x7a) || b == 0x5f)
            ==> escape_bytes(seq![b]) == seq![
            0x25u8,
            (if b / 16 < 10 { 0x30 + b / 16 } else { 0x57 + b / 16 }) as u8,
            (if b % 16 < 10 { 0x30 + b % 16 } else { 0x57 + b % 16 }) as u8,
        ],
{
    assert(seq![b].drop_first() =~= Seq::<u8>::empty());
    assert(escape_bytes(Seq::<u8>::empty()) == Seq::<u8>::empty());
    assert(seq![b][0] == b);
    assert(seq![b] + Seq::<u8>::empty() =~= seq![b]);
    assert(percent_byte(b) + Seq::<u8>::empty() =~= percent_byte(b));
}

/// Bytes that are all ASCII digits, letters or `_` escape to themselves.
proof fn lemma_escape_bytes_plain(bs: Seq<u8>)
    requires
        forall|i: int|
            0 <= i < bs.len() ==> (0x30 <= #[trigger] bs[i] <= 0x39) || (0x41 <= bs[i] <= 0x5a)
                || (0x61 <= bs[i] <= 0x7a) || bs[i] == 0x5f,
    ensures
        escape_bytes(bs) == bs,
    decreases bs.len(),
{
    if bs.len() > 0 {
        lemma_escape_bytes_plain(bs.drop_first());
        assert(seq![bs[0]] + bs.drop_first() =~= bs);
    }
}

/// A string made only of ASCII letters, digits and `_` is its own escaped
/// form: such a `String` field is written into a key unchanged.
pub proof fn lemma_escape_plain_string(s: Seq<char>)
    requires
        forall|i: int|
            0 <= i < s.len() ==> (0x30 <= (#[trigger] s[i] as u32) <= 0x39) || (0x41 <= (
            s[i] as u32) <= 0x5a) || (0x61 <= (s[i] as u32) <= 0x7a) || (s[i] as u32) == 0x5f,
    ensures
        spec_escape(s) == s,
{
    let bs = Seq::new(s.len(), |i: int| (s[i] as u32) as u8);
    assert forall|i: int| 0 <= i < bs.len() implies (0x30 <= #[trigger] bs[i] <= 0x39) || (0x41
        <= bs[i] <= 0x5a) || (0x61 <= bs[i] <= 0x7a) || bs[i] == 0x5f by {
        assert((s[i] as u32) < 0x80);
    }
    assert(ascii_chars(bs) =~= s) by {
        assert forall|i: int| 0 <= i < s.len() implies ascii_chars(bs)[i] == s[i] by {
            char_u32_cast(s[i], s[i] as u32);
            assert((s[i] as u32) < 0x80);
            assert(bs[i] as u32 == s[i] as u32);
        }
    }
    assert(all_ascii(bs));
    lemma_ascii_utf8(bs);
    lemma_escape_bytes_plain(bs);
}

/// `%` and two hex digits of either case decode to the byte they name: for
/// every byte, its uppercase escape and its lowercase escape both unescape
/// to it.
pub proof fn lemma_unescape_hex_cases(b: u8)
    ensures
        unescape_bytes(
            seq![
                0x25u8,
                (if b / 16 < 10 { 0x30 + b / 16 } else { 0x37 + b / 16 }) as u8,
                (if b % 16 < 10 { 0x30 + b % 16 } else { 0x37 + b % 16 }) as u8,
            ],
        ) == Ok::<Seq<u8>, int>(seq![b]),
        unescape_bytes(
            seq![
                0x25u8,
                (if b / 16 < 10 { 0x30 + b / 16 } else { 0x57 + b / 16 }) as u8,
                (if b % 16 < 10 { 0x30 + b % 16 } else { 0x57 + b % 16 }) as u8,
            ],
        ) == Ok::<Seq<u8>, int>(seq![b]),
{
    let hi = b / 16;
    let lo = b % 16;
    assert(hi * 16 + lo == b);
    let up = seq![
        0x25u8,
        (if hi < 10 { 0x30 + hi } else { 0x37 + hi }) as u8,
        (if lo < 10 { 0x30 + lo } else { 0x37 + lo }) as u8,
    ];
    let low = seq![
        0x25u8,
        (if hi < 10 { 0x30 + hi } else { 0x57 + hi }) as u8,
        (if lo < 10 { 0x30 + lo } else { 0x57 + lo }) as u8,
    ];
    assert(up.skip(3) =~= Seq::<u8>::empty());
    assert(low.skip(3) =~= Seq::<u8>::empty());
    assert(unescape_bytes(Seq::<u8>::empty()) == Ok::<Seq<u8>, int>(Seq::empty()));
    assert(hex_value(up[1]) == Some(hi as u8));
    assert(hex_value(up[2]) == Some(lo as u8));
    assert(hex_value(low[1]) == Some(hi as u8));
    assert(hex_value(low[2]) == Some(lo as u8));
    assert(((hi as u8) * 16 + (lo as u8)) as u8 == b);
    assert(seq![b] + Seq::<u8>::empty() =~= seq![b]);
}

/// The first digit of a decimal representation is the first digit of that
/// of the number without its last digit.
proof fn lemma_decimal_first(n: nat)
    ensures
        decimal_bytes(n).len() >= 1,
        n > 0 ==> decimal_bytes(n)[0] != 0x30,
    decreases n,
{
    if n >= 10 {
        lemma_decimal_first(n / 10);
        assert(decimal_bytes(n)[0] == decimal_bytes(n / 10)[0]);
    }
}

/// The decimal form of a number is its canonical one: a non-empty run of
/// digits that parses back to the number, with no leading zero except for
/// zero itself, which is the single digit `0`.
pub proof fn lemma_decimal_canonical(n: u64)
    ensures
        decimal_bytes(n as nat).len() >= 1,
        forall|i: int|
            0 <= i < decimal_bytes(n as nat).len() ==> 0x30 <= #[trigger] decimal_bytes(
                n as nat,
            )[i] <= 0x39,
        n > 0 ==> decimal_bytes(n as nat)[0] != 0x30,
        n == 0 ==> decimal_bytes(n as nat) == seq![0x30u8],
        parse_decimal(decimal_bytes(n as nat)) == Ok::<nat, IdFailure>(n as nat),
        decimal(n as nat) == ascii_chars(decimal_bytes(n as nat)),
{
    lemma_decimal_first(n as nat);
    assert forall|i: int| 0 <= i < decimal_bytes(n as nat).len() implies 0x30
        <= #[trigger] decimal_bytes(n as nat)[i] <= 0x39 by {
        lemma_decimal_digits(n as nat, i);
    }
    lemma_parse_decimal(n);
}

/// Every byte of a decimal representation is a digit.
pub proof fn lemma_decimal_digits(n: nat, i: int)
    requires
        0 <= i < decimal_bytes(n).len(),
    ensures
        0x30 <= decimal_bytes(n)[i] <= 0x39,
    decreases n,
{
    if n >= 10 && i < decimal_bytes(n / 10).len() {
        lemma_decimal_digits(n / 10, i);
    }
}

/// `String::from_utf8`: succeeds exactly on valid UTF-8, with the decoded characters.
#[verifier::external_body]
fn string_from_utf8(bytes: Vec<u8>) -> (r: Result<String, FromUtf8Error>)
    ensures
        r is Ok <==> valid_utf8(bytes@),
        r matches Ok(s) ==> s@ == decode_utf8(bytes@),
{
    String::from_utf8(bytes)
}

/// The string of bytes already known to be valid UTF-8.
pub(crate) fn string_from_valid_utf8(bytes: Vec<u8>) -> (r: String)
    requires
        valid_utf8(bytes@),
    ensures
        r@ == decode_utf8(bytes@),
{
    match string_from_utf8(bytes) {
        Ok(s) => s,
        Err(_) => {
            proof {
                assert(false);
            }
            String::new()
        },
    }
}

/// The string of ASCII bytes.
pub(crate) fn string_from_ascii(bytes: Vec<u8>) -> (r: String)
    requires
        all_ascii(bytes@),
    ensures
        r@ == ascii_chars(bytes@),
{
    proof {
        lemma_ascii_utf8(bytes@);
    }
    string_from_valid_utf8(bytes)
}

/// Encode a value below 16 as a lowercase hex digit.
fn hex(num: u8) -> (r: u8)
    requires
        num < 16,
    ensures
        r == hex_digit(num),
{
    if num <= 9 {
        0x30 + num
    } else {
        0x61 + (num - 10)
    }
}

/// Convert a hex digit of either case to its value.
fn unhex(num: u8) -> (r: Option<u8>)
    ensures
        r == hex_value(num),
{
    if 0x30 <= num && num <= 0x39 {
        Some(num - 0x30)
    } else if 0x61 <= num && num <= 0x66 {
        Some(num - 0x61 + 10)
    } else if 0x41 <= num && num <= 0x46 {
        Some(num - 0x41 + 10)
    } else {
        None
    }
}

/// Whether `set` holds `b`.
fn contains_byte(set: &[u8], b: u8) -> (r: bool)
    ensures
        r == set@.contains(b),
{
    let mut i: usize = 0;
    while i < set.len()
        invariant
            i <= set@.len(),
            forall|j: int| 0 <= j < i ==> set@[j] != b,
        decreases set@.len() - i,
    {
        if set[i] == b {
            return true;
        }
        i += 1;
    }
    false
}

/// Append `%XX` for `b`.
fn push_percent(out: &mut Vec<u8>, b: u8)
    ensures
        final(out)@ == old(out)@ + percent_byte(b),
{
    out.push(0x25);
    out.push(hex(b / 16));
    out.push(hex(b % 16));
    proof {
        assert(final(out)@ =~= old(out)@ + percent_byte(b));
    }
}

/// Escape every byte outside `[A-Za-z0-9_]` as `%XX` (lowercase hex).
pub fn escape(key: &str) -> (r: String)
    ensures
        r@ == spec_escape(key@),
{
    let bytes = key.as_bytes();
    let mut new_key: Vec<u8> = Vec::with_capacity(bytes.len());
    let mut i: usize = 0;
    proof {
        assert(bytes@.skip(0) =~= bytes@);
    }
    while i < bytes.len()
        invariant
            bytes@ == encode_utf8(key@),
            i <= bytes@.len(),
            escape_bytes(bytes@) == new_key@ + escape_bytes(bytes@.skip(i as int)),
            all_ascii(new_key@),
        decreases bytes@.len() - i,
    {
        let c = bytes[i];
        let ghost before = new_key@;
        proof {
            assert(bytes@.skip(i as int).drop_first() =~= bytes@.skip(i + 1));
            assert(bytes@.skip(i as int)[0] == c);
        }
        if (0x30 <= c && c <= 0x39) || c == 0x5f || (0x61 <= c && c <= 0x7a) || (0x41 <= c && c
            <= 0x5a) {
            new_key.push(c);
            proof {
                assert(new_key@ =~= before + seq![c]);
            }
        } else {
            push_percent(&mut new_key, c);
        }
        i += 1;
        proof {
            assert(escape_bytes(bytes@) =~= new_key@ + escape_bytes(bytes@.skip(i as int)));
        }
    }
    proof {
        assert(bytes@.skip(i as int).len() == 0);
        assert(new_key@ =~= escape_bytes(bytes@));
    }
    string_from_ascii(new_key)
}

/// Escape only the bytes listed in `chars`, as `%XX` (lowercase hex).
///
/// Escaping a byte of a multi-byte character breaks its UTF-8 encoding, so
/// the result must be valid UTF-8 for the call to be defined; when every byte
/// of `chars` is ASCII it always is (`lemma_escape_specified_ascii`).
pub fn escape_specified(key: &str, chars: &[u8]) -> (r: String)
    requires
        valid_utf8(escape_specified_bytes(encode_utf8(key@), chars@)),
    ensures
        r@ == decode_utf8(escape_specified_bytes(encode_utf8(key@), chars@)),
{
    let bytes = key.as_bytes();
    let mut new_key: Vec<u8> = Vec::with_capacity(bytes.len());
    let mut i: usize = 0;
    proof {
        assert(bytes@.skip(0) =~= bytes@);
    }
    while i < bytes.len()
        invariant
            bytes@ == encode_utf8(key@),
            i <= bytes@.len(),
            escape_specified_bytes(bytes@, chars@) == new_key@ + escape_specified_bytes(
                bytes@.skip(i as int),
                chars@,
            ),
        decreases bytes@.len() - i,
    {
        let c = bytes[i];
        let ghost before = new_key@;
        proof {
            assert(bytes@.skip(i as int).drop_first() =~= bytes@.skip(i + 1));
            assert(bytes@.skip(i as int)[0] == c);
        }
        if contains_byte(chars, c) {
            push_percent(&mut new_key, c);
        } else {
            new_key.push(c);
            proof {
                assert(new_key@ =~= before + seq![c]);
            }
        }
        i += 1;
        proof {
            assert(escape_specified_bytes(bytes@, chars@) =~= new_key@ + escape_specified_bytes(
                bytes@.skip(i as int),
                chars@,
            ));
        }
    }
    proof {
        assert(bytes@.skip(i as int).len() == 0);
        assert(new_key@ =~= escape_specified_bytes(bytes@, chars@));
    }
    string_from_valid_utf8(new_key)
}

/// The error for a `%` at byte `pos` of `key` that starts no valid escape.
fn invalid_escape(key: &str, pos: usize) -> (e: KeyError)
    ensures
        e matches KeyError::InvalidEscape { pos: p, input } && p == pos && input@ == key@,
{
    KeyError::InvalidEscape { pos, input: key.to_owned() }
}

/// Decode every `%XX` escape; the reverse of `escape`.
pub fn unescape(key: &str) -> (r: Result<String, KeyError>)
    ensures
        unescape_outcome(key@, r),
{
    let bytes = key.as_bytes();
    let mut new_key: Vec<u8> = Vec::with_capacity(bytes.len());
    let mut index: usize = 0;
    proof {
        assert(bytes@.skip(0) =~= bytes@);
        assert(new_key@ + Seq::<u8>::empty() =~= Seq::<u8>::empty());
    }
    while index < bytes.len()
        invariant
            bytes@ == encode_utf8(key@),
            index <= bytes@.len(),
            unescape_bytes(bytes@) == after_prefix(
                new_key@,
                index as int,
                unescape_bytes(bytes@.skip(index as int)),
            ),
        decreases bytes@.len() - index,
    {
        let ghost rest = bytes@.skip(index as int);
        let ghost before = new_key@;
        proof {
            assert(rest[0] == bytes@[index as int]);
        }
        if bytes[index] == 0x25 {
            if bytes.len() - index <= 2 {
                return Err(invalid_escape(key, index));
            }
            proof {
                assert(rest[1] == bytes@[index + 1]);
                assert(rest[2] == bytes@[index + 2]);
            }
            let hi = match unhex(bytes[index + 1]) {
                Some(h) => h,
                None => {
                    return Err(invalid_escape(key, index));
                },
            };
            let lo = match unhex(bytes[index + 2]) {
                Some(l) => l,
                None => {
                    return Err(invalid_escape(key, index));
                },
            };
            new_key.push(hi * 16 + lo);
            proof {
                assert(rest.skip(3) =~= bytes@.skip(index + 3));
                assert(new_key@ =~= before + seq![(hi * 16 + lo) as u8]);
                match unescape_bytes(rest.skip(3)) {
                    Ok(tail) => {
                        assert(before + (seq![(hi * 16 + lo) as u8] + tail) =~= new_key@ + tail);
                    },
                    Err(_) => {},
                }
            }
            index += 3;
        } else {
            new_key.push(bytes[index]);
            proof {
                assert(rest.skip(1) =~= bytes@.skip(index + 1));
                assert(new_key@ =~= before + seq![rest[0]]);
                match unescape_bytes(rest.skip(1)) {
                    Ok(tail) => {
                        assert(before + (seq![rest[0]] + tail) =~= new_key@ + tail);
                    },
                    Err(_) => {},
                }
            }
            index += 1;
        }
    }
    proof {
        assert(bytes@.skip(index as int).len() == 0);
        assert(new_key@ + Seq::<u8>::empty() =~= new_key@);
    }
    match string_from_utf8(new_key) {
        Ok(s) => Ok(s),
        Err(e) => Err(KeyError::FromUtf8Error(e)),
    }
}

/// Append the first three bytes of `bytes` from `index` on.
fn push_three(out: &mut Vec<u8>, bytes: &[u8], index: usize)
    requires
        index + 3 <= bytes@.len(),
    ensures
        final(out)@ == old(out)@ + bytes@.skip(index as int).take(3),
{
    out.push(bytes[index]);
    out.push(bytes[index + 1]);
    out.push(bytes[index + 2]);
    proof {
        assert(final(out)@ =~= old(out)@ + bytes@.skip(index as int).take(3));
    }
}

/// Decode only the `%XX` escapes whose byte is listed in `chars`; malformed
/// or incomplete escapes are kept as they are.
pub fn unescape_specified(key: &str, chars: &[u8]) -> (r: Result<String, KeyError>)
    ensures
        valid_utf8(unescape_specified_bytes(encode_utf8(key@), chars@)) ==> (r matches Ok(s) && s@
            == decode_utf8(unescape_specified_bytes(encode_utf8(key@), chars@))),
        !valid_utf8(unescape_specified_bytes(encode_utf8(key@), chars@)) ==> r matches Err(
            KeyError::FromUtf8Error(_),
        ),
{
    let bytes = key.as_bytes();
    let mut new_key: Vec<u8> = Vec::with_capacity(bytes.len());
    let mut index: usize = 0;
    proof {
        assert(bytes@.skip(0) =~= bytes@);
    }
    while index < bytes.len()
        invariant
            bytes@ == encode_utf8(key@),
            index <= bytes@.len(),
            unescape_specified_bytes(bytes@, chars@) == new_key@ + unescape_specified_bytes(
                bytes@.skip(index as int),
                chars@,
            ),
        decreases bytes@.len() - index,
    {
        let ghost rest = bytes@.skip(index as int);
        let ghost before = new_key@;
        proof {
            assert(rest[0] == bytes@[index as int]);
        }
        if bytes[index] == 0x25 {
            if bytes.len() - index > 2 {
                proof {
                    assert(rest[1] == bytes@[index + 1]);
                    assert(rest[2] == bytes@[index + 2]);
                    assert(rest.skip(3) =~= bytes@.skip(index + 3));
                }
                let hi = unhex(bytes[index + 1]);
                let lo = unhex(bytes[index + 2]);
                match (hi, lo) {
                    (Some(hi), Some(lo)) => {
                        let num = hi * 16 + lo;
                        if contains_byte(chars, num) {
                            new_key.push(num);
                            proof {
                                assert(new_key@ =~= before + seq![num]);
                            }
                        } else {
                            push_three(&mut new_key, bytes, index);
                        }
                    },
                    _ => {
                        push_three(&mut new_key, bytes, index);
                    },
                }
                index += 3;
            } else {
                new_key.push(0x25);
                proof {
                    assert(rest.skip(1) =~= bytes@.skip(index + 1));
                    assert(new_key@ =~= before + seq![rest[0]]);
                }
                index += 1;
            }
        } else {
            new_key.push(bytes[index]);
            proof {
                assert(rest.skip(1) =~= bytes@.skip(index + 1));
                assert(new_key@ =~= before + seq![rest[0]]);
            }
            index += 1;
        }
        proof {
            assert(unescape_specified_bytes(bytes@, chars@) =~= new_key@
                + unescape_specified_bytes(bytes@.skip(index as int), chars@));
        }
    }
    proof {
        assert(bytes@.skip(index as int).len() == 0);
        assert(new_key@ =~= unescape_specified_bytes(bytes@, chars@));
    }
    match string_from_utf8(new_key) {
        Ok(s) => Ok(s),
        Err(e) => Err(KeyError::FromUtf8Error(e)),
    }
}

/// The error for a string `s` that is not a decimal id.
fn invalid_id(s: &str, reason: &str) -> (e: KeyError)
    ensures
        e matches KeyError::InvalidId { s: t, reason: m } && t@ == s@ && m@ == reason@,
{
    KeyError::InvalidId { s: s.to_owned(), reason: reason.to_owned() }
}

/// Decode a decimal `u64` id, as `str::parse::<u64>` does.
pub fn decode_id(s: &str) -> (r: Result<u64, KeyError>)
    ensures
        decode_id_outcome(s@, r),
{
    let b = s.as_bytes();
    if b.len() == 0 {
        return Err(invalid_id(s, "cannot parse integer from empty string"));
    }
    if (b[0] == 0x2b || b[0] == 0x2d) && b.len() == 1 {
        return Err(invalid_id(s, "invalid digit found in string"));
    }
    let mut i: usize = 0;
    if b[0] == 0x2b {
        i = 1;
    }
    let mut acc: u64 = 0;
    proof {
        assert(b@.skip(0) =~= b@);
    }
    while i < b.len()
        invariant
            b@ == encode_utf8(s@),
            b@.len() > 0,
            0 <= i <= b@.len(),
            parse_decimal(b@) == scan_digits(b@.skip(i as int), acc as nat),
        decreases b@.len() - i,
    {
        let c = b[i];
        proof {
            assert(b@.skip(i as int)[0] == c);
            assert(b@.skip(i as int).skip(1) =~= b@.skip(i + 1));
        }
        if c < 0x30 || c > 0x39 {
            return Err(invalid_id(s, "invalid digit found in string"));
        }
        let d = (c - 0x30) as u64;
        match acc.checked_mul(10) {
            Some(m) => match m.checked_add(d) {
                Some(v) => {
                    acc = v;
                },
                None => {
                    return Err(invalid_id(s, "number too large to fit in target type"));
                },
            },
            None => {
                return Err(invalid_id(s, "number too large to fit in target type"));
            },
        }
        i += 1;
    }
    Ok(acc)
}

/// Append the decimal digits of `n`.
fn push_decimal(n: u64, out: &mut Vec<u8>)
    ensures
        final(out)@ == old(out)@ + decimal_bytes(n as nat),
    decreases n,
{
    if n >= 10 {
        push_decimal(n / 10, out);
    }
    out.push(0x30 + (n % 10) as u8);
    proof {
        assert(final(out)@ =~= old(out)@ + decimal_bytes(n as nat));
    }
}

/// The decimal representation of `n`.
pub fn u64_to_string(n: u64) -> (r: String)
    ensures
        r@ == decimal(n as nat),
{
    let mut out: Vec<u8> = Vec::new();
    push_decimal(n, &mut out);
    proof {
        assert(out@ =~= decimal_bytes(n as nat));
        lemma_scan_decimal(n as nat);
    }
    string_from_ascii(out)
}

} // verus!
