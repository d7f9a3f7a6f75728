use structkey::helper::decode_id;
use structkey::helper::escape;
use structkey::helper::escape_specified;
use structkey::helper::u64_to_string;
use structkey::helper::unescape;
use structkey::helper::unescape_specified;
use structkey::KeyError;

#[test]
fn test_escape_specified() {
    let inp = "a/'b'/%";

    let out = escape_specified(inp, b"%'");
    assert_eq!("a/%27b%27/%25", out);

    let out = escape_specified(inp, b"'");
    assert_eq!("a/%27b%27/%", out);

    let out = escape_specified(inp, &[]);
    assert_eq!("a/'b'/%", out);
}

#[test]
fn test_unescape_specified() {
    let inp = "a/%27b%27/%25";

    let out = unescape_specified(inp, b"%'").unwrap();
    assert_eq!("a/'b'/%", out);

    let out = unescape_specified(inp, b"'").unwrap();
    assert_eq!("a/'b'/%25", out);

    let out = unescape_specified(inp, b"%").unwrap();
    assert_eq!("a/%27b%27/%", out);

    let out = unescape_specified(inp, &[]).unwrap();
    assert_eq!("a/%27b%27/%25", out);

    let out = unescape_specified("a/%25/%2", b"%").unwrap();
    assert_eq!("a/%/%2", out, "incomplete input wont be unescaped");

    // Invalid hex chars: kept as-is regardless of the `chars` filter
    let out = unescape_specified("%GG", b"%").unwrap();
    assert_eq!("%GG", out, "invalid hex sequence is kept verbatim");

    let out = unescape_specified("%g0", b"%").unwrap();
    assert_eq!("%g0", out, "lowercase non-hex char kept verbatim");
}

#[test]
fn test_unescape_malformed() {
    // Trailing percent with no hex digits
    assert!(unescape("%").is_err());
    // Only one hex digit
    assert!(unescape("%2").is_err());
    // Non-hex characters
    assert!(unescape("%GG").is_err());
    assert!(unescape("%g0").is_err());
    // Valid uppercase hex should succeed
    assert_eq!(unescape("%2A").unwrap(), "*");
    // Valid lowercase remains working
    assert_eq!(unescape("%21").unwrap(), "!");
}

#[test]
fn escape_example() {
    assert_eq!("data_bend%21%21", escape("data_bend!!"));
    assert_eq!(Ok("data_bend!!".to_string()), unescape("data_bend%21%21"));
}

#[test]
fn escape_keeps_plain_bytes() {
    let plain = "azAZ09_";
    assert_eq!(plain, escape(plain));
    assert_eq!("", escape(""));
    assert_eq!("%2f%25%20", escape("/% "));
}

#[test]
fn unescape_reports_escape_position() {
    match unescape("ab%zz") {
        Err(KeyError::InvalidEscape { pos, input }) => {
            assert_eq!(2, pos);
            assert_eq!("ab%zz", input);
        }
        other => panic!("expected InvalidEscape, got {:?}", other),
    }
    match unescape("ok%4") {
        Err(KeyError::InvalidEscape { pos, .. }) => assert_eq!(2, pos),
        other => panic!("expected InvalidEscape, got {:?}", other),
    }
}

#[test]
fn unescape_rejects_invalid_utf8() {
    assert!(matches!(unescape("%ff"), Err(KeyError::FromUtf8Error(_))));
    assert!(matches!(
        unescape_specified("%ff", &[0xff]),
        Err(KeyError::FromUtf8Error(_))
    ));
}

#[test]
fn unescape_inverts_escape() {
    for s in ["", "a b", "a/b%c", "ünï/cödé", "100%"] {
        assert_eq!(s, unescape(&escape(s)).unwrap());
    }
}

fn reason_of(r: Result<u64, KeyError>) -> String {
    match r {
        Err(KeyError::InvalidId { reason, .. }) => reason,
        other => panic!("expected InvalidId, got {:?}", other),
    }
}

#[test]
fn decode_id_accepts_what_std_accepts() {
    assert_eq!(Ok(0), decode_id("0"));
    assert_eq!(Ok(42), decode_id("042"));
    assert_eq!(Ok(5), decode_id("+5"));
    assert_eq!(Ok(u64::MAX), decode_id("18446744073709551615"));
}

#[test]
fn decode_id_failures() {
    assert_eq!(
        "cannot parse integer from empty string",
        reason_of(decode_id(""))
    );
    assert_eq!("invalid digit found in string", reason_of(decode_id("+")));
    assert_eq!("invalid digit found in string", reason_of(decode_id("-5")));
    assert_eq!("invalid digit found in string", reason_of(decode_id("12a")));
    assert_eq!(
        "number too large to fit in target type",
        reason_of(decode_id("18446744073709551616"))
    );
    // A digit past the point of overflow is never looked at.
    assert_eq!(
        "number too large to fit in target type",
        reason_of(decode_id("99999999999999999999x"))
    );
    match decode_id("notnum") {
        Err(KeyError::InvalidId { s, .. }) => assert_eq!("notnum", s),
        other => panic!("expected InvalidId, got {:?}", other),
    }
}

#[test]
fn decode_id_matches_std_parse() {
    for s in ["", "+", "-", "-0", "+0", "7", "0x10", " 1", "18446744073709551615", "18446744073709551616", "١"] {
        assert_eq!(s.parse::<u64>().ok(), decode_id(s).ok(), "input {:?}", s);
    }
}

#[test]
fn u64_to_string_is_decimal() {
    for n in [0u64, 9, 10, 12345, u64::MAX] {
        assert_eq!(n.to_string(), u64_to_string(n));
    }
}
