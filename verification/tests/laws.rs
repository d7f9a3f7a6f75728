use structkey::helper::escape_specified;
use structkey::helper::unescape_specified;
use structkey::Builder;
use structkey::Codec;
use structkey::KeyBuilder;
use structkey::Parser;
use structkey::Raw;

#[test]
fn fields_encoded_in_order_share_one_budget() {
    // Two fields pushed one after the other under a budget of 3 give the
    // same key as their segments pushed in one run under that budget.
    let b = Builder::new().limit_segments(3);
    let b = "a".to_string().encode_key(b);
    let b = Raw("b/c".to_string()).encode_key(b);
    let b = 7u64.encode_key(b);
    let b = 8u64.encode_key(b);
    assert_eq!("a/b/c/7", b.done());

    let b = Builder::new()
        .limit_segments(3)
        .push_raw("a")
        .push_raw("b/c")
        .push_raw("7")
        .push_raw("8");
    assert_eq!("a/b/c/7", b.done());
}

#[test]
fn parser_reads_back_builder_segments() {
    let s = Builder::new()
        .push_raw("x")
        .push_str("a/b")
        .push_u64(12)
        .push_raw("y z")
        .done();
    let mut p = Parser::new(&s);
    assert_eq!("x", p.next_raw().unwrap());
    assert_eq!("a/b", p.next_str().unwrap());
    assert_eq!(12, p.next_u64().unwrap());
    assert_eq!("y z", p.next_raw().unwrap());
    assert_eq!(4, p.index());
    assert!(p.done().is_ok());
}

#[test]
fn parser_splits_every_separator() {
    let mut p = Parser::new("a//b/");
    assert_eq!("a", p.next_raw().unwrap());
    assert!(matches!(
        p.next_raw(),
        Err(structkey::Error::EmptySegment { i: 1 })
    ));
    assert_eq!("b", p.next_raw().unwrap());
    assert!(matches!(
        p.next_raw(),
        Err(structkey::Error::EmptySegment { i: 2 })
    ));
    match p.next_raw() {
        Err(structkey::Error::WrongNumberOfSegments { expect, got }) => {
            assert_eq!(3, expect);
            assert_eq!("a//b/", got);
        }
        other => panic!("expected WrongNumberOfSegments, got {:?}", other),
    }
}

#[test]
fn parser_literal_and_done() {
    let mut p = Parser::new_prefixed("pre/x", "pre").unwrap();
    assert!(p.next_literal("x").is_ok());
    assert!(p.done().is_ok());

    let mut p = Parser::new("pre/x");
    match p.next_literal("other") {
        Err(structkey::Error::InvalidSegment { i, expect, got }) => {
            assert_eq!(0, i);
            assert_eq!("other", expect);
            assert_eq!("pre", got);
        }
        other => panic!("expected InvalidSegment, got {:?}", other),
    }
    match p.done() {
        Err(structkey::Error::WrongNumberOfSegments { expect, .. }) => assert_eq!(1, expect),
        other => panic!("expected WrongNumberOfSegments, got {:?}", other),
    }
}

#[test]
fn specified_escape_round_trips_when_percent_is_escaped() {
    for s in ["a/'b'/%", "%27", "plain", "x%2fy"] {
        let e = escape_specified(s, b"%'/");
        assert_eq!(s, unescape_specified(&e, b"%'/").unwrap());
    }
}

#[test]
fn specified_escape_needs_percent_escaped_to_round_trip() {
    // Without `%` among the escaped bytes, a literal escape in the input is
    // decoded on the way back.
    let e = escape_specified("%27", b"'");
    assert_eq!("%27", e);
    assert_eq!("'", unescape_specified(&e, b"'").unwrap());
}

#[test]
fn key_builder_matches_builder_without_empty_segments() {
    let a = KeyBuilder::new().push_raw("p").push_str("x y").push_u64(3).done();
    let b = Builder::new().push_raw("p").push_str("x y").push_u64(3).done();
    assert_eq!(a, b);

    // With an empty first segment they differ.
    let a = KeyBuilder::new().push_raw("").push_u64(3).done();
    let b = Builder::new().push_raw("").push_u64(3).done();
    assert_eq!("3", a);
    assert_eq!("/3", b);
}

#[test]
fn push_after_zero_budget_is_a_no_op() {
    let s = Builder::new_prefixed("p")
        .limit_segments(1)
        .push_str("a")
        .push_str("b")
        .push_raw("c")
        .push_u64(1)
        .done();
    assert_eq!("p/a", s);
}

#[test]
fn specified_escape_of_ascii_bytes_keeps_other_text() {
    let s = "día/'x'%";
    let e = escape_specified(s, b"%'/");
    assert_eq!("día%2f%27x%27%25", e);
    assert_eq!(s, unescape_specified(&e, b"%'/").unwrap());
}

#[test]
fn builder_chain_keeps_only_accepted_pushes() {
    // After `limit_segments(1)` one more push is accepted; pushes before
    // the limit do not count against it.
    let s = Builder::new()
        .push_u64(1)
        .limit_segments(1)
        .push_u64(2)
        .push_str("a b")
        .done();
    assert_eq!("1/2", s);
}
