use structkey::KeyBuilder;

#[test]
fn test_key_builder() -> anyhow::Result<()> {
    let s = KeyBuilder::new_prefixed("_foo")
        .push_str("a b")
        .push_u64(5)
        .push_raw("a b")
        .done();

    assert_eq!("_foo/a%20b/5/a b", s);
    Ok(())
}

#[test]
fn key_builder_does_not_separate_after_empty_text() {
    // Without a segment count, an empty first segment leaves nothing to
    // separate from.
    let s = KeyBuilder::new().push_str("").push_u64(1).done();
    assert_eq!("1", s);
    assert_eq!("%21", KeyBuilder::escape("!"));
    assert_eq!("a%2fb", KeyBuilder::escape_specified("a/b", b"/"));
}
