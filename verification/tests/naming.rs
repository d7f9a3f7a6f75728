use structkey::naming::active_fields;
use structkey::naming::check_tag;
use structkey::naming::find_duplicate_tag;
use structkey::naming::is_phantom_data;
use structkey::naming::snake_case;
use structkey::naming::synth_name;
use structkey::naming::tag_list;
use structkey::naming::TagProblem;

#[test]
fn snake_case_of_variant_names() {
    assert_eq!("database", snake_case("Database"));
    assert_eq!("two_words", snake_case("TwoWords"));
    assert_eq!("three_word_variant", snake_case("ThreeWordVariant"));
    assert_eq!("row_access_policy", snake_case("RowAccessPolicy"));
    assert_eq!("udf", snake_case("UDF"));
    assert_eq!("xml_parser", snake_case("XMLParser"));
    assert_eq!("ip_address", snake_case("IPAddress"));
    assert_eq!("unit", snake_case("Unit"));
    assert_eq!("", snake_case(""));
    assert_eq!("a1b", snake_case("A1B"));
}

#[test]
fn check_tag_rules() {
    assert_eq!(Ok(()), check_tag("user"));
    assert_eq!(Ok(()), check_tag("two-words"));
    assert_eq!(Err(TagProblem::Empty), check_tag(""));
    assert_eq!(Err(TagProblem::HasSeparator), check_tag("a/b"));
}

#[test]
fn duplicate_tags_found_first() {
    let tags = |v: &[&str]| v.iter().map(|s| s.to_string()).collect::<Vec<_>>();
    assert_eq!(None, find_duplicate_tag(&tags(&["a", "b", "c"])));
    assert_eq!(Some((2, 0)), find_duplicate_tag(&tags(&["a", "b", "a"])));
    assert_eq!(Some((2, 1)), find_duplicate_tag(&tags(&["a", "b", "b", "a"])));
    assert_eq!(None, find_duplicate_tag(&tags(&[])));
}

#[test]
fn active_fields_skip_phantoms() {
    let raw = vec![false, true, false, true];
    let phantom = vec![false, false, true, false];
    assert_eq!(vec![(0, false), (1, true), (3, true)], active_fields(&raw, &phantom));
    assert!(active_fields(&vec![true, false], &vec![true, true]).is_empty());
}

#[test]
fn phantom_detection_by_last_segment() {
    assert!(is_phantom_data("PhantomData"));
    assert!(!is_phantom_data("Phantom"));
    assert!(!is_phantom_data("u64"));
}

#[test]
fn tag_list_joins_with_bar() {
    let tags: Vec<String> = ["named", "tuple", "unit"].iter().map(|s| s.to_string()).collect();
    assert_eq!("named|tuple|unit", tag_list(&tags));
    assert_eq!("only", tag_list(&vec!["only".to_string()]));
    assert_eq!("", tag_list(&vec![]));
}

#[test]
fn synth_names() {
    assert_eq!("__f0", synth_name(0));
    assert_eq!("__f12", synth_name(12));
}

#[test]
fn renamed_discriminant_colliding_with_default_is_found() {
    // `Foo` and `#[codec(rename = "foo")] Bar` share the discriminant `foo`.
    let tags = vec![snake_case("Foo"), "foo".to_string()];
    assert_eq!(Some((1, 0)), find_duplicate_tag(&tags));
}

#[test]
fn snake_case_is_idempotent_on_ascii() {
    for ident in ["Database", "TwoWords", "UDF", "XMLParser", "IPAddress", "already_snake", "x1Y2"] {
        let once = snake_case(ident);
        assert!(once.is_ascii());
        assert!(!once.chars().any(|c| c.is_ascii_uppercase()));
        assert_eq!(once, snake_case(&once));
    }
    assert_eq!("already_snake", snake_case("already_snake"));
}
