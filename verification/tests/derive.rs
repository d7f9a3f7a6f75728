//! The shapes `#[derive(Codec)]` and `#[derive(StructKey)]` generate,
//! written out by hand: fields encode in declaration order, enum variants
//! lead with a discriminant segment, `PhantomData` fields are skipped and
//! `#[codec(raw)]` fields go through `Raw`.

use std::marker::PhantomData;

use structkey::Builder;
use structkey::Codec;
use structkey::DirName;
use structkey::Error;
use structkey::Parser;
use structkey::Raw;
use structkey::StructKey;

fn round_trip<T>(value: T, expected: &str)
where T: Codec + PartialEq + std::fmt::Debug {
    let encoded = value.encode_key(Builder::new()).done();
    assert_eq!(expected, encoded, "encode mismatch");

    let mut parser = Parser::new(&encoded);
    let decoded = T::decode_key(&mut parser).expect("decode");
    assert_eq!(value, decoded, "round-trip mismatch");
}

fn assert_round_trip<T>(key: T, expected: &str)
where T: StructKey + PartialEq + std::fmt::Debug {
    let encoded = key.to_string_key();
    assert_eq!(encoded, expected, "encode mismatch for {:?}", key);
    let decoded = T::from_str_key(expected)
        .unwrap_or_else(|e| panic!("decode of {:?} failed: {:?}", expected, e));
    assert_eq!(decoded, key, "round-trip mismatch for {:?}", expected);
}

#[derive(Debug, PartialEq, Eq)]
struct Pair {
    name: String,
    id: u64,
}

impl Codec for Pair {
    fn encode_key(&self, b: Builder) -> Builder {
        let b = Codec::encode_key(&self.name, b);
        let b = Codec::encode_key(&self.id, b);
        b
    }

    fn decode_key(p: &mut Parser) -> Result<Self, Error> {
        let name = Codec::decode_key(p)?;
        let id = Codec::decode_key(p)?;
        Ok(Self { name, id })
    }

    fn segment_count(&self) -> usize {
        Codec::segment_count(&self.name) + Codec::segment_count(&self.id)
    }
}

#[test]
fn pair_round_trip() {
    round_trip(
        Pair {
            name: "alice".to_string(),
            id: 42,
        },
        "alice/42",
    );
}

#[test]
fn pair_escapes_separator_in_string() {
    round_trip(
        Pair {
            name: "a/b".to_string(),
            id: 1,
        },
        "a%2fb/1",
    );
}

#[test]
fn pair_segment_count_sums_fields() {
    let p = Pair {
        name: "x".to_string(),
        id: 1,
    };
    assert_eq!(2, p.segment_count());
}

#[derive(Debug, PartialEq, Eq)]
struct Only {
    value: u64,
}

impl Codec for Only {
    fn encode_key(&self, b: Builder) -> Builder {
        let b = Codec::encode_key(&self.value, b);
        b
    }

    fn decode_key(p: &mut Parser) -> Result<Self, Error> {
        let value = Codec::decode_key(p)?;
        Ok(Self { value })
    }

    fn segment_count(&self) -> usize {
        Codec::segment_count(&self.value)
    }
}

#[test]
fn only_single_field_round_trip() {
    round_trip(Only { value: 99 }, "99");
}

#[derive(Debug, PartialEq, Eq)]
struct Empty {}

impl Codec for Empty {
    fn encode_key(&self, b: Builder) -> Builder {
        b
    }

    fn decode_key(_p: &mut Parser) -> Result<Self, Error> {
        Ok(Self {})
    }

    fn segment_count(&self) -> usize {
        0
    }
}

#[test]
fn empty_round_trip() {
    round_trip(Empty {}, "");
}

#[test]
fn empty_segment_count_is_zero() {
    assert_eq!(0, Empty {}.segment_count());
}

#[derive(Debug, PartialEq, Eq)]
struct Triple {
    a: u64,
    b: String,
    c: u64,
}

impl Codec for Triple {
    fn encode_key(&self, b: Builder) -> Builder {
        let b = Codec::encode_key(&self.a, b);
        let b = Codec::encode_key(&self.b, b);
        let b = Codec::encode_key(&self.c, b);
        b
    }

    fn decode_key(p: &mut Parser) -> Result<Self, Error> {
        let a = Codec::decode_key(p)?;
        let b = Codec::decode_key(p)?;
        let c = Codec::decode_key(p)?;
        Ok(Self { a, b, c })
    }

    fn segment_count(&self) -> usize {
        Codec::segment_count(&self.a) + Codec::segment_count(&self.b) + Codec::segment_count(&self.c)
    }
}

impl StructKey for Triple {
    const PREFIX: &'static str = "tri";
}

#[test]
fn triple_via_struct_key_to_string() {
    assert_round_trip(
        Triple {
            a: 1,
            b: "hello world".to_string(),
            c: 2,
        },
        "tri/1/hello%20world/2",
    );
}

#[test]
fn triple_works_under_dir_name() {
    let k = Triple {
        a: 1,
        b: "hello world".to_string(),
        c: 2,
    };
    let dir = DirName::new(k); // level 1 -> drop one segment
    assert_eq!("tri/1/hello%20world", dir.to_string_key());
}

// `#[codec(raw)] b: String` routes the field through `Raw`.
#[derive(Debug, PartialEq, Eq)]
struct WithRaw {
    a: u64,
    b: String,
}

impl Codec for WithRaw {
    fn encode_key(&self, b: Builder) -> Builder {
        let b = Codec::encode_key(&self.a, b);
        let b = Codec::encode_key(&Raw(self.b.clone()), b);
        b
    }

    fn decode_key(p: &mut Parser) -> Result<Self, Error> {
        let a = Codec::decode_key(p)?;
        let b = <Raw as Codec>::decode_key(p)?.into_inner();
        Ok(Self { a, b })
    }

    fn segment_count(&self) -> usize {
        Codec::segment_count(&self.a) + Codec::segment_count(&Raw(self.b.clone()))
    }
}

#[test]
fn raw_field_skips_escape() {
    let k = WithRaw {
        a: 1,
        b: "a b".to_string(), // a space would normally escape to %20
    };
    let s = k.encode_key(Builder::new()).done();
    assert_eq!("1/a b", s);

    let mut parser = Parser::new(&s);
    let decoded = WithRaw::decode_key(&mut parser).unwrap();
    assert_eq!(k, decoded);
}

#[test]
fn encode_key_honours_builder_budget() {
    let k = Triple {
        a: 1,
        b: "x".to_string(),
        c: 2,
    };
    let s = k.encode_key(Builder::new().limit_segments(2)).done();
    assert_eq!("1/x", s);

    let s = k.encode_key(Builder::new().limit_segments(1)).done();
    assert_eq!("1", s);

    let s = k.encode_key(Builder::new().limit_segments(0)).done();
    assert_eq!("", s);
}

#[test]
fn decode_too_few_segments() {
    let mut parser = Parser::new("alice");
    let result = Pair::decode_key(&mut parser);
    assert!(
        matches!(result, Err(Error::WrongNumberOfSegments { .. })),
        "expected WrongNumberOfSegments, got {:?}",
        result,
    );
}

#[test]
fn decode_non_numeric_for_u64_field() {
    let mut parser = Parser::new("alice/notnum");
    let result = Pair::decode_key(&mut parser);
    assert!(result.is_err(), "expected decode error, got {:?}", result);
}

#[derive(Debug, PartialEq, Eq)]
struct Generic<T: Codec> {
    id: T,
    suffix: String,
}

impl<T: Codec> Codec for Generic<T> {
    fn encode_key(&self, b: Builder) -> Builder {
        let b = Codec::encode_key(&self.id, b);
        let b = Codec::encode_key(&self.suffix, b);
        b
    }

    fn decode_key(p: &mut Parser) -> Result<Self, Error> {
        let id = Codec::decode_key(p)?;
        let suffix = Codec::decode_key(p)?;
        Ok(Self { id, suffix })
    }

    fn segment_count(&self) -> usize {
        Codec::segment_count(&self.id) + Codec::segment_count(&self.suffix)
    }
}

#[test]
fn generic_with_string_param() {
    round_trip(
        Generic::<String> {
            id: "abc".to_string(),
            suffix: "x".to_string(),
        },
        "abc/x",
    );
}

#[derive(Debug, PartialEq, Eq)]
struct WithRawField {
    id: u64,
    tag: Raw,
}

impl Codec for WithRawField {
    fn encode_key(&self, b: Builder) -> Builder {
        let b = Codec::encode_key(&self.id, b);
        let b = Codec::encode_key(&self.tag, b);
        b
    }

    fn decode_key(p: &mut Parser) -> Result<Self, Error> {
        let id = Codec::decode_key(p)?;
        let tag = Codec::decode_key(p)?;
        Ok(Self { id, tag })
    }

    fn segment_count(&self) -> usize {
        Codec::segment_count(&self.id) + Codec::segment_count(&self.tag)
    }
}

#[test]
fn raw_field_type_round_trip() {
    round_trip(
        WithRawField {
            id: 7,
            tag: Raw("hello world".to_string()),
        },
        "7/hello world",
    );
}

#[derive(Debug, PartialEq, Eq)]
enum Shape {
    Named { id: u64, label: String },
    Tuple(u64, String),
    Unit,
}

impl Codec for Shape {
    fn encode_key(&self, b: Builder) -> Builder {
        match self {
            Self::Named { id: __f0, label: __f1 } => {
                let b = b.push_raw("named");
                let b = Codec::encode_key(__f0, b);
                let b = Codec::encode_key(__f1, b);
                b
            }
            Self::Tuple(__f0, __f1) => {
                let b = b.push_raw("tuple");
                let b = Codec::encode_key(__f0, b);
                let b = Codec::encode_key(__f1, b);
                b
            }
            Self::Unit => b.push_raw("unit"),
        }
    }

    fn decode_key(p: &mut Parser) -> Result<Self, Error> {
        let __tag = p.next_raw()?;
        match __tag {
            "named" => Ok(Self::Named {
                id: Codec::decode_key(p)?,
                label: Codec::decode_key(p)?,
            }),
            "tuple" => Ok(Self::Tuple(Codec::decode_key(p)?, Codec::decode_key(p)?)),
            "unit" => Ok(Self::Unit),
            _ => Err(Error::InvalidSegment {
                i: p.index(),
                expect: "named|tuple|unit".to_string(),
                got: __tag.to_string(),
            }),
        }
    }

    fn segment_count(&self) -> usize {
        match self {
            Self::Named { id: __f0, label: __f1 } => {
                1 + Codec::segment_count(__f0) + Codec::segment_count(__f1)
            }
            Self::Tuple(__f0, __f1) => 1 + Codec::segment_count(__f0) + Codec::segment_count(__f1),
            Self::Unit => 1,
        }
    }
}

#[test]
fn enum_named_variant_round_trip() {
    round_trip(
        Shape::Named {
            id: 7,
            label: "alice".to_string(),
        },
        "named/7/alice",
    );
}

#[test]
fn enum_tuple_variant_round_trip() {
    round_trip(Shape::Tuple(42, "bob".to_string()), "tuple/42/bob");
}

#[test]
fn enum_unit_variant_round_trip() {
    round_trip(Shape::Unit, "unit");
}

#[test]
fn enum_segment_count_includes_discriminant() {
    assert_eq!(
        3,
        Shape::Named {
            id: 1,
            label: "x".to_string()
        }
        .segment_count()
    );
    assert_eq!(3, Shape::Tuple(1, "x".to_string()).segment_count());
    assert_eq!(1, Shape::Unit.segment_count());
}

#[test]
fn enum_decode_unknown_discriminant() {
    let mut parser = Parser::new("nope");
    let result = Shape::decode_key(&mut parser);
    match result {
        Err(Error::InvalidSegment { expect, got, .. }) => {
            assert_eq!("named|tuple|unit", expect);
            assert_eq!("nope", got);
        }
        other => panic!("expected InvalidSegment, got {:?}", other),
    }
}

#[derive(Debug, PartialEq, Eq)]
enum Tagged {
    Tag { name: String },
}

impl Codec for Tagged {
    fn encode_key(&self, b: Builder) -> Builder {
        match self {
            Self::Tag { name: __f0 } => {
                let b = b.push_raw("tag");
                let b = Codec::encode_key(&Raw(__f0.clone()), b);
                b
            }
        }
    }

    fn decode_key(p: &mut Parser) -> Result<Self, Error> {
        let __tag = p.next_raw()?;
        match __tag {
            "tag" => Ok(Self::Tag {
                name: <Raw as Codec>::decode_key(p)?.into_inner(),
            }),
            _ => Err(Error::InvalidSegment {
                i: p.index(),
                expect: "tag".to_string(),
                got: __tag.to_string(),
            }),
        }
    }

    fn segment_count(&self) -> usize {
        match self {
            Self::Tag { name: __f0 } => 1 + Codec::segment_count(&Raw(__f0.clone())),
        }
    }
}

#[test]
fn enum_raw_variant_field_skips_escape() {
    let v = Tagged::Tag {
        name: "a b".to_string(),
    };
    round_trip(v, "tag/a b");
}

#[derive(Debug, PartialEq, Eq)]
enum Singleton {
    Only(u64),
}

impl Codec for Singleton {
    fn encode_key(&self, b: Builder) -> Builder {
        match self {
            Self::Only(__f0) => {
                let b = b.push_raw("only");
                let b = Codec::encode_key(__f0, b);
                b
            }
        }
    }

    fn decode_key(p: &mut Parser) -> Result<Self, Error> {
        let __tag = p.next_raw()?;
        match __tag {
            "only" => Ok(Self::Only(Codec::decode_key(p)?)),
            _ => Err(Error::InvalidSegment {
                i: p.index(),
                expect: "only".to_string(),
                got: __tag.to_string(),
            }),
        }
    }

    fn segment_count(&self) -> usize {
        match self {
            Self::Only(__f0) => 1 + Codec::segment_count(__f0),
        }
    }
}

#[test]
fn enum_singleton_round_trip() {
    round_trip(Singleton::Only(99), "only/99");
}

#[allow(clippy::upper_case_acronyms)]
#[derive(Debug, PartialEq, Eq)]
enum MultiWord {
    TwoWords { a: u64, b: u64 },
    ThreeWordVariant(u64),
    UDF,
    XMLParser(u64),
}

impl Codec for MultiWord {
    fn encode_key(&self, b: Builder) -> Builder {
        match self {
            Self::TwoWords { a: __f0, b: __f1 } => {
                let b = b.push_raw("two_words");
                let b = Codec::encode_key(__f0, b);
                let b = Codec::encode_key(__f1, b);
                b
            }
            Self::ThreeWordVariant(__f0) => {
                let b = b.push_raw("three_word_variant");
                let b = Codec::encode_key(__f0, b);
                b
            }
            Self::UDF => b.push_raw("udf"),
            Self::XMLParser(__f0) => {
                let b = b.push_raw("xml_parser");
                let b = Codec::encode_key(__f0, b);
                b
            }
        }
    }

    fn decode_key(p: &mut Parser) -> Result<Self, Error> {
        let __tag = p.next_raw()?;
        match __tag {
            "two_words" => Ok(Self::TwoWords {
                a: Codec::decode_key(p)?,
                b: Codec::decode_key(p)?,
            }),
            "three_word_variant" => Ok(Self::ThreeWordVariant(Codec::decode_key(p)?)),
            "udf" => Ok(Self::UDF),
            "xml_parser" => Ok(Self::XMLParser(Codec::decode_key(p)?)),
            _ => Err(Error::InvalidSegment {
                i: p.index(),
                expect: "two_words|three_word_variant|udf|xml_parser".to_string(),
                got: __tag.to_string(),
            }),
        }
    }

    fn segment_count(&self) -> usize {
        match self {
            Self::TwoWords { a: __f0, b: __f1 } => {
                1 + Codec::segment_count(__f0) + Codec::segment_count(__f1)
            }
            Self::ThreeWordVariant(__f0) => 1 + Codec::segment_count(__f0),
            Self::UDF => 1,
            Self::XMLParser(__f0) => 1 + Codec::segment_count(__f0),
        }
    }
}

#[test]
fn enum_multi_word_variant_uses_snake_case() {
    round_trip(MultiWord::TwoWords { a: 1, b: 2 }, "two_words/1/2");
    round_trip(MultiWord::ThreeWordVariant(7), "three_word_variant/7");
    round_trip(MultiWord::UDF, "udf");
    round_trip(MultiWord::XMLParser(9), "xml_parser/9");
}

#[derive(Debug, PartialEq, Eq)]
enum WithRename {
    TwoWords { a: u64, b: u64 },
    Alpha(u64),
    Plain,
}

impl Codec for WithRename {
    fn encode_key(&self, b: Builder) -> Builder {
        match self {
            Self::TwoWords { a: __f0, b: __f1 } => {
                let b = b.push_raw("two-words");
                let b = Codec::encode_key(__f0, b);
                let b = Codec::encode_key(__f1, b);
                b
            }
            Self::Alpha(__f0) => {
                let b = b.push_raw("X");
                let b = Codec::encode_key(__f0, b);
                b
            }
            Self::Plain => b.push_raw("plain"),
        }
    }

    fn decode_key(p: &mut Parser) -> Result<Self, Error> {
        let __tag = p.next_raw()?;
        match __tag {
            "two-words" => Ok(Self::TwoWords {
                a: Codec::decode_key(p)?,
                b: Codec::decode_key(p)?,
            }),
            "X" => Ok(Self::Alpha(Codec::decode_key(p)?)),
            "plain" => Ok(Self::Plain),
            _ => Err(Error::InvalidSegment {
                i: p.index(),
                expect: "two-words|X|plain".to_string(),
                got: __tag.to_string(),
            }),
        }
    }

    fn segment_count(&self) -> usize {
        match self {
            Self::TwoWords { a: __f0, b: __f1 } => {
                1 + Codec::segment_count(__f0) + Codec::segment_count(__f1)
            }
            Self::Alpha(__f0) => 1 + Codec::segment_count(__f0),
            Self::Plain => 1,
        }
    }
}

#[test]
fn enum_rename_overrides_default_tag() {
    round_trip(WithRename::TwoWords { a: 1, b: 2 }, "two-words/1/2");
    round_trip(WithRename::Alpha(7), "X/7");
    round_trip(WithRename::Plain, "plain");
}

#[derive(Debug, PartialEq, Eq)]
struct WithMarker<R> {
    id: u64,
    _p: PhantomData<R>,
}

impl<R> Codec for WithMarker<R> {
    fn encode_key(&self, b: Builder) -> Builder {
        let b = Codec::encode_key(&self.id, b);
        b
    }

    fn decode_key(p: &mut Parser) -> Result<Self, Error> {
        let id = Codec::decode_key(p)?;
        Ok(Self {
            id,
            _p: PhantomData,
        })
    }

    fn segment_count(&self) -> usize {
        Codec::segment_count(&self.id)
    }
}

#[derive(Debug, PartialEq, Eq)]
struct NoCodecMarker;

#[test]
fn struct_with_phantom_data_skips_field() {
    round_trip(
        WithMarker::<NoCodecMarker> {
            id: 42,
            _p: PhantomData,
        },
        "42",
    );
    assert_eq!(
        1,
        WithMarker::<NoCodecMarker> {
            id: 1,
            _p: PhantomData,
        }
        .segment_count(),
    );
}

#[derive(Debug, PartialEq, Eq)]
struct OnlyPhantom<A, B> {
    _a: PhantomData<A>,
    _b: PhantomData<B>,
}

impl<A, B> Codec for OnlyPhantom<A, B> {
    fn encode_key(&self, b: Builder) -> Builder {
        b
    }

    fn decode_key(_p: &mut Parser) -> Result<Self, Error> {
        Ok(Self {
            _a: PhantomData,
            _b: PhantomData,
        })
    }

    fn segment_count(&self) -> usize {
        0
    }
}

#[test]
fn struct_with_only_phantom_fields_has_zero_segments() {
    let v: OnlyPhantom<NoCodecMarker, NoCodecMarker> = OnlyPhantom {
        _a: PhantomData,
        _b: PhantomData,
    };
    assert_eq!(0, v.segment_count());
    let s = v.encode_key(Builder::new()).done();
    assert_eq!("", s);
}

#[derive(Debug, PartialEq, Eq)]
enum WithPhantom<R> {
    Named { id: u64, _p: PhantomData<R> },
    Tuple(u64, PhantomData<R>),
}

impl<R> Codec for WithPhantom<R> {
    fn encode_key(&self, b: Builder) -> Builder {
        match self {
            Self::Named { id: __f0, _p: _ } => {
                let b = b.push_raw("named");
                let b = Codec::encode_key(__f0, b);
                b
            }
            Self::Tuple(__f0, _) => {
                let b = b.push_raw("tuple");
                let b = Codec::encode_key(__f0, b);
                b
            }
        }
    }

    fn decode_key(p: &mut Parser) -> Result<Self, Error> {
        let __tag = p.next_raw()?;
        match __tag {
            "named" => Ok(Self::Named {
                id: Codec::decode_key(p)?,
                _p: PhantomData,
            }),
            "tuple" => Ok(Self::Tuple(Codec::decode_key(p)?, PhantomData)),
            _ => Err(Error::InvalidSegment {
                i: p.index(),
                expect: "named|tuple".to_string(),
                got: __tag.to_string(),
            }),
        }
    }

    fn segment_count(&self) -> usize {
        match self {
            Self::Named { id: __f0, _p: _ } => 1 + Codec::segment_count(__f0),
            Self::Tuple(__f0, _) => 1 + Codec::segment_count(__f0),
        }
    }
}

#[test]
fn enum_phantom_field_skipped_in_named_and_tuple_variants() {
    round_trip(
        WithPhantom::<NoCodecMarker>::Named {
            id: 7,
            _p: PhantomData,
        },
        "named/7",
    );
    round_trip(
        WithPhantom::<NoCodecMarker>::Tuple(99, PhantomData),
        "tuple/99",
    );
}

// `#[derive(StructKey)]` with `#[structkey(prefix = "user")]`.
#[derive(Debug, PartialEq, Eq)]
struct DerivedKey {
    user_id: u64,
    name: String,
}

impl Codec for DerivedKey {
    fn encode_key(&self, b: Builder) -> Builder {
        let b = Codec::encode_key(&self.user_id, b);
        let b = Codec::encode_key(&self.name, b);
        b
    }

    fn decode_key(p: &mut Parser) -> Result<Self, Error> {
        let user_id = Codec::decode_key(p)?;
        let name = Codec::decode_key(p)?;
        Ok(Self { user_id, name })
    }

    fn segment_count(&self) -> usize {
        Codec::segment_count(&self.user_id) + Codec::segment_count(&self.name)
    }
}

impl StructKey for DerivedKey {
    const PREFIX: &'static str = "user";
}

#[test]
fn struct_key_derive_provides_prefix_and_round_trips() {
    assert_round_trip(
        DerivedKey {
            user_id: 7,
            name: "alice".to_string(),
        },
        "user/7/alice",
    );
}

#[derive(Debug, PartialEq, Eq)]
struct DerivedKeyGeneric<R> {
    id: u64,
    _p: PhantomData<R>,
}

impl<R> Codec for DerivedKeyGeneric<R> {
    fn encode_key(&self, b: Builder) -> Builder {
        let b = Codec::encode_key(&self.id, b);
        b
    }

    fn decode_key(p: &mut Parser) -> Result<Self, Error> {
        let id = Codec::decode_key(p)?;
        Ok(Self {
            id,
            _p: PhantomData,
        })
    }

    fn segment_count(&self) -> usize {
        Codec::segment_count(&self.id)
    }
}

impl<R> StructKey for DerivedKeyGeneric<R> {
    const PREFIX: &'static str = "tagged";
}

#[test]
fn struct_key_derive_works_on_generic_with_marker() {
    assert_round_trip(
        DerivedKeyGeneric::<NoCodecMarker> {
            id: 99,
            _p: PhantomData,
        },
        "tagged/99",
    );
}

#[test]
fn enum_rename_appears_in_decode_error_message() {
    let mut parser = Parser::new("nope");
    let err = WithRename::decode_key(&mut parser).unwrap_err();
    match err {
        Error::InvalidSegment { expect, got, .. } => {
            assert_eq!("two-words|X|plain", expect);
            assert_eq!("nope", got);
        }
        other => panic!("expected InvalidSegment, got {:?}", other),
    }
}
