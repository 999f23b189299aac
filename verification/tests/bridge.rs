use treepatch::value::TreeValue;
use treepatch::codec::{render, parse, pointer_of, ConversionError};
use treepatch::patch::PathSeg;

fn key(s: &str) -> String {
    String::from(s)
}

#[test]
fn render_concrete_document() {
    let doc = TreeValue::Mapping(vec![
        (key("a"), TreeValue::Int(1)),
        (
            key("b"),
            TreeValue::Sequence(vec![TreeValue::Int(1), TreeValue::Int(2)]),
        ),
    ]);
    let bytes = render(&doc).expect("document is representable");
    assert_eq!(String::from_utf8(bytes).unwrap(), "{\"a\":1,\"b\":[1,2]}");
}

#[test]
fn render_scalars_and_negative_numbers() {
    let doc = TreeValue::Sequence(vec![
        TreeValue::Null,
        TreeValue::Bool(true),
        TreeValue::Bool(false),
        TreeValue::Int(-450),
        TreeValue::Int(0),
        TreeValue::Text(key("hi there")),
    ]);
    let bytes = render(&doc).expect("document is representable");
    assert_eq!(
        String::from_utf8(bytes).unwrap(),
        "[null,true,false,-450,0,\"hi there\"]"
    );
}

#[test]
fn render_rejects_text_needing_escapes() {
    let doc = TreeValue::Text(key("say \"hi\""));
    assert!(matches!(render(&doc), Err(ConversionError::Unrepresentable)));
    let tab = TreeValue::Text(key("a\tb"));
    assert!(matches!(render(&tab), Err(ConversionError::Unrepresentable)));
}

#[test]
fn render_covers_the_whole_signed_range() {
    let low = TreeValue::Int(i64::MIN);
    let bytes = render(&low).expect("the smallest integer is representable");
    assert_eq!(String::from_utf8(bytes).unwrap(), "-9223372036854775808");
    let high = TreeValue::Int(i64::MAX);
    let bytes = render(&high).expect("the largest integer is representable");
    assert_eq!(String::from_utf8(bytes).unwrap(), "9223372036854775807");
}

#[test]
fn integer_extremes_round_trip() {
    for n in [i64::MIN, i64::MIN + 1, -1, 0, 1, i64::MAX - 1, i64::MAX] {
        let doc = TreeValue::Int(n);
        let bytes = render(&doc).expect("integers are representable");
        let back = parse(&bytes).expect("rendered integer parses");
        assert!(back.structural_eq(&doc));
    }
}

#[test]
fn parse_concrete_document() {
    let bytes = Vec::from("{\"a\":1,\"b\":[1,2]}".as_bytes());
    let doc = parse(&bytes).expect("canonical document parses");
    let expected = TreeValue::Mapping(vec![
        (key("a"), TreeValue::Int(1)),
        (
            key("b"),
            TreeValue::Sequence(vec![TreeValue::Int(1), TreeValue::Int(2)]),
        ),
    ]);
    assert!(doc.structural_eq(&expected));
    assert!(doc.is_well_formed());
}

#[test]
fn parse_render_round_trip() {
    let doc = TreeValue::Mapping(vec![
        (key("list"), TreeValue::Sequence(vec![
            TreeValue::Null,
            TreeValue::Bool(false),
            TreeValue::Int(-7),
            TreeValue::Text(key("x y")),
        ])),
        (key("n"), TreeValue::Int(42)),
        (key("nested"), TreeValue::Mapping(vec![
            (key("k"), TreeValue::Text(key("v"))),
        ])),
    ]);
    let bytes = render(&doc).expect("document is representable");
    let back = parse(&bytes).expect("rendered bytes parse");
    assert!(back.structural_eq(&doc));
    let again = render(&back).expect("parsed document renders");
    assert_eq!(again, bytes);
}

#[test]
fn parse_rejects_malformed_documents() {
    for bad in [
        "",
        "nul",
        "truth",
        "[1,2",
        "{\"a\":1",
        "{\"a\"=1}",
        "01",
        "-0",
        "--1",
        "[1,]",
        "{\"b\":1,\"a\":2}",
        "{\"a\":1,\"a\":2}",
        "\"unterminated",
        "18446744073709551615",
        "9223372036854775808",
        "-9223372036854775809",
        "[]extra",
    ] {
        let bytes = Vec::from(bad.as_bytes());
        assert!(
            matches!(parse(&bytes), Err(ConversionError::Malformed)),
            "expected {:?} to be rejected",
            bad
        );
    }
}

#[test]
fn parse_accepts_empty_containers_and_extremes() {
    let bytes = Vec::from("[{},[],9223372036854775807,-9223372036854775807]".as_bytes());
    let doc = parse(&bytes).expect("document parses");
    let expected = TreeValue::Sequence(vec![
        TreeValue::Mapping(vec![]),
        TreeValue::Sequence(vec![]),
        TreeValue::Int(i64::MAX),
        TreeValue::Int(-i64::MAX),
    ]);
    assert!(doc.structural_eq(&expected));
}

#[test]
fn render_empty_containers() {
    let doc = TreeValue::Mapping(vec![
        (key("empty_map"), TreeValue::Mapping(vec![])),
        (key("empty_seq"), TreeValue::Sequence(vec![])),
    ]);
    let bytes = render(&doc).expect("document is representable");
    assert_eq!(
        String::from_utf8(bytes).unwrap(),
        "{\"empty_map\":{},\"empty_seq\":[]}"
    );
}

#[test]
fn pointer_notation_of_paths() {
    let path = vec![PathSeg::Key(String::from("a~b/c")), PathSeg::Index(10)];
    let s = pointer_of(&path).expect("keys are representable");
    assert_eq!(s, "/a~0b~1c/10");
    let empty: Vec<PathSeg> = vec![];
    assert_eq!(pointer_of(&empty).expect("the empty path renders"), "");
    let bad = vec![PathSeg::Key(String::from("say \"hi\""))];
    assert!(matches!(pointer_of(&bad), Err(ConversionError::Unrepresentable)));
}
