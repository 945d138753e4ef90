// Ports of the structural parser test suite: documents, positions,
// line/column tracking, comments, and every limit failure.

use yass::Document;
use yass::ParserError;
use yass::ParserLimits;
use yass::Pos;
use yass::StructField;
use yass::Value;

fn atom(text: &str) -> Box<Value> {
    Box::new(Value::Atom(text.to_string()))
}

fn field(key: &str, value: Box<Value>) -> StructField {
    StructField { key: key.to_string(), value }
}

fn document(header: &str, root_fields: Vec<StructField>) -> Document {
    Document { header: header.to_string(), root_fields }
}

fn parse_doc(data: &[u8]) -> (Document, Vec<Pos>) {
    yass::parse(ParserLimits::unlimited(), data).unwrap()
}

#[test]
fn test_simple_1() {
    let src_data = b"(test)";
    let expected_document = document("test", vec![]);
    let expected_positions: Vec<Pos> = vec![];
    let (result_doc, positions) = parse_doc(src_data);
    assert_eq!(result_doc, expected_document);
    assert_eq!(positions, expected_positions);
}

#[test]
fn test_simple_2() {
    let src_data = b"(test) a b";
    let expected_document = document("test", vec![field("a", atom("b"))]);
    let expected_positions = vec![Pos::new(0, 7), Pos::new(0, 9)];
    let (result_doc, positions) = parse_doc(src_data);
    assert_eq!(result_doc, expected_document);
    assert_eq!(positions, expected_positions);
}

#[test]
fn test_simple_3() {
    let src_data = b"(test) a1 b1 a2 b2";
    let expected_document = document(
        "test",
        vec![field("a1", atom("b1")), field("a2", atom("b2"))],
    );
    let expected_positions = vec![Pos::new(0, 7), Pos::new(0, 10), Pos::new(0, 13), Pos::new(0, 16)];
    let (result_doc, positions) = parse_doc(src_data);
    assert_eq!(result_doc, expected_document);
    assert_eq!(positions, expected_positions);
}

#[test]
fn tests_test_array_1() {
    let src_data = b"(test) array []";
    let expected_document = document("test", vec![field("array", Box::new(Value::Array(vec![])))]);
    let expected_positions = vec![Pos::new(0, 7), Pos::new(0, 13)];
    let (result_doc, positions) = parse_doc(src_data);
    assert_eq!(result_doc, expected_document);
    assert_eq!(positions, expected_positions);
}

#[test]
fn tests_test_array_2() {
    let src_data = b"(test) array [1 2 3]";
    let expected_document = document(
        "test",
        vec![field("array", Box::new(Value::Array(vec![atom("1"), atom("2"), atom("3")])))],
    );
    let expected_positions = vec![
        Pos::new(0, 7),
        Pos::new(0, 13),
        Pos::new(0, 14),
        Pos::new(0, 16),
        Pos::new(0, 18),
    ];
    let (result_doc, positions) = parse_doc(src_data);
    assert_eq!(result_doc, expected_document);
    assert_eq!(positions, expected_positions);
}

#[test]
fn tests_test_struct_1() {
    let src_data = b"(test) struct {}";
    let expected_document = document(
        "test",
        vec![field("struct", Box::new(Value::Struct(vec![])))],
    );
    let expected_positions = vec![Pos::new(0, 7), Pos::new(0, 14)];
    let (result_doc, positions) = parse_doc(src_data);
    assert_eq!(result_doc, expected_document);
    assert_eq!(positions, expected_positions);
}

#[test]
fn tests_test_struct_2() {
    let src_data = b"(test) struct {a1 b1 a2 b2}";
    let expected_document = document(
        "test",
        vec![
            field(
                "struct",
                Box::new(Value::Struct(vec![field("a1", atom("b1")), field("a2", atom("b2"))])),
            ),
        ],
    );
    let expected_positions = vec![
        Pos::new(0, 7),
        Pos::new(0, 14),
        Pos::new(0, 15),
        Pos::new(0, 18),
        Pos::new(0, 21),
        Pos::new(0, 24),
    ];
    let (result_doc, positions) = parse_doc(src_data);
    assert_eq!(result_doc, expected_document);
    assert_eq!(positions, expected_positions);
}

#[test]
fn test_string_1() {
    let src_data = b"(test) a \"abc\"";
    let expected_document = document("test", vec![field("a", atom("\"abc\""))]);
    let expected_positions = vec![Pos::new(0, 7), Pos::new(0, 9)];
    let (result_doc, positions) = parse_doc(src_data);
    assert_eq!(result_doc, expected_document);
    assert_eq!(positions, expected_positions);
}

#[test]
fn test_string_2() {
    let src_data = b"(test) a A\"a b c\"B";
    let expected_document = document("test", vec![field("a", atom("A\"a b c\"B"))]);
    let expected_positions = vec![Pos::new(0, 7), Pos::new(0, 9)];
    let (result_doc, positions) = parse_doc(src_data);
    assert_eq!(result_doc, expected_document);
    assert_eq!(positions, expected_positions);
}

#[test]
fn tests_test_tagged_1() {
    let src_data = b"(test) a (tag)123";
    let expected_document = document(
        "test",
        vec![field("a", Box::new(Value::Tagged("tag".to_string(), atom("123"))))],
    );
    let expected_positions = vec![Pos::new(0, 7), Pos::new(0, 9), Pos::new(0, 14)];
    let (result_doc, positions) = parse_doc(src_data);
    assert_eq!(result_doc, expected_document);
    assert_eq!(positions, expected_positions);
}

#[test]
fn test_struct_string_3() {
    let src_data = b"(test) a \" \\\\ \\\" \"";
    let expected_document = document("test", vec![field("a", atom("\" \\\\ \\\" \""))]);
    let expected_positions = vec![Pos::new(0, 7), Pos::new(0, 9)];
    let (result_doc, positions) = parse_doc(src_data);
    assert_eq!(result_doc, expected_document);
    assert_eq!(positions, expected_positions);
}

#[test]
fn test_multiline_lf() {
    let src_data = b"(test) a b\nc d";
    let expected_document = document(
        "test",
        vec![field("a", atom("b")), field("c", atom("d"))],
    );
    let expected_positions = vec![Pos::new(0, 7), Pos::new(0, 9), Pos::new(1, 0), Pos::new(1, 2)];
    let (result_doc, positions) = parse_doc(src_data);
    assert_eq!(result_doc, expected_document);
    assert_eq!(positions, expected_positions);
}

#[test]
fn test_multiline_crlf() {
    let src_data = b"(test) a b\r\nc d";
    let expected_document = document(
        "test",
        vec![field("a", atom("b")), field("c", atom("d"))],
    );
    let expected_positions = vec![Pos::new(0, 7), Pos::new(0, 9), Pos::new(1, 0), Pos::new(1, 2)];
    let (result_doc, positions) = parse_doc(src_data);
    assert_eq!(result_doc, expected_document);
    assert_eq!(positions, expected_positions);
}

#[test]
fn test_multiline_cr() {
    let src_data = b"(test) a b\rc d";
    let expected_document = document(
        "test",
        vec![field("a", atom("b")), field("c", atom("d"))],
    );
    let expected_positions = vec![Pos::new(0, 7), Pos::new(0, 9), Pos::new(1, 0), Pos::new(1, 2)];
    let (result_doc, positions) = parse_doc(src_data);
    assert_eq!(result_doc, expected_document);
    assert_eq!(positions, expected_positions);
}

#[test]
fn test_multiline_mixed() {
    let src_data = b"(test) a b\n\r\r\nc d";
    let expected_document = document(
        "test",
        vec![field("a", atom("b")), field("c", atom("d"))],
    );
    let expected_positions = vec![Pos::new(0, 7), Pos::new(0, 9), Pos::new(3, 0), Pos::new(3, 2)];
    let (result_doc, positions) = parse_doc(src_data);
    assert_eq!(result_doc, expected_document);
    assert_eq!(positions, expected_positions);
}

#[test]
fn test_comment_1() {
    let src_data = b"(test) a b\\comment";
    let expected_document = document("test", vec![field("a", atom("b"))]);
    let expected_positions = vec![Pos::new(0, 7), Pos::new(0, 9)];
    let (result_doc, positions) = parse_doc(src_data);
    assert_eq!(result_doc, expected_document);
    assert_eq!(positions, expected_positions);
}

#[test]
fn test_comment_2() {
    let src_data = b"(test) a b\\comment\nc d";
    let expected_document = document(
        "test",
        vec![field("a", atom("b")), field("c", atom("d"))],
    );
    let expected_positions = vec![Pos::new(0, 7), Pos::new(0, 9), Pos::new(1, 0), Pos::new(1, 2)];
    let (result_doc, positions) = parse_doc(src_data);
    assert_eq!(result_doc, expected_document);
    assert_eq!(positions, expected_positions);
}

#[test]
fn test_comment_3() {
    let src_data = b"(test) a [1\\comment\n2]";
    let expected_document = document(
        "test",
        vec![field("a", Box::new(Value::Array(vec![atom("1"), atom("2")])))],
    );
    let expected_positions = vec![Pos::new(0, 7), Pos::new(0, 9), Pos::new(0, 10), Pos::new(1, 0)];
    let (result_doc, positions) = parse_doc(src_data);
    assert_eq!(result_doc, expected_document);
    assert_eq!(positions, expected_positions);
}

#[test]
fn test_fail_empty() {
    let src_data = b"";
    assert!(yass::parse(ParserLimits::unlimited(), src_data).is_err());
}

#[test]
fn test_fail_empty_head() {
    let src_data = b"()";
    assert!(yass::parse(ParserLimits::unlimited(), src_data).is_err());
}

#[test]
fn test_fail_unfinished_string() {
    let src_data = b"(test) \"abc";
    assert!(yass::parse(ParserLimits::unlimited(), src_data).is_err());
}

#[test]
fn test_fail_unclosed_array() {
    let src_data = b"(test) [1 2";
    assert!(yass::parse(ParserLimits::unlimited(), src_data).is_err());
}

#[test]
fn test_fail_unclosed_struct() {
    let src_data = b"(test) {a 1 b 2";
    assert!(yass::parse(ParserLimits::unlimited(), src_data).is_err());
}

#[test]
fn test_fail_unclosed_array_with_comment() {
    let src_data = b"(test) [\\comment]";
    assert!(yass::parse(ParserLimits::unlimited(), src_data).is_err());
}

#[test]
fn test_fail_illegal_chr_in_atom() {
    let src_data = b"(test) a A\xFFB";
    assert!(yass::parse(ParserLimits::unlimited(), src_data).is_err());
}

#[test]
fn test_fail_illegal_chr_in_string() {
    let src_data = b"(test) a \"A\xFFB\"";
    assert!(yass::parse(ParserLimits::unlimited(), src_data).is_err());
}

#[test]
fn test_fail_too_deep() {
    let src_data = b"(test) a [[]]";
    let mut limits = ParserLimits::unlimited();
    limits.max_depth = 1;
    let expected_error = ParserError::TooDeep { pos: Pos::new(0, 10) };
    assert_eq!(yass::parse(limits, src_data).unwrap_err(), expected_error);
}

#[test]
fn test_fail_atom_too_long() {
    let src_data = b"(test) abc 123";
    let mut limits = ParserLimits::unlimited();
    limits.max_atom_length = 2;
    let expected_error = ParserError::AtomTooLong { pos: Pos::new(0, 11) };
    assert_eq!(yass::parse(limits, src_data).unwrap_err(), expected_error);
}

#[test]
fn test_fail_tag_too_long() {
    let src_data = b"(test) abc (tag)123";
    let mut limits = ParserLimits::unlimited();
    limits.max_tag_length = 2;
    let expected_error = ParserError::TagTooLong { pos: Pos::new(0, 12) };
    assert_eq!(yass::parse(limits, src_data).unwrap_err(), expected_error);
}

#[test]
fn test_fail_key_too_long() {
    let src_data = b"(test) abc []";
    let mut limits = ParserLimits::unlimited();
    limits.max_key_length = 2;
    let expected_error = ParserError::KeyTooLong { pos: Pos::new(0, 7) };
    assert_eq!(yass::parse(limits, src_data).unwrap_err(), expected_error);
}

#[test]
fn test_fail_array_too_big() {
    let src_data = b"(test) a [1 2 3]";
    let mut limits = ParserLimits::unlimited();
    limits.max_array_size = 2;
    let expected_error = ParserError::ArrayTooBig { pos: Pos::new(0, 14) };
    assert_eq!(yass::parse(limits, src_data).unwrap_err(), expected_error);
}

#[test]
fn test_fail_struct_too_big() {
    let src_data = b"(test) a {a 1 b 2 c 3}";
    let mut limits = ParserLimits::unlimited();
    limits.max_struct_size = 2;
    let expected_error = ParserError::StructTooBig { pos: Pos::new(0, 18) };
    assert_eq!(yass::parse(limits, src_data).unwrap_err(), expected_error);
}
