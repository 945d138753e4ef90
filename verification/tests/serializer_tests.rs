// Ports of the document serializer test suite, in both the compact and
// the spaced style.

use yass::Document;
use yass::IndentType;
use yass::LineBreakType;
use yass::SerializeStyle;
use yass::StructField;
use yass::Value;

fn atom(text: &str) -> Box<Value> {
    Box::new(Value::Atom(text.to_string()))
}

fn field(key: &str, value: Box<Value>) -> StructField {
    StructField { key: key.to_string(), value }
}

fn document(header: &str, root_fields: Vec<StructField>) -> Document {
    Document { header: header.to_string(), root_fields }
}

fn compact_style() -> SerializeStyle {
    SerializeStyle::Compact
}

fn spaced_style() -> SerializeStyle {
    SerializeStyle::Spaced {
        line_break_type: LineBreakType::Lf,
        indent_type: IndentType::Tabulator,
        indent_length: 1,
    }
}

#[test]
fn test_empty() {
    let document = document("test", vec![]);
    let expected_result_compact = "(test)";
    let expected_result_spaced = "(test)";
    let serialized_compact = compact_style().serialize_as_string(&document);
    let serialized_spaced = spaced_style().serialize_as_string(&document);
    assert_eq!(serialized_compact, expected_result_compact);
    assert_eq!(serialized_spaced, expected_result_spaced);
}

#[test]
fn test_atom() {
    let document = document("test", vec![field("a", atom("123"))]);
    let expected_result_compact = "(test) a 123";
    let expected_result_spaced = "(test)\na 123";
    let serialized_compact = compact_style().serialize_as_string(&document);
    let serialized_spaced = spaced_style().serialize_as_string(&document);
    assert_eq!(serialized_compact, expected_result_compact);
    assert_eq!(serialized_spaced, expected_result_spaced);
}

#[test]
fn test_array_1() {
    let document = document("test", vec![field("a", Box::new(Value::Array(vec![])))]);
    let expected_result_compact = "(test) a []";
    let expected_result_spaced = "(test)\na []";
    let serialized_compact = compact_style().serialize_as_string(&document);
    let serialized_spaced = spaced_style().serialize_as_string(&document);
    assert_eq!(serialized_compact, expected_result_compact);
    assert_eq!(serialized_spaced, expected_result_spaced);
}

#[test]
fn test_array_2() {
    let document = document(
        "test",
        vec![field("a", Box::new(Value::Array(vec![atom("1"), atom("2"), atom("3")])))],
    );
    let expected_result_compact = "(test) a [1 2 3]";
    let expected_result_spaced = "(test)\na [\n\t1\n\t2\n\t3\n]";
    let serialized_compact = compact_style().serialize_as_string(&document);
    let serialized_spaced = spaced_style().serialize_as_string(&document);
    assert_eq!(serialized_compact, expected_result_compact);
    assert_eq!(serialized_spaced, expected_result_spaced);
}

#[test]
fn test_array_3() {
    let document = document(
        "test",
        vec![
            field(
                "a",
                Box::new(Value::Array(vec![Box::new(Value::Array(vec![Box::new(Value::Array(
                    vec![],
                ))]))])),
            ),
        ],
    );
    let expected_result_compact = "(test) a [[[]]]";
    let expected_result_spaced = "(test)\na [\n\t[\n\t\t[]\n\t]\n]";
    let serialized_compact = compact_style().serialize_as_string(&document);
    let serialized_spaced = spaced_style().serialize_as_string(&document);
    assert_eq!(serialized_compact, expected_result_compact);
    assert_eq!(serialized_spaced, expected_result_spaced);
}

#[test]
fn test_struct_1() {
    let document = document("test", vec![field("a", Box::new(Value::Struct(vec![])))]);
    let expected_result_compact = "(test) a {}";
    let expected_result_spaced = "(test)\na {}";
    let serialized_compact = compact_style().serialize_as_string(&document);
    let serialized_spaced = spaced_style().serialize_as_string(&document);
    assert_eq!(serialized_compact, expected_result_compact);
    assert_eq!(serialized_spaced, expected_result_spaced);
}

#[test]
fn test_struct_2() {
    let document = document(
        "test",
        vec![
            field(
                "a",
                Box::new(Value::Struct(vec![
                    field("a", atom("1")),
                    field("b", atom("2")),
                    field("c", atom("3")),
                ])),
            ),
        ],
    );
    let expected_result_compact = "(test) a {a 1 b 2 c 3}";
    let expected_result_spaced = "(test)\na {\n\ta 1\n\tb 2\n\tc 3\n}";
    let serialized_compact = compact_style().serialize_as_string(&document);
    let serialized_spaced = spaced_style().serialize_as_string(&document);
    assert_eq!(serialized_compact, expected_result_compact);
    assert_eq!(serialized_spaced, expected_result_spaced);
}

#[test]
fn test_tagged_1() {
    let document = document(
        "test",
        vec![
            field(
                "a",
                Box::new(Value::Tagged(
                    "tag".to_string(),
                    Box::new(Value::Struct(vec![field("a", atom("1")), field("b", atom("2"))])),
                )),
            ),
        ],
    );
    let expected_result_compact = "(test) a (tag){a 1 b 2}";
    let expected_result_spaced = "(test)\na (tag){\n\ta 1\n\tb 2\n}";
    let serialized_compact = compact_style().serialize_as_string(&document);
    let serialized_spaced = spaced_style().serialize_as_string(&document);
    assert_eq!(serialized_compact, expected_result_compact);
    assert_eq!(serialized_spaced, expected_result_spaced);
}
