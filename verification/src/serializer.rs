//! Rendering of a document tree as YASS text, in a compact single-line
//! style or in a spaced style with line breaks and indentation.

use vstd::prelude::*;

use crate::text_util::push_char;
use crate::value::Document;
use crate::value::StructField;
use crate::value::Value;

verus! {

/// A line break style.
#[derive(Copy, Clone, Debug, PartialEq, Eq, Structural)]
pub enum LineBreakType {
    Lf,
    CrLf,
    Cr,
}

impl LineBreakType {
    /// The characters of this line break.
    pub open spec fn spec_str(self) -> Seq<char> {
        match self {
            LineBreakType::Lf => seq!['\n'],
            LineBreakType::CrLf => seq!['\r', '\n'],
            LineBreakType::Cr => seq!['\r'],
        }
    }

    /// The text of this line break.
    pub fn to_str(self) -> (r: &'static str)
        ensures
            r@ == self.spec_str(),
    {
        match self {
            LineBreakType::Lf => {
                let r = "\n";
                proof {
                    reveal_strlit("\n");
                    assert(r@ =~= self.spec_str());
                }
                r
            },
            LineBreakType::CrLf => {
                let r = "\r\n";
                proof {
                    reveal_strlit("\r\n");
                    assert(r@ =~= self.spec_str());
                }
                r
            },
            LineBreakType::Cr => {
                let r = "\r";
                proof {
                    reveal_strlit("\r");
                    assert(r@ =~= self.spec_str());
                }
                r
            },
        }
    }
}

/// An indentation character.
#[derive(Copy, Clone, Debug, PartialEq, Eq, Structural)]
pub enum IndentType {
    Space,
    Tabulator,
}

impl IndentType {
    /// The character used by this indentation style.
    pub open spec fn spec_char(self) -> char {
        match self {
            IndentType::Space => ' ',
            IndentType::Tabulator => '\t',
        }
    }

    /// The character used by this indentation style.
    pub fn to_char(self) -> (r: char)
        ensures
            r == self.spec_char(),
    {
        match self {
            IndentType::Space => ' ',
            IndentType::Tabulator => '\t',
        }
    }
}

/// How a document is rendered: on one line, or spaced over lines with
/// indentation.
#[derive(Clone, Debug)]
pub enum SerializeStyle {
    Compact,
    Spaced { line_break_type: LineBreakType, indent_type: IndentType, indent_length: usize },
}

/// The compact text of a value.
pub open spec fn compact_value_text(v: Value) -> Seq<char>
    decreases v, 0int, 0int,
{
    match v {
        Value::Atom(atom) => atom@,
        Value::Array(items) => seq!['['] + compact_items_text(items@, 0) + seq![']'],
        Value::Tagged(tag, sub) => seq!['('] + tag@ + seq![')'] + compact_value_text(*sub),
        Value::Struct(fields) => seq!['{'] + compact_fields_text(fields@, 0) + seq!['}'],
    }
}

/// The compact text of the items of an array from index `i` on, each but
/// the first preceded by a space.
pub open spec fn compact_items_text(items: Seq<Box<Value>>, i: int) -> Seq<char>
    decreases items, 1int, items.len() - i,
{
    if i < 0 || i >= items.len() {
        Seq::empty()
    } else {
        (if i > 0 {
            seq![' ']
        } else {
            Seq::empty()
        }) + compact_value_text(*items[i]) + compact_items_text(items, i + 1)
    }
}

/// The compact text of the fields of a struct from index `i` on, each but
/// the first preceded by a space.
pub open spec fn compact_fields_text(fields: Seq<StructField>, i: int) -> Seq<char>
    decreases fields, 1int, fields.len() - i,
{
    if i < 0 || i >= fields.len() {
        Seq::empty()
    } else {
        (if i > 0 {
            seq![' ']
        } else {
            Seq::empty()
        }) + fields[i].key@ + seq![' '] + compact_value_text(*fields[i].value)
            + compact_fields_text(fields, i + 1)
    }
}

/// The compact text of a whole document: the parenthesized header, and
/// each root field preceded by a space.
pub open spec fn compact_document_text(doc: Document) -> Seq<char> {
    seq!['('] + doc.header@ + seq![')'] + compact_root_fields_text(doc.root_fields@, 0)
}

/// The compact text of the root fields from index `i` on.
pub open spec fn compact_root_fields_text(fields: Seq<StructField>, i: int) -> Seq<char>
    decreases fields, 1int, fields.len() - i,
{
    if i < 0 || i >= fields.len() {
        Seq::empty()
    } else {
        seq![' '] + fields[i].key@ + seq![' '] + compact_value_text(*fields[i].value)
            + compact_root_fields_text(fields, i + 1)
    }
}

/// The spaced text of a value; `lb` is the line break, `unit` one level of
/// indentation and `cur` the indentation of the surrounding line.
pub open spec fn spaced_value_text(v: Value, lb: Seq<char>, unit: Seq<char>, cur: Seq<char>)
    -> Seq<char>
    decreases v, 0int, 0int,
{
    match v {
        Value::Atom(atom) => atom@,
        Value::Array(items) => {
            if items@.len() == 0 {
                seq!['[', ']']
            } else {
                seq!['['] + spaced_items_text(items@, 0, lb, unit, cur) + lb + cur + seq![']']
            }
        },
        Value::Tagged(tag, sub) => seq!['('] + tag@ + seq![')'] + spaced_value_text(
            *sub,
            lb,
            unit,
            cur,
        ),
        Value::Struct(fields) => {
            if fields@.len() == 0 {
                seq!['{', '}']
            } else {
                seq!['{'] + spaced_fields_text(fields@, 0, lb, unit, cur) + lb + cur + seq!['}']
            }
        },
    }
}

/// The spaced text of the items of an array from index `i` on, each on its
/// own line indented one level deeper than `cur`.
pub open spec fn spaced_items_text(
    items: Seq<Box<Value>>,
    i: int,
    lb: Seq<char>,
    unit: Seq<char>,
    cur: Seq<char>,
) -> Seq<char>
    decreases items, 1int, items.len() - i,
{
    if i < 0 || i >= items.len() {
        Seq::empty()
    } else {
        lb + cur + unit + spaced_value_text(*items[i], lb, unit, cur + unit)
            + spaced_items_text(items, i + 1, lb, unit, cur)
    }
}

/// The spaced text of the fields of a struct from index `i` on, each on
/// its own line indented one level deeper than `cur`.
pub open spec fn spaced_fields_text(
    fields: Seq<StructField>,
    i: int,
    lb: Seq<char>,
    unit: Seq<char>,
    cur: Seq<char>,
) -> Seq<char>
    decreases fields, 1int, fields.len() - i,
{
    if i < 0 || i >= fields.len() {
        Seq::empty()
    } else {
        lb + cur + unit + fields[i].key@ + seq![' '] + spaced_value_text(
            *fields[i].value,
            lb,
            unit,
            cur + unit,
        ) + spaced_fields_text(fields, i + 1, lb, unit, cur)
    }
}

/// The spaced text of a whole document: the parenthesized header, and each
/// root field on its own unindented line.
pub open spec fn spaced_document_text(doc: Document, lb: Seq<char>, unit: Seq<char>) -> Seq<char> {
    seq!['('] + doc.header@ + seq![')'] + spaced_root_fields_text(doc.root_fields@, 0, lb, unit)
}

/// The spaced text of the root fields from index `i` on.
pub open spec fn spaced_root_fields_text(
    fields: Seq<StructField>,
    i: int,
    lb: Seq<char>,
    unit: Seq<char>,
) -> Seq<char>
    decreases fields, 1int, fields.len() - i,
{
    if i < 0 || i >= fields.len() {
        Seq::empty()
    } else {
        lb + fields[i].key@ + seq![' '] + spaced_value_text(*fields[i].value, lb, unit, Seq::empty())
            + spaced_root_fields_text(fields, i + 1, lb, unit)
    }
}

/// The sequence holding `n` copies of `c`.
pub open spec fn char_repeat(c: char, n: int) -> Seq<char>
    decreases n,
{
    if n <= 0 {
        Seq::empty()
    } else {
        char_repeat(c, n - 1).push(c)
    }
}

/// Appends the text of `s` to `output`.
///
/// Relies on `String::push_str`: it appends exactly the given text.
#[verifier::external_body]
fn push_str(output: &mut String, s: &str)
    ensures
        final(output)@ == old(output)@ + s@,
{
    output.push_str(s);
}

/// Appends the compact text of `value` to `output`.
fn compact_value(value: &Value, output: &mut String)
    ensures
        final(output)@ == old(output)@ + compact_value_text(*value),
    decreases *value,
{
    match value {
        Value::Atom(atom) => {
            push_str(output, atom.as_str());
        },
        Value::Array(items) => {
            push_char(output, '[');
            let n = items.len();
            let mut i: usize = 0;
            proof {
                assert(old(output)@.push('[') + (compact_items_text(items@, 0) + seq![']'])
                    =~= old(output)@ + compact_value_text(*value));
            }
            while i < n
                invariant
                    i <= n,
                    n == items@.len(),
                    value is Array && value->Array_0 == *items,
                    output@ + compact_items_text(items@, i as int) + seq![']'] =~= old(output)@
                        + compact_value_text(*value),
                decreases n - i,
            {
                if i != 0 {
                    push_char(output, ' ');
                }
                let item: &Value = &items[i];
                compact_value(item, output);
                proof {
                    assert(compact_items_text(items@, i as int) =~= (if i > 0 {
                        seq![' ']
                    } else {
                        Seq::<char>::empty()
                    }) + compact_value_text(*items@[i as int]) + compact_items_text(
                        items@,
                        i + 1,
                    ));
                }
                i = i + 1;
            }
            push_char(output, ']');
            proof {
                assert(compact_items_text(items@, n as int) =~= Seq::<char>::empty());
                assert(final(output)@ =~= old(output)@ + compact_value_text(*value));
            }
        },
        Value::Tagged(tag, sub) => {
            push_char(output, '(');
            push_str(output, tag.as_str());
            push_char(output, ')');
            let sv: &Value = sub;
            compact_value(sv, output);
            proof {
                assert(final(output)@ =~= old(output)@ + compact_value_text(*value));
            }
        },
        Value::Struct(fields) => {
            push_char(output, '{');
            let n = fields.len();
            let mut i: usize = 0;
            proof {
                assert(old(output)@.push('{') + (compact_fields_text(fields@, 0) + seq!['}'])
                    =~= old(output)@ + compact_value_text(*value));
            }
            while i < n
                invariant
                    i <= n,
                    n == fields@.len(),
                    value is Struct && value->Struct_0 == *fields,
                    output@ + compact_fields_text(fields@, i as int) + seq!['}'] =~= old(output)@
                        + compact_value_text(*value),
                decreases n - i,
            {
                if i != 0 {
                    push_char(output, ' ');
                }
                push_str(output, fields[i].key.as_str());
                push_char(output, ' ');
                let fv: &Value = &fields[i].value;
                compact_value(fv, output);
                proof {
                    assert(compact_fields_text(fields@, i as int) =~= (if i > 0 {
                        seq![' ']
                    } else {
                        Seq::<char>::empty()
                    }) + fields@[i as int].key@ + seq![' '] + compact_value_text(
                        *fields@[i as int].value,
                    ) + compact_fields_text(fields@, i + 1));
                }
                i = i + 1;
            }
            push_char(output, '}');
            proof {
                assert(compact_fields_text(fields@, n as int) =~= Seq::<char>::empty());
                assert(final(output)@ =~= old(output)@ + compact_value_text(*value));
            }
        },
    }
}

/// Appends the compact text of a whole document to `output`.
fn compact_root(header: &str, fields: &Vec<StructField>, output: &mut String)
    ensures
        final(output)@ == old(output)@ + seq!['('] + header@ + seq![')']
            + compact_root_fields_text(fields@, 0),
{
    push_char(output, '(');
    push_str(output, header);
    push_char(output, ')');
    let base = Ghost(old(output)@ + seq!['('] + header@ + seq![')']);
    proof {
        assert(output@ =~= base@);
    }
    let n = fields.len();
    let mut i: usize = 0;
    while i < n
        invariant
            i <= n,
            n == fields@.len(),
            output@ + compact_root_fields_text(fields@, i as int) =~= base@
                + compact_root_fields_text(fields@, 0),
        decreases n - i,
    {
        push_char(output, ' ');
        push_str(output, fields[i].key.as_str());
        push_char(output, ' ');
        let fv: &Value = &fields[i].value;
        compact_value(fv, output);
        proof {
            assert(compact_root_fields_text(fields@, i as int) =~= seq![' ']
                + fields@[i as int].key@ + seq![' '] + compact_value_text(*fields@[i as int].value)
                + compact_root_fields_text(fields@, i + 1));
        }
        i = i + 1;
    }
    proof {
        assert(compact_root_fields_text(fields@, n as int) =~= Seq::<char>::empty());
        assert(final(output)@ =~= base@ + compact_root_fields_text(fields@, 0));
    }
}

/// Appends the spaced text of `value` to `output`; `cur` is the
/// indentation of the surrounding line.
fn spaced_value(value: &Value, lb: &str, unit: &str, cur: &str, output: &mut String)
    ensures
        final(output)@ == old(output)@ + spaced_value_text(*value, lb@, unit@, cur@),
    decreases *value,
{
    match value {
        Value::Atom(atom) => {
            push_str(output, atom.as_str());
        },
        Value::Array(items) => {
            let n = items.len();
            if n == 0 {
                push_char(output, '[');
                push_char(output, ']');
                proof {
                    assert(final(output)@ =~= old(output)@ + spaced_value_text(
                        *value,
                        lb@,
                        unit@,
                        cur@,
                    ));
                }
            } else {
                push_char(output, '[');
                let mut deeper = String::new();
                push_str(&mut deeper, cur);
                push_str(&mut deeper, unit);
                assert(deeper@ =~= cur@ + unit@);
                let mut i: usize = 0;
                proof {
                    assert(old(output)@.push('[') + (spaced_items_text(items@, 0, lb@, unit@, cur@)
                        + lb@ + cur@ + seq![']']) =~= old(output)@ + spaced_value_text(
                        *value,
                        lb@,
                        unit@,
                        cur@,
                    ));
                }
                while i < n
                    invariant
                        i <= n,
                        n == items@.len(),
                        n > 0,
                        value is Array && value->Array_0 == *items,
                        deeper@ == cur@ + unit@,
                        output@ + spaced_items_text(items@, i as int, lb@, unit@, cur@) + lb@ + cur@
                            + seq![']'] =~= old(output)@ + spaced_value_text(
                            *value,
                            lb@,
                            unit@,
                            cur@,
                        ),
                    decreases n - i,
                {
                    push_str(output, lb);
                    push_str(output, cur);
                    push_str(output, unit);
                    let item: &Value = &items[i];
                    spaced_value(item, lb, unit, deeper.as_str(), output);
                    proof {
                        assert(spaced_items_text(items@, i as int, lb@, unit@, cur@) =~= lb@ + cur@
                            + unit@ + spaced_value_text(*items@[i as int], lb@, unit@, cur@ + unit@)
                            + spaced_items_text(items@, i + 1, lb@, unit@, cur@));
                    }
                    i = i + 1;
                }
                push_str(output, lb);
                push_str(output, cur);
                push_char(output, ']');
                proof {
                    assert(spaced_items_text(items@, n as int, lb@, unit@, cur@) =~= Seq::<
                        char,
                    >::empty());
                    assert(final(output)@ =~= old(output)@ + spaced_value_text(
                        *value,
                        lb@,
                        unit@,
                        cur@,
                    ));
                }
            }
        },
        Value::Tagged(tag, sub) => {
            push_char(output, '(');
            push_str(output, tag.as_str());
            push_char(output, ')');
            let sv: &Value = sub;
            spaced_value(sv, lb, unit, cur, output);
            proof {
                assert(final(output)@ =~= old(output)@ + spaced_value_text(
                    *value,
                    lb@,
                    unit@,
                    cur@,
                ));
            }
        },
        Value::Struct(fields) => {
            let n = fields.len();
            if n == 0 {
                push_char(output, '{');
                push_char(output, '}');
                proof {
                    assert(final(output)@ =~= old(output)@ + spaced_value_text(
                        *value,
                        lb@,
                        unit@,
                        cur@,
                    ));
                }
            } else {
                push_char(output, '{');
                let mut deeper = String::new();
                push_str(&mut deeper, cur);
                push_str(&mut deeper, unit);
                assert(deeper@ =~= cur@ + unit@);
                let mut i: usize = 0;
                proof {
                    assert(old(output)@.push('{') + (spaced_fields_text(
                        fields@,
                        0,
                        lb@,
                        unit@,
                        cur@,
                    ) + lb@ + cur@ + seq!['}']) =~= old(output)@ + spaced_value_text(
                        *value,
                        lb@,
                        unit@,
                        cur@,
                    ));
                }
                while i < n
                    invariant
                        i <= n,
                        n == fields@.len(),
                        n > 0,
                        value is Struct && value->Struct_0 == *fields,
                        deeper@ == cur@ + unit@,
                        output@ + spaced_fields_text(fields@, i as int, lb@, unit@, cur@) + lb@
                            + cur@ + seq!['}'] =~= old(output)@ + spaced_value_text(
                            *value,
                            lb@,
                            unit@,
                            cur@,
                        ),
                    decreases n - i,
                {
                    push_str(output, lb);
                    push_str(output, cur);
                    push_str(output, unit);
                    push_str(output, fields[i].key.as_str());
                    push_char(output, ' ');
                    let fv: &Value = &fields[i].value;
                    spaced_value(fv, lb, unit, deeper.as_str(), output);
                    proof {
                        assert(spaced_fields_text(fields@, i as int, lb@, unit@, cur@) =~= lb@
                            + cur@ + unit@ + fields@[i as int].key@ + seq![' ']
                            + spaced_value_text(*fields@[i as int].value, lb@, unit@, cur@ + unit@)
                            + spaced_fields_text(fields@, i + 1, lb@, unit@, cur@));
                    }
                    i = i + 1;
                }
                push_str(output, lb);
                push_str(output, cur);
                push_char(output, '}');
                proof {
                    assert(spaced_fields_text(fields@, n as int, lb@, unit@, cur@) =~= Seq::<
                        char,
                    >::empty());
                    assert(final(output)@ =~= old(output)@ + spaced_value_text(
                        *value,
                        lb@,
                        unit@,
                        cur@,
                    ));
                }
            }
        },
    }
}

/// Appends the spaced text of a whole document to `output`.
fn spaced_root(header: &str, fields: &Vec<StructField>, lb: &str, unit: &str, output: &mut String)
    ensures
        final(output)@ == old(output)@ + seq!['('] + header@ + seq![')']
            + spaced_root_fields_text(fields@, 0, lb@, unit@),
{
    push_char(output, '(');
    push_str(output, header);
    push_char(output, ')');
    let base = Ghost(old(output)@ + seq!['('] + header@ + seq![')']);
    proof {
        assert(output@ =~= base@);
    }
    let n = fields.len();
    let mut i: usize = 0;
    while i < n
        invariant
            i <= n,
            n == fields@.len(),
            output@ + spaced_root_fields_text(fields@, i as int, lb@, unit@) =~= base@
                + spaced_root_fields_text(fields@, 0, lb@, unit@),
        decreases n - i,
    {
        push_str(output, lb);
        push_str(output, fields[i].key.as_str());
        push_char(output, ' ');
        let empty_cur = "";
        proof {
            reveal_strlit("");
            assert(empty_cur@ =~= Seq::<char>::empty());
        }
        let fv: &Value = &fields[i].value;
        spaced_value(fv, lb, unit, empty_cur, output);
        proof {
            assert(spaced_root_fields_text(fields@, i as int, lb@, unit@) =~= lb@
                + fields@[i as int].key@ + seq![' '] + spaced_value_text(
                *fields@[i as int].value,
                lb@,
                unit@,
                Seq::empty(),
            ) + spaced_root_fields_text(fields@, i + 1, lb@, unit@));
        }
        i = i + 1;
    }
    proof {
        assert(spaced_root_fields_text(fields@, n as int, lb@, unit@) =~= Seq::<char>::empty());
        assert(final(output)@ =~= base@ + spaced_root_fields_text(fields@, 0, lb@, unit@));
    }
}

impl SerializeStyle {
    /// The text this style renders `document` as.
    pub open spec fn spec_text(self, document: Document) -> Seq<char> {
        match self {
            SerializeStyle::Compact => compact_document_text(document),
            SerializeStyle::Spaced { line_break_type, indent_type, indent_length } =>
                spaced_document_text(
                document,
                line_break_type.spec_str(),
                char_repeat(indent_type.spec_char(), indent_length as int),
            ),
        }
    }

    /// Appends the text of `document` in this style to `output`. No line
    /// break is added at the end of the output.
    pub fn serialize(&self, document: &Document, output: &mut String)
        ensures
            final(output)@ == old(output)@ + self.spec_text(*document),
    {
        match self {
            SerializeStyle::Compact => {
                compact_root(document.header.as_str(), &document.root_fields, output);
                proof {
                    assert(final(output)@ =~= old(output)@ + self.spec_text(*document));
                }
            },
            SerializeStyle::Spaced { line_break_type, indent_type, indent_length } => {
                let lb = line_break_type.to_str();
                let c = indent_type.to_char();
                let k = *indent_length;
                let mut unit = String::new();
                let mut j: usize = 0;
                while j < k
                    invariant
                        j <= k,
                        unit@ =~= char_repeat(indent_type.spec_char(), j as int),
                        c == indent_type.spec_char(),
                    decreases k - j,
                {
                    push_char(&mut unit, c);
                    j = j + 1;
                }
                spaced_root(
                    document.header.as_str(),
                    &document.root_fields,
                    lb,
                    unit.as_str(),
                    output,
                );
                proof {
                    assert(final(output)@ =~= old(output)@ + self.spec_text(*document));
                }
            },
        }
    }

    /// The text of `document` in this style.
    pub fn serialize_as_string(&self, document: &Document) -> (r: String)
        ensures
            r@ == self.spec_text(*document),
    {
        let mut output = String::new();
        self.serialize(document, &mut output);
        proof {
            assert(output@ =~= self.spec_text(*document));
        }
        output
    }
}

} // verus!
