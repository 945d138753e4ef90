//! The YASS value tree: atoms, arrays, tagged values and structs, together
//! with documents and text positions.

use vstd::prelude::*;

verus! {

/// A position in a text file. `line` and `column` begin to count with zero.
#[derive(Copy, Clone, Debug, PartialEq, Eq, Hash, Structural)]
pub struct Pos {
    pub line: u32,
    pub column: u32,
}

impl Pos {
    /// Builds the position with the given line and column.
    #[inline]
    pub fn new(line: u32, column: u32) -> (r: Self)
        ensures
            r.line == line && r.column == column,
    {
        Self { line, column }
    }
}

/// A YASS value: a textual atom, an array, a tagged value or a struct.
///
/// An atom carries its raw text, quoting and escapes kept; the atom codecs
/// of this crate turn such text into native values and back.
#[derive(Debug, PartialEq, Eq, Hash)]
pub enum Value {
    /// A simple atom, as raw text: `123`, `1.0`, `"string"`.
    Atom(String),
    /// An array of values: `[1 2 3]`.
    Array(Vec<Box<Value>>),
    /// A tagged value: `(tag)value`.
    Tagged(String, Box<Value>),
    /// A struct: `{key1 value1 key2 value2}`, keys in written order.
    Struct(Vec<StructField>),
}

/// One key/value pair of a struct.
#[derive(Debug, PartialEq, Eq, Hash)]
pub struct StructField {
    pub key: String,
    pub value: Box<Value>,
}

/// A full YASS document: a header naming the document type, and the
/// key/value fields of the root struct.
#[derive(Debug, PartialEq, Eq, Hash)]
pub struct Document {
    pub header: String,
    pub root_fields: Vec<StructField>,
}

} // verus!
