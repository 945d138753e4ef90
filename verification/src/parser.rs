//! The structural parser: a lexer over the raw bytes of a document and a
//! recursive-descent builder for the value tree, enforcing the caller's
//! depth and size limits and reporting the source position of every value
//! and struct field.
//!
//! Positions come back as one pre-order trace: for each root or struct
//! field first the position of its key, for each value the position of
//! its first token, children in written order.

use vstd::prelude::*;

use vstd::slice::slice_subrange;
use crate::value::Document;
use crate::value::Pos;
use crate::value::StructField;
use crate::value::Value;

verus! {

/// The kind of a token of the surface syntax.
#[derive(Copy, Clone, Debug, PartialEq, Eq, Structural)]
pub enum TokenKind {
    Eof,
    LeftParen,
    RightParen,
    LeftBracket,
    RightBracket,
    LeftBrace,
    RightBrace,
    Atom,
}

/// A parse failure, with the position it was noticed at.
#[derive(Copy, Clone, Debug, PartialEq, Eq, Structural)]
pub enum ParserError {
    IllegalChr { pos: Pos, chr: u8 },
    IllegalChrInString { pos: Pos, chr: u8 },
    UnfinishedString { pos: Pos },
    IllegalChrAfterAtom { pos: Pos, chr: u8 },
    UnexpectedToken { pos: Pos, token_kind: TokenKind },
    ExpectedToken { pos: Pos, token_kind: TokenKind },
    TooDeep { pos: Pos },
    AtomTooLong { pos: Pos },
    TagTooLong { pos: Pos },
    KeyTooLong { pos: Pos },
    ArrayTooBig { pos: Pos },
    StructTooBig { pos: Pos },
}

/// The limits a parse run enforces while building the tree.
#[derive(Copy, Clone, Debug)]
pub struct ParserLimits {
    pub max_depth: usize,
    pub max_atom_length: usize,
    pub max_key_length: usize,
    pub max_tag_length: usize,
    pub max_array_size: usize,
    pub max_struct_size: usize,
}

impl ParserLimits {
    /// Limits that allow everything.
    pub fn unlimited() -> (r: Self)
        ensures
            r.max_depth == usize::MAX,
            r.max_atom_length == usize::MAX,
            r.max_key_length == usize::MAX,
            r.max_tag_length == usize::MAX,
            r.max_array_size == usize::MAX,
            r.max_struct_size == usize::MAX,
    {
        Self {
            max_depth: usize::MAX,
            max_atom_length: usize::MAX,
            max_key_length: usize::MAX,
            max_tag_length: usize::MAX,
            max_array_size: usize::MAX,
            max_struct_size: usize::MAX,
        }
    }
}

/// Whether a value respects the atom, tag, key, array and struct size
/// limits, at every level.
pub open spec fn value_within_limits(v: Value, l: ParserLimits) -> bool
    decreases v,
{
    match v {
        Value::Atom(atom) => atom@.len() <= l.max_atom_length,
        Value::Array(items) => items@.len() <= l.max_array_size && (forall|i: int|
            0 <= i < items@.len() ==> value_within_limits(*#[trigger] items@[i], l)),
        Value::Tagged(tag, sub) => tag@.len() <= l.max_tag_length && value_within_limits(*sub, l),
        Value::Struct(fields) => fields@.len() <= l.max_struct_size && (forall|i: int|
            0 <= i < fields@.len() ==> (#[trigger] fields@[i]).key@.len() <= l.max_key_length
                && value_within_limits(*fields@[i].value, l)),
    }
}

/// Whether a whole document respects the limits: every root key and every
/// value below it.
pub open spec fn document_within_limits(doc: Document, l: ParserLimits) -> bool {
    forall|i: int|
        0 <= i < doc.root_fields@.len() ==> (#[trigger] doc.root_fields@[i]).key@.len()
            <= l.max_key_length && value_within_limits(*doc.root_fields@[i].value, l)
}

/// Whether `e` is one of the six errors that report an exceeded limit.
pub open spec fn is_limit_error(e: ParserError) -> bool {
    ||| e is TooDeep
    ||| e is AtomTooLong
    ||| e is KeyTooLong
    ||| e is TagTooLong
    ||| e is ArrayTooBig
    ||| e is StructTooBig
}

/// Whether no limit error can arise at all: every limit sits at its
/// maximum and the input is short enough that no counter can reach it.
pub open spec fn no_limit_error_expected(l: ParserLimits, n: int) -> bool {
    &&& l.max_depth == usize::MAX
    &&& l.max_atom_length == usize::MAX
    &&& l.max_key_length == usize::MAX
    &&& l.max_tag_length == usize::MAX
    &&& l.max_array_size == usize::MAX
    &&& l.max_struct_size == usize::MAX
    &&& n < 0x80000000
}

/// Whether `chr` may appear in a bare atom.
pub open spec fn spec_is_atom_chr(chr: u8) -> bool {
    ||| chr == 0x5F || chr == 0x2E || chr == 0x2C || chr == 0x3A || chr == 0x3B || chr == 0x2B
        || chr == 0x2D || chr == 0x2A || chr == 0x2F
    ||| chr == 0x7C || chr == 0x24 || chr == 0x23 || chr == 0x40 || chr == 0x25 || chr == 0x3D
        || chr == 0x3C || chr == 0x3E
    ||| 0x61 <= chr <= 0x7A || 0x41 <= chr <= 0x5A || 0x30 <= chr <= 0x39 || chr == 0x3F || chr
        == 0x21
}

/// Whether `chr` may appear inside a quoted string token.
pub open spec fn spec_is_string_chr(chr: u8) -> bool {
    0x20 <= chr <= 0x7E
}

/// A token: its kind, its raw bytes and its starting position.
struct Token<'a> {
    kind: TokenKind,
    data: &'a [u8],
    pos: Pos,
}

/// The lexer: a cursor over the raw bytes, tracking line and column.
struct Lexer<'a> {
    data: &'a [u8],
    i: usize,
    pos: Pos,
}

/// Adds `b` to `a`, staying at the maximum instead of wrapping; line and
/// column counters use it so that absurdly long inputs saturate instead
/// of overflowing.
fn sat_add_u32(a: u32, b: u32) -> (r: u32)
    ensures
        r == if a + b <= u32::MAX {
            (a + b) as int
        } else {
            u32::MAX as int
        },
{
    if a <= u32::MAX - b {
        a + b
    } else {
        u32::MAX
    }
}

impl<'a> Lexer<'a> {
    /// The cursor stays inside the data.
    spec fn wf(&self) -> bool {
        self.i <= self.data@.len()
    }

    fn new(data: &'a [u8]) -> (r: Self)
        ensures
            r.wf(),
            r.data@ == data@,
            r.i == 0,
    {
        Self { data, i: 0, pos: Pos::new(0, 0) }
    }

    /// Takes the next `len` bytes as one token of the given kind.
    fn make_token(&mut self, kind: TokenKind, len: u32) -> (token: Token<'a>)
        requires
            old(self).wf(),
            old(self).i + len <= old(self).data@.len(),
        ensures
            final(self).wf(),
            final(self).data@ == old(self).data@,
            final(self).i == old(self).i + len,
            token.kind == kind,
            token.data@ == old(self).data@.subrange(old(self).i as int, old(self).i + len),
            token.data@.len() == len,
    {
        let total = self.data.len();
        let token = Token {
            kind,
            data: slice_subrange(self.data, self.i, self.i + len as usize),
            pos: self.pos,
        };
        self.i = self.i + len as usize;
        self.pos.column = sat_add_u32(self.pos.column, len);
        token
    }

    /// Skips to the end of the current comment line.
    fn skip_comment(&mut self)
        requires
            old(self).wf(),
        ensures
            final(self).wf(),
            final(self).data@ == old(self).data@,
            old(self).i <= final(self).i,
        decreases old(self).data@.len() - old(self).i,
    {
        while self.i < self.data.len()
            invariant
                self.wf(),
                self.data@ == old(self).data@,
                old(self).i <= self.i,
            decreases self.data@.len() - self.i,
        {
            let b = *vstd::slice::slice_index_get(self.data, self.i);
            if b == 0x0A || b == 0x0D {
                break ;
            }
            self.i = self.i + 1;
            self.pos.column = sat_add_u32(self.pos.column, 1);
        }
    }

    /// Skips blanks, line breaks and backslash comments.
    fn skip_spaces_and_comments(&mut self)
        requires
            old(self).wf(),
        ensures
            final(self).wf(),
            final(self).data@ == old(self).data@,
            old(self).i <= final(self).i,
    {
        let mut last_was_cr = false;
        while self.i < self.data.len()
            invariant
                self.wf(),
                self.data@ == old(self).data@,
                old(self).i <= self.i,
            decreases self.data@.len() - self.i,
        {
            let b = *vstd::slice::slice_index_get(self.data, self.i);
            if b == 0x20 || b == 0x09 {
                self.i = self.i + 1;
                self.pos.column = sat_add_u32(self.pos.column, 1);
                last_was_cr = false;
            } else if b == 0x0A {
                self.i = self.i + 1;
                if !last_was_cr {
                    self.pos.line = sat_add_u32(self.pos.line, 1);
                    self.pos.column = 0;
                } else {
                    last_was_cr = false;
                }
            } else if b == 0x0D {
                self.i = self.i + 1;
                self.pos.line = sat_add_u32(self.pos.line, 1);
                self.pos.column = 0;
                last_was_cr = true;
            } else if b == 0x5C {
                self.i = self.i + 1;
                self.pos.column = sat_add_u32(self.pos.column, 1);
                self.skip_comment();
            } else {
                break ;
            }
        }
    }

    /// Whether `e` is one of the six errors that report an exceeded limit.
pub open spec fn is_limit_error(e: ParserError) -> bool {
    ||| e is TooDeep
    ||| e is AtomTooLong
    ||| e is KeyTooLong
    ||| e is TagTooLong
    ||| e is ArrayTooBig
    ||| e is StructTooBig
}

/// Whether no limit error can arise at all: every limit sits at its
/// maximum and the input is short enough that no counter can reach it.
pub open spec fn no_limit_error_expected(l: ParserLimits, n: int) -> bool {
    &&& l.max_depth == usize::MAX
    &&& l.max_atom_length == usize::MAX
    &&& l.max_key_length == usize::MAX
    &&& l.max_tag_length == usize::MAX
    &&& l.max_array_size == usize::MAX
    &&& l.max_struct_size == usize::MAX
    &&& n < 0x80000000
}

/// Whether `chr` may appear in a bare atom.
    fn is_atom_chr(chr: u8) -> (r: bool)
        ensures
            r == spec_is_atom_chr(chr),
    {
        chr == 0x5F || chr == 0x2E || chr == 0x2C || chr == 0x3A || chr == 0x3B || chr == 0x2B
            || chr == 0x2D || chr == 0x2A || chr == 0x2F || chr == 0x7C || chr == 0x24 || chr
            == 0x23 || chr == 0x40 || chr == 0x25 || chr == 0x3D || chr == 0x3C || chr == 0x3E || (
        0x61 <= chr && chr <= 0x7A) || (0x41 <= chr && chr <= 0x5A) || (0x30 <= chr && chr <= 0x39)
            || chr == 0x3F || chr == 0x21
    }

    /// Whether `chr` may appear inside a quoted string token.
    fn is_string_chr(chr: u8) -> (r: bool)
        ensures
            r == spec_is_string_chr(chr),
    {
        0x20 <= chr && chr <= 0x7E
    }

    /// Reads the next token: a delimiter, a bare or quoted atom, or the
    /// end of the input; an illegal or unfinished construct fails.
    fn get_token(&mut self) -> (r: Result<Token<'a>, ParserError>)
        requires
            old(self).wf(),
        ensures
            final(self).wf(),
            final(self).data@ == old(self).data@,
            old(self).i <= final(self).i,
            r matches Ok(t) && t.kind == TokenKind::Eof ==> final(self).i
                == final(self).data@.len(),
            r matches Ok(t) && t.kind != TokenKind::Eof ==> old(self).i < final(self).i,
            r matches Ok(t) ==> forall|k: int|
                0 <= k < t.data@.len() ==> #[trigger] t.data@[k] < 0x80,
            r matches Err(e) ==> !is_limit_error(e) || (e is AtomTooLong && old(
                self,
            ).data@.len() > 0xFFFFFFFF),
    {
        self.skip_spaces_and_comments();
        let n = self.data.len();
        if self.i == n {
            return Ok(self.make_token(TokenKind::Eof, 0));
        }
        let b = *vstd::slice::slice_index_get(self.data, self.i);
        if b == 0x28 {
            Ok(self.make_token(TokenKind::LeftParen, 1))
        } else if b == 0x29 {
            Ok(self.make_token(TokenKind::RightParen, 1))
        } else if b == 0x5B {
            Ok(self.make_token(TokenKind::LeftBracket, 1))
        } else if b == 0x5D {
            Ok(self.make_token(TokenKind::RightBracket, 1))
        } else if b == 0x7B {
            Ok(self.make_token(TokenKind::LeftBrace, 1))
        } else if b == 0x7D {
            Ok(self.make_token(TokenKind::RightBrace, 1))
        } else if Self::is_atom_chr(b) || b == 0x22 {
            // a bare atom, possibly holding quoted string parts
            let mut len: usize = 0;
            while self.i + len < n
                invariant
                    self.wf(),
                    self.data@ == old(self).data@,
                    old(self).i <= self.i,
                    n == self.data@.len(),
                    self.i + len <= n,
                    spec_is_atom_chr(b) || b == 0x22,
                    len == 0 ==> self.i < n && self.data@[self.i as int] == b,
                    forall|k: int| self.i <= k < self.i + len ==> #[trigger] self.data@[k] < 0x80,
                ensures
                    self.wf(),
                    self.data@ == old(self).data@,
                    old(self).i <= self.i,
                    n == self.data@.len(),
                    self.i + len <= n,
                    len >= 1,
                    forall|k: int| self.i <= k < self.i + len ==> #[trigger] self.data@[k] < 0x80,
                decreases n - self.i - len,
            {
                let chr = *vstd::slice::slice_index_get(self.data, self.i + len);
                if chr == 0x22 {
                    len = len + 1;
                    let ghost len_in = len;
                    let mut last_was_backslash = false;
                    loop
                        invariant
                            self.wf(),
                            self.data@ == old(self).data@,
                            old(self).i <= self.i,
                            n == self.data@.len(),
                            self.i + len <= n,
                            len >= len_in >= 1,
                            spec_is_atom_chr(b) || b == 0x22,
                            forall|k: int| self.i <= k < self.i + len ==> #[trigger] self.data@[k]
                                < 0x80,
                        ensures
                            self.wf(),
                            self.data@ == old(self).data@,
                            old(self).i <= self.i,
                            n == self.data@.len(),
                            self.i + len <= n,
                            len >= len_in >= 1,
                            spec_is_atom_chr(b) || b == 0x22,
                            forall|k: int| self.i <= k < self.i + len ==> #[trigger] self.data@[k]
                                < 0x80,
                        decreases n - self.i - len,
                    {
                        if self.i + len == n {
                            return Err(ParserError::UnfinishedString { pos: self.pos });
                        }
                        let chr = *vstd::slice::slice_index_get(self.data, self.i + len);
                        if !Self::is_string_chr(chr) {
                            let err_pos = Pos::new(
                                self.pos.line,
                                sat_add_u32(
                                    self.pos.column,
                                    if len > 0xFFFFFFFFusize {
                                        0xFFFFFFFFu32
                                    } else {
                                        len as u32
                                    },
                                ),
                            );
                            return Err(ParserError::IllegalChrInString { pos: err_pos, chr });
                        }
                        if !last_was_backslash {
                            if chr == 0x5C {
                                last_was_backslash = true;
                            } else if chr == 0x22 {
                                len = len + 1;
                                break ;
                            }
                        } else {
                            last_was_backslash = false;
                        }
                        len = len + 1;
                    }
                } else if Self::is_atom_chr(chr) {
                    len = len + 1;
                } else {
                    break ;
                }
            }
            if len > u32::MAX as usize {
                // column positions saturate far before this length
                return Err(ParserError::AtomTooLong { pos: self.pos });
            }
            Ok(self.make_token(TokenKind::Atom, len as u32))
        } else {
            Err(ParserError::IllegalChr { pos: self.pos, chr: b })
        }
    }
}


/// Builds the text of an ASCII token.
///
/// Relies on `String::from_utf8`: ASCII bytes are valid UTF-8 and decode
/// to the characters with the same codes, one character per byte.
#[verifier::external_body]
fn ascii_bytes_to_string(bytes: &[u8]) -> (r: String)
    requires
        forall|k: int| 0 <= k < bytes@.len() ==> #[trigger] bytes@[k] < 0x80,
    ensures
        r@.len() == bytes@.len(),
        forall|k: int| 0 <= k < r@.len() ==> (#[trigger] r@[k]) as u8 == bytes@[k],
{
    match String::from_utf8(bytes.to_vec()) {
        Ok(s) => s,
        Err(_) => String::new(),
    }
}

/// The parser state: the limits to enforce, the lexer, the nesting depth
/// and the pre-order position trace built so far.
struct Parser<'a> {
    limits: ParserLimits,
    lexer: Lexer<'a>,
    depth: usize,
    positions: Vec<Pos>,
}

impl<'a> Parser<'a> {
    /// The cursor is inside the data and the depth inside its limit.
    spec fn wf(&self) -> bool {
        self.lexer.wf() && self.depth <= self.limits.max_depth
    }

    /// Parses one value beginning at `token`, recursing for arrays,
    /// structs and tagged values, and records positions in pre-order.
    fn parse_value(&mut self, token: Token<'a>) -> (r: Result<Box<Value>, ParserError>)
        requires
            old(self).wf(),
            old(self).depth <= old(self).lexer.i,
            forall|k: int| 0 <= k < token.data@.len() ==> #[trigger] token.data@[k] < 0x80,
        ensures
            final(self).wf(),
            final(self).lexer.data@ == old(self).lexer.data@,
            final(self).limits == old(self).limits,
            old(self).lexer.i <= final(self).lexer.i,
            r matches Ok(v) ==> final(self).depth == old(self).depth,
            r matches Ok(v) ==> value_within_limits(*v, old(self).limits),
            no_limit_error_expected(old(self).limits, old(self).lexer.data@.len() as int) ==> (
            r matches Err(e) ==> !is_limit_error(e)),
        decreases old(self).lexer.data@.len() - old(self).lexer.i,
    {
        match token.kind {
            TokenKind::Atom => {
                if token.data.len() > self.limits.max_atom_length {
                    return Err(ParserError::AtomTooLong { pos: token.pos });
                }
                self.positions.push(token.pos);
                let value = Box::new(Value::Atom(ascii_bytes_to_string(token.data)));
                Ok(value)
            },
            TokenKind::LeftBracket => {
                if self.depth == self.limits.max_depth {
                    return Err(ParserError::TooDeep { pos: token.pos });
                }
                self.positions.push(token.pos);
                let mut items: Vec<Box<Value>> = Vec::new();
                self.depth = self.depth + 1;
                let ghost entry_i = self.lexer.i;
                loop
                    invariant
                        self.lexer.wf(),
                        self.depth <= self.limits.max_depth,
                        self.depth == old(self).depth + 1,
                        self.depth <= self.lexer.i + 1,
                        self.limits == old(self).limits,
                        self.lexer.data@ == old(self).lexer.data@,
                        old(self).lexer.i <= self.lexer.i,
                        items@.len() <= self.limits.max_array_size,
                        items@.len() <= self.lexer.i,
                        forall|k: int|
                            0 <= k < items@.len() ==> value_within_limits(
                                *#[trigger] items@[k],
                                old(self).limits,
                            ),
                    ensures
                        self.lexer.wf(),
                        self.depth == old(self).depth + 1,
                        self.limits == old(self).limits,
                        self.lexer.data@ == old(self).lexer.data@,
                        old(self).lexer.i <= self.lexer.i,
                        items@.len() <= self.limits.max_array_size,
                        forall|k: int|
                            0 <= k < items@.len() ==> value_within_limits(
                                *#[trigger] items@[k],
                                old(self).limits,
                            ),
                    decreases self.lexer.data@.len() - self.lexer.i,
                {
                    let t = match self.lexer.get_token() {
                        Ok(t) => t,
                        Err(e) => {
                            return Err(e);
                        },
                    };
                    if matches!(t.kind, TokenKind::RightBracket) {
                        break ;
                    }
                    if matches!(t.kind, TokenKind::Eof) {
                        return Err(
                            ParserError::UnexpectedToken { pos: t.pos, token_kind: t.kind },
                        );
                    }
                    if items.len() == self.limits.max_array_size {
                        return Err(ParserError::ArrayTooBig { pos: t.pos });
                    }
                    let value = match self.parse_value(t) {
                        Ok(v) => v,
                        Err(e) => {
                            return Err(e);
                        },
                    };
                    items.push(value);
                }
                self.depth = self.depth - 1;
                let value = Box::new(Value::Array(items));
                Ok(value)
            },
            TokenKind::LeftBrace => {
                if self.depth == self.limits.max_depth {
                    return Err(ParserError::TooDeep { pos: token.pos });
                }
                self.positions.push(token.pos);
                let mut fields: Vec<StructField> = Vec::new();
                self.depth = self.depth + 1;
                loop
                    invariant
                        self.lexer.wf(),
                        self.depth <= self.limits.max_depth,
                        self.depth == old(self).depth + 1,
                        self.depth <= self.lexer.i + 1,
                        self.limits == old(self).limits,
                        self.lexer.data@ == old(self).lexer.data@,
                        old(self).lexer.i <= self.lexer.i,
                        fields@.len() <= self.limits.max_struct_size,
                        fields@.len() <= self.lexer.i,
                        forall|k: int|
                            0 <= k < fields@.len() ==> (#[trigger] fields@[k]).key@.len()
                                <= old(self).limits.max_key_length && value_within_limits(
                                *fields@[k].value,
                                old(self).limits,
                            ),
                    ensures
                        self.lexer.wf(),
                        self.depth == old(self).depth + 1,
                        self.limits == old(self).limits,
                        self.lexer.data@ == old(self).lexer.data@,
                        old(self).lexer.i <= self.lexer.i,
                        fields@.len() <= self.limits.max_struct_size,
                        forall|k: int|
                            0 <= k < fields@.len() ==> (#[trigger] fields@[k]).key@.len()
                                <= old(self).limits.max_key_length && value_within_limits(
                                *fields@[k].value,
                                old(self).limits,
                            ),
                    decreases self.lexer.data@.len() - self.lexer.i,
                {
                    let t = match self.lexer.get_token() {
                        Ok(t) => t,
                        Err(e) => {
                            return Err(e);
                        },
                    };
                    if matches!(t.kind, TokenKind::RightBrace) {
                        break ;
                    }
                    if !matches!(t.kind, TokenKind::Atom) {
                        return Err(
                            ParserError::UnexpectedToken { pos: t.pos, token_kind: t.kind },
                        );
                    }
                    if fields.len() == self.limits.max_struct_size {
                        return Err(ParserError::StructTooBig { pos: t.pos });
                    }
                    if t.data.len() > self.limits.max_key_length {
                        return Err(ParserError::KeyTooLong { pos: t.pos });
                    }
                    let field_pos = t.pos;
                    let key = ascii_bytes_to_string(t.data);
                    let value_1st_token = match self.lexer.get_token() {
                        Ok(t2) => t2,
                        Err(e) => {
                            return Err(e);
                        },
                    };
                    if matches!(value_1st_token.kind, TokenKind::Eof) {
                        return Err(
                            ParserError::UnexpectedToken {
                                pos: value_1st_token.pos,
                                token_kind: value_1st_token.kind,
                            },
                        );
                    }
                    self.positions.push(field_pos);
                    let value = match self.parse_value(value_1st_token) {
                        Ok(v) => v,
                        Err(e) => {
                            return Err(e);
                        },
                    };
                    fields.push(StructField { key, value });
                }
                self.depth = self.depth - 1;
                let value = Box::new(Value::Struct(fields));
                Ok(value)
            },
            TokenKind::LeftParen => {
                if self.depth == self.limits.max_depth {
                    return Err(ParserError::TooDeep { pos: token.pos });
                }
                self.positions.push(token.pos);
                let t = match self.lexer.get_token() {
                    Ok(t) => t,
                    Err(e) => {
                        return Err(e);
                    },
                };
                if !matches!(t.kind, TokenKind::Atom) {
                    return Err(
                        ParserError::ExpectedToken { pos: t.pos, token_kind: TokenKind::Atom },
                    );
                }
                if t.data.len() > self.limits.max_tag_length {
                    return Err(ParserError::TagTooLong { pos: t.pos });
                }
                let tag = ascii_bytes_to_string(t.data);
                let t2 = match self.lexer.get_token() {
                    Ok(t2) => t2,
                    Err(e) => {
                        return Err(e);
                    },
                };
                if !matches!(t2.kind, TokenKind::RightParen) {
                    return Err(
                        ParserError::ExpectedToken {
                            pos: t2.pos,
                            token_kind: TokenKind::RightParen,
                        },
                    );
                }
                let value_1st_token = match self.lexer.get_token() {
                    Ok(t3) => t3,
                    Err(e) => {
                        return Err(e);
                    },
                };
                if matches!(value_1st_token.kind, TokenKind::Eof) {
                    return Err(
                        ParserError::UnexpectedToken {
                            pos: value_1st_token.pos,
                            token_kind: value_1st_token.kind,
                        },
                    );
                }
                self.depth = self.depth + 1;
                let sub_value = match self.parse_value(value_1st_token) {
                    Ok(v) => v,
                    Err(e) => {
                        return Err(e);
                    },
                };
                self.depth = self.depth - 1;
                let value = Box::new(Value::Tagged(tag, sub_value));
                Ok(value)
            },
            _ => Err(ParserError::UnexpectedToken { pos: token.pos, token_kind: token.kind }),
        }
    }
}

/// Parses a whole document: the parenthesized header, a sequence of root
/// key/value fields, and nothing after them. On success the document
/// comes back with its pre-order position trace: for each root or struct
/// field first the position of its key, for each value the position of
/// its first token, children in written order. The returned document
/// respects every limit.
pub fn parse(limits: ParserLimits, data: &[u8]) -> (r: Result<
    (Document, Vec<Pos>),
    ParserError,
>)
    ensures
        r matches Ok(p) ==> document_within_limits(p.0, limits),
        no_limit_error_expected(limits, data@.len() as int) ==> (r matches Err(e)
            ==> !is_limit_error(e)),
{
    let mut parser = Parser {
        limits,
        lexer: Lexer::new(data),
        depth: 0,
        positions: Vec::new(),
    };
    let token = match parser.lexer.get_token() {
        Ok(t) => t,
        Err(e) => {
            return Err(e);
        },
    };
    if !matches!(token.kind, TokenKind::LeftParen) {
        return Err(ParserError::ExpectedToken { pos: token.pos, token_kind: TokenKind::LeftParen });
    }
    let token = match parser.lexer.get_token() {
        Ok(t) => t,
        Err(e) => {
            return Err(e);
        },
    };
    if !matches!(token.kind, TokenKind::Atom) {
        return Err(ParserError::ExpectedToken { pos: token.pos, token_kind: TokenKind::Atom });
    }
    let header = ascii_bytes_to_string(token.data);
    let token = match parser.lexer.get_token() {
        Ok(t) => t,
        Err(e) => {
            return Err(e);
        },
    };
    if !matches!(token.kind, TokenKind::RightParen) {
        return Err(
            ParserError::ExpectedToken { pos: token.pos, token_kind: TokenKind::RightParen },
        );
    }
    let mut root_fields: Vec<StructField> = Vec::new();
    loop
        invariant
            parser.wf(),
            parser.depth == 0,
            parser.limits == limits,
            parser.lexer.data@ == data@,
            forall|k: int|
                0 <= k < root_fields@.len() ==> (#[trigger] root_fields@[k]).key@.len()
                    <= limits.max_key_length && value_within_limits(
                    *root_fields@[k].value,
                    limits,
                ),
        ensures
            forall|k: int|
                0 <= k < root_fields@.len() ==> (#[trigger] root_fields@[k]).key@.len()
                    <= limits.max_key_length && value_within_limits(
                    *root_fields@[k].value,
                    limits,
                ),
        decreases parser.lexer.data@.len() - parser.lexer.i,
    {
        let token = match parser.lexer.get_token() {
            Ok(t) => t,
            Err(e) => {
                return Err(e);
            },
        };
        if matches!(token.kind, TokenKind::Eof) {
            break ;
        }
        if !matches!(token.kind, TokenKind::Atom) {
            return Err(
                ParserError::UnexpectedToken { pos: token.pos, token_kind: token.kind },
            );
        }
        if token.data.len() > parser.limits.max_key_length {
            return Err(ParserError::KeyTooLong { pos: token.pos });
        }
        let field_pos = token.pos;
        let key = ascii_bytes_to_string(token.data);
        let value_1st_token = match parser.lexer.get_token() {
            Ok(t) => t,
            Err(e) => {
                return Err(e);
            },
        };
        if matches!(value_1st_token.kind, TokenKind::Eof) {
            return Err(
                ParserError::UnexpectedToken {
                    pos: value_1st_token.pos,
                    token_kind: value_1st_token.kind,
                },
            );
        }
        parser.positions.push(field_pos);
        let value = match parser.parse_value(value_1st_token) {
            Ok(v) => v,
            Err(e) => {
                return Err(e);
            },
        };
        root_fields.push(StructField { key, value });
    }
    Ok((Document { header, root_fields }, parser.positions))
}

} // verus!
