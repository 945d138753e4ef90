//! Conversion between quoted, backslash-escaped atoms and byte, ASCII and
//! UTF-8 strings.
//!
//! The shared grammar is an opening `"`, a body, a closing `"`, and nothing
//! after it. All three codecs understand the escapes `\t \n \r \" \\` and
//! `\xHH`; the UTF-8 codec also understands `\u{H..H}`. The byte codec
//! accepts any raw character and any hex byte; the ASCII and UTF-8 codecs
//! reject hex escapes above `0x7F`, and the ASCII codec also rejects raw
//! characters above `0x7F`. Any malformed escape or stray character fails
//! the whole parse.

use vstd::prelude::*;

use vstd::utf8::encode_scalar;
use crate::text_util::char_from_u32;
use crate::text_util::is_unicode_scalar;
use crate::text_util::push_char;

verus! {

/// Whether `c` is an ASCII hexadecimal digit, of either case.
pub open spec fn is_hex_digit(c: char) -> bool {
    ('0' <= c && c <= '9') || ('A' <= c && c <= 'F') || ('a' <= c && c <= 'f')
}

/// The numeric value of the hexadecimal digit `c`.
pub open spec fn hex_digit_val(c: char) -> int
    recommends
        is_hex_digit(c),
{
    if '0' <= c && c <= '9' {
        c as u32 - '0' as u32
    } else if 'A' <= c && c <= 'F' {
        c as u32 - 'A' as u32 + 10
    } else {
        c as u32 - 'a' as u32 + 10
    }
}

/// The lower-case hexadecimal digit whose numeric value is `d`.
pub open spec fn hex_digit_char(d: int) -> char
    recommends
        0 <= d <= 15,
{
    if d < 10 {
        (('0' as u32) + d) as char
    } else {
        (('a' as u32) + (d - 10)) as char
    }
}

/// The byte denoted by a simple escape character, if any: the five escapes
/// `\t \n \r \" \\`.
pub open spec fn simple_escape_byte(c: char) -> Option<u8> {
    if c == 't' {
        Some(0x09u8)
    } else if c == 'n' {
        Some(0x0Au8)
    } else if c == 'r' {
        Some(0x0Du8)
    } else if c == '"' {
        Some(0x22u8)
    } else if c == '\\' {
        Some(0x5Cu8)
    } else {
        None
    }
}

/// The bytes denoted by a string body under the byte codec: raw characters
/// stand for their UTF-8 bytes, escapes for the escaped byte; a raw quote
/// or any malformed escape fails.
pub open spec fn unescape_bytes(s: Seq<char>) -> Option<Seq<u8>>
    decreases s.len(),
{
    if s.len() == 0 {
        Some(Seq::empty())
    } else if s[0] == '\\' {
        if s.len() >= 2 && simple_escape_byte(s[1]) is Some {
            match unescape_bytes(s.skip(2)) {
                Some(rest) => Some(seq![simple_escape_byte(s[1])->0] + rest),
                None => None,
            }
        } else if s.len() >= 4 && s[1] == 'x' && is_hex_digit(s[2]) && is_hex_digit(s[3]) {
            match unescape_bytes(s.skip(4)) {
                Some(rest) => Some(
                    seq![(hex_digit_val(s[2]) * 16 + hex_digit_val(s[3])) as u8] + rest,
                ),
                None => None,
            }
        } else {
            None
        }
    } else if s[0] == '"' {
        None
    } else {
        match unescape_bytes(s.skip(1)) {
            Some(rest) => Some(encode_scalar(s[0] as u32) + rest),
            None => None,
        }
    }
}

/// The characters denoted by a string body under the ASCII codec: as the
/// byte codec, but raw characters and hex escapes above `0x7F` fail.
pub open spec fn unescape_ascii(s: Seq<char>) -> Option<Seq<char>>
    decreases s.len(),
{
    if s.len() == 0 {
        Some(Seq::empty())
    } else if s[0] == '\\' {
        if s.len() >= 2 && simple_escape_byte(s[1]) is Some {
            match unescape_ascii(s.skip(2)) {
                Some(rest) => Some(seq![(simple_escape_byte(s[1])->0 as u32) as char] + rest),
                None => None,
            }
        } else if s.len() >= 4 && s[1] == 'x' && is_hex_digit(s[2]) && is_hex_digit(s[3]) {
            let v = hex_digit_val(s[2]) * 16 + hex_digit_val(s[3]);
            if v <= 0x7F {
                match unescape_ascii(s.skip(4)) {
                    Some(rest) => Some(seq![(v as u32) as char] + rest),
                    None => None,
                }
            } else {
                None
            }
        } else {
            None
        }
    } else if s[0] == '"' || s[0] as u32 > 0x7F {
        None
    } else {
        match unescape_ascii(s.skip(1)) {
            Some(rest) => Some(seq![s[0]] + rest),
            None => None,
        }
    }
}

/// The characters denoted by a string body under the UTF-8 codec: as the
/// ASCII codec, but any raw character is kept and `\u{H..H}` escapes are
/// understood.
pub open spec fn unescape_utf8(s: Seq<char>) -> Option<Seq<char>>
    decreases s.len(), 1int,
{
    if s.len() == 0 {
        Some(Seq::empty())
    } else if s[0] == '\\' {
        if s.len() >= 2 && simple_escape_byte(s[1]) is Some {
            match unescape_utf8(s.skip(2)) {
                Some(rest) => Some(seq![(simple_escape_byte(s[1])->0 as u32) as char] + rest),
                None => None,
            }
        } else if s.len() >= 4 && s[1] == 'x' && is_hex_digit(s[2]) && is_hex_digit(s[3]) {
            let v = hex_digit_val(s[2]) * 16 + hex_digit_val(s[3]);
            if v <= 0x7F {
                match unescape_utf8(s.skip(4)) {
                    Some(rest) => Some(seq![(v as u32) as char] + rest),
                    None => None,
                }
            } else {
                None
            }
        } else if s.len() >= 4 && s[1] == 'u' && s[2] == '{' && is_hex_digit(s[3]) {
            unescape_utf8_unicode(s.skip(4), hex_digit_val(s[3]))
        } else {
            None
        }
    } else if s[0] == '"' {
        None
    } else {
        match unescape_utf8(s.skip(1)) {
            Some(rest) => Some(seq![s[0]] + rest),
            None => None,
        }
    }
}

/// The continuation of [`unescape_utf8`] inside a `\u{...}` escape, after
/// the digits whose value is `acc`: more hex digits may follow while the
/// accumulated value stays below `0x10000000`, and the closing `}` yields
/// the character with code `acc` if that code is a Unicode scalar value.
pub open spec fn unescape_utf8_unicode(s: Seq<char>, acc: int) -> Option<Seq<char>>
    decreases s.len(), 0int,
{
    if s.len() == 0 {
        None
    } else if s[0] == '}' {
        if is_unicode_scalar(acc) {
            match unescape_utf8(s.skip(1)) {
                Some(rest) => Some(seq![(acc as u32) as char] + rest),
                None => None,
            }
        } else {
            None
        }
    } else if is_hex_digit(s[0]) && acc < 0x10000000 {
        unescape_utf8_unicode(s.skip(1), acc * 16 + hex_digit_val(s[0]))
    } else {
        None
    }
}

/// Whether `s` is a quoted atom: `"` body `"` with nothing after.
pub open spec fn is_quoted_atom(s: Seq<char>) -> bool {
    s.len() >= 2 && s[0] == '"' && s.last() == '"'
}

/// The body of a quoted atom, between the two quotes.
pub open spec fn quoted_body(s: Seq<char>) -> Seq<char> {
    s.subrange(1, s.len() - 1)
}

/// What [`parse_byte_string`] yields on the atom `s`.
pub open spec fn spec_parse_byte_string(s: Seq<char>) -> Option<Seq<u8>> {
    if is_quoted_atom(s) {
        unescape_bytes(quoted_body(s))
    } else {
        None
    }
}

/// What [`parse_ascii_string`] yields on the atom `s`.
pub open spec fn spec_parse_ascii_string(s: Seq<char>) -> Option<Seq<char>> {
    if is_quoted_atom(s) {
        unescape_ascii(quoted_body(s))
    } else {
        None
    }
}

/// What [`parse_utf8_string`] yields on the atom `s`.
pub open spec fn spec_parse_utf8_string(s: Seq<char>) -> Option<Seq<char>> {
    if is_quoted_atom(s) {
        unescape_utf8(quoted_body(s))
    } else {
        None
    }
}

/// Parses one hexadecimal digit of either case into its value.
pub fn hex_digit_to_u8(chr: char) -> (r: Option<u8>)
    ensures
        r is Some <==> is_hex_digit(chr),
        r is Some ==> r->0 == hex_digit_val(chr),
{
    if chr >= '0' && chr <= '9' {
        Some((chr as u32 - '0' as u32) as u8)
    } else if chr >= 'A' && chr <= 'F' {
        Some((chr as u32 - 'A' as u32) as u8 + 10)
    } else if chr >= 'a' && chr <= 'f' {
        Some((chr as u32 - 'a' as u32) as u8 + 10)
    } else {
        None
    }
}

/// Appends the UTF-8 bytes of `c` to `out`.
fn push_utf8_bytes(out: &mut Vec<u8>, c: char)
    ensures
        final(out)@ == old(out)@ + encode_scalar(c as u32),
{
    let u = c as u32;
    if u <= 0x7F {
        out.push((u & 0x7F) as u8);
        assert(final(out)@ =~= old(out)@ + encode_scalar(u));
    } else if u <= 0x7FF {
        out.push((0xC0 | ((u >> 6) & 0x1F) as u8) as u8);
        out.push((0x80 | (u & 0x3F) as u8) as u8);
        assert(final(out)@ =~= old(out)@ + encode_scalar(u));
    } else if u <= 0xFFFF {
        out.push((0xE0 | ((u >> 12) & 0x0F) as u8) as u8);
        out.push((0x80 | ((u >> 6) & 0x3F) as u8) as u8);
        out.push((0x80 | (u & 0x3F) as u8) as u8);
        assert(final(out)@ =~= old(out)@ + encode_scalar(u));
    } else {
        out.push((0xF0 | ((u >> 18) & 0x7) as u8) as u8);
        out.push((0x80 | ((u >> 12) & 0x3F) as u8) as u8);
        out.push((0x80 | ((u >> 6) & 0x3F) as u8) as u8);
        out.push((0x80 | (u & 0x3F) as u8) as u8);
        assert(final(out)@ =~= old(out)@ + encode_scalar(u));
    }
}

/// Parses a quoted atom into the bytes it denotes: raw characters stand
/// for their UTF-8 bytes, and any byte can be written as a hex escape.
pub fn parse_byte_string(atom: &str) -> (r: Option<Vec<u8>>)
    ensures
        match r {
            Some(v) => spec_parse_byte_string(atom@) == Some(v@),
            None => spec_parse_byte_string(atom@) is None,
        },
{
    let n = atom.unicode_len();
    if n < 2 || atom.get_char(0) != '"' || atom.get_char(n - 1) != '"' {
        return None;
    }
    let body = Ghost(quoted_body(atom@));
    let m = n - 1;
    let mut out: Vec<u8> = Vec::new();
    let mut i: usize = 1;
    proof {
        assert(body@.skip(0) =~= body@);
        if unescape_bytes(body@) is Some {
            assert(Seq::<u8>::empty() + unescape_bytes(body@)->0 =~= unescape_bytes(body@)->0);
        }
    }
    while i < m
        invariant
            1 <= i <= m,
            m == atom@.len() - 1,
            is_quoted_atom(atom@),
            body@ == quoted_body(atom@),
            match unescape_bytes(body@.skip(i - 1)) {
                Some(rest) => unescape_bytes(body@) == Some(out@ + rest),
                None => unescape_bytes(body@) is None,
            },
        decreases m - i,
    {
        let c = atom.get_char(i);
        assert(body@.skip(i - 1)[0] == c);
        if c == '"' {
            return None;
        } else if c == '\\' {
            if i + 1 >= m {
                assert(body@.skip(i - 1).len() < 2);
                return None;
            }
            let e = atom.get_char(i + 1);
            assert(body@.skip(i - 1)[1] == e);
            if e == 't' || e == 'n' || e == 'r' || e == '"' || e == '\\' {
                let b: u8 = if e == 't' {
                    0x09u8
                } else if e == 'n' {
                    0x0Au8
                } else if e == 'r' {
                    0x0Du8
                } else if e == '"' {
                    0x22u8
                } else {
                    0x5Cu8
                };
                assert(simple_escape_byte(e) == Some(b));
                proof {
                    assert(body@.skip(i - 1).skip(2) =~= body@.skip(i + 1));
                    if unescape_bytes(body@.skip(i + 1)) is Some {
                        let r2 = unescape_bytes(body@.skip(i + 1))->0;
                        assert(out@.push(b) + r2 =~= out@ + (seq![b] + r2));
                    }
                }
                out.push(b);
                i = i + 2;
            } else if e == 'x' {
                if m - i < 4 {
                    assert(body@.skip(i - 1).len() < 4);
                    return None;
                }
                let h1 = atom.get_char(i + 2);
                let h2 = atom.get_char(i + 3);
                assert(body@.skip(i - 1)[2] == h1);
                assert(body@.skip(i - 1)[3] == h2);
                let v1 = match hex_digit_to_u8(h1) {
                    Some(v) => v,
                    None => {
                        return None;
                    },
                };
                let v2 = match hex_digit_to_u8(h2) {
                    Some(v) => v,
                    None => {
                        return None;
                    },
                };
                let b: u8 = v1 * 16 + v2;
                proof {
                    assert(body@.skip(i - 1).skip(4) =~= body@.skip(i + 3));
                    if unescape_bytes(body@.skip(i + 3)) is Some {
                        let r2 = unescape_bytes(body@.skip(i + 3))->0;
                        assert(out@.push(b) + r2 =~= out@ + (seq![b] + r2));
                    }
                }
                out.push(b);
                i = i + 4;
            } else {
                assert(simple_escape_byte(e) is None);
                return None;
            }
        } else {
            proof {
                assert(body@.skip(i - 1).skip(1) =~= body@.skip(i as int));
                if unescape_bytes(body@.skip(i as int)) is Some {
                    let r2 = unescape_bytes(body@.skip(i as int))->0;
                    assert((out@ + encode_scalar(c as u32)) + r2 =~= out@ + (encode_scalar(
                        c as u32,
                    ) + r2));
                }
            }
            push_utf8_bytes(&mut out, c);
            i = i + 1;
        }
    }
    proof {
        assert(body@.skip(m - 1) =~= Seq::<char>::empty());
    }
    Some(out)
}

/// Parses a quoted atom into the ASCII text it denotes: raw characters
/// and hex escapes above `0x7F` are rejected.
pub fn parse_ascii_string(atom: &str) -> (r: Option<String>)
    ensures
        match r {
            Some(v) => spec_parse_ascii_string(atom@) == Some(v@),
            None => spec_parse_ascii_string(atom@) is None,
        },
{
    let n = atom.unicode_len();
    if n < 2 || atom.get_char(0) != '"' || atom.get_char(n - 1) != '"' {
        return None;
    }
    let body = Ghost(quoted_body(atom@));
    let m = n - 1;
    let mut out = String::new();
    let mut i: usize = 1;
    proof {
        assert(body@.skip(0) =~= body@);
        if unescape_ascii(body@) is Some {
            assert(Seq::<char>::empty() + unescape_ascii(body@)->0 =~= unescape_ascii(body@)->0);
        }
    }
    while i < m
        invariant
            1 <= i <= m,
            m == atom@.len() - 1,
            is_quoted_atom(atom@),
            body@ == quoted_body(atom@),
            match unescape_ascii(body@.skip(i - 1)) {
                Some(rest) => unescape_ascii(body@) == Some(out@ + rest),
                None => unescape_ascii(body@) is None,
            },
        decreases m - i,
    {
        let c = atom.get_char(i);
        assert(body@.skip(i - 1)[0] == c);
        if c == '"' {
            return None;
        } else if c == '\\' {
            if i + 1 >= m {
                assert(body@.skip(i - 1).len() < 2);
                return None;
            }
            let e = atom.get_char(i + 1);
            assert(body@.skip(i - 1)[1] == e);
            if e == 't' || e == 'n' || e == 'r' || e == '"' || e == '\\' {
                let b: u8 = if e == 't' {
                    0x09u8
                } else if e == 'n' {
                    0x0Au8
                } else if e == 'r' {
                    0x0Du8
                } else if e == '"' {
                    0x22u8
                } else {
                    0x5Cu8
                };
                assert(simple_escape_byte(e) == Some(b));
                proof {
                    assert(body@.skip(i - 1).skip(2) =~= body@.skip(i + 1));
                    if unescape_ascii(body@.skip(i + 1)) is Some {
                        let r2 = unescape_ascii(body@.skip(i + 1))->0;
                        assert(out@.push(b as char) + r2 =~= out@ + (seq![b as char] + r2));
                    }
                }
                push_char(&mut out, b as char);
                i = i + 2;
            } else if e == 'x' {
                if m - i < 4 {
                    assert(body@.skip(i - 1).len() < 4);
                    return None;
                }
                let h1 = atom.get_char(i + 2);
                let h2 = atom.get_char(i + 3);
                assert(body@.skip(i - 1)[2] == h1);
                assert(body@.skip(i - 1)[3] == h2);
                let v1 = match hex_digit_to_u8(h1) {
                    Some(v) => v,
                    None => {
                        return None;
                    },
                };
                let v2 = match hex_digit_to_u8(h2) {
                    Some(v) => v,
                    None => {
                        return None;
                    },
                };
                let b: u8 = v1 * 16 + v2;
                if b > 0x7F {
                    return None;
                }
                proof {
                    assert(body@.skip(i - 1).skip(4) =~= body@.skip(i + 3));
                    if unescape_ascii(body@.skip(i + 3)) is Some {
                        let r2 = unescape_ascii(body@.skip(i + 3))->0;
                        assert(out@.push(b as char) + r2 =~= out@ + (seq![b as char] + r2));
                    }
                }
                push_char(&mut out, b as char);
                i = i + 4;
            } else {
                assert(simple_escape_byte(e) is None);
                return None;
            }
        } else {
            if c as u32 > 0x7F {
                return None;
            }
            proof {
                assert(body@.skip(i - 1).skip(1) =~= body@.skip(i as int));
                if unescape_ascii(body@.skip(i as int)) is Some {
                    let r2 = unescape_ascii(body@.skip(i as int))->0;
                    assert(out@.push(c) + r2 =~= out@ + (seq![c] + r2));
                }
            }
            push_char(&mut out, c);
            i = i + 1;
        }
    }
    proof {
        assert(body@.skip(m - 1) =~= Seq::<char>::empty());
    }
    Some(out)
}

/// Parses a quoted atom into the text it denotes: any raw character is
/// kept, `\xHH` works up to `0x7F`, and `\u{H..H}` names any Unicode
/// scalar value.
pub fn parse_utf8_string(atom: &str) -> (r: Option<String>)
    ensures
        match r {
            Some(v) => spec_parse_utf8_string(atom@) == Some(v@),
            None => spec_parse_utf8_string(atom@) is None,
        },
{
    let n = atom.unicode_len();
    if n < 2 || atom.get_char(0) != '"' || atom.get_char(n - 1) != '"' {
        return None;
    }
    let body = Ghost(quoted_body(atom@));
    let m = n - 1;
    let mut out = String::new();
    let mut i: usize = 1;
    proof {
        assert(body@.skip(0) =~= body@);
        if unescape_utf8(body@) is Some {
            assert(Seq::<char>::empty() + unescape_utf8(body@)->0 =~= unescape_utf8(body@)->0);
        }
    }
    while i < m
        invariant
            1 <= i <= m,
            m == atom@.len() - 1,
            is_quoted_atom(atom@),
            body@ == quoted_body(atom@),
            match unescape_utf8(body@.skip(i - 1)) {
                Some(rest) => unescape_utf8(body@) == Some(out@ + rest),
                None => unescape_utf8(body@) is None,
            },
        decreases m - i,
    {
        let c = atom.get_char(i);
        assert(body@.skip(i - 1)[0] == c);
        if c == '"' {
            return None;
        } else if c == '\\' {
            if i + 1 >= m {
                assert(body@.skip(i - 1).len() < 2);
                return None;
            }
            let e = atom.get_char(i + 1);
            assert(body@.skip(i - 1)[1] == e);
            if e == 't' || e == 'n' || e == 'r' || e == '"' || e == '\\' {
                let b: u8 = if e == 't' {
                    0x09u8
                } else if e == 'n' {
                    0x0Au8
                } else if e == 'r' {
                    0x0Du8
                } else if e == '"' {
                    0x22u8
                } else {
                    0x5Cu8
                };
                assert(simple_escape_byte(e) == Some(b));
                proof {
                    assert(body@.skip(i - 1).skip(2) =~= body@.skip(i + 1));
                    if unescape_utf8(body@.skip(i + 1)) is Some {
                        let r2 = unescape_utf8(body@.skip(i + 1))->0;
                        assert(out@.push(b as char) + r2 =~= out@ + (seq![b as char] + r2));
                    }
                }
                push_char(&mut out, b as char);
                i = i + 2;
            } else if e == 'x' {
                if m - i < 4 {
                    assert(body@.skip(i - 1).len() < 4);
                    return None;
                }
                let h1 = atom.get_char(i + 2);
                let h2 = atom.get_char(i + 3);
                assert(body@.skip(i - 1)[2] == h1);
                assert(body@.skip(i - 1)[3] == h2);
                let v1 = match hex_digit_to_u8(h1) {
                    Some(v) => v,
                    None => {
                        return None;
                    },
                };
                let v2 = match hex_digit_to_u8(h2) {
                    Some(v) => v,
                    None => {
                        return None;
                    },
                };
                let b: u8 = v1 * 16 + v2;
                if b > 0x7F {
                    return None;
                }
                proof {
                    assert(body@.skip(i - 1).skip(4) =~= body@.skip(i + 3));
                    if unescape_utf8(body@.skip(i + 3)) is Some {
                        let r2 = unescape_utf8(body@.skip(i + 3))->0;
                        assert(out@.push(b as char) + r2 =~= out@ + (seq![b as char] + r2));
                    }
                }
                push_char(&mut out, b as char);
                i = i + 4;
            } else if e == 'u' {
                if m - i < 4 {
                    assert(body@.skip(i - 1).len() < 4);
                    return None;
                }
                let br = atom.get_char(i + 2);
                assert(body@.skip(i - 1)[2] == br);
                if br != '{' {
                    return None;
                }
                let h0 = atom.get_char(i + 3);
                assert(body@.skip(i - 1)[3] == h0);
                let mut acc: u32 = match hex_digit_to_u8(h0) {
                    Some(v) => v as u32,
                    None => {
                        return None;
                    },
                };
                proof {
                    assert(body@.skip(i - 1).skip(4) =~= body@.skip(i + 3));
                }
                let mut j: usize = i + 4;
                loop
                    invariant_except_break
                        i + 4 <= j <= m,
                        m == atom@.len() - 1,
                        is_quoted_atom(atom@),
                        body@ == quoted_body(atom@),
                        match unescape_utf8_unicode(body@.skip(j - 1), acc as int) {
                            Some(rest) => unescape_utf8(body@) == Some(out@ + rest),
                            None => unescape_utf8(body@) is None,
                        },
                    ensures
                        i + 4 <= j < m,
                        m == atom@.len() - 1,
                        is_unicode_scalar(acc as int),
                        match unescape_utf8(body@.skip(j as int)) {
                            Some(rest) => unescape_utf8(body@) == Some(
                                out@ + (seq![(acc as u32) as char] + rest),
                            ),
                            None => unescape_utf8(body@) is None,
                        },
                    decreases m - j,
                {
                    if j >= m {
                        assert(body@.skip(j - 1).len() == 0);
                        return None;
                    }
                    let c2 = atom.get_char(j);
                    assert(body@.skip(j - 1)[0] == c2);
                    if c2 == '}' {
                        if acc < 0xD800 || (acc >= 0xE000 && acc <= 0x10FFFF) {
                            proof {
                                assert(body@.skip(j - 1).skip(1) =~= body@.skip(j as int));
                            }
                            break ;
                        } else {
                            return None;
                        }
                    }
                    let d = match hex_digit_to_u8(c2) {
                        Some(v) => v,
                        None => {
                            return None;
                        },
                    };
                    if acc >= 0x10000000 {
                        return None;
                    }
                    proof {
                        assert(body@.skip(j - 1).skip(1) =~= body@.skip(j as int));
                    }
                    acc = acc * 16 + d as u32;
                    j = j + 1;
                }
                match char_from_u32(acc) {
                    Some(ch) => {
                        proof {
                            vstd::utf8::char_u32_cast(ch, acc);
                        }
                        let prev = Ghost(out@);
                        push_char(&mut out, ch);
                        i = j + 1;
                        proof {
                            if unescape_utf8(body@.skip(i - 1)) is Some {
                                assert(out@ + unescape_utf8(body@.skip(i - 1))->0 =~= prev@ + (
                                seq![(acc as u32) as char] + unescape_utf8(body@.skip(i - 1))->0));
                            }
                        }
                    },
                    None => {
                        return None;
                    },
                }
            } else {
                assert(simple_escape_byte(e) is None);
                return None;
            }
        } else {
            proof {
                assert(body@.skip(i - 1).skip(1) =~= body@.skip(i as int));
                if unescape_utf8(body@.skip(i as int)) is Some {
                    let r2 = unescape_utf8(body@.skip(i as int))->0;
                    assert(out@.push(c) + r2 =~= out@ + (seq![c] + r2));
                }
            }
            push_char(&mut out, c);
            i = i + 1;
        }
    }
    proof {
        assert(body@.skip(m - 1) =~= Seq::<char>::empty());
    }
    Some(out)
}


/// The escaped form of the byte `b`: the five simple escapes, the byte
/// itself in the printable range `0x20..0x7E`, and `\xHH` in lower case
/// otherwise.
pub open spec fn escape_byte(b: u8) -> Seq<char> {
    if b == 0x09 {
        seq!['\\', 't']
    } else if b == 0x0A {
        seq!['\\', 'n']
    } else if b == 0x0D {
        seq!['\\', 'r']
    } else if b == 0x22 {
        seq!['\\', '"']
    } else if b == 0x5C {
        seq!['\\', '\\']
    } else if 0x20 <= b && b <= 0x7E {
        seq![b as char]
    } else {
        seq!['\\', 'x', hex_digit_char(b as int / 16), hex_digit_char(b as int % 16)]
    }
}

/// The concatenated escaped forms of the bytes of `bs`.
pub open spec fn escape_bytes(bs: Seq<u8>) -> Seq<char>
    decreases bs.len(),
{
    if bs.len() == 0 {
        Seq::empty()
    } else {
        escape_bytes(bs.drop_last()) + escape_byte(bs.last())
    }
}

/// The quoted atom for the byte string `bs`.
pub open spec fn spec_serialize_byte_string(bs: Seq<u8>) -> Seq<char> {
    seq!['"'] + escape_bytes(bs) + seq!['"']
}

/// The concatenated escaped forms of the ASCII characters of `s`.
pub open spec fn escape_ascii_chars(s: Seq<char>) -> Seq<char>
    recommends
        vstd::utf8::is_ascii_chars(s),
    decreases s.len(),
{
    if s.len() == 0 {
        Seq::empty()
    } else {
        escape_ascii_chars(s.drop_last()) + escape_byte((s.last() as u32) as u8)
    }
}

/// The quoted atom for the ASCII string `s`.
pub open spec fn spec_serialize_ascii_string(s: Seq<char>) -> Seq<char> {
    seq!['"'] + escape_ascii_chars(s) + seq!['"']
}

/// The lower-case hexadecimal digit run of `n`, without leading zeros.
pub open spec fn hex_atom(n: int) -> Seq<char>
    recommends
        n >= 0,
    decreases n,
{
    if n < 16 {
        seq![hex_digit_char(n)]
    } else {
        hex_atom(n / 16).push(hex_digit_char(n % 16))
    }
}

/// The escaped form of the character `c` under the UTF-8 codec: the five
/// simple escapes, the character itself in the printable range
/// `0x20..0x7E`, and `\u{h..}` in lower case without leading zeros
/// otherwise.
pub open spec fn escape_utf8_char(c: char) -> Seq<char> {
    if c == '\t' {
        seq!['\\', 't']
    } else if c == '\n' {
        seq!['\\', 'n']
    } else if c == '\r' {
        seq!['\\', 'r']
    } else if c == '"' {
        seq!['\\', '"']
    } else if c == '\\' {
        seq!['\\', '\\']
    } else if 0x20 <= c as u32 && c as u32 <= 0x7E {
        seq![c]
    } else {
        seq!['\\', 'u', '{'] + hex_atom(c as u32 as int) + seq!['}']
    }
}

/// The concatenated escaped forms of the characters of `s`.
pub open spec fn escape_utf8_chars(s: Seq<char>) -> Seq<char>
    decreases s.len(),
{
    if s.len() == 0 {
        Seq::empty()
    } else {
        escape_utf8_chars(s.drop_last()) + escape_utf8_char(s.last())
    }
}

/// The quoted atom for the UTF-8 string `s`.
pub open spec fn spec_serialize_utf8_string(s: Seq<char>) -> Seq<char> {
    seq!['"'] + escape_utf8_chars(s) + seq!['"']
}

/// Renders a nibble as a lower-case hexadecimal digit.
pub fn nibble_to_hex(nibble: u8) -> (r: char)
    requires
        nibble < 16,
    ensures
        r == hex_digit_char(nibble as int),
{
    if nibble < 10 {
        (('0' as u32 + nibble as u32) as u8) as char
    } else {
        (('a' as u32 + nibble as u32 - 10) as u8) as char
    }
}

/// Appends the escaped form of the byte `b` to `output`.
fn push_escaped_byte(b: u8, output: &mut String)
    ensures
        final(output)@ == old(output)@ + escape_byte(b),
{
    if b == 0x09 {
        push_char(output, '\\');
        push_char(output, 't');
        assert(final(output)@ =~= old(output)@ + escape_byte(b));
    } else if b == 0x0A {
        push_char(output, '\\');
        push_char(output, 'n');
        assert(final(output)@ =~= old(output)@ + escape_byte(b));
    } else if b == 0x0D {
        push_char(output, '\\');
        push_char(output, 'r');
        assert(final(output)@ =~= old(output)@ + escape_byte(b));
    } else if b == 0x22 {
        push_char(output, '\\');
        push_char(output, '"');
        assert(final(output)@ =~= old(output)@ + escape_byte(b));
    } else if b == 0x5C {
        push_char(output, '\\');
        push_char(output, '\\');
        assert(final(output)@ =~= old(output)@ + escape_byte(b));
    } else if 0x20 <= b && b <= 0x7E {
        push_char(output, b as char);
        assert(final(output)@ =~= old(output)@ + escape_byte(b));
    } else {
        push_char(output, '\\');
        push_char(output, 'x');
        assert(b >> 4 == b / 16 && b / 16 < 16) by (bit_vector);
        assert(b & 0xF == b % 16 && b % 16 < 16) by (bit_vector);
        push_char(output, nibble_to_hex(b >> 4));
        push_char(output, nibble_to_hex(b & 0xF));
        assert(final(output)@ =~= old(output)@ + escape_byte(b));
    }
}

/// Appends the quoted atom for the byte string `string` to `output`.
pub fn serialize_byte_string(string: &[u8], output: &mut String)
    ensures
        final(output)@ == old(output)@ + spec_serialize_byte_string(string@),
{
    push_char(output, '"');
    let n = string.len();
    let mut i: usize = 0;
    while i < n
        invariant
            i <= n,
            n == string@.len(),
            output@ == old(output)@ + seq!['"'] + escape_bytes(string@.take(i as int)),
        decreases n - i,
    {
        let b = string[i];
        proof {
            assert(string@.take(i + 1).drop_last() =~= string@.take(i as int));
            assert(string@.take(i + 1).last() == b);
        }
        push_escaped_byte(b, output);
        i = i + 1;
    }
    proof {
        assert(string@.take(n as int) =~= string@);
    }
    push_char(output, '"');
    proof {
        assert(final(output)@ =~= old(output)@ + spec_serialize_byte_string(string@));
    }
}

/// The quoted atom for the byte string `string`.
pub fn serialize_byte_string_as_string(string: &[u8]) -> (r: String)
    ensures
        r@ == spec_serialize_byte_string(string@),
{
    let mut output = String::new();
    serialize_byte_string(string, &mut output);
    proof {
        assert(output@ =~= spec_serialize_byte_string(string@));
    }
    output
}

/// Appends the quoted atom for the ASCII string `string` to `output`.
///
/// The string must be ASCII: a character above `0x7F` has no
/// representation under this codec.
pub fn serialize_ascii_string(string: &str, output: &mut String)
    requires
        string.is_ascii(),
    ensures
        final(output)@ == old(output)@ + spec_serialize_ascii_string(string@),
{
    push_char(output, '"');
    let n = string.unicode_len();
    let mut i: usize = 0;
    while i < n
        invariant
            i <= n,
            n == string@.len(),
            string.is_ascii(),
            output@ == old(output)@ + seq!['"'] + escape_ascii_chars(string@.take(i as int)),
        decreases n - i,
    {
        let c = string.get_char(i);
        proof {
            assert(string@.take(i + 1).drop_last() =~= string@.take(i as int));
            assert(string@.take(i + 1).last() == c);
        }
        let b = (c as u32) as u8;
        push_escaped_byte(b, output);
        i = i + 1;
    }
    proof {
        assert(string@.take(n as int) =~= string@);
    }
    push_char(output, '"');
    proof {
        assert(final(output)@ =~= old(output)@ + spec_serialize_ascii_string(string@));
    }
}

/// The quoted atom for the ASCII string `string`.
pub fn serialize_ascii_string_as_string(string: &str) -> (r: String)
    requires
        string.is_ascii(),
    ensures
        r@ == spec_serialize_ascii_string(string@),
{
    let mut output = String::new();
    serialize_ascii_string(string, &mut output);
    proof {
        assert(output@ =~= spec_serialize_ascii_string(string@));
    }
    output
}

/// Appends the escaped form of the character `c` under the UTF-8 codec to
/// `output`.
#[verifier::rlimit(50)]
fn push_escaped_utf8_char(c: char, output: &mut String)
    ensures
        final(output)@ == old(output)@ + escape_utf8_char(c),
{
    if c == '\t' {
        push_char(output, '\\');
        push_char(output, 't');
        assert(final(output)@ =~= old(output)@ + escape_utf8_char(c));
    } else if c == '\n' {
        push_char(output, '\\');
        push_char(output, 'n');
        assert(final(output)@ =~= old(output)@ + escape_utf8_char(c));
    } else if c == '\r' {
        push_char(output, '\\');
        push_char(output, 'r');
        assert(final(output)@ =~= old(output)@ + escape_utf8_char(c));
    } else if c == '"' {
        push_char(output, '\\');
        push_char(output, '"');
        assert(final(output)@ =~= old(output)@ + escape_utf8_char(c));
    } else if c == '\\' {
        push_char(output, '\\');
        push_char(output, '\\');
        assert(final(output)@ =~= old(output)@ + escape_utf8_char(c));
    } else {
        let u = c as u32;
        if 0x20 <= u && u <= 0x7E {
            push_char(output, c);
            assert(final(output)@ =~= old(output)@ + escape_utf8_char(c));
        } else {
            push_char(output, '\\');
            push_char(output, 'u');
            push_char(output, '{');
            let brace = Ghost(output@);
            let mut ds: Vec<char> = Vec::new();
            let mut rem: u32 = u;
            loop
                invariant_except_break
                    hex_atom(u as int) =~= hex_atom(rem as int) + ds@.reverse(),
                ensures
                    hex_atom(u as int) =~= ds@.reverse(),
                decreases rem,
            {
                let d: u32 = rem % 16;
                let hc = nibble_to_hex(d as u8);
                proof {
                    assert(ds@.push(hc).reverse() =~= seq![hc] + ds@.reverse());
                }
                ds.push(hc);
                if rem < 16 {
                    proof {
                        assert(hex_atom(rem as int) =~= seq![hex_digit_char(rem as int)]);
                        assert(hex_atom(u as int) =~= ds@.reverse());
                    }
                    break ;
                }
                proof {
                    assert(hex_atom(rem as int) =~= hex_atom(rem as int / 16).push(
                        hex_digit_char(rem as int % 16),
                    ));
                    assert(hex_atom(rem as int / 16).push(hc) + ds@.reverse() =~= hex_atom(
                        rem as int / 16,
                    ) + (seq![hc] + ds@.reverse()));
                }
                rem = rem / 16;
            }
            let k = ds.len();
            let mut j: usize = 0;
            while j < k
                invariant
                    k == ds@.len(),
                    j <= k,
                    hex_atom(u as int) =~= ds@.reverse(),
                    output@ == brace@ + ds@.reverse().take(j as int),
                decreases k - j,
            {
                let hc = ds[k - 1 - j];
                assert(ds@.reverse()[j as int] == hc);
                push_char(output, hc);
                proof {
                    assert(ds@.reverse().take(j + 1) =~= ds@.reverse().take(j as int).push(hc));
                }
                j = j + 1;
            }
            proof {
                assert(ds@.reverse().take(k as int) =~= ds@.reverse());
            }
            push_char(output, '}');
            proof {
                assert(final(output)@ =~= old(output)@ + escape_utf8_char(c));
            }
        }
    }
}

/// Appends the quoted atom for the string `string` to `output`.
pub fn serialize_utf8_string(string: &str, output: &mut String)
    ensures
        final(output)@ == old(output)@ + spec_serialize_utf8_string(string@),
{
    push_char(output, '"');
    let n = string.unicode_len();
    let mut i: usize = 0;
    while i < n
        invariant
            i <= n,
            n == string@.len(),
            output@ == old(output)@ + seq!['"'] + escape_utf8_chars(string@.take(i as int)),
        decreases n - i,
    {
        let c = string.get_char(i);
        proof {
            assert(string@.take(i + 1).drop_last() =~= string@.take(i as int));
            assert(string@.take(i + 1).last() == c);
        }
        push_escaped_utf8_char(c, output);
        i = i + 1;
    }
    proof {
        assert(string@.take(n as int) =~= string@);
    }
    push_char(output, '"');
    proof {
        assert(final(output)@ =~= old(output)@ + spec_serialize_utf8_string(string@));
    }
}

/// The quoted atom for the string `string`.
pub fn serialize_utf8_string_as_string(string: &str) -> (r: String)
    ensures
        r@ == spec_serialize_utf8_string(string@),
{
    let mut output = String::new();
    serialize_utf8_string(string, &mut output);
    proof {
        assert(output@ =~= spec_serialize_utf8_string(string@));
    }
    output
}


/// Unfolds the escaped form of a byte run at the front.
proof fn lemma_escape_bytes_front(bs: Seq<u8>)
    requires
        bs.len() > 0,
    ensures
        escape_bytes(bs) == escape_byte(bs[0]) + escape_bytes(bs.drop_first()),
    decreases bs.len(),
{
    if bs.len() == 1 {
        assert(bs.drop_last() =~= Seq::<u8>::empty());
        assert(bs.drop_first() =~= Seq::<u8>::empty());
        assert(escape_bytes(bs) =~= escape_byte(bs[0]) + escape_bytes(bs.drop_first()));
    } else {
        let dl = bs.drop_last();
        lemma_escape_bytes_front(dl);
        assert(dl[0] == bs[0]);
        assert(dl.drop_first() =~= bs.drop_first().drop_last());
        assert(bs.drop_first().last() == bs.last());
        assert(escape_bytes(bs) == escape_bytes(dl) + escape_byte(bs.last()));
        assert(escape_bytes(bs.drop_first()) == escape_bytes(bs.drop_first().drop_last())
            + escape_byte(bs.last()));
        assert((escape_byte(bs[0]) + escape_bytes(dl.drop_first())) + escape_byte(bs.last())
            =~= escape_byte(bs[0]) + (escape_bytes(dl.drop_first()) + escape_byte(bs.last())));
    }
}

/// A hexadecimal digit character carries its value back.
proof fn lemma_hex_digit_round_trip(d: int)
    requires
        0 <= d <= 15,
    ensures
        is_hex_digit(hex_digit_char(d)),
        hex_digit_val(hex_digit_char(d)) == d,
{
}

/// The escaped form of any byte run, followed by any tail, unescapes to
/// the bytes followed by whatever the tail unescapes to.
proof fn lemma_unescape_escape_bytes(bs: Seq<u8>, tail: Seq<char>)
    ensures
        unescape_bytes(escape_bytes(bs) + tail) == match unescape_bytes(tail) {
            Some(r) => Some(bs + r),
            None => None::<Seq<u8>>,
        },
    decreases bs.len(),
{
    if bs.len() == 0 {
        assert(escape_bytes(bs) + tail =~= tail);
        if unescape_bytes(tail) is Some {
            assert(bs + unescape_bytes(tail)->0 =~= unescape_bytes(tail)->0);
        }
    } else {
        let b = bs[0];
        let rest = bs.drop_first();
        lemma_escape_bytes_front(bs);
        lemma_unescape_escape_bytes(rest, tail);
        let e = escape_byte(b);
        let s = escape_bytes(bs) + tail;
        let s2 = escape_bytes(rest) + tail;
        assert(s =~= e + s2);
        if b == 0x09 || b == 0x0A || b == 0x0D || b == 0x22 || b == 0x5C {
            assert(s[0] == '\\');
            assert(s[1] == e[1]);
            assert(simple_escape_byte(s[1]) == Some(b));
            assert(s.skip(2) =~= s2);
            if unescape_bytes(tail) is Some {
                assert(seq![b] + (rest + unescape_bytes(tail)->0) =~= bs + unescape_bytes(
                    tail,
                )->0);
            }
        } else if 0x20 <= b && b <= 0x7E {
            assert(e =~= seq![b as char]);
            assert(s[0] == b as char);
            assert(s[0] as u32 == b);
            assert((s[0] as u32) < 0x80);
            assert(s[0] != '\\' && s[0] != '"');
            assert(encode_scalar(s[0] as u32) =~= seq![b]) by {
                assert(vstd::utf8::has_width_1_encoding(b as u32));
                assert((b as u32) & 0x7F == b as u32) by (bit_vector)
                    requires
                        b < 0x80,
                {}
            }
            assert(s.skip(1) =~= s2);
            if unescape_bytes(tail) is Some {
                assert(seq![b] + (rest + unescape_bytes(tail)->0) =~= bs + unescape_bytes(
                    tail,
                )->0);
            }
        } else {
            let hi = b as int / 16;
            let lo = b as int % 16;
            lemma_hex_digit_round_trip(hi);
            lemma_hex_digit_round_trip(lo);
            assert(s[0] == '\\' && s[1] == 'x' && s[2] == hex_digit_char(hi) && s[3]
                == hex_digit_char(lo));
            assert(simple_escape_byte('x') is None);
            assert(hex_digit_val(s[2]) * 16 + hex_digit_val(s[3]) == b);
            assert(s.skip(4) =~= s2);
            if unescape_bytes(tail) is Some {
                assert(seq![b] + (rest + unescape_bytes(tail)->0) =~= bs + unescape_bytes(
                    tail,
                )->0);
            }
        }
    }
}

/// Round trip of the byte codec: the quoted atom for any byte string
/// parses back to exactly those bytes.
pub proof fn lemma_byte_string_round_trip(bs: Seq<u8>)
    ensures
        spec_parse_byte_string(spec_serialize_byte_string(bs)) == Some(bs),
{
    let s = spec_serialize_byte_string(bs);
    assert(s[0] == '"');
    assert(s.last() == '"');
    assert(quoted_body(s) =~= escape_bytes(bs) + Seq::<char>::empty());
    lemma_unescape_escape_bytes(bs, Seq::<char>::empty());
    assert(unescape_bytes(Seq::<char>::empty()) == Some(Seq::<u8>::empty()));
    assert(bs + Seq::<u8>::empty() =~= bs);
}


/// Unfolds the escaped form of an ASCII character run at the front.
proof fn lemma_escape_ascii_front(s: Seq<char>)
    requires
        s.len() > 0,
    ensures
        escape_ascii_chars(s) == escape_byte((s[0] as u32) as u8) + escape_ascii_chars(
            s.drop_first(),
        ),
    decreases s.len(),
{
    if s.len() == 1 {
        assert(s.drop_last() =~= Seq::<char>::empty());
        assert(s.drop_first() =~= Seq::<char>::empty());
        assert(escape_ascii_chars(s) =~= escape_byte((s[0] as u32) as u8) + escape_ascii_chars(
            s.drop_first(),
        ));
    } else {
        let dl = s.drop_last();
        lemma_escape_ascii_front(dl);
        assert(dl[0] == s[0]);
        assert(dl.drop_first() =~= s.drop_first().drop_last());
        assert(s.drop_first().last() == s.last());
        assert((escape_byte((s[0] as u32) as u8) + escape_ascii_chars(dl.drop_first()))
            + escape_byte((s.last() as u32) as u8) =~= escape_byte((s[0] as u32) as u8) + (
        escape_ascii_chars(dl.drop_first()) + escape_byte((s.last() as u32) as u8)));
    }
}

/// The escaped form of any ASCII character run, followed by any tail,
/// unescapes to the characters followed by whatever the tail unescapes
/// to.
proof fn lemma_unescape_escape_ascii(s: Seq<char>, tail: Seq<char>)
    requires
        vstd::utf8::is_ascii_chars(s),
    ensures
        unescape_ascii(escape_ascii_chars(s) + tail) == match unescape_ascii(tail) {
            Some(r) => Some(s + r),
            None => None::<Seq<char>>,
        },
    decreases s.len(),
{
    if s.len() == 0 {
        assert(escape_ascii_chars(s) + tail =~= tail);
        if unescape_ascii(tail) is Some {
            assert(s + unescape_ascii(tail)->0 =~= unescape_ascii(tail)->0);
        }
    } else {
        let c = s[0];
        let u = c as u32;
        assert('\0' <= c <= '\u{7f}');
        assert(u <= 0x7F);
        let b = (u) as u8;
        assert(b == u);
        let rest = s.drop_first();
        assert(vstd::utf8::is_ascii_chars(rest)) by {
            assert(forall|k: int| 0 <= k < rest.len() ==> #[trigger] rest[k] == s[k + 1]);
        }
        lemma_escape_ascii_front(s);
        lemma_unescape_escape_ascii(rest, tail);
        let e = escape_byte(b);
        let t = escape_ascii_chars(s) + tail;
        let t2 = escape_ascii_chars(rest) + tail;
        assert(t =~= e + t2);
        vstd::utf8::char_u32_cast(c, u);
        if b == 0x09 || b == 0x0A || b == 0x0D || b == 0x22 || b == 0x5C {
            assert(t[0] == '\\');
            assert(t[1] == e[1]);
            assert(simple_escape_byte(t[1]) == Some(b));
            assert((simple_escape_byte(t[1])->0 as u32) as char == c);
            assert(t.skip(2) =~= t2);
            if unescape_ascii(tail) is Some {
                assert(seq![c] + (rest + unescape_ascii(tail)->0) =~= s + unescape_ascii(
                    tail,
                )->0);
            }
        } else if 0x20 <= b && b <= 0x7E {
            assert(e =~= seq![b as char]);
            assert(b as char == c);
            assert(t[0] == c);
            assert(t[0] != '\\' && t[0] != '"');
            assert(!(t[0] as u32 > 0x7F));
            assert(t.skip(1) =~= t2);
            if unescape_ascii(tail) is Some {
                assert(seq![c] + (rest + unescape_ascii(tail)->0) =~= s + unescape_ascii(
                    tail,
                )->0);
            }
        } else {
            let hi = b as int / 16;
            let lo = b as int % 16;
            lemma_hex_digit_round_trip(hi);
            lemma_hex_digit_round_trip(lo);
            assert(t[0] == '\\' && t[1] == 'x' && t[2] == hex_digit_char(hi) && t[3]
                == hex_digit_char(lo));
            assert(simple_escape_byte('x') is None);
            assert(hex_digit_val(t[2]) * 16 + hex_digit_val(t[3]) == b);
            assert(((b as int) as u32) as char == c);
            assert(t.skip(4) =~= t2);
            if unescape_ascii(tail) is Some {
                assert(seq![c] + (rest + unescape_ascii(tail)->0) =~= s + unescape_ascii(
                    tail,
                )->0);
            }
        }
    }
}

/// Round trip of the ASCII codec: the quoted atom for any ASCII string
/// parses back to exactly that string.
pub proof fn lemma_ascii_string_round_trip(s: Seq<char>)
    requires
        vstd::utf8::is_ascii_chars(s),
    ensures
        spec_parse_ascii_string(spec_serialize_ascii_string(s)) == Some(s),
{
    let a = spec_serialize_ascii_string(s);
    assert(a[0] == '"');
    assert(a.last() == '"');
    assert(quoted_body(a) =~= escape_ascii_chars(s) + Seq::<char>::empty());
    lemma_unescape_escape_ascii(s, Seq::<char>::empty());
    assert(unescape_ascii(Seq::<char>::empty()) == Some(Seq::<char>::empty()));
    assert(s + Seq::<char>::empty() =~= s);
}


/// The value scanned from a hexadecimal digit run, starting from `acc`.
spec fn hex_acc(s: Seq<char>, acc: int) -> int
    decreases s.len(),
{
    if s.len() == 0 {
        acc
    } else {
        hex_acc(s.drop_first(), acc * 16 + hex_digit_val(s[0]))
    }
}

/// Scanning one more digit at the end multiplies the value by sixteen.
proof fn lemma_hex_acc_push(s: Seq<char>, c: char, acc: int)
    ensures
        hex_acc(s.push(c), acc) == hex_acc(s, acc) * 16 + hex_digit_val(c),
    decreases s.len(),
{
    reveal_with_fuel(hex_acc, 3);
    if s.len() == 0 {
        assert(s.push(c).drop_first() =~= Seq::<char>::empty());
        assert(s.push(c)[0] == c);
    } else {
        assert(s.push(c).drop_first() =~= s.drop_first().push(c));
        assert(s.push(c)[0] == s[0]);
        lemma_hex_acc_push(s.drop_first(), c, acc * 16 + hex_digit_val(s[0]));
    }
}

/// Scanning never lowers a non-negative accumulator.
proof fn lemma_hex_acc_lower(s: Seq<char>, acc: int)
    requires
        acc >= 0,
        forall|i: int| 0 <= i < s.len() ==> is_hex_digit(#[trigger] s[i]),
    ensures
        hex_acc(s, acc) >= acc,
    decreases s.len(),
{
    if s.len() > 0 {
        assert(is_hex_digit(s[0]));
        assert(forall|i: int|
            0 <= i < s.drop_first().len() ==> #[trigger] s.drop_first()[i] == s[i + 1]);
        lemma_hex_acc_lower(s.drop_first(), acc * 16 + hex_digit_val(s[0]));
        assert(acc * 16 >= acc) by (nonlinear_arith)
            requires
                acc >= 0,
        {}
    }
}

/// The lower-case hexadecimal run of `n` is made of hexadecimal digits
/// and scans back to `n`.
proof fn lemma_hex_atom_val(n: int)
    requires
        n >= 0,
    ensures
        hex_atom(n).len() >= 1,
        forall|i: int| 0 <= i < hex_atom(n).len() ==> is_hex_digit(#[trigger] hex_atom(n)[i]),
        hex_acc(hex_atom(n), 0) == n,
    decreases n,
{
    reveal_with_fuel(hex_acc, 3);
    if n < 16 {
        lemma_hex_digit_round_trip(n);
        assert(hex_atom(n) =~= seq![hex_digit_char(n)]);
        assert(hex_atom(n)[0] == hex_digit_char(n));
        assert(hex_atom(n).drop_first() =~= Seq::<char>::empty());
    } else {
        lemma_hex_atom_val(n / 16);
        lemma_hex_digit_round_trip(n % 16);
        let p = hex_atom(n / 16);
        assert(hex_atom(n) == p.push(hex_digit_char(n % 16)));
        lemma_hex_acc_push(p, hex_digit_char(n % 16), 0);
        assert((n / 16) * 16 + n % 16 == n) by (nonlinear_arith)
            requires
                n >= 16,
        {}
        assert(forall|i: int|
            0 <= i < p.len() ==> #[trigger] hex_atom(n)[i] == p[i]);
        assert(hex_atom(n).last() == hex_digit_char(n % 16));
    }
}

/// Scanning the digit run `d` and a closing brace, starting from `acc`,
/// yields the character with code `hex_acc(d, acc)` followed by whatever
/// the tail unescapes to.
proof fn lemma_scan_unicode(d: Seq<char>, acc: int, tail: Seq<char>)
    requires
        0 <= acc,
        forall|i: int| 0 <= i < d.len() ==> is_hex_digit(#[trigger] d[i]),
        is_unicode_scalar(hex_acc(d, acc)),
    ensures
        unescape_utf8_unicode(d + (seq!['}'] + tail), acc) == match unescape_utf8(tail) {
            Some(r) => Some(seq![(hex_acc(d, acc) as u32) as char] + r),
            None => None::<Seq<char>>,
        },
    decreases d.len(),
{
    let s = d + (seq!['}'] + tail);
    if d.len() == 0 {
        assert(s[0] == '}');
        assert(s.skip(1) =~= tail);
        assert(hex_acc(d, acc) == acc);
    } else {
        assert(s[0] == d[0]);
        assert(is_hex_digit(d[0]));
        assert(d[0] != '}');
        let acc2 = acc * 16 + hex_digit_val(d[0]);
        assert(forall|i: int|
            0 <= i < d.drop_first().len() ==> #[trigger] d.drop_first()[i] == d[i + 1]);
        assert(hex_acc(d, acc) == hex_acc(d.drop_first(), acc2));
        lemma_hex_acc_lower(d.drop_first(), acc2);
        assert(acc2 <= hex_acc(d, acc));
        assert(acc < 0x10000000);
        assert(s.skip(1) =~= d.drop_first() + (seq!['}'] + tail));
        lemma_scan_unicode(d.drop_first(), acc2, tail);
    }
}

/// Unfolds the escaped form of a character run at the front.
proof fn lemma_escape_utf8_front(s: Seq<char>)
    requires
        s.len() > 0,
    ensures
        escape_utf8_chars(s) == escape_utf8_char(s[0]) + escape_utf8_chars(s.drop_first()),
    decreases s.len(),
{
    if s.len() == 1 {
        assert(s.drop_last() =~= Seq::<char>::empty());
        assert(s.drop_first() =~= Seq::<char>::empty());
        assert(escape_utf8_chars(s) =~= escape_utf8_char(s[0]) + escape_utf8_chars(
            s.drop_first(),
        ));
    } else {
        let dl = s.drop_last();
        lemma_escape_utf8_front(dl);
        assert(dl[0] == s[0]);
        assert(dl.drop_first() =~= s.drop_first().drop_last());
        assert(s.drop_first().last() == s.last());
        assert((escape_utf8_char(s[0]) + escape_utf8_chars(dl.drop_first())) + escape_utf8_char(
            s.last(),
        ) =~= escape_utf8_char(s[0]) + (escape_utf8_chars(dl.drop_first()) + escape_utf8_char(
            s.last(),
        )));
    }
}

/// The escaped form of any character run, followed by any tail,
/// unescapes to the characters followed by whatever the tail unescapes
/// to.
proof fn lemma_unescape_escape_utf8(s: Seq<char>, tail: Seq<char>)
    ensures
        unescape_utf8(escape_utf8_chars(s) + tail) == match unescape_utf8(tail) {
            Some(r) => Some(s + r),
            None => None::<Seq<char>>,
        },
    decreases s.len(),
{
    if s.len() == 0 {
        assert(escape_utf8_chars(s) + tail =~= tail);
        if unescape_utf8(tail) is Some {
            assert(s + unescape_utf8(tail)->0 =~= unescape_utf8(tail)->0);
        }
    } else {
        let c = s[0];
        let u = c as u32;
        let rest = s.drop_first();
        lemma_escape_utf8_front(s);
        lemma_unescape_escape_utf8(rest, tail);
        let e = escape_utf8_char(c);
        let t = escape_utf8_chars(s) + tail;
        let t2 = escape_utf8_chars(rest) + tail;
        assert(t =~= e + t2);
        vstd::utf8::char_u32_cast(c, u);
        if c == '\t' || c == '\n' || c == '\r' || c == '"' || c == '\\' {
            assert(t[0] == '\\');
            assert(t[1] == e[1]);
            let b = simple_escape_byte(t[1])->0;
            assert(b as u32 == u);
            assert((simple_escape_byte(t[1])->0 as u32) as char == c);
            assert(t.skip(2) =~= t2);
            if unescape_utf8(tail) is Some {
                assert(seq![c] + (rest + unescape_utf8(tail)->0) =~= s + unescape_utf8(
                    tail,
                )->0);
            }
        } else if 0x20 <= u && u <= 0x7E {
            assert(e =~= seq![c]);
            assert(t[0] == c);
            assert(t[0] != '\\' && t[0] != '"');
            assert(t.skip(1) =~= t2);
            if unescape_utf8(tail) is Some {
                assert(seq![c] + (rest + unescape_utf8(tail)->0) =~= s + unescape_utf8(
                    tail,
                )->0);
            }
        } else {
            lemma_hex_atom_val(u as int);
            let h = hex_atom(u as int);
            assert(e == seq!['\\', 'u', '{'] + h + seq!['}']);
            assert(t[0] == '\\' && t[1] == 'u' && t[2] == '{');
            assert(t[3] == h[0]);
            assert(is_hex_digit(t[3]));
            assert(simple_escape_byte('u') is None);
            assert(t.skip(4) =~= h.drop_first() + (seq!['}'] + t2));
            assert(forall|i: int|
                0 <= i < h.drop_first().len() ==> #[trigger] h.drop_first()[i] == h[i + 1]);
            assert(hex_acc(h.drop_first(), hex_digit_val(h[0])) == hex_acc(h, 0));
            vstd::utf8::char_is_scalar(c);
            assert(is_unicode_scalar(hex_acc(h.drop_first(), hex_digit_val(h[0]))));
            lemma_scan_unicode(h.drop_first(), hex_digit_val(h[0]), t2);
            assert(((hex_acc(h.drop_first(), hex_digit_val(h[0])) as u32)) as char == c);
            if unescape_utf8(t2) is Some {
                assert(seq![c] + (rest + unescape_utf8(tail)->0) =~= s + unescape_utf8(
                    tail,
                )->0);
            }
        }
    }
}

/// Round trip of the UTF-8 codec: the quoted atom for any string parses
/// back to exactly that string.
pub proof fn lemma_utf8_string_round_trip(s: Seq<char>)
    ensures
        spec_parse_utf8_string(spec_serialize_utf8_string(s)) == Some(s),
{
    let a = spec_serialize_utf8_string(s);
    assert(a[0] == '"');
    assert(a.last() == '"');
    assert(quoted_body(a) =~= escape_utf8_chars(s) + Seq::<char>::empty());
    lemma_unescape_escape_utf8(s, Seq::<char>::empty());
    assert(unescape_utf8(Seq::<char>::empty()) == Some(Seq::<char>::empty()));
    assert(s + Seq::<char>::empty() =~= s);
}

} // verus!
