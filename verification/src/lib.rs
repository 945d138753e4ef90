//! YASS is a text based data and configuration format.
//!
//! This crate holds the value tree model together with the atom codec: the
//! conversions between the format's textual atoms and native scalar and
//! string types (booleans, 32/64-bit integers, IEEE-754 doubles given by
//! their bit patterns, and byte/ASCII/UTF-8 strings).

mod bignum;
mod bool_codec;
mod dec2flt;
mod float_codec;
mod flt2dec;
mod int_codec;
mod parser;
mod serializer;
mod string_codec;
mod text_util;
mod value;

pub use dec2flt::Decimal;
pub use dec2flt::convert;
pub use dec2flt::all_digit_bytes;
pub use dec2flt::all_zero_bytes;
pub use dec2flt::leading_pow10;
pub use dec2flt::dec_digits_val;
pub use dec2flt::dec_exp10;
pub use dec2flt::dec_num;
pub use dec2flt::dec_den;
pub use dec2flt::overflows_f64;
pub use dec2flt::rounds_to;
pub use dec2flt::f64_sig;
pub use dec2flt::f64_pos_exp;
pub use dec2flt::digits_num;
pub use dec2flt::digits_den;
pub use dec2flt::finite_bits;
pub use flt2dec::Decoded;
pub use flt2dec::FullDecoded;
pub use flt2dec::MAX_SIG_DIGITS;
pub use flt2dec::decode;
pub use flt2dec::decode_class;
pub use flt2dec::f64_bexp;
pub use flt2dec::f64_frac;
pub use flt2dec::f64_sign;
pub use flt2dec::format_shortest;
pub use flt2dec::fixed_format;
pub use flt2dec::round_up;
pub use flt2dec::last_non_nine;
pub use flt2dec::gen_ready;
pub use flt2dec::decoded_bits;
pub use flt2dec::lemma_decode_encode;
pub use float_codec::parse_f64_bits;
pub use float_codec::serialize_f64_bits;
pub use float_codec::serialize_f64_bits_as_string;
pub use float_codec::serialize_float_aux;
pub use float_codec::is_float_atom;
pub use float_codec::float_all_zero;
pub use float_codec::float_int_digits;
pub use float_codec::float_frac_digits;
pub use float_codec::float_exp_digits;
pub use float_codec::float_exp_mag;
pub use float_codec::float_exp_neg;
pub use float_codec::float_has_dot;
pub use float_codec::float_has_exp;
pub use float_codec::float_exp_start;
pub use float_codec::digit_run_len;
pub use float_codec::float_exp_val;
pub use float_codec::float_exp10;
pub use float_codec::float_digit_bytes;
pub use float_codec::float_runs_in_cap;
pub use float_codec::float_leading_pow10;
pub use float_codec::float_num;
pub use float_codec::float_den;
pub use float_codec::signed_zero_bits;
pub use float_codec::digit_chars;
pub use float_codec::zero_chars;
pub use float_codec::render_finite;
pub use parser::ParserError;
pub use parser::parse;
pub use parser::ParserLimits;
pub use parser::TokenKind;
pub use parser::document_within_limits;
pub use parser::is_limit_error;
pub use parser::no_limit_error_expected;
pub use parser::value_within_limits;
pub use parser::spec_is_atom_chr;
pub use parser::spec_is_string_chr;
pub use value::Document;
pub use value::Pos;
pub use value::StructField;
pub use value::Value;
pub use serializer::IndentType;
pub use serializer::LineBreakType;
pub use serializer::SerializeStyle;
pub use serializer::char_repeat;
pub use serializer::compact_document_text;
pub use serializer::compact_fields_text;
pub use serializer::compact_items_text;
pub use serializer::compact_root_fields_text;
pub use serializer::compact_value_text;
pub use serializer::spaced_document_text;
pub use serializer::spaced_fields_text;
pub use serializer::spaced_items_text;
pub use serializer::spaced_root_fields_text;
pub use serializer::spaced_value_text;

pub use int_codec::parse_i32;
pub use int_codec::parse_i64;
pub use int_codec::parse_u32;
pub use int_codec::parse_u64;
pub use int_codec::serialize_i32;
pub use int_codec::serialize_i32_as_string;
pub use int_codec::serialize_i64;
pub use int_codec::serialize_i64_as_string;
pub use int_codec::serialize_u32;
pub use int_codec::serialize_u32_as_string;
pub use int_codec::serialize_u64;
pub use int_codec::serialize_u64_as_string;
pub use int_codec::is_dec_digit;
pub use int_codec::dec_digit_val;
pub use int_codec::dec_digit_char;
pub use int_codec::all_dec_digits;
pub use int_codec::digits_val;
pub use int_codec::is_uint_atom;
pub use int_codec::is_int_atom;
pub use int_codec::int_atom_negative;
pub use int_codec::int_atom_body;
pub use int_codec::int_atom_val;
pub use int_codec::uint_atom;
pub use int_codec::int_atom;
pub use int_codec::lemma_uint_atom_canonical;
pub use int_codec::lemma_int_atom_canonical;
pub use int_codec::lemma_uint_atom_val;
pub use int_codec::lemma_int_atom_round_trip;
pub use bool_codec::parse_bool;
pub use bool_codec::serialize_bool;
pub use bool_codec::spec_parse_bool;
pub use bool_codec::spec_serialize_bool;
pub use bool_codec::lemma_bool_round_trip;
pub use string_codec::parse_byte_string;
pub use string_codec::parse_ascii_string;
pub use string_codec::parse_utf8_string;
pub use string_codec::serialize_byte_string;
pub use string_codec::serialize_byte_string_as_string;
pub use string_codec::serialize_ascii_string;
pub use string_codec::serialize_ascii_string_as_string;
pub use string_codec::serialize_utf8_string;
pub use string_codec::serialize_utf8_string_as_string;
pub use string_codec::hex_digit_to_u8;
pub use string_codec::nibble_to_hex;
pub use string_codec::is_hex_digit;
pub use string_codec::hex_digit_val;
pub use string_codec::hex_digit_char;
pub use string_codec::simple_escape_byte;
pub use string_codec::unescape_bytes;
pub use string_codec::unescape_ascii;
pub use string_codec::unescape_utf8;
pub use string_codec::unescape_utf8_unicode;
pub use string_codec::is_quoted_atom;
pub use string_codec::quoted_body;
pub use string_codec::spec_parse_byte_string;
pub use string_codec::spec_parse_ascii_string;
pub use string_codec::spec_parse_utf8_string;
pub use string_codec::escape_byte;
pub use string_codec::escape_bytes;
pub use string_codec::escape_ascii_chars;
pub use string_codec::escape_utf8_char;
pub use string_codec::escape_utf8_chars;
pub use string_codec::hex_atom;
pub use string_codec::spec_serialize_byte_string;
pub use string_codec::spec_serialize_ascii_string;
pub use string_codec::spec_serialize_utf8_string;
pub use string_codec::lemma_byte_string_round_trip;
pub use string_codec::lemma_ascii_string_round_trip;
pub use string_codec::lemma_utf8_string_round_trip;
pub use text_util::is_unicode_scalar;
