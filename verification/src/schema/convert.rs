//! Reading single nodes as the values that fields hold.

use crate::schema::lookup::{has_quotes, text_of, unquote};
use crate::builder::is_mark;
use crate::decimal::{decimal_of, digits_value, parse_decimal, read_digits, Decimal};
use crate::error::{DecodeError, Field, Shape};
use crate::lexer::{
    digit_end, find_digit_end, is_date, is_number, word_is_date, word_is_number, CLOSE, EQUALS,
    OPEN, QUOTE,
};
use crate::model::{is_tag, opt_text, CountryTag, GameDate};
use crate::tree::{Node, Tree};
use vstd::prelude::*;
use vstd::slice::slice_to_vec;

verus! {

/// The error for a field that does not have its declared shape.
pub open spec fn mismatch(field: Field, expected: Shape, actual: Shape) -> DecodeError {
    DecodeError::SchemaMismatch { field, expected, actual }
}

/// The shape of a node, as a mismatch reports it.
pub open spec fn shape_of(t: Tree) -> Shape {
    match t {
        Tree::Object(_) => Shape::Object,
        Tree::Array(_) => Shape::Array,
        Tree::Scalar(raw) => if is_mark(raw) {
            Shape::Punctuation
        } else if has_quotes(raw) {
            Shape::Text
        } else if is_number(raw) {
            Shape::Number
        } else if is_date(raw) {
            Shape::Date
        } else {
            Shape::Identifier
        },
    }
}

/// The shape of a node, as a mismatch reports it.
pub fn node_shape(node: &Node) -> (r: Shape)
    ensures
        r == shape_of(node@),
{
    match node {
        Node::Object(_) => Shape::Object,
        Node::Array(_) => Shape::Array,
        Node::Scalar(raw) => {
            let n: usize = raw.len();
            if n == 1 && (raw[0] == EQUALS || raw[0] == OPEN || raw[0] == CLOSE) {
                Shape::Punctuation
            } else if n >= 2 && raw[0] == QUOTE && raw[n - 1] == QUOTE {
                Shape::Text
            } else if word_is_number(raw.as_slice()) {
                Shape::Number
            } else if word_is_date(raw.as_slice()) {
                Shape::Date
            } else {
                Shape::Identifier
            }
        },
    }
}

/// The text of a scalar other than punctuation.
pub open spec fn as_text(t: Tree) -> Option<Seq<u8>> {
    match t {
        Tree::Scalar(raw) => if is_mark(raw) {
            None
        } else {
            Some(text_of(raw))
        },
        _ => None,
    }
}

/// The number that a bare scalar stands for.
pub open spec fn as_number(t: Tree) -> Option<Decimal> {
    match t {
        Tree::Scalar(raw) => decimal_of(raw),
        _ => None,
    }
}

/// The whole number of 32 bits that a bare scalar stands for.
pub open spec fn as_integer(t: Tree) -> Option<i32> {
    match as_number(t) {
        Some(d) => if d.scale == 0 && i32::MIN <= d.mantissa <= i32::MAX {
            Some(d.mantissa as i32)
        } else {
            None
        },
        None => None,
    }
}

/// The truth value that a bare `yes` or `no` stands for.
pub open spec fn as_bool(t: Tree) -> Option<bool> {
    match t {
        Tree::Scalar(raw) => if raw == seq![0x79u8, 0x65u8, 0x73u8] {
            Some(true)
        } else if raw == seq![0x6eu8, 0x6fu8] {
            Some(false)
        } else {
            None
        },
        _ => None,
    }
}

/// The date that a text stands for, where it is a date with a year of at
/// most 65535, a month from 1 to 12, a day from 1 to 31 and, if it names an
/// hour, an hour from 1 to 24.
pub open spec fn date_of(w: Seq<u8>) -> Option<GameDate> {
    let a = digit_end(w, 0);
    let b = digit_end(w, a + 1);
    let c = digit_end(w, b + 1);
    let year = digits_value(w, 0, a);
    let month = digits_value(w, a + 1, b);
    let day = digits_value(w, b + 1, c);
    let hour = digits_value(w, c + 1, w.len() as int);
    if is_date(w) && year <= 65535 && 1 <= month <= 12 && 1 <= day <= 31 && (c == w.len() || 1
        <= hour <= 24) {
        Some(
            GameDate {
                year: year as u16,
                month: month as u8,
                day: day as u8,
                hour: if c == w.len() {
                    0
                } else {
                    hour as u8
                },
            },
        )
    } else {
        None
    }
}

/// The date that a scalar stands for, quoted or bare.
pub open spec fn as_date(t: Tree) -> Option<GameDate> {
    match t {
        Tree::Scalar(raw) => date_of(text_of(raw)),
        _ => None,
    }
}

/// Reads a text as a date.
pub fn parse_date(w: &[u8]) -> (r: Option<GameDate>)
    ensures
        r == date_of(w@),
        r matches Some(date) ==> date.wf(),
{
    if !word_is_date(w) {
        return None;
    }
    let n: usize = w.len();
    let a: usize = find_digit_end(w, 0);
    let b: usize = find_digit_end(w, a + 1);
    let c: usize = find_digit_end(w, b + 1);
    let year: Option<i64> = read_digits(w, 0, a);
    let month: Option<i64> = read_digits(w, a + 1, b);
    let day: Option<i64> = read_digits(w, b + 1, c);
    match (year, month, day) {
        (Some(y), Some(m), Some(d)) => {
            if y > 65535 || m < 1 || m > 12 || d < 1 || d > 31 {
                return None;
            }
            if c == n {
                return Some(GameDate { year: y as u16, month: m as u8, day: d as u8, hour: 0 });
            }
            match read_digits(w, c + 1, n) {
                Some(h) => {
                    if h < 1 || h > 24 {
                        None
                    } else {
                        Some(
                            GameDate {
                                year: y as u16,
                                month: m as u8,
                                day: d as u8,
                                hour: h as u8,
                            },
                        )
                    }
                },
                None => None,
            }
        },
        _ => None,
    }
}

/// Reads a node as a text.
pub fn node_text(node: &Node) -> (r: Option<Vec<u8>>)
    ensures
        opt_text(r) == as_text(node@),
{
    match node {
        Node::Scalar(raw) => {
            let n: usize = raw.len();
            if n == 1 && (raw[0] == EQUALS || raw[0] == OPEN || raw[0] == CLOSE) {
                None
            } else {
                Some(slice_to_vec(unquote(raw.as_slice())))
            }
        },
        _ => None,
    }
}

/// Reads a node as a number.
pub fn node_number(node: &Node) -> (r: Option<Decimal>)
    ensures
        r == as_number(node@),
        r matches Some(d) ==> d.wf(),
{
    match node {
        Node::Scalar(raw) => parse_decimal(raw.as_slice()),
        _ => None,
    }
}

/// Reads a node as a whole number of 32 bits.
pub fn node_integer(node: &Node) -> (r: Option<i32>)
    ensures
        r == as_integer(node@),
{
    match node_number(node) {
        Some(d) => {
            if d.scale == 0 && -2147483648 <= d.mantissa && d.mantissa <= 2147483647 {
                Some(d.mantissa as i32)
            } else {
                None
            }
        },
        None => None,
    }
}

/// Reads a node as a truth value.
pub fn node_bool(node: &Node) -> (r: Option<bool>)
    ensures
        r == as_bool(node@),
{
    match node {
        Node::Scalar(raw) => {
            if raw.len() == 3 && raw[0] == 0x79 && raw[1] == 0x65 && raw[2] == 0x73 {
                assert(raw@ =~= seq![0x79u8, 0x65u8, 0x73u8]);
                Some(true)
            } else if raw.len() == 2 && raw[0] == 0x6e && raw[1] == 0x6f {
                assert(raw@ =~= seq![0x6eu8, 0x6fu8]);
                Some(false)
            } else {
                None
            }
        },
        _ => None,
    }
}

/// Reads a node as a date.
pub fn node_date(node: &Node) -> (r: Option<GameDate>)
    ensures
        r == as_date(node@),
        r matches Some(date) ==> date.wf(),
{
    match node {
        Node::Scalar(raw) => parse_date(unquote(raw.as_slice())),
        _ => None,
    }
}

/// The tag that the bytes are, if they are one.
pub open spec fn tag_of(bytes: Seq<u8>) -> Option<CountryTag> {
    if is_tag(bytes) {
        Some(CountryTag { first: bytes[0], second: bytes[1], third: bytes[2] })
    } else {
        None
    }
}

/// Calls `hoi4save::CountryTag::create`. It accepts exactly the slices of
/// three bytes each of which is an ASCII letter, an ASCII digit or `-`, and
/// the tag it makes holds those three bytes.
#[verifier::external_body]
fn create_tag(bytes: &[u8]) -> (r: Option<CountryTag>)
    ensures
        r == tag_of(bytes@),
{
    match hoi4save::CountryTag::create(bytes) {
        Ok(tag) => {
            let held: &[u8] = tag.as_bytes();
            Some(CountryTag { first: held[0], second: held[1], third: held[2] })
        },
        Err(_) => None,
    }
}

/// Reads the bytes as a country tag: three bytes, each an ASCII letter, an
/// ASCII digit or `-`.
pub fn parse_tag(bytes: &[u8]) -> (r: Option<CountryTag>)
    ensures
        r == tag_of(bytes@),
        r matches Some(tag) ==> tag.wf() && tag.bytes() == bytes@,
{
    let r: Option<CountryTag> = create_tag(bytes);
    proof {
        if r is Some {
            assert(r->Some_0.bytes() =~= bytes@);
        }
    }
    r
}

} // verus!
