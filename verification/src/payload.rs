//! Converts between JSON the user supplies and the CBOR payloads of the
//! CSIL-RPC wire format, guided by an operation's type as resolved through a
//! parsed `.csil` file, and back from a decoded response to JSON.
use vstd::prelude::*;
use crate::cbor::{canon, canon_map, keys_sorted, lemma_cbor_list_view, lemma_cbor_entries_view};
use crate::csil::{
    File, Rule, TypeExpr, Group, GroupEntry, GroupKey, Literal, Occurrence, SizeConstraint, ControlOp, FloatNum, str_eq,
};
use crate::float::{Cmp, compare_int, double_order, double_eq, double_of_int};
use crate::jsontext::{json_text, json_to_text};
use crate::list::{resolve_type, entry_name, render_type};
use crate::text::{hex_string, hex_digit, parse_i128, parse_int_error, trim, decimal, str_debug, debug_str, push_char, push_decimal};
use crate::objects::{insert_at, key_less};
use crate::steps::{ran_out, encodes, lemma_encodes_at};
use crate::value::{
    Json, JsonV, JsonNumber, NumberKind, NumberKindV, NumberV, Cbor, CborV, FloatV, float_view, json_view,
    json_list_view, json_members_view, cbor_view, cbor_list_view, cbor_entries_view,
};
use vstd::utf8::encode_utf8;

verus! {

/// How many nested steps (one per level of the JSON value, and one per
/// choice arm, constraint or intersected type tried at a level) a walk over
/// a type may take: the most a `u64` counts. Each step is a nested call, so
/// no stack holds this many; a walk that needs more never returns at all
/// (a type that only leads back to itself without consuming input, such as
/// a choice one of whose arms is the choice itself).
pub const MAX_STEPS: u64 = 0xffff_ffff_ffff_ffff;

/// What a JSON value was expected to be.
#[derive(Clone, Copy, Debug, PartialEq, Eq, Structural)]
pub enum Expectation {
    Object,
    Array,
    Integer,
    NonNegativeInteger,
    Number,
    Str,
    Boolean,
    StringOrBytes,
    Byte,
}

/// A control operator whose check can fail.
#[derive(Clone, Copy, Debug, PartialEq, Eq, Structural)]
pub enum Control {
    Size,
    Regex,
    Ge,
    Le,
    Gt,
    Lt,
    Bits,
    Json,
    Cbor,
    Cborseq,
}

/// The kind of a CBOR value, as error messages name it.
#[derive(Clone, Copy, Debug, PartialEq, Eq, Structural)]
pub enum CborKind {
    Integer,
    Float,
    Text,
    Bytes,
    Bool,
    Null,
    Array,
    MapKind,
    Value,
}

/// Why a JSON value could not be encoded against a type.
#[derive(Debug)]
pub enum EncodeError {
    /// The value (given as its JSON text) is not of the expected shape.
    Expected(Expectation, String),
    /// A `0x` byte string has an odd number of hex digits.
    OddHexLength,
    /// A `0x` byte string holds a pair that is not a hex byte.
    BadHexDigit,
    /// A required field of a group is absent.
    MissingField(String),
    /// No arm of a choice accepts the value.
    NoMatchingArm,
    /// A reference to a name the file does not define (or a cycle).
    UnknownType(String),
    /// A builtin type name that has no encoding.
    UnknownBuiltin(String),
    /// A type expression (given as the listing renders it) with no encoding.
    Unsupported(String),
    /// A control operator applied to a value of a kind it does not check.
    NotApplicable(Control, CborKind),
    /// A `.size` bound not met by the value's length.
    SizeViolated(u64, SizeConstraint),
    /// A `.regex` pattern (first) that does not compile, with the error
    /// text of the regex crate (second).
    BadRegex(String, String),
    /// A text (first) that does not match a `.regex` pattern (second).
    RegexViolated(String, String),
    /// A `.ge`, `.le`, `.gt` or `.lt` bound not met.
    OrderViolated(Control),
    EqViolated,
    NeViolated,
    /// A `.bits` mask (first) that is not an integer, with why (second).
    BadBitsMask(String, String),
    /// An integer that sets bits outside a `.bits` mask (given as written).
    BitsViolated(i128, String),
    /// The value does not also encode against a `.and` type.
    AndViolated(Box<EncodeError>),
    /// The value does not encode against a `.within` type.
    WithinViolated(Box<EncodeError>),
    /// A text (first) that is not JSON, with serde_json's error text
    /// (second).
    JsonViolated(String, String),
    /// Bytes that are not one CBOR item, with ciborium's error text.
    CborViolated(String),
    /// Bytes that are not a sequence of CBOR items, with ciborium's error
    /// text for the first item that fails.
    CborseqViolated(String),
    /// Encoding took more than `MAX_STEPS` nested steps.
    TooDeep,
}

/// The mathematical view of an `EncodeError`.
pub enum EncodeErrorV {
    Expected(Expectation, Seq<char>),
    OddHexLength,
    BadHexDigit,
    MissingField(Seq<char>),
    NoMatchingArm,
    UnknownType(Seq<char>),
    UnknownBuiltin(Seq<char>),
    Unsupported(Seq<char>),
    NotApplicable(Control, CborKind),
    SizeViolated(u64, SizeConstraint),
    BadRegex(Seq<char>, Seq<char>),
    RegexViolated(Seq<char>, Seq<char>),
    OrderViolated(Control),
    EqViolated,
    NeViolated,
    BadBitsMask(Seq<char>, Seq<char>),
    BitsViolated(i128, Seq<char>),
    AndViolated(Box<EncodeErrorV>),
    WithinViolated(Box<EncodeErrorV>),
    JsonViolated(Seq<char>, Seq<char>),
    CborViolated(Seq<char>),
    CborseqViolated(Seq<char>),
    TooDeep,
}

pub open spec fn error_view(e: EncodeError) -> EncodeErrorV
    decreases e,
{
    match e {
        EncodeError::Expected(x, s) => EncodeErrorV::Expected(x, s@),
        EncodeError::OddHexLength => EncodeErrorV::OddHexLength,
        EncodeError::BadHexDigit => EncodeErrorV::BadHexDigit,
        EncodeError::MissingField(s) => EncodeErrorV::MissingField(s@),
        EncodeError::NoMatchingArm => EncodeErrorV::NoMatchingArm,
        EncodeError::UnknownType(s) => EncodeErrorV::UnknownType(s@),
        EncodeError::UnknownBuiltin(s) => EncodeErrorV::UnknownBuiltin(s@),
        EncodeError::Unsupported(s) => EncodeErrorV::Unsupported(s@),
        EncodeError::NotApplicable(c, k) => EncodeErrorV::NotApplicable(c, k),
        EncodeError::SizeViolated(n, sc) => EncodeErrorV::SizeViolated(n, sc),
        EncodeError::BadRegex(s, m) => EncodeErrorV::BadRegex(s@, m@),
        EncodeError::RegexViolated(s, p) => EncodeErrorV::RegexViolated(s@, p@),
        EncodeError::OrderViolated(c) => EncodeErrorV::OrderViolated(c),
        EncodeError::EqViolated => EncodeErrorV::EqViolated,
        EncodeError::NeViolated => EncodeErrorV::NeViolated,
        EncodeError::BadBitsMask(s, m) => EncodeErrorV::BadBitsMask(s@, m@),
        EncodeError::BitsViolated(n, s) => EncodeErrorV::BitsViolated(n, s@),
        EncodeError::AndViolated(inner) => EncodeErrorV::AndViolated(Box::new(error_view(*inner))),
        EncodeError::WithinViolated(inner) => EncodeErrorV::WithinViolated(Box::new(error_view(*inner))),
        EncodeError::JsonViolated(s, m) => EncodeErrorV::JsonViolated(s@, m@),
        EncodeError::CborViolated(m) => EncodeErrorV::CborViolated(m@),
        EncodeError::CborseqViolated(m) => EncodeErrorV::CborseqViolated(m@),
        EncodeError::TooDeep => EncodeErrorV::TooDeep,
    }
}

impl View for EncodeError {
    type V = EncodeErrorV;

    open spec fn view(&self) -> EncodeErrorV {
        error_view(*self)
    }
}

/// The view of an encoding result.
pub open spec fn result_view(r: Result<Cbor, EncodeError>) -> Result<CborV, EncodeErrorV> {
    match r {
        Ok(c) => Ok(c@),
        Err(e) => Err(e@),
    }
}

// ----- Outside checks: regex, JSON text, CBOR items -----

/// What `regex::Regex::new` gives for the pattern: `None` when it
/// compiles, else the text of its error (`Display`).
pub uninterp spec fn regex_new_error(pattern: Seq<char>) -> Option<Seq<char>>;

/// Whether the compiled pattern matches somewhere in the text
/// (`regex::Regex::is_match`).
pub uninterp spec fn regex_is_match(pattern: Seq<char>, text: Seq<char>) -> bool;

/// What `serde_json::from_str::<serde_json::Value>` gives for the text:
/// `None` when it parses, else the text of its error (`Display`).
pub uninterp spec fn json_parse_error(text: Seq<char>) -> Option<Seq<char>>;

/// What `ciborium::de::from_reader` gives when it decodes one CBOR item
/// from the front of the bytes: how many bytes it read, or the text of its
/// error (`Display`).
pub uninterp spec fn cbor_decode(bytes: Seq<u8>) -> Result<nat, Seq<char>>;

/// Compiles `pattern` with `regex::Regex::new` and, when it compiles, asks
/// `is_match` whether it matches somewhere in `text`.
///
/// Trusted: the result is `Err` with the error's text exactly when the
/// pattern does not compile, and otherwise whether it matches; both are
/// named, nothing else is claimed of them.
#[verifier::external_body]
fn regex_match(pattern: &str, text: &str) -> (r: Result<bool, String>)
    ensures
        match r {
            Ok(b) => regex_new_error(pattern@) is None && b == regex_is_match(pattern@, text@),
            Err(m) => regex_new_error(pattern@) == Some(m@),
        },
{
    match regex::Regex::new(pattern) {
        Ok(re) => Ok(re.is_match(text)),
        Err(e) => Err(e.to_string()),
    }
}

/// Parses `text` with `serde_json::from_str` and gives the text of its
/// error, if any.
///
/// Trusted: the result is named; nothing else is claimed of it.
#[verifier::external_body]
fn json_text_error(text: &str) -> (r: Option<String>)
    ensures
        match r {
            None => json_parse_error(text@) is None,
            Some(m) => json_parse_error(text@) == Some(m@),
        },
{
    match serde_json::from_str::<serde_json::Value>(text) {
        Ok(_) => None,
        Err(e) => Some(e.to_string()),
    }
}

/// Decodes one CBOR item with `ciborium::de::from_reader` from the front of
/// `bytes` (through a `Cursor`, which reads as the slice does), and gives
/// how many bytes it read, or the text of its error.
///
/// Trusted: the result is named; besides, a decoded item has read at least
/// one byte (an item has a header) and no more than were given.
#[verifier::external_body]
fn decode_cbor_prefix(bytes: &[u8]) -> (r: Result<usize, String>)
    ensures
        match r {
            Ok(n) => cbor_decode(bytes@) == Ok::<nat, Seq<char>>(n as nat) && 1 <= n <= bytes@.len(),
            Err(m) => cbor_decode(bytes@) == Err::<nat, Seq<char>>(m@),
        },
{
    let mut cursor = std::io::Cursor::new(bytes);
    match ciborium::de::from_reader::<ciborium::Value, _>(&mut cursor) {
        Ok(_) => Ok(cursor.position() as usize),
        Err(e) => Err(e.to_string()),
    }
}

// ----- JSON accessors, as serde_json defines them -----

pub open spec fn as_i64(k: NumberKindV) -> Option<i64> {
    match k {
        NumberKindV::PosInt(u) => if u <= i64::MAX {
            Some(u as i64)
        } else {
            None
        },
        NumberKindV::NegInt(i) => Some(i),
        NumberKindV::Float(_) => None,
    }
}

pub open spec fn as_u64(k: NumberKindV) -> Option<u64> {
    match k {
        NumberKindV::PosInt(u) => Some(u),
        _ => None,
    }
}

/// The float a number converts to, where it is carried.
pub open spec fn as_f64(n: NumberV) -> Option<FloatV> {
    match n.kind {
        NumberKindV::Float(f) => Some(f),
        _ => n.int_as_float,
    }
}

/// The index of the first member named `k`, at or after `i`.
pub open spec fn member_from(ms: Seq<(Seq<char>, JsonV)>, k: Seq<char>, i: int) -> Option<int>
    decreases ms.len() - i,
{
    if i < 0 || i >= ms.len() {
        None
    } else if ms[i].0 == k {
        Some(i)
    } else {
        member_from(ms, k, i + 1)
    }
}

/// The value of the member named `k` (`Map::get`).
pub open spec fn member_get(ms: Seq<(Seq<char>, JsonV)>, k: Seq<char>) -> Option<JsonV> {
    match member_from(ms, k, 0) {
        Some(i) => Some(ms[i].1),
        None => None,
    }
}

// ----- Literals, builtins and bytes -----

/// The CBOR value a literal stands for.
pub open spec fn literal_cbor(lit: Literal) -> CborV
    decreases lit,
{
    match lit {
        Literal::Integer(n) => CborV::Integer(n as int),
        Literal::Float(f) => CborV::Float(float_view(f)),
        Literal::Text(s) => CborV::Text(s@),
        Literal::Bytes(b) => CborV::Bytes(b@),
        Literal::Bool(b) => CborV::Bool(b),
        Literal::Null => CborV::Null,
        Literal::Array(items) => CborV::Array(literal_list_cbor(items@)),
    }
}

pub open spec fn literal_list_cbor(items: Seq<Literal>) -> Seq<CborV>
    decreases items,
{
    if items.len() == 0 {
        Seq::empty()
    } else {
        literal_list_cbor(items.drop_last()).push(literal_cbor(items.last()))
    }
}

/// JSON converted to CBOR with no type to guide it: integers as integers,
/// other numbers as floats, objects as maps with text keys in canonical order.
pub open spec fn json_any(j: JsonV) -> CborV
    decreases j,
{
    match j {
        JsonV::Null => CborV::Null,
        JsonV::Bool(b) => CborV::Bool(b),
        JsonV::Number(n) => match n.kind {
            NumberKindV::PosInt(u) => CborV::Integer(u as int),
            NumberKindV::NegInt(i) => CborV::Integer(i as int),
            NumberKindV::Float(f) => CborV::Float(f),
        },
        JsonV::Str(s) => CborV::Text(s),
        JsonV::Array(items) => CborV::Array(json_any_list(items)),
        JsonV::Object(ms) => CborV::Entries(canon(json_any_members(ms))),
    }
}

pub open spec fn json_any_list(items: Seq<JsonV>) -> Seq<CborV>
    decreases items,
{
    if items.len() == 0 {
        Seq::empty()
    } else {
        json_any_list(items.drop_last()).push(json_any(items.last()))
    }
}

pub open spec fn json_any_members(ms: Seq<(Seq<char>, JsonV)>) -> Seq<(CborV, CborV)>
    decreases ms,
{
    if ms.len() == 0 {
        Seq::empty()
    } else {
        json_any_members(ms.drop_last()).push((CborV::Text(ms.last().0), json_any(ms.last().1)))
    }
}

/// The value of an ASCII hexadecimal digit.
pub open spec fn hex_value(b: u8) -> Option<nat> {
    if 48 <= b <= 57 {
        Some((b - 48) as nat)
    } else if 97 <= b <= 102 {
        Some((b - 87) as nat)
    } else if 65 <= b <= 70 {
        Some((b - 55) as nat)
    } else {
        None
    }
}

/// A two-character byte in hex, as `u8::from_str_radix(.., 16)` reads it:
/// two digits, or a `+` sign and one digit.
pub open spec fn hex_pair(hi: u8, lo: u8) -> Option<u8> {
    if hi == 43 {
        match hex_value(lo) {
            Some(d) => Some(d as u8),
            None => None,
        }
    } else {
        match (hex_value(hi), hex_value(lo)) {
            (Some(a), Some(b)) => Some((a * 16 + b) as u8),
            _ => None,
        }
    }
}

/// The bytes that the hex digits `b` (as UTF-8 bytes) stand for, two digits
/// per byte.
pub open spec fn hex_decode(b: Seq<u8>) -> Result<Seq<u8>, EncodeErrorV> {
    if b.len() % 2 != 0 {
        Err(EncodeErrorV::OddHexLength)
    } else if forall|i: int| 0 <= i < b.len() / 2 ==> #[trigger] hex_pair(b[2 * i], b[2 * i + 1]) is Some {
        Ok(Seq::new(b.len() / 2, |i: int| hex_pair(b[2 * i], b[2 * i + 1])->0))
    } else {
        Err(EncodeErrorV::BadHexDigit)
    }
}

/// A JSON array element as a byte: a non-negative integer below 256.
pub open spec fn byte_of(j: JsonV) -> Option<u8> {
    match j {
        JsonV::Number(n) => match as_u64(n.kind) {
            Some(u) => if u <= 255 {
                Some(u as u8)
            } else {
                None
            },
            None => None,
        },
        _ => None,
    }
}

/// The bytes of a JSON array of bytes, or the error for its first element
/// that is not a byte.
pub open spec fn bytes_of(items: Seq<JsonV>) -> Result<Seq<u8>, EncodeErrorV>
    decreases items.len(),
{
    if items.len() == 0 {
        Ok(Seq::empty())
    } else {
        match bytes_of(items.drop_last()) {
            Err(e) => Err(e),
            Ok(bs) => match byte_of(items.last()) {
                Some(b) => Ok(bs.push(b)),
                None => Err(EncodeErrorV::Expected(Expectation::Byte, json_text(items.last()))),
            },
        }
    }
}

/// An error in a prefix of the array is the error of the whole array.
pub proof fn lemma_bytes_of_err(items: Seq<JsonV>, k: int)
    requires
        0 <= k <= items.len(),
        bytes_of(items.take(k)) is Err,
    ensures
        bytes_of(items) == bytes_of(items.take(k)),
    decreases items.len() - k,
{
    if k < items.len() {
        assert(items.take(k + 1).drop_last() =~= items.take(k));
        lemma_bytes_of_err(items, k + 1);
    } else {
        assert(items.take(k) =~= items);
    }
}

pub open spec fn starts_with_0x(s: Seq<char>) -> bool {
    s.len() >= 2 && s[0] == '0' && s[1] == 'x'
}

/// A `bytes` value: a string (`0x` and hex digits, or else its UTF-8
/// bytes) or an array of byte values.
pub open spec fn encode_bytes(j: JsonV) -> Result<CborV, EncodeErrorV> {
    match j {
        JsonV::Str(s) => if starts_with_0x(s) {
            match hex_decode(encode_utf8(s.skip(2))) {
                Ok(b) => Ok(CborV::Bytes(b)),
                Err(e) => Err(e),
            }
        } else {
            Ok(CborV::Bytes(encode_utf8(s)))
        },
        JsonV::Array(items) => match bytes_of(items) {
            Ok(b) => Ok(CborV::Bytes(b)),
            Err(e) => Err(e),
        },
        _ => Err(EncodeErrorV::Expected(Expectation::StringOrBytes, json_text(j))),
    }
}

pub open spec fn name_int() -> Seq<char> { seq!['i', 'n', 't'] }
pub open spec fn name_uint() -> Seq<char> { seq!['u', 'i', 'n', 't'] }
pub open spec fn name_float() -> Seq<char> { seq!['f', 'l', 'o', 'a', 't'] }
pub open spec fn name_text() -> Seq<char> { seq!['t', 'e', 'x', 't'] }
pub open spec fn name_bool() -> Seq<char> { seq!['b', 'o', 'o', 'l'] }
pub open spec fn name_bytes() -> Seq<char> { seq!['b', 'y', 't', 'e', 's'] }
pub open spec fn name_nil() -> Seq<char> { seq!['n', 'i', 'l'] }
pub open spec fn name_any() -> Seq<char> { seq!['a', 'n', 'y'] }

/// A value of a builtin type.
pub open spec fn encode_builtin(j: JsonV, name: Seq<char>) -> Result<CborV, EncodeErrorV> {
    if name == name_int() {
        match j {
            JsonV::Number(n) => match as_i64(n.kind) {
                Some(i) => Ok(CborV::Integer(i as int)),
                None => Err(EncodeErrorV::Expected(Expectation::Integer, json_text(j))),
            },
            _ => Err(EncodeErrorV::Expected(Expectation::Integer, json_text(j))),
        }
    } else if name == name_uint() {
        match j {
            JsonV::Number(n) => match as_u64(n.kind) {
                Some(u) => Ok(CborV::Integer(u as int)),
                None => Err(EncodeErrorV::Expected(Expectation::NonNegativeInteger, json_text(j))),
            },
            _ => Err(EncodeErrorV::Expected(Expectation::NonNegativeInteger, json_text(j))),
        }
    } else if name == name_float() {
        match j {
            JsonV::Number(n) => match as_f64(n) {
                Some(f) => Ok(CborV::Float(f)),
                None => Err(EncodeErrorV::Expected(Expectation::Number, json_text(j))),
            },
            _ => Err(EncodeErrorV::Expected(Expectation::Number, json_text(j))),
        }
    } else if name == name_text() {
        match j {
            JsonV::Str(s) => Ok(CborV::Text(s)),
            _ => Err(EncodeErrorV::Expected(Expectation::Str, json_text(j))),
        }
    } else if name == name_bool() {
        match j {
            JsonV::Bool(b) => Ok(CborV::Bool(b)),
            _ => Err(EncodeErrorV::Expected(Expectation::Boolean, json_text(j))),
        }
    } else if name == name_bytes() {
        encode_bytes(j)
    } else if name == name_nil() {
        Ok(CborV::Null)
    } else if name == name_any() {
        Ok(json_any(j))
    } else {
        Err(EncodeErrorV::UnknownBuiltin(name))
    }
}

// ----- Checks of control operators -----

pub open spec fn cbor_kind(v: CborV) -> CborKind {
    match v {
        CborV::Integer(_) => CborKind::Integer,
        CborV::Float(_) => CborKind::Float,
        CborV::Text(_) => CborKind::Text,
        CborV::Bytes(_) => CborKind::Bytes,
        CborV::Bool(_) => CborKind::Bool,
        CborV::Null => CborKind::Null,
        CborV::Array(_) => CborKind::Array,
        CborV::Entries(_) => CborKind::MapKind,
        CborV::Tag(_, _) => CborKind::Value,
    }
}

/// The length `.size` checks: characters of a text, bytes, array items,
/// map entries.
pub open spec fn value_len(v: CborV) -> Option<nat> {
    match v {
        CborV::Text(s) => Some(s.len()),
        CborV::Bytes(b) => Some(b.len()),
        CborV::Array(a) => Some(a.len()),
        CborV::Entries(m) => Some(m.len()),
        _ => None,
    }
}

pub open spec fn size_ok(sc: SizeConstraint, len: nat) -> bool {
    match sc {
        SizeConstraint::Exact(n) => len == n,
        SizeConstraint::Range { min, max } => min <= len <= max,
        SizeConstraint::Min(min) => len >= min,
        SizeConstraint::Max(max) => len <= max,
    }
}

/// Lexicographic comparison (a proper prefix comes first).
pub open spec fn lex_order(a: Seq<int>, b: Seq<int>) -> Cmp
    decreases a.len(),
{
    if a.len() == 0 {
        if b.len() == 0 {
            Cmp::Equal
        } else {
            Cmp::Less
        }
    } else if b.len() == 0 {
        Cmp::Greater
    } else if a[0] < b[0] {
        Cmp::Less
    } else if a[0] > b[0] {
        Cmp::Greater
    } else {
        lex_order(a.drop_first(), b.drop_first())
    }
}

pub open spec fn char_codes(s: Seq<char>) -> Seq<int> {
    s.map_values(|c: char| c as int)
}

pub open spec fn byte_codes(s: Seq<u8>) -> Seq<int> {
    s.map_values(|c: u8| c as int)
}

/// A number as a double (its bit pattern): an integer converted, a float.
pub open spec fn as_double(v: CborV) -> Option<u64> {
    match v {
        CborV::Integer(n) => Some(double_of_int(n) as u64),
        CborV::Float(f) => Some(f.bits),
        _ => None,
    }
}

/// How two CBOR values compare for `.ge`/`.le`/`.gt`/`.lt`: texts, byte
/// strings and booleans among themselves, numbers as doubles; `None` when
/// they do not compare.
pub open spec fn cbor_order(a: CborV, b: CborV) -> Option<Cmp> {
    match (a, b) {
        (CborV::Text(x), CborV::Text(y)) => Some(lex_order(char_codes(x), char_codes(y))),
        (CborV::Bytes(x), CborV::Bytes(y)) => Some(lex_order(byte_codes(x), byte_codes(y))),
        (CborV::Bool(x), CborV::Bool(y)) => Some(
            compare_int(
                if x {
                    1
                } else {
                    0
                },
                if y {
                    1
                } else {
                    0
                },
            ),
        ),
        _ => match (as_double(a), as_double(b)) {
            (Some(x), Some(y)) => double_order(x, y),
            _ => None,
        },
    }
}

/// Whether an ordering satisfies the bound of a comparison operator.
pub open spec fn order_accepts(op: Control, o: Cmp) -> bool {
    match op {
        Control::Ge => o != Cmp::Less,
        Control::Le => o != Cmp::Greater,
        Control::Gt => o == Cmp::Greater,
        _ => o == Cmp::Less,
    }
}

/// `==` on CBOR values (ciborium's derived equality: floats as doubles).
pub open spec fn cbor_eq(a: CborV, b: CborV) -> bool
    decreases a,
{
    match (a, b) {
        (CborV::Integer(x), CborV::Integer(y)) => x == y,
        (CborV::Bytes(x), CborV::Bytes(y)) => x == y,
        (CborV::Float(x), CborV::Float(y)) => double_eq(x.bits, y.bits),
        (CborV::Text(x), CborV::Text(y)) => x == y,
        (CborV::Bool(x), CborV::Bool(y)) => x == y,
        (CborV::Null, CborV::Null) => true,
        (CborV::Tag(t, x), CborV::Tag(u, y)) => t == u && cbor_eq(*x, *y),
        (CborV::Array(xs), CborV::Array(ys)) => cbor_list_eq(xs, ys),
        (CborV::Entries(xs), CborV::Entries(ys)) => cbor_entries_eq(xs, ys),
        _ => false,
    }
}

pub open spec fn cbor_list_eq(xs: Seq<CborV>, ys: Seq<CborV>) -> bool
    decreases xs,
{
    if xs.len() != ys.len() {
        false
    } else if xs.len() == 0 {
        true
    } else {
        cbor_list_eq(xs.drop_last(), ys.drop_last()) && cbor_eq(xs.last(), ys.last())
    }
}

pub open spec fn cbor_entries_eq(xs: Seq<(CborV, CborV)>, ys: Seq<(CborV, CborV)>) -> bool
    decreases xs,
{
    if xs.len() != ys.len() {
        false
    } else if xs.len() == 0 {
        true
    } else {
        cbor_entries_eq(xs.drop_last(), ys.drop_last()) && cbor_eq(xs.last().0, ys.last().0)
            && cbor_eq(xs.last().1, ys.last().1)
    }
}

/// A `.bits` mask as written: decimal, or hex behind `0x`/`0X`, with
/// surrounding whitespace ignored.
pub open spec fn bits_mask(expr: Seq<char>) -> Option<int> {
    let t = trim(expr);
    if t.len() >= 2 && t[0] == '0' && (t[1] == 'x' || t[1] == 'X') {
        parse_i128(t.skip(2), 16)
    } else {
        parse_i128(t, 10)
    }
}

/// Why a `.bits` mask is not an integer (see `bits_mask`).
pub open spec fn bits_mask_error(expr: Seq<char>) -> Seq<char> {
    let t = trim(expr);
    if t.len() >= 2 && t[0] == '0' && (t[1] == 'x' || t[1] == 'X') {
        parse_int_error(t.skip(2), 16)
    } else {
        parse_int_error(t, 10)
    }
}

/// Whether `n` sets a bit that the mask `m` leaves clear.
pub open spec fn sets_bits_outside(n: i128, m: i128) -> bool {
    n & !m != 0
}

/// Why the bytes from `start` on are not a sequence of CBOR items: the
/// error text for the first item that does not decode, or `None` when every
/// item does. (A decoder reads at least one byte and no more than it is
/// given; the last branch is for completeness.)
pub open spec fn cborseq_from(b: Seq<u8>, start: nat) -> Option<Seq<char>>
    decreases b.len() - start,
{
    if start >= b.len() {
        None
    } else {
        match cbor_decode(b.subrange(start as int, b.len() as int)) {
            Err(m) => Some(m),
            Ok(n) => if 1 <= n && start + n <= b.len() {
                cborseq_from(b, start + n)
            } else {
                None
            },
        }
    }
}

// ----- Encoding -----

pub open spec fn is_catch_all(e: GroupEntry) -> bool {
    e.key matches Some(GroupKey::Type(_))
}

pub open spec fn is_optional(e: GroupEntry) -> bool {
    e.occurrence == Some(Occurrence::Optional)
}

/// The names of a group's entries other than its catch-all ones.
pub open spec fn field_names(es: Seq<GroupEntry>) -> Seq<Seq<char>>
    decreases es.len(),
{
    if es.len() == 0 {
        Seq::empty()
    } else if is_catch_all(es.last()) {
        field_names(es.drop_last())
    } else {
        field_names(es.drop_last()).push(entry_name(es.last()))
    }
}

/// The index of a group's last catch-all entry.
pub open spec fn last_catch_all(es: Seq<GroupEntry>) -> Option<int>
    decreases es.len(),
{
    if es.len() == 0 {
        None
    } else if is_catch_all(es.last()) {
        Some(es.len() - 1)
    } else {
        last_catch_all(es.drop_last())
    }
}

/// The first arm of a choice that is a reference to `name`.
pub open spec fn arm_named(arms: Seq<TypeExpr>, name: Seq<char>, i: int) -> Option<int>
    decreases arms.len() - i,
{
    if i < 0 || i >= arms.len() {
        None
    } else if arms[i] matches TypeExpr::Reference(n) && n@ == name {
        Some(i)
    } else {
        arm_named(arms, name, i + 1)
    }
}

pub open spec fn type_hint_key() -> Seq<char> {
    seq!['_', 't', 'y', 'p', 'e']
}

/// The arm that an object's `"_type"` member (a string) names.
pub open spec fn hinted_arm(j: JsonV, arms: Seq<TypeExpr>) -> Option<int> {
    match j {
        JsonV::Object(ms) => match member_get(ms, type_hint_key()) {
            Some(JsonV::Str(h)) => arm_named(arms, h, 0),
            _ => None,
        },
        _ => None,
    }
}

/// JSON `j` encoded against type `t`, resolved through `rules`, in at most
/// `fuel` nested steps.
pub open spec fn encode(rules: Seq<Rule>, j: JsonV, t: TypeExpr, fuel: nat) -> Result<CborV, EncodeErrorV>
    decreases fuel, 0nat, 0nat,
{
    if fuel == 0 {
        Err(EncodeErrorV::TooDeep)
    } else {
        let f = (fuel - 1) as nat;
        let r = resolve_type(rules, t);
        match r {
            TypeExpr::Builtin(name) => encode_builtin(j, name@),
            TypeExpr::Literal(lit) => Ok(literal_cbor(lit)),
            TypeExpr::Group(g) => encode_group(rules, j, g.entries@, f),
            TypeExpr::Tuple(g) => encode_group(rules, j, g.entries@, f),
            TypeExpr::Array { element_type, .. } => match j {
                JsonV::Array(items) => match encode_items(rules, items, *element_type, f) {
                    Ok(cs) => Ok(CborV::Array(cs)),
                    Err(e) => Err(e),
                },
                _ => Err(EncodeErrorV::Expected(Expectation::Array, json_text(j))),
            },
            TypeExpr::MapType { key, value } => match j {
                JsonV::Object(ms) => match encode_members(rules, ms, Seq::empty(), *key, *value, f) {
                    Ok(es) => Ok(CborV::Entries(canon(es))),
                    Err(e) => Err(e),
                },
                _ => Err(EncodeErrorV::Expected(Expectation::Object, json_text(j))),
            },
            TypeExpr::Choice(arms) => encode_choice(rules, j, arms@, f),
            TypeExpr::Constrained { base_type, constraints } => encode_constrained(
                rules,
                j,
                *base_type,
                constraints@,
                f,
            ),
            TypeExpr::Reference(name) => Err(EncodeErrorV::UnknownType(name@)),
            _ => Err(EncodeErrorV::Unsupported(render_type(r))),
        }
    }
}

/// An object against a group: its named fields in the group's order, then
/// the members that no named field consumes, against the last catch-all
/// entry, all in canonical key order.
pub open spec fn encode_group(rules: Seq<Rule>, j: JsonV, es: Seq<GroupEntry>, f: nat) -> Result<CborV, EncodeErrorV>
    decreases f, 2nat, 0nat,
{
    match j {
        JsonV::Object(ms) => match encode_fields(rules, ms, es, f) {
            Err(e) => Err(e),
            Ok(fields) => match last_catch_all(es) {
                None => Ok(CborV::Entries(canon(fields))),
                Some(i) => match encode_members(
                    rules,
                    ms,
                    field_names(es),
                    es[i].key->Some_0->Type_0,
                    es[i].value_type,
                    f,
                ) {
                    Err(e) => Err(e),
                    Ok(extra) => Ok(CborV::Entries(canon(fields + extra))),
                },
            },
        },
        _ => Err(EncodeErrorV::Expected(Expectation::Object, json_text(j))),
    }
}

/// The named fields of a group, in order: each present one encoded under
/// its name, an absent optional one left out, an absent required one an
/// error.
pub open spec fn encode_fields(rules: Seq<Rule>, ms: Seq<(Seq<char>, JsonV)>, es: Seq<GroupEntry>, f: nat) -> Result<Seq<(CborV, CborV)>, EncodeErrorV>
    decreases f, 1nat, es.len(),
{
    if es.len() == 0 {
        Ok(Seq::empty())
    } else {
        match encode_fields(rules, ms, es.drop_last(), f) {
            Err(e) => Err(e),
            Ok(acc) => {
                let e = es.last();
                if is_catch_all(e) {
                    Ok(acc)
                } else {
                    match member_get(ms, entry_name(e)) {
                        Some(v) => match encode(rules, v, e.value_type, f) {
                            Ok(c) => Ok(acc.push((CborV::Text(entry_name(e)), c))),
                            Err(x) => Err(x),
                        },
                        None => if is_optional(e) {
                            Ok(acc)
                        } else {
                            Err(EncodeErrorV::MissingField(entry_name(e)))
                        },
                    }
                }
            },
        }
    }
}

/// The members of an object whose names are not in `skip`, in order: each
/// name encoded (as a JSON string) against `kt`, then its value against `vt`.
pub open spec fn encode_members(rules: Seq<Rule>, ms: Seq<(Seq<char>, JsonV)>, skip: Seq<Seq<char>>, kt: TypeExpr, vt: TypeExpr, f: nat) -> Result<Seq<(CborV, CborV)>, EncodeErrorV>
    decreases f, 1nat, ms.len(),
{
    if ms.len() == 0 {
        Ok(Seq::empty())
    } else {
        match encode_members(rules, ms.drop_last(), skip, kt, vt, f) {
            Err(e) => Err(e),
            Ok(acc) => {
                let (k, v) = ms.last();
                if skip.contains(k) {
                    Ok(acc)
                } else {
                    match encode(rules, JsonV::Str(k), kt, f) {
                        Err(e) => Err(e),
                        Ok(kc) => match encode(rules, v, vt, f) {
                            Err(e) => Err(e),
                            Ok(vc) => Ok(acc.push((kc, vc))),
                        },
                    }
                }
            },
        }
    }
}

/// The elements of an array, each against the element type.
pub open spec fn encode_items(rules: Seq<Rule>, items: Seq<JsonV>, et: TypeExpr, f: nat) -> Result<Seq<CborV>, EncodeErrorV>
    decreases f, 1nat, items.len(),
{
    if items.len() == 0 {
        Ok(Seq::empty())
    } else {
        match encode_items(rules, items.drop_last(), et, f) {
            Err(e) => Err(e),
            Ok(acc) => match encode(rules, items.last(), et, f) {
                Err(e) => Err(e),
                Ok(c) => Ok(acc.push(c)),
            },
        }
    }
}

/// The value against the first arm that accepts it.
/// An arm that runs out of steps stops the search: the steps it would
/// take never end.
pub open spec fn first_ok(rules: Seq<Rule>, j: JsonV, arms: Seq<TypeExpr>, f: nat) -> Result<CborV, EncodeErrorV>
    decreases f, 1nat, arms.len(),
{
    if arms.len() == 0 {
        Err(EncodeErrorV::NoMatchingArm)
    } else {
        match first_ok(rules, j, arms.drop_last(), f) {
            Err(EncodeErrorV::NoMatchingArm) => match encode(rules, j, arms.last(), f) {
                Ok(c) => Ok(c),
                Err(EncodeErrorV::TooDeep) => Err(EncodeErrorV::TooDeep),
                Err(_) => Err(EncodeErrorV::NoMatchingArm),
            },
            r => r,
        }
    }
}

/// A value against a choice: the arm its `"_type"` member names, else the
/// first arm that accepts it.
pub open spec fn encode_choice(rules: Seq<Rule>, j: JsonV, arms: Seq<TypeExpr>, f: nat) -> Result<CborV, EncodeErrorV>
    decreases f, 2nat, 0nat,
{
    match hinted_arm(j, arms) {
        Some(i) => encode(rules, j, arms[i], f),
        None => first_ok(rules, j, arms, f),
    }
}

/// A value against a constrained type: against the base type, then each
/// constraint checked in order.
pub open spec fn encode_constrained(rules: Seq<Rule>, j: JsonV, base: TypeExpr, cs: Seq<ControlOp>, f: nat) -> Result<CborV, EncodeErrorV>
    decreases f, 2nat, 0nat,
{
    match encode(rules, j, base, f) {
        Err(e) => Err(e),
        Ok(v) => match check_all(rules, v, cs, j, f) {
            Some(e) => Err(e),
            None => Ok(v),
        },
    }
}

/// The first constraint that the value violates.
pub open spec fn check_all(rules: Seq<Rule>, v: CborV, cs: Seq<ControlOp>, j: JsonV, f: nat) -> Option<EncodeErrorV>
    decreases f, 1nat, cs.len(),
{
    if cs.len() == 0 {
        None
    } else {
        match check_all(rules, v, cs.drop_last(), j, f) {
            Some(e) => Some(e),
            None => check(rules, v, cs.last(), j, f),
        }
    }
}

/// A comparison constraint on `v`, against a literal.
pub open spec fn order_check(v: CborV, lit: Literal, op: Control) -> Option<EncodeErrorV> {
    match cbor_order(v, literal_cbor(lit)) {
        None => Some(EncodeErrorV::NotApplicable(op, cbor_kind(v))),
        Some(o) => if order_accepts(op, o) {
            None
        } else {
            Some(EncodeErrorV::OrderViolated(op))
        },
    }
}

/// Whether the encoded value `v` (of JSON `j`) meets one constraint.
pub open spec fn check(rules: Seq<Rule>, v: CborV, c: ControlOp, j: JsonV, f: nat) -> Option<EncodeErrorV>
    decreases f, 1nat, 0nat,
{
    match c {
        ControlOp::Size(sc) => match value_len(v) {
            None => Some(EncodeErrorV::NotApplicable(Control::Size, cbor_kind(v))),
            Some(n) => if size_ok(sc, n) {
                None
            } else {
                Some(EncodeErrorV::SizeViolated(n as u64, sc))
            },
        },
        ControlOp::Regex(p) => match v {
            CborV::Text(s) => if let Some(m) = regex_new_error(p@) {
                Some(EncodeErrorV::BadRegex(p@, m))
            } else if regex_is_match(p@, s) {
                None
            } else {
                Some(EncodeErrorV::RegexViolated(s, p@))
            },
            _ => Some(EncodeErrorV::NotApplicable(Control::Regex, cbor_kind(v))),
        },
        ControlOp::GreaterEqual(lit) => order_check(v, lit, Control::Ge),
        ControlOp::LessEqual(lit) => order_check(v, lit, Control::Le),
        ControlOp::GreaterThan(lit) => order_check(v, lit, Control::Gt),
        ControlOp::LessThan(lit) => order_check(v, lit, Control::Lt),
        ControlOp::Equal(lit) => if cbor_eq(v, literal_cbor(lit)) {
            None
        } else {
            Some(EncodeErrorV::EqViolated)
        },
        ControlOp::NotEqual(lit) => if cbor_eq(v, literal_cbor(lit)) {
            Some(EncodeErrorV::NeViolated)
        } else {
            None
        },
        ControlOp::Bits(expr) => match v {
            CborV::Integer(n) => match bits_mask(expr@) {
                None => Some(EncodeErrorV::BadBitsMask(expr@, bits_mask_error(expr@))),
                Some(m) => if sets_bits_outside(n as i128, m as i128) {
                    Some(EncodeErrorV::BitsViolated(n as i128, expr@))
                } else {
                    None
                },
            },
            _ => Some(EncodeErrorV::NotApplicable(Control::Bits, cbor_kind(v))),
        },
        ControlOp::And(t) => match encode(rules, j, t, f) {
            Err(EncodeErrorV::TooDeep) => Some(EncodeErrorV::TooDeep),
            Err(e) => Some(EncodeErrorV::AndViolated(Box::new(e))),
            Ok(_) => None,
        },
        ControlOp::Within(t) => match encode(rules, j, t, f) {
            Err(EncodeErrorV::TooDeep) => Some(EncodeErrorV::TooDeep),
            Err(e) => Some(EncodeErrorV::WithinViolated(Box::new(e))),
            Ok(_) => None,
        },
        ControlOp::Json => match v {
            CborV::Text(s) => match json_parse_error(s) {
                None => None,
                Some(m) => Some(EncodeErrorV::JsonViolated(s, m)),
            },
            _ => Some(EncodeErrorV::NotApplicable(Control::Json, cbor_kind(v))),
        },
        ControlOp::Cbor => match v {
            CborV::Bytes(b) => match cbor_decode(b) {
                Ok(_) => None,
                Err(m) => Some(EncodeErrorV::CborViolated(m)),
            },
            _ => Some(EncodeErrorV::NotApplicable(Control::Cbor, cbor_kind(v))),
        },
        ControlOp::Cborseq => match v {
            CborV::Bytes(b) => match cborseq_from(b, 0) {
                None => None,
                Some(m) => Some(EncodeErrorV::CborseqViolated(m)),
            },
            _ => Some(EncodeErrorV::NotApplicable(Control::Cborseq, cbor_kind(v))),
        },
        ControlOp::Default(_) => None,
    }
}

// ----- Executable pieces -----

/// A copy of a float's facts.
pub fn clone_float(f: &FloatNum) -> (r: FloatNum)
    ensures
        float_view(r) == float_view(*f),
{
    let cbor = copy_bytes(f.cbor.as_slice());
    FloatNum { bits: f.bits, text: f.text.clone(), json: f.json.clone(), cbor }
}

fn copy_bytes(b: &[u8]) -> (r: Vec<u8>)
    ensures
        r@ == b@,
{
    vstd::slice::slice_to_vec(b)
}

/// The CBOR value a literal stands for.
#[verifier::loop_isolation(false)]
pub fn literal_to_cbor(lit: &Literal) -> (r: Cbor)
    ensures
        r@ == literal_cbor(*lit),
    decreases lit,
{
    match lit {
        Literal::Integer(n) => Cbor::Integer(*n as i128),
        Literal::Float(f) => Cbor::Float(clone_float(f)),
        Literal::Text(s) => Cbor::Text(s.clone()),
        Literal::Bytes(b) => Cbor::Bytes(copy_bytes(b.as_slice())),
        Literal::Bool(b) => Cbor::Bool(*b),
        Literal::Null => Cbor::Null,
        Literal::Array(items) => {
            let mut out: Vec<Cbor> = Vec::new();
            let mut i: usize = 0;
            while i < items.len()
                invariant
                    i <= items.len(),
                    cbor_list_view(out@) == literal_list_cbor(items@.take(i as int)),
                decreases items.len() - i,
            {
                proof {
                    assert(decreases_to!(*lit => items@[i as int]));
                }
                let c = literal_to_cbor(&items[i]);
                let ghost before = out@;
                out.push(c);
                proof {
                    assert(out@.drop_last() =~= before);
                    let t = items@.take(i + 1);
                    assert(t.drop_last() =~= items@.take(i as int));
                }
                i = i + 1;
            }
            assert(items@.take(items.len() as int) =~= items@);
            Cbor::Array(out)
        },
    }
}

/// JSON converted to CBOR with no type to guide it (the `any` builtin).
#[verifier::loop_isolation(false)]
pub fn json_to_cbor_any(j: &Json) -> (r: Cbor)
    ensures
        r@ == json_any(j@),
    decreases j,
{
    match j {
        Json::Null => Cbor::Null,
        Json::Bool(b) => Cbor::Bool(*b),
        Json::Number(n) => match &n.kind {
            NumberKind::PosInt(u) => Cbor::Integer(*u as i128),
            NumberKind::NegInt(i) => Cbor::Integer(*i as i128),
            NumberKind::Float(f) => Cbor::Float(clone_float(f)),
        },
        Json::Str(s) => Cbor::Text(s.clone()),
        Json::Array(items) => {
            proof {
                crate::value::lemma_json_list_view(items@);
            }
            let mut out: Vec<Cbor> = Vec::new();
            let mut i: usize = 0;
            while i < items.len()
                invariant
                    i <= items.len(),
                    cbor_list_view(out@) == json_any_list(json_list_view(items@.take(i as int))),
                decreases items.len() - i,
            {
                proof {
                    assert(decreases_to!(*j => items@[i as int]));
                }
                let c = json_to_cbor_any(&items[i]);
                let ghost before = out@;
                out.push(c);
                proof {
                    assert(out@.drop_last() =~= before);
                    let t = items@.take(i + 1);
                    assert(t.drop_last() =~= items@.take(i as int));
                    crate::value::lemma_json_list_view(t);
                    crate::value::lemma_json_list_view(items@.take(i as int));
                    assert(json_list_view(t).drop_last() =~= json_list_view(items@.take(i as int)));
                }
                i = i + 1;
            }
            assert(items@.take(items.len() as int) =~= items@);
            Cbor::Array(out)
        },
        Json::Object(ms) => {
            proof {
                crate::value::lemma_json_members_view(ms@);
            }
            let mut out: Vec<(Cbor, Cbor)> = Vec::new();
            let mut i: usize = 0;
            while i < ms.len()
                invariant
                    i <= ms.len(),
                    cbor_entries_view(out@) == json_any_members(json_members_view(ms@.take(i as int))),
                decreases ms.len() - i,
            {
                proof {
                    assert(decreases_to!(*j => ms@[i as int]));
                    assert(decreases_to!(ms@[i as int] => ms@[i as int].1));
                }
                let v = json_to_cbor_any(&ms[i].1);
                let k = Cbor::Text(ms[i].0.clone());
                let ghost kv = cbor_view(k);
                let ghost vv = cbor_view(v);
                let ghost before = out@;
                out.push((k, v));
                proof {
                    assert(out@.drop_last() =~= before);
                    assert(cbor_entries_view(out@) == cbor_entries_view(before).push((kv, vv)));
                    let t = ms@.take(i + 1);
                    assert(t.drop_last() =~= ms@.take(i as int));
                    crate::value::lemma_json_members_view(t);
                    crate::value::lemma_json_members_view(ms@.take(i as int));
                    let lv = json_members_view(t);
                    assert(lv.drop_last() =~= json_members_view(ms@.take(i as int)));
                    assert(lv.last() == (ms@[i as int].0@, json_view(ms@[i as int].1)));
                }
                i = i + 1;
            }
            assert(ms@.take(ms.len() as int) =~= ms@);
            canon_map(out)
        },
    }
}

fn hex_value_exec(b: u8) -> (r: Option<u8>)
    ensures
        r matches Some(d) ==> hex_value(b) == Some(d as nat),
        r is None ==> hex_value(b) is None,
{
    if 48 <= b && b <= 57 {
        Some(b - 48)
    } else if 97 <= b && b <= 102 {
        Some(b - 87)
    } else if 65 <= b && b <= 70 {
        Some(b - 55)
    } else {
        None
    }
}

fn hex_pair_exec(hi: u8, lo: u8) -> (r: Option<u8>)
    ensures
        r == hex_pair(hi, lo),
{
    if hi == 43 {
        hex_value_exec(lo)
    } else {
        match (hex_value_exec(hi), hex_value_exec(lo)) {
            (Some(a), Some(b)) => Some(a * 16 + b),
            _ => None,
        }
    }
}

/// The bytes that hex digits stand for, two digits per byte.
pub fn hex_decode_bytes(b: &[u8]) -> (r: Result<Vec<u8>, EncodeError>)
    ensures
        result_bytes_view(r) == hex_decode(b@),
{
    if b.len() % 2 != 0 {
        return Err(EncodeError::OddHexLength);
    }
    let n = b.len() / 2;
    let mut out: Vec<u8> = Vec::new();
    let mut i: usize = 0;
    while i < n
        invariant
            n == b@.len() / 2,
            b@.len() % 2 == 0,
            2 * n == b@.len(),
            b@.len() <= usize::MAX,
            i <= n,
            out@.len() == i,
            forall|k: int| 0 <= k < i ==> #[trigger] hex_pair(b@[2 * k], b@[2 * k + 1]) == Some(out@[k]),
        decreases n - i,
    {
        assert(i + i + 1 < b@.len());
        let k = i + i;
        match hex_pair_exec(b[k], b[k + 1]) {
            Some(x) => out.push(x),
            None => {
                assert(!(hex_pair(b@[2 * (i as int)], b@[2 * (i as int) + 1]) is Some));
                return Err(EncodeError::BadHexDigit);
            },
        }
        i = i + 1;
    }
    assert(out@ =~= Seq::new(b@.len() / 2, |k: int| hex_pair(b@[2 * k], b@[2 * k + 1])->0));
    Ok(out)
}

pub open spec fn result_bytes_view(r: Result<Vec<u8>, EncodeError>) -> Result<Seq<u8>, EncodeErrorV> {
    match r {
        Ok(v) => Ok(v@),
        Err(e) => Err(e@),
    }
}

fn expected(x: Expectation, j: &Json) -> (r: EncodeError)
    ensures
        r@ == EncodeErrorV::Expected(x, json_text(j@)),
{
    EncodeError::Expected(x, json_to_text(j))
}

/// A `bytes` value.
#[verifier::loop_isolation(false)]
fn encode_bytes_exec(j: &Json) -> (r: Result<Cbor, EncodeError>)
    ensures
        result_view(r) == encode_bytes(j@),
{
    match j {
        Json::Str(s) => {
            let bytes = s.as_str().as_bytes();
            let chars = crate::text::chars_of(s.as_str());
            if chars.len() >= 2 && chars[0] == '0' && chars[1] == 'x' {
                proof {
                    let t = s@;
                    assert(t.drop_first().drop_first() =~= t.skip(2));
                    assert((48u32 & 0x7Fu32) == 48u32) by (bit_vector);
                    assert((120u32 & 0x7Fu32) == 120u32) by (bit_vector);
                    assert(t[0] as u32 == 48u32);
                    assert(t.drop_first()[0] as u32 == 120u32);
                    assert(encode_utf8(t) =~= seq![48u8] + encode_utf8(t.drop_first()));
                    assert(encode_utf8(t.drop_first()) =~= seq![120u8] + encode_utf8(t.skip(2)));
                    assert(bytes@.subrange(2, bytes@.len() as int) =~= encode_utf8(t.skip(2)));
                }
                match hex_decode_bytes(vstd::slice::slice_subrange(bytes, 2, bytes.len())) {
                    Ok(v) => Ok(Cbor::Bytes(v)),
                    Err(e) => Err(e),
                }
            } else {
                Ok(Cbor::Bytes(copy_bytes(bytes)))
            }
        },
        Json::Array(items) => {
            proof {
                crate::value::lemma_json_list_view(items@);
            }
            let mut out: Vec<u8> = Vec::new();
            let mut i: usize = 0;
            while i < items.len()
                invariant
                    i <= items.len(),
                    bytes_of(json_list_view(items@.take(i as int))) == Ok::<Seq<u8>, EncodeErrorV>(out@),
                decreases items.len() - i,
            {
                let ghost t = items@.take(i + 1);
                proof {
                    assert(t.drop_last() =~= items@.take(i as int));
                    crate::value::lemma_json_list_view(t);
                    crate::value::lemma_json_list_view(items@.take(i as int));
                    assert(json_list_view(t).drop_last() =~= json_list_view(items@.take(i as int)));
                }
                let b: Option<u8> = match &items[i] {
                    Json::Number(n) => match &n.kind {
                        NumberKind::PosInt(u) => if *u <= 255 {
                            Some(*u as u8)
                        } else {
                            None
                        },
                        _ => None,
                    },
                    _ => None,
                };
                proof {
                    assert(byte_of(json_view(items@[i as int])) == b);
                    assert(json_list_view(t).last() == json_view(items@[i as int]));
                }
                match b {
                    Some(x) => out.push(x),
                    None => {
                        proof {
                            lemma_bytes_of_err(json_list_view(items@), i + 1);
                            assert(json_list_view(items@).take(i + 1) =~= json_list_view(t));
                        }
                        return Err(expected(Expectation::Byte, &items[i]));
                    },
                }
                i = i + 1;
            }
            assert(items@.take(items.len() as int) =~= items@);
            Ok(Cbor::Bytes(out))
        },
        _ => Err(expected(Expectation::StringOrBytes, j)),
    }
}

/// The builtin type named `name`, on `j`.
fn encode_builtin_exec(j: &Json, name: &str) -> (r: Result<Cbor, EncodeError>)
    ensures
        result_view(r) == encode_builtin(j@, name@),
{
    proof {
        reveal_strlit("int");
        reveal_strlit("uint");
        reveal_strlit("float");
        reveal_strlit("text");
        reveal_strlit("bool");
        reveal_strlit("bytes");
        reveal_strlit("nil");
        reveal_strlit("any");
        assert("int"@ =~= name_int());
        assert("uint"@ =~= name_uint());
        assert("float"@ =~= name_float());
        assert("text"@ =~= name_text());
        assert("bool"@ =~= name_bool());
        assert("bytes"@ =~= name_bytes());
        assert("nil"@ =~= name_nil());
        assert("any"@ =~= name_any());
    }
    if str_eq(name, "int") {
        match j {
            Json::Number(n) => match &n.kind {
                NumberKind::PosInt(u) => if *u <= 0x7fff_ffff_ffff_ffff {
                    Ok(Cbor::Integer(*u as i128))
                } else {
                    Err(expected(Expectation::Integer, j))
                },
                NumberKind::NegInt(i) => Ok(Cbor::Integer(*i as i128)),
                NumberKind::Float(_) => Err(expected(Expectation::Integer, j)),
            },
            _ => Err(expected(Expectation::Integer, j)),
        }
    } else if str_eq(name, "uint") {
        match j {
            Json::Number(n) => match &n.kind {
                NumberKind::PosInt(u) => Ok(Cbor::Integer(*u as i128)),
                _ => Err(expected(Expectation::NonNegativeInteger, j)),
            },
            _ => Err(expected(Expectation::NonNegativeInteger, j)),
        }
    } else if str_eq(name, "float") {
        match j {
            Json::Number(n) => match &n.kind {
                NumberKind::Float(x) => Ok(Cbor::Float(clone_float(x))),
                _ => match &n.int_as_float {
                    Some(x) => Ok(Cbor::Float(clone_float(x))),
                    None => Err(expected(Expectation::Number, j)),
                },
            },
            _ => Err(expected(Expectation::Number, j)),
        }
    } else if str_eq(name, "text") {
        match j {
            Json::Str(s) => Ok(Cbor::Text(s.clone())),
            _ => Err(expected(Expectation::Str, j)),
        }
    } else if str_eq(name, "bool") {
        match j {
            Json::Bool(b) => Ok(Cbor::Bool(*b)),
            _ => Err(expected(Expectation::Boolean, j)),
        }
    } else if str_eq(name, "bytes") {
        encode_bytes_exec(j)
    } else if str_eq(name, "nil") {
        Ok(Cbor::Null)
    } else if str_eq(name, "any") {
        Ok(json_to_cbor_any(j))
    } else {
        Err(EncodeError::UnknownBuiltin(name.to_string()))
    }
}

fn cbor_kind_exec(v: &Cbor) -> (r: CborKind)
    ensures
        r == cbor_kind(v@),
{
    match v {
        Cbor::Integer(_) => CborKind::Integer,
        Cbor::Float(_) => CborKind::Float,
        Cbor::Text(_) => CborKind::Text,
        Cbor::Bytes(_) => CborKind::Bytes,
        Cbor::Bool(_) => CborKind::Bool,
        Cbor::Null => CborKind::Null,
        Cbor::Array(_) => CborKind::Array,
        Cbor::Entries(_) => CborKind::MapKind,
        Cbor::Tag(_, _) => CborKind::Value,
    }
}

fn value_len_exec(v: &Cbor) -> (r: Option<u64>)
    ensures
        r matches Some(n) ==> value_len(v@) == Some(n as nat),
        r is None ==> value_len(v@) is None,
{
    proof {
        match v {
            Cbor::Array(a) => lemma_cbor_list_view(a@),
            Cbor::Entries(m) => lemma_cbor_entries_view(m@),
            _ => {},
        }
    }
    match v {
        Cbor::Text(s) => Some(s.as_str().unicode_len() as u64),
        Cbor::Bytes(b) => Some(b.len() as u64),
        Cbor::Array(a) => Some(a.len() as u64),
        Cbor::Entries(m) => Some(m.len() as u64),
        _ => None,
    }
}

fn size_ok_exec(sc: SizeConstraint, len: u64) -> (r: bool)
    ensures
        r == size_ok(sc, len as nat),
{
    match sc {
        SizeConstraint::Exact(n) => len == n,
        SizeConstraint::Range { min, max } => min <= len && len <= max,
        SizeConstraint::Min(min) => len >= min,
        SizeConstraint::Max(max) => len <= max,
    }
}

fn lex_order_chars(a: &Vec<char>, b: &Vec<char>) -> (r: Cmp)
    ensures
        r == lex_order(char_codes(a@), char_codes(b@)),
{
    let ghost ca = char_codes(a@);
    let ghost cb = char_codes(b@);
    assert(ca.skip(0) =~= ca);
    assert(cb.skip(0) =~= cb);
    let mut i: usize = 0;
    while i < a.len() && i < b.len()
        invariant
            i <= a@.len(),
            i <= b@.len(),
            ca == char_codes(a@),
            cb == char_codes(b@),
            lex_order(ca, cb) == lex_order(ca.skip(i as int), cb.skip(i as int)),
        decreases a.len() - i,
    {
        let x = a[i];
        let y = b[i];
        proof {
            assert(ca.skip(i as int)[0] == a@[i as int] as int);
            assert(cb.skip(i as int)[0] == b@[i as int] as int);
        }
        if x < y {
            return Cmp::Less;
        }
        if x > y {
            return Cmp::Greater;
        }
        proof {
            assert(ca.skip(i as int).drop_first() =~= ca.skip(i + 1));
            assert(cb.skip(i as int).drop_first() =~= cb.skip(i + 1));
        }
        i = i + 1;
    }
    if i == a.len() {
        if i == b.len() {
            Cmp::Equal
        } else {
            Cmp::Less
        }
    } else {
        Cmp::Greater
    }
}

fn lex_order_bytes(a: &Vec<u8>, b: &Vec<u8>) -> (r: Cmp)
    ensures
        r == lex_order(byte_codes(a@), byte_codes(b@)),
{
    let ghost ca = byte_codes(a@);
    let ghost cb = byte_codes(b@);
    assert(ca.skip(0) =~= ca);
    assert(cb.skip(0) =~= cb);
    let mut i: usize = 0;
    while i < a.len() && i < b.len()
        invariant
            i <= a@.len(),
            i <= b@.len(),
            ca == byte_codes(a@),
            cb == byte_codes(b@),
            lex_order(ca, cb) == lex_order(ca.skip(i as int), cb.skip(i as int)),
        decreases a.len() - i,
    {
        let x = a[i];
        let y = b[i];
        proof {
            assert(ca.skip(i as int)[0] == a@[i as int] as int);
            assert(cb.skip(i as int)[0] == b@[i as int] as int);
        }
        if x < y {
            return Cmp::Less;
        }
        if x > y {
            return Cmp::Greater;
        }
        proof {
            assert(ca.skip(i as int).drop_first() =~= ca.skip(i + 1));
            assert(cb.skip(i as int).drop_first() =~= cb.skip(i + 1));
        }
        i = i + 1;
    }
    if i == a.len() {
        if i == b.len() {
            Cmp::Equal
        } else {
            Cmp::Less
        }
    } else {
        Cmp::Greater
    }
}

fn as_double_exec(v: &Cbor) -> (r: Option<u64>)
    ensures
        r == as_double(v@),
{
    match v {
        Cbor::Integer(n) => Some(crate::float::double_of_int_exec(*n)),
        Cbor::Float(f) => Some(f.bits),
        _ => None,
    }
}

/// How two CBOR values compare for the ordering control operators.
pub fn cbor_compare(a: &Cbor, b: &Cbor) -> (r: Option<Cmp>)
    ensures
        r == cbor_order(a@, b@),
{
    match (a, b) {
        (Cbor::Text(x), Cbor::Text(y)) => {
            let cx = crate::text::chars_of(x.as_str());
            let cy = crate::text::chars_of(y.as_str());
            Some(lex_order_chars(&cx, &cy))
        },
        (Cbor::Bytes(x), Cbor::Bytes(y)) => Some(lex_order_bytes(x, y)),
        (Cbor::Bool(x), Cbor::Bool(y)) => {
            let ix: u8 = if *x { 1 } else { 0 };
            let iy: u8 = if *y { 1 } else { 0 };
            if ix < iy {
                Some(Cmp::Less)
            } else if ix == iy {
                Some(Cmp::Equal)
            } else {
                Some(Cmp::Greater)
            }
        },
        _ => match (as_double_exec(a), as_double_exec(b)) {
            (Some(x), Some(y)) => crate::float::double_order_exec(x, y),
            _ => None,
        },
    }
}

fn bytes_equal(x: &Vec<u8>, y: &Vec<u8>) -> (r: bool)
    ensures
        r == (x@ == y@),
{
    if x.len() != y.len() {
        return false;
    }
    let mut i: usize = 0;
    while i < x.len()
        invariant
            i <= x@.len(),
            x@.len() == y@.len(),
            forall|k: int| 0 <= k < i ==> x@[k] == y@[k],
        decreases x.len() - i,
    {
        if x[i] != y[i] {
            return false;
        }
        i = i + 1;
    }
    assert(x@ =~= y@);
    true
}

/// `==` on CBOR values.
pub fn cbor_equal(a: &Cbor, b: &Cbor) -> (r: bool)
    ensures
        r == cbor_eq(a@, b@),
    decreases a, 1nat,
{
    match (a, b) {
        (Cbor::Integer(x), Cbor::Integer(y)) => *x == *y,
        (Cbor::Bytes(x), Cbor::Bytes(y)) => bytes_equal(x, y),
        (Cbor::Float(x), Cbor::Float(y)) => match crate::float::double_order_exec(x.bits, y.bits) {
            Some(Cmp::Equal) => true,
            _ => false,
        },
        (Cbor::Text(x), Cbor::Text(y)) => str_eq(x.as_str(), y.as_str()),
        (Cbor::Bool(x), Cbor::Bool(y)) => *x == *y,
        (Cbor::Null, Cbor::Null) => true,
        (Cbor::Tag(t, x), Cbor::Tag(u, y)) => *t == *u && cbor_equal(x, y),
        (Cbor::Array(xs), Cbor::Array(ys)) => cbor_list_equal(xs, ys),
        (Cbor::Entries(xs), Cbor::Entries(ys)) => cbor_entries_equal(xs, ys),
        _ => false,
    }
}

/// An equal prefix extends to an equal longer prefix exactly when the next
/// elements are equal.
proof fn lemma_list_eq_step(xs: Seq<CborV>, ys: Seq<CborV>, i: int)
    requires
        0 <= i < xs.len(),
        xs.len() == ys.len(),
    ensures
        cbor_list_eq(xs.take(i + 1), ys.take(i + 1)) == (cbor_list_eq(xs.take(i), ys.take(i)) && cbor_eq(
            xs[i],
            ys[i],
        )),
{
    assert(xs.take(i + 1).drop_last() =~= xs.take(i));
    assert(ys.take(i + 1).drop_last() =~= ys.take(i));
}

proof fn lemma_list_eq_false(xs: Seq<CborV>, ys: Seq<CborV>, i: int)
    requires
        0 <= i <= xs.len(),
        xs.len() == ys.len(),
        !cbor_list_eq(xs.take(i), ys.take(i)),
    ensures
        !cbor_list_eq(xs, ys),
    decreases xs.len() - i,
{
    if i < xs.len() {
        lemma_list_eq_step(xs, ys, i);
        lemma_list_eq_false(xs, ys, i + 1);
    } else {
        assert(xs.take(i) =~= xs);
        assert(ys.take(i) =~= ys);
    }
}

#[verifier::loop_isolation(false)]
fn cbor_list_equal(xs: &Vec<Cbor>, ys: &Vec<Cbor>) -> (r: bool)
    ensures
        r == cbor_list_eq(cbor_list_view(xs@), cbor_list_view(ys@)),
    decreases xs, 0nat,
{
    let ghost vx = cbor_list_view(xs@);
    let ghost vy = cbor_list_view(ys@);
    proof {
        lemma_cbor_list_view(xs@);
        lemma_cbor_list_view(ys@);
    }
    if xs.len() != ys.len() {
        return false;
    }
    let mut i: usize = 0;
    assert(vx.take(0) =~= Seq::<CborV>::empty());
    assert(vy.take(0) =~= Seq::<CborV>::empty());
    while i < xs.len()
        invariant
            i <= xs@.len(),
            xs@.len() == ys@.len(),
            cbor_list_eq(vx.take(i as int), vy.take(i as int)),
        decreases xs.len() - i,
    {
        proof {
            assert(decreases_to!(xs => xs@[i as int]));
            lemma_list_eq_step(vx, vy, i as int);
        }
        if !cbor_equal(&xs[i], &ys[i]) {
            proof {
                lemma_list_eq_false(vx, vy, i + 1);
            }
            return false;
        }
        i = i + 1;
    }
    assert(vx.take(xs.len() as int) =~= vx);
    assert(vy.take(ys.len() as int) =~= vy);
    true
}

proof fn lemma_entries_eq_step(xs: Seq<(CborV, CborV)>, ys: Seq<(CborV, CborV)>, i: int)
    requires
        0 <= i < xs.len(),
        xs.len() == ys.len(),
    ensures
        cbor_entries_eq(xs.take(i + 1), ys.take(i + 1)) == (cbor_entries_eq(xs.take(i), ys.take(i))
            && cbor_eq(xs[i].0, ys[i].0) && cbor_eq(xs[i].1, ys[i].1)),
{
    assert(xs.take(i + 1).drop_last() =~= xs.take(i));
    assert(ys.take(i + 1).drop_last() =~= ys.take(i));
}

proof fn lemma_entries_eq_false(xs: Seq<(CborV, CborV)>, ys: Seq<(CborV, CborV)>, i: int)
    requires
        0 <= i <= xs.len(),
        xs.len() == ys.len(),
        !cbor_entries_eq(xs.take(i), ys.take(i)),
    ensures
        !cbor_entries_eq(xs, ys),
    decreases xs.len() - i,
{
    if i < xs.len() {
        lemma_entries_eq_step(xs, ys, i);
        lemma_entries_eq_false(xs, ys, i + 1);
    } else {
        assert(xs.take(i) =~= xs);
        assert(ys.take(i) =~= ys);
    }
}

#[verifier::loop_isolation(false)]
fn cbor_entries_equal(xs: &Vec<(Cbor, Cbor)>, ys: &Vec<(Cbor, Cbor)>) -> (r: bool)
    ensures
        r == cbor_entries_eq(cbor_entries_view(xs@), cbor_entries_view(ys@)),
    decreases xs, 0nat,
{
    let ghost vx = cbor_entries_view(xs@);
    let ghost vy = cbor_entries_view(ys@);
    proof {
        lemma_cbor_entries_view(xs@);
        lemma_cbor_entries_view(ys@);
    }
    if xs.len() != ys.len() {
        return false;
    }
    let mut i: usize = 0;
    assert(vx.take(0) =~= Seq::<(CborV, CborV)>::empty());
    assert(vy.take(0) =~= Seq::<(CborV, CborV)>::empty());
    while i < xs.len()
        invariant
            i <= xs@.len(),
            xs@.len() == ys@.len(),
            cbor_entries_eq(vx.take(i as int), vy.take(i as int)),
        decreases xs.len() - i,
    {
        proof {
            assert(decreases_to!(xs => xs@[i as int]));
            assert(decreases_to!(xs@[i as int] => xs@[i as int].0));
            assert(decreases_to!(xs@[i as int] => xs@[i as int].1));
            lemma_entries_eq_step(vx, vy, i as int);
        }
        if !cbor_equal(&xs[i].0, &ys[i].0) || !cbor_equal(&xs[i].1, &ys[i].1) {
            proof {
                lemma_entries_eq_false(vx, vy, i + 1);
            }
            return false;
        }
        i = i + 1;
    }
    assert(vx.take(xs.len() as int) =~= vx);
    assert(vy.take(ys.len() as int) =~= vy);
    true
}

/// The `.bits` mask that `expr` writes.
pub fn parse_bits_mask(expr: &str) -> (r: Option<i128>)
    ensures
        r matches Some(m) ==> bits_mask(expr@) == Some(m as int),
        r is None ==> bits_mask(expr@) is None,
{
    let chars = crate::text::chars_of(expr);
    let (a, b) = crate::text::trim_bounds(&chars);
    let ghost t = chars@.subrange(a as int, b as int);
    if b - a >= 2 && chars[a] == '0' && (chars[a + 1] == 'x' || chars[a + 1] == 'X') {
        proof {
            assert(t[0] == chars@[a as int]);
            assert(t[1] == chars@[a + 1]);
            assert(t.skip(2) =~= chars@.subrange(a + 2, b as int));
        }
        crate::text::parse_i128_exec(&chars, a + 2, b, 16)
    } else {
        proof {
            if t.len() >= 2 {
                assert(t[0] == chars@[a as int]);
                assert(t[1] == chars@[a + 1]);
            }
        }
        crate::text::parse_i128_exec(&chars, a, b, 10)
    }
}

/// `bits_mask_error(expr@)`.
fn bits_mask_error_exec(expr: &str) -> (r: String)
    ensures
        r@ == bits_mask_error(expr@),
{
    let chars = crate::text::chars_of(expr);
    let (a, b) = crate::text::trim_bounds(&chars);
    let ghost t = chars@.subrange(a as int, b as int);
    if b - a >= 2 && chars[a] == '0' && (chars[a + 1] == 'x' || chars[a + 1] == 'X') {
        proof {
            assert(t[0] == chars@[a as int]);
            assert(t[1] == chars@[a + 1]);
            assert(t.skip(2) =~= chars@.subrange(a + 2, b as int));
        }
        crate::text::parse_int_error_exec(&chars, a + 2, b, 16)
    } else {
        proof {
            if t.len() >= 2 {
                assert(t[0] == chars@[a as int]);
                assert(t[1] == chars@[a + 1]);
            }
        }
        crate::text::parse_int_error_exec(&chars, a, b, 10)
    }
}

/// Why `b` is not a sequence of CBOR items, each decoded in turn.
fn cborseq_error(b: &[u8]) -> (r: Option<String>)
    ensures
        match r {
            None => cborseq_from(b@, 0) is None,
            Some(m) => cborseq_from(b@, 0) == Some(m@),
        },
{
    let mut start: usize = 0;
    while start < b.len()
        invariant
            start <= b@.len(),
            cborseq_from(b@, 0) == cborseq_from(b@, start as nat),
        decreases b@.len() - start,
    {
        match decode_cbor_prefix(vstd::slice::slice_subrange(b, start, b.len())) {
            Err(m) => {
                return Some(m);
            },
            Ok(n) => {
                start = start + n;
            },
        }
    }
    None
}

/// The value of the member named `k`.
pub fn member_get_exec<'a>(ms: &'a Vec<(String, Json)>, k: &str) -> (r: Option<&'a Json>)
    ensures
        match member_get(json_members_view(ms@), k@) {
            Some(v) => r matches Some(x) && x@ == v,
            None => r is None,
        },
{
    let ghost mv = json_members_view(ms@);
    proof {
        crate::value::lemma_json_members_view(ms@);
    }
    let mut i: usize = 0;
    while i < ms.len()
        invariant
            i <= ms@.len(),
            mv == json_members_view(ms@),
            mv.len() == ms@.len(),
            member_from(mv, k@, 0) == member_from(mv, k@, i as int),
        decreases ms.len() - i,
    {
        proof {
            crate::value::lemma_json_members_view(ms@);
        }
        if str_eq(ms[i].0.as_str(), k) {
            return Some(&ms[i].1);
        }
        i = i + 1;
    }
    None
}

// ----- An error (or a found value) in a prefix stays the result -----

proof fn lemma_fields_err(rules: Seq<Rule>, ms: Seq<(Seq<char>, JsonV)>, es: Seq<GroupEntry>, f: nat, k: int)
    requires
        0 <= k <= es.len(),
        encode_fields(rules, ms, es.take(k), f) is Err,
    ensures
        encode_fields(rules, ms, es, f) == encode_fields(rules, ms, es.take(k), f),
    decreases es.len() - k,
{
    if k < es.len() {
        assert(es.take(k + 1).drop_last() =~= es.take(k));
        lemma_fields_err(rules, ms, es, f, k + 1);
    } else {
        assert(es.take(k) =~= es);
    }
}

proof fn lemma_members_err(rules: Seq<Rule>, ms: Seq<(Seq<char>, JsonV)>, skip: Seq<Seq<char>>, kt: TypeExpr, vt: TypeExpr, f: nat, k: int)
    requires
        0 <= k <= ms.len(),
        encode_members(rules, ms.take(k), skip, kt, vt, f) is Err,
    ensures
        encode_members(rules, ms, skip, kt, vt, f) == encode_members(rules, ms.take(k), skip, kt, vt, f),
    decreases ms.len() - k,
{
    if k < ms.len() {
        assert(ms.take(k + 1).drop_last() =~= ms.take(k));
        lemma_members_err(rules, ms, skip, kt, vt, f, k + 1);
    } else {
        assert(ms.take(k) =~= ms);
    }
}

proof fn lemma_items_err(rules: Seq<Rule>, items: Seq<JsonV>, et: TypeExpr, f: nat, k: int)
    requires
        0 <= k <= items.len(),
        encode_items(rules, items.take(k), et, f) is Err,
    ensures
        encode_items(rules, items, et, f) == encode_items(rules, items.take(k), et, f),
    decreases items.len() - k,
{
    if k < items.len() {
        assert(items.take(k + 1).drop_last() =~= items.take(k));
        lemma_items_err(rules, items, et, f, k + 1);
    } else {
        assert(items.take(k) =~= items);
    }
}

proof fn lemma_first_ok_found(rules: Seq<Rule>, j: JsonV, arms: Seq<TypeExpr>, f: nat, k: int)
    requires
        0 <= k <= arms.len(),
        first_ok(rules, j, arms.take(k), f) != Err::<CborV, EncodeErrorV>(EncodeErrorV::NoMatchingArm),
    ensures
        first_ok(rules, j, arms, f) == first_ok(rules, j, arms.take(k), f),
    decreases arms.len() - k,
{
    if k < arms.len() {
        assert(arms.take(k + 1).drop_last() =~= arms.take(k));
        lemma_first_ok_found(rules, j, arms, f, k + 1);
    } else {
        assert(arms.take(k) =~= arms);
    }
}

proof fn lemma_check_all_found(rules: Seq<Rule>, v: CborV, cs: Seq<ControlOp>, j: JsonV, f: nat, k: int)
    requires
        0 <= k <= cs.len(),
        check_all(rules, v, cs.take(k), j, f) is Some,
    ensures
        check_all(rules, v, cs, j, f) == check_all(rules, v, cs.take(k), j, f),
    decreases cs.len() - k,
{
    if k < cs.len() {
        assert(cs.take(k + 1).drop_last() =~= cs.take(k));
        lemma_check_all_found(rules, v, cs, j, f, k + 1);
    } else {
        assert(cs.take(k) =~= cs);
    }
}

// ----- The encoder -----

pub open spec fn entries_result_view(r: Result<Vec<(Cbor, Cbor)>, EncodeError>) -> Result<Seq<(CborV, CborV)>, EncodeErrorV> {
    match r {
        Ok(v) => Ok(cbor_entries_view(v@)),
        Err(e) => Err(e@),
    }
}

pub open spec fn items_result_view(r: Result<Vec<Cbor>, EncodeError>) -> Result<Seq<CborV>, EncodeErrorV> {
    match r {
        Ok(v) => Ok(cbor_list_view(v@)),
        Err(e) => Err(e@),
    }
}

pub open spec fn opt_error_view(r: Option<EncodeError>) -> Option<EncodeErrorV> {
    match r {
        Some(e) => Some(e@),
        None => None,
    }
}

/// The texts of a list of strings.
pub open spec fn names_view(v: Seq<String>) -> Seq<Seq<char>> {
    v.map_values(|s: String| s@)
}

fn names_contain(names: &Vec<String>, k: &str) -> (r: bool)
    ensures
        r == names_view(names@).contains(k@),
{
    let ghost nv = names_view(names@);
    let mut i: usize = 0;
    while i < names.len()
        invariant
            i <= names@.len(),
            nv == names_view(names@),
            forall|x: int| 0 <= x < i ==> nv[x] != k@,
        decreases names.len() - i,
    {
        if str_eq(names[i].as_str(), k) {
            assert(nv[i as int] == k@);
            return true;
        }
        i = i + 1;
    }
    false
}

fn entry_is_catch_all(e: &GroupEntry) -> (r: bool)
    ensures
        r == is_catch_all(*e),
{
    match &e.key {
        Some(GroupKey::Type(_)) => true,
        _ => false,
    }
}

fn entry_name_string(e: &GroupEntry) -> (r: String)
    ensures
        r@ == entry_name(*e),
{
    let mut s = String::new();
    crate::list::write_entry_name(&mut s, e);
    s
}

fn field_names_exec(es: &Vec<GroupEntry>) -> (r: Vec<String>)
    ensures
        names_view(r@) == field_names(es@),
{
    let mut out: Vec<String> = Vec::new();
    let mut i: usize = 0;
    assert(names_view(out@) =~= field_names(es@.take(0)));
    while i < es.len()
        invariant
            i <= es@.len(),
            names_view(out@) == field_names(es@.take(i as int)),
        decreases es.len() - i,
    {
        let ghost t = es@.take(i + 1);
        proof {
            assert(t.drop_last() =~= es@.take(i as int));
        }
        if !entry_is_catch_all(&es[i]) {
            let n = entry_name_string(&es[i]);
            out.push(n);
            proof {
                assert(names_view(out@) =~= field_names(t));
            }
        }
        i = i + 1;
    }
    assert(es@.take(es.len() as int) =~= es@);
    out
}

fn last_catch_all_exec(es: &Vec<GroupEntry>) -> (r: Option<usize>)
    ensures
        r matches Some(i) ==> last_catch_all(es@) == Some(i as int) && i < es@.len(),
        r is None ==> last_catch_all(es@) is None,
{
    let mut n: usize = es.len();
    assert(es@.take(n as int) =~= es@);
    while n > 0
        invariant
            n <= es@.len(),
            last_catch_all(es@) == last_catch_all(es@.take(n as int)),
        decreases n,
    {
        let ghost t = es@.take(n as int);
        proof {
            assert(t.drop_last() =~= es@.take(n - 1));
            assert(t.last() == es@[n - 1]);
        }
        if entry_is_catch_all(&es[n - 1]) {
            return Some(n - 1);
        }
        n = n - 1;
    }
    None
}

fn accepts(op: Control, o: Cmp) -> (r: bool)
    ensures
        r == order_accepts(op, o),
{
    match op {
        Control::Ge => match o {
            Cmp::Less => false,
            _ => true,
        },
        Control::Le => match o {
            Cmp::Greater => false,
            _ => true,
        },
        Control::Gt => match o {
            Cmp::Greater => true,
            _ => false,
        },
        _ => match o {
            Cmp::Less => true,
            _ => false,
        },
    }
}

fn order_check_exec(v: &Cbor, lit: &Literal, op: Control) -> (r: Option<EncodeError>)
    ensures
        opt_error_view(r) == order_check(v@, *lit, op),
{
    let target = literal_to_cbor(lit);
    match cbor_compare(v, &target) {
        None => Some(EncodeError::NotApplicable(op, cbor_kind_exec(v))),
        Some(o) => if accepts(op, o) {
            None
        } else {
            Some(EncodeError::OrderViolated(op))
        },
    }
}

/// `json` encoded against `t` in at most `fuel` nested steps.
fn encode_in(json: &Json, t: &TypeExpr, f: &File, fuel: u64) -> (r: Result<Cbor, EncodeError>)
    ensures
        result_view(r) == encode(f.rules(), json@, *t, fuel as nat),
    decreases fuel, 1nat,
{
    if fuel == 0 {
        return Err(EncodeError::TooDeep);
    }
    let g = fuel - 1;
    let resolved = crate::list::resolve(t, f);
    match resolved {
        TypeExpr::Builtin(name) => encode_builtin_exec(json, name.as_str()),
        TypeExpr::Literal(lit) => Ok(literal_to_cbor(lit)),
        TypeExpr::Group(grp) => encode_group_in(json, grp, f, g),
        TypeExpr::Tuple(grp) => encode_group_in(json, grp, f, g),
        TypeExpr::Array { element_type, .. } => match json {
            Json::Array(items) => match encode_items_in(items, element_type, f, g) {
                Ok(cs) => Ok(Cbor::Array(cs)),
                Err(e) => Err(e),
            },
            _ => Err(expected(Expectation::Array, json)),
        },
        TypeExpr::MapType { key, value } => match json {
            Json::Object(ms) => {
                let skip: Vec<String> = Vec::new();
                proof {
                    assert(names_view(skip@) =~= Seq::<Seq<char>>::empty());
                }
                match encode_members_in(ms, &skip, key, value, f, g) {
                    Ok(es) => Ok(canon_map(es)),
                    Err(e) => Err(e),
                }
            },
            _ => Err(expected(Expectation::Object, json)),
        },
        TypeExpr::Choice(arms) => encode_choice_in(json, arms, f, g),
        TypeExpr::Constrained { base_type, constraints } => match encode_in(json, base_type, f, g) {
            Err(e) => Err(e),
            Ok(v) => match check_all_in(&v, constraints, json, f, g) {
                Some(e) => Err(e),
                None => Ok(v),
            },
        },
        TypeExpr::Reference(name) => Err(EncodeError::UnknownType(name.clone())),
        _ => Err(EncodeError::Unsupported(crate::list::render_type_string(resolved))),
    }
}

/// An object against a group's entries.
fn encode_group_in(json: &Json, grp: &Group, f: &File, g: u64) -> (r: Result<Cbor, EncodeError>)
    ensures
        result_view(r) == encode_group(f.rules(), json@, grp.entries@, g as nat),
    decreases g, 4nat,
{
    match json {
        Json::Object(ms) => match encode_fields_in(ms, &grp.entries, f, g) {
            Err(e) => Err(e),
            Ok(fields) => match last_catch_all_exec(&grp.entries) {
                None => Ok(canon_map(fields)),
                Some(i) => {
                    let e = &grp.entries[i];
                    match &e.key {
                        Some(GroupKey::Type(kt)) => {
                            let names = field_names_exec(&grp.entries);
                            match encode_members_in(ms, &names, kt, &e.value_type, f, g) {
                                Err(x) => Err(x),
                                Ok(extra) => {
                                    let mut all = fields;
                                    let mut more = extra;
                                    let ghost a = all@;
                                    let ghost b = more@;
                                    all.append(&mut more);
                                    proof {
                                        lemma_cbor_entries_view(a);
                                        lemma_cbor_entries_view(b);
                                        lemma_cbor_entries_view(all@);
                                        assert(cbor_entries_view(all@) =~= cbor_entries_view(a) + cbor_entries_view(b));
                                    }
                                    Ok(canon_map(all))
                                },
                            }
                        },
                        _ => {
                            proof {
                                assert(is_catch_all(grp.entries@[i as int])) by {
                                    lemma_last_catch_all(grp.entries@);
                                }
                            }
                            Err(EncodeError::TooDeep)
                        },
                    }
                },
            },
        },
        _ => Err(expected(Expectation::Object, json)),
    }
}

proof fn lemma_last_catch_all(es: Seq<GroupEntry>)
    ensures
        last_catch_all(es) matches Some(i) ==> 0 <= i < es.len() && is_catch_all(es[i]),
    decreases es.len(),
{
    if es.len() > 0 {
        lemma_last_catch_all(es.drop_last());
    }
}

/// The named fields of a group.
#[verifier::loop_isolation(false)]
fn encode_fields_in(ms: &Vec<(String, Json)>, es: &Vec<GroupEntry>, f: &File, g: u64) -> (r: Result<Vec<(Cbor, Cbor)>, EncodeError>)
    ensures
        entries_result_view(r) == encode_fields(f.rules(), json_members_view(ms@), es@, g as nat),
    decreases g, 3nat,
{
    let ghost rules = f.rules();
    let ghost mv = json_members_view(ms@);
    let mut out: Vec<(Cbor, Cbor)> = Vec::new();
    let mut i: usize = 0;
    assert(cbor_entries_view(out@) =~= Seq::<(CborV, CborV)>::empty());
    while i < es.len()
        invariant
            i <= es@.len(),
            encode_fields(rules, mv, es@.take(i as int), g as nat) == Ok::<Seq<(CborV, CborV)>, EncodeErrorV>(cbor_entries_view(out@)),
        decreases es.len() - i,
    {
        let ghost t = es@.take(i + 1);
        proof {
            assert(t.drop_last() =~= es@.take(i as int));
            assert(t.last() == es@[i as int]);
        }
        let e = &es[i];
        if !entry_is_catch_all(e) {
            let name = entry_name_string(e);
            match member_get_exec(ms, name.as_str()) {
                Some(v) => match encode_in(v, &e.value_type, f, g) {
                    Ok(c) => {
                        let ghost cv = cbor_view(c);
                        let ghost before = out@;
                        let key = Cbor::Text(name);
                        let ghost kv = cbor_view(key);
                        out.push((key, c));
                        proof {
                            assert(out@.drop_last() =~= before);
                            assert(cbor_entries_view(out@) == cbor_entries_view(before).push((kv, cv)));
                        }
                    },
                    Err(x) => {
                        proof {
                            lemma_fields_err(rules, mv, es@, g as nat, i + 1);
                        }
                        return Err(x);
                    },
                },
                None => {
                    let optional = match e.occurrence {
                        Some(Occurrence::Optional) => true,
                        _ => false,
                    };
                    if !optional {
                        proof {
                            lemma_fields_err(rules, mv, es@, g as nat, i + 1);
                        }
                        return Err(EncodeError::MissingField(name));
                    }
                },
            }
        }
        i = i + 1;
    }
    assert(es@.take(es.len() as int) =~= es@);
    Ok(out)
}

/// The members of an object not named in `skip`, names against `kt` and
/// values against `vt`.
#[verifier::loop_isolation(false)]
fn encode_members_in(ms: &Vec<(String, Json)>, skip: &Vec<String>, kt: &TypeExpr, vt: &TypeExpr, f: &File, g: u64) -> (r: Result<Vec<(Cbor, Cbor)>, EncodeError>)
    ensures
        entries_result_view(r) == encode_members(f.rules(), json_members_view(ms@), names_view(skip@), *kt, *vt, g as nat),
    decreases g, 3nat,
{
    let ghost rules = f.rules();
    let ghost mv = json_members_view(ms@);
    let ghost sk = names_view(skip@);
    proof {
        crate::value::lemma_json_members_view(ms@);
    }
    let mut out: Vec<(Cbor, Cbor)> = Vec::new();
    let mut i: usize = 0;
    assert(cbor_entries_view(out@) =~= Seq::<(CborV, CborV)>::empty());
    while i < ms.len()
        invariant
            i <= ms@.len(),
            mv.len() == ms@.len(),
            encode_members(rules, mv.take(i as int), sk, *kt, *vt, g as nat) == Ok::<Seq<(CborV, CborV)>, EncodeErrorV>(cbor_entries_view(out@)),
        decreases ms.len() - i,
    {
        let ghost t = mv.take(i + 1);
        proof {
            assert(t.drop_last() =~= mv.take(i as int));
            assert(t.last() == mv[i as int]);
            assert(mv[i as int] == (ms@[i as int].0@, json_view(ms@[i as int].1)));
        }
        if !names_contain(skip, ms[i].0.as_str()) {
            let kj = Json::Str(ms[i].0.clone());
            match encode_in(&kj, kt, f, g) {
                Err(x) => {
                    proof {
                        lemma_members_err(rules, mv, sk, *kt, *vt, g as nat, i + 1);
                    }
                    return Err(x);
                },
                Ok(kc) => match encode_in(&ms[i].1, vt, f, g) {
                    Err(x) => {
                        proof {
                            lemma_members_err(rules, mv, sk, *kt, *vt, g as nat, i + 1);
                        }
                        return Err(x);
                    },
                    Ok(vc) => {
                        let ghost kv = cbor_view(kc);
                        let ghost vv = cbor_view(vc);
                        let ghost before = out@;
                        out.push((kc, vc));
                        proof {
                            assert(out@.drop_last() =~= before);
                            assert(cbor_entries_view(out@) == cbor_entries_view(before).push((kv, vv)));
                        }
                    },
                },
            }
        }
        i = i + 1;
    }
    assert(mv.take(ms.len() as int) =~= mv);
    Ok(out)
}

/// The elements of an array against the element type.
#[verifier::loop_isolation(false)]
fn encode_items_in(items: &Vec<Json>, et: &TypeExpr, f: &File, g: u64) -> (r: Result<Vec<Cbor>, EncodeError>)
    ensures
        items_result_view(r) == encode_items(f.rules(), json_list_view(items@), *et, g as nat),
    decreases g, 3nat,
{
    let ghost rules = f.rules();
    let ghost jv = json_list_view(items@);
    proof {
        crate::value::lemma_json_list_view(items@);
    }
    let mut out: Vec<Cbor> = Vec::new();
    let mut i: usize = 0;
    assert(cbor_list_view(out@) =~= Seq::<CborV>::empty());
    while i < items.len()
        invariant
            i <= items@.len(),
            jv.len() == items@.len(),
            encode_items(rules, jv.take(i as int), *et, g as nat) == Ok::<Seq<CborV>, EncodeErrorV>(cbor_list_view(out@)),
        decreases items.len() - i,
    {
        let ghost t = jv.take(i + 1);
        proof {
            assert(t.drop_last() =~= jv.take(i as int));
            assert(t.last() == jv[i as int]);
        }
        match encode_in(&items[i], et, f, g) {
            Err(x) => {
                proof {
                    lemma_items_err(rules, jv, *et, g as nat, i + 1);
                }
                return Err(x);
            },
            Ok(c) => {
                let ghost cv = cbor_view(c);
                let ghost before = out@;
                out.push(c);
                proof {
                    assert(out@.drop_last() =~= before);
                    assert(cbor_list_view(out@) == cbor_list_view(before).push(cv));
                }
            },
        }
        i = i + 1;
    }
    assert(jv.take(items.len() as int) =~= jv);
    Ok(out)
}

/// A value against a choice's arms.
#[verifier::loop_isolation(false)]
fn encode_choice_in(json: &Json, arms: &Vec<TypeExpr>, f: &File, g: u64) -> (r: Result<Cbor, EncodeError>)
    ensures
        result_view(r) == encode_choice(f.rules(), json@, arms@, g as nat),
    decreases g, 3nat,
{
    let ghost rules = f.rules();
    proof {
        reveal_strlit("_type");
        assert("_type"@ =~= type_hint_key());
    }
    let hint: Option<&str> = match json {
        Json::Object(ms) => match member_get_exec(ms, "_type") {
            Some(Json::Str(h)) => Some(h.as_str()),
            _ => None,
        },
        _ => None,
    };
    proof {
        match hint {
            Some(h) => assert(hinted_arm(json@, arms@) == arm_named(arms@, h@, 0)),
            None => assert(hinted_arm(json@, arms@) is None),
        }
    }
    match hint {
        Some(h) => {
            let mut i: usize = 0;
            while i < arms.len()
                invariant
                    i <= arms@.len(),
                    arm_named(arms@, h@, 0) == arm_named(arms@, h@, i as int),
                decreases arms.len() - i,
            {
                match &arms[i] {
                    TypeExpr::Reference(n) => {
                        if str_eq(n.as_str(), h) {
                            return encode_in(json, &arms[i], f, g);
                        }
                    },
                    _ => {},
                }
                i = i + 1;
            }
        },
        None => {},
    }
    let mut i: usize = 0;
    assert(arms@.take(0) =~= Seq::<TypeExpr>::empty());
    while i < arms.len()
        invariant
            i <= arms@.len(),
            first_ok(rules, json@, arms@.take(i as int), g as nat) == Err::<CborV, EncodeErrorV>(EncodeErrorV::NoMatchingArm),
        decreases arms.len() - i,
    {
        let ghost t = arms@.take(i + 1);
        proof {
            assert(t.drop_last() =~= arms@.take(i as int));
            assert(t.last() == arms@[i as int]);
        }
        match encode_in(json, &arms[i], f, g) {
            Ok(c) => {
                proof {
                    lemma_first_ok_found(rules, json@, arms@, g as nat, i + 1);
                }
                return Ok(c);
            },
            Err(EncodeError::TooDeep) => {
                proof {
                    lemma_first_ok_found(rules, json@, arms@, g as nat, i + 1);
                }
                return Err(EncodeError::TooDeep);
            },
            Err(_) => {},
        }
        i = i + 1;
    }
    assert(arms@.take(arms.len() as int) =~= arms@);
    Err(EncodeError::NoMatchingArm)
}

/// The first constraint that `v` violates.
#[verifier::loop_isolation(false)]
fn check_all_in(v: &Cbor, cs: &Vec<ControlOp>, json: &Json, f: &File, g: u64) -> (r: Option<EncodeError>)
    ensures
        opt_error_view(r) == check_all(f.rules(), v@, cs@, json@, g as nat),
    decreases g, 3nat,
{
    let ghost rules = f.rules();
    let mut i: usize = 0;
    assert(cs@.take(0) =~= Seq::<ControlOp>::empty());
    while i < cs.len()
        invariant
            i <= cs@.len(),
            check_all(rules, v@, cs@.take(i as int), json@, g as nat) is None,
        decreases cs.len() - i,
    {
        let ghost t = cs@.take(i + 1);
        proof {
            assert(t.drop_last() =~= cs@.take(i as int));
            assert(t.last() == cs@[i as int]);
        }
        match check_in(v, &cs[i], json, f, g) {
            Some(e) => {
                proof {
                    lemma_check_all_found(rules, v@, cs@, json@, g as nat, i + 1);
                }
                return Some(e);
            },
            None => {},
        }
        i = i + 1;
    }
    assert(cs@.take(cs.len() as int) =~= cs@);
    None
}

/// Whether `v` (the encoding of `json`) meets the constraint `c`.
fn check_in(v: &Cbor, c: &ControlOp, json: &Json, f: &File, g: u64) -> (r: Option<EncodeError>)
    ensures
        opt_error_view(r) == check(f.rules(), v@, *c, json@, g as nat),
    decreases g, 2nat,
{
    match c {
        ControlOp::Size(sc) => match value_len_exec(v) {
            None => Some(EncodeError::NotApplicable(Control::Size, cbor_kind_exec(v))),
            Some(n) => if size_ok_exec(*sc, n) {
                None
            } else {
                Some(EncodeError::SizeViolated(n, *sc))
            },
        },
        ControlOp::Regex(p) => match v {
            Cbor::Text(s) => match regex_match(p.as_str(), s.as_str()) {
                Err(m) => Some(EncodeError::BadRegex(p.clone(), m)),
                Ok(m) => if m {
                    None
                } else {
                    Some(EncodeError::RegexViolated(s.clone(), p.clone()))
                },
            },
            _ => Some(EncodeError::NotApplicable(Control::Regex, cbor_kind_exec(v))),
        },
        ControlOp::GreaterEqual(lit) => order_check_exec(v, lit, Control::Ge),
        ControlOp::LessEqual(lit) => order_check_exec(v, lit, Control::Le),
        ControlOp::GreaterThan(lit) => order_check_exec(v, lit, Control::Gt),
        ControlOp::LessThan(lit) => order_check_exec(v, lit, Control::Lt),
        ControlOp::Equal(lit) => {
            let target = literal_to_cbor(lit);
            if cbor_equal(v, &target) {
                None
            } else {
                Some(EncodeError::EqViolated)
            }
        },
        ControlOp::NotEqual(lit) => {
            let target = literal_to_cbor(lit);
            if cbor_equal(v, &target) {
                Some(EncodeError::NeViolated)
            } else {
                None
            }
        },
        ControlOp::Bits(expr) => match v {
            Cbor::Integer(n) => match parse_bits_mask(expr.as_str()) {
                None => Some(EncodeError::BadBitsMask(expr.clone(), bits_mask_error_exec(expr.as_str()))),
                Some(m) => if *n & !m != 0 {
                    Some(EncodeError::BitsViolated(*n, expr.clone()))
                } else {
                    None
                },
            },
            _ => Some(EncodeError::NotApplicable(Control::Bits, cbor_kind_exec(v))),
        },
        ControlOp::And(t) => match encode_in(json, t, f, g) {
            Err(EncodeError::TooDeep) => Some(EncodeError::TooDeep),
            Err(e) => Some(EncodeError::AndViolated(Box::new(e))),
            Ok(_) => None,
        },
        ControlOp::Within(t) => match encode_in(json, t, f, g) {
            Err(EncodeError::TooDeep) => Some(EncodeError::TooDeep),
            Err(e) => Some(EncodeError::WithinViolated(Box::new(e))),
            Ok(_) => None,
        },
        ControlOp::Json => match v {
            Cbor::Text(s) => match json_text_error(s.as_str()) {
                None => None,
                Some(m) => Some(EncodeError::JsonViolated(s.clone(), m)),
            },
            _ => Some(EncodeError::NotApplicable(Control::Json, cbor_kind_exec(v))),
        },
        ControlOp::Cbor => match v {
            Cbor::Bytes(b) => match decode_cbor_prefix(b.as_slice()) {
                Ok(_) => None,
                Err(m) => Some(EncodeError::CborViolated(m)),
            },
            _ => Some(EncodeError::NotApplicable(Control::Cbor, cbor_kind_exec(v))),
        },
        ControlOp::Cborseq => match v {
            Cbor::Bytes(b) => match cborseq_error(b.as_slice()) {
                None => None,
                Some(m) => Some(EncodeError::CborseqViolated(m)),
            },
            _ => Some(EncodeError::NotApplicable(Control::Cborseq, cbor_kind_exec(v))),
        },
        ControlOp::Default(_) => None,
    }
}

/// Encodes a JSON value against `type_expr`, resolved through `f`, into a
/// CBOR value: group and map entries in canonical key order, every
/// constraint of a constrained type checked. The result is `encodes`, the
/// encoding with no bound on its steps, except where that needs more than
/// `MAX_STEPS` nested steps (`TooDeep`).
pub fn json_to_cbor(json: &Json, type_expr: &TypeExpr, f: &File) -> (r: Result<Cbor, EncodeError>)
    ensures
        result_view(r) == encode(f.rules(), json@, *type_expr, MAX_STEPS as nat),
        !ran_out(result_view(r)) ==> result_view(r) == encodes(f.rules(), json@, *type_expr),
{
    let r = encode_in(json, type_expr, f, MAX_STEPS);
    proof {
        if !ran_out(result_view(r)) {
            lemma_encodes_at(f.rules(), json@, *type_expr, MAX_STEPS as nat);
        }
    }
    r
}

// ----- From a decoded response to JSON -----

/// Whether a double is finite (its exponent bits are not all set).
pub open spec fn is_finite(bits: u64) -> bool {
    (bits as nat / 0x10_0000_0000_0000) % 2048 != 2047
}

/// `m` with the member named `k` set to `v`: in place when `k` is there,
/// otherwise placed after the members whose keys come before `k` (see
/// `key_lt`), so that members stay in key order.
pub open spec fn object_insert(ms: Seq<(Seq<char>, JsonV)>, k: Seq<char>, v: JsonV) -> Seq<(Seq<char>, JsonV)> {
    match member_from(ms, k, 0) {
        Some(i) => ms.update(i, (k, v)),
        None => ms.insert(insert_at(ms, k, 0), (k, v)),
    }
}

/// A CBOR value as JSON: integers that fit a JSON number as numbers (others
/// as null), byte strings as `0x` and lowercase hex, finite floats as
/// numbers (others as null), tags by their content, and maps as objects
/// keyed by their text keys or, for other keys, by the key's JSON text.
pub open spec fn cbor_json(v: CborV) -> JsonV
    decreases v, 1nat,
{
    match v {
        CborV::Integer(n) => if 0 <= n <= u64::MAX {
            JsonV::Number(NumberV { kind: NumberKindV::PosInt(n as u64), int_as_float: None })
        } else if i64::MIN <= n < 0 {
            JsonV::Number(NumberV { kind: NumberKindV::NegInt(n as i64), int_as_float: None })
        } else {
            JsonV::Null
        },
        CborV::Bytes(b) => JsonV::Str(seq!['0', 'x'] + hex_string(b)),
        CborV::Float(x) => if is_finite(x.bits) {
            JsonV::Number(NumberV { kind: NumberKindV::Float(x), int_as_float: None })
        } else {
            JsonV::Null
        },
        CborV::Text(s) => JsonV::Str(s),
        CborV::Bool(b) => JsonV::Bool(b),
        CborV::Null => JsonV::Null,
        CborV::Tag(_, inner) => cbor_json(*inner),
        CborV::Array(items) => JsonV::Array(cbor_json_list(items)),
        CborV::Entries(es) => JsonV::Object(object_of(es)),
    }
}

pub open spec fn cbor_json_list(items: Seq<CborV>) -> Seq<JsonV>
    decreases items, 0nat,
{
    if items.len() == 0 {
        Seq::empty()
    } else {
        cbor_json_list(items.drop_last()).push(cbor_json(items.last()))
    }
}

/// The member name a map key becomes.
pub open spec fn key_text(k: CborV) -> Seq<char>
    decreases k, 2nat,
{
    match k {
        CborV::Text(s) => s,
        _ => json_text(cbor_json(k)),
    }
}

/// The object a map's entries become, inserted in order.
pub open spec fn object_of(es: Seq<(CborV, CborV)>) -> Seq<(Seq<char>, JsonV)>
    decreases es, 0nat,
{
    if es.len() == 0 {
        Seq::empty()
    } else {
        object_insert(object_of(es.drop_last()), key_text(es.last().0), cbor_json(es.last().1))
    }
}

proof fn lemma_members_view_update(ms: Seq<(String, Json)>, i: int, k: String, v: Json)
    requires
        0 <= i < ms.len(),
    ensures
        json_members_view(ms.update(i, (k, v))) == json_members_view(ms).update(i, (k@, json_view(v))),
{
    crate::value::lemma_json_members_view(ms);
    crate::value::lemma_json_members_view(ms.update(i, (k, v)));
    assert(json_members_view(ms.update(i, (k, v))) =~= json_members_view(ms).update(i, (k@, json_view(v))));
}

proof fn lemma_members_view_insert(ms: Seq<(String, Json)>, p: int, k: String, v: Json)
    requires
        0 <= p <= ms.len(),
    ensures
        json_members_view(ms.insert(p, (k, v))) == json_members_view(ms).insert(p, (k@, json_view(v))),
{
    crate::value::lemma_json_members_view(ms);
    crate::value::lemma_json_members_view(ms.insert(p, (k, v)));
    assert(json_members_view(ms.insert(p, (k, v))) =~= json_members_view(ms).insert(p, (k@, json_view(v))));
}

/// Sets the member named `k` to `v`.
pub fn insert_member(ms: &mut Vec<(String, Json)>, k: String, v: Json)
    ensures
        json_members_view(final(ms)@) == object_insert(json_members_view(old(ms)@), k@, v@),
{
    let ghost mv = json_members_view(ms@);
    proof {
        crate::value::lemma_json_members_view(ms@);
    }
    let mut i: usize = 0;
    while i < ms.len()
        invariant
            i <= ms@.len(),
            ms@ == old(ms)@,
            ms@ == old(ms)@,
            mv == json_members_view(ms@),
            mv.len() == ms@.len(),
            member_from(mv, k@, 0) == member_from(mv, k@, i as int),
        decreases ms.len() - i,
    {
        proof {
            crate::value::lemma_json_members_view(ms@);
        }
        if str_eq(ms[i].0.as_str(), k.as_str()) {
            proof {
                lemma_members_view_update(ms@, i as int, k, v);
            }
            ms.set(i, (k, v));
            return;
        }
        i = i + 1;
    }
    proof {
        crate::value::lemma_json_members_view(ms@);
    }
    let mut p: usize = 0;
    while p < ms.len() && key_less(ms[p].0.as_str(), k.as_str())
        invariant
            p <= ms@.len(),
            ms@ == old(ms)@,
            mv == json_members_view(ms@),
            mv.len() == ms@.len(),
            forall|x: int| 0 <= x < ms@.len() ==> #[trigger] mv[x] == (ms@[x].0@, json_view(ms@[x].1)),
            insert_at(mv, k@, 0) == insert_at(mv, k@, p as int),
        decreases ms.len() - p,
    {
        p = p + 1;
    }
    proof {
        lemma_members_view_insert(ms@, p as int, k, v);
    }
    ms.insert(p, (k, v));
}

fn is_finite_exec(bits: u64) -> (r: bool)
    ensures
        r == is_finite(bits),
{
    (bits / 0x10_0000_0000_0000) % 2048 != 2047
}

/// Converts a decoded CBOR value into JSON for display; the CBOR shape
/// alone decides the JSON shape.
#[verifier::loop_isolation(false)]
pub fn cbor_to_json(v: &Cbor) -> (r: Json)
    ensures
        r@ == cbor_json(v@),
    decreases v, 1nat,
{
    match v {
        Cbor::Integer(n) => {
            if 0 <= *n && *n <= 0xffff_ffff_ffff_ffff {
                let u = *n as u64;
                let r = Json::Number(JsonNumber { kind: NumberKind::PosInt(u), int_as_float: None });
                r
            } else if -0x8000_0000_0000_0000 <= *n && *n < 0 {
                let x = *n as i64;
                let r = Json::Number(JsonNumber { kind: NumberKind::NegInt(x), int_as_float: None });
                r
            } else {
                Json::Null
            }
        },
        Cbor::Bytes(b) => {
            let mut s = String::new();
            crate::text::push_char(&mut s, '0');
            crate::text::push_char(&mut s, 'x');
            let h = crate::text::hex(b.as_slice());
            s.append(h.as_str());
            assert(s@ =~= seq!['0', 'x'] + hex_string(b@));
            Json::Str(s)
        },
        Cbor::Float(x) => {
            if is_finite_exec(x.bits) {
                Json::Number(JsonNumber { kind: NumberKind::Float(clone_float(x)), int_as_float: None })
            } else {
                Json::Null
            }
        },
        Cbor::Text(s) => Json::Str(s.clone()),
        Cbor::Bool(b) => Json::Bool(*b),
        Cbor::Null => Json::Null,
        Cbor::Tag(_, inner) => cbor_to_json(inner),
        Cbor::Array(items) => {
            proof {
                lemma_cbor_list_view(items@);
            }
            let mut out: Vec<Json> = Vec::new();
            let mut i: usize = 0;
            while i < items.len()
                invariant
                    i <= items.len(),
                    json_list_view(out@) == cbor_json_list(cbor_list_view(items@.take(i as int))),
                decreases items.len() - i,
            {
                proof {
                    assert(decreases_to!(*v => items@[i as int]));
                }
                let j = cbor_to_json(&items[i]);
                let ghost jv = j@;
                let ghost before = out@;
                out.push(j);
                proof {
                    assert(out@.drop_last() =~= before);
                    assert(json_list_view(out@) == json_list_view(before).push(jv));
                    let t = items@.take(i + 1);
                    assert(t.drop_last() =~= items@.take(i as int));
                    lemma_cbor_list_view(t);
                    lemma_cbor_list_view(items@.take(i as int));
                    assert(cbor_list_view(t).drop_last() =~= cbor_list_view(items@.take(i as int)));
                }
                i = i + 1;
            }
            assert(items@.take(items.len() as int) =~= items@);
            Json::Array(out)
        },
        Cbor::Entries(es) => Json::Object(cbor_object(es)),
    }
}

/// The name a map key becomes.
fn key_string(k: &Cbor) -> (r: String)
    ensures
        r@ == key_text(k@),
    decreases k, 2nat,
{
    match k {
        Cbor::Text(s) => s.clone(),
        _ => {
            let j = cbor_to_json(k);
            json_to_text(&j)
        },
    }
}

#[verifier::loop_isolation(false)]
fn cbor_object(es: &Vec<(Cbor, Cbor)>) -> (r: Vec<(String, Json)>)
    ensures
        json_members_view(r@) == object_of(cbor_entries_view(es@)),
    decreases es, 0nat,
{
    proof {
        lemma_cbor_entries_view(es@);
    }
    let mut out: Vec<(String, Json)> = Vec::new();
    let mut i: usize = 0;
    while i < es.len()
        invariant
            i <= es.len(),
            json_members_view(out@) == object_of(cbor_entries_view(es@.take(i as int))),
        decreases es.len() - i,
    {
        proof {
            assert(decreases_to!(es => es@[i as int]));
            assert(decreases_to!(es@[i as int] => es@[i as int].0));
            assert(decreases_to!(es@[i as int] => es@[i as int].1));
        }
        let k = key_string(&es[i].0);
        let j = cbor_to_json(&es[i].1);
        insert_member(&mut out, k, j);
        proof {
            let t = es@.take(i + 1);
            assert(t.drop_last() =~= es@.take(i as int));
            lemma_cbor_entries_view(t);
            lemma_cbor_entries_view(es@.take(i as int));
            assert(cbor_entries_view(t).drop_last() =~= cbor_entries_view(es@.take(i as int)));
        }
        i = i + 1;
    }
    assert(es@.take(es.len() as int) =~= es@);
    out
}

// ----- Error messages -----

pub open spec fn expectation_phrase(x: Expectation) -> Seq<char> {
    match x {
        Expectation::Object => "expected a JSON object"@,
        Expectation::Array => "expected a JSON array"@,
        Expectation::Integer => "expected an integer"@,
        Expectation::NonNegativeInteger => "expected a non-negative integer"@,
        Expectation::Number => "expected a number"@,
        Expectation::Str => "expected a string"@,
        Expectation::Boolean => "expected a boolean"@,
        Expectation::StringOrBytes => "expected a string or array of bytes"@,
        Expectation::Byte => "expected a byte (0-255)"@,
    }
}

pub open spec fn control_name(c: Control) -> Seq<char> {
    match c {
        Control::Size => ".size"@,
        Control::Regex => ".regex"@,
        Control::Ge => ".ge"@,
        Control::Le => ".le"@,
        Control::Gt => ".gt"@,
        Control::Lt => ".lt"@,
        Control::Bits => ".bits"@,
        Control::Json => ".json"@,
        Control::Cbor => ".cbor"@,
        Control::Cborseq => ".cborseq"@,
    }
}

pub open spec fn kind_name(k: CborKind) -> Seq<char> {
    match k {
        CborKind::Integer => "integer"@,
        CborKind::Float => "float"@,
        CborKind::Text => "text"@,
        CborKind::Bytes => "bytes"@,
        CborKind::Bool => "bool"@,
        CborKind::Null => "null"@,
        CborKind::Array => "array"@,
        CborKind::MapKind => "map"@,
        CborKind::Value => "value"@,
    }
}

/// A size bound in `Debug` form.
pub open spec fn size_debug(sc: SizeConstraint) -> Seq<char> {
    match sc {
        SizeConstraint::Exact(n) => "Exact("@ + decimal(n as nat) + ")"@,
        SizeConstraint::Range { min, max } => "Range { min: "@ + decimal(min as nat) + ", max: "@ + decimal(
            max as nat,
        ) + " }"@,
        SizeConstraint::Min(n) => "Min("@ + decimal(n as nat) + ")"@,
        SizeConstraint::Max(n) => "Max("@ + decimal(n as nat) + ")"@,
    }
}

/// Lowercase hexadecimal notation, with no leading zeros.
pub open spec fn hex_digits(n: nat) -> Seq<char>
    decreases n,
{
    if n < 16 {
        seq![hex_digit(n)]
    } else {
        hex_digits(n / 16).push(hex_digit(n % 16))
    }
}

/// The 128-bit two's complement pattern of `n`, as a number.
pub open spec fn twos_complement(n: i128) -> nat {
    if n < 0 {
        (n + 0x1_0000_0000_0000_0000_0000_0000_0000_0000) as nat
    } else {
        n as nat
    }
}

/// What an encoding error says.
pub open spec fn error_message(e: EncodeErrorV) -> Seq<char> {
    match e {
        EncodeErrorV::Expected(x, got) => expectation_phrase(x) + ", got "@ + got,
        EncodeErrorV::OddHexLength => "hex string must have an even number of digits"@,
        EncodeErrorV::BadHexDigit => "invalid digit found in string"@,
        EncodeErrorV::MissingField(n) => "missing required field "@ + str_debug(n),
        EncodeErrorV::NoMatchingArm => "value did not match any arm of the choice type"@,
        EncodeErrorV::UnknownType(n) => "unknown type "@ + str_debug(n),
        EncodeErrorV::UnknownBuiltin(n) => "unknown builtin type "@ + str_debug(n),
        EncodeErrorV::Unsupported(t) => "unsupported type expression for encoding: "@ + t,
        EncodeErrorV::NotApplicable(c, k) => control_name(c) + " does not apply to a "@ + kind_name(k),
        EncodeErrorV::SizeViolated(n, sc) => ".size constraint violated: length "@ + decimal(n as nat)
            + " does not satisfy "@ + size_debug(sc),
        EncodeErrorV::BadRegex(p, m) => "invalid .regex pattern "@ + str_debug(p) + ": "@ + m,
        EncodeErrorV::RegexViolated(s, p) => ".regex constraint violated: "@ + str_debug(s)
            + " does not match "@ + str_debug(p),
        EncodeErrorV::OrderViolated(c) => control_name(c) + " constraint violated"@,
        EncodeErrorV::EqViolated => ".eq constraint violated: the value does not equal the literal"@,
        EncodeErrorV::NeViolated => ".ne constraint violated: the value equals the literal"@,
        EncodeErrorV::BadBitsMask(x, m) => "invalid .bits mask "@ + str_debug(x) + ": "@ + m,
        EncodeErrorV::BitsViolated(n, m) => ".bits constraint violated: 0x"@ + hex_digits(twos_complement(n))
            + " sets bits outside mask "@ + m,
        EncodeErrorV::AndViolated(_) => ".and constraint violated: value does not also match the intersected type"@,
        EncodeErrorV::WithinViolated(_) => ".within constraint violated: value does not match the referenced type"@,
        EncodeErrorV::JsonViolated(s, m) => ".json constraint violated: "@ + str_debug(s) + " is not valid JSON: "@ + m,
        EncodeErrorV::CborViolated(m) => ".cbor constraint violated: bytes are not valid CBOR: "@ + m,
        EncodeErrorV::CborseqViolated(m) => ".cborseq constraint violated: bytes are not a valid CBOR sequence: "@ + m,
        EncodeErrorV::TooDeep => "type nesting too deep to encode"@,
    }
}

fn expectation_str(x: Expectation) -> (r: &'static str)
    ensures
        r@ == expectation_phrase(x),
{
    match x {
        Expectation::Object => "expected a JSON object",
        Expectation::Array => "expected a JSON array",
        Expectation::Integer => "expected an integer",
        Expectation::NonNegativeInteger => "expected a non-negative integer",
        Expectation::Number => "expected a number",
        Expectation::Str => "expected a string",
        Expectation::Boolean => "expected a boolean",
        Expectation::StringOrBytes => "expected a string or array of bytes",
        Expectation::Byte => "expected a byte (0-255)",
    }
}

fn control_str(c: Control) -> (r: &'static str)
    ensures
        r@ == control_name(c),
{
    match c {
        Control::Size => ".size",
        Control::Regex => ".regex",
        Control::Ge => ".ge",
        Control::Le => ".le",
        Control::Gt => ".gt",
        Control::Lt => ".lt",
        Control::Bits => ".bits",
        Control::Json => ".json",
        Control::Cbor => ".cbor",
        Control::Cborseq => ".cborseq",
    }
}

fn kind_str(k: CborKind) -> (r: &'static str)
    ensures
        r@ == kind_name(k),
{
    match k {
        CborKind::Integer => "integer",
        CborKind::Float => "float",
        CborKind::Text => "text",
        CborKind::Bytes => "bytes",
        CborKind::Bool => "bool",
        CborKind::Null => "null",
        CborKind::Array => "array",
        CborKind::MapKind => "map",
        CborKind::Value => "value",
    }
}

fn push_hex(out: &mut String, n: u128)
    ensures
        final(out)@ == old(out)@ + hex_digits(n as nat),
    decreases n,
{
    if n < 16 {
        let c = if n < 10 { (48 + n as u8) as char } else { (87 + n as u8) as char };
        push_char(out, c);
    } else {
        push_hex(out, n / 16);
        let d = (n % 16) as u8;
        let c = if d < 10 { (48 + d) as char } else { (87 + d) as char };
        push_char(out, c);
    }
}

fn twos_complement_exec(n: i128) -> (r: u128)
    ensures
        r as nat == twos_complement(n),
{
    if n < 0 {
        let a = (n + 0x7fff_ffff_ffff_ffff_ffff_ffff_ffff_ffff + 1) as u128;
        a + 0x8000_0000_0000_0000_0000_0000_0000_0000
    } else {
        n as u128
    }
}

fn push_size_debug(out: &mut String, sc: SizeConstraint)
    ensures
        final(out)@ == old(out)@ + size_debug(sc),
{
    let ghost start = out@;
    match sc {
        SizeConstraint::Exact(n) => {
            out.append("Exact(");
            push_decimal(out, n as u128);
            out.append(")");
        },
        SizeConstraint::Range { min, max } => {
            out.append("Range { min: ");
            push_decimal(out, min as u128);
            out.append(", max: ");
            push_decimal(out, max as u128);
            out.append(" }");
        },
        SizeConstraint::Min(n) => {
            out.append("Min(");
            push_decimal(out, n as u128);
            out.append(")");
        },
        SizeConstraint::Max(n) => {
            out.append("Max(");
            push_decimal(out, n as u128);
            out.append(")");
        },
    }
    assert(out@ =~= start + size_debug(sc));
}

impl EncodeError {
    /// The message that describes the error.
    pub fn message(&self) -> (r: String)
        ensures
            r@ == error_message(self@),
    {
        let mut out = String::new();
        match self {
            EncodeError::Expected(x, got) => {
                out.append(expectation_str(*x));
                out.append(", got ");
                out.append(got.as_str());
            },
            EncodeError::OddHexLength => out.append("hex string must have an even number of digits"),
            EncodeError::BadHexDigit => out.append("invalid digit found in string"),
            EncodeError::MissingField(n) => {
                out.append("missing required field ");
                let d = debug_str(n.as_str());
                out.append(d.as_str());
            },
            EncodeError::NoMatchingArm => out.append("value did not match any arm of the choice type"),
            EncodeError::UnknownType(n) => {
                out.append("unknown type ");
                let d = debug_str(n.as_str());
                out.append(d.as_str());
            },
            EncodeError::UnknownBuiltin(n) => {
                out.append("unknown builtin type ");
                let d = debug_str(n.as_str());
                out.append(d.as_str());
            },
            EncodeError::Unsupported(t) => {
                out.append("unsupported type expression for encoding: ");
                out.append(t.as_str());
            },
            EncodeError::NotApplicable(c, k) => {
                out.append(control_str(*c));
                out.append(" does not apply to a ");
                out.append(kind_str(*k));
            },
            EncodeError::SizeViolated(n, sc) => {
                out.append(".size constraint violated: length ");
                push_decimal(&mut out, *n as u128);
                out.append(" does not satisfy ");
                push_size_debug(&mut out, *sc);
            },
            EncodeError::BadRegex(p, m) => {
                out.append("invalid .regex pattern ");
                let d = debug_str(p.as_str());
                out.append(d.as_str());
                out.append(": ");
                out.append(m.as_str());
            },
            EncodeError::RegexViolated(s, p) => {
                out.append(".regex constraint violated: ");
                let d = debug_str(s.as_str());
                out.append(d.as_str());
                out.append(" does not match ");
                let e = debug_str(p.as_str());
                out.append(e.as_str());
            },
            EncodeError::OrderViolated(c) => {
                out.append(control_str(*c));
                out.append(" constraint violated");
            },
            EncodeError::EqViolated => out.append(".eq constraint violated: the value does not equal the literal"),
            EncodeError::NeViolated => out.append(".ne constraint violated: the value equals the literal"),
            EncodeError::BadBitsMask(x, m) => {
                out.append("invalid .bits mask ");
                let d = debug_str(x.as_str());
                out.append(d.as_str());
                out.append(": ");
                out.append(m.as_str());
            },
            EncodeError::BitsViolated(n, m) => {
                out.append(".bits constraint violated: 0x");
                push_hex(&mut out, twos_complement_exec(*n));
                out.append(" sets bits outside mask ");
                out.append(m.as_str());
            },
            EncodeError::AndViolated(_) => out.append(
                ".and constraint violated: value does not also match the intersected type",
            ),
            EncodeError::WithinViolated(_) => out.append(
                ".within constraint violated: value does not match the referenced type",
            ),
            EncodeError::JsonViolated(s, m) => {
                out.append(".json constraint violated: ");
                let d = debug_str(s.as_str());
                out.append(d.as_str());
                out.append(" is not valid JSON: ");
                out.append(m.as_str());
            },
            EncodeError::CborViolated(m) => {
                out.append(".cbor constraint violated: bytes are not valid CBOR: ");
                out.append(m.as_str());
            },
            EncodeError::CborseqViolated(m) => {
                out.append(".cborseq constraint violated: bytes are not a valid CBOR sequence: ");
                out.append(m.as_str());
            },
            EncodeError::TooDeep => out.append("type nesting too deep to encode"),
        }
        assert(out@ =~= error_message(self@));
        out
    }
}

// ----- Byte strings shown as JSON read back -----

proof fn lemma_hex_string_shape(b: Seq<u8>)
    ensures
        hex_string(b).len() == 2 * b.len(),
        forall|i: int|
            0 <= i < b.len() ==> #[trigger] hex_string(b)[2 * i] == hex_digit((b[i] / 16) as nat) && hex_string(
                b,
            )[2 * i + 1] == hex_digit((b[i] % 16) as nat),
    decreases b.len(),
{
    if b.len() > 0 {
        let t = b.drop_last();
        lemma_hex_string_shape(t);
        assert forall|i: int| 0 <= i < b.len() implies #[trigger] hex_string(b)[2 * i] == hex_digit(
            (b[i] / 16) as nat,
        ) && hex_string(b)[2 * i + 1] == hex_digit((b[i] % 16) as nat) by {
            if i < t.len() {
                assert(hex_string(b)[2 * i] == hex_string(t)[2 * i]);
                assert(hex_string(b)[2 * i + 1] == hex_string(t)[2 * i + 1]);
                assert(t[i] == b[i]);
            }
        }
    }
}

proof fn lemma_hex_digit_reads(n: nat)
    requires
        n < 16,
    ensures
        hex_digit(n) as nat <= 0x7f,
        hex_value(hex_digit(n) as u8) == Some(n),
        hex_digit(n) as u8 != 43,
{
}

/// A byte string shown as JSON (`0x` and lowercase hex, as a response is
/// shown) reads back, as a `bytes` value, to the same bytes.
pub proof fn law_bytes_shown_read_back(b: Seq<u8>)
    ensures
        encode_bytes(cbor_json(CborV::Bytes(b))) == Ok::<CborV, EncodeErrorV>(CborV::Bytes(b)),
{
    let h = hex_string(b);
    let s = seq!['0', 'x'] + h;
    assert(cbor_json(CborV::Bytes(b)) == JsonV::Str(s));
    assert(s.skip(2) =~= h);
    lemma_hex_string_shape(b);
    assert(vstd::utf8::is_ascii_chars(h)) by {
        assert forall|k: int| 0 <= k < h.len() implies '\0' <= #[trigger] h[k] <= '\u{7f}' by {
            let i = k / 2;
            assert(0 <= i < b.len());
            assert(hex_string(b)[2 * i] == hex_digit((b[i] / 16) as nat));
            if k % 2 == 0 {
                assert(k == 2 * i);
                assert(h[k] == hex_digit((b[i] / 16) as nat));
                lemma_hex_digit_reads((b[i] / 16) as nat);
            } else {
                assert(k == 2 * i + 1);
                assert(h[k] == hex_digit((b[i] % 16) as nat));
                lemma_hex_digit_reads((b[i] % 16) as nat);
            }
        }
    }
    vstd::utf8::is_ascii_chars_encode_utf8(h);
    let e = encode_utf8(h);
    assert(e.len() == 2 * b.len());
    assert forall|i: int| 0 <= i < e.len() / 2 implies #[trigger] hex_pair(e[2 * i], e[2 * i + 1]) == Some(b[i]) by {
        assert(hex_string(b)[2 * i] == hex_digit((b[i] / 16) as nat));
        assert(e[2 * i] == h[2 * i] as u8);
        assert(e[2 * i + 1] == h[2 * i + 1] as u8);
        lemma_hex_digit_reads((b[i] / 16) as nat);
        lemma_hex_digit_reads((b[i] % 16) as nat);
        assert((b[i] / 16) * 16 + b[i] % 16 == b[i]);
    }
    assert(Seq::new(e.len() / 2, |i: int| hex_pair(e[2 * i], e[2 * i + 1])->0) =~= b);
}

// ----- Encodings are canonical -----

/// Every map inside the value, at any depth, has its entries in canonical
/// key order.
pub open spec fn canonical(v: CborV) -> bool
    decreases v, 1nat,
{
    match v {
        CborV::Tag(_, inner) => canonical(*inner),
        CborV::Array(items) => list_canonical(items),
        CborV::Entries(es) => keys_sorted(es) && pairs_canonical(es),
        _ => true,
    }
}

pub open spec fn list_canonical(xs: Seq<CborV>) -> bool
    decreases xs, 0nat,
{
    if xs.len() == 0 {
        true
    } else {
        list_canonical(xs.drop_last()) && canonical(xs.last())
    }
}

pub open spec fn pairs_canonical(es: Seq<(CborV, CborV)>) -> bool
    decreases es, 0nat,
{
    if es.len() == 0 {
        true
    } else {
        pairs_canonical(es.drop_last()) && canonical(es.last().0) && canonical(es.last().1)
    }
}

proof fn lemma_list_canonical(xs: Seq<CborV>)
    ensures
        list_canonical(xs) == all_canonical(xs),
    decreases xs.len(),
{
    if xs.len() > 0 {
        let t = xs.drop_last();
        lemma_list_canonical(t);
        if all_canonical(xs) {
            assert forall|i: int| 0 <= i < t.len() implies #[trigger] canonical(t[i]) by {
                assert(t[i] == xs[i]);
            }
            assert(canonical(xs[xs.len() - 1]));
        }
        if list_canonical(xs) {
            assert forall|i: int| 0 <= i < xs.len() implies #[trigger] canonical(xs[i]) by {
                if i < t.len() {
                    assert(t[i] == xs[i]);
                }
            }
        }
    }
}

proof fn lemma_pairs_canonical(es: Seq<(CborV, CborV)>)
    ensures
        pairs_canonical(es) == entries_canonical(es),
    decreases es.len(),
{
    if es.len() > 0 {
        let t = es.drop_last();
        lemma_pairs_canonical(t);
        if entries_canonical(es) {
            assert forall|i: int| 0 <= i < t.len() implies canonical(#[trigger] t[i].0) && canonical(t[i].1) by {
                assert(t[i] == es[i]);
                assert(canonical(es[i].0));
            }
            assert(canonical(es[es.len() - 1].0));
        }
        if pairs_canonical(es) {
            assert forall|i: int| 0 <= i < es.len() implies canonical(#[trigger] es[i].0) && canonical(es[i].1) by {
                if i < t.len() {
                    assert(t[i] == es[i]);
                }
            }
        }
    }
}

pub open spec fn all_canonical(xs: Seq<CborV>) -> bool {
    forall|i: int| 0 <= i < xs.len() ==> #[trigger] canonical(xs[i])
}

pub open spec fn entries_canonical(es: Seq<(CborV, CborV)>) -> bool {
    forall|i: int| 0 <= i < es.len() ==> canonical(#[trigger] es[i].0) && canonical(es[i].1)
}

proof fn lemma_canon_canonical(es: Seq<(CborV, CborV)>)
    requires
        entries_canonical(es),
    ensures
        canonical(CborV::Entries(canon(es))),
{
    broadcast use vstd::seq_lib::group_to_multiset_ensures;
    crate::cbor::law_canon_sorted_permutation(es);
    let c = canon(es);
    assert forall|i: int| 0 <= i < c.len() implies canonical(#[trigger] c[i].0) && canonical(c[i].1) by {
        assert(c.contains(c[i]));
        assert(c.to_multiset().count(c[i]) > 0);
        assert(es.contains(c[i]));
        let j = choose|j: int| 0 <= j < es.len() && es[j] == c[i];
        assert(canonical(es[j].0));
    }
    lemma_pairs_canonical(c);
}

proof fn lemma_pairs_concat(a: Seq<(CborV, CborV)>, b: Seq<(CborV, CborV)>)
    requires
        pairs_canonical(a),
        pairs_canonical(b),
    ensures
        pairs_canonical(a + b),
    decreases b.len(),
{
    if b.len() > 0 {
        lemma_pairs_concat(a, b.drop_last());
        assert((a + b).drop_last() =~= a + b.drop_last());
        assert((a + b).last() == b.last());
    } else {
        assert(a + b =~= a);
    }
}

proof fn lemma_json_any_list(items: Seq<JsonV>)
    ensures
        json_any_list(items).len() == items.len(),
        forall|i: int| 0 <= i < items.len() ==> #[trigger] json_any_list(items)[i] == json_any(items[i]),
    decreases items.len(),
{
    if items.len() > 0 {
        lemma_json_any_list(items.drop_last());
    }
}

proof fn lemma_json_any_members(ms: Seq<(Seq<char>, JsonV)>)
    ensures
        json_any_members(ms).len() == ms.len(),
        forall|i: int|
            0 <= i < ms.len() ==> #[trigger] json_any_members(ms)[i] == (CborV::Text(ms[i].0), json_any(ms[i].1)),
    decreases ms.len(),
{
    if ms.len() > 0 {
        lemma_json_any_members(ms.drop_last());
    }
}

proof fn lemma_json_any_canonical(j: JsonV)
    ensures
        canonical(json_any(j)),
    decreases j,
{
    match j {
        JsonV::Array(items) => {
            lemma_json_any_list(items);
            assert forall|i: int| 0 <= i < json_any_list(items).len() implies #[trigger] canonical(
                json_any_list(items)[i],
            ) by {
                lemma_json_any_canonical(items[i]);
            }
            lemma_list_canonical(json_any_list(items));
        },
        JsonV::Object(ms) => {
            lemma_json_any_members_canonical(ms);
            lemma_pairs_canonical(json_any_members(ms));
            lemma_canon_canonical(json_any_members(ms));
        },
        _ => {},
    }
}

proof fn lemma_json_any_members_canonical(ms: Seq<(Seq<char>, JsonV)>)
    ensures
        pairs_canonical(json_any_members(ms)),
    decreases ms,
{
    if ms.len() > 0 {
        lemma_json_any_members_canonical(ms.drop_last());
        lemma_json_any_canonical(ms.last().1);
        assert(canonical(CborV::Text(ms.last().0)));
        let es = json_any_members(ms);
        assert(es.drop_last() == json_any_members(ms.drop_last()));
    }
}

proof fn lemma_literal_list(items: Seq<Literal>)
    ensures
        literal_list_cbor(items).len() == items.len(),
        forall|i: int| 0 <= i < items.len() ==> #[trigger] literal_list_cbor(items)[i] == literal_cbor(items[i]),
    decreases items.len(),
{
    if items.len() > 0 {
        lemma_literal_list(items.drop_last());
    }
}

proof fn lemma_literal_canonical(lit: Literal)
    ensures
        canonical(literal_cbor(lit)),
    decreases lit,
{
    match lit {
        Literal::Array(items) => {
            lemma_literal_list(items@);
            assert forall|i: int| 0 <= i < literal_list_cbor(items@).len() implies #[trigger] canonical(
                literal_list_cbor(items@)[i],
            ) by {
                lemma_literal_canonical(items@[i]);
            }
            lemma_list_canonical(literal_list_cbor(items@));
        },
        _ => {},
    }
}

/// Encodings are canonical: every map in an encoded value, at any depth,
/// has its entries in canonical key order (by the encodings of the keys).
pub proof fn law_encoding_is_canonical(rules: Seq<Rule>, j: JsonV, t: TypeExpr, fuel: nat)
    ensures
        encode(rules, j, t, fuel) matches Ok(v) ==> canonical(v),
    decreases fuel, 0nat, 0nat,
{
    if fuel > 0 {
        let f = (fuel - 1) as nat;
        match resolve_type(rules, t) {
            TypeExpr::Builtin(name) => {
                lemma_json_any_canonical(j);
            },
            TypeExpr::Literal(lit) => {
                lemma_literal_canonical(lit);
            },
            TypeExpr::Group(g) => {
                lemma_group_canonical(rules, j, g.entries@, f);
            },
            TypeExpr::Tuple(g) => {
                lemma_group_canonical(rules, j, g.entries@, f);
            },
            TypeExpr::Array { element_type, .. } => match j {
                JsonV::Array(items) => {
                    lemma_items_canonical(rules, items, *element_type, f);

                },
                _ => {},
            },
            TypeExpr::MapType { key, value } => match j {
                JsonV::Object(ms) => {
                    lemma_members_canonical(rules, ms, Seq::empty(), *key, *value, f);
                    match encode_members(rules, ms, Seq::empty(), *key, *value, f) {
                        Ok(es) => {
                            lemma_pairs_canonical(es);
                            lemma_canon_canonical(es);
                        },
                        Err(_) => {},
                    }
                },
                _ => {},
            },
            TypeExpr::Choice(arms) => {
                lemma_choice_canonical(rules, j, arms@, f);
            },
            TypeExpr::Constrained { base_type, .. } => {
                law_encoding_is_canonical(rules, j, *base_type, f);
            },
            _ => {},
        }
    }
}

proof fn lemma_group_canonical(rules: Seq<Rule>, j: JsonV, es: Seq<GroupEntry>, f: nat)
    ensures
        encode_group(rules, j, es, f) matches Ok(v) ==> canonical(v),
    decreases f, 2nat, 0nat,
{
    match j {
        JsonV::Object(ms) => {
            lemma_fields_canonical(rules, ms, es, f);
            match encode_fields(rules, ms, es, f) {
                Ok(fields) => match last_catch_all(es) {
                    None => {
                        lemma_pairs_canonical(fields);
                        lemma_canon_canonical(fields);
                    },
                    Some(i) => {
                        let kt = es[i].key->Some_0->Type_0;
                        lemma_members_canonical(rules, ms, field_names(es), kt, es[i].value_type, f);
                        match encode_members(rules, ms, field_names(es), kt, es[i].value_type, f) {
                            Ok(extra) => {
                                lemma_pairs_canonical(fields);
                                lemma_pairs_canonical(extra);
                                let all = fields + extra;
                                lemma_pairs_concat(fields, extra);
                                lemma_pairs_canonical(all);
                                lemma_canon_canonical(all);
                            },
                            Err(_) => {},
                        }
                    },
                },
                Err(_) => {},
            }
        },
        _ => {},
    }
}

proof fn lemma_fields_canonical(rules: Seq<Rule>, ms: Seq<(Seq<char>, JsonV)>, es: Seq<GroupEntry>, f: nat)
    ensures
        encode_fields(rules, ms, es, f) matches Ok(acc) ==> pairs_canonical(acc),
    decreases f, 1nat, es.len(),
{
    if es.len() > 0 {
        lemma_fields_canonical(rules, ms, es.drop_last(), f);
        let e = es.last();
        assert(canonical(CborV::Text(entry_name(e))));
        match member_get(ms, entry_name(e)) {
            Some(v) => {
                law_encoding_is_canonical(rules, v, e.value_type, f);
            },
            None => {},
        }
        match encode_fields(rules, ms, es.drop_last(), f) {
            Ok(acc) => {
                if !is_catch_all(e) {
                    match member_get(ms, entry_name(e)) {
                        Some(v) => match encode(rules, v, e.value_type, f) {
                            Ok(c) => {
                                let r = acc.push((CborV::Text(entry_name(e)), c));
                                assert(r.drop_last() == acc);
                            },
                            Err(_) => {},
                        },
                        None => {},
                    }
                }
            },
            Err(_) => {},
        }
    }
}

proof fn lemma_members_canonical(rules: Seq<Rule>, ms: Seq<(Seq<char>, JsonV)>, skip: Seq<Seq<char>>, kt: TypeExpr, vt: TypeExpr, f: nat)
    ensures
        encode_members(rules, ms, skip, kt, vt, f) matches Ok(acc) ==> pairs_canonical(acc),
    decreases f, 1nat, ms.len(),
{
    if ms.len() > 0 {
        lemma_members_canonical(rules, ms.drop_last(), skip, kt, vt, f);
        let (k, v) = ms.last();
        law_encoding_is_canonical(rules, JsonV::Str(k), kt, f);
        law_encoding_is_canonical(rules, v, vt, f);
        match encode_members(rules, ms.drop_last(), skip, kt, vt, f) {
            Ok(acc) => {
                if !skip.contains(k) {
                    match (encode(rules, JsonV::Str(k), kt, f), encode(rules, v, vt, f)) {
                        (Ok(kc), Ok(vc)) => {
                            let r = acc.push((kc, vc));
                            assert(r.drop_last() == acc);
                        },
                        _ => {},
                    }
                }
            },
            Err(_) => {},
        }
    }
}

proof fn lemma_items_canonical(rules: Seq<Rule>, items: Seq<JsonV>, et: TypeExpr, f: nat)
    ensures
        encode_items(rules, items, et, f) matches Ok(acc) ==> list_canonical(acc),
    decreases f, 1nat, items.len(),
{
    if items.len() > 0 {
        lemma_items_canonical(rules, items.drop_last(), et, f);
        law_encoding_is_canonical(rules, items.last(), et, f);
        match (encode_items(rules, items.drop_last(), et, f), encode(rules, items.last(), et, f)) {
            (Ok(acc), Ok(c)) => {
                let r = acc.push(c);
                assert(r.drop_last() == acc);
            },
            _ => {},
        }
    }
}

proof fn lemma_first_ok_canonical(rules: Seq<Rule>, j: JsonV, arms: Seq<TypeExpr>, f: nat)
    ensures
        first_ok(rules, j, arms, f) matches Ok(c) ==> canonical(c),
    decreases f, 1nat, arms.len(),
{
    if arms.len() > 0 {
        lemma_first_ok_canonical(rules, j, arms.drop_last(), f);
        law_encoding_is_canonical(rules, j, arms.last(), f);
    }
}

proof fn lemma_choice_canonical(rules: Seq<Rule>, j: JsonV, arms: Seq<TypeExpr>, f: nat)
    ensures
        encode_choice(rules, j, arms, f) matches Ok(v) ==> canonical(v),
    decreases f, 2nat, 0nat,
{
    match hinted_arm(j, arms) {
        Some(i) => law_encoding_is_canonical(rules, j, arms[i], f),
        None => lemma_first_ok_canonical(rules, j, arms, f),
    }
}

} // verus!
