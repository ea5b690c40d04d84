//! The value codec: a tag byte, then a payload whose shape the tag fixes.
//!
//! | value   | tag    | payload                                             |
//! |---------|--------|-----------------------------------------------------|
//! | integer | `0x01` | four bytes, little-endian two's complement          |
//! | boolean | `0x02` | one byte, `0x01` for true and `0x00` for false      |
//! | string  | `0x03` | its UTF-8 length in two bytes, little-endian, then the UTF-8 bytes |

use crate::storage::endian::{
    append_le, i32_bits, i32_of_bits, le_bytes, le_value, lemma_i32_bits_round_trip,
    lemma_i32_of_bits_round_trip, lemma_le_bytes_len, lemma_le_bytes_of_value,
    lemma_le_value_bound, lemma_le_value_of_bytes, lemma_radix_values, load_le,
};
use vstd::prelude::*;
use vstd::slice::{slice_subrange, slice_to_vec};
use vstd::string::StringSliceAdditionalSpecFns;
use vstd::utf8::{
    decode_utf8, decode_utf8_encode_utf8, encode_utf8, encode_utf8_decode_utf8,
    encode_utf8_valid_utf8, valid_utf8,
};

verus! {

/// The tag byte of an integer.
pub const TAG_INT: u8 = 0x01;

/// The tag byte of a boolean.
pub const TAG_BOOL: u8 = 0x02;

/// The tag byte of a string.
pub const TAG_STR: u8 = 0x03;

/// The longest string, in UTF-8 bytes, that the length prefix can announce.
pub const MAX_STR_LEN: usize = 65535;

/// A value that a page can store.
#[derive(Debug, PartialEq, Eq)]
pub enum Value {
    Int(i32),
    Bool(bool),
    Str(String),
}

/// What a [`Value`] stands for: a string counts as its characters.
pub enum ValueView {
    Int(i32),
    Bool(bool),
    Str(Seq<char>),
}

impl View for Value {
    type V = ValueView;

    open spec fn view(&self) -> ValueView {
        match self {
            Value::Int(i) => ValueView::Int(*i),
            Value::Bool(b) => ValueView::Bool(*b),
            Value::Str(s) => ValueView::Str(s@),
        }
    }
}

impl Clone for Value {
    fn clone(&self) -> (copy: Self)
        ensures
            copy@ == self@,
    {
        match self {
            Value::Int(i) => Value::Int(*i),
            Value::Bool(b) => Value::Bool(*b),
            Value::Str(s) => Value::Str(s.clone()),
        }
    }
}

/// Why a value has no encoding.
#[derive(Debug, Clone, Copy, PartialEq, Eq)]
pub enum EncodeError {
    /// The string takes more than 65535 bytes of UTF-8.
    StringTooLong,
}

impl EncodeError {
    /// A sentence for the person who reads the error.
    pub fn message(&self) -> (text: &'static str)
        ensures
            text@ == "String too long"@,
    {
        "String too long"
    }
}

/// Whether `value` has an encoding: every integer and boolean has one, a
/// string if its UTF-8 form fits the two-byte length prefix.
pub open spec fn encodable(value: ValueView) -> bool {
    match value {
        ValueView::Str(chars) => encode_utf8(chars).len() <= MAX_STR_LEN,
        _ => true,
    }
}

/// The encoding of `value`.
pub open spec fn encode_value(value: ValueView) -> Seq<u8> {
    match value {
        ValueView::Int(i) => seq![TAG_INT] + le_bytes(i32_bits(i), 4),
        ValueView::Bool(b) => seq![
            TAG_BOOL,
            if b {
                1u8
            } else {
                0u8
            },
        ],
        ValueView::Str(chars) => seq![TAG_STR] + le_bytes(encode_utf8(chars).len(), 2)
            + encode_utf8(chars),
    }
}

/// The value that `bytes` begin with and the number of bytes it takes, or
/// `None` where they begin with none: no byte at all, an unknown tag, a
/// payload cut short, or a string payload that is not UTF-8. Bytes after the
/// value play no part.
pub open spec fn decode_value(bytes: Seq<u8>) -> Option<(ValueView, nat)> {
    if bytes.len() == 0 {
        None
    } else if bytes[0] == TAG_INT {
        if bytes.len() < 5 {
            None
        } else {
            Some((ValueView::Int(i32_of_bits(le_value(bytes.subrange(1, 5)))), 5))
        }
    } else if bytes[0] == TAG_BOOL {
        if bytes.len() < 2 {
            None
        } else {
            Some((ValueView::Bool(bytes[1] != 0), 2))
        }
    } else if bytes[0] == TAG_STR {
        if bytes.len() < 3 {
            None
        } else {
            let total = 3 + le_value(bytes.subrange(1, 3));
            if bytes.len() < total {
                None
            } else if !valid_utf8(bytes.subrange(3, total as int)) {
                None
            } else {
                Some((ValueView::Str(decode_utf8(bytes.subrange(3, total as int))), total))
            }
        }
    } else {
        None
    }
}

/// An encoding is never empty and never longer than the longest string's.
pub proof fn lemma_encode_value_len(value: ValueView)
    requires
        encodable(value),
    ensures
        2 <= encode_value(value).len() <= 3 + MAX_STR_LEN,
        value is Int ==> encode_value(value).len() == 5,
        value is Bool ==> encode_value(value).len() == 2,
        value matches ValueView::Str(chars) ==> encode_value(value).len() == 3 + encode_utf8(
            chars,
        ).len(),
{
    match value {
        ValueView::Int(i) => {
            lemma_le_bytes_len(i32_bits(i), 4);
        },
        ValueView::Bool(b) => {},
        ValueView::Str(chars) => {
            lemma_le_bytes_len(encode_utf8(chars).len(), 2);
        },
    }
}

/// Decoding an encoding gives the value back, with the encoding's length as
/// the number of bytes taken, whatever bytes follow it.
pub proof fn lemma_decode_encode(value: ValueView, rest: Seq<u8>)
    requires
        encodable(value),
    ensures
        decode_value(encode_value(value)) == Some((value, encode_value(value).len())),
        decode_value(encode_value(value) + rest) == Some((value, encode_value(value).len())),
    decreases rest.len(),
{
    if rest.len() > 0 {
        lemma_decode_encode(value, Seq::empty());
    } else {
        assert(encode_value(value) + rest =~= encode_value(value));
    }
    let bytes = encode_value(value) + rest;
    lemma_encode_value_len(value);
    lemma_radix_values();
    match value {
        ValueView::Int(i) => {
            let digits = le_bytes(i32_bits(i), 4);
            lemma_le_bytes_len(i32_bits(i), 4);
            lemma_i32_bits_round_trip(i);
            lemma_le_value_of_bytes(i32_bits(i), 4);
            assert(bytes.subrange(1, 5) =~= digits);
        },
        ValueView::Bool(b) => {},
        ValueView::Str(chars) => {
            let payload = encode_utf8(chars);
            let digits = le_bytes(payload.len(), 2);
            lemma_le_bytes_len(payload.len(), 2);
            lemma_le_value_of_bytes(payload.len(), 2);
            assert(bytes.subrange(1, 3) =~= digits);
            assert(bytes.subrange(3, 3 + payload.len() as int) =~= payload);
            encode_utf8_valid_utf8(chars);
            encode_utf8_decode_utf8(chars);
        },
    }
}

/// Decoding takes at least two bytes and no more than there are, and looks
/// at the bytes that it takes alone: with other bytes behind them it gives
/// the same value and the same length.
pub proof fn lemma_decode_ignores_rest(bytes: Seq<u8>, other: Seq<u8>)
    requires
        decode_value(bytes) is Some,
    ensures
        2 <= decode_value(bytes).unwrap().1 <= bytes.len(),
        decode_value(bytes.subrange(0, decode_value(bytes).unwrap().1 as int) + other)
            == decode_value(bytes),
{
    let taken = decode_value(bytes).unwrap().1 as int;
    let cut = bytes.subrange(0, taken) + other;
    if bytes[0] == TAG_INT {
        assert(cut.subrange(1, 5) =~= bytes.subrange(1, 5));
    } else if bytes[0] == TAG_BOOL {
    } else {
        assert(cut.subrange(1, 3) =~= bytes.subrange(1, 3));
        assert(cut.subrange(3, taken) =~= bytes.subrange(3, taken));
    }
}

/// A value that decodes has an encoding of the length that was taken, and
/// that encoding is the bytes it was decoded from, but for a boolean that was
/// stored as a byte other than zero and one.
pub proof fn lemma_encode_decode(bytes: Seq<u8>)
    requires
        decode_value(bytes) is Some,
    ensures
        encodable(decode_value(bytes).unwrap().0),
        encode_value(decode_value(bytes).unwrap().0).len() == decode_value(bytes).unwrap().1,
        bytes[0] != TAG_BOOL || bytes[1] <= 1 ==> encode_value(decode_value(bytes).unwrap().0)
            == bytes.subrange(0, decode_value(bytes).unwrap().1 as int),
{
    let (value, taken) = decode_value(bytes).unwrap();
    lemma_radix_values();
    if bytes[0] == TAG_INT {
        let digits = bytes.subrange(1, 5);
        lemma_le_value_bound(digits);
        lemma_i32_of_bits_round_trip(le_value(digits));
        lemma_le_bytes_of_value(digits);
        assert(encode_value(value) =~= bytes.subrange(0, 5));
    } else if bytes[0] == TAG_BOOL {
        if bytes[1] <= 1 {
            assert(encode_value(value) =~= bytes.subrange(0, 2));
        }
    } else {
        let digits = bytes.subrange(1, 3);
        let payload = bytes.subrange(3, taken as int);
        lemma_le_value_bound(digits);
        lemma_le_bytes_of_value(digits);
        decode_utf8_encode_utf8(payload);
        assert(encode_value(value) =~= bytes.subrange(0, taken as int));
    }
}

/// Calls `String::from_utf8` of std. Taken on trust, not proved: the call
/// succeeds on exactly the byte strings that are well-formed UTF-8, and the
/// string that it gives then has those bytes as its UTF-8 form.
#[verifier::external_body]
fn string_from_utf8(bytes: Vec<u8>) -> (text: Option<String>)
    ensures
        text is Some <==> valid_utf8(bytes@),
        text matches Some(s) ==> encode_utf8(s@) == bytes@,
{
    match String::from_utf8(bytes) {
        Ok(s) => Some(s),
        Err(_) => None,
    }
}

/// Encodes `val`. Fails on a string whose UTF-8 form is longer than 65535
/// bytes, and on nothing else.
pub fn serialize_value(val: &Value) -> (encoded: Result<Vec<u8>, EncodeError>)
    ensures
        encoded is Ok <==> encodable(val@),
        encoded matches Ok(bytes) ==> bytes@ == encode_value(val@),
        encoded matches Ok(bytes) ==> decode_value(bytes@) == Some((val@, bytes@.len())),
{
    proof {
        if encodable(val@) {
            lemma_decode_encode(val@, Seq::empty());
        }
    }
    match val {
        Value::Int(i) => {
            let bits: u64 = if *i >= 0 {
                *i as u64
            } else {
                (*i as i64 + 0x1_0000_0000) as u64
            };
            let mut out: Vec<u8> = Vec::new();
            out.push(TAG_INT);
            append_le(&mut out, bits, 4);
            assert(out@ =~= encode_value(val@));
            Ok(out)
        },
        Value::Bool(b) => {
            let mut out: Vec<u8> = Vec::new();
            out.push(TAG_BOOL);
            out.push(
                if *b {
                    1
                } else {
                    0
                },
            );
            assert(out@ =~= encode_value(val@));
            Ok(out)
        },
        Value::Str(s) => {
            let payload: &[u8] = s.as_str().as_bytes();
            let len: usize = payload.len();
            if len > MAX_STR_LEN {
                return Err(EncodeError::StringTooLong);
            }
            let mut out: Vec<u8> = Vec::new();
            out.push(TAG_STR);
            append_le(&mut out, len as u64, 2);
            out.extend_from_slice(payload);
            assert(out@ =~= encode_value(val@)) by {
                lemma_le_bytes_len(len as nat, 2);
            }
            Ok(out)
        },
    }
}

/// Decodes the value that `data` begins with and says how many bytes it
/// takes. Bytes behind the value are neither read nor counted.
pub fn deserialize_value(data: &[u8]) -> (decoded: Option<(Value, usize)>)
    ensures
        decoded is Some <==> decode_value(data@) is Some,
        decoded matches Some((value, taken)) ==> decode_value(data@) == Some(
            (value@, taken as nat),
        ) && 2 <= taken <= data@.len(),
{
    let len: usize = data.len();
    if len == 0 {
        return None;
    }
    let tag: u8 = data[0];
    if tag == TAG_INT {
        if len < 5 {
            return None;
        }
        let bits: u64 = load_le(data, 1, 4);
        proof {
            lemma_radix_values();
        }
        let number: i32 = if bits < 0x8000_0000 {
            bits as i32
        } else {
            (bits as i64 - 0x1_0000_0000) as i32
        };
        Some((Value::Int(number), 5))
    } else if tag == TAG_BOOL {
        if len < 2 {
            return None;
        }
        Some((Value::Bool(data[1] != 0), 2))
    } else if tag == TAG_STR {
        if len < 3 {
            return None;
        }
        let announced: u64 = load_le(data, 1, 2);
        proof {
            lemma_radix_values();
        }
        let total: usize = 3 + announced as usize;
        if len < total {
            return None;
        }
        let payload: Vec<u8> = slice_to_vec(slice_subrange(data, 3, total));
        match string_from_utf8(payload) {
            Some(text) => {
                proof {
                    encode_utf8_decode_utf8(text@);
                }
                Some((Value::Str(text), total))
            },
            None => None,
        }
    } else {
        None
    }
}

} // verus!
