//! Binary codec: converts IR values to and from MessagePack bytes using
//! the externally tagged union scheme, where each variant is a one-entry
//! map from the variant's name to its payload (a unit variant is the bare
//! name string).
//!
//! The byte format is stated directly as functions on byte sequences, the
//! encoder and decoder are proved against those statements, and the
//! decoder accepts exactly the canonical form the encoder emits: minimal
//! headers, struct fields in declaration order. Unlike the text codec,
//! binary and extension payloads travel as raw bytes, and map entries are
//! explicit key/value pairs, so duplicate keys and entry order survive in
//! both directions.

use vstd::prelude::*;
use vstd::string::StringSliceAdditionalSpecFns;
use vstd::utf8::*;

use crate::ir::{
    entries_view, elems_view, lemma_elems_view, lemma_entries_view, lemma_vals_view, vals_view,
    IrBundle, IrBundleElement, IrBundleS, IrElemS, IrTimestamp, IrTimetag, IrValS, IrValue,
};
use crate::strings::{str_eq, utf8_to_string};

verus! {

/// Why encoding can fail: a string, byte payload, or container too large
/// for a 32-bit length header.
#[derive(Clone, Copy, Debug, PartialEq, Eq, Structural)]
pub enum EncodeError {
    TooLarge,
}

/// Why decoding can fail: the input ended too soon, named a variant this
/// model does not know, or broke the canonical grammar anywhere else.
#[derive(Clone, Copy, Debug, PartialEq, Eq, Structural)]
pub enum DecodeError {
    Truncated,
    UnknownTag,
    Malformed,
}

/// The result of a fallible encode.
pub type EncodeResult<T> = Result<T, EncodeError>;

/// The result of a fallible decode.
pub type DecodeResult<T> = Result<T, DecodeError>;

/// A 16-bit value as big-endian bytes.
pub open spec fn be16(v: u16) -> Seq<u8> {
    seq![(v >> 8) as u8, v as u8]
}

/// A 32-bit value as big-endian bytes.
pub open spec fn be32(v: u32) -> Seq<u8> {
    seq![(v >> 24) as u8, (v >> 16) as u8, (v >> 8) as u8, v as u8]
}

/// A 64-bit value as big-endian bytes.
pub open spec fn be64(v: u64) -> Seq<u8> {
    seq![
        (v >> 56) as u8,
        (v >> 48) as u8,
        (v >> 40) as u8,
        (v >> 32) as u8,
        (v >> 24) as u8,
        (v >> 16) as u8,
        (v >> 8) as u8,
        v as u8,
    ]
}

/// An unsigned integer in its shortest MessagePack form.
pub open spec fn enc_u64(u: u64) -> Seq<u8> {
    if u < 0x80 {
        seq![u as u8]
    } else if u < 0x100 {
        seq![0xccu8, u as u8]
    } else if u < 0x1_0000 {
        seq![0xcdu8] + be16(u as u16)
    } else if u < 0x1_0000_0000 {
        seq![0xceu8] + be32(u as u32)
    } else {
        seq![0xcfu8] + be64(u)
    }
}

/// A signed integer in its shortest MessagePack form; a non-negative
/// value uses the unsigned forms.
pub open spec fn enc_i64(i: i64) -> Seq<u8> {
    if i >= 0 {
        enc_u64(i as u64)
    } else if i >= -32 {
        seq![i as u8]
    } else if i >= -128 {
        seq![0xd0u8, i as u8]
    } else if i >= -0x8000 {
        seq![0xd1u8] + be16(i as u16)
    } else if i >= -0x8000_0000 {
        seq![0xd2u8] + be32(i as u32)
    } else {
        seq![0xd3u8] + be64(i as u64)
    }
}

/// The shortest string header for a byte length below 2^32.
pub open spec fn str_hdr(n: nat) -> Seq<u8> {
    if n < 32 {
        seq![(0xa0 + n) as u8]
    } else if n < 0x100 {
        seq![0xd9u8, n as u8]
    } else if n < 0x1_0000 {
        seq![0xdau8] + be16(n as u16)
    } else if n < 0x1_0000_0000 {
        seq![0xdbu8] + be32(n as u32)
    } else {
        Seq::empty()
    }
}

/// A string: header plus UTF-8 bytes.
pub open spec fn enc_str(s: Seq<char>) -> Seq<u8> {
    str_hdr(encode_utf8(s).len()) + encode_utf8(s)
}

/// The shortest raw-bytes header for a length below 2^32.
pub open spec fn bin_hdr(n: nat) -> Seq<u8> {
    if n < 0x100 {
        seq![0xc4u8, n as u8]
    } else if n < 0x1_0000 {
        seq![0xc5u8] + be16(n as u16)
    } else if n < 0x1_0000_0000 {
        seq![0xc6u8] + be32(n as u32)
    } else {
        Seq::empty()
    }
}

/// A raw byte payload: header plus the bytes themselves.
pub open spec fn enc_bin(b: Seq<u8>) -> Seq<u8> {
    bin_hdr(b.len()) + b
}

/// The shortest array header for a count below 2^32.
pub open spec fn arr_hdr(n: nat) -> Seq<u8> {
    if n < 16 {
        seq![(0x90 + n) as u8]
    } else if n < 0x1_0000 {
        seq![0xdcu8] + be16(n as u16)
    } else if n < 0x1_0000_0000 {
        seq![0xddu8] + be32(n as u32)
    } else {
        Seq::empty()
    }
}

/// The binary encoding of a value.
pub open spec fn enc_val(v: IrValS) -> Seq<u8>
    decreases v, 0int,
{
    match v {
        IrValS::Null => enc_str("Null"@),
        IrValS::Bool(b) => seq![0x81u8] + enc_str("Bool"@) + (if b {
            seq![0xc3u8]
        } else {
            seq![0xc2u8]
        }),
        IrValS::Integer(i) => seq![0x81u8] + enc_str("Integer"@) + enc_i64(i),
        IrValS::Float(bits) => seq![0x81u8] + enc_str("Float"@) + seq![0xcbu8] + be64(bits),
        IrValS::Str(s) => seq![0x81u8] + enc_str("String"@) + enc_str(s),
        IrValS::Binary(b) => seq![0x81u8] + enc_str("Binary"@) + enc_bin(b),
        IrValS::Array(xs) => seq![0x81u8] + enc_str("Array"@) + arr_hdr(xs.len()) + enc_vals(xs),
        IrValS::Mapping(es) => seq![0x81u8] + enc_str("Map"@) + arr_hdr(es.len()) + enc_entries(
            es,
        ),
        IrValS::Timestamp(sec, ns) => seq![0x81u8] + enc_str("Timestamp"@) + seq![0x82u8]
            + enc_str("seconds"@) + enc_i64(sec) + enc_str("nanos"@) + enc_u64(ns as u64),
        IrValS::Ext(id, data) => seq![0x81u8] + enc_str("Ext"@) + seq![0x82u8] + enc_str(
            "type_id"@,
        ) + enc_i64(id as i64) + enc_str("data"@) + enc_bin(data),
        IrValS::Bundle(b) => seq![0x81u8] + enc_str("Bundle"@) + enc_bundle(b),
    }
}

/// The binary encoding of a bundle's body: a two-entry map holding the
/// timetag (itself a one-field struct) and the element list.
pub open spec fn enc_bundle(b: IrBundleS) -> Seq<u8>
    decreases b, 2int,
    via enc_bundle_dec
{
    seq![0x82u8] + enc_str("timetag"@) + seq![0x81u8] + enc_str("value"@) + enc_u64(b.timetag)
        + enc_str("elements"@) + arr_hdr(b.elements.len()) + enc_elems(b.elements)
}

#[via_fn]
proof fn enc_bundle_dec(b: IrBundleS) {
    assert(decreases_to!(b => b.elements));
}

/// The concatenated encodings of a list of values.
pub open spec fn enc_vals(s: Seq<IrValS>) -> Seq<u8>
    decreases s, 1int,
{
    if s.len() == 0 {
        Seq::empty()
    } else {
        enc_val(s[0]) + enc_vals(s.subrange(1, s.len() as int))
    }
}

/// The concatenated encodings of map entries, each a two-element array of
/// key string and value.
pub open spec fn enc_entries(s: Seq<(Seq<char>, IrValS)>) -> Seq<u8>
    decreases s, 1int,
    via enc_entries_dec
{
    if s.len() == 0 {
        Seq::empty()
    } else {
        seq![0x92u8] + enc_str(s[0].0) + enc_val(s[0].1) + enc_entries(
            s.subrange(1, s.len() as int),
        )
    }
}

#[via_fn]
proof fn enc_entries_dec(s: Seq<(Seq<char>, IrValS)>) {
    if s.len() > 0 {
        assert(decreases_to!(s => s[0]));
        assert(decreases_to!(s[0] => s[0].1));
    }
}

/// The concatenated encodings of bundle elements.
pub open spec fn enc_elems(s: Seq<IrElemS>) -> Seq<u8>
    decreases s, 1int,
{
    if s.len() == 0 {
        Seq::empty()
    } else {
        enc_elem(s[0]) + enc_elems(s.subrange(1, s.len() as int))
    }
}

/// The encoding of one bundle element: a one-entry map naming its kind.
pub open spec fn enc_elem(e: IrElemS) -> Seq<u8>
    decreases e, 3int,
{
    match e {
        IrElemS::Message(m) => seq![0x81u8] + enc_str("Message"@) + enc_val(m),
        IrElemS::Bundle(b) => seq![0x81u8] + enc_str("Bundle"@) + enc_bundle(b),
    }
}

/// Whether a value fits the format's 32-bit length headers: every string
/// (in UTF-8 bytes), byte payload, and container must stay below 2^32
/// entries.
pub open spec fn msgpack_encodable(v: IrValS) -> bool
    decreases v, 0int,
{
    match v {
        IrValS::Str(s) => encode_utf8(s).len() < 0x1_0000_0000,
        IrValS::Binary(b) => b.len() < 0x1_0000_0000,
        IrValS::Array(xs) => xs.len() < 0x1_0000_0000 && msgpack_encodable_vals(xs),
        IrValS::Mapping(es) => es.len() < 0x1_0000_0000 && msgpack_encodable_entries(es),
        IrValS::Ext(_, data) => data.len() < 0x1_0000_0000,
        IrValS::Bundle(b) => b.elements.len() < 0x1_0000_0000 && msgpack_encodable_elems(
            b.elements,
        ),
        _ => true,
    }
}

/// Every value in a list fits the length headers.
pub open spec fn msgpack_encodable_vals(s: Seq<IrValS>) -> bool
    decreases s, 1int,
{
    if s.len() == 0 {
        true
    } else {
        msgpack_encodable(s[0]) && msgpack_encodable_vals(s.subrange(1, s.len() as int))
    }
}

/// Every entry in a list fits the length headers, keys included.
pub open spec fn msgpack_encodable_entries(s: Seq<(Seq<char>, IrValS)>) -> bool
    decreases s, 1int,
    via msgpack_encodable_entries_dec
{
    if s.len() == 0 {
        true
    } else {
        encode_utf8(s[0].0).len() < 0x1_0000_0000 && msgpack_encodable(s[0].1)
            && msgpack_encodable_entries(s.subrange(1, s.len() as int))
    }
}

#[via_fn]
proof fn msgpack_encodable_entries_dec(s: Seq<(Seq<char>, IrValS)>) {
    if s.len() > 0 {
        assert(decreases_to!(s => s[0]));
        assert(decreases_to!(s[0] => s[0].1));
    }
}

/// Every element of a bundle fits the length headers.
pub open spec fn msgpack_encodable_elems(s: Seq<IrElemS>) -> bool
    decreases s, 1int,
{
    if s.len() == 0 {
        true
    } else {
        msgpack_encodable_elem(s[0]) && msgpack_encodable_elems(s.subrange(1, s.len() as int))
    }
}

/// A bundle element fits the length headers when its payload does.
pub open spec fn msgpack_encodable_elem(e: IrElemS) -> bool
    decreases e, 2int,
    via msgpack_encodable_elem_dec
{
    match e {
        IrElemS::Message(m) => msgpack_encodable(m),
        IrElemS::Bundle(b) => b.elements.len() < 0x1_0000_0000 && msgpack_encodable_elems(
            b.elements,
        ),
    }
}

#[via_fn]
proof fn msgpack_encodable_elem_dec(e: IrElemS) {
    match e {
        IrElemS::Bundle(b) => {
            assert(decreases_to!(e => b));
            assert(decreases_to!(b => b.elements));
        },
        _ => {},
    }
}

/// The full binary encoding of a value.
pub open spec fn msgpack_encode_spec(v: IrValS) -> Seq<u8> {
    enc_val(v)
}

/// Two bytes read big-endian.
pub open spec fn rd2(s: Seq<u8>, i: int) -> int {
    s[i] * 0x100 + s[i + 1]
}

/// Four bytes read big-endian.
pub open spec fn rd4(s: Seq<u8>, i: int) -> int {
    s[i] * 0x100_0000 + s[i + 1] * 0x1_0000 + s[i + 2] * 0x100 + s[i + 3]
}

/// Eight bytes read big-endian.
pub open spec fn rd8(s: Seq<u8>, i: int) -> int {
    rd4(s, i) * 0x1_0000_0000 + rd4(s, i + 4)
}

/// Parses a canonical unsigned integer at a position; yields the value
/// and the next position.
pub open spec fn dec_u64_at(s: Seq<u8>, i: int) -> Result<(u64, int), DecodeError> {
    if i >= s.len() {
        Err(DecodeError::Truncated)
    } else {
        let m = s[i];
        if m < 0x80 {
            Ok((m as u64, i + 1))
        } else if m == 0xcc {
            if i + 2 > s.len() {
                Err(DecodeError::Truncated)
            } else if s[i + 1] >= 0x80 {
                Ok((s[i + 1] as u64, i + 2))
            } else {
                Err(DecodeError::Malformed)
            }
        } else if m == 0xcd {
            if i + 3 > s.len() {
                Err(DecodeError::Truncated)
            } else if rd2(s, i + 1) >= 0x100 {
                Ok((rd2(s, i + 1) as u64, i + 3))
            } else {
                Err(DecodeError::Malformed)
            }
        } else if m == 0xce {
            if i + 5 > s.len() {
                Err(DecodeError::Truncated)
            } else if rd4(s, i + 1) >= 0x1_0000 {
                Ok((rd4(s, i + 1) as u64, i + 5))
            } else {
                Err(DecodeError::Malformed)
            }
        } else if m == 0xcf {
            if i + 9 > s.len() {
                Err(DecodeError::Truncated)
            } else if rd8(s, i + 1) >= 0x1_0000_0000 {
                Ok((rd8(s, i + 1) as u64, i + 9))
            } else {
                Err(DecodeError::Malformed)
            }
        } else {
            Err(DecodeError::Malformed)
        }
    }
}

/// Parses a canonical signed integer at a position; a non-negative value
/// must use the unsigned forms, a negative one the shortest signed form.
pub open spec fn dec_i64_at(s: Seq<u8>, i: int) -> Result<(i64, int), DecodeError> {
    if i >= s.len() {
        Err(DecodeError::Truncated)
    } else {
        let m = s[i];
        if m < 0x80 {
            Ok((m as i64, i + 1))
        } else if m >= 0xe0 {
            Ok(((m - 0x100) as i64, i + 1))
        } else if m == 0xcc {
            if i + 2 > s.len() {
                Err(DecodeError::Truncated)
            } else if s[i + 1] >= 0x80 {
                Ok((s[i + 1] as i64, i + 2))
            } else {
                Err(DecodeError::Malformed)
            }
        } else if m == 0xcd {
            if i + 3 > s.len() {
                Err(DecodeError::Truncated)
            } else if rd2(s, i + 1) >= 0x100 {
                Ok((rd2(s, i + 1) as i64, i + 3))
            } else {
                Err(DecodeError::Malformed)
            }
        } else if m == 0xce {
            if i + 5 > s.len() {
                Err(DecodeError::Truncated)
            } else if rd4(s, i + 1) >= 0x1_0000 {
                Ok((rd4(s, i + 1) as i64, i + 5))
            } else {
                Err(DecodeError::Malformed)
            }
        } else if m == 0xcf {
            if i + 9 > s.len() {
                Err(DecodeError::Truncated)
            } else if rd8(s, i + 1) >= 0x1_0000_0000 && rd8(s, i + 1) <= 0x7FFF_FFFF_FFFF_FFFF {
                Ok((rd8(s, i + 1) as i64, i + 9))
            } else {
                Err(DecodeError::Malformed)
            }
        } else if m == 0xd0 {
            if i + 2 > s.len() {
                Err(DecodeError::Truncated)
            } else if s[i + 1] >= 0x80 && s[i + 1] < 0xe0 {
                Ok(((s[i + 1] - 0x100) as i64, i + 2))
            } else {
                Err(DecodeError::Malformed)
            }
        } else if m == 0xd1 {
            if i + 3 > s.len() {
                Err(DecodeError::Truncated)
            } else if rd2(s, i + 1) >= 0x8000 && rd2(s, i + 1) - 0x1_0000 < -128 {
                Ok(((rd2(s, i + 1) - 0x1_0000) as i64, i + 3))
            } else {
                Err(DecodeError::Malformed)
            }
        } else if m == 0xd2 {
            if i + 5 > s.len() {
                Err(DecodeError::Truncated)
            } else if rd4(s, i + 1) >= 0x8000_0000 && rd4(s, i + 1) - 0x1_0000_0000 < -0x8000 {
                Ok(((rd4(s, i + 1) - 0x1_0000_0000) as i64, i + 5))
            } else {
                Err(DecodeError::Malformed)
            }
        } else if m == 0xd3 {
            if i + 9 > s.len() {
                Err(DecodeError::Truncated)
            } else if rd8(s, i + 1) >= 0x8000_0000_0000_0000 && rd8(s, i + 1)
                - 0x1_0000_0000_0000_0000 < -0x8000_0000 {
                Ok(((rd8(s, i + 1) - 0x1_0000_0000_0000_0000) as i64, i + 9))
            } else {
                Err(DecodeError::Malformed)
            }
        } else {
            Err(DecodeError::Malformed)
        }
    }
}

/// Parses a double's bit pattern at a position.
pub open spec fn dec_f64_at(s: Seq<u8>, i: int) -> Result<(u64, int), DecodeError> {
    if i >= s.len() {
        Err(DecodeError::Truncated)
    } else if s[i] != 0xcb {
        Err(DecodeError::Malformed)
    } else if i + 9 > s.len() {
        Err(DecodeError::Truncated)
    } else {
        Ok((rd8(s, i + 1) as u64, i + 9))
    }
}

/// Parses a canonical string length header.
pub open spec fn dec_strlen_at(s: Seq<u8>, i: int) -> Result<(int, int), DecodeError> {
    if i >= s.len() {
        Err(DecodeError::Truncated)
    } else {
        let m = s[i];
        if 0xa0 <= m && m <= 0xbf {
            Ok(((m - 0xa0) as int, i + 1))
        } else if m == 0xd9 {
            if i + 2 > s.len() {
                Err(DecodeError::Truncated)
            } else if s[i + 1] >= 32 {
                Ok((s[i + 1] as int, i + 2))
            } else {
                Err(DecodeError::Malformed)
            }
        } else if m == 0xda {
            if i + 3 > s.len() {
                Err(DecodeError::Truncated)
            } else if rd2(s, i + 1) >= 0x100 {
                Ok((rd2(s, i + 1), i + 3))
            } else {
                Err(DecodeError::Malformed)
            }
        } else if m == 0xdb {
            if i + 5 > s.len() {
                Err(DecodeError::Truncated)
            } else if rd4(s, i + 1) >= 0x1_0000 {
                Ok((rd4(s, i + 1), i + 5))
            } else {
                Err(DecodeError::Malformed)
            }
        } else {
            Err(DecodeError::Malformed)
        }
    }
}

/// Parses a canonical string at a position: length header, then that many
/// UTF-8 bytes.
pub open spec fn dec_str_at(s: Seq<u8>, i: int) -> Result<(Seq<char>, int), DecodeError> {
    match dec_strlen_at(s, i) {
        Ok((n, j)) => if j + n > s.len() {
            Err(DecodeError::Truncated)
        } else if valid_utf8(s.subrange(j, j + n)) {
            Ok((decode_utf8(s.subrange(j, j + n)), j + n))
        } else {
            Err(DecodeError::Malformed)
        },
        Err(e) => Err(e),
    }
}

/// Parses a canonical raw-bytes payload at a position.
pub open spec fn dec_bin_at(s: Seq<u8>, i: int) -> Result<(Seq<u8>, int), DecodeError> {
    if i >= s.len() {
        Err(DecodeError::Truncated)
    } else {
        let m = s[i];
        if m == 0xc4 {
            if i + 2 > s.len() {
                Err(DecodeError::Truncated)
            } else if i + 2 + s[i + 1] > s.len() {
                Err(DecodeError::Truncated)
            } else {
                Ok((s.subrange(i + 2, i + 2 + s[i + 1]), i + 2 + s[i + 1]))
            }
        } else if m == 0xc5 {
            if i + 3 > s.len() {
                Err(DecodeError::Truncated)
            } else if rd2(s, i + 1) < 0x100 {
                Err(DecodeError::Malformed)
            } else if i + 3 + rd2(s, i + 1) > s.len() {
                Err(DecodeError::Truncated)
            } else {
                Ok((s.subrange(i + 3, i + 3 + rd2(s, i + 1)), i + 3 + rd2(s, i + 1)))
            }
        } else if m == 0xc6 {
            if i + 5 > s.len() {
                Err(DecodeError::Truncated)
            } else if rd4(s, i + 1) < 0x1_0000 {
                Err(DecodeError::Malformed)
            } else if i + 5 + rd4(s, i + 1) > s.len() {
                Err(DecodeError::Truncated)
            } else {
                Ok((s.subrange(i + 5, i + 5 + rd4(s, i + 1)), i + 5 + rd4(s, i + 1)))
            }
        } else {
            Err(DecodeError::Malformed)
        }
    }
}

/// Parses a canonical array count header.
pub open spec fn dec_arrlen_at(s: Seq<u8>, i: int) -> Result<(int, int), DecodeError> {
    if i >= s.len() {
        Err(DecodeError::Truncated)
    } else {
        let m = s[i];
        if 0x90 <= m && m <= 0x9f {
            Ok(((m - 0x90) as int, i + 1))
        } else if m == 0xdc {
            if i + 3 > s.len() {
                Err(DecodeError::Truncated)
            } else if rd2(s, i + 1) >= 16 {
                Ok((rd2(s, i + 1), i + 3))
            } else {
                Err(DecodeError::Malformed)
            }
        } else if m == 0xdd {
            if i + 5 > s.len() {
                Err(DecodeError::Truncated)
            } else if rd4(s, i + 1) >= 0x1_0000 {
                Ok((rd4(s, i + 1), i + 5))
            } else {
                Err(DecodeError::Malformed)
            }
        } else {
            Err(DecodeError::Malformed)
        }
    }
}

/// Parses one value at a position: a bare string names a unit variant, a
/// one-entry map names any other variant and carries its payload.
pub open spec fn dec_val(s: Seq<u8>, i: int) -> Result<(IrValS, int), DecodeError>
    decreases s.len() - i, 0int,
{
    if i >= s.len() {
        Err(DecodeError::Truncated)
    } else {
        let m = s[i];
        if (0xa0 <= m && m <= 0xbf) || m == 0xd9 || m == 0xda || m == 0xdb {
            match dec_str_at(s, i) {
                Ok((name, j)) => if name == "Null"@ {
                    Ok((IrValS::Null, j))
                } else {
                    Err(DecodeError::UnknownTag)
                },
                Err(e) => Err(e),
            }
        } else if m == 0x81 {
            match dec_str_at(s, i + 1) {
                Ok((name, j)) => if name == "Bool"@ {
                    if j >= s.len() {
                        Err(DecodeError::Truncated)
                    } else if s[j] == 0xc2 {
                        Ok((IrValS::Bool(false), j + 1))
                    } else if s[j] == 0xc3 {
                        Ok((IrValS::Bool(true), j + 1))
                    } else {
                        Err(DecodeError::Malformed)
                    }
                } else if name == "Integer"@ {
                    match dec_i64_at(s, j) {
                        Ok((v, j2)) => Ok((IrValS::Integer(v), j2)),
                        Err(e) => Err(e),
                    }
                } else if name == "Float"@ {
                    match dec_f64_at(s, j) {
                        Ok((bits, j2)) => Ok((IrValS::Float(bits), j2)),
                        Err(e) => Err(e),
                    }
                } else if name == "String"@ {
                    match dec_str_at(s, j) {
                        Ok((t, j2)) => Ok((IrValS::Str(t), j2)),
                        Err(e) => Err(e),
                    }
                } else if name == "Binary"@ {
                    match dec_bin_at(s, j) {
                        Ok((b, j2)) => Ok((IrValS::Binary(b), j2)),
                        Err(e) => Err(e),
                    }
                } else if name == "Array"@ {
                    match dec_arrlen_at(s, j) {
                        Ok((n, j2)) => match dec_vals(s, j2, n) {
                            Ok((vs, j3)) => Ok((IrValS::Array(vs), j3)),
                            Err(e) => Err(e),
                        },
                        Err(e) => Err(e),
                    }
                } else if name == "Map"@ {
                    match dec_arrlen_at(s, j) {
                        Ok((n, j2)) => match dec_entries(s, j2, n) {
                            Ok((es, j3)) => Ok((IrValS::Mapping(es), j3)),
                            Err(e) => Err(e),
                        },
                        Err(e) => Err(e),
                    }
                } else if name == "Timestamp"@ {
                    match dec_ts_body(s, j) {
                        Ok(((sec, ns), j2)) => Ok((IrValS::Timestamp(sec, ns), j2)),
                        Err(e) => Err(e),
                    }
                } else if name == "Ext"@ {
                    match dec_ext_body(s, j) {
                        Ok(((id, d), j2)) => Ok((IrValS::Ext(id, d), j2)),
                        Err(e) => Err(e),
                    }
                } else if name == "Bundle"@ {
                    match dec_bundle_body(s, j) {
                        Ok((b, j2)) => Ok((IrValS::Bundle(b), j2)),
                        Err(e) => Err(e),
                    }
                } else {
                    Err(DecodeError::UnknownTag)
                },
                Err(e) => Err(e),
            }
        } else {
            Err(DecodeError::Malformed)
        }
    }
}

/// Parses a timestamp's body: a two-entry map of `seconds` and `nanos`.
pub open spec fn dec_ts_body(s: Seq<u8>, i: int) -> Result<((i64, u32), int), DecodeError> {
    if i >= s.len() {
        Err(DecodeError::Truncated)
    } else if s[i] != 0x82 {
        Err(DecodeError::Malformed)
    } else {
        match dec_str_at(s, i + 1) {
            Ok((k1, p1)) => if k1 != "seconds"@ {
                Err(DecodeError::Malformed)
            } else {
                match dec_i64_at(s, p1) {
                    Ok((sec, p2)) => match dec_str_at(s, p2) {
                        Ok((k2, p3)) => if k2 != "nanos"@ {
                            Err(DecodeError::Malformed)
                        } else {
                            match dec_u64_at(s, p3) {
                                Ok((ns, p4)) => if ns <= 0xFFFF_FFFF {
                                    Ok(((sec, ns as u32), p4))
                                } else {
                                    Err(DecodeError::Malformed)
                                },
                                Err(e) => Err(e),
                            }
                        },
                        Err(e) => Err(e),
                    },
                    Err(e) => Err(e),
                }
            },
            Err(e) => Err(e),
        }
    }
}

/// Parses an extension payload's body: a two-entry map of `type_id` and
/// `data`.
pub open spec fn dec_ext_body(s: Seq<u8>, i: int) -> Result<((i8, Seq<u8>), int), DecodeError> {
    if i >= s.len() {
        Err(DecodeError::Truncated)
    } else if s[i] != 0x82 {
        Err(DecodeError::Malformed)
    } else {
        match dec_str_at(s, i + 1) {
            Ok((k1, p1)) => if k1 != "type_id"@ {
                Err(DecodeError::Malformed)
            } else {
                match dec_i64_at(s, p1) {
                    Ok((id, p2)) => if id < -128 || id > 127 {
                        Err(DecodeError::Malformed)
                    } else {
                        match dec_str_at(s, p2) {
                            Ok((k2, p3)) => if k2 != "data"@ {
                                Err(DecodeError::Malformed)
                            } else {
                                match dec_bin_at(s, p3) {
                                    Ok((d, p4)) => Ok(((id as i8, d), p4)),
                                    Err(e) => Err(e),
                                }
                            },
                            Err(e) => Err(e),
                        }
                    },
                    Err(e) => Err(e),
                }
            },
            Err(e) => Err(e),
        }
    }
}

/// Parses a bundle's body: a two-entry map of `timetag` (a one-field
/// struct holding `value`) and `elements`.
pub open spec fn dec_bundle_body(s: Seq<u8>, i: int) -> Result<(IrBundleS, int), DecodeError>
    decreases s.len() - i, 2int,
{
    if i >= s.len() {
        Err(DecodeError::Truncated)
    } else if s[i] != 0x82 {
        Err(DecodeError::Malformed)
    } else {
        match dec_str_at(s, i + 1) {
            Ok((k1, p1)) => if k1 != "timetag"@ {
                Err(DecodeError::Malformed)
            } else if p1 >= s.len() {
                Err(DecodeError::Truncated)
            } else if s[p1] != 0x81 {
                Err(DecodeError::Malformed)
            } else {
                match dec_str_at(s, p1 + 1) {
                    Ok((kv, p2)) => if kv != "value"@ {
                        Err(DecodeError::Malformed)
                    } else {
                        match dec_u64_at(s, p2) {
                            Ok((tt, p3)) => match dec_str_at(s, p3) {
                                Ok((k2, p4)) => if k2 != "elements"@ {
                                    Err(DecodeError::Malformed)
                                } else {
                                    match dec_arrlen_at(s, p4) {
                                        Ok((n, p5)) => if i < p5 <= s.len() {
                                            match dec_elems(s, p5, n) {
                                                Ok((els, p6)) => Ok(
                                                    (
                                                        IrBundleS { timetag: tt, elements: els },
                                                        p6,
                                                    ),
                                                ),
                                                Err(e) => Err(e),
                                            }
                                        } else {
                                            Err(DecodeError::Malformed)
                                        },
                                        Err(e) => Err(e),
                                    }
                                },
                                Err(e) => Err(e),
                            },
                            Err(e) => Err(e),
                        }
                    },
                    Err(e) => Err(e),
                }
            },
            Err(e) => Err(e),
        }
    }
}

/// Parses `n` consecutive values.
pub open spec fn dec_vals(s: Seq<u8>, i: int, n: int) -> Result<(Seq<IrValS>, int), DecodeError>
    decreases s.len() - i, 1int, n,
{
    if n <= 0 {
        Ok((Seq::empty(), i))
    } else {
        match dec_val(s, i) {
            Ok((v, j)) => if i < j <= s.len() {
                match dec_vals(s, j, n - 1) {
                    Ok((rest, j2)) => Ok((seq![v] + rest, j2)),
                    Err(e) => Err(e),
                }
            } else {
                Err(DecodeError::Malformed)
            },
            Err(e) => Err(e),
        }
    }
}

/// Parses `n` consecutive key/value pairs, each a two-element array.
pub open spec fn dec_entries(s: Seq<u8>, i: int, n: int) -> Result<
    (Seq<(Seq<char>, IrValS)>, int),
    DecodeError,
>
    decreases s.len() - i, 1int, n,
{
    if n <= 0 {
        Ok((Seq::empty(), i))
    } else if i >= s.len() {
        Err(DecodeError::Truncated)
    } else if s[i] != 0x92 {
        Err(DecodeError::Malformed)
    } else {
        match dec_str_at(s, i + 1) {
            Ok((k, j)) => match dec_val(s, j) {
                Ok((v, j2)) => if i < j2 <= s.len() {
                    match dec_entries(s, j2, n - 1) {
                        Ok((rest, j3)) => Ok((seq![(k, v)] + rest, j3)),
                        Err(e) => Err(e),
                    }
                } else {
                    Err(DecodeError::Malformed)
                },
                Err(e) => Err(e),
            },
            Err(e) => Err(e),
        }
    }
}

/// Parses `n` consecutive bundle elements.
pub open spec fn dec_elems(s: Seq<u8>, i: int, n: int) -> Result<(Seq<IrElemS>, int), DecodeError>
    decreases s.len() - i, 1int, n,
{
    if n <= 0 {
        Ok((Seq::empty(), i))
    } else {
        match dec_elem(s, i) {
            Ok((e, j)) => if i < j <= s.len() {
                match dec_elems(s, j, n - 1) {
                    Ok((rest, j2)) => Ok((seq![e] + rest, j2)),
                    Err(er) => Err(er),
                }
            } else {
                Err(DecodeError::Malformed)
            },
            Err(er) => Err(er),
        }
    }
}

/// Parses one bundle element: a one-entry map naming its kind.
pub open spec fn dec_elem(s: Seq<u8>, i: int) -> Result<(IrElemS, int), DecodeError>
    decreases s.len() - i, 0int,
{
    if i >= s.len() {
        Err(DecodeError::Truncated)
    } else if s[i] != 0x81 {
        Err(DecodeError::Malformed)
    } else {
        match dec_str_at(s, i + 1) {
            Ok((name, j)) => if name == "Message"@ {
                match dec_val(s, j) {
                    Ok((v, j2)) => Ok((IrElemS::Message(v), j2)),
                    Err(e) => Err(e),
                }
            } else if name == "Bundle"@ {
                match dec_bundle_body(s, j) {
                    Ok((b, j2)) => Ok((IrElemS::Bundle(b), j2)),
                    Err(e) => Err(e),
                }
            } else {
                Err(DecodeError::UnknownTag)
            },
            Err(e) => Err(e),
        }
    }
}

/// Big-endian bytes of a 16-bit value read back as the value.
proof fn lemma_join16(w: u16)
    ensures
        ((w >> 8) as u8) * 0x100 + (w as u8) == w,
{
    assert(((w >> 8) as u8) * 0x100 + (w as u8) == w) by (bit_vector);
}

/// Big-endian bytes of a 32-bit value read back as the value.
proof fn lemma_join32(w: u32)
    ensures
        ((w >> 24) as u8) * 0x100_0000 + ((w >> 16) as u8) * 0x1_0000 + ((w >> 8) as u8) * 0x100 + (
        w as u8) == w,
{
    assert(((w >> 24) as u8) * 0x100_0000 + ((w >> 16) as u8) * 0x1_0000 + ((w >> 8) as u8) * 0x100
        + (w as u8) == w) by (bit_vector);
}

/// Big-endian bytes of a 64-bit value read back as the value.
proof fn lemma_join64(w: u64)
    ensures
        (((w >> 56) as u8) * 0x100_0000 + ((w >> 48) as u8) * 0x1_0000 + ((w >> 40) as u8) * 0x100
            + ((w >> 32) as u8)) * 0x1_0000_0000 + (((w >> 24) as u8) * 0x100_0000 + ((w
            >> 16) as u8) * 0x1_0000 + ((w >> 8) as u8) * 0x100 + (w as u8)) == w,
{
    assert((((w >> 56) as u8) * 0x100_0000 + ((w >> 48) as u8) * 0x1_0000 + ((w >> 40) as u8)
        * 0x100 + ((w >> 32) as u8)) * 0x1_0000_0000 + (((w >> 24) as u8) * 0x100_0000 + ((w
        >> 16) as u8) * 0x1_0000 + ((w >> 8) as u8) * 0x100 + (w as u8)) == w) by (bit_vector);
}

/// Parsing at the site of an encoded unsigned integer yields that integer
/// and steps past it.
proof fn lemma_dec_u64(s: Seq<u8>, i: int, u: u64)
    requires
        0 <= i,
        i + enc_u64(u).len() <= s.len(),
        s.subrange(i, i + enc_u64(u).len()) == enc_u64(u),
    ensures
        dec_u64_at(s, i) == Ok::<(u64, int), DecodeError>((u, i + enc_u64(u).len())),
{
    let e = enc_u64(u);
    assert(forall|k: int| 0 <= k < e.len() ==> s[i + k] == #[trigger] e[k]);
    if u < 0x80 {
        assert(s[i] == e[0]);
    } else if u < 0x100 {
        assert(s[i] == e[0] && s[i + 1] == e[1]);
    } else if u < 0x1_0000 {
        assert(s[i] == e[0] && s[i + 1] == e[1] && s[i + 2] == e[2]);
        lemma_join16(u as u16);
        assert(rd2(s, i + 1) == u);
    } else if u < 0x1_0000_0000 {
        assert(s[i] == e[0] && s[i + 1] == e[1] && s[i + 2] == e[2] && s[i + 3] == e[3] && s[i + 4]
            == e[4]);
        lemma_join32(u as u32);
        assert(rd4(s, i + 1) == u);
    } else {
        assert(s[i] == e[0] && s[i + 1] == e[1] && s[i + 2] == e[2] && s[i + 3] == e[3] && s[i + 4]
            == e[4] && s[i + 5] == e[5] && s[i + 6] == e[6] && s[i + 7] == e[7] && s[i + 8] == e[8]);
        lemma_join64(u);
        assert(rd8(s, i + 1) == u);
    }
}

/// Parsing at the site of an encoded signed integer yields that integer
/// and steps past it.
proof fn lemma_dec_i64(s: Seq<u8>, i: int, v: i64)
    requires
        0 <= i,
        i + enc_i64(v).len() <= s.len(),
        s.subrange(i, i + enc_i64(v).len()) == enc_i64(v),
    ensures
        dec_i64_at(s, i) == Ok::<(i64, int), DecodeError>((v, i + enc_i64(v).len())),
{
    let e = enc_i64(v);
    assert(forall|k: int| 0 <= k < e.len() ==> s[i + k] == #[trigger] e[k]);
    if v >= 0 {
        let u = v as u64;
        if u < 0x80 {
            assert(s[i] == e[0]);
        } else if u < 0x100 {
            assert(s[i] == e[0] && s[i + 1] == e[1]);
        } else if u < 0x1_0000 {
            assert(s[i] == e[0] && s[i + 1] == e[1] && s[i + 2] == e[2]);
            lemma_join16(u as u16);
            assert(rd2(s, i + 1) == u);
        } else if u < 0x1_0000_0000 {
            assert(s[i] == e[0] && s[i + 1] == e[1] && s[i + 2] == e[2] && s[i + 3] == e[3] && s[i
                + 4] == e[4]);
            lemma_join32(u as u32);
            assert(rd4(s, i + 1) == u);
        } else {
            assert(s[i] == e[0] && s[i + 1] == e[1] && s[i + 2] == e[2] && s[i + 3] == e[3] && s[i
                + 4] == e[4] && s[i + 5] == e[5] && s[i + 6] == e[6] && s[i + 7] == e[7] && s[i + 8]
                == e[8]);
            lemma_join64(u);
            assert(rd8(s, i + 1) == u);
        }
    } else if v >= -32 {
        assert(s[i] == e[0]);
        assert((v as u8) >= 0xe0 && (v as u8) - 0x100 == v) by (bit_vector)
            requires
                -32 <= v < 0,
        ;
    } else if v >= -128 {
        assert(s[i] == e[0] && s[i + 1] == e[1]);
        assert((v as u8) >= 0x80 && (v as u8) < 0xe0 && (v as u8) - 0x100 == v) by (bit_vector)
            requires
                -128 <= v < -32,
        ;
    } else if v >= -0x8000 {
        assert(s[i] == e[0] && s[i + 1] == e[1] && s[i + 2] == e[2]);
        lemma_join16(v as u16);
        assert(rd2(s, i + 1) == (v as u16));
        assert((v as u16) >= 0x8000 && (v as u16) - 0x1_0000 == v) by (bit_vector)
            requires
                -0x8000 <= v < -128,
        ;
    } else if v >= -0x8000_0000 {
        assert(s[i] == e[0] && s[i + 1] == e[1] && s[i + 2] == e[2] && s[i + 3] == e[3] && s[i + 4]
            == e[4]);
        lemma_join32(v as u32);
        assert(rd4(s, i + 1) == (v as u32));
        assert((v as u32) >= 0x8000_0000 && (v as u32) - 0x1_0000_0000 == v) by (bit_vector)
            requires
                -0x8000_0000 <= v < -0x8000,
        ;
    } else {
        assert(s[i] == e[0] && s[i + 1] == e[1] && s[i + 2] == e[2] && s[i + 3] == e[3] && s[i + 4]
            == e[4] && s[i + 5] == e[5] && s[i + 6] == e[6] && s[i + 7] == e[7] && s[i + 8] == e[8]);
        lemma_join64(v as u64);
        assert(rd8(s, i + 1) == (v as u64));
        assert((v as u64) >= 0x8000_0000_0000_0000 && (v as u64) - 0x1_0000_0000_0000_0000 == v)
            by (bit_vector)
            requires
                v < -0x8000_0000,
        ;
    }
}

/// Parsing at the site of an encoded double yields its bit pattern.
proof fn lemma_dec_f64(s: Seq<u8>, i: int, bits: u64)
    requires
        0 <= i,
        i + 9 <= s.len(),
        s.subrange(i, i + 9) == seq![0xcbu8] + be64(bits),
    ensures
        dec_f64_at(s, i) == Ok::<(u64, int), DecodeError>((bits, i + 9)),
{
    let e = seq![0xcbu8] + be64(bits);
    assert(forall|k: int| 0 <= k < 9 ==> s[i + k] == #[trigger] e[k]);
    assert(s[i] == e[0] && s[i + 1] == e[1] && s[i + 2] == e[2] && s[i + 3] == e[3] && s[i + 4]
        == e[4] && s[i + 5] == e[5] && s[i + 6] == e[6] && s[i + 7] == e[7] && s[i + 8] == e[8]);
    lemma_join64(bits);
    assert(rd8(s, i + 1) == bits);
}

/// Parsing at the site of an encoded string yields its characters and
/// steps past it.
proof fn lemma_dec_str(s: Seq<u8>, i: int, cs: Seq<char>)
    requires
        0 <= i,
        encode_utf8(cs).len() < 0x1_0000_0000,
        i + enc_str(cs).len() <= s.len(),
        s.subrange(i, i + enc_str(cs).len()) == enc_str(cs),
    ensures
        dec_str_at(s, i) == Ok::<(Seq<char>, int), DecodeError>((cs, i + enc_str(cs).len())),
{
    let bytes = encode_utf8(cs);
    let n = bytes.len() as int;
    let e = enc_str(cs);
    let h = str_hdr(bytes.len()).len() as int;
    assert(forall|k: int| 0 <= k < e.len() ==> s[i + k] == #[trigger] e[k]);
    if n < 32 {
        assert(s[i] == e[0]);
    } else if n < 0x100 {
        assert(s[i] == e[0] && s[i + 1] == e[1]);
    } else if n < 0x1_0000 {
        assert(s[i] == e[0] && s[i + 1] == e[1] && s[i + 2] == e[2]);
        lemma_join16(n as u16);
        assert(rd2(s, i + 1) == n);
    } else {
        assert(s[i] == e[0] && s[i + 1] == e[1] && s[i + 2] == e[2] && s[i + 3] == e[3] && s[i + 4]
            == e[4]);
        lemma_join32(n as u32);
        assert(rd4(s, i + 1) == n);
    }
    assert(dec_strlen_at(s, i) == Ok::<(int, int), DecodeError>((n, i + h)));
    assert forall|k: int| 0 <= k < n implies s.subrange(i + h, i + h + n)[k] == bytes[k] by {
        assert(s[i + h + k] == e[h + k]);
        assert(e[h + k] == bytes[k]);
    }
    assert(s.subrange(i + h, i + h + n) =~= bytes);
    broadcast use encode_utf8_valid_utf8, encode_utf8_decode_utf8;

    assert(valid_utf8(bytes));
    assert(decode_utf8(s.subrange(i + h, i + h + n)) == cs);
}

/// Parsing at the site of an encoded byte payload yields the bytes and
/// steps past them.
proof fn lemma_dec_bin(s: Seq<u8>, i: int, b: Seq<u8>)
    requires
        0 <= i,
        b.len() < 0x1_0000_0000,
        i + enc_bin(b).len() <= s.len(),
        s.subrange(i, i + enc_bin(b).len()) == enc_bin(b),
    ensures
        dec_bin_at(s, i) == Ok::<(Seq<u8>, int), DecodeError>((b, i + enc_bin(b).len())),
{
    let n = b.len() as int;
    let e = enc_bin(b);
    let h = bin_hdr(b.len()).len() as int;
    assert(forall|k: int| 0 <= k < e.len() ==> s[i + k] == #[trigger] e[k]);
    if n < 0x100 {
        assert(s[i] == e[0] && s[i + 1] == e[1]);
    } else if n < 0x1_0000 {
        assert(s[i] == e[0] && s[i + 1] == e[1] && s[i + 2] == e[2]);
        lemma_join16(n as u16);
        assert(rd2(s, i + 1) == n);
    } else {
        assert(s[i] == e[0] && s[i + 1] == e[1] && s[i + 2] == e[2] && s[i + 3] == e[3] && s[i + 4]
            == e[4]);
        lemma_join32(n as u32);
        assert(rd4(s, i + 1) == n);
    }
    assert forall|k: int| 0 <= k < n implies s.subrange(i + h, i + h + n)[k] == b[k] by {
        assert(s[i + h + k] == e[h + k]);
        assert(e[h + k] == b[k]);
    }
    assert(s.subrange(i + h, i + h + n) =~= b);
}

/// Parsing at the site of an encoded array count yields the count.
proof fn lemma_dec_arrlen(s: Seq<u8>, i: int, n: nat)
    requires
        0 <= i,
        n < 0x1_0000_0000,
        i + arr_hdr(n).len() <= s.len(),
        s.subrange(i, i + arr_hdr(n).len()) == arr_hdr(n),
    ensures
        dec_arrlen_at(s, i) == Ok::<(int, int), DecodeError>((n as int, i + arr_hdr(n).len())),
{
    let e = arr_hdr(n);
    assert(forall|k: int| 0 <= k < e.len() ==> s[i + k] == #[trigger] e[k]);
    if n < 16 {
        assert(s[i] == e[0]);
    } else if n < 0x1_0000 {
        assert(s[i] == e[0] && s[i + 1] == e[1] && s[i + 2] == e[2]);
        lemma_join16(n as u16);
        assert(rd2(s, i + 1) == n);
    } else {
        assert(s[i] == e[0] && s[i + 1] == e[1] && s[i + 2] == e[2] && s[i + 3] == e[3] && s[i + 4]
            == e[4]);
        lemma_join32(n as u32);
        assert(rd4(s, i + 1) == n);
    }
}

/// A window into a window: cutting `[a, b)` out of the bytes standing at
/// `i` gives the matching cut of the encoded piece.
proof fn lemma_sub_sub(s: Seq<u8>, i: int, e: Seq<u8>, a: int, b: int)
    requires
        0 <= i,
        i + e.len() <= s.len(),
        s.subrange(i, i + e.len()) == e,
        0 <= a <= b <= e.len(),
    ensures
        s.subrange(i + a, i + b) == e.subrange(a, b),
{
    assert forall|k: int| 0 <= k < b - a implies s.subrange(i + a, i + b)[k] == e.subrange(
        a,
        b,
    )[k] by {
        assert(e[a + k] == s.subrange(i, i + e.len())[a + k]);
    }
    assert(s.subrange(i + a, i + b) =~= e.subrange(a, b));
}

/// UTF-8 lengths of the variant names and field keys the codec writes,
/// and the distinctions the decoder's branch order relies on.
proof fn lemma_names()
    ensures
        encode_utf8("Null"@).len() == 4,
        encode_utf8("Bool"@).len() == 4,
        encode_utf8("Integer"@).len() == 7,
        encode_utf8("Float"@).len() == 5,
        encode_utf8("String"@).len() == 6,
        encode_utf8("Binary"@).len() == 6,
        encode_utf8("Array"@).len() == 5,
        encode_utf8("Map"@).len() == 3,
        encode_utf8("Timestamp"@).len() == 9,
        encode_utf8("Ext"@).len() == 3,
        encode_utf8("Bundle"@).len() == 6,
        encode_utf8("Message"@).len() == 7,
        encode_utf8("seconds"@).len() == 7,
        encode_utf8("nanos"@).len() == 5,
        encode_utf8("type_id"@).len() == 7,
        encode_utf8("data"@).len() == 4,
        encode_utf8("timetag"@).len() == 7,
        encode_utf8("value"@).len() == 5,
        encode_utf8("elements"@).len() == 8,
        "Integer"@ != "Bool"@,
        "Float"@ != "Bool"@ && "Float"@ != "Integer"@,
        "String"@ != "Bool"@ && "String"@ != "Integer"@ && "String"@ != "Float"@,
        "Binary"@ != "Bool"@ && "Binary"@ != "Integer"@ && "Binary"@ != "Float"@ && "Binary"@
            != "String"@,
        "Array"@ != "Bool"@ && "Array"@ != "Integer"@ && "Array"@ != "Float"@ && "Array"@
            != "String"@ && "Array"@ != "Binary"@,
        "Map"@ != "Bool"@ && "Map"@ != "Integer"@ && "Map"@ != "Float"@ && "Map"@ != "String"@
            && "Map"@ != "Binary"@ && "Map"@ != "Array"@,
        "Timestamp"@ != "Bool"@ && "Timestamp"@ != "Integer"@ && "Timestamp"@ != "Float"@
            && "Timestamp"@ != "String"@ && "Timestamp"@ != "Binary"@ && "Timestamp"@ != "Array"@
            && "Timestamp"@ != "Map"@,
        "Ext"@ != "Bool"@ && "Ext"@ != "Integer"@ && "Ext"@ != "Float"@ && "Ext"@ != "String"@
            && "Ext"@ != "Binary"@ && "Ext"@ != "Array"@ && "Ext"@ != "Map"@ && "Ext"@
            != "Timestamp"@,
        "Bundle"@ != "Bool"@ && "Bundle"@ != "Integer"@ && "Bundle"@ != "Float"@ && "Bundle"@
            != "String"@ && "Bundle"@ != "Binary"@ && "Bundle"@ != "Array"@ && "Bundle"@ != "Map"@
            && "Bundle"@ != "Timestamp"@ && "Bundle"@ != "Ext"@,
        "Bundle"@ != "Message"@,
{
    broadcast use vstd::string::group_string_axioms, is_ascii_chars_encode_utf8;

    reveal_strlit("Null");
    reveal_strlit("Bool");
    reveal_strlit("Integer");
    reveal_strlit("Float");
    reveal_strlit("String");
    reveal_strlit("Binary");
    reveal_strlit("Array");
    reveal_strlit("Map");
    reveal_strlit("Timestamp");
    reveal_strlit("Ext");
    reveal_strlit("Bundle");
    reveal_strlit("Message");
    reveal_strlit("seconds");
    reveal_strlit("nanos");
    reveal_strlit("type_id");
    reveal_strlit("data");
    reveal_strlit("timetag");
    reveal_strlit("value");
    reveal_strlit("elements");
    assert("Null"@.len() == 4 && is_ascii_chars("Null"@));
    assert("Bool"@.len() == 4 && is_ascii_chars("Bool"@));
    assert("Integer"@.len() == 7 && is_ascii_chars("Integer"@));
    assert("Float"@.len() == 5 && is_ascii_chars("Float"@));
    assert("String"@.len() == 6 && is_ascii_chars("String"@));
    assert("Binary"@.len() == 6 && is_ascii_chars("Binary"@));
    assert("Array"@.len() == 5 && is_ascii_chars("Array"@));
    assert("Map"@.len() == 3 && is_ascii_chars("Map"@));
    assert("Timestamp"@.len() == 9 && is_ascii_chars("Timestamp"@));
    assert("Ext"@.len() == 3 && is_ascii_chars("Ext"@));
    assert("Bundle"@.len() == 6 && is_ascii_chars("Bundle"@));
    assert("Message"@.len() == 7 && is_ascii_chars("Message"@));
    assert("seconds"@.len() == 7 && is_ascii_chars("seconds"@));
    assert("nanos"@.len() == 5 && is_ascii_chars("nanos"@));
    assert("type_id"@.len() == 7 && is_ascii_chars("type_id"@));
    assert("data"@.len() == 4 && is_ascii_chars("data"@));
    assert("timetag"@.len() == 7 && is_ascii_chars("timetag"@));
    assert("value"@.len() == 5 && is_ascii_chars("value"@));
    assert("elements"@.len() == 8 && is_ascii_chars("elements"@));
    assert("Float"@[0] == 'F' && "Array"@[0] == 'A');
    assert("String"@[0] == 'S' && "Binary"@[0] == 'B' && "Bundle"@[0] == 'B');
    assert("Binary"@[1] == 'i' && "Bundle"@[1] == 'u');
    assert("Map"@[0] == 'M' && "Ext"@[0] == 'E');
}

/// One case of the value round trip: a string.
#[verifier::rlimit(100)]
#[verifier::spinoff_prover]
proof fn lemma_dec_val_enc_str(s: Seq<u8>, i: int, t: Seq<char>)
    requires
        msgpack_encodable(IrValS::Str(t)),
        0 <= i,
        i + enc_val(IrValS::Str(t)).len() <= s.len(),
        s.subrange(i, i + enc_val(IrValS::Str(t)).len()) == enc_val(IrValS::Str(t)),
    ensures
        dec_val(s, i) == Ok::<(IrValS, int), DecodeError>(
            (IrValS::Str(t), i + enc_val(IrValS::Str(t)).len()),
        ),
{
    lemma_names();
    let e = enc_val(IrValS::Str(t));
    let name = enc_str("String"@);
    let p2 = 1 + name.len() as int;
    assert(e.subrange(1, p2) =~= name);
    lemma_sub_sub(s, i, e, 1, p2);
    lemma_dec_str(s, i + 1, "String"@);
    assert(e.subrange(p2, e.len() as int) =~= enc_str(t));
    lemma_sub_sub(s, i, e, p2, e.len() as int);
    lemma_dec_str(s, i + p2, t);
    assert(s[i] == e[0]);
}

/// One case of the value round trip: a binary payload.
#[verifier::rlimit(100)]
#[verifier::spinoff_prover]
proof fn lemma_dec_val_enc_bin(s: Seq<u8>, i: int, b: Seq<u8>)
    requires
        msgpack_encodable(IrValS::Binary(b)),
        0 <= i,
        i + enc_val(IrValS::Binary(b)).len() <= s.len(),
        s.subrange(i, i + enc_val(IrValS::Binary(b)).len()) == enc_val(IrValS::Binary(b)),
    ensures
        dec_val(s, i) == Ok::<(IrValS, int), DecodeError>(
            (IrValS::Binary(b), i + enc_val(IrValS::Binary(b)).len()),
        ),
{
    lemma_names();
    let e = enc_val(IrValS::Binary(b));
    let name = enc_str("Binary"@);
    let p2 = 1 + name.len() as int;
    assert(e.subrange(1, p2) =~= name);
    lemma_sub_sub(s, i, e, 1, p2);
    lemma_dec_str(s, i + 1, "Binary"@);
    assert(e.subrange(p2, e.len() as int) =~= enc_bin(b));
    lemma_sub_sub(s, i, e, p2, e.len() as int);
    lemma_dec_bin(s, i + p2, b);
    assert(s[i] == e[0]);
}

/// One case of the value round trip: a timestamp.
#[verifier::rlimit(100)]
#[verifier::spinoff_prover]
proof fn lemma_dec_val_enc_ts(s: Seq<u8>, i: int, sec: i64, ns: u32)
    requires
        0 <= i,
        i + enc_val(IrValS::Timestamp(sec, ns)).len() <= s.len(),
        s.subrange(i, i + enc_val(IrValS::Timestamp(sec, ns)).len()) == enc_val(
            IrValS::Timestamp(sec, ns),
        ),
    ensures
        dec_val(s, i) == Ok::<(IrValS, int), DecodeError>(
            (IrValS::Timestamp(sec, ns), i + enc_val(IrValS::Timestamp(sec, ns)).len()),
        ),
{
    lemma_names();
    let e = enc_val(IrValS::Timestamp(sec, ns));
    let name = enc_str("Timestamp"@);
    let ksec = enc_str("seconds"@);
    let kns = enc_str("nanos"@);
    let p2 = 1 + name.len() as int;
    let p3 = p2 + 1;
    let p4 = p3 + ksec.len() as int;
    let p5 = p4 + enc_i64(sec).len() as int;
    let p6 = p5 + kns.len() as int;
    assert(e.subrange(1, p2) =~= name);
    lemma_sub_sub(s, i, e, 1, p2);
    lemma_dec_str(s, i + 1, "Timestamp"@);
    assert(e.subrange(p3, p4) =~= ksec);
    lemma_sub_sub(s, i, e, p3, p4);
    lemma_dec_str(s, i + p3, "seconds"@);
    assert(e.subrange(p4, p5) =~= enc_i64(sec));
    lemma_sub_sub(s, i, e, p4, p5);
    lemma_dec_i64(s, i + p4, sec);
    assert(e.subrange(p5, p6) =~= kns);
    lemma_sub_sub(s, i, e, p5, p6);
    lemma_dec_str(s, i + p5, "nanos"@);
    assert(e.subrange(p6, e.len() as int) =~= enc_u64(ns as u64));
    lemma_sub_sub(s, i, e, p6, e.len() as int);
    lemma_dec_u64(s, i + p6, ns as u64);
    assert(s[i] == e[0]);
    assert(s[i + p2] == e[p2]);
    assert(dec_ts_body(s, i + p2) == Ok::<((i64, u32), int), DecodeError>(
        ((sec, ns), i + e.len() as int),
    ));
}

/// One case of the value round trip: an extension payload.
#[verifier::rlimit(100)]
#[verifier::spinoff_prover]
proof fn lemma_dec_val_enc_ext(s: Seq<u8>, i: int, id: i8, data: Seq<u8>)
    requires
        msgpack_encodable(IrValS::Ext(id, data)),
        0 <= i,
        i + enc_val(IrValS::Ext(id, data)).len() <= s.len(),
        s.subrange(i, i + enc_val(IrValS::Ext(id, data)).len()) == enc_val(IrValS::Ext(id, data)),
    ensures
        dec_val(s, i) == Ok::<(IrValS, int), DecodeError>(
            (IrValS::Ext(id, data), i + enc_val(IrValS::Ext(id, data)).len()),
        ),
{
    lemma_names();
    let e = enc_val(IrValS::Ext(id, data));
    let name = enc_str("Ext"@);
    let kid = enc_str("type_id"@);
    let kdata = enc_str("data"@);
    let p2 = 1 + name.len() as int;
    let p3 = p2 + 1;
    let p4 = p3 + kid.len() as int;
    let p5 = p4 + enc_i64(id as i64).len() as int;
    let p6 = p5 + kdata.len() as int;
    assert(e.subrange(1, p2) =~= name);
    lemma_sub_sub(s, i, e, 1, p2);
    lemma_dec_str(s, i + 1, "Ext"@);
    assert(e.subrange(p3, p4) =~= kid);
    lemma_sub_sub(s, i, e, p3, p4);
    lemma_dec_str(s, i + p3, "type_id"@);
    assert(e.subrange(p4, p5) =~= enc_i64(id as i64));
    lemma_sub_sub(s, i, e, p4, p5);
    lemma_dec_i64(s, i + p4, id as i64);
    assert(e.subrange(p5, p6) =~= kdata);
    lemma_sub_sub(s, i, e, p5, p6);
    lemma_dec_str(s, i + p5, "data"@);
    assert(e.subrange(p6, e.len() as int) =~= enc_bin(data));
    lemma_sub_sub(s, i, e, p6, e.len() as int);
    lemma_dec_bin(s, i + p6, data);
    assert(s[i] == e[0]);
    assert(s[i + p2] == e[p2]);
    assert(dec_ext_body(s, i + p2) == Ok::<((i8, Seq<u8>), int), DecodeError>(
        ((id, data), i + e.len() as int),
    ));
}

/// One case of the value round trip: an integer.
#[verifier::rlimit(100)]
#[verifier::spinoff_prover]
proof fn lemma_dec_val_enc_int(s: Seq<u8>, i: int, n: i64)
    requires
        0 <= i,
        i + enc_val(IrValS::Integer(n)).len() <= s.len(),
        s.subrange(i, i + enc_val(IrValS::Integer(n)).len()) == enc_val(IrValS::Integer(n)),
    ensures
        dec_val(s, i) == Ok::<(IrValS, int), DecodeError>(
            (IrValS::Integer(n), i + enc_val(IrValS::Integer(n)).len()),
        ),
{
    lemma_names();
    let e = enc_val(IrValS::Integer(n));
    let name = enc_str("Integer"@);
    let p2 = 1 + name.len() as int;
    assert(e.subrange(1, p2) =~= name);
    lemma_sub_sub(s, i, e, 1, p2);
    lemma_dec_str(s, i + 1, "Integer"@);
    assert(e.subrange(p2, e.len() as int) =~= enc_i64(n));
    lemma_sub_sub(s, i, e, p2, e.len() as int);
    lemma_dec_i64(s, i + p2, n);
    assert(s[i] == e[0]);
}

/// One case of the value round trip: a double's bit pattern.
#[verifier::rlimit(100)]
#[verifier::spinoff_prover]
proof fn lemma_dec_val_enc_float(s: Seq<u8>, i: int, bits: u64)
    requires
        0 <= i,
        i + enc_val(IrValS::Float(bits)).len() <= s.len(),
        s.subrange(i, i + enc_val(IrValS::Float(bits)).len()) == enc_val(IrValS::Float(bits)),
    ensures
        dec_val(s, i) == Ok::<(IrValS, int), DecodeError>(
            (IrValS::Float(bits), i + enc_val(IrValS::Float(bits)).len()),
        ),
{
    lemma_names();
    let e = enc_val(IrValS::Float(bits));
    let name = enc_str("Float"@);
    let p2 = 1 + name.len() as int;
    assert(e.subrange(1, p2) =~= name);
    lemma_sub_sub(s, i, e, 1, p2);
    lemma_dec_str(s, i + 1, "Float"@);
    assert(e.subrange(p2, e.len() as int) =~= seq![0xcbu8] + be64(bits));
    lemma_sub_sub(s, i, e, p2, e.len() as int);
    lemma_dec_f64(s, i + p2, bits);
    assert(s[i] == e[0]);
}

/// One case of the value round trip: an array.
#[verifier::rlimit(100)]
#[verifier::spinoff_prover]
proof fn lemma_dec_val_enc_arr(s: Seq<u8>, i: int, xs: Seq<IrValS>)
    requires
        msgpack_encodable(IrValS::Array(xs)),
        0 <= i,
        i + enc_val(IrValS::Array(xs)).len() <= s.len(),
        s.subrange(i, i + enc_val(IrValS::Array(xs)).len()) == enc_val(IrValS::Array(xs)),
    ensures
        dec_val(s, i) == Ok::<(IrValS, int), DecodeError>(
            (IrValS::Array(xs), i + enc_val(IrValS::Array(xs)).len()),
        ),
    decreases xs, 2int,
{
    lemma_names();
    let e = enc_val(IrValS::Array(xs));
    let name = enc_str("Array"@);
    let p2 = 1 + name.len() as int;
    let h = arr_hdr(xs.len()).len() as int;
    assert(e.subrange(1, p2) =~= name);
    lemma_sub_sub(s, i, e, 1, p2);
    lemma_dec_str(s, i + 1, "Array"@);
    assert(e.subrange(p2, p2 + h) =~= arr_hdr(xs.len()));
    lemma_sub_sub(s, i, e, p2, p2 + h);
    lemma_dec_arrlen(s, i + p2, xs.len());
    assert(e.subrange(p2 + h, e.len() as int) =~= enc_vals(xs));
    lemma_sub_sub(s, i, e, p2 + h, e.len() as int);
    lemma_dec_vals_enc(s, i + p2 + h, xs);
    assert(s[i] == e[0]);
}

/// One case of the value round trip: a map.
#[verifier::rlimit(100)]
#[verifier::spinoff_prover]
proof fn lemma_dec_val_enc_map(s: Seq<u8>, i: int, es: Seq<(Seq<char>, IrValS)>)
    requires
        msgpack_encodable(IrValS::Mapping(es)),
        0 <= i,
        i + enc_val(IrValS::Mapping(es)).len() <= s.len(),
        s.subrange(i, i + enc_val(IrValS::Mapping(es)).len()) == enc_val(IrValS::Mapping(es)),
    ensures
        dec_val(s, i) == Ok::<(IrValS, int), DecodeError>(
            (IrValS::Mapping(es), i + enc_val(IrValS::Mapping(es)).len()),
        ),
    decreases es, 2int,
{
    lemma_names();
    let e = enc_val(IrValS::Mapping(es));
    let name = enc_str("Map"@);
    let p2 = 1 + name.len() as int;
    let h = arr_hdr(es.len()).len() as int;
    assert(e.subrange(1, p2) =~= name);
    lemma_sub_sub(s, i, e, 1, p2);
    lemma_dec_str(s, i + 1, "Map"@);
    assert(e.subrange(p2, p2 + h) =~= arr_hdr(es.len()));
    lemma_sub_sub(s, i, e, p2, p2 + h);
    lemma_dec_arrlen(s, i + p2, es.len());
    assert(e.subrange(p2 + h, e.len() as int) =~= enc_entries(es));
    lemma_sub_sub(s, i, e, p2 + h, e.len() as int);
    lemma_dec_entries_enc(s, i + p2 + h, es);
    assert(s[i] == e[0]);
}

/// One case of the value round trip: a bundle.
#[verifier::rlimit(100)]
#[verifier::spinoff_prover]
proof fn lemma_dec_val_enc_bundle(s: Seq<u8>, i: int, b: IrBundleS)
    requires
        msgpack_encodable(IrValS::Bundle(b)),
        0 <= i,
        i + enc_val(IrValS::Bundle(b)).len() <= s.len(),
        s.subrange(i, i + enc_val(IrValS::Bundle(b)).len()) == enc_val(IrValS::Bundle(b)),
    ensures
        dec_val(s, i) == Ok::<(IrValS, int), DecodeError>(
            (IrValS::Bundle(b), i + enc_val(IrValS::Bundle(b)).len()),
        ),
    decreases b, 3int,
{
    lemma_names();
    let e = enc_val(IrValS::Bundle(b));
    let name = enc_str("Bundle"@);
    let p2 = 1 + name.len() as int;
    assert(e.subrange(1, p2) =~= name);
    lemma_sub_sub(s, i, e, 1, p2);
    lemma_dec_str(s, i + 1, "Bundle"@);
    assert(e.subrange(p2, e.len() as int) =~= enc_bundle(b));
    lemma_sub_sub(s, i, e, p2, e.len() as int);
    lemma_dec_bundle_enc(s, i + p2, b);
    assert(s[i] == e[0]);
}

/// Parsing at the site of an encoded value yields that value and steps
/// past it; an encoding is never empty.
#[verifier::rlimit(100)]
#[verifier::spinoff_prover]
proof fn lemma_dec_val_enc(s: Seq<u8>, i: int, v: IrValS)
    requires
        msgpack_encodable(v),
        0 <= i,
        i + enc_val(v).len() <= s.len(),
        s.subrange(i, i + enc_val(v).len()) == enc_val(v),
    ensures
        dec_val(s, i) == Ok::<(IrValS, int), DecodeError>((v, i + enc_val(v).len())),
        enc_val(v).len() > 0,
    decreases v, 1int,
{
    lemma_names();
    let e = enc_val(v);
    match v {
        IrValS::Null => {
            lemma_dec_str(s, i, "Null"@);
        },
        IrValS::Bool(b) => {
            let name = enc_str("Bool"@);
            assert(e.subrange(1, 1 + name.len() as int) =~= name);
            lemma_sub_sub(s, i, e, 1, 1 + name.len() as int);
            lemma_dec_str(s, i + 1, "Bool"@);
            assert(s[i] == e[0]);
            assert(s[i + 1 + name.len() as int] == e[1 + name.len() as int]);
        },
        IrValS::Integer(n) => {
            lemma_dec_val_enc_int(s, i, n);
        },
        IrValS::Float(bits) => {
            lemma_dec_val_enc_float(s, i, bits);
        },
        IrValS::Str(t) => {
            lemma_dec_val_enc_str(s, i, t);
        },
        IrValS::Binary(b) => {
            lemma_dec_val_enc_bin(s, i, b);
        },
        IrValS::Array(xs) => {
            lemma_dec_val_enc_arr(s, i, xs);
        },
        IrValS::Mapping(es) => {
            lemma_dec_val_enc_map(s, i, es);
        },
        IrValS::Timestamp(sec, ns) => {
            lemma_dec_val_enc_ts(s, i, sec, ns);
        },
        IrValS::Ext(id, data) => {
            lemma_dec_val_enc_ext(s, i, id, data);
        },
        IrValS::Bundle(b) => {
            lemma_dec_val_enc_bundle(s, i, b);
        },
    }
}

/// Parsing at the site of an encoded bundle body yields that bundle.
#[verifier::rlimit(100)]
#[verifier::spinoff_prover]
proof fn lemma_dec_bundle_enc(s: Seq<u8>, i: int, b: IrBundleS)
    requires
        b.elements.len() < 0x1_0000_0000,
        msgpack_encodable_elems(b.elements),
        0 <= i,
        i + enc_bundle(b).len() <= s.len(),
        s.subrange(i, i + enc_bundle(b).len()) == enc_bundle(b),
    ensures
        dec_bundle_body(s, i) == Ok::<(IrBundleS, int), DecodeError>((b, i + enc_bundle(b).len())),
    decreases b, 2int,
{
    lemma_names();
    let e = enc_bundle(b);
    let ktt = enc_str("timetag"@);
    let kv = enc_str("value"@);
    let kel = enc_str("elements"@);
    let p1 = 1int;
    let p2 = p1 + ktt.len() as int;
    let p3 = p2 + 1;
    let p4 = p3 + kv.len() as int;
    let p5 = p4 + enc_u64(b.timetag).len() as int;
    let p6 = p5 + kel.len() as int;
    let p7 = p6 + arr_hdr(b.elements.len()).len() as int;
    assert(e.subrange(p1, p2) =~= ktt);
    lemma_sub_sub(s, i, e, p1, p2);
    lemma_dec_str(s, i + p1, "timetag"@);
    assert(e.subrange(p3, p4) =~= kv);
    lemma_sub_sub(s, i, e, p3, p4);
    lemma_dec_str(s, i + p3, "value"@);
    assert(e.subrange(p4, p5) =~= enc_u64(b.timetag));
    lemma_sub_sub(s, i, e, p4, p5);
    lemma_dec_u64(s, i + p4, b.timetag);
    assert(e.subrange(p5, p6) =~= kel);
    lemma_sub_sub(s, i, e, p5, p6);
    lemma_dec_str(s, i + p5, "elements"@);
    assert(e.subrange(p6, p7) =~= arr_hdr(b.elements.len()));
    lemma_sub_sub(s, i, e, p6, p7);
    lemma_dec_arrlen(s, i + p6, b.elements.len());
    assert(e.subrange(p7, e.len() as int) =~= enc_elems(b.elements));
    lemma_sub_sub(s, i, e, p7, e.len() as int);
    lemma_dec_elems_enc(s, i + p7, b.elements);
    assert(s[i] == e[0]);
    assert(s[i + p2] == e[p2]);
}

/// Parsing at the site of encoded values, with their count, yields them
/// all.
#[verifier::rlimit(100)]
#[verifier::spinoff_prover]
proof fn lemma_dec_vals_enc(s: Seq<u8>, i: int, vs: Seq<IrValS>)
    requires
        msgpack_encodable_vals(vs),
        0 <= i,
        i + enc_vals(vs).len() <= s.len(),
        s.subrange(i, i + enc_vals(vs).len()) == enc_vals(vs),
    ensures
        dec_vals(s, i, vs.len() as int) == Ok::<(Seq<IrValS>, int), DecodeError>(
            (vs, i + enc_vals(vs).len()),
        ),
    decreases vs, 1int,
{
    reveal_with_fuel(dec_vals, 2);
    if vs.len() > 0 {
        let e = enc_vals(vs);
        let rest = vs.subrange(1, vs.len() as int);
        let h = enc_val(vs[0]).len() as int;
        assert(e.subrange(0, h) =~= enc_val(vs[0]));
        lemma_sub_sub(s, i, e, 0, h);
        lemma_dec_val_enc(s, i, vs[0]);
        assert(e.subrange(h, e.len() as int) =~= enc_vals(rest));
        lemma_sub_sub(s, i, e, h, e.len() as int);
        lemma_dec_vals_enc(s, i + h, rest);
        assert(seq![vs[0]] + rest =~= vs);
        assert(dec_val(s, i) == Ok::<(IrValS, int), DecodeError>((vs[0], i + h)));
        assert(i < i + h <= s.len());
        assert(rest.len() as int == vs.len() as int - 1);
        assert(dec_vals(s, i + h, vs.len() as int - 1) == Ok::<(Seq<IrValS>, int), DecodeError>(
            (rest, i + h + enc_vals(rest).len()),
        ));
        assert(e.len() == h + enc_vals(rest).len());
    } else {
        assert(vs =~= Seq::<IrValS>::empty());
    }
}

/// Parsing at the site of encoded entries, with their count, yields them
/// all.
#[verifier::rlimit(100)]
#[verifier::spinoff_prover]
proof fn lemma_dec_entries_enc(s: Seq<u8>, i: int, es: Seq<(Seq<char>, IrValS)>)
    requires
        msgpack_encodable_entries(es),
        0 <= i,
        i + enc_entries(es).len() <= s.len(),
        s.subrange(i, i + enc_entries(es).len()) == enc_entries(es),
    ensures
        dec_entries(s, i, es.len() as int) == Ok::<(Seq<(Seq<char>, IrValS)>, int), DecodeError>(
            (es, i + enc_entries(es).len()),
        ),
    decreases es, 1int,
{
    reveal_with_fuel(dec_entries, 2);
    if es.len() > 0 {
        let e = enc_entries(es);
        let rest = es.subrange(1, es.len() as int);
        let k = enc_str(es[0].0);
        let p1 = 1int;
        let p2 = p1 + k.len() as int;
        let p3 = p2 + enc_val(es[0].1).len() as int;
        assert(e.subrange(p1, p2) =~= k);
        lemma_sub_sub(s, i, e, p1, p2);
        lemma_dec_str(s, i + p1, es[0].0);
        assert(e.subrange(p2, p3) =~= enc_val(es[0].1));
        lemma_sub_sub(s, i, e, p2, p3);
        lemma_dec_val_enc(s, i + p2, es[0].1);
        assert(e.subrange(p3, e.len() as int) =~= enc_entries(rest));
        lemma_sub_sub(s, i, e, p3, e.len() as int);
        lemma_dec_entries_enc(s, i + p3, rest);
        assert(s[i] == e[0]);
        assert(seq![(es[0].0, es[0].1)] + rest =~= es);
        assert(dec_str_at(s, i + p1) == Ok::<(Seq<char>, int), DecodeError>((es[0].0, i + p2)));
        assert(dec_val(s, i + p2) == Ok::<(IrValS, int), DecodeError>((es[0].1, i + p3)));
        assert(i < i + p3 <= s.len());
        assert(rest.len() as int == es.len() as int - 1);
        assert(dec_entries(s, i + p3, es.len() as int - 1) == Ok::<
            (Seq<(Seq<char>, IrValS)>, int),
            DecodeError,
        >((rest, i + p3 + enc_entries(rest).len())));
        assert(e.len() == p3 + enc_entries(rest).len());
    } else {
        assert(es =~= Seq::<(Seq<char>, IrValS)>::empty());
    }
}

/// Parsing at the site of encoded elements, with their count, yields them
/// all.
#[verifier::rlimit(100)]
#[verifier::spinoff_prover]
proof fn lemma_dec_elems_enc(s: Seq<u8>, i: int, els: Seq<IrElemS>)
    requires
        msgpack_encodable_elems(els),
        0 <= i,
        i + enc_elems(els).len() <= s.len(),
        s.subrange(i, i + enc_elems(els).len()) == enc_elems(els),
    ensures
        dec_elems(s, i, els.len() as int) == Ok::<(Seq<IrElemS>, int), DecodeError>(
            (els, i + enc_elems(els).len()),
        ),
    decreases els, 1int,
{
    reveal_with_fuel(dec_elems, 2);
    if els.len() > 0 {
        let e = enc_elems(els);
        let rest = els.subrange(1, els.len() as int);
        let h = enc_elem(els[0]).len() as int;
        assert(e.subrange(0, h) =~= enc_elem(els[0]));
        lemma_sub_sub(s, i, e, 0, h);
        lemma_dec_elem_enc(s, i, els[0]);
        assert(e.subrange(h, e.len() as int) =~= enc_elems(rest));
        lemma_sub_sub(s, i, e, h, e.len() as int);
        lemma_dec_elems_enc(s, i + h, rest);
        assert(seq![els[0]] + rest =~= els);
        assert(dec_elem(s, i) == Ok::<(IrElemS, int), DecodeError>((els[0], i + h)));
        assert(i < i + h <= s.len());
        assert(rest.len() as int == els.len() as int - 1);
        assert(dec_elems(s, i + h, els.len() as int - 1) == Ok::<(Seq<IrElemS>, int), DecodeError>(
            (rest, i + h + enc_elems(rest).len()),
        ));
        assert(e.len() == h + enc_elems(rest).len());
    } else {
        assert(els =~= Seq::<IrElemS>::empty());
    }
}

/// Parsing at the site of an encoded element yields that element; an
/// element's encoding is never empty.
#[verifier::rlimit(100)]
#[verifier::spinoff_prover]
proof fn lemma_dec_elem_enc(s: Seq<u8>, i: int, el: IrElemS)
    requires
        msgpack_encodable_elem(el),
        0 <= i,
        i + enc_elem(el).len() <= s.len(),
        s.subrange(i, i + enc_elem(el).len()) == enc_elem(el),
    ensures
        dec_elem(s, i) == Ok::<(IrElemS, int), DecodeError>((el, i + enc_elem(el).len())),
        enc_elem(el).len() > 0,
    decreases el, 3int,
{
    lemma_names();
    let e = enc_elem(el);
    match el {
        IrElemS::Message(m) => {
            let name = enc_str("Message"@);
            let p2 = 1 + name.len() as int;
            assert(e.subrange(1, p2) =~= name);
            lemma_sub_sub(s, i, e, 1, p2);
            lemma_dec_str(s, i + 1, "Message"@);
            assert(e.subrange(p2, e.len() as int) =~= enc_val(m));
            lemma_sub_sub(s, i, e, p2, e.len() as int);
            lemma_dec_val_enc(s, i + p2, m);
            assert(s[i] == e[0]);
            assert(dec_str_at(s, i + 1) == Ok::<(Seq<char>, int), DecodeError>(
                ("Message"@, i + p2),
            ));
            assert(dec_val(s, i + p2) == Ok::<(IrValS, int), DecodeError>(
                (m, i + e.len() as int),
            ));
        },
        IrElemS::Bundle(b) => {
            let name = enc_str("Bundle"@);
            let p2 = 1 + name.len() as int;
            assert(e.subrange(1, p2) =~= name);
            lemma_sub_sub(s, i, e, 1, p2);
            lemma_dec_str(s, i + 1, "Bundle"@);
            assert(e.subrange(p2, e.len() as int) =~= enc_bundle(b));
            lemma_sub_sub(s, i, e, p2, e.len() as int);
            lemma_dec_bundle_enc(s, i + p2, b);
            assert(s[i] == e[0]);
            assert(dec_str_at(s, i + 1) == Ok::<(Seq<char>, int), DecodeError>(
                ("Bundle"@, i + p2),
            ));
        },
    }
}

/// Splitting a value list anywhere splits its encoding there.
proof fn lemma_enc_vals_app(a: Seq<IrValS>, b: Seq<IrValS>)
    ensures
        enc_vals(a + b) == enc_vals(a) + enc_vals(b),
    decreases a.len(),
{
    if a.len() == 0 {
        assert(a + b =~= b);
        assert(enc_vals(a) + enc_vals(b) =~= enc_vals(b));
    } else {
        lemma_enc_vals_app(a.subrange(1, a.len() as int), b);
        assert((a + b).subrange(1, (a + b).len() as int) =~= a.subrange(1, a.len() as int) + b);
        assert(enc_vals(a + b) =~= enc_vals(a) + enc_vals(b));
    }
}

/// Splitting an entry list anywhere splits its encoding there.
proof fn lemma_enc_entries_app(a: Seq<(Seq<char>, IrValS)>, b: Seq<(Seq<char>, IrValS)>)
    ensures
        enc_entries(a + b) == enc_entries(a) + enc_entries(b),
    decreases a.len(),
{
    if a.len() == 0 {
        assert(a + b =~= b);
        assert(enc_entries(a) + enc_entries(b) =~= enc_entries(b));
    } else {
        lemma_enc_entries_app(a.subrange(1, a.len() as int), b);
        assert((a + b).subrange(1, (a + b).len() as int) =~= a.subrange(1, a.len() as int) + b);
        assert(enc_entries(a + b) =~= enc_entries(a) + enc_entries(b));
    }
}

/// Splitting an element list anywhere splits its encoding there.
proof fn lemma_enc_elems_app(a: Seq<IrElemS>, b: Seq<IrElemS>)
    ensures
        enc_elems(a + b) == enc_elems(a) + enc_elems(b),
    decreases a.len(),
{
    if a.len() == 0 {
        assert(a + b =~= b);
        assert(enc_elems(a) + enc_elems(b) =~= enc_elems(b));
    } else {
        lemma_enc_elems_app(a.subrange(1, a.len() as int), b);
        assert((a + b).subrange(1, (a + b).len() as int) =~= a.subrange(1, a.len() as int) + b);
        assert(enc_elems(a + b) =~= enc_elems(a) + enc_elems(b));
    }
}

/// A value list fits the headers exactly when each of its values does.
proof fn lemma_encodable_vals_iff(s: Seq<IrValS>)
    ensures
        msgpack_encodable_vals(s) <==> (forall|k: int|
            0 <= k < s.len() ==> msgpack_encodable(#[trigger] s[k])),
    decreases s.len(),
{
    if s.len() > 0 {
        let rest = s.subrange(1, s.len() as int);
        lemma_encodable_vals_iff(rest);
        assert forall|k: int|
            0 <= k < s.len() && msgpack_encodable_vals(s) implies msgpack_encodable(
            #[trigger] s[k],
        ) by {
            if k > 0 {
                assert(rest[k - 1] == s[k]);
            }
        }
        if forall|k: int| 0 <= k < s.len() ==> msgpack_encodable(#[trigger] s[k]) {
            assert forall|k: int| 0 <= k < rest.len() implies msgpack_encodable(
                #[trigger] rest[k],
            ) by {
                assert(rest[k] == s[k + 1]);
            }
            assert(msgpack_encodable(s[0]));
        }
    }
}

/// An entry list fits the headers exactly when each key and value does.
proof fn lemma_encodable_entries_iff(s: Seq<(Seq<char>, IrValS)>)
    ensures
        msgpack_encodable_entries(s) <==> (forall|k: int|
            0 <= k < s.len() ==> encode_utf8(#[trigger] s[k].0).len() < 0x1_0000_0000
                && msgpack_encodable(s[k].1)),
    decreases s.len(),
{
    if s.len() > 0 {
        let rest = s.subrange(1, s.len() as int);
        lemma_encodable_entries_iff(rest);
        assert forall|k: int|
            0 <= k < s.len() && msgpack_encodable_entries(s) implies encode_utf8(
            #[trigger] s[k].0,
        ).len() < 0x1_0000_0000 && msgpack_encodable(s[k].1) by {
            if k > 0 {
                assert(rest[k - 1] == s[k]);
            }
        }
        if forall|k: int|
            0 <= k < s.len() ==> encode_utf8(#[trigger] s[k].0).len() < 0x1_0000_0000
                && msgpack_encodable(s[k].1) {
            assert forall|k: int|
                0 <= k < rest.len() implies encode_utf8(#[trigger] rest[k].0).len()
                < 0x1_0000_0000 && msgpack_encodable(rest[k].1) by {
                assert(rest[k] == s[k + 1]);
            }
            assert(encode_utf8(s[0].0).len() < 0x1_0000_0000 && msgpack_encodable(s[0].1));
        }
    }
}

/// An element list fits the headers exactly when each element does.
proof fn lemma_encodable_elems_iff(s: Seq<IrElemS>)
    ensures
        msgpack_encodable_elems(s) <==> (forall|k: int|
            0 <= k < s.len() ==> msgpack_encodable_elem(#[trigger] s[k])),
    decreases s.len(),
{
    if s.len() > 0 {
        let rest = s.subrange(1, s.len() as int);
        lemma_encodable_elems_iff(rest);
        assert forall|k: int|
            0 <= k < s.len() && msgpack_encodable_elems(s) implies msgpack_encodable_elem(
            #[trigger] s[k],
        ) by {
            if k > 0 {
                assert(rest[k - 1] == s[k]);
            }
        }
        if forall|k: int| 0 <= k < s.len() ==> msgpack_encodable_elem(#[trigger] s[k]) {
            assert forall|k: int| 0 <= k < rest.len() implies msgpack_encodable_elem(
                #[trigger] rest[k],
            ) by {
                assert(rest[k] == s[k + 1]);
            }
            assert(msgpack_encodable_elem(s[0]));
        }
    }
}

/// Decoding the encoding of a value that fits the length headers gives
/// the value back, with nothing left over.
pub proof fn lemma_msgpack_round_trip(v: IrValS)
    requires
        msgpack_encodable(v),
    ensures
        msgpack_decode_spec(msgpack_encode_spec(v)) == Ok::<IrValS, DecodeError>(v),
{
    let e = enc_val(v);
    assert(e.subrange(0, e.len() as int) =~= e);
    lemma_dec_val_enc(e, 0, v);
}

/// The full binary decoding of a byte sequence: one value, consuming all
/// input.
pub open spec fn msgpack_decode_spec(s: Seq<u8>) -> Result<IrValS, DecodeError> {
    match dec_val(s, 0) {
        Ok((v, j)) => if j == s.len() {
            Ok(v)
        } else {
            Err(DecodeError::Malformed)
        },
        Err(e) => Err(e),
    }
}

/// Appends an unsigned integer in its shortest form.
fn write_u64(out: &mut Vec<u8>, u: u64)
    ensures
        final(out)@ == old(out)@ + enc_u64(u),
{
    if u < 0x80 {
        out.push(u as u8);
    } else if u < 0x100 {
        out.push(0xcc);
        out.push(u as u8);
    } else if u < 0x1_0000 {
        out.push(0xcd);
        out.push((u >> 8) as u8);
        out.push(u as u8);
        proof {
            assert((u as u16) >> 8 == (u >> 8) as u16 && (u as u16) as u8 == u as u8)
                by (bit_vector)
                requires
                    u < 0x1_0000,
            ;
        }
    } else if u < 0x1_0000_0000 {
        out.push(0xce);
        out.push((u >> 24) as u8);
        out.push((u >> 16) as u8);
        out.push((u >> 8) as u8);
        out.push(u as u8);
        proof {
            assert((u as u32) >> 24 == (u >> 24) as u32 && (u as u32) >> 16 == (u >> 16) as u32 && (
            u as u32) >> 8 == (u >> 8) as u32 && (u as u32) as u8 == u as u8) by (bit_vector)
                requires
                    u < 0x1_0000_0000,
            ;
        }
    } else {
        out.push(0xcf);
        out.push((u >> 56) as u8);
        out.push((u >> 48) as u8);
        out.push((u >> 40) as u8);
        out.push((u >> 32) as u8);
        out.push((u >> 24) as u8);
        out.push((u >> 16) as u8);
        out.push((u >> 8) as u8);
        out.push(u as u8);
    }
    proof {
        assert(out@ =~= old(out)@ + enc_u64(u));
    }
}

/// Appends a signed integer in its shortest form.
fn write_i64(out: &mut Vec<u8>, v: i64)
    ensures
        final(out)@ == old(out)@ + enc_i64(v),
{
    if v >= 0 {
        write_u64(out, v as u64);
    } else if v >= -32 {
        out.push(#[verifier::truncate] (v as u8));
    } else if v >= -128 {
        out.push(0xd0);
        out.push(#[verifier::truncate] (v as u8));
    } else if v >= -0x8000 {
        out.push(0xd1);
        let w = #[verifier::truncate] (v as u16);
        out.push((w >> 8) as u8);
        out.push(w as u8);
        proof {
            assert((v as u16) >> 8 == ((v as u16) >> 8) && (v as u16) as u8 == (v as u16) as u8);
        }
    } else if v >= -0x8000_0000 {
        out.push(0xd2);
        let w = #[verifier::truncate] (v as u32);
        out.push((w >> 24) as u8);
        out.push((w >> 16) as u8);
        out.push((w >> 8) as u8);
        out.push(w as u8);
    } else {
        out.push(0xd3);
        let w = #[verifier::truncate] (v as u64);
        out.push((w >> 56) as u8);
        out.push((w >> 48) as u8);
        out.push((w >> 40) as u8);
        out.push((w >> 32) as u8);
        out.push((w >> 24) as u8);
        out.push((w >> 16) as u8);
        out.push((w >> 8) as u8);
        out.push(w as u8);
    }
    proof {
        assert(out@ =~= old(out)@ + enc_i64(v));
    }
}

/// Appends a double's bit pattern.
fn write_f64_bits(out: &mut Vec<u8>, bits: u64)
    ensures
        final(out)@ == old(out)@ + seq![0xcbu8] + be64(bits),
{
    out.push(0xcb);
    out.push((bits >> 56) as u8);
    out.push((bits >> 48) as u8);
    out.push((bits >> 40) as u8);
    out.push((bits >> 32) as u8);
    out.push((bits >> 24) as u8);
    out.push((bits >> 16) as u8);
    out.push((bits >> 8) as u8);
    out.push(bits as u8);
    proof {
        assert(out@ =~= old(out)@ + seq![0xcbu8] + be64(bits));
    }
}

/// Appends a string: shortest header, then its UTF-8 bytes.
#[verifier::loop_isolation(false)]
fn write_str(out: &mut Vec<u8>, s: &str)
    requires
        encode_utf8(s@).len() < 0x1_0000_0000,
    ensures
        final(out)@ == old(out)@ + enc_str(s@),
{
    let bs = s.as_bytes();
    let n = bs.len();
    if n < 32 {
        out.push(0xa0 + (n as u8));
    } else if n < 0x100 {
        out.push(0xd9);
        out.push(n as u8);
    } else if n < 0x1_0000 {
        out.push(0xda);
        let m = n as u64;
        out.push((m >> 8) as u8);
        out.push(m as u8);
        proof {
            assert(((m as u16) >> 8) as u8 == (m >> 8) as u8 && (m as u16) as u8 == m as u8)
                by (bit_vector)
                requires
                    m < 0x1_0000,
            ;
        }
    } else {
        out.push(0xdb);
        let m = n as u64;
        out.push((m >> 24) as u8);
        out.push((m >> 16) as u8);
        out.push((m >> 8) as u8);
        out.push(m as u8);
        proof {
            assert(((m as u32) >> 24) as u8 == (m >> 24) as u8 && ((m as u32) >> 16) as u8 == (m
                >> 16) as u8 && ((m as u32) >> 8) as u8 == (m >> 8) as u8 && (m as u32) as u8
                == m as u8) by (bit_vector)
                requires
                    m < 0x1_0000_0000,
            ;
        }
    }
    proof {
        assert(out@ =~= old(out)@ + str_hdr(encode_utf8(s@).len()));
    }
    let ghost mid = out@;
    let mut k: usize = 0;
    while k < bs.len()
        invariant
            k <= bs@.len(),
            out@ == mid + bs@.subrange(0, k as int),
        decreases bs@.len() - k,
    {
        out.push(bs[k]);
        proof {
            assert(out@ =~= mid + bs@.subrange(0, k + 1 as int));
        }
        k = k + 1;
    }
    proof {
        assert(bs@.subrange(0, bs@.len() as int) =~= bs@);
        assert(out@ =~= old(out)@ + enc_str(s@));
    }
}

/// Appends a raw byte payload: shortest header, then the bytes.
#[verifier::loop_isolation(false)]
fn write_bin(out: &mut Vec<u8>, b: &[u8])
    requires
        b@.len() < 0x1_0000_0000,
    ensures
        final(out)@ == old(out)@ + enc_bin(b@),
{
    let n = b.len();
    if n < 0x100 {
        out.push(0xc4);
        out.push(n as u8);
    } else if n < 0x1_0000 {
        out.push(0xc5);
        let m = n as u64;
        out.push((m >> 8) as u8);
        out.push(m as u8);
        proof {
            assert(((m as u16) >> 8) as u8 == (m >> 8) as u8 && (m as u16) as u8 == m as u8)
                by (bit_vector)
                requires
                    m < 0x1_0000,
            ;
        }
    } else {
        out.push(0xc6);
        let m = n as u64;
        out.push((m >> 24) as u8);
        out.push((m >> 16) as u8);
        out.push((m >> 8) as u8);
        out.push(m as u8);
        proof {
            assert(((m as u32) >> 24) as u8 == (m >> 24) as u8 && ((m as u32) >> 16) as u8 == (m
                >> 16) as u8 && ((m as u32) >> 8) as u8 == (m >> 8) as u8 && (m as u32) as u8
                == m as u8) by (bit_vector)
                requires
                    m < 0x1_0000_0000,
            ;
        }
    }
    proof {
        assert(out@ =~= old(out)@ + bin_hdr(b@.len()));
    }
    let ghost mid = out@;
    let mut k: usize = 0;
    while k < b.len()
        invariant
            k <= b@.len(),
            out@ == mid + b@.subrange(0, k as int),
        decreases b@.len() - k,
    {
        out.push(b[k]);
        proof {
            assert(out@ =~= mid + b@.subrange(0, k + 1 as int));
        }
        k = k + 1;
    }
    proof {
        assert(b@.subrange(0, b@.len() as int) =~= b@);
        assert(out@ =~= old(out)@ + enc_bin(b@));
    }
}

/// Appends the shortest array count header.
fn write_arr_hdr(out: &mut Vec<u8>, n: usize)
    requires
        n < 0x1_0000_0000,
    ensures
        final(out)@ == old(out)@ + arr_hdr(n as nat),
{
    if n < 16 {
        out.push(0x90 + (n as u8));
    } else if n < 0x1_0000 {
        out.push(0xdc);
        let m = n as u64;
        out.push((m >> 8) as u8);
        out.push(m as u8);
        proof {
            assert(((m as u16) >> 8) as u8 == (m >> 8) as u8 && (m as u16) as u8 == m as u8)
                by (bit_vector)
                requires
                    m < 0x1_0000,
            ;
        }
    } else {
        out.push(0xdd);
        let m = n as u64;
        out.push((m >> 24) as u8);
        out.push((m >> 16) as u8);
        out.push((m >> 8) as u8);
        out.push(m as u8);
        proof {
            assert(((m as u32) >> 24) as u8 == (m >> 24) as u8 && ((m as u32) >> 16) as u8 == (m
                >> 16) as u8 && ((m as u32) >> 8) as u8 == (m >> 8) as u8 && (m as u32) as u8
                == m as u8) by (bit_vector)
                requires
                    m < 0x1_0000_0000,
            ;
        }
    }
    proof {
        assert(out@ =~= old(out)@ + arr_hdr(n as nat));
    }
}

/// Appends the encoding of a value.
#[verifier::loop_isolation(false)]
#[verifier::rlimit(100)]
fn encode_value(v: &IrValue, out: &mut Vec<u8>)
    requires
        msgpack_encodable(v@),
    ensures
        final(out)@ == old(out)@ + enc_val(v@),
    decreases *v, 0int,
{
    broadcast use lemma_vals_view, lemma_entries_view, lemma_elems_view;

    match v {
        IrValue::Null => {
            proof {
                lemma_names();
            }
            write_str(out, "Null");
        },
        IrValue::Bool(b) => {
            proof {
                lemma_names();
            }
            out.push(0x81);
            write_str(out, "Bool");
            out.push(if *b {
                0xc3
            } else {
                0xc2
            });
            proof {
                assert(out@ =~= old(out)@ + enc_val(v@));
            }
        },
        IrValue::Integer(n) => {
            proof {
                lemma_names();
            }
            out.push(0x81);
            write_str(out, "Integer");
            write_i64(out, *n);
            proof {
                assert(out@ =~= old(out)@ + enc_val(v@));
            }
        },
        IrValue::Float(bits) => {
            proof {
                lemma_names();
            }
            out.push(0x81);
            write_str(out, "Float");
            write_f64_bits(out, *bits);
            proof {
                assert(out@ =~= old(out)@ + enc_val(v@));
            }
        },
        IrValue::String(st) => {
            proof {
                lemma_names();
            }
            out.push(0x81);
            write_str(out, "String");
            write_str(out, st.as_str());
            proof {
                assert(out@ =~= old(out)@ + enc_val(v@));
            }
        },
        IrValue::Binary(b) => {
            proof {
                lemma_names();
            }
            out.push(0x81);
            write_str(out, "Binary");
            write_bin(out, b.as_slice());
            proof {
                assert(out@ =~= old(out)@ + enc_val(v@));
            }
        },
        IrValue::Array(xs) => {
            proof {
                lemma_names();
                lemma_encodable_vals_iff(vals_view(xs@));
            }
            out.push(0x81);
            write_str(out, "Array");
            write_arr_hdr(out, xs.len());
            let ghost mid = out@;
            let mut i: usize = 0;
            while i < xs.len()
                invariant
                    i <= xs@.len(),
                    out@ == mid + enc_vals(vals_view(xs@).subrange(0, i as int)),
                decreases xs@.len() - i,
            {
                proof {
                    assert(decreases_to!(*v => xs@[i as int]));
                    assert(msgpack_encodable(vals_view(xs@)[i as int]));
                }
                encode_value(&xs[i], out);
                proof {
                    let pre = vals_view(xs@).subrange(0, i as int);
                    let this = vals_view(xs@)[i as int];
                    lemma_enc_vals_app(pre, seq![this]);
                    assert(pre + seq![this] =~= vals_view(xs@).subrange(0, i + 1 as int));
                    assert(seq![this].subrange(1, 1) =~= Seq::<IrValS>::empty());
                    assert(enc_vals(Seq::<IrValS>::empty()) == Seq::<u8>::empty());
                    assert(enc_vals(seq![this]) =~= enc_val(this));
                    assert(out@ =~= mid + enc_vals(vals_view(xs@).subrange(0, i + 1 as int)));
                }
                i = i + 1;
            }
            proof {
                assert(vals_view(xs@).subrange(0, vals_view(xs@).len() as int) =~= vals_view(xs@));
                assert(out@ =~= old(out)@ + enc_val(v@));
            }
        },
        IrValue::Mapping(es) => {
            proof {
                lemma_names();
                lemma_encodable_entries_iff(entries_view(es@));
            }
            out.push(0x81);
            write_str(out, "Map");
            write_arr_hdr(out, es.len());
            let ghost mid = out@;
            let mut i: usize = 0;
            while i < es.len()
                invariant
                    i <= es@.len(),
                    out@ == mid + enc_entries(entries_view(es@).subrange(0, i as int)),
                decreases es@.len() - i,
            {
                proof {
                    assert(decreases_to!(*v => es@[i as int].1));
                    assert(encode_utf8(entries_view(es@)[i as int].0).len() < 0x1_0000_0000
                        && msgpack_encodable(entries_view(es@)[i as int].1));
                }
                let entry = &es[i];
                out.push(0x92);
                write_str(out, entry.0.as_str());
                encode_value(&entry.1, out);
                proof {
                    let pre = entries_view(es@).subrange(0, i as int);
                    let this = entries_view(es@)[i as int];
                    lemma_enc_entries_app(pre, seq![this]);
                    assert(pre + seq![this] =~= entries_view(es@).subrange(0, i + 1 as int));
                    assert(seq![this].subrange(1, 1) =~= Seq::<(Seq<char>, IrValS)>::empty());
                    assert(enc_entries(Seq::<(Seq<char>, IrValS)>::empty()) == Seq::<u8>::empty());
                    assert(enc_entries(seq![this]) =~= seq![0x92u8] + enc_str(this.0) + enc_val(
                        this.1,
                    ));
                    assert(out@ =~= mid + enc_entries(entries_view(es@).subrange(0, i + 1 as int)));
                }
                i = i + 1;
            }
            proof {
                assert(entries_view(es@).subrange(0, entries_view(es@).len() as int)
                    =~= entries_view(es@));
                assert(out@ =~= old(out)@ + enc_val(v@));
            }
        },
        IrValue::Timestamp(ts) => {
            proof {
                lemma_names();
            }
            out.push(0x81);
            write_str(out, "Timestamp");
            out.push(0x82);
            write_str(out, "seconds");
            write_i64(out, ts.seconds);
            write_str(out, "nanos");
            write_u64(out, ts.nanos as u64);
            proof {
                assert(out@ =~= old(out)@ + enc_val(v@));
            }
        },
        IrValue::Ext { type_id, data } => {
            proof {
                lemma_names();
            }
            out.push(0x81);
            write_str(out, "Ext");
            out.push(0x82);
            write_str(out, "type_id");
            write_i64(out, *type_id as i64);
            write_str(out, "data");
            write_bin(out, data.as_slice());
            proof {
                assert(out@ =~= old(out)@ + enc_val(v@));
            }
        },
        IrValue::Bundle(b) => {
            proof {
                lemma_names();
            }
            out.push(0x81);
            write_str(out, "Bundle");
            encode_bundle(b, out);
            proof {
                assert(out@ =~= old(out)@ + enc_val(v@));
            }
        },
    }
}

/// Appends the encoding of a bundle's body.
#[verifier::loop_isolation(false)]
#[verifier::rlimit(100)]
fn encode_bundle(b: &IrBundle, out: &mut Vec<u8>)
    requires
        b@.elements.len() < 0x1_0000_0000,
        msgpack_encodable_elems(b@.elements),
    ensures
        final(out)@ == old(out)@ + enc_bundle(b@),
    decreases *b, 2int,
{
    broadcast use lemma_elems_view;

    proof {
        lemma_names();
        lemma_encodable_elems_iff(elems_view(b.elements@));
    }
    out.push(0x82);
    write_str(out, "timetag");
    out.push(0x81);
    write_str(out, "value");
    write_u64(out, b.timetag.value);
    write_str(out, "elements");
    write_arr_hdr(out, b.elements.len());
    let ghost mid = out@;
    let mut i: usize = 0;
    while i < b.elements.len()
        invariant
            i <= b.elements@.len(),
            out@ == mid + enc_elems(elems_view(b.elements@).subrange(0, i as int)),
        decreases b.elements@.len() - i,
    {
        proof {
            assert(decreases_to!(*b => b.elements@[i as int]));
            assert(msgpack_encodable_elem(elems_view(b.elements@)[i as int]));
        }
        encode_elem(&b.elements[i], out);
        proof {
            let pre = elems_view(b.elements@).subrange(0, i as int);
            let this = elems_view(b.elements@)[i as int];
            lemma_enc_elems_app(pre, seq![this]);
            assert(pre + seq![this] =~= elems_view(b.elements@).subrange(0, i + 1 as int));
            assert(seq![this].subrange(1, 1) =~= Seq::<IrElemS>::empty());
            assert(enc_elems(Seq::<IrElemS>::empty()) == Seq::<u8>::empty());
            assert(enc_elems(seq![this]) =~= enc_elem(this));
            assert(out@ =~= mid + enc_elems(elems_view(b.elements@).subrange(0, i + 1 as int)));
        }
        i = i + 1;
    }
    proof {
        assert(elems_view(b.elements@).subrange(0, elems_view(b.elements@).len() as int)
            =~= elems_view(b.elements@));
        assert(out@ =~= old(out)@ + enc_bundle(b@));
    }
}

/// Appends the encoding of one bundle element.
#[verifier::rlimit(100)]
fn encode_elem(e: &IrBundleElement, out: &mut Vec<u8>)
    requires
        msgpack_encodable_elem(e@),
    ensures
        final(out)@ == old(out)@ + enc_elem(e@),
    decreases *e, 3int,
{
    proof {
        lemma_names();
    }
    match e {
        IrBundleElement::Message(m) => {
            out.push(0x81);
            write_str(out, "Message");
            encode_value(m, out);
            proof {
                assert(out@ =~= old(out)@ + enc_elem(e@));
            }
        },
        IrBundleElement::Bundle(b) => {
            out.push(0x81);
            write_str(out, "Bundle");
            encode_bundle(b, out);
            proof {
                assert(out@ =~= old(out)@ + enc_elem(e@));
            }
        },
    }
}

/// Whether a value fits the format's length headers.
#[verifier::loop_isolation(false)]
fn check_encodable(v: &IrValue) -> (r: bool)
    ensures
        r == msgpack_encodable(v@),
    decreases *v, 0int,
{
    broadcast use lemma_vals_view, lemma_entries_view, lemma_elems_view;

    match v {
        IrValue::String(s) => (s.as_str().as_bytes().len() as u64) < 0x1_0000_0000,
        IrValue::Binary(b) => (b.len() as u64) < 0x1_0000_0000,
        IrValue::Array(xs) => {
            proof {
                lemma_encodable_vals_iff(vals_view(xs@));
            }
            if !((xs.len() as u64) < 0x1_0000_0000) {
                return false;
            }
            let mut i: usize = 0;
            while i < xs.len()
                invariant
                    i <= xs@.len(),
                    forall|k: int| 0 <= k < i ==> msgpack_encodable(#[trigger] vals_view(xs@)[k]),
                decreases xs@.len() - i,
            {
                proof {
                    assert(decreases_to!(*v => xs@[i as int]));
                }
                if !check_encodable(&xs[i]) {
                    proof {
                        assert(!msgpack_encodable(vals_view(xs@)[i as int]));
                    }
                    return false;
                }
                i = i + 1;
            }
            true
        },
        IrValue::Mapping(es) => {
            proof {
                lemma_encodable_entries_iff(entries_view(es@));
            }
            if !((es.len() as u64) < 0x1_0000_0000) {
                return false;
            }
            let mut i: usize = 0;
            while i < es.len()
                invariant
                    i <= es@.len(),
                    forall|k: int|
                        0 <= k < i ==> encode_utf8(#[trigger] entries_view(es@)[k].0).len()
                            < 0x1_0000_0000 && msgpack_encodable(entries_view(es@)[k].1),
                decreases es@.len() - i,
            {
                proof {
                    assert(decreases_to!(*v => es@[i as int].1));
                }
                let entry = &es[i];
                if !((entry.0.as_str().as_bytes().len() as u64) < 0x1_0000_0000) {
                    proof {
                        assert(encode_utf8(entries_view(es@)[i as int].0).len()
                            >= 0x1_0000_0000);
                    }
                    return false;
                }
                if !check_encodable(&entry.1) {
                    proof {
                        assert(entries_view(es@)[i as int].0 == es@[i as int].0@);
                        assert(!msgpack_encodable(entries_view(es@)[i as int].1));
                    }
                    return false;
                }
                proof {
                    assert forall|k: int|
                        0 <= k < i + 1 implies encode_utf8(
                        #[trigger] entries_view(es@)[k].0,
                    ).len() < 0x1_0000_0000 && msgpack_encodable(entries_view(es@)[k].1) by {
                        if k == i {
                            assert(entries_view(es@)[k].0 == es@[k].0@);
                            assert(entries_view(es@)[k].1 == crate::ir::val_view(es@[k].1));
                        }
                    }
                }
                i = i + 1;
            }
            true
        },
        IrValue::Ext { type_id, data } => (data.len() as u64) < 0x1_0000_0000,
        IrValue::Bundle(b) => {
            proof {
                lemma_encodable_elems_iff(elems_view(b.elements@));
            }
            check_bundle_encodable(b)
        },
        _ => true,
    }
}

/// Whether a bundle's elements fit the format's length headers.
#[verifier::loop_isolation(false)]
fn check_bundle_encodable(b: &IrBundle) -> (r: bool)
    ensures
        r == (b@.elements.len() < 0x1_0000_0000 && msgpack_encodable_elems(b@.elements)),
    decreases *b, 2int,
{
    broadcast use lemma_elems_view;

    proof {
        lemma_encodable_elems_iff(elems_view(b.elements@));
    }
    if !((b.elements.len() as u64) < 0x1_0000_0000) {
        return false;
    }
    let mut i: usize = 0;
    while i < b.elements.len()
        invariant
            i <= b.elements@.len(),
            forall|k: int| 0 <= k < i ==> msgpack_encodable_elem(#[trigger] elems_view(
                b.elements@,
            )[k]),
        decreases b.elements@.len() - i,
    {
        proof {
            assert(decreases_to!(*b => b.elements@[i as int]));
        }
        let ok = match &b.elements[i] {
            IrBundleElement::Message(m) => {
                proof {
                    assert(decreases_to!(*b => b.elements@[i as int]));
                }
                check_encodable(m)
            },
            IrBundleElement::Bundle(nested) => check_bundle_encodable(nested),
        };
        if !ok {
            proof {
                assert(!msgpack_encodable_elem(elems_view(b.elements@)[i as int]));
            }
            return false;
        }
        i = i + 1;
    }
    true
}

/// Encodes a value to its binary form, or reports that a string, byte
/// payload, or container is too large for the format's length headers.
pub fn try_to_msgpack(v: &IrValue) -> (r: EncodeResult<Vec<u8>>)
    ensures
        r is Ok <==> msgpack_encodable(v@),
        r matches Ok(b) ==> b@ == msgpack_encode_spec(v@),
{
    if check_encodable(v) {
        Ok(to_msgpack(v))
    } else {
        Err(EncodeError::TooLarge)
    }
}

/// Encodes a value that fits the format's length headers to its binary
/// form.
pub fn to_msgpack(v: &IrValue) -> (r: Vec<u8>)
    requires
        msgpack_encodable(v@),
    ensures
        r@ == msgpack_encode_spec(v@),
{
    let mut out: Vec<u8> = Vec::new();
    encode_value(v, &mut out);
    proof {
        assert(out@ =~= msgpack_encode_spec(v@));
    }
    out
}

/// Reads a canonical unsigned integer.
fn read_u64(s: &[u8], i: usize) -> (r: Result<(u64, usize), DecodeError>)
    ensures
        match dec_u64_at(s@, i as int) {
            Ok((u, j)) => r matches Ok(p) && p.0 == u && p.1 == j,
            Err(e) => r == Err::<(u64, usize), DecodeError>(e),
        },
{
    if i >= s.len() {
        return Err(DecodeError::Truncated);
    }
    let m = s[i];
    if m < 0x80 {
        Ok((m as u64, i + 1))
    } else if m == 0xcc {
        if s.len() - i < 2 {
            Err(DecodeError::Truncated)
        } else if s[i + 1] >= 0x80 {
            Ok((s[i + 1] as u64, i + 2))
        } else {
            Err(DecodeError::Malformed)
        }
    } else if m == 0xcd {
        if s.len() - i < 3 {
            Err(DecodeError::Truncated)
        } else {
            let w = (s[i + 1] as u64) * 0x100 + (s[i + 2] as u64);
            if w >= 0x100 {
                Ok((w, i + 3))
            } else {
                Err(DecodeError::Malformed)
            }
        }
    } else if m == 0xce {
        if s.len() - i < 5 {
            Err(DecodeError::Truncated)
        } else {
            let w = (s[i + 1] as u64) * 0x100_0000 + (s[i + 2] as u64) * 0x1_0000 + (s[i
                + 3] as u64) * 0x100 + (s[i + 4] as u64);
            if w >= 0x1_0000 {
                Ok((w, i + 5))
            } else {
                Err(DecodeError::Malformed)
            }
        }
    } else if m == 0xcf {
        if s.len() - i < 9 {
            Err(DecodeError::Truncated)
        } else {
            let hi = (s[i + 1] as u64) * 0x100_0000 + (s[i + 2] as u64) * 0x1_0000 + (s[i
                + 3] as u64) * 0x100 + (s[i + 4] as u64);
            let lo = (s[i + 5] as u64) * 0x100_0000 + (s[i + 6] as u64) * 0x1_0000 + (s[i
                + 7] as u64) * 0x100 + (s[i + 8] as u64);
            let w = hi * 0x1_0000_0000 + lo;
            if w >= 0x1_0000_0000 {
                Ok((w, i + 9))
            } else {
                Err(DecodeError::Malformed)
            }
        }
    } else {
        Err(DecodeError::Malformed)
    }
}

/// Reads a canonical signed integer.
#[verifier::rlimit(100)]
#[verifier::spinoff_prover]
fn read_i64(s: &[u8], i: usize) -> (r: Result<(i64, usize), DecodeError>)
    ensures
        match dec_i64_at(s@, i as int) {
            Ok((v, j)) => r matches Ok(p) && p.0 == v && p.1 == j,
            Err(e) => r == Err::<(i64, usize), DecodeError>(e),
        },
{
    if i >= s.len() {
        return Err(DecodeError::Truncated);
    }
    let m = s[i];
    if m < 0x80 {
        Ok((m as i64, i + 1))
    } else if m >= 0xe0 {
        let v = (m as i8) as i64;
        proof {
            assert((m as i8) as i64 == m - 0x100) by (bit_vector)
                requires
                    m >= 0xe0,
            ;
        }
        Ok((v, i + 1))
    } else if m == 0xcc {
        if s.len() - i < 2 {
            Err(DecodeError::Truncated)
        } else if s[i + 1] >= 0x80 {
            Ok((s[i + 1] as i64, i + 2))
        } else {
            Err(DecodeError::Malformed)
        }
    } else if m == 0xcd {
        if s.len() - i < 3 {
            Err(DecodeError::Truncated)
        } else {
            let w = (s[i + 1] as u64) * 0x100 + (s[i + 2] as u64);
            if w >= 0x100 {
                Ok((w as i64, i + 3))
            } else {
                Err(DecodeError::Malformed)
            }
        }
    } else if m == 0xce {
        if s.len() - i < 5 {
            Err(DecodeError::Truncated)
        } else {
            let w = (s[i + 1] as u64) * 0x100_0000 + (s[i + 2] as u64) * 0x1_0000 + (s[i
                + 3] as u64) * 0x100 + (s[i + 4] as u64);
            if w >= 0x1_0000 {
                Ok((w as i64, i + 5))
            } else {
                Err(DecodeError::Malformed)
            }
        }
    } else if m == 0xcf {
        if s.len() - i < 9 {
            Err(DecodeError::Truncated)
        } else {
            let hi = (s[i + 1] as u64) * 0x100_0000 + (s[i + 2] as u64) * 0x1_0000 + (s[i
                + 3] as u64) * 0x100 + (s[i + 4] as u64);
            let lo = (s[i + 5] as u64) * 0x100_0000 + (s[i + 6] as u64) * 0x1_0000 + (s[i
                + 7] as u64) * 0x100 + (s[i + 8] as u64);
            let w = hi * 0x1_0000_0000 + lo;
            if w >= 0x1_0000_0000 && w <= 0x7FFF_FFFF_FFFF_FFFF {
                Ok((w as i64, i + 9))
            } else {
                Err(DecodeError::Malformed)
            }
        }
    } else if m == 0xd0 {
        if s.len() - i < 2 {
            Err(DecodeError::Truncated)
        } else {
            let b = s[i + 1];
            if b >= 0x80 && b < 0xe0 {
                let v = (b as i8) as i64;
                proof {
                    assert((b as i8) as i64 == b - 0x100) by (bit_vector)
                        requires
                            b >= 0x80,
                    ;
                }
                Ok((v, i + 2))
            } else {
                Err(DecodeError::Malformed)
            }
        }
    } else if m == 0xd1 {
        if s.len() - i < 3 {
            Err(DecodeError::Truncated)
        } else {
            let w = (s[i + 1] as u64) * 0x100 + (s[i + 2] as u64);
            if w >= 0x8000 {
                let v = ((w as u16) as i16) as i64;
                proof {
                    assert(((w as u16) as i16) as i64 == w - 0x1_0000) by (bit_vector)
                        requires
                            0x8000 <= w < 0x1_0000,
                    ;
                }
                if v < -128 {
                    Ok((v, i + 3))
                } else {
                    Err(DecodeError::Malformed)
                }
            } else {
                Err(DecodeError::Malformed)
            }
        }
    } else if m == 0xd2 {
        if s.len() - i < 5 {
            Err(DecodeError::Truncated)
        } else {
            let w = (s[i + 1] as u64) * 0x100_0000 + (s[i + 2] as u64) * 0x1_0000 + (s[i
                + 3] as u64) * 0x100 + (s[i + 4] as u64);
            if w >= 0x8000_0000 {
                let v = ((w as u32) as i32) as i64;
                proof {
                    assert(((w as u32) as i32) as i64 == w - 0x1_0000_0000) by (bit_vector)
                        requires
                            0x8000_0000 <= w < 0x1_0000_0000,
                    ;
                }
                if v < -0x8000 {
                    Ok((v, i + 5))
                } else {
                    Err(DecodeError::Malformed)
                }
            } else {
                Err(DecodeError::Malformed)
            }
        }
    } else if m == 0xd3 {
        if s.len() - i < 9 {
            Err(DecodeError::Truncated)
        } else {
            let hi = (s[i + 1] as u64) * 0x100_0000 + (s[i + 2] as u64) * 0x1_0000 + (s[i
                + 3] as u64) * 0x100 + (s[i + 4] as u64);
            let lo = (s[i + 5] as u64) * 0x100_0000 + (s[i + 6] as u64) * 0x1_0000 + (s[i
                + 7] as u64) * 0x100 + (s[i + 8] as u64);
            let w = hi * 0x1_0000_0000 + lo;
            if w >= 0x8000_0000_0000_0000 {
                let v = w as i64;
                proof {
                    assert((w as i64) == w - 0x1_0000_0000_0000_0000) by (bit_vector)
                        requires
                            w >= 0x8000_0000_0000_0000,
                    ;
                }
                if v < -0x8000_0000 {
                    Ok((v, i + 9))
                } else {
                    Err(DecodeError::Malformed)
                }
            } else {
                Err(DecodeError::Malformed)
            }
        }
    } else {
        Err(DecodeError::Malformed)
    }
}

/// Reads a double's bit pattern.
fn read_f64_bits(s: &[u8], i: usize) -> (r: Result<(u64, usize), DecodeError>)
    ensures
        match dec_f64_at(s@, i as int) {
            Ok((bits, j)) => r matches Ok(p) && p.0 == bits && p.1 == j,
            Err(e) => r == Err::<(u64, usize), DecodeError>(e),
        },
{
    if i >= s.len() {
        Err(DecodeError::Truncated)
    } else if s[i] != 0xcb {
        Err(DecodeError::Malformed)
    } else if s.len() - i < 9 {
        Err(DecodeError::Truncated)
    } else {
        let hi = (s[i + 1] as u64) * 0x100_0000 + (s[i + 2] as u64) * 0x1_0000 + (s[i + 3] as u64)
            * 0x100 + (s[i + 4] as u64);
        let lo = (s[i + 5] as u64) * 0x100_0000 + (s[i + 6] as u64) * 0x1_0000 + (s[i + 7] as u64)
            * 0x100 + (s[i + 8] as u64);
        Ok((hi * 0x1_0000_0000 + lo, i + 9))
    }
}

/// Reads a canonical string: length header, then that many UTF-8 bytes.
#[verifier::loop_isolation(false)]
fn read_str(s: &[u8], i: usize) -> (r: Result<(String, usize), DecodeError>)
    ensures
        match dec_str_at(s@, i as int) {
            Ok((cs, j)) => r matches Ok(p) && p.0@ == cs && p.1 == j,
            Err(e) => r is Err && r->Err_0 == e,
        },
{
    if i >= s.len() {
        return Err(DecodeError::Truncated);
    }
    let m = s[i];
    let (n, j): (usize, usize) = if 0xa0 <= m && m <= 0xbf {
        ((m - 0xa0) as usize, i + 1)
    } else if m == 0xd9 {
        if s.len() - i < 2 {
            return Err(DecodeError::Truncated);
        }
        if s[i + 1] < 32 {
            return Err(DecodeError::Malformed);
        }
        (s[i + 1] as usize, i + 2)
    } else if m == 0xda {
        if s.len() - i < 3 {
            return Err(DecodeError::Truncated);
        }
        let w = (s[i + 1] as usize) * 0x100 + (s[i + 2] as usize);
        if w < 0x100 {
            return Err(DecodeError::Malformed);
        }
        (w, i + 3)
    } else if m == 0xdb {
        if s.len() - i < 5 {
            return Err(DecodeError::Truncated);
        }
        let w = (s[i + 1] as u64) * 0x100_0000 + (s[i + 2] as u64) * 0x1_0000 + (s[i + 3] as u64)
            * 0x100 + (s[i + 4] as u64);
        if w < 0x1_0000 {
            return Err(DecodeError::Malformed);
        }
        if w > s.len() as u64 {
            return Err(DecodeError::Truncated);
        }
        (w as usize, i + 5)
    } else {
        return Err(DecodeError::Malformed);
    };
    proof {
        assert(dec_strlen_at(s@, i as int) == Ok::<(int, int), DecodeError>((n as int, j as int)));
    }
    if n > s.len() - j {
        return Err(DecodeError::Truncated);
    }
    let mut bytes: Vec<u8> = Vec::new();
    let mut k: usize = 0;
    while k < n
        invariant
            k <= n,
            j + n <= s@.len(),
            bytes@ == s@.subrange(j as int, j + k as int),
        decreases n - k,
    {
        bytes.push(s[j + k]);
        proof {
            assert(bytes@ =~= s@.subrange(j as int, j + (k + 1) as int));
        }
        k = k + 1;
    }
    match utf8_to_string(bytes) {
        Some(text) => Ok((text, j + n)),
        None => Err(DecodeError::Malformed),
    }
}

/// Reads a canonical raw-bytes payload.
#[verifier::loop_isolation(false)]
fn read_bin(s: &[u8], i: usize) -> (r: Result<(Vec<u8>, usize), DecodeError>)
    ensures
        match dec_bin_at(s@, i as int) {
            Ok((b, j)) => r matches Ok(p) && p.0@ == b && p.1 == j,
            Err(e) => r is Err && r->Err_0 == e,
        },
{
    if i >= s.len() {
        return Err(DecodeError::Truncated);
    }
    let m = s[i];
    let (n, j): (usize, usize) = if m == 0xc4 {
        if s.len() - i < 2 {
            return Err(DecodeError::Truncated);
        }
        (s[i + 1] as usize, i + 2)
    } else if m == 0xc5 {
        if s.len() - i < 3 {
            return Err(DecodeError::Truncated);
        }
        let w = (s[i + 1] as usize) * 0x100 + (s[i + 2] as usize);
        if w < 0x100 {
            return Err(DecodeError::Malformed);
        }
        (w, i + 3)
    } else if m == 0xc6 {
        if s.len() - i < 5 {
            return Err(DecodeError::Truncated);
        }
        let w = (s[i + 1] as u64) * 0x100_0000 + (s[i + 2] as u64) * 0x1_0000 + (s[i + 3] as u64)
            * 0x100 + (s[i + 4] as u64);
        if w < 0x1_0000 {
            return Err(DecodeError::Malformed);
        }
        if w > s.len() as u64 {
            return Err(DecodeError::Truncated);
        }
        (w as usize, i + 5)
    } else {
        return Err(DecodeError::Malformed);
    };
    if n > s.len() - j {
        return Err(DecodeError::Truncated);
    }
    let mut bytes: Vec<u8> = Vec::new();
    let mut k: usize = 0;
    while k < n
        invariant
            k <= n,
            j + n <= s@.len(),
            bytes@ == s@.subrange(j as int, j + k as int),
        decreases n - k,
    {
        bytes.push(s[j + k]);
        proof {
            assert(bytes@ =~= s@.subrange(j as int, j + (k + 1) as int));
        }
        k = k + 1;
    }
    Ok((bytes, j + n))
}

/// Reads a canonical array count header.
fn read_arrlen(s: &[u8], i: usize) -> (r: Result<(usize, usize), DecodeError>)
    ensures
        match dec_arrlen_at(s@, i as int) {
            Ok((n, j)) => r matches Ok(p) && p.0 == n && p.1 == j,
            Err(e) => r == Err::<(usize, usize), DecodeError>(e),
        },
{
    if i >= s.len() {
        return Err(DecodeError::Truncated);
    }
    let m = s[i];
    if 0x90 <= m && m <= 0x9f {
        Ok(((m - 0x90) as usize, i + 1))
    } else if m == 0xdc {
        if s.len() - i < 3 {
            Err(DecodeError::Truncated)
        } else {
            let w = (s[i + 1] as usize) * 0x100 + (s[i + 2] as usize);
            if w >= 16 {
                Ok((w, i + 3))
            } else {
                Err(DecodeError::Malformed)
            }
        }
    } else if m == 0xdd {
        if s.len() - i < 5 {
            Err(DecodeError::Truncated)
        } else {
            let w = (s[i + 1] as u64) * 0x100_0000 + (s[i + 2] as u64) * 0x1_0000 + (s[i
                + 3] as u64) * 0x100 + (s[i + 4] as u64);
            if w >= 0x1_0000 {
                Ok((w as usize, i + 5))
            } else {
                Err(DecodeError::Malformed)
            }
        }
    } else {
        Err(DecodeError::Malformed)
    }
}

/// A successfully parsed string ends after where it began, within bounds.
proof fn lemma_dec_str_at_bounds(s: Seq<u8>, i: int)
    requires
        0 <= i,
    ensures
        dec_str_at(s, i) matches Ok(p) ==> i < p.1 <= s.len(),
{
}

/// A successfully parsed array count header ends after where it began,
/// within bounds.
proof fn lemma_dec_arrlen_at_bounds(s: Seq<u8>, i: int)
    requires
        0 <= i,
    ensures
        dec_arrlen_at(s, i) matches Ok(p) ==> i < p.1 <= s.len(),
{
}

/// Decodes one value at a position.
#[verifier::rlimit(100)]
#[verifier::spinoff_prover]
fn decode_value(s: &[u8], i: usize) -> (r: Result<(IrValue, usize), DecodeError>)
    ensures
        match dec_val(s@, i as int) {
            Ok((v, j)) => r matches Ok(p) && p.0@ == v && p.1 == j,
            Err(e) => r is Err && r->Err_0 == e,
        },
    decreases s@.len() - i, 1int,
{
    if i >= s.len() {
        return Err(DecodeError::Truncated);
    }
    let m = s[i];
    if (0xa0 <= m && m <= 0xbf) || m == 0xd9 || m == 0xda || m == 0xdb {
        match read_str(s, i) {
            Ok((name, j)) => {
                if str_eq(name.as_str(), "Null") {
                    Ok((IrValue::Null, j))
                } else {
                    Err(DecodeError::UnknownTag)
                }
            },
            Err(e) => Err(e),
        }
    } else if m == 0x81 {
        let (name, j) = match read_str(s, i + 1) {
            Ok(p) => p,
            Err(e) => {
                return Err(e);
            },
        };
        proof {
            lemma_dec_str_at_bounds(s@, i + 1 as int);
        }
        decode_variant(s, i, &name, j)
    } else {
        Err(DecodeError::Malformed)
    }
}

/// Decodes the payload of a one-entry variant map whose name was just
/// read.
#[verifier::rlimit(100)]
#[verifier::spinoff_prover]
fn decode_variant(s: &[u8], i: usize, name: &String, j: usize) -> (r: Result<
    (IrValue, usize),
    DecodeError,
>)
    requires
        i < s@.len(),
        s@[i as int] == 0x81,
        i < j <= s@.len(),
        dec_str_at(s@, i + 1 as int) == Ok::<(Seq<char>, int), DecodeError>((name@, j as int)),
    ensures
        match dec_val(s@, i as int) {
            Ok((v, j2)) => r matches Ok(p) && p.0@ == v && p.1 == j2,
            Err(e) => r is Err && r->Err_0 == e,
        },
    decreases s@.len() - i, 0int,
{
    {
        if str_eq(name.as_str(), "Bool") {
            if j >= s.len() {
                Err(DecodeError::Truncated)
            } else if s[j] == 0xc2 {
                Ok((IrValue::Bool(false), j + 1))
            } else if s[j] == 0xc3 {
                Ok((IrValue::Bool(true), j + 1))
            } else {
                Err(DecodeError::Malformed)
            }
        } else if str_eq(name.as_str(), "Integer") {
            match read_i64(s, j) {
                Ok((v, j2)) => Ok((IrValue::Integer(v), j2)),
                Err(e) => Err(e),
            }
        } else if str_eq(name.as_str(), "Float") {
            match read_f64_bits(s, j) {
                Ok((bits, j2)) => Ok((IrValue::Float(bits), j2)),
                Err(e) => Err(e),
            }
        } else if str_eq(name.as_str(), "String") {
            match read_str(s, j) {
                Ok((t, j2)) => Ok((IrValue::String(t), j2)),
                Err(e) => Err(e),
            }
        } else if str_eq(name.as_str(), "Binary") {
            match read_bin(s, j) {
                Ok((b, j2)) => Ok((IrValue::Binary(b), j2)),
                Err(e) => Err(e),
            }
        } else if str_eq(name.as_str(), "Array") {
            match read_arrlen(s, j) {
                Ok((n, j2)) => {
                    proof {
                        lemma_dec_arrlen_at_bounds(s@, j as int);
                    }
                    match decode_values(s, j2, n) {
                        Ok((vs, j3)) => Ok((IrValue::Array(vs), j3)),
                        Err(e) => Err(e),
                    }
                },
                Err(e) => Err(e),
            }
        } else if str_eq(name.as_str(), "Map") {
            match read_arrlen(s, j) {
                Ok((n, j2)) => {
                    proof {
                        lemma_dec_arrlen_at_bounds(s@, j as int);
                    }
                    match decode_entry_list(s, j2, n) {
                        Ok((es, j3)) => Ok((IrValue::Mapping(es), j3)),
                        Err(e) => Err(e),
                    }
                },
                Err(e) => Err(e),
            }
        } else if str_eq(name.as_str(), "Timestamp") {
            match read_ts_body(s, j) {
                Ok(((sec, ns), j2)) => Ok(
                    (IrValue::Timestamp(IrTimestamp { seconds: sec, nanos: ns }), j2),
                ),
                Err(e) => Err(e),
            }
        } else if str_eq(name.as_str(), "Ext") {
            match read_ext_body(s, j) {
                Ok(((id, d), j2)) => Ok((IrValue::Ext { type_id: id, data: d }, j2)),
                Err(e) => Err(e),
            }
        } else if str_eq(name.as_str(), "Bundle") {
            match decode_bundle_body(s, j) {
                Ok((b, j2)) => Ok((IrValue::Bundle(b), j2)),
                Err(e) => Err(e),
            }
        } else {
            Err(DecodeError::UnknownTag)
        }
    }
}

/// Reads a timestamp's body.
fn read_ts_body(s: &[u8], i: usize) -> (r: Result<((i64, u32), usize), DecodeError>)
    ensures
        match dec_ts_body(s@, i as int) {
            Ok(((sec, ns), j)) => r matches Ok(p) && p.0.0 == sec && p.0.1 == ns && p.1 == j,
            Err(e) => r is Err && r->Err_0 == e,
        },
{
    if i >= s.len() {
        return Err(DecodeError::Truncated);
    }
    if s[i] != 0x82 {
        return Err(DecodeError::Malformed);
    }
    let (k1, p1) = match read_str(s, i + 1) {
        Ok(p) => p,
        Err(e) => {
            return Err(e);
        },
    };
    if !str_eq(k1.as_str(), "seconds") {
        return Err(DecodeError::Malformed);
    }
    let (sec, p2) = match read_i64(s, p1) {
        Ok(p) => p,
        Err(e) => {
            return Err(e);
        },
    };
    let (k2, p3) = match read_str(s, p2) {
        Ok(p) => p,
        Err(e) => {
            return Err(e);
        },
    };
    if !str_eq(k2.as_str(), "nanos") {
        return Err(DecodeError::Malformed);
    }
    let (ns, p4) = match read_u64(s, p3) {
        Ok(p) => p,
        Err(e) => {
            return Err(e);
        },
    };
    if ns <= 0xFFFF_FFFF {
        Ok(((sec, ns as u32), p4))
    } else {
        Err(DecodeError::Malformed)
    }
}

/// Reads an extension payload's body.
fn read_ext_body(s: &[u8], i: usize) -> (r: Result<((i8, Vec<u8>), usize), DecodeError>)
    ensures
        match dec_ext_body(s@, i as int) {
            Ok(((id, d), j)) => r matches Ok(p) && p.0.0 == id && p.0.1@ == d && p.1 == j,
            Err(e) => r is Err && r->Err_0 == e,
        },
{
    if i >= s.len() {
        return Err(DecodeError::Truncated);
    }
    if s[i] != 0x82 {
        return Err(DecodeError::Malformed);
    }
    let (k1, p1) = match read_str(s, i + 1) {
        Ok(p) => p,
        Err(e) => {
            return Err(e);
        },
    };
    if !str_eq(k1.as_str(), "type_id") {
        return Err(DecodeError::Malformed);
    }
    let (id, p2) = match read_i64(s, p1) {
        Ok(p) => p,
        Err(e) => {
            return Err(e);
        },
    };
    if id < -128 || id > 127 {
        return Err(DecodeError::Malformed);
    }
    let (k2, p3) = match read_str(s, p2) {
        Ok(p) => p,
        Err(e) => {
            return Err(e);
        },
    };
    if !str_eq(k2.as_str(), "data") {
        return Err(DecodeError::Malformed);
    }
    let (d, p4) = match read_bin(s, p3) {
        Ok(p) => p,
        Err(e) => {
            return Err(e);
        },
    };
    Ok(((id as i8, d), p4))
}

/// Decodes a bundle's body at a position.
#[verifier::rlimit(100)]
#[verifier::spinoff_prover]
fn decode_bundle_body(s: &[u8], i: usize) -> (r: Result<(IrBundle, usize), DecodeError>)
    ensures
        match dec_bundle_body(s@, i as int) {
            Ok((b, j)) => r matches Ok(p) && p.0@ == b && p.1 == j,
            Err(e) => r is Err && r->Err_0 == e,
        },
    decreases s@.len() - i, 2int,
{
    if i >= s.len() {
        return Err(DecodeError::Truncated);
    }
    if s[i] != 0x82 {
        return Err(DecodeError::Malformed);
    }
    let (k1, p1) = match read_str(s, i + 1) {
        Ok(p) => p,
        Err(e) => {
            return Err(e);
        },
    };
    if !str_eq(k1.as_str(), "timetag") {
        return Err(DecodeError::Malformed);
    }
    if p1 >= s.len() {
        return Err(DecodeError::Truncated);
    }
    if s[p1] != 0x81 {
        return Err(DecodeError::Malformed);
    }
    let (kv, p2) = match read_str(s, p1 + 1) {
        Ok(p) => p,
        Err(e) => {
            return Err(e);
        },
    };
    if !str_eq(kv.as_str(), "value") {
        return Err(DecodeError::Malformed);
    }
    let (tt, p3) = match read_u64(s, p2) {
        Ok(p) => p,
        Err(e) => {
            return Err(e);
        },
    };
    let (k2, p4) = match read_str(s, p3) {
        Ok(p) => p,
        Err(e) => {
            return Err(e);
        },
    };
    if !str_eq(k2.as_str(), "elements") {
        return Err(DecodeError::Malformed);
    }
    let (n, p5) = match read_arrlen(s, p4) {
        Ok(p) => p,
        Err(e) => {
            return Err(e);
        },
    };
    if !(p5 > i && p5 <= s.len()) {
        return Err(DecodeError::Malformed);
    }
    match decode_elem_list(s, p5, n) {
        Ok((els, p6)) => Ok((IrBundle { timetag: IrTimetag { value: tt }, elements: els }, p6)),
        Err(e) => Err(e),
    }
}

/// Decodes `n` consecutive values.
#[verifier::rlimit(100)]
fn decode_values(s: &[u8], i: usize, n: usize) -> (r: Result<(Vec<IrValue>, usize), DecodeError>)
    ensures
        match dec_vals(s@, i as int, n as int) {
            Ok((vs, j)) => r matches Ok(p) && vals_view(p.0@) == vs && p.1 == j,
            Err(e) => r is Err && r->Err_0 == e,
        },
    decreases s@.len() - i, 2int, n,
{
    broadcast use lemma_vals_view;

    if n == 0 {
        proof {
            assert(vals_view(Seq::<IrValue>::empty()) =~= Seq::<IrValS>::empty());
        }
        return Ok((Vec::new(), i));
    }
    let (v, j) = match decode_value(s, i) {
        Ok(p) => p,
        Err(e) => {
            return Err(e);
        },
    };
    if !(j > i && j <= s.len()) {
        return Err(DecodeError::Malformed);
    }
    match decode_values(s, j, n - 1) {
        Ok((mut rest, j2)) => {
            let ghost rest0 = rest@;
            rest.insert(0, v);
            proof {
                assert(vals_view(rest@) =~= seq![v@] + vals_view(rest0));
            }
            Ok((rest, j2))
        },
        Err(e) => Err(e),
    }
}

/// Decodes `n` consecutive key/value pairs.
#[verifier::rlimit(100)]
fn decode_entry_list(s: &[u8], i: usize, n: usize) -> (r: Result<
    (Vec<(String, IrValue)>, usize),
    DecodeError,
>)
    ensures
        match dec_entries(s@, i as int, n as int) {
            Ok((es, j)) => r matches Ok(p) && entries_view(p.0@) == es && p.1 == j,
            Err(e) => r is Err && r->Err_0 == e,
        },
    decreases s@.len() - i, 2int, n,
{
    broadcast use lemma_entries_view;

    if n == 0 {
        proof {
            assert(entries_view(Seq::<(String, IrValue)>::empty()) =~= Seq::<
                (Seq<char>, IrValS),
            >::empty());
        }
        return Ok((Vec::new(), i));
    }
    if i >= s.len() {
        return Err(DecodeError::Truncated);
    }
    if s[i] != 0x92 {
        return Err(DecodeError::Malformed);
    }
    let (k, j) = match read_str(s, i + 1) {
        Ok(p) => p,
        Err(e) => {
            return Err(e);
        },
    };
    let (v, j2) = match decode_value(s, j) {
        Ok(p) => p,
        Err(e) => {
            return Err(e);
        },
    };
    if !(j2 > i && j2 <= s.len()) {
        return Err(DecodeError::Malformed);
    }
    match decode_entry_list(s, j2, n - 1) {
        Ok((mut rest, j3)) => {
            let ghost rest0 = rest@;
            rest.insert(0, (k, v));
            proof {
                assert(entries_view(rest@) =~= seq![(k@, v@)] + entries_view(rest0));
            }
            Ok((rest, j3))
        },
        Err(e) => Err(e),
    }
}

/// Decodes `n` consecutive bundle elements.
#[verifier::rlimit(100)]
fn decode_elem_list(s: &[u8], i: usize, n: usize) -> (r: Result<
    (Vec<IrBundleElement>, usize),
    DecodeError,
>)
    ensures
        match dec_elems(s@, i as int, n as int) {
            Ok((els, j)) => r matches Ok(p) && elems_view(p.0@) == els && p.1 == j,
            Err(e) => r is Err && r->Err_0 == e,
        },
    decreases s@.len() - i, 2int, n,
{
    broadcast use lemma_elems_view;

    if n == 0 {
        proof {
            assert(elems_view(Seq::<IrBundleElement>::empty()) =~= Seq::<IrElemS>::empty());
        }
        return Ok((Vec::new(), i));
    }
    let (el, j) = match decode_elem(s, i) {
        Ok(p) => p,
        Err(e) => {
            return Err(e);
        },
    };
    if !(j > i && j <= s.len()) {
        return Err(DecodeError::Malformed);
    }
    match decode_elem_list(s, j, n - 1) {
        Ok((mut rest, j2)) => {
            let ghost rest0 = rest@;
            rest.insert(0, el);
            proof {
                assert(elems_view(rest@) =~= seq![el@] + elems_view(rest0));
            }
            Ok((rest, j2))
        },
        Err(e) => Err(e),
    }
}

/// Decodes one bundle element at a position.
#[verifier::rlimit(100)]
fn decode_elem(s: &[u8], i: usize) -> (r: Result<(IrBundleElement, usize), DecodeError>)
    ensures
        match dec_elem(s@, i as int) {
            Ok((el, j)) => r matches Ok(p) && p.0@ == el && p.1 == j,
            Err(e) => r is Err && r->Err_0 == e,
        },
    decreases s@.len() - i, 0int,
{
    if i >= s.len() {
        return Err(DecodeError::Truncated);
    }
    if s[i] != 0x81 {
        return Err(DecodeError::Malformed);
    }
    let (name, j) = match read_str(s, i + 1) {
        Ok(p) => p,
        Err(e) => {
            return Err(e);
        },
    };
    if str_eq(name.as_str(), "Message") {
        match decode_value(s, j) {
            Ok((v, j2)) => Ok((IrBundleElement::Message(v), j2)),
            Err(e) => Err(e),
        }
    } else if str_eq(name.as_str(), "Bundle") {
        match decode_bundle_body(s, j) {
            Ok((b, j2)) => Ok((IrBundleElement::Bundle(b), j2)),
            Err(e) => Err(e),
        }
    } else {
        Err(DecodeError::UnknownTag)
    }
}

/// Decodes a binary form back to a value, or reports how the input is
/// unusable: cut short, naming an unknown variant, or otherwise outside
/// the canonical grammar.
pub fn try_from_msgpack(bytes: &[u8]) -> (r: DecodeResult<IrValue>)
    ensures
        match msgpack_decode_spec(bytes@) {
            Ok(v) => r matches Ok(rv) && rv@ == v,
            Err(e) => r is Err && r->Err_0 == e,
        },
{
    match decode_value(bytes, 0) {
        Ok((v, j)) => {
            if j == bytes.len() {
                Ok(v)
            } else {
                Err(DecodeError::Malformed)
            }
        },
        Err(e) => Err(e),
    }
}

/// Decodes a binary form known to be a whole canonical encoding.
pub fn from_msgpack(bytes: &[u8]) -> (r: IrValue)
    requires
        msgpack_decode_spec(bytes@) is Ok,
    ensures
        match msgpack_decode_spec(bytes@) {
            Ok(v) => r@ == v,
            Err(_) => false,
        },
{
    match try_from_msgpack(bytes) {
        Ok(v) => v,
        Err(_) => {
            proof {
                assert(false);
            }
            IrValue::Null
        },
    }
}

/// Decoding either codec's encoding of a safe, header-sized value gives
/// the value back: the two codecs agree on every value both can carry.
pub proof fn lemma_cross_codec_agreement(v: IrValS)
    requires
        crate::json::json_safe(v),
        msgpack_encodable(v),
    ensures
        crate::json::json_to_ir_spec(crate::json::ir_to_json_spec(v)) == v,
        msgpack_decode_spec(msgpack_encode_spec(v)) == Ok::<IrValS, DecodeError>(v),
{
    crate::json::lemma_json_round_trip(v);
    lemma_msgpack_round_trip(v);
}

/// A bundle of any nesting depth survives both codecs whole: its timetag,
/// its element order, and each element's kind come back exactly, because
/// the bundle itself comes back exactly.
pub proof fn lemma_bundle_round_trips(b: IrBundleS)
    requires
        crate::json::json_safe(IrValS::Bundle(b)),
        msgpack_encodable(IrValS::Bundle(b)),
    ensures
        crate::json::json_to_ir_spec(crate::json::ir_to_json_spec(IrValS::Bundle(b)))
            == IrValS::Bundle(b),
        msgpack_decode_spec(msgpack_encode_spec(IrValS::Bundle(b))) == Ok::<IrValS, DecodeError>(
            IrValS::Bundle(b),
        ),
{
    lemma_cross_codec_agreement(IrValS::Bundle(b));
}

} // verus!
