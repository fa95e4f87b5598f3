//! The MessagePack wire format, stated as spec functions: big-endian numbers, the marker
//! table, the encoding of each value and the decoding of a byte string.
use vstd::prelude::*;
use vstd::utf8::*;

use crate::value::ValueModel;

verus! {

/// `256` to the power `k`.
pub open spec fn pow256(k: nat) -> nat
    decreases k,
{
    if k == 0 {
        1
    } else {
        256 * pow256((k - 1) as nat)
    }
}

/// The `k` low bytes of `x`, most significant first.
pub open spec fn be_bytes(x: nat, k: nat) -> Seq<u8>
    decreases k,
{
    if k == 0 {
        seq![]
    } else {
        be_bytes(x / 256, (k - 1) as nat).push((x % 256) as u8)
    }
}

/// The number that the bytes `s` spell, most significant first.
pub open spec fn be_value(s: Seq<u8>) -> nat
    decreases s.len(),
{
    if s.len() == 0 {
        0
    } else {
        be_value(s.drop_last()) * 256 + s.last() as nat
    }
}

/// `x`, read as a two's complement number of `bits` bits.
pub open spec fn signed(x: nat, bits: nat) -> int {
    if x >= pow2_of(bits) / 2 {
        x - pow2_of(bits)
    } else {
        x as int
    }
}

/// `2` to the power `bits`, for the widths that the format uses.
pub open spec fn pow2_of(bits: nat) -> nat {
    if bits == 8 {
        0x100
    } else if bits == 16 {
        0x1_0000
    } else if bits == 32 {
        0x1_0000_0000
    } else {
        0x1_0000_0000_0000_0000
    }
}

/// A byte read as `i8`.
pub open spec fn byte_as_i8(b: u8) -> i8 {
    signed(b as nat, 8) as i8
}

/// The two's complement byte of an `i8`.
pub open spec fn i8_as_byte(x: i8) -> u8 {
    if x < 0 {
        (x + 256) as u8
    } else {
        x as u8
    }
}

// ---------------------------------------------------------------------------------------
// Markers
// ---------------------------------------------------------------------------------------
/// The first byte of every encoded value: its format family and, for the fix families,
/// the number that it carries.
#[derive(Clone, Copy, Debug, PartialEq, Eq)]
pub enum Marker {
    FixPos(u8),
    FixNeg(i8),
    Null,
    True,
    False,
    U8,
    U16,
    U32,
    U64,
    I8,
    I16,
    I32,
    I64,
    F32,
    F64,
    FixStr(u8),
    Str8,
    Str16,
    Str32,
    Bin8,
    Bin16,
    Bin32,
    FixArray(u8),
    Array16,
    Array32,
    FixMap(u8),
    Map16,
    Map32,
    FixExt1,
    FixExt2,
    FixExt4,
    FixExt8,
    FixExt16,
    Ext8,
    Ext16,
    Ext32,
    Reserved,
}

/// The marker table of the MessagePack specification.
pub open spec fn marker_of(b: u8) -> Marker {
    if b <= 0x7f {
        Marker::FixPos(b)
    } else if b <= 0x8f {
        Marker::FixMap((b - 0x80) as u8)
    } else if b <= 0x9f {
        Marker::FixArray((b - 0x90) as u8)
    } else if b <= 0xbf {
        Marker::FixStr((b - 0xa0) as u8)
    } else if b >= 0xe0 {
        Marker::FixNeg((b - 0x100) as i8)
    } else {
        match b {
            0xc0 => Marker::Null,
            0xc1 => Marker::Reserved,
            0xc2 => Marker::False,
            0xc3 => Marker::True,
            0xc4 => Marker::Bin8,
            0xc5 => Marker::Bin16,
            0xc6 => Marker::Bin32,
            0xc7 => Marker::Ext8,
            0xc8 => Marker::Ext16,
            0xc9 => Marker::Ext32,
            0xca => Marker::F32,
            0xcb => Marker::F64,
            0xcc => Marker::U8,
            0xcd => Marker::U16,
            0xce => Marker::U32,
            0xcf => Marker::U64,
            0xd0 => Marker::I8,
            0xd1 => Marker::I16,
            0xd2 => Marker::I32,
            0xd3 => Marker::I64,
            0xd4 => Marker::FixExt1,
            0xd5 => Marker::FixExt2,
            0xd6 => Marker::FixExt4,
            0xd7 => Marker::FixExt8,
            0xd8 => Marker::FixExt16,
            0xd9 => Marker::Str8,
            0xda => Marker::Str16,
            0xdb => Marker::Str32,
            0xdc => Marker::Array16,
            0xdd => Marker::Array32,
            0xde => Marker::Map16,
            _ => Marker::Map32,
        }
    }
}

impl Marker {
    /// The marker that a byte stands for.
    pub fn from_u8(n: u8) -> (m: Marker)
        ensures
            m == marker_of(n),
    {
        if n <= 0x7f {
            Marker::FixPos(n)
        } else if n <= 0x8f {
            Marker::FixMap(n - 0x80)
        } else if n <= 0x9f {
            Marker::FixArray(n - 0x90)
        } else if n <= 0xbf {
            Marker::FixStr(n - 0xa0)
        } else if n >= 0xe0 {
            Marker::FixNeg((n as i16 - 0x100) as i8)
        } else {
            match n {
                0xc0 => Marker::Null,
                0xc1 => Marker::Reserved,
                0xc2 => Marker::False,
                0xc3 => Marker::True,
                0xc4 => Marker::Bin8,
                0xc5 => Marker::Bin16,
                0xc6 => Marker::Bin32,
                0xc7 => Marker::Ext8,
                0xc8 => Marker::Ext16,
                0xc9 => Marker::Ext32,
                0xca => Marker::F32,
                0xcb => Marker::F64,
                0xcc => Marker::U8,
                0xcd => Marker::U16,
                0xce => Marker::U32,
                0xcf => Marker::U64,
                0xd0 => Marker::I8,
                0xd1 => Marker::I16,
                0xd2 => Marker::I32,
                0xd3 => Marker::I64,
                0xd4 => Marker::FixExt1,
                0xd5 => Marker::FixExt2,
                0xd6 => Marker::FixExt4,
                0xd7 => Marker::FixExt8,
                0xd8 => Marker::FixExt16,
                0xd9 => Marker::Str8,
                0xda => Marker::Str16,
                0xdb => Marker::Str32,
                0xdc => Marker::Array16,
                0xdd => Marker::Array32,
                0xde => Marker::Map16,
                _ => Marker::Map32,
            }
        }
    }
}

// ---------------------------------------------------------------------------------------
// Encoding
// ---------------------------------------------------------------------------------------
/// The shortest encoding of an unsigned integer.
pub open spec fn uint_bytes(n: u64) -> Seq<u8> {
    if n < 128 {
        seq![n as u8]
    } else if n < 256 {
        seq![0xccu8, n as u8]
    } else if n < 65536 {
        seq![0xcdu8] + be_bytes(n as nat, 2)
    } else if n < 0x1_0000_0000 {
        seq![0xceu8] + be_bytes(n as nat, 4)
    } else {
        seq![0xcfu8] + be_bytes(n as nat, 8)
    }
}

/// The shortest encoding of a signed integer; non-negative ones are encoded as unsigned.
pub open spec fn sint_bytes(n: i64) -> Seq<u8> {
    if -32 <= n < 0 {
        seq![(n + 256) as u8]
    } else if -128 <= n < -32 {
        seq![0xd0u8, (n + 256) as u8]
    } else if -32768 <= n < -128 {
        seq![0xd1u8] + be_bytes((n + 0x1_0000) as nat, 2)
    } else if -0x8000_0000 <= n < -32768 {
        seq![0xd2u8] + be_bytes((n + 0x1_0000_0000) as nat, 4)
    } else if n < -0x8000_0000 {
        seq![0xd3u8] + be_bytes((n + 0x1_0000_0000_0000_0000) as nat, 8)
    } else {
        uint_bytes(n as u64)
    }
}

/// The header of a string of `len` bytes.
pub open spec fn str_header(len: u32) -> Seq<u8> {
    if len < 32 {
        seq![(0xa0 + len) as u8]
    } else if len < 256 {
        seq![0xd9u8, len as u8]
    } else if len < 65536 {
        seq![0xdau8] + be_bytes(len as nat, 2)
    } else {
        seq![0xdbu8] + be_bytes(len as nat, 4)
    }
}

/// The header of a binary blob of `len` bytes.
pub open spec fn bin_header(len: u32) -> Seq<u8> {
    if len < 256 {
        seq![0xc4u8, len as u8]
    } else if len < 65536 {
        seq![0xc5u8] + be_bytes(len as nat, 2)
    } else {
        seq![0xc6u8] + be_bytes(len as nat, 4)
    }
}

/// The header of an array of `len` elements.
pub open spec fn array_header(len: u32) -> Seq<u8> {
    if len < 16 {
        seq![(0x90 + len) as u8]
    } else if len < 65536 {
        seq![0xdcu8] + be_bytes(len as nat, 2)
    } else {
        seq![0xddu8] + be_bytes(len as nat, 4)
    }
}

/// The header of a map of `len` entries.
pub open spec fn map_header(len: u32) -> Seq<u8> {
    if len < 16 {
        seq![(0x80 + len) as u8]
    } else if len < 65536 {
        seq![0xdeu8] + be_bytes(len as nat, 2)
    } else {
        seq![0xdfu8] + be_bytes(len as nat, 4)
    }
}

/// The header of an extension value of `len` data bytes and type `ty`.
pub open spec fn ext_header(len: u32, ty: i8) -> Seq<u8> {
    let head = if len == 1 {
        seq![0xd4u8]
    } else if len == 2 {
        seq![0xd5u8]
    } else if len == 4 {
        seq![0xd6u8]
    } else if len == 8 {
        seq![0xd7u8]
    } else if len == 16 {
        seq![0xd8u8]
    } else if len < 256 {
        seq![0xc7u8, len as u8]
    } else if len < 65536 {
        seq![0xc8u8] + be_bytes(len as nat, 2)
    } else {
        seq![0xc9u8] + be_bytes(len as nat, 4)
    };
    head.push(i8_as_byte(ty))
}

/// The length that goes into a header: the count, cut to its low 32 bits.
pub open spec fn len32(n: nat) -> u32 {
    (n % 0x1_0000_0000) as u32
}

/// The bytes that encode a value.
pub open spec fn encode(v: ValueModel) -> Seq<u8>
    decreases v,
{
    match v {
        ValueModel::Nil => seq![0xc0u8],
        ValueModel::Boolean(b) => if b {
            seq![0xc3u8]
        } else {
            seq![0xc2u8]
        },
        ValueModel::Integer(n) => if n >= 0 {
            uint_bytes(n as u64)
        } else {
            sint_bytes(n as i64)
        },
        ValueModel::F32(bits) => seq![0xcau8] + be_bytes(bits as nat, 4),
        ValueModel::F64(bits) => seq![0xcbu8] + be_bytes(bits as nat, 8),
        ValueModel::String(bytes) => str_header(len32(bytes.len())) + bytes,
        ValueModel::Binary(bytes) => bin_header(len32(bytes.len())) + bytes,
        ValueModel::Array(items) => array_header(len32(items.len())) + encode_items(items),
        ValueModel::Mapping(entries) => map_header(len32(entries.len())) + encode_entries(entries),
        ValueModel::Ext(ty, data) => ext_header(len32(data.len()), ty) + data,
    }
}

/// The encodings of `items`, one after the other.
pub open spec fn encode_items(items: Seq<ValueModel>) -> Seq<u8>
    decreases items,
{
    if items.len() == 0 {
        seq![]
    } else {
        encode(items[0]) + encode_items(items.drop_first())
    }
}

/// The encodings of the keys and values of `entries`, key before value, one entry after the
/// other.
pub open spec fn encode_entries(entries: Seq<(ValueModel, ValueModel)>) -> Seq<u8>
    decreases entries,
{
    if entries.len() == 0 {
        seq![]
    } else {
        encode(entries[0].0) + encode(entries[0].1) + encode_entries(entries.drop_first())
    }
}

// ---------------------------------------------------------------------------------------
// Decoding
// ---------------------------------------------------------------------------------------
/// Why a read failed.
pub enum Failure {
    /// The depth allowed ran out.
    Depth,
    /// The input ended where a marker byte was due.
    MarkerMissing,
    /// The input ended inside the data that a marker announced.
    DataMissing,
}

/// The outcome of reading: the item read or why the reading failed, and the number of bytes
/// that the reading consumed (also when it failed).
pub type Parsed<T> = (Result<T, Failure>, nat);

/// `p` read after `k` bytes that were consumed before it.
pub open spec fn shift<T>(k: nat, p: Parsed<T>) -> Parsed<T> {
    (p.0, p.1 + k)
}

/// A big-endian number of `k` bytes.
pub open spec fn parse_number(s: Seq<u8>, k: nat) -> Parsed<nat> {
    if s.len() < k {
        (Err(Failure::DataMissing), 0)
    } else {
        (Ok(be_value(s.take(k as int))), k)
    }
}

/// A number read as an integer, of `bits` bits, signed or not.
pub open spec fn as_integer(p: Parsed<nat>, is_signed: bool, bits: nat) -> Parsed<ValueModel> {
    match p.0 {
        Ok(x) => (
            Ok(ValueModel::Integer(
                if is_signed {
                    signed(x, bits)
                } else {
                    x as int
                },
            )),
            p.1,
        ),
        Err(f) => (Err(f), p.1),
    }
}

/// A number read as the bits of a float; `wide` for double precision.
pub open spec fn as_float(p: Parsed<nat>, wide: bool) -> Parsed<ValueModel> {
    match p.0 {
        Ok(x) => (
            Ok(
                if wide {
                    ValueModel::F64(x as u64)
                } else {
                    ValueModel::F32(x as u32)
                },
            ),
            p.1,
        ),
        Err(f) => (Err(f), p.1),
    }
}

/// Raw bytes of length `len`; the call spends one level of depth.
pub open spec fn parse_bin(s: Seq<u8>, len: nat, depth: nat) -> Parsed<Seq<u8>> {
    if depth == 0 {
        (Err(Failure::Depth), 0)
    } else if len > s.len() {
        (Err(Failure::DataMissing), 0)
    } else {
        (Ok(s.take(len as int)), len)
    }
}

/// String data of length `len`; spends one level of depth and one more for the bytes.
pub open spec fn parse_str(s: Seq<u8>, len: nat, depth: nat) -> Parsed<ValueModel> {
    if depth == 0 {
        (Err(Failure::Depth), 0)
    } else {
        let (r, c) = parse_bin(s, len, (depth - 1) as nat);
        match r {
            Ok(b) => (Ok(ValueModel::String(b)), c),
            Err(f) => (Err(f), c),
        }
    }
}

/// Extension data: a type byte, then `len` data bytes; spends one level of depth and one
/// more for the data.
pub open spec fn parse_ext(s: Seq<u8>, len: nat, depth: nat) -> Parsed<ValueModel> {
    if depth == 0 {
        (Err(Failure::Depth), 0)
    } else if s.len() == 0 {
        (Err(Failure::DataMissing), 0)
    } else {
        let (r, c) = parse_bin(s.skip(1), len, (depth - 1) as nat);
        match r {
            Ok(b) => (Ok(ValueModel::Ext(byte_as_i8(s[0]), b)), c + 1),
            Err(f) => (Err(f), c + 1),
        }
    }
}

/// A string whose length takes `k` bytes.
pub open spec fn parse_str_sized(s: Seq<u8>, k: nat, depth: nat) -> Parsed<ValueModel> {
    if s.len() < k {
        (Err(Failure::DataMissing), 0)
    } else {
        shift(k, parse_str(s.skip(k as int), be_value(s.take(k as int)), depth))
    }
}

/// Binary data whose length takes `k` bytes.
pub open spec fn parse_bin_sized(s: Seq<u8>, k: nat, depth: nat) -> Parsed<ValueModel> {
    if s.len() < k {
        (Err(Failure::DataMissing), 0)
    } else {
        shift(k, parse_binary(s.skip(k as int), be_value(s.take(k as int)), depth))
    }
}

/// Extension data whose length takes `k` bytes.
pub open spec fn parse_ext_sized(s: Seq<u8>, k: nat, depth: nat) -> Parsed<ValueModel> {
    if s.len() < k {
        (Err(Failure::DataMissing), 0)
    } else {
        shift(k, parse_ext(s.skip(k as int), be_value(s.take(k as int)), depth))
    }
}

/// One value, read with at most `depth` levels of depth: a marker byte, then what the
/// marker announces.
pub open spec fn parse_value(s: Seq<u8>, depth: nat) -> Parsed<ValueModel>
    decreases depth, 3nat,
{
    if depth == 0 {
        (Err(Failure::Depth), 0)
    } else if s.len() == 0 {
        (Err(Failure::MarkerMissing), 0)
    } else {
        shift(1, parse_body(marker_of(s[0]), s.skip(1), (depth - 1) as nat))
    }
}

/// What follows a marker `m`, read with at most `d` levels of depth.
pub open spec fn parse_body(m: Marker, t: Seq<u8>, d: nat) -> Parsed<ValueModel>
    decreases d, 2nat,
{
    match m {
        Marker::Null => (Ok(ValueModel::Nil), 0),
        Marker::Reserved => (Ok(ValueModel::Nil), 0),
        Marker::True => (Ok(ValueModel::Boolean(true)), 0),
        Marker::False => (Ok(ValueModel::Boolean(false)), 0),
        Marker::FixPos(v) => (Ok(ValueModel::Integer(v as int)), 0),
        Marker::FixNeg(v) => (Ok(ValueModel::Integer(v as int)), 0),
        Marker::U8 => as_integer(parse_number(t, 1), false, 8),
        Marker::U16 => as_integer(parse_number(t, 2), false, 16),
        Marker::U32 => as_integer(parse_number(t, 4), false, 32),
        Marker::U64 => as_integer(parse_number(t, 8), false, 64),
        Marker::I8 => as_integer(parse_number(t, 1), true, 8),
        Marker::I16 => as_integer(parse_number(t, 2), true, 16),
        Marker::I32 => as_integer(parse_number(t, 4), true, 32),
        Marker::I64 => as_integer(parse_number(t, 8), true, 64),
        Marker::F32 => as_float(parse_number(t, 4), false),
        Marker::F64 => as_float(parse_number(t, 8), true),
        Marker::FixStr(n) => parse_str(t, n as nat, d),
        Marker::Str8 => parse_str_sized(t, 1, d),
        Marker::Str16 => parse_str_sized(t, 2, d),
        Marker::Str32 => parse_str_sized(t, 4, d),
        Marker::Bin8 => parse_bin_sized(t, 1, d),
        Marker::Bin16 => parse_bin_sized(t, 2, d),
        Marker::Bin32 => parse_bin_sized(t, 4, d),
        Marker::FixArray(n) => parse_array(t, n as nat, d),
        Marker::Array16 => parse_array_sized(t, 2, d),
        Marker::Array32 => parse_array_sized(t, 4, d),
        Marker::FixMap(n) => parse_map(t, n as nat, d),
        Marker::Map16 => parse_map_sized(t, 2, d),
        Marker::Map32 => parse_map_sized(t, 4, d),
        Marker::FixExt1 => parse_ext(t, 1, d),
        Marker::FixExt2 => parse_ext(t, 2, d),
        Marker::FixExt4 => parse_ext(t, 4, d),
        Marker::FixExt8 => parse_ext(t, 8, d),
        Marker::FixExt16 => parse_ext(t, 16, d),
        Marker::Ext8 => parse_ext_sized(t, 1, d),
        Marker::Ext16 => parse_ext_sized(t, 2, d),
        Marker::Ext32 => parse_ext_sized(t, 4, d),
    }
}

/// An array whose length takes `k` bytes.
pub open spec fn parse_array_sized(s: Seq<u8>, k: nat, depth: nat) -> Parsed<ValueModel>
    decreases depth, 1nat,
{
    if s.len() < k {
        (Err(Failure::DataMissing), 0)
    } else {
        shift(k, parse_array(s.skip(k as int), be_value(s.take(k as int)), depth))
    }
}

/// A map whose length takes `k` bytes.
pub open spec fn parse_map_sized(s: Seq<u8>, k: nat, depth: nat) -> Parsed<ValueModel>
    decreases depth, 1nat,
{
    if s.len() < k {
        (Err(Failure::DataMissing), 0)
    } else {
        shift(k, parse_map(s.skip(k as int), be_value(s.take(k as int)), depth))
    }
}

/// Binary data of length `len`; spends one level of depth.
pub open spec fn parse_binary(s: Seq<u8>, len: nat, depth: nat) -> Parsed<ValueModel> {
    let (r, c) = parse_bin(s, len, depth);
    match r {
        Ok(b) => (Ok(ValueModel::Binary(b)), c),
        Err(f) => (Err(f), c),
    }
}

/// The elements of an array of `n` elements; spends one level of depth, and the elements
/// are read with one level less.
pub open spec fn parse_array(s: Seq<u8>, n: nat, depth: nat) -> Parsed<ValueModel>
    decreases depth, 0nat,
{
    if depth == 0 {
        (Err(Failure::Depth), 0)
    } else {
        let (r, c) = parse_items(s, n, (depth - 1) as nat);
        match r {
            Ok(items) => (Ok(ValueModel::Array(items)), c),
            Err(f) => (Err(f), c),
        }
    }
}

/// The entries of a map of `n` entries; spends one level of depth, and the keys and values
/// are read with one level less.
pub open spec fn parse_map(s: Seq<u8>, n: nat, depth: nat) -> Parsed<ValueModel>
    decreases depth, 0nat,
{
    if depth == 0 {
        (Err(Failure::Depth), 0)
    } else {
        let (r, c) = parse_entries(s, n, (depth - 1) as nat);
        match r {
            Ok(entries) => (Ok(ValueModel::Mapping(entries)), c),
            Err(f) => (Err(f), c),
        }
    }
}

/// `n` values, one after the other.
pub open spec fn parse_items(s: Seq<u8>, n: nat, depth: nat) -> Parsed<Seq<ValueModel>>
    decreases depth, n + 4,
{
    if n == 0 {
        (Ok(seq![]), 0)
    } else {
        let (r1, c1) = parse_value(s, depth);
        match r1 {
            Err(f) => (Err(f), c1),
            Ok(v) => {
                let (r2, c2) = parse_items(s.skip(c1 as int), (n - 1) as nat, depth);
                match r2 {
                    Ok(vs) => (Ok(seq![v] + vs), c1 + c2),
                    Err(f) => (Err(f), c1 + c2),
                }
            },
        }
    }
}

/// `n` key-value entries, one after the other, the key before its value.
pub open spec fn parse_entries(s: Seq<u8>, n: nat, depth: nat) -> Parsed<
    Seq<(ValueModel, ValueModel)>,
>
    decreases depth, n + 4,
{
    if n == 0 {
        (Ok(seq![]), 0)
    } else {
        let (r1, c1) = parse_value(s, depth);
        match r1 {
            Err(f) => (Err(f), c1),
            Ok(k) => {
                let (r2, c2) = parse_value(s.skip(c1 as int), depth);
                match r2 {
                    Err(f) => (Err(f), c1 + c2),
                    Ok(v) => {
                        let (r3, c3) = parse_entries(s.skip((c1 + c2) as int), (n - 1) as nat, depth);
                        match r3 {
                            Ok(es) => (Ok(seq![(k, v)] + es), c1 + c2 + c3),
                            Err(f) => (Err(f), c1 + c2 + c3),
                        }
                    },
                }
            },
        }
    }
}

// ---------------------------------------------------------------------------------------
// Facts about numbers and sequences
// ---------------------------------------------------------------------------------------
/// Reading one more byte of a big-endian number.
pub proof fn lemma_be_value_step(s: Seq<u8>, i: int)
    requires
        0 <= i < s.len(),
    ensures
        be_value(s.take(i + 1)) == be_value(s.take(i)) * 256 + s[i],
{
    assert(s.take(i + 1).drop_last() =~= s.take(i));
}

/// `256^k` for the widths of the format.
pub proof fn lemma_pow256_values()
    ensures
        pow256(0) == 1,
        pow256(1) == 0x100,
        pow256(2) == 0x1_0000,
        pow256(3) == 0x100_0000,
        pow256(4) == 0x1_0000_0000,
        pow256(5) == 0x100_0000_0000,
        pow256(6) == 0x1_0000_0000_0000,
        pow256(7) == 0x100_0000_0000_0000,
        pow256(8) == 0x1_0000_0000_0000_0000,
{
    reveal_with_fuel(pow256, 9);
}

/// A number of `k` bytes is below `256^k`.
pub proof fn lemma_be_value_bound(s: Seq<u8>)
    ensures
        be_value(s) < pow256(s.len()),
    decreases s.len(),
{
    if s.len() > 0 {
        lemma_be_value_bound(s.drop_last());
        let p = pow256((s.len() - 1) as nat);
        let x = be_value(s.drop_last());
        let b = s.last() as nat;
        assert(x * 256 + b < 256 * p) by (nonlinear_arith)
            requires
                x < p,
                b < 256,
        ;
    }
}

/// Writing a number in `k` bytes and reading it back gives the number, if it fits.
pub proof fn lemma_be_roundtrip(x: nat, k: nat)
    requires
        x < pow256(k),
    ensures
        be_bytes(x, k).len() == k,
        be_value(be_bytes(x, k)) == x,
    decreases k,
{
    if k > 0 {
        let p = pow256((k - 1) as nat);
        assert(x / 256 < p) by (nonlinear_arith)
            requires
                x < 256 * p,
        ;
        lemma_be_roundtrip(x / 256, (k - 1) as nat);
        let b = be_bytes(x, k);
        assert(b.drop_last() =~= be_bytes(x / 256, (k - 1) as nat));
        assert(x == (x / 256) * 256 + x % 256) by (nonlinear_arith);
    }
}

/// Skipping nothing leaves the sequence as it is.
pub broadcast proof fn lemma_skip_zero(s: Seq<u8>)
    ensures
        #[trigger] s.skip(0) == s,
{
    assert(s.skip(0) =~= s);
}

/// Skipping twice is skipping the sum.
pub proof fn lemma_skip_skip(s: Seq<u8>, a: int, b: int)
    requires
        0 <= a,
        0 <= b,
        a + b <= s.len(),
    ensures
        s.skip(a).skip(b) == s.skip(a + b),
{
    assert(s.skip(a).skip(b) =~= s.skip(a + b));
}

} // verus!
