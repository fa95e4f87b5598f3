//! What holds of encoding and decoding together: a value that is written is read back, and
//! reading stops exactly at the end of its encoding, so that values can be concatenated;
//! and what holds of decoding across depth limits and inputs.
use vstd::prelude::*;

use crate::format::{
    array_header, be_bytes, be_value, bin_header, byte_as_i8, encode, encode_entries,
    encode_items, ext_header, i8_as_byte, lemma_be_roundtrip, lemma_pow256_values,
    lemma_skip_skip, len32, map_header, marker_of, parse_array, parse_array_sized, parse_bin,
    parse_bin_sized, parse_binary, parse_body, parse_entries, parse_ext, parse_ext_sized, parse_items, parse_map, parse_map_sized,
    parse_number, parse_str, parse_str_sized, parse_value, pow256, shift, sint_bytes, str_header, uint_bytes,
    Failure, Marker, Parsed,
};
use crate::value::ValueModel;

verus! {

/// Whether `v` can be written without losing anything: its integers fit in `i64` or `u64`,
/// and its lengths and counts fit in 32 bits.
pub open spec fn encodable(v: ValueModel) -> bool
    decreases v,
{
    match v {
        ValueModel::Integer(n) => i64::MIN <= n <= u64::MAX,
        ValueModel::String(b) => b.len() <= u32::MAX,
        ValueModel::Binary(b) => b.len() <= u32::MAX,
        ValueModel::Ext(_, b) => b.len() <= u32::MAX,
        ValueModel::Array(items) => items.len() <= u32::MAX && forall|i: int|
            0 <= i < items.len() ==> encodable(#[trigger] items[i]),
        ValueModel::Mapping(entries) => entries.len() <= u32::MAX && forall|i: int|
            0 <= i < entries.len() ==> encodable((#[trigger] entries[i]).0) && encodable(
                entries[i].1,
            ),
        _ => true,
    }
}

/// The depth that reading `v` back spends: one level for each value, one more for the
/// data of a string, a byte string or an extension value, one more for the string's bytes
/// and the extension's data, and one more for the elements of an array or a map, which are
/// read one level down.
pub open spec fn depth_needed(v: ValueModel) -> nat
    decreases v,
{
    match v {
        ValueModel::String(_) => 3,
        ValueModel::Binary(_) => 2,
        ValueModel::Ext(_, _) => 3,
        ValueModel::Array(items) => 2 + items_depth(items),
        ValueModel::Mapping(entries) => 2 + entries_depth(entries),
        _ => 1,
    }
}

/// The largest depth that one of `items` needs.
pub open spec fn items_depth(items: Seq<ValueModel>) -> nat
    decreases items,
{
    if items.len() == 0 {
        0
    } else {
        let first = depth_needed(items[0]);
        let others = items_depth(items.drop_first());
        if first >= others {
            first
        } else {
            others
        }
    }
}

/// The largest depth that a key or a value of `entries` needs.
pub open spec fn entries_depth(entries: Seq<(ValueModel, ValueModel)>) -> nat
    decreases entries,
{
    if entries.len() == 0 {
        0
    } else {
        let k = depth_needed(entries[0].0);
        let v = depth_needed(entries[0].1);
        let first = if k >= v {
            k
        } else {
            v
        };
        let others = entries_depth(entries.drop_first());
        if first >= others {
            first
        } else {
            others
        }
    }
}

/// A sequence split after its first `h.len()` elements.
proof fn lemma_split(h: Seq<u8>, x: Seq<u8>)
    ensures
        (h + x).take(h.len() as int) == h,
        (h + x).skip(h.len() as int) == x,
{
    assert((h + x).take(h.len() as int) =~= h);
    assert((h + x).skip(h.len() as int) =~= x);
}

/// A single byte, read as a number.
proof fn lemma_be_value_single(b: u8)
    ensures
        be_value(seq![b]) == b,
{
    assert(seq![b].drop_last() =~= Seq::<u8>::empty());
    assert(be_value(Seq::<u8>::empty()) == 0);
    assert(seq![b].last() == b);
}

/// A number of `k` bytes in front of `x`, read back.
proof fn lemma_number_front(n: nat, k: nat, x: Seq<u8>)
    requires
        n < pow256(k),
    ensures
        parse_number(be_bytes(n, k) + x, k) == (Ok::<_, Failure>(n), k),
        (be_bytes(n, k) + x).skip(k as int) == x,
        (be_bytes(n, k) + x).take(k as int) == be_bytes(n, k),
        be_value(be_bytes(n, k)) == n,
{
    lemma_be_roundtrip(n, k);
    lemma_split(be_bytes(n, k), x);
}

/// A marker byte followed by `x`.
proof fn lemma_marker_front(m: u8, x: Seq<u8>)
    ensures
        (seq![m] + x)[0] == m,
        (seq![m] + x).len() > 0,
        (seq![m] + x).skip(1) == x,
{
    lemma_split(seq![m], x);
}

/// An unsigned integer is read back from its encoding.
proof fn lemma_uint_roundtrip(n: u64, rest: Seq<u8>, depth: nat)
    requires
        depth >= 1,
    ensures
        parse_value(uint_bytes(n) + rest, depth) == (
            Ok::<_, Failure>(ValueModel::Integer(n as int)),
            uint_bytes(n).len(),
        ),
{
    lemma_pow256_values();
    if n < 128 {
        lemma_marker_front(n as u8, rest);
    } else if n < 256 {
        lemma_marker_front(0xcc, seq![n as u8] + rest);
        assert(seq![0xccu8, n as u8] + rest =~= seq![0xccu8] + (seq![n as u8] + rest));
        lemma_split(seq![n as u8], rest);
        lemma_be_value_single(n as u8);
    } else if n < 65536 {
        let h = be_bytes(n as nat, 2);
        lemma_number_front(n as nat, 2, rest);
        lemma_marker_front(0xcd, h + rest);
        assert(seq![0xcdu8] + h + rest =~= seq![0xcdu8] + (h + rest));
    } else if n < 0x1_0000_0000 {
        let h = be_bytes(n as nat, 4);
        lemma_number_front(n as nat, 4, rest);
        lemma_marker_front(0xce, h + rest);
        assert(seq![0xceu8] + h + rest =~= seq![0xceu8] + (h + rest));
    } else {
        let h = be_bytes(n as nat, 8);
        lemma_number_front(n as nat, 8, rest);
        lemma_marker_front(0xcf, h + rest);
        assert(seq![0xcfu8] + h + rest =~= seq![0xcfu8] + (h + rest));
    }
}

/// A signed integer is read back from its encoding.
proof fn lemma_sint_roundtrip(n: i64, rest: Seq<u8>, depth: nat)
    requires
        depth >= 1,
    ensures
        parse_value(sint_bytes(n) + rest, depth) == (
            Ok::<_, Failure>(ValueModel::Integer(n as int)),
            sint_bytes(n).len(),
        ),
{
    lemma_pow256_values();
    if -32 <= n < 0 {
        lemma_marker_front((n + 256) as u8, rest);
    } else if -128 <= n < -32 {
        let b = (n + 256) as u8;
        lemma_marker_front(0xd0, seq![b] + rest);
        assert(seq![0xd0u8, b] + rest =~= seq![0xd0u8] + (seq![b] + rest));
        lemma_split(seq![b], rest);
        lemma_be_value_single(b);
    } else if -32768 <= n < -128 {
        let h = be_bytes((n + 0x1_0000) as nat, 2);
        lemma_number_front((n + 0x1_0000) as nat, 2, rest);
        lemma_marker_front(0xd1, h + rest);
        assert(seq![0xd1u8] + h + rest =~= seq![0xd1u8] + (h + rest));
    } else if -0x8000_0000 <= n < -32768 {
        let h = be_bytes((n + 0x1_0000_0000) as nat, 4);
        lemma_number_front((n + 0x1_0000_0000) as nat, 4, rest);
        lemma_marker_front(0xd2, h + rest);
        assert(seq![0xd2u8] + h + rest =~= seq![0xd2u8] + (h + rest));
    } else if n < -0x8000_0000 {
        let h = be_bytes((n + 0x1_0000_0000_0000_0000) as nat, 8);
        lemma_number_front((n + 0x1_0000_0000_0000_0000) as nat, 8, rest);
        lemma_marker_front(0xd3, h + rest);
        assert(seq![0xd3u8] + h + rest =~= seq![0xd3u8] + (h + rest));
    } else {
        lemma_uint_roundtrip(n as u64, rest, depth);
    }
}

/// What follows a str header is read with one level of depth less.
proof fn lemma_str_header(len: u32, x: Seq<u8>, depth: nat)
    requires
        depth >= 1,
    ensures
        parse_value(str_header(len) + x, depth) == shift(
            str_header(len).len(),
            parse_str(x, len as nat, (depth - 1) as nat),
        ),
{
    lemma_pow256_values();
    if len < 32 {
        lemma_marker_front((0xa0 + len) as u8, x);
    } else if len < 256 {
        lemma_marker_front(0xd9, seq![len as u8] + x);
        assert(seq![0xd9u8, len as u8] + x =~= seq![0xd9u8] + (seq![len as u8] + x));
        lemma_split(seq![len as u8], x);
        lemma_be_value_single(len as u8);
    } else if len < 65536 {
        let h = be_bytes(len as nat, 2);
        lemma_number_front(len as nat, 2, x);
        lemma_marker_front(0xda, h + x);
        assert(seq![0xdau8] + h + x =~= seq![0xdau8] + (h + x));
    } else {
        let h = be_bytes(len as nat, 4);
        lemma_number_front(len as nat, 4, x);
        lemma_marker_front(0xdb, h + x);
        assert(seq![0xdbu8] + h + x =~= seq![0xdbu8] + (h + x));
    }
}

/// What follows a bin header is read with one level of depth less.
proof fn lemma_bin_header(len: u32, x: Seq<u8>, depth: nat)
    requires
        depth >= 1,
    ensures
        parse_value(bin_header(len) + x, depth) == shift(
            bin_header(len).len(),
            parse_binary(x, len as nat, (depth - 1) as nat),
        ),
{
    lemma_pow256_values();
if len < 256 {
        lemma_marker_front(0xc4, seq![len as u8] + x);
        assert(seq![0xc4u8, len as u8] + x =~= seq![0xc4u8] + (seq![len as u8] + x));
        lemma_split(seq![len as u8], x);
        lemma_be_value_single(len as u8);
    } else if len < 65536 {
        let h = be_bytes(len as nat, 2);
        lemma_number_front(len as nat, 2, x);
        lemma_marker_front(0xc5, h + x);
        assert(seq![0xc5u8] + h + x =~= seq![0xc5u8] + (h + x));
    } else {
        let h = be_bytes(len as nat, 4);
        lemma_number_front(len as nat, 4, x);
        lemma_marker_front(0xc6, h + x);
        assert(seq![0xc6u8] + h + x =~= seq![0xc6u8] + (h + x));
    }
}

/// What follows a array header is read with one level of depth less.
proof fn lemma_array_header(len: u32, x: Seq<u8>, depth: nat)
    requires
        depth >= 1,
    ensures
        parse_value(array_header(len) + x, depth) == shift(
            array_header(len).len(),
            parse_array(x, len as nat, (depth - 1) as nat),
        ),
{
    lemma_pow256_values();
    if len < 16 {
        lemma_marker_front((0x90 + len) as u8, x);
    } else if len < 65536 {
        let h = be_bytes(len as nat, 2);
        lemma_number_front(len as nat, 2, x);
        lemma_marker_front(0xdc, h + x);
        assert(seq![0xdcu8] + h + x =~= seq![0xdcu8] + (h + x));
    } else {
        let h = be_bytes(len as nat, 4);
        lemma_number_front(len as nat, 4, x);
        lemma_marker_front(0xdd, h + x);
        assert(seq![0xddu8] + h + x =~= seq![0xddu8] + (h + x));
    }
}

/// What follows a map header is read with one level of depth less.
proof fn lemma_map_header(len: u32, x: Seq<u8>, depth: nat)
    requires
        depth >= 1,
    ensures
        parse_value(map_header(len) + x, depth) == shift(
            map_header(len).len(),
            parse_map(x, len as nat, (depth - 1) as nat),
        ),
{
    lemma_pow256_values();
    if len < 16 {
        lemma_marker_front((0x80 + len) as u8, x);
    } else if len < 65536 {
        let h = be_bytes(len as nat, 2);
        lemma_number_front(len as nat, 2, x);
        lemma_marker_front(0xde, h + x);
        assert(seq![0xdeu8] + h + x =~= seq![0xdeu8] + (h + x));
    } else {
        let h = be_bytes(len as nat, 4);
        lemma_number_front(len as nat, 4, x);
        lemma_marker_front(0xdf, h + x);
        assert(seq![0xdfu8] + h + x =~= seq![0xdfu8] + (h + x));
    }
}

/// What follows the header of an extension value, its type byte included, is read with
/// one level of depth less.
proof fn lemma_ext_header(len: u32, ty: i8, x: Seq<u8>, depth: nat)
    requires
        depth >= 1,
    ensures
        parse_value(ext_header(len, ty) + x, depth) == shift(
            (ext_header(len, ty).len() - 1) as nat,
            parse_ext(seq![i8_as_byte(ty)] + x, len as nat, (depth - 1) as nat),
        ),
{
    lemma_pow256_values();
    let y = seq![i8_as_byte(ty)] + x;
    if len == 1 || len == 2 || len == 4 || len == 8 || len == 16 {
        let m: u8 = if len == 1 {
            0xd4
        } else if len == 2 {
            0xd5
        } else if len == 4 {
            0xd6
        } else if len == 8 {
            0xd7
        } else {
            0xd8
        };
        assert(ext_header(len, ty) + x =~= seq![m] + y);
        lemma_marker_front(m, y);
    } else if len < 256 {
        assert(ext_header(len, ty) + x =~= seq![0xc7u8] + (seq![len as u8] + y));
        lemma_marker_front(0xc7, seq![len as u8] + y);
        lemma_split(seq![len as u8], y);
        lemma_be_value_single(len as u8);
    } else if len < 65536 {
        let h = be_bytes(len as nat, 2);
        lemma_number_front(len as nat, 2, y);
        assert(ext_header(len, ty) + x =~= seq![0xc8u8] + (h + y));
        lemma_marker_front(0xc8, h + y);
    } else {
        let h = be_bytes(len as nat, 4);
        lemma_number_front(len as nat, 4, y);
        assert(ext_header(len, ty) + x =~= seq![0xc9u8] + (h + y));
        lemma_marker_front(0xc9, h + y);
    }
}

/// A count that fits in 32 bits goes into a header as it is.
proof fn lemma_len32(n: nat)
    requires
        n <= u32::MAX,
    ensures
        len32(n) == n,
{
}

/// Reading back a value that was written, followed by anything, gives the value and stops
/// at the end of its encoding, provided that the value can be written without loss and
/// that the depth allowed is at least the depth that the value needs.
pub proof fn lemma_roundtrip(v: ValueModel, rest: Seq<u8>, depth: nat)
    requires
        encodable(v),
        depth >= depth_needed(v),
    ensures
        parse_value(encode(v) + rest, depth) == (Ok::<_, Failure>(v), encode(v).len()),
    decreases v,
{
    let d = (depth - 1) as nat;
    match v {
        ValueModel::Nil => {
            lemma_marker_front(0xc0, rest);
        },
        ValueModel::Boolean(b) => {
            lemma_marker_front(if b { 0xc3 } else { 0xc2 }, rest);
        },
        ValueModel::Integer(n) => {
            if n >= 0 {
                lemma_uint_roundtrip(n as u64, rest, depth);
            } else {
                lemma_sint_roundtrip(n as i64, rest, depth);
            }
        },
        ValueModel::F32(bits) => {
            lemma_pow256_values();
            let h = be_bytes(bits as nat, 4);
            lemma_number_front(bits as nat, 4, rest);
            lemma_marker_front(0xca, h + rest);
            assert(seq![0xcau8] + h + rest =~= seq![0xcau8] + (h + rest));
        },
        ValueModel::F64(bits) => {
            lemma_pow256_values();
            let h = be_bytes(bits as nat, 8);
            lemma_number_front(bits as nat, 8, rest);
            lemma_marker_front(0xcb, h + rest);
            assert(seq![0xcbu8] + h + rest =~= seq![0xcbu8] + (h + rest));
        },
        ValueModel::String(b) => {
            lemma_len32(b.len());
            let len = len32(b.len());
            assert(str_header(len) + b + rest =~= str_header(len) + (b + rest));
            lemma_str_header(len, b + rest, depth);
            lemma_split(b, rest);
        },
        ValueModel::Binary(b) => {
            lemma_len32(b.len());
            let len = len32(b.len());
            assert(bin_header(len) + b + rest =~= bin_header(len) + (b + rest));
            lemma_bin_header(len, b + rest, depth);
            lemma_split(b, rest);
        },
        ValueModel::Ext(ty, b) => {
            lemma_len32(b.len());
            let len = len32(b.len());
            assert(ext_header(len, ty) + b + rest =~= ext_header(len, ty) + (b + rest));
            lemma_ext_header(len, ty, b + rest, depth);
            let y = seq![i8_as_byte(ty)] + (b + rest);
            lemma_marker_front(i8_as_byte(ty), b + rest);
            lemma_split(b, rest);
            assert(byte_as_i8(i8_as_byte(ty)) == ty);
        },
        ValueModel::Array(items) => {
            lemma_len32(items.len());
            let len = len32(items.len());
            let e = encode_items(items);
            assert(array_header(len) + e + rest =~= array_header(len) + (e + rest));
            lemma_array_header(len, e + rest, depth);
            lemma_items_roundtrip(items, rest, (d - 1) as nat);
        },
        ValueModel::Mapping(entries) => {
            lemma_len32(entries.len());
            let len = len32(entries.len());
            let e = encode_entries(entries);
            assert(map_header(len) + e + rest =~= map_header(len) + (e + rest));
            lemma_map_header(len, e + rest, depth);
            lemma_entries_roundtrip(entries, rest, (d - 1) as nat);
        },
    }
}

/// The items that were written one after the other are read back one after the other.
proof fn lemma_items_roundtrip(items: Seq<ValueModel>, rest: Seq<u8>, depth: nat)
    requires
        forall|i: int| 0 <= i < items.len() ==> encodable(#[trigger] items[i]),
        depth >= items_depth(items),
    ensures
        parse_items(encode_items(items) + rest, items.len(), depth) == (
            Ok::<_, Failure>(items),
            encode_items(items).len(),
        ),
    decreases items,
{
    if items.len() == 0 {
        assert(encode_items(items) + rest =~= rest);
        assert(items =~= Seq::<ValueModel>::empty());
    } else {
        let first = items[0];
        let others = items.drop_first();
        let e0 = encode(first);
        let e1 = encode_items(others);
        assert(e0 + e1 + rest =~= e0 + (e1 + rest));
        lemma_roundtrip(first, e1 + rest, depth);
        lemma_split(e0, e1 + rest);
        assert forall|i: int| 0 <= i < others.len() implies encodable(#[trigger] others[i]) by {
            assert(others[i] == items[i + 1]);
        }
        lemma_items_roundtrip(others, rest, depth);
        assert(seq![first] + others =~= items);
    }
}

/// The entries that were written one after the other, key before value, are read back one
/// after the other.
proof fn lemma_entries_roundtrip(
    entries: Seq<(ValueModel, ValueModel)>,
    rest: Seq<u8>,
    depth: nat,
)
    requires
        forall|i: int|
            0 <= i < entries.len() ==> encodable((#[trigger] entries[i]).0) && encodable(
                entries[i].1,
            ),
        depth >= entries_depth(entries),
    ensures
        parse_entries(encode_entries(entries) + rest, entries.len(), depth) == (
            Ok::<_, Failure>(entries),
            encode_entries(entries).len(),
        ),
    decreases entries,
{
    if entries.len() == 0 {
        assert(encode_entries(entries) + rest =~= rest);
        assert(entries =~= Seq::<(ValueModel, ValueModel)>::empty());
    } else {
        let first = entries[0];
        let others = entries.drop_first();
        let ek = encode(first.0);
        let ev = encode(first.1);
        let e1 = encode_entries(others);
        assert(ek + ev + e1 + rest =~= ek + (ev + (e1 + rest)));
        lemma_roundtrip(first.0, ev + (e1 + rest), depth);
        lemma_split(ek, ev + (e1 + rest));
        lemma_roundtrip(first.1, e1 + rest, depth);
        lemma_split(ev, e1 + rest);
        assert((ek + (ev + (e1 + rest))).skip((ek.len() + ev.len()) as int) =~= e1 + rest);
        assert forall|i: int| 0 <= i < others.len() implies encodable((#[trigger] others[i]).0)
            && encodable(others[i].1) by {
            assert(others[i] == entries[i + 1]);
        }
        lemma_entries_roundtrip(others, rest, depth);
        assert(seq![first] + others =~= entries);
    }
}

/// Reading back a value that was written fails when the depth allowed is less than the
/// depth that the value needs: the depth limit is what refuses it.
pub proof fn lemma_depth_limit(v: ValueModel, rest: Seq<u8>, depth: nat)
    requires
        encodable(v),
        depth < depth_needed(v),
    ensures
        parse_value(encode(v) + rest, depth).0 matches Err(Failure::Depth),
    decreases v,
{
    if depth > 0 {
        let d = (depth - 1) as nat;
        match v {
            ValueModel::String(b) => {
                lemma_len32(b.len());
                let len = len32(b.len());
                assert(str_header(len) + b + rest =~= str_header(len) + (b + rest));
                lemma_str_header(len, b + rest, depth);
            },
            ValueModel::Binary(b) => {
                lemma_len32(b.len());
                let len = len32(b.len());
                assert(bin_header(len) + b + rest =~= bin_header(len) + (b + rest));
                lemma_bin_header(len, b + rest, depth);
            },
            ValueModel::Ext(ty, b) => {
                lemma_len32(b.len());
                let len = len32(b.len());
                assert(ext_header(len, ty) + b + rest =~= ext_header(len, ty) + (b + rest));
                lemma_ext_header(len, ty, b + rest, depth);
            },
            ValueModel::Array(items) => {
                lemma_len32(items.len());
                let len = len32(items.len());
                let e = encode_items(items);
                assert(array_header(len) + e + rest =~= array_header(len) + (e + rest));
                lemma_array_header(len, e + rest, depth);
                if d > 0 {
                    lemma_items_depth_limit(items, rest, (d - 1) as nat);
                }
            },
            ValueModel::Mapping(entries) => {
                lemma_len32(entries.len());
                let len = len32(entries.len());
                let e = encode_entries(entries);
                assert(map_header(len) + e + rest =~= map_header(len) + (e + rest));
                lemma_map_header(len, e + rest, depth);
                if d > 0 {
                    lemma_entries_depth_limit(entries, rest, (d - 1) as nat);
                }
            },
            _ => {},
        }
    }
}

/// Items of which one needs more depth than allowed are not read back.
proof fn lemma_items_depth_limit(items: Seq<ValueModel>, rest: Seq<u8>, depth: nat)
    requires
        forall|i: int| 0 <= i < items.len() ==> encodable(#[trigger] items[i]),
        depth < items_depth(items),
    ensures
        parse_items(encode_items(items) + rest, items.len(), depth).0 matches Err(Failure::Depth),
    decreases items,
{
    let first = items[0];
    let others = items.drop_first();
    let e0 = encode(first);
    let e1 = encode_items(others);
    assert(e0 + e1 + rest =~= e0 + (e1 + rest));
    if depth < depth_needed(first) {
        lemma_depth_limit(first, e1 + rest, depth);
    } else {
        lemma_roundtrip(first, e1 + rest, depth);
        lemma_split(e0, e1 + rest);
        assert forall|i: int| 0 <= i < others.len() implies encodable(#[trigger] others[i]) by {
            assert(others[i] == items[i + 1]);
        }
        lemma_items_depth_limit(others, rest, depth);
    }
}

/// Entries of which a key or a value needs more depth than allowed are not read back.
proof fn lemma_entries_depth_limit(
    entries: Seq<(ValueModel, ValueModel)>,
    rest: Seq<u8>,
    depth: nat,
)
    requires
        forall|i: int|
            0 <= i < entries.len() ==> encodable((#[trigger] entries[i]).0) && encodable(
                entries[i].1,
            ),
        depth < entries_depth(entries),
    ensures
        parse_entries(encode_entries(entries) + rest, entries.len(), depth).0 matches Err(Failure::Depth),
    decreases entries,
{
    let first = entries[0];
    let others = entries.drop_first();
    let ek = encode(first.0);
    let ev = encode(first.1);
    let e1 = encode_entries(others);
    assert(ek + ev + e1 + rest =~= ek + (ev + (e1 + rest)));
    if depth < depth_needed(first.0) {
        lemma_depth_limit(first.0, ev + (e1 + rest), depth);
    } else {
        lemma_roundtrip(first.0, ev + (e1 + rest), depth);
        lemma_split(ek, ev + (e1 + rest));
        if depth < depth_needed(first.1) {
            lemma_depth_limit(first.1, e1 + rest, depth);
        } else {
            lemma_roundtrip(first.1, e1 + rest, depth);
            lemma_split(ev, e1 + rest);
            assert((ek + (ev + (e1 + rest))).skip((ek.len() + ev.len()) as int) =~= e1 + rest);
            assert forall|i: int| 0 <= i < others.len() implies encodable(
                (#[trigger] others[i]).0,
            ) && encodable(others[i].1) by {
                assert(others[i] == entries[i + 1]);
            }
            lemma_entries_depth_limit(others, rest, depth);
        }
    }
}

/// Values written one after the other are read back one after the other: reading the
/// first stops where the second begins.
pub proof fn lemma_values_concatenate(first: ValueModel, second: ValueModel, rest: Seq<u8>, depth: nat)
    requires
        encodable(first),
        encodable(second),
        depth >= depth_needed(first),
        depth >= depth_needed(second),
    ensures
        parse_value(encode(first) + encode(second) + rest, depth) == (
            Ok::<_, Failure>(first),
            encode(first).len(),
        ),
        parse_value(
            (encode(first) + encode(second) + rest).skip(encode(first).len() as int),
            depth,
        ) == (Ok::<_, Failure>(second), encode(second).len()),
{
    let e1 = encode(first);
    let e2 = encode(second);
    assert(e1 + e2 + rest =~= e1 + (e2 + rest));
    lemma_roundtrip(first, e2 + rest, depth);
    lemma_split(e1, e2 + rest);
    lemma_roundtrip(second, rest, depth);
}

/// `s1` and `s2` hold the same first `c` bytes.
pub open spec fn agree(s1: Seq<u8>, s2: Seq<u8>, c: nat) -> bool {
    c <= s1.len() && c <= s2.len() && s1.take(c as int) == s2.take(c as int)
}

/// Sequences that agree on a prefix agree on what is left of it after `k` bytes.
proof fn lemma_agree_skip(s1: Seq<u8>, s2: Seq<u8>, c: nat, k: nat)
    requires
        agree(s1, s2, c),
        k <= c,
    ensures
        agree(s1.skip(k as int), s2.skip(k as int), (c - k) as nat),
        s1.take(k as int) == s2.take(k as int),
        forall|i: int| 0 <= i < c ==> s1[i] == s2[i],
{
    assert forall|i: int| 0 <= i < c implies s1[i] == s2[i] by {
        assert(s1.take(c as int)[i] == s2.take(c as int)[i]);
    }
    assert(s1.skip(k as int).take(c - k) =~= s2.skip(k as int).take(c - k));
    assert(s1.take(k as int) =~= s2.take(k as int));
}

/// A number read from the first `k` bytes depends on those bytes only.
proof fn lemma_number_prefix(s1: Seq<u8>, s2: Seq<u8>, k: nat)
    requires
        parse_number(s1, k).0 is Ok,
        agree(s1, s2, parse_number(s1, k).1),
    ensures
        parse_number(s2, k) == parse_number(s1, k),
{
    lemma_agree_skip(s1, s2, k, k);
}

/// Raw bytes read from the front depend on those bytes only.
proof fn lemma_bin_prefix(s1: Seq<u8>, s2: Seq<u8>, len: nat, depth: nat)
    requires
        parse_bin(s1, len, depth).0 is Ok,
        agree(s1, s2, parse_bin(s1, len, depth).1),
    ensures
        parse_bin(s2, len, depth) == parse_bin(s1, len, depth),
{
    lemma_agree_skip(s1, s2, len, len);
}

/// Extension data depends on the bytes that it consumes only.
proof fn lemma_ext_prefix(s1: Seq<u8>, s2: Seq<u8>, len: nat, depth: nat)
    requires
        parse_ext(s1, len, depth).0 is Ok,
        agree(s1, s2, parse_ext(s1, len, depth).1),
    ensures
        parse_ext(s2, len, depth) == parse_ext(s1, len, depth),
{
    let c = parse_ext(s1, len, depth).1;
    lemma_agree_skip(s1, s2, c, 1);
    lemma_bin_prefix(s1.skip(1), s2.skip(1), len, (depth - 1) as nat);
}

/// A length of `k` bytes and what follows it.
proof fn lemma_sized_prefix(s1: Seq<u8>, s2: Seq<u8>, k: nat, c: nat)
    requires
        agree(s1, s2, c),
        k <= c,
    ensures
        be_value(s1.take(k as int)) == be_value(s2.take(k as int)),
        agree(s1.skip(k as int), s2.skip(k as int), (c - k) as nat),
        s1.len() >= k,
        s2.len() >= k,
{
    lemma_agree_skip(s1, s2, c, k);
}

/// Reading a value depends on the bytes that the reading consumes only: what follows them
/// makes no difference. A value can thus be read from a stream as soon as its bytes are
/// there.
pub proof fn lemma_reads_only_what_it_consumes(s1: Seq<u8>, s2: Seq<u8>, depth: nat)
    requires
        parse_value(s1, depth).0 is Ok,
        agree(s1, s2, parse_value(s1, depth).1),
    ensures
        parse_value(s2, depth) == parse_value(s1, depth),
    decreases depth, 3nat,
{
    let c = parse_value(s1, depth).1;
    lemma_agree_skip(s1, s2, c, 1);
    lemma_body_prefix(marker_of(s1[0]), s1.skip(1), s2.skip(1), (depth - 1) as nat);
}

/// What follows a marker depends on the bytes that its reading consumes only.
proof fn lemma_body_prefix(m: Marker, t1: Seq<u8>, t2: Seq<u8>, d: nat)
    requires
        parse_body(m, t1, d).0 is Ok,
        agree(t1, t2, parse_body(m, t1, d).1),
    ensures
        parse_body(m, t2, d) == parse_body(m, t1, d),
    decreases d, 2nat,
{
    let c = parse_body(m, t1, d).1;
    match m {
        Marker::U8 | Marker::I8 => lemma_number_prefix(t1, t2, 1),
        Marker::U16 | Marker::I16 => lemma_number_prefix(t1, t2, 2),
        Marker::U32 | Marker::I32 | Marker::F32 => lemma_number_prefix(t1, t2, 4),
        Marker::U64 | Marker::I64 | Marker::F64 => lemma_number_prefix(t1, t2, 8),
        Marker::FixStr(n) => lemma_bin_prefix(t1, t2, n as nat, (d - 1) as nat),
        Marker::Str8 | Marker::Str16 | Marker::Str32 => {
            let k: nat = if m is Str8 {
                1
            } else if m is Str16 {
                2
            } else {
                4
            };
            lemma_sized_prefix(t1, t2, k, c);
            lemma_bin_prefix(
                t1.skip(k as int),
                t2.skip(k as int),
                be_value(t1.take(k as int)),
                (d - 1) as nat,
            );
        },
        Marker::Bin8 | Marker::Bin16 | Marker::Bin32 => {
            let k: nat = if m is Bin8 {
                1
            } else if m is Bin16 {
                2
            } else {
                4
            };
            lemma_sized_prefix(t1, t2, k, c);
            lemma_bin_prefix(t1.skip(k as int), t2.skip(k as int), be_value(t1.take(k as int)), d);
        },
        Marker::FixExt1 => lemma_ext_prefix(t1, t2, 1, d),
        Marker::FixExt2 => lemma_ext_prefix(t1, t2, 2, d),
        Marker::FixExt4 => lemma_ext_prefix(t1, t2, 4, d),
        Marker::FixExt8 => lemma_ext_prefix(t1, t2, 8, d),
        Marker::FixExt16 => lemma_ext_prefix(t1, t2, 16, d),
        Marker::Ext8 | Marker::Ext16 | Marker::Ext32 => {
            let k: nat = if m is Ext8 {
                1
            } else if m is Ext16 {
                2
            } else {
                4
            };
            lemma_sized_prefix(t1, t2, k, c);
            lemma_ext_prefix(t1.skip(k as int), t2.skip(k as int), be_value(t1.take(k as int)), d);
        },
        Marker::FixArray(n) => lemma_array_prefix(t1, t2, n as nat, d),
        Marker::Array16 => lemma_array_sized_prefix(t1, t2, 2, d),
        Marker::Array32 => lemma_array_sized_prefix(t1, t2, 4, d),
        Marker::FixMap(n) => lemma_map_prefix(t1, t2, n as nat, d),
        Marker::Map16 => lemma_map_sized_prefix(t1, t2, 2, d),
        Marker::Map32 => lemma_map_sized_prefix(t1, t2, 4, d),
        _ => {},
    }
}

/// An array whose length takes `k` bytes.
proof fn lemma_array_sized_prefix(t1: Seq<u8>, t2: Seq<u8>, k: nat, d: nat)
    requires
        parse_array_sized(t1, k, d).0 is Ok,
        agree(t1, t2, parse_array_sized(t1, k, d).1),
    ensures
        parse_array_sized(t2, k, d) == parse_array_sized(t1, k, d),
    decreases d, 1nat,
{
    lemma_sized_prefix(t1, t2, k, parse_array_sized(t1, k, d).1);
    lemma_array_prefix(t1.skip(k as int), t2.skip(k as int), be_value(t1.take(k as int)), d);
}

/// A map whose length takes `k` bytes.
proof fn lemma_map_sized_prefix(t1: Seq<u8>, t2: Seq<u8>, k: nat, d: nat)
    requires
        parse_map_sized(t1, k, d).0 is Ok,
        agree(t1, t2, parse_map_sized(t1, k, d).1),
    ensures
        parse_map_sized(t2, k, d) == parse_map_sized(t1, k, d),
    decreases d, 1nat,
{
    lemma_sized_prefix(t1, t2, k, parse_map_sized(t1, k, d).1);
    lemma_map_prefix(t1.skip(k as int), t2.skip(k as int), be_value(t1.take(k as int)), d);
}

/// The elements of an array.
proof fn lemma_array_prefix(t1: Seq<u8>, t2: Seq<u8>, n: nat, d: nat)
    requires
        parse_array(t1, n, d).0 is Ok,
        agree(t1, t2, parse_array(t1, n, d).1),
    ensures
        parse_array(t2, n, d) == parse_array(t1, n, d),
    decreases d, 0nat,
{
    lemma_items_prefix(t1, t2, n, (d - 1) as nat);
}

/// The entries of a map.
proof fn lemma_map_prefix(t1: Seq<u8>, t2: Seq<u8>, n: nat, d: nat)
    requires
        parse_map(t1, n, d).0 is Ok,
        agree(t1, t2, parse_map(t1, n, d).1),
    ensures
        parse_map(t2, n, d) == parse_map(t1, n, d),
    decreases d, 0nat,
{
    lemma_entries_prefix(t1, t2, n, (d - 1) as nat);
}

/// Values read one after the other.
proof fn lemma_items_prefix(t1: Seq<u8>, t2: Seq<u8>, n: nat, d: nat)
    requires
        parse_items(t1, n, d).0 is Ok,
        agree(t1, t2, parse_items(t1, n, d).1),
    ensures
        parse_items(t2, n, d) == parse_items(t1, n, d),
    decreases d, n + 4,
{
    if n > 0 {
        let c = parse_items(t1, n, d).1;
        let c1 = parse_value(t1, d).1;
        lemma_agree_skip(t1, t2, c, 0);
        assert(agree(t1, t2, c1)) by {
            assert(t1.take(c1 as int) =~= t1.take(c as int).take(c1 as int));
            assert(t2.take(c1 as int) =~= t2.take(c as int).take(c1 as int));
        }
        lemma_reads_only_what_it_consumes(t1, t2, d);
        lemma_agree_skip(t1, t2, c, c1);
        lemma_items_prefix(t1.skip(c1 as int), t2.skip(c1 as int), (n - 1) as nat, d);
    }
}

/// Key-value entries read one after the other.
proof fn lemma_entries_prefix(t1: Seq<u8>, t2: Seq<u8>, n: nat, d: nat)
    requires
        parse_entries(t1, n, d).0 is Ok,
        agree(t1, t2, parse_entries(t1, n, d).1),
    ensures
        parse_entries(t2, n, d) == parse_entries(t1, n, d),
    decreases d, n + 4,
{
    if n > 0 {
        let c = parse_entries(t1, n, d).1;
        let c1 = parse_value(t1, d).1;
        assert(agree(t1, t2, c1)) by {
            assert(t1.take(c1 as int) =~= t1.take(c as int).take(c1 as int));
            assert(t2.take(c1 as int) =~= t2.take(c as int).take(c1 as int));
        }
        lemma_reads_only_what_it_consumes(t1, t2, d);
        lemma_agree_skip(t1, t2, c, c1);
        let u1 = t1.skip(c1 as int);
        let u2 = t2.skip(c1 as int);
        let c2 = parse_value(u1, d).1;
        assert(agree(u1, u2, c2)) by {
            assert(u1.take(c2 as int) =~= u1.take(c - c1).take(c2 as int));
            assert(u2.take(c2 as int) =~= u2.take(c - c1).take(c2 as int));
        }
        lemma_reads_only_what_it_consumes(u1, u2, d);
        lemma_agree_skip(u1, u2, (c - c1) as nat, c2);
        lemma_skip_skip(t1, c1 as int, c2 as int);
        lemma_skip_skip(t2, c1 as int, c2 as int);
        lemma_entries_prefix(u1.skip(c2 as int), u2.skip(c2 as int), (n - 1) as nat, d);
    }
}

/// Decoding well-formed bytes and writing the value again gives back the same bytes: the
/// bytes that `v` was written to, followed by anything, are read back as `v` whenever they
/// are read back at all, so that what is written of the result is what was read.
pub proof fn lemma_reencode(v: ValueModel, rest: Seq<u8>, depth: nat)
    requires
        encodable(v),
        parse_value(encode(v) + rest, depth).0 is Ok,
    ensures
        parse_value(encode(v) + rest, depth) == (Ok::<_, Failure>(v), encode(v).len()),
        parse_value(encode(v) + rest, depth).0 matches Ok(w) && encode(w) == encode(v),
{
    if depth < depth_needed(v) {
        lemma_depth_limit(v, rest, depth);
    }
    lemma_roundtrip(v, rest, depth);
}

/// Whether a read did not fail for want of depth.
pub open spec fn depth_sufficed<T>(p: Parsed<T>) -> bool {
    !(p.0 matches Err(Failure::Depth))
}

/// Raising the depth limit changes nothing of a read that did not run out of depth: a value
/// read, or an input found too short, with a lower limit is the same with a higher one, and
/// the same number of bytes is consumed. Only a read that the limit refused can come out
/// otherwise.
pub proof fn lemma_depth_monotone(s: Seq<u8>, d1: nat, d2: nat)
    requires
        d1 <= d2,
    ensures
        depth_sufficed(parse_value(s, d1)) ==> parse_value(s, d2) == parse_value(s, d1),
{
    if depth_sufficed(parse_value(s, d1)) {
        lemma_value_depth(s, d1, d2);
    }
}

/// One value.
proof fn lemma_value_depth(s: Seq<u8>, d1: nat, d2: nat)
    requires
        d1 <= d2,
        depth_sufficed(parse_value(s, d1)),
    ensures
        parse_value(s, d2) == parse_value(s, d1),
    decreases d1, 3nat,
{
    if d1 > 0 && s.len() > 0 {
        lemma_body_depth(marker_of(s[0]), s.skip(1), (d1 - 1) as nat, (d2 - 1) as nat);
    }
}

/// What follows a marker.
proof fn lemma_body_depth(m: Marker, t: Seq<u8>, d1: nat, d2: nat)
    requires
        d1 <= d2,
        depth_sufficed(parse_body(m, t, d1)),
    ensures
        parse_body(m, t, d2) == parse_body(m, t, d1),
    decreases d1, 2nat,
{
    match m {
        Marker::FixStr(n) => lemma_str_depth(t, n as nat, d1, d2),
        Marker::Str8 => lemma_str_sized_depth(t, 1, d1, d2),
        Marker::Str16 => lemma_str_sized_depth(t, 2, d1, d2),
        Marker::Str32 => lemma_str_sized_depth(t, 4, d1, d2),
        Marker::Bin8 => lemma_bin_sized_depth(t, 1, d1, d2),
        Marker::Bin16 => lemma_bin_sized_depth(t, 2, d1, d2),
        Marker::Bin32 => lemma_bin_sized_depth(t, 4, d1, d2),
        Marker::FixExt1 => lemma_ext_depth(t, 1, d1, d2),
        Marker::FixExt2 => lemma_ext_depth(t, 2, d1, d2),
        Marker::FixExt4 => lemma_ext_depth(t, 4, d1, d2),
        Marker::FixExt8 => lemma_ext_depth(t, 8, d1, d2),
        Marker::FixExt16 => lemma_ext_depth(t, 16, d1, d2),
        Marker::Ext8 => lemma_ext_sized_depth(t, 1, d1, d2),
        Marker::Ext16 => lemma_ext_sized_depth(t, 2, d1, d2),
        Marker::Ext32 => lemma_ext_sized_depth(t, 4, d1, d2),
        Marker::FixArray(n) => lemma_array_depth(t, n as nat, d1, d2),
        Marker::Array16 => lemma_array_sized_depth(t, 2, d1, d2),
        Marker::Array32 => lemma_array_sized_depth(t, 4, d1, d2),
        Marker::FixMap(n) => lemma_map_depth(t, n as nat, d1, d2),
        Marker::Map16 => lemma_map_sized_depth(t, 2, d1, d2),
        Marker::Map32 => lemma_map_sized_depth(t, 4, d1, d2),
        _ => {},
    }
}

/// String data.
proof fn lemma_str_depth(t: Seq<u8>, n: nat, d1: nat, d2: nat)
    requires
        d1 <= d2,
        depth_sufficed(parse_str(t, n, d1)),
    ensures
        parse_str(t, n, d2) == parse_str(t, n, d1),
{
}

/// Binary data.
proof fn lemma_binary_depth(t: Seq<u8>, n: nat, d1: nat, d2: nat)
    requires
        d1 <= d2,
        depth_sufficed(parse_binary(t, n, d1)),
    ensures
        parse_binary(t, n, d2) == parse_binary(t, n, d1),
{
}

/// Extension data.
proof fn lemma_ext_depth(t: Seq<u8>, n: nat, d1: nat, d2: nat)
    requires
        d1 <= d2,
        depth_sufficed(parse_ext(t, n, d1)),
    ensures
        parse_ext(t, n, d2) == parse_ext(t, n, d1),
{
}

/// A string whose length takes `k` bytes.
proof fn lemma_str_sized_depth(t: Seq<u8>, k: nat, d1: nat, d2: nat)
    requires
        d1 <= d2,
        depth_sufficed(parse_str_sized(t, k, d1)),
    ensures
        parse_str_sized(t, k, d2) == parse_str_sized(t, k, d1),
{
    if t.len() >= k {
        lemma_str_depth(t.skip(k as int), be_value(t.take(k as int)), d1, d2);
    }
}

/// Binary data whose length takes `k` bytes.
proof fn lemma_bin_sized_depth(t: Seq<u8>, k: nat, d1: nat, d2: nat)
    requires
        d1 <= d2,
        depth_sufficed(parse_bin_sized(t, k, d1)),
    ensures
        parse_bin_sized(t, k, d2) == parse_bin_sized(t, k, d1),
{
    if t.len() >= k {
        lemma_binary_depth(t.skip(k as int), be_value(t.take(k as int)), d1, d2);
    }
}

/// Extension data whose length takes `k` bytes.
proof fn lemma_ext_sized_depth(t: Seq<u8>, k: nat, d1: nat, d2: nat)
    requires
        d1 <= d2,
        depth_sufficed(parse_ext_sized(t, k, d1)),
    ensures
        parse_ext_sized(t, k, d2) == parse_ext_sized(t, k, d1),
{
    if t.len() >= k {
        lemma_ext_depth(t.skip(k as int), be_value(t.take(k as int)), d1, d2);
    }
}

/// An array whose length takes `k` bytes.
proof fn lemma_array_sized_depth(t: Seq<u8>, k: nat, d1: nat, d2: nat)
    requires
        d1 <= d2,
        depth_sufficed(parse_array_sized(t, k, d1)),
    ensures
        parse_array_sized(t, k, d2) == parse_array_sized(t, k, d1),
    decreases d1, 1nat,
{
    if t.len() >= k {
        lemma_array_depth(t.skip(k as int), be_value(t.take(k as int)), d1, d2);
    }
}

/// A map whose length takes `k` bytes.
proof fn lemma_map_sized_depth(t: Seq<u8>, k: nat, d1: nat, d2: nat)
    requires
        d1 <= d2,
        depth_sufficed(parse_map_sized(t, k, d1)),
    ensures
        parse_map_sized(t, k, d2) == parse_map_sized(t, k, d1),
    decreases d1, 1nat,
{
    if t.len() >= k {
        lemma_map_depth(t.skip(k as int), be_value(t.take(k as int)), d1, d2);
    }
}

/// The elements of an array.
proof fn lemma_array_depth(t: Seq<u8>, n: nat, d1: nat, d2: nat)
    requires
        d1 <= d2,
        depth_sufficed(parse_array(t, n, d1)),
    ensures
        parse_array(t, n, d2) == parse_array(t, n, d1),
    decreases d1, 0nat,
{
    lemma_items_depth(t, n, (d1 - 1) as nat, (d2 - 1) as nat);
}

/// The entries of a map.
proof fn lemma_map_depth(t: Seq<u8>, n: nat, d1: nat, d2: nat)
    requires
        d1 <= d2,
        depth_sufficed(parse_map(t, n, d1)),
    ensures
        parse_map(t, n, d2) == parse_map(t, n, d1),
    decreases d1, 0nat,
{
    lemma_entries_depth(t, n, (d1 - 1) as nat, (d2 - 1) as nat);
}

/// Values read one after the other.
proof fn lemma_items_depth(t: Seq<u8>, n: nat, d1: nat, d2: nat)
    requires
        d1 <= d2,
        depth_sufficed(parse_items(t, n, d1)),
    ensures
        parse_items(t, n, d2) == parse_items(t, n, d1),
    decreases d1, n + 4,
{
    if n > 0 {
        lemma_value_depth(t, d1, d2);
        let p1 = parse_value(t, d1);
        if p1.0 is Ok {
            lemma_items_depth(t.skip(p1.1 as int), (n - 1) as nat, d1, d2);
        }
    }
}

/// Key-value entries read one after the other.
proof fn lemma_entries_depth(t: Seq<u8>, n: nat, d1: nat, d2: nat)
    requires
        d1 <= d2,
        depth_sufficed(parse_entries(t, n, d1)),
    ensures
        parse_entries(t, n, d2) == parse_entries(t, n, d1),
    decreases d1, n + 4,
{
    if n > 0 {
        lemma_value_depth(t, d1, d2);
        let p1 = parse_value(t, d1);
        if p1.0 is Ok {
            let u = t.skip(p1.1 as int);
            lemma_value_depth(u, d1, d2);
            let p2 = parse_value(u, d1);
            if p2.0 is Ok {
                lemma_entries_depth(t.skip((p1.1 + p2.1) as int), (n - 1) as nat, d1, d2);
            }
        }
    }
}

/// The value that a successful read gave.
pub open spec fn value_read(p: Parsed<ValueModel>) -> ValueModel {
    p.0->Ok_0
}

/// The depth that a read of any bytes needs is the depth that the value it gives needs: a
/// read that gives `v` with some limit gives it, consuming the same bytes, with every limit of
/// at least `depth_needed(v)`, and with every lower limit the depth limit refuses it.
pub proof fn lemma_depth_needed_exactly(s: Seq<u8>, d: nat, d2: nat)
    requires
        parse_value(s, d).0 is Ok,
    ensures
        depth_needed(value_read(parse_value(s, d))) <= d,
        d2 >= depth_needed(value_read(parse_value(s, d))) ==> parse_value(s, d2) == parse_value(s, d),
        d2 < depth_needed(value_read(parse_value(s, d))) ==> parse_value(s, d2).0 matches Err(
            Failure::Depth,
        ),
{
    lemma_value_need(s, d, d2);
    let need = depth_needed(value_read(parse_value(s, d)));
    if d2 < need && depth_sufficed(parse_value(s, d2)) {
        lemma_depth_monotone(s, d2, d);
        lemma_value_need(s, d2, d2);
    }
}

/// One less, but not below zero.
spec fn below(d: nat) -> nat {
    if d > 0 {
        (d - 1) as nat
    } else {
        0
    }
}

/// A value read.
proof fn lemma_value_need(s: Seq<u8>, d: nat, d2: nat)
    requires
        parse_value(s, d).0 is Ok,
    ensures
        depth_needed(value_read(parse_value(s, d))) <= d,
        d2 >= depth_needed(value_read(parse_value(s, d))) ==> parse_value(s, d2) == parse_value(s, d),
    decreases d, 3nat,
{
    lemma_body_need(marker_of(s[0]), s.skip(1), (d - 1) as nat, below(d2));
}

/// What follows a marker.
proof fn lemma_body_need(m: Marker, t: Seq<u8>, d: nat, d2: nat)
    requires
        parse_body(m, t, d).0 is Ok,
    ensures
        depth_needed(value_read(parse_body(m, t, d))) <= d + 1,
        d2 + 1 >= depth_needed(value_read(parse_body(m, t, d))) ==> parse_body(m, t, d2) == parse_body(m, t, d),
    decreases d, 2nat,
{
    match m {
        Marker::FixStr(n) => lemma_str_need(t, n as nat, d, d2),
        Marker::Str8 => lemma_str_sized_need(t, 1, d, d2),
        Marker::Str16 => lemma_str_sized_need(t, 2, d, d2),
        Marker::Str32 => lemma_str_sized_need(t, 4, d, d2),
        Marker::Bin8 => lemma_bin_sized_need(t, 1, d, d2),
        Marker::Bin16 => lemma_bin_sized_need(t, 2, d, d2),
        Marker::Bin32 => lemma_bin_sized_need(t, 4, d, d2),
        Marker::FixExt1 => lemma_ext_need(t, 1, d, d2),
        Marker::FixExt2 => lemma_ext_need(t, 2, d, d2),
        Marker::FixExt4 => lemma_ext_need(t, 4, d, d2),
        Marker::FixExt8 => lemma_ext_need(t, 8, d, d2),
        Marker::FixExt16 => lemma_ext_need(t, 16, d, d2),
        Marker::Ext8 => lemma_ext_sized_need(t, 1, d, d2),
        Marker::Ext16 => lemma_ext_sized_need(t, 2, d, d2),
        Marker::Ext32 => lemma_ext_sized_need(t, 4, d, d2),
        Marker::FixArray(n) => lemma_array_need(t, n as nat, d, d2),
        Marker::Array16 => lemma_array_sized_need(t, 2, d, d2),
        Marker::Array32 => lemma_array_sized_need(t, 4, d, d2),
        Marker::FixMap(n) => lemma_map_need(t, n as nat, d, d2),
        Marker::Map16 => lemma_map_sized_need(t, 2, d, d2),
        Marker::Map32 => lemma_map_sized_need(t, 4, d, d2),
        _ => {},
    }
}

/// String data.
proof fn lemma_str_need(t: Seq<u8>, n: nat, d: nat, d2: nat)
    requires
        parse_str(t, n, d).0 is Ok,
    ensures
        depth_needed(value_read(parse_str(t, n, d))) <= d + 1,
        d2 + 1 >= depth_needed(value_read(parse_str(t, n, d))) ==> parse_str(t, n, d2) == parse_str(t, n, d),
{
}

/// Binary data.
proof fn lemma_binary_need(t: Seq<u8>, n: nat, d: nat, d2: nat)
    requires
        parse_binary(t, n, d).0 is Ok,
    ensures
        depth_needed(value_read(parse_binary(t, n, d))) <= d + 1,
        d2 + 1 >= depth_needed(value_read(parse_binary(t, n, d))) ==> parse_binary(t, n, d2) == parse_binary(t, n, d),
{
}

/// Extension data.
proof fn lemma_ext_need(t: Seq<u8>, n: nat, d: nat, d2: nat)
    requires
        parse_ext(t, n, d).0 is Ok,
    ensures
        depth_needed(value_read(parse_ext(t, n, d))) <= d + 1,
        d2 + 1 >= depth_needed(value_read(parse_ext(t, n, d))) ==> parse_ext(t, n, d2) == parse_ext(t, n, d),
{
}

/// A string whose length takes `k` bytes.
proof fn lemma_str_sized_need(t: Seq<u8>, k: nat, d: nat, d2: nat)
    requires
        parse_str_sized(t, k, d).0 is Ok,
    ensures
        depth_needed(value_read(parse_str_sized(t, k, d))) <= d + 1,
        d2 + 1 >= depth_needed(value_read(parse_str_sized(t, k, d))) ==> parse_str_sized(t, k, d2)
            == parse_str_sized(t, k, d),
{
    lemma_str_need(t.skip(k as int), be_value(t.take(k as int)), d, d2);
}

/// Binary data whose length takes `k` bytes.
proof fn lemma_bin_sized_need(t: Seq<u8>, k: nat, d: nat, d2: nat)
    requires
        parse_bin_sized(t, k, d).0 is Ok,
    ensures
        depth_needed(value_read(parse_bin_sized(t, k, d))) <= d + 1,
        d2 + 1 >= depth_needed(value_read(parse_bin_sized(t, k, d))) ==> parse_bin_sized(t, k, d2)
            == parse_bin_sized(t, k, d),
{
    lemma_binary_need(t.skip(k as int), be_value(t.take(k as int)), d, d2);
}

/// Extension data whose length takes `k` bytes.
proof fn lemma_ext_sized_need(t: Seq<u8>, k: nat, d: nat, d2: nat)
    requires
        parse_ext_sized(t, k, d).0 is Ok,
    ensures
        depth_needed(value_read(parse_ext_sized(t, k, d))) <= d + 1,
        d2 + 1 >= depth_needed(value_read(parse_ext_sized(t, k, d))) ==> parse_ext_sized(t, k, d2)
            == parse_ext_sized(t, k, d),
{
    lemma_ext_need(t.skip(k as int), be_value(t.take(k as int)), d, d2);
}

/// An array whose length takes `k` bytes.
proof fn lemma_array_sized_need(t: Seq<u8>, k: nat, d: nat, d2: nat)
    requires
        parse_array_sized(t, k, d).0 is Ok,
    ensures
        depth_needed(value_read(parse_array_sized(t, k, d))) <= d + 1,
        d2 + 1 >= depth_needed(value_read(parse_array_sized(t, k, d))) ==> parse_array_sized(t, k, d2)
            == parse_array_sized(t, k, d),
    decreases d, 1nat,
{
    lemma_array_need(t.skip(k as int), be_value(t.take(k as int)), d, d2);
}

/// A map whose length takes `k` bytes.
proof fn lemma_map_sized_need(t: Seq<u8>, k: nat, d: nat, d2: nat)
    requires
        parse_map_sized(t, k, d).0 is Ok,
    ensures
        depth_needed(value_read(parse_map_sized(t, k, d))) <= d + 1,
        d2 + 1 >= depth_needed(value_read(parse_map_sized(t, k, d))) ==> parse_map_sized(t, k, d2)
            == parse_map_sized(t, k, d),
    decreases d, 1nat,
{
    lemma_map_need(t.skip(k as int), be_value(t.take(k as int)), d, d2);
}

/// The elements of an array.
proof fn lemma_array_need(t: Seq<u8>, n: nat, d: nat, d2: nat)
    requires
        parse_array(t, n, d).0 is Ok,
    ensures
        depth_needed(value_read(parse_array(t, n, d))) <= d + 1,
        d2 + 1 >= depth_needed(value_read(parse_array(t, n, d))) ==> parse_array(t, n, d2) == parse_array(t, n, d),
    decreases d, 0nat,
{
    lemma_items_need(t, n, (d - 1) as nat, below(d2));
}

/// The entries of a map.
proof fn lemma_map_need(t: Seq<u8>, n: nat, d: nat, d2: nat)
    requires
        parse_map(t, n, d).0 is Ok,
    ensures
        depth_needed(value_read(parse_map(t, n, d))) <= d + 1,
        d2 + 1 >= depth_needed(value_read(parse_map(t, n, d))) ==> parse_map(t, n, d2) == parse_map(t, n, d),
    decreases d, 0nat,
{
    lemma_entries_need(t, n, (d - 1) as nat, below(d2));
}

/// Values read one after the other.
proof fn lemma_items_need(t: Seq<u8>, n: nat, d: nat, d2: nat)
    requires
        parse_items(t, n, d).0 is Ok,
    ensures
        items_depth(parse_items(t, n, d).0->Ok_0) <= d,
        d2 >= items_depth(parse_items(t, n, d).0->Ok_0) ==> parse_items(t, n, d2) == parse_items(t, n, d),
    decreases d, n + 4,
{
    if n > 0 {
        let p1 = parse_value(t, d);
        lemma_value_need(t, d, d2);
        let rest = parse_items(t.skip(p1.1 as int), (n - 1) as nat, d);
        lemma_items_need(t.skip(p1.1 as int), (n - 1) as nat, d, d2);
        let all = seq![p1.0->Ok_0] + rest.0->Ok_0;
        assert(all[0] == p1.0->Ok_0);
        assert(all.drop_first() =~= rest.0->Ok_0);
    }
}

/// Key-value entries read one after the other.
proof fn lemma_entries_need(t: Seq<u8>, n: nat, d: nat, d2: nat)
    requires
        parse_entries(t, n, d).0 is Ok,
    ensures
        entries_depth(parse_entries(t, n, d).0->Ok_0) <= d,
        d2 >= entries_depth(parse_entries(t, n, d).0->Ok_0) ==> parse_entries(t, n, d2) == parse_entries(
            t,
            n,
            d,
        ),
    decreases d, n + 4,
{
    if n > 0 {
        let p1 = parse_value(t, d);
        lemma_value_need(t, d, d2);
        let u = t.skip(p1.1 as int);
        let p2 = parse_value(u, d);
        lemma_value_need(u, d, d2);
        let r = t.skip((p1.1 + p2.1) as int);
        let rest = parse_entries(r, (n - 1) as nat, d);
        lemma_entries_need(r, (n - 1) as nat, d, d2);
        let all = seq![(p1.0->Ok_0, p2.0->Ok_0)] + rest.0->Ok_0;
        assert(all[0] == (p1.0->Ok_0, p2.0->Ok_0));
        assert(all.drop_first() =~= rest.0->Ok_0);
    }
}

// ---------------------------------------------------------------------------------------
// Integers as they are read
// ---------------------------------------------------------------------------------------
/// The integer that a read gave, if it gave one.
pub open spec fn integer_read(p: Parsed<ValueModel>) -> int {
    value_read(p)->Integer_0
}

/// Whether `p` read the integer `v` from a marker and `k` bytes of payload.
pub open spec fn reads_integer(p: Parsed<ValueModel>, k: nat) -> bool {
    &&& p.0 is Ok
    &&& value_read(p) is Integer
    &&& p.1 == k + 1
}

/// A marker byte, followed by a payload and anything after it.
proof fn lemma_marker_payload(m: u8, b: Seq<u8>, rest: Seq<u8>)
    ensures
        (seq![m] + b + rest).len() > 0,
        (seq![m] + b + rest)[0] == m,
        (seq![m] + b + rest).skip(1) == b + rest,
        (b + rest).len() >= b.len(),
        (b + rest).take(b.len() as int) == b,
{
    assert((seq![m] + b + rest).skip(1) =~= b + rest);
    assert((b + rest).take(b.len() as int) =~= b);
}

/// A byte up to `0x7f` on its own is the non-negative integer it holds; one from `0xe0` on
/// is the negative integer `b - 256`, from -32 to -1.
pub proof fn lemma_read_fixint(b: u8, rest: Seq<u8>, depth: nat)
    requires
        depth >= 1,
        b <= 0x7f || b >= 0xe0,
    ensures
        reads_integer(parse_value(seq![b] + rest, depth), 0),
        b <= 0x7f ==> integer_read(parse_value(seq![b] + rest, depth)) == b,
        b >= 0xe0 ==> integer_read(parse_value(seq![b] + rest, depth)) == b - 256,
{
    lemma_marker_payload(b, seq![], rest);
    assert(seq![b] + seq![] + rest =~= seq![b] + rest);
}

/// An unsigned integer (markers `0xcc` to `0xcf`) is its payload read big-endian.
pub proof fn lemma_read_uint(m: u8, b: Seq<u8>, rest: Seq<u8>, depth: nat)
    requires
        depth >= 1,
        0xcc <= m <= 0xcf,
        b.len() == if m == 0xcc { 1nat } else if m == 0xcd { 2nat } else if m == 0xce { 4nat } else { 8nat },
    ensures
        reads_integer(parse_value(seq![m] + b + rest, depth), b.len()),
        m == 0xcc ==> integer_read(parse_value(seq![m] + b + rest, depth)) == b[0],
        m == 0xcd ==> integer_read(parse_value(seq![m] + b + rest, depth)) == b[0] * 0x100 + b[1],
        m == 0xce ==> integer_read(parse_value(seq![m] + b + rest, depth)) == b[0] * 0x100_0000
            + b[1] * 0x1_0000 + b[2] * 0x100 + b[3],
        m == 0xcf ==> integer_read(parse_value(seq![m] + b + rest, depth)) == b[0]
            * 0x100_0000_0000_0000 + b[1] * 0x1_0000_0000_0000 + b[2] * 0x100_0000_0000 + b[3]
            * 0x1_0000_0000 + b[4] * 0x100_0000 + b[5] * 0x1_0000 + b[6] * 0x100 + b[7],
{
    lemma_marker_payload(m, b, rest);
    reveal_with_fuel(be_value, 9);
}

/// A signed integer of one byte (marker `0xd0`) is read as two's complement: the integer
/// from -128 to 127 that equals the payload modulo 256.
pub proof fn lemma_read_i8(b: Seq<u8>, rest: Seq<u8>, depth: nat)
    requires
        depth >= 1,
        b.len() == 1,
    ensures
        reads_integer(parse_value(seq![0xd0u8] + b + rest, depth), 1),
        -0x80 <= integer_read(parse_value(seq![0xd0u8] + b + rest, depth)) < 0x80,
        (integer_read(parse_value(seq![0xd0u8] + b + rest, depth)) - b[0]) % 0x100 == 0,
{
    lemma_marker_payload(0xd0, b, rest);
    reveal_with_fuel(be_value, 2);
}

/// A signed integer of two bytes (marker `0xd1`) is read as two's complement: the integer
/// from -2^15 to 2^15 - 1 that equals the big-endian payload modulo 2^16. A payload below
/// `0x8000` is thus read as itself.
pub proof fn lemma_read_i16(b: Seq<u8>, rest: Seq<u8>, depth: nat)
    requires
        depth >= 1,
        b.len() == 2,
    ensures
        reads_integer(parse_value(seq![0xd1u8] + b + rest, depth), 2),
        -0x8000 <= integer_read(parse_value(seq![0xd1u8] + b + rest, depth)) < 0x8000,
        (integer_read(parse_value(seq![0xd1u8] + b + rest, depth)) - (b[0] * 0x100 + b[1]))
            % 0x1_0000 == 0,
{
    lemma_marker_payload(0xd1, b, rest);
    reveal_with_fuel(be_value, 3);
}

/// A signed integer of four bytes (marker `0xd2`) is read as two's complement: the integer
/// from -2^31 to 2^31 - 1 that equals the big-endian payload modulo 2^32.
pub proof fn lemma_read_i32(b: Seq<u8>, rest: Seq<u8>, depth: nat)
    requires
        depth >= 1,
        b.len() == 4,
    ensures
        reads_integer(parse_value(seq![0xd2u8] + b + rest, depth), 4),
        -0x8000_0000 <= integer_read(parse_value(seq![0xd2u8] + b + rest, depth)) < 0x8000_0000,
        (integer_read(parse_value(seq![0xd2u8] + b + rest, depth)) - (b[0] * 0x100_0000 + b[1]
            * 0x1_0000 + b[2] * 0x100 + b[3])) % 0x1_0000_0000 == 0,
{
    lemma_marker_payload(0xd2, b, rest);
    reveal_with_fuel(be_value, 5);
}

/// A signed integer of eight bytes (marker `0xd3`) is read as two's complement: the integer
/// from -2^63 to 2^63 - 1 that equals the big-endian payload modulo 2^64.
pub proof fn lemma_read_i64(b: Seq<u8>, rest: Seq<u8>, depth: nat)
    requires
        depth >= 1,
        b.len() == 8,
    ensures
        reads_integer(parse_value(seq![0xd3u8] + b + rest, depth), 8),
        -0x8000_0000_0000_0000 <= integer_read(parse_value(seq![0xd3u8] + b + rest, depth))
            < 0x8000_0000_0000_0000,
        (integer_read(parse_value(seq![0xd3u8] + b + rest, depth)) - (b[0] * 0x100_0000_0000_0000
            + b[1] * 0x1_0000_0000_0000 + b[2] * 0x100_0000_0000 + b[3] * 0x1_0000_0000 + b[4]
            * 0x100_0000 + b[5] * 0x1_0000 + b[6] * 0x100 + b[7])) % 0x1_0000_0000_0000_0000 == 0,
{
    lemma_marker_payload(0xd3, b, rest);
    reveal_with_fuel(be_value, 9);
}

/// The type byte of an extension value (here of marker `0xd4`, one data byte) is read as
/// two's complement: the type from -128 to 127 that equals the byte modulo 256.
pub proof fn lemma_read_ext_type(ty: u8, data: u8, rest: Seq<u8>, depth: nat)
    requires
        depth >= 3,
    ensures
        parse_value(seq![0xd4u8, ty, data] + rest, depth) == (
            Ok::<_, Failure>(ValueModel::Ext(value_read(parse_value(seq![0xd4u8, ty, data] + rest, depth))->Ext_0, seq![data])),
            3nat,
        ),
        -0x80 <= value_read(parse_value(seq![0xd4u8, ty, data] + rest, depth))->Ext_0 < 0x80,
        (value_read(parse_value(seq![0xd4u8, ty, data] + rest, depth))->Ext_0 - ty) % 0x100 == 0,
{
    lemma_marker_payload(0xd4, seq![ty, data], rest);
    assert(seq![0xd4u8] + seq![ty, data] + rest =~= seq![0xd4u8, ty, data] + rest);
    let t = seq![ty, data] + rest;
    assert(t.skip(1) =~= seq![data] + rest);
    assert((seq![data] + rest).take(1) =~= seq![data]);
}

} // verus!
