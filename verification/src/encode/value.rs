//! Encoding of an owned `Value`.
use vstd::prelude::*;

use core::convert::Infallible;
use rmp::encode::ByteBuf;

use super::{
    byte_buf_contents, byte_buf_into_vec, byte_buf_new, rmp_write_array_len, rmp_write_bin, rmp_write_bool, rmp_write_bytes,
    rmp_write_ext_meta, rmp_write_map_len, rmp_write_nil, rmp_write_sint, rmp_write_str,
    rmp_write_str_len, rmp_write_uint,
};
use crate::format::{array_header, be_bytes, ext_header, str_header, encode, encode_entries, encode_items, len32, map_header};
use crate::value::{entry_models, lemma_array_model, lemma_map_model, models, IntPriv, Value};

verus! {

/// The `k` low bytes of `x`, most significant first.
fn be_bytes_vec(x: u64, k: usize) -> (v: Vec<u8>)
    ensures
        v@ == be_bytes(x as nat, k as nat),
    decreases k,
{
    if k == 0 {
        Vec::new()
    } else {
        let mut v = be_bytes_vec(x / 256, k - 1);
        v.push((x % 256) as u8);
        v
    }
}

/// Appends a float marker and the `k` bytes of the float's bits, most significant first:
/// what `rmp::encode::write_f32` and `write_f64` write.
fn write_float_bits(wr: &mut ByteBuf, marker: u8, bits: u64, k: usize)
    ensures
        byte_buf_contents(*final(wr)) == byte_buf_contents(*old(wr)) + (seq![marker] + be_bytes(
            bits as nat,
            k as nat,
        )),
{
    let mut bytes = be_bytes_vec(bits, k);
    let ghost b = bytes@;
    bytes.insert(0, marker);
    assert(bytes@ =~= seq![marker] + b);
    rmp_write_bytes(wr, bytes.as_slice());
}

/// A count as it goes into a header: cut to its low 32 bits.
fn len_u32(n: usize) -> (r: u32)
    ensures
        r == len32(n as nat),
{
    (n as u64 % 0x1_0000_0000) as u32
}

/// Encodes `val` in its shortest representation and appends it to `wr`.
///
/// Strings are written with a string marker, also when their bytes are not valid UTF-8.
/// Lengths and counts go into the headers cut to 32 bits. Writing into a `ByteBuf` cannot
/// fail.
pub fn write_value(wr: &mut ByteBuf, val: &Value) -> (res: Result<(), Infallible>)
    ensures
        res is Ok,
        byte_buf_contents(*final(wr)) == byte_buf_contents(*old(wr)) + encode(val.model()),
    decreases val,
{
    match val {
        Value::Nil => {
            rmp_write_nil(wr);
        },
        Value::Boolean(b) => {
            rmp_write_bool(wr, *b);
        },
        Value::Integer(i) => match i.n {
            IntPriv::PosInt(n) => {
                proof {
                    i.lemma_value();
                }
                rmp_write_uint(wr, n);
            },
            IntPriv::NegInt(n) => {
                proof {
                    i.lemma_value();
                }
                rmp_write_sint(wr, n);
            },
        },
        Value::F32(bits) => {
            write_float_bits(wr, 0xca, *bits as u64, 4);
        },
        Value::F64(bits) => {
            write_float_bits(wr, 0xcb, *bits, 8);
        },
        Value::String(s) => {
            proof {
                s.lemma_bytes();
            }
            match &s.s {
            Ok(text) => {
                rmp_write_str(wr, text.as_str());
            },
            Err((bytes, _)) => {
                let ghost start = byte_buf_contents(*wr);
                rmp_write_str_len(wr, len_u32(bytes.len()));
                rmp_write_bytes(wr, bytes.as_slice());
                proof {
                    let h = str_header(len32(bytes@.len()));
                    assert(start + h + bytes@ =~= start + (h + bytes@));
                }
            },
            }
        },
        Value::Binary(b) => {
            rmp_write_bin(wr, b.as_slice());
        },
        Value::Array(items) => {
            let ghost m = models(items@);
            let ghost start = byte_buf_contents(*wr);
            proof {
                lemma_array_model(*items);
            }
            rmp_write_array_len(wr, len_u32(items.len()));
            proof {
                assert(m.skip(0) =~= m);
                let h = array_header(len32(m.len()));
                assert(start + h + encode_items(m) =~= start + (h + encode_items(m)));
            }
            let mut i: usize = 0;
            while i < items.len()
                invariant
                    *val == Value::Array(*items),
                    m == models(items@),
                    i <= items@.len(),
                    byte_buf_contents(*wr) + encode_items(m.skip(i as int)) == start + encode(
                        val.model(),
                    ),
                decreases items@.len() - i,
            {
                proof {
                    assert(decreases_to!(*val => (*val)->Array_0));
                    assert(decreases_to!(*items => items@));
                    assert(decreases_to!(items@ => items@[i as int]));
                    assert(m.skip(i as int).drop_first() =~= m.skip(i + 1));
                }
                let ghost before = byte_buf_contents(*wr);
                let _ = write_value(wr, &items[i]);
                proof {
                    let e = encode(m[i as int]);
                    let r = encode_items(m.skip(i + 1));
                    assert(before + (e + r) =~= before + e + r);
                }
                i = i + 1;
            }
            proof {
                assert(m.skip(i as int) =~= Seq::<crate::value::ValueModel>::empty());
                assert(byte_buf_contents(*wr) + Seq::<u8>::empty() =~= byte_buf_contents(*wr));
            }
        },
        Value::Mapping(entries) => {
            let ghost m = entry_models(entries@);
            let ghost start = byte_buf_contents(*wr);
            proof {
                lemma_map_model(*entries);
            }
            rmp_write_map_len(wr, len_u32(entries.len()));
            proof {
                assert(m.skip(0) =~= m);
                let h = map_header(len32(m.len()));
                assert(start + h + encode_entries(m) =~= start + (h + encode_entries(m)));
            }
            let mut i: usize = 0;
            while i < entries.len()
                invariant
                    *val == Value::Mapping(*entries),
                    m == entry_models(entries@),
                    i <= entries@.len(),
                    byte_buf_contents(*wr) + encode_entries(m.skip(i as int)) == start + encode(
                        val.model(),
                    ),
                decreases entries@.len() - i,
            {
                proof {
                    assert(decreases_to!(*val => (*val)->Mapping_0));
                    assert(decreases_to!(*entries => entries@));
                    assert(decreases_to!(entries@ => entries@[i as int]));
                    assert(decreases_to!(entries@[i as int] => entries@[i as int].0));
                    assert(decreases_to!(entries@[i as int] => entries@[i as int].1));
                    assert(m.skip(i as int).drop_first() =~= m.skip(i + 1));
                }
                let ghost before = byte_buf_contents(*wr);
                let _ = write_value(wr, &entries[i].0);
                let _ = write_value(wr, &entries[i].1);
                proof {
                    let k = encode(m[i as int].0);
                    let v = encode(m[i as int].1);
                    let r = encode_entries(m.skip(i + 1));
                    assert(before + (k + v + r) =~= before + k + v + r);
                }
                i = i + 1;
            }
            proof {
                assert(m.skip(i as int) =~= Seq::<(crate::value::ValueModel, crate::value::ValueModel)>::empty());
                assert(byte_buf_contents(*wr) + Seq::<u8>::empty() =~= byte_buf_contents(*wr));
            }
        },
        Value::Ext(ty, data) => {
            let ghost start = byte_buf_contents(*wr);
            rmp_write_ext_meta(wr, len_u32(data.len()), *ty);
            rmp_write_bytes(wr, data.as_slice());
            proof {
                let h = ext_header(len32(data@.len()), *ty);
                assert(start + h + data@ =~= start + (h + data@));
            }
        },
    }
    Ok(())
}

/// The bytes of `val` in its shortest representation, as [`write_value`] writes them into
/// an empty buffer: what is sent to a writer that takes bytes.
pub fn write_value_to_vec(val: &Value) -> (bytes: Vec<u8>)
    ensures
        bytes@ == encode(val.model()),
{
    let mut buf = byte_buf_new();
    let _ = write_value(&mut buf, val);
    proof {
        assert(Seq::<u8>::empty() + encode(val.model()) =~= encode(val.model()));
    }
    byte_buf_into_vec(buf)
}

} // verus!
