//! Encoding of MessagePack values into an `rmp` byte buffer.
use vstd::prelude::*;

use rmp::encode::ByteBuf;

use crate::format::{
    array_header, bin_header, ext_header, map_header, sint_bytes, str_header, uint_bytes,
};

pub mod value;

pub use self::value::{write_value, write_value_to_vec};
use rmp::encode::ValueWriteError;

verus! {

#[verifier::external_type_specification]
#[verifier::external_body]
pub struct ExByteBuf(ByteBuf);

/// The bytes that an `rmp::encode::ByteBuf` holds.
pub uninterp spec fn byte_buf_contents(buf: ByteBuf) -> Seq<u8>;

/// `rmp::encode::write_nil`: appends the nil marker `0xc0`. The buffer's error type is
/// `Infallible`, so the call cannot fail.
#[verifier::external_body]
pub(crate) fn rmp_write_nil(wr: &mut ByteBuf)
    ensures
        byte_buf_contents(*final(wr)) == byte_buf_contents(*old(wr)) + seq![0xc0u8],
{
    match rmp::encode::write_nil(wr) {
        Ok(()) => {},
        Err(e) => match e {},
    }
}

/// `rmp::encode::write_bool`: appends `0xc3` for `true`, `0xc2` for `false`.
#[verifier::external_body]
pub(crate) fn rmp_write_bool(wr: &mut ByteBuf, val: bool)
    ensures
        byte_buf_contents(*final(wr)) == byte_buf_contents(*old(wr)) + (if val {
            seq![0xc3u8]
        } else {
            seq![0xc2u8]
        }),
{
    match rmp::encode::write_bool(wr, val) {
        Ok(()) => {},
        Err(e) => match e {},
    }
}

/// `rmp::encode::write_uint`: appends the shortest encoding of an unsigned integer.
#[verifier::external_body]
pub(crate) fn rmp_write_uint(wr: &mut ByteBuf, val: u64)
    ensures
        byte_buf_contents(*final(wr)) == byte_buf_contents(*old(wr)) + uint_bytes(val),
{
    match rmp::encode::write_uint(wr, val) {
        Ok(_) => {},
        Err(ValueWriteError::InvalidMarkerWrite(e) | ValueWriteError::InvalidDataWrite(e)) => match e {},
    }
}

/// `rmp::encode::write_sint`: appends the shortest encoding of a signed integer (a
/// non-negative one as unsigned).
#[verifier::external_body]
pub(crate) fn rmp_write_sint(wr: &mut ByteBuf, val: i64)
    ensures
        byte_buf_contents(*final(wr)) == byte_buf_contents(*old(wr)) + sint_bytes(val),
{
    match rmp::encode::write_sint(wr, val) {
        Ok(_) => {},
        Err(ValueWriteError::InvalidMarkerWrite(e) | ValueWriteError::InvalidDataWrite(e)) => match e {},
    }
}

/// `rmp::encode::write_str`: appends the string header for the byte length of `data`, cut to
/// 32 bits, then the UTF-8 bytes of `data`.
#[verifier::external_body]
pub(crate) fn rmp_write_str(wr: &mut ByteBuf, data: &str)
    ensures
        byte_buf_contents(*final(wr)) == byte_buf_contents(*old(wr)) + str_header(
            crate::format::len32(vstd::utf8::encode_utf8(data@).len()),
        ) + vstd::utf8::encode_utf8(data@),
{
    match rmp::encode::write_str(wr, data) {
        Ok(()) => {},
        Err(ValueWriteError::InvalidMarkerWrite(e) | ValueWriteError::InvalidDataWrite(e)) => match e {},
    }
}

/// `rmp::encode::write_str_len`: appends the header of a string of `len` bytes.
#[verifier::external_body]
pub(crate) fn rmp_write_str_len(wr: &mut ByteBuf, len: u32)
    ensures
        byte_buf_contents(*final(wr)) == byte_buf_contents(*old(wr)) + str_header(len),
{
    match rmp::encode::write_str_len(wr, len) {
        Ok(_) => {},
        Err(ValueWriteError::InvalidMarkerWrite(e) | ValueWriteError::InvalidDataWrite(e)) => match e {},
    }
}

/// `rmp::encode::write_bin`: appends the binary header for the length of `data`, cut to 32
/// bits, then `data`.
#[verifier::external_body]
pub(crate) fn rmp_write_bin(wr: &mut ByteBuf, data: &[u8])
    ensures
        byte_buf_contents(*final(wr)) == byte_buf_contents(*old(wr)) + bin_header(
            crate::format::len32(data@.len()),
        ) + data@,
{
    match rmp::encode::write_bin(wr, data) {
        Ok(()) => {},
        Err(ValueWriteError::InvalidMarkerWrite(e) | ValueWriteError::InvalidDataWrite(e)) => match e {},
    }
}

/// `rmp::encode::write_array_len`: appends the header of an array of `len` elements.
#[verifier::external_body]
pub(crate) fn rmp_write_array_len(wr: &mut ByteBuf, len: u32)
    ensures
        byte_buf_contents(*final(wr)) == byte_buf_contents(*old(wr)) + array_header(len),
{
    match rmp::encode::write_array_len(wr, len) {
        Ok(_) => {},
        Err(ValueWriteError::InvalidMarkerWrite(e) | ValueWriteError::InvalidDataWrite(e)) => match e {},
    }
}

/// `rmp::encode::write_map_len`: appends the header of a map of `len` entries.
#[verifier::external_body]
pub(crate) fn rmp_write_map_len(wr: &mut ByteBuf, len: u32)
    ensures
        byte_buf_contents(*final(wr)) == byte_buf_contents(*old(wr)) + map_header(len),
{
    match rmp::encode::write_map_len(wr, len) {
        Ok(_) => {},
        Err(ValueWriteError::InvalidMarkerWrite(e) | ValueWriteError::InvalidDataWrite(e)) => match e {},
    }
}

/// `rmp::encode::write_ext_meta`: appends the header of an extension value of `len` data
/// bytes, then its type byte.
#[verifier::external_body]
pub(crate) fn rmp_write_ext_meta(wr: &mut ByteBuf, len: u32, ty: i8)
    ensures
        byte_buf_contents(*final(wr)) == byte_buf_contents(*old(wr)) + ext_header(len, ty),
{
    match rmp::encode::write_ext_meta(wr, len, ty) {
        Ok(_) => {},
        Err(ValueWriteError::InvalidMarkerWrite(e) | ValueWriteError::InvalidDataWrite(e)) => match e {},
    }
}

/// `rmp::encode::RmpWrite::write_bytes` on a `ByteBuf`: appends `data`.
#[verifier::external_body]
pub(crate) fn rmp_write_bytes(wr: &mut ByteBuf, data: &[u8])
    ensures
        byte_buf_contents(*final(wr)) == byte_buf_contents(*old(wr)) + data@,
{
    match rmp::encode::RmpWrite::write_bytes(wr, data) {
        Ok(()) => {},
        Err(e) => match e {},
    }
}

/// `rmp::encode::ByteBuf::new`: a buffer that holds no byte.
#[verifier::external_body]
pub(crate) fn byte_buf_new() -> (buf: ByteBuf)
    ensures
        byte_buf_contents(buf) == Seq::<u8>::empty(),
{
    ByteBuf::new()
}

/// `rmp::encode::ByteBuf::into_vec`: the bytes that the buffer holds.
#[verifier::external_body]
pub(crate) fn byte_buf_into_vec(buf: ByteBuf) -> (v: Vec<u8>)
    ensures
        v@ == byte_buf_contents(buf),
{
    buf.into_vec()
}

} // verus!
