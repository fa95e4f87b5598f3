//! Zero-copy decoding of a `ValueRef` from a buffer.
use vstd::prelude::*;
use vstd::slice::slice_subrange;
use vstd::utf8::*;

use std::io::Cursor;

use super::{decrement_depth, Error, MAX_DEPTH};
use crate::format::{
    as_float, as_integer, be_value, byte_as_i8, lemma_be_value_bound, lemma_be_value_step,
    lemma_pow256_values, lemma_skip_skip, lemma_skip_zero, parse_array, parse_array_sized,
    parse_bin, parse_bin_sized, parse_body, parse_entries, parse_ext, parse_ext_sized, parse_items,
    parse_map, parse_map_sized, parse_number, parse_str, parse_str_sized, parse_value, pow256,
    signed, Failure, Marker, Parsed,
};
use crate::value::{
    all_entries_wf, all_wf, lemma_ref_array_model, lemma_ref_map_model, ref_entry_models,
    ref_models, str_from_utf8, Integer, Utf8StringRef, ValueModel, ValueRef,
};

verus! {

broadcast use lemma_skip_zero;

/// A reader with an internal buffer that the decoded values may borrow from.
///
/// Like `BufRead`, but the buffer has an explicit lifetime, so that bytes can be borrowed
/// from it while they are consumed.
pub trait BorrowRead<'a>: Sized {
    /// The bytes that have not been consumed yet.
    spec fn unread(&self) -> Seq<u8>;

    /// Whether `self` is the reader `before` once `n` more bytes were consumed.
    spec fn advanced_from(&self, before: &Self, n: nat) -> bool;

    /// Whether `len` bytes may be consumed.
    spec fn can_consume(&self, len: usize) -> bool;

    /// A reader is itself advanced by nothing.
    proof fn lemma_advanced_zero(&self)
        ensures
            self.advanced_from(self, 0),
    ;

    /// Advancing by `n` bytes, then by `m`, is advancing by `n + m`.
    proof fn lemma_advanced_trans(&self, mid: &Self, before: &Self, n: nat, m: nat)
        requires
            mid.advanced_from(before, n),
            self.advanced_from(mid, m),
        ensures
            self.advanced_from(before, n + m),
    ;

    /// Bytes that are there may be consumed.
    proof fn lemma_can_consume(&self, len: usize)
        requires
            len <= self.unread().len(),
        ensures
            self.can_consume(len),
    ;

    /// Returns the buffer contents; an empty buffer means that the end was reached.
    fn fill_buf(&self) -> (buf: &'a [u8])
        ensures
            buf@ == self.unread(),
    ;

    /// Marks `len` bytes as consumed, so that they are not returned again.
    fn consume(&mut self, len: usize)
        requires
            old(self).can_consume(len),
        ensures
            final(self).advanced_from(old(self), len as nat),
            len <= old(self).unread().len() ==> final(self).unread() == old(self).unread().skip(
                len as int,
            ),
            len > old(self).unread().len() ==> final(self).unread().len() == 0,
    ;
}

impl<'a> BorrowRead<'a> for &'a [u8] {
    open spec fn unread(&self) -> Seq<u8> {
        (**self)@
    }

    open spec fn advanced_from(&self, before: &Self, n: nat) -> bool {
        n <= (**before)@.len() && (**self)@ == (**before)@.skip(n as int)
    }

    open spec fn can_consume(&self, len: usize) -> bool {
        len <= (**self)@.len()
    }

    proof fn lemma_advanced_zero(&self) {
    }

    proof fn lemma_advanced_trans(&self, mid: &Self, before: &Self, n: nat, m: nat) {
        lemma_skip_skip((**before)@, n as int, m as int);
    }

    proof fn lemma_can_consume(&self, len: usize) {
    }

    fn fill_buf(&self) -> (buf: &'a [u8]) {
        *self
    }

    fn consume(&mut self, len: usize) {
        *self = slice_subrange(*self, len, self.len());
    }
}

#[verifier::external_type_specification]
#[verifier::external_body]
#[verifier::reject_recursive_types(T)]
pub struct ExCursor<T>(std::io::Cursor<T>);

/// The bytes that a cursor over a slice reads from.
pub uninterp spec fn cursor_bytes(c: Cursor<&[u8]>) -> Seq<u8>;

/// The position of a cursor over a slice.
pub uninterp spec fn cursor_position(c: Cursor<&[u8]>) -> u64;

/// `std::io::Cursor::get_ref`: the slice that the cursor reads from.
#[verifier::external_body]
fn cursor_get_ref<'a, 'b>(c: &'b Cursor<&'a [u8]>) -> (r: &'a [u8])
    ensures
        r@ == cursor_bytes(*c),
{
    *c.get_ref()
}

/// `std::io::Cursor::position`: the position of the cursor.
#[verifier::external_body]
fn cursor_get_position(c: &Cursor<&[u8]>) -> (r: u64)
    ensures
        r == cursor_position(*c),
{
    c.position()
}

/// `std::io::Cursor::set_position`: moves the cursor to `pos`; the slice stays the same.
#[verifier::external_body]
fn cursor_set_position(c: &mut Cursor<&[u8]>, pos: u64)
    ensures
        cursor_position(*final(c)) == pos,
        cursor_bytes(*final(c)) == cursor_bytes(*old(c)),
{
    c.set_position(pos)
}

/// The bytes of a cursor from its position on; none if it is past the end.
pub open spec fn cursor_unread(c: Cursor<&[u8]>) -> Seq<u8> {
    let b = cursor_bytes(c);
    let p = cursor_position(c);
    if p < b.len() {
        b.skip(p as int)
    } else {
        Seq::empty()
    }
}

impl<'a> BorrowRead<'a> for Cursor<&'a [u8]> {
    open spec fn unread(&self) -> Seq<u8> {
        cursor_unread(*self)
    }

    /// The slice is the same and the position moved on by `n`.
    open spec fn advanced_from(&self, before: &Self, n: nat) -> bool {
        cursor_bytes(*self) == cursor_bytes(*before) && cursor_position(*self) == cursor_position(
            *before,
        ) + n
    }

    /// The bytes are there, or the position does not pass `u64::MAX`.
    open spec fn can_consume(&self, len: usize) -> bool {
        len <= cursor_unread(*self).len() || cursor_position(*self) + len <= u64::MAX
    }

    proof fn lemma_advanced_zero(&self) {
    }

    proof fn lemma_advanced_trans(&self, mid: &Self, before: &Self, n: nat, m: nat) {
    }

    proof fn lemma_can_consume(&self, len: usize) {
    }

    fn fill_buf(&self) -> (buf: &'a [u8]) {
        let bytes = cursor_get_ref(self);
        let pos = cursor_get_position(self);
        let len = if pos < bytes.len() as u64 {
            pos as usize
        } else {
            bytes.len()
        };
        slice_subrange(bytes, len, bytes.len())
    }

    fn consume(&mut self, len: usize)
        ensures
            cursor_position(*final(self)) == cursor_position(*old(self)) + len,
            cursor_bytes(*final(self)) == cursor_bytes(*old(self)),
    {
        let pos = cursor_get_position(self);
        // A slice is no longer than `u64::MAX`: bytes that are there can be passed over.
        let total = cursor_get_ref(self).len();
        proof {
            let b = cursor_bytes(*self);
            if pos < b.len() && pos + len <= b.len() {
                lemma_skip_skip(b, pos as int, len as int);
                assert(b.skip(b.len() as int) =~= Seq::<u8>::empty());
            }
        }
        cursor_set_position(self, pos + len as u64);
    }
}

/// `std::io::Error::from(std::io::ErrorKind::UnexpectedEof)`: the error of an input that
/// ended too early. Nothing is stated of the error that comes back: it is opaque here; its
/// kind is `UnexpectedEof`.
#[verifier::external_body]
fn unexpected_eof() -> std::io::Error {
    std::io::Error::from(std::io::ErrorKind::UnexpectedEof)
}

/// Whether `e` is the error that reports the failure `f`.
pub open spec fn reports(e: Error, f: Failure) -> bool {
    match f {
        Failure::Depth => e is DepthLimitExceeded,
        Failure::MarkerMissing => e is InvalidMarkerRead,
        Failure::DataMissing => e is InvalidDataRead,
    }
}

/// `after` is what is left of `before` once `count` bytes were consumed.
pub open spec fn consumed(count: nat, before: Seq<u8>, after: Seq<u8>) -> bool {
    count <= before.len() && after == before.skip(count as int)
}

/// `after` is the reader `before` once `count` bytes were consumed: its unread bytes are
/// what is left of those of `before`, and it has advanced by `count`.
pub open spec fn moved<'a, R: BorrowRead<'a>>(before: R, after: R, count: nat) -> bool {
    consumed(count, before.unread(), after.unread()) && after.advanced_from(&before, count)
}

/// A reader has moved by nothing from itself.
proof fn lemma_moved_zero<'a, R: BorrowRead<'a>>(r: R)
    ensures
        moved(r, r, 0),
{
    r.lemma_advanced_zero();
}

/// Moving by `k` bytes and then by `c` more is moving by `k + c`.
proof fn lemma_moved_after<'a, R: BorrowRead<'a>>(before: R, mid: R, after: R, k: nat, c: nat)
    requires
        moved(before, mid, k),
        moved(mid, after, c),
    ensures
        moved(before, after, k + c),
{
    lemma_skip_skip(before.unread(), k as int, c as int);
    after.lemma_advanced_trans(&mid, &before, k, c);
}

/// Reads a big-endian number of `k` bytes from the front of `buf`.
fn be_number(buf: &[u8], k: usize) -> (r: u64)
    requires
        k <= 8,
        k <= buf@.len(),
    ensures
        r == be_value(buf@.take(k as int)),
{
    let mut r: u64 = 0;
    let mut i: usize = 0;
    proof {
        lemma_pow256_values();
    }
    while i < k
        invariant
            i <= k <= 8,
            k <= buf@.len(),
            r == be_value(buf@.take(i as int)),
            r < pow256(i as nat),
            pow256(8) == 0x1_0000_0000_0000_0000,
        decreases k - i,
    {
        proof {
            lemma_be_value_step(buf@, i as int);
            lemma_pow256_le(i as nat + 1);
            let p = pow256(i as nat);
            assert(r * 256 + buf@[i as int] < 256 * p) by (nonlinear_arith)
                requires
                    r < p,
                    buf@[i as int] < 256,
            ;
        }
        r = r * 256 + buf[i] as u64;
        i = i + 1;
    }
    r
}

/// `256^k` grows with `k`.
proof fn lemma_pow256_le(k: nat)
    requires
        k <= 8,
    ensures
        pow256(k) <= pow256(8),
{
    lemma_pow256_values();
    reveal_with_fuel(pow256, 9);
}

/// Reads and consumes a big-endian number of `k` bytes.
fn read_number<'a, R: BorrowRead<'a>>(rd: &mut R, k: usize) -> (res: Result<u64, Error>)
    requires
        k <= 8,
    ensures
        moved(*old(rd), *final(rd), parse_number(old(rd).unread(), k as nat).1),
        match res {
            Ok(x) => parse_number(old(rd).unread(), k as nat).0 == Ok::<_, Failure>(x as nat),
            Err(e) => parse_number(old(rd).unread(), k as nat).0 matches Err(f) && reports(e, f),
        },
{
    proof {
        lemma_moved_zero(*rd);
    }
    let buf = rd.fill_buf();
    if buf.len() < k {
        return Err(Error::InvalidDataRead(unexpected_eof()));
    }
    let x = be_number(buf, k);
    proof {
        rd.lemma_can_consume(k);
    }
    rd.consume(k);
    Ok(x)
}

/// A byte read as `i8`.
fn byte_to_i8(b: u8) -> (r: i8)
    ensures
        r == byte_as_i8(b),
{
    if b >= 0x80 {
        (b as i16 - 0x100) as i8
    } else {
        b as i8
    }
}

/// `x`, a number of `8 * k` bits, read as two's complement.
fn to_signed(x: u64, k: usize) -> (r: i64)
    requires
        k == 1 || k == 2 || k == 4 || k == 8,
        x < pow256(k as nat),
    ensures
        r == signed(x as nat, 8 * k as nat),
{
    proof {
        lemma_pow256_values();
    }
    if k == 8 {
        if x >= 0x8000_0000_0000_0000 {
            -((u64::MAX - x) as i64) - 1
        } else {
            x as i64
        }
    } else {
        let half: u64 = if k == 1 {
            0x80
        } else if k == 2 {
            0x8000
        } else {
            0x8000_0000
        };
        if x >= half {
            x as i64 - 2 * half as i64
        } else {
            x as i64
        }
    }
}

/// An integer of `k` bytes, signed or not, read as a value.
fn read_int<'a, R: BorrowRead<'a>>(rd: &mut R, k: usize, is_signed: bool) -> (res: Result<
    ValueRef<'a>,
    Error,
>)
    requires
        k == 1 || k == 2 || k == 4 || k == 8,
    ensures
        ({
            let p = as_integer(parse_number(old(rd).unread(), k as nat), is_signed, 8 * k as nat);
            &&& moved(*old(rd), *final(rd), p.1)
            &&& match res {
                Ok(v) => p.0 == Ok::<_, Failure>(v.model()) && v.wf(),
                Err(e) => p.0 matches Err(f) && reports(e, f),
            }
        }),
{
    let x = match read_number(rd, k) {
        Ok(x) => x,
        Err(e) => return Err(e),
    };
    proof {
        lemma_be_value_bound(old(rd).unread().take(k as int));
    }
    if is_signed {
        Ok(ValueRef::Integer(Integer::from_i64(to_signed(x, k))))
    } else {
        Ok(ValueRef::Integer(Integer::from_u64(x)))
    }
}

/// The bits of a float of `k` bytes, read as a value.
fn read_float<'a, R: BorrowRead<'a>>(rd: &mut R, wide: bool) -> (res: Result<ValueRef<'a>, Error>)
    ensures
        ({
            let p = as_float(parse_number(old(rd).unread(), if wide { 8 } else { 4 }), wide);
            &&& moved(*old(rd), *final(rd), p.1)
            &&& match res {
                Ok(v) => p.0 == Ok::<_, Failure>(v.model()) && v.wf(),
                Err(e) => p.0 matches Err(f) && reports(e, f),
            }
        }),
{
    let k: usize = if wide { 8 } else { 4 };
    let x = match read_number(rd, k) {
        Ok(x) => x,
        Err(e) => return Err(e),
    };
    proof {
        lemma_be_value_bound(old(rd).unread().take(k as int));
        lemma_pow256_values();
    }
    if wide {
        Ok(ValueRef::F64(x))
    } else {
        Ok(ValueRef::F32(x as u32))
    }
}

/// Reads `len` raw bytes, borrowed from the buffer.
fn read_bin_data<'a, R: BorrowRead<'a>>(rd: &mut R, len: usize, depth: u16) -> (res: Result<
    &'a [u8],
    Error,
>)
    ensures
        ({
            let p = parse_bin(old(rd).unread(), len as nat, depth as nat);
            &&& moved(*old(rd), *final(rd), p.1)
            &&& match res {
                Ok(b) => p.0 == Ok::<_, Failure>(b@),
                Err(e) => p.0 matches Err(f) && reports(e, f),
            }
        }),
{
    proof {
        lemma_moved_zero(*rd);
    }
    let _depth = match decrement_depth(depth) {
        Ok(d) => d,
        Err(e) => return Err(e),
    };
    let buf = rd.fill_buf();
    if len > buf.len() {
        return Err(Error::InvalidDataRead(unexpected_eof()));
    }
    let buf = slice_subrange(buf, 0, len);
    proof {
        rd.lemma_can_consume(len);
    }
    rd.consume(len);
    Ok(buf)
}

/// Reads a string of `len` bytes, borrowed from the buffer.
fn read_str_data<'a, R: BorrowRead<'a>>(rd: &mut R, len: usize, depth: u16) -> (res: Result<
    Utf8StringRef<'a>,
    Error,
>)
    ensures
        ({
            let p = parse_str(old(rd).unread(), len as nat, depth as nat);
            &&& moved(*old(rd), *final(rd), p.1)
            &&& match res {
                Ok(s) => p.0 == Ok::<_, Failure>(ValueModel::String(s.bytes())) && s.wf(),
                Err(e) => p.0 matches Err(f) && reports(e, f),
            }
        }),
{
    proof {
        lemma_moved_zero(*rd);
    }
    let depth = match decrement_depth(depth) {
        Ok(d) => d,
        Err(e) => return Err(e),
    };
    let buf = match read_bin_data(rd, len, depth) {
        Ok(b) => b,
        Err(e) => return Err(e),
    };
    match str_from_utf8(buf) {
        Ok(s) => {
            proof {
                decode_utf8_encode_utf8(buf@);
            }
            Ok(Utf8StringRef::from_str(s))
        },
        Err(err) => Ok(Utf8StringRef::from_invalid(buf, err)),
    }
}

/// Reads the type byte and `len` data bytes of an extension value.
fn read_ext_data<'a, R: BorrowRead<'a>>(rd: &mut R, len: usize, depth: u16) -> (res: Result<
    (i8, &'a [u8]),
    Error,
>)
    ensures
        ({
            let p = parse_ext(old(rd).unread(), len as nat, depth as nat);
            &&& moved(*old(rd), *final(rd), p.1)
            &&& match res {
                Ok((ty, data)) => p.0 == Ok::<_, Failure>(ValueModel::Ext(ty, data@)),
                Err(e) => p.0 matches Err(f) && reports(e, f),
            }
        }),
{
    proof {
        lemma_moved_zero(*rd);
    }
    let depth = match decrement_depth(depth) {
        Ok(d) => d,
        Err(e) => return Err(e),
    };
    let buf = rd.fill_buf();
    if buf.len() == 0 {
        return Err(Error::InvalidDataRead(unexpected_eof()));
    }
    let ty = byte_to_i8(buf[0]);
    proof {
        rd.lemma_can_consume(1);
    }
    rd.consume(1);
    let ghost mid = *rd;
    let data = match read_bin_data(rd, len, depth) {
        Ok(b) => b,
        Err(e) => {
            proof {
                lemma_moved_after(*old(rd), mid, *rd, 1, parse_bin(mid.unread(), len as nat, depth as nat).1);
            }
            return Err(e);
        },
    };
    proof {
        lemma_moved_after(*old(rd), mid, *rd, 1, parse_bin(mid.unread(), len as nat, depth as nat).1);
    }
    Ok((ty, data))
}

/// `p`, read after `c` bytes that gave the items `prefix`.
pub open spec fn prepend<T>(prefix: Seq<T>, c: nat, p: Parsed<Seq<T>>) -> Parsed<Seq<T>> {
    match p.0 {
        Ok(rest) => (Ok(prefix + rest), c + p.1),
        Err(f) => (Err(f), c + p.1),
    }
}

/// Reads a length of `k` bytes.
fn read_len<'a, R: BorrowRead<'a>>(rd: &mut R, k: usize) -> (res: Result<usize, Error>)
    requires
        k == 1 || k == 2 || k == 4,
    ensures
        moved(*old(rd), *final(rd), parse_number(old(rd).unread(), k as nat).1),
        match res {
            Ok(x) => parse_number(old(rd).unread(), k as nat).0 == Ok::<_, Failure>(x as nat),
            Err(e) => parse_number(old(rd).unread(), k as nat).0 matches Err(f) && reports(e, f),
        },
{
    let x = match read_number(rd, k) {
        Ok(x) => x,
        Err(e) => return Err(e),
    };
    proof {
        lemma_be_value_bound(old(rd).unread().take(k as int));
        lemma_pow256_values();
    }
    Ok(x as usize)
}

/// A string whose length takes `k` bytes.
fn read_str_sized<'a, R: BorrowRead<'a>>(rd: &mut R, k: usize, depth: u16) -> (res: Result<
    ValueRef<'a>,
    Error,
>)
    requires
        k == 1 || k == 2 || k == 4,
    ensures
        ({
            let p = parse_str_sized(old(rd).unread(), k as nat, depth as nat);
            &&& moved(*old(rd), *final(rd), p.1)
            &&& match res {
                Ok(v) => p.0 == Ok::<_, Failure>(v.model()) && v.wf(),
                Err(e) => p.0 matches Err(f) && reports(e, f),
            }
        }),
{
    let len = match read_len(rd, k) {
        Ok(x) => x,
        Err(e) => return Err(e),
    };
    let ghost mid = *rd;
    let r = read_str_data(rd, len, depth);
    proof {
        lemma_moved_after(*old(rd), mid, *rd, k as nat, parse_str(mid.unread(), len as nat, depth as nat).1);
    }
    match r {
        Ok(st) => Ok(ValueRef::String(st)),
        Err(e) => Err(e),
    }
}

/// Binary data whose length takes `k` bytes.
fn read_bin_sized<'a, R: BorrowRead<'a>>(rd: &mut R, k: usize, depth: u16) -> (res: Result<
    ValueRef<'a>,
    Error,
>)
    requires
        k == 1 || k == 2 || k == 4,
    ensures
        ({
            let p = parse_bin_sized(old(rd).unread(), k as nat, depth as nat);
            &&& moved(*old(rd), *final(rd), p.1)
            &&& match res {
                Ok(v) => p.0 == Ok::<_, Failure>(v.model()) && v.wf(),
                Err(e) => p.0 matches Err(f) && reports(e, f),
            }
        }),
{
    let len = match read_len(rd, k) {
        Ok(x) => x,
        Err(e) => return Err(e),
    };
    let ghost mid = *rd;
    let r = read_bin_data(rd, len, depth);
    proof {
        lemma_moved_after(*old(rd), mid, *rd, k as nat, parse_bin(mid.unread(), len as nat, depth as nat).1);
    }
    match r {
        Ok(b) => Ok(ValueRef::Binary(b)),
        Err(e) => Err(e),
    }
}

/// Extension data whose length takes `k` bytes.
fn read_ext_sized<'a, R: BorrowRead<'a>>(rd: &mut R, k: usize, depth: u16) -> (res: Result<
    ValueRef<'a>,
    Error,
>)
    requires
        k == 1 || k == 2 || k == 4,
    ensures
        ({
            let p = parse_ext_sized(old(rd).unread(), k as nat, depth as nat);
            &&& moved(*old(rd), *final(rd), p.1)
            &&& match res {
                Ok(v) => p.0 == Ok::<_, Failure>(v.model()) && v.wf(),
                Err(e) => p.0 matches Err(f) && reports(e, f),
            }
        }),
{
    let len = match read_len(rd, k) {
        Ok(x) => x,
        Err(e) => return Err(e),
    };
    let ghost mid = *rd;
    let r = read_ext_data(rd, len, depth);
    proof {
        lemma_moved_after(*old(rd), mid, *rd, k as nat, parse_ext(mid.unread(), len as nat, depth as nat).1);
    }
    match r {
        Ok((ty, data)) => Ok(ValueRef::Ext(ty, data)),
        Err(e) => Err(e),
    }
}

/// Reads the `len` elements of an array.
#[verifier::rlimit(40)]
fn read_array_data<'a, R: BorrowRead<'a>>(rd: &mut R, len: usize, depth: u16) -> (res: Result<
    Vec<ValueRef<'a>>,
    Error,
>)
    ensures
        ({
            let p = parse_array(old(rd).unread(), len as nat, depth as nat);
            &&& moved(*old(rd), *final(rd), p.1)
            &&& match res {
                Ok(items) => p.0 == Ok::<_, Failure>(ValueModel::Array(ref_models(items@))) && all_wf(items@),
                Err(e) => p.0 matches Err(f) && reports(e, f),
            }
        }),
    decreases depth, 0nat,
{
    proof {
        lemma_moved_zero(*rd);
    }
    let d = match decrement_depth(depth) {
        Ok(d) => d,
        Err(e) => return Err(e),
    };
    let ghost r0 = *rd;
    let ghost s0 = rd.unread();
    let ghost n0 = len as nat;
    let mut remaining = len;
    // The vector is not preallocated: the length comes from the input.
    let mut vec: Vec<ValueRef<'a>> = Vec::new();
    while remaining > 0
        invariant
            r0 == *old(rd),
            s0 == r0.unread(),
            d + 1 == depth,
            n0 == len as nat,
            rd.unread().len() <= s0.len(),
            moved(r0, *rd, (s0.len() - rd.unread().len()) as nat),
            parse_items(s0, n0, d as nat) == prepend(
                ref_models(vec@),
                (s0.len() - rd.unread().len()) as nat,
                parse_items(rd.unread(), remaining as nat, d as nat),
            ),
            all_wf(vec@),
        decreases remaining,
    {
        let ghost before = *rd;
        let ghost c = (s0.len() - before.unread().len()) as nat;
        let v = match read_value_ref_inner(rd, d) {
            Ok(v) => v,
            Err(e) => {
                proof {
                    let c1 = parse_value(before.unread(), d as nat).1;
                    lemma_moved_after(r0, before, *rd, c, c1);
                }
                return Err(e);
            },
        };
        proof {
            let c1 = parse_value(before.unread(), d as nat).1;
            lemma_moved_after(r0, before, *rd, c, c1);
            let rest = parse_items(rd.unread(), (remaining - 1) as nat, d as nat);
            assert(ref_models(vec@.push(v)) =~= ref_models(vec@).push(v.model()));
            if let Ok(vs) = rest.0 {
                assert(ref_models(vec@) + (seq![v.model()] + vs) =~= ref_models(vec@).push(v.model()) + vs);
            }
        }
        vec.push(v);
        remaining = remaining - 1;
    }
    proof {
        assert(ref_models(vec@) + Seq::<ValueModel>::empty() =~= ref_models(vec@));
    }
    Ok(vec)
}

/// Reads the `len` entries of a map.
#[verifier::rlimit(40)]
fn read_map_data<'a, R: BorrowRead<'a>>(rd: &mut R, len: usize, depth: u16) -> (res: Result<
    Vec<(ValueRef<'a>, ValueRef<'a>)>,
    Error,
>)
    ensures
        ({
            let p = parse_map(old(rd).unread(), len as nat, depth as nat);
            &&& moved(*old(rd), *final(rd), p.1)
            &&& match res {
                Ok(entries) => p.0 == Ok::<_, Failure>(ValueModel::Mapping(ref_entry_models(entries@)))
                    && all_entries_wf(entries@),
                Err(e) => p.0 matches Err(f) && reports(e, f),
            }
        }),
    decreases depth, 0nat,
{
    proof {
        lemma_moved_zero(*rd);
    }
    let d = match decrement_depth(depth) {
        Ok(d) => d,
        Err(e) => return Err(e),
    };
    let ghost r0 = *rd;
    let ghost s0 = rd.unread();
    let ghost n0 = len as nat;
    let mut remaining = len;
    // The vector is not preallocated: the length comes from the input.
    let mut vec: Vec<(ValueRef<'a>, ValueRef<'a>)> = Vec::new();
    while remaining > 0
        invariant
            r0 == *old(rd),
            s0 == r0.unread(),
            d + 1 == depth,
            n0 == len as nat,
            rd.unread().len() <= s0.len(),
            moved(r0, *rd, (s0.len() - rd.unread().len()) as nat),
            parse_entries(s0, n0, d as nat) == prepend(
                ref_entry_models(vec@),
                (s0.len() - rd.unread().len()) as nat,
                parse_entries(rd.unread(), remaining as nat, d as nat),
            ),
            all_entries_wf(vec@),
        decreases remaining,
    {
        let ghost before = *rd;
        let ghost c = (s0.len() - before.unread().len()) as nat;
        let key = match read_value_ref_inner(rd, d) {
            Ok(v) => v,
            Err(e) => {
                proof {
                    lemma_moved_after(r0, before, *rd, c, parse_value(before.unread(), d as nat).1);
                }
                return Err(e);
            },
        };
        let ghost c1 = parse_value(before.unread(), d as nat).1;
        let ghost mid = *rd;
        proof {
            lemma_moved_after(r0, before, mid, c, c1);
        }
        let val = match read_value_ref_inner(rd, d) {
            Ok(v) => v,
            Err(e) => {
                proof {
                    let c2 = parse_value(mid.unread(), d as nat).1;
                    lemma_moved_after(r0, mid, *rd, c + c1, c2);
                    lemma_skip_skip(before.unread(), c1 as int, c2 as int);
                }
                return Err(e);
            },
        };
        proof {
            let c2 = parse_value(mid.unread(), d as nat).1;
            lemma_moved_after(r0, mid, *rd, c + c1, c2);
            lemma_skip_skip(before.unread(), c1 as int, c2 as int);
            let e = (key.model(), val.model());
            let rest = parse_entries(rd.unread(), (remaining - 1) as nat, d as nat);
            assert(ref_entry_models(vec@.push((key, val))) =~= ref_entry_models(vec@).push(e));
            if let Ok(es) = rest.0 {
                assert(ref_entry_models(vec@) + (seq![e] + es) =~= ref_entry_models(vec@).push(e) + es);
            }
        }
        vec.push((key, val));
        remaining = remaining - 1;
    }
    proof {
        assert(ref_entry_models(vec@) + Seq::<(ValueModel, ValueModel)>::empty() =~= ref_entry_models(vec@));
    }
    Ok(vec)
}

/// An array whose length takes `k` bytes.
fn read_array_sized<'a, R: BorrowRead<'a>>(rd: &mut R, k: usize, depth: u16) -> (res: Result<
    ValueRef<'a>,
    Error,
>)
    requires
        k == 2 || k == 4,
    ensures
        ({
            let p = parse_array_sized(old(rd).unread(), k as nat, depth as nat);
            &&& moved(*old(rd), *final(rd), p.1)
            &&& match res {
                Ok(v) => p.0 == Ok::<_, Failure>(v.model()) && v.wf(),
                Err(e) => p.0 matches Err(f) && reports(e, f),
            }
        }),
    decreases depth, 1nat,
{
    let len = match read_len(rd, k) {
        Ok(x) => x,
        Err(e) => return Err(e),
    };
    let ghost mid = *rd;
    let r = read_array_data(rd, len, depth);
    proof {
        lemma_moved_after(*old(rd), mid, *rd, k as nat, parse_array(mid.unread(), len as nat, depth as nat).1);
    }
    match r {
        Ok(items) => {
            proof {
                lemma_ref_array_model(items);
            }
            Ok(ValueRef::Array(items))
        },
        Err(e) => Err(e),
    }
}

/// A map whose length takes `k` bytes.
fn read_map_sized<'a, R: BorrowRead<'a>>(rd: &mut R, k: usize, depth: u16) -> (res: Result<
    ValueRef<'a>,
    Error,
>)
    requires
        k == 2 || k == 4,
    ensures
        ({
            let p = parse_map_sized(old(rd).unread(), k as nat, depth as nat);
            &&& moved(*old(rd), *final(rd), p.1)
            &&& match res {
                Ok(v) => p.0 == Ok::<_, Failure>(v.model()) && v.wf(),
                Err(e) => p.0 matches Err(f) && reports(e, f),
            }
        }),
    decreases depth, 1nat,
{
    let len = match read_len(rd, k) {
        Ok(x) => x,
        Err(e) => return Err(e),
    };
    let ghost mid = *rd;
    let r = read_map_data(rd, len, depth);
    proof {
        lemma_moved_after(*old(rd), mid, *rd, k as nat, parse_map(mid.unread(), len as nat, depth as nat).1);
    }
    match r {
        Ok(entries) => {
            proof {
                lemma_ref_map_model(entries);
            }
            Ok(ValueRef::Mapping(entries))
        },
        Err(e) => Err(e),
    }
}

/// Reads what follows a marker.
fn read_body<'a, R: BorrowRead<'a>>(rd: &mut R, marker: Marker, depth: u16) -> (res: Result<
    ValueRef<'a>,
    Error,
>)
    ensures
        ({
            let p = parse_body(marker, old(rd).unread(), depth as nat);
            &&& moved(*old(rd), *final(rd), p.1)
            &&& match res {
                Ok(v) => p.0 == Ok::<_, Failure>(v.model()) && v.wf(),
                Err(e) => p.0 matches Err(f) && reports(e, f),
            }
        }),
    decreases depth, 2nat,
{
    proof {
        lemma_moved_zero(*rd);
    }
    match marker {
        Marker::Null => Ok(ValueRef::Nil),
        Marker::True => Ok(ValueRef::Boolean(true)),
        Marker::False => Ok(ValueRef::Boolean(false)),
        Marker::FixPos(val) => Ok(ValueRef::Integer(Integer::from_u64(val as u64))),
        Marker::FixNeg(val) => Ok(ValueRef::Integer(Integer::from_i64(val as i64))),
        Marker::U8 => read_int(rd, 1, false),
        Marker::U16 => read_int(rd, 2, false),
        Marker::U32 => read_int(rd, 4, false),
        Marker::U64 => read_int(rd, 8, false),
        Marker::I8 => read_int(rd, 1, true),
        Marker::I16 => read_int(rd, 2, true),
        Marker::I32 => read_int(rd, 4, true),
        Marker::I64 => read_int(rd, 8, true),
        Marker::F32 => read_float(rd, false),
        Marker::F64 => read_float(rd, true),
        Marker::FixStr(len) => match read_str_data(rd, len as usize, depth) {
            Ok(s) => Ok(ValueRef::String(s)),
            Err(e) => Err(e),
        },
        Marker::Str8 => read_str_sized(rd, 1, depth),
        Marker::Str16 => read_str_sized(rd, 2, depth),
        Marker::Str32 => read_str_sized(rd, 4, depth),
        Marker::Bin8 => read_bin_sized(rd, 1, depth),
        Marker::Bin16 => read_bin_sized(rd, 2, depth),
        Marker::Bin32 => read_bin_sized(rd, 4, depth),
        Marker::FixArray(len) => match read_array_data(rd, len as usize, depth) {
            Ok(items) => {
                proof {
                    lemma_ref_array_model(items);
                }
                Ok(ValueRef::Array(items))
            },
            Err(e) => Err(e),
        },
        Marker::Array16 => read_array_sized(rd, 2, depth),
        Marker::Array32 => read_array_sized(rd, 4, depth),
        Marker::FixMap(len) => match read_map_data(rd, len as usize, depth) {
            Ok(entries) => {
                proof {
                    lemma_ref_map_model(entries);
                }
                Ok(ValueRef::Mapping(entries))
            },
            Err(e) => Err(e),
        },
        Marker::Map16 => read_map_sized(rd, 2, depth),
        Marker::Map32 => read_map_sized(rd, 4, depth),
        Marker::FixExt1 => read_fix_ext(rd, 1, depth),
        Marker::FixExt2 => read_fix_ext(rd, 2, depth),
        Marker::FixExt4 => read_fix_ext(rd, 4, depth),
        Marker::FixExt8 => read_fix_ext(rd, 8, depth),
        Marker::FixExt16 => read_fix_ext(rd, 16, depth),
        Marker::Ext8 => read_ext_sized(rd, 1, depth),
        Marker::Ext16 => read_ext_sized(rd, 2, depth),
        Marker::Ext32 => read_ext_sized(rd, 4, depth),
        Marker::Reserved => Ok(ValueRef::Nil),
    }
}

/// Extension data of a fixed length.
fn read_fix_ext<'a, R: BorrowRead<'a>>(rd: &mut R, len: usize, depth: u16) -> (res: Result<
    ValueRef<'a>,
    Error,
>)
    ensures
        ({
            let p = parse_ext(old(rd).unread(), len as nat, depth as nat);
            &&& moved(*old(rd), *final(rd), p.1)
            &&& match res {
                Ok(v) => p.0 == Ok::<_, Failure>(v.model()) && v.wf(),
                Err(e) => p.0 matches Err(f) && reports(e, f),
            }
        }),
{
    match read_ext_data(rd, len, depth) {
        Ok((ty, data)) => Ok(ValueRef::Ext(ty, data)),
        Err(e) => Err(e),
    }
}

/// Reads one value: its marker, then what the marker announces.
fn read_value_ref_inner<'a, R: BorrowRead<'a>>(rd: &mut R, depth: u16) -> (res: Result<
    ValueRef<'a>,
    Error,
>)
    ensures
        ({
            let p = parse_value(old(rd).unread(), depth as nat);
            &&& moved(*old(rd), *final(rd), p.1)
            &&& match res {
                Ok(v) => p.0 == Ok::<_, Failure>(v.model()) && v.wf(),
                Err(e) => p.0 matches Err(f) && reports(e, f),
            }
        }),
    decreases depth, 3nat,
{
    proof {
        lemma_moved_zero(*rd);
    }
    let depth = match decrement_depth(depth) {
        Ok(d) => d,
        Err(e) => return Err(e),
    };
    let buf = rd.fill_buf();
    if buf.len() == 0 {
        return Err(Error::InvalidMarkerRead(unexpected_eof()));
    }
    let marker = Marker::from_u8(buf[0]);
    proof {
        rd.lemma_can_consume(1);
    }
    rd.consume(1);
    let ghost mid = *rd;
    let r = read_body(rd, marker, depth);
    proof {
        lemma_moved_after(*old(rd), mid, *rd, 1, parse_body(marker, mid.unread(), depth as nat).1);
    }
    r
}

/// Whether `res` is what decoding the unread bytes of `before` with at most `depth` levels
/// of depth gives, and `after` is the reader `before` once the decoding consumed what it
/// read: on success, the encoding of the value; on failure, the bytes up to the point where
/// it failed. For a `Cursor`, the slice stays the same and the position moves on by exactly
/// that count.
pub open spec fn decoded<'a, R: BorrowRead<'a>>(
    before: R,
    depth: nat,
    after: R,
    res: Result<ValueRef<'a>, Error>,
) -> bool {
    let p = parse_value(before.unread(), depth);
    &&& moved(before, after, p.1)
    &&& match res {
        Ok(v) => p.0 == Ok::<_, Failure>(v.model()) && v.wf(),
        Err(e) => p.0 matches Err(f) && reports(e, f),
    }
}

/// Reads one complete MessagePack value from the reader, or detects an error.
///
/// The value borrows its strings and byte strings from the reader's buffer: no byte is
/// copied. An input that ends where a marker should come gives
/// [`Error::InvalidMarkerRead`]; one that ends inside the data that a marker announces gives
/// [`Error::InvalidDataRead`]; values nested deeper than [`MAX_DEPTH`] levels (strings, byte
/// strings and extension data count as further levels) give [`Error::DepthLimitExceeded`].
pub fn read_value_ref<'a, R: BorrowRead<'a>>(rd: &mut R) -> (res: Result<ValueRef<'a>, Error>)
    ensures
        decoded(*old(rd), MAX_DEPTH as nat, *final(rd), res),
{
    read_value_ref_inner(rd, MAX_DEPTH as u16)
}

/// Like [`read_value_ref`], with `max_depth` (at most `u16::MAX`) in place of [`MAX_DEPTH`].
pub fn read_value_ref_with_max_depth<'a, R: BorrowRead<'a>>(rd: &mut R, max_depth: usize) -> (res:
    Result<ValueRef<'a>, Error>)
    ensures
        decoded(
            *old(rd),
            if max_depth < u16::MAX {
                max_depth as nat
            } else {
                u16::MAX as nat
            },
            *final(rd),
            res,
        ),
{
    let depth: u16 = if max_depth < u16::MAX as usize {
        max_depth as u16
    } else {
        u16::MAX
    };
    read_value_ref_inner(rd, depth)
}

} // verus!
