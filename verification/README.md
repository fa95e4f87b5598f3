# rmpv

MessagePack values in Rust, verified with Verus: a zero-copy decoder of borrowed values
(`ValueRef`) and an encoder of owned values (`Value`) into an `rmp` byte buffer.

- `src/format.rs`: the wire format as spec functions — big-endian numbers, the marker
  table, the encoding of each value (`encode`) and the decoding of a byte string
  (`parse_value`, which also says how many bytes a read consumes, on failure too).
- `src/value.rs`: `Value`, `ValueRef`, `Integer`, `Utf8String`, `Utf8StringRef`, and the
  model `ValueModel` that both value types are read as.
- `src/decode/`: `read_value_ref`, `read_value_ref_with_max_depth` and the `BorrowRead`
  trait (for slices and `std::io::Cursor` over slices), each proved to follow
  `parse_value`: the error says whether the marker, the data or the depth limit failed,
  and the reader (a cursor's position too) moves on by exactly the bytes consumed.
- `src/encode/`: `write_value` and `write_value_to_vec`, proved to append (or give)
  `encode` of the value; the writing itself is done by `rmp::encode`.
- `src/laws.rs`: what holds of both together — written values are read back (and stop at
  the end of their encoding), bytes that were written are written back the same when
  read, the depth a read of any bytes needs is that of the value it gives, a higher limit
  keeps what a lower one read, and a read depends only on the bytes it consumes.
- `app/`: what stays in ordinary Rust: writing to an `std::io::Write`, the standard error
  traits of the decoding error, its conversions from `rmp`'s read errors, and floats.

Floats are held as their IEEE-754 bits. Strings whose bytes are not valid UTF-8 keep their
bytes and are written back as strings.
