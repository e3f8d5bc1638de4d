//! The two byte orders and the conversions they provide.

use vstd::prelude::*;
use crate::model::{
    be_bytes, be_value, le_bytes, le_value, lemma_be_bytes_of_value, lemma_be_bytes_truncate,
    lemma_be_round_trip, lemma_bytes_len, lemma_le_bytes_of_value, lemma_le_bytes_truncate,
    lemma_le_round_trip, lemma_pow256_values, pow256, signed, unsigned,
};

verus! {

/// A byte order: the rule by which a run of bytes denotes a number.
///
/// The two required operations convert integers of one to eight bytes; the
/// fixed-width operations are derived from them.
pub trait ByteOrder {
    /// The number that `bytes` denotes in this byte order.
    spec fn value(bytes: Seq<u8>) -> nat;

    /// The `len` low-order bytes of `v` in this byte order.
    spec fn bytes(v: nat, len: nat) -> Seq<u8>;

    /// Reads the first `nbytes` bytes of `buf` as an unsigned integer.
    fn read_uint(buf: &[u8], nbytes: usize) -> (r: u64)
        requires
            1 <= nbytes <= 8,
            nbytes <= buf@.len(),
        ensures
            r as nat == Self::value(buf@.take(nbytes as int)),
            (r as nat) < pow256(nbytes as nat),
    ;

    /// Overwrites the first `nbytes` bytes of `buf` with the `nbytes`
    /// low-order bytes of `n`, and leaves the rest of `buf` as it was.
    fn write_uint(buf: &mut [u8], n: u64, nbytes: usize)
        requires
            1 <= nbytes <= 8,
            nbytes <= old(buf)@.len(),
        ensures
            final(buf)@ == Self::bytes(n as nat, nbytes as nat) + old(buf)@.skip(nbytes as int),
    ;

    /// Encoding a number that fits in `len` bytes and decoding the result
    /// gives the number back.
    proof fn lemma_value_of_bytes(v: nat, len: nat)
        requires
            v < pow256(len),
        ensures
            Self::bytes(v, len).len() == len,
            Self::value(Self::bytes(v, len)) == v,
    ;

    /// Decoding a run of bytes and encoding the result at the same length
    /// gives the bytes back.
    proof fn lemma_bytes_of_value(s: Seq<u8>)
        ensures
            Self::value(s) < pow256(s.len()),
            Self::bytes(Self::value(s), s.len()) == s,
    ;

    /// Only `v mod 256^len` matters to the `len` bytes of `v`.
    proof fn lemma_bytes_truncate(v: nat, len: nat)
        ensures
            pow256(len) > 0,
            Self::bytes(v, len) == Self::bytes(v % pow256(len), len),
    ;

    /// Reads the first `nbytes` bytes of `buf` as a two's complement integer
    /// of that width, sign-extended to 64 bits.
    fn read_int(buf: &[u8], nbytes: usize) -> (r: i64)
        requires
            1 <= nbytes <= 8,
            nbytes <= buf@.len(),
        ensures
            r as int == signed(Self::value(buf@.take(nbytes as int)), nbytes as nat),
    {
        let v = Self::read_uint(buf, nbytes);
        let half = half_range(nbytes);
        proof {
            lemma_pow256_values();
        }
        if v >= half {
            ((v - half) as i64 - (half - 1) as i64) - 1
        } else {
            v as i64
        }
    }

    /// Overwrites the first `nbytes` bytes of `buf` with the `nbytes`
    /// low-order bytes of the two's complement pattern of `n`, and leaves
    /// the rest of `buf` as it was.
    fn write_int(buf: &mut [u8], n: i64, nbytes: usize)
        requires
            1 <= nbytes <= 8,
            nbytes <= old(buf)@.len(),
        ensures
            final(buf)@ == Self::bytes(unsigned(n as int, 8), nbytes as nat) + old(buf)@.skip(
                nbytes as int,
            ),
    {
        proof {
            lemma_pow256_values();
            lemma_i64_pattern(n);
        }
        Self::write_uint(buf, n as u64, nbytes)
    }

    /// Reads the first 2 bytes of `buf` as an unsigned 16-bit integer.
    fn read_u16(buf: &[u8]) -> (r: u16)
        requires
            buf@.len() >= 2,
        ensures
            r as nat == Self::value(buf@.take(2)),
    {
        proof {
            lemma_pow256_values();
        }
        Self::read_uint(buf, 2) as u16
    }

    /// Reads the first 2 bytes of `buf` as a two's complement 16-bit
    /// integer.
    fn read_i16(buf: &[u8]) -> (r: i16)
        requires
            buf@.len() >= 2,
        ensures
            r as int == signed(Self::value(buf@.take(2)), 2),
    {
        let v = Self::read_u16(buf);
        proof {
            lemma_pow256_values();
            lemma_u16_reading(v);
        }
        v as i16
    }

    /// Overwrites the first 2 bytes of `buf` with the bytes of `n`, and
    /// leaves the rest of `buf` as it was.
    fn write_u16(buf: &mut [u8], n: u16)
        requires
            old(buf)@.len() >= 2,
        ensures
            final(buf)@ == Self::bytes(n as nat, 2) + old(buf)@.skip(2),
    {
        Self::write_uint(buf, n as u64, 2)
    }

    /// Overwrites the first 2 bytes of `buf` with the two's complement
    /// pattern of `n`, and leaves the rest of `buf` as it was.
    fn write_i16(buf: &mut [u8], n: i16)
        requires
            old(buf)@.len() >= 2,
        ensures
            final(buf)@ == Self::bytes(unsigned(n as int, 2), 2) + old(buf)@.skip(2),
    {
        proof {
            lemma_pow256_values();
            lemma_i16_pattern(n);
        }
        Self::write_u16(buf, n as u16)
    }

    /// Reads the first 4 bytes of `buf` as an unsigned 32-bit integer.
    fn read_u32(buf: &[u8]) -> (r: u32)
        requires
            buf@.len() >= 4,
        ensures
            r as nat == Self::value(buf@.take(4)),
    {
        proof {
            lemma_pow256_values();
        }
        Self::read_uint(buf, 4) as u32
    }

    /// Reads the first 4 bytes of `buf` as a two's complement 32-bit
    /// integer.
    fn read_i32(buf: &[u8]) -> (r: i32)
        requires
            buf@.len() >= 4,
        ensures
            r as int == signed(Self::value(buf@.take(4)), 4),
    {
        let v = Self::read_u32(buf);
        proof {
            lemma_pow256_values();
            lemma_u32_reading(v);
        }
        v as i32
    }

    /// Overwrites the first 4 bytes of `buf` with the bytes of `n`, and
    /// leaves the rest of `buf` as it was.
    fn write_u32(buf: &mut [u8], n: u32)
        requires
            old(buf)@.len() >= 4,
        ensures
            final(buf)@ == Self::bytes(n as nat, 4) + old(buf)@.skip(4),
    {
        Self::write_uint(buf, n as u64, 4)
    }

    /// Overwrites the first 4 bytes of `buf` with the two's complement
    /// pattern of `n`, and leaves the rest of `buf` as it was.
    fn write_i32(buf: &mut [u8], n: i32)
        requires
            old(buf)@.len() >= 4,
        ensures
            final(buf)@ == Self::bytes(unsigned(n as int, 4), 4) + old(buf)@.skip(4),
    {
        proof {
            lemma_pow256_values();
            lemma_i32_pattern(n);
        }
        Self::write_u32(buf, n as u32)
    }

    /// Reads the first 8 bytes of `buf` as an unsigned 64-bit integer.
    fn read_u64(buf: &[u8]) -> (r: u64)
        requires
            buf@.len() >= 8,
        ensures
            r as nat == Self::value(buf@.take(8)),
    {
        proof {
            lemma_pow256_values();
        }
        Self::read_uint(buf, 8)
    }

    /// Reads the first 8 bytes of `buf` as a two's complement 64-bit
    /// integer.
    fn read_i64(buf: &[u8]) -> (r: i64)
        requires
            buf@.len() >= 8,
        ensures
            r as int == signed(Self::value(buf@.take(8)), 8),
    {
        let v = Self::read_u64(buf);
        proof {
            lemma_pow256_values();
            lemma_u64_reading(v);
        }
        v as i64
    }

    /// Overwrites the first 8 bytes of `buf` with the bytes of `n`, and
    /// leaves the rest of `buf` as it was.
    fn write_u64(buf: &mut [u8], n: u64)
        requires
            old(buf)@.len() >= 8,
        ensures
            final(buf)@ == Self::bytes(n as nat, 8) + old(buf)@.skip(8),
    {
        Self::write_uint(buf, n, 8)
    }

    /// Overwrites the first 8 bytes of `buf` with the two's complement
    /// pattern of `n`, and leaves the rest of `buf` as it was.
    fn write_i64(buf: &mut [u8], n: i64)
        requires
            old(buf)@.len() >= 8,
        ensures
            final(buf)@ == Self::bytes(unsigned(n as int, 8), 8) + old(buf)@.skip(8),
    {
        proof {
            lemma_pow256_values();
            lemma_i64_pattern(n);
        }
        Self::write_u64(buf, n as u64)
    }
}

/// Half of `256^nbytes`: the least `nbytes`-byte pattern with the top bit set.
fn half_range(nbytes: usize) -> (h: u64)
    requires
        1 <= nbytes <= 8,
    ensures
        2 * (h as nat) == pow256(nbytes as nat),
{
    proof {
        lemma_pow256_values();
    }
    if nbytes == 1 {
        0x80
    } else if nbytes == 2 {
        0x8000
    } else if nbytes == 3 {
        0x80_0000
    } else if nbytes == 4 {
        0x8000_0000
    } else if nbytes == 5 {
        0x80_0000_0000
    } else if nbytes == 6 {
        0x8000_0000_0000
    } else if nbytes == 7 {
        0x80_0000_0000_0000
    } else {
        0x8000_0000_0000_0000
    }
}

/// Reinterpreting an unsigned 8-bit pattern as signed subtracts `2^8` exactly
/// when the top bit is set.
pub proof fn lemma_u8_reading(v: u8)
    ensures
        (v as i8) as int == if v >= 0x80 {
            v as int - 0x100
        } else {
            v as int
        },
{
    assert(v < 0x80u8 ==> (v as i8) as i16 == v as i16) by (bit_vector);
    assert(v >= 0x80u8 ==> (v as i8) as i16 == (v as i16) - 0x100i16) by (bit_vector);
}

/// Reinterpreting a signed 8-bit integer as unsigned adds `2^8` exactly when
/// it is negative.
pub proof fn lemma_i8_pattern(n: i8)
    ensures
        (n as u8) as int == if n < 0 {
            n as int + 0x100
        } else {
            n as int
        },
{
    assert(n >= 0i8 ==> (n as u8) as i16 == n as i16) by (bit_vector);
    assert(n < 0i8 ==> (n as u8) as i16 == (n as i16) + 0x100i16) by (bit_vector);
}

/// Reinterpreting an unsigned 16-bit pattern as signed subtracts `2^16`
/// exactly when the top bit is set.
pub proof fn lemma_u16_reading(v: u16)
    ensures
        (v as i16) as int == if v >= 0x8000 {
            v as int - 0x1_0000
        } else {
            v as int
        },
{
    assert(v < 0x8000u16 ==> (v as i16) as i32 == v as i32) by (bit_vector);
    assert(v >= 0x8000u16 ==> (v as i16) as i32 == (v as i32) - 0x1_0000i32) by (bit_vector);
}

/// Reinterpreting a signed 16-bit integer as unsigned adds `2^16` exactly
/// when it is negative.
pub proof fn lemma_i16_pattern(n: i16)
    ensures
        (n as u16) as int == if n < 0 {
            n as int + 0x1_0000
        } else {
            n as int
        },
{
    assert(n >= 0i16 ==> (n as u16) as i32 == n as i32) by (bit_vector);
    assert(n < 0i16 ==> (n as u16) as i32 == (n as i32) + 0x1_0000i32) by (bit_vector);
}

/// Reinterpreting an unsigned 32-bit pattern as signed subtracts `2^32`
/// exactly when the top bit is set.
pub proof fn lemma_u32_reading(v: u32)
    ensures
        (v as i32) as int == if v >= 0x8000_0000 {
            v as int - 0x1_0000_0000
        } else {
            v as int
        },
{
    assert(v < 0x8000_0000u32 ==> (v as i32) as i64 == v as i64) by (bit_vector);
    assert(v >= 0x8000_0000u32 ==> (v as i32) as i64 == (v as i64) - 0x1_0000_0000i64) by (bit_vector);
}

/// Reinterpreting a signed 32-bit integer as unsigned adds `2^32` exactly
/// when it is negative.
pub proof fn lemma_i32_pattern(n: i32)
    ensures
        (n as u32) as int == if n < 0 {
            n as int + 0x1_0000_0000
        } else {
            n as int
        },
{
    assert(n >= 0i32 ==> (n as u32) as i64 == n as i64) by (bit_vector);
    assert(n < 0i32 ==> (n as u32) as i64 == (n as i64) + 0x1_0000_0000i64) by (bit_vector);
}

/// Reinterpreting an unsigned 64-bit pattern as signed subtracts `2^64`
/// exactly when the top bit is set.
pub proof fn lemma_u64_reading(v: u64)
    ensures
        (v as i64) as int == if v >= 0x8000_0000_0000_0000 {
            v as int - 0x1_0000_0000_0000_0000
        } else {
            v as int
        },
{
    assert(v < 0x8000_0000_0000_0000u64 ==> (v as i64) as i128 == v as i128) by (bit_vector);
    assert(v >= 0x8000_0000_0000_0000u64 ==> (v as i64) as i128 == (v as i128) - 0x1_0000_0000_0000_0000i128) by (bit_vector);
}

/// Reinterpreting a signed 64-bit integer as unsigned adds `2^64` exactly
/// when it is negative.
pub proof fn lemma_i64_pattern(n: i64)
    ensures
        (n as u64) as int == if n < 0 {
            n as int + 0x1_0000_0000_0000_0000
        } else {
            n as int
        },
{
    assert(n >= 0i64 ==> (n as u64) as i128 == n as i128) by (bit_vector);
    assert(n < 0i64 ==> (n as u64) as i128 == (n as i128) + 0x1_0000_0000_0000_0000i128) by (bit_vector);
}

/// Most significant byte first.
#[derive(Debug, Clone, Copy, PartialEq, Eq)]
pub struct BigEndian;

/// Least significant byte first.
#[derive(Debug, Clone, Copy, PartialEq, Eq)]
pub struct LittleEndian;

impl ByteOrder for BigEndian {
    open spec fn value(bytes: Seq<u8>) -> nat {
        be_value(bytes)
    }

    open spec fn bytes(v: nat, len: nat) -> Seq<u8> {
        be_bytes(v, len)
    }

    proof fn lemma_value_of_bytes(v: nat, len: nat) {
        lemma_be_round_trip(v, len);
    }

    proof fn lemma_bytes_of_value(s: Seq<u8>) {
        lemma_be_bytes_of_value(s);
    }

    proof fn lemma_bytes_truncate(v: nat, len: nat) {
        lemma_be_bytes_truncate(v, len);
    }

    fn read_uint(buf: &[u8], nbytes: usize) -> (r: u64) {
        let mut acc: u64 = 0;
        let mut i: usize = 0;
        while i < nbytes
            invariant
                i <= nbytes <= 8,
                nbytes <= buf@.len(),
                acc as nat == be_value(buf@.take(i as int)),
                (acc as nat) < pow256(i as nat),
            decreases nbytes - i,
        {
            proof {
                lemma_pow256_values();
                assert(buf@.take(i + 1).drop_last() =~= buf@.take(i as int));
            }
            acc = acc * 256 + buf[i] as u64;
            i += 1;
        }
        acc
    }

    fn write_uint(buf: &mut [u8], n: u64, nbytes: usize) {
        let mut rest: u64 = n;
        let mut i: usize = nbytes;
        while i > 0
            invariant
                i <= nbytes <= 8,
                nbytes <= buf@.len(),
                buf@.len() == old(buf)@.len(),
                buf@.skip(nbytes as int) == old(buf)@.skip(nbytes as int),
                be_bytes(n as nat, nbytes as nat) == be_bytes(rest as nat, i as nat) + buf@.subrange(
                    i as int,
                    nbytes as int,
                ),
            decreases i,
        {
            let ghost before = buf@;
            i -= 1;
            buf[i] = (rest % 256) as u8;
            proof {
                assert(buf@.skip(nbytes as int) =~= before.skip(nbytes as int));
                assert(buf@.subrange(i as int, nbytes as int) =~= seq![(rest % 256) as u8]
                    + before.subrange(i + 1, nbytes as int));
                assert(be_bytes(rest as nat, (i + 1) as nat) + before.subrange(i + 1, nbytes as int)
                    =~= be_bytes(rest as nat / 256, i as nat) + buf@.subrange(
                    i as int,
                    nbytes as int,
                ));
            }
            rest = rest / 256;
        }
        proof {
            assert(buf@ =~= be_bytes(n as nat, nbytes as nat) + old(buf)@.skip(nbytes as int)) by {
                lemma_bytes_len(n as nat, nbytes as nat);
                assert(buf@.subrange(0, nbytes as int) + buf@.skip(nbytes as int) =~= buf@);
            }
        }
    }
}

impl ByteOrder for LittleEndian {
    open spec fn value(bytes: Seq<u8>) -> nat {
        le_value(bytes)
    }

    open spec fn bytes(v: nat, len: nat) -> Seq<u8> {
        le_bytes(v, len)
    }

    proof fn lemma_value_of_bytes(v: nat, len: nat) {
        lemma_le_round_trip(v, len);
    }

    proof fn lemma_bytes_of_value(s: Seq<u8>) {
        lemma_le_bytes_of_value(s);
    }

    proof fn lemma_bytes_truncate(v: nat, len: nat) {
        lemma_le_bytes_truncate(v, len);
    }

    fn read_uint(buf: &[u8], nbytes: usize) -> (r: u64) {
        let mut acc: u64 = 0;
        let mut i: usize = nbytes;
        while i > 0
            invariant
                i <= nbytes <= 8,
                nbytes <= buf@.len(),
                acc as nat == le_value(buf@.subrange(i as int, nbytes as int)),
                (acc as nat) < pow256((nbytes - i) as nat),
            decreases i,
        {
            proof {
                lemma_pow256_values();
                assert(buf@.subrange(i - 1, nbytes as int).drop_first() =~= buf@.subrange(
                    i as int,
                    nbytes as int,
                ));
            }
            i -= 1;
            acc = acc * 256 + buf[i] as u64;
        }
        proof {
            assert(buf@.subrange(0, nbytes as int) =~= buf@.take(nbytes as int));
        }
        acc
    }

    fn write_uint(buf: &mut [u8], n: u64, nbytes: usize) {
        let mut rest: u64 = n;
        let mut i: usize = 0;
        while i < nbytes
            invariant
                i <= nbytes <= 8,
                nbytes <= buf@.len(),
                buf@.len() == old(buf)@.len(),
                buf@.skip(nbytes as int) == old(buf)@.skip(nbytes as int),
                le_bytes(n as nat, nbytes as nat) == buf@.take(i as int) + le_bytes(
                    rest as nat,
                    (nbytes - i) as nat,
                ),
            decreases nbytes - i,
        {
            let ghost before = buf@;
            buf[i] = (rest % 256) as u8;
            proof {
                assert(buf@.skip(nbytes as int) =~= before.skip(nbytes as int));
                assert(buf@.take(i + 1) =~= before.take(i as int).push((rest % 256) as u8));
                assert(before.take(i as int) + le_bytes(rest as nat, (nbytes - i) as nat)
                    =~= buf@.take(i + 1) + le_bytes(rest as nat / 256, (nbytes - i - 1) as nat));
            }
            rest = rest / 256;
            i += 1;
        }
        proof {
            assert(buf@ =~= le_bytes(n as nat, nbytes as nat) + old(buf)@.skip(nbytes as int)) by {
                lemma_bytes_len(n as nat, nbytes as nat);
                assert(buf@.take(nbytes as int) + buf@.skip(nbytes as int) =~= buf@);
            }
        }
    }
}

} // verus!
