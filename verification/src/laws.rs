//! What holds of the conversions taken together.

use vstd::arithmetic::div_mod::{lemma_mod_multiples_vanish, lemma_small_mod};
use vstd::prelude::*;
use crate::model::{
    be_bytes, le_bytes, lemma_bytes_len, lemma_bytes_mirror, lemma_pow256_add,
    lemma_pow256_positive, lemma_pow256_values, pow256, signed, unsigned,
};
use crate::order::{BigEndian, ByteOrder, LittleEndian};

verus! {

/// In every byte order, the `len` bytes written for `v` read back as
/// `v mod 256^len`: as `v` itself whenever `v` fits in `len` bytes.
pub proof fn law_unsigned_round_trip<T: ByteOrder>(v: nat, len: nat)
    ensures
        T::bytes(v, len).len() == len,
        pow256(len) > 0,
        T::value(T::bytes(v, len)) == v % pow256(len),
        v < pow256(len) ==> T::value(T::bytes(v, len)) == v,
{
    T::lemma_bytes_truncate(v, len);
    T::lemma_value_of_bytes(v % pow256(len), len);
    if v < pow256(len) {
        lemma_small_mod(v, pow256(len));
    }
}

/// In every byte order, the number read from a run of bytes is written
/// back as the same bytes.
pub proof fn law_bytes_round_trip<T: ByteOrder>(s: Seq<u8>)
    ensures
        T::bytes(T::value(s), s.len()) == s,
{
    T::lemma_bytes_of_value(s);
}

/// In every byte order, a signed integer that fits in `nbytes` bytes, held
/// as a two's complement pattern of `width >= nbytes` bytes and written as
/// its `nbytes` low-order bytes, reads back as itself after sign extension.
pub proof fn law_signed_round_trip<T: ByteOrder>(i: int, width: nat, nbytes: nat)
    requires
        1 <= nbytes <= width,
        -pow256(nbytes) <= 2 * i < pow256(nbytes),
    ensures
        signed(T::value(T::bytes(unsigned(i, width), nbytes)), nbytes) == i,
{
    let p = pow256(nbytes);
    let q = pow256((width - nbytes) as nat);
    lemma_pow256_positive(nbytes);
    lemma_pow256_positive((width - nbytes) as nat);
    lemma_pow256_add(nbytes, (width - nbytes) as nat);
    assert(pow256(width) == p * q);
    let u = unsigned(i, width);
    law_unsigned_round_trip::<T>(u, nbytes);
    if i < 0 {
        assert(p * q == p * (q - 1) + p) by (nonlinear_arith);
        assert(p * (q - 1) >= 0) by (nonlinear_arith)
            requires
                p > 0,
                q >= 1,
        ;
        lemma_mod_multiples_vanish(q - 1, i + p, p as int);
        lemma_small_mod((i + p) as nat, p);
        assert(u % p == i + p);
    } else {
        lemma_small_mod(i as nat, p);
        assert(p * q >= p) by (nonlinear_arith)
            requires
                p > 0,
                q >= 1,
        ;
    }
}

/// Every `u16` written in a byte order reads back as itself in that order.
pub proof fn law_u16_round_trip<T: ByteOrder>(v: u16)
    ensures
        T::value(T::bytes(v as nat, 2)) == v as nat,
{
    lemma_pow256_values();
    law_unsigned_round_trip::<T>(v as nat, 2);
}

/// Every `i16` written in a byte order reads back as itself in that order.
pub proof fn law_i16_round_trip<T: ByteOrder>(v: i16)
    ensures
        signed(T::value(T::bytes(unsigned(v as int, 2), 2)), 2) == v as int,
{
    lemma_pow256_values();
    law_signed_round_trip::<T>(v as int, 2, 2);
}

/// Every `u32` written in a byte order reads back as itself in that order.
pub proof fn law_u32_round_trip<T: ByteOrder>(v: u32)
    ensures
        T::value(T::bytes(v as nat, 4)) == v as nat,
{
    lemma_pow256_values();
    law_unsigned_round_trip::<T>(v as nat, 4);
}

/// Every `i32` written in a byte order reads back as itself in that order.
pub proof fn law_i32_round_trip<T: ByteOrder>(v: i32)
    ensures
        signed(T::value(T::bytes(unsigned(v as int, 4), 4)), 4) == v as int,
{
    lemma_pow256_values();
    law_signed_round_trip::<T>(v as int, 4, 4);
}

/// Every `u64` written in a byte order reads back as itself in that order.
pub proof fn law_u64_round_trip<T: ByteOrder>(v: u64)
    ensures
        T::value(T::bytes(v as nat, 8)) == v as nat,
{
    lemma_pow256_values();
    law_unsigned_round_trip::<T>(v as nat, 8);
}

/// Every `i64` written in a byte order reads back as itself in that order.
pub proof fn law_i64_round_trip<T: ByteOrder>(v: i64)
    ensures
        signed(T::value(T::bytes(unsigned(v as int, 8), 8)), 8) == v as int,
{
    lemma_pow256_values();
    law_signed_round_trip::<T>(v as int, 8, 8);
}

/// Every `i8` written as one byte reads back as itself.
pub proof fn law_i8_round_trip(v: i8)
    ensures
        unsigned(v as int, 1) < 256,
        signed(unsigned(v as int, 1), 1) == v as int,
{
    lemma_pow256_values();
}

/// A run of bytes that reads the same in both directions.
pub open spec fn palindromic(s: Seq<u8>) -> bool {
    forall|i: int| 0 <= i < s.len() ==> #[trigger] s[i] == s[s.len() - 1 - i]
}

/// The big-endian bytes of a number are its little-endian bytes in reverse
/// order, so the two encodings agree exactly when the bytes are palindromic.
pub proof fn law_orders_differ(v: nat, len: nat)
    ensures
        BigEndian::bytes(v, len) == LittleEndian::bytes(v, len).reverse(),
        BigEndian::bytes(v, len) == LittleEndian::bytes(v, len) <==> palindromic(
            BigEndian::bytes(v, len),
        ),
{
    let be = be_bytes(v, len);
    let le = le_bytes(v, len);
    lemma_bytes_len(v, len);
    assert forall|i: int| 0 <= i < len implies be[i] == le[len - 1 - i] by {
        lemma_bytes_mirror(v, len, i);
    }
    assert(be =~= le.reverse());
    if palindromic(be) {
        assert forall|i: int| 0 <= i < len implies be[i] == le[i] by {
            assert(be[len - 1 - i] == le[len - 1 - (len - 1 - i)]);
        }
        assert(be =~= le);
    }
}

} // verus!
