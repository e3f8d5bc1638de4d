//! The arithmetic meaning of byte sequences.

use vstd::arithmetic::div_mod::lemma_mod_breakdown;
use vstd::prelude::*;

verus! {

/// `256^n`: the number of values that `n` bytes can hold.
pub open spec fn pow256(n: nat) -> nat
    decreases n,
{
    if n == 0 {
        1
    } else {
        256 * pow256((n - 1) as nat)
    }
}

/// The number denoted by `s` when its first byte is the most significant.
pub open spec fn be_value(s: Seq<u8>) -> nat
    decreases s.len(),
{
    if s.len() == 0 {
        0
    } else {
        256 * be_value(s.drop_last()) + s.last() as nat
    }
}

/// The number denoted by `s` when its first byte is the least significant.
pub open spec fn le_value(s: Seq<u8>) -> nat
    decreases s.len(),
{
    if s.len() == 0 {
        0
    } else {
        s[0] as nat + 256 * le_value(s.drop_first())
    }
}

/// The `len` low-order bytes of `v`, most significant first.
pub open spec fn be_bytes(v: nat, len: nat) -> Seq<u8>
    decreases len,
{
    if len == 0 {
        Seq::empty()
    } else {
        be_bytes(v / 256, (len - 1) as nat).push((v % 256) as u8)
    }
}

/// The `len` low-order bytes of `v`, least significant first.
pub open spec fn le_bytes(v: nat, len: nat) -> Seq<u8>
    decreases len,
{
    if len == 0 {
        Seq::empty()
    } else {
        seq![(v % 256) as u8] + le_bytes(v / 256, (len - 1) as nat)
    }
}

/// The two's complement reading of the `width`-byte pattern `v`: patterns
/// with the top bit set denote `v - 256^width`.
pub open spec fn signed(v: nat, width: nat) -> int {
    if 2 * v >= pow256(width) {
        v - pow256(width)
    } else {
        v as int
    }
}

/// The `width`-byte two's complement pattern of `i`, for
/// `-256^width / 2 <= i < 256^width / 2`.
pub open spec fn unsigned(i: int, width: nat) -> nat {
    if i < 0 {
        (i + pow256(width)) as nat
    } else {
        i as nat
    }
}

/// The powers of 256 up to the eighth, as numbers.
pub proof fn lemma_pow256_values()
    ensures
        pow256(0) == 1,
        pow256(1) == 0x100,
        pow256(2) == 0x1_0000,
        pow256(3) == 0x100_0000,
        pow256(4) == 0x1_0000_0000,
        pow256(5) == 0x100_0000_0000,
        pow256(6) == 0x1_0000_0000_0000,
        pow256(7) == 0x100_0000_0000_0000,
        pow256(8) == 0x1_0000_0000_0000_0000,
{
    reveal_with_fuel(pow256, 10);
}

/// A big-endian value is below `256^len`.
pub proof fn lemma_be_value_bound(s: Seq<u8>)
    ensures
        be_value(s) < pow256(s.len()),
    decreases s.len(),
{
    if s.len() > 0 {
        lemma_be_value_bound(s.drop_last());
    }
}

/// A little-endian value is below `256^len`.
pub proof fn lemma_le_value_bound(s: Seq<u8>)
    ensures
        le_value(s) < pow256(s.len()),
    decreases s.len(),
{
    if s.len() > 0 {
        lemma_le_value_bound(s.drop_first());
    }
}

/// `be_bytes` and `le_bytes` give exactly `len` bytes.
pub proof fn lemma_bytes_len(v: nat, len: nat)
    ensures
        be_bytes(v, len).len() == len,
        le_bytes(v, len).len() == len,
    decreases len,
{
    if len > 0 {
        lemma_bytes_len(v / 256, (len - 1) as nat);
    }
}

/// Big-endian: encoding a number that fits and decoding it gives it back.
pub proof fn lemma_be_round_trip(v: nat, len: nat)
    requires
        v < pow256(len),
    ensures
        be_bytes(v, len).len() == len,
        be_value(be_bytes(v, len)) == v,
    decreases len,
{
    if len > 0 {
        lemma_be_round_trip(v / 256, (len - 1) as nat);
        assert(be_bytes(v, len).drop_last() =~= be_bytes(v / 256, (len - 1) as nat));
    }
}

/// Little-endian: encoding a number that fits and decoding it gives it back.
pub proof fn lemma_le_round_trip(v: nat, len: nat)
    requires
        v < pow256(len),
    ensures
        le_bytes(v, len).len() == len,
        le_value(le_bytes(v, len)) == v,
    decreases len,
{
    if len > 0 {
        lemma_le_round_trip(v / 256, (len - 1) as nat);
        assert(le_bytes(v, len).drop_first() =~= le_bytes(v / 256, (len - 1) as nat));
    }
}

/// Big-endian: decoding bytes and encoding at the same length gives them back.
pub proof fn lemma_be_bytes_of_value(s: Seq<u8>)
    ensures
        be_value(s) < pow256(s.len()),
        be_bytes(be_value(s), s.len()) == s,
    decreases s.len(),
{
    lemma_be_value_bound(s);
    if s.len() > 0 {
        lemma_be_bytes_of_value(s.drop_last());
        assert(be_bytes(be_value(s), s.len()) =~= s);
    } else {
        assert(be_bytes(be_value(s), s.len()) =~= s);
    }
}

/// Little-endian: decoding bytes and encoding at the same length gives them
/// back.
pub proof fn lemma_le_bytes_of_value(s: Seq<u8>)
    ensures
        le_value(s) < pow256(s.len()),
        le_bytes(le_value(s), s.len()) == s,
    decreases s.len(),
{
    lemma_le_value_bound(s);
    if s.len() > 0 {
        lemma_le_bytes_of_value(s.drop_first());
        assert(le_bytes(le_value(s), s.len()) =~= s);
    } else {
        assert(le_bytes(le_value(s), s.len()) =~= s);
    }
}

/// Every power of 256 is positive.
pub proof fn lemma_pow256_positive(n: nat)
    ensures
        pow256(n) > 0,
    decreases n,
{
    if n > 0 {
        lemma_pow256_positive((n - 1) as nat);
    }
}

/// `256^(a + b) == 256^a * 256^b`.
pub proof fn lemma_pow256_add(a: nat, b: nat)
    ensures
        pow256(a + b) == pow256(a) * pow256(b),
    decreases a,
{
    if a > 0 {
        let x = pow256((a - 1) as nat);
        let y = pow256(b);
        lemma_pow256_add((a - 1) as nat, b);
        assert(pow256(a + b) == 256 * pow256((a - 1 + b) as nat));
        assert(pow256(a) == 256 * x);
        assert(256 * (x * y) == (256 * x) * y) by (nonlinear_arith);
    } else {
        assert(pow256(a) == 1);
        assert(1 * pow256(b) == pow256(b));
    }
}

/// Big-endian: only `v mod 256^len` matters to the `len` bytes of `v`.
pub proof fn lemma_be_bytes_truncate(v: nat, len: nat)
    ensures
        pow256(len) > 0,
        be_bytes(v, len) == be_bytes(v % pow256(len), len),
    decreases len,
{
    lemma_pow256_positive(len);
    if len > 0 {
        let p = pow256((len - 1) as nat);
        lemma_pow256_positive((len - 1) as nat);
        lemma_mod_breakdown(v as int, 256, p as int);
        let w = v % pow256(len);
        assert(w == 256 * ((v / 256) % p) + v % 256);
        assert(w % 256 == v % 256);
        assert(w / 256 == (v / 256) % p);
        lemma_be_bytes_truncate(v / 256, (len - 1) as nat);
    }
}

/// Little-endian: only `v mod 256^len` matters to the `len` bytes of `v`.
pub proof fn lemma_le_bytes_truncate(v: nat, len: nat)
    ensures
        pow256(len) > 0,
        le_bytes(v, len) == le_bytes(v % pow256(len), len),
    decreases len,
{
    lemma_pow256_positive(len);
    if len > 0 {
        let p = pow256((len - 1) as nat);
        lemma_pow256_positive((len - 1) as nat);
        lemma_mod_breakdown(v as int, 256, p as int);
        let w = v % pow256(len);
        assert(w == 256 * ((v / 256) % p) + v % 256);
        assert(w % 256 == v % 256);
        assert(w / 256 == (v / 256) % p);
        lemma_le_bytes_truncate(v / 256, (len - 1) as nat);
    }
}

/// The big-endian bytes of a number are its little-endian bytes in reverse.
pub proof fn lemma_bytes_mirror(v: nat, len: nat, i: int)
    requires
        0 <= i < len,
    ensures
        be_bytes(v, len).len() == len,
        le_bytes(v, len).len() == len,
        be_bytes(v, len)[i] == le_bytes(v, len)[len - 1 - i],
    decreases len,
{
    lemma_bytes_len(v, len);
    lemma_bytes_len(v / 256, (len - 1) as nat);
    if i < len - 1 {
        lemma_bytes_mirror(v / 256, (len - 1) as nat, i);
    }
}

} // verus!
