//! Bit-level vocabulary shared by the pattern parser, the expansion engine
//! and the dispatcher: reading a single bit of a `u64`, and the bit-vector
//! facts the proofs need about `|`, `&`, `^`, `<<`, `>>` and bounds.

use vstd::prelude::*;

verus! {

/// Bit `p` of `x` (false for `p >= 64`).
pub open spec fn bit64(x: u64, p: u64) -> bool {
    (x >> p) & 1 == 1
}

/// ORing in a single shifted bit sets exactly that bit.
pub proof fn lemma_bit_or_shift()
    by (bit_vector)
    ensures
        forall|x: u64, k: u64, p: u64|
            k < 64 && p < 64 ==> #[trigger] bit64(x | (1u64 << k), p) == (bit64(x, p) || p == k),
{
}

/// The zero word has no bit set.
pub proof fn lemma_bit_zero()
    by (bit_vector)
    ensures
        forall|p: u64| !#[trigger] bit64(0u64, p),
{
}

/// `&` acts bitwise.
pub proof fn lemma_bit_and()
    by (bit_vector)
    ensures
        forall|x: u64, y: u64, p: u64| #[trigger] bit64(x & y, p) == (bit64(x, p) && bit64(y, p)),
{
}

/// `|` acts bitwise.
pub proof fn lemma_bit_or()
    by (bit_vector)
    ensures
        forall|x: u64, y: u64, p: u64| #[trigger] bit64(x | y, p) == (bit64(x, p) || bit64(y, p)),
{
}

/// `^` acts bitwise.
pub proof fn lemma_bit_xor()
    by (bit_vector)
    ensures
        forall|x: u64, y: u64, p: u64| #[trigger] bit64(x ^ y, p) == (bit64(x, p) != bit64(y, p)),
{
}

/// A left-shifted value has bit `p` iff the unshifted value has bit `p - k`.
pub proof fn lemma_bit_shl()
    by (bit_vector)
    ensures
        forall|x: u64, k: u64, p: u64|
            k < 64 && p < 64 ==> #[trigger] bit64(x << k, p) == (p >= k && bit64(
                x,
                (p - k) as u64,
            )),
{
}

/// A right-shifted value has bit `p` iff the unshifted value has bit `p + k`.
pub proof fn lemma_bit_shr()
    by (bit_vector)
    ensures
        forall|x: u64, k: u64, p: u64|
            k < 64 && p < 64 ==> #[trigger] bit64(x >> k, p) == (p + k < 64 && bit64(
                x,
                (p + k) as u64,
            )),
{
}

/// ORing with zero changes nothing.
pub proof fn lemma_or_zero()
    by (bit_vector)
    ensures
        forall|x: u64| #[trigger] (x | 0u64) == x,
{
}

/// The even/odd split that drives the inductions below.
proof fn lemma_halving()
    by (bit_vector)
    ensures
        forall|z: u64| (#[trigger] (z & 1) == 0) == !bit64(z, 0),
        forall|z: u64| z & 1 == 0 ==> z == (#[trigger] (z >> 1)) * 2,
        forall|z: u64| #[trigger] (z >> 1) <= z / 2,
{
}

/// A word with no bit set is zero.
pub proof fn lemma_no_bits_zero(z: u64)
    requires
        forall|p: u64| p < 64 ==> !#[trigger] bit64(z, p),
    ensures
        z == 0,
    decreases z,
{
    lemma_halving();
    lemma_bit_shr();
    if z != 0 {
        assert(!bit64(z, 0));
        let h = z >> 1;
        assert(forall|p: u64| p < 64 ==> !#[trigger] bit64(h, p)) by {
            assert(forall|p: u64| p < 64 ==> #[trigger] bit64(h, p) == (p + 1 < 64 && bit64(
                z,
                (p + 1) as u64,
            )));
        }
        assert(h < z);
        lemma_no_bits_zero(h);
        assert(z == h * 2);
    }
}

/// Two words with the same bits are the same word.
pub proof fn lemma_bit_ext(x: u64, y: u64)
    requires
        forall|p: u64| p < 64 ==> bit64(x, p) == bit64(y, p),
    ensures
        x == y,
{
    lemma_bit_xor();
    assert(forall|p: u64| p < 64 ==> !#[trigger] bit64(x ^ y, p)) by {
        assert(forall|p: u64| p < 64 ==> #[trigger] bit64(x ^ y, p) == (bit64(x, p) != bit64(
            y,
            p,
        )));
    }
    lemma_no_bits_zero(x ^ y);
    assert(x ^ y == 0 ==> x == y) by (bit_vector);
}

/// A value below `2^n` has no bit at position `n` or above.
pub proof fn lemma_lt_pow2_high_bits_clear(x: u64, n: u64)
    by (bit_vector)
    requires
        n < 64,
        x < (1u64 << n),
    ensures
        forall|p: u64| n <= p < 64 ==> !#[trigger] bit64(x, p),
{
}


} // verus!
