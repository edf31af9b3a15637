//! Enumeration of covering sequences over k-subsets of an alphabet.
//!
//! A sequence over an alphabet of `A` symbols is *complete* when every
//! contiguous window of `W` symbols carries a distinct subset signature and
//! the sequence exhausts all `C(A, W)` possible signatures, so that its
//! length is exactly `C(A, W) + W - 1`. Symbols are stored as powers of two
//! (symbol index `k` is the value `2^k`), which lets one 16-bit integer sum
//! act as the signature of a window of pairwise-distinct symbols.
//!
//! The search walks the tree of partial sequences depth first with an
//! explicit pending stack, pruning any extension whose window signature was
//! already produced.

use vstd::prelude::*;

pub mod format;
pub mod node;
pub mod search;
pub mod sig;

verus! {

/// Largest alphabet size that the 16-bit signature encoding supports: one
/// bit per symbol, with one bit of headroom kept for extending the alphabet
/// by a doubling.
pub const MAX_ALPHABET: usize = 15;

/// The stored value of the symbol with index `k`: the single bit `2^k`.
pub open spec fn symbol_value(k: nat) -> u16 {
    1u16 << (k as u16)
}

/// A value that encodes a symbol of an alphabet with `alphabet_size` symbols.
pub open spec fn is_symbol(v: u16, alphabet_size: int) -> bool {
    exists|k: nat| k < alphabet_size && k < MAX_ALPHABET && v == #[trigger] symbol_value(k)
}

/// A value that encodes some symbol the 16-bit width can hold.
pub open spec fn is_powval(v: u16) -> bool {
    is_symbol(v, MAX_ALPHABET as int)
}

/// A `(alphabet_size, subset_size)` pair the search accepts: the window must
/// be shorter than the alphabet, and the alphabet must fit the signature
/// width.
pub open spec fn valid_config(alphabet_size: int, subset_size: int) -> bool {
    1 <= subset_size && subset_size < alphabet_size && alphabet_size <= MAX_ALPHABET
}

/// Symbol values are doubled to move one index up.
pub proof fn lemma_symbol_value_double(k: nat)
    requires
        k < 15,
    ensures
        2 * symbol_value(k) == symbol_value(k + 1),
{
    let ku = k as u16;
    assert(ku < 15 ==> 2 * (1u16 << ku) == (1u16 << (ku + 1))) by (bit_vector);
}

/// Symbol values grow strictly with the index, so distinct indices give
/// distinct values.
pub proof fn lemma_symbol_value_increases(j: nat, k: nat)
    requires
        j < k <= 15,
    ensures
        symbol_value(j) < symbol_value(k),
{
    let ju = j as u16;
    let ku = k as u16;
    assert(ju < ku && ku <= 15 ==> (1u16 << ju) < (1u16 << ku)) by (bit_vector);
}

/// Bounds on every symbol value: at least 1, and at most `2^14` while the
/// index stays below `MAX_ALPHABET`.
pub proof fn lemma_symbol_value_bounds(k: nat)
    requires
        k <= 15,
    ensures
        1 <= symbol_value(k),
        symbol_value(k) == vstd::arithmetic::power2::pow2(k),
        k < MAX_ALPHABET ==> symbol_value(k) <= 16384,
{
    let ku = k as u16;
    assert(ku <= 15 ==> 1 <= (1u16 << ku)) by (bit_vector);
    assert(ku < 15 ==> (1u16 << ku) <= 16384) by (bit_vector);
    assert(symbol_value(k) == vstd::arithmetic::power2::pow2(k)) by {
        vstd::arithmetic::power2::lemma2_to64();
        if k < 15 {
            lemma_symbol_shift_values(ku);
        } else {
            assert((1u16 << 15u16) == 32768) by (bit_vector);
        }
    }
}

/// Spells out the shift values below the alphabet cap so they can be tied to
/// `pow2`.
proof fn lemma_symbol_shift_values(ku: u16)
    requires
        ku < 15,
    ensures
        (1u16 << ku) == vstd::arithmetic::power2::pow2(ku as nat),
{
    vstd::arithmetic::power2::lemma2_to64();
    assert(ku < 15 ==> ((ku == 0 ==> (1u16 << ku) == 1) && (ku == 1 ==> (1u16 << ku) == 2) && (ku
        == 2 ==> (1u16 << ku) == 4) && (ku == 3 ==> (1u16 << ku) == 8) && (ku == 4 ==> (1u16 << ku)
        == 16) && (ku == 5 ==> (1u16 << ku) == 32) && (ku == 6 ==> (1u16 << ku) == 64) && (ku == 7
        ==> (1u16 << ku) == 128) && (ku == 8 ==> (1u16 << ku) == 256) && (ku == 9 ==> (1u16 << ku)
        == 512) && (ku == 10 ==> (1u16 << ku) == 1024) && (ku == 11 ==> (1u16 << ku) == 2048) && (
    ku == 12 ==> (1u16 << ku) == 4096) && (ku == 13 ==> (1u16 << ku) == 8192) && (ku == 14 ==> (
    1u16 << ku) == 16384))) by (bit_vector);
}

/// Computes the stored value `2^k` of the symbol with index `k`.
pub fn pow2_u16(k: usize) -> (r: u16)
    requires
        k <= MAX_ALPHABET,
    ensures
        r == symbol_value(k as nat),
{
    let mut i: usize = 0;
    let mut v: u16 = 1;
    assert(v == symbol_value(0)) by {
        assert((1u16 << 0u16) == 1) by (bit_vector);
    }
    while i < k
        invariant
            i <= k <= 15,
            v == symbol_value(i as nat),
        decreases k - i,
    {
        proof {
            lemma_symbol_value_double(i as nat);
            lemma_symbol_value_bounds((i + 1) as nat);
        }
        v = v * 2;
        i = i + 1;
    }
    v
}

} // verus!
