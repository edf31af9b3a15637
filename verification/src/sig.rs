//! The signature encoder: a window of `W` pairwise-distinct symbols is
//! encoded as the sum of its stored bit values, which for such a window
//! coincides with their bitwise OR. Sliding the window forward updates the
//! signature by adding the new symbol and subtracting the dropped one.

use vstd::prelude::*;

use crate::symbol_value;
use crate::MAX_ALPHABET;

verus! {

/// The signature of a window: the sum of the stored symbol values.
pub open spec fn window_sig(w: Seq<u16>) -> int
    decreases w.len(),
{
    if w.len() == 0 {
        0
    } else {
        window_sig(w.drop_last()) + w.last()
    }
}

/// The bitwise OR of the stored symbol values of a window.
pub open spec fn window_mask(w: Seq<u16>) -> u16
    decreases w.len(),
{
    if w.len() == 0 {
        0u16
    } else {
        window_mask(w.drop_last()) | w.last()
    }
}

/// Every element of `w` encodes a symbol with index below `bound`.
pub open spec fn all_symbols_below(w: Seq<u16>, bound: nat) -> bool {
    forall|i: int| 0 <= i < w.len() ==> crate::is_symbol(#[trigger] w[i], bound as int)
}

/// Appending a symbol adds its value to the signature.
pub proof fn lemma_sig_push(w: Seq<u16>, x: u16)
    ensures
        window_sig(w.push(x)) == window_sig(w) + x,
        window_mask(w.push(x)) == (window_mask(w) | x),
{
    assert(w.push(x).drop_last() =~= w);
}

/// Dropping the oldest element removes its value from the signature.
pub proof fn lemma_sig_drop_first(w: Seq<u16>)
    requires
        w.len() >= 1,
    ensures
        window_sig(w.drop_first()) == window_sig(w) - w[0],
    decreases w.len(),
{
    if w.len() == 1 {
        assert(w.drop_first() =~= Seq::<u16>::empty());
        assert(w.drop_last() =~= Seq::<u16>::empty());
    } else {
        lemma_sig_drop_first(w.drop_last());
        assert(w.drop_first().drop_last() =~= w.drop_last().drop_first());
        assert(window_sig(w.drop_first()) == window_sig(w.drop_first().drop_last())
            + w.drop_first().last());
        assert(w.drop_first().last() == w.last());
    }
}

/// Each member of a window is no larger than the window's signature.
pub proof fn lemma_sig_ge_member(w: Seq<u16>, i: int)
    requires
        0 <= i < w.len(),
    ensures
        window_sig(w) >= w[i],
        window_sig(w) >= 0,
    decreases w.len(),
{
    lemma_sig_nonneg(w);
    if i == w.len() - 1 {
        lemma_sig_nonneg(w.drop_last());
    } else {
        lemma_sig_ge_member(w.drop_last(), i);
    }
}

/// A signature is never negative.
pub proof fn lemma_sig_nonneg(w: Seq<u16>)
    ensures
        window_sig(w) >= 0,
    decreases w.len(),
{
    if w.len() > 0 {
        lemma_sig_nonneg(w.drop_last());
    }
}

/// The signature bijection law: on a window of pairwise-distinct symbols the
/// arithmetic sum and the bitwise OR of the stored values agree, the result
/// stays below `2^bound` when all symbol indices lie below `bound`, and the
/// OR holds exactly the bits of the window's members.
pub proof fn lemma_sig_eq_mask(w: Seq<u16>, bound: nat)
    requires
        bound <= 15,
        all_symbols_below(w, bound),
        w.no_duplicates(),
    ensures
        window_sig(w) == window_mask(w),
        window_mask(w) < symbol_value(bound),
        forall|k: nat|
            k < 16 ==> ((window_mask(w) & #[trigger] symbol_value(k)) != 0 <==> w.contains(
                symbol_value(k),
            )),
    decreases w.len(),
{
    let b = bound as u16;
    if w.len() == 0 {
        assert(b <= 15 ==> 0u16 < (1u16 << b)) by (bit_vector);
        assert(forall|ku: u16| (0u16 & (1u16 << ku)) == 0) by (bit_vector);
    } else {
        let dl = w.drop_last();
        let x = w.last();
        assert(all_symbols_below(dl, bound));
        assert(dl.no_duplicates());
        lemma_sig_eq_mask(dl, bound);
        let m = window_mask(dl);
        let kx = choose|k: nat| k < bound && k < MAX_ALPHABET && x == symbol_value(k);
        let kxu = kx as u16;
        // The last element is distinct from all earlier ones, so its bit is
        // not yet in the mask.
        assert(!dl.contains(x)) by {
            if dl.contains(x) {
                let j = choose|j: int| 0 <= j < dl.len() && dl[j] == x;
                assert(w[j] == w[w.len() - 1]);
            }
        }
        assert((m & symbol_value(kx)) == 0);
        assert(m & (1u16 << kxu) == 0 ==> m + (1u16 << kxu) == (m | (1u16 << kxu))) by (bit_vector);
        assert(window_sig(w) == window_sig(dl) + x);
        assert(window_mask(w) == (m | x)) by {
            assert(window_mask(w) == (window_mask(dl) | w.last()));
        }
        // The bound is kept: both operands stay below the same power of two.
        assert(m < (1u16 << b) && kxu < b && b <= 15 ==> (m | (1u16 << kxu)) < (1u16 << b))
            by (bit_vector);
        // Membership of each bit in the extended mask.
        assert forall|k: nat| k < 16 implies ((window_mask(w) & #[trigger] symbol_value(k)) != 0
            <==> w.contains(symbol_value(k))) by {
            let ku = k as u16;
            assert(((m | (1u16 << kxu)) & (1u16 << ku)) != 0 <==> ((m & (1u16 << ku)) != 0 || (ku
                == kxu && ku < 16))) by (bit_vector);
            if k == kx {
                assert(w.contains(symbol_value(k))) by {
                    assert(w[w.len() - 1] == symbol_value(kx));
                }
            } else {
                assert(symbol_value(k) != symbol_value(kx) ==> (w.contains(symbol_value(k)) <==>
                dl.contains(symbol_value(k)))) by {
                    if w.contains(symbol_value(k)) && symbol_value(k) != symbol_value(kx) {
                        let j = choose|j: int| 0 <= j < w.len() && w[j] == symbol_value(k);
                        assert(j < w.len() - 1);
                        assert(dl[j] == symbol_value(k));
                    }
                }
                assert(ku != kxu && ku < 16 && kxu < 16 ==> (((1u16 << ku) == (1u16 << kxu)) ==
                false)) by (bit_vector);
            }
        }
    }
}

/// A window of pairwise-distinct symbols has a signature below `2^15`, so it
/// fits the 16-bit width with headroom for one more symbol value.
pub proof fn lemma_sig_bound(w: Seq<u16>, bound: nat)
    requires
        bound <= 15,
        all_symbols_below(w, bound),
        w.no_duplicates(),
    ensures
        0 <= window_sig(w) < symbol_value(bound),
        window_sig(w) <= 32767,
{
    lemma_sig_eq_mask(w, bound);
    lemma_sig_nonneg(w);
    let b = bound as u16;
    assert(b <= 15 ==> (1u16 << b) <= 32768) by (bit_vector);
}

/// The slide rule agrees with recomputing the signature from scratch:
/// dropping the oldest symbol `w[0]` and appending `x` yields the signature
/// of the slid window.
pub proof fn lemma_slide_matches_recompute(w: Seq<u16>, x: u16)
    requires
        w.len() >= 1,
    ensures
        window_sig(w.drop_first().push(x)) == window_sig(w) + x - w[0],
{
    lemma_sig_drop_first(w);
    lemma_sig_push(w.drop_first(), x);
}

/// Computes the signature of the symbols `sequence[start..end]`.
pub fn range_signature(sequence: &Vec<u16>, start: usize, end: usize) -> (r: u16)
    requires
        start <= end <= sequence@.len(),
        all_symbols_below(sequence@.subrange(start as int, end as int), MAX_ALPHABET as nat),
        sequence@.subrange(start as int, end as int).no_duplicates(),
    ensures
        r == window_sig(sequence@.subrange(start as int, end as int)),
{
    let ghost whole = sequence@.subrange(start as int, end as int);
    let mut r: u16 = 0;
    let mut i: usize = start;
    while i < end
        invariant
            start <= i <= end <= sequence@.len(),
            all_symbols_below(whole, MAX_ALPHABET as nat),
            whole.no_duplicates(),
            whole == sequence@.subrange(start as int, end as int),
            r == window_sig(sequence@.subrange(start as int, i as int)),
        decreases end - i,
    {
        let ghost prefix = sequence@.subrange(start as int, i as int);
        proof {
            assert(prefix =~= whole.subrange(0, i - start));
            assert(prefix.no_duplicates());
            assert(all_symbols_below(prefix, MAX_ALPHABET as nat)) by {
                assert(forall|j: int| 0 <= j < prefix.len() ==> prefix[j] == whole[j]);
            }
            lemma_sig_bound(prefix, MAX_ALPHABET as nat);
            assert(sequence@[i as int] == whole[i - start]);
            lemma_sig_push(prefix, sequence@[i as int]);
            assert(prefix.push(sequence@[i as int]) =~= sequence@.subrange(
                start as int,
                i as int + 1,
            ));
            // The extended prefix is still a duplicate-free window of
            // symbols, so the new sum also fits the width.
            assert(prefix.push(sequence@[i as int]) =~= whole.subrange(0, i - start + 1));
            assert(whole.subrange(0, i - start + 1).no_duplicates());
            assert(all_symbols_below(whole.subrange(0, i - start + 1), MAX_ALPHABET as nat)) by {
                assert(forall|j: int|
                    0 <= j < i - start + 1 ==> whole.subrange(0, i - start + 1)[j] == whole[j]);
            }
            lemma_sig_bound(whole.subrange(0, i - start + 1), MAX_ALPHABET as nat);
            crate::lemma_symbol_value_bounds(MAX_ALPHABET as nat);
        }
        r = r + sequence[i];
        i = i + 1;
    }
    r
}

/// Computes the signature of a whole window of pairwise-distinct symbols:
/// the sum (equally, the bitwise OR) of the stored bit values.
pub fn window_signature(window: &Vec<u16>) -> (r: u16)
    requires
        all_symbols_below(window@, MAX_ALPHABET as nat),
        window@.no_duplicates(),
    ensures
        r == window_sig(window@),
{
    let n = window.len();
    let r = range_signature(window, 0, n);
    proof {
        assert(window@.subrange(0, n as int) =~= window@);
    }
    r
}

/// Slides a signature forward: the dropped symbol's value leaves the sum and
/// the added symbol's value enters it. The caller guarantees that the
/// dropped symbol is part of the old signature and that the sum keeps
/// fitting the width.
pub fn slide(old_signature: u16, dropped_symbol: u16, added_symbol: u16) -> (r: u16)
    requires
        dropped_symbol <= old_signature,
        old_signature + added_symbol <= u16::MAX,
    ensures
        r == old_signature + added_symbol - dropped_symbol,
{
    old_signature + added_symbol - dropped_symbol
}

/// Membership test of a signature in the set of signatures already seen.
pub fn is_novel(signature: u16, seen_set: &Vec<u16>) -> (r: bool)
    ensures
        r == !seen_set@.contains(signature),
{
    let mut i: usize = 0;
    while i < seen_set.len()
        invariant
            i <= seen_set@.len(),
            forall|j: int| 0 <= j < i ==> seen_set@[j] != signature,
        decreases seen_set@.len() - i,
    {
        if seen_set[i] == signature {
            return false;
        }
        i = i + 1;
    }
    true
}

} // verus!
