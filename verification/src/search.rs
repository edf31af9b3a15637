//! The search engine: a depth-first traversal over an explicit pending stack
//! of search states, with completion detection and per-depth statistics.

use vstd::prelude::*;

use rand::seq::SliceRandom;

use crate::is_symbol;
use crate::node::clone_u16_vec;
use crate::node::is_generated_child;
use crate::node::Node;
use crate::sig::window_sig;
use crate::symbol_value;
use crate::valid_config;
use crate::MAX_ALPHABET;

verus! {

broadcast use vstd::set::group_set_axioms;

/// A fatal condition: the search either rejects its configuration before
/// traversal or stops when a statistics counter would wrap.
#[derive(Clone, Copy, Debug, PartialEq, Eq, Structural)]
pub enum SearchError {
    /// The `(alphabet_size, subset_size)` pair is invalid; no traversal
    /// starts and no state is visited.
    InvalidConfig,
    /// A visit counter reached the width limit of its integer type.
    CounterOverflow,
}

/// The binomial coefficient `C(n, k)` by Pascal's rule.
pub open spec fn spec_binomial(n: nat, k: nat) -> nat
    decreases n,
{
    if k == 0 {
        1
    } else if n == 0 {
        0
    } else {
        spec_binomial((n - 1) as nat, (k - 1) as nat) + spec_binomial((n - 1) as nat, k)
    }
}

/// `C(n, k)` never exceeds `2^n`.
pub proof fn lemma_binomial_le_pow2(n: nat, k: nat)
    ensures
        spec_binomial(n, k) <= vstd::arithmetic::power2::pow2(n),
    decreases n,
{
    vstd::arithmetic::power2::lemma_pow2_pos(n);
    if k == 0 {
    } else if n == 0 {
    } else {
        lemma_binomial_le_pow2((n - 1) as nat, (k - 1) as nat);
        lemma_binomial_le_pow2((n - 1) as nat, k);
        vstd::arithmetic::power2::lemma_pow2_unfold(n);
    }
}

/// `C(n, k)` is positive when `k <= n`.
pub proof fn lemma_binomial_pos(n: nat, k: nat)
    requires
        k <= n,
    ensures
        spec_binomial(n, k) >= 1,
    decreases n,
{
    if k > 0 {
        lemma_binomial_pos((n - 1) as nat, (k - 1) as nat);
    }
}

/// `C(n, k)` is at least 2 when `1 <= k < n`, so a complete sequence is
/// always longer than the root sequence.
pub proof fn lemma_binomial_ge2(n: nat, k: nat)
    requires
        1 <= k < n,
    ensures
        spec_binomial(n, k) >= 2,
{
    lemma_binomial_pos((n - 1) as nat, (k - 1) as nat);
    lemma_binomial_pos((n - 1) as nat, k);
}

/// Relies on `num_integer::binomial`, which computes the binomial
/// coefficient by the exact multiply-then-divide scheme; its documentation
/// bounds overflow-free inputs at `n <= 18` even for 16-bit words, so inputs
/// at most 15 are safe on every platform.
#[verifier::external_body]
fn binomial_usize(n: usize, k: usize) -> (r: usize)
    requires
        n <= 15,
    ensures
        r == spec_binomial(n as nat, k as nat),
{
    num_integer::binomial(n, k)
}

/// Relies on `rand`'s `SliceRandom::shuffle`: an in-place Fisher-Yates pass
/// over the slice driven by the thread-local generator. It permutes the
/// elements, so the multiset of pending states is unchanged whatever
/// randomness comes back.
#[verifier::external_body]
fn shuffle_pending(queue: &mut Vec<Node>)
    ensures
        final(queue)@.to_multiset() == old(queue)@.to_multiset(),
{
    queue.shuffle(&mut rand::thread_rng());
}

/// The length every complete sequence must reach: `C(A, W) + W - 1`, one
/// symbol per distinct window signature plus the warm-up prefix.
pub fn max_sequence_length(alphabet_size: usize, subset_size: usize) -> (r: usize)
    requires
        valid_config(alphabet_size as int, subset_size as int),
    ensures
        r == spec_binomial(alphabet_size as nat, subset_size as nat) + subset_size - 1,
        subset_size + 1 <= r,
        r <= 32768 + 14,
{
    proof {
        lemma_binomial_ge2(alphabet_size as nat, subset_size as nat);
        lemma_binomial_le_pow2(alphabet_size as nat, subset_size as nat);
        vstd::arithmetic::power2::lemma2_to64();
        if alphabet_size < 15 {
            vstd::arithmetic::power2::lemma_pow2_strictly_increases(alphabet_size as nat, 15);
        }
        vstd::arithmetic::power2::lemma_pow2_pos(alphabet_size as nat);
    }
    let b = binomial_usize(alphabet_size, subset_size);
    b + subset_size - 1
}

/// A finished sequence of the search over alphabet size `A` and window size
/// `W`: it has the maximal length `C(A, W) + W - 1`, starts with the
/// canonical root prefix, uses only symbols of the alphabet, keeps any `W`
/// consecutive symbols pairwise distinct, and no two of its windows share a
/// signature.
pub open spec fn complete_sequence(s: Seq<u16>, alphabet_size: int, subset_size: int) -> bool {
    &&& s.len() == spec_binomial(alphabet_size as nat, subset_size as nat) + subset_size - 1
    &&& forall|i: int| 0 <= i < s.len() ==> is_symbol(#[trigger] s[i], alphabet_size)
    &&& forall|i: int| 0 <= i <= subset_size && i < s.len() ==> s[i] == symbol_value(i as nat)
    &&& (forall|i: int, j: int| 0 <= i < j < s.len() && j - i < subset_size ==> s[i] != s[j])
    &&& (forall|i: int, j: int|
        0 <= i < j <= s.len() - subset_size ==> window_sig(
            #[trigger] s.subrange(i, i + subset_size),
        ) != window_sig(#[trigger] s.subrange(j, j + subset_size)))
}

/// A sequence that follows the search's candidate discipline at every step
/// beyond the root prefix: each next letter is a fill-in or the fresh
/// letter. The search tree holds exactly the sequences with this shape, so a
/// complete sequence is discovered if and only if it follows the discipline.
pub open spec fn canonical_order(s: Seq<u16>, alphabet_size: int, subset_size: int) -> bool {
    forall|l: int|
        subset_size + 1 <= l < s.len() ==> crate::node::letter_rule(
            #[trigger] s.subrange(0, l),
            s[l],
            alphabet_size,
            subset_size,
        )
}

/// A state of the search tree over the given configuration: a partial
/// sequence the depth-first traversal visits, each exactly once. It starts
/// with the canonical root prefix, uses only alphabet symbols, keeps any `W`
/// consecutive symbols pairwise distinct, repeats no window signature,
/// follows the candidate discipline, and is never longer than a complete
/// sequence.
pub open spec fn reachable_state(s: Seq<u16>, alphabet_size: int, subset_size: int) -> bool {
    &&& subset_size + 1 <= s.len() <= spec_binomial(alphabet_size as nat, subset_size as nat)
        + subset_size - 1
    &&& forall|i: int| 0 <= i < s.len() ==> is_symbol(#[trigger] s[i], alphabet_size)
    &&& forall|i: int| 0 <= i <= subset_size && i < s.len() ==> s[i] == symbol_value(i as nat)
    &&& (forall|i: int, j: int| 0 <= i < j < s.len() && j - i < subset_size ==> s[i] != s[j])
    &&& (forall|i: int, j: int|
        0 <= i < j <= s.len() - subset_size ==> window_sig(
            #[trigger] s.subrange(i, i + subset_size),
        ) != window_sig(#[trigger] s.subrange(j, j + subset_size)))
    &&& canonical_order(s, alphabet_size, subset_size)
}

/// All states of the search tree for one configuration.
pub open spec fn reachable_set(alphabet_size: int, subset_size: int) -> Set<Seq<u16>> {
    Set::new(|s: Seq<u16>| reachable_state(s, alphabet_size, subset_size))
}

/// The members of `states` whose sequence length is `n`.
pub open spec fn with_length(states: Set<Seq<u16>>, n: int) -> Set<Seq<u16>> {
    states.filter(|s: Seq<u16>| s.len() == n)
}

/// Inserting a new state moves exactly its own length bucket by one.
proof fn lemma_with_length_insert(states: Set<Seq<u16>>, s: Seq<u16>, n: int)
    requires
        states.finite(),
        !states.contains(s),
    ensures
        s.len() == n ==> with_length(states.insert(s), n).len() == with_length(states, n).len()
            + 1,
        s.len() != n ==> with_length(states.insert(s), n) == with_length(states, n),
        with_length(states, n).finite(),
{
    vstd::set_lib::lemma_len_subset(with_length(states, n), states);
    if s.len() == n {
        assert(with_length(states.insert(s), n) =~= with_length(states, n).insert(s));
    } else {
        assert(with_length(states.insert(s), n) =~= with_length(states, n));
    }
}

/// What the traversal maintains of every state on the pending stack.
pub open spec fn pending_ok(
    nd: Node,
    alphabet_size: int,
    subset_size: int,
    max_depth: int,
) -> bool {
    &&& nd.wf(subset_size)
    &&& nd.alpha_ok(alphabet_size)
    &&& nd.sequence@.len() <= max_depth
    &&& forall|i: int|
        0 <= i <= subset_size && i < nd.sequence@.len() ==> nd.sequence@[i] == symbol_value(
            i as nat,
        )
    &&& canonical_order(nd.sequence@, alphabet_size, subset_size)
}

/// What a finished search report guarantees. Every reported sequence is a
/// complete sequence that follows the candidate discipline, and conversely
/// every such sequence is reported: the search enumerates them exactly. The
/// histogram has one entry per reachable depth, and its sum is the total
/// number of states visited, at least the root.
pub open spec fn search_report_ok(
    out: (Vec<Vec<u16>>, Vec<u128>, u128),
    alphabet_size: int,
    subset_size: int,
) -> bool {
    &&& forall|i: int|
        0 <= i < out.0@.len() ==> complete_sequence(
            (#[trigger] out.0@[i])@,
            alphabet_size,
            subset_size,
        ) && canonical_order((#[trigger] out.0@[i])@, alphabet_size, subset_size)
    &&& forall|s: Seq<u16>|
        #[trigger] complete_sequence(s, alphabet_size, subset_size) && canonical_order(
            s,
            alphabet_size,
            subset_size,
        ) ==> exists|i: int| 0 <= i < out.0@.len() && (#[trigger] out.0@[i])@ == s
    &&& forall|i: int, j: int|
        0 <= i < j < out.0@.len() ==> (#[trigger] out.0@[i])@ != (#[trigger] out.0@[j])@
    &&& out.1@.len() == spec_binomial(alphabet_size as nat, subset_size as nat) + subset_size - 1
    &&& forall|d: int| 0 <= d < subset_size ==> #[trigger] out.1@[d] == 0
    &&& forall|d: int|
        0 <= d < out.1@.len() ==> #[trigger] out.1@[d] == with_length(
            reachable_set(alphabet_size, subset_size),
            d + 1,
        ).len()
    &&& reachable_set(alphabet_size, subset_size).finite()
    &&& out.2 == reachable_set(alphabet_size, subset_size).len()
    &&& out.2 == seq_sum(out.1@)
    &&& out.2 >= 1
}

/// The determinism law: any two finished reports over the same configuration
/// hold exactly the same complete sequences, the same histogram and the same
/// visit count, whatever order the traversal visited them in — the shuffle
/// heuristic can reorder the pending stack, never change what is found or
/// how much of the tree is walked. Only the order within the sequence list
/// is left open.
pub proof fn lemma_reports_agree_on_sequences(
    out1: (Vec<Vec<u16>>, Vec<u128>, u128),
    out2: (Vec<Vec<u16>>, Vec<u128>, u128),
    alphabet_size: int,
    subset_size: int,
    s: Seq<u16>,
)
    requires
        search_report_ok(out1, alphabet_size, subset_size),
        search_report_ok(out2, alphabet_size, subset_size),
    ensures
        (exists|i: int| 0 <= i < out1.0@.len() && (#[trigger] out1.0@[i])@ == s) <==> (exists|
            i: int,
        | 0 <= i < out2.0@.len() && (#[trigger] out2.0@[i])@ == s),
        out1.1@ == out2.1@,
        out1.2 == out2.2,
{
    assert(out1.1@ =~= out2.1@) by {
        assert(forall|d: int|
            0 <= d < out1.1@.len() ==> #[trigger] out1.1@[d] == with_length(
                reachable_set(alphabet_size, subset_size),
                d + 1,
            ).len() && out2.1@[d] == with_length(
                reachable_set(alphabet_size, subset_size),
                d + 1,
            ).len());
    }
    if exists|i: int| 0 <= i < out1.0@.len() && (#[trigger] out1.0@[i])@ == s {
        let i1 = choose|i: int| 0 <= i < out1.0@.len() && (#[trigger] out1.0@[i])@ == s;
        assert(complete_sequence(out1.0@[i1]@, alphabet_size, subset_size));
        assert(complete_sequence(s, alphabet_size, subset_size));
        assert(canonical_order(s, alphabet_size, subset_size));
    }
    if exists|i: int| 0 <= i < out2.0@.len() && (#[trigger] out2.0@[i])@ == s {
        let i2 = choose|i: int| 0 <= i < out2.0@.len() && (#[trigger] out2.0@[i])@ == s;
        assert(complete_sequence(out2.0@[i2]@, alphabet_size, subset_size));
        assert(complete_sequence(s, alphabet_size, subset_size));
        assert(canonical_order(s, alphabet_size, subset_size));
    }
}

/// A pending state that is a proper prefix of a search-tree state admits the
/// longer state's next letter: the candidate rule is the longer state's own,
/// and the slid signature is a later window of it, distinct from every
/// window seen so far.
proof fn lemma_admissible_from_reachable(nd: Node, s: Seq<u16>, alphabet_size: int, subset_size: int)
    requires
        nd.wf(subset_size),
        reachable_state(s, alphabet_size, subset_size),
        nd.sequence@.len() < s.len(),
        nd.sequence@ == s.subrange(0, nd.sequence@.len() as int),
    ensures
        nd.admissible_letter(s[nd.sequence@.len() as int], alphabet_size, subset_size),
{
    let p = nd.sequence@;
    let n = p.len() as int;
    let w = subset_size;
    let x = s[n];
    assert(crate::node::letter_rule(s.subrange(0, n), x, alphabet_size, subset_size));
    // The slid signature is the signature of the next window of `s`.
    let old_win = nd.trailing_window(w);
    crate::sig::lemma_slide_matches_recompute(old_win, x);
    assert(old_win.drop_first().push(x) =~= s.subrange(n - w + 1, n + 1)) by {
        assert(forall|j: int| 0 <= j < w - 1 ==> old_win.drop_first()[j] == p[n - w + 1 + j]);
        assert(forall|j: int|
            0 <= j < w ==> #[trigger] s.subrange(n - w + 1, n + 1)[j] == s[n - w + 1 + j]);
        assert(forall|j: int| 0 <= j < n ==> p[j] == s[j]);
    }
    assert(old_win[0] == p[n - w]);
    assert(nd.slide_sig(x, w) == window_sig(s.subrange(n - w + 1, n + 1)));
    assert(s.subrange(n - w + 1, n + 1) == s.subrange(n - w + 1, (n - w + 1) + w));
    // Every signature seen so far belongs to an earlier window of `s`, and a
    // complete sequence has no repeated window signature.
    assert forall|i: int| 0 <= i < nd.seen_labels@.len() implies nd.seen_labels@[i] != nd.slide_sig(
        x,
        w,
    ) by {
        assert(nd.seen_labels@[i] == window_sig(p.subrange(i, i + w)));
        assert(p.subrange(i, i + w) =~= s.subrange(i, i + w));
        assert(window_sig(s.subrange(i, i + w)) != window_sig(
            s.subrange(n - w + 1, (n - w + 1) + w),
        ));
    }
    assert(!nd.seen_has(nd.slide_sig(x, w)));
}

/// Every pending state of the traversal is a state of the search tree.
proof fn lemma_pending_reachable(nd: Node, alphabet_size: int, subset_size: int, max_depth: int)
    requires
        valid_config(alphabet_size, subset_size),
        max_depth == spec_binomial(alphabet_size as nat, subset_size as nat) + subset_size - 1,
        pending_ok(nd, alphabet_size, subset_size, max_depth),
    ensures
        reachable_state(nd.sequence@, alphabet_size, subset_size),
{
    crate::node::lemma_no_repeat_invariant(nd, subset_size);
}

/// A complete sequence of the discipline is a state of the search tree.
proof fn lemma_complete_reachable(s: Seq<u16>, alphabet_size: int, subset_size: int)
    requires
        valid_config(alphabet_size, subset_size),
        complete_sequence(s, alphabet_size, subset_size),
        canonical_order(s, alphabet_size, subset_size),
    ensures
        reachable_state(s, alphabet_size, subset_size),
{
    lemma_binomial_ge2(alphabet_size as nat, subset_size as nat);
}

/// A permutation of the pending stack keeps its sequences pairwise distinct.
proof fn lemma_permutation_distinct_seqs(q1: Seq<Node>, q2: Seq<Node>)
    requires
        q1.to_multiset() == q2.to_multiset(),
        forall|i: int, j: int|
            0 <= i < j < q1.len() ==> (#[trigger] q1[i]).sequence@ != (#[trigger] q1[j]).sequence@,
    ensures
        forall|i: int, j: int|
            0 <= i < j < q2.len() ==> (#[trigger] q2[i]).sequence@ != (#[trigger] q2[j]).sequence@,
{
    broadcast use vstd::seq_lib::group_to_multiset_ensures;
    broadcast use vstd::multiset::group_multiset_axioms;

    lemma_permutation_preserves(q1, q2);
    assert forall|i: int, j: int|
        0 <= i < j < q2.len() implies (#[trigger] q2[i]).sequence@ != (
    #[trigger] q2[j]).sequence@ by {
        if q2[i].sequence@ == q2[j].sequence@ {
            if q2[i] == q2[j] {
                // One node at two stack positions would have multiplicity at
                // least two, which the old stack cannot supply without a
                // repeated sequence.
                let x = q2[i];
                q1.to_multiset_ensures();
                q2.to_multiset_ensures();
                assert(q2.remove(j).to_multiset() =~= q2.to_multiset().remove(x));
                assert(q2.remove(j)[i] == x);
                assert(q2.remove(j).contains(x));
                assert(q2.to_multiset().remove(x).count(x) > 0);
                assert(q1.to_multiset().count(x) >= 2);
                assert(q1.contains(x));
                let a = choose|a: int| 0 <= a < q1.len() && q1[a] == x;
                assert(q1.remove(a).to_multiset() =~= q1.to_multiset().remove(x));
                assert(q1.remove(a).to_multiset().count(x) > 0);
                assert(q1.remove(a).contains(x));
                let b = choose|b: int| 0 <= b < q1.remove(a).len() && q1.remove(a)[b] == x;
                if b < a {
                    assert(q1[b] == x);
                    assert(q1[b].sequence@ != q1[a].sequence@);
                } else {
                    assert(q1[b + 1] == x);
                    assert(q1[a].sequence@ != q1[b + 1].sequence@);
                }
            } else {
                // Two distinct nodes with one sequence would both come from
                // the old stack, at distinct positions.
                let a = choose|a: int| 0 <= a < q1.len() && q1[a] == q2[i];
                let b = choose|b: int| 0 <= b < q1.len() && q1[b] == q2[j];
                assert(a != b);
                if a < b {
                    assert(q1[a].sequence@ != q1[b].sequence@);
                } else {
                    assert(q1[b].sequence@ != q1[a].sequence@);
                }
            }
        }
    }
}

/// The sum of a statistics histogram.
pub open spec fn seq_sum(s: Seq<u128>) -> int
    decreases s.len(),
{
    if s.len() == 0 {
        0
    } else {
        seq_sum(s.drop_last()) + s.last()
    }
}

/// Updating one histogram entry moves the sum by the difference.
proof fn lemma_seq_sum_update(s: Seq<u128>, i: int, v: u128)
    requires
        0 <= i < s.len(),
    ensures
        seq_sum(s.update(i, v)) == seq_sum(s) - s[i] + v,
    decreases s.len(),
{
    let t = s.update(i, v);
    if i == s.len() - 1 {
        assert(t.drop_last() =~= s.drop_last());
    } else {
        assert(t.drop_last() =~= s.drop_last().update(i, v));
        lemma_seq_sum_update(s.drop_last(), i, v);
        assert(t.last() == s.last());
    }
}

/// Every histogram entry is at most the sum of all entries.
proof fn lemma_seq_sum_element(s: Seq<u128>, i: int)
    requires
        0 <= i < s.len(),
    ensures
        0 <= s[i] <= seq_sum(s),
    decreases s.len(),
{
    lemma_seq_sum_nonneg(s.drop_last());
    if i < s.len() - 1 {
        lemma_seq_sum_element(s.drop_last(), i);
    }
}

/// A histogram sum is never negative.
proof fn lemma_seq_sum_nonneg(s: Seq<u128>)
    ensures
        seq_sum(s) >= 0,
    decreases s.len(),
{
    if s.len() > 0 {
        lemma_seq_sum_nonneg(s.drop_last());
    }
}

/// A fresh histogram with one zero entry per reachable depth.
fn zero_histogram(len: usize) -> (r: Vec<u128>)
    ensures
        r@.len() == len,
        forall|i: int| 0 <= i < len ==> r@[i] == 0,
        seq_sum(r@) == 0,
{
    let mut r: Vec<u128> = Vec::new();
    let mut i: usize = 0;
    while i < len
        invariant
            i <= len,
            r@.len() == i,
            forall|j: int| 0 <= j < i ==> r@[j] == 0,
            seq_sum(r@) == 0,
        decreases len - i,
    {
        let ghost pre = r@;
        r.push(0);
        proof {
            assert(r@.drop_last() =~= pre);
        }
        i = i + 1;
    }
    r
}

/// The termination potential of one pending state: `16` to the power of the
/// number of symbols it still lacks. Each expansion trades a state for at
/// most `alphabet_size <= 15` states of the next depth, so the total
/// potential of the stack strictly shrinks on every visit.
pub open spec fn node_potential(nd: Node, max_depth: int) -> int {
    if nd.sequence@.len() <= max_depth {
        vstd::arithmetic::power::pow(16, (max_depth - nd.sequence@.len()) as nat)
    } else {
        0
    }
}

/// The total termination potential of the pending stack.
pub open spec fn queue_potential(q: Seq<Node>, max_depth: int) -> int
    decreases q.len(),
{
    if q.len() == 0 {
        0
    } else {
        queue_potential(q.drop_last(), max_depth) + node_potential(q.last(), max_depth)
    }
}

/// Potentials are nonnegative, and positive for states within depth range.
proof fn lemma_node_potential_pos(nd: Node, max_depth: int)
    ensures
        node_potential(nd, max_depth) >= 0,
        nd.sequence@.len() <= max_depth ==> node_potential(nd, max_depth) >= 1,
{
    if nd.sequence@.len() <= max_depth {
        vstd::arithmetic::power::lemma_pow_positive(
            16,
            (max_depth - nd.sequence@.len()) as nat,
        );
    }
}

/// A stack's potential is never negative.
proof fn lemma_queue_potential_nonneg(q: Seq<Node>, max_depth: int)
    ensures
        queue_potential(q, max_depth) >= 0,
    decreases q.len(),
{
    if q.len() > 0 {
        lemma_queue_potential_nonneg(q.drop_last(), max_depth);
        lemma_node_potential_pos(q.last(), max_depth);
    }
}

/// Removing one state takes exactly its potential out of the total.
proof fn lemma_queue_potential_remove(q: Seq<Node>, max_depth: int, i: int)
    requires
        0 <= i < q.len(),
    ensures
        queue_potential(q, max_depth) == queue_potential(q.remove(i), max_depth)
            + node_potential(q[i], max_depth),
    decreases q.len(),
{
    if i == q.len() - 1 {
        assert(q.remove(i) =~= q.drop_last());
    } else {
        assert(q.remove(i).drop_last() =~= q.drop_last().remove(i));
        lemma_queue_potential_remove(q.drop_last(), max_depth, i);
        assert(q.remove(i).last() == q.last());
    }
}

/// Appending states whose potentials all equal `p` adds `count * p`.
proof fn lemma_queue_potential_extend(q0: Seq<Node>, q1: Seq<Node>, max_depth: int, p: int)
    requires
        q0.len() <= q1.len(),
        q1.subrange(0, q0.len() as int) == q0,
        forall|i: int|
            q0.len() <= i < q1.len() ==> node_potential(#[trigger] q1[i], max_depth) == p,
    ensures
        queue_potential(q1, max_depth) == queue_potential(q0, max_depth) + (q1.len() - q0.len())
            * p,
    decreases q1.len(),
{
    if q1.len() == q0.len() {
        assert(q1 =~= q0);
    } else {
        let q2 = q1.drop_last();
        assert(q2.subrange(0, q0.len() as int) =~= q0) by {
            assert(forall|i: int|
                0 <= i < q0.len() ==> q2.subrange(0, q0.len() as int)[i] == q1[i]);
        }
        assert forall|i: int| q0.len() <= i < q2.len() implies node_potential(
            #[trigger] q2[i],
            max_depth,
        ) == p by {
            assert(q2[i] == q1[i]);
        }
        lemma_queue_potential_extend(q0, q2, max_depth, p);
        assert(q1[q1.len() - 1] == q1.last());
        assert(node_potential(q1.last(), max_depth) == p);
        let a = q1.len() - q0.len();
        assert(a * p == (a - 1) * p + p) by (nonlinear_arith);
    }
}

/// Two stacks holding the same states in any order have equal potential.
proof fn lemma_queue_potential_permutation(q1: Seq<Node>, q2: Seq<Node>, max_depth: int)
    requires
        q1.to_multiset() == q2.to_multiset(),
    ensures
        queue_potential(q1, max_depth) == queue_potential(q2, max_depth),
    decreases q1.len(),
{
    broadcast use vstd::seq_lib::group_to_multiset_ensures;

    q1.to_multiset_ensures();
    q2.to_multiset_ensures();
    if q1.len() == 0 {
        assert(q2.len() == 0);
    } else {
        let x = q1.last();
        assert(q1.contains(x));
        assert(q2.to_multiset().count(x) > 0);
        assert(q2.contains(x));
        let j = choose|j: int| 0 <= j < q2.len() && q2[j] == x;
        assert(q1.drop_last() =~= q1.remove(q1.len() - 1));
        assert(q1.remove(q1.len() - 1).to_multiset() =~= q1.to_multiset().remove(x));
        assert(q2.remove(j).to_multiset() =~= q2.to_multiset().remove(x));
        lemma_queue_potential_permutation(q1.drop_last(), q2.remove(j), max_depth);
        lemma_queue_potential_remove(q2, max_depth, j);
    }
}

/// A permutation keeps the length and draws every state from the original.
proof fn lemma_permutation_preserves(q1: Seq<Node>, q2: Seq<Node>)
    requires
        q1.to_multiset() == q2.to_multiset(),
    ensures
        q1.len() == q2.len(),
        forall|i: int| 0 <= i < q2.len() ==> q1.contains(#[trigger] q2[i]),
{
    broadcast use vstd::seq_lib::group_to_multiset_ensures;

    q1.to_multiset_ensures();
    q2.to_multiset_ensures();
    assert forall|i: int| 0 <= i < q2.len() implies q1.contains(#[trigger] q2[i]) by {
        assert(q2.contains(q2[i]));
        assert(q2.to_multiset().count(q2[i]) > 0);
    }
}

/// Everything the traversal re-establishes when the popped state is a
/// finished sequence: the popped state is complete, the recorded list stays
/// duplicate-free and mirrors the visited full-length states, and every
/// search-tree state keeps a recorded or pending witness.
proof fn lemma_terminal_step(
    current_node: Node,
    q_head: Seq<Node>,
    visited_head: Set<Seq<u16>>,
    vs_head: Seq<Vec<u16>>,
    vs1: Seq<Vec<u16>>,
    finished: Vec<u16>,
    ai: int,
    wi: int,
    md: int,
)
    requires
        valid_config(ai, wi),
        md == spec_binomial(ai as nat, wi as nat) + wi - 1,
        q_head.len() >= 1,
        q_head[q_head.len() - 1] == current_node,
        forall|i: int| 0 <= i < q_head.len() ==> pending_ok(#[trigger] q_head[i], ai, wi, md),
        forall|i: int, j: int|
            0 <= i < j < q_head.len() ==> (#[trigger] q_head[i]).sequence@ != (
            #[trigger] q_head[j]).sequence@,
        forall|i: int|
            0 <= i < q_head.len() ==> !visited_head.contains((#[trigger] q_head[i]).sequence@),
        forall|i: int| 0 <= i < vs_head.len() ==> visited_head.contains((#[trigger] vs_head[i])@),
        forall|i: int, j: int|
            0 <= i < j < vs_head.len() ==> (#[trigger] vs_head[i])@ != (#[trigger] vs_head[j])@,
        forall|s: Seq<u16>|
            #[trigger] visited_head.contains(s) && s.len() == md ==> exists|i: int|
                0 <= i < vs_head.len() && (#[trigger] vs_head[i])@ == s,
        forall|s: Seq<u16>|
            #[trigger] reachable_state(s, ai, wi) ==> visited_head.contains(s) || exists|i: int|
                0 <= i < q_head.len() && (#[trigger] q_head[i]).sequence@.len() <= s.len() && (
                q_head[i]).sequence@ == s.subrange(0, q_head[i].sequence@.len() as int),
        current_node.sequence@.len() == md,
        finished@ == current_node.sequence@,
        vs1 == vs_head.push(finished),
    ensures
        complete_sequence(current_node.sequence@, ai, wi),
        forall|i: int|
            0 <= i < vs1.len() ==> visited_head.insert(current_node.sequence@).contains(
                (#[trigger] vs1[i])@,
            ),
        forall|i: int, j: int|
            0 <= i < j < vs1.len() ==> (#[trigger] vs1[i])@ != (#[trigger] vs1[j])@,
        forall|s: Seq<u16>|
            #[trigger] visited_head.insert(current_node.sequence@).contains(s) && s.len() == md
                ==> exists|i: int| 0 <= i < vs1.len() && (#[trigger] vs1[i])@ == s,
        forall|s: Seq<u16>|
            #[trigger] reachable_state(s, ai, wi) ==> visited_head.insert(
                current_node.sequence@,
            ).contains(s) || exists|i: int|
                0 <= i < q_head.drop_last().len() && (
                #[trigger] q_head.drop_last()[i]).sequence@.len() <= s.len() && (
                q_head.drop_last()[i]).sequence@ == s.subrange(
                    0,
                    q_head.drop_last()[i].sequence@.len() as int,
                ),
{
    let visited = visited_head.insert(current_node.sequence@);
    let qa = q_head.drop_last();
    crate::node::lemma_no_repeat_invariant(current_node, wi);
    assert(pending_ok(current_node, ai, wi, md));
    assert(complete_sequence(current_node.sequence@, ai, wi));
    assert(vs1[vs_head.len() as int]@ == current_node.sequence@);
    // The new entry differs from every earlier one: those were visited
    // before this state was.
    assert forall|i: int, j: int| 0 <= i < j < vs1.len() implies (#[trigger] vs1[i])@ != (
    #[trigger] vs1[j])@ by {
        if j == vs_head.len() {
            assert(visited_head.contains(vs_head[i]@));
        } else {
            assert(vs1[i] == vs_head[i]);
            assert(vs1[j] == vs_head[j]);
        }
    }
    // Every visited full-length state is recorded.
    assert forall|s: Seq<u16>| #[trigger] visited.contains(s) && s.len() == md implies exists|
        i: int,
    | 0 <= i < vs1.len() && (#[trigger] vs1[i])@ == s by {
        if s == current_node.sequence@ {
            assert(vs1[vs_head.len() as int]@ == s);
        } else {
            let i0 = choose|i: int| 0 <= i < vs_head.len() && (#[trigger] vs_head[i])@ == s;
            assert(vs1[i0] == vs_head[i0]);
        }
    }
    // Coverage: a state whose pending witness was the popped one is the
    // popped state itself, now visited.
    assert forall|s: Seq<u16>| #[trigger] reachable_state(s, ai, wi) implies visited.contains(s)
        || exists|i: int|
        0 <= i < qa.len() && (#[trigger] qa[i]).sequence@.len() <= s.len() && (qa[i]).sequence@
            == s.subrange(0, qa[i].sequence@.len() as int) by {
        if !visited_head.contains(s) {
            let j = choose|j: int|
                0 <= j < q_head.len() && (#[trigger] q_head[j]).sequence@.len() <= s.len() && (
                q_head[j]).sequence@ == s.subrange(0, q_head[j].sequence@.len() as int);
            if j < q_head.len() - 1 {
                assert(qa[j] == q_head[j]);
            } else {
                assert(current_node.sequence@ =~= s);
            }
        }
    }
}

/// Everything the traversal re-establishes when the popped state is
/// expanded: the pushed children are well-formed fresh states over the same
/// alphabet, the stack sequences stay pairwise distinct, the stack's total
/// potential shrinks, and every search-tree state keeps a recorded or
/// pending witness.
#[verifier::rlimit(100)]
proof fn lemma_expand_step(
    current_node: Node,
    q_head: Seq<Node>,
    q1: Seq<Node>,
    visited_head: Set<Seq<u16>>,
    ai: int,
    wi: int,
    md: int,
)
    requires
        valid_config(ai, wi),
        md == spec_binomial(ai as nat, wi as nat) + wi - 1,
        q_head.len() >= 1,
        q_head[q_head.len() - 1] == current_node,
        forall|i: int| 0 <= i < q_head.len() ==> pending_ok(#[trigger] q_head[i], ai, wi, md),
        forall|i: int, j: int|
            0 <= i < j < q_head.len() ==> (#[trigger] q_head[i]).sequence@ != (
            #[trigger] q_head[j]).sequence@,
        forall|i: int|
            0 <= i < q_head.len() ==> !visited_head.contains((#[trigger] q_head[i]).sequence@),
        forall|i: int|
            0 <= i < q_head.len() && (#[trigger] q_head[i]).sequence@.len() >= wi + 2
                ==> visited_head.contains(q_head[i].sequence@.drop_last()),
        forall|s: Seq<u16>|
            #[trigger] visited_head.contains(s) && s.len() >= wi + 2 ==> visited_head.contains(
                s.drop_last(),
            ),
        forall|s: Seq<u16>|
            #[trigger] reachable_state(s, ai, wi) ==> visited_head.contains(s) || exists|i: int|
                0 <= i < q_head.len() && (#[trigger] q_head[i]).sequence@.len() <= s.len() && (
                q_head[i]).sequence@ == s.subrange(0, q_head[i].sequence@.len() as int),
        current_node.sequence@.len() < md,
        q_head.len() - 1 <= q1.len() <= q_head.len() - 1 + ai,
        q1.subrange(0, q_head.len() - 1) == q_head.drop_last(),
        forall|i: int|
            q_head.len() - 1 <= i < q1.len() ==> is_generated_child(
                #[trigger] q1[i],
                current_node,
                ai,
                wi,
            ),
        forall|i: int, j: int|
            q_head.len() - 1 <= i < j < q1.len() ==> (#[trigger] q1[i]).sequence@.last() < (
            #[trigger] q1[j]).sequence@.last(),
        forall|x: u16|
            #[trigger] current_node.admissible_letter(x, ai, wi) ==> exists|i: int|
                q_head.len() - 1 <= i < q1.len() && (#[trigger] q1[i]).sequence@.last() == x,
    ensures
        forall|i: int| 0 <= i < q1.len() ==> pending_ok(#[trigger] q1[i], ai, wi, md),
        queue_potential(q1, md) < queue_potential(q_head, md),
        forall|i: int|
            0 <= i < q1.len() ==> !visited_head.insert(current_node.sequence@).contains(
                (#[trigger] q1[i]).sequence@,
            ),
        forall|i: int, j: int|
            0 <= i < j < q1.len() ==> (#[trigger] q1[i]).sequence@ != (
            #[trigger] q1[j]).sequence@,
        forall|i: int|
            0 <= i < q1.len() && (#[trigger] q1[i]).sequence@.len() >= wi + 2
                ==> visited_head.insert(current_node.sequence@).contains(
                q1[i].sequence@.drop_last(),
            ),
        forall|s: Seq<u16>|
            #[trigger] reachable_state(s, ai, wi) ==> visited_head.insert(
                current_node.sequence@,
            ).contains(s) || exists|i: int|
                0 <= i < q1.len() && (#[trigger] q1[i]).sequence@.len() <= s.len() && (
                q1[i]).sequence@ == s.subrange(0, q1[i].sequence@.len() as int),
{
    let visited = visited_head.insert(current_node.sequence@);
    let qa = q_head.drop_last();
    let current_depth = current_node.sequence@.len() as int;
    assert(pending_ok(current_node, ai, wi, md));
    assert forall|i: int| 0 <= i < qa.len() implies #[trigger] q1[i] == q_head[i] by {
        assert(q1.subrange(0, q_head.len() - 1)[i] == q1[i]);
        assert(qa[i] == q_head[i]);
    }
    let rem = md - current_depth;
    let p_child = vstd::arithmetic::power::pow(16, (rem - 1) as nat);
    assert forall|i: int| qa.len() <= i < q1.len() implies node_potential(#[trigger] q1[i], md)
        == p_child by {
        assert(is_generated_child(q1[i], current_node, ai, wi));
    }
    assert forall|i: int| 0 <= i < q1.len() implies pending_ok(#[trigger] q1[i], ai, wi, md) by {
        if i < qa.len() {
            assert(q1[i] == q_head[i]);
        } else {
            assert(is_generated_child(q1[i], current_node, ai, wi));
            let cp = q1[i].sequence@;
            let pp = current_node.sequence@;
            assert(forall|j: int| 0 <= j < pp.len() ==> cp[j] == pp[j]);
            // The child still follows the candidate discipline: earlier
            // steps are the parent's, the last step is the admissible
            // letter just chosen.
            assert forall|l: int|
                wi + 1 <= l < cp.len() implies crate::node::letter_rule(
                #[trigger] cp.subrange(0, l),
                cp[l],
                ai,
                wi,
            ) by {
                if l < cp.len() - 1 {
                    assert(cp.subrange(0, l) =~= pp.subrange(0, l));
                    assert(cp[l] == pp[l]);
                } else {
                    assert(cp.subrange(0, l) =~= pp);
                    assert(cp[l] == cp.last());
                    assert(current_node.admissible_letter(cp.last(), ai, wi));
                }
            }
            assert(canonical_order(cp, ai, wi));
        }
    }
    // The stack's total potential shrinks: the popped state's potential
    // outweighs its at most `alphabet_size` children of the next depth.
    assert(queue_potential(q_head, md) == queue_potential(qa, md) + node_potential(
        current_node,
        md,
    )) by {
        assert(q_head.last() == current_node);
    }
    lemma_queue_potential_extend(qa, q1, md, p_child);
    vstd::arithmetic::power::lemma_pow_positive(16, (rem - 1) as nat);
    let cnt = q1.len() - qa.len();
    assert(node_potential(current_node, md) == 16 * p_child) by {
        vstd::arithmetic::power::lemma_pow1(16);
        vstd::arithmetic::power::lemma_pow_adds(16, 1, (rem - 1) as nat);
    }
    assert(cnt * p_child <= 15 * p_child) by (nonlinear_arith)
        requires
            cnt <= 15,
            p_child >= 1,
    ;
    assert(queue_potential(q1, md) < queue_potential(q_head, md));
    // Every pushed child is a fresh state: a child seen before would, by the
    // closure, mean its parent - the state taken off the stack only now -
    // had been visited already.
    assert forall|i: int|
        qa.len() <= i < q1.len() implies !visited.contains((#[trigger] q1[i]).sequence@) && q1[i].sequence@.drop_last()
        =~= current_node.sequence@ by {
        assert(is_generated_child(q1[i], current_node, ai, wi));
        let cs = q1[i].sequence@;
        assert(cs =~= current_node.sequence@.push(cs.last()));
        assert(cs.drop_last() =~= current_node.sequence@);
        if visited.contains(cs) {
            assert(cs.len() >= wi + 2);
            assert(visited_head.contains(cs));
            assert(visited_head.contains(cs.drop_last()));
            assert(!visited_head.contains(q_head[q_head.len() - 1].sequence@));
            assert(false);
        }
    }
    assert forall|i: int| 0 <= i < q1.len() implies !visited.contains(
        (#[trigger] q1[i]).sequence@,
    ) by {
        if i < qa.len() {
            assert(q1[i] == q_head[i]);
            assert(q_head[i].sequence@ != q_head[q_head.len() - 1].sequence@);
        }
    }
    // Stack sequences stay pairwise distinct: old entries have visited
    // parents, the new entries share the just-visited one, and among the new
    // entries the chosen letters strictly grow.
    assert forall|i: int, j: int| 0 <= i < j < q1.len() implies (#[trigger] q1[i]).sequence@ != (
    #[trigger] q1[j]).sequence@ by {
        if j < qa.len() {
            assert(q1[i] == q_head[i] && q1[j] == q_head[j]);
        } else if i < qa.len() {
            if q1[i].sequence@ == q1[j].sequence@ {
                assert(q1[i] == q_head[i]);
                assert(q1[j].sequence@.drop_last() =~= current_node.sequence@);
                assert(q1[i].sequence@.len() >= wi + 2);
                assert(visited_head.contains(q_head[i].sequence@.drop_last()));
                assert(visited_head.contains(current_node.sequence@));
                assert(!visited_head.contains(q_head[q_head.len() - 1].sequence@));
                assert(false);
            }
        } else {
            assert(q1[i].sequence@.last() < q1[j].sequence@.last());
        }
    }
    // New entries carry the newly visited parent.
    assert forall|i: int|
        0 <= i < q1.len() && (#[trigger] q1[i]).sequence@.len() >= wi + 2 implies visited.contains(
        q1[i].sequence@.drop_last(),
    ) by {
        if i < qa.len() {
            assert(q1[i] == q_head[i]);
            assert(visited_head.contains(q_head[i].sequence@.drop_last()));
        } else {
            assert(q1[i].sequence@.drop_last() =~= current_node.sequence@);
        }
    }
    // Coverage: a state whose pending witness was the popped one is the
    // popped state itself or sits below the child made by its next letter.
    assert forall|s: Seq<u16>| #[trigger] reachable_state(s, ai, wi) implies visited.contains(s)
        || exists|i: int|
        0 <= i < q1.len() && (#[trigger] q1[i]).sequence@.len() <= s.len() && (q1[i]).sequence@
            == s.subrange(0, q1[i].sequence@.len() as int) by {
        if !visited_head.contains(s) {
            let j = choose|j: int|
                0 <= j < q_head.len() && (#[trigger] q_head[j]).sequence@.len() <= s.len() && (
                q_head[j]).sequence@ == s.subrange(0, q_head[j].sequence@.len() as int);
            if j < q_head.len() - 1 {
                assert(q1[j] == q_head[j]);
            } else {
                let n_cur = current_node.sequence@.len() as int;
                if n_cur == s.len() {
                    assert(current_node.sequence@ =~= s);
                } else {
                    let x = s[n_cur];
                    lemma_admissible_from_reachable(current_node, s, ai, wi);
                    let ci = choose|i: int|
                        qa.len() <= i < q1.len() && (#[trigger] q1[i]).sequence@.last() == x;
                    assert(is_generated_child(q1[ci], current_node, ai, wi));
                    assert(q1[ci].sequence@ =~= s.subrange(0, n_cur + 1)) by {
                        assert(q1[ci].sequence@ == current_node.sequence@.push(x));
                        assert(forall|k2: int|
                            0 <= k2 < n_cur ==> current_node.sequence@[k2] == s[k2]);
                    }
                    assert(q1[ci].sequence@ == s.subrange(0, q1[ci].sequence@.len() as int));
                }
            }
        }
    }
}

/// Explores the search tree below `root` depth first. Every state of the
/// tree is visited exactly once, so the returned report is pinned: the
/// sequence list holds exactly the complete, discipline-shaped sequences,
/// each once; histogram entry `d` counts the tree's states of sequence
/// length `d + 1`; and the total is the number of the tree's states. With
/// the shuffle heuristic off the traversal is fully deterministic; switching
/// it on only reorders the pending stack, never the set of states it visits.
/// The only failure is a visit counter reaching its width limit, which can
/// happen only when the tree itself holds more states than the counter can
/// tell apart.
#[verifier::rlimit(100)]
pub fn generate_tree(
    root: Node,
    alphabet_size: usize,
    subset_size: usize,
    shuffle_enabled: bool,
) -> (r: Result<(Vec<Vec<u16>>, Vec<u128>, u128), SearchError>)
    requires
        valid_config(alphabet_size as int, subset_size as int),
        root.wf(subset_size as int),
        root.alpha_ok(alphabet_size as int),
        root.sequence@.len() == subset_size + 1,
        forall|i: int|
            0 <= i <= subset_size ==> root.sequence@[i] == symbol_value(i as nat),
    ensures
        r matches Err(e) ==> e == SearchError::CounterOverflow && (reachable_set(
            alphabet_size as int,
            subset_size as int,
        ).finite() ==> reachable_set(alphabet_size as int, subset_size as int).len()
            > u128::MAX),
        r matches Ok(out) ==> search_report_ok(out, alphabet_size as int, subset_size as int),
{
    let ghost ai = alphabet_size as int;
    let ghost wi = subset_size as int;
    let mut valid_sequences: Vec<Vec<u16>> = Vec::new();
    let mut queue: Vec<Node> = Vec::new();
    let max_depth = max_sequence_length(alphabet_size, subset_size);
    let ghost md = max_depth as int;
    let mut num_iterations: u128 = 0;
    let mut depth_map: Vec<u128> = zero_histogram(max_depth);
    let mut found_sequence = false;
    let ghost mut visited = Set::<Seq<u16>>::empty();
    queue.push(root);
    proof {
        assert(queue@.drop_last() =~= Seq::<Node>::empty());
        lemma_node_potential_pos(root, md);
        // Nothing is visited yet, and every state of the tree sits below the
        // root, whose sequence is the state's own first prefix.
        assert forall|s: Seq<u16>| #[trigger] reachable_state(s, ai, wi) implies
            visited.contains(s) || exists|i: int|
                0 <= i < queue@.len() && (#[trigger] queue@[i]).sequence@.len() <= s.len() && (
                queue@[i]).sequence@ == s.subrange(0, queue@[i].sequence@.len() as int) by {
            assert(queue@[0] == root);
            assert(root.sequence@ =~= s.subrange(0, wi + 1));
        }
        assert forall|d: int| 0 <= d < depth_map@.len() implies #[trigger] depth_map@[d]
            == with_length(visited, d + 1).len() by {
            assert(with_length(visited, d + 1) =~= Set::<Seq<u16>>::empty());
        }
    }
    while queue.len() > 0
        invariant
            valid_config(ai, wi),
            ai == alphabet_size as int,
            wi == subset_size as int,
            md == max_depth as int,
            md == spec_binomial(alphabet_size as nat, subset_size as nat) + wi - 1,
            subset_size + 1 <= max_depth <= 32768 + 14,
            forall|i: int| 0 <= i < queue@.len() ==> pending_ok(#[trigger] queue@[i], ai, wi, md),
            forall|i: int|
                0 <= i < valid_sequences@.len() ==> complete_sequence(
                    (#[trigger] valid_sequences@[i])@,
                    ai,
                    wi,
                ) && canonical_order((#[trigger] valid_sequences@[i])@, ai, wi),
            forall|i: int|
                0 <= i < valid_sequences@.len() ==> visited.contains(
                    (#[trigger] valid_sequences@[i])@,
                ),
            forall|i: int, j: int|
                0 <= i < j < valid_sequences@.len() ==> (#[trigger] valid_sequences@[i])@ != (
                #[trigger] valid_sequences@[j])@,
            visited.finite(),
            visited.len() == num_iterations,
            forall|s: Seq<u16>| #[trigger] visited.contains(s) ==> reachable_state(s, ai, wi),
            forall|s: Seq<u16>|
                #[trigger] visited.contains(s) && s.len() >= wi + 2 ==> visited.contains(
                    s.drop_last(),
                ),
            forall|s: Seq<u16>|
                #[trigger] visited.contains(s) && s.len() == md ==> exists|i: int|
                    0 <= i < valid_sequences@.len() && (#[trigger] valid_sequences@[i])@ == s,
            forall|i: int|
                0 <= i < queue@.len() ==> !visited.contains((#[trigger] queue@[i]).sequence@),
            forall|i: int, j: int|
                0 <= i < j < queue@.len() ==> (#[trigger] queue@[i]).sequence@ != (
                #[trigger] queue@[j]).sequence@,
            forall|i: int|
                0 <= i < queue@.len() && (#[trigger] queue@[i]).sequence@.len() >= wi + 2
                    ==> visited.contains(queue@[i].sequence@.drop_last()),
            forall|s: Seq<u16>|
                #[trigger] reachable_state(s, ai, wi) ==> visited.contains(s) || exists|i: int|
                    0 <= i < queue@.len() && (#[trigger] queue@[i]).sequence@.len() <= s.len() && (
                    queue@[i]).sequence@ == s.subrange(0, queue@[i].sequence@.len() as int),
            depth_map@.len() == md,
            num_iterations == seq_sum(depth_map@),
            forall|d: int| 0 <= d < depth_map@.len() ==> #[trigger] depth_map@[d] <= num_iterations,
            forall|d: int|
                0 <= d < depth_map@.len() ==> #[trigger] depth_map@[d] == with_length(
                    visited,
                    d + 1,
                ).len(),
            num_iterations + queue@.len() >= 1,
        decreases queue_potential(queue@, md),
    {
        if num_iterations == u128::MAX {
            proof {
                // The traversal has already visited u128::MAX distinct states
                // and at least one more is pending, so the tree cannot fit
                // the counter.
                let extra = queue@[0].sequence@;
                lemma_pending_reachable(queue@[0], ai, wi, md);
                let big = visited.insert(extra);
                assert(big.len() == visited.len() + 1);
                if reachable_set(ai, wi).finite() {
                    assert forall|s: Seq<u16>| big.contains(s) implies reachable_set(
                        ai,
                        wi,
                    ).contains(s) by {
                        assert(reachable_state(s, ai, wi));
                    }
                    vstd::set_lib::lemma_len_subset(big, reachable_set(ai, wi));
                }
            }
            return Err(SearchError::CounterOverflow);
        }
        let ghost q_head = queue@;
        let ghost vs_head = valid_sequences@;
        let ghost visited_head = visited;
        let popped = queue.pop();
        let current_node = match popped {
            Some(nd) => nd,
            None => {
                proof {
                    assert(false);
                }
                return Err(SearchError::CounterOverflow);
            },
        };
        proof {
            assert(q_head =~= queue@.push(current_node));
            assert(queue@.push(current_node).drop_last() =~= queue@);
            assert(pending_ok(current_node, ai, wi, md));
            lemma_queue_potential_nonneg(queue@, md);
            lemma_node_potential_pos(current_node, md);
            lemma_pending_reachable(current_node, ai, wi, md);
            // The popped state becomes visited; being on the stack, it was
            // not visited before.
            assert(q_head[q_head.len() - 1] == current_node);
            assert(queue_potential(q_head, md) == queue_potential(queue@, md) + node_potential(
                current_node,
                md,
            )) by {
                assert(q_head.last() == current_node);
                assert(q_head.drop_last() =~= queue@);
            }
            assert(!visited.contains(current_node.sequence@));
            visited = visited.insert(current_node.sequence@);
            assert(visited.len() == visited_head.len() + 1);
            // The closure survives: the new member's parent was visited when
            // the member was pushed.
            assert forall|s: Seq<u16>|
                #[trigger] visited.contains(s) && s.len() >= wi + 2 implies visited.contains(
                s.drop_last(),
            ) by {
                if s != current_node.sequence@ {
                    assert(visited_head.contains(s));
                }
            }
            // The remaining stack still holds only unvisited states.
            assert forall|i: int|
                0 <= i < queue@.len() implies !visited.contains(
                (#[trigger] queue@[i]).sequence@,
            ) by {
                assert(queue@[i] == q_head[i]);
                assert(q_head[i].sequence@ != q_head[q_head.len() - 1].sequence@);
            }
        }
        let ghost q_after_pop = queue@;
        let current_depth = current_node.sequence.len();
        if current_depth == max_depth {
            let finished = clone_u16_vec(&current_node.sequence);
            valid_sequences.push(finished);
            found_sequence = true;
            proof {
                assert(queue@ =~= q_head.drop_last());
                lemma_terminal_step(
                    current_node,
                    q_head,
                    visited_head,
                    vs_head,
                    valid_sequences@,
                    finished,
                    ai,
                    wi,
                    md,
                );
            }
        } else {
            current_node.generate_children(alphabet_size, subset_size, &mut queue);
            proof {
                assert(q_after_pop =~= q_head.drop_last());
                lemma_expand_step(current_node, q_head, queue@, visited_head, ai, wi, md);
            }
        }
        proof {
            assert(current_depth >= subset_size + 1 >= 2);
            lemma_seq_sum_element(depth_map@, current_depth - 1);
        }
        let d = current_depth - 1;
        let ghost dm_pre = depth_map@;
        let old_count = depth_map[d];
        depth_map[d] = old_count + 1;
        num_iterations = num_iterations + 1;
        proof {
            assert(depth_map@ == dm_pre.update(d as int, (old_count + 1) as u128));
            lemma_seq_sum_update(dm_pre, d as int, (old_count + 1) as u128);
            assert forall|d2: int| 0 <= d2 < depth_map@.len() implies #[trigger] depth_map@[d2]
                <= num_iterations by {
                if d2 != d {
                    assert(depth_map@[d2] == dm_pre[d2]);
                }
            }
            // One state of length `current_depth` moved into its bucket; the
            // other buckets are untouched.
            assert forall|d2: int| 0 <= d2 < depth_map@.len() implies #[trigger] depth_map@[d2]
                == with_length(visited, d2 + 1).len() by {
                lemma_with_length_insert(visited_head, current_node.sequence@, d2 + 1);
                if d2 != d {
                    assert(depth_map@[d2] == dm_pre[d2]);
                }
            }
        }
        if shuffle_enabled && num_iterations % 10000000 == 0 {
            if !found_sequence && queue.len() < 10000000 {
                let ghost q_pre_shuffle = queue@;
                shuffle_pending(&mut queue);
                proof {
                    lemma_permutation_preserves(q_pre_shuffle, queue@);
                    lemma_queue_potential_permutation(q_pre_shuffle, queue@, md);
                    lemma_permutation_distinct_seqs(q_pre_shuffle, queue@);
                    assert forall|i: int|
                        0 <= i < queue@.len() implies pending_ok(
                        #[trigger] queue@[i],
                        ai,
                        wi,
                        md,
                    ) && !visited.contains(queue@[i].sequence@) && (queue@[i].sequence@.len() >= wi
                        + 2 ==> visited.contains(queue@[i].sequence@.drop_last())) by {
                        let j = choose|j: int|
                            0 <= j < q_pre_shuffle.len() && q_pre_shuffle[j] == queue@[i];
                        assert(pending_ok(q_pre_shuffle[j], ai, wi, md));
                        assert(!visited.contains(q_pre_shuffle[j].sequence@));
                    }
                    // Coverage survives a permutation: every pending witness
                    // is still somewhere on the stack.
                    lemma_permutation_preserves(queue@, q_pre_shuffle);
                    assert forall|s: Seq<u16>| #[trigger] reachable_state(s, ai, wi) implies
                        visited.contains(s) || exists|i: int|
                            0 <= i < queue@.len() && (#[trigger] queue@[i]).sequence@.len()
                                <= s.len() && (queue@[i]).sequence@ == s.subrange(
                                0,
                                queue@[i].sequence@.len() as int,
                            ) by {
                        if !visited.contains(s) {
                            let j = choose|j: int|
                                0 <= j < q_pre_shuffle.len() && (
                                #[trigger] q_pre_shuffle[j]).sequence@.len() <= s.len() && (
                                q_pre_shuffle[j]).sequence@ == s.subrange(
                                    0,
                                    q_pre_shuffle[j].sequence@.len() as int,
                                );
                            assert(queue@.contains(q_pre_shuffle[j]));
                            let i2 = choose|i2: int|
                                0 <= i2 < queue@.len() && queue@[i2] == q_pre_shuffle[j];
                            assert(queue@[i2].sequence@ == s.subrange(
                                0,
                                queue@[i2].sequence@.len() as int,
                            ));
                        }
                    }
                }
            }
            found_sequence = false;
        }
        proof {
            // The stack's total potential shrank this iteration, whichever
            // branch ran and whether or not the stack was shuffled.
            lemma_queue_potential_nonneg(queue@, md);
            assert(queue_potential(queue@, md) < queue_potential(q_head, md));
        }
    }
    let ghost vs_final = valid_sequences@;
    let result = (valid_sequences, depth_map, num_iterations);
    proof {
        assert(result.0@ == vs_final);
        // The stack is empty, so the visited set is exactly the search tree.
        assert forall|s: Seq<u16>| #[trigger] reachable_set(ai, wi).contains(s) implies
            visited.contains(s) by {
            assert(reachable_state(s, ai, wi));
        }
        assert forall|s: Seq<u16>| #[trigger] visited.contains(s) implies reachable_set(
            ai,
            wi,
        ).contains(s) by {
            assert(reachable_state(s, ai, wi));
        }
        assert(reachable_set(ai, wi) =~= visited);
        // Every complete, discipline-shaped sequence was visited at full
        // length, hence recorded.
        assert forall|s: Seq<u16>|
            #[trigger] complete_sequence(s, ai, wi) && canonical_order(s, ai, wi) implies exists|
            i: int,
        | 0 <= i < result.0@.len() && (#[trigger] result.0@[i])@ == s by {
            lemma_complete_reachable(s, ai, wi);
            assert(reachable_set(ai, wi).contains(s));
            assert(visited.contains(s));
            assert(s.len() == md);
            let i0 = choose|i: int| 0 <= i < vs_final.len() && (#[trigger] vs_final[i])@ == s;
            assert(0 <= i0 < result.0@.len() && result.0@[i0]@ == s);
        }
        // The histogram buckets count the tree's states by length, and the
        // buckets below the window size are empty.
        assert forall|d: int| 0 <= d < result.1@.len() implies #[trigger] result.1@[d]
            == with_length(reachable_set(ai, wi), d + 1).len() by {
            assert(with_length(reachable_set(ai, wi), d + 1) =~= with_length(visited, d + 1));
        }
        assert forall|d: int| 0 <= d < wi implies #[trigger] result.1@[d] == 0 by {
            assert forall|s: Seq<u16>| #[trigger] with_length(visited, d + 1).contains(s)
                implies false by {
                assert(visited.contains(s));
                assert(reachable_state(s, ai, wi));
            }
            assert(with_length(visited, d + 1) =~= Set::<Seq<u16>>::empty());
        }
        assert(search_report_ok(result, ai, wi));
    }
    Ok(result)
}


/// Validates the configuration, builds the canonical root state, and runs
/// the depth-first search. An invalid `(alphabet_size, subset_size)` pair is
/// rejected before any state is visited, and exactly then.
pub fn run(
    alphabet_size: usize,
    subset_size: usize,
    shuffle_enabled: bool,
) -> (r: Result<(Vec<Vec<u16>>, Vec<u128>, u128), SearchError>)
    ensures
        (r matches Err(e) && e == SearchError::InvalidConfig) <==> !valid_config(
            alphabet_size as int,
            subset_size as int,
        ),
        r matches Err(e) && e == SearchError::CounterOverflow ==> (reachable_set(
            alphabet_size as int,
            subset_size as int,
        ).finite() ==> reachable_set(alphabet_size as int, subset_size as int).len()
            > u128::MAX),
        r matches Ok(out) ==> search_report_ok(out, alphabet_size as int, subset_size as int),
{
    if subset_size < 1 || alphabet_size <= subset_size || alphabet_size > MAX_ALPHABET {
        return Err(SearchError::InvalidConfig);
    }
    let root = crate::node::generate_root(subset_size);
    generate_tree(root, alphabet_size, subset_size, shuffle_enabled)
}

} // verus!
