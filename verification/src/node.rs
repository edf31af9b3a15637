//! Search states. A `Node` is one node of the search tree: the sequence of
//! symbols chosen so far, the signature of its trailing window, and the set
//! of window signatures the sequence has produced. States are never mutated:
//! a child state owns fresh copies of its parent's data.

use vstd::prelude::*;

use crate::is_powval;
use crate::sig::all_symbols_below;
use crate::sig::range_signature;
use crate::sig::window_sig;
use crate::symbol_value;
use crate::valid_config;
use crate::MAX_ALPHABET;

verus! {

/// One node of the search tree. Nodes are only created when they are valid:
/// a candidate child whose window signature was already seen is rejected
/// before instantiation.
pub struct Node {
    /// Signature of the trailing window of `sequence`.
    pub label: u16,
    /// The symbols chosen so far, oldest first, as stored bit values.
    pub sequence: Vec<u16>,
    /// The signatures of all windows of `sequence`, oldest window first.
    /// Contains the node's own `label` as its last entry.
    pub seen_labels: Vec<u16>,
}

/// The largest element of a sequence of stored symbol values.
pub open spec fn seq_max(s: Seq<u16>) -> u16
    decreases s.len(),
{
    if s.len() == 0 {
        0u16
    } else if s.len() == 1 {
        s[0]
    } else if s.last() > seq_max(s.drop_last()) {
        s.last()
    } else {
        seq_max(s.drop_last())
    }
}

/// The maximum is a member and dominates every element.
pub proof fn lemma_seq_max(s: Seq<u16>)
    requires
        s.len() >= 1,
    ensures
        s.contains(seq_max(s)),
        forall|i: int| 0 <= i < s.len() ==> s[i] <= seq_max(s),
    decreases s.len(),
{
    if s.len() == 1 {
        assert(s[0] == seq_max(s));
    } else {
        lemma_seq_max(s.drop_last());
        let m = seq_max(s);
        if s.last() > seq_max(s.drop_last()) {
            assert(s[s.len() - 1] == m);
        } else {
            let j = choose|j: int| 0 <= j < s.drop_last().len() && s.drop_last()[j] == m;
            assert(s[j] == m);
        }
        assert(forall|i: int| 0 <= i < s.len() - 1 ==> s[i] == s.drop_last()[i]);
    }
}

/// The candidate discipline of the search: the next letter of a partial
/// sequence `p` is either a symbol value no larger than the largest symbol
/// used so far and absent from the trailing window (a fill-in), or the next
/// fresh symbol (the doubled maximum) while the alphabet ceiling is not yet
/// reached.
pub open spec fn letter_rule(p: Seq<u16>, letter: u16, alphabet_size: int, subset_size: int) -> bool {
    let m = seq_max(p);
    ||| (is_powval(letter) && letter <= m && !p.subrange(p.len() - subset_size, p.len() as int).contains(letter))
    ||| (m < symbol_value((alphabet_size - 1) as nat) && letter == 2 * m)
}

impl Node {
    /// The trailing window: the last `subset_size` symbols of the sequence.
    pub open spec fn trailing_window(self, subset_size: int) -> Seq<u16> {
        self.sequence@.subrange(
            self.sequence@.len() - subset_size,
            self.sequence@.len() as int,
        )
    }

    /// The signature obtained by sliding the trailing window forward:
    /// its oldest symbol leaves the sum and `letter` enters it.
    pub open spec fn slide_sig(self, letter: u16, subset_size: int) -> int {
        self.label + letter - self.sequence@[self.sequence@.len() - subset_size]
    }

    /// Whether some already-seen window signature equals `val`.
    pub open spec fn seen_has(self, val: int) -> bool {
        exists|i: int| 0 <= i < self.seen_labels@.len() && self.seen_labels@[i] == val
    }

    /// Well-formedness of a search state for window size `subset_size`:
    /// the sequence is longer than one window; every stored value encodes a
    /// symbol; any `subset_size` consecutive symbols are pairwise distinct;
    /// `label` is the signature of the trailing window; and `seen_labels`
    /// lists the signatures of all windows, without repetition.
    pub open spec fn wf(self, subset_size: int) -> bool {
        let s = self.sequence@;
        let n = s.len() as int;
        &&& 1 <= subset_size && subset_size < MAX_ALPHABET
        &&& n > subset_size
        &&& all_symbols_below(s, MAX_ALPHABET as nat)
        &&& (forall|i: int, j: int| 0 <= i < j < n && j - i < subset_size ==> s[i] != s[j])
        &&& self.label == window_sig(self.trailing_window(subset_size))
        &&& self.seen_labels@.len() == n - subset_size + 1
        &&& (forall|i: int|
            0 <= i <= n - subset_size ==> #[trigger] self.seen_labels@[i] == window_sig(
                s.subrange(i, i + subset_size),
            ))
        &&& self.seen_labels@.no_duplicates()
    }

    /// Every stored value encodes a symbol of an alphabet of the given size.
    pub open spec fn alpha_ok(self, alphabet_size: int) -> bool {
        alphabet_size <= MAX_ALPHABET && all_symbols_below(
            self.sequence@,
            alphabet_size as nat,
        )
    }

    /// A child state: the parent's sequence extended by `letter`, with the
    /// slid signature recorded as the new label and appended to the seen set.
    pub open spec fn is_child_of(self, parent: Node, letter: u16, subset_size: int) -> bool {
        &&& self.sequence@ == parent.sequence@.push(letter)
        &&& self.label == parent.slide_sig(letter, subset_size)
        &&& self.seen_labels@ == parent.seen_labels@.push(self.label)
    }

    /// The child-generation rule: `letter` may extend the state when the
    /// candidate discipline admits it and the slid window signature is
    /// novel.
    pub open spec fn admissible_letter(
        self,
        letter: u16,
        alphabet_size: int,
        subset_size: int,
    ) -> bool {
        &&& letter_rule(self.sequence@, letter, alphabet_size, subset_size)
        &&& !self.seen_has(self.slide_sig(letter, subset_size))
    }

    /// Facts a well-formed state gives about its trailing window: it is a
    /// duplicate-free window of symbols, the label fits the width with
    /// headroom for one more symbol value, and the label dominates the
    /// window's oldest symbol.
    pub proof fn lemma_window_props(self, subset_size: int)
        requires
            self.wf(subset_size),
        ensures
            self.trailing_window(subset_size).no_duplicates(),
            all_symbols_below(self.trailing_window(subset_size), MAX_ALPHABET as nat),
            0 <= self.sequence@[self.sequence@.len() - subset_size] <= self.label <= 32767,
    {
        let s = self.sequence@;
        let n = s.len() as int;
        let w = self.trailing_window(subset_size);
        assert(forall|i: int| 0 <= i < w.len() ==> w[i] == s[n - subset_size + i]);
        assert(w.no_duplicates()) by {
            assert forall|i: int, j: int| 0 <= i < j < w.len() implies w[i] != w[j] by {
                assert(s[n - subset_size + i] != s[n - subset_size + j]);
            }
        }
        crate::sig::lemma_sig_bound(w, MAX_ALPHABET as nat);
        crate::sig::lemma_sig_ge_member(w, 0);
        assert(w[0] == s[n - subset_size]);
    }
}

/// The window invariant law: every well-formed search state carries a
/// trailing window of pairwise-distinct symbols. `generate_root` establishes
/// well-formedness and `Node::new` preserves it, so the law holds of every
/// state reachable from the root.
pub proof fn lemma_window_invariant(node: Node, subset_size: int)
    requires
        node.wf(subset_size),
    ensures
        node.trailing_window(subset_size).len() == subset_size,
        node.trailing_window(subset_size).no_duplicates(),
{
    node.lemma_window_props(subset_size);
}

/// The no-repeat law: in a well-formed search state, all overlapping windows
/// of the sequence have pairwise-distinct signatures.
pub proof fn lemma_no_repeat_invariant(node: Node, subset_size: int)
    requires
        node.wf(subset_size),
    ensures
        forall|i: int, j: int|
            0 <= i < j <= node.sequence@.len() - subset_size ==> window_sig(
                #[trigger] node.sequence@.subrange(i, i + subset_size),
            ) != window_sig(#[trigger] node.sequence@.subrange(j, j + subset_size)),
{
    assert forall|i: int, j: int|
        0 <= i < j <= node.sequence@.len() - subset_size implies window_sig(
        #[trigger] node.sequence@.subrange(i, i + subset_size),
    ) != window_sig(#[trigger] node.sequence@.subrange(j, j + subset_size)) by {
        assert(node.seen_labels@[i] == window_sig(node.sequence@.subrange(i, i + subset_size)));
        assert(node.seen_labels@[j] == window_sig(node.sequence@.subrange(j, j + subset_size)));
    }
}

/// Copies a vector of stored symbol values.
pub fn clone_u16_vec(v: &Vec<u16>) -> (r: Vec<u16>)
    ensures
        r@ == v@,
{
    let mut r: Vec<u16> = Vec::new();
    let mut i: usize = 0;
    while i < v.len()
        invariant
            i <= v@.len(),
            r@ == v@.subrange(0, i as int),
        decreases v@.len() - i,
    {
        r.push(v[i]);
        proof {
            assert(v@.subrange(0, i as int).push(v@[i as int]) =~= v@.subrange(0, i as int + 1));
        }
        i = i + 1;
    }
    proof {
        assert(v@.subrange(0, v@.len() as int) =~= v@);
    }
    r
}

/// Whether `x` occurs among `v[start..end]`.
fn contains_range(v: &Vec<u16>, start: usize, end: usize, x: u16) -> (r: bool)
    requires
        start <= end <= v@.len(),
    ensures
        r == v@.subrange(start as int, end as int).contains(x),
{
    let ghost range = v@.subrange(start as int, end as int);
    let mut i: usize = start;
    while i < end
        invariant
            start <= i <= end <= v@.len(),
            range == v@.subrange(start as int, end as int),
            forall|j: int| 0 <= j < i - start ==> range[j] != x,
        decreases end - i,
    {
        if v[i] == x {
            proof {
                assert(range[i - start] == x);
            }
            return true;
        }
        i = i + 1;
    }
    false
}

/// The largest stored symbol value of a sequence.
fn max_element(v: &Vec<u16>) -> (r: u16)
    requires
        v@.len() >= 1,
    ensures
        r == seq_max(v@),
{
    let mut r: u16 = v[0];
    let mut i: usize = 1;
    proof {
        assert(v@.subrange(0, 1) =~= seq![v@[0]]);
    }
    while i < v.len()
        invariant
            1 <= i <= v@.len(),
            r == seq_max(v@.subrange(0, i as int)),
        decreases v@.len() - i,
    {
        proof {
            let pre = v@.subrange(0, i as int);
            let ext = v@.subrange(0, i as int + 1);
            assert(ext.drop_last() =~= pre);
            assert(ext.last() == v@[i as int]);
        }
        if v[i] > r {
            r = v[i];
        }
        i = i + 1;
    }
    proof {
        assert(v@.subrange(0, v@.len() as int) =~= v@);
    }
    r
}

impl Node {
    /// Computes the signature of the window slid forward by `new_element`,
    /// or `None` when that signature was already seen — in which case no
    /// child may be created.
    pub fn get_child_label(&self, subset_size: usize, new_element: u16) -> (r: Option<u16>)
        requires
            self.wf(subset_size as int),
            is_powval(new_element),
        ensures
            r is Some <==> !self.seen_has(self.slide_sig(new_element, subset_size as int)),
            r is Some ==> r.unwrap() == self.slide_sig(new_element, subset_size as int),
    {
        proof {
            self.lemma_window_props(subset_size as int);
            let k = choose|k: nat| k < MAX_ALPHABET && new_element == symbol_value(k);
            crate::lemma_symbol_value_bounds(k);
        }
        // Take the parent's label, remove the oldest window element from it,
        // and add the new element to it.
        let dropped = self.sequence[self.sequence.len() - subset_size];
        let new_label = crate::sig::slide(self.label, dropped, new_element);
        if crate::sig::is_novel(new_label, &self.seen_labels) {
            Some(new_label)
        } else {
            None
        }
    }

    /// Creates the child state that extends `parent_node` by `letter`, or
    /// `None` when the slid window signature was already seen. The caller
    /// keeps the window invariant by never offering a letter that already
    /// occurs among the symbols it will share a window with.
    pub fn new(parent_node: &Node, subset_size: usize, letter: u16) -> (r: Option<Node>)
        requires
            parent_node.wf(subset_size as int),
            is_powval(letter),
            !parent_node.sequence@.subrange(
                parent_node.sequence@.len() - subset_size + 1,
                parent_node.sequence@.len() as int,
            ).contains(letter),
        ensures
            r is Some <==> !parent_node.seen_has(
                parent_node.slide_sig(letter, subset_size as int),
            ),
            r is Some ==> r.unwrap().is_child_of(*parent_node, letter, subset_size as int)
                && r.unwrap().wf(subset_size as int),
    {
        let child_label = parent_node.get_child_label(subset_size, letter);
        match child_label {
            Some(lab) => {
                let mut new_seen_labels = clone_u16_vec(&parent_node.seen_labels);
                new_seen_labels.push(lab);
                let mut new_sequence = clone_u16_vec(&parent_node.sequence);
                new_sequence.push(letter);
                let new_child = Node {
                    label: lab,
                    sequence: new_sequence,
                    seen_labels: new_seen_labels,
                };
                proof {
                    lemma_child_wf(*parent_node, new_child, letter, subset_size as int);
                }
                Some(new_child)
            },
            None => None,
        }
    }
}

/// What `generate_children` guarantees of every state it pushes: a
/// well-formed child of the parent, over the same alphabet, extended by an
/// admissible letter.
pub open spec fn is_generated_child(
    c: Node,
    parent: Node,
    alphabet_size: int,
    subset_size: int,
) -> bool {
    &&& c.wf(subset_size)
    &&& c.alpha_ok(alphabet_size)
    &&& c.sequence@.len() == parent.sequence@.len() + 1
    &&& c.is_child_of(parent, c.sequence@.last(), subset_size)
    &&& parent.admissible_letter(c.sequence@.last(), alphabet_size, subset_size)
}

/// Symbol values never decrease with the index.
proof fn lemma_symbol_value_le(j: nat, k: nat)
    requires
        j <= k <= 15,
    ensures
        symbol_value(j) <= symbol_value(k),
{
    if j < k {
        crate::lemma_symbol_value_increases(j, k);
    }
}

impl Node {
    /// Generates every admissible child of this state and pushes it onto the
    /// pending queue: fill-in letters in increasing order first, then — while
    /// the alphabet ceiling is not reached — the fresh letter that doubles
    /// the largest symbol used so far. A candidate whose slid window
    /// signature was already seen is silently discarded. Exactly the
    /// admissible letters produce children, in increasing letter order.
    pub fn generate_children(
        &self,
        alphabet_size: usize,
        subset_size: usize,
        queue: &mut Vec<Node>,
    )
        requires
            valid_config(alphabet_size as int, subset_size as int),
            self.wf(subset_size as int),
            self.alpha_ok(alphabet_size as int),
        ensures
            old(queue)@.len() <= final(queue)@.len() <= old(queue)@.len() + alphabet_size,
            final(queue)@.subrange(0, old(queue)@.len() as int) == old(queue)@,
            forall|i: int|
                old(queue)@.len() <= i < final(queue)@.len() ==> is_generated_child(
                    #[trigger] final(queue)@[i],
                    *self,
                    alphabet_size as int,
                    subset_size as int,
                ),
            forall|i: int, j: int|
                old(queue)@.len() <= i < j < final(queue)@.len()
                    ==> (#[trigger] final(queue)@[i]).sequence@.last()
                    < (#[trigger] final(queue)@[j]).sequence@.last(),
            forall|x: u16|
                #[trigger] self.admissible_letter(x, alphabet_size as int, subset_size as int)
                    ==> exists|i: int|
                    old(queue)@.len() <= i < final(queue)@.len()
                        && (#[trigger] final(queue)@[i]).sequence@.last() == x,
    {
        let ghost q0 = queue@;
        let ghost ai = alphabet_size as int;
        let ghost wi = subset_size as int;
        let n = self.sequence.len();
        let max_letter = max_element(&self.sequence);
        proof {
            lemma_seq_max(self.sequence@);
            let j = choose|j: int| 0 <= j < self.sequence@.len() && self.sequence@[j] == max_letter;
            assert(crate::is_symbol(self.sequence@[j], ai));
        }
        let ghost km = choose|k: nat|
            k < ai && k < MAX_ALPHABET && max_letter == symbol_value(k);
        let mut k: usize = 0;
        let mut v: u16 = 1;
        proof {
            assert(v == symbol_value(0)) by {
                assert((1u16 << 0u16) == 1) by (bit_vector);
            }
            crate::lemma_symbol_value_bounds(km);
            // No letter below 1 exists, so the coverage claim starts empty.
            assert forall|x: u16| #[trigger] self.admissible_letter(x, ai, wi) && x < v implies
                exists|i: int|
                    q0.len() <= i < queue@.len() && (#[trigger] queue@[i]).sequence@.last()
                        == x by {
                lemma_admissible_is_powval(*self, x, ai, wi);
                let kx = choose|kk: nat| kk < MAX_ALPHABET && x == symbol_value(kk);
                crate::lemma_symbol_value_bounds(kx);
            }
        }
        while v <= max_letter
            invariant
                valid_config(ai, wi),
                self.wf(wi),
                self.alpha_ok(ai),
                ai == alphabet_size as int,
                wi == subset_size as int,
                n == self.sequence@.len(),
                max_letter == seq_max(self.sequence@),
                forall|i: int| 0 <= i < n ==> self.sequence@[i] <= max_letter,
                km < ai && km < MAX_ALPHABET && max_letter == symbol_value(km),
                k <= km + 1,
                v == symbol_value(k as nat),
                q0.len() <= queue@.len() <= q0.len() + k,
                queue@.subrange(0, q0.len() as int) == q0,
                forall|i: int|
                    q0.len() <= i < queue@.len() ==> is_generated_child(
                        #[trigger] queue@[i],
                        *self,
                        ai,
                        wi,
                    ),
                forall|i: int|
                    q0.len() <= i < queue@.len() ==> (#[trigger] queue@[i]).sequence@.last() < v,
                forall|i: int, j: int|
                    q0.len() <= i < j < queue@.len() ==> (#[trigger] queue@[i]).sequence@.last() < (
                    #[trigger] queue@[j]).sequence@.last(),
                forall|x: u16|
                    #[trigger] self.admissible_letter(x, ai, wi) && x < v ==> exists|i: int|
                        q0.len() <= i < queue@.len() && (#[trigger] queue@[i]).sequence@.last()
                            == x,
            decreases 16 - k,
        {
            proof {
                if k > km {
                    crate::lemma_symbol_value_increases(km, k as nat);
                }
                assert(k <= km);
            }
            let ghost q_pre = queue@;
            if !contains_range(&self.sequence, n - subset_size, n, v) {
                proof {
                    lemma_window_suffix_absent(self.sequence@, wi, v);
                }
                let new_child = Node::new(self, subset_size, v);
                match new_child {
                    Some(c) => {
                        queue.push(c);
                        proof {
                            assert(queue@.subrange(0, q0.len() as int) =~= q_pre.subrange(
                                0,
                                q0.len() as int,
                            ));
                            assert(c.sequence@.last() == v);
                            assert(crate::is_symbol(v, ai)) by {
                                assert(v == symbol_value(k as nat) && k < ai && k < MAX_ALPHABET);
                            }
                            assert(self.admissible_letter(v, ai, wi));
                            assert(c.alpha_ok(ai)) by {
                                assert(forall|i: int|
                                    0 <= i < n ==> c.sequence@[i] == self.sequence@[i]);
                            }
                            assert(is_generated_child(c, *self, ai, wi));
                            assert(queue@[queue@.len() - 1] == c);
                            assert(forall|i: int| 0 <= i < q_pre.len() ==> queue@[i] == q_pre[i]);
                        }
                    },
                    None => {
                        proof {
                            // The slid signature was already seen, so this
                            // letter is not admissible.
                            assert(!self.admissible_letter(v, ai, wi));
                        }
                    },
                }
            } else {
                proof {
                    // The letter already sits in the trailing window, and it
                    // is too small to be the fresh letter, so it is not
                    // admissible.
                    assert(1 <= max_letter) by {
                        crate::lemma_symbol_value_bounds(km);
                    }
                    assert(v != 2 * seq_max(self.sequence@));
                    assert(!self.admissible_letter(v, ai, wi));
                }
            }
            proof {
                crate::lemma_symbol_value_double(k as nat);
                crate::lemma_symbol_value_bounds((k + 1) as nat);
                // Every admissible letter below the doubled bound is either
                // below the old bound or equals the letter just handled.
                assert forall|x: u16|
                    #[trigger] self.admissible_letter(x, ai, wi) && x < symbol_value(
                        (k + 1) as nat,
                    ) implies exists|i: int|
                    q0.len() <= i < queue@.len() && (#[trigger] queue@[i]).sequence@.last()
                        == x by {
                    if x >= v {
                        // x is a symbol value in [v, 2v), hence exactly v.
                        assert(x == v) by {
                            lemma_admissible_is_powval(*self, x, ai, wi);
                            let kx = choose|kk: nat|
                                kk < MAX_ALPHABET && x == symbol_value(kk);
                            if kx < k {
                                crate::lemma_symbol_value_increases(kx, k as nat);
                            }
                            if kx > k {
                                lemma_symbol_value_le((k + 1) as nat, kx);
                            }
                        }
                        // An admissible letter equal to the one just handled
                        // must have produced the push; otherwise the branch
                        // showed it inadmissible.
                        if queue@.len() == q_pre.len() {
                            assert(!self.admissible_letter(v, ai, wi));
                            assert(false);
                        } else {
                            assert(queue@[queue@.len() - 1].sequence@.last() == v);
                        }
                    } else {
                        let i0 = choose|i: int|
                            q0.len() <= i < q_pre.len() && (#[trigger] q_pre[i]).sequence@.last()
                                == x;
                        assert(queue@[i0] == q_pre[i0]);
                    }
                }
            }
            v = v * 2;
            k = k + 1;
        }
        // The fresh letter: double the largest symbol used so far, offered
        // only while the alphabet ceiling is not yet reached.
        let fresh_bound = crate::pow2_u16(alphabet_size - 1);
        let ghost q_loop = queue@;
        if max_letter < fresh_bound {
            proof {
                if km >= ai - 1 {
                    lemma_symbol_value_le((ai - 1) as nat, km);
                }
                assert(km < ai - 1);
                crate::lemma_symbol_value_double(km);
                crate::lemma_symbol_value_bounds(km);
                crate::lemma_symbol_value_bounds((km + 1) as nat);
            }
            let fresh = max_letter * 2;
            proof {
                assert(fresh == symbol_value((km + 1) as nat));
                assert(crate::is_powval(fresh)) by {
                    assert(km + 1 < MAX_ALPHABET && fresh == symbol_value((km + 1) as nat));
                }
                assert(!self.sequence@.subrange(n - wi + 1, n as int).contains(fresh)) by {
                    let tail = self.sequence@.subrange(n - wi + 1, n as int);
                    assert(forall|i: int| 0 <= i < tail.len() ==> tail[i] == self.sequence@[n - wi
                        + 1 + i]);
                    assert(forall|i: int| 0 <= i < tail.len() ==> tail[i] <= max_letter);
                }
            }
            let new_child = Node::new(self, subset_size, fresh);
            match new_child {
                Some(c) => {
                    queue.push(c);
                    proof {
                        assert(queue@.subrange(0, q0.len() as int) =~= q_loop.subrange(
                            0,
                            q0.len() as int,
                        ));
                        assert(c.sequence@.last() == fresh);
                        assert(crate::is_symbol(fresh, ai)) by {
                            assert(km + 1 < ai && km + 1 < MAX_ALPHABET && fresh == symbol_value(
                                (km + 1) as nat,
                            ));
                        }
                        assert(self.admissible_letter(fresh, ai, wi));
                        assert(c.alpha_ok(ai)) by {
                            assert(forall|i: int|
                                0 <= i < n ==> c.sequence@[i] == self.sequence@[i]);
                        }
                        assert(is_generated_child(c, *self, ai, wi));
                        assert(queue@[queue@.len() - 1] == c);
                        assert(forall|i: int| 0 <= i < q_loop.len() ==> queue@[i] == q_loop[i]);
                        // Ordering: everything pushed by the loop is below
                        // the loop's final bound, which the fresh letter
                        // reaches or exceeds.
                        assert(v <= fresh) by {
                            lemma_symbol_value_le(k as nat, (km + 1) as nat);
                        }
                    }
                },
                None => {
                    proof {
                        assert(!self.admissible_letter(fresh, ai, wi));
                    }
                },
            }
        }
        proof {
            assert(k <= km + 1);
            if max_letter < fresh_bound {
                assert(k <= km + 1 <= ai - 1);
                assert(queue@.len() <= q0.len() + ai);
            } else {
                assert(km + 1 <= ai);
                assert(queue@.len() <= q0.len() + ai);
            }
            // Completeness: every admissible letter produced a child. The
            // fill-in letters all lie below the loop's final bound; the only
            // other admissible letter is the fresh one.
            assert forall|x: u16| #[trigger] self.admissible_letter(x, ai, wi) implies exists|
                i: int,
            |
                q0.len() <= i < queue@.len() && (#[trigger] queue@[i]).sequence@.last() == x by {
                let m = seq_max(self.sequence@);
                if crate::is_powval(x) && x <= m && !self.trailing_window(wi).contains(x) {
                    // A fill-in letter: it lies below the loop's final bound,
                    // so the loop's coverage claim names its child, which the
                    // fresh push (if any) left in place.
                    assert(x < v);
                    let i0 = choose|i: int|
                        q0.len() <= i < q_loop.len() && (#[trigger] q_loop[i]).sequence@.last()
                            == x;
                    assert(queue@[i0] == q_loop[i0]);
                } else {
                    // The fresh case: the ceiling test cannot have failed,
                    // and the letter must have produced the push.
                    assert(m < symbol_value((ai - 1) as nat) && x == 2 * m);
                    assert(max_letter < fresh_bound);
                    if queue@.len() == q_loop.len() {
                        assert(!self.admissible_letter((2 * m) as u16, ai, wi));
                        assert(false);
                    } else {
                        assert(queue@[queue@.len() - 1].sequence@.last() == 2 * m);
                    }
                }
            }
        }
    }
}

/// An admissible letter is always a stored symbol value.
proof fn lemma_admissible_is_powval(p: Node, x: u16, alphabet_size: int, subset_size: int)
    requires
        p.wf(subset_size),
        p.alpha_ok(alphabet_size),
        2 <= alphabet_size <= MAX_ALPHABET,
        p.sequence@.len() >= 1,
        p.admissible_letter(x, alphabet_size, subset_size),
    ensures
        is_powval(x),
{
    let m = seq_max(p.sequence@);
    if !(is_powval(x) && x <= m && !p.trailing_window(subset_size).contains(x)) {
        lemma_seq_max(p.sequence@);
        let j = choose|j: int| 0 <= j < p.sequence@.len() && p.sequence@[j] == m;
        assert(crate::is_symbol(p.sequence@[j], alphabet_size));
        let km = choose|k: nat| k < alphabet_size && k < MAX_ALPHABET && m == symbol_value(k);
        assert(m < symbol_value((alphabet_size - 1) as nat) && x == 2 * m);
        if km + 1 > alphabet_size - 1 {
            lemma_symbol_value_le((alphabet_size - 1) as nat, km);
        }
        crate::lemma_symbol_value_double(km);
        assert(x == symbol_value(km + 1));
        assert(crate::is_symbol(x, MAX_ALPHABET as int)) by {
            assert(km + 1 < MAX_ALPHABET && x == symbol_value(km + 1));
        }
    }
}

/// A letter absent from the trailing window is also absent from the shorter
/// suffix it will share the next window with.
proof fn lemma_window_suffix_absent(s: Seq<u16>, subset_size: int, letter: u16)
    requires
        1 <= subset_size < s.len(),
        !s.subrange(s.len() - subset_size, s.len() as int).contains(letter),
    ensures
        !s.subrange(s.len() - subset_size + 1, s.len() as int).contains(letter),
{
    let n = s.len() as int;
    let win = s.subrange(n - subset_size, n);
    let tail = s.subrange(n - subset_size + 1, n);
    assert forall|i: int| 0 <= i < tail.len() implies tail[i] != letter by {
        assert(tail[i] == win[i + 1]);
    }
}

/// A child built by the slide rule from a well-formed parent, with a novel
/// window signature, is itself well-formed.
proof fn lemma_child_wf(parent: Node, child: Node, letter: u16, subset_size: int)
    requires
        parent.wf(subset_size),
        is_powval(letter),
        !parent.sequence@.subrange(
            parent.sequence@.len() - subset_size + 1,
            parent.sequence@.len() as int,
        ).contains(letter),
        !parent.seen_has(parent.slide_sig(letter, subset_size)),
        child.is_child_of(parent, letter, subset_size),
    ensures
        child.wf(subset_size),
{
    let s = parent.sequence@;
    let n = s.len() as int;
    let t = child.sequence@;
    let w = subset_size;
    parent.lemma_window_props(w);
    assert(t.len() == n + 1);
    assert(forall|i: int| 0 <= i < n ==> t[i] == s[i]);
    assert(t[n] == letter);
    // Every stored value still encodes a symbol.
    assert(all_symbols_below(t, MAX_ALPHABET as nat));
    // Any `w` consecutive symbols stay pairwise distinct: old pairs carry
    // over, and the new symbol is absent from the window it joins.
    assert forall|i: int, j: int| 0 <= i < j < n + 1 && j - i < w implies t[i] != t[j] by {
        if j < n {
            assert(s[i] != s[j]);
        } else {
            let tail = s.subrange(n - w + 1, n);
            assert(i >= n - w + 1);
            assert(tail[i - (n - w + 1)] == s[i]);
            assert(!tail.contains(letter));
        }
    }
    // The new label is the signature of the new trailing window.
    let old_win = parent.trailing_window(w);
    let new_win = child.trailing_window(w);
    assert(new_win =~= old_win.drop_first().push(letter)) by {
        assert(old_win.drop_first() =~= s.subrange(n - w + 1, n));
        assert(forall|i: int| 0 <= i < w - 1 ==> new_win[i] == s[n - w + 1 + i]);
        assert(new_win[w - 1] == letter);
    }
    crate::sig::lemma_slide_matches_recompute(old_win, letter);
    assert(old_win[0] == s[n - w]);
    assert(child.label == window_sig(new_win));
    // The seen set lists the signatures of all windows of the new sequence.
    assert(child.seen_labels@.len() == (n + 1) - w + 1);
    assert forall|i: int| 0 <= i <= n + 1 - w implies #[trigger] child.seen_labels@[i]
        == window_sig(t.subrange(i, i + w)) by {
        if i <= n - w {
            assert(child.seen_labels@[i] == parent.seen_labels@[i]);
            assert(t.subrange(i, i + w) =~= s.subrange(i, i + w));
        } else {
            assert(t.subrange(i, i + w) =~= new_win);
        }
    }
    // No window signature repeats: the new one was checked for novelty.
    assert(child.seen_labels@.no_duplicates()) by {
        assert forall|i: int, j: int|
            0 <= i < j < child.seen_labels@.len() implies child.seen_labels@[i]
            != child.seen_labels@[j] by {
            if j < parent.seen_labels@.len() {
                assert(parent.seen_labels@[i] != parent.seen_labels@[j]);
            } else {
                assert(child.seen_labels@[j] == child.label);
                assert(parent.seen_labels@[i] != parent.slide_sig(letter, w));
            }
        }
    }
}

/// Builds the canonical root state: the first `subset_size + 1` symbol
/// values in increasing order, its trailing-window signature, and the
/// signatures of both windows the root sequence holds.
pub fn generate_root(subset_size: usize) -> (r: Node)
    requires
        1 <= subset_size && subset_size < MAX_ALPHABET,
    ensures
        r.wf(subset_size as int),
        r.sequence@.len() == subset_size + 1,
        forall|i: int| 0 <= i <= subset_size ==> r.sequence@[i] == symbol_value(i as nat),
        forall|a: int| subset_size < a <= MAX_ALPHABET ==> r.alpha_ok(a),
{
    let mut sequence: Vec<u16> = Vec::new();
    let mut i: usize = 0;
    while i <= subset_size
        invariant
            subset_size < MAX_ALPHABET,
            i <= subset_size + 1,
            sequence@.len() == i,
            forall|j: int| 0 <= j < i ==> sequence@[j] == symbol_value(j as nat),
        decreases subset_size + 1 - i,
    {
        let v = crate::pow2_u16(i);
        sequence.push(v);
        i = i + 1;
    }
    proof {
        lemma_root_sequence_distinct(sequence@, subset_size as int);
    }
    let n = sequence.len();
    let mut seen_labels: Vec<u16> = Vec::new();
    let mut start: usize = 0;
    while start + subset_size < n + 1
        invariant
            1 <= subset_size < MAX_ALPHABET,
            n == sequence@.len() == subset_size + 1,
            forall|j: int| 0 <= j < n ==> sequence@[j] == symbol_value(j as nat),
            all_symbols_below(sequence@, MAX_ALPHABET as nat),
            forall|i2: int, j2: int| 0 <= i2 < j2 < n ==> sequence@[i2] != sequence@[j2],
            start <= n + 1 - subset_size,
            seen_labels@.len() == start,
            forall|j: int|
                0 <= j < start ==> #[trigger] seen_labels@[j] == window_sig(
                    sequence@.subrange(j, j + subset_size),
                ),
        decreases n - start - subset_size + 1,
    {
        proof {
            lemma_root_window_ok(sequence@, subset_size as int, start as int);
        }
        let s = range_signature(&sequence, start, start + subset_size);
        seen_labels.push(s);
        start = start + 1;
    }
    let label = seen_labels[seen_labels.len() - 1];
    let root = Node { label, sequence, seen_labels };
    proof {
        lemma_root_wf(root, subset_size as int);
    }
    root
}

/// The strictly increasing root sequence has pairwise-distinct entries.
proof fn lemma_root_sequence_distinct(s: Seq<u16>, subset_size: int)
    requires
        1 <= subset_size < MAX_ALPHABET,
        s.len() == subset_size + 1,
        forall|j: int| 0 <= j < s.len() ==> s[j] == symbol_value(j as nat),
    ensures
        all_symbols_below(s, MAX_ALPHABET as nat),
        forall|i: int, j: int| 0 <= i < j < s.len() ==> s[i] != s[j],
{
    assert forall|i: int, j: int| 0 <= i < j < s.len() implies s[i] != s[j] by {
        crate::lemma_symbol_value_increases(i as nat, j as nat);
    }
    assert forall|i: int| 0 <= i < s.len() implies crate::is_symbol(
        #[trigger] s[i],
        MAX_ALPHABET as int,
    ) by {
        assert(s[i] == symbol_value(i as nat));
    }
}

/// Each window of the root sequence is a duplicate-free window of symbols.
proof fn lemma_root_window_ok(s: Seq<u16>, subset_size: int, start: int)
    requires
        1 <= subset_size < MAX_ALPHABET,
        s.len() == subset_size + 1,
        all_symbols_below(s, MAX_ALPHABET as nat),
        forall|i2: int, j2: int| 0 <= i2 < j2 < s.len() ==> s[i2] != s[j2],
        0 <= start && start + subset_size <= s.len(),
    ensures
        all_symbols_below(s.subrange(start, start + subset_size), MAX_ALPHABET as nat),
        s.subrange(start, start + subset_size).no_duplicates(),
{
    let win = s.subrange(start, start + subset_size);
    assert(forall|i: int| 0 <= i < win.len() ==> win[i] == s[start + i]);
}

/// The root state is well-formed.
proof fn lemma_root_wf(root: Node, subset_size: int)
    requires
        1 <= subset_size < MAX_ALPHABET,
        root.sequence@.len() == subset_size + 1,
        forall|j: int| 0 <= j < root.sequence@.len() ==> root.sequence@[j] == symbol_value(j as nat),
        root.seen_labels@.len() == 2,
        forall|j: int|
            0 <= j < 2 ==> #[trigger] root.seen_labels@[j] == window_sig(
                root.sequence@.subrange(j, j + subset_size),
            ),
        root.label == root.seen_labels@[1],
    ensures
        root.wf(subset_size),
        forall|a: int| subset_size < a <= MAX_ALPHABET ==> root.alpha_ok(a),
{
    let s = root.sequence@;
    let n = s.len() as int;
    lemma_root_sequence_distinct(s, subset_size);
    // The two window signatures differ: sliding replaces the smallest symbol
    // by the largest one, which strictly grows the sum.
    let w0 = s.subrange(0, subset_size);
    let w1 = s.subrange(1, subset_size + 1);
    assert(w1 =~= w0.drop_first().push(s[n - 1])) by {
        assert(forall|i: int| 0 <= i < subset_size - 1 ==> w0.drop_first()[i] == s[1 + i]);
        assert(forall|i: int| 0 <= i < subset_size ==> w1[i] == s[1 + i]);
    }
    crate::sig::lemma_slide_matches_recompute(w0, s[n - 1]);
    assert(s[n - 1] == symbol_value((n - 1) as nat));
    assert(s[0] == symbol_value(0));
    crate::lemma_symbol_value_increases(0, (n - 1) as nat);
    assert(window_sig(w1) > window_sig(w0));
    assert(root.seen_labels@.no_duplicates()) by {
        assert(root.seen_labels@[0] == window_sig(w0));
        assert(root.seen_labels@[1] == window_sig(w1));
    }
    assert(root.trailing_window(subset_size) =~= w1);
    assert forall|a: int| subset_size < a <= MAX_ALPHABET implies root.alpha_ok(a) by {
        assert forall|i: int| 0 <= i < s.len() implies crate::is_symbol(#[trigger] s[i], a) by {
            assert(s[i] == symbol_value(i as nat));
        }
    }
}

} // verus!
