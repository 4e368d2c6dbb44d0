//! One site of the wave: the set of patterns still allowed there.

use crate::bitset::{
    bits, bitvec_and, bitvec_any, bitvec_clone, bitvec_count_ones, bitvec_fill, bitvec_from_elem,
    bitvec_get, bitvec_len, bitvec_set, count_true, has_true, lemma_count_true_one,
    lemma_count_true_single, lemma_count_true_zero, seq_and,
};
use crate::grid::{Grid, grid_views, grid_width};
use crate::utils::{
    count_weights, draw_below, lemma_masked_prefix_fits, lemma_masked_prefix_monotone,
    masked_prefix, masked_total, selects,
};
use bit_vec::BitVec;
use rand::rngs::StdRng;
use vstd::prelude::*;

verus! {

/// The pixel that stands for a site without a decided pattern.
pub const UNDECIDED_PIXEL: usize = 0xFF0080;

/// The sequence of `n` booleans of which only the one at `k` is `true`.
pub open spec fn only(n: nat, k: int) -> Seq<bool> {
    Seq::new(n, |i: int| i == k)
}

/// An index at which the sequence is `true`. For a sequence with exactly
/// one such index, that one.
pub open spec fn set_index(s: Seq<bool>) -> int {
    choose|i: int| 0 <= i < s.len() && s[i]
}

/// The weights of the allowed indices, in index order.
pub open spec fn live_weights_of(counts: Seq<usize>, mask: Seq<bool>) -> Seq<usize>
    decreases counts.len(),
{
    if counts.len() == 0 {
        Seq::empty()
    } else if mask[counts.len() - 1] {
        live_weights_of(counts.drop_last(), mask).push(counts.last())
    } else {
        live_weights_of(counts.drop_last(), mask)
    }
}

/// The pixel that a site shows: the top left pixel of its pattern where
/// exactly one is allowed, else `UNDECIDED_PIXEL`.
pub open spec fn shown_pixel(allowed: Seq<bool>, patterns: Seq<Seq<Seq<usize>>>) -> usize {
    if count_true(allowed) == 1 {
        patterns[set_index(allowed)][0][0]
    } else {
        UNDECIDED_PIXEL
    }
}

/// The patterns still allowed at one site, one bit for each pattern.
#[derive(Eq, PartialEq, Debug)]
pub struct PossibilityCell {
    pub possible_states: BitVec,
}

impl View for PossibilityCell {
    type V = Seq<bool>;

    open spec fn view(&self) -> Seq<bool> {
        bits(self.possible_states)
    }
}

impl Clone for PossibilityCell {
    /// A site that allows the same patterns.
    fn clone(&self) -> (r: Self)
        ensures
            r@ == self@,
    {
        PossibilityCell { possible_states: bitvec_clone(&self.possible_states) }
    }
}

impl PossibilityCell {
    /// A site at which each of `num_states` patterns is allowed.
    pub fn new(num_states: usize) -> (r: Self)
        ensures
            r@ == Seq::new(num_states as nat, |i: int| true),
    {
        let possible_states = bitvec_from_elem(num_states, true);
        PossibilityCell { possible_states }
    }

    /// The number of patterns that the site has a bit for.
    pub fn len(&self) -> (r: usize)
        ensures
            r == self@.len(),
    {
        bitvec_len(&self.possible_states)
    }

    /// The weights of the patterns still allowed, in index order: what the
    /// entropy of the site is computed from. The list is empty for a site in
    /// contradiction and has one entry for a decided site.
    pub fn live_weights(&self, state_counts: &[usize]) -> (r: Vec<usize>)
        requires
            state_counts@.len() == self@.len(),
        ensures
            r@ == live_weights_of(state_counts@, self@),
    {
        let mut live: Vec<usize> = Vec::new();
        let mut index: usize = 0;
        while index < state_counts.len()
            invariant
                index <= state_counts@.len(),
                state_counts@.len() == self@.len(),
                live@ == live_weights_of(state_counts@.subrange(0, index as int), self@),
            decreases state_counts@.len() - index,
        {
            assert(state_counts@.subrange(0, index + 1).drop_last() =~= state_counts@.subrange(
                0,
                index as int,
            ));
            if bitvec_get(&self.possible_states, index) == Some(true) {
                live.push(state_counts[index]);
            }
            index += 1;
        }
        assert(state_counts@.subrange(0, index as int) =~= state_counts@);
        live
    }

    /// Narrows the site to one pattern, drawn from those allowed in
    /// proportion to their weights. A site whose allowed patterns have no
    /// weight is left as it is.
    pub fn collapse(&mut self, state_counts: &[usize], rng: &mut StdRng)
        requires
            state_counts@.len() == old(self)@.len(),
        ensures
            final(self)@.len() == old(self)@.len(),
            has_true(old(self)@) ==> has_true(final(self)@),
            forall|i: int| 0 <= i < old(self)@.len() && final(self)@[i] ==> old(self)@[i],
            masked_total(count_weights(state_counts@), old(self)@) > 0 ==> count_true(
                final(self)@,
            ) == 1,
            (exists|i: int| 0 <= i < old(self)@.len() && old(self)@[i] && state_counts@[i] >= 1)
                ==> count_true(final(self)@) == 1,
            masked_total(count_weights(state_counts@), old(self)@) == 0 ==> final(self)@
                == old(self)@,
            masked_total(count_weights(state_counts@), old(self)@) > 0 ==> exists|i: int|
                0 <= i < old(self)@.len() && old(self)@[i] && state_counts@[i] > 0
                    && #[trigger] only(old(self)@.len(), i) == final(self)@,
    {
        proof {
            let w = count_weights(state_counts@);
            let m = self@;
            if exists|i: int| 0 <= i < m.len() && m[i] && state_counts@[i] >= 1 {
                let i = choose|i: int| 0 <= i < m.len() && m[i] && state_counts@[i] >= 1;
                lemma_masked_prefix_monotone(w, m, 0, i);
                lemma_masked_prefix_monotone(w, m, i + 1, w.len() as int);
                assert(masked_prefix(w, m, i + 1) == masked_prefix(w, m, i) + w[i]);
            }
        }
        match PossibilityCell::masked_weighted_choice(state_counts, &self.possible_states, rng) {
            Some(chosen_state) => {
                let ghost before = self@;
                bitvec_fill(&mut self.possible_states, false);
                bitvec_set(&mut self.possible_states, chosen_state, true);
                assert(self@ =~= only(before.len(), chosen_state as int));
                proof {
                    let k = choose|k: int|
                        0 <= k < masked_total(count_weights(state_counts@), before)
                            && #[trigger] selects(
                            count_weights(state_counts@),
                            before,
                            k,
                            chosen_state as int,
                        );
                    assert(self@[chosen_state as int]);
                    lemma_count_true_single(self@, chosen_state as int);
                }
            },
            None => {},
        }
    }

    /// Narrows the site to the pattern that `choice` selects among those
    /// allowed. Where `choice` is not below their total weight the site is
    /// left as it is.
    pub fn collapse_to(&mut self, state_counts: &[usize], choice: u128)
        requires
            state_counts@.len() == old(self)@.len(),
        ensures
            choice >= masked_total(count_weights(state_counts@), old(self)@) ==> final(self)@
                == old(self)@,
            forall|i: int| #[trigger]
                selects(count_weights(state_counts@), old(self)@, choice as int, i) ==> final(self)@
                    == only(old(self)@.len(), i),
    {
        match PossibilityCell::masked_weighted_pick(state_counts, &self.possible_states, choice) {
            Some(chosen_state) => {
                let ghost before = self@;
                bitvec_fill(&mut self.possible_states, false);
                bitvec_set(&mut self.possible_states, chosen_state, true);
                assert(self@ =~= only(before.len(), chosen_state as int));
                assert forall|i: int| #[trigger]
                    selects(count_weights(state_counts@), before, choice as int, i) implies self@
                    == only(before.len(), i) by {
                    crate::utils::lemma_selects_unique(
                        count_weights(state_counts@),
                        before,
                        choice as int,
                        i,
                        chosen_state as int,
                    );
                }
            },
            None => {
                assert forall|i: int| #[trigger]
                    selects(
                        count_weights(state_counts@),
                        self@,
                        choice as int,
                        i,
                    ) implies false by {
                    lemma_masked_prefix_monotone(
                        count_weights(state_counts@),
                        self@,
                        i + 1,
                        state_counts@.len() as int,
                    );
                }
            },
        }
    }

    /// Removes every pattern that `mask` does not allow, and tells whether
    /// any was removed.
    pub fn intersect_with(&mut self, mask: &BitVec) -> (changed: bool)
        requires
            old(self)@.len() == bits(*mask).len(),
        ensures
            final(self)@ == seq_and(old(self)@, bits(*mask)),
            changed <==> exists|i: int|
                0 <= i < old(self)@.len() && old(self)@[i] && !bits(*mask)[i],
    {
        let ghost before = self@;
        let changed = bitvec_and(&mut self.possible_states, mask);
        proof {
            if exists|i: int| 0 <= i < before.len() && before[i] && !bits(*mask)[i] {
                let i = choose|i: int| 0 <= i < before.len() && before[i] && !bits(*mask)[i];
                assert(self@[i] != before[i]);
            } else {
                assert(self@ =~= before);
            }
        }
        changed
    }

    /// Whether any pattern is still allowed.
    pub fn consistent(&self) -> (r: bool)
        ensures
            r == has_true(self@),
            r <==> count_true(self@) > 0,
    {
        proof {
            lemma_count_true_zero(self@);
        }
        bitvec_any(&self.possible_states)
    }

    /// Whether exactly one pattern is still allowed.
    pub fn decided(&self) -> (r: bool)
        ensures
            r <==> count_true(self@) == 1,
    {
        bitvec_count_ones(&self.possible_states) == 1
    }

    /// The number of patterns still allowed.
    pub fn popcount(&self) -> (r: u64)
        ensures
            r == count_true(self@),
    {
        bitvec_count_ones(&self.possible_states)
    }

    /// The one pattern of a decided site; `None` for any other site.
    pub fn chosen(&self) -> (r: Option<usize>)
        ensures
            r is Some <==> count_true(self@) == 1,
            r matches Some(k) ==> k < self@.len() && self@ == only(self@.len(), k as int)
                && set_index(self@) == k,
    {
        if !self.decided() {
            return None;
        }
        let ghost k = lemma_count_true_one(self@);
        let n = bitvec_len(&self.possible_states);
        let mut index: usize = 0;
        while index < n
            invariant
                index <= k < n,
                n == self@.len(),
                count_true(self@) == 1,
                forall|i: int| 0 <= i < self@.len() ==> (self@[i] <==> i == k),
            decreases n - index,
        {
            if bitvec_get(&self.possible_states, index) == Some(true) {
                assert(self@ =~= only(self@.len(), index as int));
                return Some(index);
            }
            index += 1;
        }
        None
    }

    /// The pixel that the site shows: the top left pixel of its pattern
    /// where it is decided, else `UNDECIDED_PIXEL`.
    pub fn to_output_state(&self, states: &Vec<Grid>) -> (r: usize)
        requires
            states@.len() == self@.len(),
            forall|i: int|
                0 <= i < states@.len() ==> (#[trigger] states@[i])@.len() > 0 && grid_width(
                    states@[i],
                ) > 0,
        ensures
            r == shown_pixel(self@, grid_views(states@)),
    {
        match self.chosen() {
            Some(chosen_state_index) => states[chosen_state_index].at(0, 0),
            None => UNDECIDED_PIXEL,
        }
    }

    /// The index that `choice` selects among the allowed indices of
    /// `state_counts`, or `None` where `choice` is not below their total weight.
    pub fn masked_weighted_pick(state_counts: &[usize], mask: &BitVec, choice: u128) -> (r: Option<
        usize,
    >)
        requires
            state_counts@.len() == bits(*mask).len(),
        ensures
            r is Some <==> choice < masked_total(count_weights(state_counts@), bits(*mask)),
            r matches Some(i) ==> selects(
                count_weights(state_counts@),
                bits(*mask),
                choice as int,
                i as int,
            ),
    {
        let ghost w = count_weights(state_counts@);
        let ghost m = bits(*mask);
        let mut rest: u128 = choice;
        let mut index: usize = 0;
        while index < state_counts.len()
            invariant
                index <= state_counts@.len(),
                w == count_weights(state_counts@),
                m == bits(*mask),
                m.len() == w.len(),
                rest + masked_prefix(w, m, index as int) == choice,
                rest >= 0,
            decreases state_counts@.len() - index,
        {
            let u = state_counts[index] as u128;
            let allowed = bitvec_get(mask, index);
            if allowed == Some(true) {
                if rest < u {
                    proof {
                        lemma_masked_prefix_monotone(w, m, index + 1, w.len() as int);
                    }
                    return Some(index);
                }
                rest = rest - u;
            }
            index += 1;
        }
        None
    }

    /// An index drawn from the allowed indices of `state_counts`, each in
    /// proportion to its weight; `None` where no allowed index has weight.
    pub fn masked_weighted_choice(state_counts: &[usize], mask: &BitVec, rng: &mut StdRng) -> (r:
        Option<usize>)
        requires
            state_counts@.len() == bits(*mask).len(),
        ensures
            r is Some <==> masked_total(count_weights(state_counts@), bits(*mask)) > 0,
            r matches Some(i) ==> exists|k: int|
                0 <= k < masked_total(count_weights(state_counts@), bits(*mask))
                    && #[trigger] selects(count_weights(state_counts@), bits(*mask), k, i as int),
    {
        let masked_total = PossibilityCell::masked_sum(state_counts, mask);
        if masked_total == 0 {
            return None;
        }
        let choice = draw_below(rng, masked_total);
        PossibilityCell::masked_weighted_pick(state_counts, mask, choice)
    }

    /// The total weight of the allowed indices of `state_counts`.
    pub fn masked_sum(state_counts: &[usize], mask: &BitVec) -> (r: u128)
        requires
            state_counts@.len() == bits(*mask).len(),
        ensures
            r == masked_total(count_weights(state_counts@), bits(*mask)),
    {
        let ghost w = count_weights(state_counts@);
        let ghost m = bits(*mask);
        let mut total: u128 = 0;
        let count = state_counts.len();
        let mut index: usize = 0;
        while index < count
            invariant
                index <= state_counts@.len(),
                count == state_counts@.len(),
                w == count_weights(state_counts@),
                m == bits(*mask),
                m.len() == w.len(),
                total == masked_prefix(w, m, index as int),
            decreases state_counts@.len() - index,
        {
            proof {
                lemma_masked_prefix_fits(w, m, index + 1);
            }
            if bitvec_get(mask, index) == Some(true) {
                total = total + state_counts[index] as u128;
            }
            index += 1;
        }
        total
    }
}

} // verus!
