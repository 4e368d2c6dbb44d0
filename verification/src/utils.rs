//! Weighted choice under a mask, the intersection of many bit vectors, and
//! the quarter turn of a grid.

use crate::bitset::{bits, bitvec_and, bitvec_get};
use crate::grid::{flip_columns, Grid, grid_flipped, grid_transposed, grid_width, transpose};
use bit_vec::BitVec;
use rand::RngExt;
use rand::rngs::StdRng;
use vstd::prelude::*;

verus! {

/// `rand::rngs::StdRng`, made known to the verifier as an opaque type: a
/// generator that is handed through to where a number is drawn.
#[verifier::external_type_specification]
#[verifier::external_body]
pub struct ExStdRng(StdRng);

/// `RngExt::random_range` over `0 .. bound`: some number below `bound`. Which
/// one is the generator's affair. The method panics on an empty range.
#[verifier::external_body]
pub(crate) fn draw_below(rng: &mut StdRng, bound: u128) -> (r: u128)
    requires
        bound > 0,
    ensures
        r < bound,
{
    rng.random_range(0..bound)
}

/// The sum of the first `n` weights whose mask bit is set.
pub open spec fn masked_prefix(weights: Seq<int>, mask: Seq<bool>, n: int) -> int
    decreases n,
{
    if n <= 0 {
        0
    } else {
        masked_prefix(weights, mask, n - 1) + if mask[n - 1] {
            weights[n - 1]
        } else {
            0
        }
    }
}

/// The sum of all weights whose mask bit is set.
pub open spec fn masked_total(weights: Seq<int>, mask: Seq<bool>) -> int {
    masked_prefix(weights, mask, weights.len() as int)
}

/// Whether index `i` is the one that the number `k` selects: the weights of
/// the allowed indices are laid end to end from zero, in index order, and
/// `k` falls into the stretch of `i`.
pub open spec fn selects(weights: Seq<int>, mask: Seq<bool>, k: int, i: int) -> bool {
    &&& 0 <= i < weights.len()
    &&& mask[i]
    &&& masked_prefix(weights, mask, i) <= k < masked_prefix(weights, mask, i + 1)
}

/// The weights of a slice of counts, as integers.
pub open spec fn count_weights(counts: Seq<usize>) -> Seq<int> {
    Seq::new(counts.len(), |i: int| counts[i] as int)
}

/// The weights of a slice of weighted items, as integers.
pub open spec fn item_weights<T>(items: Seq<(T, usize)>) -> Seq<int> {
    Seq::new(items.len(), |i: int| items[i].1 as int)
}

/// The prefix sums of weights that are not negative never decrease.
pub proof fn lemma_masked_prefix_monotone(weights: Seq<int>, mask: Seq<bool>, m: int, n: int)
    requires
        0 <= m <= n <= weights.len(),
        forall|i: int| 0 <= i < weights.len() ==> weights[i] >= 0,
    ensures
        0 <= masked_prefix(weights, mask, m) <= masked_prefix(weights, mask, n),
    decreases n - m,
{
    if m < n {
        lemma_masked_prefix_monotone(weights, mask, m, n - 1);
    } else {
        lemma_masked_prefix_nonnegative(weights, mask, m);
    }
}

/// A prefix sum of weights that are not negative is not negative.
pub proof fn lemma_masked_prefix_nonnegative(weights: Seq<int>, mask: Seq<bool>, n: int)
    requires
        0 <= n <= weights.len(),
        forall|i: int| 0 <= i < weights.len() ==> weights[i] >= 0,
    ensures
        0 <= masked_prefix(weights, mask, n),
    decreases n,
{
    if n > 0 {
        lemma_masked_prefix_nonnegative(weights, mask, n - 1);
    }
}

/// The allowed weights of a list of machine words add up to a number of
/// 128 bits: the sum of the first `n` is at most `n` times the largest
/// word.
pub proof fn lemma_masked_prefix_fits(weights: Seq<int>, mask: Seq<bool>, n: int)
    requires
        0 <= n <= weights.len() <= usize::MAX,
        forall|i: int| 0 <= i < weights.len() ==> 0 <= #[trigger] weights[i] <= usize::MAX,
    ensures
        0 <= masked_prefix(weights, mask, n) <= n * usize::MAX,
        n * usize::MAX <= u128::MAX,
    decreases n,
{
    if n > 0 {
        lemma_masked_prefix_fits(weights, mask, n - 1);
        assert((n - 1) * usize::MAX + usize::MAX == n * usize::MAX) by (nonlinear_arith);
    }
    assert(n * usize::MAX <= u128::MAX) by (nonlinear_arith)
        requires
            0 <= n <= 0xffff_ffff_ffff_ffff,
            usize::MAX <= 0xffff_ffff_ffff_ffff,
    ;
}

/// A number selects at most one index.
pub proof fn lemma_selects_unique(weights: Seq<int>, mask: Seq<bool>, k: int, i: int, j: int)
    requires
        forall|i: int| 0 <= i < weights.len() ==> weights[i] >= 0,
        selects(weights, mask, k, i),
        selects(weights, mask, k, j),
    ensures
        i == j,
{
    if i < j {
        lemma_masked_prefix_monotone(weights, mask, i + 1, j);
    }
    if j < i {
        lemma_masked_prefix_monotone(weights, mask, j + 1, i);
    }
}

/// The numbers that select index `i`.
pub open spec fn selecting(weights: Seq<int>, mask: Seq<bool>, i: int) -> Set<int> {
    Set::new(|k: int| selects(weights, mask, k, i))
}

/// Each allowed index is selected by as many numbers as its weight: of the
/// numbers below the total weight, drawn with equal chance, index `i` gets
/// the share `weights[i]`.
pub proof fn lemma_selecting_count(weights: Seq<int>, mask: Seq<bool>, i: int)
    requires
        0 <= i < weights.len(),
        mask[i],
        forall|i: int| 0 <= i < weights.len() ==> weights[i] >= 0,
    ensures
        selecting(weights, mask, i).finite(),
        selecting(weights, mask, i).len() == weights[i],
        forall|k: int| #[trigger]
            selecting(weights, mask, i).contains(k) ==> 0 <= k < masked_total(weights, mask),
{
    let lo = masked_prefix(weights, mask, i);
    let hi = masked_prefix(weights, mask, i + 1);
    lemma_masked_prefix_monotone(weights, mask, 0, i);
    lemma_masked_prefix_monotone(weights, mask, i + 1, weights.len() as int);
    vstd::set_lib::lemma_int_range(lo, hi);
    assert(selecting(weights, mask, i) =~= vstd::set_lib::set_int_range(lo, hi));
}

/// An index drawn from the allowed items of `input`, each in proportion to
/// its weight; `None` where no allowed item has weight.
pub fn masked_weighted_choice<T>(input: &Vec<(T, usize)>, mask: &BitVec, rng: &mut StdRng) -> (r:
    Option<usize>)
    requires
        input@.len() == bits(*mask).len(),
    ensures
        r is Some <==> masked_total(item_weights(input@), bits(*mask)) > 0,
        r matches Some(i) ==> exists|k: int|
            0 <= k < masked_total(item_weights(input@), bits(*mask)) && #[trigger] selects(
                item_weights(input@),
                bits(*mask),
                k,
                i as int,
            ),
{
    let ghost w = item_weights(input@);
    let ghost m = bits(*mask);
    let mut total: u128 = 0;
    let count = input.len();
    let mut index: usize = 0;
    while index < count
        invariant
            index <= input@.len(),
            count == input@.len(),
            w == item_weights(input@),
            m == bits(*mask),
            m.len() == w.len(),
            total == masked_prefix(w, m, index as int),
        decreases input@.len() - index,
    {
        proof {
            lemma_masked_prefix_fits(w, m, index + 1);
        }
        if bitvec_get(mask, index) == Some(true) {
            total = total + input[index].1 as u128;
        }
        index += 1;
    }
    if total == 0 {
        return None;
    }
    let choice = draw_below(rng, total);
    masked_weighted_choice_at(input, mask, choice)
}

/// The index that `choice` selects among the allowed items of `input`, or
/// `None` where `choice` is not below their total weight.
pub fn masked_weighted_choice_at<T>(input: &Vec<(T, usize)>, mask: &BitVec, choice: u128) -> (r:
    Option<usize>)
    requires
        input@.len() == bits(*mask).len(),
    ensures
        r is Some <==> choice < masked_total(item_weights(input@), bits(*mask)),
        r matches Some(i) ==> selects(item_weights(input@), bits(*mask), choice as int, i as int),
{
    let ghost w = item_weights(input@);
    let ghost m = bits(*mask);
    let mut rest: u128 = choice;
    let mut index: usize = 0;
    while index < input.len()
        invariant
            index <= input@.len(),
            w == item_weights(input@),
            m == bits(*mask),
            m.len() == w.len(),
            rest + masked_prefix(w, m, index as int) == choice,
        decreases input@.len() - index,
    {
        let u = input[index].1 as u128;
        if bitvec_get(mask, index) == Some(true) {
            if rest < u {
                proof {
                    lemma_masked_prefix_monotone(w, m, index + 1, w.len() as int);
                }
                return Some(index);
            }
            rest = rest - u;
        }
        index += 1;
    }
    None
}

/// Whether bit `i` is set in every vector of `sets`.
pub open spec fn in_all(sets: Seq<BitVec>, i: int) -> bool {
    forall|k: int| 0 <= k < sets.len() ==> (#[trigger] bits(sets[k]))[i]
}

/// The intersection of all vectors of `sets`, or `None` where there is none
/// to intersect.
pub fn mass_intersect(sets: Vec<BitVec>) -> (r: Option<BitVec>)
    requires
        forall|j: int, k: int|
            0 <= j < sets@.len() && 0 <= k < sets@.len() ==> (#[trigger] bits(sets@[j])).len() == (
            #[trigger] bits(sets@[k])).len(),
    ensures
        r is None <==> sets@.len() == 0,
        r matches Some(v) ==> bits(v).len() == bits(sets@[0]).len() && forall|i: int|
            0 <= i < bits(v).len() ==> (#[trigger] bits(v)[i] <==> in_all(sets@, i)),
{
    let ghost all = sets@;
    let mut rest = sets;
    let mut output: Option<BitVec> = None;
    while rest.len() > 0
        invariant
            rest@.len() <= all.len(),
            rest@ == all.subrange(0, rest@.len() as int),
            forall|j: int, k: int|
                0 <= j < all.len() && 0 <= k < all.len() ==> (#[trigger] bits(all[j])).len() == (
                #[trigger] bits(all[k])).len(),
            output is None <==> rest@.len() == all.len(),
            output matches Some(v) ==> bits(v).len() == bits(all[0]).len() && forall|i: int|
                0 <= i < bits(v).len() ==> (#[trigger] bits(v)[i] <==> in_all(
                    all.subrange(rest@.len() as int, all.len() as int),
                    i,
                )),
        decreases rest@.len(),
    {
        let ghost before = rest@.len();
        let bv = rest.pop().unwrap();
        assert(bv == all[before - 1]);
        let ghost tail_old = all.subrange(before as int, all.len() as int);
        let ghost tail_new = all.subrange(before - 1, all.len() as int);
        assert(tail_new[0] == bv);
        assert(forall|k: int| 0 <= k < tail_old.len() ==> tail_old[k] == tail_new[k + 1]);
        match output {
            None => {
                assert forall|i: int| 0 <= i < bits(bv).len() implies (#[trigger] bits(bv)[i]
                    <==> in_all(tail_new, i)) by {
                    if bits(bv)[i] {
                        assert forall|k: int| 0 <= k < tail_new.len() implies (#[trigger] bits(
                            tail_new[k],
                        ))[i] by {}
                    }
                    if in_all(tail_new, i) {
                        assert(bits(tail_new[0])[i]);
                    }
                }
                output = Some(bv);
            },
            Some(mut v) => {
                let ghost prev = bits(v);
                bitvec_and(&mut v, &bv);
                assert forall|i: int| 0 <= i < bits(v).len() implies (#[trigger] bits(v)[i]
                    <==> in_all(tail_new, i)) by {
                    if bits(v)[i] {
                        assert(prev[i] && bits(bv)[i]);
                        assert(in_all(tail_old, i));
                        assert forall|k: int| 0 <= k < tail_new.len() implies (#[trigger] bits(
                            tail_new[k],
                        ))[i] by {
                            if k > 0 {
                                assert(tail_new[k] == tail_old[k - 1]);
                            }
                        }
                    }
                    if in_all(tail_new, i) {
                        assert(bits(tail_new[0])[i]);
                        assert forall|k: int| 0 <= k < tail_old.len() implies (#[trigger] bits(
                            tail_old[k],
                        ))[i] by {
                            assert(tail_old[k] == tail_new[k + 1]);
                        }
                    }
                }
                output = Some(v);
            },
        }
    }
    proof {
        assert(all.subrange(0, all.len() as int) =~= all);
        if output is Some {
            assert(rest@.len() < all.len());
        }
    }
    output
}

/// The grid turned a quarter turn clockwise: the pixel at `(y, x)` of the
/// result is the one at `(h - 1 - x, y)` of a grid of `h` rows.
pub open spec fn rotated(rows: Seq<Seq<usize>>, width: nat) -> Seq<Seq<usize>> {
    Seq::new(width, |y: int| Seq::new(rows.len(), |x: int| rows[rows.len() - 1 - x][y]))
}

/// The grid turned a quarter turn clockwise.
pub fn rotate_90_clockwise(image_data: &Grid) -> (r: Grid)
    ensures
        r@ == rotated(image_data@, grid_width(*image_data)),
        grid_width(r) == image_data@.len(),
{
    let output = grid_transposed(image_data);
    let r = grid_flipped(&output);
    proof {
        let rows = image_data@;
        let w = grid_width(*image_data);
        let t = transpose(rows, w);
        assert(output@ == t);
        assert(r@ == flip_columns(t, rows.len()));
        assert(r@.len() == rotated(rows, w).len());
        assert forall|y: int| 0 <= y < r@.len() implies r@[y] == rotated(rows, w)[y] by {
            assert(r@[y] =~= rotated(rows, w)[y]);
        }
        assert(r@ =~= rotated(rows, w));
    }
    r
}

} // verus!
