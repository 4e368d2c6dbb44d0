//! The compatibility oracle: for each pattern and each displacement, the set
//! of patterns that may lie at that displacement from it.

use crate::bitset::{bits, bitvec_from_elem, bitvec_get, bitvec_set};
use crate::grid::Grid;
use crate::offset::Offset2D;
use crate::patch::{agree_at, compatible, Patch2D};
use bit_vec::BitVec;
use itertools::Itertools;
use vstd::arithmetic::div_mod::lemma_fundamental_div_mod_converse;
use vstd::prelude::*;

verus! {

/// The pairs `(y, x)` with `y0 <= y < y1` and `x0 <= x < x1`, ordered by `y`
/// and then by `x`.
pub open spec fn product_of_ranges(y0: int, y1: int, x0: int, x1: int) -> Seq<(isize, isize)> {
    if y0 < y1 && x0 < x1 {
        Seq::new(
            ((y1 - y0) * (x1 - x0)) as nat,
            |k: int| ((y0 + k / (x1 - x0)) as isize, (x0 + k % (x1 - x0)) as isize),
        )
    } else {
        Seq::empty()
    }
}

/// `Itertools::cartesian_product` of the ranges `y_min .. y_max` and
/// `x_min .. x_max`, collected: every pair of one element of each, the
/// first range outermost.
#[verifier::external_body]
pub(crate) fn offset_pairs(y_min: isize, y_max: isize, x_min: isize, x_max: isize) -> (r: Vec<
    (isize, isize),
>)
    ensures
        r@ == product_of_ranges(y_min as int, y_max as int, x_min as int, x_max as int),
{
    (y_min..y_max).cartesian_product(x_min..x_max).collect()
}

/// Two patterns agree at a displacement exactly when they agree, with
/// their roles exchanged, at the opposite displacement.
pub proof fn lemma_compatible_symmetric(a: Seq<Seq<usize>>, b: Seq<Seq<usize>>, dy: int, dx: int)
    ensures
        compatible(a, b, dy, dx) <==> compatible(b, a, -dy, -dx),
{
    if compatible(a, b, dy, dx) {
        assert forall|y: int, x: int| #[trigger] agree_at(b, a, -dy, -dx, y, x) by {
            assert(agree_at(a, b, dy, dx, y - dy, x - dx));
        }
    }
    if compatible(b, a, -dy, -dx) {
        assert forall|y: int, x: int| #[trigger] agree_at(a, b, dy, dx, y, x) by {
            assert(agree_at(b, a, -dy, -dx, y + dy, x + dx));
        }
    }
}

/// A pattern agrees with itself where it lies.
pub proof fn lemma_compatible_reflexive(a: Seq<Seq<usize>>)
    ensures
        compatible(a, a, 0, 0),
{
    assert forall|y: int, x: int| #[trigger] agree_at(a, a, 0, 0, y, x) by {}
}

/// Two patterns of one shape that agree where they lie are the same.
pub proof fn lemma_compatible_at_origin(a: Seq<Seq<usize>>, b: Seq<Seq<usize>>, width: nat)
    requires
        a.len() == b.len(),
        forall|y: int| 0 <= y < a.len() ==> (#[trigger] a[y]).len() == width,
        forall|y: int| 0 <= y < b.len() ==> (#[trigger] b[y]).len() == width,
    ensures
        compatible(a, b, 0, 0) <==> a == b,
{
    if compatible(a, b, 0, 0) {
        assert forall|y: int| 0 <= y < a.len() implies a[y] == b[y] by {
            assert forall|x: int| 0 <= x < a[y].len() implies a[y][x] == b[y][x] by {
                assert(agree_at(a, b, 0, 0, y, x));
            }
            assert(a[y] =~= b[y]);
        }
        assert(a =~= b);
    }
    if a == b {
        lemma_compatible_reflexive(a);
    }
}

/// The oracle's table. For patterns `0 .. states()` and displacements
/// `(dy, dx)` with `-reach().0 < dy < reach().0` and
/// `-reach().1 < dx < reach().1`, `bit(i, dy, dx, j)` tells whether pattern
/// `j` may lie at `(dy, dx)` from pattern `i`.
pub struct CompatibilityMap {
    rows: Vec<Vec<BitVec>>,
    patch_size: (usize, usize),
    num_states: usize,
}

impl CompatibilityMap {
    /// The number of patterns.
    pub closed spec fn states(&self) -> nat {
        self.num_states as nat
    }

    /// The patch size: displacements range below it on either side of zero.
    pub closed spec fn reach(&self) -> (nat, nat) {
        (self.patch_size.0 as nat, self.patch_size.1 as nat)
    }

    /// Where the row of a displacement stands in the table.
    pub closed spec fn slot(&self, dy: int, dx: int) -> int {
        (dy + self.patch_size.0 - 1) * (2 * self.patch_size.1 - 1) + (dx + self.patch_size.1 - 1)
    }

    /// Whether pattern `j` may lie at `(dy, dx)` from pattern `i`.
    pub closed spec fn bit(&self, i: int, dy: int, dx: int, j: int) -> bool {
        bits(self.rows@[self.slot(dy, dx)]@[i])[j]
    }

    /// Whether `(dy, dx)` is a displacement that the table covers.
    pub open spec fn covers(&self, dy: int, dx: int) -> bool {
        -self.reach().0 < dy < self.reach().0 && -self.reach().1 < dx < self.reach().1
    }

    /// The table holds a row of the right length for each pattern and each
    /// displacement.
    pub closed spec fn wf(&self) -> bool {
        &&& self.patch_size.0 >= 1
        &&& self.patch_size.1 >= 1
        &&& self.rows@.len() == (2 * self.patch_size.0 - 1) * (2 * self.patch_size.1 - 1)
        &&& (2 * self.patch_size.0 - 1) * (2 * self.patch_size.1 - 1) <= isize::MAX
        &&& 2 * self.patch_size.0 - 1 <= isize::MAX
        &&& 2 * self.patch_size.1 - 1 <= isize::MAX
        &&& forall|k: int|
            0 <= k < self.rows@.len() ==> (#[trigger] self.rows@[k])@.len() == self.num_states
        &&& forall|k: int, i: int|
            0 <= k < self.rows@.len() && 0 <= i < self.num_states ==> (#[trigger] bits(
                self.rows@[k]@[i],
            )).len() == self.num_states
    }

    /// The table for `states`, each row computed by laying two patterns over
    /// one another.
    pub fn generate(states: &Vec<Grid>, patch_size: (usize, usize)) -> (r: Self)
        requires
            patch_size.0 >= 1,
            patch_size.1 >= 1,
            (2 * patch_size.0 - 1) * (2 * patch_size.1 - 1) <= isize::MAX,
        ensures
            r.wf(),
            r.states() == states@.len(),
            r.reach() == (patch_size.0 as nat, patch_size.1 as nat),
            forall|i: int, dy: int, dx: int, j: int|
                0 <= i < states@.len() && 0 <= j < states@.len() && r.covers(dy, dx)
                    ==> #[trigger] r.bit(i, dy, dx, j) == compatible(
                    states@[i]@,
                    states@[j]@,
                    dy,
                    dx,
                ),
            forall|i: int, dy: int, dx: int, j: int|
                0 <= i < states@.len() && 0 <= j < states@.len() && r.covers(dy, dx)
                    ==> #[trigger] r.bit(i, dy, dx, j) == r.bit(j, -dy, -dx, i),
            forall|i: int| 0 <= i < states@.len() ==> #[trigger] r.bit(i, 0, 0, i),
    {
        let ghost span_y = 2 * patch_size.0 - 1;
        let ghost span_x = 2 * patch_size.1 - 1;
        proof {
            assert(span_y <= span_y * span_x) by (nonlinear_arith)
                requires
                    span_y >= 1,
                    span_x >= 1,
            ;
            assert(span_x <= span_y * span_x) by (nonlinear_arith)
                requires
                    span_y >= 1,
                    span_x >= 1,
            ;
        }
        let y_min: isize = -((patch_size.0 - 1) as isize);
        let y_max: isize = patch_size.0 as isize;
        let x_min: isize = -((patch_size.1 - 1) as isize);
        let x_max: isize = patch_size.1 as isize;
        let offsets = offset_pairs(y_min, y_max, x_min, x_max);
        assert(offsets@.len() == span_y * span_x);
        let num_states = states.len();
        let mut rows: Vec<Vec<BitVec>> = Vec::new();
        let mut k: usize = 0;
        while k < offsets.len()
            invariant
                k <= offsets@.len(),
                k == rows@.len(),
                num_states == states@.len(),
                span_y == 2 * patch_size.0 - 1,
                span_x == 2 * patch_size.1 - 1,
                span_x >= 1,
                offsets@.len() == span_y * span_x,
                offsets@ == product_of_ranges(
                    y_min as int,
                    y_max as int,
                    x_min as int,
                    x_max as int,
                ),
                y_min == -(patch_size.0 - 1),
                x_min == -(patch_size.1 - 1),
                y_max == patch_size.0,
                x_max == patch_size.1,
                forall|k0: int| 0 <= k0 < k ==> (#[trigger] rows@[k0])@.len() == num_states,
                forall|k0: int, i: int|
                    0 <= k0 < k && 0 <= i < num_states ==> (#[trigger] bits(rows@[k0]@[i])).len()
                        == num_states,
                forall|k0: int, i: int, j: int|
                    0 <= k0 < k && 0 <= i < num_states && 0 <= j < num_states ==> (#[trigger] bits(
                        rows@[k0]@[i],
                    )[j]) == compatible(
                        states@[i]@,
                        states@[j]@,
                        offsets@[k0].0 as int,
                        offsets@[k0].1 as int,
                    ),
            decreases offsets@.len() - k,
        {
            let offset = offsets[k];
            let mut per_state: Vec<BitVec> = Vec::new();
            let mut i: usize = 0;
            while i < num_states
                invariant
                    i <= num_states,
                    i == per_state@.len(),
                    num_states == states@.len(),
                    forall|i0: int| 0 <= i0 < i ==> (#[trigger] bits(per_state@[i0])).len()
                        == num_states,
                    forall|i0: int, j: int|
                        0 <= i0 < i && 0 <= j < num_states ==> (#[trigger] bits(
                            per_state@[i0],
                        )[j]) == compatible(
                            states@[i0]@,
                            states@[j]@,
                            offset.0 as int,
                            offset.1 as int,
                        ),
                decreases num_states - i,
            {
                let mut compatible_states = bitvec_from_elem(num_states, false);
                let mut j: usize = 0;
                while j < num_states
                    invariant
                        j <= num_states,
                        i < num_states,
                        num_states == states@.len(),
                        bits(compatible_states).len() == num_states,
                        forall|j0: int|
                            j <= j0 < num_states ==> !(#[trigger] bits(compatible_states)[j0]),
                        forall|j0: int|
                            0 <= j0 < j ==> (#[trigger] bits(compatible_states)[j0]) == compatible(
                                states@[i as int]@,
                                states@[j0]@,
                                offset.0 as int,
                                offset.1 as int,
                            ),
                    decreases num_states - j,
                {
                    if states[i].compare_at(&states[j], Offset2D(offset.0, offset.1)) {
                        bitvec_set(&mut compatible_states, j, true);
                    }
                    j += 1;
                }
                per_state.push(compatible_states);
                i += 1;
            }
            rows.push(per_state);
            k += 1;
        }
        let r = CompatibilityMap { rows, patch_size, num_states };
        proof {
            assert forall|i: int, dy: int, dx: int, j: int|
                0 <= i < states@.len() && 0 <= j < states@.len() && r.covers(
                    dy,
                    dx,
                ) implies #[trigger] r.bit(i, dy, dx, j) == compatible(
                states@[i]@,
                states@[j]@,
                dy,
                dx,
            ) by {
                let a = dy + patch_size.0 - 1;
                let b = dx + patch_size.1 - 1;
                let slot = a * span_x + b;
                assert(r.slot(dy, dx) == slot);
                assert(0 <= slot < span_y * span_x) by (nonlinear_arith)
                    requires
                        0 <= a < span_y,
                        0 <= b < span_x,
                        slot == a * span_x + b,
                ;
                lemma_fundamental_div_mod_converse(slot, span_x, a, b);
                assert(offsets@[slot] == (dy as isize, dx as isize));
            }
            assert forall|i: int, dy: int, dx: int, j: int|
                0 <= i < states@.len() && 0 <= j < states@.len() && r.covers(
                    dy,
                    dx,
                ) implies #[trigger] r.bit(i, dy, dx, j) == r.bit(j, -dy, -dx, i) by {
                assert(r.covers(-dy, -dx));
                lemma_compatible_symmetric(states@[i]@, states@[j]@, dy, dx);
            }
            assert forall|i: int| 0 <= i < states@.len() implies #[trigger] r.bit(i, 0, 0, i) by {
                assert(r.covers(0, 0));
                lemma_compatible_reflexive(states@[i]@);
            }
        }
        r
    }

    /// The patterns that may lie at `(dy, dx)` from pattern `i`.
    pub fn row(&self, i: usize, dy: isize, dx: isize) -> (r: &BitVec)
        requires
            self.wf(),
            i < self.states(),
            self.covers(dy as int, dx as int),
        ensures
            bits(*r).len() == self.states(),
            forall|j: int|
                0 <= j < self.states() ==> bits(*r)[j] == #[trigger] self.bit(
                    i as int,
                    dy as int,
                    dx as int,
                    j,
                ),
    {
        let span_x = 2 * self.patch_size.1 - 1;
        let a = (dy + (self.patch_size.0 - 1) as isize) as usize;
        let b = (dx + (self.patch_size.1 - 1) as isize) as usize;
        proof {
            let span_y = 2 * self.patch_size.0 - 1;
            assert(0 <= a * span_x + b < span_y * span_x) by (nonlinear_arith)
                requires
                    0 <= a < span_y,
                    0 <= b < span_x,
            ;
            assert(0 <= a * span_x <= a * span_x + b) by (nonlinear_arith)
                requires
                    0 <= a,
                    0 <= b,
                    0 <= span_x,
            ;
        }
        let slot = a * span_x + b;
        &self.rows[slot][i]
    }

    /// Whether pattern `j` may lie at `offset` from pattern `i`; `false` for
    /// a pattern or a displacement that the table does not cover.
    pub fn allows(&self, i: usize, offset: (isize, isize), j: usize) -> (r: bool)
        requires
            self.wf(),
        ensures
            r == (i < self.states() && j < self.states() && self.covers(
                offset.0 as int,
                offset.1 as int,
            ) && self.bit(i as int, offset.0 as int, offset.1 as int, j as int)),
    {
        if i >= self.num_states || j >= self.num_states {
            return false;
        }
        let reach_y = self.patch_size.0 as isize;
        let reach_x = self.patch_size.1 as isize;
        if offset.0 <= -reach_y || offset.0 >= reach_y || offset.1 <= -reach_x || offset.1
            >= reach_x {
            return false;
        }
        bitvec_get(self.row(i, offset.0, offset.1), j) == Some(true)
    }
}

} // verus!
