//! The wave: one possibility cell for each site of the output, kept in an
//! `ndarray` array, and what is taken on trust about that array.
//!
//! `wave_rows` and `wave_width` name what a `Wave` holds. The functions
//! marked `external_body` state, over those names, what one operation of
//! `ndarray` does; their contracts are read off the crate's source.

use crate::consistency::{full, wave_shape, with_cell};
use crate::grid::{at_least_one, shape_fits};
use crate::possibilitycell::PossibilityCell;
use ndarray::Array2;
use vstd::prelude::*;

verus! {

/// A rectangular array of possibility cells.
#[verifier::external_body]
pub struct Wave {
    cells: Array2<PossibilityCell>,
}

/// The rows of a wave, top to bottom, each left to right.
pub uninterp spec fn wave_rows(w: Wave) -> Seq<Seq<PossibilityCell>>;

/// The number of columns of a wave.
pub uninterp spec fn wave_width(w: Wave) -> nat;

/// `cells` cut into `h` rows of `w` cells.
pub open spec fn cell_rows_of(cells: Seq<PossibilityCell>, h: nat, w: nat) -> Seq<
    Seq<PossibilityCell>,
> {
    Seq::new(h, |y: int| cells.subrange(y * w, y * w + w))
}

/// Every row has `width` cells.
pub open spec fn cell_rows_rectangular(rows: Seq<Seq<PossibilityCell>>, width: nat) -> bool {
    forall|y: int| 0 <= y < rows.len() ==> (#[trigger] rows[y]).len() == width
}

/// `Array2::from_shape_vec` with a shape of two lengths: the array that
/// holds `cells` row after row, or `None` where `ndarray` reports a shape
/// error.
#[verifier::external_body]
pub(crate) fn wave_from_shape_vec(h: usize, w: usize, cells: Vec<PossibilityCell>) -> (r: Option<
    Wave,
>)
    ensures
        r is Some <==> shape_fits(h as int, w as int, cells@.len() as int),
        r matches Some(g) ==> wave_rows(g) == cell_rows_of(cells@, h as nat, w as nat)
            && wave_width(g) == w,
{
    Array2::from_shape_vec((h, w), cells).ok().map(|cells| Wave { cells })
}

/// `ArrayBase::dim`: the numbers of rows and of columns. Every row of an
/// array has as many cells as the array has columns.
#[verifier::external_body]
pub(crate) fn wave_dim(w: &Wave) -> (r: (usize, usize))
    ensures
        r.0 == wave_rows(*w).len(),
        r.1 == wave_width(*w),
        cell_rows_rectangular(wave_rows(*w), r.1 as nat),
{
    w.cells.dim()
}

/// `Index::index` of an `ndarray` array, with an index of two coordinates:
/// the cell at row `y` and column `x`. Indexing panics out of bounds.
#[verifier::external_body]
pub(crate) fn wave_cell(w: &Wave, y: usize, x: usize) -> (r: &PossibilityCell)
    requires
        y < wave_rows(*w).len(),
        x < wave_width(*w),
    ensures
        *r == wave_rows(*w)[y as int][x as int],
{
    &w.cells[(y, x)]
}

/// `IndexMut::index_mut` of an `ndarray` array, with an index of two
/// coordinates: the cell at row `y` and column `x`, to be changed in place.
/// No other cell changes. Indexing panics out of bounds.
#[verifier::external_body]
pub(crate) fn wave_cell_mut(w: &mut Wave, y: usize, x: usize) -> (r: &mut PossibilityCell)
    requires
        y < wave_rows(*old(w)).len(),
        x < wave_width(*old(w)),
    ensures
        *r == wave_rows(*old(w))[y as int][x as int],
        wave_rows(*final(w)) == wave_rows(*old(w)).update(
            y as int,
            wave_rows(*old(w))[y as int].update(x as int, *final(r)),
        ),
        wave_width(*final(w)) == wave_width(*old(w)),
{
    &mut w.cells[(y, x)]
}

impl View for Wave {
    type V = Seq<Seq<Seq<bool>>>;

    /// The bits of every cell, by row, column and pattern.
    open spec fn view(&self) -> Seq<Seq<Seq<bool>>> {
        bits_of_rows(wave_rows(*self))
    }
}

/// The bits of every cell of the rows, by row, column and pattern.
pub open spec fn bits_of_rows(rows: Seq<Seq<PossibilityCell>>) -> Seq<Seq<Seq<bool>>> {
    Seq::new(rows.len(), |y: int| Seq::new(rows[y].len(), |x: int| rows[y][x]@))
}

/// Replacing a cell replaces its bits and no others.
pub proof fn lemma_bits_of_rows_update(
    rows: Seq<Seq<PossibilityCell>>,
    y: int,
    x: int,
    cell: PossibilityCell,
)
    requires
        0 <= y < rows.len(),
        0 <= x < rows[y].len(),
    ensures
        bits_of_rows(rows.update(y, rows[y].update(x, cell))) == with_cell(
            bits_of_rows(rows),
            y,
            x,
            cell@,
        ),
{
    let lhs = bits_of_rows(rows.update(y, rows[y].update(x, cell)));
    let rhs = with_cell(bits_of_rows(rows), y, x, cell@);
    assert(lhs.len() == rhs.len());
    assert forall|y0: int| 0 <= y0 < lhs.len() implies lhs[y0] == rhs[y0] by {
        assert(lhs[y0] =~= rhs[y0]);
    }
    assert(lhs =~= rhs);
}

impl Wave {
    /// A wave of `h` rows and `w` columns in which every site allows each of
    /// `num_states` patterns; `None` where the shape is too large for the
    /// machine.
    pub fn new(h: usize, w: usize, num_states: usize) -> (r: Option<Wave>)
        ensures
            r is Some <==> at_least_one(h as int) * at_least_one(w as int) <= isize::MAX,
            r matches Some(wave) ==> wave_shape(wave@, h as nat, w as nat, num_states as nat)
                && wave_width(wave) == w && forall|y: int, x: int|
                0 <= y < h && 0 <= x < w ==> full(#[trigger] wave@[y][x]),
    {
        let total = match h.checked_mul(w) {
            Some(total) => total,
            None => {
                proof {
                    assert(at_least_one(h as int) * at_least_one(w as int) >= h * w)
                        by (nonlinear_arith)
                        requires
                            at_least_one(h as int) >= h,
                            at_least_one(w as int) >= w,
                            h >= 0,
                            w >= 0,
                    ;
                }
                return None;
            },
        };
        let mut cells: Vec<PossibilityCell> = Vec::new();
        let mut k: usize = 0;
        while k < total
            invariant
                k <= total,
                cells@.len() == k,
                forall|c: int|
                    0 <= c < k ==> (#[trigger] cells@[c])@ == Seq::new(
                        num_states as nat,
                        |i: int| true,
                    ),
            decreases total - k,
        {
            cells.push(PossibilityCell::new(num_states));
            k += 1;
        }
        let ghost all = cells@;
        let r = wave_from_shape_vec(h, w, cells);
        proof {
            if r is Some {
                let wave = r->0;
                assert forall|y: int| 0 <= y < h implies (#[trigger] wave@[y]).len() == w by {
                    lemma_row_bounds(y, h as int, w as int);
                }
                assert forall|y: int, x: int| 0 <= y < h && 0 <= x < w implies (
                #[trigger] wave@[y][x]).len() == num_states && full(wave@[y][x]) by {
                    lemma_row_bounds(y, h as int, w as int);
                    assert(wave_rows(wave)[y][x] == all[y * w + x]);
                }
            }
        }
        r
    }

    /// The numbers of rows and of columns.
    pub fn dim(&self) -> (r: (usize, usize))
        ensures
            r.0 == self@.len(),
            r.1 == wave_width(*self),
            forall|y: int| 0 <= y < self@.len() ==> (#[trigger] self@[y]).len() == r.1,
    {
        wave_dim(self)
    }

    /// The cell at row `y` and column `x`.
    pub fn cell(&self, y: usize, x: usize) -> (r: &PossibilityCell)
        requires
            y < self@.len(),
            x < wave_width(*self),
        ensures
            r@ == self@[y as int][x as int],
    {
        let dim = wave_dim(self);
        wave_cell(self, y, x)
    }

    /// The cell at row `y` and column `x`, to be changed in place. No other
    /// cell changes.
    pub fn cell_mut(&mut self, y: usize, x: usize) -> (r: &mut PossibilityCell)
        requires
            y < old(self)@.len(),
            x < wave_width(*old(self)),
        ensures
            r@ == old(self)@[y as int][x as int],
            final(self)@ == with_cell(old(self)@, y as int, x as int, final(r)@),
            wave_width(*final(self)) == wave_width(*old(self)),
    {
        let dim = wave_dim(self);
        let ghost before = wave_rows(*self);
        proof {
            assert forall|cell: PossibilityCell|
                bits_of_rows(
                    before.update(y as int, #[trigger] before[y as int].update(x as int, cell)),
                ) == with_cell(bits_of_rows(before), y as int, x as int, cell@) by {
                lemma_bits_of_rows_update(before, y as int, x as int, cell);
            }
        }
        wave_cell_mut(self, y, x)
    }
}

/// Row `y` of `h` rows of `w` entries lies within the `h * w` entries.
proof fn lemma_row_bounds(y: int, h: int, w: int)
    requires
        0 <= y < h,
        0 <= w,
    ensures
        0 <= y * w,
        y * w + w <= h * w,
{
    assert(0 <= y * w) by (nonlinear_arith)
        requires
            0 <= y,
            0 <= w,
    ;
    assert(y * w + w <= h * w) by (nonlinear_arith)
        requires
            0 <= y < h,
            0 <= w,
    ;
}

} // verus!
