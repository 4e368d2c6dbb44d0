//! Two-dimensional arrays of pixels, kept in `ndarray` arrays, and what is
//! taken on trust about them.
//!
//! The verifier cannot look into an `ndarray::Array2`. `grid_rows` and
//! `grid_width` name what a `Grid` holds, and each function marked
//! `external_body` states, over those names, what one operation of `ndarray`
//! does. Those contracts are read off the crate's source, not proved.

use ndarray::{Array2, Axis};
use vstd::prelude::*;

verus! {

/// A rectangular array of pixels. A pixel is an opaque machine word: only
/// its identity matters.
#[verifier::external_body]
#[derive(Debug, PartialEq, Eq)]
pub struct Grid {
    cells: Array2<usize>,
}

/// The rows of a grid, top to bottom, each left to right.
pub uninterp spec fn grid_rows(g: Grid) -> Seq<Seq<usize>>;

/// The number of columns of a grid. (The rows alone do not tell it when
/// there are none.)
pub uninterp spec fn grid_width(g: Grid) -> nat;

impl View for Grid {
    type V = Seq<Seq<usize>>;

    open spec fn view(&self) -> Seq<Seq<usize>> {
        grid_rows(*self)
    }
}

/// Every row has `width` entries.
pub open spec fn rectangular(rows: Seq<Seq<usize>>, width: nat) -> bool {
    forall|y: int| 0 <= y < rows.len() ==> (#[trigger] rows[y]).len() == width
}

/// `n`, or one where `n` is zero.
pub open spec fn at_least_one(n: int) -> int {
    if n == 0 {
        1
    } else {
        n
    }
}

/// Whether `ndarray` accepts `len` elements as an array of `h` rows and `w`
/// columns: the counts agree, and the product of the axis lengths that are
/// not zero fits a signed machine word.
pub open spec fn shape_fits(h: int, w: int, len: int) -> bool {
    h * w == len && at_least_one(h) * at_least_one(w) <= isize::MAX
}

/// `data` cut into `h` rows of `w` entries.
pub open spec fn rows_of(data: Seq<usize>, h: nat, w: nat) -> Seq<Seq<usize>> {
    Seq::new(h, |y: int| data.subrange(y * w, y * w + w))
}

/// The window of `wh` rows and `ww` columns whose top left corner is at
/// `(y, x)`.
pub open spec fn window_at(rows: Seq<Seq<usize>>, y: int, x: int, wh: nat, ww: nat) -> Seq<
    Seq<usize>,
> {
    Seq::new(wh, |dy: int| rows[y + dy].subrange(x, x + ww))
}

/// All windows of `wh` rows and `ww` columns that fit into the grid, by
/// their top left corners in row-major order.
pub open spec fn windows_of(rows: Seq<Seq<usize>>, width: nat, wh: nat, ww: nat) -> Seq<
    Seq<Seq<usize>>,
> {
    if rows.len() < wh || width < ww {
        Seq::empty()
    } else {
        Seq::new(
            ((rows.len() - wh + 1) * (width - ww + 1)) as nat,
            |k: int| window_at(rows, k / (width - ww + 1), k % (width - ww + 1), wh, ww),
        )
    }
}

/// Rows and columns exchanged.
pub open spec fn transpose(rows: Seq<Seq<usize>>, width: nat) -> Seq<Seq<usize>> {
    Seq::new(width, |x: int| Seq::new(rows.len(), |y: int| rows[y][x]))
}

/// Each row reversed.
pub open spec fn flip_columns(rows: Seq<Seq<usize>>, width: nat) -> Seq<Seq<usize>> {
    Seq::new(rows.len(), |y: int| Seq::new(width, |x: int| rows[y][width - 1 - x]))
}

/// The views of a sequence of grids.
pub open spec fn grid_views(grids: Seq<Grid>) -> Seq<Seq<Seq<usize>>> {
    Seq::new(grids.len(), |k: int| grid_rows(grids[k]))
}

/// Every grid of the sequence has `width` columns.
pub open spec fn all_of_width(grids: Seq<Grid>, width: nat) -> bool {
    forall|k: int| 0 <= k < grids.len() ==> grid_width(#[trigger] grids[k]) == width
}

/// `Array2::from_shape_vec` with a shape of two lengths: the array that
/// holds `data` row after row, or `None` where `ndarray` reports a shape
/// error.
#[verifier::external_body]
pub(crate) fn grid_from_shape_vec(h: usize, w: usize, data: Vec<usize>) -> (r: Option<Grid>)
    ensures
        r is Some <==> shape_fits(h as int, w as int, data@.len() as int),
        r matches Some(g) ==> grid_rows(g) == rows_of(data@, h as nat, w as nat) && grid_width(g)
            == w,
{
    Array2::from_shape_vec((h, w), data).ok().map(|cells| Grid { cells })
}

/// `ArrayBase::dim`: the numbers of rows and of columns. Every row of an
/// array has as many entries as the array has columns.
#[verifier::external_body]
pub(crate) fn grid_dim(g: &Grid) -> (r: (usize, usize))
    ensures
        r.0 == grid_rows(*g).len(),
        r.1 == grid_width(*g),
        rectangular(grid_rows(*g), r.1 as nat),
{
    g.cells.dim()
}

/// `ArrayBase::get` with an index of two coordinates: the pixel at row `y`
/// and column `x`, or `None` where either is out of bounds.
#[verifier::external_body]
pub(crate) fn grid_get(g: &Grid, y: usize, x: usize) -> (r: Option<usize>)
    ensures
        y < grid_rows(*g).len() && x < grid_width(*g) ==> r == Some(
            grid_rows(*g)[y as int][x as int],
        ),
        y >= grid_rows(*g).len() || x >= grid_width(*g) ==> r is None,
{
    g.cells.get((y, x)).copied()
}

/// `ArrayBase::windows`, each window copied into an array of its own: all
/// windows of `wh` rows and `ww` columns that fit, by their top left corners
/// in row-major order. The method panics when a window length is zero.
#[verifier::external_body]
pub(crate) fn grid_windows(g: &Grid, wh: usize, ww: usize) -> (r: Vec<Grid>)
    requires
        wh >= 1,
        ww >= 1,
    ensures
        grid_views(r@) == windows_of(grid_rows(*g), grid_width(*g), wh as nat, ww as nat),
        all_of_width(r@, ww as nat),
{
    g.cells.windows((wh, ww)).into_iter().map(|w| Grid { cells: w.to_owned() }).collect()
}

/// `ArrayBase::t`, copied into an array of its own: rows and columns
/// exchanged.
#[verifier::external_body]
pub(crate) fn grid_transposed(g: &Grid) -> (r: Grid)
    ensures
        grid_rows(r) == transpose(grid_rows(*g), grid_width(*g)),
        grid_width(r) == grid_rows(*g).len(),
{
    Grid { cells: g.cells.t().to_owned() }
}

/// `ArrayBase::invert_axis` on the second axis of a view, copied into an
/// array of its own: each row reversed.
#[verifier::external_body]
pub(crate) fn grid_flipped(g: &Grid) -> (r: Grid)
    ensures
        grid_rows(r) == flip_columns(grid_rows(*g), grid_width(*g)),
        grid_width(r) == grid_width(*g),
{
    let mut view = g.cells.view();
    view.invert_axis(Axis(1));
    Grid { cells: view.to_owned() }
}

/// `PartialEq::eq` of two `ndarray` arrays: whether the shapes agree and
/// all pixels agree.
#[verifier::external_body]
pub(crate) fn grid_eq(a: &Grid, b: &Grid) -> (r: bool)
    ensures
        r <==> (grid_rows(*a) == grid_rows(*b) && grid_width(*a) == grid_width(*b)),
{
    a.cells == b.cells
}

impl Grid {
    /// The grid of `shape.0` rows and `shape.1` columns that holds `data`
    /// row after row; `None` where the lengths do not agree or the shape is
    /// too large for the machine.
    pub fn from_shape_vec(shape: (usize, usize), data: Vec<usize>) -> (r: Option<Grid>)
        ensures
            r is Some <==> shape_fits(shape.0 as int, shape.1 as int, data@.len() as int),
            r matches Some(g) ==> g@ == rows_of(data@, shape.0 as nat, shape.1 as nat)
                && grid_width(g) == shape.1 && rectangular(g@, shape.1 as nat),
    {
        let r = grid_from_shape_vec(shape.0, shape.1, data);
        proof {
            if r is Some {
                let g = r->0;
                assert forall|y: int| 0 <= y < g@.len() implies (#[trigger] g@[y]).len()
                    == shape.1 by {
                    assert(y * shape.1 + shape.1 <= shape.0 * shape.1) by (nonlinear_arith)
                        requires
                            0 <= y < shape.0,
                    ;
                    assert(0 <= y * shape.1) by (nonlinear_arith)
                        requires
                            0 <= y,
                    ;
                }
            }
        }
        r
    }

    /// The numbers of rows and of columns.
    pub fn dim(&self) -> (r: (usize, usize))
        ensures
            r.0 == self@.len(),
            r.1 == grid_width(*self),
            rectangular(self@, r.1 as nat),
    {
        grid_dim(self)
    }

    /// The pixel at row `y` and column `x`, or `None` where either is out of
    /// bounds.
    pub fn get(&self, y: usize, x: usize) -> (r: Option<usize>)
        ensures
            y < self@.len() && x < grid_width(*self) ==> r == Some(self@[y as int][x as int]),
            y >= self@.len() || x >= grid_width(*self) ==> r is None,
    {
        grid_get(self, y, x)
    }

    /// The pixel at row `y` and column `x` of a grid that has both.
    pub fn at(&self, y: usize, x: usize) -> (r: usize)
        requires
            y < self@.len(),
            x < grid_width(*self),
        ensures
            r == self@[y as int][x as int],
    {
        match grid_get(self, y, x) {
            Some(p) => p,
            None => unreached(),
        }
    }

    /// The pixels of the grid, row by row.
    pub fn to_rows(&self) -> (r: Vec<Vec<usize>>)
        ensures
            r@.len() == self@.len(),
            forall|y: int| 0 <= y < r@.len() ==> (#[trigger] r@[y])@ == self@[y],
    {
        let (height, width) = grid_dim(self);
        let mut rows: Vec<Vec<usize>> = Vec::new();
        let mut y: usize = 0;
        while y < height
            invariant
                y <= height,
                height == self@.len(),
                width == grid_width(*self),
                rectangular(self@, width as nat),
                rows@.len() == y,
                forall|y0: int| 0 <= y0 < y ==> (#[trigger] rows@[y0])@ == self@[y0],
            decreases height - y,
        {
            let mut row: Vec<usize> = Vec::new();
            let mut x: usize = 0;
            while x < width
                invariant
                    x <= width,
                    y < height,
                    height == self@.len(),
                    width == grid_width(*self),
                    rectangular(self@, width as nat),
                    row@.len() == x,
                    forall|x0: int| 0 <= x0 < x ==> row@[x0] == self@[y as int][x0],
                decreases width - x,
            {
                row.push(self.at(y, x));
                x += 1;
            }
            assert(row@ =~= self@[y as int]);
            rows.push(row);
            y += 1;
        }
        rows
    }
}

} // verus!
