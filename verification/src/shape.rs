//! Rectangular ranges of grid positions and their row-major enumeration.

use crate::offset::Offset2D;
use vstd::prelude::*;
use vstd::std_specs::cmp::{PartialOrdIs, PartialOrdSpec};
use vstd::std_specs::convert::IntoSpec;

verus! {

/// The positions `(y, x0), (y, x0 + 1), .., (y, x1 - 1)` of one row.
pub open spec fn row_points(y: int, x0: int, x1: int) -> Seq<(usize, usize)> {
    Seq::new(
        if x0 < x1 {
            (x1 - x0) as nat
        } else {
            0
        },
        |k: int| (y as usize, (x0 + k) as usize),
    )
}

/// The positions of the rows `y0 .. y1`, each over the columns `x0 .. x1`,
/// row after row.
pub open spec fn rect_points(y0: int, y1: int, x0: int, x1: int) -> Seq<(usize, usize)>
    decreases y1 - y0,
{
    if y0 < y1 {
        row_points(y0, x0, x1) + rect_points(y0 + 1, y1, x0, x1)
    } else {
        Seq::empty()
    }
}

/// A rectangle without columns has no positions.
pub proof fn lemma_rect_points_no_columns(y0: int, y1: int, x0: int, x1: int)
    requires
        x0 >= x1,
    ensures
        rect_points(y0, y1, x0, x1) == Seq::<(usize, usize)>::empty(),
    decreases y1 - y0,
{
    if y0 < y1 {
        lemma_rect_points_no_columns(y0 + 1, y1, x0, x1);
        assert(row_points(y0, x0, x1) + rect_points(y0 + 1, y1, x0, x1) =~= Seq::<
            (usize, usize),
        >::empty());
    }
}

/// A position lies in a rectangle exactly when its row and its column lie
/// in the rectangle's ranges.
pub proof fn lemma_rect_points_contains(y0: int, y1: int, x0: int, x1: int, p: (usize, usize))
    requires
        0 <= y0,
        0 <= x0,
        y1 <= usize::MAX,
        x1 <= usize::MAX,
    ensures
        rect_points(y0, y1, x0, x1).contains(p) <==> (y0 <= p.0 < y1 && x0 <= p.1 < x1),
    decreases y1 - y0,
{
    if y0 < y1 {
        let row = row_points(y0, x0, x1);
        let rest = rect_points(y0 + 1, y1, x0, x1);
        lemma_rect_points_contains(y0 + 1, y1, x0, x1, p);
        if y0 == p.0 && x0 <= p.1 < x1 {
            assert(row[p.1 - x0] == p);
            assert((row + rest)[p.1 - x0] == p);
        }
        if rest.contains(p) {
            let k = choose|k: int| 0 <= k < rest.len() && rest[k] == p;
            assert((row + rest)[row.len() + k] == p);
        }
        if (row + rest).contains(p) {
            let k = choose|k: int| 0 <= k < (row + rest).len() && (row + rest)[k] == p;
            if k < row.len() {
                assert(row[k] == p);
            } else {
                assert(rest[k - row.len()] == p);
            }
        }
    }
}

/// Whether the position `(y0, x0)` comes before the position `(y1, x1)` when
/// positions are read row by row.
pub open spec fn comes_before(y0: int, x0: int, y1: int, x1: int) -> bool {
    y0 < y1 || (y0 == y1 && x0 < x1)
}

/// The positions of a rectangle come in reading order: each comes before
/// all that follow it.
pub proof fn lemma_rect_points_sorted(y0: int, y1: int, x0: int, x1: int, i: int, j: int)
    requires
        0 <= y0,
        0 <= x0,
        y1 <= usize::MAX,
        x1 <= usize::MAX,
        0 <= i < j < rect_points(y0, y1, x0, x1).len(),
    ensures
        comes_before(
            rect_points(y0, y1, x0, x1)[i].0 as int,
            rect_points(y0, y1, x0, x1)[i].1 as int,
            rect_points(y0, y1, x0, x1)[j].0 as int,
            rect_points(y0, y1, x0, x1)[j].1 as int,
        ),
    decreases y1 - y0,
{
    if y0 < y1 {
        let row = row_points(y0, x0, x1);
        let rest = rect_points(y0 + 1, y1, x0, x1);
        if j < row.len() {
            assert((row + rest)[i] == row[i]);
            assert((row + rest)[j] == row[j]);
        } else if i < row.len() {
            assert((row + rest)[i] == row[i]);
            let q = rest[j - row.len()];
            assert((row + rest)[j] == q);
            assert(rest.contains(q));
            lemma_rect_points_contains(y0 + 1, y1, x0, x1, q);
        } else {
            assert((row + rest)[i] == rest[i - row.len()]);
            assert((row + rest)[j] == rest[j - row.len()]);
            lemma_rect_points_sorted(y0 + 1, y1, x0, x1, i - row.len(), j - row.len());
        }
    }
}

/// A half-open rectangle of positions: rows `y_range.0 .. y_range.1` and
/// columns `x_range.0 .. x_range.1`.
#[derive(Clone, Copy, Debug, PartialEq, Eq, Hash)]
pub struct ShapeRange2D {
    y_range: (isize, isize),
    x_range: (isize, isize),
}

/// The value of `input` brought into `min ..= max`: `min` when `input` is
/// below it, `max` when `input` is above it, else `input` itself.
pub fn clamp<T: PartialOrd>(input: T, min: T, max: T) -> (r: T)
    ensures
        T::obeys_partial_cmp_spec() ==> r == (if input.is_lt(&min) {
            min
        } else if input.is_gt(&max) {
            max
        } else {
            input
        }),
{
    if input < min {
        return min;
    } else if input > max {
        return max;
    } else {
        return input;
    }
}

/// `clamp` on mathematical integers.
pub open spec fn clamp_int(input: int, min: int, max: int) -> int {
    if input < min {
        min
    } else if input > max {
        max
    } else {
        input
    }
}

impl ShapeRange2D {
    /// The first and the one-past-last row.
    pub closed spec fn rows(self) -> (int, int) {
        (self.y_range.0 as int, self.y_range.1 as int)
    }

    /// The first and the one-past-last column.
    pub closed spec fn cols(self) -> (int, int) {
        (self.x_range.0 as int, self.x_range.1 as int)
    }

    /// The positions of the range in row-major order.
    pub open spec fn points(self) -> Seq<(usize, usize)> {
        rect_points(self.rows().0, self.rows().1, self.cols().0, self.cols().1)
    }

    /// The range that covers a grid of the given shape, from the origin.
    pub fn from_shape(shape: (usize, usize)) -> (r: Self)
        requires
            shape.0 <= isize::MAX,
            shape.1 <= isize::MAX,
        ensures
            r.rows() == (0int, shape.0 as int),
            r.cols() == (0int, shape.1 as int),
    {
        let (y, x) = shape;
        let y_range = (0, y as isize);
        let x_range = (0, x as isize);
        ShapeRange2D { y_range, x_range }
    }

    /// The range moved by `shift`.
    pub fn shift_by<T: Into<Offset2D>>(self, shift: T) -> (r: Self)
        requires
            T::obeys_into_spec(),
            isize::MIN <= self.rows().0 + shift.into_spec().0,
            self.rows().1 + shift.into_spec().0 <= isize::MAX,
            self.rows().0 <= self.rows().1,
            isize::MIN <= self.cols().0 + shift.into_spec().1,
            self.cols().1 + shift.into_spec().1 <= isize::MAX,
            self.cols().0 <= self.cols().1,
        ensures
            r.rows() == (self.rows().0 + shift.into_spec().0, self.rows().1 + shift.into_spec().0),
            r.cols() == (self.cols().0 + shift.into_spec().1, self.cols().1 + shift.into_spec().1),
    {
        self.shift_by_offset(shift.into())
    }

    /// The range moved by the displacement `shift`.
    pub fn shift_by_offset(self, shift: Offset2D) -> (r: Self)
        requires
            isize::MIN <= self.rows().0 + shift.0,
            self.rows().1 + shift.0 <= isize::MAX,
            self.rows().0 <= self.rows().1,
            isize::MIN <= self.cols().0 + shift.1,
            self.cols().1 + shift.1 <= isize::MAX,
            self.cols().0 <= self.cols().1,
        ensures
            r.rows() == (self.rows().0 + shift.0, self.rows().1 + shift.0),
            r.cols() == (self.cols().0 + shift.1, self.cols().1 + shift.1),
    {
        let (shift_y, shift_x) = (shift.0, shift.1);
        let y_range = (self.y_range.0 + shift_y, self.y_range.1 + shift_y);
        let x_range = (self.x_range.0 + shift_x, self.x_range.1 + shift_x);
        ShapeRange2D { y_range, x_range }
    }

    /// The part of the range that lies inside a grid of the given shape.
    pub fn clamp_to(self, shape: (usize, usize)) -> (r: Self)
        requires
            shape.0 <= isize::MAX,
            shape.1 <= isize::MAX,
        ensures
            r.rows() == (
                clamp_int(self.rows().0, 0, shape.0 as int),
                clamp_int(self.rows().1, 0, shape.0 as int),
            ),
            r.cols() == (
                clamp_int(self.cols().0, 0, shape.1 as int),
                clamp_int(self.cols().1, 0, shape.1 as int),
            ),
    {
        let max_y = shape.0 as isize;
        let max_x = shape.1 as isize;
        let y_range_min = clamp(self.y_range.0, 0, max_y);
        let y_range_max = clamp(self.y_range.1, 0, max_y);
        let x_range_min = clamp(self.x_range.0, 0, max_x);
        let x_range_max = clamp(self.x_range.1, 0, max_x);

        let y_range = (y_range_min, y_range_max);
        let x_range = (x_range_min, x_range_max);

        ShapeRange2D { y_range, x_range }
    }

    /// An iterator over the positions of the range, row after row.
    pub fn into_iter(self) -> (r: ShapeRange2DIntoIter)
        requires
            0 <= self.rows().0,
            0 <= self.rows().1,
            0 <= self.cols().0,
            0 <= self.cols().1,
        ensures
            r.rest() == self.points(),
    {
        let y = self.y_range.0 as usize;
        let max_y = self.y_range.1 as usize;
        let x = self.x_range.0 as usize;
        let min_x = self.x_range.0 as usize;
        let max_x = self.x_range.1 as usize;
        let r = ShapeRange2DIntoIter { y, max_y, x, max_x, min_x };
        proof {
            if y < max_y {
                assert(r.rest() == self.points());
            }
        }
        r
    }
}

/// The state of a walk over a `ShapeRange2D`.
pub struct ShapeRange2DIntoIter {
    max_y: usize,
    max_x: usize,
    min_x: usize,
    y: usize,
    x: usize,
}

impl ShapeRange2DIntoIter {
    /// The positions that the walk has yet to yield, in order.
    pub closed spec fn rest(self) -> Seq<(usize, usize)> {
        if self.y < self.max_y {
            row_points(self.y as int, self.x as int, self.max_x as int) + rect_points(
                self.y + 1,
                self.max_y as int,
                self.min_x as int,
                self.max_x as int,
            )
        } else {
            Seq::empty()
        }
    }

    /// The next position of the walk, or `None` once all were yielded.
    pub fn next(&mut self) -> (r: Option<(usize, usize)>)
        ensures
            old(self).rest().len() == 0 ==> r is None && final(self).rest().len() == 0,
            old(self).rest().len() > 0 ==> r == Some(old(self).rest()[0]) && final(self).rest()
                == old(self).rest().drop_first(),
    {
        let output: Option<(usize, usize)>;

        if self.y < self.max_y && self.x < self.max_x {
            output = Some((self.y, self.x));
            proof {
                let row = row_points(self.y as int, self.x as int, self.max_x as int);
                let next_row = row_points(self.y as int, self.x + 1, self.max_x as int);
                let below = rect_points(
                    self.y + 1,
                    self.max_y as int,
                    self.min_x as int,
                    self.max_x as int,
                );
                assert(row[0] == (self.y, self.x));
                assert((row + below).drop_first() =~= next_row + below);
            }
            self.x += 1;
        } else if self.y < self.max_y {
            proof {
                let row = row_points(self.y as int, self.x as int, self.max_x as int);
                let below = rect_points(
                    self.y + 1,
                    self.max_y as int,
                    self.min_x as int,
                    self.max_x as int,
                );
                assert(row + below =~= below);
                if self.min_x >= self.max_x {
                    lemma_rect_points_no_columns(
                        self.y + 1,
                        self.max_y as int,
                        self.min_x as int,
                        self.max_x as int,
                    );
                    lemma_rect_points_no_columns(
                        self.y + 2,
                        self.max_y as int,
                        self.min_x as int,
                        self.max_x as int,
                    );
                }
            }
            self.x = self.min_x;
            self.y += 1;
            if self.y < self.max_y && self.x < self.max_x {
                output = Some((self.y, self.x));
                proof {
                    let row = row_points(self.y as int, self.x as int, self.max_x as int);
                    let next_row = row_points(self.y as int, self.x + 1, self.max_x as int);
                    let below = rect_points(
                        self.y + 1,
                        self.max_y as int,
                        self.min_x as int,
                        self.max_x as int,
                    );
                    assert(row[0] == (self.y, self.x));
                    assert((row + below).drop_first() =~= next_row + below);
                }
                self.x += 1;
            } else {
                output = None;
                proof {
                    if self.y < self.max_y {
                        let row = row_points(self.y as int, self.x as int, self.max_x as int);
                        let below = rect_points(
                            self.y + 1,
                            self.max_y as int,
                            self.min_x as int,
                            self.max_x as int,
                        );
                        assert(row + below =~= below);
                    }
                }
            }
        } else {
            output = None;
        }

        output
    }

    /// All positions that the walk has yet to yield, in order.
    pub fn collect(self) -> (r: Vec<(usize, usize)>)
        ensures
            r@ == self.rest(),
    {
        let mut walk = self;
        let mut items: Vec<(usize, usize)> = Vec::new();
        loop
            invariant
                items@ + walk.rest() == self.rest(),
            ensures
                walk.rest().len() == 0,
            decreases walk.rest().len(),
        {
            let ghost before = walk.rest();
            match walk.next() {
                Some(p) => {
                    items.push(p);
                    assert(items@ + walk.rest() =~= (items@.drop_last() + before));
                },
                None => {
                    break ;
                },
            }
        }
        assert(items@ + walk.rest() =~= items@);
        items
    }
}

} // verus!
