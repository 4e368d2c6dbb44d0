//! Patches: small grids that are laid over one another and tested for
//! agreement where they overlap.

use crate::grid::{Grid, grid_width, rectangular};
use crate::offset::Offset2D;
use vstd::prelude::*;
use vstd::std_specs::convert::IntoSpec;

verus! {

/// Whether `a` and `b` hold the same pixel where entry `(y, x)` of `b` lies
/// over `a`, `b` being laid with its top left corner at `(dy, dx)` of `a`.
/// Entries of `b` that lie beside `a` agree with anything.
pub open spec fn agree_at(
    a: Seq<Seq<usize>>,
    b: Seq<Seq<usize>>,
    dy: int,
    dx: int,
    y: int,
    x: int,
) -> bool {
    (0 <= y < b.len() && 0 <= x < b[y].len() && 0 <= y + dy < a.len() && 0 <= x + dx < a[y
        + dy].len()) ==> a[y + dy][x + dx] == b[y][x]
}

/// Whether `b`, laid with its top left corner at `(dy, dx)` of `a`, agrees
/// with `a` on every position that both cover.
pub open spec fn compatible(a: Seq<Seq<usize>>, b: Seq<Seq<usize>>, dy: int, dx: int) -> bool {
    forall|y: int, x: int| #[trigger] agree_at(a, b, dy, dx, y, x)
}

/// `v + d`, where that lies in `0 .. bound`.
pub fn shifted(v: usize, d: isize, bound: usize) -> (r: Option<usize>)
    ensures
        0 <= v + d < bound ==> r == Some((v + d) as usize),
        !(0 <= v + d < bound) ==> r is None,
{
    let t: i128 = v as i128 + d as i128;
    if 0 <= t && t < bound as i128 {
        Some(t as usize)
    } else {
        None
    }
}

/// A rectangular patch of pixels.
pub trait Patch2D {
    /// The pixels of the patch, row by row.
    spec fn cells(&self) -> Seq<Seq<usize>>;

    /// Whether `other`, laid with its top left corner at `offset` of `self`,
    /// agrees with `self` wherever the two overlap.
    fn compare_with_offset<T: Into<Offset2D>>(&self, other: &Self, offset: T) -> (r: bool)
        ensures
            T::obeys_into_spec() ==> r == compatible(
                self.cells(),
                other.cells(),
                offset.into_spec().0 as int,
                offset.into_spec().1 as int,
            ),
    ;

    /// Whether `other`, laid with its top left corner at the displacement
    /// `offset` of `self`, agrees with `self` wherever the two overlap.
    fn compare_at(&self, other: &Self, offset: Offset2D) -> (r: bool)
        ensures
            r == compatible(self.cells(), other.cells(), offset.0 as int, offset.1 as int),
    ;

    /// The numbers of rows and of columns.
    fn shape(&self) -> (r: (usize, usize))
        ensures
            r.0 == self.cells().len(),
            forall|y: int|
                0 <= y < self.cells().len() ==> (#[trigger] self.cells()[y]).len() == r.1,
    ;
}

impl Patch2D for Grid {
    open spec fn cells(&self) -> Seq<Seq<usize>> {
        self@
    }

    fn shape(&self) -> (r: (usize, usize)) {
        self.dim()
    }

    fn compare_with_offset<T: Into<Offset2D>>(&self, other: &Self, offset: T) -> (r: bool) {
        self.compare_at(other, offset.into())
    }

    fn compare_at(&self, other: &Self, delta: Offset2D) -> (r: bool) {
        let (ah, aw) = self.dim();
        let (bh, bw) = other.dim();
        let ghost a = self@;
        let ghost b = other@;
        let ghost dy = delta.0 as int;
        let ghost dx = delta.1 as int;
        let mut y: usize = 0;
        while y < bh
            invariant
                y <= bh,
                a == self@,
                b == other@,
                dy == delta.0,
                dx == delta.1,
                ah == a.len(),
                bh == b.len(),
                aw == grid_width(*self),
                bw == grid_width(*other),
                rectangular(a, aw as nat),
                rectangular(b, bw as nat),
                forall|y0: int, x0: int| 0 <= y0 < y ==> #[trigger] agree_at(a, b, dy, dx, y0, x0),
            decreases bh - y,
        {
            match shifted(y, delta.0, ah) {
                Some(ty) => {
                    let mut x: usize = 0;
                    while x < bw
                        invariant
                            x <= bw,
                            y < bh,
                            a == self@,
                            b == other@,
                            dy == delta.0,
                            dx == delta.1,
                                        ah == a.len(),
                            bh == b.len(),
                            aw == grid_width(*self),
                            bw == grid_width(*other),
                            rectangular(a, aw as nat),
                            rectangular(b, bw as nat),
                            ty == y + dy,
                            ty < ah,
                            forall|y0: int, x0: int|
                                0 <= y0 < y ==> #[trigger] agree_at(a, b, dy, dx, y0, x0),
                            forall|x0: int|
                                0 <= x0 < x ==> #[trigger] agree_at(a, b, dy, dx, y as int, x0),
                        decreases bw - x,
                    {
                        match shifted(x, delta.1, aw) {
                            Some(tx) => {
                                if self.at(ty, tx) != other.at(y, x) {
                                    assert(!agree_at(a, b, dy, dx, y as int, x as int));
                                    return false;
                                }
                            },
                            None => {},
                        }
                        x += 1;
                    }
                },
                None => {},
            }
            y += 1;
        }
        true
    }
}

} // verus!
