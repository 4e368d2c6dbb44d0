//! Signed two-dimensional displacements between grid positions.

use vstd::prelude::*;
use vstd::std_specs::convert::{FromSpecImpl, IntoSpec};
use vstd::std_specs::ops::{NegSpecImpl, SubSpecImpl};

verus! {

/// A displacement `(dy, dx)` between two grid positions.
#[derive(Clone, Copy, Hash, PartialEq, Eq, Debug, Structural)]
pub struct Offset2D(pub isize, pub isize);

/// The integer that `num_traits::ToPrimitive::to_isize` yields for a `usize`:
/// the same number when it fits an `isize`, and nothing when it does not.
#[verifier::external_body]
pub(crate) fn usize_to_isize(v: usize) -> (r: Option<isize>)
    ensures
        v <= isize::MAX ==> r == Some(v as isize),
        v > isize::MAX ==> r is None,
{
    num_traits::ToPrimitive::to_isize(&v)
}

impl Offset2D {
    /// The displacement that leads from `from` to `to`.
    pub fn from_difference<T, U>(from: T, to: U) -> (r: Self) where
        T: Into<Offset2D>,
        U: Into<Offset2D>,

        requires
            T::obeys_into_spec(),
            U::obeys_into_spec(),
            isize::MIN <= to.into_spec().0 - from.into_spec().0 <= isize::MAX,
            isize::MIN <= to.into_spec().1 - from.into_spec().1 <= isize::MAX,
        ensures
            r.0 == to.into_spec().0 - from.into_spec().0,
            r.1 == to.into_spec().1 - from.into_spec().1,
    {
        Offset2D::difference(from.into(), to.into())
    }

    /// The displacement that leads from the displacement `from` to the
    /// displacement `to`.
    pub fn difference(from: Offset2D, to: Offset2D) -> (r: Self)
        requires
            isize::MIN <= to.0 - from.0 <= isize::MAX,
            isize::MIN <= to.1 - from.1 <= isize::MAX,
        ensures
            r.0 == to.0 - from.0,
            r.1 == to.1 - from.1,
    {
        to - from
    }

    /// The displacement from the origin to a grid position, or `None` when a
    /// coordinate does not fit a signed machine word.
    pub fn from_position(position: (usize, usize)) -> (r: Option<Self>)
        ensures
            position.0 <= isize::MAX && position.1 <= isize::MAX ==> r == Some(
                Offset2D(position.0 as isize, position.1 as isize),
            ),
            position.0 > isize::MAX || position.1 > isize::MAX ==> r is None,
    {
        match (usize_to_isize(position.0), usize_to_isize(position.1)) {
            (Some(y), Some(x)) => Some(Offset2D(y, x)),
            _ => None,
        }
    }
}

impl NegSpecImpl for Offset2D {
    open spec fn obeys_neg_spec() -> bool {
        true
    }

    open spec fn neg_req(self) -> bool {
        self.0 > isize::MIN && self.1 > isize::MIN
    }

    open spec fn neg_spec(self) -> Offset2D {
        Offset2D((-self.0) as isize, (-self.1) as isize)
    }
}

impl core::ops::Neg for Offset2D {
    type Output = Self;

    fn neg(self) -> Self::Output {
        Offset2D(-self.0, -self.1)
    }
}

impl FromSpecImpl<(isize, isize)> for Offset2D {
    open spec fn obeys_from_spec() -> bool {
        true
    }

    open spec fn from_spec(src: (isize, isize)) -> Offset2D {
        Offset2D(src.0, src.1)
    }
}

impl core::convert::From<(isize, isize)> for Offset2D {
    fn from(src: (isize, isize)) -> Self {
        Offset2D(src.0, src.1)
    }
}

impl SubSpecImpl<Offset2D> for Offset2D {
    open spec fn obeys_sub_spec() -> bool {
        true
    }

    open spec fn sub_req(self, rhs: Offset2D) -> bool {
        &&& isize::MIN <= self.0 - rhs.0 <= isize::MAX
        &&& isize::MIN <= self.1 - rhs.1 <= isize::MAX
    }

    open spec fn sub_spec(self, rhs: Offset2D) -> Offset2D {
        Offset2D((self.0 - rhs.0) as isize, (self.1 - rhs.1) as isize)
    }
}

impl core::ops::Sub<Offset2D> for Offset2D {
    type Output = Self;

    fn sub(self, rhs: Self) -> Self::Output {
        Offset2D(self.0 - rhs.0, self.1 - rhs.1)
    }
}

} // verus!
