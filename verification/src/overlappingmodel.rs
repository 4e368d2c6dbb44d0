//! The solver: a wave of possibility cells over a table of patterns, the
//! choice of the next site to decide, and the propagation of each decision.
//!
//! This file holds the state and its invariant. The submodules hold what is
//! done with it: `extraction` builds it from a seed, `propagation` carries
//! changes through the wave, `choice` picks the next site, `round` decides
//! it, `picture` shows the wave, and `laws` states what holds of all this.

pub mod choice;
pub mod extraction;
pub mod laws;
pub mod picture;
pub mod propagation;
pub mod round;

use crate::compatibility::CompatibilityMap;
use crate::consistency::{clean, full, in_reach, in_wave, wave_shape};
use crate::grid::{at_least_one, Grid, grid_views, grid_width};
use crate::patch::compatible;
use crate::possibilitycell::PossibilityCell;
use crate::symmetry::square;
use crate::wave::{Wave, wave_width};
use vstd::prelude::*;

verus! {

/// Why the solver stopped.
#[derive(Debug, Copy, Clone, PartialEq, Eq)]
pub enum ModelError {
    /// A contradiction: the site at these coordinates allows no pattern.
    NoValidStates((usize, usize)),
    /// The key of the site at these coordinates is not a number.
    UnexpectedNaN((usize, usize)),
    /// Every site is decided: the wave is complete.
    AllStatesDecided,
    /// The seed holds no window of the pattern size.
    PatternExtractionEmpty,
}

/// The state of one run of the solver.
pub struct OverlappingModel {
    model: Wave,
    states: Vec<Grid>,
    state_counts: Vec<usize>,
    state_size: usize,
    compatibility_map: CompatibilityMap,
    state_changes: Vec<(usize, usize)>,
    queued: Vec<Vec<bool>>,
}

impl OverlappingModel {
    /// The wave: for each site, by row and column, which patterns it allows.
    pub closed spec fn wave(&self) -> Seq<Seq<Seq<bool>>> {
        self.model@
    }

    /// The patterns, in the order of their bits.
    pub closed spec fn patterns(&self) -> Seq<Seq<Seq<usize>>> {
        grid_views(self.states@)
    }

    /// The weight of each pattern.
    pub closed spec fn weights(&self) -> Seq<usize> {
        self.state_counts@
    }

    /// The side of a pattern.
    pub closed spec fn size(&self) -> nat {
        self.state_size as nat
    }

    /// The number of columns of the wave.
    pub closed spec fn width(&self) -> nat {
        wave_width(self.model)
    }

    /// Whether the site `(y, x)` has changed and its change has not yet been
    /// carried to the sites around it.
    pub closed spec fn dirty(&self, y: int, x: int) -> bool {
        self.queued@[y]@[x]
    }

    /// The worklist: the sites that wait to be propagated from.
    pub closed spec fn worklist(&self) -> Seq<(usize, usize)> {
        self.state_changes@
    }

    /// Whether pattern `j` may lie at `(dy, dx)` from pattern `i`, as the
    /// compatibility table has it.
    pub closed spec fn table_bit(&self, i: int, dy: int, dx: int, j: int) -> bool {
        self.compatibility_map.bit(i, dy, dx, j)
    }

    /// Whether the site `(y, x)` is dirty, or untouched since the start, or
    /// clean.
    pub open spec fn settled(&self, y: int, x: int) -> bool {
        self.dirty(y, x) || full(self.wave()[y][x]) || clean(
            self.patterns(),
            self.size() as int,
            self.wave(),
            y,
            x,
        )
    }

    /// The invariant of the solver's state.
    pub closed spec fn wf(&self) -> bool {
        self.wf_busy(-1, -1)
    }

    /// The invariant while the site `(by, bx)` is being propagated from: it
    /// is off the worklist and still counts as dirty.
    pub closed spec fn wf_busy(&self, by: int, bx: int) -> bool {
        let p = self.states@.len();
        let n = self.state_size as nat;
        let h = self.model@.len();
        let w = wave_width(self.model);
        &&& n >= 1
        &&& p >= 1
        &&& self.state_counts@.len() == p
        &&& forall|i: int|
            0 <= i < p ==> square((#[trigger] self.states@[i])@, n) && grid_width(self.states@[i])
                == n
        &&& forall|i: int, j: int|
            0 <= i < j < p ==> (#[trigger] self.states@[i])@ != (#[trigger] self.states@[j])@
        &&& forall|i: int| 0 <= i < p ==> #[trigger] self.state_counts@[i] >= 1
        &&& self.compatibility_map.wf()
        &&& self.compatibility_map.states() == p
        &&& self.compatibility_map.reach() == (n, n)
        &&& forall|i: int, dy: int, dx: int, j: int|
            0 <= i < p && 0 <= j < p && in_reach(n as int, dy, dx)
                ==> #[trigger] self.compatibility_map.bit(i, dy, dx, j) == compatible(
                self.states@[i]@,
                self.states@[j]@,
                dy,
                dx,
            )
        &&& wave_shape(self.model@, h, w, p)
        &&& h + 2 * n <= isize::MAX
        &&& w + 2 * n <= isize::MAX
        &&& at_least_one(h as int) * at_least_one(w as int) <= isize::MAX
        &&& self.queued@.len() == h
        &&& forall|y: int| 0 <= y < h ==> (#[trigger] self.queued@[y])@.len() == w
        &&& forall|k: int|
            0 <= k < self.state_changes@.len() ==> (#[trigger] self.state_changes@[k]).0 < h
                && self.state_changes@[k].1 < w
        &&& forall|y: int, x: int|
            0 <= y < h && 0 <= x < w && #[trigger] self.queued@[y]@[x] ==> (
            self.state_changes@.contains((y as usize, x as usize)) || (y == by && x == bx))
        &&& forall|y: int, x: int| 0 <= y < h && 0 <= x < w ==> #[trigger] self.settled(y, x)
    }

    /// What the invariant says of the shapes: the wave is a rectangle of
    /// sites with one bit for each pattern, each pattern is a square with a
    /// weight of at least one, and the patterns differ from one another.
    pub proof fn lemma_wf_shapes(&self)
        requires
            self.wf(),
        ensures
            self.size() >= 1,
            self.patterns().len() >= 1,
            self.patterns().len() == self.weights().len(),
            wave_shape(self.wave(), self.wave().len(), self.width(), self.patterns().len()),
            forall|i: int|
                0 <= i < self.patterns().len() ==> square(
                    #[trigger] self.patterns()[i],
                    self.size(),
                ) && self.weights()[i] >= 1,
            forall|i: int, j: int|
                0 <= i < j < self.patterns().len() ==> self.patterns()[i] != self.patterns()[j],
            forall|y: int, x: int| in_wave(self.wave(), y, x) ==> #[trigger] self.settled(y, x),
    {
        assert forall|i: int| 0 <= i < self.patterns().len() implies square(
            #[trigger] self.patterns()[i],
            self.size(),
        ) && self.weights()[i] >= 1 by {
            assert(self.patterns()[i] == self.states@[i]@);
            assert(self.state_counts@[i] >= 1);
        }
        assert forall|i: int, j: int| 0 <= i < j < self.patterns().len() implies self.patterns()[i]
            != self.patterns()[j] by {
            assert(self.patterns()[i] == self.states@[i]@);
            assert(self.patterns()[j] == self.states@[j]@);
        }
        assert forall|y: int, x: int| in_wave(self.wave(), y, x) implies #[trigger] self.settled(
            y,
            x,
        ) by {}
    }

    /// The compatibility table is the compatibility of the patterns.
    pub proof fn lemma_table_is_compatibility(&self, i: int, dy: int, dx: int, j: int)
        requires
            self.wf(),
            0 <= i < self.patterns().len(),
            0 <= j < self.patterns().len(),
            in_reach(self.size() as int, dy, dx),
        ensures
            self.table_bit(i, dy, dx, j) == compatible(
                self.patterns()[i],
                self.patterns()[j],
                dy,
                dx,
            ),
    {
        assert(self.patterns()[i] == self.states@[i]@);
        assert(self.patterns()[j] == self.states@[j]@);
    }

    /// What the invariant says of a site of the wave: its coordinates are
    /// within the wave's bounds, which fit a signed machine word.
    proof fn lemma_wave_in_bounds(&self, y: int, x: int)
        requires
            exists|by: int, bx: int| self.wf_busy(by, bx),
        ensures
            self.wave().len() <= isize::MAX,
            self.width() <= isize::MAX,
            self.wave().len() + 2 * self.size() <= isize::MAX,
            self.width() + 2 * self.size() <= isize::MAX,
            in_wave(self.wave(), y, x) <==> (0 <= y < self.wave().len() && 0 <= x < self.width()),
    {
    }

    /// Every pattern has a top left pixel.
    proof fn lemma_patterns_nonempty(&self)
        requires
            exists|by: int, bx: int| self.wf_busy(by, bx),
        ensures
            self.states@.len() == self.patterns().len(),
            forall|i: int|
                0 <= i < self.states@.len() ==> (#[trigger] self.states@[i])@.len() > 0
                    && grid_width(self.states@[i]) > 0,
            forall|y: int, x: int|
                in_wave(self.wave(), y, x) ==> (#[trigger] self.wave()[y][x]).len()
                    == self.states@.len(),
    {
    }

    /// The numbers of rows and of columns of the wave.
    pub fn dim(&self) -> (r: (usize, usize))
        ensures
            r.0 == self.wave().len(),
            r.1 == self.width(),
    {
        self.model.dim()
    }

    /// The number of patterns.
    pub fn num_states(&self) -> (r: usize)
        ensures
            r == self.patterns().len(),
    {
        self.states.len()
    }

    /// The patterns, in the order of their bits.
    pub fn states(&self) -> (r: &Vec<Grid>)
        ensures
            grid_views(r@) == self.patterns(),
    {
        &self.states
    }

    /// The weight of each pattern.
    pub fn state_counts(&self) -> (r: &Vec<usize>)
        ensures
            r@ == self.weights(),
    {
        &self.state_counts
    }

    /// The side of a pattern.
    pub fn state_size(&self) -> (r: usize)
        ensures
            r == self.size(),
    {
        self.state_size
    }

    /// The compatibility table.
    pub fn compatibility_map(&self) -> (r: &CompatibilityMap)
        requires
            self.wf(),
        ensures
            r.wf(),
            r.states() == self.patterns().len(),
            r.reach() == (self.size(), self.size()),
            forall|i: int, dy: int, dx: int, j: int|
                r.bit(i, dy, dx, j) == #[trigger] self.table_bit(i, dy, dx, j),
    {
        &self.compatibility_map
    }

    /// The cell of the site at row `y` and column `x`.
    pub fn cell(&self, y: usize, x: usize) -> (r: &PossibilityCell)
        requires
            y < self.wave().len(),
            x < self.width(),
        ensures
            r@ == self.wave()[y as int][x as int],
    {
        self.model.cell(y, x)
    }

    /// Whether the coordinates name a site of the wave.
    pub fn valid_coord(&self, coord: (isize, isize)) -> (r: bool)
        ensures
            r <==> (0 <= coord.0 < self.wave().len() && 0 <= coord.1 < self.width()),
    {
        if coord.0 < 0 || coord.1 < 0 {
            return false;
        }
        let y = coord.0 as usize;
        let x = coord.1 as usize;
        let (safe_y, safe_x) = self.model.dim();
        (y < safe_y) && (x < safe_x)
    }
}

} // verus!
