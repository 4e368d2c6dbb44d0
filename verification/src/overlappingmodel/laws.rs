//! What holds of the solver whatever the seed and whatever is drawn.

use crate::bitset::lemma_count_true_full;
use crate::compatibility::{
    lemma_compatible_at_origin, lemma_compatible_reflexive, lemma_compatible_symmetric,
};
use crate::consistency::{
    all_decided, clean, full, in_reach, in_wave, lemma_consistent_both_ways,
    lemma_window_is_pattern, locally_consistent, pattern_at, subwave,
};
use crate::grid::{rectangular, window_at, windows_of};
use crate::overlappingmodel::OverlappingModel;
use crate::overlappingmodel::extraction::{lemma_windows_are_rectangles, pattern_blocks};
use crate::symmetry::{lemma_augmented_table_closed, orient, square};
use crate::texturesource::is_tally;
use vstd::prelude::*;

verus! {

impl OverlappingModel {
    /// The compatibility table is symmetric: pattern `j` may lie at a
    /// displacement from pattern `i` exactly when `i` may lie at the
    /// opposite displacement from `j`.
    pub proof fn lemma_table_symmetric(&self, i: int, dy: int, dx: int, j: int)
        requires
            self.wf(),
            0 <= i < self.patterns().len(),
            0 <= j < self.patterns().len(),
            in_reach(self.size() as int, dy, dx),
        ensures
            self.table_bit(i, dy, dx, j) == self.table_bit(j, -dy, -dx, i),
    {
        self.lemma_table_is_compatibility(i, dy, dx, j);
        self.lemma_table_is_compatibility(j, -dy, -dx, i);
        lemma_compatible_symmetric(self.patterns()[i], self.patterns()[j], dy, dx);
    }

    /// Every pattern may lie where it lies: at no displacement from itself.
    /// And no other pattern may lie there.
    pub proof fn lemma_table_reflexive(&self, i: int, j: int)
        requires
            self.wf(),
            0 <= i < self.patterns().len(),
            0 <= j < self.patterns().len(),
        ensures
            self.table_bit(i, 0, 0, i),
            self.table_bit(i, 0, 0, j) <==> i == j,
    {
        self.lemma_wf_shapes();
        self.lemma_table_is_compatibility(i, 0, 0, i);
        self.lemma_table_is_compatibility(i, 0, 0, j);
        lemma_compatible_reflexive(self.patterns()[i]);
        lemma_compatible_at_origin(self.patterns()[i], self.patterns()[j], self.size());
        if i < j {
            assert(self.patterns()[i] != self.patterns()[j]);
        }
        if j < i {
            assert(self.patterns()[j] != self.patterns()[i]);
        }
    }

    /// With an empty worklist no site is dirty: the wave is at rest.
    pub proof fn lemma_empty_worklist_is_rest(&self)
        requires
            self.wf(),
            self.worklist().len() == 0,
        ensures
            self.quiescent(),
    {
        assert forall|y: int, x: int| in_wave(self.wave(), y, x) implies !#[trigger] self.dirty(
            y,
            x,
        ) by {
            self.lemma_wave_in_bounds(y, x);
            if self.queued@[y]@[x] {
                assert(self.state_changes@.contains((y as usize, x as usize)));
            }
        }
    }

    /// A wave at rest in which every site that still allows every pattern
    /// is clean is locally consistent: each pattern allowed at a site has,
    /// at each site within reach, an allowed pattern that the table lets
    /// lie there.
    pub proof fn lemma_quiescent_is_consistent(&self)
        requires
            self.wf(),
            self.quiescent(),
            forall|y: int, x: int|
                in_wave(self.wave(), y, x) && full(self.wave()[y][x]) ==> #[trigger] clean(
                    self.patterns(),
                    self.size() as int,
                    self.wave(),
                    y,
                    x,
                ),
        ensures
            locally_consistent(self.patterns(), self.size() as int, self.wave()),
            forall|y: int, x: int, dy: int, dx: int, i: int|
                in_wave(self.wave(), y, x) && in_wave(self.wave(), y + dy, x + dx) && in_reach(
                    self.size() as int,
                    dy,
                    dx,
                ) && 0 <= i < self.patterns().len() && self.wave()[y][x][i] ==> exists|j: int|
                    0 <= j < self.patterns().len() && self.wave()[y + dy][x + dx][j]
                        && #[trigger] self.table_bit(i, dy, dx, j),
    {
        let patterns = self.patterns();
        let n = self.size() as int;
        let wave = self.wave();
        assert forall|sy: int, sx: int| in_wave(wave, sy, sx) implies #[trigger] clean(
            patterns,
            n,
            wave,
            sy,
            sx,
        ) by {
            self.lemma_wave_in_bounds(sy, sx);
            assert(self.settled(sy, sx));
            assert(!self.dirty(sy, sx));
        }
        assert forall|y: int, x: int, dy: int, dx: int, i: int|
            in_wave(wave, y, x) && in_wave(wave, y + dy, x + dx) && in_reach(n, dy, dx) && 0 <= i
                < patterns.len() && wave[y][x][i] implies exists|j: int|
            0 <= j < patterns.len() && wave[y + dy][x + dx][j] && #[trigger] self.table_bit(
                i,
                dy,
                dx,
                j,
            ) by {
            self.lemma_patterns_nonempty();
            let j = lemma_consistent_both_ways(patterns, n, wave, y, x, dy, dx, i);
            self.lemma_table_is_compatibility(i, dy, dx, j);
        }
    }

    /// A wave at rest in which every site is decided, over two patterns or
    /// more, is locally consistent: no site can still allow every pattern.
    pub proof fn lemma_complete_is_consistent(&self)
        requires
            self.wf(),
            self.quiescent(),
            all_decided(self.wave()),
            self.patterns().len() >= 2,
        ensures
            locally_consistent(self.patterns(), self.size() as int, self.wave()),
    {
        assert forall|y: int, x: int|
            in_wave(self.wave(), y, x) && full(self.wave()[y][x]) implies #[trigger] clean(
            self.patterns(),
            self.size() as int,
            self.wave(),
            y,
            x,
        ) by {
            self.lemma_patterns_nonempty();
            lemma_count_true_full(self.wave()[y][x]);
        }
        self.lemma_quiescent_is_consistent();
    }

    /// Window containment: in the picture of a complete wave at rest, over
    /// two patterns or more, the window whose top left corner is a site is
    /// the pattern of that site. So every window of the picture is a
    /// pattern of the table.
    pub proof fn lemma_window_containment(&self, out: Seq<Seq<usize>>, y: int, x: int)
        requires
            self.wf(),
            self.quiescent(),
            all_decided(self.wave()),
            self.patterns().len() >= 2,
            self.renders(out),
            0 <= y,
            0 <= x,
            y + self.size() <= self.wave().len(),
            x + self.size() <= self.width(),
        ensures
            0 <= pattern_at(self.wave(), y, x) < self.patterns().len(),
            window_at(out, y, x, self.size(), self.size()) == self.patterns()[pattern_at(
                self.wave(),
                y,
                x,
            )],
    {
        let patterns = self.patterns();
        let n = self.size();
        let wave = self.wave();
        self.lemma_complete_is_consistent();
        self.lemma_patterns_nonempty();
        self.lemma_wf_shapes();
        self.lemma_wave_in_bounds(y, x);
        lemma_window_is_pattern(patterns, n as int, wave, y, x, 0, 0);
        let i = pattern_at(wave, y, x);
        let window = window_at(out, y, x, n, n);
        assert(square(patterns[i], n));
        assert forall|dy: int| 0 <= dy < n implies window[dy] == patterns[i][dy] by {
            assert forall|dx: int| 0 <= dx < n implies window[dy][dx] == patterns[i][dy][dx] by {
                self.lemma_wave_in_bounds(y + dy, x + dx);
                lemma_window_is_pattern(patterns, n as int, wave, y, x, dy, dx);
                assert(window[dy][dx] == out[y + dy][x + dx]);
            }
            assert(window[dy] =~= patterns[i][dy]);
        }
        assert(window =~= patterns[i]);
    }

    /// The table of a seed with all orientations holds, with each pattern,
    /// each of its eight orientations.
    pub proof fn lemma_augmented_patterns_closed(
        seed: Seq<Seq<usize>>,
        width: nat,
        n: nat,
        patterns: Seq<Seq<Seq<usize>>>,
        counts: Seq<usize>,
        i: int,
        k: int,
    ) -> (j: int)
        requires
            rectangular(seed, width),
            n >= 1,
            is_tally(pattern_blocks(seed, width, n, true), patterns, counts),
            0 <= i < patterns.len(),
            0 <= k < 8,
        ensures
            0 <= j < patterns.len(),
            patterns[j] == orient(patterns[i], n, k),
    {
        let windows = windows_of(seed, width, n, n);
        assert forall|w: int| 0 <= w < windows.len() implies square(#[trigger] windows[w], n) by {
            lemma_windows_are_rectangles(seed, width, n, n, w);
        }
        lemma_augmented_table_closed(windows, n, patterns, counts, i, k)
    }

    /// Propagation leads to one wave only: the greatest stable wave. If
    /// `b` and `c` are both what propagation makes of `a`, their waves are
    /// the same.
    pub proof fn lemma_propagation_unique(
        a: &OverlappingModel,
        b: &OverlappingModel,
        c: &OverlappingModel,
    )
        requires
            a.propagates_to(b),
            a.propagates_to(c),
        ensures
            a.stable(b.wave()),
            b.wave() == c.wave(),
    {
        assert(a.stable(b.wave()));
        assert(a.stable(c.wave()));
        let bw = b.wave();
        let cw = c.wave();
        assert(subwave(bw, cw));
        assert(subwave(cw, bw));
        assert forall|y: int| 0 <= y < bw.len() implies bw[y] == cw[y] by {
            assert forall|x: int| 0 <= x < bw[y].len() implies bw[y][x] == cw[y][x] by {
                assert(in_wave(bw, y, x));
                assert(in_wave(cw, y, x));
                assert forall|i: int| 0 <= i < bw[y][x].len() implies bw[y][x][i]
                    == cw[y][x][i] by {
                    if bw[y][x][i] {
                        assert(cw[y][x][i]);
                    }
                    if cw[y][x][i] {
                        assert(bw[y][x][i]);
                    }
                }
                assert(bw[y][x] =~= cw[y][x]);
            }
            assert(bw[y] =~= cw[y]);
        }
        assert(bw =~= cw);
    }

    /// Propagation is idempotent. If `b` is what propagation makes of `a`,
    /// and `c` is `b` with no site dirty that was not dirty in `a`, then
    /// propagation from `c` changes nothing: whatever `d` it leads to, the
    /// wave of `d` is the wave of `b`.
    pub proof fn lemma_propagation_idempotent(
        a: &OverlappingModel,
        b: &OverlappingModel,
        c: &OverlappingModel,
        d: &OverlappingModel,
    )
        requires
            a.propagates_to(b),
            c.patterns() == b.patterns(),
            c.size() == b.size(),
            c.wave() == b.wave(),
            forall|y: int, x: int| in_wave(c.wave(), y, x) && c.dirty(y, x) ==> a.dirty(y, x),
            c.propagates_to(d),
        ensures
            d.wave() == b.wave(),
    {
        assert forall|y: int, x: int|
            in_wave(c.wave(), y, x) && c.dirty(y, x) implies #[trigger] clean(
            c.patterns(),
            c.size() as int,
            c.wave(),
            y,
            x,
        ) by {
            assert(a.wave().len() == b.wave().len());
            assert(b.wave()[y].len() == a.wave()[y].len());
            assert(in_wave(a.wave(), y, x));
            assert(clean(b.patterns(), b.size() as int, b.wave(), y, x));
        }
    }

    /// Propagation from a wave at rest changes nothing.
    pub proof fn lemma_propagation_at_rest(a: &OverlappingModel, b: &OverlappingModel)
        requires
            a.quiescent(),
            a.propagates_to(b),
        ensures
            b.wave() == a.wave(),
    {
    }
}

} // verus!
