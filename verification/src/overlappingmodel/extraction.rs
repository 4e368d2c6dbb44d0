//! Building the solver from a seed image: the table of patterns with their
//! weights, the compatibility table and the fresh wave.

use crate::compatibility::CompatibilityMap;
use crate::consistency::{full, wave_shape};
use crate::grid::{
    at_least_one, Grid, grid_views, grid_width, grid_windows, rectangular, windows_of,
};
use crate::overlappingmodel::{ModelError, OverlappingModel};
use crate::symmetry::{
    all_orientations, closed_under_orientations, lemma_augmented_table_closed, orient,
    oriented_blocks, square,
};
use crate::texturesource::{
    is_among, is_tally, lemma_tally_distinct, lemma_windows_exist, stands_in, tally,
};
use crate::wave::Wave;
use vstd::prelude::*;

verus! {

/// The blocks that the patterns are cut from: the windows of side `n` of
/// the seed, each in its eight orientations where `augment` is set.
pub open spec fn pattern_blocks(seed: Seq<Seq<usize>>, width: nat, n: nat, augment: bool) -> Seq<
    Seq<Seq<usize>>,
> {
    if augment {
        oriented_blocks(windows_of(seed, width, n, n), n)
    } else {
        windows_of(seed, width, n, n)
    }
}

/// The grids of a list of counted grids, as their pixels.
pub open spec fn paired_grids(pairs: Seq<(Grid, usize)>) -> Seq<Seq<Seq<usize>>> {
    Seq::new(pairs.len(), |i: int| pairs[i].0@)
}

/// The counts of a list of counted grids.
pub open spec fn paired_counts(pairs: Seq<(Grid, usize)>) -> Seq<usize> {
    Seq::new(pairs.len(), |i: int| pairs[i].1)
}

/// Each grid beside its count.
fn pair_up(states: Vec<Grid>, counts: Vec<usize>) -> (r: Vec<(Grid, usize)>)
    requires
        states@.len() == counts@.len(),
    ensures
        paired_grids(r@) == grid_views(states@),
        paired_counts(r@) == counts@,
{
    let mut pairs: Vec<(Grid, usize)> = Vec::new();
    let total = states.len();
    let mut k: usize = 0;
    for state in it: states
        invariant
            k == it.index(),
            it.seq() == states@,
            total == states@.len(),
            states@.len() == counts@.len(),
            pairs@.len() == k,
            forall|i: int|
                0 <= i < k ==> (#[trigger] pairs@[i]).0@ == states@[i]@ && pairs@[i].1
                    == counts@[i],
    {
        assert(k < states@.len());
        pairs.push((state, counts[k]));
        k += 1;
    }
    proof {
        assert(paired_grids(pairs@) =~= grid_views(states@));
        assert(paired_counts(pairs@) =~= counts@);
    }
    pairs
}

/// Every window of a rectangular grid is a rectangle of the window's size.
pub proof fn lemma_windows_are_rectangles(
    rows: Seq<Seq<usize>>,
    width: nat,
    wh: nat,
    ww: nat,
    k: int,
)
    requires
        rectangular(rows, width),
        wh >= 1,
        ww >= 1,
        0 <= k < windows_of(rows, width, wh, ww).len(),
    ensures
        windows_of(rows, width, wh, ww)[k].len() == wh,
        rectangular(windows_of(rows, width, wh, ww)[k], ww),
{
    let cols = width - ww + 1;
    let count_rows = rows.len() - wh + 1;
    assert(0 <= k / cols < count_rows && 0 <= k % cols < cols) by (nonlinear_arith)
        requires
            0 <= k < count_rows * cols,
            cols > 0,
    ;
    let win = windows_of(rows, width, wh, ww)[k];
    assert forall|y: int| 0 <= y < win.len() implies (#[trigger] win[y]).len() == ww by {
        assert(rows[k / cols + y].len() == width);
    }
}

impl OverlappingModel {
    /// The patterns of side `block_size` cut from the image, in order of
    /// first occurrence, and their weights. Fails with
    /// `PatternExtractionEmpty` where the image is smaller than a pattern.
    pub fn extract_patterns(image_data: &Grid, block_size: usize, augment: bool) -> (r: Result<
        (Vec<Grid>, Vec<usize>),
        ModelError,
    >)
        requires
            block_size >= 1,
        ensures
            r is Err <==> (image_data@.len() < block_size || grid_width(*image_data)
                < block_size),
            r matches Err(e) ==> e == ModelError::PatternExtractionEmpty,
            r matches Ok(t) ==> is_tally(
                pattern_blocks(image_data@, grid_width(*image_data), block_size as nat, augment),
                grid_views(t.0@),
                t.1@,
            ) && t.0@.len() >= 1 && forall|i: int|
                0 <= i < t.0@.len() ==> square((#[trigger] t.0@[i])@, block_size as nat)
                    && grid_width(t.0@[i]) == block_size,
            r matches Ok(t) ==> t.0@.len() == t.1@.len() && forall|k: int|
                0 <= k < t.1@.len() ==> #[trigger] t.1@[k] >= 1,
            r matches Ok(t) ==> (augment ==> closed_under_orientations(
                grid_views(t.0@),
                block_size as nat,
            )),
    {
        let (rows, cols) = image_data.dim();
        if rows < block_size || cols < block_size {
            return Err(ModelError::PatternExtractionEmpty);
        }
        let windows = grid_windows(image_data, block_size, block_size);
        proof {
            assert forall|k: int| 0 <= k < windows@.len() implies square(
                (#[trigger] windows@[k])@,
                block_size as nat,
            ) && grid_width(windows@[k]) == block_size by {
                assert(windows@[k]@ == grid_views(windows@)[k]);
                lemma_windows_are_rectangles(
                    image_data@,
                    grid_width(*image_data),
                    block_size as nat,
                    block_size as nat,
                    k,
                );
            }
        }
        let blocks = if augment {
            all_orientations(windows, block_size)
        } else {
            windows
        };
        let ghost all = blocks@;
        proof {
            assert(grid_views(all) == pattern_blocks(
                image_data@,
                grid_width(*image_data),
                block_size as nat,
                augment,
            ));
            assert forall|b: int| 0 <= b < all.len() implies square(
                (#[trigger] all[b])@,
                block_size as nat,
            ) && grid_width(all[b]) == block_size by {
                assert(all[b]@ == grid_views(all)[b]);
            }
        }
        let r = tally(blocks);
        proof {
            assert forall|i: int| 0 <= i < r.0@.len() implies square(
                (#[trigger] r.0@[i])@,
                block_size as nat,
            ) && grid_width(r.0@[i]) == block_size by {
                assert(is_among(r.0@[i], all, all.len() as int));
                let b = choose|b: int| 0 <= b < all.len() && b < all.len() && r.0@[i] == all[b];
                assert(square(all[b]@, block_size as nat));
            }
            lemma_windows_exist(
                image_data@,
                grid_width(*image_data),
                block_size as nat,
                block_size as nat,
            );
            assert(stands_in(grid_views(r.0@), grid_views(all)[0]));
            if augment {
                let n = block_size as nat;
                let views = windows_of(image_data@, grid_width(*image_data), n, n);
                let table = grid_views(r.0@);
                assert forall|w: int| 0 <= w < views.len() implies square(
                    #[trigger] views[w],
                    n,
                ) by {
                    lemma_windows_are_rectangles(image_data@, grid_width(*image_data), n, n, w);
                }
                assert forall|i: int, k: int| 0 <= i < table.len() && 0 <= k < 8 implies stands_in(
                    table,
                    #[trigger] orient(table[i], n, k),
                ) by {
                    let j = lemma_augmented_table_closed(views, n, table, r.1@, i, k);
                }
            }
        }
        Ok(r)
    }

    /// The patterns of side `block_size` that occur in the image, in order
    /// of first occurrence, each with the number of times it occurs. Fails
    /// with `PatternExtractionEmpty` where the image is smaller than a
    /// pattern.
    pub fn build_block_frequency_map(image_data: &Grid, block_size: usize) -> (r: Result<
        Vec<(Grid, usize)>,
        ModelError,
    >)
        requires
            block_size >= 1,
        ensures
            r is Err <==> (image_data@.len() < block_size || grid_width(*image_data)
                < block_size),
            r matches Err(e) ==> e == ModelError::PatternExtractionEmpty,
            r matches Ok(t) ==> is_tally(
                pattern_blocks(image_data@, grid_width(*image_data), block_size as nat, false),
                paired_grids(t@),
                paired_counts(t@),
            ) && t@.len() >= 1,
            r matches Ok(t) ==> forall|k: int| 0 <= k < t@.len() ==> (#[trigger] t@[k]).1 >= 1,
    {
        match OverlappingModel::extract_patterns(image_data, block_size, false) {
            Ok((states, counts)) => {
                let pairs = pair_up(states, counts);
                proof {
                    assert forall|k: int| 0 <= k < pairs@.len() implies (#[trigger] pairs@[k]).1
                        >= 1 by {
                        assert(pairs@[k].1 == paired_counts(pairs@)[k]);
                    }
                }
                Ok(pairs)
            },
            Err(e) => Err(e),
        }
    }

    /// The patterns of side `block_size` that occur in the image in any of
    /// the eight orientations, in order of first occurrence, each with the
    /// number of times it occurs. Fails with `PatternExtractionEmpty` where
    /// the image is smaller than a pattern.
    pub fn build_augmented_block_frequency_map(image_data: &Grid, block_size: usize) -> (r:
        Result<Vec<(Grid, usize)>, ModelError>)
        requires
            block_size >= 1,
        ensures
            r is Err <==> (image_data@.len() < block_size || grid_width(*image_data)
                < block_size),
            r matches Err(e) ==> e == ModelError::PatternExtractionEmpty,
            r matches Ok(t) ==> is_tally(
                pattern_blocks(image_data@, grid_width(*image_data), block_size as nat, true),
                paired_grids(t@),
                paired_counts(t@),
            ) && t@.len() >= 1,
            r matches Ok(t) ==> forall|k: int| 0 <= k < t@.len() ==> (#[trigger] t@[k]).1 >= 1,
            r matches Ok(t) ==> closed_under_orientations(paired_grids(t@), block_size as nat),
    {
        match OverlappingModel::extract_patterns(image_data, block_size, true) {
            Ok((states, counts)) => {
                let pairs = pair_up(states, counts);
                proof {
                    assert forall|k: int| 0 <= k < pairs@.len() implies (#[trigger] pairs@[k]).1
                        >= 1 by {
                        assert(pairs@[k].1 == paired_counts(pairs@)[k]);
                    }
                }
                Ok(pairs)
            },
            Err(e) => Err(e),
        }
    }

    /// A solver for the seed image: the patterns of side `block_size` cut
    /// from it (in all eight orientations where `augment` is set), their
    /// compatibility table, and a wave of `output_dims.0` rows and
    /// `output_dims.1` columns in which every site allows every pattern.
    /// Fails where the seed is too small to hold a single pattern.
    pub fn from_seed_image(
        seed_image: &Grid,
        output_dims: (usize, usize),
        block_size: usize,
        augment: bool,
    ) -> (r: Result<OverlappingModel, ModelError>)
        requires
            block_size >= 1,
            (2 * block_size - 1) * (2 * block_size - 1) <= isize::MAX,
            at_least_one(output_dims.0 as int) * at_least_one(output_dims.1 as int) <= isize::MAX,
            output_dims.0 + 2 * block_size <= isize::MAX,
            output_dims.1 + 2 * block_size <= isize::MAX,
        ensures
            r is Err <==> (seed_image@.len() < block_size || grid_width(*seed_image) < block_size),
            r matches Err(e) ==> e == ModelError::PatternExtractionEmpty,
            r matches Ok(m) ==> m.wf() && m.size() == block_size && m.width() == output_dims.1
                && is_tally(
                pattern_blocks(seed_image@, grid_width(*seed_image), block_size as nat, augment),
                m.patterns(),
                m.weights(),
            ) && wave_shape(
                m.wave(),
                output_dims.0 as nat,
                output_dims.1 as nat,
                m.patterns().len(),
            ) && (augment ==> closed_under_orientations(m.patterns(), block_size as nat))
                && m.worklist().len() == 0 && forall|y: int, x: int|
                0 <= y < output_dims.0 && 0 <= x < output_dims.1 ==> full(
                    #[trigger] m.wave()[y][x],
                ) && !m.dirty(y, x),
    {
        let (states, state_counts) = match OverlappingModel::extract_patterns(
            seed_image,
            block_size,
            augment,
        ) {
            Ok(table) => table,
            Err(e) => {
                return Err(e);
            },
        };
        let ghost n = block_size as nat;
        let ghost blocks = pattern_blocks(seed_image@, grid_width(*seed_image), n, augment);
        let ghost table = grid_views(states@);
        let compatibility_map = CompatibilityMap::generate(&states, (block_size, block_size));
        let num_states = states.len();
        let model = match Wave::new(output_dims.0, output_dims.1, num_states) {
            Some(model) => model,
            None => unreached(),
        };
        let mut queued: Vec<Vec<bool>> = Vec::new();
        let mut y: usize = 0;
        while y < output_dims.0
            invariant
                y <= output_dims.0,
                queued@.len() == y,
                forall|y0: int|
                    0 <= y0 < y ==> (#[trigger] queued@[y0])@.len() == output_dims.1 && forall|
                        x0: int,
                    |
                        0 <= x0 < output_dims.1 ==> !(#[trigger] queued@[y0]@[x0]),
            decreases output_dims.0 - y,
        {
            let mut row: Vec<bool> = Vec::new();
            let mut x: usize = 0;
            while x < output_dims.1
                invariant
                    x <= output_dims.1,
                    row@.len() == x,
                    forall|x0: int| 0 <= x0 < x ==> !(#[trigger] row@[x0]),
                decreases output_dims.1 - x,
            {
                row.push(false);
                x += 1;
            }
            queued.push(row);
            y += 1;
        }
        let m = OverlappingModel {
            model,
            states,
            state_counts,
            state_size: block_size,
            compatibility_map,
            state_changes: Vec::new(),
            queued,
        };
        proof {
            lemma_tally_distinct(blocks, table, m.state_counts@);
            assert forall|i: int, j: int| 0 <= i < j < m.states@.len() implies (
            #[trigger] m.states@[i])@ != (#[trigger] m.states@[j])@ by {
                assert(table[i] != table[j]);
            }
            assert(output_dims.0 <= isize::MAX && output_dims.1 <= isize::MAX) by (nonlinear_arith)
                requires
                    at_least_one(output_dims.0 as int) * at_least_one(output_dims.1 as int)
                        <= isize::MAX,
                    at_least_one(output_dims.0 as int) >= output_dims.0,
                    at_least_one(output_dims.1 as int) >= output_dims.1,
                    at_least_one(output_dims.0 as int) >= 1,
                    at_least_one(output_dims.1 as int) >= 1,
            ;
            assert forall|y: int, x: int|
                0 <= y < output_dims.0 && 0 <= x < output_dims.1 implies #[trigger] m.settled(
                y,
                x,
            ) by {
                assert(full(m.model@[y][x]));
            }
            assert(m.wf());
        }
        Ok(m)
    }
}

} // verus!
