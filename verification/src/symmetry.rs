//! The eight orientations of a square block: four rotations, and the
//! mirror image of each.

use crate::grid::{Grid, grid_flipped, grid_views, grid_width, rectangular};
use crate::texturesource::{first_occurrence, is_tally, lemma_first_occurrence, stands_in};
use crate::utils::rotate_90_clockwise;
use vstd::prelude::*;

verus! {

/// Where the pixel at `(y, x)` of orientation `k` of a block of side `n`
/// comes from. Orientations `0 .. 4` are the block turned clockwise by
/// `k` quarter turns; orientation `4 + k` is the mirror image, left to
/// right, of orientation `k`.
pub open spec fn source(n: int, k: int, y: int, x: int) -> (int, int) {
    if k == 0 {
        (y, x)
    } else if k == 1 {
        (n - 1 - x, y)
    } else if k == 2 {
        (n - 1 - y, n - 1 - x)
    } else if k == 3 {
        (x, n - 1 - y)
    } else if k == 4 {
        (y, n - 1 - x)
    } else if k == 5 {
        (x, y)
    } else if k == 6 {
        (n - 1 - y, x)
    } else {
        (n - 1 - x, n - 1 - y)
    }
}

/// Orientation `k` of a block of side `n`.
pub open spec fn orient(g: Seq<Seq<usize>>, n: nat, k: int) -> Seq<Seq<usize>> {
    Seq::new(
        n,
        |y: int|
            Seq::new(n, |x: int| g[source(n as int, k, y, x).0][source(n as int, k, y, x).1]),
    )
}

/// Whether `g` is a square of side `n`.
pub open spec fn square(g: Seq<Seq<usize>>, n: nat) -> bool {
    g.len() == n && rectangular(g, n)
}

/// The orientation that results from orientation `first` followed by
/// orientation `then`.
pub open spec fn compose(then: int, first: int) -> int {
    if then < 4 && first < 4 {
        (first + then) % 4
    } else if then < 4 {
        4 + (first - 4 - then) % 4
    } else if first < 4 {
        4 + (first + then - 4) % 4
    } else {
        (first - then) % 4
    }
}

/// An orientation of an orientation is an orientation.
pub proof fn lemma_orient_orient(g: Seq<Seq<usize>>, n: nat, first: int, then: int)
    requires
        square(g, n),
        0 <= first < 8,
        0 <= then < 8,
    ensures
        0 <= compose(then, first) < 8,
        orient(orient(g, n, first), n, then) == orient(g, n, compose(then, first)),
{
    let a = orient(orient(g, n, first), n, then);
    let b = orient(g, n, compose(then, first));
    assert forall|y: int| 0 <= y < n implies a[y] == b[y] by {
        assert forall|x: int| 0 <= x < n implies a[y][x] == b[y][x] by {
            let s = source(n as int, then, y, x);
            assert(0 <= s.0 < n && 0 <= s.1 < n);
            let t = source(n as int, first, s.0, s.1);
            assert(orient(g, n, first)[s.0][s.1] == g[t.0][t.1]);
            assert(t == source(n as int, compose(then, first), y, x));
        }
        assert(a[y] =~= b[y]);
    }
    assert(a =~= b);
}

/// Orientation `0` of a square is the square itself.
pub proof fn lemma_orient_identity(g: Seq<Seq<usize>>, n: nat)
    requires
        square(g, n),
    ensures
        orient(g, n, 0) == g,
{
    assert forall|y: int| 0 <= y < n implies orient(g, n, 0)[y] == g[y] by {
        assert(orient(g, n, 0)[y] =~= g[y]);
    }
    assert(orient(g, n, 0) =~= g);
}

/// The eight orientations of each of `windows`, window after window.
pub open spec fn oriented_blocks(windows: Seq<Seq<Seq<usize>>>, n: nat) -> Seq<Seq<Seq<usize>>> {
    Seq::new(8 * windows.len(), |b: int| orient(windows[b / 8], n, b % 8))
}

/// The eight orientations of a square block: the block, its three
/// clockwise rotations, and the mirror image of each of the four.
pub fn generate_rotations_and_reflections(block: Grid) -> (r: Vec<Grid>)
    requires
        block@.len() == grid_width(block),
    ensures
        r@.len() == 8,
        forall|k: int|
            0 <= k < 8 ==> (#[trigger] r@[k])@ == orient(block@, grid_width(block), k)
                && grid_width(r@[k]) == grid_width(block),
{
    let ghost g = block@;
    let ghost n = grid_width(block);
    let dim = block.dim();
    let quarter = rotate_90_clockwise(&block);
    let half = rotate_90_clockwise(&quarter);
    let three_quarters = rotate_90_clockwise(&half);
    let mirrored = grid_flipped(&block);
    let mirrored_quarter = grid_flipped(&quarter);
    let mirrored_half = grid_flipped(&half);
    let mirrored_three_quarters = grid_flipped(&three_quarters);
    proof {
        lemma_orient_identity(g, n);
        lemma_same_grid(quarter@, orient(g, n, 1), n);
        lemma_same_grid(half@, orient(g, n, 2), n);
        lemma_same_grid(three_quarters@, orient(g, n, 3), n);
        lemma_same_grid(mirrored@, orient(g, n, 4), n);
        lemma_same_grid(mirrored_quarter@, orient(g, n, 5), n);
        lemma_same_grid(mirrored_half@, orient(g, n, 6), n);
        lemma_same_grid(mirrored_three_quarters@, orient(g, n, 7), n);
    }
    let mut out: Vec<Grid> = Vec::new();
    out.push(block);
    out.push(quarter);
    out.push(half);
    out.push(three_quarters);
    out.push(mirrored);
    out.push(mirrored_quarter);
    out.push(mirrored_half);
    out.push(mirrored_three_quarters);
    out
}

/// Two squares with the same pixels are the same.
proof fn lemma_same_grid(a: Seq<Seq<usize>>, b: Seq<Seq<usize>>, n: nat)
    requires
        a.len() == n,
        b.len() == n,
        forall|y: int| 0 <= y < n ==> (#[trigger] a[y]).len() == n,
        forall|y: int| 0 <= y < n ==> (#[trigger] b[y]).len() == n,
        forall|y: int, x: int| 0 <= y < n && 0 <= x < n ==> #[trigger] a[y][x] == b[y][x],
    ensures
        a == b,
{
    assert forall|y: int| 0 <= y < n implies a[y] == b[y] by {
        assert(a[y] =~= b[y]);
    }
    assert(a =~= b);
}

/// The eight orientations of each of `blocks`, block after block.
pub fn all_orientations(blocks: Vec<Grid>, block_size: usize) -> (r: Vec<Grid>)
    requires
        forall|k: int|
            0 <= k < blocks@.len() ==> square((#[trigger] blocks@[k])@, block_size as nat)
                && grid_width(blocks@[k]) == block_size,
    ensures
        grid_views(r@) == oriented_blocks(grid_views(blocks@), block_size as nat),
        forall|b: int| 0 <= b < r@.len() ==> grid_width(#[trigger] r@[b]) == block_size,
{
    let mut out: Vec<Grid> = Vec::new();
    let ghost n = block_size as nat;
    let total = blocks.len();
    let mut k: usize = 0;
    for block in it: blocks
        invariant
            k == it.index(),
            it.seq() == blocks@,
            n == block_size,
            out@.len() == 8 * k,
            total == blocks@.len(),
            forall|k: int|
                0 <= k < blocks@.len() ==> square((#[trigger] blocks@[k])@, block_size as nat)
                    && grid_width(blocks@[k]) == block_size,
            forall|b: int|
                0 <= b < out@.len() ==> (#[trigger] out@[b])@ == orient(blocks@[b / 8]@, n, b % 8)
                    && grid_width(out@[b]) == block_size,
    {
        assert(k < blocks@.len());
        assert(block == blocks@[k as int]);
        let mut eight = generate_rotations_and_reflections(block);
        let ghost before = out@;
        let ghost added = eight@;
        out.append(&mut eight);
        proof {
            assert forall|b: int| 0 <= b < out@.len() implies (#[trigger] out@[b])@ == orient(
                blocks@[b / 8]@,
                n,
                b % 8,
            ) && grid_width(out@[b]) == block_size by {
                if b < before.len() {
                    assert(out@[b] == before[b]);
                } else {
                    assert(out@[b] == added[b - 8 * k]);
                }
            }
        }
        k += 1;
    }
    proof {
        let lhs = grid_views(out@);
        let rhs = oriented_blocks(grid_views(blocks@), n);
        assert(lhs.len() == rhs.len());
        assert forall|b: int| 0 <= b < lhs.len() implies lhs[b] == rhs[b] by {
            assert(lhs[b] == out@[b]@);
        }
        assert(lhs =~= rhs);
    }
    out
}

/// Whether the table holds, with each pattern, each of its eight
/// orientations.
pub open spec fn closed_under_orientations(patterns: Seq<Seq<Seq<usize>>>, n: nat) -> bool {
    forall|i: int, k: int|
        0 <= i < patterns.len() && 0 <= k < 8 ==> stands_in(
            patterns,
            #[trigger] orient(patterns[i], n, k),
        )
}

/// Every orientation of a pattern of an augmented table stands in the
/// table: the table of the eight orientations of all windows is closed
/// under the eight orientations.
pub proof fn lemma_augmented_table_closed(
    windows: Seq<Seq<Seq<usize>>>,
    n: nat,
    patterns: Seq<Seq<Seq<usize>>>,
    counts: Seq<usize>,
    i: int,
    k: int,
) -> (j: int)
    requires
        forall|w: int| 0 <= w < windows.len() ==> square(#[trigger] windows[w], n),
        is_tally(oriented_blocks(windows, n), patterns, counts),
        0 <= i < patterns.len(),
        0 <= k < 8,
    ensures
        0 <= j < patterns.len(),
        patterns[j] == orient(patterns[i], n, k),
{
    let blocks = oriented_blocks(windows, n);
    lemma_first_occurrence(blocks, patterns[i]);
    let b = first_occurrence(blocks, patterns[i]);
    assert(blocks[b] == patterns[i]);
    let w = b / 8;
    let first = b % 8;
    lemma_orient_orient(windows[w], n, first, k);
    let m = compose(k, first);
    let b2 = 8 * w + m;
    assert(blocks[b2] == orient(windows[b2 / 8], n, b2 % 8));
    assert(blocks[b2] == orient(patterns[i], n, k));
    assert(stands_in(patterns, blocks[b2]));
    let j = choose|j: int| 0 <= j < patterns.len() && patterns[j] == blocks[b2];
    j
}

} // verus!
