//! The seed image and the patterns cut from it.

use crate::grid::{
    all_of_width, Grid, grid_eq, grid_rows, grid_views, grid_width, grid_windows, windows_of,
};
use crate::overlappingmodel::ModelError;
use vstd::prelude::*;

verus! {

/// How often `p` occurs among `blocks`.
pub open spec fn occurrences(blocks: Seq<Seq<Seq<usize>>>, p: Seq<Seq<usize>>) -> nat
    decreases blocks.len(),
{
    if blocks.len() == 0 {
        0
    } else {
        occurrences(blocks.drop_last(), p) + if blocks.last() == p {
            1nat
        } else {
            0nat
        }
    }
}

/// The least index at which `p` occurs among `blocks`, or their number
/// where it does not occur.
pub open spec fn first_occurrence(blocks: Seq<Seq<Seq<usize>>>, p: Seq<Seq<usize>>) -> int
    decreases blocks.len(),
{
    if blocks.len() == 0 {
        0
    } else {
        let earlier = first_occurrence(blocks.drop_last(), p);
        if earlier < blocks.len() - 1 {
            earlier
        } else if blocks.last() == p {
            blocks.len() - 1
        } else {
            blocks.len() as int
        }
    }
}

/// Whether `x` is one of `patterns`.
pub open spec fn stands_in(patterns: Seq<Seq<Seq<usize>>>, x: Seq<Seq<usize>>) -> bool {
    exists|i: int| 0 <= i < patterns.len() && patterns[i] == x
}

/// Whether `patterns` and `counts` are the table of `blocks`: each block
/// that occurs stands in `patterns` once, in the order of first occurrence,
/// and beside it in `counts` the number of times it occurs.
pub open spec fn is_tally(
    blocks: Seq<Seq<Seq<usize>>>,
    patterns: Seq<Seq<Seq<usize>>>,
    counts: Seq<usize>,
) -> bool {
    &&& patterns.len() == counts.len()
    &&& forall|i: int|
        0 <= i < patterns.len() ==> first_occurrence(blocks, #[trigger] patterns[i]) < blocks.len()
    &&& forall|i: int, j: int|
        0 <= i < j < patterns.len() ==> first_occurrence(blocks, #[trigger] patterns[i])
            < first_occurrence(blocks, #[trigger] patterns[j])
    &&& forall|i: int|
        0 <= i < patterns.len() ==> (#[trigger] counts[i]) == occurrences(blocks, patterns[i])
            && counts[i] >= 1
    &&& forall|b: int| 0 <= b < blocks.len() ==> stands_in(patterns, #[trigger] blocks[b])
}

/// Whether `p` is one of the first `k` grids of `blocks`.
pub open spec fn is_among(p: Grid, blocks: Seq<Grid>, k: int) -> bool {
    exists|b: int| 0 <= b < k && b < blocks.len() && p == blocks[b]
}

/// What `first_occurrence` finds: an index within bounds holds `p` and is
/// the first to do so; the index past the end means that `p` is absent.
pub proof fn lemma_first_occurrence(blocks: Seq<Seq<Seq<usize>>>, p: Seq<Seq<usize>>)
    ensures
        0 <= first_occurrence(blocks, p) <= blocks.len(),
        first_occurrence(blocks, p) < blocks.len() ==> blocks[first_occurrence(blocks, p)] == p,
        forall|j: int| 0 <= j < first_occurrence(blocks, p) ==> #[trigger] blocks[j] != p,
        first_occurrence(blocks, p) == blocks.len() ==> occurrences(blocks, p) == 0,
        first_occurrence(blocks, p) < blocks.len() ==> occurrences(blocks, p) >= 1,
        occurrences(blocks, p) <= blocks.len(),
    decreases blocks.len(),
{
    if blocks.len() > 0 {
        lemma_first_occurrence(blocks.drop_last(), p);
        let earlier = first_occurrence(blocks.drop_last(), p);
        assert forall|j: int| 0 <= j < first_occurrence(blocks, p) implies #[trigger] blocks[j]
            != p by {
            if j < blocks.len() - 1 {
                assert(blocks.drop_last()[j] == blocks[j]);
            }
        }
        if earlier < blocks.len() - 1 {
            assert(blocks.drop_last()[earlier] == blocks[earlier]);
        }
    }
}

/// The table of a grid's windows: the patterns in order of first
/// occurrence, and how often each occurs.
pub fn tally(blocks: Vec<Grid>) -> (r: (Vec<Grid>, Vec<usize>))
    requires
        forall|j: int, k: int|
            0 <= j < blocks@.len() && 0 <= k < blocks@.len() ==> grid_width(#[trigger] blocks@[j])
                == grid_width(#[trigger] blocks@[k]),
    ensures
        is_tally(grid_views(blocks@), grid_views(r.0@), r.1@),
        forall|i: int|
            0 <= i < r.0@.len() ==> is_among(#[trigger] r.0@[i], blocks@, blocks@.len() as int),
{
    let ghost all = grid_views(blocks@);
    let mut patterns: Vec<Grid> = Vec::new();
    let mut counts: Vec<usize> = Vec::new();
    let n = blocks.len();
    let mut k: usize = 0;
    for block in it: blocks
        invariant
            k == it.index(),
            it.seq() == blocks@,
            n == blocks@.len(),
            all == grid_views(blocks@),
            forall|j: int, k: int|
                0 <= j < blocks@.len() && 0 <= k < blocks@.len() ==> grid_width(
                    #[trigger] blocks@[j],
                ) == grid_width(#[trigger] blocks@[k]),
            is_tally(all.subrange(0, k as int), grid_views(patterns@), counts@),
            forall|i: int|
                0 <= i < patterns@.len() ==> is_among(#[trigger] patterns@[i], blocks@, k as int),
    {
        let ghost seen = all.subrange(0, k as int);
        let ghost next = all.subrange(0, k + 1);
        let ghost x = grid_rows(block);
        let ghost table = grid_views(patterns@);
        assert(block == blocks@[k as int]);
        assert(x == all[k as int]);
        assert(next.drop_last() =~= seen);
        assert(next.last() == x);
        proof {
            lemma_first_occurrence(seen, x);
            assert forall|i: int| 0 <= i < table.len() implies first_occurrence(
                next,
                #[trigger] table[i],
            ) == first_occurrence(seen, table[i]) && occurrences(next, table[i]) == occurrences(
                seen,
                table[i],
            ) + if x == table[i] {
                1nat
            } else {
                0nat
            } by {
                lemma_first_occurrence(seen, table[i]);
            }
        }
        let mut found: Option<usize> = None;
        let mut i: usize = 0;
        while i < patterns.len()
            invariant_except_break
                found is None,
            invariant
                i <= patterns@.len(),
                x == grid_rows(block),
                table == grid_views(patterns@),
                0 <= k < blocks@.len(),
                block == blocks@[k as int],
                forall|j: int, k: int|
                    0 <= j < blocks@.len() && 0 <= k < blocks@.len() ==> grid_width(
                        #[trigger] blocks@[j],
                    ) == grid_width(#[trigger] blocks@[k]),
                forall|i: int|
                    0 <= i < patterns@.len() ==> is_among(
                        #[trigger] patterns@[i],
                        blocks@,
                        k as int,
                    ),
                forall|j: int| 0 <= j < i ==> #[trigger] table[j] != x,
            ensures
                found matches Some(at) ==> at < patterns@.len() && table[at as int] == x,
                found is None ==> forall|j: int| 0 <= j < table.len() ==> #[trigger] table[j] != x,
            decreases patterns@.len() - i,
        {
            assert(is_among(patterns@[i as int], blocks@, k as int));
            let ghost b = choose|b: int|
                0 <= b < k && b < blocks@.len() && patterns@[i as int] == blocks@[b];
            assert(grid_width(blocks@[b]) == grid_width(blocks@[k as int]));
            if grid_eq(&patterns[i], &block) {
                assert(table[i as int] == x);
                found = Some(i);
                break ;
            }
            assert(table[i as int] != x);
            i += 1;
        }
        match found {
            Some(at) => {
                proof {
                    lemma_first_occurrence(seen, table[at as int]);
                    lemma_first_occurrence(next, table[at as int]);
                }
                let count = counts[at];
                assert(count == occurrences(seen, table[at as int]));
                assert(count <= k);
                counts.set(at, count + 1);
                proof {
                    let new_counts = counts@;
                    assert forall|i: int| 0 <= i < table.len() implies (#[trigger] new_counts[i])
                        == occurrences(next, table[i]) && new_counts[i] >= 1 by {
                        if i != at {
                            if i < at {
                                assert(first_occurrence(seen, table[i]) < first_occurrence(
                                    seen,
                                    table[at as int],
                                ));
                            } else {
                                assert(first_occurrence(seen, table[at as int]) < first_occurrence(
                                    seen,
                                    table[i],
                                ));
                            }
                            assert(table[i] != x);
                        }
                    }
                    assert forall|b: int| 0 <= b < next.len() implies stands_in(
                        table,
                        #[trigger] next[b],
                    ) by {
                        if b < k {
                            assert(next[b] == seen[b]);
                            assert(stands_in(table, seen[b]));
                        } else {
                            assert(table[at as int] == next[b]);
                        }
                    }
                    assert(is_tally(next, table, new_counts));
                }
            },
            None => {
                proof {
                    assert(first_occurrence(seen, x) == k) by {
                        if first_occurrence(seen, x) < k {
                            let b = first_occurrence(seen, x);
                            assert(stands_in(table, seen[b]));
                            let i = choose|i: int| 0 <= i < table.len() && table[i] == seen[b];
                            assert(table[i] == x);
                        }
                    }
                    lemma_first_occurrence(next, x);
                }
                let ghost old_patterns = patterns@;
                patterns.push(block);
                counts.push(1);
                proof {
                    let new_table = grid_views(patterns@);
                    let new_counts = counts@;
                    assert(new_table.len() == table.len() + 1);
                    assert(new_table[table.len() as int] == x);
                    assert forall|i: int| 0 <= i < table.len() implies #[trigger] new_table[i]
                        == table[i] by {
                        assert(patterns@[i] == old_patterns[i]);
                    }
                    assert forall|i: int| 0 <= i < new_table.len() implies first_occurrence(
                        next,
                        #[trigger] new_table[i],
                    ) < next.len() by {
                        if i < table.len() {
                            assert(new_table[i] == table[i]);
                        }
                    }
                    assert forall|i: int, j: int|
                        0 <= i < j < new_table.len() implies first_occurrence(
                        next,
                        #[trigger] new_table[i],
                    ) < first_occurrence(next, #[trigger] new_table[j]) by {
                        assert(new_table[i] == table[i]);
                        if j < table.len() {
                            assert(new_table[j] == table[j]);
                        }
                    }
                    assert forall|i: int| 0 <= i < new_table.len() implies (
                    #[trigger] new_counts[i]) == occurrences(next, new_table[i]) && new_counts[i]
                        >= 1 by {
                        if i < table.len() {
                            assert(new_table[i] == table[i]);
                            assert(table[i] != x);
                        }
                    }
                    assert forall|b: int| 0 <= b < next.len() implies stands_in(
                        new_table,
                        #[trigger] next[b],
                    ) by {
                        if b < k {
                            assert(next[b] == seen[b]);
                            assert(stands_in(table, seen[b]));
                            let i = choose|i: int| 0 <= i < table.len() && table[i] == seen[b];
                            assert(new_table[i] == next[b]);
                        } else {
                            assert(new_table[table.len() as int] == next[b]);
                        }
                    }
                    assert(is_tally(next, new_table, new_counts));
                    assert forall|i: int| 0 <= i < patterns@.len() implies is_among(
                        #[trigger] patterns@[i],
                        blocks@,
                        k + 1,
                    ) by {
                        if i < old_patterns.len() {
                            assert(is_among(old_patterns[i], blocks@, k as int));
                            let b = choose|b: int|
                                0 <= b < k && b < blocks@.len() && old_patterns[i] == blocks@[b];
                            assert(patterns@[i] == blocks@[b]);
                        } else {
                            assert(patterns@[i] == blocks@[k as int]);
                        }
                    }
                }
            },
        }
        k += 1;
    }
    proof {
        assert(k == n);
        assert(all.subrange(0, k as int) =~= all);
    }
    (patterns, counts)
}

/// A seed image.
pub struct TextureSource {
    pub img: Grid,
}

impl TextureSource {
    /// The patterns of the given size that occur in the image, in order of
    /// first occurrence, and how often each occurs. Fails with
    /// `PatternExtractionEmpty` where the image is smaller than a pattern.
    pub fn states_and_counts(&self, patch_size: (usize, usize)) -> (r: Result<
        (Vec<Grid>, Vec<usize>),
        ModelError,
    >)
        requires
            patch_size.0 >= 1,
            patch_size.1 >= 1,
        ensures
            r is Err <==> (self.img@.len() < patch_size.0 || grid_width(self.img) < patch_size.1),
            r matches Err(e) ==> e == ModelError::PatternExtractionEmpty,
            r matches Ok(t) ==> is_tally(
                windows_of(
                    self.img@,
                    grid_width(self.img),
                    patch_size.0 as nat,
                    patch_size.1 as nat,
                ),
                grid_views(t.0@),
                t.1@,
            ) && all_of_width(t.0@, patch_size.1 as nat) && t.0@.len() >= 1,
            r matches Ok(t) ==> t.0@.len() == t.1@.len() && forall|k: int|
                0 <= k < t.1@.len() ==> #[trigger] t.1@[k] >= 1,
    {
        let (rows, cols) = self.img.dim();
        if rows < patch_size.0 || cols < patch_size.1 {
            return Err(ModelError::PatternExtractionEmpty);
        }
        let blocks = grid_windows(&self.img, patch_size.0, patch_size.1);
        proof {
            lemma_windows_exist(
                self.img@,
                grid_width(self.img),
                patch_size.0 as nat,
                patch_size.1 as nat,
            );
        }
        let ghost all = blocks@;
        let t = tally(blocks);
        proof {
            assert forall|i: int| 0 <= i < t.0@.len() implies grid_width(#[trigger] t.0@[i])
                == patch_size.1 by {
                assert(is_among(t.0@[i], all, all.len() as int));
                let b = choose|b: int| 0 <= b < all.len() && b < all.len() && t.0@[i] == all[b];
                assert(grid_width(all[b]) == patch_size.1);
            }
            assert(stands_in(grid_views(t.0@), grid_views(all)[0]));
        }
        Ok(t)
    }
}

/// A grid that is no smaller than the window has a window.
pub proof fn lemma_windows_exist(rows: Seq<Seq<usize>>, width: nat, wh: nat, ww: nat)
    requires
        rows.len() >= wh,
        width >= ww,
    ensures
        windows_of(rows, width, wh, ww).len() >= 1,
{
    let a = rows.len() - wh + 1;
    let b = width - ww + 1;
    assert(a * b >= 1) by (nonlinear_arith)
        requires
            a >= 1,
            b >= 1,
    ;
}

/// The sum of the first `n` counts.
pub open spec fn counts_sum(counts: Seq<usize>, n: int) -> int
    decreases n,
{
    if n <= 0 {
        0
    } else {
        counts_sum(counts, n - 1) + counts[n - 1]
    }
}

/// How often the first `n` of `patterns` occur among `blocks`, added up.
pub open spec fn occurrences_sum(
    blocks: Seq<Seq<Seq<usize>>>,
    patterns: Seq<Seq<Seq<usize>>>,
    n: int,
) -> int
    decreases n,
{
    if n <= 0 {
        0
    } else {
        occurrences_sum(blocks, patterns, n - 1) + occurrences(blocks, patterns[n - 1])
    }
}

/// Among patterns that differ from one another, the first `n` hold `x` at
/// most once, and once where one of them is `x`.
proof fn lemma_occurrences_sum_step(
    blocks: Seq<Seq<Seq<usize>>>,
    patterns: Seq<Seq<Seq<usize>>>,
    n: int,
)
    requires
        blocks.len() > 0,
        0 <= n <= patterns.len(),
        forall|i: int, j: int| 0 <= i < j < patterns.len() ==> patterns[i] != patterns[j],
    ensures
        occurrences_sum(blocks, patterns, n) == occurrences_sum(blocks.drop_last(), patterns, n)
            + if exists|i: int| 0 <= i < n && patterns[i] == blocks.last() {
            1int
        } else {
            0int
        },
    decreases n,
{
    if n > 0 {
        lemma_occurrences_sum_step(blocks, patterns, n - 1);
        if patterns[n - 1] == blocks.last() {
            if exists|i: int| 0 <= i < n - 1 && patterns[i] == blocks.last() {
                let i = choose|i: int| 0 <= i < n - 1 && patterns[i] == blocks.last();
                assert(patterns[i] != patterns[n - 1]);
            }
        } else {
            if exists|i: int| 0 <= i < n && patterns[i] == blocks.last() {
                let i = choose|i: int| 0 <= i < n && patterns[i] == blocks.last();
                assert(i < n - 1);
            }
        }
    }
}

/// Patterns that differ from one another and among which every block
/// stands occur, added up, as often as there are blocks.
proof fn lemma_occurrences_sum_total(
    blocks: Seq<Seq<Seq<usize>>>,
    patterns: Seq<Seq<Seq<usize>>>,
)
    requires
        forall|i: int, j: int| 0 <= i < j < patterns.len() ==> patterns[i] != patterns[j],
        forall|b: int| 0 <= b < blocks.len() ==> stands_in(patterns, #[trigger] blocks[b]),
    ensures
        occurrences_sum(blocks, patterns, patterns.len() as int) == blocks.len(),
    decreases blocks.len(),
{
    if blocks.len() == 0 {
        lemma_occurrences_sum_empty(blocks, patterns, patterns.len() as int);
    } else {
        let shorter = blocks.drop_last();
        assert forall|b: int| 0 <= b < shorter.len() implies stands_in(
            patterns,
            #[trigger] shorter[b],
        ) by {
            assert(shorter[b] == blocks[b]);
        }
        lemma_occurrences_sum_total(shorter, patterns);
        lemma_occurrences_sum_step(blocks, patterns, patterns.len() as int);
        let last = blocks.len() - 1;
        assert(stands_in(patterns, blocks[last]));
        let i = choose|i: int| 0 <= i < patterns.len() && patterns[i] == blocks[last];
        assert(patterns[i] == blocks.last());
    }
}

/// Nothing occurs among no blocks.
proof fn lemma_occurrences_sum_empty(
    blocks: Seq<Seq<Seq<usize>>>,
    patterns: Seq<Seq<Seq<usize>>>,
    n: int,
)
    requires
        blocks.len() == 0,
    ensures
        occurrences_sum(blocks, patterns, n) == 0,
    decreases n,
{
    if n > 0 {
        lemma_occurrences_sum_empty(blocks, patterns, n - 1);
    }
}

/// The counts of a table add up as the occurrences of its patterns do.
proof fn lemma_counts_sum_is_occurrences_sum(
    blocks: Seq<Seq<Seq<usize>>>,
    patterns: Seq<Seq<Seq<usize>>>,
    counts: Seq<usize>,
    n: int,
)
    requires
        is_tally(blocks, patterns, counts),
        0 <= n <= patterns.len(),
    ensures
        counts_sum(counts, n) == occurrences_sum(blocks, patterns, n),
    decreases n,
{
    if n > 0 {
        lemma_counts_sum_is_occurrences_sum(blocks, patterns, counts, n - 1);
        assert(counts[n - 1] == occurrences(blocks, patterns[n - 1]));
    }
}

/// The patterns of a table differ from one another.
pub proof fn lemma_tally_distinct(
    blocks: Seq<Seq<Seq<usize>>>,
    patterns: Seq<Seq<Seq<usize>>>,
    counts: Seq<usize>,
)
    requires
        is_tally(blocks, patterns, counts),
    ensures
        forall|i: int, j: int| 0 <= i < j < patterns.len() ==> patterns[i] != patterns[j],
{
    assert forall|i: int, j: int| 0 <= i < j < patterns.len() implies patterns[i]
        != patterns[j] by {
        assert(first_occurrence(blocks, patterns[i]) < first_occurrence(blocks, patterns[j]));
    }
}

/// The counts of a table add up to the number of blocks.
pub proof fn lemma_tally_total(
    blocks: Seq<Seq<Seq<usize>>>,
    patterns: Seq<Seq<Seq<usize>>>,
    counts: Seq<usize>,
)
    requires
        is_tally(blocks, patterns, counts),
    ensures
        counts_sum(counts, counts.len() as int) == blocks.len(),
{
    lemma_tally_distinct(blocks, patterns, counts);
    lemma_occurrences_sum_total(blocks, patterns);
    lemma_counts_sum_is_occurrences_sum(blocks, patterns, counts, patterns.len() as int);
}

} // verus!
