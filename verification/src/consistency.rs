//! What it means for a wave to be locally consistent, and the facts about
//! it that the propagator rests on. Specification and proof only.

use crate::bitset::{count_true, lemma_count_true_one, lemma_count_true_subset, seq_and};
use crate::compatibility::{lemma_compatible_reflexive, lemma_compatible_symmetric};
use crate::patch::{agree_at, compatible};
use crate::possibilitycell::set_index;
use crate::shape::comes_before;
use vstd::prelude::*;

verus! {

/// Whether some pattern allowed by `src` lets pattern `j` lie at `(dy, dx)`
/// from it.
pub open spec fn allowed_from(
    patterns: Seq<Seq<Seq<usize>>>,
    src: Seq<bool>,
    dy: int,
    dx: int,
    j: int,
) -> bool {
    exists|i: int|
        0 <= i < src.len() && src[i] && #[trigger] compatible(patterns[i], patterns[j], dy, dx)
}

/// Whether every pattern allowed by `dst` may lie at `(dy, dx)` from some
/// pattern allowed by `src`.
pub open spec fn supports(
    patterns: Seq<Seq<Seq<usize>>>,
    src: Seq<bool>,
    dst: Seq<bool>,
    dy: int,
    dx: int,
) -> bool {
    forall|j: int|
        0 <= j < dst.len() && #[trigger] dst[j] ==> allowed_from(patterns, src, dy, dx, j)
}

/// Whether `(y, x)` is a site of the wave.
pub open spec fn in_wave(w: Seq<Seq<Seq<bool>>>, y: int, x: int) -> bool {
    0 <= y < w.len() && 0 <= x < w[y].len()
}

/// Whether two patterns of side `n` overlap when one lies at `(dy, dx)`
/// from the other.
pub open spec fn in_reach(n: int, dy: int, dx: int) -> bool {
    -n < dy < n && -n < dx < n
}

/// Whether the site `(ty, tx)`, if it is a site within reach of `(sy, sx)`,
/// allows only patterns that some pattern allowed at `(sy, sx)` agrees
/// with.
pub open spec fn pair_consistent(
    patterns: Seq<Seq<Seq<usize>>>,
    n: int,
    w: Seq<Seq<Seq<bool>>>,
    sy: int,
    sx: int,
    ty: int,
    tx: int,
) -> bool {
    in_wave(w, ty, tx) && in_reach(n, ty - sy, tx - sx) ==> supports(
        patterns,
        w[sy][sx],
        w[ty][tx],
        ty - sy,
        tx - sx,
    )
}

/// Whether the change of the site `(sy, sx)` has reached all sites around
/// it: each site within reach allows only what `(sy, sx)` supports.
pub open spec fn clean(
    patterns: Seq<Seq<Seq<usize>>>,
    n: int,
    w: Seq<Seq<Seq<bool>>>,
    sy: int,
    sx: int,
) -> bool {
    forall|ty: int, tx: int| #[trigger] pair_consistent(patterns, n, w, sy, sx, ty, tx)
}

/// Whether the wave is locally consistent: every site is clean.
pub open spec fn locally_consistent(
    patterns: Seq<Seq<Seq<usize>>>,
    n: int,
    w: Seq<Seq<Seq<bool>>>,
) -> bool {
    forall|sy: int, sx: int| in_wave(w, sy, sx) ==> #[trigger] clean(patterns, n, w, sy, sx)
}

/// Whether a site allows every pattern.
pub open spec fn full(cell: Seq<bool>) -> bool {
    forall|i: int| 0 <= i < cell.len() ==> cell[i]
}

/// Whether `a` allows, site by site, no pattern that `b` does not allow.
pub open spec fn subwave(a: Seq<Seq<Seq<bool>>>, b: Seq<Seq<Seq<bool>>>) -> bool {
    &&& a.len() == b.len()
    &&& forall|y: int| 0 <= y < a.len() ==> (#[trigger] a[y]).len() == b[y].len()
    &&& forall|y: int, x: int|
        in_wave(a, y, x) ==> (#[trigger] a[y][x]).len() == b[y][x].len()
    &&& forall|y: int, x: int, i: int|
        in_wave(a, y, x) && 0 <= i < a[y][x].len() && #[trigger] a[y][x][i] ==> b[y][x][i]
}

/// Whether every site of the wave allows exactly one pattern.
pub open spec fn all_decided(w: Seq<Seq<Seq<bool>>>) -> bool {
    forall|y: int, x: int| in_wave(w, y, x) ==> count_true(#[trigger] w[y][x]) == 1
}

/// Whether the wave has `h` rows of `width` sites of `p` bits.
pub open spec fn wave_shape(w: Seq<Seq<Seq<bool>>>, h: nat, width: nat, p: nat) -> bool {
    &&& w.len() == h
    &&& forall|y: int| 0 <= y < h ==> (#[trigger] w[y]).len() == width
    &&& forall|y: int, x: int| 0 <= y < h && 0 <= x < width ==> (#[trigger] w[y][x]).len() == p
}

/// The wave with the site `(y, x)` replaced by `cell`.
pub open spec fn with_cell(w: Seq<Seq<Seq<bool>>>, y: int, x: int, cell: Seq<bool>) -> Seq<
    Seq<Seq<bool>>,
> {
    w.update(y, w[y].update(x, cell))
}

/// The number of patterns that the sites of a row allow, added up.
pub open spec fn row_bits(row: Seq<Seq<bool>>) -> nat
    decreases row.len(),
{
    if row.len() == 0 {
        0
    } else {
        row_bits(row.drop_last()) + count_true(row.last())
    }
}

/// The number of patterns that the sites of a wave allow, added up.
pub open spec fn total_bits(w: Seq<Seq<Seq<bool>>>) -> nat
    decreases w.len(),
{
    if w.len() == 0 {
        0
    } else {
        total_bits(w.drop_last()) + row_bits(w.last())
    }
}

/// Replacing one site of a row changes the row's count by the difference
/// of the two sites' counts.
pub proof fn lemma_row_bits_update(row: Seq<Seq<bool>>, x: int, cell: Seq<bool>)
    requires
        0 <= x < row.len(),
    ensures
        row_bits(row.update(x, cell)) + count_true(row[x]) == row_bits(row) + count_true(cell),
    decreases row.len(),
{
    let updated = row.update(x, cell);
    if x == row.len() - 1 {
        assert(updated.drop_last() =~= row.drop_last());
    } else {
        assert(updated.drop_last() =~= row.drop_last().update(x, cell));
        lemma_row_bits_update(row.drop_last(), x, cell);
    }
}

/// Replacing one row of a wave changes the wave's count by the difference
/// of the two rows' counts.
pub proof fn lemma_total_bits_update(w: Seq<Seq<Seq<bool>>>, y: int, row: Seq<Seq<bool>>)
    requires
        0 <= y < w.len(),
    ensures
        total_bits(w.update(y, row)) + row_bits(w[y]) == total_bits(w) + row_bits(row),
    decreases w.len(),
{
    let updated = w.update(y, row);
    if y == w.len() - 1 {
        assert(updated.drop_last() =~= w.drop_last());
    } else {
        assert(updated.drop_last() =~= w.drop_last().update(y, row));
        lemma_total_bits_update(w.drop_last(), y, row);
    }
}

/// Narrowing one site lowers the wave's count, and strictly so where the
/// site loses a pattern.
pub proof fn lemma_total_bits_narrow(w: Seq<Seq<Seq<bool>>>, y: int, x: int, cell: Seq<bool>)
    requires
        in_wave(w, y, x),
        cell.len() == w[y][x].len(),
        forall|i: int| 0 <= i < cell.len() && cell[i] ==> w[y][x][i],
    ensures
        total_bits(with_cell(w, y, x, cell)) <= total_bits(w),
        cell != w[y][x] ==> total_bits(with_cell(w, y, x, cell)) < total_bits(w),
{
    lemma_count_true_subset(cell, w[y][x]);
    lemma_row_bits_update(w[y], x, cell);
    lemma_total_bits_update(w, y, w[y].update(x, cell));
}

/// A site that is narrowed stays supported by whatever supported it.
pub proof fn lemma_supports_narrowed(
    patterns: Seq<Seq<Seq<usize>>>,
    src: Seq<bool>,
    dst: Seq<bool>,
    narrowed: Seq<bool>,
    dy: int,
    dx: int,
)
    requires
        supports(patterns, src, dst, dy, dx),
        narrowed.len() == dst.len(),
        forall|j: int| 0 <= j < narrowed.len() && narrowed[j] ==> dst[j],
    ensures
        supports(patterns, src, narrowed, dy, dx),
{
    assert forall|j: int| 0 <= j < narrowed.len() && #[trigger] narrowed[j] implies allowed_from(
        patterns,
        src,
        dy,
        dx,
        j,
    ) by {
        assert(dst[j]);
    }
}

/// A site cut down to what a mask permits is supported by the site the
/// mask was derived from; and a site that was supported already loses
/// nothing to the mask.
pub proof fn lemma_masked_is_supported(
    patterns: Seq<Seq<Seq<usize>>>,
    src: Seq<bool>,
    dst: Seq<bool>,
    mask: Seq<bool>,
    dy: int,
    dx: int,
)
    requires
        mask.len() == dst.len(),
        forall|j: int|
            0 <= j < mask.len() ==> (#[trigger] mask[j] <==> allowed_from(
                patterns,
                src,
                dy,
                dx,
                j,
            )),
    ensures
        supports(patterns, src, seq_and(dst, mask), dy, dx),
        supports(patterns, src, dst, dy, dx) ==> seq_and(dst, mask) == dst,
{
    let cut = seq_and(dst, mask);
    assert forall|j: int| 0 <= j < cut.len() && #[trigger] cut[j] implies allowed_from(
        patterns,
        src,
        dy,
        dx,
        j,
    ) by {
        assert(mask[j]);
    }
    if supports(patterns, src, dst, dy, dx) {
        assert forall|j: int| 0 <= j < dst.len() implies cut[j] == dst[j] by {
            if dst[j] {
                assert(mask[j]);
            }
        }
        assert(cut =~= dst);
    }
}

/// Every site supports itself.
pub proof fn lemma_supports_itself(patterns: Seq<Seq<Seq<usize>>>, cell: Seq<bool>)
    ensures
        supports(patterns, cell, cell, 0, 0),
{
    assert forall|j: int| 0 <= j < cell.len() && #[trigger] cell[j] implies allowed_from(
        patterns,
        cell,
        0,
        0,
        j,
    ) by {
        lemma_compatible_reflexive(patterns[j]);
        assert(compatible(patterns[j], patterns[j], 0, 0));
    }
}

/// In a locally consistent wave, every pattern allowed at a site has, at
/// each site within reach, an allowed pattern that may lie there.
pub proof fn lemma_consistent_both_ways(
    patterns: Seq<Seq<Seq<usize>>>,
    n: int,
    w: Seq<Seq<Seq<bool>>>,
    y: int,
    x: int,
    dy: int,
    dx: int,
    i: int,
) -> (j: int)
    requires
        locally_consistent(patterns, n, w),
        in_wave(w, y, x),
        in_wave(w, y + dy, x + dx),
        in_reach(n, dy, dx),
        0 <= i < w[y][x].len(),
        w[y][x][i],
    ensures
        0 <= j < w[y + dy][x + dx].len(),
        w[y + dy][x + dx][j],
        compatible(patterns[i], patterns[j], dy, dx),
{
    assert(clean(patterns, n, w, y + dy, x + dx));
    assert(pair_consistent(patterns, n, w, y + dy, x + dx, y, x));
    let src = w[y + dy][x + dx];
    assert(supports(patterns, src, w[y][x], -dy, -dx));
    assert(allowed_from(patterns, src, -dy, -dx, i));
    let j = choose|j: int|
        0 <= j < src.len() && src[j] && #[trigger] compatible(patterns[j], patterns[i], -dy, -dx);
    lemma_compatible_symmetric(patterns[j], patterns[i], -dy, -dx);
    j
}

/// The pattern that a decided site shows.
pub open spec fn pattern_at(w: Seq<Seq<Seq<bool>>>, y: int, x: int) -> int {
    set_index(w[y][x])
}

/// In a locally consistent wave of decided sites, the top left pixels of
/// the patterns around a site spell out the site's own pattern: the pixel
/// shown at `(y + dy, x + dx)` is the pixel at `(dy, dx)` of the pattern at
/// `(y, x)`.
pub proof fn lemma_window_is_pattern(
    patterns: Seq<Seq<Seq<usize>>>,
    n: int,
    w: Seq<Seq<Seq<bool>>>,
    y: int,
    x: int,
    dy: int,
    dx: int,
)
    requires
        locally_consistent(patterns, n, w),
        all_decided(w),
        in_wave(w, y, x),
        in_wave(w, y + dy, x + dx),
        0 <= dy < n,
        0 <= dx < n,
        forall|y: int, x: int| in_wave(w, y, x) ==> (#[trigger] w[y][x]).len() == patterns.len(),
        forall|i: int|
            0 <= i < patterns.len() ==> (#[trigger] patterns[i]).len() == n && forall|r: int|
                0 <= r < n ==> (#[trigger] patterns[i][r]).len() == n,
    ensures
        0 <= pattern_at(w, y, x) < patterns.len(),
        0 <= pattern_at(w, y + dy, x + dx) < patterns.len(),
        patterns[pattern_at(w, y + dy, x + dx)][0][0] == patterns[pattern_at(w, y, x)][dy][dx],
{
    let here = w[y][x];
    let there = w[y + dy][x + dx];
    let i = lemma_count_true_one(here);
    let j = lemma_count_true_one(there);
    assert(here[i] && there[j]);
    assert(pattern_at(w, y, x) == i);
    assert(pattern_at(w, y + dy, x + dx) == j);
    assert(clean(patterns, n, w, y, x));
    assert(pair_consistent(patterns, n, w, y, x, y + dy, x + dx));
    assert(supports(patterns, here, there, dy, dx));
    assert(allowed_from(patterns, here, dy, dx, j));
    let i2 = choose|i2: int|
        0 <= i2 < here.len() && here[i2] && #[trigger] compatible(
            patterns[i2],
            patterns[j],
            dy,
            dx,
        );
    assert(i2 == i);
    assert(agree_at(patterns[i], patterns[j], dy, dx, 0, 0));
    assert(patterns[j][0].len() == n);
    assert(patterns[i][dy].len() == n);
}

/// Whether one of the first `bound` patterns, allowed by `src`, lets
/// pattern `j` lie at `(dy, dx)` from it.
pub open spec fn allowed_below(
    patterns: Seq<Seq<Seq<usize>>>,
    src: Seq<bool>,
    dy: int,
    dx: int,
    j: int,
    bound: int,
) -> bool {
    exists|i: int|
        0 <= i < bound && i < src.len() && src[i] && #[trigger] compatible(
            patterns[i],
            patterns[j],
            dy,
            dx,
        )
}

/// The patterns that a site allowing `src` permits at `(dy, dx)` from it:
/// the union, over the patterns that `src` allows, of what each lets lie
/// there.
pub open spec fn permitted(patterns: Seq<Seq<Seq<usize>>>, src: Seq<bool>, dy: int, dx: int) -> Seq<
    bool,
> {
    Seq::new(patterns.len(), |j: int| allowed_from(patterns, src, dy, dx, j))
}

/// A clean site stays clean when another site is narrowed.
pub proof fn lemma_clean_after_narrowing(
    patterns: Seq<Seq<Seq<usize>>>,
    n: int,
    w: Seq<Seq<Seq<bool>>>,
    ty: int,
    tx: int,
    cell: Seq<bool>,
    sy: int,
    sx: int,
)
    requires
        clean(patterns, n, w, sy, sx),
        in_wave(w, ty, tx),
        in_wave(w, sy, sx),
        sy != ty || sx != tx,
        cell.len() == w[ty][tx].len(),
        forall|j: int| 0 <= j < cell.len() && cell[j] ==> w[ty][tx][j],
    ensures
        clean(patterns, n, with_cell(w, ty, tx, cell), sy, sx),
{
    let after = with_cell(w, ty, tx, cell);
    assert forall|y: int, x: int| #[trigger]
        pair_consistent(patterns, n, after, sy, sx, y, x) by {
        assert(pair_consistent(patterns, n, w, sy, sx, y, x));
        if in_wave(after, y, x) && in_reach(n, y - sy, x - sx) {
            assert(in_wave(w, y, x));
            if y == ty && x == tx {
                lemma_supports_narrowed(patterns, w[sy][sx], w[ty][tx], cell, y - sy, x - sx);
            }
        }
    }
}

/// Putting a site's own cell in its place changes nothing.
pub proof fn lemma_with_cell_same(w: Seq<Seq<Seq<bool>>>, y: int, x: int)
    requires
        in_wave(w, y, x),
    ensures
        with_cell(w, y, x, w[y][x]) == w,
{
    assert(w[y].update(x, w[y][x]) =~= w[y]);
    assert(with_cell(w, y, x, w[y][x]) =~= w);
}

/// A wave in which one site was narrowed is a subwave of the wave before.
pub proof fn lemma_with_cell_subwave(w: Seq<Seq<Seq<bool>>>, y: int, x: int, cell: Seq<bool>)
    requires
        in_wave(w, y, x),
        cell.len() == w[y][x].len(),
        forall|j: int| 0 <= j < cell.len() && cell[j] ==> w[y][x][j],
    ensures
        subwave(with_cell(w, y, x, cell), w),
{
}

/// Being a subwave carries over from wave to wave.
pub proof fn lemma_subwave_transitive(
    a: Seq<Seq<Seq<bool>>>,
    b: Seq<Seq<Seq<bool>>>,
    c: Seq<Seq<Seq<bool>>>,
)
    requires
        subwave(a, b),
        subwave(b, c),
    ensures
        subwave(a, c),
{
    assert forall|y: int, x: int, i: int|
        in_wave(a, y, x) && 0 <= i < a[y][x].len() && #[trigger] a[y][x][i] implies c[y][x][i] by {
        assert(b[y][x][i]);
    }
}

/// A clean site stays clean while it stays as it is and the sites around
/// it are narrowed.
pub proof fn lemma_clean_in_subwave(
    patterns: Seq<Seq<Seq<usize>>>,
    n: int,
    w: Seq<Seq<Seq<bool>>>,
    narrowed: Seq<Seq<Seq<bool>>>,
    sy: int,
    sx: int,
)
    requires
        clean(patterns, n, w, sy, sx),
        subwave(narrowed, w),
        in_wave(w, sy, sx),
        narrowed[sy][sx] == w[sy][sx],
    ensures
        clean(patterns, n, narrowed, sy, sx),
{
    assert forall|y: int, x: int| #[trigger]
        pair_consistent(patterns, n, narrowed, sy, sx, y, x) by {
        assert(pair_consistent(patterns, n, w, sy, sx, y, x));
        if in_wave(narrowed, y, x) && in_reach(n, y - sy, x - sx) {
            assert(narrowed[y].len() == w[y].len());
            assert(in_wave(w, y, x));
            assert(narrowed[y][x].len() == w[y][x].len());
            assert forall|j: int|
                0 <= j < narrowed[y][x].len() && narrowed[y][x][j] implies w[y][x][j] by {}
            lemma_supports_narrowed(
                patterns,
                w[sy][sx],
                w[y][x],
                narrowed[y][x],
                y - sy,
                x - sx,
            );
        }
    }
}

/// Of three waves, each below the next, the middle one agrees with the
/// outer two at every site at which those agree.
pub proof fn lemma_subwave_squeeze(
    a: Seq<Seq<Seq<bool>>>,
    b: Seq<Seq<Seq<bool>>>,
    c: Seq<Seq<Seq<bool>>>,
    y: int,
    x: int,
)
    requires
        subwave(a, b),
        subwave(b, c),
        in_wave(a, y, x),
        a[y][x] == c[y][x],
    ensures
        b[y][x] == c[y][x],
{
    assert(in_wave(b, y, x));
    assert forall|i: int| 0 <= i < b[y][x].len() implies b[y][x][i] == c[y][x][i] by {
        if c[y][x][i] {
            assert(a[y][x][i]);
        }
    }
    assert(b[y][x] =~= c[y][x]);
}

/// Whether the site `(y, x)` allowed a pattern in `before` and allows none
/// in `after`.
pub open spec fn emptied(
    before: Seq<Seq<Seq<bool>>>,
    after: Seq<Seq<Seq<bool>>>,
    y: int,
    x: int,
) -> bool {
    in_wave(before, y, x) && count_true(after[y][x]) == 0 && count_true(before[y][x]) > 0
}

/// Whether every site that allowed a pattern in `before` allows one in
/// `after`.
pub open spec fn none_emptied(before: Seq<Seq<Seq<bool>>>, after: Seq<Seq<Seq<bool>>>) -> bool {
    forall|y: int, x: int|
        in_wave(before, y, x) && count_true(#[trigger] after[y][x]) == 0 ==> count_true(
            before[y][x],
        ) == 0
}

/// A site of a subwave allows no more patterns than the same site of the
/// wave.
pub proof fn lemma_subwave_count(a: Seq<Seq<Seq<bool>>>, b: Seq<Seq<Seq<bool>>>, y: int, x: int)
    requires
        subwave(a, b),
        in_wave(a, y, x),
    ensures
        count_true(a[y][x]) <= count_true(b[y][x]),
{
    assert(in_wave(b, y, x));
    assert forall|i: int| 0 <= i < a[y][x].len() && a[y][x][i] implies b[y][x][i] by {}
    lemma_count_true_subset(a[y][x], b[y][x]);
}

/// The wave after the state of the site `(sy, sx)` was carried to the
/// sites around it: each site within reach is cut down to what `(sy, sx)`
/// permits there, and the others stay as they are.
pub open spec fn carried(
    patterns: Seq<Seq<Seq<usize>>>,
    n: int,
    w: Seq<Seq<Seq<bool>>>,
    sy: int,
    sx: int,
) -> Seq<Seq<Seq<bool>>> {
    Seq::new(
        w.len(),
        |y: int|
            Seq::new(
                w[y].len(),
                |x: int|
                    if in_reach(n, y - sy, x - sx) {
                        seq_and(w[y][x], permitted(patterns, w[sy][sx], y - sy, x - sx))
                    } else {
                        w[y][x]
                    },
            ),
    )
}

/// Whether `(y, x)` is among the first `k` of `points`.
pub open spec fn visited(points: Seq<(usize, usize)>, k: int, y: int, x: int) -> bool {
    exists|k0: int| 0 <= k0 < k && k0 < points.len() && points[k0] == (y as usize, x as usize)
}

/// Whether every site of the wave has `p` bits.
pub open spec fn cells_sized(w: Seq<Seq<Seq<bool>>>, p: nat) -> bool {
    forall|y: int, x: int| in_wave(w, y, x) ==> (#[trigger] w[y][x]).len() == p
}

/// What carrying the state of a site does: no site gains a pattern, the
/// site itself stays as it is and becomes clean, and nothing changes at
/// all if the site was clean already.
pub proof fn lemma_carried(
    patterns: Seq<Seq<Seq<usize>>>,
    n: int,
    w: Seq<Seq<Seq<bool>>>,
    sy: int,
    sx: int,
)
    requires
        in_wave(w, sy, sx),
        cells_sized(w, patterns.len()),
    ensures
        subwave(carried(patterns, n, w, sy, sx), w),
        carried(patterns, n, w, sy, sx)[sy][sx] == w[sy][sx],
        clean(patterns, n, carried(patterns, n, w, sy, sx), sy, sx),
        clean(patterns, n, w, sy, sx) ==> carried(patterns, n, w, sy, sx) == w,
{
    let c = carried(patterns, n, w, sy, sx);
    lemma_supports_itself(patterns, w[sy][sx]);
    lemma_masked_is_supported(
        patterns,
        w[sy][sx],
        w[sy][sx],
        permitted(patterns, w[sy][sx], 0, 0),
        0,
        0,
    );
    assert(c[sy][sx] == w[sy][sx]);
    assert forall|y: int, x: int| #[trigger] pair_consistent(patterns, n, c, sy, sx, y, x) by {
        if in_wave(c, y, x) && in_reach(n, y - sy, x - sx) {
            assert(in_wave(w, y, x));
            lemma_masked_is_supported(
                patterns,
                w[sy][sx],
                w[y][x],
                permitted(patterns, w[sy][sx], y - sy, x - sx),
                y - sy,
                x - sx,
            );
        }
    }
    if clean(patterns, n, w, sy, sx) {
        assert forall|y: int| 0 <= y < w.len() implies c[y] == w[y] by {
            assert forall|x: int| 0 <= x < w[y].len() implies c[y][x] == w[y][x] by {
                assert(in_wave(w, y, x));
                if in_reach(n, y - sy, x - sx) {
                    assert(pair_consistent(patterns, n, w, sy, sx, y, x));
                    lemma_masked_is_supported(
                        patterns,
                        w[sy][sx],
                        w[y][x],
                        permitted(patterns, w[sy][sx], y - sy, x - sx),
                        y - sy,
                        x - sx,
                    );
                }
            }
            assert(c[y] =~= w[y]);
        }
        assert(c =~= w);
    }
}

/// A wave below `w` in which the site `(sy, sx)` is clean lies below what
/// carrying the state of `(sy, sx)` makes of `w`.
pub proof fn lemma_carried_keeps(
    patterns: Seq<Seq<Seq<usize>>>,
    n: int,
    w: Seq<Seq<Seq<bool>>>,
    v: Seq<Seq<Seq<bool>>>,
    sy: int,
    sx: int,
)
    requires
        in_wave(w, sy, sx),
        cells_sized(w, patterns.len()),
        subwave(v, w),
        clean(patterns, n, v, sy, sx),
    ensures
        subwave(v, carried(patterns, n, w, sy, sx)),
{
    let c = carried(patterns, n, w, sy, sx);
    assert(v[sy].len() == w[sy].len());
    assert(in_wave(v, sy, sx));
    assert forall|y: int, x: int, i: int|
        in_wave(v, y, x) && 0 <= i < v[y][x].len() && #[trigger] v[y][x][i] implies c[y][x][i] by {
        assert(w[y][x][i]);
        if in_reach(n, y - sy, x - sx) {
            assert(pair_consistent(patterns, n, v, sy, sx, y, x));
            assert(allowed_from(patterns, v[sy][sx], y - sy, x - sx, i));
            let k = choose|k: int|
                0 <= k < v[sy][sx].len() && v[sy][sx][k] && #[trigger] compatible(
                    patterns[k],
                    patterns[i],
                    y - sy,
                    x - sx,
                );
            assert(w[sy][sx][k]);
            assert(allowed_from(patterns, w[sy][sx], y - sy, x - sx, i));
        }
    }
}

/// One step of carrying the state of `(sy, sx)` along `points`: if the
/// sites among the first `k` points are as carrying leaves them and the
/// others are as at the start, then cutting the site at point `k` leaves
/// the sites among the first `k + 1` points as carrying leaves them.
pub proof fn lemma_carry_step(
    patterns: Seq<Seq<Seq<usize>>>,
    n: int,
    start: Seq<Seq<Seq<bool>>>,
    before: Seq<Seq<Seq<bool>>>,
    points: Seq<(usize, usize)>,
    k: int,
    sy: int,
    sx: int,
)
    requires
        in_wave(start, sy, sx),
        cells_sized(start, patterns.len()),
        start.len() <= usize::MAX,
        forall|y: int| 0 <= y < start.len() ==> (#[trigger] start[y]).len() <= usize::MAX,
        before.len() == start.len(),
        forall|y: int| 0 <= y < start.len() ==> (#[trigger] before[y]).len() == start[y].len(),
        0 <= k < points.len(),
        in_wave(start, points[k].0 as int, points[k].1 as int),
        in_reach(n, points[k].0 - sy, points[k].1 - sx),
        forall|y: int, x: int|
            in_wave(start, y, x) ==> #[trigger] before[y][x] == if visited(points, k, y, x) {
                carried(patterns, n, start, sy, sx)[y][x]
            } else {
                start[y][x]
            },
    ensures
        before[sy][sx] == start[sy][sx],
        subwave(
            with_cell(
                before,
                points[k].0 as int,
                points[k].1 as int,
                seq_and(
                    before[points[k].0 as int][points[k].1 as int],
                    permitted(patterns, before[sy][sx], points[k].0 - sy, points[k].1 - sx),
                ),
            ),
            before,
        ),
        forall|y: int, x: int|
            in_wave(start, y, x) ==> #[trigger] with_cell(
                before,
                points[k].0 as int,
                points[k].1 as int,
                seq_and(
                    before[points[k].0 as int][points[k].1 as int],
                    permitted(patterns, before[sy][sx], points[k].0 - sy, points[k].1 - sx),
                ),
            )[y][x] == if visited(points, k + 1, y, x) {
                carried(patterns, n, start, sy, sx)[y][x]
            } else {
                start[y][x]
            },
{
    let ty = points[k].0 as int;
    let tx = points[k].1 as int;
    let goal = carried(patterns, n, start, sy, sx);
    lemma_carried(patterns, n, start, sy, sx);
    assert(before[sy][sx] == start[sy][sx]);
    let mask = permitted(patterns, before[sy][sx], ty - sy, tx - sx);
    let cut = seq_and(before[ty][tx], mask);
    let after = with_cell(before, ty, tx, cut);
    assert(in_wave(before, ty, tx));
    lemma_with_cell_subwave(before, ty, tx, cut);
    assert forall|y: int, x: int| in_wave(start, y, x) implies #[trigger] after[y][x] == if visited(
        points,
        k + 1,
        y,
        x,
    ) {
        goal[y][x]
    } else {
        start[y][x]
    } by {
        if y == ty && x == tx {
            assert(points[k] == (y as usize, x as usize));
            assert(visited(points, k + 1, y, x));
            assert(after[y][x] =~= goal[y][x]);
        } else {
            assert(after[y][x] == before[y][x]);
            if visited(points, k + 1, y, x) {
                let k0 = choose|k0: int|
                    0 <= k0 < k + 1 && k0 < points.len() && points[k0] == (y as usize, x as usize);
                assert(k0 < k);
                assert(visited(points, k, y, x));
            }
            if visited(points, k, y, x) {
                let k0 = choose|k0: int|
                    0 <= k0 < k && k0 < points.len() && points[k0] == (y as usize, x as usize);
                assert(visited(points, k + 1, y, x));
            }
        }
    }
}

/// A wave whose sites among all of `points` are as carrying leaves them,
/// and whose other sites are as at the start, is what carrying makes of the
/// start, if `points` holds exactly the sites within reach.
pub proof fn lemma_carry_done(
    patterns: Seq<Seq<Seq<usize>>>,
    n: int,
    start: Seq<Seq<Seq<bool>>>,
    after: Seq<Seq<Seq<bool>>>,
    points: Seq<(usize, usize)>,
    sy: int,
    sx: int,
)
    requires
        start.len() <= usize::MAX,
        forall|y: int| 0 <= y < start.len() ==> (#[trigger] start[y]).len() <= usize::MAX,
        after.len() == start.len(),
        forall|y: int| 0 <= y < start.len() ==> (#[trigger] after[y]).len() == start[y].len(),
        forall|y: int, x: int|
            in_wave(start, y, x) ==> (points.contains((y as usize, x as usize)) <==> in_reach(
                n,
                y - sy,
                x - sx,
            )),
        forall|y: int, x: int|
            in_wave(start, y, x) ==> #[trigger] after[y][x] == if visited(
                points,
                points.len() as int,
                y,
                x,
            ) {
                carried(patterns, n, start, sy, sx)[y][x]
            } else {
                start[y][x]
            },
    ensures
        after == carried(patterns, n, start, sy, sx),
{
    let goal = carried(patterns, n, start, sy, sx);
    assert forall|y: int| 0 <= y < after.len() implies after[y] == goal[y] by {
        assert forall|x: int| 0 <= x < after[y].len() implies after[y][x] == goal[y][x] by {
            assert(in_wave(start, y, x));
            let p = (y as usize, x as usize);
            if in_reach(n, y - sy, x - sx) {
                assert(points.contains(p));
                let k0 = choose|k0: int| 0 <= k0 < points.len() && points[k0] == p;
                assert(visited(points, points.len() as int, y, x));
            } else {
                if visited(points, points.len() as int, y, x) {
                    let k0 = choose|k0: int|
                        0 <= k0 < points.len() && k0 < points.len() && points[k0] == p;
                    assert(points.contains(p));
                }
            }
        }
        assert(after[y] =~= goal[y]);
    }
    assert(after =~= goal);
}

/// Whether `e` is the first site, row by row, that allowed a pattern in
/// `before` and allows none in `after`.
pub open spec fn first_emptied(
    before: Seq<Seq<Seq<bool>>>,
    after: Seq<Seq<Seq<bool>>>,
    e: (usize, usize),
) -> bool {
    &&& emptied(before, after, e.0 as int, e.1 as int)
    &&& forall|y: int, x: int| #[trigger]
        emptied(before, after, y, x) ==> !comes_before(y, x, e.0 as int, e.1 as int)
}

/// Whether `rec` records the first of the first `k` of `points` that is
/// emptied on the way from `start` to `goal`, or the absence of such a
/// point.
pub open spec fn recorded(
    start: Seq<Seq<Seq<bool>>>,
    goal: Seq<Seq<Seq<bool>>>,
    points: Seq<(usize, usize)>,
    k: int,
    rec: Option<(usize, usize)>,
) -> bool {
    match rec {
        None => forall|k0: int|
            0 <= k0 < k && k0 < points.len() ==> !emptied(
                start,
                goal,
                (#[trigger] points[k0]).0 as int,
                points[k0].1 as int,
            ),
        Some(e) => exists|ke: int|
            0 <= ke < k && ke < points.len() && #[trigger] points[ke] == e && emptied(
                start,
                goal,
                e.0 as int,
                e.1 as int,
            ) && forall|k0: int|
                0 <= k0 < ke ==> !emptied(
                    start,
                    goal,
                    (#[trigger] points[k0]).0 as int,
                    points[k0].1 as int,
                ),
    }
}

/// At point `k` of carrying, the site has lost its last pattern exactly if
/// it has changed and allows nothing: it was as at the start until now, and
/// is from now on as carrying leaves it.
pub proof fn lemma_lost_is_emptied(
    patterns: Seq<Seq<Seq<usize>>>,
    n: int,
    start: Seq<Seq<Seq<bool>>>,
    before: Seq<Seq<Seq<bool>>>,
    after: Seq<Seq<Seq<bool>>>,
    points: Seq<(usize, usize)>,
    k: int,
    sy: int,
    sx: int,
)
    requires
        in_wave(start, sy, sx),
        cells_sized(start, patterns.len()),
        0 <= k < points.len(),
        in_wave(start, points[k].0 as int, points[k].1 as int),
        forall|k0: int| 0 <= k0 < k ==> points[k0] != points[k],
        forall|y: int, x: int|
            in_wave(start, y, x) ==> #[trigger] before[y][x] == if visited(points, k, y, x) {
                carried(patterns, n, start, sy, sx)[y][x]
            } else {
                start[y][x]
            },
        forall|y: int, x: int|
            in_wave(start, y, x) ==> #[trigger] after[y][x] == if visited(points, k + 1, y, x) {
                carried(patterns, n, start, sy, sx)[y][x]
            } else {
                start[y][x]
            },
    ensures
        (after[points[k].0 as int][points[k].1 as int] != before[points[k].0 as int][points[k].1 as int]
            && count_true(after[points[k].0 as int][points[k].1 as int]) == 0) <==> emptied(
            start,
            carried(patterns, n, start, sy, sx),
            points[k].0 as int,
            points[k].1 as int,
        ),
{
    let ty = points[k].0 as int;
    let tx = points[k].1 as int;
    let goal = carried(patterns, n, start, sy, sx);
    lemma_carried(patterns, n, start, sy, sx);
    assert(visited(points, k + 1, ty, tx));
    assert(!visited(points, k, ty, tx));
    assert(after[ty][tx] == goal[ty][tx]);
    assert(before[ty][tx] == start[ty][tx]);
    lemma_subwave_count(goal, start, ty, tx);
    assert(in_wave(goal, ty, tx));
    assert forall|i: int| 0 <= i < goal[ty][tx].len() && goal[ty][tx][i] implies start[ty][tx][i] by {}
    lemma_count_true_subset(goal[ty][tx], start[ty][tx]);
}

/// The record of the first emptied point is kept from one point to the
/// next.
pub proof fn lemma_record_step(
    start: Seq<Seq<Seq<bool>>>,
    goal: Seq<Seq<Seq<bool>>>,
    points: Seq<(usize, usize)>,
    k: int,
    rec: Option<(usize, usize)>,
    now: Option<(usize, usize)>,
)
    requires
        0 <= k < points.len(),
        recorded(start, goal, points, k, rec),
        rec is Some ==> now == rec,
        rec is None ==> now == if emptied(start, goal, points[k].0 as int, points[k].1 as int) {
            Some(points[k])
        } else {
            None
        },
    ensures
        recorded(start, goal, points, k + 1, now),
{
    if rec is Some {
        let e = rec->0;
        let ke = choose|ke: int|
            0 <= ke < k && ke < points.len() && #[trigger] points[ke] == e && emptied(
                start,
                goal,
                e.0 as int,
                e.1 as int,
            ) && forall|k0: int|
                0 <= k0 < ke ==> !emptied(
                    start,
                    goal,
                    (#[trigger] points[k0]).0 as int,
                    points[k0].1 as int,
                );
        assert(0 <= ke < k + 1);
    } else if now is Some {
        assert(points[k] == now->0);
    }
}

/// When all points are done, the record names the first site of the wave
/// that carrying has emptied, if `points` holds the sites within reach in
/// reading order.
pub proof fn lemma_record_done(
    patterns: Seq<Seq<Seq<usize>>>,
    n: int,
    start: Seq<Seq<Seq<bool>>>,
    points: Seq<(usize, usize)>,
    rec: Option<(usize, usize)>,
    sy: int,
    sx: int,
)
    requires
        start.len() <= usize::MAX,
        forall|y: int| 0 <= y < start.len() ==> (#[trigger] start[y]).len() <= usize::MAX,
        recorded(start, carried(patterns, n, start, sy, sx), points, points.len() as int, rec),
        forall|i: int, j: int|
            0 <= i < j < points.len() ==> comes_before(
                (#[trigger] points[i]).0 as int,
                points[i].1 as int,
                (#[trigger] points[j]).0 as int,
                points[j].1 as int,
            ),
        forall|y: int, x: int|
            in_wave(start, y, x) ==> (points.contains((y as usize, x as usize)) <==> in_reach(
                n,
                y - sy,
                x - sx,
            )),
    ensures
        rec is None ==> none_emptied(start, carried(patterns, n, start, sy, sx)),
        rec matches Some(e) ==> first_emptied(start, carried(patterns, n, start, sy, sx), e),
{
    let goal = carried(patterns, n, start, sy, sx);
    if rec is None {
        assert forall|y: int, x: int|
            in_wave(start, y, x) && count_true(#[trigger] goal[y][x]) == 0 implies count_true(
            start[y][x],
        ) == 0 by {
            if in_reach(n, y - sy, x - sx) {
                let p = (y as usize, x as usize);
                assert(points.contains(p));
                let k0 = choose|k0: int| 0 <= k0 < points.len() && points[k0] == p;
                assert(!emptied(start, goal, points[k0].0 as int, points[k0].1 as int));
            }
        }
    } else {
        let e = rec->0;
        let ke = choose|ke: int|
            0 <= ke < points.len() && ke < points.len() && #[trigger] points[ke] == e && emptied(
                start,
                goal,
                e.0 as int,
                e.1 as int,
            ) && forall|k0: int|
                0 <= k0 < ke ==> !emptied(
                    start,
                    goal,
                    (#[trigger] points[k0]).0 as int,
                    points[k0].1 as int,
                );
        assert forall|y: int, x: int| #[trigger] emptied(start, goal, y, x) implies !comes_before(
            y,
            x,
            e.0 as int,
            e.1 as int,
        ) by {
            if !in_reach(n, y - sy, x - sx) {
                assert(goal[y][x] == start[y][x]);
            } else {
                let p = (y as usize, x as usize);
                assert(points.contains(p));
                let k0 = choose|k0: int| 0 <= k0 < points.len() && points[k0] == p;
                if k0 < ke {
                    assert(!emptied(start, goal, points[k0].0 as int, points[k0].1 as int));
                } else if k0 > ke {
                    assert(comes_before(
                        points[ke].0 as int,
                        points[ke].1 as int,
                        points[k0].0 as int,
                        points[k0].1 as int,
                    ));
                }
            }
        }
    }
}

} // verus!
