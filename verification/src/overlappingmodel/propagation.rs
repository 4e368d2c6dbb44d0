//! The propagator: a worklist of sites whose change has yet to reach the
//! sites around them.

use crate::bitset::{bits, bitvec_from_elem, bitvec_get, bitvec_or, count_true, seq_and};
use crate::consistency::{
    allowed_below, carried, cells_sized, clean, emptied, first_emptied, full, in_reach, in_wave,
    lemma_carried, lemma_carried_keeps, lemma_carry_done, lemma_carry_step,
    lemma_clean_after_narrowing, lemma_clean_in_subwave, lemma_lost_is_emptied,
    lemma_masked_is_supported, lemma_record_done, lemma_record_step, lemma_subwave_count,
    lemma_subwave_squeeze, lemma_subwave_transitive, lemma_supports_itself, lemma_total_bits_narrow,
    lemma_with_cell_same, none_emptied, permitted, recorded, subwave, total_bits, visited,
    wave_shape, with_cell,
};
use crate::offset::Offset2D;
use crate::overlappingmodel::OverlappingModel;
use crate::patch::compatible;
use crate::shape::{
    clamp_int, comes_before, lemma_rect_points_contains, lemma_rect_points_sorted, rect_points,
    ShapeRange2D,
};
use crate::wave::wave_width;
use bit_vec::BitVec;
use core::ops::Neg;
use vstd::prelude::*;

verus! {

impl OverlappingModel {
    /// Puts the site at `position` on the worklist, as if it had changed.
    pub fn enqueue(&mut self, position: (usize, usize))
        requires
            old(self).wf(),
            position.0 < old(self).wave().len(),
            position.1 < old(self).width(),
        ensures
            final(self).wf(),
            final(self).patterns() == old(self).patterns(),
            final(self).weights() == old(self).weights(),
            final(self).size() == old(self).size(),
            final(self).width() == old(self).width(),
            final(self).wave() == old(self).wave(),
            forall|y: int, x: int|
                in_wave(old(self).wave(), y, x) ==> (#[trigger] final(self).dirty(y, x)
                    <==> old(self).dirty(y, x) || (y == position.0 && x == position.1)),
            final(self).worklist() == if old(self).dirty(position.0 as int, position.1 as int) {
                old(self).worklist()
            } else {
                old(self).worklist().push(position)
            },
    {
        let ghost old_queue = self.state_changes@;
        let ghost old_flags = self.queued@;
        let ghost h = self.wave().len();
        let ghost w = self.width();
        proof {
            self.lemma_wave_in_bounds(position.0 as int, position.1 as int);
        }
        if !self.queued[position.0][position.1] {
            self.queued[position.0][position.1] = true;
            self.state_changes.push(position);
            proof {
                assert forall|k: int| 0 <= k < old_queue.len() implies self.state_changes@[k]
                    == old_queue[k] by {}
                assert forall|y: int, x: int|
                    0 <= y < h && 0 <= x < w && #[trigger] self.queued@[y]@[x] implies (
                self.state_changes@.contains((y as usize, x as usize))) by {
                    if y == position.0 && x == position.1 {
                        assert(self.state_changes@[old_queue.len() as int] == position);
                    } else {
                        assert(old_flags[y]@[x]);
                        assert(old_queue.contains((y as usize, x as usize)));
                        let k = choose|k: int|
                            0 <= k < old_queue.len() && old_queue[k] == (y as usize, x as usize);
                        assert(self.state_changes@[k] == (y as usize, x as usize));
                    }
                }
                assert forall|y: int, x: int|
                    0 <= y < h && 0 <= x < w implies #[trigger] self.settled(y, x) by {
                    if y == position.0 && x == position.1 {
                        assert(self.queued@[y]@[x]);
                    } else {
                        assert(old(self).settled(y, x));
                    }
                }
            }
        }
    }

    /// The patterns that the site at `position` permits at `offset` from
    /// it: the union of the table's rows for the patterns it allows.
    pub fn states_permitted_from_position_by_offset(
        &self,
        position: (usize, usize),
        offset: Offset2D,
    ) -> (r: BitVec)
        requires
            self.wf(),
            position.0 < self.wave().len(),
            position.1 < self.width(),
            in_reach(self.size() as int, offset.0 as int, offset.1 as int),
        ensures
            bits(r) == permitted(
                self.patterns(),
                self.wave()[position.0 as int][position.1 as int],
                offset.0 as int,
                offset.1 as int,
            ),
    {
        self.permitted_states(position, offset, Ghost((-1, -1)))
    }

    /// What `states_permitted_from_position_by_offset` does, also while the
    /// site `busy` is being propagated from.
    fn permitted_states(
        &self,
        position: (usize, usize),
        offset: Offset2D,
        Ghost(busy): Ghost<(int, int)>,
    ) -> (r: BitVec)
        requires
            self.wf_busy(busy.0, busy.1),
            position.0 < self.wave().len(),
            position.1 < self.width(),
            in_reach(self.size() as int, offset.0 as int, offset.1 as int),
        ensures
            bits(r) == permitted(
                self.patterns(),
                self.wave()[position.0 as int][position.1 as int],
                offset.0 as int,
                offset.1 as int,
            ),
    {
        let num_states = self.states.len();
        let cell = self.model.cell(position.0, position.1);
        let ghost src = cell@;
        let ghost patterns = self.patterns();
        let ghost dy = offset.0 as int;
        let ghost dx = offset.1 as int;
        let mut output = bitvec_from_elem(num_states, false);
        let mut i: usize = 0;
        while i < num_states
            invariant
                i <= num_states,
                self.wf_busy(busy.0, busy.1),
                num_states == self.states@.len(),
                patterns == self.patterns(),
                src == cell@,
                src.len() == num_states,
                dy == offset.0,
                dx == offset.1,
                in_reach(self.size() as int, dy, dx),
                bits(output).len() == num_states,
                forall|j: int|
                    0 <= j < num_states ==> (#[trigger] bits(output)[j] <==> allowed_below(
                        patterns,
                        src,
                        dy,
                        dx,
                        j,
                        i as int,
                    )),
            decreases num_states - i,
        {
            if bitvec_get(&cell.possible_states, i) == Some(true) {
                let row = self.compatibility_map.row(i, offset.0, offset.1);
                let ghost before = bits(output);
                bitvec_or(&mut output, row);
                proof {
                    assert forall|j: int| 0 <= j < num_states implies (#[trigger] bits(output)[j]
                        <==> allowed_below(patterns, src, dy, dx, j, i + 1)) by {
                        assert(bits(*row)[j] == self.compatibility_map.bit(i as int, dy, dx, j));
                        assert(patterns[i as int] == self.states@[i as int]@);
                        assert(patterns[j] == self.states@[j]@);
                        assert(bits(*row)[j] == compatible(
                            patterns[i as int],
                            patterns[j],
                            dy,
                            dx,
                        ));
                        assert(before[j] <==> allowed_below(patterns, src, dy, dx, j, i as int));
                    }
                }
            } else {
                proof {
                    assert forall|j: int| 0 <= j < num_states implies (#[trigger] bits(output)[j]
                        <==> allowed_below(patterns, src, dy, dx, j, i + 1)) by {
                        assert(bits(output)[j] <==> allowed_below(
                            patterns,
                            src,
                            dy,
                            dx,
                            j,
                            i as int,
                        ));
                    }
                }
            }
            i += 1;
        }
        proof {
            assert(bits(output) =~= permitted(patterns, src, dy, dx)) by {
                assert forall|j: int| 0 <= j < num_states implies bits(output)[j] == permitted(
                    patterns,
                    src,
                    dy,
                    dx,
                )[j] by {
                    assert(bits(output)[j] <==> allowed_below(
                        patterns,
                        src,
                        dy,
                        dx,
                        j,
                        num_states as int,
                    ));
                }
            }
        }
        output
    }

    /// Cuts the site `target` down to what the site `source` permits there,
    /// and puts `target` on the worklist if it lost a pattern.
    #[verifier::rlimit(40)]
    fn narrow_target(&mut self, source: (usize, usize), target: (usize, usize)) -> (changed: bool)
        requires
            old(self).wf_busy(source.0 as int, source.1 as int),
            source.0 < old(self).wave().len(),
            source.1 < old(self).width(),
            target.0 < old(self).wave().len(),
            target.1 < old(self).width(),
            in_reach(old(self).size() as int, target.0 - source.0, target.1 - source.1),
        ensures
            final(self).wf_busy(source.0 as int, source.1 as int),
            final(self).patterns() == old(self).patterns(),
            final(self).weights() == old(self).weights(),
            final(self).size() == old(self).size(),
            final(self).width() == old(self).width(),
            final(self).wave() == with_cell(
                old(self).wave(),
                target.0 as int,
                target.1 as int,
                seq_and(
                    old(self).wave()[target.0 as int][target.1 as int],
                    permitted(
                        old(self).patterns(),
                        old(self).wave()[source.0 as int][source.1 as int],
                        target.0 - source.0,
                        target.1 - source.1,
                    ),
                ),
            ),
            changed <==> final(self).wave()[target.0 as int][target.1 as int]
                != old(self).wave()[target.0 as int][target.1 as int],
            !changed ==> final(self).wave() == old(self).wave() && final(self).worklist()
                == old(self).worklist(),
            final(self).worklist().len() >= old(self).worklist().len(),
            final(self).worklist().subrange(0, old(self).worklist().len() as int)
                == old(self).worklist(),
            forall|y: int, x: int|
                0 <= y < old(self).wave().len() && 0 <= x < old(self).width() ==> (
                #[trigger] final(self).dirty(y, x) <==> old(self).dirty(y, x) || (changed && y
                    == target.0 && x == target.1)),
    {
        let ghost before = self.wave();
        let ghost patterns = self.patterns();
        let ghost n = self.size() as int;
        let ghost sy = source.0 as int;
        let ghost sx = source.1 as int;
        let ghost ty = target.0 as int;
        let ghost tx = target.1 as int;
        let ghost old_queue = self.state_changes@;
        let ghost old_flags = self.queued@;
        proof {
            self.lemma_wave_in_bounds(sy, sx);
        }
        let offset = match (Offset2D::from_position(source), Offset2D::from_position(target)) {
            (Some(from), Some(to)) => Offset2D::difference(from, to),
            _ => unreached(),
        };
        let permitted_states = self.permitted_states(source, offset, Ghost((sy, sx)));
        let ghost mask = bits(permitted_states);
        let ghost cut = seq_and(before[ty][tx], mask);
        let target_cell = self.model.cell_mut(target.0, target.1);
        let changed = target_cell.intersect_with(&permitted_states);
        let was_queued = self.queued[target.0][target.1];
        if changed && !was_queued {
            self.queued[target.0][target.1] = true;
            self.state_changes.push(target);
        }
        proof {
            let after = self.model@;
            assert(after == with_cell(before, ty, tx, cut));
            assert(cut.len() == before[ty][tx].len());
            if !changed {
                assert(cut =~= before[ty][tx]);
                lemma_with_cell_same(before, ty, tx);
            }
            if sy == ty && sx == tx {
                lemma_supports_itself(patterns, before[sy][sx]);
                lemma_masked_is_supported(patterns, before[sy][sx], before[ty][tx], mask, 0, 0);
                assert(!changed);
            }
            let h = before.len();
            let w = wave_width(self.model);
            assert forall|k: int| 0 <= k < old_queue.len() implies self.state_changes@[k]
                == old_queue[k] by {}
            assert forall|y: int, x: int|
                0 <= y < h && 0 <= x < w && #[trigger] self.queued@[y]@[x] implies (
            self.state_changes@.contains((y as usize, x as usize)) || (y == sy && x == sx)) by {
                if y == ty && x == tx && changed && !was_queued {
                    assert(self.state_changes@[old_queue.len() as int] == target);
                } else {
                    assert(old_flags[y]@[x]);
                    if !(y == sy && x == sx) {
                        assert(old_queue.contains((y as usize, x as usize)));
                        let k = choose|k: int|
                            0 <= k < old_queue.len() && old_queue[k] == (y as usize, x as usize);
                        assert(self.state_changes@[k] == (y as usize, x as usize));
                    }
                }
            }
            assert forall|y: int, x: int| 0 <= y < h && 0 <= x < w implies #[trigger] self.settled(
                y,
                x,
            ) by {
                if y == ty && x == tx {
                    if changed {
                        assert(self.queued@[y]@[x]);
                    } else {
                        assert(after == before);
                        assert(old(self).settled(y, x));
                    }
                } else {
                    assert(old(self).settled(y, x));
                    assert(after[y][x] == before[y][x]);
                    if !old_flags[y]@[x] && !full(before[y][x]) {
                        lemma_clean_after_narrowing(patterns, n, before, ty, tx, cut, y, x);
                    }
                }
            }
            assert(self.state_changes@.subrange(0, old_queue.len() as int) =~= old_queue);
        }
        changed
    }

    /// Carries the state of the site at `position` to every site within
    /// reach: each is cut down to what `position` permits there, and each
    /// that loses a pattern is put on the worklist. Returns the first site,
    /// row by row, that lost its last pattern on the way, if any did. The
    /// site at `position` itself is neither put on the worklist nor taken
    /// off it.
    pub fn update_states_from_position(&mut self, position: (usize, usize)) -> (r: Option<
        (usize, usize),
    >)
        requires
            old(self).wf(),
            position.0 < old(self).wave().len(),
            position.1 < old(self).width(),
        ensures
            final(self).wf(),
            final(self).patterns() == old(self).patterns(),
            final(self).weights() == old(self).weights(),
            final(self).size() == old(self).size(),
            final(self).width() == old(self).width(),
            final(self).wave() == carried(
                old(self).patterns(),
                old(self).size() as int,
                old(self).wave(),
                position.0 as int,
                position.1 as int,
            ),
            forall|y: int, x: int|
                0 <= y < old(self).wave().len() && 0 <= x < old(self).width() ==> (
                #[trigger] final(self).dirty(y, x) <==> old(self).dirty(y, x)
                    || final(self).wave()[y][x] != old(self).wave()[y][x]),
            r is None ==> none_emptied(old(self).wave(), final(self).wave()),
            r matches Some(e) ==> first_emptied(old(self).wave(), final(self).wave(), e),
            subwave(final(self).wave(), old(self).wave()),
            clean(
                final(self).patterns(),
                final(self).size() as int,
                final(self).wave(),
                position.0 as int,
                position.1 as int,
            ),
    {
        let ghost start_queue = self.state_changes@;
        let ghost h = self.wave().len();
        let ghost w = self.width();
        proof {
            self.lemma_wave_in_bounds(position.0 as int, position.1 as int);
            self.lemma_patterns_nonempty();
            lemma_carried(
                self.patterns(),
                self.size() as int,
                self.wave(),
                position.0 as int,
                position.1 as int,
            );
        }
        let r = self.carry_from(position);
        proof {
            assert forall|y: int, x: int|
                0 <= y < h && 0 <= x < w && #[trigger] self.queued@[y]@[x] implies (
            self.state_changes@.contains((y as usize, x as usize))) by {
                if y == position.0 && x == position.1 {
                    assert(self.dirty(y, x));
                    assert(self.wave()[y][x] == old(self).wave()[y][x]);
                    assert(old(self).dirty(y, x));
                    assert(start_queue.contains(position));
                    let k = choose|k: int| 0 <= k < start_queue.len() && start_queue[k] == position;
                    assert(self.state_changes@.subrange(0, start_queue.len() as int)[k]
                        == start_queue[k]);
                    assert(self.state_changes@[k] == position);
                }
            }
        }
        r
    }

    /// What `update_states_from_position` does, for a site that was taken
    /// off the worklist and still counts as dirty.
    #[verifier::rlimit(40)]
    fn carry_from(&mut self, position: (usize, usize)) -> (r: Option<(usize, usize)>)
        requires
            old(self).wf_busy(position.0 as int, position.1 as int),
            position.0 < old(self).wave().len(),
            position.1 < old(self).width(),
        ensures
            final(self).wf_busy(position.0 as int, position.1 as int),
            final(self).patterns() == old(self).patterns(),
            final(self).weights() == old(self).weights(),
            final(self).size() == old(self).size(),
            final(self).width() == old(self).width(),
            final(self).wave() == carried(
                old(self).patterns(),
                old(self).size() as int,
                old(self).wave(),
                position.0 as int,
                position.1 as int,
            ),
            forall|y: int, x: int|
                0 <= y < old(self).wave().len() && 0 <= x < old(self).width() ==> (
                #[trigger] final(self).dirty(y, x) <==> old(self).dirty(y, x)
                    || final(self).wave()[y][x] != old(self).wave()[y][x]),
            r is None ==> none_emptied(old(self).wave(), final(self).wave()),
            r matches Some(e) ==> first_emptied(old(self).wave(), final(self).wave(), e),
            total_bits(final(self).wave()) <= total_bits(old(self).wave()),
            final(self).wave() != old(self).wave() ==> total_bits(final(self).wave()) < total_bits(
                old(self).wave(),
            ),
            final(self).wave() == old(self).wave() ==> final(self).worklist()
                == old(self).worklist(),
            final(self).worklist().len() >= old(self).worklist().len(),
            final(self).worklist().subrange(0, old(self).worklist().len() as int)
                == old(self).worklist(),
    {
        let ghost start = self.wave();
        let ghost patterns = self.patterns();
        let ghost n = self.size() as int;
        let ghost py = position.0 as int;
        let ghost px = position.1 as int;
        let ghost start_queue = self.worklist();
        let mut emptied_site: Option<(usize, usize)> = None;
        let reach = self.state_size;
        let (height, width) = self.model.dim();
        let effect_size = (2 * reach - 1, 2 * reach - 1);
        proof {
            self.lemma_wave_in_bounds(py, px);
        }
        let centre = match Offset2D::from_position(position) {
            Some(centre) => centre,
            None => unreached(),
        };
        let shift = match Offset2D::from_position((reach - 1, reach - 1)) {
            Some(shift) => shift,
            None => unreached(),
        };
        let cell_indices = ShapeRange2D::from_shape(effect_size).shift_by_offset(
            centre,
        ).shift_by_offset(shift.neg()).clamp_to((height, width)).into_iter().collect();
        let ghost y0 = clamp_int(py - n + 1, 0, height as int);
        let ghost y1 = clamp_int(py + n, 0, height as int);
        let ghost x0 = clamp_int(px - n + 1, 0, width as int);
        let ghost x1 = clamp_int(px + n, 0, width as int);
        assert(cell_indices@ == rect_points(y0, y1, x0, x1));
        proof {
            self.lemma_wave_in_bounds(py, px);
            self.lemma_patterns_nonempty();
        }
        let mut k: usize = 0;
        while k < cell_indices.len()
            invariant
                k <= cell_indices@.len(),
                cell_indices@ == rect_points(y0, y1, x0, x1),
                0 <= y0 <= height,
                0 <= y1 <= height,
                0 <= x0 <= width,
                0 <= x1 <= width,
                py - n < y0,
                y1 <= py + n,
                px - n < x0,
                x1 <= px + n,
                py == position.0,
                px == position.1,
                n == self.size(),
                patterns == self.patterns(),
                self.patterns() == old(self).patterns(),
                self.weights() == old(self).weights(),
                self.size() == old(self).size(),
                self.width() == old(self).width(),
                start == old(self).wave(),
                start_queue == old(self).worklist(),
                height == start.len(),
                width == self.width(),
                py < height,
                px < width,
                wave_shape(start, height as nat, width as nat, patterns.len()),
                cells_sized(start, patterns.len()),
                self.wf_busy(py, px),
                subwave(self.wave(), start),
                forall|y: int, x: int|
                    in_wave(start, y, x) ==> #[trigger] self.wave()[y][x] == if visited(
                        cell_indices@,
                        k as int,
                        y,
                        x,
                    ) {
                        carried(patterns, n, start, py, px)[y][x]
                    } else {
                        start[y][x]
                    },
                forall|y: int, x: int|
                    0 <= y < height && 0 <= x < width ==> (#[trigger] self.dirty(y, x)
                        <==> old(self).dirty(y, x) || self.wave()[y][x] != start[y][x]),
                recorded(
                    start,
                    carried(patterns, n, start, py, px),
                    cell_indices@,
                    k as int,
                    emptied_site,
                ),
                total_bits(self.wave()) <= total_bits(start),
                self.wave() != start ==> total_bits(self.wave()) < total_bits(start),
                self.wave() == start ==> self.worklist() == start_queue,
                self.worklist().len() >= start_queue.len(),
                self.worklist().subrange(0, start_queue.len() as int) == start_queue,
            decreases cell_indices@.len() - k,
        {
            let index = cell_indices[k];
            let ghost before = self.wave();
            let ghost before_queue = self.worklist();
            let ghost before_self = *self;
            let ghost ty = index.0 as int;
            let ghost tx = index.1 as int;
            proof {
                assert(cell_indices@.contains(index));
                lemma_rect_points_contains(y0, y1, x0, x1, index);
                lemma_carry_step(patterns, n, start, before, cell_indices@, k as int, py, px);
                assert forall|k0: int| 0 <= k0 < k implies cell_indices@[k0]
                    != cell_indices@[k as int] by {
                    lemma_rect_points_sorted(y0, y1, x0, x1, k0, k as int);
                }
            }
            let changed = self.narrow_target(position, index);
            let ghost was_recorded = emptied_site;
            if changed && emptied_site.is_none() {
                if !self.model.cell(index.0, index.1).consistent() {
                    emptied_site = Some(index);
                }
            }
            proof {
                let after = self.wave();
                let cut = after[ty][tx];
                let goal = carried(patterns, n, start, py, px);
                lemma_subwave_transitive(after, before, start);
                lemma_total_bits_narrow(before, ty, tx, cut);
                self.lemma_narrowed_flags(&before_self, old(self), start, ty, tx, changed);
                lemma_lost_is_emptied(
                    patterns,
                    n,
                    start,
                    before,
                    after,
                    cell_indices@,
                    k as int,
                    py,
                    px,
                );
                lemma_record_step(
                    start,
                    goal,
                    cell_indices@,
                    k as int,
                    was_recorded,
                    emptied_site,
                );
                lemma_prefix_of_prefix(self.worklist(), before_queue, start_queue);
                if changed && after == start {
                    lemma_subwave_squeeze(after, before, start, ty, tx);
                }
            }
            k += 1;
        }
        proof {
            let after = self.wave();
            assert forall|y: int, x: int| in_wave(start, y, x) implies (cell_indices@.contains(
                (y as usize, x as usize),
            ) <==> in_reach(n, y - py, x - px)) by {
                lemma_rect_points_contains(y0, y1, x0, x1, (y as usize, x as usize));
            }
            lemma_carry_done(patterns, n, start, after, cell_indices@, py, px);
            assert forall|i: int, j: int| 0 <= i < j < cell_indices@.len() implies comes_before(
                (#[trigger] cell_indices@[i]).0 as int,
                cell_indices@[i].1 as int,
                (#[trigger] cell_indices@[j]).0 as int,
                cell_indices@[j].1 as int,
            ) by {
                lemma_rect_points_sorted(y0, y1, x0, x1, i, j);
            }
            lemma_record_done(patterns, n, start, cell_indices@, emptied_site, py, px);
        }
        emptied_site
    }

    /// After one site was cut down, a site is dirty exactly if it was dirty
    /// at the start or differs from what it was at the start.
    proof fn lemma_narrowed_flags(
        &self,
        before: &OverlappingModel,
        first: &OverlappingModel,
        start: Seq<Seq<Seq<bool>>>,
        ty: int,
        tx: int,
        changed: bool,
    )
        requires
            start == first.wave(),
            subwave(self.wave(), before.wave()),
            subwave(before.wave(), start),
            in_wave(start, ty, tx),
            self.wave() == with_cell(before.wave(), ty, tx, self.wave()[ty][tx]),
            changed <==> self.wave()[ty][tx] != before.wave()[ty][tx],
            forall|y: int, x: int|
                in_wave(start, y, x) ==> (#[trigger] self.dirty(y, x) <==> before.dirty(y, x) || (
                changed && y == ty && x == tx)),
            forall|y: int, x: int|
                in_wave(start, y, x) ==> (#[trigger] before.dirty(y, x) <==> first.dirty(y, x)
                    || before.wave()[y][x] != start[y][x]),
        ensures
            forall|y: int, x: int|
                in_wave(start, y, x) ==> (#[trigger] self.dirty(y, x) <==> first.dirty(y, x)
                    || self.wave()[y][x] != start[y][x]),
    {
        let after = self.wave();
        let mid = before.wave();
        assert forall|y: int, x: int| in_wave(start, y, x) implies (#[trigger] self.dirty(y, x)
            <==> first.dirty(y, x) || after[y][x] != start[y][x]) by {
            assert(in_wave(mid, y, x));
            if y == ty && x == tx {
                if after[y][x] == start[y][x] {
                    lemma_subwave_squeeze(after, mid, start, y, x);
                }
            } else {
                assert(after[y][x] == mid[y][x]);
            }
        }
    }
}

/// A prefix of a prefix is a prefix.
proof fn lemma_prefix_of_prefix(
    c: Seq<(usize, usize)>,
    b: Seq<(usize, usize)>,
    a: Seq<(usize, usize)>,
)
    requires
        a.len() <= b.len() <= c.len(),
        c.subrange(0, b.len() as int) == b,
        b.subrange(0, a.len() as int) == a,
    ensures
        c.subrange(0, a.len() as int) == a,
{
    assert forall|q: int| 0 <= q < a.len() implies c[q] == a[q] by {
        assert(c.subrange(0, b.len() as int)[q] == b[q]);
        assert(b.subrange(0, a.len() as int)[q] == a[q]);
    }
    assert(c.subrange(0, a.len() as int) =~= a);
}

impl OverlappingModel {
    /// Whether no site of the wave is dirty.
    pub open spec fn quiescent(&self) -> bool {
        forall|y: int, x: int| in_wave(self.wave(), y, x) ==> !#[trigger] self.dirty(y, x)
    }

    /// Whether `after` is what propagation makes of `self`: the same
    /// patterns, no site dirty, no pattern gained; every site that was
    /// dirty, or has changed, or was clean, is clean; and nothing has
    /// changed at all if every dirty site was clean already.
    pub open spec fn propagates_to(&self, after: &OverlappingModel) -> bool {
        &&& after.patterns() == self.patterns()
        &&& after.weights() == self.weights()
        &&& after.size() == self.size()
        &&& after.width() == self.width()
        &&& after.worklist().len() == 0
        &&& after.quiescent()
        &&& subwave(after.wave(), self.wave())
        &&& forall|y: int, x: int|
            in_wave(self.wave(), y, x) && (self.dirty(y, x) || after.wave()[y][x]
                != self.wave()[y][x] || clean(
                self.patterns(),
                self.size() as int,
                self.wave(),
                y,
                x,
            ))
                ==> #[trigger] clean(after.patterns(), after.size() as int, after.wave(), y, x)
        &&& (forall|y: int, x: int|
            in_wave(self.wave(), y, x) && self.dirty(y, x) ==> #[trigger] clean(
                self.patterns(),
                self.size() as int,
                self.wave(),
                y,
                x,
            )) ==> after.wave() == self.wave()
        &&& forall|v: Seq<Seq<Seq<bool>>>| #[trigger] self.stable(v) ==> subwave(v, after.wave())
    }

    /// Whether the wave `v` is what propagation from `self` could come to
    /// rest at: it allows no pattern that the wave of `self` does not allow,
    /// and every site that is dirty in `self` or differs from it is clean.
    pub open spec fn stable(&self, v: Seq<Seq<Seq<bool>>>) -> bool {
        &&& subwave(v, self.wave())
        &&& forall|y: int, x: int|
            in_wave(self.wave(), y, x) && (self.dirty(y, x) || v[y][x] != self.wave()[y][x])
                ==> #[trigger] clean(self.patterns(), self.size() as int, v, y, x)
    }

    /// Whether `after` and `r` are what draining the worklist makes of
    /// `self`. No pattern is gained, and none is lost that a stable wave
    /// keeps. With `r` empty, propagation has come to rest and no site has
    /// lost its last pattern; else `r` names a site that has, and the drain
    /// has stopped there.
    pub open spec fn drains_to(&self, after: &OverlappingModel, r: Option<(usize, usize)>) -> bool {
        &&& after.patterns() == self.patterns()
        &&& after.weights() == self.weights()
        &&& after.size() == self.size()
        &&& after.width() == self.width()
        &&& subwave(after.wave(), self.wave())
        &&& forall|v: Seq<Seq<Seq<bool>>>| #[trigger] self.stable(v) ==> subwave(v, after.wave())
        &&& match r {
            None => self.propagates_to(after) && none_emptied(self.wave(), after.wave()),
            Some(e) => emptied(self.wave(), after.wave(), e.0 as int, e.1 as int),
        }
    }

    /// Drains the worklist: each site taken off it is propagated from, and
    /// each site that loses a pattern on the way is put on it, until no
    /// site is dirty. The drain stops early once propagating from a site
    /// has left some site without a pattern: such a site is returned, and
    /// the wave is left as it stands. Which one it is, where there are
    /// several, depends on the order of the worklist.
    #[verifier::rlimit(40)]
    pub fn propagate_changes(&mut self) -> (r: Option<(usize, usize)>)
        requires
            old(self).wf(),
        ensures
            final(self).wf(),
            old(self).drains_to(final(self), r),
    {
        let ghost start = self.wave();
        let ghost patterns = self.patterns();
        let ghost n = self.size() as int;
        let ghost h = self.wave().len();
        let ghost w = self.width();
        proof {
            self.lemma_wave_in_bounds(0, 0);
            assert(subwave(start, start));
        }
        while self.state_changes.len() > 0
            invariant
                self.wf(),
                self.patterns() == old(self).patterns(),
                self.weights() == old(self).weights(),
                self.size() == old(self).size(),
                self.width() == old(self).width(),
                start == old(self).wave(),
                patterns == self.patterns(),
                n == self.size(),
                h == start.len(),
                w == self.width(),
                subwave(self.wave(), start),
                forall|y: int, x: int|
                    0 <= y < h && 0 <= x < w && (old(self).dirty(y, x) || self.wave()[y][x]
                        != start[y][x] || clean(patterns, n, start, y, x)) ==> self.dirty(y, x)
                        || #[trigger] clean(patterns, n, self.wave(), y, x),
                (forall|y: int, x: int|
                    0 <= y < h && 0 <= x < w && old(self).dirty(y, x) ==> #[trigger] clean(
                        patterns,
                        n,
                        start,
                        y,
                        x,
                    )) ==> self.wave() == start && forall|y: int, x: int|
                    0 <= y < h && 0 <= x < w && #[trigger] self.dirty(y, x) ==> old(self).dirty(
                        y,
                        x,
                    ),
                forall|y: int, x: int|
                    0 <= y < h && 0 <= x < w && #[trigger] self.dirty(y, x) ==> old(self).dirty(
                        y,
                        x,
                    ) || self.wave()[y][x] != start[y][x],
                forall|v: Seq<Seq<Seq<bool>>>| #[trigger]
                    old(self).stable(v) ==> subwave(v, self.wave()),
                none_emptied(start, self.wave()),
            decreases total_bits(self.wave()), self.state_changes@.len(),
        {
            let ghost before = self.wave();
            let ghost before_queue = self.state_changes@;
            let ghost before_self = *self;
            let position = self.state_changes.pop().unwrap();
            let ghost py = position.0 as int;
            let ghost px = position.1 as int;
            proof {
                assert(position == before_queue[before_queue.len() - 1]);
                assert forall|y: int, x: int|
                    0 <= y < h && 0 <= x < w && #[trigger] self.queued@[y]@[x] implies (
                self.state_changes@.contains((y as usize, x as usize)) || (y == py && x == px)) by {
                    assert(before_queue.contains((y as usize, x as usize)));
                    let k = choose|k: int|
                        0 <= k < before_queue.len() && before_queue[k] == (y as usize, x as usize);
                    if k < before_queue.len() - 1 {
                        assert(self.state_changes@[k] == (y as usize, x as usize));
                    }
                }
                assert forall|y: int, x: int|
                    0 <= y < h && 0 <= x < w implies #[trigger] self.settled(y, x) by {
                    assert(before_self.settled(y, x));
                }
                assert(self.wf_busy(py, px));
            }
            if self.queued[position.0][position.1] {
                let ghost mid_self = *self;
                let emptied_site = self.carry_from(position);
                let ghost after_update = *self;
                self.queued[position.0][position.1] = false;
                proof {
                    mid_self.lemma_patterns_nonempty();
                    lemma_carried(patterns, n, before, py, px);
                }
                proof {
                    if emptied_site is Some {
                        let e = emptied_site->0;
                        lemma_subwave_count(before, start, e.0 as int, e.1 as int);
                    } else {
                        assert forall|y: int, x: int|
                            in_wave(start, y, x) && count_true(#[trigger] self.wave()[y][x])
                                == 0 implies count_true(start[y][x]) == 0 by {
                            assert(in_wave(before, y, x));
                            assert(count_true(before[y][x]) == 0);
                        }
                    }
                }
                proof {
                    let after = self.wave();
                    assert(after == after_update.wave());
                    lemma_subwave_transitive(after, before, start);
                    assert forall|y: int, x: int|
                        0 <= y < h && 0 <= x < w && #[trigger] self.queued@[y]@[x] implies (
                    self.state_changes@.contains((y as usize, x as usize))) by {
                        assert(after_update.queued@[y]@[x]);
                    }
                    assert forall|y: int, x: int|
                        0 <= y < h && 0 <= x < w implies #[trigger] self.settled(y, x) by {
                        assert(after_update.settled(y, x));
                    }
                    assert(self.wf());
                    assert forall|y: int, x: int|
                        0 <= y < h && 0 <= x < w && (old(self).dirty(y, x) || after[y][x]
                            != start[y][x] || clean(patterns, n, start, y, x)) implies self.dirty(
                        y,
                        x,
                    ) || #[trigger] clean(patterns, n, after, y, x) by {
                        if y == py && x == px {
                        } else {
                            assert(after_update.dirty(y, x) <==> mid_self.dirty(y, x)
                                || after[y][x] != before[y][x]);
                            if after[y][x] == before[y][x] && !mid_self.dirty(y, x) {
                                assert(clean(patterns, n, before, y, x));
                                lemma_clean_in_subwave(patterns, n, before, after, y, x);
                            }
                        }
                    }
                    assert forall|y: int, x: int|
                        0 <= y < h && 0 <= x < w && #[trigger] self.dirty(
                            y,
                            x,
                        ) implies old(self).dirty(y, x) || after[y][x] != start[y][x] by {
                        assert(after_update.dirty(y, x));
                        if mid_self.dirty(y, x) {
                            assert(before_self.dirty(y, x));
                            if !old(self).dirty(y, x) && after[y][x] == start[y][x] {
                                lemma_subwave_squeeze(after, before, start, y, x);
                            }
                        } else {
                            assert(after[y][x] != before[y][x]);
                            if after[y][x] == start[y][x] {
                                lemma_subwave_squeeze(after, before, start, y, x);
                            }
                        }
                    }
                    assert forall|v: Seq<Seq<Seq<bool>>>| #[trigger]
                        old(self).stable(v) implies subwave(v, after) by {
                        assert(subwave(v, before));
                        assert(before_self.dirty(py, px));
                        if !old(self).dirty(py, px) {
                            assert(before[py][px] != start[py][px]);
                            if v[py][px] == start[py][px] {
                                assert(v[py].len() == before[py].len());
                                lemma_subwave_squeeze(v, before, start, py, px);
                            }
                        }
                        assert(clean(patterns, n, v, py, px));
                        lemma_carried_keeps(patterns, n, before, v, py, px);
                    }
                    if forall|y: int, x: int|
                        0 <= y < h && 0 <= x < w && old(self).dirty(y, x) ==> #[trigger] clean(
                            patterns,
                            n,
                            start,
                            y,
                            x,
                        ) {
                        assert(before == start);
                        assert(mid_self.dirty(py, px));
                        assert(before_self.dirty(py, px));
                        assert(old(self).dirty(py, px));
                        assert(clean(patterns, n, start, py, px));
                        assert(after == start);
                        assert forall|y: int, x: int|
                            0 <= y < h && 0 <= x < w && #[trigger] self.dirty(
                                y,
                                x,
                            ) implies old(self).dirty(y, x) by {
                            assert(after_update.dirty(y, x));
                            assert(mid_self.dirty(y, x));
                            assert(before_self.dirty(y, x));
                        }
                    }
                }
                if emptied_site.is_some() {
                    return emptied_site;
                }
            } else {
                proof {
                    assert forall|y: int, x: int|
                        0 <= y < h && 0 <= x < w && #[trigger] self.queued@[y]@[x] implies (
                    self.state_changes@.contains((y as usize, x as usize))) by {}
                    assert(self.wf());
                    assert forall|y: int, x: int|
                        0 <= y < h && 0 <= x < w && #[trigger] self.dirty(
                            y,
                            x,
                        ) implies old(self).dirty(y, x) || self.wave()[y][x] != start[y][x] by {
                        assert(before_self.dirty(y, x));
                    }
                    if forall|y: int, x: int|
                        0 <= y < h && 0 <= x < w && old(self).dirty(y, x) ==> #[trigger] clean(
                            patterns,
                            n,
                            start,
                            y,
                            x,
                        ) {
                        assert(self.wave() == start);
                        assert forall|y: int, x: int|
                            0 <= y < h && 0 <= x < w && #[trigger] self.dirty(
                                y,
                                x,
                            ) implies old(self).dirty(y, x) by {
                            assert(before_self.dirty(y, x));
                        }
                    }
                }
            }
        }
        proof {
            assert forall|y: int, x: int| in_wave(self.wave(), y, x) implies !#[trigger] self.dirty(
                y,
                x,
            ) by {
                if self.queued@[y]@[x] {
                    assert(self.state_changes@.contains((y as usize, x as usize)));
                }
            }
            assert forall|y: int, x: int|
                in_wave(start, y, x) && (old(self).dirty(y, x) || self.wave()[y][x] != start[y][x]
                    || clean(patterns, n, start, y, x)) implies #[trigger] clean(
                patterns,
                n,
                self.wave(),
                y,
                x,
            ) by {
                assert(!self.dirty(y, x));
            }
        }
        None
    }
}

} // verus!
