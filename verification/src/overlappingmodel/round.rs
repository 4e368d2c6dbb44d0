//! One round of the solver: a site is decided, and the decision is
//! propagated.

use crate::bitset::{count_true, has_true, lemma_count_true_single, lemma_count_true_zero};
use crate::consistency::{
    all_decided, full, in_wave, lemma_clean_after_narrowing, lemma_subwave_count,
    lemma_subwave_transitive, lemma_with_cell_subwave, subwave, with_cell,
};
use crate::overlappingmodel::{ModelError, OverlappingModel};
use crate::possibilitycell::{only, PossibilityCell};
use crate::shape::comes_before;
use crate::utils::{
    count_weights, draw_below, lemma_masked_prefix_monotone, lemma_selects_unique, masked_prefix,
    masked_total, selects,
};
use rand::rngs::StdRng;
use vstd::prelude::*;

verus! {

/// How a round ends in which the site `c` was decided: with the
/// contradiction, if a site lost its last pattern, else with `c`.
pub open spec fn round_outcome(c: (usize, usize), emptied_site: Option<(usize, usize)>) -> Result<
    Option<(usize, usize)>,
    ModelError,
> {
    match emptied_site {
        Some(e) => Err(ModelError::NoValidStates(e)),
        None => Ok(Some(c)),
    }
}

/// Among weights of at least one, the allowed ones add up to more than
/// nothing exactly when one is allowed.
pub proof fn lemma_masked_prefix_positive(weights: Seq<int>, mask: Seq<bool>, n: int)
    requires
        0 <= n <= weights.len(),
        weights.len() == mask.len(),
        forall|i: int| 0 <= i < weights.len() ==> weights[i] >= 1,
    ensures
        masked_prefix(weights, mask, n) >= 0,
        masked_prefix(weights, mask, n) > 0 <==> exists|i: int| 0 <= i < n && mask[i],
    decreases n,
{
    if n > 0 {
        lemma_masked_prefix_positive(weights, mask, n - 1);
        if mask[n - 1] {
        } else if exists|i: int| 0 <= i < n && mask[i] {
            let i = choose|i: int| 0 <= i < n && mask[i];
            assert(i < n - 1);
        }
    }
}

impl OverlappingModel {
    /// Whether `after` is `self` with the site `(y, x)` narrowed to the
    /// pattern `i` and marked dirty.
    pub open spec fn collapses_to(&self, y: int, x: int, i: int, after: &OverlappingModel) -> bool {
        &&& after.patterns() == self.patterns()
        &&& after.weights() == self.weights()
        &&& after.size() == self.size()
        &&& after.width() == self.width()
        &&& 0 <= i < self.patterns().len()
        &&& self.wave()[y][x][i]
        &&& after.wave() == with_cell(self.wave(), y, x, only(self.patterns().len(), i))
        &&& forall|y0: int, x0: int|
            in_wave(self.wave(), y0, x0) ==> (#[trigger] after.dirty(y0, x0) <==> self.dirty(y0, x0)
                || (y0 == y && x0 == x))
        &&& after.worklist() == if self.dirty(y, x) {
            self.worklist()
        } else {
            self.worklist().push((y as usize, x as usize))
        }
    }

    /// Narrows the site at `position` to the pattern that `choice` selects
    /// among those it allows, by weight, and puts the site on the worklist.
    /// Returns the pattern; where `choice` is not below the total weight of
    /// the allowed patterns, nothing changes and `None` is returned.
    pub fn collapse_to(&mut self, position: (usize, usize), choice: u128) -> (r: Option<usize>)
        requires
            old(self).wf(),
            position.0 < old(self).wave().len(),
            position.1 < old(self).width(),
        ensures
            final(self).wf(),
            r is Some <==> choice < masked_total(
                count_weights(old(self).weights()),
                old(self).wave()[position.0 as int][position.1 as int],
            ),
            r matches Some(i) ==> selects(
                count_weights(old(self).weights()),
                old(self).wave()[position.0 as int][position.1 as int],
                choice as int,
                i as int,
            ) && old(self).collapses_to(
                position.0 as int,
                position.1 as int,
                i as int,
                final(self),
            ),
            r is None ==> *final(self) == *old(self),
            subwave(final(self).wave(), old(self).wave()),
    {
        let ghost before = self.wave();
        let ghost patterns = self.patterns();
        let ghost n = self.size() as int;
        let ghost py = position.0 as int;
        let ghost px = position.1 as int;
        let ghost old_queue = self.state_changes@;
        let ghost old_flags = self.queued@;
        let ghost h = before.len();
        let ghost w = self.width();
        proof {
            self.lemma_wave_in_bounds(py, px);
        }
        let chosen = PossibilityCell::masked_weighted_pick(
            &self.state_counts,
            &self.model.cell(position.0, position.1).possible_states,
            choice,
        );
        let chosen_state = match chosen {
            Some(chosen_state) => chosen_state,
            None => {
                return None;
            },
        };
        let cell = self.model.cell_mut(position.0, position.1);
        cell.collapse_to(&self.state_counts, choice);
        let was_queued = self.queued[position.0][position.1];
        if !was_queued {
            self.queued[position.0][position.1] = true;
            self.state_changes.push(position);
        }
        proof {
            let after = self.model@;
            let cut = only(before[py][px].len(), chosen_state as int);
            assert(after == with_cell(before, py, px, cut));
            assert forall|k: int| 0 <= k < old_queue.len() implies self.state_changes@[k]
                == old_queue[k] by {}
            assert forall|y: int, x: int|
                0 <= y < h && 0 <= x < w && #[trigger] self.queued@[y]@[x] implies (
            self.state_changes@.contains((y as usize, x as usize))) by {
                if y == py && x == px {
                    if !was_queued {
                        assert(self.state_changes@[old_queue.len() as int] == position);
                    } else {
                        assert(old_flags[y]@[x]);
                        assert(old_queue.contains((y as usize, x as usize)));
                        let k = choose|k: int|
                            0 <= k < old_queue.len() && old_queue[k] == (y as usize, x as usize);
                        assert(self.state_changes@[k] == (y as usize, x as usize));
                    }
                } else {
                    assert(old_flags[y]@[x]);
                    assert(old_queue.contains((y as usize, x as usize)));
                    let k = choose|k: int|
                        0 <= k < old_queue.len() && old_queue[k] == (y as usize, x as usize);
                    assert(self.state_changes@[k] == (y as usize, x as usize));
                }
            }
            assert forall|y: int, x: int| 0 <= y < h && 0 <= x < w implies #[trigger] self.settled(
                y,
                x,
            ) by {
                if y == py && x == px {
                    assert(self.queued@[y]@[x]);
                } else {
                    assert(old(self).settled(y, x));
                    assert(after[y][x] == before[y][x]);
                    if !old_flags[y]@[x] && !full(before[y][x]) {
                        lemma_clean_after_narrowing(patterns, n, before, py, px, cut, y, x);
                    }
                }
            }
            assert(self.wf());
            lemma_with_cell_subwave(before, py, px, cut);
        }
        Some(chosen_state)
    }

    /// Narrows the site at `position` to one of the patterns it allows,
    /// drawn in proportion to their weights, and puts the site on the
    /// worklist. A site that allows no pattern is left as it is.
    pub fn pick_a_point_and_collapse(&mut self, position: (usize, usize), rng: &mut StdRng) -> (r:
        Option<usize>)
        requires
            old(self).wf(),
            position.0 < old(self).wave().len(),
            position.1 < old(self).width(),
        ensures
            final(self).wf(),
            r is Some <==> has_true(old(self).wave()[position.0 as int][position.1 as int]),
            r matches Some(i) ==> old(self).collapses_to(
                position.0 as int,
                position.1 as int,
                i as int,
                final(self),
            ),
            r is None ==> *final(self) == *old(self),
            subwave(final(self).wave(), old(self).wave()),
    {
        let ghost cell = self.wave()[position.0 as int][position.1 as int];
        let ghost weights = count_weights(self.weights());
        proof {
            self.lemma_wave_in_bounds(position.0 as int, position.1 as int);
            self.lemma_total_weight(position.0 as int, position.1 as int);
        }
        let masked_total = PossibilityCell::masked_sum(
            &self.state_counts,
            &self.model.cell(position.0, position.1).possible_states,
        );
        if masked_total == 0 {
            return None;
        }
        let choice = draw_below(rng, masked_total);
        self.collapse_to(position, choice)
    }

    /// The allowed patterns of a site have weight exactly when the site
    /// allows a pattern.
    proof fn lemma_total_weight(&self, y: int, x: int)
        requires
            self.wf(),
            in_wave(self.wave(), y, x),
        ensures
            masked_total(count_weights(self.weights()), self.wave()[y][x]) > 0 <==> has_true(
                self.wave()[y][x],
            ),
    {
        let weights = count_weights(self.weights());
        let cell = self.wave()[y][x];
        lemma_masked_prefix_positive(weights, cell, weights.len() as int);
    }

    /// The first site, row by row, that allows no pattern; `None` if every
    /// site allows one.
    pub fn first_contradiction(&self) -> (r: Option<(usize, usize)>)
        requires
            self.wf(),
        ensures
            r is None ==> forall|y: int, x: int|
                in_wave(self.wave(), y, x) ==> count_true(#[trigger] self.wave()[y][x]) > 0,
            r matches Some(c) ==> in_wave(self.wave(), c.0 as int, c.1 as int) && count_true(
                self.wave()[c.0 as int][c.1 as int],
            ) == 0 && forall|y: int, x: int|
                in_wave(self.wave(), y, x) && comes_before(y, x, c.0 as int, c.1 as int)
                    ==> count_true(#[trigger] self.wave()[y][x]) > 0,
    {
        let (height, width) = self.model.dim();
        let ghost wave = self.wave();
        proof {
            self.lemma_wave_in_bounds(0, 0);
        }
        let mut y: usize = 0;
        while y < height
            invariant
                y <= height,
                self.wf(),
                wave == self.wave(),
                height == wave.len(),
                width == self.width(),
                forall|y0: int, x0: int|
                    in_wave(wave, y0, x0) && comes_before(y0, x0, y as int, 0) ==> count_true(
                        #[trigger] wave[y0][x0],
                    ) > 0,
            decreases height - y,
        {
            let mut x: usize = 0;
            while x < width
                invariant
                    x <= width,
                    y < height,
                    self.wf(),
                    wave == self.wave(),
                    height == wave.len(),
                    width == self.width(),
                    forall|y0: int, x0: int|
                        in_wave(wave, y0, x0) && comes_before(y0, x0, y as int, x as int)
                            ==> count_true(#[trigger] wave[y0][x0]) > 0,
                decreases width - x,
            {
                proof {
                    self.lemma_wave_in_bounds(y as int, x as int);
                }
                if !self.model.cell(y, x).consistent() {
                    return Some((y, x));
                }
                x += 1;
            }
            proof {
                assert forall|y0: int, x0: int|
                    in_wave(wave, y0, x0) && comes_before(y0, x0, y + 1, 0) implies count_true(
                    #[trigger] wave[y0][x0],
                ) > 0 by {
                    self.lemma_wave_in_bounds(y0, x0);
                    assert(comes_before(y0, x0, y as int, width as int));
                }
            }
            y += 1;
        }
        proof {
            assert forall|y0: int, x0: int| in_wave(wave, y0, x0) implies count_true(
                #[trigger] wave[y0][x0],
            ) > 0 by {
                assert(comes_before(y0, x0, height as int, 0));
            }
        }
        None
    }

    /// Whether `after` and `r` are what deciding the site `c` makes of
    /// `self`: the site is narrowed to one of the patterns it allows, the
    /// worklist is drained, and `r` is `Ok(Some(c))` if propagation came to
    /// rest, and the contradiction if a site lost its last pattern.
    pub open spec fn decides_to(
        &self,
        c: (usize, usize),
        after: &OverlappingModel,
        r: Result<Option<(usize, usize)>, ModelError>,
    ) -> bool {
        exists|i: int, mid: OverlappingModel, e: Option<(usize, usize)>|
            #[trigger] self.collapses_to(c.0 as int, c.1 as int, i, &mid)
                && #[trigger] mid.drains_to(after, e) && r == round_outcome(c, e)
    }

    /// Whether `after` and `r` are what one round makes of `self` when the
    /// choice of the site came out as `choice`. If the choice ended in an
    /// error, nothing changes and the error is returned; but where it found
    /// every site decided, the round returns `Ok(None)`: the wave is
    /// complete. Otherwise the chosen site is decided.
    pub open spec fn advances_by(
        &self,
        choice: Result<(usize, usize), ModelError>,
        after: &OverlappingModel,
        r: Result<Option<(usize, usize)>, ModelError>,
    ) -> bool {
        match choice {
            Err(ModelError::AllStatesDecided) => r == Ok::<Option<(usize, usize)>, ModelError>(None)
                && *after == *self,
            Err(e) => r == Err::<Option<(usize, usize)>, ModelError>(e) && *after == *self,
            Ok(c) => self.decides_to(c, after, r),
        }
    }

    /// Whether `after` and `r` are what one round makes of `self` when the
    /// site is chosen by `keys`.
    pub open spec fn advances_to(
        &self,
        keys: Seq<Vec<Option<u64>>>,
        after: &OverlappingModel,
        r: Result<Option<(usize, usize)>, ModelError>,
    ) -> bool {
        exists|choice: Result<(usize, usize), ModelError>| #[trigger]
            self.chooses(keys, choice) && self.advances_by(choice, after, r)
    }

    /// Whether `after` and `r` are what deciding the site `c` by the number
    /// `choice` makes of `self`: the site is narrowed to the pattern that
    /// `choice` selects among those it allows (or left as it is where
    /// `choice` is not below their total weight), and the worklist is
    /// drained.
    pub open spec fn observes_to(
        &self,
        c: (usize, usize),
        choice: u128,
        after: &OverlappingModel,
        r: Result<Option<(usize, usize)>, ModelError>,
    ) -> bool {
        let cell = self.wave()[c.0 as int][c.1 as int];
        let weights = count_weights(self.weights());
        exists|e: Option<(usize, usize)>|
            #[trigger] round_outcome(c, e) == r && (choice >= masked_total(weights, cell)
                ==> self.drains_to(after, e)) && forall|i: int| #[trigger]
                selects(weights, cell, choice as int, i) ==> exists|mid: OverlappingModel|
                    #[trigger] self.collapses_to(c.0 as int, c.1 as int, i, &mid) && mid.drains_to(
                        after,
                        e,
                    )
    }

    /// Drains the worklist and says how the round ended.
    fn settle(&mut self, c: (usize, usize)) -> (r: (
        Result<Option<(usize, usize)>, ModelError>,
        Ghost<Option<(usize, usize)>>,
    ))
        requires
            old(self).wf(),
        ensures
            final(self).wf(),
            old(self).drains_to(final(self), r.1@),
            r.0 == round_outcome(c, r.1@),
    {
        let emptied_site = self.propagate_changes();
        let outcome = match emptied_site {
            Some(e) => Err(ModelError::NoValidStates(e)),
            None => Ok(Some(c)),
        };
        (outcome, Ghost(emptied_site))
    }

    /// Decides the site `c` by the number `choice` and propagates the
    /// change. See `observes_to`.
    pub fn observe(&mut self, c: (usize, usize), choice: u128) -> (r: Result<
        Option<(usize, usize)>,
        ModelError,
    >)
        requires
            old(self).wf(),
            c.0 < old(self).wave().len(),
            c.1 < old(self).width(),
        ensures
            final(self).wf(),
            old(self).observes_to(c, choice, final(self), r),
            subwave(final(self).wave(), old(self).wave()),
            r is Ok ==> r == Ok::<Option<(usize, usize)>, ModelError>(Some(c))
                && final(self).quiescent(),
            r matches Err(e) ==> e matches ModelError::NoValidStates(site) && count_true(
                final(self).wave()[site.0 as int][site.1 as int],
            ) == 0,
    {
        let chosen = self.collapse_to(c, choice);
        let ghost mid = *self;
        let (r, Ghost(e)) = self.settle(c);
        proof {
            lemma_subwave_transitive(self.wave(), mid.wave(), old(self).wave());
            let cell = old(self).wave()[c.0 as int][c.1 as int];
            let weights = count_weights(old(self).weights());
            assert forall|i: int| #[trigger]
                selects(weights, cell, choice as int, i) implies exists|mid: OverlappingModel|
                #[trigger] old(self).collapses_to(c.0 as int, c.1 as int, i, &mid)
                    && mid.drains_to(final(self), e) by {
                lemma_masked_prefix_monotone(
                    weights,
                    cell,
                    i + 1,
                    weights.len() as int,
                );
                lemma_selects_unique(
                    weights,
                    cell,
                    choice as int,
                    i,
                    chosen->0 as int,
                );
                assert(old(self).collapses_to(c.0 as int, c.1 as int, i, &mid));
            }
            if choice >= masked_total(weights, cell) {
                assert(old(self).drains_to(final(self), e));
            }
            assert(round_outcome(c, e) == r);
        }
        r
    }

    /// One round of the solver: chooses the undecided site with the least
    /// key, narrows it to a pattern drawn by weight, and propagates the
    /// change. `Ok(None)` says that every site is decided; `Ok(Some(c))`
    /// that the site `c` was decided and propagation came to rest. See
    /// `advances_to`.
    pub fn collapse_and_propagate(&mut self, keys: &Vec<Vec<Option<u64>>>, rng: &mut StdRng) -> (r:
        Result<Option<(usize, usize)>, ModelError>)
        requires
            old(self).wf(),
            keys@.len() == old(self).wave().len(),
            forall|y: int|
                0 <= y < keys@.len() ==> (#[trigger] keys@[y])@.len() == old(self).width(),
        ensures
            final(self).wf(),
            old(self).advances_to(keys@, final(self), r),
            subwave(final(self).wave(), old(self).wave()),
            r matches Ok(None) ==> all_decided(final(self).wave()) && *final(self) == *old(self),
            r matches Ok(Some(c)) ==> final(self).quiescent() && count_true(
                final(self).wave()[c.0 as int][c.1 as int],
            ) == 1 && forall|y: int, x: int|
                in_wave(final(self).wave(), y, x) ==> count_true(
                    #[trigger] final(self).wave()[y][x],
                ) > 0,
            r is Err ==> r != Err::<Option<(usize, usize)>, ModelError>(
                ModelError::PatternExtractionEmpty,
            ) && r != Err::<Option<(usize, usize)>, ModelError>(ModelError::AllStatesDecided),
    {
        let choice = self.find_lowest_nonzero_entropy_coordinates(keys);
        proof {
            self.lemma_wf_shapes();
            assert(subwave(self.wave(), self.wave()));
        }
        let collapse_point = match choice {
            Ok(u) => u,
            Err(ModelError::AllStatesDecided) => {
                return Ok(None);
            },
            Err(e) => {
                return Err(e);
            },
        };
        proof {
            self.lemma_wave_in_bounds(collapse_point.0 as int, collapse_point.1 as int);
            lemma_count_true_zero(self.wave()[collapse_point.0 as int][collapse_point.1 as int]);
        }
        let chosen = self.pick_a_point_and_collapse(collapse_point, rng);
        let ghost mid = *self;
        let (r, Ghost(e)) = self.settle(collapse_point);
        proof {
            assert(old(self).collapses_to(
                collapse_point.0 as int,
                collapse_point.1 as int,
                chosen->0 as int,
                &mid,
            ));
            assert(mid.drains_to(final(self), e));
            assert(old(self).decides_to(collapse_point, final(self), r));
            assert(old(self).chooses(keys@, choice));
            let y = collapse_point.0 as int;
            let x = collapse_point.1 as int;
            let cut = only(old(self).patterns().len(), chosen->0 as int);
            lemma_with_cell_subwave(old(self).wave(), y, x, cut);
            lemma_subwave_transitive(self.wave(), mid.wave(), old(self).wave());
            lemma_count_true_single(cut, chosen->0 as int);
            if e is None {
                let rest = self.wave();
                assert(in_wave(mid.wave(), y, x));
                lemma_subwave_count(rest, mid.wave(), y, x);
                assert forall|y0: int, x0: int| in_wave(rest, y0, x0) implies count_true(
                    #[trigger] rest[y0][x0],
                ) > 0 by {
                    assert(in_wave(mid.wave(), y0, x0));
                    assert(in_wave(old(self).wave(), y0, x0));
                    assert(comes_before(y0, x0, old(self).wave().len() as int, 0));
                    assert(!old(self).stops_choice(keys@, y0, x0));
                    if !(y0 == y && x0 == x) {
                        assert(mid.wave()[y0][x0] == old(self).wave()[y0][x0]);
                    }
                }
            }
        }
        r
    }
}

} // verus!
