//! The choice of the site to decide next, by keys that the caller hands in.

use crate::bitset::count_true;
use crate::consistency::{all_decided, in_wave};
use crate::overlappingmodel::{ModelError, OverlappingModel};
use crate::shape::comes_before;
use vstd::prelude::*;

verus! {

impl OverlappingModel {
    /// Whether the site `(y, x)` stops the choice of a site: it allows no
    /// pattern, or it is undecided and its key is not a number.
    pub open spec fn stops_choice(&self, keys: Seq<Vec<Option<u64>>>, y: int, x: int) -> bool {
        count_true(self.wave()[y][x]) == 0 || (count_true(self.wave()[y][x]) >= 2
            && keys[y]@[x] is None)
    }

    /// Whether no site that comes before `(y, x)`, row by row, stops the
    /// choice.
    pub open spec fn none_stops_before(&self, keys: Seq<Vec<Option<u64>>>, y: int, x: int) -> bool {
        forall|y0: int, x0: int|
            in_wave(self.wave(), y0, x0) && comes_before(y0, x0, y, x)
                ==> !#[trigger] self.stops_choice(keys, y0, x0)
    }

    /// Whether the undecided site `(y, x)` has the least key among the
    /// undecided sites that come before `(by, bx)`, and comes first among
    /// those with that key.
    pub open spec fn least_before(
        &self,
        keys: Seq<Vec<Option<u64>>>,
        y: int,
        x: int,
        by: int,
        bx: int,
    ) -> bool {
        &&& in_wave(self.wave(), y, x)
        &&& comes_before(y, x, by, bx)
        &&& count_true(self.wave()[y][x]) >= 2
        &&& keys[y]@[x] is Some
        &&& forall|y0: int, x0: int|
            in_wave(self.wave(), y0, x0) && comes_before(y0, x0, by, bx) && count_true(
                #[trigger] self.wave()[y0][x0],
            ) >= 2 ==> keys[y0]@[x0] is Some && (keys[y]@[x]->0 < keys[y0]@[x0]->0 || (keys[y]@[x]->0
                == keys[y0]@[x0]->0 && !comes_before(y0, x0, y, x)))
    }

    /// Whether `r` is the outcome of choosing a site by `keys`. The sites
    /// are looked at row by row. The first that allows no pattern, or is
    /// undecided with a key that is not a number, ends the search with its
    /// error. Without such a site, the undecided site with the least key is
    /// chosen, the earliest among equals; and if no site is undecided, all
    /// are decided.
    pub open spec fn chooses(
        &self,
        keys: Seq<Vec<Option<u64>>>,
        r: Result<(usize, usize), ModelError>,
    ) -> bool {
        let h = self.wave().len() as int;
        match r {
            Err(ModelError::NoValidStates(c)) => in_wave(self.wave(), c.0 as int, c.1 as int)
                && count_true(self.wave()[c.0 as int][c.1 as int]) == 0 && self.none_stops_before(
                keys,
                c.0 as int,
                c.1 as int,
            ),
            Err(ModelError::UnexpectedNaN(c)) => in_wave(self.wave(), c.0 as int, c.1 as int)
                && count_true(self.wave()[c.0 as int][c.1 as int]) >= 2
                && keys[c.0 as int]@[c.1 as int] is None
                && self.none_stops_before(keys, c.0 as int, c.1 as int),
            Err(ModelError::AllStatesDecided) => all_decided(self.wave()),
            Err(ModelError::PatternExtractionEmpty) => false,
            Ok(c) => self.none_stops_before(keys, h, 0) && self.least_before(
                keys,
                c.0 as int,
                c.1 as int,
                h,
                0,
            ),
        }
    }

    /// The choice has one outcome only.
    pub proof fn lemma_choice_unique(
        &self,
        keys: Seq<Vec<Option<u64>>>,
        a: Result<(usize, usize), ModelError>,
        b: Result<(usize, usize), ModelError>,
    )
        requires
            self.chooses(keys, a),
            self.chooses(keys, b),
        ensures
            a == b,
    {
        let h = self.wave().len() as int;
        let stop_a = self.stopping_site(a);
        let stop_b = self.stopping_site(b);
        if stop_a is Some {
            let c = stop_a->0;
            assert(self.stops_choice(keys, c.0 as int, c.1 as int));
            assert(comes_before(c.0 as int, c.1 as int, h, 0));
        }
        if stop_b is Some {
            let c = stop_b->0;
            assert(self.stops_choice(keys, c.0 as int, c.1 as int));
            assert(comes_before(c.0 as int, c.1 as int, h, 0));
        }
        if stop_a is Some && stop_b is Some {
            let c = stop_a->0;
            let d = stop_b->0;
            if comes_before(c.0 as int, c.1 as int, d.0 as int, d.1 as int) {
                assert(!self.stops_choice(keys, c.0 as int, c.1 as int));
            }
            if comes_before(d.0 as int, d.1 as int, c.0 as int, c.1 as int) {
                assert(!self.stops_choice(keys, d.0 as int, d.1 as int));
            }
            assert(c == d);
        }
        if a is Ok && b is Ok {
            let c = a->Ok_0;
            let d = b->Ok_0;
            assert(self.least_before(keys, c.0 as int, c.1 as int, h, 0));
            assert(self.least_before(keys, d.0 as int, d.1 as int, h, 0));
            assert(c == d);
        }
    }

    /// The site at which the choice stopped, if `r` says that it did.
    pub open spec fn stopping_site(&self, r: Result<(usize, usize), ModelError>) -> Option<
        (usize, usize),
    > {
        match r {
            Err(ModelError::NoValidStates(c)) => Some(c),
            Err(ModelError::UnexpectedNaN(c)) => Some(c),
            _ => None,
        }
    }

    /// The site to decide next: the undecided site with the least key. See
    /// `chooses` for the errors.
    pub fn find_lowest_nonzero_entropy_coordinates(&self, keys: &Vec<Vec<Option<u64>>>) -> (r:
        Result<(usize, usize), ModelError>)
        requires
            self.wf(),
            keys@.len() == self.wave().len(),
            forall|y: int| 0 <= y < keys@.len() ==> (#[trigger] keys@[y])@.len() == self.width(),
        ensures
            self.chooses(keys@, r),
    {
        let (height, width) = self.model.dim();
        let ghost wave = self.wave();
        let mut output: Option<(usize, usize)> = None;
        let mut least: u64 = 0;
        let mut y: usize = 0;
        proof {
            self.lemma_wave_in_bounds(0, 0);
        }
        while y < height
            invariant
                y <= height,
                self.wf(),
                wave == self.wave(),
                height == wave.len(),
                width == self.width(),
                keys@.len() == height,
                forall|y0: int| 0 <= y0 < keys@.len() ==> (#[trigger] keys@[y0])@.len() == width,
                self.none_stops_before(keys@, y as int, 0),
                output is None ==> forall|y0: int, x0: int|
                    in_wave(wave, y0, x0) && comes_before(y0, x0, y as int, 0) ==> count_true(
                        #[trigger] wave[y0][x0],
                    ) == 1,
                output matches Some(c) ==> self.least_before(
                    keys@,
                    c.0 as int,
                    c.1 as int,
                    y as int,
                    0,
                ) && keys@[c.0 as int]@[c.1 as int] == Some(least),
            decreases height - y,
        {
            let mut x: usize = 0;
            while x < width
                invariant
                    x <= width,
                    y < height,
                    self.wf(),
                    wave == self.wave(),
                    height == wave.len(),
                    width == self.width(),
                    keys@.len() == height,
                    forall|y0: int|
                        0 <= y0 < keys@.len() ==> (#[trigger] keys@[y0])@.len() == width,
                    self.none_stops_before(keys@, y as int, x as int),
                    output is None ==> forall|y0: int, x0: int|
                        in_wave(wave, y0, x0) && comes_before(y0, x0, y as int, x as int)
                            ==> count_true(#[trigger] wave[y0][x0]) == 1,
                    output matches Some(c) ==> self.least_before(
                        keys@,
                        c.0 as int,
                        c.1 as int,
                        y as int,
                        x as int,
                    ) && keys@[c.0 as int]@[c.1 as int] == Some(least),
                decreases width - x,
            {
                proof {
                    self.lemma_wave_in_bounds(y as int, x as int);
                }
                let allowed = self.model.cell(y, x).popcount();
                if allowed == 0 {
                    return Err(ModelError::NoValidStates((y, x)));
                }
                if allowed >= 2 {
                    match keys[y][x] {
                        None => {
                            return Err(ModelError::UnexpectedNaN((y, x)));
                        },
                        Some(key) => {
                            let better = match output {
                                None => true,
                                Some(_) => key < least,
                            };
                            if better {
                                proof {
                                    assert forall|y0: int, x0: int|
                                        in_wave(wave, y0, x0) && comes_before(
                                            y0,
                                            x0,
                                            y as int,
                                            x + 1,
                                        ) && count_true(#[trigger] wave[y0][x0])
                                            >= 2 implies keys@[y0]@[x0] is Some && (key
                                        < keys@[y0]@[x0]->0 || (key == keys@[y0]@[x0]->0
                                        && !comes_before(y0, x0, y as int, x as int))) by {
                                        if comes_before(y0, x0, y as int, x as int) {
                                            if output is Some {
                                                let c = output->0;
                                                assert(self.least_before(
                                                    keys@,
                                                    c.0 as int,
                                                    c.1 as int,
                                                    y as int,
                                                    x as int,
                                                ));
                                            }
                                        }
                                    }
                                }
                                output = Some((y, x));
                                least = key;
                            } else {
                                proof {
                                    let c = output->0;
                                    assert(self.least_before(
                                        keys@,
                                        c.0 as int,
                                        c.1 as int,
                                        y as int,
                                        x as int,
                                    ));
                                    assert forall|y0: int, x0: int|
                                        in_wave(wave, y0, x0) && comes_before(
                                            y0,
                                            x0,
                                            y as int,
                                            x + 1,
                                        ) && count_true(#[trigger] wave[y0][x0])
                                            >= 2 implies keys@[y0]@[x0] is Some && (least
                                        < keys@[y0]@[x0]->0 || (least == keys@[y0]@[x0]->0
                                        && !comes_before(y0, x0, c.0 as int, c.1 as int))) by {}
                                }
                            }
                        },
                    }
                }
                proof {
                    assert forall|y0: int, x0: int|
                        in_wave(wave, y0, x0) && comes_before(
                            y0,
                            x0,
                            y as int,
                            x + 1,
                        ) implies !#[trigger] self.stops_choice(keys@, y0, x0) by {
                        if comes_before(y0, x0, y as int, x as int) {
                        }
                    }
                }
                x += 1;
            }
            proof {
                assert forall|y0: int, x0: int|
                    in_wave(wave, y0, x0) && comes_before(
                        y0,
                        x0,
                        y + 1,
                        0,
                    ) implies !#[trigger] self.stops_choice(keys@, y0, x0) by {
                    self.lemma_wave_in_bounds(y0, x0);
                    assert(comes_before(y0, x0, y as int, width as int));
                }
                if output is None {
                    assert forall|y0: int, x0: int|
                        in_wave(wave, y0, x0) && comes_before(y0, x0, y + 1, 0) implies count_true(
                        #[trigger] wave[y0][x0],
                    ) == 1 by {
                        self.lemma_wave_in_bounds(y0, x0);
                        assert(comes_before(y0, x0, y as int, width as int));
                    }
                } else {
                    let c = output->0;
                    assert(self.least_before(
                        keys@,
                        c.0 as int,
                        c.1 as int,
                        y as int,
                        width as int,
                    ));
                    assert forall|y0: int, x0: int|
                        in_wave(wave, y0, x0) && comes_before(y0, x0, y + 1, 0) && count_true(
                            #[trigger] wave[y0][x0],
                        ) >= 2 implies keys@[y0]@[x0] is Some && (least < keys@[y0]@[x0]->0 || (
                    least == keys@[y0]@[x0]->0 && !comes_before(y0, x0, c.0 as int, c.1 as int))) by {
                        self.lemma_wave_in_bounds(y0, x0);
                        assert(comes_before(y0, x0, y as int, width as int));
                    }
                }
            }
            y += 1;
        }
        match output {
            None => {
                proof {
                    assert forall|y0: int, x0: int| in_wave(wave, y0, x0) implies count_true(
                        #[trigger] wave[y0][x0],
                    ) == 1 by {
                        assert(comes_before(y0, x0, height as int, 0));
                    }
                }
                Err(ModelError::AllStatesDecided)
            },
            Some(u) => Ok(u),
        }
    }
}

} // verus!
