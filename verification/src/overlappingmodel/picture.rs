//! The picture of a wave.

use crate::consistency::in_wave;
use crate::grid::{Grid, grid_width};
use crate::overlappingmodel::OverlappingModel;
use crate::possibilitycell::shown_pixel;
use vstd::prelude::*;

verus! {

/// The entry at column `x0` of row `y0` stands, row after row, before the
/// end of row `y0`, and so before every later row.
proof fn lemma_flat_index(y0: int, x0: int, y: int, width: int)
    requires
        0 <= y0 < y,
        0 <= x0 < width,
    ensures
        0 <= y0 * width + x0 < y * width,
        y0 * width + width <= y * width,
        0 <= y0 * width,
{
    assert(0 <= y0 * width) by (nonlinear_arith)
        requires
            0 <= y0,
            0 <= width,
    ;
    assert(y0 * width + width <= y * width) by (nonlinear_arith)
        requires
            0 <= y0 < y,
            0 <= width,
    ;
}

impl OverlappingModel {
    /// Whether `out` is the picture of the wave: one pixel for each site,
    /// the top left pixel of the site's pattern where the site is decided,
    /// else `UNDECIDED_PIXEL`.
    pub open spec fn renders(&self, out: Seq<Seq<usize>>) -> bool {
        &&& out.len() == self.wave().len()
        &&& forall|y: int| 0 <= y < out.len() ==> (#[trigger] out[y]).len() == self.width()
        &&& forall|y: int, x: int|
            in_wave(self.wave(), y, x) ==> #[trigger] out[y][x] == shown_pixel(
                self.wave()[y][x],
                self.patterns(),
            )
    }

    /// The picture of the wave: for each site the pixel that it shows.
    pub fn to_pixels(&self) -> (r: Grid)
        requires
            self.wf(),
        ensures
            self.renders(r@),
            grid_width(r) == self.width(),
    {
        let (height, width) = self.model.dim();
        let ghost wave = self.wave();
        let ghost patterns = self.patterns();
        let mut data: Vec<usize> = Vec::new();
        let mut y: usize = 0;
        proof {
            self.lemma_wave_in_bounds(0, 0);
            assert(0 * width == 0) by (nonlinear_arith);
        }
        while y < height
            invariant
                y <= height,
                self.wf(),
                wave == self.wave(),
                patterns == self.patterns(),
                height == wave.len(),
                width == self.width(),
                data@.len() == y * width,
                forall|y0: int, x0: int|
                    0 <= y0 < y && 0 <= x0 < width ==> data@[#[trigger] (y0 * width + x0)]
                        == shown_pixel(wave[y0][x0], patterns),
            decreases height - y,
        {
            let mut x: usize = 0;
            while x < width
                invariant
                    x <= width,
                    y < height,
                    self.wf(),
                    wave == self.wave(),
                    patterns == self.patterns(),
                    height == wave.len(),
                    width == self.width(),
                    data@.len() == y * width + x,
                    forall|y0: int, x0: int|
                        0 <= y0 < y && 0 <= x0 < width ==> data@[#[trigger] (y0 * width + x0)]
                            == shown_pixel(wave[y0][x0], patterns),
                    forall|x0: int|
                        0 <= x0 < x ==> data@[#[trigger] (y * width + x0)] == shown_pixel(
                            wave[y as int][x0],
                            patterns,
                        ),
                decreases width - x,
            {
                proof {
                    self.lemma_wave_in_bounds(y as int, x as int);
                    self.lemma_patterns_nonempty();
                }
                let pixel = self.model.cell(y, x).to_output_state(&self.states);
                let ghost before = data@;
                data.push(pixel);
                proof {
                    assert forall|y0: int, x0: int|
                        0 <= y0 < y && 0 <= x0 < width implies data@[#[trigger] (y0 * width + x0)]
                        == shown_pixel(wave[y0][x0], patterns) by {
                        lemma_flat_index(y0, x0, y as int, width as int);
                        assert(data@[y0 * width + x0] == before[y0 * width + x0]);
                    }
                    assert forall|x0: int| 0 <= x0 < x + 1 implies data@[#[trigger] (y * width
                        + x0)] == shown_pixel(wave[y as int][x0], patterns) by {
                        if x0 < x {
                            assert(data@[y * width + x0] == before[y * width + x0]);
                        }
                    }
                }
                x += 1;
            }
            proof {
                assert((y + 1) * width == y * width + width) by (nonlinear_arith);
            }
            y += 1;
        }
        let ghost flat = data@;
        let picture = Grid::from_shape_vec((height, width), data);
        proof {
            assert(picture is Some);
            let out = picture->0@;
            assert forall|y0: int, x0: int| in_wave(wave, y0, x0) implies #[trigger] out[y0][x0]
                == shown_pixel(wave[y0][x0], patterns) by {
                self.lemma_wave_in_bounds(y0, x0);
                lemma_flat_index(y0, x0, height as int, width as int);
                assert(out[y0] == flat.subrange(y0 * width, y0 * width + width));
                assert(out[y0][x0] == flat[y0 * width + x0]);
            }
        }
        match picture {
            Some(picture) => picture,
            None => unreached(),
        }
    }
}

} // verus!
