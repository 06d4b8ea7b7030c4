//! An RGBA thumbnail of a 5 x 5 grid, for on-screen display.

use vstd::prelude::*;

use crate::grid::Array2D;

verus! {

/// A 5 x 5 grid rendered as 25 RGBA pixels, row-major, 4 bytes per pixel.
pub struct GridRepresentation {
    pub image: [u8; 100],
}

/// One of the eight palette colours, cycling by colour id.
pub open spec fn palette_rgb(i: int) -> (u8, u8, u8) {
    if i == 0 {
        (255, 0, 0)
    } else if i == 1 {
        (0, 0, 255)
    } else if i == 2 {
        (0, 255, 0)
    } else if i == 3 {
        (255, 255, 0)
    } else if i == 4 {
        (255, 0, 255)
    } else if i == 5 {
        (0, 255, 255)
    } else {
        (125, 255, 125)
    }
}

/// The display colour of one cell value: black for an empty cell, white
/// for the reserved id, a palette colour otherwise.
pub open spec fn cell_rgb(v: u8) -> (u8, u8, u8) {
    if v == 0 {
        (0, 0, 0)
    } else if v == 255 {
        (255, 255, 255)
    } else {
        palette_rgb(v as int % 8)
    }
}

/// Byte `p` of the rendered thumbnail of `g`.
pub open spec fn thumb_byte(g: Array2D, p: int) -> u8 {
    let c = cell_rgb(g.cell((p / 4) % 5, (p / 4) / 5));
    if p % 4 == 0 {
        c.0
    } else if p % 4 == 1 {
        c.1
    } else if p % 4 == 2 {
        c.2
    } else {
        100
    }
}

fn palette(v: u8) -> (c: (u8, u8, u8))
    requires
        v != 0,
        v != 255,
    ensures
        c == cell_rgb(v),
{
    match v % 8 {
        0 => (255, 0, 0),
        1 => (0, 0, 255),
        2 => (0, 255, 0),
        3 => (255, 255, 0),
        4 => (255, 0, 255),
        5 => (0, 255, 255),
        _ => (125, 255, 125),
    }
}

impl GridRepresentation {
    /// An all-black, fully transparent thumbnail.
    pub fn empty() -> (r: Self)
        ensures
            forall|p: int| 0 <= p < 100 ==> #[trigger] r.image@[p] == 0,
    {
        Self { image: [0;100] }
    }

    /// Redraw the thumbnail from the top-left 5 x 5 window of `grid`
    /// (cells beyond the grid read as the reserved id and render white).
    #[verifier::loop_isolation(false)]
    pub fn update(&mut self, grid: &Array2D)
        requires
            grid.wf(),
        ensures
            forall|p: int| 0 <= p < 100 ==> #[trigger] final(self).image@[p] == thumb_byte(
                *grid,
                p,
            ),
    {
        let mut i: usize = 0;
        while i < 25
            invariant
                i <= 25,
                self.image@.len() == 100,
                forall|p: int| 0 <= p < 4 * i ==> #[trigger] self.image@[p] == thumb_byte(
                    *grid,
                    p,
                ),
            decreases 25 - i,
        {
            let x = (i % 5) as isize;
            let y = (i / 5) as isize;
            let v = grid.read(x, y);
            let c = if v == 0 {
                (0, 0, 0)
            } else if v == 255 {
                (255, 255, 255)
            } else {
                palette(v)
            };
            self.image[4 * i] = c.0;
            self.image[4 * i + 1] = c.1;
            self.image[4 * i + 2] = c.2;
            self.image[4 * i + 3] = 100;
            proof {
                assert forall|p: int| 0 <= p < 4 * (i + 1) implies #[trigger] self.image@[p]
                    == thumb_byte(*grid, p) by {
                    if p >= 4 * i {
                        assert(p / 4 == i);
                        assert((p / 4) % 5 == i % 5 && (p / 4) / 5 == i / 5);
                    }
                }
            }
            i += 1;
        }
    }
}

} // verus!
