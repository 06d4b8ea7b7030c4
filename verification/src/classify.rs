//! Classify coloured dots seen by a camera into grid head pairs.
//!
//! Each calibrated screen position is sampled by averaging a square window
//! of pixels; bright samples count as dots, and dots are paired greedily
//! by colour similarity.  An unpaired leftover dot is marked in the grid
//! with the reserved id `255`.

use vstd::prelude::*;

use crate::grid::Array2D;
use crate::image::Image;
use crate::solver::Heads;

verus! {

/// Where each grid cell sits on screen, and how dots are detected.
pub struct DotLocationInfo {
    /// Maps between coordinates on screen and coordinates on the grid.
    pub point_locations: Vec<([u32; 2], [u8; 2])>,
    pub dot_size: u32,
    pub brightness_thresh: u32,
}

/// The classifier's working limits: a usable dot size, screen positions
/// with room for the sampling window around them, and grid positions on
/// the 5 x 5 board.
pub open spec fn dot_info_wf(info: DotLocationInfo) -> bool {
    &&& 1 <= info.dot_size <= 1024
    &&& info.point_locations@.len() <= 508
    &&& forall|k: int|
        0 <= k < info.point_locations@.len() ==> {
            let p = #[trigger] info.point_locations@[k];
            &&& info.dot_size <= p.0[0]
            &&& p.0[0] + info.dot_size <= u32::MAX
            &&& info.dot_size <= p.0[1]
            &&& p.0[1] + info.dot_size <= u32::MAX
            &&& p.1[0] < 5
            &&& p.1[1] < 5
        }
}

impl DotLocationInfo {
    /// Mark every calibrated dot position on the image with a white square.
    pub fn draw_dots<I: Image>(&self, img: &mut I)
        requires
            dot_info_wf(*self),
    {
        let mut i: usize = 0;
        while i < self.point_locations.len()
            invariant
                dot_info_wf(*self),
                i <= self.point_locations@.len(),
            decreases self.point_locations@.len() - i,
        {
            let p = self.point_locations[i];
            img.draw_rect(self.dot_size, p.0[0], p.0[1], [255, 255, 255]);
            i += 1;
        }
    }
}

/// Squared Euclidean distance between two colours.
pub open spec fn colour_dist2(a: [u8; 3], b: [u8; 3]) -> int {
    (a@[0] - b@[0]) * (a@[0] - b@[0]) + (a@[1] - b@[1]) * (a@[1] - b@[1]) + (a@[2] - b@[2]) * (
    a@[2] - b@[2])
}

/// How bright a colour is: the plain sum of its channels.
pub open spec fn brightness_of(x: [u8; 3]) -> int {
    x@[0] + x@[1] + x@[2]
}

/// Squared Euclidean distance between two colours.
pub fn pythag(a: [u8; 3], b: [u8; 3]) -> (r: i32)
    ensures
        r == colour_dist2(a, b),
{
    let d0 = a[0] as i32 - b[0] as i32;
    let d1 = a[1] as i32 - b[1] as i32;
    let d2 = a[2] as i32 - b[2] as i32;
    proof {
        assert(0 <= d0 * d0 <= 65025 && 0 <= d1 * d1 <= 65025 && 0 <= d2 * d2 <= 65025)
            by (nonlinear_arith)
            requires
                -255 <= d0 <= 255,
                -255 <= d1 <= 255,
                -255 <= d2 <= 255,
        ;
    }
    d0 * d0 + d1 * d1 + d2 * d2
}

/// The plain sum of a colour's channels.
pub fn brightness(x: [u8; 3]) -> (r: u32)
    ensures
        r == brightness_of(x),
{
    x[0] as u32 + x[1] as u32 + x[2] as u32
}

/// Average the colour of the sampling window centred on `(cx, cy)`.
fn sample_window<I: Image>(img: &I, cx: u32, cy: u32, size: u32) -> (r: [u8; 3])
    requires
        1 <= size <= 1024,
        size <= cx,
        cx + size <= u32::MAX,
        size <= cy,
        cy + size <= u32::MAX,
{
    let ghost s2 = 2 * size as int;
    let x0 = cx - size;
    let x1 = cx + size;
    let y0 = cy - size;
    let y1 = cy + size;
    let mut c0: u32 = 0;
    let mut c1: u32 = 0;
    let mut c2: u32 = 0;
    let mut x = x0;
    while x < x1
        invariant
            x0 <= x <= x1,
            x1 == x0 + s2,
            y1 == y0 + s2,
            2 <= s2 <= 2048,
            c0 <= 255 * ((x - x0) * s2),
            c1 <= 255 * ((x - x0) * s2),
            c2 <= 255 * ((x - x0) * s2),
        decreases x1 - x,
    {
        let mut y = y0;
        while y < y1
            invariant
                x0 <= x < x1,
                y0 <= y <= y1,
                x1 == x0 + s2,
                y1 == y0 + s2,
                2 <= s2 <= 2048,
                c0 <= 255 * ((x - x0) * s2 + (y - y0)),
                c1 <= 255 * ((x - x0) * s2 + (y - y0)),
                c2 <= 255 * ((x - x0) * s2 + (y - y0)),
            decreases y1 - y,
        {
            proof {
                assert((x - x0) * s2 + (y - y0) + 1 <= s2 * s2) by (nonlinear_arith)
                    requires
                        2 <= s2,
                        0 <= x - x0 <= s2 - 1,
                        0 <= y - y0 <= s2 - 1,
                ;
                assert(255 * ((x - x0) * s2 + (y - y0) + 1) <= 255 * (s2 * s2))
                    by (nonlinear_arith)
                    requires
                        (x - x0) * s2 + (y - y0) + 1 <= s2 * s2,
                ;
                assert(255 * (s2 * s2) <= 255 * 2048 * 2048) by (nonlinear_arith)
                    requires
                        2 <= s2 <= 2048,
                ;
            }
            let px = img.read_pixel(x, y);
            c0 = c0 + px[0] as u32;
            c1 = c1 + px[1] as u32;
            c2 = c2 + px[2] as u32;
            y = y + 1;
        }
        proof {
            assert(255 * ((x - x0) * s2 + s2) == 255 * ((x + 1 - x0) * s2)) by (nonlinear_arith)
                requires
                    true,
            ;
        }
        x = x + 1;
    }
    proof {
        assert(255 * ((x1 - x0) * s2) == 255 * (s2 * s2)) by (nonlinear_arith)
            requires
                x1 - x0 == s2,
        ;
        assert(255 * (s2 * s2) <= 255 * 2048 * 2048) by (nonlinear_arith)
            requires
                2 <= s2 <= 2048,
        ;
    }
    proof {
        assert(4 <= size as int * size as int * 4 <= 0x400000) by (nonlinear_arith)
            requires
                1 <= size as int <= 1024,
        ;
    }
    let den = size * size * 4;
    proof {
        assert((2 * (size as int)) * (2 * (size as int)) == size as int * size as int * 4)
            by (nonlinear_arith);
        assert(den as int == s2 * s2);
        assert(c0 as int <= 255 * (den as int));
        assert(c1 as int <= 255 * (den as int));
        assert(c2 as int <= 255 * (den as int));
        lemma_avg_byte(c0 as int, den as int);
        lemma_avg_byte(c1 as int, den as int);
        lemma_avg_byte(c2 as int, den as int);
    }
    let a0 = c0 / den;
    let a1 = c1 / den;
    let a2 = c2 / den;
    [a0 as u8, a1 as u8, a2 as u8]
}

/// An average of bytes is a byte.
proof fn lemma_avg_byte(c: int, den: int)
    requires
        1 <= den,
        c <= 255 * den,
        0 <= c,
    ensures
        0 <= c / den <= 255,
{
    assert(0 <= c / den <= 255) by (nonlinear_arith)
        requires
            1 <= den,
            0 <= c <= 255 * den,
    ;
}

/// The grid position configured for calibration point `k`.
pub open spec fn grid_pos_of(p: ([u32; 2], [u8; 2]), k: int) -> isize {
    p.1[k] as isize
}

/// `pr` joins the configured grid positions of two distinct calibration
/// points.
pub open spec fn pair_from_points(
    pr: ((isize, isize), (isize, isize)),
    pts: Seq<([u32; 2], [u8; 2])>,
) -> bool {
    exists|i1: int, i2: int|
        #![trigger pts[i1], pts[i2]]
        {
            &&& 0 <= i1 < pts.len()
            &&& 0 <= i2 < pts.len()
            &&& i1 != i2
            &&& pr == (
                (grid_pos_of(pts[i1], 0), grid_pos_of(pts[i1], 1)),
                (grid_pos_of(pts[i2], 0), grid_pos_of(pts[i2], 1)),
            )
        }
}

/// Sample every calibrated position, keep the bright dots, and pair them
/// greedily by colour: the most similar remaining dot joins the last one,
/// and each pair is painted into a fresh 5 x 5 grid under a new colour id.
/// An odd leftover dot is stored as the reserved id `255`.
#[verifier::loop_isolation(false)]
pub fn get_map_layout<I: Image>(info: &DotLocationInfo, img: &I) -> (r: (Array2D, Heads))
    requires
        dot_info_wf(*info),
    ensures
        r.0.wf(),
        r.0.spec_width() == 5,
        r.0.spec_height() == 5,
        2 * r.1@.len() <= info.point_locations@.len(),
        r.1@.len() <= 254,
        forall|k: int|
            0 <= k < r.1@.len() ==> {
                let pr = #[trigger] r.1@[k];
                &&& 0 <= pr.0.0 < 5
                &&& 0 <= pr.0.1 < 5
                &&& 0 <= pr.1.0 < 5
                &&& 0 <= pr.1.1 < 5
            },
        forall|k: int|
            0 <= k < r.1@.len() ==> pair_from_points(
                #[trigger] r.1@[k],
                info.point_locations@,
            ),
{
    let n = info.point_locations.len();
    let mut rgbs: Vec<(usize, [u8; 3])> = Vec::new();
    let mut i: usize = 0;
    while i < n
        invariant
            i <= n,
            n == info.point_locations@.len(),
            rgbs@.len() <= i,
            forall|k: int| 0 <= k < rgbs@.len() ==> (#[trigger] rgbs@[k]).0 < n,
            forall|k1: int, k2: int|
                0 <= k1 < k2 < rgbs@.len() ==> (#[trigger] rgbs@[k1]).0 < (
                #[trigger] rgbs@[k2]).0,
            forall|k: int| 0 <= k < rgbs@.len() ==> (#[trigger] rgbs@[k]).0 < i,
        decreases n - i,
    {
        let p = info.point_locations[i];
        let col = sample_window(img, p.0[0], p.0[1], info.dot_size);
        if brightness(col) > info.brightness_thresh {
            rgbs.push((i, col));
        }
        i += 1;
    }
    let ghost bright = rgbs@.len();
    let mut grid = Array2D::new(5, 5);
    let mut pairs: Heads = Vec::new();
    let mut id: u8 = 1;
    while rgbs.len() >= 2
        invariant
            grid.wf(),
            grid.spec_width() == 5,
            grid.spec_height() == 5,
            n == info.point_locations@.len(),
            bright <= n <= 508,
            2 * pairs@.len() + rgbs@.len() == bright,
            id == pairs@.len() + 1,
            forall|k: int| 0 <= k < rgbs@.len() ==> (#[trigger] rgbs@[k]).0 < n,
            forall|k1: int, k2: int|
                0 <= k1 < k2 < rgbs@.len() ==> (#[trigger] rgbs@[k1]).0 < (
                #[trigger] rgbs@[k2]).0,
            forall|k: int|
                0 <= k < pairs@.len() ==> {
                    let pr = #[trigger] pairs@[k];
                    &&& 0 <= pr.0.0 < 5
                    &&& 0 <= pr.0.1 < 5
                    &&& 0 <= pr.1.0 < 5
                    &&& 0 <= pr.1.1 < 5
                },
            forall|k: int|
                0 <= k < pairs@.len() ==> pair_from_points(
                    #[trigger] pairs@[k],
                    info.point_locations@,
                ),
        decreases rgbs@.len(),
    {
        let last_elem = rgbs[rgbs.len() - 1];
        let mut best_j: usize = 0;
        let mut best_d = pythag(rgbs[0].1, last_elem.1);
        let mut j: usize = 1;
        while j < rgbs.len() - 1
            invariant
                rgbs@.len() >= 2,
                j <= rgbs@.len() - 1,
                best_j < j || best_j == 0,
                best_j < rgbs@.len() - 1,
            decreases rgbs@.len() - 1 - j,
        {
            let d = pythag(rgbs[j].1, last_elem.1);
            if d < best_d {
                best_d = d;
                best_j = j;
            }
            j += 1;
        }
        let pair_index = rgbs[best_j].0;
        proof {
            assert(pair_index != last_elem.0);
        }
        let ghost before = rgbs@;
        rgbs.remove(best_j);
        proof {
            assert forall|k1: int, k2: int|
                0 <= k1 < k2 < rgbs@.len() implies (#[trigger] rgbs@[k1]).0 < (
            #[trigger] rgbs@[k2]).0 by {
                assert(rgbs@[k1] == if k1 < best_j {
                    before[k1]
                } else {
                    before[k1 + 1]
                });
                assert(rgbs@[k2] == if k2 < best_j {
                    before[k2]
                } else {
                    before[k2 + 1]
                });
            }
        }
        rgbs.pop();
        let locs0 = info.point_locations[last_elem.0].1;
        let locs1 = info.point_locations[pair_index].1;
        grid.write(locs0[0] as isize, locs0[1] as isize, id);
        grid.write(locs1[0] as isize, locs1[1] as isize, id);
        pairs.push(
            (
                (locs0[0] as isize, locs0[1] as isize),
                (locs1[0] as isize, locs1[1] as isize),
            ),
        );
        proof {
            let pts = info.point_locations@;
            let i1 = last_elem.0 as int;
            let i2 = pair_index as int;
            assert(0 <= i1 < pts.len() && 0 <= i2 < pts.len() && i1 != i2 && pairs@[pairs@.len()
                - 1] == (
                (grid_pos_of(pts[i1], 0), grid_pos_of(pts[i1], 1)),
                (grid_pos_of(pts[i2], 0), grid_pos_of(pts[i2], 1)),
            ));
            assert(pair_from_points(pairs@[pairs@.len() - 1], pts));
        }
        id = id + 1;
    }
    if rgbs.len() > 0 {
        let leftover = rgbs[0];
        let locs = info.point_locations[leftover.0].1;
        grid.write(locs[0] as isize, locs[1] as isize, 255);
    }
    (grid, pairs)
}

} // verus!
