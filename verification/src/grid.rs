//! A fixed-size two-dimensional byte matrix with explicit boundary semantics.
//!
//! Cell values are colour ids: `0` marks an empty cell, `1..=254` identify a
//! flow, and `255` is reserved — a read outside the bounds always yields it,
//! and it may be stored deliberately to mark a discarded leftover endpoint.
//! Reads never fail; writes are defined for in-bounds coordinates only.

use vstd::prelude::*;

verus! {

pub struct Array2D {
    data: Vec<u8>,
    width: usize,
    height: usize,
}

impl Array2D {
    pub closed spec fn spec_width(&self) -> int {
        self.width as int
    }

    pub closed spec fn spec_height(&self) -> int {
        self.height as int
    }

    pub closed spec fn wf(&self) -> bool {
        &&& 1 <= self.width
        &&& 1 <= self.height
        &&& self.width * self.height <= isize::MAX as int
        &&& self.data@.len() == self.width * self.height
    }

    pub open spec fn in_bounds(&self, x: int, y: int) -> bool {
        0 <= x < self.spec_width() && 0 <= y < self.spec_height()
    }

    /// The value stored at `(x, y)`, or the sentinel `255` when `(x, y)`
    /// lies outside the grid.
    pub closed spec fn cell(&self, x: int, y: int) -> u8 {
        if self.in_bounds(x, y) {
            self.data@[y * self.spec_width() + x]
        } else {
            255
        }
    }

    /// How many cells currently hold a non-zero value.
    pub closed spec fn nonzero_count(&self) -> int {
        count_nonzero(self.data@)
    }

    /// The raw cell values in row-major order.
    pub closed spec fn contents(&self) -> Seq<u8> {
        self.data@
    }

    pub fn new(width: usize, height: usize) -> (r: Array2D)
        requires
            1 <= width,
            1 <= height,
            width * height <= isize::MAX as int,
        ensures
            r.wf(),
            r.spec_width() == width,
            r.spec_height() == height,
            forall|x: int, y: int| r.in_bounds(x, y) ==> #[trigger] r.cell(x, y) == 0,
            r.nonzero_count() == 0,
    {
        let n = width * height;
        let mut data: Vec<u8> = Vec::new();
        let mut i: usize = 0;
        while i < n
            invariant
                i <= n,
                data@.len() == i,
                forall|k: int| 0 <= k < i ==> #[trigger] data@[k] == 0,
                count_nonzero(data@) == 0,
            decreases n - i,
        {
            let ghost prev = data@;
            data.push(0);
            proof {
                assert(data@.drop_last() =~= prev);
            }
            i += 1;
        }
        let r = Array2D { data, width, height };
        proof {
            assert forall|x: int, y: int| r.in_bounds(x, y) implies #[trigger] r.cell(x, y)
                == 0 by {
                lemma_row_major_in_range(width as int, height as int, x, y);
            }
        }
        r
    }

    pub fn width(&self) -> (w: usize)
        ensures
            w == self.spec_width(),
    {
        self.width
    }

    pub fn height(&self) -> (h: usize)
        ensures
            h == self.spec_height(),
    {
        self.height
    }

    /// Bounds-aware read: any out-of-range coordinate yields `255`.
    pub fn read(&self, x: isize, y: isize) -> (v: u8)
        requires
            self.wf(),
        ensures
            v == self.cell(x as int, y as int),
    {
        if x < 0 || y < 0 {
            return 255;
        }
        let xu = x as usize;
        let yu = y as usize;
        if xu >= self.width || yu >= self.height {
            return 255;
        }
        proof {
            lemma_row_major_in_range(
                self.spec_width(),
                self.spec_height(),
                xu as int,
                yu as int,
            );
        }
        self.data[yu * self.width + xu]
    }

    /// Write to an in-bounds cell.  An out-of-bounds write is a contract
    /// violation, not a recoverable error.
    pub fn write(&mut self, x: isize, y: isize, val: u8)
        requires
            old(self).wf(),
            old(self).in_bounds(x as int, y as int),
        ensures
            final(self).wf(),
            final(self).spec_width() == old(self).spec_width(),
            final(self).spec_height() == old(self).spec_height(),
            final(self).cell(x as int, y as int) == val,
            forall|a: int, b: int|
                !(a == x as int && b == y as int) ==> #[trigger] final(self).cell(a, b) == old(
                    self,
                ).cell(a, b),
            final(self).nonzero_count() == old(self).nonzero_count() - (if old(self).cell(
                x as int,
                y as int,
            ) != 0 {
                1int
            } else {
                0int
            }) + (if val != 0 {
                1int
            } else {
                0int
            }),
            final(self).contents() == old(self).contents().update(
                (y as int) * old(self).spec_width() + x as int,
                val,
            ),
    {
        let xu = x as usize;
        let yu = y as usize;
        proof {
            lemma_row_major_in_range(
                self.spec_width(),
                self.spec_height(),
                xu as int,
                yu as int,
            );
        }
        let idx = yu * self.width + xu;
        let ghost prev = self.data@;
        self.data.set(idx, val);
        proof {
            lemma_count_nonzero_update(prev, idx as int, val);
            assert forall|a: int, b: int|
                !(a == x as int && b == y as int) implies #[trigger] self.cell(a, b) == old(
                self,
            ).cell(a, b) by {
                if old(self).in_bounds(a, b) {
                    lemma_row_major_in_range(self.spec_width(), self.spec_height(), a, b);
                    lemma_row_major_injective(
                        self.spec_width(),
                        a,
                        b,
                        x as int,
                        y as int,
                    );
                }
            }
        }
    }

    /// Row-major convenience write used while populating a fresh grid.
    pub fn set_abs(&mut self, offset: usize, val: u8)
        requires
            old(self).wf(),
            offset < old(self).spec_width() * old(self).spec_height(),
        ensures
            final(self).wf(),
            final(self).spec_width() == old(self).spec_width(),
            final(self).spec_height() == old(self).spec_height(),
            final(self).cell(
                offset as int % old(self).spec_width(),
                offset as int / old(self).spec_width(),
            ) == val,
            forall|a: int, b: int|
                !(a == offset as int % old(self).spec_width() && b == offset as int / old(
                    self,
                ).spec_width()) ==> #[trigger] final(self).cell(a, b) == old(self).cell(a, b),
    {
        proof {
            lemma_row_major_split(self.spec_width(), self.spec_height(), offset as int);
        }
        let x = offset % self.width;
        let y = offset / self.width;
        self.data.set(offset, val);
        proof {
            assert(y * self.spec_width() + x == offset as int);
            assert forall|a: int, b: int|
                !(a == offset as int % old(self).spec_width() && b == offset as int / old(
                    self,
                ).spec_width()) implies #[trigger] self.cell(a, b) == old(self).cell(a, b) by {
                if old(self).in_bounds(a, b) {
                    lemma_row_major_in_range(self.spec_width(), self.spec_height(), a, b);
                    lemma_row_major_injective(self.spec_width(), a, b, x as int, y as int);
                }
            }
        }
    }

    /// Whether any cell is still empty (holds `0`).
    pub fn contains_zeroes(&self) -> (r: bool)
        requires
            self.wf(),
        ensures
            r <==> exists|x: int, y: int| self.in_bounds(x, y) && #[trigger] self.cell(x, y) == 0,
    {
        let n = self.data.len();
        let mut i: usize = 0;
        while i < n
            invariant
                self.wf(),
                n == self.data@.len(),
                i <= n,
                forall|k: int| 0 <= k < i ==> #[trigger] self.data@[k] != 0,
            decreases n - i,
        {
            if self.data[i] == 0 {
                proof {
                    lemma_row_major_split(self.spec_width(), self.spec_height(), i as int);
                    let x = i as int % self.spec_width();
                    let y = i as int / self.spec_width();
                    assert(self.in_bounds(x, y) && self.cell(x, y) == 0);
                }
                return true;
            }
            i += 1;
        }
        proof {
            assert forall|x: int, y: int|
                self.in_bounds(x, y) implies #[trigger] self.cell(x, y) != 0 by {
                lemma_row_major_in_range(self.spec_width(), self.spec_height(), x, y);
            }
        }
        false
    }
}

impl Clone for Array2D {
    /// A full, independent deep copy: the clone reads equal at every
    /// coordinate and shares no storage with the original.
    fn clone(&self) -> (r: Self)
        ensures
            r.wf() == self.wf(),
            r.spec_width() == self.spec_width(),
            r.spec_height() == self.spec_height(),
            forall|x: int, y: int| #[trigger] r.cell(x, y) == self.cell(x, y),
            r.nonzero_count() == self.nonzero_count(),
            r.contents() == self.contents(),
    {
        let mut data: Vec<u8> = Vec::new();
        let n = self.data.len();
        let mut i: usize = 0;
        while i < n
            invariant
                i <= n,
                n == self.data@.len(),
                data@ =~= self.data@.take(i as int),
            decreases n - i,
        {
            data.push(self.data[i]);
            i += 1;
            proof {
                assert(data@ =~= self.data@.take(i as int));
            }
        }
        proof {
            assert(data@ =~= self.data@);
        }
        Array2D { data, width: self.width, height: self.height }
    }
}

/// How `cell` reads the raw contents of a well-formed grid.
pub proof fn lemma_cell_contents(g: Array2D)
    requires
        g.wf(),
    ensures
        g.contents().len() == g.spec_width() * g.spec_height(),
        forall|x: int, y: int|
            g.in_bounds(x, y) ==> #[trigger] g.cell(x, y) == g.contents()[y * g.spec_width()
                + x],
{
}

/// A well-formed grid has positive dimensions whose product fits in `isize`.
pub broadcast proof fn lemma_wf_dims(g: Array2D)
    requires
        #[trigger] g.wf(),
    ensures
        1 <= g.spec_width(),
        1 <= g.spec_height(),
        g.spec_width() * g.spec_height() <= isize::MAX as int,
{
}

/// Out-of-range reads always observe the sentinel: for any grid, `cell`
/// (and hence `read`) yields `255` whenever `(x, y)` lies outside
/// `[0, width) × [0, height)`.
pub broadcast proof fn lemma_out_of_bounds_sentinel(g: Array2D, x: int, y: int)
    ensures
        !g.in_bounds(x, y) ==> #[trigger] g.cell(x, y) == 255,
{
}

/// A cell holding `0` is necessarily an in-bounds cell.
pub broadcast proof fn lemma_zero_cell_in_bounds(g: Array2D, x: int, y: int)
    ensures
        #[trigger] g.cell(x, y) == 0 ==> g.in_bounds(x, y),
{
}

/// `nonzero_count` is a count: never negative.
pub broadcast proof fn lemma_nonzero_count_nonneg(g: Array2D)
    ensures
        #[trigger] g.nonzero_count() >= 0,
{
    lemma_count_nonzero_bounds(g.data@);
}

/// A grid with no non-zero cell has `nonzero_count` zero, and conversely.
pub proof fn lemma_nonzero_count_zero(g: Array2D)
    requires
        g.wf(),
    ensures
        (g.nonzero_count() == 0) <==> (forall|x: int, y: int|
            g.in_bounds(x, y) ==> #[trigger] g.cell(x, y) == 0),
{
    lemma_count_nonzero_zero(g.data@);
    if forall|x: int, y: int| g.in_bounds(x, y) ==> #[trigger] g.cell(x, y) == 0 {
        assert forall|k: int| 0 <= k < g.data@.len() implies #[trigger] g.data@[k] == 0 by {
            lemma_row_major_split(g.spec_width(), g.spec_height(), k);
            let x = k % g.spec_width();
            let y = k / g.spec_width();
            assert(g.cell(x, y) == 0);
        }
    }
    if g.nonzero_count() == 0 {
        assert forall|x: int, y: int|
            g.in_bounds(x, y) implies #[trigger] g.cell(x, y) == 0 by {
            lemma_row_major_in_range(g.spec_width(), g.spec_height(), x, y);
        }
    }
}

spec fn count_nonzero(s: Seq<u8>) -> int
    decreases s.len(),
{
    if s.len() == 0 {
        0
    } else {
        count_nonzero(s.drop_last()) + if s.last() != 0 {
            1int
        } else {
            0int
        }
    }
}

proof fn lemma_count_nonzero_bounds(s: Seq<u8>)
    ensures
        0 <= count_nonzero(s) <= s.len(),
    decreases s.len(),
{
    if s.len() > 0 {
        lemma_count_nonzero_bounds(s.drop_last());
    }
}

proof fn lemma_count_nonzero_zero(s: Seq<u8>)
    ensures
        (count_nonzero(s) == 0) <==> (forall|k: int| 0 <= k < s.len() ==> #[trigger] s[k] == 0),
    decreases s.len(),
{
    if s.len() > 0 {
        lemma_count_nonzero_zero(s.drop_last());
        lemma_count_nonzero_bounds(s.drop_last());
        if count_nonzero(s) == 0 {
            assert forall|k: int| 0 <= k < s.len() implies #[trigger] s[k] == 0 by {
                if k < s.len() - 1 {
                    assert(s.drop_last()[k] == 0);
                } else {
                    assert(s[k] == s.last());
                }
            }
        }
        if forall|k: int| 0 <= k < s.len() ==> #[trigger] s[k] == 0 {
            assert forall|k: int|
                0 <= k < s.drop_last().len() implies #[trigger] s.drop_last()[k] == 0 by {
                assert(s.drop_last()[k] == s[k]);
            }
            assert(s.last() == s[s.len() - 1]);
        }
    }
}

proof fn lemma_count_nonzero_update(s: Seq<u8>, i: int, v: u8)
    requires
        0 <= i < s.len(),
    ensures
        count_nonzero(s.update(i, v)) == count_nonzero(s) - (if s[i] != 0 {
            1int
        } else {
            0int
        }) + (if v != 0 {
            1int
        } else {
            0int
        }),
    decreases s.len(),
{
    let t = s.update(i, v);
    if i == s.len() - 1 {
        assert(t.drop_last() =~= s.drop_last());
        assert(t.last() == v);
    } else {
        assert(t.drop_last() =~= s.drop_last().update(i, v));
        lemma_count_nonzero_update(s.drop_last(), i, v);
        assert(t.last() == s.last());
        assert(s.drop_last()[i] == s[i]);
    }
}

/// In a `w × h` grid, the row-major index of an in-range coordinate pair is
/// itself in range.
proof fn lemma_row_major_in_range(w: int, h: int, x: int, y: int)
    requires
        1 <= w,
        1 <= h,
        0 <= x < w,
        0 <= y < h,
    ensures
        0 <= y * w + x < w * h,
        (y * w + x) % w == x,
        (y * w + x) / w == y,
{
    assert(0 <= y * w + x < w * h) by (nonlinear_arith)
        requires
            1 <= w,
            1 <= h,
            0 <= x < w,
            0 <= y < h,
    ;
    assert((y * w + x) % w == x && (y * w + x) / w == y) by (nonlinear_arith)
        requires
            1 <= w,
            0 <= x < w,
            0 <= y,
    ;
}

/// Splitting a row-major index back into coordinates stays in range and
/// recombines to the same index.
pub proof fn lemma_row_major_split(w: int, h: int, k: int)
    requires
        1 <= w,
        1 <= h,
        0 <= k < w * h,
    ensures
        0 <= k % w < w,
        0 <= k / w < h,
        (k / w) * w + (k % w) == k,
{
    assert(0 <= k % w < w && 0 <= k / w && (k / w) * w + (k % w) == k) by (nonlinear_arith)
        requires
            1 <= w,
            0 <= k,
    ;
    assert(k / w < h) by (nonlinear_arith)
        requires
            1 <= w,
            1 <= h,
            0 <= k < w * h,
            (k / w) * w + (k % w) == k,
            0 <= k % w < w,
    ;
}

/// Distinct in-range coordinates have distinct row-major indices.
proof fn lemma_row_major_injective(w: int, a: int, b: int, x: int, y: int)
    requires
        1 <= w,
        0 <= a < w,
        0 <= x < w,
        !(a == x && b == y),
    ensures
        b * w + a != y * w + x,
{
    assert(b * w + a != y * w + x) by (nonlinear_arith)
        requires
            1 <= w,
            0 <= a < w,
            0 <= x < w,
            !(a == x && b == y),
    ;
}

} // verus!
