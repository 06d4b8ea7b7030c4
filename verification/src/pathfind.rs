//! Greedy stroke planning: turn a solved grid into plotter instructions.
//!
//! Starting from a reference corner, the planner repeatedly picks the
//! remaining head cell nearest to the pen, clears it, and walks the solved
//! grid along cells of that colour (never immediately reversing) until the
//! stroke ends, emitting a `Goto` per stroke and one directional step per
//! move.

use vstd::prelude::*;

use crate::grid::Array2D;
use crate::grid::lemma_nonzero_count_nonneg;
use crate::grid::lemma_nonzero_count_zero;
use crate::grid::lemma_out_of_bounds_sentinel;
use crate::grid::lemma_wf_dims;
use crate::grid::lemma_zero_cell_in_bounds;
use crate::solver::ip;

verus! {

broadcast use lemma_out_of_bounds_sentinel, lemma_zero_cell_in_bounds, lemma_wf_dims, lemma_nonzero_count_nonneg;

/// One movement of the plotter pen.
#[derive(Debug, PartialEq, Eq, Structural, Clone, Copy)]
pub enum Instruction {
    Up,
    Down,
    Left,
    Right,
    PenUp,
    PenDown,
    Goto(u8, u8),
    ToViewArea,
}

/// Squared Euclidean distance from `(x, y)` to `p`.
pub open spec fn dist2(x: int, y: int, p: (int, int)) -> int {
    (x - p.0) * (x - p.0) + (y - p.1) * (y - p.1)
}

/// Row-major scan position of `(x, y)` in a grid `w` cells wide.
pub open spec fn scan_index(w: int, x: int, y: int) -> int {
    y * w + x
}

pub open spec fn is_dir_step(ins: Instruction) -> bool {
    ins is Up || ins is Down || ins is Left || ins is Right
}

pub open spec fn step_delta(ins: Instruction) -> (int, int) {
    match ins {
        Instruction::Up => (0, -1),
        Instruction::Down => (0, 1),
        Instruction::Left => (-1, 0),
        Instruction::Right => (1, 0),
        _ => (0, 0),
    }
}

/// The pen position after the first `k` instructions of `s` (immaterial,
/// and taken as the origin, before the first `Goto`).
pub open spec fn pen_pos(s: Seq<Instruction>, k: int) -> (int, int)
    decreases k,
{
    if k <= 0 {
        (0, 0)
    } else {
        match s[k - 1] {
            Instruction::Goto(x, y) => (x as int, y as int),
            _ => {
                let p = pen_pos(s, k - 1);
                let d = step_delta(s[k - 1]);
                (p.0 + d.0, p.1 + d.1)
            },
        }
    }
}

/// The target of the last `Goto` strictly before position `k`: the cell the
/// current stroke started on.
pub open spec fn stroke_start(s: Seq<Instruction>, k: int) -> Option<(int, int)>
    decreases k,
{
    if k <= 0 {
        None
    } else {
        match s[k - 1] {
            Instruction::Goto(x, y) => Some((x as int, y as int)),
            _ => stroke_start(s, k - 1),
        }
    }
}

/// Every directional step belongs to a stroke opened by a `Goto` on a cell
/// that held some colour in the head grid, and lands on a solved-grid cell
/// of exactly that colour.
pub open spec fn trace_respects_colors(
    s: Seq<Instruction>,
    heads0: Array2D,
    solved: Array2D,
) -> bool {
    forall|k: int|
        0 <= k < s.len() && is_dir_step(#[trigger] s[k]) ==> (stroke_start(s, k) matches Some(g)
            && heads0.cell(g.0, g.1) != 0 && solved.cell(
            pen_pos(s, k + 1).0,
            pen_pos(s, k + 1).1,
        ) == heads0.cell(g.0, g.1))
}

/// Every jump of the plan lands on an in-bounds cell that held a colour
/// in the head grid: strokes start only on heads.
pub open spec fn gotos_on_heads(s: Seq<Instruction>, heads0: Array2D) -> bool {
    forall|k: int|
        0 <= k < s.len() ==> (#[trigger] s[k] matches Instruction::Goto(x, y) ==> (
        heads0.in_bounds(x as int, y as int) && heads0.cell(x as int, y as int) != 0))
}

/// The plan holds only `Goto` jumps and directional steps.
pub open spec fn only_strokes(s: Seq<Instruction>) -> bool {
    forall|k: int| 0 <= k < s.len() ==> (#[trigger] s[k] is Goto || is_dir_step(s[k]))
}

/// How many `Goto` jumps (strokes) the plan contains.
pub open spec fn goto_count(s: Seq<Instruction>) -> int
    decreases s.len(),
{
    if s.len() == 0 {
        0
    } else {
        goto_count(s.drop_last()) + if s.last() is Goto {
            1int
        } else {
            0int
        }
    }
}

/// Appending an instruction does not disturb the walk through the prefix.
proof fn lemma_trace_push(s: Seq<Instruction>, v: Instruction, k: int)
    requires
        0 <= k <= s.len(),
    ensures
        pen_pos(s.push(v), k) == pen_pos(s, k),
        stroke_start(s.push(v), k) == stroke_start(s, k),
    decreases k,
{
    if k > 0 {
        assert(s.push(v)[k - 1] == s[k - 1]);
        lemma_trace_push(s, v, k - 1);
    }
}

proof fn lemma_goto_count_push(s: Seq<Instruction>, v: Instruction)
    ensures
        goto_count(s.push(v)) == goto_count(s) + if v is Goto {
            1int
        } else {
            0int
        },
{
    assert(s.push(v).drop_last() =~= s);
}

/// The head cell with a non-zero value nearest to `pos` (squared Euclidean
/// distance, ties broken by row-major scan order), or `None` when the grid
/// holds no non-zero cell.
#[verifier::loop_isolation(false)]
pub fn find_start(unsolved_grid: &Array2D, pos: (isize, isize)) -> (r: Option<(u8, isize, isize)>)
    requires
        unsolved_grid.wf(),
        0 <= pos.0 < unsolved_grid.spec_width(),
        0 <= pos.1 < unsolved_grid.spec_height(),
        unsolved_grid.spec_width() * unsolved_grid.spec_width() + unsolved_grid.spec_height()
            * unsolved_grid.spec_height() <= isize::MAX as int,
    ensures
        (r is None) <==> (forall|a: int, b: int|
            unsolved_grid.in_bounds(a, b) ==> #[trigger] unsolved_grid.cell(a, b) == 0),
        r matches Some(t) ==> {
            &&& unsolved_grid.in_bounds(t.1 as int, t.2 as int)
            &&& unsolved_grid.cell(t.1 as int, t.2 as int) == t.0
            &&& t.0 != 0
            &&& forall|a: int, b: int|
                unsolved_grid.in_bounds(a, b) && #[trigger] unsolved_grid.cell(a, b) != 0
                    ==> dist2(t.1 as int, t.2 as int, ip(pos)) <= dist2(a, b, ip(pos))
            &&& forall|a: int, b: int|
                unsolved_grid.in_bounds(a, b) && #[trigger] unsolved_grid.cell(a, b) != 0
                    && scan_index(unsolved_grid.spec_width(), a, b) < scan_index(
                    unsolved_grid.spec_width(),
                    t.1 as int,
                    t.2 as int,
                ) ==> dist2(t.1 as int, t.2 as int, ip(pos)) < dist2(a, b, ip(pos))
        },
{
    let w = unsolved_grid.width();
    let h = unsolved_grid.height();
    let ghost wi = w as int;
    proof {
        let hs = unsolved_grid.spec_height();
        assert(wi <= wi * hs && hs <= wi * hs) by (nonlinear_arith)
            requires
                1 <= wi,
                1 <= hs,
        ;
    }
    let mut best: Option<(isize, (u8, isize, isize))> = None;
    let mut j: usize = 0;
    while j < h
        invariant
            j <= h,
            best is None ==> forall|a: int, b: int|
                unsolved_grid.in_bounds(a, b) && b < j ==> #[trigger] unsolved_grid.cell(a, b)
                    == 0,
            best matches Some(t) ==> {
                &&& unsolved_grid.in_bounds(t.1.1 as int, t.1.2 as int)
                &&& (t.1.2 as int) < j
                &&& unsolved_grid.cell(t.1.1 as int, t.1.2 as int) == t.1.0
                &&& t.1.0 != 0
                &&& t.0 == dist2(t.1.1 as int, t.1.2 as int, ip(pos))
                &&& forall|a: int, b: int|
                    unsolved_grid.in_bounds(a, b) && b < j && #[trigger] unsolved_grid.cell(
                        a,
                        b,
                    ) != 0 ==> t.0 <= dist2(a, b, ip(pos))
                &&& forall|a: int, b: int|
                    unsolved_grid.in_bounds(a, b) && b < j && #[trigger] unsolved_grid.cell(
                        a,
                        b,
                    ) != 0 && scan_index(wi, a, b) < scan_index(
                        wi,
                        t.1.1 as int,
                        t.1.2 as int,
                    ) ==> t.0 < dist2(a, b, ip(pos))
            },
        decreases h - j,
    {
        let mut i: usize = 0;
        proof {
            lemma_scan_region(wi, 0, j as int);
        }
        while i < w
            invariant
                i <= w,
                j < h,
                best is None ==> forall|a: int, b: int|
                    unsolved_grid.in_bounds(a, b) && scan_index(wi, a, b) < scan_index(
                        wi,
                        i as int,
                        j as int,
                    ) ==> #[trigger] unsolved_grid.cell(a, b) == 0,
                best matches Some(t) ==> {
                    &&& unsolved_grid.in_bounds(t.1.1 as int, t.1.2 as int)
                    &&& scan_index(wi, t.1.1 as int, t.1.2 as int) < scan_index(
                        wi,
                        i as int,
                        j as int,
                    )
                    &&& unsolved_grid.cell(t.1.1 as int, t.1.2 as int) == t.1.0
                    &&& t.1.0 != 0
                    &&& t.0 == dist2(t.1.1 as int, t.1.2 as int, ip(pos))
                    &&& forall|a: int, b: int|
                        unsolved_grid.in_bounds(a, b) && scan_index(wi, a, b) < scan_index(
                            wi,
                            i as int,
                            j as int,
                        ) && #[trigger] unsolved_grid.cell(a, b) != 0 ==> t.0 <= dist2(
                            a,
                            b,
                            ip(pos),
                        )
                    &&& forall|a: int, b: int|
                        unsolved_grid.in_bounds(a, b) && scan_index(wi, a, b) < scan_index(
                            wi,
                            i as int,
                            j as int,
                        ) && #[trigger] unsolved_grid.cell(a, b) != 0 && scan_index(wi, a, b)
                            < scan_index(wi, t.1.1 as int, t.1.2 as int) ==> t.0 < dist2(
                            a,
                            b,
                            ip(pos),
                        )
                },
            decreases w - i,
        {
            let xi = i as isize;
            let yi = j as isize;
            let v = unsolved_grid.read(xi, yi);
            if v != 0 {
                proof {
                    lemma_scan_region(wi, i as int, j as int);
                    lemma_dist2_in_range(
                        wi,
                        unsolved_grid.spec_height(),
                        i as int,
                        j as int,
                        ip(pos),
                    );
                }
                let dx = xi - pos.0;
                let dy = yi - pos.1;
                let dist = dx * dx + dy * dy;
                match best {
                    Option::None => {
                        best = Some((dist, (v, xi, yi)));
                    },
                    Option::Some((score, _)) => {
                        if score > dist {
                            best = Some((dist, (v, xi, yi)));
                        }
                    },
                }
            }
            i += 1;
            proof {
                lemma_scan_region(wi, i as int, j as int);
            }
        }
        proof {
            lemma_scan_region(wi, wi, j as int);
        }
        j += 1;
    }
    proof {
        if best is None {
            assert forall|a: int, b: int|
                unsolved_grid.in_bounds(a, b) implies #[trigger] unsolved_grid.cell(a, b)
                == 0 by {}
        }
    }
    match best {
        Option::Some((_, t)) => Some(t),
        Option::None => None,
    }
}

/// Which cells a row-major scan has already visited when it stands at
/// column `i` of row `j`.
proof fn lemma_scan_region(w: int, i: int, j: int)
    requires
        1 <= w,
        0 <= i <= w,
        0 <= j,
    ensures
        forall|a: int, b: int|
            0 <= a < w && 0 <= b ==> ((#[trigger] scan_index(w, a, b)) < scan_index(w, i, j)
                <==> (b < j || (b == j && a < i))),
{
    assert forall|a: int, b: int|
        0 <= a < w && 0 <= b implies ((#[trigger] scan_index(w, a, b)) < scan_index(w, i, j)
        <==> (b < j || (b == j && a < i))) by {
        if b < j {
            assert((b + 1) * w <= j * w && b * w + w == (b + 1) * w) by (nonlinear_arith)
                requires
                    1 <= w,
                    b + 1 <= j,
            ;
        }
        if b > j {
            assert(j * w + w <= b * w) by (nonlinear_arith)
                requires
                    1 <= w,
                    j + 1 <= b,
            ;
        }
    }
}

/// Squared distances between two in-range cells fit in `isize`.
proof fn lemma_dist2_in_range(w: int, h: int, x: int, y: int, p: (int, int))
    requires
        1 <= w,
        1 <= h,
        0 <= x < w,
        0 <= y < h,
        0 <= p.0 < w,
        0 <= p.1 < h,
        w * w + h * h <= isize::MAX as int,
    ensures
        0 <= (x - p.0) * (x - p.0) <= isize::MAX as int,
        0 <= (y - p.1) * (y - p.1) <= isize::MAX as int,
        0 <= dist2(x, y, p) <= isize::MAX as int,
{
    assert(0 <= (x - p.0) * (x - p.0) < w * w && 0 <= (y - p.1) * (y - p.1) < h * h)
        by (nonlinear_arith)
        requires
            1 <= w,
            1 <= h,
            0 <= x < w,
            0 <= y < h,
            0 <= p.0 < w,
            0 <= p.1 < h,
    ;
}

/// The in-bounds neighbours of `(x, y)`, each with the direction that
/// reaches it, in the fixed priority order east, west, south, north.
pub open spec fn bounded_around(g: Array2D, x: int, y: int) -> Seq<((int, int), Instruction)> {
    (if g.in_bounds(x + 1, y) {
        seq![((x + 1, y), Instruction::Right)]
    } else {
        Seq::<((int, int), Instruction)>::empty()
    }) + (if g.in_bounds(x - 1, y) {
        seq![((x - 1, y), Instruction::Left)]
    } else {
        Seq::<((int, int), Instruction)>::empty()
    }) + (if g.in_bounds(x, y + 1) {
        seq![((x, y + 1), Instruction::Down)]
    } else {
        Seq::<((int, int), Instruction)>::empty()
    }) + (if g.in_bounds(x, y - 1) {
        seq![((x, y - 1), Instruction::Up)]
    } else {
        Seq::<((int, int), Instruction)>::empty()
    })
}

/// Each listed neighbour is in bounds and one directional step away.
proof fn lemma_bounded_around_elems(g: Array2D, x: int, y: int)
    ensures
        forall|k: int|
            0 <= k < bounded_around(g, x, y).len() ==> {
                let e = #[trigger] bounded_around(g, x, y)[k];
                &&& is_dir_step(e.1)
                &&& e.0.0 == x + step_delta(e.1).0
                &&& e.0.1 == y + step_delta(e.1).1
                &&& g.in_bounds(e.0.0, e.0.1)
            },
{
}

/// The neighbours of `(x, y)` that lie inside the grid, paired with the
/// direction instruction that reaches each.
pub fn iterate_around(x: isize, y: isize, grid: &Array2D) -> (r: Vec<
    ((isize, isize), Instruction),
>)
    requires
        grid.wf(),
        grid.in_bounds(x as int, y as int),
    ensures
        r@.map_values(|e: ((isize, isize), Instruction)| (ip(e.0), e.1)) == bounded_around(
            *grid,
            x as int,
            y as int,
        ),
{
    proof {
        let w = grid.spec_width();
        let h = grid.spec_height();
        assert(w <= w * h && h <= w * h) by (nonlinear_arith)
            requires
                1 <= w,
                1 <= h,
        ;
    }
    let w = grid.width();
    let h = grid.height();
    let mut r: Vec<((isize, isize), Instruction)> = Vec::new();
    if x + 1 < w as isize {
        r.push(((x + 1, y), Instruction::Right));
    }
    if x >= 1 {
        r.push(((x - 1, y), Instruction::Left));
    }
    if y + 1 < h as isize {
        r.push(((x, y + 1), Instruction::Down));
    }
    if y >= 1 {
        r.push(((x, y - 1), Instruction::Up));
    }
    proof {
        assert(r@.map_values(|e: ((isize, isize), Instruction)| (ip(e.0), e.1))
            =~= bounded_around(*grid, x as int, y as int));
    }
    r
}

/// Plan the strokes that trace every colour of `solved_grid`, consuming the
/// head grid as a visited set.
///
/// Each remaining head cell starts one stroke: a `Goto` to the head nearest
/// the pen, then one directional step per move along cells holding the
/// stroke's colour, never reversing the step just taken.  Each stroke's
/// walk is capped at `width × height` steps so that the plan is always a
/// finite program; a stroke along a simple path never reaches the cap.
#[verifier::loop_isolation(false)]
#[verifier::rlimit(30)]
pub fn pathfind(unsolved_grid: Array2D, solved_grid: &Array2D) -> (r: Vec<Instruction>)
    requires
        unsolved_grid.wf(),
        solved_grid.wf(),
        unsolved_grid.spec_width() <= 255,
        unsolved_grid.spec_height() <= 255,
    ensures
        trace_respects_colors(r@, unsolved_grid, *solved_grid),
        gotos_on_heads(r@, unsolved_grid),
        only_strokes(r@),
        r@.len() > 0 ==> r@[0] is Goto,
        goto_count(r@) <= unsolved_grid.nonzero_count(),
        unsolved_grid.nonzero_count() <= 2 * goto_count(r@),
{
    let ghost g0u = unsolved_grid;
    let mut unsolved_grid = unsolved_grid;
    let w = unsolved_grid.width();
    let h = unsolved_grid.height();
    let budget = w * h;
    let mut instructions: Vec<Instruction> = Vec::new();
    let mut start_pos: (isize, isize) = (w as isize - 1, h as isize - 1);
    proof {
        let wi = w as int;
        let hi = h as int;
        assert(wi <= wi * hi && hi <= wi * hi) by (nonlinear_arith)
            requires
                1 <= wi,
                1 <= hi,
        ;
        assert(wi * wi + hi * hi <= isize::MAX as int) by (nonlinear_arith)
            requires
                1 <= wi <= 255,
                1 <= hi <= 255,
                isize::MIN <= -0x8000_0000,
                0x7fff_ffff <= isize::MAX,
        ;
    }
    loop
        invariant
            unsolved_grid.wf(),
            g0u.wf(),
            unsolved_grid.spec_width() == g0u.spec_width(),
            unsolved_grid.spec_height() == g0u.spec_height(),
            w == g0u.spec_width(),
            h == g0u.spec_height(),
            w <= 255,
            h <= 255,
            budget == w * h,
            g0u.spec_width() * g0u.spec_width() + g0u.spec_height() * g0u.spec_height()
                <= isize::MAX as int,
            0 <= start_pos.0 < g0u.spec_width(),
            0 <= start_pos.1 < g0u.spec_height(),
            forall|a: int, b: int|
                #![trigger unsolved_grid.cell(a, b)]
                unsolved_grid.cell(a, b) == g0u.cell(a, b) || unsolved_grid.cell(a, b) == 0,
            trace_respects_colors(instructions@, g0u, *solved_grid),
            gotos_on_heads(instructions@, g0u),
            only_strokes(instructions@),
            instructions@.len() > 0 ==> instructions@[0] is Goto,
            goto_count(instructions@) <= g0u.nonzero_count() - unsolved_grid.nonzero_count(),
            g0u.nonzero_count() - unsolved_grid.nonzero_count() <= 2 * goto_count(
                instructions@,
            ),
        decreases unsolved_grid.nonzero_count(),
    {
        let found = find_start(&unsolved_grid, start_pos);
        match found {
            Option::None => {
                proof {
                    lemma_nonzero_count_zero(unsolved_grid);
                }
                break ;
            },
            Option::Some((col, sx, sy)) => {
                let mut x = sx;
                let mut y = sy;
                let ghost gin = unsolved_grid;
                unsolved_grid.write(x, y, 0);
                let mut old_x: isize = -1;
                let mut old_y: isize = -1;
                let ghost pre = instructions@;
                proof {
                    assert forall|k: int| 0 <= k <= pre.len() implies pen_pos(
                        pre.push(Instruction::Goto(sx as u8, sy as u8)),
                        k,
                    ) == pen_pos(pre, k) && stroke_start(
                        pre.push(Instruction::Goto(sx as u8, sy as u8)),
                        k,
                    ) == stroke_start(pre, k) by {
                        lemma_trace_push(pre, Instruction::Goto(sx as u8, sy as u8), k);
                    }
                    lemma_goto_count_push(pre, Instruction::Goto(sx as u8, sy as u8));
                }
                instructions.push(Instruction::Goto(sx as u8, sy as u8));
                let mut steps: usize = 0;
                let mut done = false;
                while !done && steps < budget
                    invariant
                        unsolved_grid.wf(),
                        unsolved_grid.spec_width() == g0u.spec_width(),
                        unsolved_grid.spec_height() == g0u.spec_height(),
                        steps <= budget,
                        0 <= x as int && (x as int) < g0u.spec_width(),
                        0 <= y as int && (y as int) < g0u.spec_height(),
                        forall|a: int, b: int|
                            #![trigger unsolved_grid.cell(a, b)]
                            unsolved_grid.cell(a, b) == g0u.cell(a, b) || unsolved_grid.cell(
                                a,
                                b,
                            ) == 0,
                        trace_respects_colors(instructions@, g0u, *solved_grid),
                        gotos_on_heads(instructions@, g0u),
                        only_strokes(instructions@),
                        instructions@.len() > 0,
                        instructions@[0] is Goto,
                        goto_count(instructions@) == goto_count(pre) + 1,
                        pen_pos(instructions@, instructions@.len() as int) == (
                            x as int,
                            y as int,
                        ),
                        stroke_start(instructions@, instructions@.len() as int) == Some(
                            (sx as int, sy as int),
                        ),
                        g0u.cell(sx as int, sy as int) == col,
                        col != 0,
                        unsolved_grid.nonzero_count() == gin.nonzero_count() - 1,
                    decreases 2 * (budget - steps) + (if done {
                        0int
                    } else {
                        1int
                    }),
                {
                    let around = iterate_around(x, y, &unsolved_grid);
                    proof {
                        lemma_bounded_around_elems(unsolved_grid, x as int, y as int);
                        let m = around@.map_values(
                            |e: ((isize, isize), Instruction)| (ip(e.0), e.1),
                        );
                        assert(m.len() == around@.len());
                        assert(m.len() <= 4);
                        assert forall|k: int| 0 <= k < around@.len() implies {
                            let e = (ip((#[trigger] around@[k]).0), around@[k].1);
                            &&& is_dir_step(e.1)
                            &&& e.0.0 == x as int + step_delta(e.1).0
                            &&& e.0.1 == y as int + step_delta(e.1).1
                            &&& g0u.in_bounds(e.0.0, e.0.1)
                        } by {
                            assert(m[k] == (ip(around@[k].0), around@[k].1));
                            assert(m[k] == bounded_around(unsolved_grid, x as int, y as int)[k]);
                        }
                    }
                    let mut chosen: Option<((isize, isize), Instruction)> = None;
                    let mut j: usize = 0;
                    while j < around.len()
                        invariant
                            around@.len() <= 4,
                            j <= around@.len(),
                            forall|k: int|
                                0 <= k < around@.len() ==> {
                                    let e = (ip((#[trigger] around@[k]).0), around@[k].1);
                                    &&& is_dir_step(e.1)
                                    &&& e.0.0 == x as int + step_delta(e.1).0
                                    &&& e.0.1 == y as int + step_delta(e.1).1
                                    &&& g0u.in_bounds(e.0.0, e.0.1)
                                },
                            chosen matches Some(e) ==> {
                                &&& is_dir_step(e.1)
                                &&& ip(e.0).0 == x as int + step_delta(e.1).0
                                &&& ip(e.0).1 == y as int + step_delta(e.1).1
                                &&& g0u.in_bounds(ip(e.0).0, ip(e.0).1)
                                &&& solved_grid.cell(ip(e.0).0, ip(e.0).1) == col
                            },
                        decreases around@.len() - j,
                    {
                        let e = around[j];
                        if solved_grid.read(e.0.0, e.0.1) == col && !(e.0.0 == old_x && e.0.1
                            == old_y) {
                            chosen = Some(e);
                            break ;
                        }
                        j += 1;
                    }
                    match chosen {
                        Option::Some(((newx, newy), dir)) => {
                            old_x = x;
                            old_y = y;
                            x = newx;
                            y = newy;
                            let ghost cur = instructions@;
                            proof {
                                assert forall|k: int| 0 <= k <= cur.len() implies pen_pos(
                                    cur.push(dir),
                                    k,
                                ) == pen_pos(cur, k) && stroke_start(cur.push(dir), k)
                                    == stroke_start(cur, k) by {
                                    lemma_trace_push(cur, dir, k);
                                }
                                lemma_goto_count_push(cur, dir);
                            }
                            instructions.push(dir);
                            steps += 1;
                            proof {
                                let s2 = instructions@;
                                let n2 = s2.len() as int;
                                assert(s2[n2 - 1] == dir);
                                assert(pen_pos(s2, n2) == (x as int, y as int));
                                assert(stroke_start(s2, n2 - 1) == Some((sx as int, sy as int)));
                                assert(trace_respects_colors(s2, g0u, *solved_grid)) by {
                                    assert forall|k: int|
                                        0 <= k < s2.len() && is_dir_step(
                                            #[trigger] s2[k],
                                        ) implies (stroke_start(s2, k) matches Some(g)
                                        && g0u.cell(g.0, g.1) != 0 && solved_grid.cell(
                                        pen_pos(s2, k + 1).0,
                                        pen_pos(s2, k + 1).1,
                                    ) == g0u.cell(g.0, g.1)) by {
                                        if k < n2 - 1 {
                                            assert(s2[k] == cur[k]);
                                        }
                                    }
                                }
                            }
                        },
                        Option::None => {
                            done = true;
                        },
                    }
                }
                unsolved_grid.write(x, y, 0);
                start_pos = (x, y);
                proof {
                    assert(goto_count(instructions@) <= g0u.nonzero_count()
                        - unsolved_grid.nonzero_count());
                    assert(g0u.nonzero_count() - unsolved_grid.nonzero_count() <= 2
                        * goto_count(instructions@));
                    assert(unsolved_grid.nonzero_count() < gin.nonzero_count());
                }
            },
        }
    }
    instructions
}

} // verus!
