//! Constraint propagation with speculative backtracking.
//!
//! The solver advances the two live ends of every colour in sweeps.  An end
//! with exactly one free neighbour advances deterministically; an end whose
//! four neighbours include its partner is complete; an end with no free
//! neighbour proves the current branch invalid; an end with several free
//! neighbours is ambiguous.  When a whole sweep makes no deterministic
//! progress the solver commits a guess on the most recently seen ambiguous
//! end, keeping a checkpoint so that the guess can be undone.

use vstd::prelude::*;

use crate::grid::Array2D;
use crate::grid::lemma_out_of_bounds_sentinel;
use crate::grid::lemma_row_major_split;
use crate::grid::lemma_wf_dims;
use crate::grid::lemma_zero_cell_in_bounds;

verus! {

broadcast use lemma_out_of_bounds_sentinel, lemma_zero_cell_in_bounds, lemma_wf_dims;

/// The two live growing ends of each colour, indexed by `colour id - 1`.
/// `(-1, -1)` marks an end that has not been observed in the input.
pub type Heads = Vec<((isize, isize), (isize, isize))>;

/// Coordinates of a position as mathematical integers.
pub open spec fn ip(p: (isize, isize)) -> (int, int) {
    (p.0 as int, p.1 as int)
}

pub open spec fn east(p: (int, int)) -> (int, int) {
    (p.0 + 1, p.1)
}

pub open spec fn west(p: (int, int)) -> (int, int) {
    (p.0 - 1, p.1)
}

pub open spec fn south(p: (int, int)) -> (int, int) {
    (p.0, p.1 + 1)
}

pub open spec fn north(p: (int, int)) -> (int, int) {
    (p.0, p.1 - 1)
}

/// Two ends have met when they coincide or are cardinal neighbours.
pub open spec fn heads_met(p: (int, int), q: (int, int)) -> bool {
    q == p || q == east(p) || q == west(p) || q == south(p) || q == north(p)
}

pub open spec fn cell_at(g: Array2D, p: (int, int)) -> u8 {
    g.cell(p.0, p.1)
}

/// The unclaimed neighbours of `p`, in the fixed scan order
/// east, west, south, north.
pub open spec fn free_neighbors(g: Array2D, p: (int, int)) -> Seq<(int, int)> {
    (if cell_at(g, east(p)) == 0 {
        seq![east(p)]
    } else {
        Seq::<(int, int)>::empty()
    }) + (if cell_at(g, west(p)) == 0 {
        seq![west(p)]
    } else {
        Seq::<(int, int)>::empty()
    }) + (if cell_at(g, south(p)) == 0 {
        seq![south(p)]
    } else {
        Seq::<(int, int)>::empty()
    }) + (if cell_at(g, north(p)) == 0 {
        seq![north(p)]
    } else {
        Seq::<(int, int)>::empty()
    })
}

/// A head is either the unset sentinel `(-1, -1)` or an in-bounds cell.
pub open spec fn head_ok(p: (isize, isize), g: Array2D) -> bool {
    (p.0 == -1 && p.1 == -1) || g.in_bounds(p.0 as int, p.1 as int)
}

/// The four cardinal neighbours of `p`, in the fixed scan order
/// east, west, south, north.
pub fn get_around(p: (isize, isize)) -> (r: [(isize, isize); 4])
    requires
        isize::MIN < p.0 < isize::MAX,
        isize::MIN < p.1 < isize::MAX,
    ensures
        ip(r[0]) == east(ip(p)),
        ip(r[1]) == west(ip(p)),
        ip(r[2]) == south(ip(p)),
        ip(r[3]) == north(ip(p)),
{
    [(p.0 + 1, p.1), (p.0 - 1, p.1), (p.0, p.1 + 1), (p.0, p.1 - 1)]
}

/// What one attempt to advance a single end produced.
#[derive(Debug)]
pub enum StepResult {
    /// The end advanced into its unique free neighbour.
    ProgressMade,
    /// The end has met its partner; it stops growing.
    Complete,
    /// The end has no free neighbour: this branch is invalid.
    Impossible,
    /// Several free neighbours: no move is committed, the candidates are
    /// reported in scan order.
    NoProgress(Vec<(isize, isize)>),
}

/// Advance `current_head` by one step if it has a unique free neighbour.
///
/// The grid and the head are mutated only in the `ProgressMade` case, where
/// the unique free neighbour is painted with the colour found under the old
/// head position and becomes the new head position.
pub fn next_step(
    current_head: &mut (isize, isize),
    paired_head: (isize, isize),
    grid: &mut Array2D,
) -> (r: StepResult)
    requires
        old(grid).wf(),
        head_ok(*old(current_head), *old(grid)),
    ensures
        final(grid).wf(),
        final(grid).spec_width() == old(grid).spec_width(),
        final(grid).spec_height() == old(grid).spec_height(),
        (r is Complete) <==> heads_met(ip(*old(current_head)), ip(paired_head)),
        (r is Impossible) <==> (!heads_met(ip(*old(current_head)), ip(paired_head))
            && free_neighbors(*old(grid), ip(*old(current_head))).len() == 0),
        (r is ProgressMade) <==> (!heads_met(ip(*old(current_head)), ip(paired_head))
            && free_neighbors(*old(grid), ip(*old(current_head))).len() == 1),
        (r is NoProgress) <==> (!heads_met(ip(*old(current_head)), ip(paired_head))
            && free_neighbors(*old(grid), ip(*old(current_head))).len() >= 2),
        !(r is ProgressMade) ==> *final(grid) == *old(grid) && *final(current_head) == *old(
            current_head,
        ),
        r is ProgressMade ==> {
            let c = free_neighbors(*old(grid), ip(*old(current_head)))[0];
            &&& ip(*final(current_head)) == c
            &&& old(grid).cell(c.0, c.1) == 0
            &&& final(grid).cell(c.0, c.1) == old(grid).cell(
                ip(*old(current_head)).0,
                ip(*old(current_head)).1,
            )
            &&& forall|a: int, b: int|
                !(a == c.0 && b == c.1) ==> #[trigger] final(grid).cell(a, b) == old(grid).cell(
                    a,
                    b,
                )
            &&& final(grid).contents() == old(grid).contents().update(
                c.1 * old(grid).spec_width() + c.0,
                old(grid).cell(ip(*old(current_head)).0, ip(*old(current_head)).1),
            )
        },
        r matches StepResult::NoProgress(v) ==> v@.map_values(|q: (isize, isize)| ip(q))
            == free_neighbors(*old(grid), ip(*old(current_head))),
        head_ok(*final(current_head), *final(grid)),
{
    let ch = *current_head;
    if ch.0 == paired_head.0 && ch.1 == paired_head.1 {
        return StepResult::Complete;
    }
    proof {
        let w = grid.spec_width();
        let h = grid.spec_height();
        assert(w <= w * h && h <= w * h) by (nonlinear_arith)
            requires
                1 <= w,
                1 <= h,
        ;
    }
    let around = get_around(ch);
    if (around[0].0 == paired_head.0 && around[0].1 == paired_head.1) || (around[1].0
        == paired_head.0 && around[1].1 == paired_head.1) || (around[2].0 == paired_head.0
        && around[2].1 == paired_head.1) || (around[3].0 == paired_head.0 && around[3].1
        == paired_head.1) {
        return StepResult::Complete;
    }
    let mut candidates: Vec<(isize, isize)> = Vec::new();
    if grid.read(around[0].0, around[0].1) == 0 {
        candidates.push(around[0]);
    }
    if grid.read(around[1].0, around[1].1) == 0 {
        candidates.push(around[1]);
    }
    if grid.read(around[2].0, around[2].1) == 0 {
        candidates.push(around[2]);
    }
    if grid.read(around[3].0, around[3].1) == 0 {
        candidates.push(around[3]);
    }
    proof {
        assert(candidates@.map_values(|q: (isize, isize)| ip(q)) =~= free_neighbors(
            *grid,
            ip(ch),
        ));
    }
    if candidates.len() == 0 {
        StepResult::Impossible
    } else if candidates.len() == 1 {
        let only_option = candidates[0];
        let colour = grid.read(ch.0, ch.1);
        proof {
            assert(grid.cell(ip(only_option).0, ip(only_option).1) == 0);
        }
        grid.write(only_option.0, only_option.1, colour);
        *current_head = only_option;
        StepResult::ProgressMade
    } else {
        StepResult::NoProgress(candidates)
    }
}

/// A head that has been observed in the input (not the `(-1, -1)` sentinel).
pub open spec fn set_head(p: (isize, isize)) -> bool {
    !(p.0 == -1 && p.1 == -1)
}

/// Every head is an in-bounds cell or the unset sentinel.
pub open spec fn heads_ok(hs: Seq<((isize, isize), (isize, isize))>, g: Array2D) -> bool {
    forall|i: int|
        0 <= i < hs.len() ==> head_ok((#[trigger] hs[i]).0, g) && head_ok(hs[i].1, g)
}

/// Every set head of pair `i` sits on a cell painted with colour `i + 1`.
pub open spec fn heads_colored(hs: Seq<((isize, isize), (isize, isize))>, g: Array2D) -> bool {
    forall|i: int|
        0 <= i < hs.len() ==> {
            &&& (set_head((#[trigger] hs[i]).0) ==> cell_at(g, ip(hs[i].0)) == i + 1)
            &&& (set_head(hs[i].1) ==> cell_at(g, ip(hs[i].1)) == i + 1)
        }
}

pub open spec fn same_dims(a: Array2D, b: Array2D) -> bool {
    a.spec_width() == b.spec_width() && a.spec_height() == b.spec_height()
}

/// Cells coloured in `g0` keep exactly that colour in `g`.
pub open spec fn preserves_colored(g0: Array2D, g: Array2D) -> bool {
    forall|x: int, y: int|
        #![trigger g0.cell(x, y)]
        #![trigger g.cell(x, y)]
        g0.cell(x, y) != 0 ==> g.cell(x, y) == g0.cell(x, y)
}

/// Cells empty in `g0` are still empty in `g` or hold a colour id `1..=n`.
pub open spec fn painted_in_range(g0: Array2D, g: Array2D, n: int) -> bool {
    forall|x: int, y: int|
        #![trigger g0.cell(x, y)]
        #![trigger g.cell(x, y)]
        g0.cell(x, y) == 0 ==> g.cell(x, y) == 0 || 1 <= g.cell(x, y) <= n
}

/// All listed candidate cells are still unclaimed in `g`.
pub open spec fn fresh_candidates(cands: Seq<(isize, isize)>, g: Array2D) -> bool {
    forall|k: int| 0 <= k < cands.len() ==> cell_at(g, ip(#[trigger] cands[k])) == 0
}

/// Every cell listed by `free_neighbors` holds `0` in that grid.
proof fn lemma_free_neighbors_free(g: Array2D, p: (int, int))
    ensures
        forall|k: int|
            0 <= k < free_neighbors(g, p).len() ==> cell_at(
                g,
                #[trigger] free_neighbors(g, p)[k],
            ) == 0,
{
}

/// An unset end sees only out-of-range neighbours: it can never advance.
proof fn lemma_unset_head_stuck(g: Array2D, p: (isize, isize))
    requires
        !set_head(p),
    ensures
        free_neighbors(g, ip(p)).len() == 0,
{
    assert(cell_at(g, east(ip(p))) == 255);
    assert(cell_at(g, west(ip(p))) == 255);
    assert(cell_at(g, south(ip(p))) == 255);
    assert(cell_at(g, north(ip(p))) == 255);
}

/// Advance both ends of pair `i` once, in order, as one sweep step does.
///
/// Returns how many of the two ends reported completion, whether either end
/// made deterministic progress, whether either end is stuck, and the last
/// ambiguous end observed, as `(candidates, colour, side)`.
#[verifier::loop_isolation(false)]
fn advance_pair(grid: &mut Array2D, heads: &mut Heads, i: usize) -> (r: (
    usize,
    bool,
    bool,
    Option<(Vec<(isize, isize)>, u8, usize)>,
))
    requires
        old(grid).wf(),
        old(heads)@.len() <= 254,
        i < old(heads)@.len(),
        heads_ok(old(heads)@, *old(grid)),
        heads_colored(old(heads)@, *old(grid)),
    ensures
        final(grid).wf(),
        same_dims(*old(grid), *final(grid)),
        preserves_colored(*old(grid), *final(grid)),
        painted_in_range(*old(grid), *final(grid), old(heads)@.len() as int),
        final(heads)@.len() == old(heads)@.len(),
        forall|k: int|
            0 <= k < old(heads)@.len() && k != i ==> final(heads)@[k] == old(heads)@[k],
        heads_ok(final(heads)@, *final(grid)),
        heads_colored(final(heads)@, *final(grid)),
        r.0 <= 2,
        (!r.1 && !r.2) ==> *final(grid) == *old(grid),
        (!r.1 && !r.2 && r.3 is None) ==> r.0 == 2,
        r.3 matches Some(t) ==> t.1 == i + 1 && t.2 < 2 && t.0@.len() >= 2,
        r.3 matches Some(t) ==> ((!r.1 && !r.2) ==> fresh_candidates(t.0@, *final(grid))),
        ({
            let m = m_pair(
                old(grid).spec_width(),
                old(grid).spec_height(),
                old(grid).contents(),
                (ip(old(heads)@[i as int].0), ip(old(heads)@[i as int].1)),
            );
            &&& final(grid).contents() == m.s
            &&& (ip(final(heads)@[i as int].0), ip(final(heads)@[i as int].1)) == m.ends
            &&& r.0 == m.completed
            &&& r.1 == m.progressed
            &&& r.2 == m.stuck
            &&& (r.3 is Some <==> m.target is Some)
            &&& (r.3 matches Some(t) ==> m.target matches Some(mt) && t.0@.map_values(
                |q: (isize, isize)| ip(q),
            ) == mt.cands && t.1 == mt.colour && t.2 == mt.side)
        }),
{
    let pair = heads[i];
    let mut h1 = pair.0;
    let mut h2 = pair.1;
    let ghost gs = *grid;
    let ghost hs0 = heads@;
    let r1 = next_step(&mut h1, h2, grid);
    let ghost gmid = *grid;
    let r2 = next_step(&mut h2, h1, grid);
    let ghost gfin = *grid;
    heads.set(i, (h1, h2));
    proof {
        if !set_head(hs0[i as int].0) {
            lemma_unset_head_stuck(gs, hs0[i as int].0);
        }
        if !set_head(hs0[i as int].1) {
            lemma_unset_head_stuck(gmid, hs0[i as int].1);
        }
        let w = gs.spec_width();
        let hh = gs.spec_height();
        lemma_grid_model(gs);
        lemma_grid_model(gmid);
        lemma_grid_model(gfin);
        lemma_free_model(gs, ip(hs0[i as int].0));
        lemma_free_model(gmid, ip(hs0[i as int].1));
        let n1 = m_next(w, hh, gs.contents(), ip(hs0[i as int].0), ip(hs0[i as int].1));
        assert(gmid.contents() == n1.0);
        assert(ip(h1) == n1.1);
        assert((r1 is Complete) <==> n1.2 is Complete);
        assert((r1 is Impossible) <==> n1.2 is Stuck);
        assert((r1 is ProgressMade) <==> n1.2 is Progress);
        assert((r1 is NoProgress) <==> n1.2 is Ambiguous);
        let n2 = m_next(w, hh, n1.0, ip(hs0[i as int].1), n1.1);
        assert(mfree(w, hh, n1.0, ip(hs0[i as int].1)) == free_neighbors(
            gmid,
            ip(hs0[i as int].1),
        ));
        assert(gfin.contents() == n2.0);
        assert(ip(h2) == n2.1);
        assert((r2 is Complete) <==> n2.2 is Complete);
        assert((r2 is Impossible) <==> n2.2 is Stuck);
        assert((r2 is ProgressMade) <==> n2.2 is Progress);
        assert((r2 is NoProgress) <==> n2.2 is Ambiguous);
        assert(heads_ok(heads@, gfin));
        assert(heads_colored(heads@, gfin)) by {
            assert forall|k: int| 0 <= k < heads@.len() implies {
                &&& (set_head((#[trigger] heads@[k]).0) ==> cell_at(gfin, ip(heads@[k].0)) == k
                    + 1)
                &&& (set_head(heads@[k].1) ==> cell_at(gfin, ip(heads@[k].1)) == k + 1)
            } by {
                if k != i {
                    assert(heads@[k] == hs0[k]);
                }
            }
        }
        assert(preserves_colored(gs, gfin));
        assert(painted_in_range(gs, gfin, hs0.len() as int));
    }
    let mut completed: usize = 0;
    let mut progressed = false;
    let mut impossible = false;
    let mut target: Option<(Vec<(isize, isize)>, u8, usize)> = None;
    let mut skip_second = false;
    match r1 {
        StepResult::ProgressMade => {
            progressed = true;
        },
        StepResult::Complete => {
            completed = 1;
        },
        StepResult::Impossible => {
            impossible = true;
            skip_second = true;
        },
        StepResult::NoProgress(data) => {
            let colour = grid.read(h1.0, h1.1);
            proof {
                assert(set_head(h1));
                assert(colour == i + 1);
                lemma_grid_model(gfin);
                assert(colour == mcell(
                    gs.spec_width(),
                    gs.spec_height(),
                    gfin.contents(),
                    ip(h1).0,
                    ip(h1).1,
                ));
                lemma_free_neighbors_free(gs, ip(hs0[i as int].0));
                assert forall|k: int|
                    0 <= k < data@.len() implies cell_at(gs, ip(#[trigger] data@[k])) == 0 by {
                    assert(data@.map_values(|q: (isize, isize)| ip(q))[k] == ip(data@[k]));
                }
                assert(fresh_candidates(data@, gs));
            }
            target = Some((data, colour, 0));
        },
    }
    if !skip_second {
        match r2 {
            StepResult::ProgressMade => {
                progressed = true;
            },
            StepResult::Complete => {
                completed = completed + 1;
            },
            StepResult::Impossible => {
                impossible = true;
            },
            StepResult::NoProgress(data) => {
                let colour = grid.read(h1.0, h1.1);
                proof {
                    if !set_head(h1) {
                        lemma_unset_head_stuck(gmid, h2);
                    }
                    assert(set_head(h1));
                    assert(colour == i + 1);
                    lemma_grid_model(gfin);
                    assert(colour == mcell(
                        gs.spec_width(),
                        gs.spec_height(),
                        gfin.contents(),
                        ip(h1).0,
                        ip(h1).1,
                    ));
                    lemma_free_neighbors_free(gmid, ip(hs0[i as int].1));
                    assert forall|k: int|
                        0 <= k < data@.len() implies cell_at(gmid, ip(#[trigger] data@[k]))
                        == 0 by {
                        assert(data@.map_values(|q: (isize, isize)| ip(q))[k] == ip(data@[k]));
                    }
                    assert(fresh_candidates(data@, gmid));
                }
                target = Some((data, colour, 1));
            },
        }
    }
    (completed, progressed, impossible, target)
}

/// One full pass over all colours, both ends each.
///
/// Returns `(progress_made, complete_count, impossible, guessing_target)`:
/// whether any end advanced deterministically, how many ends reported
/// completion, whether any end is stuck, and the most recently observed
/// ambiguous end as `(candidates, colour, pair index, side)`.
#[verifier::loop_isolation(false)]
fn sweep(grid: &mut Array2D, heads: &mut Heads) -> (r: (
    bool,
    usize,
    bool,
    Option<(Vec<(isize, isize)>, u8, usize, usize)>,
))
    requires
        old(grid).wf(),
        old(heads)@.len() <= 254,
        heads_ok(old(heads)@, *old(grid)),
        heads_colored(old(heads)@, *old(grid)),
    ensures
        final(grid).wf(),
        same_dims(*old(grid), *final(grid)),
        preserves_colored(*old(grid), *final(grid)),
        painted_in_range(*old(grid), *final(grid), old(heads)@.len() as int),
        final(heads)@.len() == old(heads)@.len(),
        heads_ok(final(heads)@, *final(grid)),
        heads_colored(final(heads)@, *final(grid)),
        r.1 <= 2 * old(heads)@.len(),
        (!r.0 && !r.2 && r.3 is None) ==> r.1 == 2 * old(heads)@.len(),
        r.3 matches Some(t) ==> t.1 == t.2 + 1 && t.2 < old(heads)@.len() && t.3 < 2
            && t.0@.len() >= 2,
        r.3 matches Some(t) ==> ((!r.0 && !r.2) ==> fresh_candidates(t.0@, *final(grid))),
        ({
            let m = m_sweep(
                old(grid).spec_width(),
                old(grid).spec_height(),
                old(grid).contents(),
                heads_model(old(heads)@),
                old(heads)@.len() as int,
            );
            &&& final(grid).contents() == m.s
            &&& heads_model(final(heads)@) == m.hs
            &&& r.1 == m.completed
            &&& r.0 == m.progressed
            &&& r.2 == m.stuck
            &&& (r.3 is Some <==> m.target is Some)
            &&& (r.3 matches Some(t) ==> m.target matches Some(mt) && t.0@.map_values(
                |q: (isize, isize)| ip(q),
            ) == mt.cands && t.1 == mt.colour && t.2 == mt.pair && t.3 == mt.side)
        }),
{
    let ghost g0 = *grid;
    let n = heads.len();
    let mut progress_made = false;
    let mut complete_count: usize = 0;
    let mut impossible = false;
    let mut guessing_target: Option<(Vec<(isize, isize)>, u8, usize, usize)> = None;
    let mut i: usize = 0;
    while i < n
        invariant
            i <= n,
            heads@.len() == n,
            grid.wf(),
            same_dims(g0, *grid),
            preserves_colored(g0, *grid),
            painted_in_range(g0, *grid, n as int),
            heads_ok(heads@, *grid),
            heads_colored(heads@, *grid),
            complete_count <= 2 * i,
            (!progress_made && !impossible) ==> *grid == g0,
            (!progress_made && !impossible && guessing_target is None) ==> complete_count == 2
                * i,
            guessing_target matches Some(t) ==> t.1 == t.2 + 1 && t.2 < n && t.3 < 2
                && t.0@.len() >= 2,
            guessing_target matches Some(t) ==> ((!progress_made && !impossible)
                ==> fresh_candidates(t.0@, *grid)),
            ({
                let m = m_sweep(
                    g0.spec_width(),
                    g0.spec_height(),
                    g0.contents(),
                    heads_model(old(heads)@),
                    i as int,
                );
                &&& grid.contents() == m.s
                &&& heads_model(heads@) == m.hs
                &&& complete_count == m.completed
                &&& progress_made == m.progressed
                &&& impossible == m.stuck
                &&& (guessing_target is Some <==> m.target is Some)
                &&& (guessing_target matches Some(t) ==> m.target matches Some(mt)
                    && t.0@.map_values(|q: (isize, isize)| ip(q)) == mt.cands && t.1
                    == mt.colour && t.2 == mt.pair && t.3 == mt.side)
            }),
        decreases n - i,
    {
        let ghost hpre = heads@;
        let (completed, progressed, stuck, target) = advance_pair(grid, heads, i);
        proof {
            assert(heads_model(hpre)[i as int] == (ip(hpre[i as int].0), ip(
                hpre[i as int].1,
            )));
            assert(heads_model(heads@) =~= heads_model(hpre).update(
                i as int,
                (ip(heads@[i as int].0), ip(heads@[i as int].1)),
            ));
        }
        if completed > 0 {
            complete_count = complete_count + completed;
        }
        if progressed {
            progress_made = true;
        }
        if stuck {
            impossible = true;
        }
        match target {
            Option::Some(t) => {
                let (candidates, colour, side) = t;
                guessing_target = Some((candidates, colour, i, side));
            },
            Option::None => {},
        }
        i += 1;
    }
    (progress_made, complete_count, impossible, guessing_target)
}

/// A snapshot taken when a guess is committed: the pre-guess grid and
/// heads, the untried candidates, and which end of which colour guessed.
struct Checkpoint {
    grid: Array2D,
    heads: Heads,
    remaining: Vec<(isize, isize)>,
    colour: u8,
    pair: usize,
    side: usize,
}

spec fn checkpoint_inv(c: Checkpoint, g0: Array2D, n: int) -> bool {
    &&& c.grid.wf()
    &&& same_dims(g0, c.grid)
    &&& preserves_colored(g0, c.grid)
    &&& painted_in_range(g0, c.grid, n)
    &&& c.heads@.len() == n
    &&& heads_ok(c.heads@, c.grid)
    &&& heads_colored(c.heads@, c.grid)
    &&& c.pair < n
    &&& c.side < 2
    &&& c.colour == c.pair + 1
    &&& fresh_candidates(c.remaining@, c.grid)
}

/// An element-for-element copy of a head list.
#[verifier::loop_isolation(false)]
fn clone_heads(hs: &Heads) -> (r: Heads)
    ensures
        r@ == hs@,
{
    let mut r: Heads = Vec::new();
    let mut i: usize = 0;
    while i < hs.len()
        invariant
            i <= hs@.len(),
            r@ =~= hs@.take(i as int),
        decreases hs@.len() - i,
    {
        r.push(hs[i]);
        i += 1;
        proof {
            assert(r@ =~= hs@.take(i as int));
        }
    }
    proof {
        assert(hs@.take(hs@.len() as int) =~= hs@);
    }
    r
}

/// Solve a puzzle: repeatedly sweep, guess on a stall, and backtrack on a
/// contradiction, for at most 100 sweeps.
///
/// The returned flag reports whether a sweep saw every end complete;
/// whatever the outcome, the returned grid keeps every colour the input
/// already had, and any newly painted cell holds a colour id of one of the
/// given pairs.  The result is exactly what the functional model
/// [`m_solve`] computes from the input, which fixes every tie-break and
/// makes the solver reproducible (see [`lemma_solve_deterministic`]).
#[verifier::loop_isolation(false)]
pub fn solve(grid: Array2D, heads: Heads) -> (res: (Array2D, bool))
    requires
        grid.wf(),
        heads@.len() <= 254,
        heads_ok(heads@, grid),
        heads_colored(heads@, grid),
    ensures
        res.0.wf(),
        same_dims(grid, res.0),
        preserves_colored(grid, res.0),
        painted_in_range(grid, res.0, heads@.len() as int),
        ({
            let m = m_solve(
                grid.spec_width(),
                grid.spec_height(),
                grid.contents(),
                heads_model(heads@),
                0,
                Seq::<MCheck>::empty(),
            );
            res.0.contents() == m.0 && res.1 == m.1
        }),
{
    let ghost g0 = grid;
    let ghost hs0 = heads@;
    let mut grid = grid;
    let mut heads = heads;
    let n = heads.len();
    let mut max_iter_count: usize = 0;
    let mut undo_stack: Vec<Checkpoint> = Vec::new();
    proof {
        assert(stack_model(undo_stack@) =~= Seq::<MCheck>::empty());
    }
    loop
        invariant
            grid.wf(),
            g0.wf(),
            same_dims(g0, grid),
            preserves_colored(g0, grid),
            painted_in_range(g0, grid, n as int),
            heads@.len() == n,
            n <= 254,
            heads_ok(heads@, grid),
            heads_colored(heads@, grid),
            forall|k: int|
                0 <= k < undo_stack@.len() ==> checkpoint_inv(
                    #[trigger] undo_stack@[k],
                    g0,
                    n as int,
                ),
            max_iter_count <= 100,
            m_solve(
                g0.spec_width(),
                g0.spec_height(),
                g0.contents(),
                heads_model(hs0),
                0,
                Seq::<MCheck>::empty(),
            ) == m_solve(
                g0.spec_width(),
                g0.spec_height(),
                grid.contents(),
                heads_model(heads@),
                max_iter_count as int,
                stack_model(undo_stack@),
            ),
        decreases 100 - max_iter_count,
    {
        let ghost mic0 = max_iter_count as int;
        let ghost spre_g = grid;
        let ghost spre_h = heads@;
        let ghost spre_stack = undo_stack@;
        let ghost wi = g0.spec_width();
        let ghost hi = g0.spec_height();
        max_iter_count += 1;
        if max_iter_count >= 100 {
            proof {
                assert(m_solve(
                    wi,
                    hi,
                    spre_g.contents(),
                    heads_model(spre_h),
                    mic0,
                    stack_model(spre_stack),
                ) == (grid.contents(), false, heads_model(heads@)));
            }
            return (grid, false);
        }
        let (progress_made, complete_count, impossible, guessing_target) = sweep(
            &mut grid,
            &mut heads,
        );
        let ghost swm = m_sweep(wi, hi, spre_g.contents(), heads_model(spre_h), n as int);
        proof {
            assert(heads_model(spre_h).len() == n);
            assert(grid.contents() == swm.s);
            assert(heads_model(heads@) == swm.hs);
        }
        if complete_count >= n * 2 {
            // every end of every colour reported completion this sweep
            proof {
                assert(m_solve(
                    wi,
                    hi,
                    spre_g.contents(),
                    heads_model(spre_h),
                    mic0,
                    stack_model(spre_stack),
                ) == (grid.contents(), true, heads_model(heads@)));
            }
            return (grid, true);
        }
        if impossible {
            if undo_stack.len() > 0 {
                let mut top = undo_stack.pop().unwrap();
                if top.remaining.len() > 0 {
                    let next_split = top.remaining.pop().unwrap();
                    proof {
                        assert(fresh_candidates(top.remaining@, top.grid));
                        assert(cell_at(top.grid, ip(next_split)) == 0);
                    }
                    grid = top.grid.clone();
                    heads = clone_heads(&top.heads);
                    proof {
                        assert(preserves_colored(g0, grid));
                        assert(painted_in_range(g0, grid, n as int));
                        assert(heads_ok(heads@, grid));
                        assert(heads_colored(heads@, grid));
                        assert(grid.cell(ip(next_split).0, ip(next_split).1) == 0);
                    }
                    grid.write(next_split.0, next_split.1, top.colour);
                    let pr = heads[top.pair];
                    if top.side == 0 {
                        heads.set(top.pair, (next_split, pr.1));
                    } else {
                        heads.set(top.pair, (pr.0, next_split));
                    }
                    proof {
                        assert(heads_ok(heads@, grid));
                        assert(heads_colored(heads@, grid)) by {
                            assert forall|k: int| 0 <= k < heads@.len() implies {
                                &&& (set_head((#[trigger] heads@[k]).0) ==> cell_at(
                                    grid,
                                    ip(heads@[k].0),
                                ) == k + 1)
                                &&& (set_head(heads@[k].1) ==> cell_at(grid, ip(heads@[k].1))
                                    == k + 1)
                            } by {
                                if k != top.pair {
                                    assert(heads@[k] == top.heads@[k]);
                                }
                            }
                        }
                        assert(checkpoint_inv(top, g0, n as int));
                    }
                    undo_stack.push(top);
                    proof {
                        let topm0 = checkpoint_model(spre_stack.last());
                        assert(stack_model(spre_stack).last() == topm0);
                        assert(stack_model(spre_stack).len() == spre_stack.len());
                        assert(topm0.remaining.len() > 0);
                        assert(ip(next_split) == topm0.remaining.last());
                        let applied = m_apply_guess(
                            wi,
                            topm0.s,
                            topm0.hs,
                            topm0.remaining.last(),
                            topm0.colour,
                            topm0.pair,
                            topm0.side,
                        );
                        assert(grid.contents() == applied.0);
                        assert(heads_model(heads@) =~= applied.1);
                        let top2 = MCheck {
                            s: topm0.s,
                            hs: topm0.hs,
                            remaining: topm0.remaining.drop_last(),
                            colour: topm0.colour,
                            pair: topm0.pair,
                            side: topm0.side,
                        };
                        assert(top.remaining@.map_values(|q: (isize, isize)| ip(q))
                            =~= topm0.remaining.drop_last());
                        assert(checkpoint_model(top) == top2);
                        assert(stack_model(undo_stack@) =~= stack_model(spre_stack).update(
                            spre_stack.len() - 1,
                            top2,
                        ));
                        assert(m_solve(
                            wi,
                            hi,
                            spre_g.contents(),
                            heads_model(spre_h),
                            mic0,
                            stack_model(spre_stack),
                        ) == m_solve(
                            wi,
                            hi,
                            grid.contents(),
                            heads_model(heads@),
                            mic0 + 1,
                            stack_model(undo_stack@),
                        ));
                    }
                } else {
                    // an exhausted checkpoint stays popped: that guess was
                    // wrong
                    proof {
                        assert(stack_model(undo_stack@) =~= stack_model(
                            spre_stack,
                        ).drop_last());
                        assert(m_solve(
                            wi,
                            hi,
                            spre_g.contents(),
                            heads_model(spre_h),
                            mic0,
                            stack_model(spre_stack),
                        ) == m_solve(
                            wi,
                            hi,
                            grid.contents(),
                            heads_model(heads@),
                            mic0 + 1,
                            stack_model(undo_stack@),
                        ));
                    }
                }
            } else {
                // the base grid itself is impossible
                proof {
                    assert(stack_model(spre_stack).len() == 0);
                    assert(m_solve(
                        wi,
                        hi,
                        spre_g.contents(),
                        heads_model(spre_h),
                        mic0,
                        stack_model(spre_stack),
                    ) == (grid.contents(), false, heads_model(heads@)));
                }
                return (grid, false);
            }
        } else if !progress_made {
            // a genuine stall: commit a guess on the last ambiguous end
            let target = guessing_target.unwrap();
            let (mut split, colour, pair_idx, side) = target;
            let next_split = split.pop().unwrap();
            assert(split.len() != 0);
            proof {
                assert(fresh_candidates(split@, grid));
                assert(cell_at(grid, ip(next_split)) == 0);
            }
            let snapshot = Checkpoint {
                grid: grid.clone(),
                heads: clone_heads(&heads),
                remaining: split,
                colour,
                pair: pair_idx,
                side,
            };
            proof {
                assert(preserves_colored(g0, snapshot.grid));
                assert(painted_in_range(g0, snapshot.grid, n as int));
                assert(heads_ok(snapshot.heads@, snapshot.grid));
                assert(heads_colored(snapshot.heads@, snapshot.grid));
                assert(fresh_candidates(snapshot.remaining@, snapshot.grid));
                assert(checkpoint_inv(snapshot, g0, n as int));
            }
            undo_stack.push(snapshot);
            grid.write(next_split.0, next_split.1, colour);
            let pr = heads[pair_idx];
            if side == 0 {
                heads.set(pair_idx, (next_split, pr.1));
            } else {
                heads.set(pair_idx, (pr.0, next_split));
            }
            proof {
                assert(heads_ok(heads@, grid));
                assert(heads_colored(heads@, grid)) by {
                    assert forall|k: int| 0 <= k < heads@.len() implies {
                        &&& (set_head((#[trigger] heads@[k]).0) ==> cell_at(
                            grid,
                            ip(heads@[k].0),
                        ) == k + 1)
                        &&& (set_head(heads@[k].1) ==> cell_at(grid, ip(heads@[k].1)) == k
                            + 1)
                    } by {
                        if k != pair_idx {
                            assert(heads@[k] == snapshot.heads@[k]);
                        }
                    }
                }
                let mt = swm.target.unwrap();
                assert(split@.map_values(|q: (isize, isize)| ip(q)) =~= mt.cands.drop_last());
                assert(ip(next_split) == mt.cands.last());
                let ck = MCheck {
                    s: swm.s,
                    hs: swm.hs,
                    remaining: mt.cands.drop_last(),
                    colour: mt.colour,
                    pair: mt.pair,
                    side: mt.side,
                };
                assert(checkpoint_model(snapshot) == ck);
                assert(stack_model(undo_stack@) =~= stack_model(spre_stack).push(ck));
                let applied = m_apply_guess(
                    wi,
                    swm.s,
                    swm.hs,
                    mt.cands.last(),
                    mt.colour,
                    mt.pair,
                    mt.side,
                );
                assert(grid.contents() == applied.0);
                assert(heads_model(heads@) =~= applied.1);
                assert(m_solve(
                    wi,
                    hi,
                    spre_g.contents(),
                    heads_model(spre_h),
                    mic0,
                    stack_model(spre_stack),
                ) == m_solve(
                    wi,
                    hi,
                    grid.contents(),
                    heads_model(heads@),
                    mic0 + 1,
                    stack_model(undo_stack@),
                ));
            }
        } else {
            // deterministic progress only: sweep again from the new state
            proof {
                assert(m_solve(
                    wi,
                    hi,
                    spre_g.contents(),
                    heads_model(spre_h),
                    mic0,
                    stack_model(spre_stack),
                ) == m_solve(
                    wi,
                    hi,
                    grid.contents(),
                    heads_model(heads@),
                    mic0 + 1,
                    stack_model(undo_stack@),
                ));
            }
        }
    }
}

/// Why an input byte sequence was rejected.
#[derive(Debug, PartialEq, Eq, Structural, Clone, Copy)]
pub enum InputError {
    /// This colour id occurred more than twice.
    ColorTooOften(u8),
    /// The reserved id `255` occurred as an input colour.
    ReservedColor,
}

/// How often `c` occurs in `s`.
pub open spec fn occurrences(s: Seq<u8>, c: u8) -> int
    decreases s.len(),
{
    if s.len() == 0 {
        0
    } else {
        occurrences(s.drop_last(), c) + if s.last() == c {
            1int
        } else {
            0int
        }
    }
}

/// A well-formed input never uses the reserved id and names every colour at
/// most twice.
pub open spec fn valid_points(s: Seq<u8>) -> bool {
    &&& forall|k: int| 0 <= k < s.len() ==> #[trigger] s[k] != 255
    &&& forall|c: u8| 1 <= c <= 254 ==> #[trigger] occurrences(s, c) <= 2
}

/// Position `k` is where a scan of `s` first goes wrong: either the
/// reserved id, or a third occurrence of a colour.
pub open spec fn violation_at(s: Seq<u8>, k: int) -> bool {
    s[k] == 255 || (s[k] != 0 && occurrences(s.take(k + 1), s[k]) > 2)
}

/// The grid coordinate of row-major index `k` in a grid `w` cells wide.
pub open spec fn coord_of(k: int, w: int) -> (isize, isize) {
    ((k % w) as isize, (k / w) as isize)
}

pub open spec fn unset_pair() -> ((isize, isize), (isize, isize)) {
    ((-1isize, -1isize), (-1isize, -1isize))
}

/// The cell of `g` at row-major index `k`, for a grid `w` cells wide.
pub open spec fn cell_rm(g: Array2D, w: int, k: int) -> u8 {
    g.cell(k % w, k / w)
}

proof fn lemma_occurrences_push(s: Seq<u8>, c: u8, i: int)
    requires
        0 <= i < s.len(),
    ensures
        occurrences(s.take(i + 1), c) == occurrences(s.take(i), c) + if s[i] == c {
            1int
        } else {
            0int
        },
{
    assert(s.take(i + 1).drop_last() =~= s.take(i));
    assert(s.take(i + 1).last() == s[i]);
}

proof fn lemma_occurrences_bounds(s: Seq<u8>, c: u8)
    ensures
        0 <= occurrences(s, c) <= s.len(),
    decreases s.len(),
{
    if s.len() > 0 {
        lemma_occurrences_bounds(s.drop_last(), c);
    }
}

proof fn lemma_occurrences_take_le(s: Seq<u8>, c: u8, j: int)
    requires
        0 <= j <= s.len(),
    ensures
        occurrences(s.take(j), c) <= occurrences(s, c),
    decreases s.len() - j,
{
    if j < s.len() {
        lemma_occurrences_push(s, c, j);
        lemma_occurrences_take_le(s, c, j + 1);
    } else {
        assert(s.take(j) =~= s);
    }
}

proof fn lemma_occurrences_none(s: Seq<u8>, c: u8)
    requires
        forall|k: int| 0 <= k < s.len() ==> #[trigger] s[k] != c,
    ensures
        occurrences(s, c) == 0,
    decreases s.len(),
{
    if s.len() > 0 {
        lemma_occurrences_none(s.drop_last(), c);
    }
}

/// The pair stored for colour `c` names exactly the first and second
/// occurrence of `c` in the input, in row-major order, with `(-1, -1)` for
/// an occurrence that does not exist.
pub open spec fn pair_matches(
    s: Seq<u8>,
    w: int,
    c: u8,
    pr: ((isize, isize), (isize, isize)),
) -> bool {
    &&& occurrences(s, c) <= 2
    &&& (occurrences(s, c) == 0 ==> pr == unset_pair())
    &&& (occurrences(s, c) == 1 ==> exists|k: int|
        0 <= k < s.len() && #[trigger] s[k] == c && pr == (coord_of(k, w), (-1isize, -1isize)))
    &&& (occurrences(s, c) == 2 ==> exists|k1: int, k2: int|
        0 <= k1 < k2 < s.len() && #[trigger] s[k1] == c && #[trigger] s[k2] == c && pr == (
        coord_of(k1, w),
        coord_of(k2, w),
    ))
}

/// Build the initial grid and head-pair list from a flat row-major byte
/// sequence (`0` = empty, `1..=254` = colour id).
///
/// Malformed input — the reserved id `255`, or a colour id occurring more
/// than twice — is rejected with an error naming the first offence in scan
/// order.
#[verifier::loop_isolation(false)]
#[verifier::rlimit(60)]
pub fn make_grid_and_pairs(size: (usize, usize), points: &Vec<u8>) -> (r: Result<
    (Array2D, Heads),
    InputError,
>)
    requires
        1 <= size.0,
        1 <= size.1,
        size.0 * size.1 <= isize::MAX as int,
        points@.len() == size.0 * size.1,
    ensures
        (r is Ok) <==> valid_points(points@),
        r matches Ok(p) ==> {
            &&& p.0.wf()
            &&& p.0.spec_width() == size.0
            &&& p.0.spec_height() == size.1
            &&& forall|k: int|
                0 <= k < points@.len() ==> p.0.cell(k % (size.0 as int), k / (size.0 as int))
                    == points@[k]
            &&& p.1@.len() <= 254
            &&& heads_ok(p.1@, p.0)
            &&& heads_colored(p.1@, p.0)
            &&& forall|k: int|
                0 <= k < points@.len() ==> points@[k] == 0 || #[trigger] points@[k] <= p.1@.len()
            &&& (p.1@.len() == 0 || exists|k: int|
                0 <= k < points@.len() && #[trigger] points@[k] == p.1@.len())
            &&& forall|c: u8|
                1 <= c <= p.1@.len() ==> pair_matches(
                    points@,
                    size.0 as int,
                    c,
                    #[trigger] p.1@[c - 1],
                )
        },
        r matches Err(e) ==> exists|k: int|
            {
                &&& 0 <= k < points@.len()
                &&& #[trigger] violation_at(points@, k)
                &&& forall|j: int| 0 <= j < k ==> !violation_at(points@, j)
                &&& e == (if points@[k] == 255 {
                    InputError::ReservedColor
                } else {
                    InputError::ColorTooOften(points@[k])
                })
            },
{
    let w = size.0;
    let h = size.1;
    let ghost s = points@;
    let ghost wi = w as int;
    let n = points.len();
    proof {
        assert(wi <= wi * (h as int) && h as int <= wi * (h as int)) by (nonlinear_arith)
            requires
                1 <= wi,
                1 <= h as int,
        ;
    }
    let mut grid = Array2D::new(w, h);
    proof {
        assert forall|k: int| 0 <= k < n implies #[trigger] cell_rm(grid, wi, k) == 0 by {
            lemma_row_major_split(wi, h as int, k);
        }
    }
    let mut heads: Heads = Vec::new();
    let mut i: usize = 0;
    while i < n
        invariant
            i <= n,
            n == s.len(),
            grid.wf(),
            grid.spec_width() == wi,
            grid.spec_height() == h,
            forall|k: int| 0 <= k < i ==> #[trigger] cell_rm(grid, wi, k) == s[k],
            forall|k: int| i <= k < n ==> #[trigger] cell_rm(grid, wi, k) == 0,
            heads@.len() <= 254,
            heads_ok(heads@, grid),
            heads_colored(heads@, grid),
            forall|k: int|
                0 <= k < i ==> s[k] == 0 || (#[trigger] s[k] != 255 && s[k] <= heads@.len()),
            heads@.len() == 0 || exists|k: int| 0 <= k < i && #[trigger] s[k] == heads@.len(),
            forall|c: u8|
                1 <= c <= heads@.len() ==> pair_matches(
                    s.take(i as int),
                    wi,
                    c,
                    #[trigger] heads@[c - 1],
                ),
            forall|j: int| 0 <= j < i ==> !violation_at(s, j),
        decreases n - i,
    {
        let p = points[i];
        let ghost spre = s.take(i as int);
        proof {
            lemma_row_major_split(wi, h as int, i as int);
            assert(s.take(i as int + 1).drop_last() =~= spre);
            assert(s.take(i as int + 1)[i as int] == s[i as int]);
        }
        if p == 255 {
            proof {
                assert(violation_at(s, i as int));
            }
            return Err(InputError::ReservedColor);
        }
        if p > 0 {
            let x = i % w;
            let y = i / w;
            let ghost gpre = grid;
            grid.set_abs(i, p);
            proof {
                assert forall|k: int| 0 <= k < i implies #[trigger] cell_rm(grid, wi, k)
                    == s[k] by {
                    lemma_row_major_split(wi, h as int, k);
                    lemma_row_major_split(wi, h as int, i as int);
                    assert(!(k % wi == i as int % wi && k / wi == i as int / wi));
                    assert(cell_rm(gpre, wi, k) == s[k]);
                }
                assert forall|k: int|
                    i + 1 <= k < n implies #[trigger] cell_rm(grid, wi, k) == 0 by {
                    lemma_row_major_split(wi, h as int, k);
                    lemma_row_major_split(wi, h as int, i as int);
                    assert(!(k % wi == i as int % wi && k / wi == i as int / wi));
                    assert(cell_rm(gpre, wi, k) == 0);
                }
                assert(grid.cell(i as int % wi, i as int / wi) == p);
                assert(heads_colored(heads@, grid)) by {
                    assert forall|cc: int| 0 <= cc < heads@.len() implies {
                        &&& (set_head((#[trigger] heads@[cc]).0) ==> cell_at(
                            grid,
                            ip(heads@[cc].0),
                        ) == cc + 1)
                        &&& (set_head(heads@[cc].1) ==> cell_at(grid, ip(heads@[cc].1)) == cc
                            + 1)
                    } by {
                        assert(cell_rm(gpre, wi, i as int) == 0);
                        assert(gpre.cell(i as int % wi, i as int / wi) == 0);
                        if set_head(heads@[cc].0) {
                            assert(cell_at(gpre, ip(heads@[cc].0)) == cc + 1);
                        }
                        if set_head(heads@[cc].1) {
                            assert(cell_at(gpre, ip(heads@[cc].1)) == cc + 1);
                        }
                    }
                }
            }
            let c = p as usize;
            let ghost lenpre = heads@.len();
            while heads.len() < c
                invariant
                    lenpre <= heads@.len(),
                    heads@.len() <= c || heads@.len() == lenpre,
                    c <= 254,
                    heads_ok(heads@, grid),
                    heads_colored(heads@, grid),
                    forall|cc: u8|
                        1 <= cc <= heads@.len() ==> pair_matches(
                            spre,
                            wi,
                            cc,
                            #[trigger] heads@[cc - 1],
                        ),
                decreases c - heads@.len(),
            {
                proof {
                    let cc = (heads@.len() + 1) as u8;
                    assert(cc > lenpre);
                    if exists|k: int| 0 <= k < spre.len() && #[trigger] spre[k] == cc {
                        let k = choose|k: int| 0 <= k < spre.len() && #[trigger] spre[k] == cc;
                        assert(s[k] == 0 || (s[k] != 255 && s[k] <= lenpre));
                        assert(false);
                    }
                    lemma_occurrences_none(spre, cc);
                }
                heads.push(((-1isize, -1isize), (-1isize, -1isize)));
            }
            let pair = heads[c - 1];
            let ghost hpre = heads@;
            let xi = x as isize;
            let yi = y as isize;
            proof {
                assert(ip((xi, yi)) == (i as int % wi, i as int / wi));
                assert(coord_of(i as int, wi) == (xi, yi));
                lemma_occurrences_push(s, p, i as int);
                assert(pair == heads@[p - 1]);
                assert(pair_matches(spre, wi, p, pair));
                lemma_occurrences_bounds(spre, p);
            }
            if pair.0.0 == -1 && pair.0.1 == -1 {
                proof {
                    assert(occurrences(spre, p) == 0) by {
                        if occurrences(spre, p) == 1 {
                            let k = choose|k: int|
                                0 <= k < spre.len() && #[trigger] spre[k] == p && pair == (
                                    coord_of(k, wi),
                                    (-1isize, -1isize),
                                );
                            lemma_row_major_split(wi, h as int, k);
                            assert(false);
                        }
                        if occurrences(spre, p) == 2 {
                            let (k1, k2) = choose|k1: int, k2: int|
                                0 <= k1 < k2 < spre.len() && #[trigger] spre[k1] == p
                                    && #[trigger] spre[k2] == p && pair == (
                                    coord_of(k1, wi),
                                    coord_of(k2, wi),
                                );
                            lemma_row_major_split(wi, h as int, k1);
                            assert(false);
                        }
                    }
                    assert(pair == unset_pair());
                }
                heads.set(c - 1, ((xi, yi), pair.1));
                proof {
                    assert(heads@[c - 1] == ((xi, yi), (-1isize, -1isize)));
                    assert forall|cc: u8|
                        1 <= cc <= heads@.len() implies pair_matches(
                        s.take(i as int + 1),
                        wi,
                        cc,
                        #[trigger] heads@[cc - 1],
                    ) by {
                        lemma_occurrences_push(s, cc, i as int);
                        if cc == p {
                            assert(occurrences(s.take(i as int + 1), p) == 1);
                            let ii = i as int;
                            assert(0 <= ii < s.take(ii + 1).len() && s.take(ii + 1)[ii] == p
                                && heads@[cc - 1] == (coord_of(ii, wi), (-1isize, -1isize)));
                        } else {
                            assert(heads@[cc - 1] == hpre[cc - 1]);
                            lemma_pair_matches_extend(s, wi, i as int, cc, heads@[cc - 1]);
                        }
                    }
                    assert(heads_ok(heads@, grid));
                    assert(heads_colored(heads@, grid)) by {
                        assert forall|cc: int| 0 <= cc < heads@.len() implies {
                            &&& (set_head((#[trigger] heads@[cc]).0) ==> cell_at(
                                grid,
                                ip(heads@[cc].0),
                            ) == cc + 1)
                            &&& (set_head(heads@[cc].1) ==> cell_at(grid, ip(heads@[cc].1))
                                == cc + 1)
                        } by {
                            if cc != c - 1 {
                                assert(heads@[cc] == hpre[cc]);
                            } else {
                                assert(cell_at(grid, ip((xi, yi))) == p);
                            }
                        }
                    }
                }
            } else if pair.1.0 == -1 && pair.1.1 == -1 {
                proof {
                    assert(occurrences(spre, p) != 0);
                    assert(occurrences(spre, p) != 2) by {
                        if occurrences(spre, p) == 2 {
                            let (k1, k2) = choose|k1: int, k2: int|
                                0 <= k1 < k2 < spre.len() && #[trigger] spre[k1] == p
                                    && #[trigger] spre[k2] == p && pair == (
                                    coord_of(k1, wi),
                                    coord_of(k2, wi),
                                );
                            lemma_row_major_split(wi, h as int, k2);
                            assert(false);
                        }
                    }
                    assert(occurrences(spre, p) == 1);
                }
                heads.set(c - 1, (pair.0, (xi, yi)));
                proof {
                    let ghost k0 = choose|k: int|
                        0 <= k < spre.len() && #[trigger] spre[k] == p && pair == (
                            coord_of(k, wi),
                            (-1isize, -1isize),
                        );
                    assert(heads@[c - 1] == (coord_of(k0, wi), (xi, yi)));
                    assert forall|cc: u8|
                        1 <= cc <= heads@.len() implies pair_matches(
                        s.take(i as int + 1),
                        wi,
                        cc,
                        #[trigger] heads@[cc - 1],
                    ) by {
                        lemma_occurrences_push(s, cc, i as int);
                        if cc == p {
                            assert(occurrences(s.take(i as int + 1), p) == 2);
                            assert(s.take(i as int + 1)[k0] == p);
                            let ii = i as int;
                            assert(0 <= k0 < ii < s.take(ii + 1).len() && s.take(ii + 1)[k0]
                                == p && s.take(ii + 1)[ii] == p && heads@[cc - 1] == (
                                coord_of(k0, wi),
                                coord_of(ii, wi),
                            ));
                        } else {
                            assert(heads@[cc - 1] == hpre[cc - 1]);
                            lemma_pair_matches_extend(s, wi, i as int, cc, heads@[cc - 1]);
                        }
                    }
                    assert(heads_ok(heads@, grid)) by {
                        lemma_row_major_split(wi, h as int, k0);
                    }
                    assert(heads_colored(heads@, grid)) by {
                        assert forall|cc: int| 0 <= cc < heads@.len() implies {
                            &&& (set_head((#[trigger] heads@[cc]).0) ==> cell_at(
                                grid,
                                ip(heads@[cc].0),
                            ) == cc + 1)
                            &&& (set_head(heads@[cc].1) ==> cell_at(grid, ip(heads@[cc].1))
                                == cc + 1)
                        } by {
                            if cc != c - 1 {
                                assert(heads@[cc] == hpre[cc]);
                            } else {
                                assert(heads@[cc].0 == pair.0);
                                assert(set_head(pair.0) ==> cell_at(grid, ip(pair.0)) == cc
                                    + 1);
                                assert(cell_at(grid, ip((xi, yi))) == p);
                            }
                        }
                    }
                }
            } else {
                proof {
                    assert(occurrences(spre, p) == 2) by {
                        if occurrences(spre, p) == 0 {
                            assert(pair == unset_pair());
                            assert(false);
                        }
                        if occurrences(spre, p) == 1 {
                            let k = choose|k: int|
                                0 <= k < spre.len() && #[trigger] spre[k] == p && pair == (
                                    coord_of(k, wi),
                                    (-1isize, -1isize),
                                );
                            assert(false);
                        }
                    }
                    assert(occurrences(s.take(i as int + 1), p) == 3);
                    assert(violation_at(s, i as int));
                    lemma_occurrences_take_le(s, p, i as int + 1);
                    assert(!valid_points(s));
                }
                return Err(InputError::ColorTooOften(p));
            }
            proof {
                if heads@.len() != lenpre {
                    assert(s[i as int] == heads@.len());
                }
            }
        } else {
            proof {
                assert forall|cc: u8|
                    1 <= cc <= heads@.len() implies pair_matches(
                    s.take(i as int + 1),
                    wi,
                    cc,
                    #[trigger] heads@[cc - 1],
                ) by {
                    lemma_pair_matches_extend(s, wi, i as int, cc, heads@[cc - 1]);
                }
            }
        }
        i += 1;
    }
    proof {
        assert(s.take(n as int) =~= s);
        assert forall|k: int|
            0 <= k < s.len() implies grid.cell(k % wi, k / wi) == s[k] by {
            assert(cell_rm(grid, wi, k) == s[k]);
        }
        assert(valid_points(s)) by {
            assert forall|c: u8| 1 <= c <= 254 implies #[trigger] occurrences(s, c) <= 2 by {
                if c <= heads@.len() {
                    assert(pair_matches(s, wi, c, heads@[c - 1]));
                } else {
                    if exists|k: int| 0 <= k < s.len() && #[trigger] s[k] == c {
                        let k = choose|k: int| 0 <= k < s.len() && #[trigger] s[k] == c;
                        assert(s[k] == 0 || (s[k] != 255 && s[k] <= heads@.len()));
                        assert(false);
                    }
                    lemma_occurrences_none(s, c);
                }
            }
        }
    }
    Ok((grid, heads))
}

/// Extending the scanned prefix with a byte of a different colour keeps the
/// pair characterisation of every colour.
proof fn lemma_pair_matches_extend(
    s: Seq<u8>,
    w: int,
    i: int,
    c: u8,
    pr: ((isize, isize), (isize, isize)),
)
    requires
        0 <= i < s.len(),
        s[i] != c,
        pair_matches(s.take(i), w, c, pr),
    ensures
        pair_matches(s.take(i + 1), w, c, pr),
{
    lemma_occurrences_push(s, c, i);
    let t0 = s.take(i);
    let t1 = s.take(i + 1);
    assert(occurrences(t1, c) == occurrences(t0, c));
    if occurrences(t0, c) == 1 {
        let k = choose|k: int|
            0 <= k < t0.len() && #[trigger] t0[k] == c && pr == (
                coord_of(k, w),
                (-1isize, -1isize),
            );
        assert(t1[k] == c);
        assert(0 <= k < t1.len() && t1[k] == c && pr == (coord_of(k, w), (-1isize, -1isize)));
    }
    if occurrences(t0, c) == 2 {
        let (k1, k2) = choose|k1: int, k2: int|
            0 <= k1 < k2 < t0.len() && #[trigger] t0[k1] == c && #[trigger] t0[k2] == c && pr
                == (coord_of(k1, w), coord_of(k2, w));
        assert(t1[k1] == c && t1[k2] == c);
        assert(0 <= k1 < k2 < t1.len() && t1[k1] == c && t1[k2] == c && pr == (
            coord_of(k1, w),
            coord_of(k2, w),
        ));
    }
}

// ------------------------------------------------------------------
// A functional model of the whole search.
//
// The model works on the grid's raw contents (a row-major byte sequence
// with fixed dimensions) and mathematical coordinates, and retraces the
// solver decision for decision.  `solve` promises to return exactly what
// the model computes, which pins the solver's result — including every
// tie-break — as a function of its input: re-running it on a fresh copy
// of the same input reproduces the same grid and flag.
// ------------------------------------------------------------------
/// The value at `(x, y)` of a model grid, with the usual sentinel.
pub open spec fn mcell(w: int, h: int, s: Seq<u8>, x: int, y: int) -> u8 {
    if 0 <= x < w && 0 <= y < h {
        s[y * w + x]
    } else {
        255
    }
}

/// The unclaimed neighbours of `p` in a model grid, in scan order.
pub open spec fn mfree(w: int, h: int, s: Seq<u8>, p: (int, int)) -> Seq<(int, int)> {
    (if mcell(w, h, s, east(p).0, east(p).1) == 0 {
        seq![east(p)]
    } else {
        Seq::<(int, int)>::empty()
    }) + (if mcell(w, h, s, west(p).0, west(p).1) == 0 {
        seq![west(p)]
    } else {
        Seq::<(int, int)>::empty()
    }) + (if mcell(w, h, s, south(p).0, south(p).1) == 0 {
        seq![south(p)]
    } else {
        Seq::<(int, int)>::empty()
    }) + (if mcell(w, h, s, north(p).0, north(p).1) == 0 {
        seq![north(p)]
    } else {
        Seq::<(int, int)>::empty()
    })
}

/// A well-formed grid reads exactly as the model of its contents.
proof fn lemma_grid_model(g: Array2D)
    requires
        g.wf(),
    ensures
        g.contents().len() == g.spec_width() * g.spec_height(),
        forall|x: int, y: int|
            #[trigger] g.cell(x, y) == mcell(
                g.spec_width(),
                g.spec_height(),
                g.contents(),
                x,
                y,
            ),
{
    crate::grid::lemma_cell_contents(g);
}

/// The free neighbours of a well-formed grid match the model's.
proof fn lemma_free_model(g: Array2D, p: (int, int))
    requires
        g.wf(),
    ensures
        free_neighbors(g, p) == mfree(g.spec_width(), g.spec_height(), g.contents(), p),
{
    lemma_grid_model(g);
    assert(free_neighbors(g, p) =~= mfree(
        g.spec_width(),
        g.spec_height(),
        g.contents(),
        p,
    ));
}

/// The outcome of one model step.
pub enum MStep {
    Progress,
    Complete,
    Stuck,
    Ambiguous,
}

/// One end's advance in the model: the new grid contents, the new end
/// position, the outcome, and the ambiguous candidates.
pub open spec fn m_next(w: int, h: int, s: Seq<u8>, ch: (int, int), ph: (int, int)) -> (
    Seq<u8>,
    (int, int),
    MStep,
    Seq<(int, int)>,
) {
    if heads_met(ch, ph) {
        (s, ch, MStep::Complete, Seq::<(int, int)>::empty())
    } else {
        let fr = mfree(w, h, s, ch);
        if fr.len() == 0 {
            (s, ch, MStep::Stuck, Seq::<(int, int)>::empty())
        } else if fr.len() == 1 {
            (
                s.update(fr[0].1 * w + fr[0].0, mcell(w, h, s, ch.0, ch.1)),
                fr[0],
                MStep::Progress,
                Seq::<(int, int)>::empty(),
            )
        } else {
            (s, ch, MStep::Ambiguous, fr)
        }
    }
}

/// The last ambiguous end a pair's advance left behind.
pub struct MEnd {
    pub cands: Seq<(int, int)>,
    pub colour: u8,
    pub side: int,
}

/// What advancing both ends of one pair produces.
pub struct MPairStep {
    pub s: Seq<u8>,
    pub ends: ((int, int), (int, int)),
    pub completed: int,
    pub progressed: bool,
    pub stuck: bool,
    pub target: Option<MEnd>,
}

/// Advance both ends of a pair in the model, first end first; a stuck
/// first end leaves the second end's outcome unrecorded, though its move
/// still happened.
pub open spec fn m_pair(w: int, h: int, s: Seq<u8>, pr: ((int, int), (int, int))) -> MPairStep {
    let n1 = m_next(w, h, s, pr.0, pr.1);
    let n2 = m_next(w, h, n1.0, pr.1, n1.1);
    MPairStep {
        s: n2.0,
        ends: (n1.1, n2.1),
        completed: (if n1.2 is Complete {
            1int
        } else {
            0int
        }) + (if !(n1.2 is Stuck) && n2.2 is Complete {
            1int
        } else {
            0int
        }),
        progressed: n1.2 is Progress || (!(n1.2 is Stuck) && n2.2 is Progress),
        stuck: n1.2 is Stuck || n2.2 is Stuck,
        target: if !(n1.2 is Stuck) && n2.2 is Ambiguous {
            Some(MEnd { cands: n2.3, colour: mcell(w, h, n2.0, n1.1.0, n1.1.1), side: 1 })
        } else if n1.2 is Ambiguous {
            Some(MEnd { cands: n1.3, colour: mcell(w, h, n2.0, n1.1.0, n1.1.1), side: 0 })
        } else {
            None
        },
    }
}

/// The head list as model coordinates.
pub open spec fn heads_model(hs: Seq<((isize, isize), (isize, isize))>) -> Seq<
    ((int, int), (int, int)),
> {
    hs.map_values(|pr: ((isize, isize), (isize, isize))| (ip(pr.0), ip(pr.1)))
}

/// The last ambiguous end a whole sweep left behind.
pub struct MTarget {
    pub cands: Seq<(int, int)>,
    pub colour: u8,
    pub pair: int,
    pub side: int,
}

/// What a sweep over the first `i` pairs produces.
pub struct MSweepStep {
    pub s: Seq<u8>,
    pub hs: Seq<((int, int), (int, int))>,
    pub completed: int,
    pub progressed: bool,
    pub stuck: bool,
    pub target: Option<MTarget>,
}

/// Sweep the first `i` pairs of the model state, in order.
pub open spec fn m_sweep(
    w: int,
    h: int,
    s: Seq<u8>,
    hs: Seq<((int, int), (int, int))>,
    i: int,
) -> MSweepStep
    decreases i,
{
    if i <= 0 {
        MSweepStep { s, hs, completed: 0, progressed: false, stuck: false, target: None }
    } else {
        let prev = m_sweep(w, h, s, hs, i - 1);
        let p = m_pair(w, h, prev.s, prev.hs[i - 1]);
        MSweepStep {
            s: p.s,
            hs: prev.hs.update(i - 1, p.ends),
            completed: prev.completed + p.completed,
            progressed: prev.progressed || p.progressed,
            stuck: prev.stuck || p.stuck,
            target: match p.target {
                Option::Some(t) => Option::Some(
                    MTarget { cands: t.cands, colour: t.colour, pair: i - 1, side: t.side },
                ),
                Option::None => prev.target,
            },
        }
    }
}

/// A checkpoint in the model: the pre-guess state, the untried
/// candidates, and which end of which colour guessed.
pub struct MCheck {
    pub s: Seq<u8>,
    pub hs: Seq<((int, int), (int, int))>,
    pub remaining: Seq<(int, int)>,
    pub colour: u8,
    pub pair: int,
    pub side: int,
}

spec fn checkpoint_model(c: Checkpoint) -> MCheck {
    MCheck {
        s: c.grid.contents(),
        hs: heads_model(c.heads@),
        remaining: c.remaining@.map_values(|q: (isize, isize)| ip(q)),
        colour: c.colour,
        pair: c.pair as int,
        side: c.side as int,
    }
}

spec fn stack_model(cs: Seq<Checkpoint>) -> Seq<MCheck> {
    cs.map_values(|c: Checkpoint| checkpoint_model(c))
}

/// Write a guessed candidate into the model state and move the guessing
/// end onto it.
pub open spec fn m_apply_guess(
    w: int,
    s: Seq<u8>,
    hs: Seq<((int, int), (int, int))>,
    next: (int, int),
    colour: u8,
    pair: int,
    side: int,
) -> (Seq<u8>, Seq<((int, int), (int, int))>) {
    let s2 = s.update(next.1 * w + next.0, colour);
    let pr = hs[pair];
    let pr2 = if side == 0 {
        (next, pr.1)
    } else {
        (pr.0, next)
    };
    (s2, hs.update(pair, pr2))
}

/// The whole search in the model, from sweep number `iter` on: the final
/// grid contents and whether a sweep saw every end complete.
///
/// Each round runs a sweep; completion of all `2 x colours` ends succeeds,
/// a stuck end restores the newest checkpoint that still has candidates
/// (popping exhausted ones), a stall commits a guess on the last ambiguous
/// end, and round 100 gives up.  A stall without an ambiguous end cannot
/// happen in a run of the solver; the model then reports failure.
pub open spec fn m_solve(
    w: int,
    h: int,
    s: Seq<u8>,
    hs: Seq<((int, int), (int, int))>,
    iter: int,
    stack: Seq<MCheck>,
) -> (Seq<u8>, bool, Seq<((int, int), (int, int))>)
    decreases 100 - iter,
{
    if iter + 1 >= 100 {
        (s, false, hs)
    } else {
        let sw = m_sweep(w, h, s, hs, hs.len() as int);
        if sw.completed >= 2 * hs.len() {
            (sw.s, true, sw.hs)
        } else if sw.stuck {
            if stack.len() > 0 {
                let top = stack.last();
                if top.remaining.len() > 0 {
                    let next = top.remaining.last();
                    let applied = m_apply_guess(
                        w,
                        top.s,
                        top.hs,
                        next,
                        top.colour,
                        top.pair,
                        top.side,
                    );
                    let top2 = MCheck {
                        s: top.s,
                        hs: top.hs,
                        remaining: top.remaining.drop_last(),
                        colour: top.colour,
                        pair: top.pair,
                        side: top.side,
                    };
                    m_solve(
                        w,
                        h,
                        applied.0,
                        applied.1,
                        iter + 1,
                        stack.update(stack.len() - 1, top2),
                    )
                } else {
                    m_solve(w, h, sw.s, sw.hs, iter + 1, stack.drop_last())
                }
            } else {
                (sw.s, false, sw.hs)
            }
        } else if !sw.progressed {
            match sw.target {
                Option::Some(t) => {
                    let next = t.cands.last();
                    let ck = MCheck {
                        s: sw.s,
                        hs: sw.hs,
                        remaining: t.cands.drop_last(),
                        colour: t.colour,
                        pair: t.pair,
                        side: t.side,
                    };
                    let applied = m_apply_guess(
                        w,
                        sw.s,
                        sw.hs,
                        next,
                        t.colour,
                        t.pair,
                        t.side,
                    );
                    m_solve(w, h, applied.0, applied.1, iter + 1, stack.push(ck))
                },
                Option::None => (sw.s, false, sw.hs),
            }
        } else {
            m_solve(w, h, sw.s, sw.hs, iter + 1, stack)
        }
    }
}

/// Determinism of solving: the returned grid contents and flag are a
/// function of the input grid contents, dimensions and head list alone,
/// so re-running `solve` on a fresh copy of the same input reproduces
/// exactly the same result.
pub proof fn lemma_solve_deterministic(
    g1: Array2D,
    hs1: Heads,
    r1: (Array2D, bool),
    g2: Array2D,
    hs2: Heads,
    r2: (Array2D, bool),
)
    requires
        g1.spec_width() == g2.spec_width(),
        g1.spec_height() == g2.spec_height(),
        g1.contents() == g2.contents(),
        hs1@ == hs2@,
        call_ensures(solve, (g1, hs1), r1),
        call_ensures(solve, (g2, hs2), r2),
    ensures
        r1.0.spec_width() == r2.0.spec_width(),
        r1.0.spec_height() == r2.0.spec_height(),
        r1.0.contents() == r2.0.contents(),
        r1.1 == r2.1,
{
}

/// A pair's advance reports at most two completed ends, and exactly two
/// only when its two ends have met and nothing moved.
proof fn lemma_m_pair_completed(w: int, h: int, s: Seq<u8>, pr: ((int, int), (int, int)))
    ensures
        0 <= m_pair(w, h, s, pr).completed <= 2,
        m_pair(w, h, s, pr).completed == 2 ==> m_pair(w, h, s, pr).s == s && m_pair(
            w,
            h,
            s,
            pr,
        ).ends == pr && heads_met(pr.0, pr.1) && heads_met(pr.1, pr.0),
{
}

/// A sweep reports `2 x i` completed ends only when every swept pair's two
/// ends have met and the sweep changed nothing.
proof fn lemma_m_sweep_all_complete(
    w: int,
    h: int,
    s: Seq<u8>,
    hs: Seq<((int, int), (int, int))>,
    i: int,
)
    requires
        0 <= i <= hs.len(),
    ensures
        m_sweep(w, h, s, hs, i).completed <= 2 * i,
        m_sweep(w, h, s, hs, i).completed == 2 * i ==> m_sweep(w, h, s, hs, i).s == s
            && m_sweep(w, h, s, hs, i).hs == hs && forall|k: int|
            0 <= k < i ==> heads_met((#[trigger] hs[k]).0, hs[k].1) && heads_met(
                hs[k].1,
                hs[k].0,
            ),
    decreases i,
{
    if i > 0 {
        lemma_m_sweep_all_complete(w, h, s, hs, i - 1);
        let prev = m_sweep(w, h, s, hs, i - 1);
        lemma_m_pair_completed(w, h, prev.s, prev.hs[i - 1]);
        if m_sweep(w, h, s, hs, i).completed == 2 * i {
            assert(prev.completed == 2 * (i - 1));
            assert(prev.hs.update(i - 1, prev.hs[i - 1]) =~= prev.hs);
        }
    }
}

/// When the model search succeeds, the two live ends of every colour have
/// met: each reported path is closed at its ends.
pub proof fn lemma_success_all_ends_met(
    w: int,
    h: int,
    s: Seq<u8>,
    hs: Seq<((int, int), (int, int))>,
    iter: int,
    stack: Seq<MCheck>,
)
    ensures
        m_solve(w, h, s, hs, iter, stack).1 ==> ({
            let fin = m_solve(w, h, s, hs, iter, stack).2;
            forall|k: int|
                0 <= k < fin.len() ==> heads_met((#[trigger] fin[k]).0, fin[k].1)
                    && heads_met(fin[k].1, fin[k].0)
        }),
    decreases 100 - iter,
{
    if iter + 1 >= 100 {
    } else {
        let sw = m_sweep(w, h, s, hs, hs.len() as int);
        if sw.completed >= 2 * hs.len() {
            lemma_m_sweep_all_complete(w, h, s, hs, hs.len() as int);
            assert(sw.completed == 2 * hs.len());
            assert(sw.hs == hs);
            let fin = m_solve(w, h, s, hs, iter, stack).2;
            assert(fin == hs);
            assert forall|k: int|
                0 <= k < fin.len() implies heads_met((#[trigger] fin[k]).0, fin[k].1)
                && heads_met(fin[k].1, fin[k].0) by {
                assert(heads_met((hs[k]).0, hs[k].1) && heads_met(hs[k].1, hs[k].0));
            }
        } else if sw.stuck {
            if stack.len() > 0 {
                let top = stack.last();
                if top.remaining.len() > 0 {
                    let next = top.remaining.last();
                    let applied = m_apply_guess(
                        w,
                        top.s,
                        top.hs,
                        next,
                        top.colour,
                        top.pair,
                        top.side,
                    );
                    let top2 = MCheck {
                        s: top.s,
                        hs: top.hs,
                        remaining: top.remaining.drop_last(),
                        colour: top.colour,
                        pair: top.pair,
                        side: top.side,
                    };
                    lemma_success_all_ends_met(
                        w,
                        h,
                        applied.0,
                        applied.1,
                        iter + 1,
                        stack.update(stack.len() - 1, top2),
                    );
                    assert(m_solve(w, h, s, hs, iter, stack) == m_solve(
                        w,
                        h,
                        applied.0,
                        applied.1,
                        iter + 1,
                        stack.update(stack.len() - 1, top2),
                    ));
                } else {
                    lemma_success_all_ends_met(w, h, sw.s, sw.hs, iter + 1, stack.drop_last());
                    assert(m_solve(w, h, s, hs, iter, stack) == m_solve(
                        w,
                        h,
                        sw.s,
                        sw.hs,
                        iter + 1,
                        stack.drop_last(),
                    ));
                }
            }
        } else if !sw.progressed {
            match sw.target {
                Option::Some(t) => {
                    let next = t.cands.last();
                    let ck = MCheck {
                        s: sw.s,
                        hs: sw.hs,
                        remaining: t.cands.drop_last(),
                        colour: t.colour,
                        pair: t.pair,
                        side: t.side,
                    };
                    let applied = m_apply_guess(
                        w,
                        sw.s,
                        sw.hs,
                        next,
                        t.colour,
                        t.pair,
                        t.side,
                    );
                    lemma_success_all_ends_met(
                        w,
                        h,
                        applied.0,
                        applied.1,
                        iter + 1,
                        stack.push(ck),
                    );
                    assert(m_solve(w, h, s, hs, iter, stack) == m_solve(
                        w,
                        h,
                        applied.0,
                        applied.1,
                        iter + 1,
                        stack.push(ck),
                    ));
                },
                Option::None => {},
            }
        } else {
            lemma_success_all_ends_met(w, h, sw.s, sw.hs, iter + 1, stack);
            assert(m_solve(w, h, s, hs, iter, stack) == m_solve(
                w,
                h,
                sw.s,
                sw.hs,
                iter + 1,
                stack,
            ));
        }
    }
}

/// The success flag of `solve` certifies closure: when it is set, every
/// colour pair's two live ends in the model of the run have met.
pub proof fn lemma_solve_success_ends_met(g: Array2D, hs: Heads, r: (Array2D, bool))
    requires
        call_ensures(solve, (g, hs), r),
        r.1,
    ensures
        ({
            let fin = m_solve(
                g.spec_width(),
                g.spec_height(),
                g.contents(),
                heads_model(hs@),
                0,
                Seq::<MCheck>::empty(),
            ).2;
            forall|k: int|
                0 <= k < fin.len() ==> heads_met((#[trigger] fin[k]).0, fin[k].1)
                    && heads_met(fin[k].1, fin[k].0)
        }),
{
    lemma_success_all_ends_met(
        g.spec_width(),
        g.spec_height(),
        g.contents(),
        heads_model(hs@),
        0,
        Seq::<MCheck>::empty(),
    );
}

} // verus!
