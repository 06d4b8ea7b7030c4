use freeflow::grid::Array2D;
use freeflow::solver::{get_around, make_grid_and_pairs, next_step, solve, Heads, InputError, StepResult};

fn grid_with_heads(w: usize, h: usize, heads: &Heads) -> Array2D {
    let mut grid = Array2D::new(w, h);
    for (i, (a, b)) in heads.iter().enumerate() {
        grid.write(a.0, a.1, i as u8 + 1);
        grid.write(b.0, b.1, i as u8 + 1);
    }
    grid
}

fn grid_bytes(g: &Array2D, w: isize, h: isize) -> Vec<u8> {
    let mut out = Vec::new();
    for y in 0..h {
        for x in 0..w {
            out.push(g.read(x, y));
        }
    }
    out
}

/// Whether the two ends of every colour are joined by a 4-connected path of
/// cells holding exactly that colour.
fn colours_connected(g: &Array2D, heads: &Heads) -> bool {
    for (i, (a, b)) in heads.iter().enumerate() {
        let colour = i as u8 + 1;
        let mut queue = vec![*a];
        let mut seen = vec![*a];
        let mut reached = *a == *b;
        while let Some((x, y)) = queue.pop() {
            for n in [(x + 1, y), (x - 1, y), (x, y + 1), (x, y - 1)] {
                if n == *b {
                    reached = true;
                }
                if g.read(n.0, n.1) == colour && !seen.contains(&n) {
                    seen.push(n);
                    queue.push(n);
                }
            }
        }
        if !reached {
            return false;
        }
    }
    true
}

#[test]
fn test() {
    let heads: Heads = vec![
        ((0, 1), (1, 3)),
        ((1, 1), (3, 1)),
        ((0, 2), (4, 4)),
        ((2, 3), (4, 3)),
    ];
    let grid = grid_with_heads(5, 5, &heads);

    let grid = solve(grid, heads).0;

    assert!(!grid.contains_zeroes());
}

#[test]
fn solved_grid_is_full_and_connected() {
    let heads: Heads = vec![
        ((0, 1), (1, 3)),
        ((1, 1), (3, 1)),
        ((0, 2), (4, 4)),
        ((2, 3), (4, 3)),
    ];
    let grid = grid_with_heads(5, 5, &heads);
    let (solved, ok) = solve(grid, heads.clone());
    assert!(ok);
    assert!(!solved.contains_zeroes());
    assert!(colours_connected(&solved, &heads));
    // the endpoints keep their colours
    for (i, (a, b)) in heads.iter().enumerate() {
        assert_eq!(solved.read(a.0, a.1), i as u8 + 1);
        assert_eq!(solved.read(b.0, b.1), i as u8 + 1);
    }
}

#[test]
fn degenerate_pair_completes_immediately() {
    // a colour whose two head cells are the same coordinate
    let mut grid = Array2D::new(3, 3);
    grid.write(1, 1, 1);
    let mut end = (1isize, 1isize);
    let result = next_step(&mut end, (1, 1), &mut grid);
    assert!(matches!(result, StepResult::Complete));
    // zero steps walked: the end and the grid are untouched
    assert_eq!(end, (1, 1));
    assert_eq!(grid.read(1, 1), 1);
    for (x, y) in [(0, 0), (1, 0), (2, 0), (0, 1), (2, 1), (0, 2), (1, 2), (2, 2)] {
        assert_eq!(grid.read(x, y), 0);
    }
}

#[test]
fn backtracking_recovers_with_alternate_candidate() {
    // the single ambiguous guess taken on this input fails first, and the
    // solver must restore the checkpoint and finish from the alternate
    // candidate
    let heads: Heads = vec![((1, 3), (1, 2)), ((3, 3), (3, 1)), ((1, 1), (2, 1))];
    let grid = grid_with_heads(4, 4, &heads);
    let (solved, ok) = solve(grid, heads.clone());
    assert!(ok);
    // no mutation leaked from the failed branch: this exact grid is only
    // reachable through the alternate candidate
    let expected = [
        [0, 0, 0, 0],
        [0, 3, 3, 2],
        [0, 1, 0, 2],
        [0, 1, 0, 2],
    ];
    for y in 0..4 {
        for x in 0..4 {
            assert_eq!(solved.read(x as isize, y as isize), expected[y][x]);
        }
    }
    assert!(colours_connected(&solved, &heads));
}

#[test]
fn failure_is_deterministic() {
    // one end of colour 1 was never observed: that end is permanently stuck
    let heads: Heads = vec![((0, 0), (-1, -1))];
    let mut grid = Array2D::new(3, 3);
    grid.write(0, 0, 1);
    let (first_grid, first_ok) = solve(grid.clone(), heads.clone());
    let (second_grid, second_ok) = solve(grid.clone(), heads.clone());
    assert!(!first_ok);
    assert!(!second_ok);
    assert_eq!(grid_bytes(&first_grid, 3, 3), grid_bytes(&second_grid, 3, 3));
}

#[test]
fn repeated_solves_agree() {
    let heads: Heads = vec![
        ((0, 1), (1, 3)),
        ((1, 1), (3, 1)),
        ((0, 2), (4, 4)),
        ((2, 3), (4, 3)),
    ];
    let grid = grid_with_heads(5, 5, &heads);
    let (a_grid, a_ok) = solve(grid.clone(), heads.clone());
    let (b_grid, b_ok) = solve(grid.clone(), heads.clone());
    assert_eq!(a_ok, b_ok);
    assert_eq!(grid_bytes(&a_grid, 5, 5), grid_bytes(&b_grid, 5, 5));
}

#[test]
fn get_around_scan_order() {
    let around = get_around((2, 3));
    assert_eq!(around[0], (3, 3)); // east
    assert_eq!(around[1], (1, 3)); // west
    assert_eq!(around[2], (2, 4)); // south
    assert_eq!(around[3], (2, 2)); // north
}

#[test]
fn build_input_records_pairs_in_scan_order() {
    // 3 x 2 board: colour 1 at cells 0 and 4, colour 2 at cells 2 and 3
    let points = vec![1u8, 0, 2, 2, 1, 0];
    let (grid, heads) = make_grid_and_pairs((3, 2), &points).unwrap();
    assert_eq!(heads.len(), 2);
    assert_eq!(heads[0], ((0, 0), (1, 1)));
    assert_eq!(heads[1], ((2, 0), (0, 1)));
    for (k, v) in points.iter().enumerate() {
        assert_eq!(grid.read((k % 3) as isize, (k / 3) as isize), *v);
    }
}

#[test]
fn build_input_marks_missing_partner_unset() {
    let points = vec![0u8, 3, 0, 0];
    let (_, heads) = make_grid_and_pairs((2, 2), &points).unwrap();
    assert_eq!(heads.len(), 3);
    assert_eq!(heads[0], ((-1, -1), (-1, -1)));
    assert_eq!(heads[1], ((-1, -1), (-1, -1)));
    assert_eq!(heads[2], ((1, 0), (-1, -1)));
}

#[test]
fn build_input_rejects_reserved_id() {
    let points = vec![0u8, 255, 0, 0];
    match make_grid_and_pairs((2, 2), &points) {
        Err(e) => assert_eq!(e, InputError::ReservedColor),
        Ok(_) => panic!("reserved colour id was accepted"),
    }
}

#[test]
fn build_input_rejects_third_occurrence() {
    let points = vec![2u8, 2, 0, 0, 2, 0];
    match make_grid_and_pairs((3, 2), &points) {
        Err(e) => assert_eq!(e, InputError::ColorTooOften(2)),
        Ok(_) => panic!("a colour appearing three times was accepted"),
    }
}

#[test]
fn single_ended_colour_is_unsolvable() {
    let points = vec![1u8, 0, 0, 0];
    let (grid, heads) = make_grid_and_pairs((2, 2), &points).unwrap();
    let (_, ok) = solve(grid, heads);
    assert!(!ok);
}
