use freeflow::grid::Array2D;
use freeflow::pathfind::{find_start, iterate_around, pathfind, Instruction};
use freeflow::solver::{solve, Heads};

fn grid_with_heads(w: usize, h: usize, heads: &Heads) -> Array2D {
    let mut grid = Array2D::new(w, h);
    for (i, (a, b)) in heads.iter().enumerate() {
        grid.write(a.0, a.1, i as u8 + 1);
        grid.write(b.0, b.1, i as u8 + 1);
    }
    grid
}

#[test]
fn traces_every_colour_of_a_solved_grid() {
    let heads: Heads = vec![
        ((0, 1), (1, 3)),
        ((1, 1), (3, 1)),
        ((0, 2), (4, 4)),
        ((2, 3), (4, 3)),
    ];
    let head_grid = grid_with_heads(5, 5, &heads);
    let (solved, ok) = solve(head_grid.clone(), heads.clone());
    assert!(ok);
    assert!(!solved.contains_zeroes());

    let instructions = pathfind(head_grid, &solved);

    // one Goto per colour, and every solved cell visited exactly once:
    // 4 strokes of together 25 cells give 25 - 4 directional steps
    let gotos = instructions
        .iter()
        .filter(|i| matches!(i, Instruction::Goto(_, _)))
        .count();
    assert_eq!(gotos, 4);
    assert_eq!(instructions.len(), 25);

    // no directional step ever lands on a cell of another colour than the
    // stroke it belongs to
    let mut pos = (0isize, 0isize);
    let mut colour = 0u8;
    let mut visited: Vec<(isize, isize)> = Vec::new();
    for ins in &instructions {
        match ins {
            Instruction::Goto(x, y) => {
                pos = (*x as isize, *y as isize);
                colour = solved.read(pos.0, pos.1);
                assert!(colour != 0);
                visited.push(pos);
            }
            Instruction::Right => pos = (pos.0 + 1, pos.1),
            Instruction::Left => pos = (pos.0 - 1, pos.1),
            Instruction::Down => pos = (pos.0, pos.1 + 1),
            Instruction::Up => pos = (pos.0, pos.1 - 1),
            other => panic!("unexpected instruction {:?}", other),
        }
        assert_eq!(solved.read(pos.0, pos.1), colour);
        if !matches!(ins, Instruction::Goto(_, _)) {
            visited.push(pos);
        }
    }
    visited.sort();
    visited.dedup();
    assert_eq!(visited.len(), 25);
}

#[test]
fn lone_head_gives_zero_length_stroke() {
    // a single marked cell whose surroundings do not continue its colour:
    // one Goto and no directional steps, and that is not an error
    let mut head_grid = Array2D::new(2, 2);
    head_grid.write(0, 0, 1);
    let mut solved = Array2D::new(2, 2);
    solved.write(0, 0, 1);
    solved.write(1, 0, 2);
    solved.write(0, 1, 3);
    solved.write(1, 1, 4);
    let instructions = pathfind(head_grid, &solved);
    assert_eq!(instructions, vec![Instruction::Goto(0, 0)]);
}

#[test]
fn partially_solved_grids_are_accepted() {
    let mut head_grid = Array2D::new(3, 3);
    head_grid.write(0, 0, 1);
    let mut solved = Array2D::new(3, 3);
    solved.write(0, 0, 1);
    solved.write(1, 0, 1);
    let instructions = pathfind(head_grid, &solved);
    assert_eq!(
        instructions,
        vec![Instruction::Goto(0, 0), Instruction::Right]
    );
}

#[test]
fn nearest_head_is_chosen() {
    let mut g = Array2D::new(5, 5);
    g.write(0, 0, 3);
    g.write(3, 3, 7);
    // the pen stands at (4, 4): the head at (3, 3) is nearer
    assert_eq!(find_start(&g, (4, 4)), Some((7, 3, 3)));
    // from the origin corner the head at (0, 0) is nearer
    assert_eq!(find_start(&g, (0, 0)), Some((3, 0, 0)));
}

#[test]
fn find_start_breaks_ties_in_scan_order() {
    let mut g = Array2D::new(5, 5);
    // both heads are equally far from (2, 0)
    g.write(0, 0, 1);
    g.write(4, 0, 2);
    assert_eq!(find_start(&g, (2, 0)), Some((1, 0, 0)));
}

#[test]
fn find_start_on_empty_grid_is_none() {
    let g = Array2D::new(4, 4);
    assert_eq!(find_start(&g, (3, 3)), None);
}

#[test]
fn neighbours_come_in_priority_order() {
    let g = Array2D::new(5, 5);
    let around = iterate_around(2, 2, &g);
    let dirs: Vec<Instruction> = around.iter().map(|e| e.1).collect();
    assert_eq!(
        dirs,
        vec![
            Instruction::Right,
            Instruction::Left,
            Instruction::Down,
            Instruction::Up
        ]
    );
    // corners lose their out-of-range neighbours
    let corner = iterate_around(0, 0, &g);
    let dirs: Vec<Instruction> = corner.iter().map(|e| e.1).collect();
    assert_eq!(dirs, vec![Instruction::Right, Instruction::Down]);
}
