use freeflow::grid::Array2D;

#[test]
fn read_sentinel_at_boundaries() {
    let g = Array2D::new(4, 3);
    // every probe one step outside the grid sees the sentinel
    assert_eq!(g.read(-1, 0), 255);
    assert_eq!(g.read(0, -1), 255);
    assert_eq!(g.read(4, 0), 255);
    assert_eq!(g.read(0, 3), 255);
    assert_eq!(g.read(-1, -1), 255);
    assert_eq!(g.read(4, 3), 255);
    // while every in-bounds cell of a fresh grid reads zero
    for y in 0..3 {
        for x in 0..4 {
            assert_eq!(g.read(x, y), 0);
        }
    }
}

#[test]
fn write_then_read_back() {
    let mut g = Array2D::new(5, 5);
    g.write(2, 3, 7);
    assert_eq!(g.read(2, 3), 7);
    assert_eq!(g.read(3, 2), 0);
}

#[test]
fn set_abs_populates_row_major() {
    let mut g = Array2D::new(3, 2);
    g.set_abs(0, 9);
    g.set_abs(4, 5);
    assert_eq!(g.read(0, 0), 9);
    assert_eq!(g.read(1, 1), 5);
    assert_eq!(g.read(2, 1), 0);
}

#[test]
fn contains_zeroes_reports_empty_cells() {
    let mut g = Array2D::new(2, 2);
    assert!(g.contains_zeroes());
    g.write(0, 0, 1);
    g.write(1, 0, 1);
    g.write(0, 1, 2);
    assert!(g.contains_zeroes());
    g.write(1, 1, 2);
    assert!(!g.contains_zeroes());
}

#[test]
fn clone_is_independent() {
    let mut original = Array2D::new(3, 3);
    original.write(1, 1, 4);
    let mut copy = original.clone();
    assert_eq!(copy.read(1, 1), 4);
    // mutating the clone never changes the original
    copy.write(1, 1, 9);
    copy.write(0, 0, 2);
    assert_eq!(original.read(1, 1), 4);
    assert_eq!(original.read(0, 0), 0);
    // and mutating the original never changes the clone
    original.write(2, 2, 8);
    assert_eq!(copy.read(2, 2), 0);
}
