use freeflow::classify::{brightness, get_map_layout, pythag, DotLocationInfo};
use freeflow::grid::Array2D;
use freeflow::image::{Image, RgbaView};
use freeflow::render::GridRepresentation;

fn solid_view(w: usize, h: usize, rgb: [u8; 3]) -> RgbaView {
    let mut buf = Vec::new();
    for _ in 0..w * h {
        buf.push(rgb[0]);
        buf.push(rgb[1]);
        buf.push(rgb[2]);
        buf.push(255);
    }
    RgbaView::new(buf, w, h)
}

#[test]
fn pythag_is_squared_colour_distance() {
    assert_eq!(pythag([0, 0, 0], [0, 0, 0]), 0);
    assert_eq!(pythag([255, 0, 0], [0, 0, 0]), 65025);
    assert_eq!(pythag([10, 20, 30], [13, 16, 30]), 9 + 16);
}

#[test]
fn brightness_sums_channels() {
    assert_eq!(brightness([0, 0, 0]), 0);
    assert_eq!(brightness([255, 255, 255]), 765);
    assert_eq!(brightness([1, 2, 3]), 6);
}

#[test]
fn pixels_read_back_and_clip() {
    let mut view = solid_view(4, 4, [9, 9, 9]);
    assert_eq!(view.read_pixel(1, 1), [9, 9, 9]);
    view.write_pixel(1, 1, [1, 2, 3]);
    assert_eq!(view.read_pixel(1, 1), [1, 2, 3]);
    // out of range: reads are black, writes are dropped
    assert_eq!(view.read_pixel(4, 0), [0, 0, 0]);
    view.write_pixel(0, 4, [7, 7, 7]);
    assert_eq!(view.read_pixel(3, 3), [9, 9, 9]);
}

#[test]
fn draw_dots_marks_every_point() {
    let info = DotLocationInfo {
        point_locations: vec![([5, 5], [0, 0]), ([10, 10], [1, 0])],
        dot_size: 2,
        brightness_thresh: 100,
    };
    let mut view = solid_view(16, 16, [0, 0, 0]);
    info.draw_dots(&mut view);
    assert_eq!(view.read_pixel(5, 5), [255, 255, 255]);
    assert_eq!(view.read_pixel(10, 10), [255, 255, 255]);
    assert_eq!(view.read_pixel(4, 6), [255, 255, 255]);
    // a corner outside both squares stays black
    assert_eq!(view.read_pixel(0, 0), [0, 0, 0]);
    assert_eq!(view.read_pixel(7, 5), [0, 0, 0]);
}

#[test]
fn bright_dots_pair_up() {
    let view = solid_view(32, 32, [200, 200, 200]);
    let info = DotLocationInfo {
        point_locations: vec![([8, 8], [0, 0]), ([24, 8], [1, 0])],
        dot_size: 4,
        brightness_thresh: 100,
    };
    let (grid, pairs) = get_map_layout(&info, &view);
    assert_eq!(pairs, vec![((1, 0), (0, 0))]);
    assert_eq!(grid.read(0, 0), 1);
    assert_eq!(grid.read(1, 0), 1);
    assert_eq!(grid.read(2, 2), 0);
}

#[test]
fn dim_dots_are_ignored() {
    let view = solid_view(32, 32, [10, 10, 10]);
    let info = DotLocationInfo {
        point_locations: vec![([8, 8], [0, 0]), ([24, 8], [1, 0])],
        dot_size: 4,
        brightness_thresh: 100,
    };
    let (grid, pairs) = get_map_layout(&info, &view);
    assert!(pairs.is_empty());
    assert!(grid.contains_zeroes());
    assert_eq!(grid.read(0, 0), 0);
}

#[test]
fn odd_leftover_dot_is_discarded_with_sentinel() {
    let view = solid_view(48, 16, [200, 200, 200]);
    let info = DotLocationInfo {
        point_locations: vec![([8, 8], [0, 0]), ([24, 8], [1, 0]), ([40, 8], [2, 0])],
        dot_size: 4,
        brightness_thresh: 100,
    };
    let (grid, pairs) = get_map_layout(&info, &view);
    assert_eq!(pairs.len(), 1);
    // the unpaired dot is stored as the reserved id, not as a colour
    let mut seen = Vec::new();
    for x in 0..3 {
        seen.push(grid.read(x, 0));
    }
    assert!(seen.contains(&255));
    assert_eq!(seen.iter().filter(|v| **v == 1).count(), 2);
}

#[test]
fn thumbnails_follow_the_palette() {
    let mut grid = Array2D::new(5, 5);
    grid.write(1, 0, 1);
    grid.write(2, 0, 255);
    let mut rep = GridRepresentation::empty();
    assert!(rep.image.iter().all(|b| *b == 0));
    rep.update(&grid);
    // empty cell: black, transparent alpha byte 100
    assert_eq!(&rep.image[0..4], &[0, 0, 0, 100]);
    // colour 1 renders as the second palette entry
    assert_eq!(&rep.image[4..8], &[0, 0, 255, 100]);
    // the reserved id renders white
    assert_eq!(&rep.image[8..12], &[255, 255, 255, 100]);
}
