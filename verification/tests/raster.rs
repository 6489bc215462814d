use math_lib::plot::{disk_pixels, line_pixels, pixel_visible, rect_pixels};

#[test]
fn lines_follow_bresenham() {
    assert_eq!(line_pixels(0, 0, 3, 1), vec![(0, 0), (1, 0), (2, 1), (3, 1)]);
    assert_eq!(line_pixels(0, 0, 0, 2), vec![(0, 0), (0, 1), (0, 2)]);
    assert_eq!(line_pixels(2, 2, 0, 0), vec![(2, 2), (1, 1), (0, 0)]);
    assert_eq!(line_pixels(5, 5, 5, 5), vec![(5, 5)]);
    assert_eq!(line_pixels(0, 3, 2, 0), vec![(0, 3), (1, 2), (1, 1), (2, 0)]);
}

#[test]
fn rectangles_fill_row_by_row() {
    assert_eq!(rect_pixels(1, 2, 2, 2), vec![(1, 2), (2, 2), (1, 3), (2, 3)]);
    assert!(rect_pixels(0, 0, 0, 5).is_empty());
    assert!(rect_pixels(0, 0, 3, -1).is_empty());
}

#[test]
fn disks_hold_points_within_the_radius() {
    assert_eq!(disk_pixels(0, 0, 0), vec![(0, 0)]);
    assert_eq!(disk_pixels(10, 10, 1), vec![(10, 9), (9, 10), (10, 10), (11, 10), (10, 11)]);
    assert_eq!(disk_pixels(0, 0, 2).len(), 13);
    assert!(disk_pixels(0, 0, -1).is_empty());
}

#[test]
fn visibility_checks_both_axes() {
    assert!(pixel_visible(0, 0, 1, 1));
    assert!(!pixel_visible(-1, 0, 5, 5));
    assert!(!pixel_visible(5, 0, 5, 5));
    assert!(!pixel_visible(0, 5, 5, 5));
    assert!(pixel_visible(4, 4, 5, 5));
}
