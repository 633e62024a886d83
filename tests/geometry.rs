use gridlinesedit::canvas::SchematicCanvas;
use gridlinesedit::geometry::{length_maxmetric, route_fits_grid, split_line_at, Pt};

fn pt(x: i32, y: i32) -> Pt {
    Pt { x, y }
}

#[test]
fn maxmetric_is_larger_axis_distance() {
    assert_eq!(length_maxmetric(pt(0, 0), pt(3, -5)), 5);
    assert_eq!(length_maxmetric(pt(2, 2), pt(-4, 1)), 6);
    assert_eq!(length_maxmetric(pt(7, 7), pt(7, 7)), 0);
    assert_eq!(length_maxmetric(pt(i32::MIN, 0), pt(i32::MAX, 0)), u32::MAX);
}

#[test]
fn split_line_inside_horizontal_and_diagonal() {
    assert_eq!(
        split_line_at((pt(0, 0), pt(4, 0)), pt(1, 0)),
        Some(((pt(0, 0), pt(1, 0)), (pt(1, 0), pt(4, 0))))
    );
    assert_eq!(
        split_line_at((pt(0, 0), pt(-3, 3)), pt(-2, 2)),
        Some(((pt(0, 0), pt(-2, 2)), (pt(-2, 2), pt(-3, 3))))
    );
}

#[test]
fn split_line_rejects_ends_and_points_off_the_segment() {
    assert_eq!(split_line_at((pt(0, 0), pt(4, 0)), pt(0, 0)), None);
    assert_eq!(split_line_at((pt(0, 0), pt(4, 0)), pt(4, 0)), None);
    assert_eq!(split_line_at((pt(0, 0), pt(4, 0)), pt(5, 0)), None);
    assert_eq!(split_line_at((pt(0, 0), pt(4, 0)), pt(2, 1)), None);
    // the corner of the bounding box is not on the diagonal
    assert_eq!(split_line_at((pt(0, 0), pt(4, 4)), pt(4, 0)), None);
    assert_eq!(split_line_at((pt(0, 0), pt(4, 4)), pt(1, 2)), None);
}

#[test]
fn route_horizontal_only() {
    assert_eq!(SchematicCanvas::route_line(pt(0, 0), pt(3, 0)), vec![(pt(0, 0), pt(3, 0))]);
}

#[test]
fn route_diagonal_covers_everything() {
    assert_eq!(SchematicCanvas::route_line(pt(0, 0), pt(2, 2)), vec![(pt(0, 0), pt(2, 2))]);
}

#[test]
fn route_diagonal_then_horizontal() {
    assert_eq!(
        SchematicCanvas::route_line(pt(0, 0), pt(5, -2)),
        vec![(pt(0, 0), pt(2, -2)), (pt(2, -2), pt(5, -2))]
    );
}

#[test]
fn route_vertical_and_overshooting_diagonal() {
    assert_eq!(SchematicCanvas::route_line(pt(1, 1), pt(1, 4)), vec![(pt(1, 1), pt(1, 4))]);
    // the diagonal leans toward the target and may pass it horizontally
    assert_eq!(SchematicCanvas::route_line(pt(0, 0), pt(1, 3)), vec![(pt(0, 0), pt(3, 3))]);
}

#[test]
fn route_degenerate_is_empty() {
    assert_eq!(SchematicCanvas::route_line(pt(4, 4), pt(4, 4)), vec![]);
}

#[test]
fn step_line_lists_every_point() {
    assert_eq!(
        SchematicCanvas::step_line(pt(0, 0), pt(3, 0)),
        vec![pt(0, 0), pt(1, 0), pt(2, 0), pt(3, 0)]
    );
    assert_eq!(
        SchematicCanvas::step_line(pt(2, 2), pt(0, 0)),
        vec![pt(2, 2), pt(1, 1), pt(0, 0)]
    );
    assert_eq!(SchematicCanvas::step_line(pt(0, 0), pt(0, -1)), vec![pt(0, 0), pt(0, -1)]);
}

#[test]
fn step_line_internal_leaves_out_the_ends() {
    assert_eq!(SchematicCanvas::step_line_internal(pt(0, 0), pt(3, 3)), vec![pt(1, 1), pt(2, 2)]);
    assert_eq!(SchematicCanvas::step_line_internal(pt(0, 0), pt(1, 0)), vec![]);
}

#[test]
fn route_fits_grid_checks_the_corner() {
    assert!(route_fits_grid(pt(0, 0), pt(5, -2)));
    assert!(route_fits_grid(pt(i32::MAX, 0), pt(i32::MAX, 7)));
    assert!(!route_fits_grid(pt(i32::MAX - 1, 0), pt(i32::MAX, 5)));
    assert!(!route_fits_grid(pt(i32::MIN + 1, 0), pt(i32::MIN, -5)));
}
