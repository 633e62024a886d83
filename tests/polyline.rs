use gridlinesedit::geometry::Pt;
use gridlinesedit::polyline::Polyline;

fn pt(x: i32, y: i32) -> Pt {
    Pt { x, y }
}

fn path(points: &[(i32, i32)]) -> Polyline {
    let segs: Vec<(Pt, Pt)> = points.windows(2).map(|w| (pt(w[0].0, w[0].1), pt(w[1].0, w[1].1))).collect();
    Polyline::from_segments(segs).unwrap()
}

fn pts(pl: &Polyline) -> Vec<Pt> {
    pl.points().clone()
}

#[test]
fn new_is_empty_and_from_line_is_not() {
    assert!(Polyline::new().is_empty());
    let pl = Polyline::from_line((pt(0, 0), pt(2, 0)));
    assert!(!pl.is_empty());
    assert_eq!(pts(&pl), vec![pt(0, 0), pt(2, 0)]);
}

#[test]
fn reverse_turns_the_path_around() {
    let mut pl = path(&[(0, 0), (2, 0), (3, 1)]);
    pl.reverse();
    assert_eq!(pts(&pl), vec![pt(3, 1), pt(2, 0), pt(0, 0)]);
}

#[test]
fn lengthmax_sums_segments() {
    assert_eq!(path(&[(0, 0), (3, 0), (5, 2)]).lengthmax(), 5);
    assert_eq!(Polyline::from_line((pt(0, 0), pt(0, -4))).lengthmax(), 4);
    assert_eq!(Polyline::new().lengthmax(), 0);
}

#[test]
fn add_polyline_joins_end_to_start() {
    let mut a = path(&[(0, 0), (1, 0), (2, 0)]);
    let b = path(&[(2, 0), (3, 0)]);
    assert_eq!(a.add_polyline(b), Ok(()));
    assert_eq!(pts(&a), vec![pt(0, 0), pt(1, 0), pt(2, 0), pt(3, 0)]);
}

#[test]
fn add_polyline_turns_either_side() {
    let mut a = path(&[(2, 0), (1, 0), (0, 0)]);
    let b = path(&[(3, 0), (2, 0)]);
    assert_eq!(a.add_polyline(b), Ok(()));
    assert_eq!(pts(&a), vec![pt(0, 0), pt(1, 0), pt(2, 0), pt(3, 0)]);

    let mut c = path(&[(0, 0), (1, 1)]);
    let d = path(&[(1, 2), (1, 1)]);
    assert_eq!(c.add_polyline(d), Ok(()));
    assert_eq!(pts(&c), vec![pt(0, 0), pt(1, 1), pt(1, 2)]);
}

#[test]
fn add_polyline_refuses_a_loop() {
    let mut a = path(&[(0, 0), (1, 0), (1, 1)]);
    let b = path(&[(1, 1), (0, 0)]);
    assert_eq!(a.add_polyline(b), Err(()));
}

#[test]
fn add_polyline_with_empty_sides() {
    let mut a = Polyline::new();
    assert_eq!(a.add_polyline(path(&[(0, 0), (1, 0)])), Ok(()));
    assert_eq!(pts(&a), vec![pt(0, 0), pt(1, 0)]);
    assert_eq!(a.add_polyline(Polyline::new()), Ok(()));
    assert_eq!(pts(&a), vec![pt(0, 0), pt(1, 0)]);
}

#[test]
fn add_line_appends_a_segment() {
    let mut a = Polyline::from_line((pt(0, 0), pt(1, 0)));
    assert_eq!(a.add_line((pt(1, 0), pt(1, 3))), Ok(()));
    assert_eq!(pts(&a), vec![pt(0, 0), pt(1, 0), pt(1, 3)]);
}

#[test]
fn segments_pairs_consecutive_points() {
    let pl = path(&[(0, 0), (2, 0), (2, 2)]);
    assert_eq!(pl.segments(), vec![(pt(0, 0), pt(2, 0)), (pt(2, 0), pt(2, 2))]);
}

#[test]
fn from_segments_needs_a_chain() {
    assert!(Polyline::from_segments(vec![(pt(0, 0), pt(1, 0)), (pt(2, 0), pt(3, 0))]).is_err());
    assert!(Polyline::from_segments(vec![]).unwrap().is_empty());
}

#[test]
fn grid_step_expands_every_unit_point() {
    let pl = path(&[(0, 0), (2, 0), (4, 2)]);
    assert_eq!(
        pl.grid_step(),
        vec![pt(0, 0), pt(1, 0), pt(2, 0), pt(3, 1), pt(4, 2)]
    );
    assert_eq!(pl.grid_step_internal(), vec![pt(1, 0), pt(2, 0), pt(3, 1)]);
}

#[test]
fn split_at_a_stored_point() {
    let pl = path(&[(0, 0), (2, 0), (4, 2)]);
    let (a, b) = pl.split_at(pt(2, 0)).unwrap();
    assert_eq!(pts(&a), vec![pt(0, 0), pt(2, 0)]);
    assert_eq!(pts(&b), vec![pt(2, 0), pt(4, 2)]);
}

#[test]
fn split_inside_a_segment_rejoins_to_the_path() {
    let pl = path(&[(0, 0), (4, 0), (4, 3)]);
    let (a, b) = pl.split_at(pt(4, 1)).unwrap();
    assert_eq!(pts(&a), vec![pt(0, 0), pt(4, 0), pt(4, 1)]);
    assert_eq!(pts(&b), vec![pt(4, 1), pt(4, 3)]);
    let mut joined = pts(&a);
    joined.extend(pts(&b).into_iter().skip(1));
    assert_eq!(joined, vec![pt(0, 0), pt(4, 0), pt(4, 1), pt(4, 3)]);
    let mut grid = a.grid_step();
    grid.extend(b.grid_step().into_iter().skip(1));
    assert_eq!(grid, pl.grid_step());
}

#[test]
fn split_at_the_ends() {
    let pl = path(&[(0, 0), (2, 0)]);
    let (a, b) = pl.split_at(pt(0, 0)).unwrap();
    assert!(a.is_empty());
    assert_eq!(pts(&b), vec![pt(0, 0), pt(2, 0)]);
    let (c, d) = pl.split_at(pt(2, 0)).unwrap();
    assert_eq!(pts(&c), vec![pt(0, 0), pt(2, 0)]);
    assert!(d.is_empty());
}

#[test]
fn split_off_the_path_fails() {
    let pl = path(&[(0, 0), (2, 0)]);
    assert!(pl.split_at(pt(1, 1)).is_err());
    assert!(Polyline::new().split_at(pt(0, 0)).is_err());
}
