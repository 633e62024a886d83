use gridlinesedit::arena::Id;
use gridlinesedit::canvas::{PointInfo, SchematicCanvas, DEFAULT_GRID_RESOLUTION};
use gridlinesedit::document::ViewModel;
use gridlinesedit::geometry::Pt;

fn pt(x: i32, y: i32) -> Pt {
    Pt { x, y }
}

fn loc_at(c: &SchematicCanvas, p: Pt) -> Id {
    match c.point_info(p) {
        Some(PointInfo::Location(l)) => l,
        other => panic!("no location at {:?}: {:?}", p, other),
    }
}

fn track_at(c: &SchematicCanvas, p: Pt) -> Id {
    match c.point_info(p) {
        Some(PointInfo::Track(t)) => t,
        other => panic!("no track at {:?}: {:?}", p, other),
    }
}

fn degree(c: &SchematicCanvas, l: Id) -> usize {
    c.connections_of(l).unwrap().len()
}

#[test]
fn scenario_straight_line_is_one_track() {
    let mut c = SchematicCanvas::new();
    assert_eq!(c.add_line(pt(0, 0), pt(3, 0)), Ok(()));
    assert_eq!(c.num_tracks(), 1);
    assert_eq!(c.num_locations(), 2);
    let a = loc_at(&c, pt(0, 0));
    let b = loc_at(&c, pt(3, 0));
    let t = track_at(&c, pt(1, 0));
    assert_eq!(track_at(&c, pt(2, 0)), t);
    assert_eq!(c.track_ends(t), Some((a, b)));
    assert_eq!(c.track_length(t), Some(3 * DEFAULT_GRID_RESOLUTION));
    assert_eq!(c.track_length(t), Some(150));
    assert_eq!(c.connections_of(a).unwrap(), &vec![t]);
    assert_eq!(c.connections_of(b).unwrap(), &vec![t]);
    assert_eq!(
        c.track_line(t).unwrap().points(),
        &vec![pt(0, 0), pt(1, 0), pt(2, 0), pt(3, 0)]
    );
}

#[test]
fn scenario_diagonal_is_one_track() {
    let mut c = SchematicCanvas::new();
    assert_eq!(c.add_line(pt(0, 0), pt(2, 2)), Ok(()));
    assert_eq!(c.num_tracks(), 1);
    assert_eq!(c.num_locations(), 2);
    let a = loc_at(&c, pt(0, 0));
    let b = loc_at(&c, pt(2, 2));
    let t = track_at(&c, pt(1, 1));
    assert_eq!(c.track_ends(t), Some((a, b)));
    assert_eq!(c.track_length(t), Some(100));
    assert_eq!(c.point_info(pt(1, 0)), None);
}

#[test]
fn scenario_branch_splits_the_track() {
    let mut c = SchematicCanvas::new();
    assert_eq!(c.add_line(pt(0, 0), pt(4, 0)), Ok(()));
    assert_eq!(c.add_line(pt(2, 0), pt(2, 2)), Ok(()));
    let mid = loc_at(&c, pt(2, 0));
    assert_eq!(degree(&c, mid), 3);
    assert_eq!(c.num_tracks(), 3);
    assert_eq!(c.num_locations(), 4);
    let left = track_at(&c, pt(1, 0));
    let right = track_at(&c, pt(3, 0));
    let up = track_at(&c, pt(2, 1));
    assert_eq!(c.track_ends(left), Some((loc_at(&c, pt(0, 0)), mid)));
    assert_eq!(c.track_ends(right), Some((mid, loc_at(&c, pt(4, 0)))));
    assert_eq!(c.track_length(left), Some(100));
    assert_eq!(c.track_length(right), Some(100));
    assert_eq!(c.track_length(up), Some(100));
    assert_eq!(degree(&c, loc_at(&c, pt(0, 0))), 1);
    assert_eq!(degree(&c, loc_at(&c, pt(2, 2))), 1);
}

#[test]
fn make_loc_twice_gives_the_same_location() {
    let mut c = SchematicCanvas::new();
    assert_eq!(c.add_line(pt(0, 0), pt(4, 0)), Ok(()));
    let first = c.make_loc(pt(1, 0)).unwrap();
    let tracks = c.num_tracks();
    let locations = c.num_locations();
    let second = c.make_loc(pt(1, 0)).unwrap();
    assert_eq!(first, second);
    assert_eq!(c.num_tracks(), tracks);
    assert_eq!(c.num_locations(), locations);

    let fresh = c.make_loc(pt(9, 9)).unwrap();
    assert_eq!(c.make_loc(pt(9, 9)), Ok(fresh));
    assert_eq!(c.connections_of(fresh).unwrap().len(), 0);
}

#[test]
fn split_shares_the_length_in_proportion() {
    let mut c = SchematicCanvas::new();
    assert_eq!(c.add_line(pt(0, 0), pt(4, 0)), Ok(()));
    let whole = track_at(&c, pt(1, 0));
    assert_eq!(c.track_length(whole), Some(200));
    let l = c.make_loc(pt(1, 0)).unwrap();
    let conns = c.connections_of(l).unwrap().clone();
    assert_eq!(conns.len(), 2);
    assert_eq!(conns[0], whole);
    let after = conns[1];
    assert_eq!(c.track_length(whole), Some(50));
    assert_eq!(c.track_length(after), Some(150));
    assert_eq!(c.track_length(whole).unwrap() + c.track_length(after).unwrap(), 200);
    assert_eq!(track_at(&c, pt(2, 0)), after);
    assert_eq!(track_at(&c, pt(3, 0)), after);
    let far = loc_at(&c, pt(4, 0));
    assert_eq!(c.connections_of(far).unwrap(), &vec![after]);
    assert_eq!(c.track_ends(after), Some((l, far)));
}

#[test]
fn point_index_matches_every_track_path() {
    let mut c = SchematicCanvas::new();
    assert_eq!(c.add_line(pt(0, 0), pt(4, 0)), Ok(()));
    assert_eq!(c.add_line(pt(2, 0), pt(5, 2)), Ok(()));
    assert_eq!(c.add_line(pt(-3, -3), pt(0, 0)), Ok(()));
    for p in [pt(1, 0), pt(3, 0), pt(3, 1), pt(4, 2), pt(-1, -1)] {
        let t = track_at(&c, p);
        let line = c.track_line(t).unwrap();
        let grid = line.grid_step();
        let (a, b) = c.track_ends(t).unwrap();
        assert_eq!(c.point_info(grid[0]), Some(PointInfo::Location(a)));
        assert_eq!(c.point_info(*grid.last().unwrap()), Some(PointInfo::Location(b)));
        for q in &grid[1..grid.len() - 1] {
            assert_eq!(c.point_info(*q), Some(PointInfo::Track(t)));
        }
    }
}

#[test]
fn no_plain_waypoints_after_drawing() {
    let mut c = SchematicCanvas::new();
    assert_eq!(c.add_line(pt(0, 0), pt(3, 0)), Ok(()));
    assert_eq!(c.add_line(pt(3, 0), pt(5, 2)), Ok(()));
    assert_eq!(c.add_line(pt(3, 0), pt(3, -2)), Ok(()));
    for p in [pt(0, 0), pt(3, 0), pt(5, 2), pt(3, -2)] {
        let d = degree(&c, loc_at(&c, p));
        assert!(d == 1 || d >= 3);
    }
    assert_eq!(degree(&c, loc_at(&c, pt(3, 0))), 3);
}

#[test]
fn continuing_a_line_merges_through_the_joint() {
    let mut c = SchematicCanvas::new();
    assert_eq!(c.add_line(pt(0, 0), pt(2, 0)), Ok(()));
    assert_eq!(c.add_line(pt(2, 0), pt(4, 0)), Ok(()));
    assert_eq!(c.num_tracks(), 1);
    let t = track_at(&c, pt(2, 0));
    assert_eq!(c.track_length(t), Some(200));
}

#[test]
fn closing_a_loop_is_refused() {
    let mut c = SchematicCanvas::new();
    assert_eq!(c.add_line(pt(0, 0), pt(2, 0)), Ok(()));
    assert_eq!(c.add_line(pt(2, 0), pt(2, 2)), Ok(()));
    assert_eq!(c.add_line(pt(2, 2), pt(0, 2)), Ok(()));
    assert_eq!(c.add_line(pt(0, 2), pt(0, 0)), Err(()));
    // what was drawn before the refusal stays
    assert!(c.point_info(pt(0, 1)).is_some());
}

#[test]
fn reverse_track_swaps_ends_and_path() {
    let mut c = SchematicCanvas::new();
    assert_eq!(c.add_line(pt(0, 0), pt(2, 0)), Ok(()));
    let t = track_at(&c, pt(1, 0));
    let (a, b) = c.track_ends(t).unwrap();
    c.reverse_track(t);
    assert_eq!(c.track_ends(t), Some((b, a)));
    assert_eq!(c.track_line(t).unwrap().points(), &vec![pt(2, 0), pt(1, 0), pt(0, 0)]);
}

#[test]
fn empty_gesture_changes_nothing() {
    let mut c = SchematicCanvas::new();
    assert_eq!(c.add_line(pt(1, 1), pt(1, 1)), Ok(()));
    assert_eq!(c.num_tracks(), 0);
    assert_eq!(c.num_locations(), 0);
}

#[test]
fn view_model_wraps_a_model() {
    let mut c = SchematicCanvas::new();
    assert_eq!(c.add_line(pt(0, 0), pt(1, 0)), Ok(()));
    let vm = ViewModel::from_model(c);
    assert_eq!(vm.model().num_tracks(), 1);
    assert!(vm.data().topology.is_none());
}

#[test]
fn each_unit_step_adds_one_resolution() {
    let mut c = SchematicCanvas::new();
    assert_eq!(c.add_line(pt(0, 0), pt(3, 0)), Ok(()));
    assert_eq!(c.add_line(pt(3, 0), pt(5, 2)), Ok(()));
    assert_eq!(c.add_line(pt(3, 0), pt(3, -2)), Ok(()));
    let total: u64 = [pt(1, 0), pt(4, 1), pt(3, -1)]
        .iter()
        .map(|p| c.track_length(track_at(&c, *p)).unwrap())
        .sum();
    assert_eq!(total, 7 * DEFAULT_GRID_RESOLUTION);
    assert_eq!(c.num_tracks(), 3);
}

#[test]
fn drawing_occupies_only_the_route() {
    let mut c = SchematicCanvas::new();
    assert_eq!(c.add_line(pt(0, 0), pt(3, -1)), Ok(()));
    for p in [pt(0, 0), pt(1, -1), pt(2, -1), pt(3, -1)] {
        assert!(c.point_info(p).is_some());
    }
    for p in [pt(1, 0), pt(2, 0), pt(3, 0), pt(0, -1), pt(4, -1)] {
        assert_eq!(c.point_info(p), None);
    }
}

#[test]
fn drawing_over_a_track_adds_no_parallel_track() {
    let mut c = SchematicCanvas::new();
    assert_eq!(c.add_line(pt(0, 0), pt(4, 0)), Ok(()));
    assert_eq!(c.add_line(pt(1, 0), pt(2, 0)), Ok(()));
    assert_eq!(c.num_tracks(), 1);
    assert_eq!(c.num_locations(), 2);
    let t = track_at(&c, pt(1, 0));
    assert_eq!(track_at(&c, pt(2, 0)), t);
    assert_eq!(c.track_length(t), Some(200));
}
