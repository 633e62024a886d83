//! The topology editor: locations, tracks, their paths and the index of
//! occupied grid points, changed together by every edit.
use vstd::prelude::*;
use std::collections::HashMap;
use generational_arena::Arena;
use crate::arena::{
    Id, location_count, track_count, has_location, has_track, insert_location, insert_track, location_at, location_entries,
    new_location_arena, new_track_arena, remove_location, remove_track, replace_location,
    replace_track, track_at, track_entries,
};
use crate::geometry::{Pt, chebyshev, is_ortholinear, length_maxmetric, route, route_fits, steps, step_point, toward};
use crate::polyline::{
    Polyline, first_hit, hits, without, interior, inner, all_ortholinear, lemma_seq_parts, lemma_inner_concat,
    lemma_cut_no_duplicates, lemma_join_no_duplicates, lemma_moved_inner, lemma_reverse_inner,
    lemma_expand_len, lemma_expand_len2, lemma_expand_append, lemma_expand_reverse, lemma_split_expand,
    lemma_expand_hit, lemma_first_hit_exists, lemma_total_length_expand, expand, joined, total_length, split_spec, lemma_split_pieces,
    lemma_reverse_path, lemma_join_ortholinear,
};
use crate::geometry::lemma_unit_step;

verus! {

broadcast use vstd::std_specs::hash::group_hash_axioms;

#[derive(Debug)]
pub enum Dir {
    Up,
    Down,
}

#[derive(Debug)]
pub enum Side {
    Left,
    Right,
}

/// The kind of a railway node at a location.
#[derive(Debug)]
pub enum Node {
    End,
    Continue,
    Switch(Dir, Side),
    Crossing,
}

/// What occupies a grid point.
#[derive(Clone, Copy, PartialEq, Eq, Debug, Structural)]
pub enum PointInfo {
    Location(Id),
    Track(Id),
}

/// A vertex of the railway graph.
#[derive(Debug)]
pub struct Location {
    node: Option<Node>,
    connections: Vec<Id>,
}

impl Location {
    /// The tracks that meet here, in the order they were connected.
    pub closed spec fn conns(&self) -> Seq<Id> {
        self.connections@
    }

    /// A location with no node kind and no connections.
    pub fn empty() -> (r: Location)
        ensures
            r.conns() == Seq::<Id>::empty(),
    {
        Location { node: None, connections: Vec::new() }
    }
}

/// An edge of the railway graph, with its physical length and its path on
/// the grid from `end_a` to `end_b`.
#[derive(Debug)]
pub struct Track {
    end_a: Id,
    end_b: Id,
    length: u64,
    line: Polyline,
}

/// The arenas of locations and tracks.
#[derive(Debug)]
pub struct Railway {
    locations: Arena<Location>,
    tracks: Arena<Track>,
}

/// The length of a unit track created by drawing.
pub const DEFAULT_GRID_RESOLUTION: u64 = 50;

/// The key of a grid point in the point index.
pub open spec fn pt_key(p: Pt) -> u64 {
    ((p.x + 0x8000_0000) * 0x1_0000_0000 + (p.y + 0x8000_0000)) as u64
}

pub proof fn lemma_pt_key_injective(p: Pt, q: Pt)
    ensures
        pt_key(p) == pt_key(q) ==> p == q,
{
}

fn key_of(p: Pt) -> (k: u64)
    ensures
        k == pt_key(p),
{
    let x: u64 = (p.x as i64 + 0x8000_0000) as u64;
    let y: u64 = (p.y as i64 + 0x8000_0000) as u64;
    x * 0x1_0000_0000 + y
}

pub proof fn lemma_push_contains<A>(s: Seq<A>, x: A, q: A)
    ensures
        s.push(x).contains(q) <==> (s.contains(q) || q == x),
{
    if s.push(x).contains(q) {
        let j = choose|j: int| 0 <= j < s.push(x).len() && s.push(x)[j] == q;
        if j < s.len() {
            assert(s[j] == q);
        }
    }
    if s.contains(q) {
        let j = choose|j: int| 0 <= j < s.len() && s[j] == q;
        assert(s.push(x)[j] == q);
    }
    if q == x {
        assert(s.push(x)[s.len() as int] == x);
    }
}

fn contains_id(v: &Vec<Id>, x: Id) -> (r: bool)
    ensures
        r == v@.contains(x),
{
    let mut i: usize = 0;
    while i < v.len()
        invariant
            i <= v@.len(),
            forall|j: int| 0 <= j < i ==> v@[j] != x,
        decreases v@.len() - i,
    {
        if v[i] == x {
            return true;
        }
        i = i + 1;
    }
    false
}

/// The first part of a length split in proportion `l1 : l2`.
pub open spec fn split_length(total: u64, l1: u64, l2: u64) -> int {
    if l1 + l2 == 0 {
        0
    } else {
        (total * l1) / (l1 + l2)
    }
}

/// A length saturated at the largest `u64`.
pub open spec fn saturated(v: int) -> u64 {
    if v <= u64::MAX { v as u64 } else { u64::MAX }
}

fn split_length_of(total: u64, l1: u64, l2: u64) -> (r: u64)
    ensures
        r == split_length(total, l1, l2),
        r <= total,
{
    let s: u128 = l1 as u128 + l2 as u128;
    if s == 0 {
        return 0;
    }
    proof {
        assert((total as int) * (l1 as int) <= u64::MAX * u64::MAX) by (nonlinear_arith)
            requires total <= u64::MAX, l1 <= u64::MAX,;
    }
    let prod: u128 = total as u128 * l1 as u128;
    proof {
        assert(prod <= (total as int) * (s as int)) by (nonlinear_arith)
            requires prod == total * l1, s == l1 + l2, l2 >= 0,;
        assert(prod / s <= total) by (nonlinear_arith)
            requires prod <= (total as int) * (s as int), s > 0,;
    }
    (prod / s) as u64
}

/// `s` with every `from` replaced by `to`.
pub open spec fn swapped(s: Seq<Id>, from: Id, to: Id) -> Seq<Id> {
    Seq::new(s.len(), |i: int| if s[i] == from { to } else { s[i] })
}

/// The points of the part after a split that the index hands to the new
/// track: every unit point after its first, but its last.
pub open spec fn moved_points(b: Seq<Pt>) -> Seq<Pt> {
    without(expand(b).drop_first(), b.last())
}

/// `c1` is `c0` with a new location `l` at `pt` and nothing else.
pub open spec fn fresh_location(c0: SchematicCanvas, c1: SchematicCanvas, pt: Pt, l: Id) -> bool {
    &&& !c0.location_ids().contains(l)
    &&& c1.location_ids() == c0.location_ids().insert(l)
    &&& c1.connections(l) == Seq::<Id>::empty()
    &&& forall|m: Id| #[trigger] c0.location_ids().contains(m) ==> c1.connections(m) == c0.connections(m)
    &&& c1.trks() == c0.trks()
    &&& c1.point_at(pt) == Some(PointInfo::Location(l))
    &&& forall|q: Pt| q != pt ==> #[trigger] c1.point_at(q) == c0.point_at(q)
}

/// `c1` is `c0` with track `t` split at `pt` by a new location `l`: `t`
/// keeps the part before `pt` and a new track takes the part after it, the
/// length being shared in proportion to the max-metric lengths of the parts.
pub open spec fn split_done(c0: SchematicCanvas, c1: SchematicCanvas, t: Id, pt: Pt, l: Id) -> bool {
    let (a, b) = split_spec(c0.line(t), pt)->Some_0;
    let far = c0.end_b(t);
    let nt = c1.connections(l)[1];
    &&& !c0.location_ids().contains(l)
    &&& c1.location_ids() == c0.location_ids().insert(l)
    &&& !c0.track_ids().contains(nt)
    &&& c1.track_ids() == c0.track_ids().insert(nt)
    &&& c1.connections(l) == seq![t, nt]
    &&& c1.end_a(t) == c0.end_a(t)
    &&& c1.end_b(t) == l
    &&& c1.line(t) == a
    &&& c1.length(t) == split_length(c0.length(t), saturated(total_length(a)), saturated(total_length(b)))
    &&& c1.end_a(nt) == l
    &&& c1.end_b(nt) == far
    &&& c1.line(nt) == b
    &&& c1.length(nt) == c0.length(t) - c1.length(t)
    &&& c1.connections(far) == swapped(c0.connections(far), t, nt)
    &&& forall|m: Id| #[trigger] c0.location_ids().contains(m) && m != far ==> c1.connections(m) == c0.connections(m)
    &&& forall|u: Id| #[trigger] c0.track_ids().contains(u) && u != t ==> c1.trks()[u] == c0.trks()[u]
    &&& c1.point_at(pt) == Some(PointInfo::Location(l))
    &&& forall|q: Pt| q != pt ==> #[trigger] c1.point_at(q) == if c0.point_at(q) == Some(PointInfo::Track(t))
        && moved_points(b).contains(q) {
        Some(PointInfo::Track(nt))
    } else {
        c0.point_at(q)
    }
}

/// What `make_loc(pt)` does to a schematic `c0`, giving `c1` and `r`: it
/// always succeeds, handing back the location at `pt`, which it finds
/// there, or makes there, splitting the track that held `pt` if any.
pub open spec fn make_loc_post(c0: SchematicCanvas, c1: SchematicCanvas, pt: Pt, r: Result<Id, ()>) -> bool {
    &&& c1.wf()
    &&& c1.resolution() == c0.resolution()
    &&& r matches Ok(l) && c1.location_ids().contains(l) && c1.point_at(pt) == Some(PointInfo::Location(l))
    &&& match c0.point_at(pt) {
        Some(PointInfo::Location(l)) => r == Ok::<Id, ()>(l) && c1 == c0,
        None => r matches Ok(l) && fresh_location(c0, c1, pt, l),
        Some(PointInfo::Track(t)) => c0.can_split(t, pt) && (r matches Ok(l) && split_done(c0, c1, t, pt, l)),
    }
}

/// After a split of track `t` at `pt`, the point index gives each track
/// exactly the unit points strictly inside its path, and neither part of
/// the path passes a unit point twice.
#[verifier::rlimit(100)]
proof fn lemma_split_keeps_index(
    o: SchematicCanvas,
    n: SchematicCanvas,
    t: Id,
    nt: Id,
    loc: Id,
    pt: Pt,
    a: Seq<Pt>,
    b: Seq<Pt>,
)
    requires
        o.wf(),
        o.point_at(pt) == Some(PointInfo::Track(t)),
        o.track_ids().contains(t),
        a.len() >= 2,
        b.len() >= 2,
        a.last() == pt,
        b[0] == pt,
        all_ortholinear(a),
        all_ortholinear(b),
        expand(a) + expand(b).drop_first() == expand(o.line(t)),
        !o.track_ids().contains(nt),
        n.track_ids() == o.track_ids().insert(nt),
        forall|u: Id| #[trigger] o.track_ids().contains(u) && u != t ==> n.trks()[u] == o.trks()[u],
        n.line(t) == a,
        n.line(nt) == b,
        n.point_at(pt) == Some(PointInfo::Location(loc)),
        forall|q: Pt| q != pt ==> #[trigger] n.point_at(q) == if o.point_at(q) == Some(PointInfo::Track(t))
            && moved_points(b).contains(q) {
            Some(PointInfo::Track(nt))
        } else {
            o.point_at(q)
        },
    ensures
        expand(a).no_duplicates(),
        expand(b).no_duplicates(),
        forall|p: Pt| #[trigger]
            n.trk_at(p) is Some ==> n.track_ids().contains(n.trk_at(p)->Some_0) && interior(
                n.line(n.trk_at(p)->Some_0),
            ).contains(p),
        forall|u: Id, p: Pt|
            n.track_ids().contains(u) && #[trigger] interior(n.line(u)).contains(p) ==> n.trk_at(p) == Some(u),
{
    let ea = expand(a);
    let eb = expand(b);
    let e = expand(o.line(t));
    assert(o.track_ok(t));
    lemma_expand_len2(a);
    lemma_expand_len2(b);
    lemma_expand_len(a);
    lemma_expand_len(b);
    lemma_cut_no_duplicates(ea, eb);
    lemma_inner_concat(ea, eb);
    lemma_moved_inner(eb);
    assert(moved_points(b) == without(eb.drop_first(), eb.last()));
    assert(o.trk_at(pt) == Some(t));
    assert(inner(e).contains(pt));
    assert forall|p: Pt| #[trigger] n.trk_at(p) is Some implies n.track_ids().contains(n.trk_at(p)->Some_0)
        && interior(n.line(n.trk_at(p)->Some_0)).contains(p) by {
        let u = n.trk_at(p)->Some_0;
        if p != pt {
            if o.point_at(p) == Some(PointInfo::Track(t)) && moved_points(b).contains(p) {
                assert(u == nt);
                assert(inner(eb).contains(p));
            } else {
                assert(o.trk_at(p) == Some(u));
                assert(o.track_ids().contains(u));
                if u == t {
                    assert(inner(e).contains(p));
                    assert(!inner(eb).contains(p));
                    assert(inner(ea).contains(p));
                } else {
                    assert(n.line(u) == o.line(u));
                }
            }
        }
    }
    assert forall|u: Id, p: Pt| n.track_ids().contains(u) && #[trigger] interior(n.line(u)).contains(p)
        implies n.trk_at(p) == Some(u) by {
        if u == t {
            assert(inner(ea).contains(p));
            assert(inner(e).contains(p));
            assert(o.trk_at(p) == Some(t));
            assert(p != pt);
            assert(!inner(eb).contains(p));
        } else if u == nt {
            assert(inner(eb).contains(p));
            assert(inner(e).contains(p));
            assert(o.trk_at(p) == Some(t));
            assert(p != pt);
        } else {
            assert(o.track_ids().contains(u));
            assert(n.line(u) == o.line(u));
            assert(o.trk_at(p) == Some(u));
            assert(p != pt);
        }
    }
}

/// The schematic after a split of track `t` at `pt` is well formed.
#[verifier::rlimit(100)]
proof fn lemma_split_keeps_wf(
    o: SchematicCanvas,
    n: SchematicCanvas,
    t: Id,
    nt: Id,
    loc: Id,
    pt: Pt,
    a: Seq<Pt>,
    b: Seq<Pt>,
)
    requires
        o.wf(),
        o.point_at(pt) == Some(PointInfo::Track(t)),
        o.track_ids().contains(t),
        a.len() >= 2,
        b.len() >= 2,
        a[0] == o.line(t)[0],
        a.last() == pt,
        b[0] == pt,
        b.last() == o.line(t).last(),
        all_ortholinear(a),
        all_ortholinear(b),
        !o.location_ids().contains(loc),
        !o.track_ids().contains(nt),
        n.location_ids() == o.location_ids().insert(loc),
        n.track_ids() == o.track_ids().insert(nt),
        n.connections(loc) == seq![t, nt],
        n.connections(o.end_b(t)) == swapped(o.connections(o.end_b(t)), t, nt),
        forall|m: Id| #[trigger] o.location_ids().contains(m) && m != o.end_b(t) ==> n.connections(m) == o.connections(m),
        forall|u: Id| #[trigger] o.track_ids().contains(u) && u != t ==> n.trks()[u] == o.trks()[u],
        n.end_a(t) == o.end_a(t),
        n.end_b(t) == loc,
        n.line(t) == a,
        n.end_a(nt) == loc,
        n.end_b(nt) == o.end_b(t),
        n.line(nt) == b,
        n.point_at(pt) == Some(PointInfo::Location(loc)),
        forall|q: Pt| q != pt ==> #[trigger] n.point_at(q) == if o.point_at(q) == Some(PointInfo::Track(t))
            && moved_points(b).contains(q) {
            Some(PointInfo::Track(nt))
        } else {
            o.point_at(q)
        },
        expand(a) + expand(b).drop_first() == expand(o.line(t)),
    ensures
        n.wf(),
{
    let far = o.end_b(t);
    let end_a = o.end_a(t);
    lemma_split_keeps_index(o, n, t, nt, loc, pt, a, b);
    assert(o.track_ok(t));
    assert(o.location_ok(far));
    assert(forall|q: Pt| q != pt ==> #[trigger] n.loc_at(q) == o.loc_at(q));
    assert(n.loc_at(a[0]) == Some(end_a));
    assert(n.loc_at(b.last()) == Some(far));
    assert(n.loc_at(pt) == Some(loc));
    assert forall|u: Id| #[trigger] n.track_ids().contains(u) implies n.track_ok(u) by {
        if u != t && u != nt {
            assert(o.track_ids().contains(u));
            assert(o.track_ok(u));
            let lu = o.line(u);
            assert(n.loc_at(lu[0]) == o.loc_at(lu[0]));
            assert(n.loc_at(lu.last()) == o.loc_at(lu.last()));
            if o.end_a(u) == far || o.end_b(u) == far {
                let c0 = o.connections(far);
                let j = choose|j: int| 0 <= j < c0.len() && c0[j] == u;
                assert(n.connections(far)[j] == u);
            }
        } else if u == nt {
            let c0 = o.connections(far);
            let j = choose|j: int| 0 <= j < c0.len() && c0[j] == t;
            assert(n.connections(far)[j] == nt);
            assert(n.connections(loc)[1] == nt);
        } else {
            assert(n.connections(loc)[0] == t);
            assert(o.location_ids().contains(end_a));
            assert(n.connections(end_a) == o.connections(end_a));
        }
    }
    assert forall|l: Id| #[trigger] n.location_ids().contains(l) implies n.location_ok(l) by {
        if l == loc {
            assert(n.loc_at(pt) == Some(loc));
        } else {
            assert(o.location_ids().contains(l));
            assert(o.location_ok(l));
            let w = choose|p: Pt| o.loc_at(p) == Some(l);
            assert(w != pt);
            assert(n.loc_at(w) == Some(l));
        }
        if l == loc {
        } else if l == far {
            let c0 = o.connections(far);
            let c = n.connections(far);
            assert forall|i: int, j: int| 0 <= i < c.len() && 0 <= j < c.len() && i != j implies c[i] != c[j] by {
                assert(o.track_ids().contains(c0[i]));
                assert(o.track_ids().contains(c0[j]));
            }
            assert forall|i: int| 0 <= i < c.len() implies n.track_ids().contains(#[trigger] c[i])
                && (n.end_a(c[i]) == l || n.end_b(c[i]) == l) by {
                assert(o.track_ids().contains(c0[i]));
                if c0[i] != t {
                    assert(n.trks()[c0[i]] == o.trks()[c0[i]]);
                }
            }
        } else {
            assert(o.location_ids().contains(l));
            assert(o.location_ok(l));
            let c = n.connections(l);
            assert forall|i: int| 0 <= i < c.len() implies n.track_ids().contains(#[trigger] c[i])
                && (n.end_a(c[i]) == l || n.end_b(c[i]) == l) by {
                assert(o.track_ids().contains(c[i]));
                if c[i] != t {
                    assert(n.trks()[c[i]] == o.trks()[c[i]]);
                }
            }
        }
    }
    assert forall|p: Pt| #[trigger] n.loc_at(p) is Some implies n.location_ids().contains(
        n.loc_at(p)->Some_0,
    ) by {
        if p != pt {
            assert(o.loc_at(p) == n.loc_at(p));
        }
    }
    assert forall|p: Pt, q: Pt| #[trigger] n.loc_at(p) is Some && n.loc_at(p) == #[trigger] n.loc_at(q) implies p == q by {
        if p != pt {
            assert(o.loc_at(p) == n.loc_at(p));
        }
        if q != pt {
            assert(o.loc_at(q) == n.loc_at(q));
        }
    }
}

/// After location `loc` is merged away, the point index gives each track
/// exactly the unit points strictly inside its path, and the merged path
/// passes no unit point twice.
#[verifier::rlimit(100)]
proof fn lemma_join_keeps_index(
    o: SchematicCanvas,
    n: SchematicCanvas,
    loc: Id,
    t1: Id,
    t2: Id,
)
    requires
        o.wf(),
        o.location_ids().contains(loc),
        o.connections(loc) == seq![t1, t2],
        o.end_b(t1) == loc,
        o.end_a(t2) == loc,
        o.end_a(t1) != o.end_b(t2),
        n.track_ids() == o.track_ids().remove(t2),
        forall|u: Id| #[trigger] o.track_ids().contains(u) && u != t1 && u != t2 ==> n.trks()[u] == o.trks()[u],
        n.line(t1) == o.line(t1).drop_last() + o.line(t2),
        n.point_at(o.line(t1).last()) == Some(PointInfo::Track(t1)),
        forall|q: Pt| q != o.line(t1).last() ==> #[trigger] n.point_at(q) == if o.point_at(q) == Some(PointInfo::Track(t2))
            && moved_points(o.line(t2)).contains(q) {
            Some(PointInfo::Track(t1))
        } else {
            o.point_at(q)
        },
    ensures
        expand(n.line(t1)).no_duplicates(),
        forall|p: Pt| #[trigger]
            n.trk_at(p) is Some ==> n.track_ids().contains(n.trk_at(p)->Some_0) && interior(
                n.line(n.trk_at(p)->Some_0),
            ).contains(p),
        forall|u: Id, p: Pt|
            n.track_ids().contains(u) && #[trigger] interior(n.line(u)).contains(p) ==> n.trk_at(p) == Some(u),
{
    let la = o.line(t1);
    let lb = o.line(t2);
    let ea = expand(la);
    let eb = expand(lb);
    let s = la.last();
    assert(o.connections(loc)[0] == t1 && o.connections(loc)[1] == t2);
    assert(o.location_ok(loc));
    assert(t1 != t2);
    assert(o.track_ok(t1));
    assert(o.track_ok(t2));
    let a = o.end_a(t1);
    let b = o.end_b(t2);
    lemma_expand_len2(la);
    lemma_expand_len2(lb);
    lemma_expand_len(la);
    lemma_expand_len(lb);
    lemma_seq_parts(ea);
    lemma_seq_parts(eb);
    lemma_expand_append(la, lb);
    assert(lb[0] == s);
    assert(o.loc_at(la[0]) == Some(a));
    assert(o.loc_at(s) == Some(loc));
    assert(o.loc_at(lb.last()) == Some(b));
    assert(la[0] != s);
    assert(la[0] != lb.last());
    assert forall|p: Pt| #[trigger] ea.drop_last().contains(p) implies !eb.contains(p) by {
        if eb.contains(p) {
            if p == ea[0] {
                if inner(eb).contains(p) {
                    assert(interior(lb).contains(p));
                    assert(o.trk_at(p) == Some(t2));
                }
            } else {
                assert(inner(ea).contains(p));
                assert(interior(la).contains(p));
                assert(o.trk_at(p) == Some(t1));
                if inner(eb).contains(p) {
                    assert(interior(lb).contains(p));
                    assert(o.trk_at(p) == Some(t2));
                }
            }
        }
    }
    lemma_join_no_duplicates(ea, eb);
    lemma_inner_concat(ea, eb);
    lemma_moved_inner(eb);
    assert(moved_points(lb) == without(eb.drop_first(), eb.last()));
    assert(expand(n.line(t1)) == ea + eb.drop_first()) by {
        assert(n.line(t1) == la.drop_last() + lb);
    }
    assert forall|p: Pt| #[trigger] n.trk_at(p) is Some implies n.track_ids().contains(n.trk_at(p)->Some_0)
        && interior(n.line(n.trk_at(p)->Some_0)).contains(p) by {
        let u = n.trk_at(p)->Some_0;
        if p != s {
            if o.point_at(p) == Some(PointInfo::Track(t2)) && moved_points(lb).contains(p) {
                assert(u == t1);
                assert(inner(eb).contains(p));
            } else {
                assert(o.trk_at(p) == Some(u));
                assert(o.track_ids().contains(u));
                if u == t2 {
                    assert(inner(eb).contains(p));
                } else if u == t1 {
                    assert(inner(ea).contains(p));
                } else {
                    assert(n.line(u) == o.line(u));
                }
            }
        }
    }
    assert forall|u: Id, p: Pt| n.track_ids().contains(u) && #[trigger] interior(n.line(u)).contains(p)
        implies n.trk_at(p) == Some(u) by {
        if u == t1 {
            if inner(ea).contains(p) {
                assert(interior(la).contains(p));
                assert(o.trk_at(p) == Some(t1));
            } else if inner(eb).contains(p) {
                assert(interior(lb).contains(p));
                assert(o.trk_at(p) == Some(t2));
            }
        } else {
            assert(o.track_ids().contains(u));
            assert(n.line(u) == o.line(u));
            assert(interior(o.line(u)).contains(p));
            assert(o.trk_at(p) == Some(u));
        }
    }
}

/// The schematic after location `loc` is merged away, track `t1` taking
/// over the path of track `t2`, is well formed.
#[verifier::rlimit(100)]
proof fn lemma_join_keeps_wf(
    o: SchematicCanvas,
    n: SchematicCanvas,
    loc: Id,
    t1: Id,
    t2: Id,
)
    requires
        o.wf(),
        o.location_ids().contains(loc),
        o.connections(loc) == seq![t1, t2],
        o.end_b(t1) == loc,
        o.end_a(t2) == loc,
        o.end_a(t1) != o.end_b(t2),
        n.location_ids() == o.location_ids().remove(loc),
        n.track_ids() == o.track_ids().remove(t2),
        n.connections(o.end_b(t2)) == swapped(o.connections(o.end_b(t2)), t2, t1),
        forall|m: Id| #[trigger] o.location_ids().contains(m) && m != o.end_b(t2) && m != loc ==> n.connections(m) == o.connections(m),
        forall|u: Id| #[trigger] o.track_ids().contains(u) && u != t1 && u != t2 ==> n.trks()[u] == o.trks()[u],
        n.end_a(t1) == o.end_a(t1),
        n.end_b(t1) == o.end_b(t2),
        n.line(t1) == o.line(t1).drop_last() + o.line(t2),
        n.point_at(o.line(t1).last()) == Some(PointInfo::Track(t1)),
        forall|q: Pt| q != o.line(t1).last() ==> #[trigger] n.point_at(q) == if o.point_at(q) == Some(PointInfo::Track(t2))
            && moved_points(o.line(t2)).contains(q) {
            Some(PointInfo::Track(t1))
        } else {
            o.point_at(q)
        },
    ensures
        n.wf(),
{
    lemma_join_keeps_index(o, n, loc, t1, t2);
    let a = o.end_a(t1);
    let b = o.end_b(t2);
    let s = o.line(t1).last();
    assert(o.connections(loc)[0] == t1 && o.connections(loc)[1] == t2);
    assert(o.location_ok(loc));
    assert(o.track_ok(t1));
    assert(o.track_ok(t2));
    assert(o.location_ok(b));
    assert(o.location_ok(a));
    assert(o.loc_at(s) == Some(loc));
    assert(o.line(t2)[0] == s);
    assert(forall|q: Pt| q != s ==> #[trigger] n.loc_at(q) == o.loc_at(q));
    lemma_join_ortholinear(o.line(t1), o.line(t2));
    // t1 is not among the connections of b
    assert(!o.connections(b).contains(t1));
    assert forall|u: Id| #[trigger] n.track_ids().contains(u) implies n.track_ok(u) by {
        if u != t1 {
            assert(o.track_ids().contains(u));
            assert(o.track_ok(u));
            assert(o.end_a(u) != loc && o.end_b(u) != loc);
            let lu = o.line(u);
            if o.end_a(u) == b || o.end_b(u) == b {
                let c0 = o.connections(b);
                let j = choose|j: int| 0 <= j < c0.len() && c0[j] == u;
                assert(n.connections(b)[j] == u);
            }
        } else {
            let c0 = o.connections(b);
            let j = choose|j: int| 0 <= j < c0.len() && c0[j] == t2;
            assert(n.connections(b)[j] == t1);
            let l = n.line(t1);
            assert(l[0] == o.line(t1)[0]);
            assert(l.last() == o.line(t2).last());
        }
    }
    assert forall|l: Id| #[trigger] n.location_ids().contains(l) implies n.location_ok(l) by {
        if l != loc {
            assert(o.location_ids().contains(l));
            assert(o.location_ok(l));
            let w = choose|p: Pt| o.loc_at(p) == Some(l);
            assert(w != s);
            assert(n.loc_at(w) == Some(l));
        }
        if l == b {
            let c0 = o.connections(b);
            let c = n.connections(b);
            assert forall|i: int, j: int| 0 <= i < c.len() && 0 <= j < c.len() && i != j implies c[i] != c[j] by {
                if c0[i] == t2 {
                    assert(c0[j] != t1);
                }
                if c0[j] == t2 {
                    assert(c0[i] != t1);
                }
            }
            assert forall|i: int| 0 <= i < c.len() implies n.track_ids().contains(#[trigger] c[i])
                && (n.end_a(c[i]) == l || n.end_b(c[i]) == l) by {
                assert(o.track_ids().contains(c0[i]));
                assert(c0[i] != t1);
            }
        } else {
            assert(o.location_ids().contains(l));
            assert(o.location_ok(l));
            let c = n.connections(l);
            assert forall|i: int| 0 <= i < c.len() implies n.track_ids().contains(#[trigger] c[i])
                && (n.end_a(c[i]) == l || n.end_b(c[i]) == l) by {
                assert(o.track_ids().contains(c[i]));
            }
        }
    }
    assert forall|p: Pt| #[trigger] n.loc_at(p) is Some implies n.location_ids().contains(
        n.loc_at(p)->Some_0,
    ) by {
        assert(o.loc_at(p) == n.loc_at(p));
    }
    assert forall|p: Pt, q: Pt| #[trigger] n.loc_at(p) is Some && n.loc_at(p) == #[trigger] n.loc_at(q) implies p == q by {
        assert(o.loc_at(p) == n.loc_at(p));
        assert(o.loc_at(q) == n.loc_at(q));
    }
}

/// No location is an orphan (no connection) or a plain waypoint (two).
pub open spec fn settled(c: SchematicCanvas) -> bool {
    forall|l: Id| #[trigger] c.location_ids().contains(l) ==> c.connections(l).len() != 0 && c.connections(l).len() != 2
}

/// Unit point `d` of segment `i` of the route from `p1` to `p2`.
pub open spec fn route_point(p1: Pt, p2: Pt, i: int, d: int) -> Pt {
    steps(route(p1, p2)[i].0, route(p1, p2)[i].1)[d]
}

/// `q` is one of the unit points of the route from `p1` to `p2`.
pub open spec fn on_route(p1: Pt, p2: Pt, q: Pt) -> bool {
    exists|i: int, d: int|
        0 <= i < route(p1, p2).len() && 0 <= d < steps(route(p1, p2)[i].0, route(p1, p2)[i].1).len()
            && #[trigger] route_point(p1, p2, i, d) == q
}

/// Location `l` joins exactly two tracks whose other ends are one
/// location.
pub open spec fn stuck_at(c: SchematicCanvas, l: Id) -> bool {
    &&& c.location_ids().contains(l)
    &&& c.connections(l).len() == 2
    &&& c.far_end(c.connections(l)[0], l) == c.far_end(c.connections(l)[1], l)
}

/// What `add_line(p1, p2)` does to a schematic `c0`, giving `c1` and `r`:
/// - the schematic stays well formed, with the same resolution, and no
///   occupied point is freed;
/// - it fails only where some location is left joining two tracks whose
///   other ends are one location, so that merging it away would close a
///   loop;
/// - an empty gesture succeeds and changes nothing;
/// - no point off the old index and the route gets an entry;
/// - on success every unit point of the route is occupied, and each unit
///   step of the route is a unit step of the path of some live track;
/// - no unit step comes to lie on two tracks: a step already drawn is
///   not drawn again;
/// - on success, where every length was the resolution times the length
///   of the path, it still is (saturated at the largest `u64`);
/// - on success, a schematic with no orphan and no plain waypoint keeps
///   none.
pub open spec fn add_line_post(c0: SchematicCanvas, c1: SchematicCanvas, p1: Pt, p2: Pt, r: Result<(), ()>) -> bool {
    &&& c1.wf()
    &&& c1.resolution() == c0.resolution()
    &&& forall|q: Pt| #[trigger] c0.point_at(q) is Some ==> c1.point_at(q) is Some
    &&& r is Err ==> stuck(c1)
    &&& p1 == p2 ==> r is Ok && c1 == c0
    &&& r is Ok ==> forall|i: int, d: int|
        0 <= i < route(p1, p2).len() && 0 <= d < steps(route(p1, p2)[i].0, route(p1, p2)[i].1).len()
            ==> (#[trigger] c1.point_at(steps(route(p1, p2)[i].0, route(p1, p2)[i].1)[d])) is Some
    &&& forall|q: Pt| #[trigger] c1.point_at(q) is Some ==> c0.point_at(q) is Some || on_route(p1, p2, q)
    &&& r is Ok ==> forall|i: int, k: int|
        0 <= i < route(p1, p2).len() && 0 <= k < steps(route(p1, p2)[i].0, route(p1, p2)[i].1).len() - 1
            ==> adjacent_in(c1, #[trigger] route_point(p1, p2, i, k), route_point(p1, p2, i, k + 1))
    &&& r is Ok && lengths_exact(c0) ==> lengths_match(c1)
    &&& steps_unique(c0) ==> steps_unique(c1)
    &&& r is Ok && settled(c0) ==> settled(c1)
}

/// What every outcome of `make_loc` keeps: live locations stay live with
/// as many connections, occupied points stay occupied, locations stay
/// where they are, and a new location is the one handed back.
pub proof fn lemma_make_loc_frame(c0: SchematicCanvas, c1: SchematicCanvas, pt: Pt, r: Result<Id, ()>)
    requires
        c0.wf(),
        make_loc_post(c0, c1, pt, r),
    ensures
        forall|m: Id| #[trigger] c0.location_ids().contains(m) ==> c1.location_ids().contains(m)
            && c1.connections(m).len() == c0.connections(m).len(),
        forall|m: Id| #[trigger] c1.location_ids().contains(m) && !c0.location_ids().contains(m) ==> r == Ok::<Id, ()>(m),
        forall|q: Pt| #[trigger] c0.point_at(q) is Some ==> c1.point_at(q) is Some,
        forall|q: Pt| #[trigger] c0.loc_at(q) is Some ==> c1.loc_at(q) == c0.loc_at(q),
        forall|q: Pt| q != pt && #[trigger] c1.loc_at(q) is Some ==> c0.loc_at(q) == c1.loc_at(q),
{
    match c0.point_at(pt) {
        Some(PointInfo::Location(l)) => {},
        None => {
            assert forall|q: Pt| #[trigger] c0.loc_at(q) is Some implies c1.loc_at(q) == c0.loc_at(q) by {
                if q != pt {
                    assert(c1.point_at(q) == c0.point_at(q));
                }
            }
            assert forall|q: Pt| #[trigger] c0.point_at(q) is Some implies c1.point_at(q) is Some by {
                if q != pt {
                    assert(c1.point_at(q) == c0.point_at(q));
                }
            }
        },
        Some(PointInfo::Track(t)) => {
            if r is Ok {
                let l = r->Ok_0;
                let far = c0.end_b(t);
                assert forall|m: Id| #[trigger] c0.location_ids().contains(m) implies c1.location_ids().contains(m)
                    && c1.connections(m).len() == c0.connections(m).len() by {
                    if m != far {
                        assert(c1.connections(m) == c0.connections(m));
                    }
                }
                assert forall|q: Pt| #[trigger] c0.loc_at(q) is Some implies c1.loc_at(q) == c0.loc_at(q) by {
                    if q != pt {
                        assert(c1.point_at(q) == c0.point_at(q));
                    }
                }
                assert forall|q: Pt| #[trigger] c0.point_at(q) is Some implies c1.point_at(q) is Some by {
                    if q != pt {
                        let x = c1.point_at(q);
                    }
                }
            }
        },
    }
}

/// The length of a track merged from two tracks.
pub open spec fn merged_length(l1: u64, l2: u64) -> u64 {
    saturated(l1 + l2)
}

/// Materialising a location twice at one point, with no edit in between,
/// gives the same location both times, and the second time changes
/// nothing.
pub proof fn lemma_make_loc_idempotent(
    c0: SchematicCanvas,
    c1: SchematicCanvas,
    c2: SchematicCanvas,
    pt: Pt,
    r1: Result<Id, ()>,
    r2: Result<Id, ()>,
)
    requires
        c0.wf(),
        make_loc_post(c0, c1, pt, r1),
        make_loc_post(c1, c2, pt, r2),
        r1 is Ok,
    ensures
        r2 == r1,
        c2 == c1,
{
}

/// Splitting a track and merging its two parts again gives back its
/// length: the parts' lengths add up to the whole, and the merge adds them.
pub proof fn lemma_split_then_merge_length(
    c0: SchematicCanvas,
    c1: SchematicCanvas,
    t: Id,
    pt: Pt,
    l: Id,
)
    requires
        c0.wf(),
        c0.point_at(pt) == Some(PointInfo::Track(t)),
        c0.can_split(t, pt),
        split_done(c0, c1, t, pt, l),
    ensures
        merged_length(c1.length(t), c1.length(c1.connections(l)[1])) == c0.length(t),
{
    let (a, b) = split_spec(c0.line(t), pt)->Some_0;
    lemma_split_length_bound(c0.length(t), saturated(total_length(a)), saturated(total_length(b)));
}

/// The first part of a proportional split is no longer than the whole.
pub proof fn lemma_split_length_bound(total: u64, l1: u64, l2: u64)
    ensures
        0 <= split_length(total, l1, l2) <= total,
{
    if l1 + l2 != 0 {
        assert((total * l1) / (l1 + l2) <= total) by (nonlinear_arith)
            requires l1 + l2 > 0, l1 >= 0, l2 >= 0, total >= 0,;
        assert((total * l1) / (l1 + l2) >= 0) by (nonlinear_arith)
            requires l1 + l2 > 0, l1 >= 0, l2 >= 0, total >= 0,;
    }
}

/// In a well-formed schematic, a track splits at every point that the
/// index gives it.
pub proof fn lemma_wf_can_split(c: SchematicCanvas, t: Id, pt: Pt)
    requires
        c.wf(),
        c.point_at(pt) == Some(PointInfo::Track(t)),
    ensures
        c.can_split(t, pt),
{
    assert(c.trk_at(pt) == Some(t));
    assert(c.track_ids().contains(t));
    assert(c.track_ok(t));
    let pts = c.line(t);
    let e = expand(pts);
    lemma_expand_len2(pts);
    lemma_expand_len(pts);
    lemma_seq_parts(e);
    assert(interior(pts).contains(pt));
    assert(e.contains(pt));
    assert(pt != pts[0] && pt != pts.last());
    lemma_expand_hit(pts, pt);
    let i = choose|i: int| 0 <= i < pts.len() - 1 && hits(pts, pt, i);
    lemma_first_hit_exists(pts, pt, i);
    let j = choose|j: int| first_hit(pts, pt, j);
    if pts[j] == pt {
        assert(j != 0);
    }
}

/// In a well-formed schematic the index and the paths agree both ways:
/// the points that the index gives a track are exactly the unit points
/// that its path passes strictly inside, each once, and the first and last
/// unit points of the path are the points of its ends.
pub proof fn lemma_index_round_trip(c: SchematicCanvas, t: Id)
    requires
        c.wf(),
        c.track_ids().contains(t),
    ensures
        forall|p: Pt| #[trigger] c.trk_at(p) == Some(t) <==> inner(expand(c.line(t))).contains(p),
        expand(c.line(t)).no_duplicates(),
        c.loc_at(expand(c.line(t))[0]) == Some(c.end_a(t)),
        c.loc_at(expand(c.line(t)).last()) == Some(c.end_b(t)),
{
    assert(c.track_ok(t));
    lemma_expand_len(c.line(t));
    assert forall|p: Pt| #[trigger] c.trk_at(p) == Some(t) <==> inner(expand(c.line(t))).contains(p) by {
        if inner(expand(c.line(t))).contains(p) {
            assert(interior(c.line(t)).contains(p));
        }
        if c.trk_at(p) == Some(t) {
            assert(c.trk_at(p) is Some);
        }
    }
}

/// Every track's length is the grid resolution times the max-metric
/// length of its path.
pub open spec fn lengths_exact(c: SchematicCanvas) -> bool {
    forall|t: Id| #[trigger] c.track_ids().contains(t) ==> c.length(t) == c.resolution() * total_length(c.line(t))
}

/// Every track's length is the grid resolution times the max-metric
/// length of its path, saturated at the largest `u64`.
pub open spec fn lengths_match(c: SchematicCanvas) -> bool {
    forall|t: Id| #[trigger] c.track_ids().contains(t) ==> c.length(t) == saturated(c.resolution() * total_length(c.line(t)))
}

/// Unit points `k` and `k + 1` of `e` are `a` and `b`, in either order.
pub open spec fn step_pair(e: Seq<Pt>, k: int, a: Pt, b: Pt) -> bool {
    &&& 0 <= k < e.len() - 1
    &&& (e[k] == a && e[k + 1] == b) || (e[k] == b && e[k + 1] == a)
}

/// Some live track passes from `a` to `b`, or from `b` to `a`, in one unit
/// step.
pub open spec fn adjacent_in(c: SchematicCanvas, a: Pt, b: Pt) -> bool {
    exists|t: Id, k: int| c.track_ids().contains(t) && #[trigger] step_pair(expand(c.line(t)), k, a, b)
}

/// Some location joins exactly two tracks whose other ends are one
/// location: merging it away would close a track on itself.
pub open spec fn stuck(c: SchematicCanvas) -> bool {
    exists|l: Id|
        c.location_ids().contains(l) && #[trigger] c.connections(l).len() == 2 && c.far_end(c.connections(l)[0], l)
            == c.far_end(c.connections(l)[1], l)
}

/// No unit step is a unit step of the paths of two live tracks.
pub open spec fn steps_unique(c: SchematicCanvas) -> bool {
    forall|t: Id, u: Id, k: int, j: int, a: Pt, b: Pt|
        c.track_ids().contains(t) && c.track_ids().contains(u) && #[trigger] step_pair(expand(c.line(t)), k, a, b)
            && #[trigger] step_pair(expand(c.line(u)), j, a, b) ==> t == u
}

/// In a sequence without repeats, a unit step stands at one place only.
pub proof fn lemma_step_pair_unique(e: Seq<Pt>, k: int, j: int, a: Pt, b: Pt)
    requires
        e.no_duplicates(),
        step_pair(e, k, a, b),
        step_pair(e, j, a, b),
    ensures
        k == j,
{
    if k != j {
        if e[k] == a {
            if e[j] == a {
            } else {
                assert(e[j + 1] == a);
                assert(e[k + 1] == b && e[j] == b);
            }
        } else {
            if e[j] == b {
            } else {
                assert(e[j + 1] == b);
                assert(e[k + 1] == a && e[j] == a);
            }
        }
    }
}

/// Turning a track around keeps unit steps on one track each.
#[verifier::rlimit(50)]
proof fn lemma_reverse_keeps_unique(o: SchematicCanvas, n: SchematicCanvas, t: Id)
    requires
        o.track_ids().contains(t),
        n.track_ids() == o.track_ids(),
        forall|u: Id| #[trigger] n.track_ids().contains(u) && u != t ==> n.line(u) == o.line(u),
        expand(n.line(t)) == expand(o.line(t)).reverse(),
    ensures
        steps_unique(o) ==> steps_unique(n),
{
    let e = expand(o.line(t));
    if steps_unique(o) {
        let m = e.len();
        assert forall|x: Id, y: Id, k: int, j: int, a: Pt, b: Pt|
            n.track_ids().contains(x) && n.track_ids().contains(y) && #[trigger] step_pair(expand(n.line(x)), k, a, b)
                && #[trigger] step_pair(expand(n.line(y)), j, a, b) implies x == y by {
            let k0 = if x == t { m - 2 - k } else { k };
            let j0 = if y == t { m - 2 - j } else { j };
            if x == t {
                assert(expand(n.line(t))[k] == e[m - 1 - k]);
                assert(expand(n.line(t))[k + 1] == e[m - 2 - k]);
            }
            if y == t {
                assert(expand(n.line(t))[j] == e[m - 1 - j]);
                assert(expand(n.line(t))[j + 1] == e[m - 2 - j]);
            }
            assert(step_pair(expand(o.line(x)), k0, a, b));
            assert(step_pair(expand(o.line(y)), j0, a, b));
        }
    }
}

/// Turning a track around keeps lengths matching paths, and keeps every
/// unit step of every path.
proof fn lemma_reverse_keeps(o: SchematicCanvas, n: SchematicCanvas, t: Id)
    requires
        o.wf(),
        o.track_ids().contains(t),
        n.track_ids() == o.track_ids(),
        forall|u: Id| u != t ==> #[trigger] n.trks()[u] == o.trks()[u],
        n.line(t) == o.line(t).reverse(),
        n.length(t) == o.length(t),
        n.resolution() == o.resolution(),
    ensures
        lengths_match(o) ==> lengths_match(n),
        lengths_exact(o) ==> lengths_exact(n),
        forall|a: Pt, b: Pt| adjacent_in(o, a, b) ==> adjacent_in(n, a, b),
        steps_unique(o) ==> steps_unique(n),
{
    assert(o.track_ok(t));
    let e = expand(o.line(t));
    lemma_expand_reverse(o.line(t));
    lemma_reverse_path(o.line(t));
    lemma_total_length_expand(o.line(t));
    lemma_total_length_expand(n.line(t));
    assert(total_length(n.line(t)) == total_length(o.line(t)));
    assert forall|u: Id| #[trigger] n.track_ids().contains(u) && u != t implies n.line(u) == o.line(u) && n.length(u) == o.length(u) by {
        assert(n.trks()[u] == o.trks()[u]);
    }
    assert forall|a: Pt, b: Pt| adjacent_in(o, a, b) implies adjacent_in(n, a, b) by {
        let (u, k) = choose|u: Id, k: int| o.track_ids().contains(u) && #[trigger] step_pair(expand(o.line(u)), k, a, b);
        if u == t {
            let m = e.len();
            assert(expand(n.line(t))[m - 2 - k] == e[k + 1]);
            assert(expand(n.line(t))[m - 1 - k] == e[k]);
            assert(step_pair(expand(n.line(t)), m - 2 - k, a, b));
        } else {
            assert(step_pair(expand(n.line(u)), k, a, b));
        }
    }
    lemma_reverse_keeps_unique(o, n, t);
}

/// Merging track `t2` into track `t1` keeps unit steps on one track each.
#[verifier::rlimit(50)]
proof fn lemma_merge_keeps_unique(o: SchematicCanvas, n: SchematicCanvas, t1: Id, t2: Id)
    requires
        o.track_ids().contains(t1),
        o.track_ids().contains(t2),
        n.track_ids() == o.track_ids().remove(t2),
        forall|u: Id| #[trigger] n.track_ids().contains(u) && u != t1 ==> n.line(u) == o.line(u),
        expand(o.line(t1)).len() >= 1,
        expand(o.line(t2)).len() >= 1,
        expand(o.line(t1)).last() == expand(o.line(t2))[0],
        expand(n.line(t1)) == expand(o.line(t1)) + expand(o.line(t2)).drop_first(),
        expand(n.line(t1)).no_duplicates(),
    ensures
        steps_unique(o) ==> steps_unique(n),
{
    let ea = expand(o.line(t1));
    let eb = expand(o.line(t2));
    let e = expand(n.line(t1));
    let m = ea.len();
    if steps_unique(o) {
        assert forall|x: Id, y: Id, k: int, j: int, a: Pt, b: Pt|
            n.track_ids().contains(x) && n.track_ids().contains(y) && #[trigger] step_pair(expand(n.line(x)), k, a, b)
                && #[trigger] step_pair(expand(n.line(y)), j, a, b) implies x == y by {
            if x == t1 && y == t1 {
            } else if x == t1 {
                assert(step_pair(expand(o.line(y)), j, a, b));
                if k + 1 <= m - 1 {
                    assert(e[k] == ea[k] && e[k + 1] == ea[k + 1]);
                    assert(step_pair(ea, k, a, b));
                } else {
                    if k == m - 1 {
                        assert(e[k] == eb[0]);
                    } else {
                        assert(e[k] == eb[k - m + 1]);
                    }
                    assert(e[k + 1] == eb[k - m + 2]);
                    assert(step_pair(eb, k - m + 1, a, b));
                }
            } else if y == t1 {
                assert(step_pair(expand(o.line(x)), k, a, b));
                if j + 1 <= m - 1 {
                    assert(e[j] == ea[j] && e[j + 1] == ea[j + 1]);
                    assert(step_pair(ea, j, a, b));
                } else {
                    if j == m - 1 {
                        assert(e[j] == eb[0]);
                    } else {
                        assert(e[j] == eb[j - m + 1]);
                    }
                    assert(e[j + 1] == eb[j - m + 2]);
                    assert(step_pair(eb, j - m + 1, a, b));
                }
            } else {
                assert(step_pair(expand(o.line(x)), k, a, b));
                assert(step_pair(expand(o.line(y)), j, a, b));
            }
        }
    }
}

/// Merging track `t2` into track `t1` keeps lengths matching paths, and
/// keeps every unit step of every path.
proof fn lemma_merge_keeps(o: SchematicCanvas, n: SchematicCanvas, t1: Id, t2: Id)
    requires
        o.wf(),
        n.wf(),
        o.track_ids().contains(t1),
        o.track_ids().contains(t2),
        t1 != t2,
        o.line(t1).last() == o.line(t2)[0],
        n.track_ids() == o.track_ids().remove(t2),
        forall|u: Id| #[trigger] o.track_ids().contains(u) && u != t1 && u != t2 ==> n.trks()[u] == o.trks()[u],
        n.line(t1) == o.line(t1).drop_last() + o.line(t2),
        n.length(t1) == merged_length(o.length(t1), o.length(t2)),
        n.resolution() == o.resolution(),
    ensures
        lengths_match(o) ==> lengths_match(n),
        forall|a: Pt, b: Pt| adjacent_in(o, a, b) ==> adjacent_in(n, a, b),
        steps_unique(o) ==> steps_unique(n),
{
    assert(o.track_ok(t1));
    assert(o.track_ok(t2));
    let la = o.line(t1);
    let lb = o.line(t2);
    let ea = expand(la);
    let eb = expand(lb);
    lemma_expand_len(la);
    lemma_expand_len(lb);
    lemma_expand_append(la, lb);
    let e = expand(n.line(t1));
    assert(e == ea + eb.drop_first());
    assert(n.track_ids().contains(t1));
    assert(n.track_ok(t1));
    lemma_total_length_expand(la);
    lemma_total_length_expand(lb);
    lemma_total_length_expand(n.line(t1));
    let res = o.resolution() as int;
    let t_a = total_length(la);
    let t_b = total_length(lb);
    assert(total_length(n.line(t1)) == t_a + t_b);
    assert(res * (t_a + t_b) == res * t_a + res * t_b) by (nonlinear_arith);
    assert(res * t_a >= 0 && res * t_b >= 0) by (nonlinear_arith)
        requires res >= 0, t_a >= 0, t_b >= 0,;
    assert forall|u: Id| #[trigger] n.track_ids().contains(u) && u != t1 implies n.line(u) == o.line(u) && n.length(u) == o.length(u) by {
        assert(n.trks()[u] == o.trks()[u]);
    }
    lemma_merge_keeps_unique(o, n, t1, t2);
    assert forall|a: Pt, b: Pt| adjacent_in(o, a, b) implies adjacent_in(n, a, b) by {
        let (u, k) = choose|u: Id, k: int| o.track_ids().contains(u) && #[trigger] step_pair(expand(o.line(u)), k, a, b);
        if u == t1 {
            assert(e[k] == ea[k] && e[k + 1] == ea[k + 1]);
            assert(step_pair(e, k, a, b));
        } else if u == t2 {
            let j = ea.len() - 1 + k;
            assert(e[j] == eb[k]);
            assert(e[j + 1] == eb[k + 1]);
            assert(step_pair(e, j, a, b));
        } else {
            assert(step_pair(expand(n.line(u)), k, a, b));
        }
    }
}

/// Splitting track `t` into `t` and a new track `nt` keeps unit steps on
/// one track each.
#[verifier::rlimit(50)]
proof fn lemma_split_keeps_unique(o: SchematicCanvas, n: SchematicCanvas, t: Id, nt: Id)
    requires
        o.track_ids().contains(t),
        !o.track_ids().contains(nt),
        n.track_ids() == o.track_ids().insert(nt),
        forall|u: Id| #[trigger] n.track_ids().contains(u) && u != t && u != nt ==> n.line(u) == o.line(u),
        expand(n.line(t)).len() >= 2,
        expand(n.line(nt)).len() >= 2,
        expand(n.line(t)).last() == expand(n.line(nt))[0],
        expand(o.line(t)) == expand(n.line(t)) + expand(n.line(nt)).drop_first(),
        expand(o.line(t)).no_duplicates(),
    ensures
        steps_unique(o) ==> steps_unique(n),
{
    let e = expand(o.line(t));
    let ea = expand(n.line(t));
    let eb = expand(n.line(nt));
    let m = ea.len();
    if steps_unique(o) {
        assert forall|x: Id, y: Id, k: int, j: int, a: Pt, b: Pt|
            n.track_ids().contains(x) && n.track_ids().contains(y) && #[trigger] step_pair(expand(n.line(x)), k, a, b)
                && #[trigger] step_pair(expand(n.line(y)), j, a, b) implies x == y by {
            let x0 = if x == nt { t } else { x };
            let y0 = if y == nt { t } else { y };
            let k0 = if x == nt { k + m - 1 } else { k };
            let j0 = if y == nt { j + m - 1 } else { j };
            if x == t {
                assert(e[k] == ea[k] && e[k + 1] == ea[k + 1]);
            } else if x == nt {
                if k == 0 {
                    assert(e[m - 1] == eb[0]);
                } else {
                    assert(e[k + m - 1] == eb[k]);
                }
                assert(e[k + m] == eb[k + 1]);
            }
            if y == t {
                assert(e[j] == ea[j] && e[j + 1] == ea[j + 1]);
            } else if y == nt {
                if j == 0 {
                    assert(e[m - 1] == eb[0]);
                } else {
                    assert(e[j + m - 1] == eb[j]);
                }
                assert(e[j + m] == eb[j + 1]);
            }
            assert(step_pair(expand(o.line(x0)), k0, a, b));
            assert(step_pair(expand(o.line(y0)), j0, a, b));
            assert(x0 == y0);
            if x != y {
                lemma_step_pair_unique(e, k0, j0, a, b);
            }
        }
    }
}

/// A unit step between two location points lies only on a track of one
/// step between those two locations.
pub proof fn lemma_step_between_locations(c: SchematicCanvas, u: Id, k: int, q1: Pt, q2: Pt, l1: Id, l2: Id)
    requires
        c.wf(),
        c.track_ids().contains(u),
        step_pair(expand(c.line(u)), k, q1, q2),
        c.loc_at(q1) == Some(l1),
        c.loc_at(q2) == Some(l2),
    ensures
        total_length(c.line(u)) == 1,
        (c.end_a(u) == l1 && c.end_b(u) == l2) || (c.end_a(u) == l2 && c.end_b(u) == l1),
{
    assert(c.track_ok(u));
    let line = c.line(u);
    let e = expand(line);
    lemma_expand_len2(line);
    lemma_expand_len(line);
    lemma_total_length_expand(line);
    assert forall|x: int| 0 < x < e.len() - 1 implies c.loc_at(e[x]) is None by {
        assert(inner(e)[x - 1] == e[x]);
        assert(interior(line).contains(e[x]));
        assert(c.trk_at(e[x]) == Some(u));
    }
    assert(e.len() == 2) by {
        if e.len() > 2 {
            if k > 0 {
                assert(c.loc_at(e[k]) is None);
            } else {
                assert(c.loc_at(e[k + 1]) is None);
            }
        }
    }
    assert(e[0] == line[0] && e[1] == line.last());
}

/// `make_loc` keeps exact lengths and every unit step of every path, and
/// gives an entry to no point but `pt`.
#[verifier::rlimit(100)]
pub proof fn lemma_make_loc_keeps(c0: SchematicCanvas, c1: SchematicCanvas, pt: Pt, r: Result<Id, ()>)
    requires
        c0.wf(),
        make_loc_post(c0, c1, pt, r),
    ensures
        lengths_exact(c0) ==> lengths_exact(c1),
        forall|a: Pt, b: Pt| adjacent_in(c0, a, b) ==> adjacent_in(c1, a, b),
        forall|q: Pt| #[trigger] c1.point_at(q) is Some ==> c0.point_at(q) is Some || q == pt,
        steps_unique(c0) ==> steps_unique(c1),
{
    match c0.point_at(pt) {
        Some(PointInfo::Location(l)) => {},
        None => {
            assert forall|u: Id| #[trigger] c1.track_ids().contains(u) implies c1.line(u) == c0.line(u) && c1.length(u) == c0.length(u) by {
                assert(c1.trks() == c0.trks());
            }
            assert forall|a: Pt, b: Pt| adjacent_in(c0, a, b) implies adjacent_in(c1, a, b) by {
                let (u, k) = choose|u: Id, k: int| c0.track_ids().contains(u) && #[trigger] step_pair(expand(c0.line(u)), k, a, b);
                assert(step_pair(expand(c1.line(u)), k, a, b));
            }
        },
        Some(PointInfo::Track(t)) => {
            let l = r->Ok_0;
            let nt = c1.connections(l)[1];
            let line = c0.line(t);
            let (a, b) = split_spec(line, pt)->Some_0;
            assert(c0.track_ok(t));
            lemma_split_pieces(line, pt);
            if !(exists|i: int| first_hit(line, pt, i)) {
                assert(b.len() == 0);
            }
            lemma_split_expand(line, pt);
            let e = expand(line);
            let ea = expand(a);
            let eb = expand(b);
            lemma_expand_len(a);
            lemma_expand_len(b);
            lemma_total_length_expand(line);
            lemma_total_length_expand(a);
            lemma_total_length_expand(b);
            assert(e.len() == ea.len() + eb.len() - 1);
            assert forall|u: Id| #[trigger] c0.track_ids().contains(u) && u != t implies c1.line(u) == c0.line(u)
                && c1.length(u) == c0.length(u) by {
                assert(c1.trks()[u] == c0.trks()[u]);
            }
            if lengths_exact(c0) {
                let res = c0.resolution() as int;
                let ta = total_length(a);
                let tb = total_length(b);
                let big = c0.length(t) as int;
                assert(big == res * (ta + tb));
                assert(ta >= 0 && tb >= 0);
                lemma_split_exact(res, ta, tb, c0.length(t));
                assert forall|u: Id| #[trigger] c1.track_ids().contains(u) implies c1.length(u) == c1.resolution()
                    * total_length(c1.line(u)) by {
                    if u != t && u != nt {
                        assert(c0.track_ids().contains(u));
                    }
                }
            }
            assert forall|x: Pt, y: Pt| adjacent_in(c0, x, y) implies adjacent_in(c1, x, y) by {
                let (u, k) = choose|u: Id, k: int| c0.track_ids().contains(u) && #[trigger] step_pair(expand(c0.line(u)), k, x, y);
                if u == t {
                    if k + 1 <= ea.len() - 1 {
                        assert(e[k] == ea[k] && e[k + 1] == ea[k + 1]);
                        assert(step_pair(expand(c1.line(t)), k, x, y));
                    } else {
                        let j = k - (ea.len() - 1);
                        assert(e[k] == eb[j]);
                        assert(e[k + 1] == eb[j + 1]);
                        assert(step_pair(expand(c1.line(nt)), j, x, y));
                    }
                } else {
                    assert(step_pair(expand(c1.line(u)), k, x, y));
                }
            }
            assert forall|q: Pt| #[trigger] c1.point_at(q) is Some implies c0.point_at(q) is Some || q == pt by {}
            assert forall|u: Id| #[trigger] c1.track_ids().contains(u) && u != t && u != nt implies c1.line(u) == c0.line(u) by {
                assert(c0.track_ids().contains(u));
            }
            lemma_expand_len2(a);
            lemma_expand_len2(b);
            lemma_split_keeps_unique(c0, c1, t, nt);
        },
    }
}

/// A length that is `res` times `ta + tb`, split in proportion `ta : tb`,
/// gives `res` times each.
proof fn lemma_split_exact(res: int, ta: int, tb: int, total: u64)
    requires
        res >= 0,
        ta >= 0,
        tb >= 0,
        total == res * (ta + tb),
    ensures
        split_length(total, saturated(ta), saturated(tb)) == res * ta,
        total - res * ta == res * tb,
{
    assert(res * (ta + tb) == res * ta + res * tb) by (nonlinear_arith);
    assert(res * ta >= 0 && res * tb >= 0) by (nonlinear_arith)
        requires res >= 0, ta >= 0, tb >= 0,;
    if ta + tb == 0 {
        assert(ta == 0 && tb == 0);
        assert(res * ta == 0) by (nonlinear_arith) requires ta == 0,;
    } else if res == 0 {
        assert(res * ta == 0) by (nonlinear_arith) requires res == 0,;
        assert(total == 0);
        if saturated(ta) + saturated(tb) != 0 {
            assert((0 * (saturated(ta) as int)) / (saturated(ta) + saturated(tb)) == 0) by (nonlinear_arith)
                requires saturated(ta) + saturated(tb) > 0,;
        }
    } else {
        assert(ta + tb <= total) by (nonlinear_arith)
            requires res >= 1, ta + tb >= 0, total == res * (ta + tb),;
        assert(saturated(ta) == ta && saturated(tb) == tb);
        assert((total * ta) / (ta + tb) == res * ta) by (nonlinear_arith)
            requires total == res * (ta + tb), ta + tb > 0, ta >= 0, res >= 0,;
    }
}

/// The railway schematic being edited.
#[derive(Debug)]
pub struct SchematicCanvas {
    railway: Railway,
    points: HashMap<u64, PointInfo>,
    default_grid_resolution: u64,
}

impl SchematicCanvas {
    pub closed spec fn locs(&self) -> Map<Id, Location> {
        location_entries(self.railway.locations)
    }

    /// The length given to each unit track that drawing creates.
    pub closed spec fn resolution(&self) -> u64 {
        self.default_grid_resolution
    }

    pub closed spec fn trks(&self) -> Map<Id, Track> {
        track_entries(self.railway.tracks)
    }

    /// The live locations.
    pub closed spec fn location_ids(&self) -> Set<Id> {
        self.locs().dom()
    }

    /// The live tracks.
    pub closed spec fn track_ids(&self) -> Set<Id> {
        self.trks().dom()
    }

    /// The tracks that meet at location `l`.
    pub closed spec fn connections(&self, l: Id) -> Seq<Id> {
        self.locs()[l].connections@
    }

    pub closed spec fn end_a(&self, t: Id) -> Id {
        self.trks()[t].end_a
    }

    pub closed spec fn end_b(&self, t: Id) -> Id {
        self.trks()[t].end_b
    }

    /// The physical length of track `t`.
    pub closed spec fn length(&self, t: Id) -> u64 {
        self.trks()[t].length
    }

    /// The path of track `t`, from `end_a` to `end_b`.
    pub closed spec fn line(&self, t: Id) -> Seq<Pt> {
        self.trks()[t].line@
    }

    /// What the point index holds for `p`.
    pub closed spec fn point_at(&self, p: Pt) -> Option<PointInfo> {
        if self.points@.contains_key(pt_key(p)) {
            Some(self.points@[pt_key(p)])
        } else {
            None
        }
    }

    /// The location that the point index puts at `p`, if any.
    pub open spec fn loc_at(&self, p: Pt) -> Option<Id> {
        match self.point_at(p) {
            Some(PointInfo::Location(l)) => Some(l),
            _ => None,
        }
    }

    pub open spec fn track_ok(&self, t: Id) -> bool {
        let a = self.end_a(t);
        let b = self.end_b(t);
        let line = self.line(t);
        &&& self.location_ids().contains(a)
        &&& self.location_ids().contains(b)
        &&& a != b
        &&& self.connections(a).contains(t)
        &&& self.connections(b).contains(t)
        &&& line.len() >= 2
        &&& all_ortholinear(line)
        &&& self.loc_at(line[0]) == Some(a)
        &&& self.loc_at(line.last()) == Some(b)
        &&& expand(line).no_duplicates()
    }

    pub open spec fn location_ok(&self, l: Id) -> bool {
        let c = self.connections(l);
        &&& exists|p: Pt| #[trigger] self.loc_at(p) == Some(l)
        &&& c.no_duplicates()
        &&& forall|i: int|
            0 <= i < c.len() ==> self.track_ids().contains(#[trigger] c[i]) && (self.end_a(c[i]) == l
                || self.end_b(c[i]) == l)
    }

    /// The track that the point index puts at `p`, if any.
    pub open spec fn trk_at(&self, p: Pt) -> Option<Id> {
        match self.point_at(p) {
            Some(PointInfo::Track(t)) => Some(t),
            _ => None,
        }
    }

    /// The graph, the paths and the point index agree: each track's ends
    /// are distinct live locations that list it, each location is indexed
    /// at some point and lists only live tracks that end there, each path runs over ortholinear segments
    /// from the point of `end_a` to the point of `end_b` and passes no unit
    /// point twice, each location named by the index is live and stands at
    /// one point only, and the index gives a track exactly the unit points
    /// strictly inside its path.
    pub open spec fn wf(&self) -> bool {
        &&& forall|t: Id| #[trigger] self.track_ids().contains(t) ==> self.track_ok(t)
        &&& forall|l: Id| #[trigger] self.location_ids().contains(l) ==> self.location_ok(l)
        &&& forall|p: Pt| #[trigger]
            self.loc_at(p) is Some ==> self.location_ids().contains(self.loc_at(p)->Some_0)
        &&& forall|p: Pt, q: Pt|
            #[trigger] self.loc_at(p) is Some && self.loc_at(p) == #[trigger] self.loc_at(q) ==> p == q
        &&& forall|p: Pt| #[trigger]
            self.trk_at(p) is Some ==> self.track_ids().contains(self.trk_at(p)->Some_0) && interior(
                self.line(self.trk_at(p)->Some_0),
            ).contains(p)
        &&& forall|t: Id, p: Pt|
            self.track_ids().contains(t) && #[trigger] interior(self.line(t)).contains(p) ==> self.trk_at(p) == Some(t)
    }

    /// The end of track `t` that is not `l`.
    pub open spec fn far_end(&self, t: Id, l: Id) -> Id {
        if self.end_a(t) == l { self.end_b(t) } else { self.end_a(t) }
    }

    /// Track `t` is live and splits at `pt` into two parts of two points
    /// or more.
    pub open spec fn can_split(&self, t: Id, pt: Pt) -> bool {
        &&& self.track_ids().contains(t)
        &&& split_spec(self.line(t), pt) matches Some((a, b)) && a.len() >= 2 && b.len() >= 2
    }

    /// An empty schematic.
    pub fn new() -> (r: SchematicCanvas)
        ensures
            r.wf(),
            r.resolution() == DEFAULT_GRID_RESOLUTION,
            steps_unique(r),
            r.location_ids().is_empty(),
            r.track_ids().is_empty(),
            forall|p: Pt| r.point_at(p) is None,
    {
        let r = SchematicCanvas {
            railway: Railway { locations: new_location_arena(), tracks: new_track_arena() },
            points: HashMap::new(),
            default_grid_resolution: DEFAULT_GRID_RESOLUTION,
        };
        proof {
            assert(r.location_ids() =~= Set::<Id>::empty());
            assert(r.track_ids() =~= Set::<Id>::empty());
        }
        r
    }

    /// Sets the point index at `p` and leaves every other point as it was.
    fn set_point(&mut self, p: Pt, v: PointInfo)
        ensures
            final(self).railway == old(self).railway,
            final(self).default_grid_resolution == old(self).default_grid_resolution,
            forall|q: Pt|
                #[trigger] final(self).point_at(q) == if q == p { Some(v) } else { old(self).point_at(q) },
    {
        self.points.insert(key_of(p), v);
        proof {
            assert forall|q: Pt| #[trigger] self.point_at(q) == if q == p { Some(v) } else { old(self).point_at(q) } by {
                lemma_pt_key_injective(p, q);
            }
        }
    }

    /// What the point index holds for `p`.
    pub fn point_info(&self, p: Pt) -> (r: Option<PointInfo>)
        ensures
            r == self.point_at(p),
    {
        match self.points.get(&key_of(p)) {
            Some(v) => Some(*v),
            None => None,
        }
    }

    /// Replaces track `from` by track `to` in the connections of location `l`.
    fn swap_connection(&mut self, l: Id, from: Id, to: Id)
        requires
            old(self).location_ids().contains(l),
        ensures
            final(self).location_ids() == old(self).location_ids(),
            final(self).connections(l) == swapped(old(self).connections(l), from, to),
            forall|m: Id| m != l ==> #[trigger] final(self).locs()[m] == old(self).locs()[m],
            final(self).railway.tracks == old(self).railway.tracks,
            final(self).points == old(self).points,
            final(self).default_grid_resolution == old(self).default_grid_resolution,
    {
        let mut here = replace_location(&mut self.railway.locations, l, Location::empty());
        let ghost before = here.connections@;
        let mut i: usize = 0;
        while i < here.connections.len()
            invariant
                i <= here.connections@.len() == before.len(),
                forall|j: int| 0 <= j < i ==> #[trigger] here.connections@[j] == (if before[j] == from { to } else { before[j] }),
                forall|j: int| i <= j < before.len() ==> #[trigger] here.connections@[j] == before[j],
            decreases before.len() - i,
        {
            if here.connections[i] == from {
                here.connections.set(i, to);
            }
            i = i + 1;
        }
        proof {
            assert(here.connections@ =~= swapped(before, from, to));
        }
        let _ = replace_location(&mut self.railway.locations, l, here);
        proof {
            assert(self.location_ids() =~= old(self).location_ids());
        }
    }

    /// Turns track `t` around: its ends swap and its path is reversed.
    pub fn reverse_track(&mut self, t: Id)
        requires
            old(self).wf(),
        ensures
            final(self).wf(),
            old(self).track_ids().contains(t) ==> {
                &&& final(self).end_a(t) == old(self).end_b(t)
                &&& final(self).end_b(t) == old(self).end_a(t)
                &&& final(self).line(t) == old(self).line(t).reverse()
                &&& final(self).length(t) == old(self).length(t)
                &&& final(self).track_ids() == old(self).track_ids()
                &&& forall|u: Id| u != t ==> #[trigger] final(self).trks()[u] == old(self).trks()[u]
                &&& final(self).locs() == old(self).locs()
                &&& forall|q: Pt| #[trigger] final(self).point_at(q) == old(self).point_at(q)
            },
            !old(self).track_ids().contains(t) ==> *final(self) == *old(self),
            final(self).resolution() == old(self).resolution(),
    {
        if !has_track(&self.railway.tracks, t) {
            return;
        }
        let placeholder = Track { end_a: t, end_b: t, length: 0, line: Polyline::new() };
        let mut tr = replace_track(&mut self.railway.tracks, t, placeholder);
        let a = tr.end_a;
        tr.end_a = tr.end_b;
        tr.end_b = a;
        tr.line.reverse();
        let _ = replace_track(&mut self.railway.tracks, t, tr);
        proof {
            let o = *old(self);
            assert(self.track_ids() =~= o.track_ids());
            lemma_reverse_path(o.line(t));
            assert(o.track_ok(t));
            lemma_expand_reverse(o.line(t));
            lemma_expand_len2(o.line(t));
            lemma_reverse_inner(expand(o.line(t)));
            assert(forall|p: Pt| #[trigger] interior(self.line(t)).contains(p) <==> interior(o.line(t)).contains(p));
            assert forall|u: Id| #[trigger] self.track_ids().contains(u) implies self.track_ok(u) by {
                assert(o.track_ok(u));
            }
            assert forall|p: Pt| #[trigger] self.trk_at(p) is Some implies self.track_ids().contains(self.trk_at(p)->Some_0)
                && interior(self.line(self.trk_at(p)->Some_0)).contains(p) by {
                assert(self.trk_at(p) == o.trk_at(p));
            }
            assert forall|u: Id, p: Pt| self.track_ids().contains(u) && #[trigger] interior(self.line(u)).contains(p)
                implies self.trk_at(p) == Some(u) by {
                assert(self.trk_at(p) == o.trk_at(p));
                if u != t {
                    assert(self.line(u) == o.line(u));
                }
            }
            assert forall|l: Id| #[trigger] self.location_ids().contains(l) implies self.location_ok(l) by {
                assert(o.location_ok(l));
                let w = choose|p: Pt| o.loc_at(p) == Some(l);
                assert(self.loc_at(w) == Some(l));
                assert(o.location_ok(l));
                let c = self.connections(l);
                assert forall|i: int| 0 <= i < c.len() implies self.track_ids().contains(#[trigger] c[i])
                    && (self.end_a(c[i]) == l || self.end_b(c[i]) == l) by {
                    assert(o.track_ids().contains(c[i]));
                }
            }
            assert forall|p: Pt| #[trigger] self.loc_at(p) == o.loc_at(p) by {}
        }
    }

    /// Gives back the location at `pt`, making one there when there is none.
    /// A point inside a track splits the track there.
    pub fn make_loc(&mut self, pt: Pt) -> (r: Result<Id, ()>)
        requires
            old(self).wf(),
        ensures
            make_loc_post(*old(self), *final(self), pt, r),
    {
        let entry = self.point_info(pt);
        match entry {
            Some(PointInfo::Location(l)) => {
                proof {
                    assert(self.loc_at(pt) is Some);
                }
                Ok(l)
            },
            Some(PointInfo::Track(t)) => self.split_track(t, pt),
            None => {
                let loc = insert_location(&mut self.railway.locations, Location::empty());
                self.set_point(pt, PointInfo::Location(loc));
                proof {
                    let o = *old(self);
                    assert(self.location_ids() =~= o.location_ids().insert(loc));
                    assert forall|u: Id| #[trigger] self.track_ids().contains(u) implies self.track_ok(u) by {
                        assert(o.track_ids().contains(u));
                        assert(o.track_ok(u));
                    }
                    assert forall|l: Id| #[trigger] self.location_ids().contains(l) implies self.location_ok(l) by {
                        if l == loc {
                            assert(self.loc_at(pt) == Some(loc));
                        } else {
                            assert(o.location_ids().contains(l));
                            assert(o.location_ok(l));
                            let w = choose|p: Pt| o.loc_at(p) == Some(l);
                            assert(w != pt);
                            assert(self.loc_at(w) == Some(l));
                        }
                        if l != loc {
                            assert(o.location_ids().contains(l));
                            assert(o.location_ok(l));
                        }
                    }
                    assert forall|p: Pt| #[trigger] self.loc_at(p) is Some implies self.location_ids().contains(
                        self.loc_at(p)->Some_0,
                    ) by {
                        if p != pt {
                            assert(o.loc_at(p) == self.loc_at(p));
                        }
                    }
                    assert forall|p: Pt| #[trigger] self.trk_at(p) is Some implies self.track_ids().contains(self.trk_at(p)->Some_0)
                        && interior(self.line(self.trk_at(p)->Some_0)).contains(p) by {
                        assert(self.trk_at(p) == o.trk_at(p));
                    }
                    assert forall|u: Id, p: Pt| self.track_ids().contains(u) && #[trigger] interior(self.line(u)).contains(p)
                        implies self.trk_at(p) == Some(u) by {
                        assert(o.track_ids().contains(u));
                        assert(o.trk_at(p) == Some(u));
                        assert(p != pt);
                    }
                    assert forall|p: Pt, q: Pt| #[trigger] self.loc_at(p) is Some && self.loc_at(p) == #[trigger] self.loc_at(q) implies p == q by {
                        if p != pt && q != pt {
                            assert(o.loc_at(p) == self.loc_at(p));
                            assert(o.loc_at(q) == self.loc_at(q));
                        } else if p != pt {
                            assert(o.loc_at(p) == self.loc_at(p));
                        } else if q != pt {
                            assert(o.loc_at(q) == self.loc_at(q));
                        }
                    }
                }
                Ok(loc)
            },
        }
    }

    fn split_track(&mut self, t: Id, pt: Pt) -> (r: Result<Id, ()>)
        requires
            old(self).wf(),
            old(self).point_at(pt) == Some(PointInfo::Track(t)),
        ensures
            make_loc_post(*old(self), *final(self), pt, r),
    {
        proof {
            lemma_wf_can_split(*old(self), t, pt);
        }
        let tr = track_at(&self.railway.tracks, t);
        let (pl1, pl2) = match tr.line.split_at(pt) {
            Ok(halves) => halves,
            Err(_) => {
                return Err(());
            },
        };
        let loc = self.install_split(t, pt, pl1, pl2);
        Ok(loc)
    }

    /// Splits track `t` at `pt` into the parts `pl1` and `pl2` by a new
    /// location, which is handed back.
    #[verifier::rlimit(100)]
    fn install_split(&mut self, t: Id, pt: Pt, pl1: Polyline, pl2: Polyline) -> (loc: Id)
        requires
            old(self).wf(),
            old(self).point_at(pt) == Some(PointInfo::Track(t)),
            old(self).can_split(t, pt),
            split_spec(old(self).line(t), pt) == Some((pl1@, pl2@)),
        ensures
            final(self).wf(),
            final(self).location_ids().contains(loc),
            final(self).point_at(pt) == Some(PointInfo::Location(loc)),
            split_done(*old(self), *final(self), t, pt, loc),
            final(self).resolution() == old(self).resolution(),
    {
        let tr = track_at(&self.railway.tracks, t);
        let ghost o = *old(self);
        let ghost a = pl1@;
        let ghost b = pl2@;
        proof {
            assert(o.track_ids().contains(t));
            assert(o.track_ok(t));
            lemma_split_pieces(o.line(t), pt);
        }
        let end_a = tr.end_a;
        let far = tr.end_b;
        let old_len = tr.length;
        let l1 = pl1.lengthmax();
        let l2 = pl2.lengthmax();
        let len1 = split_length_of(old_len, l1, l2);
        let moved = pl2.grid_step_internal();
        let loc = insert_location(&mut self.railway.locations, Location::empty());
        let nt = insert_track(
            &mut self.railway.tracks,
            Track { end_a: loc, end_b: far, length: old_len - len1, line: pl2 },
        );
        let _ = replace_track(
            &mut self.railway.tracks,
            t,
            Track { end_a: end_a, end_b: loc, length: len1, line: pl1 },
        );
        let mut conns: Vec<Id> = Vec::new();
        conns.push(t);
        conns.push(nt);
        let _ = replace_location(&mut self.railway.locations, loc, Location { node: None, connections: conns });
        self.swap_connection(far, t, nt);
        self.retarget_points(&moved, t, nt);
        self.set_point(pt, PointInfo::Location(loc));
        proof {
            assert(o.track_ok(t));
            assert(self.location_ids() =~= o.location_ids().insert(loc));
            assert(self.track_ids() =~= o.track_ids().insert(nt));
            assert(self.connections(loc) =~= seq![t, nt]);
            assert(self.connections(far) =~= swapped(o.connections(far), t, nt));
            assert forall|m: Id| #[trigger] o.location_ids().contains(m) && m != far implies self.connections(m) == o.connections(m) by {}
            assert forall|u: Id| #[trigger] o.track_ids().contains(u) && u != t implies self.trks()[u] == o.trks()[u] by {}
            if !(exists|i: int| first_hit(o.line(t), pt, i)) {
                assert(b.len() == 0);
            }
            lemma_split_expand(o.line(t), pt);
            assert(moved@ == moved_points(b));
            lemma_split_keeps_wf(o, *self, t, nt, loc, pt, a, b);
        }
        loc
    }

    /// Merges away location `loc`, where exactly two tracks meet: both are
    /// turned so that the first ends and the second starts at `loc`, the
    /// first takes over the second's far end, length and path, and the
    /// second track and `loc` are removed. Fails, after the turning, when
    /// the merged track would start and end at the same location.
    #[verifier::rlimit(100)]
    fn join_at(&mut self, loc: Id) -> (r: Result<(), ()>)
        requires
            old(self).wf(),
            old(self).location_ids().contains(loc),
            old(self).connections(loc).len() == 2,
        ensures
            final(self).wf(),
            final(self).location_ids() == if r is Ok {
                old(self).location_ids().remove(loc)
            } else {
                old(self).location_ids()
            },
            forall|m: Id| #[trigger] final(self).location_ids().contains(m) ==> final(self).connections(m).len()
                == old(self).connections(m).len(),
            forall|q: Pt| #[trigger] old(self).point_at(q) is Some ==> final(self).point_at(q) is Some,
            r is Err <==> old(self).far_end(old(self).connections(loc)[0], loc) == old(self).far_end(
                old(self).connections(loc)[1],
                loc,
            ),
            r is Ok ==> {
                let t1 = old(self).connections(loc)[0];
                let t2 = old(self).connections(loc)[1];
                &&& final(self).track_ids() == old(self).track_ids().remove(t2)
                &&& final(self).length(t1) == merged_length(old(self).length(t1), old(self).length(t2))
            },
            r is Err ==> stuck(*final(self)),
            r is Err ==> stuck_at(*final(self), loc),
            r is Err ==> forall|q: Pt| #[trigger] final(self).point_at(q) == old(self).point_at(q),
            forall|q: Pt| #[trigger] final(self).loc_at(q) is Some ==> old(self).loc_at(q) == final(self).loc_at(q),
            forall|q: Pt| #[trigger] old(self).loc_at(q) is Some && old(self).loc_at(q) != Some(loc) ==> final(self).loc_at(q)
                == old(self).loc_at(q),
            final(self).resolution() == old(self).resolution(),
            forall|q: Pt| #[trigger] final(self).point_at(q) is Some ==> old(self).point_at(q) is Some,
            lengths_match(*old(self)) ==> lengths_match(*final(self)),
            forall|a: Pt, b: Pt| adjacent_in(*old(self), a, b) ==> adjacent_in(*final(self), a, b),
            steps_unique(*old(self)) ==> steps_unique(*final(self)),
    {
        let (t1, t2) = self.orient_at(loc);
        let ghost m = *self;
        proof {
            assert forall|x: Id| #[trigger] m.location_ids().contains(x) implies m.connections(x) == old(self).connections(x) by {}
            assert(m.track_ok(t1));
            assert(m.end_a(t1) != loc);
            assert(m.far_end(t1, loc) == m.end_a(t1));
            assert(m.far_end(t2, loc) == m.end_b(t2));
            assert(m.connections(loc)[0] == t1 && m.connections(loc)[1] == t2);
        }
        let r = self.merge_oriented(loc, t1, t2);
        proof {
            assert forall|q: Pt| #[trigger] old(self).point_at(q) is Some implies self.point_at(q) is Some by {
                assert(m.point_at(q) == old(self).point_at(q));
            }
            assert forall|q: Pt| #[trigger] self.point_at(q) is Some implies old(self).point_at(q) is Some by {
                assert(m.point_at(q) == old(self).point_at(q));
            }
            if r is Err {
                assert(self.connections(loc).len() == 2);
                assert(stuck_at(*self, loc));
            }
            assert forall|q: Pt| #[trigger] self.loc_at(q) is Some implies old(self).loc_at(q) == self.loc_at(q) by {
                assert(m.point_at(q) == old(self).point_at(q));
            }
            assert forall|q: Pt| #[trigger] old(self).loc_at(q) is Some && old(self).loc_at(q) != Some(loc) implies self.loc_at(q)
                == old(self).loc_at(q) by {
                assert(m.point_at(q) == old(self).point_at(q));
            }
        }
        r
    }


    /// Turns track `t` around where `flip` holds, keeping every invariant
    /// of drawing.
    fn turn(&mut self, t: Id, flip: bool)
        requires
            old(self).wf(),
            old(self).track_ids().contains(t),
        ensures
            final(self).wf(),
            final(self).locs() == old(self).locs(),
            final(self).track_ids() == old(self).track_ids(),
            forall|q: Pt| #[trigger] final(self).point_at(q) == old(self).point_at(q),
            final(self).resolution() == old(self).resolution(),
            final(self).end_a(t) == if flip { old(self).end_b(t) } else { old(self).end_a(t) },
            final(self).end_b(t) == if flip { old(self).end_a(t) } else { old(self).end_b(t) },
            forall|u: Id| u != t ==> #[trigger] final(self).end_a(u) == old(self).end_a(u) && final(self).end_b(u)
                == old(self).end_b(u),
            forall|u: Id| #[trigger] final(self).length(u) == old(self).length(u),
            lengths_match(*old(self)) ==> lengths_match(*final(self)),
            lengths_exact(*old(self)) ==> lengths_exact(*final(self)),
            forall|a: Pt, b: Pt| adjacent_in(*old(self), a, b) ==> adjacent_in(*final(self), a, b),
            steps_unique(*old(self)) ==> steps_unique(*final(self)),
    {
        if !flip {
            return;
        }
        let ghost o = *self;
        self.reverse_track(t);
        proof {
            lemma_reverse_keeps(o, *self, t);
            assert forall|u: Id| u != t implies #[trigger] self.end_a(u) == o.end_a(u) && self.end_b(u) == o.end_b(u) by {
                assert(self.trks()[u] == o.trks()[u]);
            }
            assert forall|u: Id| #[trigger] self.length(u) == o.length(u) by {
                if u != t {
                    assert(self.trks()[u] == o.trks()[u]);
                }
            }
        }
    }

    /// Turns the two tracks at `loc` so that the first ends and the second
    /// starts there, and hands them back.
    #[verifier::rlimit(100)]
    fn orient_at(&mut self, loc: Id) -> (r: (Id, Id))
        requires
            old(self).wf(),
            old(self).location_ids().contains(loc),
            old(self).connections(loc).len() == 2,
        ensures
            final(self).wf(),
            final(self).locs() == old(self).locs(),
            final(self).track_ids() == old(self).track_ids(),
            forall|q: Pt| #[trigger] final(self).point_at(q) == old(self).point_at(q),
            final(self).resolution() == old(self).resolution(),
            r.0 == old(self).connections(loc)[0],
            r.1 == old(self).connections(loc)[1],
            final(self).connections(loc) == seq![r.0, r.1],
            final(self).end_b(r.0) == loc,
            final(self).end_a(r.1) == loc,
            old(self).far_end(r.0, loc) == final(self).end_a(r.0),
            old(self).far_end(r.1, loc) == final(self).end_b(r.1),
            forall|u: Id| #[trigger] final(self).track_ids().contains(u) ==> final(self).length(u) == old(self).length(u),
            lengths_match(*old(self)) ==> lengths_match(*final(self)),
            lengths_exact(*old(self)) ==> lengths_exact(*final(self)),
            forall|a: Pt, b: Pt| adjacent_in(*old(self), a, b) ==> adjacent_in(*final(self), a, b),
            steps_unique(*old(self)) ==> steps_unique(*final(self)),
    {
        let here = location_at(&self.railway.locations, loc);
        let t1 = here.connections[0];
        let t2 = here.connections[1];
        proof {
            let o = *old(self);
            assert(o.location_ok(loc));
            assert(o.connections(loc)[0] == t1 && o.connections(loc)[1] == t2);
            assert(o.connections(loc)[0] != o.connections(loc)[1]);
            assert(o.track_ok(t1));
            assert(o.track_ok(t2));
        }
        let flip1 = track_at(&self.railway.tracks, t1).end_a == loc;
        self.turn(t1, flip1);
        let ghost m1 = *self;
        let flip2 = track_at(&self.railway.tracks, t2).end_b == loc;
        self.turn(t2, flip2);
        proof {
            let m = *self;
            let o = *old(self);
            assert forall|q: Pt| #[trigger] m.point_at(q) == o.point_at(q) by {
                assert(m1.point_at(q) == o.point_at(q));
            }
            assert forall|u: Id| #[trigger] m.track_ids().contains(u) implies m.length(u) == o.length(u) by {
                assert(m1.length(u) == o.length(u));
            }
            assert(o.far_end(t1, loc) == m.end_a(t1));
            assert(o.far_end(t2, loc) == m.end_b(t2));
            assert(m.connections(loc) =~= seq![t1, t2]);
        }
        (t1, t2)
    }

    /// The merge at `loc` once its first track ends and its second track
    /// starts there.
    #[verifier::rlimit(100)]
    fn merge_oriented(&mut self, loc: Id, t1: Id, t2: Id) -> (r: Result<(), ()>)
        requires
            old(self).wf(),
            old(self).location_ids().contains(loc),
            old(self).connections(loc) == seq![t1, t2],
            old(self).end_b(t1) == loc,
            old(self).end_a(t2) == loc,
        ensures
            final(self).wf(),
            final(self).location_ids() == if r is Ok {
                old(self).location_ids().remove(loc)
            } else {
                old(self).location_ids()
            },
            forall|m: Id| #[trigger] final(self).location_ids().contains(m) ==> final(self).connections(m).len()
                == old(self).connections(m).len(),
            forall|q: Pt| #[trigger] old(self).point_at(q) is Some ==> final(self).point_at(q) is Some,
            r is Ok ==> {
                &&& final(self).track_ids() == old(self).track_ids().remove(t2)
                &&& final(self).length(t1) == merged_length(old(self).length(t1), old(self).length(t2))
            },
            r is Err <==> old(self).end_a(t1) == old(self).end_b(t2),
            r is Err ==> *final(self) == *old(self),
            final(self).resolution() == old(self).resolution(),
            forall|q: Pt| #[trigger] final(self).point_at(q) is Some ==> old(self).point_at(q) is Some,
            lengths_match(*old(self)) ==> lengths_match(*final(self)),
            forall|a: Pt, b: Pt| adjacent_in(*old(self), a, b) ==> adjacent_in(*final(self), a, b),
            steps_unique(*old(self)) ==> steps_unique(*final(self)),
            forall|q: Pt| #[trigger] final(self).loc_at(q) is Some ==> old(self).loc_at(q) == final(self).loc_at(q),
            forall|q: Pt| #[trigger] old(self).loc_at(q) is Some && old(self).loc_at(q) != Some(loc) ==> final(self).loc_at(q)
                == old(self).loc_at(q),
    {
        let ghost m = *self;
        proof {
            assert(m.location_ok(loc));
            assert(m.connections(loc)[0] != m.connections(loc)[1]);
            assert(m.track_ok(t1));
            assert(m.track_ok(t2));
        }
        let a_end = track_at(&self.railway.tracks, t1).end_a;
        let b_end = track_at(&self.railway.tracks, t2).end_b;
        if a_end == b_end {
            return Err(());
        }
        let tr2 = match remove_track(&mut self.railway.tracks, t2) {
            Some(tr) => tr,
            None => {
                return Err(());
            },
        };
        let placeholder = Track { end_a: t1, end_b: t1, length: 0, line: Polyline::new() };
        let mut tr1 = replace_track(&mut self.railway.tracks, t1, placeholder);
        let moved = tr2.line.grid_step_internal();
        let pts1 = tr1.line.points();
        let shared = pts1[pts1.len() - 1];
        proof {
            assert(tr1.line@ == m.line(t1));
            assert(shared == m.line(t1).last());
        }
        tr1.length = tr1.length.saturating_add(tr2.length);
        tr1.end_b = b_end;
        proof {
            assert(m.loc_at(m.line(t1)[0]) == Some(a_end));
            assert(m.loc_at(m.line(t2).last()) == Some(b_end));
            assert(m.loc_at(m.line(t1).last()) == Some(loc));
            assert(m.line(t2)[0] == m.line(t1).last());
            assert(m.line(t1)[0] != m.line(t2)[0]);
            assert(m.line(t1)[0] != m.line(t2).last());
            assert(m.line(t2).last() != m.line(t1).last());
            assert(joined(m.line(t1), m.line(t2)) == m.line(t1).drop_last() + m.line(t2));
        }
        let _ = tr1.line.add_polyline(tr2.line);
        let _ = replace_track(&mut self.railway.tracks, t1, tr1);
        self.swap_connection(b_end, t2, t1);
        let ghost m2 = *self;
        self.retarget_points(&moved, t2, t1);
        let ghost m3 = *self;
        self.set_point(shared, PointInfo::Track(t1));
        let ghost m4 = *self;
        let _ = remove_location(&mut self.railway.locations, loc);
        proof {
            let n = *self;
            assert(m4.point_at(shared) == Some(PointInfo::Track(t1)));
            assert(n.points == m4.points);
            assert(forall|q: Pt| #[trigger] n.point_at(q) == m4.point_at(q));
            assert(n.point_at(shared) == Some(PointInfo::Track(t1)));
            assert forall|q: Pt| #[trigger] m.point_at(q) is Some implies n.point_at(q) is Some by {
                assert(m2.point_at(q) == m.point_at(q));
                assert(m3.point_at(q) is Some);
                assert(m4.point_at(q) is Some);
            }
            assert(moved@ == moved_points(m.line(t2)));
            assert forall|q: Pt| q != shared implies #[trigger] n.point_at(q) == if m.point_at(q) == Some(PointInfo::Track(t2))
                && moved_points(m.line(t2)).contains(q) {
                Some(PointInfo::Track(t1))
            } else {
                m.point_at(q)
            } by {
                assert(m2.point_at(q) == m.point_at(q));
                assert(m3.point_at(q) == m4.point_at(q));
            }
            assert(n.location_ids() =~= m.location_ids().remove(loc));
            assert(n.track_ids() =~= m.track_ids().remove(t2));
            assert(n.connections(b_end) =~= swapped(m.connections(b_end), t2, t1));
            assert forall|x: Id| #[trigger] m.location_ids().contains(x) && x != b_end && x != loc implies n.connections(x) == m.connections(x) by {}
            assert forall|u: Id| #[trigger] m.track_ids().contains(u) && u != t1 && u != t2 implies n.trks()[u] == m.trks()[u] by {}
            lemma_join_keeps_wf(m, n, loc, t1, t2);
            assert forall|q: Pt| #[trigger] n.point_at(q) is Some implies m.point_at(q) is Some by {
                if q != shared {
                    assert(m2.point_at(q) == m.point_at(q));
                } else {
                    assert(m.loc_at(shared) == Some(loc));
                }
            }
            lemma_merge_keeps(m, n, t1, t2);
            assert forall|q: Pt| #[trigger] n.loc_at(q) is Some implies m.loc_at(q) == n.loc_at(q) by {
                if q != shared {
                    assert(m2.point_at(q) == m.point_at(q));
                }
            }
            assert forall|q: Pt| #[trigger] m.loc_at(q) is Some && m.loc_at(q) != Some(loc) implies n.loc_at(q) == m.loc_at(q) by {
                assert(q != shared);
            }
        }
        Ok(())
    }

    /// The number of tracks that meet at location `l`.
    fn degree(&self, l: Id) -> (r: usize)
        requires
            self.location_ids().contains(l),
        ensures
            r == self.connections(l).len(),
    {
        location_at(&self.railway.locations, l).connections.len()
    }

    /// Adds track `t` to the connections of location `l`.
    fn attach(&mut self, l: Id, t: Id)
        requires
            old(self).location_ids().contains(l),
        ensures
            final(self).location_ids() == old(self).location_ids(),
            final(self).connections(l) == old(self).connections(l).push(t),
            forall|m: Id| m != l ==> #[trigger] final(self).locs()[m] == old(self).locs()[m],
            final(self).railway.tracks == old(self).railway.tracks,
            final(self).points == old(self).points,
            final(self).default_grid_resolution == old(self).default_grid_resolution,
    {
        let mut here = replace_location(&mut self.railway.locations, l, Location::empty());
        here.connections.push(t);
        let _ = replace_location(&mut self.railway.locations, l, here);
        proof {
            assert(self.location_ids() =~= old(self).location_ids());
        }
    }

    /// Whether a track of one unit step already joins location `l1`, at
    /// `q1`, to location `l2`, at `q2`.
    fn has_unit_step(&self, l1: Id, l2: Id, q1: Pt, q2: Pt) -> (r: bool)
        requires
            self.wf(),
            self.loc_at(q1) == Some(l1),
            self.loc_at(q2) == Some(l2),
            q1 != q2,
        ensures
            r == adjacent_in(*self, q1, q2),
    {
        proof {
            assert(self.location_ids().contains(l1));
            assert(self.location_ok(l1));
        }
        let conns = &location_at(&self.railway.locations, l1).connections;
        let mut i: usize = 0;
        while i < conns.len()
            invariant
                self.wf(),
                self.location_ids().contains(l1),
                self.location_ok(l1),
                conns@ == self.connections(l1),
                self.loc_at(q1) == Some(l1),
                self.loc_at(q2) == Some(l2),
                q1 != q2,
                i <= conns@.len(),
                forall|i2: int| 0 <= i2 < i ==> !(self.far_end(#[trigger] conns@[i2], l1) == l2
                    && total_length(self.line(conns@[i2])) == 1),
            decreases conns@.len() - i,
        {
            let t = conns[i];
            let tr = track_at(&self.railway.tracks, t);
            let far = if tr.end_a == l1 { tr.end_b } else { tr.end_a };
            if far == l2 && tr.line.lengthmax() == 1 {
                proof {
                    let c = *self;
                    let cs = c.connections(l1);
                    assert(cs[i as int] == t);
                    assert(c.location_ok(l1));
                    assert(0 <= i < cs.len());
                    assert(c.track_ids().contains(cs[i as int]) && (c.end_a(cs[i as int]) == l1 || c.end_b(cs[i as int]) == l1));
                    assert(c.track_ids().contains(t));
                    assert(c.track_ok(t));
                    assert(c.loc_at(q1) is Some);
                    let line = c.line(t);
                    lemma_expand_len2(line);
                    lemma_expand_len(line);
                    lemma_total_length_expand(line);
                    let e = expand(line);
                    assert(e.len() == 2);
                    if c.end_a(t) == l1 {
                        assert(c.loc_at(line[0]) == Some(l1));
                        assert(c.loc_at(line[0]) == c.loc_at(q1));
                        assert(line[0] == q1);
                        assert(line.last() == q2);
                    } else {
                        assert(c.end_b(t) == l1);
                        assert(c.loc_at(line.last()) == Some(l1));
                        assert(c.loc_at(line.last()) == c.loc_at(q1));
                        assert(line.last() == q1);
                        assert(line[0] == q2);
                    }
                    assert(step_pair(e, 0, q1, q2));
                }
                return true;
            }
            i = i + 1;
        }
        proof {
            let c = *self;
            if adjacent_in(c, q1, q2) {
                let (u, k) = choose|u: Id, k: int| c.track_ids().contains(u) && #[trigger] step_pair(expand(c.line(u)), k, q1, q2);
                lemma_step_between_locations(c, u, k, q1, q2, l1, l2);
                assert(c.track_ok(u));
                assert(c.connections(l1).contains(u));
                let w = choose|w: int| 0 <= w < conns@.len() && conns@[w] == u;
                assert(c.far_end(conns@[w], l1) == l2);
            }
        }
        false
    }

    /// Joins the location at `p1` to the location at `p2` by a unit track,
    /// unless a track already makes that unit step.
    fn connect_step(&mut self, loc1: Id, loc2: Id, p1: Pt, p2: Pt)
        requires
            old(self).wf(),
            old(self).loc_at(p1) == Some(loc1),
            old(self).loc_at(p2) == Some(loc2),
            is_ortholinear(p1, p2),
            steps(p1, p2) == seq![p1, p2],
        ensures
            final(self).wf(),
            final(self).location_ids() == old(self).location_ids(),
            final(self).connections(loc1).len() >= 1,
            final(self).connections(loc2).len() >= 1,
            forall|m: Id| m != loc1 && m != loc2 ==> #[trigger] final(self).connections(m) == old(self).connections(m),
            forall|q: Pt| #[trigger] final(self).point_at(q) == old(self).point_at(q),
            final(self).resolution() == old(self).resolution(),
            lengths_exact(*old(self)) ==> lengths_exact(*final(self)),
            forall|a: Pt, b: Pt| adjacent_in(*old(self), a, b) ==> adjacent_in(*final(self), a, b),
            adjacent_in(*final(self), p1, p2),
            steps_unique(*old(self)) ==> steps_unique(*final(self)),
    {
        if self.has_unit_step(loc1, loc2, p1, p2) {
            proof {
                let c = *self;
                let (u, k) = choose|u: Id, k: int| c.track_ids().contains(u) && #[trigger] step_pair(expand(c.line(u)), k, p1, p2);
                lemma_step_between_locations(c, u, k, p1, p2, loc1, loc2);
                assert(c.track_ok(u));
                assert(c.connections(loc1).contains(u));
                assert(c.connections(loc2).contains(u));
            }
        } else {
            self.add_unit_track(loc1, loc2, p1, p2);
        }
    }

    /// Adds a unit track from the location at `p1` to the location at `p2`.
    #[verifier::rlimit(100)]
    fn add_unit_track(&mut self, loc1: Id, loc2: Id, p1: Pt, p2: Pt)
        requires
            old(self).wf(),
            old(self).loc_at(p1) == Some(loc1),
            old(self).loc_at(p2) == Some(loc2),
            is_ortholinear(p1, p2),
            steps(p1, p2) == seq![p1, p2],
            !adjacent_in(*old(self), p1, p2),
        ensures
            final(self).wf(),
            final(self).location_ids() == old(self).location_ids(),
            final(self).connections(loc1).len() == old(self).connections(loc1).len() + 1,
            final(self).connections(loc2).len() == old(self).connections(loc2).len() + 1,
            forall|m: Id| m != loc1 && m != loc2 ==> #[trigger] final(self).connections(m) == old(self).connections(m),
            forall|q: Pt| #[trigger] final(self).point_at(q) == old(self).point_at(q),
            final(self).resolution() == old(self).resolution(),
            lengths_exact(*old(self)) ==> lengths_exact(*final(self)),
            forall|a: Pt, b: Pt| adjacent_in(*old(self), a, b) ==> adjacent_in(*final(self), a, b),
            adjacent_in(*final(self), p1, p2),
            steps_unique(*old(self)) ==> steps_unique(*final(self)),
    {
        let ghost o = *self;
        proof {
            assert(o.loc_at(p1) is Some);
            assert(o.loc_at(p2) is Some);
            assert(loc1 != loc2);
        }
        let line = Polyline::from_line((p1, p2));
        let t = insert_track(
            &mut self.railway.tracks,
            Track { end_a: loc1, end_b: loc2, length: self.default_grid_resolution, line },
        );
        self.attach(loc1, t);
        self.attach(loc2, t);
        proof {
            let n = *self;
            assert(n.track_ids() =~= o.track_ids().insert(t));
            assert(forall|q: Pt| #[trigger] n.loc_at(q) == o.loc_at(q));
            assert(n.connections(loc1) =~= o.connections(loc1).push(t));
            assert(n.connections(loc2) =~= o.connections(loc2).push(t));
            assert(n.connections(loc1)[o.connections(loc1).len() as int] == t);
            assert(n.connections(loc2)[o.connections(loc2).len() as int] == t);
            assert(n.line(t) =~= seq![p1, p2]);
            assert(seq![p1, p2].drop_last() =~= seq![p1]);
            assert(expand(seq![p1]) == seq![p1]);
            assert(steps(p1, p2).drop_first() =~= seq![p2]);
            assert(expand(seq![p1, p2]) == expand(seq![p1]) + steps(p1, p2).drop_first());
            assert(expand(seq![p1, p2]) =~= seq![p1, p2]);
            assert(interior(n.line(t)) =~= Seq::<Pt>::empty());
            assert forall|p: Pt| #[trigger] n.trk_at(p) is Some implies n.track_ids().contains(n.trk_at(p)->Some_0)
                && interior(n.line(n.trk_at(p)->Some_0)).contains(p) by {
                assert(n.trk_at(p) == o.trk_at(p));
                assert(o.track_ids().contains(n.trk_at(p)->Some_0));
            }
            assert forall|u: Id, p: Pt| n.track_ids().contains(u) && #[trigger] interior(n.line(u)).contains(p)
                implies n.trk_at(p) == Some(u) by {
                assert(n.trk_at(p) == o.trk_at(p));
                if u != t {
                    assert(o.track_ids().contains(u));
                }
            }
            assert forall|u: Id| #[trigger] n.track_ids().contains(u) implies n.track_ok(u) by {
                if u != t {
                    assert(o.track_ids().contains(u));
                    assert(o.track_ok(u));
                    if o.end_a(u) == loc1 || o.end_b(u) == loc1 {
                        let c0 = o.connections(loc1);
                        let j = choose|j: int| 0 <= j < c0.len() && c0[j] == u;
                        assert(n.connections(loc1)[j] == u);
                    }
                    if o.end_a(u) == loc2 || o.end_b(u) == loc2 {
                        let c0 = o.connections(loc2);
                        let j = choose|j: int| 0 <= j < c0.len() && c0[j] == u;
                        assert(n.connections(loc2)[j] == u);
                    }
                }
            }
            assert forall|l: Id| #[trigger] n.location_ids().contains(l) implies n.location_ok(l) by {
                let w = choose|p: Pt| o.loc_at(p) == Some(l);
                assert(n.loc_at(w) == Some(l));
                assert(o.location_ok(l));
                let c = n.connections(l);
                let c0 = o.connections(l);
                if l == loc1 || l == loc2 {
                    assert(!c0.contains(t));
                    assert forall|i: int, j: int| 0 <= i < c.len() && 0 <= j < c.len() && i != j implies c[i] != c[j] by {
                        if i < c0.len() && j < c0.len() {
                        } else if i < c0.len() {
                            assert(c[i] == c0[i]);
                        } else if j < c0.len() {
                            assert(c[j] == c0[j]);
                        }
                    }
                    assert forall|i: int| 0 <= i < c.len() implies n.track_ids().contains(#[trigger] c[i])
                        && (n.end_a(c[i]) == l || n.end_b(c[i]) == l) by {
                        if i < c0.len() {
                            assert(c[i] == c0[i]);
                            assert(o.track_ids().contains(c0[i]));
                        }
                    }
                } else {
                    assert forall|i: int| 0 <= i < c.len() implies n.track_ids().contains(#[trigger] c[i])
                        && (n.end_a(c[i]) == l || n.end_b(c[i]) == l) by {
                        assert(o.track_ids().contains(c0[i]));
                    }
                }
            }
            assert forall|p: Pt| #[trigger] n.loc_at(p) is Some implies n.location_ids().contains(
                n.loc_at(p)->Some_0,
            ) by {
                assert(o.loc_at(p) == n.loc_at(p));
            }
            assert forall|p: Pt, q: Pt| #[trigger] n.loc_at(p) is Some && n.loc_at(p) == #[trigger] n.loc_at(q) implies p == q by {
                assert(o.loc_at(p) == n.loc_at(p));
                assert(o.loc_at(q) == n.loc_at(q));
            }
            assert forall|u: Id| #[trigger] o.track_ids().contains(u) implies n.trks()[u] == o.trks()[u] && u != t by {}
            assert(total_length(n.line(t)) == 1) by {
                assert(n.line(t).drop_last() =~= seq![p1]);
                assert(total_length(seq![p1]) == 0);
                assert(n.line(t)[0] == p1 && n.line(t)[1] == p2);
                assert(chebyshev(p1, p2) + 1 == steps(p1, p2).len());
                assert(total_length(n.line(t)) == total_length(seq![p1]) + chebyshev(p1, p2));
            }
            assert(step_pair(expand(n.line(t)), 0, p1, p2));
            if steps_unique(o) {
                assert forall|x: Id, y: Id, k: int, j: int, a: Pt, b: Pt|
                    n.track_ids().contains(x) && n.track_ids().contains(y) && #[trigger] step_pair(expand(n.line(x)), k, a, b)
                        && #[trigger] step_pair(expand(n.line(y)), j, a, b) implies x == y by {
                    if x == t && y != t {
                        assert(k == 0);
                        assert(o.track_ids().contains(y));
                        assert(step_pair(expand(o.line(y)), j, p1, p2));
                    } else if y == t && x != t {
                        assert(j == 0);
                        assert(o.track_ids().contains(x));
                        assert(step_pair(expand(o.line(x)), k, p1, p2));
                    } else if x != t && y != t {
                        assert(o.track_ids().contains(x) && o.track_ids().contains(y));
                        assert(step_pair(expand(o.line(x)), k, a, b));
                        assert(step_pair(expand(o.line(y)), j, a, b));
                    }
                }
            }
            assert forall|a: Pt, b: Pt| adjacent_in(o, a, b) implies adjacent_in(n, a, b) by {
                let (u, k) = choose|u: Id, k: int| o.track_ids().contains(u) && #[trigger] step_pair(expand(o.line(u)), k, a, b);
                assert(step_pair(expand(n.line(u)), k, a, b));
            }
        }
    }

    /// Draws a line from `p1` to `p2`: the route is cut into unit steps,
    /// each step gets a location at both ends and a unit track between
    /// them, and then every location touched that joins exactly two tracks
    /// is merged away. An error stops the edit where it stands: what was
    /// done before it stays done.
    pub fn add_line(&mut self, p1: Pt, p2: Pt) -> (r: Result<(), ()>)
        requires
            old(self).wf(),
            route_fits(p1, p2),
        ensures
            add_line_post(*old(self), *final(self), p1, p2, r),
    {
        let ghost c0 = *self;
        let ghost was_settled = settled(c0);
        let mut touched: Vec<Id> = Vec::new();
        let segs = Self::route_line(p1, p2);
        let mut i: usize = 0;
        while i < segs.len()
            invariant
                self.wf(),
                c0 == *old(self),
                i <= segs@.len(),
                segs@ == route(p1, p2),
                forall|j: int| 0 <= j < segs@.len() ==> is_ortholinear(#[trigger] segs@[j].0, segs@[j].1),
                touched@.no_duplicates(),
                forall|j: int| 0 <= j < touched@.len() ==> self.location_ids().contains(#[trigger] touched@[j]),
                forall|l: Id| #[trigger] self.location_ids().contains(l) ==> (touched@.contains(l)
                    && self.connections(l).len() >= 1) || (c0.location_ids().contains(l)
                    && self.connections(l).len() == c0.connections(l).len()),
                forall|q: Pt| #[trigger] c0.point_at(q) is Some ==> self.point_at(q) is Some,
                forall|i2: int, d: int|
                    0 <= i2 < i && 0 <= d < steps(segs@[i2].0, segs@[i2].1).len()
                        ==> (#[trigger] self.point_at(steps(segs@[i2].0, segs@[i2].1)[d])) is Some,
                self.resolution() == c0.resolution(),
                forall|q: Pt| #[trigger] self.point_at(q) is Some ==> c0.point_at(q) is Some || on_route(p1, p2, q),
                forall|i2: int, k2: int|
                    0 <= i2 < i && 0 <= k2 < steps(segs@[i2].0, segs@[i2].1).len() - 1
                        ==> adjacent_in(*self, #[trigger] route_point(p1, p2, i2, k2), route_point(p1, p2, i2, k2 + 1)),
                lengths_exact(c0) ==> lengths_exact(*self),
                steps_unique(c0) ==> steps_unique(*self),
                i == 0 ==> *self == c0 && touched@.len() == 0,
            decreases segs@.len() - i,
        {
            let (a, b) = segs[i];
            let pts = Self::step_line(a, b);
            let ghost before = *self;
            let mut k: usize = 0;
            while k + 1 < pts.len()
                invariant
                    self.wf(),
                    c0 == *old(self),
                    pts@ == steps(a, b),
                    is_ortholinear(a, b),
                    k < pts@.len(),
                    touched@.no_duplicates(),
                    forall|j: int| 0 <= j < touched@.len() ==> self.location_ids().contains(#[trigger] touched@[j]),
                    forall|l: Id| #[trigger] self.location_ids().contains(l) ==> (touched@.contains(l)
                        && self.connections(l).len() >= 1) || (c0.location_ids().contains(l)
                        && self.connections(l).len() == c0.connections(l).len()),
                    forall|q: Pt| #[trigger] before.point_at(q) is Some ==> self.point_at(q) is Some,
                    forall|q: Pt| #[trigger] c0.point_at(q) is Some ==> before.point_at(q) is Some,
                    forall|i2: int, d: int|
                        0 <= i2 < i && 0 <= d < steps(segs@[i2].0, segs@[i2].1).len()
                            ==> (#[trigger] before.point_at(steps(segs@[i2].0, segs@[i2].1)[d])) is Some,
                    i < segs@.len(),
                    segs@ == route(p1, p2),
                    a == segs@[i as int].0,
                    b == segs@[i as int].1,
                    forall|d: int| 0 <= d < k ==> (#[trigger] self.point_at(pts@[d])) is Some,
                    k > 0 ==> self.point_at(pts@[k as int]) is Some,
                    self.resolution() == c0.resolution(),
                    forall|q: Pt| #[trigger] self.point_at(q) is Some ==> c0.point_at(q) is Some || on_route(p1, p2, q),
                    forall|i2: int, k2: int|
                        0 <= i2 < i && 0 <= k2 < steps(segs@[i2].0, segs@[i2].1).len() - 1
                            ==> adjacent_in(*self, #[trigger] route_point(p1, p2, i2, k2), route_point(p1, p2, i2, k2 + 1)),
                    forall|k2: int|
                        0 <= k2 < k ==> adjacent_in(*self, #[trigger] route_point(p1, p2, i as int, k2), route_point(p1, p2, i as int, k2 + 1)),
                    lengths_exact(c0) ==> lengths_exact(*self),
                    steps_unique(c0) ==> steps_unique(*self),
                decreases pts@.len() - k,
            {
                let q1 = pts[k];
                let q2 = pts[k + 1];
                let ghost s0 = *self;
                let loc1 = match self.make_loc(q1) {
                    Ok(l) => l,
                    Err(_) => {
                        proof {
                            assert(*self == s0);
                            assert forall|q: Pt| #[trigger] c0.point_at(q) is Some implies self.point_at(q) is Some by {
                                assert(before.point_at(q) is Some);
                            }
                        }
                        return Err(());
                    },
                };
                let ghost s1 = *self;
                proof {
                    lemma_make_loc_frame(s0, s1, q1, Ok(loc1));
                }
                let loc2 = match self.make_loc(q2) {
                    Ok(l) => l,
                    Err(_) => {
                        proof {
                            assert forall|q: Pt| #[trigger] c0.point_at(q) is Some implies self.point_at(q) is Some by {
                                assert(before.point_at(q) is Some);
                                assert(s0.point_at(q) is Some);
                            }
                        }
                        return Err(());
                    },
                };
                let ghost s2 = *self;
                proof {
                    lemma_make_loc_keeps(s0, s1, q1, Ok(loc1));
                    lemma_make_loc_keeps(s1, s2, q2, Ok(loc2));
                    lemma_make_loc_frame(s1, s2, q2, Ok(loc2));
                    assert(s1.loc_at(q1) == Some(loc1));
                    assert(s2.loc_at(q1) == Some(loc1));
                    assert(s2.loc_at(q2) == Some(loc2));
                    lemma_unit_step(a, b, k as int);
                }
                self.connect_step(loc1, loc2, q1, q2);
                let ghost t0 = touched@;
                if !contains_id(&touched, loc1) {
                    touched.push(loc1);
                    proof {
                        lemma_push_contains(t0, loc1, loc1);
                    }
                }
                let ghost t1 = touched@;
                if !contains_id(&touched, loc2) {
                    touched.push(loc2);
                    proof {
                        lemma_push_contains(t1, loc2, loc2);
                    }
                }
                proof {
                    assert(t0.len() <= t1.len() <= touched@.len());
                    assert(forall|w: int| 0 <= w < t0.len() ==> t1[w] == t0[w] && touched@[w] == t0[w]);
                    assert(t1.contains(loc1));
                    let w1 = choose|w: int| 0 <= w < t1.len() && t1[w] == loc1;
                    assert(touched@[w1] == loc1);
                }
                proof {
                    let n = *self;
                    assert forall|j: int| 0 <= j < touched@.len() implies n.location_ids().contains(#[trigger] touched@[j]) by {
                        assert(s2.location_ids().contains(touched@[j]));
                    }
                    assert forall|l: Id| #[trigger] n.location_ids().contains(l) implies (touched@.contains(l)
                        && n.connections(l).len() >= 1) || (c0.location_ids().contains(l)
                        && n.connections(l).len() == c0.connections(l).len()) by {
                        assert(s2.location_ids().contains(l));
                        assert(touched@.contains(loc1));
                        assert(touched@.contains(loc2));
                        if l != loc1 && l != loc2 {
                            assert(n.connections(l) == s2.connections(l));
                            assert(s1.location_ids().contains(l));
                            assert(s0.location_ids().contains(l));
                            assert(s1.connections(l).len() == s0.connections(l).len());
                            assert(s2.connections(l).len() == s1.connections(l).len());
                            if t0.contains(l) {
                                let w = choose|w: int| 0 <= w < t0.len() && t0[w] == l;
                                assert(touched@[w] == l);
                            }
                        }
                    }
                    assert forall|q: Pt| #[trigger] before.point_at(q) is Some implies n.point_at(q) is Some by {
                        assert(s0.point_at(q) is Some);
                        assert(s1.point_at(q) is Some);
                        assert(s2.point_at(q) is Some);
                    }
                    assert forall|d: int| 0 <= d < k + 1 implies (#[trigger] n.point_at(pts@[d])) is Some by {
                        if d < k {
                            assert(s0.point_at(pts@[d]) is Some);
                            assert(s1.point_at(pts@[d]) is Some);
                            assert(s2.point_at(pts@[d]) is Some);
                        } else {
                            assert(s2.point_at(q1) is Some);
                        }
                    }
                    assert(n.point_at(pts@[k + 1]) is Some) by {
                        assert(s2.point_at(q2) is Some);
                    }
                    assert(route_point(p1, p2, i as int, k as int) == q1);
                    assert(route_point(p1, p2, i as int, k + 1) == q2);
                    assert forall|q: Pt| #[trigger] n.point_at(q) is Some implies c0.point_at(q) is Some || on_route(p1, p2, q) by {
                        assert(s2.point_at(q) is Some);
                        if s1.point_at(q) is Some {
                            if s0.point_at(q) is None {
                                assert(q == q1);
                            }
                        } else {
                            assert(q == q2);
                        }
                    }
                    assert forall|i2: int, k2: int|
                        0 <= i2 < i && 0 <= k2 < steps(segs@[i2].0, segs@[i2].1).len() - 1
                            implies adjacent_in(n, #[trigger] route_point(p1, p2, i2, k2), route_point(p1, p2, i2, k2 + 1)) by {
                        assert(adjacent_in(s0, route_point(p1, p2, i2, k2), route_point(p1, p2, i2, k2 + 1)));
                        assert(adjacent_in(s1, route_point(p1, p2, i2, k2), route_point(p1, p2, i2, k2 + 1)));
                        assert(adjacent_in(s2, route_point(p1, p2, i2, k2), route_point(p1, p2, i2, k2 + 1)));
                    }
                    assert forall|k2: int| 0 <= k2 < k + 1 implies adjacent_in(n, #[trigger] route_point(p1, p2, i as int, k2), route_point(p1, p2, i as int, k2 + 1)) by {
                        if k2 < k {
                            assert(adjacent_in(s0, route_point(p1, p2, i as int, k2), route_point(p1, p2, i as int, k2 + 1)));
                            assert(adjacent_in(s1, route_point(p1, p2, i as int, k2), route_point(p1, p2, i as int, k2 + 1)));
                            assert(adjacent_in(s2, route_point(p1, p2, i as int, k2), route_point(p1, p2, i as int, k2 + 1)));
                        }
                    }
                }
                k = k + 1;
            }
            proof {
                crate::geometry::lemma_steps_end(a, b);
                assert forall|i2: int, d: int|
                    0 <= i2 < i + 1 && 0 <= d < steps(segs@[i2].0, segs@[i2].1).len()
                        implies (#[trigger] self.point_at(steps(segs@[i2].0, segs@[i2].1)[d])) is Some by {
                    if i2 < i {
                        assert(before.point_at(steps(segs@[i2].0, segs@[i2].1)[d]) is Some);
                    } else {
                        assert(steps(segs@[i2].0, segs@[i2].1) == pts@);
                        if d < k {
                        } else {
                            assert(d == k);
                        }
                    }
                }
                assert forall|q: Pt| #[trigger] c0.point_at(q) is Some implies self.point_at(q) is Some by {
                    assert(before.point_at(q) is Some);
                }
                assert forall|i2: int, k2: int|
                    0 <= i2 < i + 1 && 0 <= k2 < steps(segs@[i2].0, segs@[i2].1).len() - 1
                        implies adjacent_in(*self, #[trigger] route_point(p1, p2, i2, k2), route_point(p1, p2, i2, k2 + 1)) by {
                    if i2 == i {
                        assert(k2 < k);
                    }
                }
            }
            i = i + 1;
        }
        let ghost inserted = *self;
        let mut j: usize = 0;
        proof {
            if lengths_exact(c0) {
                assert forall|t: Id| #[trigger] self.track_ids().contains(t) implies self.length(t) == saturated(
                    self.resolution() * total_length(self.line(t)),
                ) by {}
            }
            assert(touched@.skip(0) =~= touched@);
            if was_settled {
                assert forall|l: Id| #[trigger] self.location_ids().contains(l) && self.connections(l).len() == 2
                    implies touched@.skip(0).contains(l) by {
                    if !touched@.contains(l) {
                        assert(c0.location_ids().contains(l));
                    }
                }
            }
        }
        while j < touched.len()
            invariant
                self.wf(),
                c0 == *old(self),
                j <= touched@.len(),
                touched@.no_duplicates(),
                forall|j2: int| j <= j2 < touched@.len() ==> self.location_ids().contains(#[trigger] touched@[j2]),
                forall|l: Id| #[trigger] self.location_ids().contains(l) ==> inserted.location_ids().contains(l)
                    && self.connections(l).len() == inserted.connections(l).len(),
                forall|l: Id| #[trigger] inserted.location_ids().contains(l) ==> (touched@.contains(l)
                    && inserted.connections(l).len() >= 1) || (c0.location_ids().contains(l)
                    && inserted.connections(l).len() == c0.connections(l).len()),
                was_settled ==> forall|l: Id| #[trigger] self.location_ids().contains(l) && self.connections(l).len() == 2
                    ==> touched@.skip(j as int).contains(l),
                forall|q: Pt| #[trigger] inserted.point_at(q) is Some ==> self.point_at(q) is Some,
                forall|q: Pt| #[trigger] c0.point_at(q) is Some ==> inserted.point_at(q) is Some,
                segs@ == route(p1, p2),
                forall|i2: int, d: int|
                    0 <= i2 < segs@.len() && 0 <= d < steps(segs@[i2].0, segs@[i2].1).len()
                        ==> (#[trigger] inserted.point_at(steps(segs@[i2].0, segs@[i2].1)[d])) is Some,
                was_settled == settled(c0),
                self.resolution() == c0.resolution(),
                forall|q: Pt| #[trigger] self.point_at(q) is Some ==> c0.point_at(q) is Some || on_route(p1, p2, q),
                forall|i2: int, k2: int|
                    0 <= i2 < segs@.len() && 0 <= k2 < steps(segs@[i2].0, segs@[i2].1).len() - 1
                        ==> adjacent_in(*self, #[trigger] route_point(p1, p2, i2, k2), route_point(p1, p2, i2, k2 + 1)),
                lengths_exact(c0) ==> lengths_match(*self),
                steps_unique(c0) ==> steps_unique(*self),
                j == 0 ==> *self == inserted,
                segs@.len() == 0 ==> inserted == c0 && touched@.len() == 0,
            decreases touched@.len() - j,
        {
            let l = touched[j];
            let ghost s0 = *self;
            if self.degree(l) == 2 {
                match self.join_at(l) {
                    Ok(()) => {},
                    Err(()) => {
                        proof {
                            assert forall|q: Pt| #[trigger] c0.point_at(q) is Some implies self.point_at(q) is Some by {
                                assert(inserted.point_at(q) is Some);
                                assert(s0.point_at(q) is Some);
                            }
                        }
                        return Err(());
                    },
                }
            }
            proof {
                let n = *self;
                assert forall|q: Pt| #[trigger] n.point_at(q) is Some implies c0.point_at(q) is Some || on_route(p1, p2, q) by {
                    assert(s0.point_at(q) is Some);
                }
                assert forall|i2: int, k2: int|
                    0 <= i2 < segs@.len() && 0 <= k2 < steps(segs@[i2].0, segs@[i2].1).len() - 1
                        implies adjacent_in(n, #[trigger] route_point(p1, p2, i2, k2), route_point(p1, p2, i2, k2 + 1)) by {
                    assert(adjacent_in(s0, route_point(p1, p2, i2, k2), route_point(p1, p2, i2, k2 + 1)));
                }
                assert forall|j2: int| j + 1 <= j2 < touched@.len() implies n.location_ids().contains(#[trigger] touched@[j2]) by {
                    assert(s0.location_ids().contains(touched@[j2]));
                    assert(touched@[j2] != touched@[j as int]);
                }
                assert forall|x: Id| #[trigger] n.location_ids().contains(x) implies inserted.location_ids().contains(x)
                    && n.connections(x).len() == inserted.connections(x).len() by {
                    assert(s0.location_ids().contains(x));
                }
                if was_settled {
                    assert forall|x: Id| #[trigger] n.location_ids().contains(x) && n.connections(x).len() == 2
                        implies touched@.skip(j + 1).contains(x) by {
                        assert(s0.location_ids().contains(x));
                        assert(touched@.skip(j as int).contains(x));
                        let w = choose|w: int| 0 <= w < touched@.skip(j as int).len() && touched@.skip(j as int)[w] == x;
                        assert(w != 0);
                        assert(touched@.skip(j + 1)[w - 1] == x);
                    }
                }
                assert forall|q: Pt| #[trigger] inserted.point_at(q) is Some implies n.point_at(q) is Some by {
                    assert(s0.point_at(q) is Some);
                }
            }
            j = j + 1;
        }
        proof {
            let n = *self;
            assert forall|q: Pt| #[trigger] c0.point_at(q) is Some implies n.point_at(q) is Some by {
                assert(inserted.point_at(q) is Some);
            }
            assert forall|i2: int, d: int|
                0 <= i2 < route(p1, p2).len() && 0 <= d < steps(route(p1, p2)[i2].0, route(p1, p2)[i2].1).len()
                    implies (#[trigger] n.point_at(steps(route(p1, p2)[i2].0, route(p1, p2)[i2].1)[d])) is Some by {
                assert(inserted.point_at(steps(segs@[i2].0, segs@[i2].1)[d]) is Some);
            }
            if settled(c0) {
                assert forall|x: Id| #[trigger] n.location_ids().contains(x) implies n.connections(x).len() != 0
                    && n.connections(x).len() != 2 by {
                    assert(inserted.location_ids().contains(x));
                    if c0.location_ids().contains(x) && inserted.connections(x).len() == c0.connections(x).len() {
                        assert(c0.connections(x).len() != 0);
                    }
                    if n.connections(x).len() == 2 {
                        assert(touched@.skip(j as int).contains(x));
                    }
                }
            }
        }
        Ok(())
    }

    /// The number of live locations.
    pub fn num_locations(&self) -> (r: usize)
        ensures
            r == self.location_ids().len(),
    {
        location_count(&self.railway.locations)
    }

    /// The number of live tracks.
    pub fn num_tracks(&self) -> (r: usize)
        ensures
            r == self.track_ids().len(),
    {
        track_count(&self.railway.tracks)
    }

    /// The tracks that meet at location `l`, if it is live.
    pub fn connections_of(&self, l: Id) -> (r: Option<&Vec<Id>>)
        ensures
            match r {
                Some(c) => self.location_ids().contains(l) && c@ == self.connections(l),
                None => !self.location_ids().contains(l),
            },
    {
        if has_location(&self.railway.locations, l) {
            Some(&location_at(&self.railway.locations, l).connections)
        } else {
            None
        }
    }

    /// The ends of track `t`, if it is live.
    pub fn track_ends(&self, t: Id) -> (r: Option<(Id, Id)>)
        ensures
            r == if self.track_ids().contains(t) { Some((self.end_a(t), self.end_b(t))) } else { None },
    {
        if has_track(&self.railway.tracks, t) {
            let tr = track_at(&self.railway.tracks, t);
            Some((tr.end_a, tr.end_b))
        } else {
            None
        }
    }

    /// The physical length of track `t`, if it is live.
    pub fn track_length(&self, t: Id) -> (r: Option<u64>)
        ensures
            r == if self.track_ids().contains(t) { Some(self.length(t)) } else { None },
    {
        if has_track(&self.railway.tracks, t) {
            Some(track_at(&self.railway.tracks, t).length)
        } else {
            None
        }
    }

    /// The path of track `t`, if it is live.
    pub fn track_line(&self, t: Id) -> (r: Option<&Polyline>)
        ensures
            match r {
                Some(pl) => self.track_ids().contains(t) && pl@ == self.line(t),
                None => !self.track_ids().contains(t),
            },
    {
        if has_track(&self.railway.tracks, t) {
            Some(&track_at(&self.railway.tracks, t).line)
        } else {
            None
        }
    }

    /// Moves to track `to` every point of `pts` that the index gives to
    /// track `from`.
    fn retarget_points(&mut self, pts: &Vec<Pt>, from: Id, to: Id)
        ensures
            final(self).railway == old(self).railway,
            final(self).default_grid_resolution == old(self).default_grid_resolution,
            forall|q: Pt|
                #[trigger] final(self).point_at(q) == if old(self).point_at(q) == Some(PointInfo::Track(from))
                    && pts@.contains(q) {
                    Some(PointInfo::Track(to))
                } else {
                    old(self).point_at(q)
                },
    {
        let ghost start = *self;
        let mut k: usize = 0;
        while k < pts.len()
            invariant
                k <= pts@.len(),
                self.railway == start.railway,
                self.default_grid_resolution == start.default_grid_resolution,
                forall|q: Pt|
                    #[trigger] self.point_at(q) == if start.point_at(q) == Some(PointInfo::Track(from))
                        && pts@.take(k as int).contains(q) {
                        Some(PointInfo::Track(to))
                    } else {
                        start.point_at(q)
                    },
            decreases pts@.len() - k,
        {
            let p = pts[k];
            let cur = self.point_info(p);
            proof {
                assert(pts@.take(k + 1) =~= pts@.take(k as int).push(p));
                assert forall|q: Pt| #[trigger] pts@.take(k + 1).contains(q) <==> (pts@.take(k as int).contains(q) || q == p) by {
                    lemma_push_contains(pts@.take(k as int), p, q);
                }
            }
            match cur {
                Some(PointInfo::Track(x)) => {
                    if x == from {
                        self.set_point(p, PointInfo::Track(to));
                    }
                },
                _ => {},
            }
            k = k + 1;
        }
        proof {
            assert(pts@.take(k as int) =~= pts@);
        }
    }

    /// The grid points strictly between `p1` and `p2`, stepping by one in
    /// the direction of each axis.
    pub fn step_line_internal(p1: Pt, p2: Pt) -> (r: Vec<Pt>)
        requires
            forall|d: int| 0 <= d <= chebyshev(p1, p2) ==> i32::MIN <= #[trigger] toward(p1.x as int, p2.x - p1.x, d) <= i32::MAX,
            forall|d: int| 0 <= d <= chebyshev(p1, p2) ==> i32::MIN <= #[trigger] toward(p1.y as int, p2.y - p1.y, d) <= i32::MAX,
        ensures
            r@ == Seq::new(if chebyshev(p1, p2) >= 1 { (chebyshev(p1, p2) - 1) as nat } else { 0 }, |i: int| step_point(p1, p2, i + 1)),
    {
        let dx: i64 = p2.x as i64 - p1.x as i64;
        let dy: i64 = p2.y as i64 - p1.y as i64;
        let n: i64 = length_maxmetric(p1, p2) as i64;
        let mut r: Vec<Pt> = Vec::new();
        let mut d: i64 = 1;
        while d < n
            invariant
                1 <= d,
                n >= 1 ==> d <= n,
                n == 0 ==> d == 1,
                n >= 0,
                n == chebyshev(p1, p2),
                dx == p2.x - p1.x,
                dy == p2.y - p1.y,
                forall|e: int| 0 <= e <= chebyshev(p1, p2) ==> i32::MIN <= #[trigger] toward(p1.x as int, p2.x - p1.x, e) <= i32::MAX,
                forall|e: int| 0 <= e <= chebyshev(p1, p2) ==> i32::MIN <= #[trigger] toward(p1.y as int, p2.y - p1.y, e) <= i32::MAX,
                r@.len() == d - 1,
                forall|i: int| 0 <= i < d - 1 ==> #[trigger] r@[i] == step_point(p1, p2, i + 1),
            decreases n - d,
        {
            let x: i64 = if dx > 0 { p1.x as i64 + d } else if dx < 0 { p1.x as i64 - d } else { p1.x as i64 };
            let y: i64 = if dy > 0 { p1.y as i64 + d } else if dy < 0 { p1.y as i64 - d } else { p1.y as i64 };
            proof {
                assert(x == toward(p1.x as int, p2.x - p1.x, d as int));
                assert(y == toward(p1.y as int, p2.y - p1.y, d as int));
            }
            let p = Pt { x: x as i32, y: y as i32 };
            proof {
                assert(p == step_point(p1, p2, d as int));
            }
            r.push(p);
            d = d + 1;
        }
        proof {
            if n >= 1 {
                assert(d == n);
            } else {
                assert(d == 1);
            }
            assert(r@ =~= Seq::new(if chebyshev(p1, p2) >= 1 { (chebyshev(p1, p2) - 1) as nat } else { 0 }, |i: int| step_point(p1, p2, i + 1)));
        }
        r
    }

    /// Every grid point of an ortholinear segment, from `p1` to `p2` inclusive.
    pub fn step_line(p1: Pt, p2: Pt) -> (r: Vec<Pt>)
        requires
            is_ortholinear(p1, p2),
        ensures
            r@ == steps(p1, p2),
    {
        let dx: i64 = p2.x as i64 - p1.x as i64;
        let dy: i64 = p2.y as i64 - p1.y as i64;
        let n: i64 = length_maxmetric(p1, p2) as i64;
        let mut r: Vec<Pt> = Vec::new();
        let mut d: i64 = 0;
        while d <= n
            invariant
                0 <= d <= n + 1,
                n == chebyshev(p1, p2),
                dx == p2.x - p1.x,
                dy == p2.y - p1.y,
                is_ortholinear(p1, p2),
                r@ =~= steps(p1, p2).take(d as int),
            decreases n + 1 - d,
        {
            let x: i64 = if dx > 0 { p1.x as i64 + d } else if dx < 0 { p1.x as i64 - d } else { p1.x as i64 };
            let y: i64 = if dy > 0 { p1.y as i64 + d } else if dy < 0 { p1.y as i64 - d } else { p1.y as i64 };
            let p = Pt { x: x as i32, y: y as i32 };
            r.push(p);
            proof {
                assert(steps(p1, p2).take(d + 1) =~= steps(p1, p2).take(d as int).push(p));
            }
            d = d + 1;
        }
        proof {
            assert(steps(p1, p2).take(d as int) =~= steps(p1, p2));
        }
        r
    }

    /// Routes a gesture from `from` to `to` into at most two ortholinear
    /// segments: a diagonal (or vertical) leg, then a horizontal one.
    pub fn route_line(from: Pt, to: Pt) -> (r: Vec<(Pt, Pt)>)
        requires
            route_fits(from, to),
        ensures
            r@ == route(from, to),
            forall|i: int| 0 <= i < r@.len() ==> is_ortholinear(#[trigger] r@[i].0, r@[i].1),
    {
        let mut v: Vec<(Pt, Pt)> = Vec::new();
        let dx: i64 = to.x as i64 - from.x as i64;
        let dy: i64 = to.y as i64 - from.y as i64;
        let mut other = from;
        if dy != 0 {
            let ady: i64 = if dy < 0 { -dy } else { dy };
            let ox: i64 = if dx > 0 { from.x as i64 + ady } else if dx < 0 { from.x as i64 - ady } else { from.x as i64 };
            other = Pt { x: ox as i32, y: to.y };
            v.push((from, other));
        }
        if dx != 0 {
            let rest: i64 = to.x as i64 - other.x as i64;
            let gx: i32 = if (rest > 0 && dx > 0) || (rest < 0 && dx < 0) { to.x } else { other.x };
            let goal = Pt { x: gx, y: other.y };
            if other != goal {
                v.push((other, goal));
            }
        }
        proof {
            assert(v@ =~= route(from, to));
        }
        v
    }
}

} // verus!
