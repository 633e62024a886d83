//! Grid points, ortholinear segments and the routing policy.
use vstd::prelude::*;

verus! {

/// A point of the integer grid.
#[derive(Clone, Copy, PartialEq, Eq, Debug, Hash, Structural)]
pub struct Pt {
    pub x: i32,
    pub y: i32,
}

pub open spec fn abs(v: int) -> int {
    if v < 0 { -v } else { v }
}

/// `d` steps away from `v` in the direction given by the sign of `dir`.
pub open spec fn toward(v: int, dir: int, d: int) -> int {
    if dir > 0 { v + d } else if dir < 0 { v - d } else { v }
}

pub open spec fn max(a: int, b: int) -> int {
    if a >= b { a } else { b }
}

/// The max-metric (Chebyshev) distance between two grid points.
pub open spec fn chebyshev(p1: Pt, p2: Pt) -> int {
    max(abs(p2.x - p1.x), abs(p2.y - p1.y))
}

/// A non-empty horizontal, vertical or 45-degree segment.
pub open spec fn is_ortholinear(p1: Pt, p2: Pt) -> bool {
    let dx = p2.x - p1.x;
    let dy = p2.y - p1.y;
    p1 != p2 && (dx == 0 || dy == 0 || abs(dx) == abs(dy))
}

/// The point `d` unit steps from `p1` toward `p2`.
pub open spec fn step_point(p1: Pt, p2: Pt, d: int) -> Pt {
    Pt {
        x: toward(p1.x as int, p2.x - p1.x, d) as i32,
        y: toward(p1.y as int, p2.y - p1.y, d) as i32,
    }
}

/// Every grid point of the segment from `p1` to `p2`, both ends included.
pub open spec fn steps(p1: Pt, p2: Pt) -> Seq<Pt> {
    Seq::new((chebyshev(p1, p2) + 1) as nat, |d: int| step_point(p1, p2, d))
}

/// The corner where the diagonal leg of a route ends.
pub open spec fn route_corner(from: Pt, to: Pt) -> Pt {
    let dy = to.y - from.y;
    if dy != 0 {
        Pt { x: toward(from.x as int, to.x - from.x, abs(dy)) as i32, y: to.y }
    } else {
        from
    }
}

/// The routing policy: a diagonal leg that covers the vertical distance,
/// leaning toward the target's side, then a horizontal leg for what is left
/// in the same direction.
pub open spec fn route(from: Pt, to: Pt) -> Seq<(Pt, Pt)> {
    let dx = to.x - from.x;
    let dy = to.y - from.y;
    let corner = route_corner(from, to);
    let first: Seq<(Pt, Pt)> = if dy != 0 { seq![(from, corner)] } else { seq![] };
    let rest = to.x - corner.x;
    let goal_x = if (rest > 0 && dx > 0) || (rest < 0 && dx < 0) { to.x as int } else { corner.x as int };
    if dx != 0 && goal_x != corner.x {
        first.push((corner, Pt { x: goal_x as i32, y: corner.y }))
    } else {
        first
    }
}

/// The corner of the route lies on the grid.
pub open spec fn route_fits(from: Pt, to: Pt) -> bool {
    let dy = to.y - from.y;
    dy != 0 ==> i32::MIN <= toward(from.x as int, to.x - from.x, abs(dy)) <= i32::MAX
}

/// `pt` lies on the segment from `p1` to `p2` and is neither of its ends:
/// on the line through them, between them on each axis, and on a
/// horizontal, vertical or diagonal line with each end.
pub open spec fn strictly_inside(p1: Pt, p2: Pt, pt: Pt) -> bool {
    let dx1 = pt.x - p1.x;
    let dy1 = pt.y - p1.y;
    let dx2 = p2.x - pt.x;
    let dy2 = p2.y - pt.y;
    &&& pt != p1
    &&& pt != p2
    &&& dx1 * dy2 == dy1 * dx2
    &&& dx1 * dx2 >= 0
    &&& dy1 * dy2 >= 0
    &&& (dx1 == 0 || dy1 == 0 || abs(dx1) == abs(dy1))
    &&& (dx2 == 0 || dy2 == 0 || abs(dx2) == abs(dy2))
}

/// Whether the corner of the route from `from` to `to` lies on the grid.
pub fn route_fits_grid(from: Pt, to: Pt) -> (r: bool)
    ensures
        r == route_fits(from, to),
{
    let dx: i64 = to.x as i64 - from.x as i64;
    let dy: i64 = to.y as i64 - from.y as i64;
    if dy == 0 {
        return true;
    }
    let ady: i64 = if dy < 0 { -dy } else { dy };
    let x: i64 = if dx > 0 { from.x as i64 + ady } else if dx < 0 { from.x as i64 - ady } else { from.x as i64 };
    i32::MIN as i64 <= x && x <= i32::MAX as i64
}

/// The max-metric distance between two grid points.
pub fn length_maxmetric(p1: Pt, p2: Pt) -> (r: u32)
    ensures
        r == chebyshev(p1, p2),
{
    let dx: i64 = p2.x as i64 - p1.x as i64;
    let dy: i64 = p2.y as i64 - p1.y as i64;
    let ax: i64 = if dx < 0 { -dx } else { dx };
    let ay: i64 = if dy < 0 { -dy } else { dy };
    if ax >= ay { ax as u32 } else { ay as u32 }
}

/// Splits the segment `(p1, p2)` at `pt` when `pt` lies strictly inside it.
pub fn split_line_at(l: (Pt, Pt), pt: Pt) -> (r: Option<((Pt, Pt), (Pt, Pt))>)
    ensures
        r == (if strictly_inside(l.0, l.1, pt) { Some(((l.0, pt), (pt, l.1))) } else { None }),
{
    let (p1, p2) = l;
    if p1 == pt || p2 == pt {
        return None;
    }
    let dx1: i64 = pt.x as i64 - p1.x as i64;
    let dy1: i64 = pt.y as i64 - p1.y as i64;
    let dx2: i64 = p2.x as i64 - pt.x as i64;
    let dy2: i64 = p2.y as i64 - pt.y as i64;
    let same_x = dx1 == 0 || dx2 == 0 || (dx1 > 0) == (dx2 > 0);
    let same_y = dy1 == 0 || dy2 == 0 || (dy1 > 0) == (dy2 > 0);
    let ax1: i64 = if dx1 < 0 { -dx1 } else { dx1 };
    let ay1: i64 = if dy1 < 0 { -dy1 } else { dy1 };
    let ax2: i64 = if dx2 < 0 { -dx2 } else { dx2 };
    let ay2: i64 = if dy2 < 0 { -dy2 } else { dy2 };
    let diag1 = dx1 == 0 || dy1 == 0 || ax1 == ay1;
    let diag2 = dx2 == 0 || dy2 == 0 || ax2 == ay2;
    proof {
        assert(-0x1_0000_0000i128 <= dx1 <= 0x1_0000_0000i128);
        assert(-0x1_0000_0000i128 <= dy2 <= 0x1_0000_0000i128);
        assert(-0x1_0000_0000i128 <= dy1 <= 0x1_0000_0000i128);
        assert(-0x1_0000_0000i128 <= dx2 <= 0x1_0000_0000i128);
        assert(-0x1_0000_0000_0000_0000i128 <= dx1 * dy2 <= 0x1_0000_0000_0000_0000i128)
            by (nonlinear_arith)
            requires
                -0x1_0000_0000i128 <= dx1 <= 0x1_0000_0000i128,
                -0x1_0000_0000i128 <= dy2 <= 0x1_0000_0000i128,
        ;
        assert(-0x1_0000_0000_0000_0000i128 <= dy1 * dx2 <= 0x1_0000_0000_0000_0000i128)
            by (nonlinear_arith)
            requires
                -0x1_0000_0000i128 <= dy1 <= 0x1_0000_0000i128,
                -0x1_0000_0000i128 <= dx2 <= 0x1_0000_0000i128,
        ;
    }
    let collinear = (dx1 as i128) * (dy2 as i128) == (dy1 as i128) * (dx2 as i128);
    proof {
        assert(same_x <==> dx1 * dx2 >= 0) by (nonlinear_arith)
            requires
                same_x == (dx1 == 0 || dx2 == 0 || (dx1 > 0) == (dx2 > 0)),
        ;
        assert(same_y <==> dy1 * dy2 >= 0) by (nonlinear_arith)
            requires
                same_y == (dy1 == 0 || dy2 == 0 || (dy1 > 0) == (dy2 > 0)),
        ;
    }
    if collinear && same_x && same_y && diag1 && diag2 {
        Some(((p1, pt), (pt, p2)))
    } else {
        None
    }
}

} // verus!

verus! {

/// Two consecutive unit steps of an ortholinear segment form an
/// ortholinear segment.
pub proof fn lemma_unit_step(p1: Pt, p2: Pt, k: int)
    requires
        is_ortholinear(p1, p2),
        0 <= k < chebyshev(p1, p2),
    ensures
        is_ortholinear(steps(p1, p2)[k], steps(p1, p2)[k + 1]),
        steps(steps(p1, p2)[k], steps(p1, p2)[k + 1]) == seq![steps(p1, p2)[k], steps(p1, p2)[k + 1]],
{
    let a = steps(p1, p2)[k];
    let b = steps(p1, p2)[k + 1];
    let dx = p2.x - p1.x;
    let dy = p2.y - p1.y;
    assert(dx != 0 ==> chebyshev(p1, p2) == abs(dx));
    assert(dy != 0 ==> chebyshev(p1, p2) == abs(dy));
    assert(chebyshev(a, b) == 1);
    assert(steps(a, b) =~= seq![a, b]);
}

/// Splitting an ortholinear segment at a point strictly inside it splits
/// its unit steps there.
pub proof fn lemma_steps_split(p1: Pt, p2: Pt, pt: Pt)
    requires
        is_ortholinear(p1, p2),
        strictly_inside(p1, p2, pt),
    ensures
        is_ortholinear(p1, pt),
        is_ortholinear(pt, p2),
        steps(p1, pt) + steps(pt, p2).drop_first() == steps(p1, p2),
{
    let dx = p2.x - p1.x;
    let dy = p2.y - p1.y;
    let dx1 = pt.x - p1.x;
    let dy1 = pt.y - p1.y;
    let dx2 = p2.x - pt.x;
    let dy2 = p2.y - pt.y;
    assert(dx1 * dy2 == dy1 * dx2);
    assert(dx1 * dx2 >= 0);
    assert(dy1 * dy2 >= 0);
    if dy == 0 {
        assert(dy2 == -dy1);
        assert(dy1 * dy2 == -(dy1 * dy1)) by (nonlinear_arith)
            requires dy2 == -dy1,;
        assert(dy1 * dy1 >= 0) by (nonlinear_arith);
        assert(dy1 == 0) by (nonlinear_arith)
            requires dy1 * dy1 == 0,;
    } else if dx == 0 {
        assert(dx2 == -dx1);
        assert(dx1 * dx2 == -(dx1 * dx1)) by (nonlinear_arith)
            requires dx2 == -dx1,;
        assert(dx1 * dx1 >= 0) by (nonlinear_arith);
        assert(dx1 == 0) by (nonlinear_arith)
            requires dx1 * dx1 == 0,;
    } else {
        // diagonal: the offsets to pt follow the diagonal
        assert(dx1 * dy == dy1 * dx) by (nonlinear_arith)
            requires dx1 * dy2 == dy1 * dx2, dx2 == dx - dx1, dy2 == dy - dy1,;
        if dy == dx {
            assert(dy1 == dx1) by (nonlinear_arith)
                requires dx1 * dy == dy1 * dx, dy == dx, dx != 0,;
        } else {
            assert(dy == -dx);
            assert(dy1 == -dx1) by (nonlinear_arith)
                requires dx1 * dy == dy1 * dx, dy == -dx, dx != 0,;
        }
    }
    // the offsets to pt point the same way as the segment
    assert(dx1 == 0 || (dx1 > 0) == (dx > 0)) by (nonlinear_arith)
        requires dx1 * dx2 >= 0, dx == dx1 + dx2,;
    assert(dy1 == 0 || (dy1 > 0) == (dy > 0)) by (nonlinear_arith)
        requires dy1 * dy2 >= 0, dy == dy1 + dy2,;
    assert(dx2 == 0 || (dx2 > 0) == (dx > 0)) by (nonlinear_arith)
        requires dx1 * dx2 >= 0, dx == dx1 + dx2,;
    assert(dy2 == 0 || (dy2 > 0) == (dy > 0)) by (nonlinear_arith)
        requires dy1 * dy2 >= 0, dy == dy1 + dy2,;
    let k = chebyshev(p1, pt);
    let n = chebyshev(p1, p2);
    assert(0 < k < n);
    assert(chebyshev(pt, p2) == n - k);
    let lhs = steps(p1, pt) + steps(pt, p2).drop_first();
    let rhs = steps(p1, p2);
    assert forall|d: int| 0 <= d < rhs.len() implies lhs[d] == rhs[d] by {
        if d <= k {
            assert(lhs[d] == step_point(p1, pt, d));
        } else {
            assert(lhs[d] == step_point(pt, p2, d - k));
        }
    }
    assert(lhs =~= rhs);
}

/// A unit step of an ortholinear segment strictly between its ends lies
/// strictly inside it.
pub proof fn lemma_step_inside(p1: Pt, p2: Pt, d: int)
    requires
        is_ortholinear(p1, p2),
        0 < d < chebyshev(p1, p2),
    ensures
        strictly_inside(p1, p2, steps(p1, p2)[d]),
{
    let pt = steps(p1, p2)[d];
    let n = chebyshev(p1, p2);
    let dx = p2.x - p1.x;
    let dy = p2.y - p1.y;
    let sx: int = if dx > 0 { 1 } else if dx < 0 { -1 } else { 0 };
    let sy: int = if dy > 0 { 1 } else if dy < 0 { -1 } else { 0 };
    assert(dx != 0 ==> n == abs(dx));
    assert(dy != 0 ==> n == abs(dy));
    assert(d * sx == (if dx > 0 { d } else if dx < 0 { -d } else { 0 })) by (nonlinear_arith)
        requires sx == (if dx > 0 { 1int } else if dx < 0 { -1int } else { 0int }),;
    assert(d * sy == (if dy > 0 { d } else if dy < 0 { -d } else { 0 })) by (nonlinear_arith)
        requires sy == (if dy > 0 { 1int } else if dy < 0 { -1int } else { 0int }),;
    assert((n - d) * sx == (if dx > 0 { n - d } else if dx < 0 { d - n } else { 0 })) by (nonlinear_arith)
        requires sx == (if dx > 0 { 1int } else if dx < 0 { -1int } else { 0int }),;
    assert((n - d) * sy == (if dy > 0 { n - d } else if dy < 0 { d - n } else { 0 })) by (nonlinear_arith)
        requires sy == (if dy > 0 { 1int } else if dy < 0 { -1int } else { 0int }),;
    assert(pt.x - p1.x == d * sx);
    assert(pt.y - p1.y == d * sy);
    assert(p2.x - pt.x == (n - d) * sx);
    assert(p2.y - pt.y == (n - d) * sy);
    assert((d * sx) * ((n - d) * sy) == (d * sy) * ((n - d) * sx)) by (nonlinear_arith);
    assert((d * sx) * ((n - d) * sx) >= 0) by (nonlinear_arith)
        requires d > 0, n - d > 0,;
    assert((d * sy) * ((n - d) * sy) >= 0) by (nonlinear_arith)
        requires d > 0, n - d > 0,;
}

/// The unit steps of a segment walked backwards are its unit steps in
/// reverse.
pub proof fn lemma_steps_reverse(p1: Pt, p2: Pt)
    requires
        is_ortholinear(p1, p2),
    ensures
        is_ortholinear(p2, p1),
        steps(p2, p1) == steps(p1, p2).reverse(),
{
    let n = chebyshev(p1, p2);
    let dx = p2.x - p1.x;
    let dy = p2.y - p1.y;
    assert(dx != 0 ==> n == abs(dx));
    assert(dy != 0 ==> n == abs(dy));
    assert(chebyshev(p2, p1) == n);
    let r = steps(p1, p2).reverse();
    assert forall|d: int| 0 <= d <= n implies steps(p2, p1)[d] == r[d] by {
        assert(r[d] == steps(p1, p2)[n - d]);
    }
    assert(steps(p2, p1) =~= r);
}

/// An ortholinear segment's unit steps end at its far end.
pub proof fn lemma_steps_end(p1: Pt, p2: Pt)
    ensures
        steps(p1, p2).len() >= 1,
        steps(p1, p2)[0] == p1,
        is_ortholinear(p1, p2) ==> steps(p1, p2).last() == p2,
{
}

} // verus!
