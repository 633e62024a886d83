//! The on-screen path of one track: an ordered sequence of grid points.
use vstd::prelude::*;
use crate::geometry::{
    Pt, chebyshev, is_ortholinear, length_maxmetric, split_line_at, steps, strictly_inside,
    lemma_steps_end, lemma_steps_split, lemma_step_inside, lemma_steps_reverse,
};
use crate::canvas::SchematicCanvas;

verus! {

/// Every consecutive pair of points forms an ortholinear segment.
pub open spec fn all_ortholinear(pts: Seq<Pt>) -> bool {
    forall|i: int| 0 <= i < pts.len() - 1 ==> is_ortholinear(#[trigger] pts[i], pts[i + 1])
}

/// Every unit grid point that the path passes through, in order.
pub open spec fn expand(pts: Seq<Pt>) -> Seq<Pt>
    decreases pts.len(),
{
    if pts.len() <= 1 {
        pts
    } else {
        expand(pts.drop_last()) + steps(pts[pts.len() - 2], pts[pts.len() - 1]).drop_first()
    }
}

/// The sum of the max-metric lengths of the segments.
pub open spec fn total_length(pts: Seq<Pt>) -> int
    decreases pts.len(),
{
    if pts.len() <= 1 {
        0
    } else {
        total_length(pts.drop_last()) + chebyshev(pts[pts.len() - 2], pts[pts.len() - 1])
    }
}

/// The join of two paths: the first is turned around when its first point
/// is an end of the second, then the second when its last point is where
/// the first now ends, so that a shared end sits between them; the
/// duplicated point is dropped.
pub open spec fn joined(a: Seq<Pt>, b: Seq<Pt>) -> Seq<Pt> {
    if b.len() == 0 {
        a
    } else if a.len() == 0 {
        b
    } else {
        let a2 = if a[0] == b[0] || a[0] == b.last() { a.reverse() } else { a };
        let b2 = if b.last() == a2.last() { b.reverse() } else { b };
        a2.drop_last() + b2
    }
}

/// Segment `i` starts at `pt` or holds it strictly inside.
pub open spec fn hits(pts: Seq<Pt>, pt: Pt, i: int) -> bool {
    pts[i] == pt || strictly_inside(pts[i], pts[i + 1], pt)
}

/// Segment `i` is the first segment that `pt` hits.
pub open spec fn first_hit(pts: Seq<Pt>, pt: Pt, i: int) -> bool {
    &&& 0 <= i < pts.len() - 1
    &&& hits(pts, pt, i)
    &&& forall|j: int| 0 <= j < i ==> !hits(pts, pt, j)
}

/// The two halves of a split at `pt` on segment `i`.
pub open spec fn split_pieces(pts: Seq<Pt>, pt: Pt, i: int) -> (Seq<Pt>, Seq<Pt>) {
    if pts[i] == pt {
        (if i == 0 { seq![] } else { pts.take(i + 1) }, pts.skip(i))
    } else {
        (pts.take(i + 1).push(pt), seq![pt] + pts.skip(i + 1))
    }
}

/// The result of splitting `pts` at `pt`: the halves at the first segment
/// that `pt` hits; else, where `pt` is the last point, the whole path and
/// nothing; else no result.
pub open spec fn split_spec(pts: Seq<Pt>, pt: Pt) -> Option<(Seq<Pt>, Seq<Pt>)> {
    if exists|i: int| first_hit(pts, pt, i) {
        let i = choose|i: int| first_hit(pts, pt, i);
        Some(split_pieces(pts, pt, i))
    } else if pts.len() > 0 && pts.last() == pt {
        Some((if pts.len() >= 2 { pts } else { seq![] }, seq![]))
    } else {
        None
    }
}

/// At most one segment is the first that `pt` hits.
pub proof fn lemma_first_hit_unique(pts: Seq<Pt>, pt: Pt, i: int, k: int)
    requires
        first_hit(pts, pt, i),
        first_hit(pts, pt, k),
    ensures
        i == k,
{
    if k < i {
        assert(!hits(pts, pt, k));
    } else if k > i {
        assert(!hits(pts, pt, i));
    }
}

/// The points of a chain of segments, when each segment starts where the
/// previous one ends.
pub open spec fn chain_points(s: Seq<(Pt, Pt)>) -> Seq<Pt> {
    if s.len() == 0 {
        seq![]
    } else {
        seq![s[0].0] + Seq::new(s.len(), |i: int| s[i].1)
    }
}

pub open spec fn is_chain(s: Seq<(Pt, Pt)>) -> bool {
    forall|i: int| 0 <= i < s.len() - 1 ==> (#[trigger] s[i]).1 == s[i + 1].0
}

pub open spec fn segments_of(pts: Seq<Pt>) -> Seq<(Pt, Pt)> {
    Seq::new(if pts.len() == 0 { 0 } else { (pts.len() - 1) as nat }, |i: int| (pts[i], pts[i + 1]))
}

/// An ordered sequence of grid points describing one track's path.
#[derive(Debug)]
pub struct Polyline {
    pts: Vec<Pt>,
}

impl View for Polyline {
    type V = Seq<Pt>;

    closed spec fn view(&self) -> Seq<Pt> {
        self.pts@
    }
}

impl Polyline {
    pub fn new() -> (r: Polyline)
        ensures
            r@ == Seq::<Pt>::empty(),
    {
        Polyline { pts: Vec::new() }
    }

    pub fn is_empty(&self) -> (r: bool)
        ensures
            r == (self@.len() == 0),
    {
        self.pts.len() == 0
    }

    pub fn reverse(&mut self)
        ensures
            final(self)@ == old(self)@.reverse(),
    {
        let n = self.pts.len();
        let mut r: Vec<Pt> = Vec::new();
        let mut i: usize = n;
        while i > 0
            invariant
                i <= n == self.pts@.len(),
                r@ =~= self.pts@.reverse().take((n - i) as int),
            decreases i,
        {
            i = i - 1;
            r.push(self.pts[i]);
            proof {
                assert(self.pts@.reverse().take((n - i) as int) =~= self.pts@.reverse().take(
                    (n - i - 1) as int,
                ).push(self.pts@[i as int]));
            }
        }
        proof {
            assert(self.pts@.reverse().take(n as int) =~= self.pts@.reverse());
        }
        self.pts = r;
    }

    pub fn from_line(l: (Pt, Pt)) -> (r: Polyline)
        ensures
            r@ == seq![l.0, l.1],
    {
        let mut pts: Vec<Pt> = Vec::new();
        pts.push(l.0);
        pts.push(l.1);
        proof {
            assert(pts@ =~= seq![l.0, l.1]);
        }
        Polyline { pts }
    }

    /// Joins the segment `l` to this path (see `add_polyline`); a join that
    /// closes a loop is kept as it is.
    pub fn add_line(&mut self, l: (Pt, Pt)) -> (r: Result<(), ()>)
        ensures
            final(self)@ == joined(old(self)@, seq![l.0, l.1]),
            r is Ok,
    {
        let _ = self.add_polyline(Self::from_line(l));
        Ok(())
    }

    /// The sum of the max-metric lengths of the segments, saturated at the
    /// largest `u64`.
    pub fn lengthmax(&self) -> (r: u64)
        ensures
            r == if total_length(self@) <= u64::MAX { total_length(self@) } else { u64::MAX as int },
    {
        let n = self.pts.len();
        if n == 0 {
            return 0;
        }
        let mut sum: u64 = 0;
        let mut i: usize = 1;
        while i < n
            invariant
                1 <= i <= n == self@.len(),
                sum == if total_length(self@.take(i as int)) <= u64::MAX {
                    total_length(self@.take(i as int))
                } else {
                    u64::MAX as int
                },
                total_length(self@.take(i as int)) >= 0,
            decreases n - i,
        {
            let d = length_maxmetric(self.pts[i - 1], self.pts[i]);
            proof {
                assert(self@.take(i + 1).drop_last() =~= self@.take(i as int));
            }
            sum = sum.saturating_add(d as u64);
            i = i + 1;
        }
        proof {
            assert(self@.take(n as int) =~= self@);
        }
        sum
    }

    /// Joins another path that shares an end with this one; fails when the
    /// joined path would start and end at the same point.
    pub fn add_polyline(&mut self, pl: Polyline) -> (r: Result<(), ()>)
        ensures
            final(self)@ == joined(old(self)@, pl@),
            r is Err <==> (old(self)@.len() > 0 && pl@.len() > 0
                && final(self)@[0] == final(self)@.last()),
    {
        let mut pl = pl;
        if pl.is_empty() {
            return Ok(());
        }
        if self.is_empty() {
            self.pts = pl.pts;
            return Ok(());
        }
        let l1a = self.pts[0];
        let l1b = self.pts[self.pts.len() - 1];
        let l2a = pl.pts[0];
        let l2b = pl.pts[pl.pts.len() - 1];
        let reverse_this = l1a == l2a || l1a == l2b;
        let reverse_other = l2b == (if reverse_this { l1a } else { l1b });
        if reverse_this {
            self.reverse();
            proof {
                lemma_reverse_path_ends(old(self)@);
            }
        }
        if reverse_other {
            pl.reverse();
        }
        let ghost head = self@;
        self.pts.pop();
        let mut i: usize = 0;
        while i < pl.pts.len()
            invariant
                i <= pl@.len(),
                self@ =~= head.drop_last() + pl@.take(i as int),
            decreases pl@.len() - i,
        {
            self.pts.push(pl.pts[i]);
            proof {
                assert(pl@.take(i + 1) =~= pl@.take(i as int).push(pl@[i as int]));
            }
            i = i + 1;
        }
        proof {
            assert(pl@.take(i as int) =~= pl@);
        }
        if self.pts[0] == self.pts[self.pts.len() - 1] {
            return Err(());
        }
        Ok(())
    }

    /// The consecutive pairs of points.
    pub fn segments(&self) -> (r: Vec<(Pt, Pt)>)
        ensures
            r@ == segments_of(self@),
    {
        let mut r: Vec<(Pt, Pt)> = Vec::new();
        let n = self.pts.len();
        if n == 0 {
            proof {
                assert(r@ =~= segments_of(self@));
            }
            return r;
        }
        let mut i: usize = 0;
        while i + 1 < n
            invariant
                i < n == self@.len(),
                r@ =~= segments_of(self@).take(i as int),
            decreases n - i,
        {
            r.push((self.pts[i], self.pts[i + 1]));
            proof {
                assert(segments_of(self@).take(i + 1) =~= segments_of(self@).take(i as int).push(
                    (self@[i as int], self@[i + 1]),
                ));
            }
            i = i + 1;
        }
        proof {
            assert(segments_of(self@).take(i as int) =~= segments_of(self@));
        }
        r
    }

    /// Every unit grid point of the path, from its first point to its last.
    pub fn grid_step(&self) -> (r: Vec<Pt>)
        requires
            self@.len() > 0,
            all_ortholinear(self@),
        ensures
            r@ == expand(self@),
    {
        let n = self.pts.len();
        let mut r: Vec<Pt> = Vec::new();
        r.push(self.pts[0]);
        proof {
            assert(self@.take(1) =~= seq![self@[0]]);
            assert(r@ =~= expand(self@.take(1)));
        }
        let mut i: usize = 0;
        while i + 1 < n
            invariant
                i < n == self@.len(),
                all_ortholinear(self@),
                r@ == expand(self@.take(i + 1)),
            decreases n - i,
        {
            let s = SchematicCanvas::step_line(self.pts[i], self.pts[i + 1]);
            let ghost before = r@;
            let mut k: usize = 1;
            while k < s.len()
                invariant
                    1 <= k <= s@.len(),
                    s@.len() >= 1,
                    r@ =~= before + s@.subrange(1, k as int),
                decreases s@.len() - k,
            {
                r.push(s[k]);
                proof {
                    assert(s@.subrange(1, k + 1) =~= s@.subrange(1, k as int).push(s@[k as int]));
                }
                k = k + 1;
            }
            proof {
                let t = self@.take(i + 2);
                assert(t.drop_last() =~= self@.take(i + 1));
                assert(t[t.len() - 2] == self@[i as int]);
                assert(t[t.len() - 1] == self@[i + 1]);
                assert(s@.subrange(1, k as int) =~= s@.drop_first());
            }
            i = i + 1;
        }
        proof {
            assert(self@.take(i + 1) =~= self@);
        }
        r
    }

    /// The unit grid points after the first point, leaving out the last
    /// point wherever it occurs.
    pub fn grid_step_internal(&self) -> (r: Vec<Pt>)
        requires
            self@.len() > 0,
            all_ortholinear(self@),
        ensures
            r@ == without(expand(self@).drop_first(), self@.last()),
    {
        let last = self.pts[self.pts.len() - 1];
        let g = self.grid_step();
        let pred = |p: Pt| p != last;
        proof {
            assert(g@.len() >= 1) by {
                lemma_expand_len(self@);
            }
        }
        let mut r: Vec<Pt> = Vec::new();
        let mut k: usize = 1;
        proof {
            reveal(Seq::filter);
            assert(g@.subrange(1, 1) =~= Seq::<Pt>::empty());
        }
        while k < g.len()
            invariant
                1 <= k <= g@.len(),
                last == self@.last(),
                r@ == g@.subrange(1, k as int).filter(|p: Pt| p != last),
            decreases g@.len() - k,
        {
            let p = g[k];
            proof {
                assert(g@.subrange(1, k + 1) =~= g@.subrange(1, k as int).push(p));
                g@.subrange(1, k as int).lemma_filter_push(p, |p: Pt| p != last);
            }
            if p != last {
                r.push(p);
            }
            k = k + 1;
        }
        proof {
            assert(g@.subrange(1, k as int) =~= g@.drop_first());
            assert((|p: Pt| p != last) =~= (|p: Pt| p != self@.last()));
            assert(r@ == without(expand(self@).drop_first(), self@.last()));
        }
        r
    }

    /// The points of a chain of segments; fails when a segment does not
    /// start where the previous one ends.
    pub fn from_segments(s: Vec<(Pt, Pt)>) -> (r: Result<Polyline, ()>)
        ensures
            r is Ok <==> is_chain(s@),
            r matches Ok(pl) ==> pl@ == chain_points(s@),
    {
        let mut pts: Vec<Pt> = Vec::new();
        if s.len() == 0 {
            proof {
                assert(pts@ =~= chain_points(s@));
            }
            return Ok(Polyline { pts });
        }
        pts.push(s[0].0);
        let mut i: usize = 0;
        while i + 1 < s.len()
            invariant
                i < s@.len(),
                forall|j: int| 0 <= j < i ==> (#[trigger] s@[j]).1 == s@[j + 1].0,
                pts@ =~= seq![s@[0].0] + Seq::new(i as nat, |j: int| s@[j].1),
            decreases s@.len() - i,
        {
            if s[i].1 != s[i + 1].0 {
                return Err(());
            }
            pts.push(s[i].1);
            i = i + 1;
        }
        pts.push(s[s.len() - 1].1);
        Ok(Polyline { pts })
    }

    /// Splits the path at `pt`, where `pt` is one of its points or lies on
    /// one of its segments: the part before `pt` and the part after it.
    pub fn split_at(&self, pt: Pt) -> (r: Result<(Polyline, Polyline), ()>)
        ensures
            match split_spec(self@, pt) {
                Some((a, b)) => r matches Ok((x, y)) && x@ == a && y@ == b,
                None => r is Err,
            },
    {
        let n = self.pts.len();
        if n == 0 {
            return Err(());
        }
        let mut i: usize = 0;
        while i + 1 < n
            invariant
                i < n == self@.len(),
                forall|j: int| 0 <= j < i ==> !hits(self@, pt, j),
            decreases n - i,
        {
            let p1 = self.pts[i];
            let p2 = self.pts[i + 1];
            if p1 == pt {
                let mut a: Vec<Pt> = Vec::new();
                if i > 0 {
                    a = self.prefix(i + 1);
                }
                let b = self.suffix(i);
                proof {
                    assert(first_hit(self@, pt, i as int));
                    let c = choose|c: int| first_hit(self@, pt, c);
                    lemma_first_hit_unique(self@, pt, i as int, c);
                    if i == 0 {
                        assert(a@ =~= Seq::<Pt>::empty());
                    }
                }
                return Ok((Polyline { pts: a }, Polyline { pts: b }));
            }
            if let Some(_) = split_line_at((p1, p2), pt) {
                let mut a = self.prefix(i + 1);
                a.push(pt);
                let tail = self.suffix(i + 1);
                let mut b: Vec<Pt> = Vec::new();
                b.push(pt);
                let mut k: usize = 0;
                while k < tail.len()
                    invariant
                        k <= tail@.len(),
                        b@ =~= seq![pt] + tail@.take(k as int),
                    decreases tail@.len() - k,
                {
                    b.push(tail[k]);
                    proof {
                        assert(tail@.take(k + 1) =~= tail@.take(k as int).push(tail@[k as int]));
                    }
                    k = k + 1;
                }
                proof {
                    assert(tail@.take(k as int) =~= tail@);
                    assert(first_hit(self@, pt, i as int));
                    let c = choose|c: int| first_hit(self@, pt, c);
                    lemma_first_hit_unique(self@, pt, i as int, c);
                }
                return Ok((Polyline { pts: a }, Polyline { pts: b }));
            }
            i = i + 1;
        }
        if self.pts[n - 1] == pt {
            let a = if n >= 2 { self.prefix(n) } else { Vec::new() };
            proof {
                assert(self@.take(n as int) =~= self@);
                if n < 2 {
                    assert(a@ =~= Seq::<Pt>::empty());
                }
            }
            Ok((Polyline { pts: a }, Polyline { pts: Vec::new() }))
        } else {
            Err(())
        }
    }

    /// The first `k` points.
    fn prefix(&self, k: usize) -> (r: Vec<Pt>)
        requires
            k <= self@.len(),
        ensures
            r@ == self@.take(k as int),
    {
        let mut r: Vec<Pt> = Vec::new();
        let mut i: usize = 0;
        while i < k
            invariant
                i <= k <= self@.len(),
                r@ =~= self@.take(i as int),
            decreases k - i,
        {
            r.push(self.pts[i]);
            proof {
                assert(self@.take(i + 1) =~= self@.take(i as int).push(self@[i as int]));
            }
            i = i + 1;
        }
        r
    }

    /// The points from index `k` on.
    fn suffix(&self, k: usize) -> (r: Vec<Pt>)
        requires
            k <= self@.len(),
        ensures
            r@ == self@.skip(k as int),
    {
        let mut r: Vec<Pt> = Vec::new();
        let mut i: usize = k;
        while i < self.pts.len()
            invariant
                k <= i <= self@.len(),
                r@ =~= self@.subrange(k as int, i as int),
            decreases self@.len() - i,
        {
            r.push(self.pts[i]);
            proof {
                assert(self@.subrange(k as int, i + 1) =~= self@.subrange(k as int, i as int).push(
                    self@[i as int],
                ));
            }
            i = i + 1;
        }
        proof {
            assert(self@.subrange(k as int, i as int) =~= self@.skip(k as int));
        }
        r
    }

    /// The stored points, in order.
    pub fn points(&self) -> (r: &Vec<Pt>)
        ensures
            r@ == self@,
    {
        &self.pts
    }
}

/// The halves of a split of a path with ortholinear segments, when each
/// holds at least two points, run from the path's first point to `pt` and
/// from `pt` to its last point, over ortholinear segments.
pub proof fn lemma_split_pieces(pts: Seq<Pt>, pt: Pt)
    requires
        all_ortholinear(pts),
        split_spec(pts, pt) matches Some((a, b)) && a.len() >= 2 && b.len() >= 2,
    ensures
        ({
            let (a, b) = split_spec(pts, pt)->Some_0;
            &&& a[0] == pts[0]
            &&& a.last() == pt
            &&& b[0] == pt
            &&& b.last() == pts.last()
            &&& all_ortholinear(a)
            &&& all_ortholinear(b)
        }),
{
    let i = choose|i: int| first_hit(pts, pt, i);
    let (a, b) = split_spec(pts, pt)->Some_0;
    if pts[i] == pt {
        assert forall|j: int| 0 <= j < a.len() - 1 implies is_ortholinear(#[trigger] a[j], a[j + 1]) by {
            assert(a[j] == pts[j] && a[j + 1] == pts[j + 1]);
        }
        assert forall|j: int| 0 <= j < b.len() - 1 implies is_ortholinear(#[trigger] b[j], b[j + 1]) by {
            assert(b[j] == pts[i + j] && b[j + 1] == pts[i + j + 1]);
        }
    } else {
        assert forall|j: int| 0 <= j < a.len() - 1 implies is_ortholinear(#[trigger] a[j], a[j + 1]) by {
            if j < i {
                assert(a[j] == pts[j] && a[j + 1] == pts[j + 1]);
            }
        }
        assert forall|j: int| 0 <= j < b.len() - 1 implies is_ortholinear(#[trigger] b[j], b[j + 1]) by {
            if j > 0 {
                assert(b[j] == pts[i + j] && b[j + 1] == pts[i + j + 1]);
            }
        }
    }
}

/// A split at `pt`, where segment `i` is the first that `pt` hits, gives
/// two paths that meet at `pt` and, put end to end, give back the path:
/// as it was where `pt` starts segment `i`, and with `pt` added inside
/// segment `i` otherwise.
pub proof fn lemma_split_rejoins(pts: Seq<Pt>, pt: Pt, i: int)
    requires
        first_hit(pts, pt, i),
        i > 0 || pts[i] != pt,
    ensures
        ({
            let (a, b) = split_spec(pts, pt)->Some_0;
            &&& split_spec(pts, pt) is Some
            &&& a.len() >= 1 && b.len() >= 1
            &&& a.last() == pt
            &&& b[0] == pt
            &&& pts[i] == pt ==> a + b.drop_first() == pts
            &&& pts[i] != pt ==> a + b.drop_first() == pts.insert(i + 1, pt)
        }),
{
    let c = choose|c: int| first_hit(pts, pt, c);
    lemma_first_hit_unique(pts, pt, i, c);
    let (a, b) = split_spec(pts, pt)->Some_0;
    if pts[i] == pt {
        assert(a + b.drop_first() =~= pts);
    } else {
        assert(a + b.drop_first() =~= pts.insert(i + 1, pt));
    }
}

/// Joining a path that ends at a point with a path that starts there puts
/// the second after the first, the shared point once; so does joining
/// after either or both are turned around, as long as their other ends
/// differ.
pub proof fn lemma_joined_at_shared_end(a: Seq<Pt>, b: Seq<Pt>)
    requires
        a.len() >= 2,
        b.len() >= 2,
        a.last() == b[0],
        a[0] != b[0],
        a[0] != b.last(),
        a.last() != b.last(),
    ensures
        joined(a, b) == a.drop_last() + b,
        joined(a.reverse(), b) == a.drop_last() + b,
        joined(a, b.reverse()) == a.drop_last() + b,
        joined(a.reverse(), b.reverse()) == a.drop_last() + b,
{
    lemma_reverse_path_ends(a);
    lemma_reverse_path_ends(b);
    assert(a.reverse().reverse() =~= a);
    assert(b.reverse().reverse() =~= b);
}

/// Turning a path around swaps its ends.
pub proof fn lemma_reverse_path_ends(pts: Seq<Pt>)
    requires
        pts.len() >= 1,
    ensures
        pts.reverse().len() == pts.len(),
        pts.reverse()[0] == pts.last(),
        pts.reverse().last() == pts[0],
{
}

/// Two paths of ortholinear segments, the second starting where the first
/// ends, join into one.
pub proof fn lemma_join_ortholinear(a: Seq<Pt>, b: Seq<Pt>)
    requires
        a.len() >= 1,
        b.len() >= 1,
        a.last() == b[0],
        all_ortholinear(a),
        all_ortholinear(b),
    ensures
        all_ortholinear(a.drop_last() + b),
{
    let j = a.drop_last() + b;
    let n = a.len() - 1;
    assert forall|i: int| 0 <= i < j.len() - 1 implies is_ortholinear(#[trigger] j[i], j[i + 1]) by {
        if i < n - 1 {
            assert(j[i] == a[i] && j[i + 1] == a[i + 1]);
        } else if i == n - 1 {
            assert(j[i] == a[i] && j[i + 1] == b[0]);
        } else {
            assert(j[i] == b[i - n] && j[i + 1] == b[i - n + 1]);
        }
    }
}

/// Turning a path around keeps its segments ortholinear and swaps its ends.
pub proof fn lemma_reverse_path(pts: Seq<Pt>)
    requires
        pts.len() >= 1,
        all_ortholinear(pts),
    ensures
        all_ortholinear(pts.reverse()),
        pts.reverse().len() == pts.len(),
        pts.reverse()[0] == pts.last(),
        pts.reverse().last() == pts[0],
{
    let r = pts.reverse();
    let n = pts.len() as int;
    assert forall|j: int| 0 <= j < r.len() - 1 implies is_ortholinear(#[trigger] r[j], r[j + 1]) by {
        assert(r[j] == pts[n - 1 - j]);
        assert(r[j + 1] == pts[n - 2 - j]);
        assert(is_ortholinear(pts[n - 2 - j], pts[n - 1 - j]));
    }
}

/// Expanding two paths put end to end, the second starting where the first
/// ends, expands each in turn.
pub proof fn lemma_expand_append(a: Seq<Pt>, b: Seq<Pt>)
    requires
        a.len() >= 1,
        b.len() >= 1,
        a.last() == b[0],
    ensures
        expand(a.drop_last() + b) == expand(a) + expand(b).drop_first(),
    decreases b.len(),
{
    if b.len() == 1 {
        assert(a.drop_last() + b =~= a);
        assert(expand(b) == b);
        assert(expand(a) + expand(b).drop_first() =~= expand(a));
    } else {
        let c = a.drop_last() + b;
        let bd = b.drop_last();
        lemma_expand_append(a, bd);
        assert(c.drop_last() =~= a.drop_last() + bd);
        assert(c[c.len() - 2] == b[b.len() - 2]);
        assert(c[c.len() - 1] == b[b.len() - 1]);
        lemma_expand_len(bd);
        let tail = steps(b[b.len() - 2], b[b.len() - 1]).drop_first();
        assert(expand(b) == expand(bd) + tail);
        assert(expand(b).drop_first() =~= expand(bd).drop_first() + tail);
        assert(expand(c) =~= expand(a) + expand(b).drop_first());
    }
}

/// A path of ortholinear segments of two points or more expands to two
/// points or more.
pub proof fn lemma_expand_len2(pts: Seq<Pt>)
    requires
        pts.len() >= 2,
        all_ortholinear(pts),
    ensures
        expand(pts).len() >= 2,
    decreases pts.len(),
{
    lemma_expand_len(pts.drop_last());
    let p1 = pts[pts.len() - 2];
    let p2 = pts[pts.len() - 1];
    assert(is_ortholinear(p1, p2));
    assert(steps(p1, p2).len() >= 2);
}

/// A point that a path passes through starts or lies strictly inside one
/// of its segments, or is its last point.
pub proof fn lemma_expand_hit(pts: Seq<Pt>, pt: Pt)
    requires
        pts.len() >= 1,
        all_ortholinear(pts),
        expand(pts).contains(pt),
    ensures
        (exists|i: int| 0 <= i < pts.len() - 1 && hits(pts, pt, i)) || pt == pts.last(),
    decreases pts.len(),
{
    if pts.len() >= 2 {
        let d = pts.drop_last();
        let n = pts.len();
        let e = expand(d);
        let st = steps(pts[n - 2], pts[n - 1]);
        assert(expand(pts) == e + st.drop_first());
        let w = choose|w: int| 0 <= w < expand(pts).len() && expand(pts)[w] == pt;
        if w < e.len() {
            assert(e[w] == pt);
            assert(all_ortholinear(d));
            lemma_expand_hit(d, pt);
            if pt == d.last() {
                assert(hits(pts, pt, n - 2));
            } else {
                let i = choose|i: int| 0 <= i < d.len() - 1 && hits(d, pt, i);
                assert(hits(pts, pt, i));
            }
        } else {
            let k = w - e.len() + 1;
            assert(st[k] == pt);
            assert(is_ortholinear(pts[n - 2], pts[n - 1]));
            lemma_steps_end(pts[n - 2], pts[n - 1]);
            if k < chebyshev(pts[n - 2], pts[n - 1]) {
                lemma_step_inside(pts[n - 2], pts[n - 1], k);
                assert(hits(pts, pt, n - 2));
            }
        }
    } else {
        assert(expand(pts) == pts);
    }
}

/// Where some segment is hit, a first one is.
pub proof fn lemma_first_hit_exists(pts: Seq<Pt>, pt: Pt, i: int)
    requires
        0 <= i < pts.len() - 1,
        hits(pts, pt, i),
    ensures
        exists|j: int| first_hit(pts, pt, j),
    decreases i,
{
    if exists|j: int| 0 <= j < i && hits(pts, pt, j) {
        let j = choose|j: int| 0 <= j < i && hits(pts, pt, j);
        lemma_first_hit_exists(pts, pt, j);
    } else {
        assert(first_hit(pts, pt, i));
    }
}

/// Adding a point strictly inside a segment leaves the expansion as it is.
#[verifier::rlimit(50)]
pub proof fn lemma_expand_insert(pts: Seq<Pt>, i: int, pt: Pt)
    requires
        all_ortholinear(pts),
        0 <= i < pts.len() - 1,
        strictly_inside(pts[i], pts[i + 1], pt),
    ensures
        expand(pts.insert(i + 1, pt)) == expand(pts),
{
    let q1 = pts[i];
    let q2 = pts[i + 1];
    lemma_steps_split(q1, q2, pt);
    lemma_steps_end(q1, pt);
    let head = pts.take(i + 1);
    let rest = pts.skip(i + 1);
    let c = head.push(pt).push(q2);
    let t = pts.take(i + 2);
    lemma_expand_append(t, rest);
    assert(t.drop_last() + rest =~= pts);
    lemma_expand_append(c, rest);
    assert(c.drop_last() + rest =~= pts.insert(i + 1, pt));
    lemma_expand_two_steps(head, pt, q2);
    assert(t =~= head.push(q2));
    assert(head.push(q2).drop_last() =~= head);
    assert(head.last() == q1);
    assert(expand(t) == expand(head) + steps(q1, q2).drop_first());
    assert(steps(q1, pt).drop_first() + steps(pt, q2).drop_first() =~= steps(q1, q2).drop_first());
    assert(expand(c) =~= expand(t));
}

/// Expanding a path with two more points adds the steps of both segments.
pub proof fn lemma_expand_two_steps(head: Seq<Pt>, p: Pt, q: Pt)
    requires
        head.len() >= 1,
    ensures
        expand(head.push(p).push(q)) == expand(head) + steps(head.last(), p).drop_first() + steps(p, q).drop_first(),
{
    let c = head.push(p).push(q);
    let hp = head.push(p);
    assert(c.drop_last() =~= hp);
    assert(hp.drop_last() =~= head);
    assert(c[c.len() - 2] == p && c[c.len() - 1] == q);
    assert(hp[hp.len() - 2] == head.last() && hp[hp.len() - 1] == p);
    assert(expand(hp) == expand(head) + steps(head.last(), p).drop_first());
    assert(expand(c) == expand(hp) + steps(p, q).drop_first());
}

/// The halves of a split expand, put end to end, to the path's expansion.
pub proof fn lemma_split_expand(pts: Seq<Pt>, pt: Pt)
    requires
        all_ortholinear(pts),
        exists|i: int| first_hit(pts, pt, i),
        split_spec(pts, pt)->Some_0.0.len() >= 1,
    ensures
        ({
            let (a, b) = split_spec(pts, pt)->Some_0;
            expand(a) + expand(b).drop_first() == expand(pts)
        }),
{
    let i = choose|i: int| first_hit(pts, pt, i);
    let (a, b) = split_spec(pts, pt)->Some_0;
    if pts[i] == pt {
        assert(a.drop_last() + b =~= pts);
        lemma_expand_append(a, b);
    } else {
        assert(a.drop_last() + b =~= pts.insert(i + 1, pt));
        lemma_expand_append(a, b);
        lemma_expand_insert(pts, i, pt);
    }
}

/// Expanding a path walked backwards gives its expansion in reverse.
pub proof fn lemma_expand_reverse(pts: Seq<Pt>)
    requires
        pts.len() >= 1,
        all_ortholinear(pts),
    ensures
        expand(pts.reverse()) == expand(pts).reverse(),
    decreases pts.len(),
{
    let n = pts.len();
    if n == 1 {
        assert(pts.reverse() =~= pts);
        assert(expand(pts).reverse() =~= pts);
    } else {
        let d = pts.drop_last();
        let q1 = pts[n - 2];
        let q2 = pts[n - 1];
        assert(all_ortholinear(d));
        lemma_expand_reverse(d);
        let seg = seq![q2, q1];
        assert(seg.drop_last() + d.reverse() =~= pts.reverse());
        lemma_expand_append(seg, d.reverse());
        assert(seg.drop_last() =~= seq![q2]);
        assert(expand(seg) == expand(seq![q2]) + steps(q2, q1).drop_first()) by {
            assert(seg.drop_last() =~= seq![q2]);
        }
        assert(expand(seq![q2]) == seq![q2]);
        lemma_steps_reverse(q1, q2);
        lemma_steps_end(q1, q2);
        lemma_expand_len(d);
        let e = expand(d);
        let st = steps(q1, q2);
        assert(expand(seg) =~= st.reverse());
        assert(expand(pts) == e + st.drop_first());
        assert(e.last() == q1);
        assert(st[0] == q1);
        assert((e + st.drop_first()).reverse() =~= st.reverse() + e.reverse().drop_first());
    }
}

/// `s` with every occurrence of `x` left out.
pub open spec fn without(s: Seq<Pt>, x: Pt) -> Seq<Pt> {
    s.filter(|p: Pt| p != x)
}

/// The points of a sequence but its first and its last.
pub open spec fn inner(e: Seq<Pt>) -> Seq<Pt> {
    e.drop_first().drop_last()
}

/// The unit points strictly inside a path.
pub open spec fn interior(pts: Seq<Pt>) -> Seq<Pt> {
    inner(expand(pts))
}

/// The inner points of `ea + eb` with their shared point dropped are those
/// of `ea`, the shared point and those of `eb`.
pub proof fn lemma_inner_concat(ea: Seq<Pt>, eb: Seq<Pt>)
    requires
        ea.len() >= 2,
        eb.len() >= 2,
        ea.last() == eb[0],
    ensures
        forall|p: Pt| #[trigger] inner(ea + eb.drop_first()).contains(p) <==> (inner(ea).contains(p) || p == ea.last()
            || inner(eb).contains(p)),
{
    let e = ea + eb.drop_first();
    let m = ea.len();
    assert forall|p: Pt| #[trigger] inner(e).contains(p) <==> (inner(ea).contains(p) || p == ea.last() || inner(eb).contains(p)) by {
        if inner(e).contains(p) {
            let j = choose|j: int| 0 <= j < inner(e).len() && inner(e)[j] == p;
            if j + 1 < m - 1 {
                assert(inner(ea)[j] == p);
            } else if j + 1 == m - 1 {
            } else {
                assert(inner(eb)[j + 1 - m] == p);
            }
        }
        if inner(ea).contains(p) {
            let j = choose|j: int| 0 <= j < inner(ea).len() && inner(ea)[j] == p;
            assert(inner(e)[j] == p);
        }
        if p == ea.last() {
            assert(inner(e)[m - 2] == p);
        }
        if inner(eb).contains(p) {
            let j = choose|j: int| 0 <= j < inner(eb).len() && inner(eb)[j] == p;
            assert(inner(e)[j + m - 1] == p);
        }
    }
}

/// Cutting a sequence without repeats at a shared point gives two without
/// repeats, whose inner points are apart from each other and from the
/// shared point.
pub proof fn lemma_cut_no_duplicates(ea: Seq<Pt>, eb: Seq<Pt>)
    requires
        ea.len() >= 2,
        eb.len() >= 2,
        ea.last() == eb[0],
        (ea + eb.drop_first()).no_duplicates(),
    ensures
        ea.no_duplicates(),
        eb.no_duplicates(),
        !inner(ea).contains(ea.last()),
        !inner(eb).contains(ea.last()),
        forall|p: Pt| #[trigger] inner(ea).contains(p) ==> !inner(eb).contains(p),
{
    let e = ea + eb.drop_first();
    let m = ea.len();
    assert forall|i: int, j: int| 0 <= i < ea.len() && 0 <= j < ea.len() && i != j implies ea[i] != ea[j] by {
        assert(e[i] == ea[i] && e[j] == ea[j]);
    }
    assert forall|i: int, j: int| 0 <= i < eb.len() && 0 <= j < eb.len() && i != j implies eb[i] != eb[j] by {
        assert(e[i + m - 1] == eb[i] && e[j + m - 1] == eb[j]);
    }
    if inner(ea).contains(ea.last()) {
        let j = choose|j: int| 0 <= j < inner(ea).len() && inner(ea)[j] == ea.last();
        assert(ea[j + 1] == ea[m - 1]);
    }
    if inner(eb).contains(ea.last()) {
        let j = choose|j: int| 0 <= j < inner(eb).len() && inner(eb)[j] == ea.last();
        assert(eb[j + 1] == eb[0]);
    }
    assert forall|p: Pt| #[trigger] inner(ea).contains(p) implies !inner(eb).contains(p) by {
        if inner(ea).contains(p) && inner(eb).contains(p) {
            let i = choose|i: int| 0 <= i < inner(ea).len() && inner(ea)[i] == p;
            let j = choose|j: int| 0 <= j < inner(eb).len() && inner(eb)[j] == p;
            assert(e[i + 1] == p);
            assert(e[j + m] == p);
        }
    }
}

/// Joining two sequences without repeats at a shared point, when nothing
/// before the shared point in the first occurs in the second, gives a
/// sequence without repeats.
pub proof fn lemma_join_no_duplicates(ea: Seq<Pt>, eb: Seq<Pt>)
    requires
        ea.len() >= 1,
        eb.len() >= 1,
        ea.last() == eb[0],
        ea.no_duplicates(),
        eb.no_duplicates(),
        forall|p: Pt| #[trigger] ea.drop_last().contains(p) ==> !eb.contains(p),
    ensures
        (ea + eb.drop_first()).no_duplicates(),
{
    let e = ea + eb.drop_first();
    let m = ea.len();
    assert(e =~= ea.drop_last() + eb);
    assert forall|i: int, j: int| 0 <= i < e.len() && 0 <= j < e.len() && i != j implies e[i] != e[j] by {
        if i < m - 1 && j >= m - 1 {
            assert(ea.drop_last()[i] == e[i]);
            assert(eb[j - m + 1] == e[j]);
            assert(ea.drop_last().contains(e[i]));
            assert(eb.contains(e[j]));
        } else if j < m - 1 && i >= m - 1 {
            assert(ea.drop_last()[j] == e[j]);
            assert(eb[i - m + 1] == e[i]);
            assert(ea.drop_last().contains(e[j]));
            assert(eb.contains(e[i]));
        } else if i < m - 1 && j < m - 1 {
            assert(ea[i] == e[i] && ea[j] == e[j]);
        } else {
            assert(eb[i - m + 1] == e[i] && eb[j - m + 1] == e[j]);
        }
    }
}

/// A sequence of two points or more holds its first point, its inner
/// points and its last point, and nothing else.
pub proof fn lemma_seq_parts(e: Seq<Pt>)
    requires
        e.len() >= 2,
    ensures
        forall|p: Pt| #[trigger] e.contains(p) <==> (p == e[0] || inner(e).contains(p) || p == e.last()),
        forall|p: Pt| #[trigger] e.drop_last().contains(p) <==> (p == e[0] || inner(e).contains(p)),
        e.no_duplicates() ==> !inner(e).contains(e[0]) && !inner(e).contains(e.last()) && e[0] != e.last(),
{
    let n = e.len();
    assert forall|p: Pt| #[trigger] e.contains(p) <==> (p == e[0] || inner(e).contains(p) || p == e.last()) by {
        if e.contains(p) {
            let j = choose|j: int| 0 <= j < n && e[j] == p;
            if 0 < j < n - 1 {
                assert(inner(e)[j - 1] == p);
            }
        }
        if inner(e).contains(p) {
            let j = choose|j: int| 0 <= j < inner(e).len() && inner(e)[j] == p;
            assert(e[j + 1] == p);
        }
        if p == e.last() {
            assert(e[n - 1] == p);
        }
        if p == e[0] {
            assert(e[0] == p);
        }
    }
    assert forall|p: Pt| #[trigger] e.drop_last().contains(p) <==> (p == e[0] || inner(e).contains(p)) by {
        if e.drop_last().contains(p) {
            let j = choose|j: int| 0 <= j < n - 1 && e.drop_last()[j] == p;
            if 0 < j {
                assert(inner(e)[j - 1] == p);
            }
        }
        if inner(e).contains(p) {
            let j = choose|j: int| 0 <= j < inner(e).len() && inner(e)[j] == p;
            assert(e.drop_last()[j + 1] == p);
        }
        if p == e[0] {
            assert(e.drop_last()[0] == p);
        }
    }
    if e.no_duplicates() {
        if inner(e).contains(e[0]) {
            let j = choose|j: int| 0 <= j < inner(e).len() && inner(e)[j] == e[0];
            assert(e[j + 1] == e[0]);
        }
        if inner(e).contains(e.last()) {
            let j = choose|j: int| 0 <= j < inner(e).len() && inner(e)[j] == e.last();
            assert(e[j + 1] == e[n - 1]);
        }
    }
}

/// In a sequence without repeats, the points after the first that are not
/// the last are its inner points.
pub proof fn lemma_moved_inner(e: Seq<Pt>)
    requires
        e.len() >= 2,
        e.no_duplicates(),
    ensures
        forall|p: Pt| #[trigger] without(e.drop_first(), e.last()).contains(p) <==> inner(e).contains(p),
{
    let pred = |q: Pt| q != e.last();
    let f = e.drop_first().filter(pred);
    assert(f == without(e.drop_first(), e.last()));
    assert forall|p: Pt| #[trigger] without(e.drop_first(), e.last()).contains(p) <==> inner(e).contains(p) by {
        if f.contains(p) {
            let i = choose|i: int| 0 <= i < f.len() && f[i] == p;
            e.drop_first().lemma_filter_pred(pred, i);
            assert(e.drop_first().contains(p)) by {
                reveal(Seq::filter);
                lemma_filter_subset(e.drop_first(), pred, p);
            }
            let j = choose|j: int| 0 <= j < e.drop_first().len() && e.drop_first()[j] == p;
            assert(p != e.last());
            assert(j != e.len() - 2);
            assert(inner(e)[j] == p);
        }
        if inner(e).contains(p) {
            let j = choose|j: int| 0 <= j < inner(e).len() && inner(e)[j] == p;
            assert(e[j + 1] == p);
            assert(p != e.last());
            assert(e.drop_first()[j] == p);
            e.drop_first().lemma_filter_contains_rev(pred, p);
        }
    }
}

/// What a filter keeps, the sequence holds.
pub proof fn lemma_filter_subset(s: Seq<Pt>, pred: spec_fn(Pt) -> bool, p: Pt)
    ensures
        s.filter(pred).contains(p) ==> s.contains(p),
    decreases s.len(),
{
    reveal(Seq::filter);
    if s.len() > 0 {
        lemma_filter_subset(s.drop_last(), pred, p);
        if s.filter(pred).contains(p) {
            let sub = s.drop_last().filter(pred);
            if pred(s.last()) {
                crate::canvas::lemma_push_contains(sub, s.last(), p);
            }
            if sub.contains(p) {
                let j = choose|j: int| 0 <= j < s.drop_last().len() && s.drop_last()[j] == p;
                assert(s[j] == p);
            } else {
                assert(s[s.len() - 1] == p);
            }
        }
    }
}

/// A sequence without repeats read backwards has none, and has the same
/// inner points.
pub proof fn lemma_reverse_inner(e: Seq<Pt>)
    requires
        e.len() >= 2,
        e.no_duplicates(),
    ensures
        e.reverse().no_duplicates(),
        forall|p: Pt| #[trigger] inner(e.reverse()).contains(p) <==> inner(e).contains(p),
{
    let r = e.reverse();
    let n = e.len();
    assert forall|i: int, j: int| 0 <= i < n && 0 <= j < n && i != j implies r[i] != r[j] by {
        assert(r[i] == e[n - 1 - i] && r[j] == e[n - 1 - j]);
    }
    assert forall|p: Pt| #[trigger] inner(r).contains(p) <==> inner(e).contains(p) by {
        if inner(r).contains(p) {
            let j = choose|j: int| 0 <= j < inner(r).len() && inner(r)[j] == p;
            assert(r[j + 1] == e[n - 2 - j]);
            assert(inner(e)[n - 3 - j] == p);
        }
        if inner(e).contains(p) {
            let j = choose|j: int| 0 <= j < inner(e).len() && inner(e)[j] == p;
            assert(r[n - 2 - j] == e[j + 1]);
            assert(inner(r)[n - 3 - j] == p);
        }
    }
}

/// The max-metric length of a path of ortholinear segments is the number
/// of unit steps in its expansion.
pub proof fn lemma_total_length_expand(pts: Seq<Pt>)
    requires
        pts.len() >= 1,
        all_ortholinear(pts),
    ensures
        total_length(pts) == expand(pts).len() - 1,
    decreases pts.len(),
{
    if pts.len() >= 2 {
        assert(all_ortholinear(pts.drop_last()));
        lemma_total_length_expand(pts.drop_last());
    }
}

/// A path of at least one point expands to at least one point, starting
/// where the path starts and, when its segments are ortholinear, ending
/// where it ends.
pub proof fn lemma_expand_len(pts: Seq<Pt>)
    requires
        pts.len() > 0,
    ensures
        expand(pts).len() >= 1,
        expand(pts)[0] == pts[0],
        all_ortholinear(pts) ==> expand(pts).last() == pts.last(),
    decreases pts.len(),
{
    if pts.len() > 1 {
        assert(all_ortholinear(pts) ==> all_ortholinear(pts.drop_last()));
        lemma_expand_len(pts.drop_last());
        let p1 = pts[pts.len() - 2];
        let p2 = pts[pts.len() - 1];
        assert(steps(p1, p2)[0] == p1);
        crate::geometry::lemma_steps_end(p1, p2);
    }
}

} // verus!
