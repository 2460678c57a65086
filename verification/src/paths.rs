//! Path builder: convert polygons and classified ways into renderable
//! paths, and test which points a path fills.
//!
//! A polygon becomes one closed sub-path per ring; with the even-odd fill
//! rule, an interior ring carves a true hole out of the exterior, not just
//! an overlaid stroke.  A way becomes an open path alternating move-to (at
//! every sub-path break) and line-to.  A degenerate ring of fewer than
//! three points yields no sub-path at all rather than an error.

use vstd::prelude::*;

use crate::data::Geo;
use crate::data::Polygon;
use crate::data::Vertex;
use crate::data::WayClass;
use crate::data::WayForm;
use crate::data::WayPoint;

verus! {

/// One drawing operation of a renderable path.
#[derive(Clone, Copy, Debug, PartialEq, Eq, Structural)]
pub enum PathVerb {
    MoveTo(Vertex),
    LineTo(Vertex),
    Close,
}

/// A renderable path: a sequence of move/line/close operations, immutable
/// once built.
#[derive(Clone, Debug, PartialEq)]
pub struct RenderPath {
    pub verbs: Vec<PathVerb>,
}

/// The drawing operations of a way: a move-to at every sub-path break, a
/// line-to everywhere else, no closing segment.
pub open spec fn way_verbs(pts: Seq<WayPoint>) -> Seq<PathVerb> {
    Seq::new(
        pts.len(),
        |i: int|
            if pts[i].is_start {
                PathVerb::MoveTo(Vertex { x: pts[i].x, y: pts[i].y })
            } else {
                PathVerb::LineTo(Vertex { x: pts[i].x, y: pts[i].y })
            },
    )
}

/// The drawing operations of one polygon ring: a closed sub-path, or
/// nothing at all for a degenerate ring of fewer than three points.
pub open spec fn ring_verbs(ring: Seq<Vertex>) -> Seq<PathVerb> {
    if ring.len() < 3 {
        Seq::empty()
    } else {
        seq![PathVerb::MoveTo(ring[0])] + Seq::new(
            (ring.len() - 1) as nat,
            |i: int| PathVerb::LineTo(ring[i + 1]),
        ) + seq![PathVerb::Close]
    }
}

/// The drawing operations of the first `n` interior rings of a polygon.
pub open spec fn interiors_verbs_upto(interiors: Seq<Seq<Vertex>>, n: int) -> Seq<PathVerb>
    decreases n,
{
    if n <= 0 {
        Seq::empty()
    } else {
        interiors_verbs_upto(interiors, n - 1) + ring_verbs(interiors[n - 1])
    }
}

/// The drawing operations of a polygon: the exterior ring followed by every
/// interior ring, each as its own closed sub-path.
pub open spec fn polygon_verbs(poly: Polygon) -> Seq<PathVerb> {
    ring_verbs(poly.exterior@) + interiors_verbs_upto(
        poly.interiors@.map_values(|r: Vec<Vertex>| r@),
        poly.interiors@.len() as int,
    )
}

/// Convert a way's point list into an open renderable path.
pub fn path_from_ways(points: &Vec<WayPoint>) -> (r: RenderPath)
    ensures
        r.verbs@ == way_verbs(points@),
{
    let mut verbs: Vec<PathVerb> = Vec::new();
    let n = points.len();
    let mut i: usize = 0;
    while i < n
        invariant
            n == points@.len(),
            i <= n,
            verbs@ == way_verbs(points@).take(i as int),
        decreases n - i,
    {
        let wp = points[i];
        if wp.is_start {
            verbs.push(PathVerb::MoveTo(Vertex { x: wp.x, y: wp.y }));
        } else {
            verbs.push(PathVerb::LineTo(Vertex { x: wp.x, y: wp.y }));
        }
        proof {
            assert(verbs@ =~= way_verbs(points@).take(i + 1));
        }
        i += 1;
    }
    proof {
        assert(way_verbs(points@).take(n as int) =~= way_verbs(points@));
    }
    RenderPath { verbs }
}

/// Append the closed sub-path of one polygon ring to a verb list; a
/// degenerate ring appends nothing.
fn push_ring(verbs: &mut Vec<PathVerb>, ring: &Vec<Vertex>)
    ensures
        final(verbs)@ == old(verbs)@ + ring_verbs(ring@),
{
    let n = ring.len();
    if n < 3 {
        proof {
            assert(final(verbs)@ =~= old(verbs)@ + ring_verbs(ring@));
        }
        return ;
    }
    verbs.push(PathVerb::MoveTo(ring[0]));
    let mut i: usize = 1;
    while i < n
        invariant
            n == ring@.len(),
            3 <= n,
            1 <= i <= n,
            verbs@ == old(verbs)@ + seq![PathVerb::MoveTo(ring@[0])] + Seq::new(
                (i - 1) as nat,
                |j: int| PathVerb::LineTo(ring@[j + 1]),
            ),
        decreases n - i,
    {
        verbs.push(PathVerb::LineTo(ring[i]));
        proof {
            assert(verbs@ =~= old(verbs)@ + seq![PathVerb::MoveTo(ring@[0])] + Seq::new(
                i as nat,
                |j: int| PathVerb::LineTo(ring@[j + 1]),
            ));
        }
        i += 1;
    }
    verbs.push(PathVerb::Close);
    proof {
        assert(verbs@ =~= old(verbs)@ + ring_verbs(ring@));
    }
}

/// Convert one ring into a closed renderable path of its own.
pub fn build_path(ring: &Vec<Vertex>) -> (r: RenderPath)
    ensures
        r.verbs@ == ring_verbs(ring@),
{
    let mut verbs: Vec<PathVerb> = Vec::new();
    push_ring(&mut verbs, ring);
    proof {
        assert(verbs@ =~= ring_verbs(ring@));
    }
    RenderPath { verbs }
}

/// Convert a polygon into one renderable path: the exterior ring followed
/// by every interior ring as separate closed sub-paths, so that the
/// even-odd fill rule renders the holes as true gaps.
pub fn polygon_path(poly: &Polygon) -> (r: RenderPath)
    ensures
        r.verbs@ == polygon_verbs(*poly),
{
    let ghost vints = poly.interiors@.map_values(|r: Vec<Vertex>| r@);
    let mut verbs: Vec<PathVerb> = Vec::new();
    push_ring(&mut verbs, &poly.exterior);
    let n = poly.interiors.len();
    let mut i: usize = 0;
    while i < n
        invariant
            n == poly.interiors@.len(),
            vints == poly.interiors@.map_values(|r: Vec<Vertex>| r@),
            i <= n,
            verbs@ == ring_verbs(poly.exterior@) + interiors_verbs_upto(vints, i as int),
        decreases n - i,
    {
        push_ring(&mut verbs, &poly.interiors[i]);
        i += 1;
    }
    RenderPath { verbs }
}

/// The renderable paths of one polygon group.
#[derive(Clone, Debug, PartialEq)]
pub struct GeoWithPath {
    pub polys: Vec<RenderPath>,
}

/// A classified way ready for the rendering collaborator.
#[derive(Clone, Debug, PartialEq)]
pub struct WaySkia {
    pub class: WayClass,
    pub _form: WayForm,
    pub path: RenderPath,
}

/// Convert every polygon group into its renderable paths, holes included.
pub fn convert_paths(geo: &Vec<Geo>) -> (r: Vec<GeoWithPath>)
    ensures
        r@.len() == geo@.len(),
        forall|g: int|
            0 <= g < r@.len() ==> (#[trigger] r@[g]).polys@.len() == geo@[g].geo@.len(),
        forall|g: int, i: int|
            0 <= g < r@.len() && 0 <= i < r@[g].polys@.len() ==> (
            #[trigger] r@[g].polys@[i]).verbs@ == polygon_verbs(geo@[g].geo@[i]),
{
    let mut out: Vec<GeoWithPath> = Vec::new();
    let n = geo.len();
    let mut g: usize = 0;
    while g < n
        invariant
            n == geo@.len(),
            g <= n,
            out@.len() == g,
            forall|t: int|
                0 <= t < g ==> (#[trigger] out@[t]).polys@.len() == geo@[t].geo@.len(),
            forall|t: int, i: int|
                0 <= t < g && 0 <= i < out@[t].polys@.len() ==> (
                #[trigger] out@[t].polys@[i]).verbs@ == polygon_verbs(geo@[t].geo@[i]),
        decreases n - g,
    {
        let group = &geo[g];
        let m = group.geo.len();
        let mut polys: Vec<RenderPath> = Vec::new();
        let mut i: usize = 0;
        while i < m
            invariant
                m == group.geo@.len(),
                group == geo@[g as int],
                i <= m,
                polys@.len() == i,
                forall|t: int|
                    0 <= t < i ==> (#[trigger] polys@[t]).verbs@ == polygon_verbs(group.geo@[t]),
            decreases m - i,
        {
            let path = polygon_path(&group.geo[i]);
            polys.push(path);
            i += 1;
        }
        out.push(GeoWithPath { polys });
        g += 1;
    }
    out
}

/// Convert every boundary polyline into an open renderable path.
pub fn boundaries_to_paths(boundaries: &Vec<Vec<WayPoint>>) -> (r: Vec<RenderPath>)
    ensures
        r@.len() == boundaries@.len(),
        forall|i: int|
            0 <= i < r@.len() ==> (#[trigger] r@[i]).verbs@ == way_verbs(boundaries@[i]@),
{
    let mut out: Vec<RenderPath> = Vec::new();
    let n = boundaries.len();
    let mut i: usize = 0;
    while i < n
        invariant
            n == boundaries@.len(),
            i <= n,
            out@.len() == i,
            forall|t: int|
                0 <= t < i ==> (#[trigger] out@[t]).verbs@ == way_verbs(boundaries@[t]@),
        decreases n - i,
    {
        let p = path_from_ways(&boundaries[i]);
        out.push(p);
        i += 1;
    }
    out
}

/// Convert classified ways into renderable paths, keeping class and form.
pub fn ways_to_skia(ways: &Vec<crate::data::Way>) -> (r: Vec<WaySkia>)
    ensures
        r@.len() == ways@.len(),
        forall|i: int|
            0 <= i < r@.len() ==> {
                &&& (#[trigger] r@[i]).class == ways@[i].class
                &&& r@[i]._form == ways@[i].form
                &&& r@[i].path.verbs@ == way_verbs(ways@[i].way_points@)
            },
{
    let mut out: Vec<WaySkia> = Vec::new();
    let n = ways.len();
    let mut i: usize = 0;
    while i < n
        invariant
            n == ways@.len(),
            i <= n,
            out@.len() == i,
            forall|t: int|
                0 <= t < i ==> {
                    &&& (#[trigger] out@[t]).class == ways@[t].class
                    &&& out@[t]._form == ways@[t].form
                    &&& out@[t].path.verbs@ == way_verbs(ways@[t].way_points@)
                },
        decreases n - i,
    {
        let w = &ways[i];
        let path = path_from_ways(&w.way_points);
        out.push(WaySkia { class: w.class, _form: w.form, path });
        i += 1;
    }
    out
}

/// Every vertex a verb list draws is within the coordinate bound.
pub open spec fn verbs_wf(verbs: Seq<PathVerb>) -> bool {
    forall|i: int|
        0 <= i < verbs.len() ==> match #[trigger] verbs[i] {
            PathVerb::MoveTo(v) => v.wf(),
            PathVerb::LineTo(v) => v.wf(),
            PathVerb::Close => true,
        }
}

/// Whether the horizontal ray from `p` toward positive x crosses the edge
/// from `a` to `b`: the edge spans `p`'s height and the intersection lies
/// strictly right of `p`, compared exactly on cross products.
pub open spec fn edge_crosses(a: Vertex, b: Vertex, p: Vertex) -> bool {
    if (a.y > p.y) == (b.y > p.y) {
        false
    } else if b.y > a.y {
        (p.x - a.x) * (b.y - a.y) < (p.y - a.y) * (b.x - a.x)
    } else {
        (p.x - a.x) * (b.y - a.y) > (p.y - a.y) * (b.x - a.x)
    }
}

/// The far endpoint of edge `i` of a closed ring, wrapping at the end.
pub open spec fn ring_edge_end(ring: Seq<Vertex>, i: int) -> Vertex {
    if i + 1 < ring.len() {
        ring[i + 1]
    } else {
        ring[0]
    }
}

/// How many of the first `n` edges of the closed ring the ray from `p`
/// crosses.
pub open spec fn ring_crossings_upto(ring: Seq<Vertex>, p: Vertex, n: int) -> nat
    decreases n,
{
    if n <= 0 {
        0
    } else {
        ring_crossings_upto(ring, p, n - 1) + (if edge_crosses(
            ring[n - 1],
            ring_edge_end(ring, n - 1),
            p,
        ) {
            1nat
        } else {
            0nat
        })
    }
}

/// How many edges of the closed ring the ray from `p` crosses.
pub open spec fn ring_crossings(ring: Seq<Vertex>, p: Vertex) -> nat {
    ring_crossings_upto(ring, p, ring.len() as int)
}

/// A point lies inside a ring when the ray from it crosses the ring's
/// edges an odd number of times.
pub open spec fn ring_contains(ring: Seq<Vertex>, p: Vertex) -> bool {
    ring_crossings(ring, p) % 2 == 1
}

/// The closed sub-paths a verb sequence draws, starting with the pen on
/// the sub-path `cur`; a trailing open sub-path counts as implicitly
/// closed, as the fill rule treats it.
pub open spec fn rings_from(verbs: Seq<PathVerb>, cur: Seq<Vertex>) -> Seq<Seq<Vertex>>
    decreases verbs.len(),
{
    if verbs.len() == 0 {
        if cur.len() == 0 {
            Seq::empty()
        } else {
            seq![cur]
        }
    } else {
        match verbs[0] {
            PathVerb::MoveTo(v) => if cur.len() == 0 {
                rings_from(verbs.drop_first(), seq![v])
            } else {
                seq![cur] + rings_from(verbs.drop_first(), seq![v])
            },
            PathVerb::LineTo(v) => rings_from(verbs.drop_first(), cur.push(v)),
            PathVerb::Close => if cur.len() == 0 {
                rings_from(verbs.drop_first(), Seq::empty())
            } else {
                seq![cur] + rings_from(verbs.drop_first(), Seq::empty())
            },
        }
    }
}

/// The closed sub-paths of a renderable path.
pub open spec fn path_rings(path: RenderPath) -> Seq<Seq<Vertex>> {
    rings_from(path.verbs@, Seq::empty())
}

/// Total ray crossings of `p` against a list of rings.
pub open spec fn rings_crossings(rings: Seq<Seq<Vertex>>, p: Vertex) -> nat
    decreases rings.len(),
{
    if rings.len() == 0 {
        0
    } else {
        ring_crossings(rings[0], p) + rings_crossings(rings.drop_first(), p)
    }
}

/// Even-odd fill: a point is filled when the ray from it crosses the
/// path's sub-paths an odd number of times in total.
pub open spec fn filled_spec(path: RenderPath, p: Vertex) -> bool {
    rings_crossings(path_rings(path), p) % 2 == 1
}

/// Crossings of a ring list decompose over its head.
proof fn lemma_rings_crossings_cons(r0: Seq<Vertex>, rest: Seq<Seq<Vertex>>, p: Vertex)
    ensures
        rings_crossings(seq![r0] + rest, p) == ring_crossings(r0, p) + rings_crossings(rest, p),
{
    assert((seq![r0] + rest)[0] == r0);
    assert((seq![r0] + rest).drop_first() =~= rest);
}

/// A ring is crossed at most once per edge.
proof fn lemma_ring_crossings_bound(ring: Seq<Vertex>, p: Vertex, n: int)
    requires
        0 <= n,
    ensures
        ring_crossings_upto(ring, p, n) <= n,
    decreases n,
{
    if n > 0 {
        lemma_ring_crossings_bound(ring, p, n - 1);
    }
}

/// Whether the ray from `p` crosses the edge from `a` to `b`, computed
/// exactly.
fn edge_crosses_exec(a: Vertex, b: Vertex, p: Vertex) -> (r: bool)
    requires
        a.wf(),
        b.wf(),
        p.wf(),
    ensures
        r == edge_crosses(a, b, p),
{
    if (a.y > p.y) == (b.y > p.y) {
        return false;
    }
    let dx1: i128 = (p.x as i128) - (a.x as i128);
    let dy1: i128 = (b.y as i128) - (a.y as i128);
    let dy2: i128 = (p.y as i128) - (a.y as i128);
    let dx2: i128 = (b.x as i128) - (a.x as i128);
    proof {
        crate::simplify::lemma_mul_bound(dx1 as int, dy1 as int, 2_000_000, 2_000_000);
        crate::simplify::lemma_mul_bound(dy2 as int, dx2 as int, 2_000_000, 2_000_000);
    }
    let lx: i128 = dx1 * dy1;
    let rx: i128 = dy2 * dx2;
    if b.y > a.y {
        lx < rx
    } else {
        lx > rx
    }
}

/// Count the ray crossings of `p` against one closed ring.
fn ring_crossings_exec(ring: &Vec<Vertex>, p: Vertex) -> (c: u64)
    requires
        crate::simplify::line_wf(ring@),
        p.wf(),
    ensures
        c as nat == ring_crossings(ring@, p),
        c as int <= ring@.len(),
{
    let n = ring.len();
    let mut c: u64 = 0;
    let mut i: usize = 0;
    while i < n
        invariant
            n == ring@.len(),
            crate::simplify::line_wf(ring@),
            p.wf(),
            i <= n,
            c as nat == ring_crossings_upto(ring@, p, i as int),
            c as int <= i,
        decreases n - i,
    {
        let a = ring[i];
        let b = if i + 1 < n {
            ring[i + 1]
        } else {
            ring[0]
        };
        if edge_crosses_exec(a, b, p) {
            c = c + 1;
        }
        i += 1;
    }
    c
}

/// Even-odd point-in-path test: whether the built path fills the point.
pub fn filled(path: &RenderPath, p: Vertex) -> (r: bool)
    requires
        verbs_wf(path.verbs@),
        p.wf(),
    ensures
        r == filled_spec(*path, p),
{
    let n = path.verbs.len();
    let mut cur: Vec<Vertex> = Vec::new();
    let mut acc: u64 = 0;
    let mut i: usize = 0;
    proof {
        assert(path.verbs@.skip(0) =~= path.verbs@);
    }
    while i < n
        invariant
            n == path.verbs@.len(),
            verbs_wf(path.verbs@),
            p.wf(),
            i <= n,
            crate::simplify::line_wf(cur@),
            acc as int + cur@.len() <= i,
            rings_crossings(path_rings(*path), p) == acc as nat + rings_crossings(
                rings_from(path.verbs@.skip(i as int), cur@),
                p,
            ),
        decreases n - i,
    {
        let verb = path.verbs[i];
        proof {
            assert(path.verbs@.skip(i as int)[0] == path.verbs@[i as int]);
            assert(path.verbs@.skip(i as int).drop_first() =~= path.verbs@.skip(i + 1));
        }
        match verb {
            PathVerb::MoveTo(v) => {
                if cur.len() > 0 {
                    let c = ring_crossings_exec(&cur, p);
                    proof {
                        lemma_ring_crossings_bound(cur@, p, cur@.len() as int);
                        lemma_rings_crossings_cons(
                            cur@,
                            rings_from(path.verbs@.skip(i + 1), seq![v]),
                            p,
                        );
                    }
                    acc = acc + c;
                }
                cur = Vec::new();
                cur.push(v);
            },
            PathVerb::LineTo(v) => {
                cur.push(v);
            },
            PathVerb::Close => {
                if cur.len() > 0 {
                    let c = ring_crossings_exec(&cur, p);
                    proof {
                        lemma_ring_crossings_bound(cur@, p, cur@.len() as int);
                        lemma_rings_crossings_cons(
                            cur@,
                            rings_from(path.verbs@.skip(i + 1), Seq::empty()),
                            p,
                        );
                    }
                    acc = acc + c;
                }
                cur = Vec::new();
            },
        }
        i += 1;
    }
    proof {
        assert(path.verbs@.skip(n as int) =~= Seq::<PathVerb>::empty());
    }
    if cur.len() > 0 {
        let c = ring_crossings_exec(&cur, p);
        proof {
            lemma_rings_crossings_cons(cur@, Seq::empty(), p);
            assert(seq![cur@] + Seq::<Seq<Vertex>>::empty() =~= seq![cur@]);
        }
        acc = acc + c;
    }
    acc % 2 == 1
}

/// The pending line-to verbs of ring `r` from vertex `j` on.
spec fn line_run(r: Seq<Vertex>, j: int) -> Seq<PathVerb> {
    Seq::new((r.len() - j) as nat, |i: int| PathVerb::LineTo(r[j + i]))
}

/// Drawing the rest of a ring and closing it emits exactly that ring.
proof fn lemma_line_run(r: Seq<Vertex>, j: int, rest: Seq<PathVerb>)
    requires
        3 <= r.len(),
        1 <= j <= r.len(),
    ensures
        rings_from(line_run(r, j) + seq![PathVerb::Close] + rest, r.take(j)) == seq![r]
            + rings_from(rest, Seq::empty()),
    decreases r.len() - j,
{
    let verbs = line_run(r, j) + seq![PathVerb::Close] + rest;
    if j == r.len() {
        assert(verbs[0] == PathVerb::Close);
        assert(r.take(j) =~= r);
        assert(verbs.drop_first() =~= rest);
    } else {
        assert(verbs[0] == PathVerb::LineTo(r[j]));
        assert(verbs.drop_first() =~= line_run(r, j + 1) + seq![PathVerb::Close] + rest);
        assert(r.take(j).push(r[j]) =~= r.take(j + 1));
        lemma_line_run(r, j + 1, rest);
    }
}

/// Drawing one non-degenerate ring followed by anything else emits that
/// ring and then whatever the rest draws.
proof fn lemma_ring_verbs_rings(r: Seq<Vertex>, rest: Seq<PathVerb>)
    requires
        3 <= r.len(),
    ensures
        rings_from(ring_verbs(r) + rest, Seq::empty()) == seq![r] + rings_from(rest, Seq::empty()),
{
    let verbs = ring_verbs(r) + rest;
    assert(verbs[0] == PathVerb::MoveTo(r[0]));
    assert(verbs.drop_first() =~= line_run(r, 1) + seq![PathVerb::Close] + rest);
    assert(seq![r[0]] =~= r.take(1));
    lemma_line_run(r, 1, rest);
}

/// The sub-paths of a path built from a polygon with one non-degenerate
/// hole are exactly the exterior ring and the hole.
proof fn lemma_one_hole_rings(poly: Polygon)
    requires
        3 <= poly.exterior@.len(),
        poly.interiors@.len() == 1,
        3 <= poly.interiors@[0]@.len(),
    ensures
        rings_from(polygon_verbs(poly), Seq::empty()) == seq![
            poly.exterior@,
            poly.interiors@[0]@,
        ],
{
    let ext = poly.exterior@;
    let hole = poly.interiors@[0]@;
    let vints = poly.interiors@.map_values(|r: Vec<Vertex>| r@);
    assert(vints[0] == hole);
    assert(interiors_verbs_upto(vints, 0) =~= Seq::<PathVerb>::empty());
    assert(interiors_verbs_upto(vints, 1) == interiors_verbs_upto(vints, 0) + ring_verbs(
        vints[0],
    ));
    assert(interiors_verbs_upto(vints, 1) =~= ring_verbs(hole));
    assert(polygon_verbs(poly) =~= ring_verbs(ext) + ring_verbs(hole));
    lemma_ring_verbs_rings(ext, ring_verbs(hole));
    lemma_ring_verbs_rings(hole, Seq::empty());
    assert(ring_verbs(hole) + Seq::<PathVerb>::empty() =~= ring_verbs(hole));
    assert(rings_from(Seq::empty(), Seq::empty()) =~= Seq::<Seq<Vertex>>::empty());
    assert(seq![ext] + (seq![hole] + Seq::<Seq<Vertex>>::empty()) =~= seq![ext, hole]);
}

/// Law: a path built from a polygon with one hole fills a point exactly
/// when the point lies inside one of the two rings but not both.  In
/// particular the hole's interior, which lies inside both rings, is never
/// filled: the hole renders as a true gap.
pub proof fn lemma_polygon_one_hole_fill(path: RenderPath, poly: Polygon, p: Vertex)
    requires
        path.verbs@ == polygon_verbs(poly),
        3 <= poly.exterior@.len(),
        poly.interiors@.len() == 1,
        3 <= poly.interiors@[0]@.len(),
    ensures
        filled_spec(path, p) == (ring_contains(poly.exterior@, p) != ring_contains(
            poly.interiors@[0]@,
            p,
        )),
{
    let ext = poly.exterior@;
    let hole = poly.interiors@[0]@;
    lemma_one_hole_rings(poly);
    lemma_rings_crossings_cons(hole, Seq::empty(), p);
    assert(seq![hole] + Seq::<Seq<Vertex>>::empty() =~= seq![hole]);
    lemma_rings_crossings_cons(ext, seq![hole], p);
    assert(seq![ext] + seq![hole] =~= seq![ext, hole]);
    let a = ring_crossings(ext, p) as int;
    let b = ring_crossings(hole, p) as int;
    assert(rings_crossings(path_rings(path), p) == a + b);
    vstd::arithmetic::div_mod::lemma_add_mod_noop(a, b, 2);
    vstd::arithmetic::div_mod::lemma_mod_bound(a, 2);
    vstd::arithmetic::div_mod::lemma_mod_bound(b, 2);
}

/// Law: a point in the interior of the single hole of a polygon — inside
/// the hole ring and inside the exterior ring — is not filled by the built
/// path.
pub proof fn lemma_hole_excluded(path: RenderPath, poly: Polygon, p: Vertex)
    requires
        path.verbs@ == polygon_verbs(poly),
        3 <= poly.exterior@.len(),
        poly.interiors@.len() == 1,
        3 <= poly.interiors@[0]@.len(),
        ring_contains(poly.exterior@, p),
        ring_contains(poly.interiors@[0]@, p),
    ensures
        !filled_spec(path, p),
{
    lemma_polygon_one_hole_fill(path, poly, p);
}

} // verus!
