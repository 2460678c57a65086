//! Segment grapher: reconstruct maximal connected paths from an unordered
//! bag of line segments that the source data split arbitrarily.
//!
//! The graph's nodes are distinct coordinates and its edges connect
//! consecutive points of each original segment, except where the destination
//! point starts a new sub-path (a deliberate pen-up break).  A depth-first
//! traversal then re-emits one path per connected component; paths with
//! fewer than two points are discarded.
//!
//! The graph itself is a `petgraph` undirected graph map whose node
//! identifiers are coordinate pairs packed into a single integer key.

use vstd::prelude::*;

use crate::data::COORD_LIMIT;
use crate::data::MultiLineString;
use crate::data::Vertex;
use crate::data::WayPoint;
use crate::data::coord_ok;

verus! {

use petgraph::graphmap::UnGraphMap;

/// Width of one packed coordinate band: every shifted coordinate lies below
/// this, so a pair packs injectively into `x_shifted * KEY_SPAN + y_shifted`.
pub const KEY_SPAN: u64 = 2_000_001;

/// Exclusive upper bound of any packed node key.
pub const KEY_LIMIT: u64 = 2_000_001 * 2_000_001;

/// The packed graph key of a coordinate pair.
pub open spec fn key_of(x: int, y: int) -> int {
    (x + COORD_LIMIT) * (KEY_SPAN as int) + (y + COORD_LIMIT)
}

/// The packed graph key of a vertex.
pub open spec fn vertex_key(v: Vertex) -> u64 {
    key_of(v.x as int, v.y as int) as u64
}

/// The packed graph key of a way point.
pub open spec fn waypoint_key(p: WayPoint) -> u64 {
    key_of(p.x as int, p.y as int) as u64
}

/// A bounded coordinate pair packs below `KEY_LIMIT`.
proof fn lemma_key_bound(x: int, y: int)
    requires
        coord_ok(x, y),
    ensures
        0 <= key_of(x, y) < KEY_LIMIT as int,
{
    assert(0 <= (x + COORD_LIMIT) * (KEY_SPAN as int) <= 2_000_000 * (KEY_SPAN as int))
        by (nonlinear_arith)
        requires
            0 <= x + COORD_LIMIT <= 2_000_000,
    ;
}

/// Packing is injective on bounded coordinates.
proof fn lemma_key_injective(x1: int, y1: int, x2: int, y2: int)
    requires
        coord_ok(x1, y1),
        coord_ok(x2, y2),
        key_of(x1, y1) == key_of(x2, y2),
    ensures
        x1 == x2,
        y1 == y2,
{
    let s = KEY_SPAN as int;
    vstd::arithmetic::div_mod::lemma_fundamental_div_mod_converse(
        key_of(x1, y1),
        s,
        x1 + COORD_LIMIT,
        y1 + COORD_LIMIT,
    );
    vstd::arithmetic::div_mod::lemma_fundamental_div_mod_converse(
        key_of(x2, y2),
        s,
        x2 + COORD_LIMIT,
        y2 + COORD_LIMIT,
    );
}

/// Pack a bounded coordinate pair into a graph key.
fn pack_key(x: i64, y: i64) -> (k: u64)
    requires
        coord_ok(x as int, y as int),
    ensures
        k as int == key_of(x as int, y as int),
        k < KEY_LIMIT,
{
    proof {
        lemma_key_bound(x as int, y as int);
    }
    let xs: u64 = (x + COORD_LIMIT) as u64;
    let ys: u64 = (y + COORD_LIMIT) as u64;
    proof {
        assert(xs * KEY_SPAN <= 2_000_000 * KEY_SPAN) by (nonlinear_arith)
            requires
                xs <= 2_000_000,
        ;
    }
    xs * KEY_SPAN + ys
}

/// Recover the coordinate pair of a packed graph key.
fn unpack_key(k: u64) -> (v: Vertex)
    requires
        k < KEY_LIMIT,
    ensures
        v.wf(),
        vertex_key(v) == k,
{
    let q: u64 = k / KEY_SPAN;
    let r: u64 = k % KEY_SPAN;
    proof {
        vstd::arithmetic::div_mod::lemma_fundamental_div_mod(k as int, KEY_SPAN as int);
        assert(q < KEY_SPAN) by (nonlinear_arith)
            requires
                (q as int) * (KEY_SPAN as int) + (r as int) == k as int,
                0 <= r,
                (k as int) < (KEY_LIMIT as int),
                KEY_LIMIT as int == (KEY_SPAN as int) * (KEY_SPAN as int),
                KEY_SPAN > 0,
        ;
    }
    let v = Vertex { x: (q as i64) - COORD_LIMIT, y: (r as i64) - COORD_LIMIT };
    proof {
        lemma_key_bound(v.x as int, v.y as int);
    }
    v
}

/// What nodes a segment graph holds, named for `petgraph`'s `GraphMap`.
pub uninterp spec fn graph_nodes(g: UnGraphMap<u64, ()>) -> Set<u64>;

/// What undirected adjacencies a segment graph holds, with both
/// orientations of every edge, named for `petgraph`'s `GraphMap`.
pub uninterp spec fn graph_adj(g: UnGraphMap<u64, ()>) -> Set<(u64, u64)>;

/// Declares petgraph's `Undirected` edge-type marker for use in the graph
/// type below.
#[verifier::external_type_specification]
#[verifier::external_body]
pub struct ExUndirected(petgraph::Undirected);

/// Declares petgraph's `GraphMap`, the segment graph's container.  Its
/// contents are reached only through [`graph_nodes`] and [`graph_adj`].
#[verifier::external_type_specification]
#[verifier::external_body]
#[verifier::reject_recursive_types(N)]
#[verifier::reject_recursive_types(E)]
#[verifier::reject_recursive_types(Ty)]
#[verifier::reject_recursive_types(S)]
pub struct ExGraphMap<N, E, Ty, S>(petgraph::graphmap::GraphMap<N, E, Ty, S>) where
    S: std::hash::BuildHasher;

/// Relies on petgraph's `GraphMap::default`: a new graph has no nodes and
/// no edges.
#[verifier::external_body]
fn graph_new() -> (g: UnGraphMap<u64, ()>)
    ensures
        graph_nodes(g) == Set::<u64>::empty(),
        graph_adj(g) == Set::<(u64, u64)>::empty(),
{
    UnGraphMap::new()
}

/// Relies on petgraph's `GraphMap::add_node`: the node joins the node set
/// and the edges stay as they were.
#[verifier::external_body]
fn graph_add_node(g: &mut UnGraphMap<u64, ()>, n: u64)
    ensures
        graph_nodes(*final(g)) == graph_nodes(*old(g)).insert(n),
        graph_adj(*final(g)) == graph_adj(*old(g)),
{
    g.add_node(n);
}

/// Relies on petgraph's `GraphMap::add_edge`: both endpoints join the node
/// set and the undirected edge joins the adjacency in both orientations.
#[verifier::external_body]
fn graph_add_edge(g: &mut UnGraphMap<u64, ()>, a: u64, b: u64)
    ensures
        graph_nodes(*final(g)) == graph_nodes(*old(g)).insert(a).insert(b),
        graph_adj(*final(g)) == graph_adj(*old(g)).insert((a, b)).insert((b, a)),
{
    g.add_edge(a, b, ());
}

/// Relies on petgraph's `GraphMap::nodes`: the iterator yields every node
/// exactly once.
#[verifier::external_body]
fn graph_node_list(g: &UnGraphMap<u64, ()>) -> (v: Vec<u64>)
    ensures
        v@.no_duplicates(),
        forall|n: u64| #[trigger] v@.contains(n) <==> graph_nodes(*g).contains(n),
{
    g.nodes().collect()
}

/// Relies on petgraph's `GraphMap::neighbors`: the iterator yields exactly
/// the nodes sharing an edge with `a`, each once, and nothing for a node
/// that is not in the graph.
#[verifier::external_body]
fn graph_neighbor_list(g: &UnGraphMap<u64, ()>, a: u64) -> (v: Vec<u64>)
    ensures
        v@.no_duplicates(),
        forall|m: u64| #[trigger] v@.contains(m) <==> graph_adj(*g).contains((a, m)),
{
    g.neighbors(a).collect()
}

/// Every point of a sequence is within the coordinate bound.
pub open spec fn points_wf(pts: Seq<WayPoint>) -> bool {
    forall|i: int| 0 <= i < pts.len() ==> coord_ok((#[trigger] pts[i]).x as int, pts[i].y as int)
}

/// The keys of the first `n` points of a sequence.
pub open spec fn keys_upto(pts: Seq<WayPoint>, n: int) -> Set<u64> {
    Set::new(|k: u64| exists|i: int| 0 <= i < n && i < pts.len() && k == waypoint_key(pts[i]))
}

/// The node set of the segment graph of a point sequence: the key of every
/// point, provided at least one consecutive pair exists.
pub open spec fn node_set(pts: Seq<WayPoint>) -> Set<u64> {
    if pts.len() < 2 {
        Set::empty()
    } else {
        keys_upto(pts, pts.len() as int)
    }
}

/// Whether `e` is an orientation of the segment between points `i` and
/// `i + 1`, which is an edge exactly when the destination does not start a
/// new sub-path.
pub open spec fn edge_at(pts: Seq<WayPoint>, i: int, e: (u64, u64)) -> bool {
    &&& 0 <= i < pts.len() - 1
    &&& !pts[i + 1].is_start
    &&& (e == (waypoint_key(pts[i]), waypoint_key(pts[i + 1])) || e == (
        waypoint_key(pts[i + 1]),
        waypoint_key(pts[i]),
    ))
}

/// The edges among the first `m` consecutive pairs of a point sequence.
pub open spec fn edges_upto(pts: Seq<WayPoint>, m: int) -> Set<(u64, u64)> {
    Set::new(|e: (u64, u64)| exists|i: int| i < m && edge_at(pts, i, e))
}

/// The adjacency set of the segment graph of a point sequence, holding both
/// orientations of every edge.
pub open spec fn edge_set(pts: Seq<WayPoint>) -> Set<(u64, u64)> {
    edges_upto(pts, pts.len() - 1)
}

/// Build the segment graph of a concatenated way: one node per distinct
/// coordinate, one edge per consecutive pair whose destination does not
/// start a new sub-path.
pub fn build_graph(waypoints: &Vec<WayPoint>) -> (g: UnGraphMap<u64, ()>)
    requires
        points_wf(waypoints@),
    ensures
        graph_nodes(g) == node_set(waypoints@),
        graph_adj(g) == edge_set(waypoints@),
{
    let mut g = graph_new();
    let n = waypoints.len();
    if n < 2 {
        proof {
            assert(graph_nodes(g) =~= node_set(waypoints@));
            assert(graph_adj(g) =~= edge_set(waypoints@));
        }
        return g;
    }
    let mut i: usize = 0;
    proof {
        assert(graph_nodes(g) =~= keys_upto(waypoints@, 0));
        assert(graph_adj(g) =~= edges_upto(waypoints@, 0));
    }
    while i < n - 1
        invariant
            n == waypoints@.len(),
            2 <= n,
            i <= n - 1,
            points_wf(waypoints@),
            graph_nodes(g) == keys_upto(waypoints@, if i == 0 { 0int } else { i + 1 }),
            graph_adj(g) == edges_upto(waypoints@, i as int),
        decreases n - 1 - i,
    {
        let wp1 = waypoints[i];
        let wp2 = waypoints[i + 1];
        let k1 = pack_key(wp1.x, wp1.y);
        let k2 = pack_key(wp2.x, wp2.y);
        graph_add_node(&mut g, k1);
        graph_add_node(&mut g, k2);
        if !wp2.is_start {
            graph_add_edge(&mut g, k1, k2);
            proof {
                assert(edge_at(waypoints@, i as int, (k1, k2)));
                assert(edge_at(waypoints@, i as int, (k2, k1)));
            }
        } else {
            proof {
                assert(forall|e: (u64, u64)| !edge_at(waypoints@, i as int, e));
            }
        }
        proof {
            assert(graph_nodes(g) =~= keys_upto(waypoints@, i + 2));
            assert(graph_adj(g) =~= edges_upto(waypoints@, i + 1));
        }
        i += 1;
    }
    proof {
        assert(graph_nodes(g) == node_set(waypoints@));
        assert(graph_adj(g) == edge_set(waypoints@));
    }
    g
}

/// The packed keys of one emitted path, in order.
pub open spec fn path_keys(p: Seq<Vertex>) -> Seq<u64> {
    p.map_values(|v: Vertex| vertex_key(v))
}

/// Whether `b` is reachable from `a` along at most `n` adjacency steps.
pub open spec fn connected_within(adj: Set<(u64, u64)>, a: u64, b: u64, n: nat) -> bool
    decreases n,
{
    a == b || (n > 0 && exists|m: u64|
        #[trigger] adj.contains((a, m)) && connected_within(adj, m, b, (n - 1) as nat))
}

/// Whether `a` and `b` lie in the same connected component: `b` is
/// reachable from `a` along adjacencies.
pub open spec fn connected(adj: Set<(u64, u64)>, a: u64, b: u64) -> bool {
    exists|n: nat| connected_within(adj, a, b, n)
}

/// Every node reaches itself.
proof fn lemma_connected_refl(adj: Set<(u64, u64)>, a: u64)
    ensures
        connected(adj, a, a),
{
    assert(connected_within(adj, a, a, 0));
}

/// An edge connects its endpoints.
proof fn lemma_connected_step(adj: Set<(u64, u64)>, a: u64, b: u64)
    requires
        adj.contains((a, b)),
    ensures
        connected(adj, a, b),
{
    assert(connected_within(adj, b, b, 0));
    assert(connected_within(adj, a, b, 1));
}

/// A step bound only loosens as it grows.
proof fn lemma_connected_within_mono(adj: Set<(u64, u64)>, a: u64, b: u64, n1: nat, n2: nat)
    requires
        connected_within(adj, a, b, n1),
        n1 <= n2,
    ensures
        connected_within(adj, a, b, n2),
    decreases n1,
{
    if a == b {
    } else {
        let m = choose|m: u64|
            #[trigger] adj.contains((a, m)) && connected_within(adj, m, b, (n1 - 1) as nat);
        lemma_connected_within_mono(adj, m, b, (n1 - 1) as nat, (n2 - 1) as nat);
    }
}

/// Reachability is transitive.
proof fn lemma_connected_within_trans(
    adj: Set<(u64, u64)>,
    a: u64,
    b: u64,
    c: u64,
    n1: nat,
    n2: nat,
)
    requires
        connected_within(adj, a, b, n1),
        connected_within(adj, b, c, n2),
    ensures
        connected_within(adj, a, c, (n1 + n2) as nat),
    decreases n1,
{
    if a == b {
        lemma_connected_within_mono(adj, b, c, n2, (n1 + n2) as nat);
    } else {
        let m = choose|m: u64|
            #[trigger] adj.contains((a, m)) && connected_within(adj, m, b, (n1 - 1) as nat);
        lemma_connected_within_trans(adj, m, b, c, (n1 - 1) as nat, n2);
        assert(connected_within(adj, a, c, (n1 + n2) as nat));
    }
}

/// Connectivity is transitive.
proof fn lemma_connected_trans(adj: Set<(u64, u64)>, a: u64, b: u64, c: u64)
    requires
        connected(adj, a, b),
        connected(adj, b, c),
    ensures
        connected(adj, a, c),
{
    let n1 = choose|n: nat| connected_within(adj, a, b, n);
    let n2 = choose|n: nat| connected_within(adj, b, c, n);
    lemma_connected_within_trans(adj, a, b, c, n1, n2);
}

/// Over a symmetric adjacency, connectivity is symmetric.
proof fn lemma_connected_sym(adj: Set<(u64, u64)>, a: u64, b: u64)
    requires
        connected(adj, a, b),
        forall|x: u64, y: u64| #[trigger] adj.contains((x, y)) ==> adj.contains((y, x)),
    ensures
        connected(adj, b, a),
{
    let n = choose|n: nat| connected_within(adj, a, b, n);
    lemma_connected_sym_within(adj, a, b, n);
}

/// The induction behind [`lemma_connected_sym`].
proof fn lemma_connected_sym_within(adj: Set<(u64, u64)>, a: u64, b: u64, n: nat)
    requires
        connected_within(adj, a, b, n),
        forall|x: u64, y: u64| #[trigger] adj.contains((x, y)) ==> adj.contains((y, x)),
    ensures
        connected(adj, b, a),
    decreases n,
{
    if a == b {
        lemma_connected_refl(adj, a);
    } else {
        let m = choose|m: u64|
            #[trigger] adj.contains((a, m)) && connected_within(adj, m, b, (n - 1) as nat);
        lemma_connected_sym_within(adj, m, b, (n - 1) as nat);
        lemma_connected_step(adj, m, a);
        lemma_connected_trans(adj, b, m, a);
    }
}

/// Append every element of `items` to `stack`.
fn push_all(stack: &mut Vec<u64>, items: &Vec<u64>)
    ensures
        final(stack)@ == old(stack)@ + items@,
{
    let mut t: usize = 0;
    while t < items.len()
        invariant
            t <= items@.len(),
            stack@ == old(stack)@ + items@.take(t as int),
        decreases items@.len() - t,
    {
        stack.push(items[t]);
        proof {
            assert(old(stack)@ + items@.take(t as int) + seq![items@[t as int]] =~= old(stack)@
                + items@.take(t + 1));
        }
        t += 1;
    }
    proof {
        assert(old(stack)@ + items@.take(items@.len() as int) =~= old(stack)@ + items@);
    }
}

/// Pushing a fresh element keeps a sequence free of duplicates.
proof fn lemma_push_no_dup<A>(s: Seq<A>, e: A)
    requires
        s.no_duplicates(),
        !s.contains(e),
    ensures
        s.push(e).no_duplicates(),
{
    let p = s.push(e);
    assert forall|i: int, j: int|
        0 <= i < p.len() && 0 <= j < p.len() && i != j implies p[i] != p[j] by {
        if i == s.len() as int {
            assert(p[j] == s[j]);
            if p[j] == e {
                assert(s.contains(e));
            }
        } else if j == s.len() as int {
            assert(p[i] == s[i]);
            if p[i] == e {
                assert(s.contains(e));
            }
        }
    }
}

/// Re-emit one path per connected component of the segment graph by
/// depth-first traversal, dropping paths of fewer than two points.
///
/// The emitted paths cover every coordinate that shares an edge with
/// another coordinate, each exactly once; any two points of one path are
/// connected in the graph, and both endpoints of any edge land in the same
/// path — together with the once-only coverage this puts each component
/// with an edge into exactly one path.  A path's exact point order at
/// junctions is not pinned down, as it serves rendering only.
pub fn extract_paths(g: &UnGraphMap<u64, ()>) -> (r: Vec<Vec<Vertex>>)
    requires
        forall|k: u64| #[trigger] graph_nodes(*g).contains(k) ==> k < KEY_LIMIT,
        forall|a: u64, b: u64|
            #[trigger] graph_adj(*g).contains((a, b)) ==> graph_adj(*g).contains((b, a)),
        forall|a: u64, b: u64|
            #[trigger] graph_adj(*g).contains((a, b)) ==> graph_nodes(*g).contains(a)
                && graph_nodes(*g).contains(b),
    ensures
        forall|j: int| 0 <= j < r@.len() ==> (#[trigger] r@[j])@.len() >= 2,
        forall|j: int, i: int|
            0 <= j < r@.len() && 0 <= i < r@[j]@.len() ==> (#[trigger] r@[j]@[i]).wf()
                && graph_nodes(*g).contains(vertex_key(r@[j]@[i])),
        forall|j: int, i1: int, i2: int|
            0 <= j < r@.len() && 0 <= i1 < i2 < r@[j]@.len() ==> vertex_key(#[trigger] r@[j]@[i1])
                != vertex_key(#[trigger] r@[j]@[i2]),
        forall|j1: int, i1: int, j2: int, i2: int|
            0 <= j1 < j2 < r@.len() && 0 <= i1 < r@[j1]@.len() && 0 <= i2 < r@[j2]@.len()
                ==> vertex_key(#[trigger] r@[j1]@[i1]) != vertex_key(#[trigger] r@[j2]@[i2]),
        forall|n: u64|
            #[trigger] graph_nodes(*g).contains(n) && (exists|m: u64|
                m != n && #[trigger] graph_adj(*g).contains((n, m))) ==> exists|j: int, i: int|
                0 <= j < r@.len() && 0 <= i < r@[j]@.len() && vertex_key(#[trigger] r@[j]@[i]) == n,
        forall|j: int, i1: int, i2: int|
            0 <= j < r@.len() && 0 <= i1 < r@[j]@.len() && 0 <= i2 < r@[j]@.len() ==> connected(
                graph_adj(*g),
                vertex_key(#[trigger] r@[j]@[i1]),
                vertex_key(#[trigger] r@[j]@[i2]),
            ),
        forall|a: u64, b: u64|
            #[trigger] graph_adj(*g).contains((a, b)) && a != b ==> exists|
                j: int,
                i1: int,
                i2: int,
            |
                #![trigger r@[j]@[i1], r@[j]@[i2]]
                0 <= j < r@.len() && 0 <= i1 < r@[j]@.len() && 0 <= i2 < r@[j]@.len()
                    && vertex_key(r@[j]@[i1]) == a && vertex_key(r@[j]@[i2]) == b,
{
    broadcast use vstd::seq_lib::seq_to_set_is_finite;

    let ghost nodes = graph_nodes(*g);
    let ghost adj = graph_adj(*g);
    let node_list = graph_node_list(g);
    proof {
        assert(nodes =~= node_list@.to_set());
    }
    let total = node_list.len();
    let mut visited: std::collections::HashSet<u64> = std::collections::HashSet::new();
    let mut result: Vec<Vec<Vertex>> = Vec::new();
    let mut idx: usize = 0;
    while idx < total
        invariant
            nodes == graph_nodes(*g),
            adj == graph_adj(*g),
            forall|k: u64| #[trigger] nodes.contains(k) ==> k < KEY_LIMIT,
            forall|a: u64, b: u64| #[trigger] adj.contains((a, b)) ==> adj.contains((b, a)),
            forall|a: u64, b: u64|
                #[trigger] adj.contains((a, b)) ==> nodes.contains(a) && nodes.contains(b),
            node_list@.no_duplicates(),
            forall|nn: u64| #[trigger] node_list@.contains(nn) <==> nodes.contains(nn),
            total == node_list@.len(),
            idx <= total,
            nodes.finite(),
            visited@.finite(),
            forall|v: u64| #[trigger] visited@.contains(v) ==> nodes.contains(v),
            forall|jj: int| 0 <= jj < idx ==> visited@.contains(#[trigger] node_list@[jj]),
            forall|a: u64, b: u64|
                visited@.contains(a) && #[trigger] adj.contains((a, b)) ==> visited@.contains(b),
            forall|j: int| 0 <= j < result@.len() ==> (#[trigger] result@[j])@.len() >= 2,
            forall|j: int, i: int|
                0 <= j < result@.len() && 0 <= i < result@[j]@.len() ==> (
                #[trigger] result@[j]@[i]).wf() && visited@.contains(vertex_key(result@[j]@[i])),
            forall|j: int, i1: int, i2: int|
                0 <= j < result@.len() && 0 <= i1 < i2 < result@[j]@.len() ==> vertex_key(
                    #[trigger] result@[j]@[i1],
                ) != vertex_key(#[trigger] result@[j]@[i2]),
            forall|j1: int, i1: int, j2: int, i2: int|
                0 <= j1 < j2 < result@.len() && 0 <= i1 < result@[j1]@.len() && 0 <= i2
                    < result@[j2]@.len() ==> vertex_key(#[trigger] result@[j1]@[i1]) != vertex_key(
                    #[trigger] result@[j2]@[i2],
                ),
            forall|nn: u64|
                #[trigger] visited@.contains(nn) && (exists|m: u64|
                    m != nn && #[trigger] adj.contains((nn, m))) ==> exists|j: int, i: int|
                    0 <= j < result@.len() && 0 <= i < result@[j]@.len() && vertex_key(
                        #[trigger] result@[j]@[i],
                    ) == nn,
            forall|j: int, i1: int, i2: int|
                0 <= j < result@.len() && 0 <= i1 < result@[j]@.len() && 0 <= i2
                    < result@[j]@.len() ==> connected(
                    adj,
                    vertex_key(#[trigger] result@[j]@[i1]),
                    vertex_key(#[trigger] result@[j]@[i2]),
                ),
            forall|a: u64, b: u64|
                visited@.contains(a) && #[trigger] adj.contains((a, b)) && a != b ==> exists|
                    j: int,
                    i1: int,
                    i2: int,
                |
                    #![trigger result@[j]@[i1], result@[j]@[i2]]
                    0 <= j < result@.len() && 0 <= i1 < result@[j]@.len() && 0 <= i2
                        < result@[j]@.len() && vertex_key(result@[j]@[i1]) == a && vertex_key(
                        result@[j]@[i2],
                    ) == b,
        decreases total - idx,
    {
        let start = node_list[idx];
        if !visited.contains(&start) {
            let ghost v0 = visited@;
            let ghost r0 = result@;
            let mut stack: Vec<u64> = Vec::new();
            stack.push(start);
            let mut path: Vec<Vertex> = Vec::new();
            proof {
                vstd::set_lib::lemma_len_subset(visited@, nodes);
                assert(node_list@[idx as int] == start);
                assert(node_list@.contains(start));
                assert(nodes.contains(start));
                assert(stack@[0] == start);
                assert(stack@.contains(start));
                assert forall|s: u64| #[trigger] stack@.contains(s) implies nodes.contains(s) by {
                    let w = choose|w: int| 0 <= w < stack@.len() && stack@[w] == s;
                    assert(s == start);
                }
                lemma_connected_refl(adj, start);
                assert forall|s: u64| #[trigger] stack@.contains(s) implies connected(
                    adj,
                    start,
                    s,
                ) by {
                    let w = choose|w: int| 0 <= w < stack@.len() && stack@[w] == s;
                    assert(s == start);
                }
            }
            while stack.len() > 0
                invariant
                    nodes == graph_nodes(*g),
                    adj == graph_adj(*g),
                    forall|k: u64| #[trigger] nodes.contains(k) ==> k < KEY_LIMIT,
                    forall|a: u64, b: u64| #[trigger] adj.contains((a, b)) ==> adj.contains((b, a)),
                    forall|a: u64, b: u64|
                        #[trigger] adj.contains((a, b)) ==> nodes.contains(a) && nodes.contains(b),
                    nodes.finite(),
                    visited@.finite(),
                    visited@.len() <= nodes.len(),
                    forall|v: u64| #[trigger] visited@.contains(v) ==> nodes.contains(v),
                    forall|v: u64| #[trigger] v0.contains(v) ==> visited@.contains(v),
                    forall|a: u64, b: u64|
                        v0.contains(a) && #[trigger] adj.contains((a, b)) ==> v0.contains(b),
                    forall|s: u64| #[trigger] stack@.contains(s) ==> nodes.contains(s),
                    forall|a: u64, b: u64|
                        visited@.contains(a) && !v0.contains(a) && #[trigger] adj.contains(
                            (a, b),
                        ) ==> visited@.contains(b) || stack@.contains(b),
                    visited@.contains(start) || stack@.contains(start),
                    !v0.contains(start),
                    nodes.contains(start),
                    path_keys(path@).no_duplicates(),
                    forall|x: u64|
                        #[trigger] path_keys(path@).contains(x) <==> (visited@.contains(x)
                            && !v0.contains(x)),
                    forall|i: int| 0 <= i < path@.len() ==> (#[trigger] path@[i]).wf(),
                    forall|s: u64| #[trigger] stack@.contains(s) ==> connected(adj, start, s),
                    forall|v: u64|
                        #[trigger] visited@.contains(v) && !v0.contains(v) ==> connected(
                            adj,
                            start,
                            v,
                        ),
                decreases nodes.len() - visited@.len(), stack@.len(),
            {
                let ghost pre = stack@;
                let ghost vh = visited@;
                let n = stack.pop().unwrap();
                proof {
                    assert(n == pre[pre.len() - 1]);
                    assert(pre.contains(n));
                    assert(nodes.contains(n));
                    assert(connected(adj, start, n));
                    assert(stack@ == pre.subrange(0, pre.len() - 1));
                    assert forall|s: u64| #[trigger] stack@.contains(s) implies pre.contains(s) by {
                        let w = choose|w: int| 0 <= w < stack@.len() && stack@[w] == s;
                        assert(pre[w] == s);
                    }
                }
                if !visited.contains(&n) {
                    visited.insert(n);
                    let v = unpack_key(n);
                    let ghost pk0 = path_keys(path@);
                    path.push(v);
                    proof {
                        assert(path@.drop_last() =~= path@.subrange(0, path@.len() - 1));
                        assert(path_keys(path@) =~= pk0.push(vertex_key(v)));
                        assert(vertex_key(v) == n);
                        assert(!pk0.contains(n)) by {
                            if pk0.contains(n) {
                                assert(vh.contains(n));
                            }
                        }
                        lemma_push_no_dup(pk0, n);
                        vstd::set_lib::lemma_len_subset(visited@, nodes);
                        assert forall|x: u64| #[trigger] path_keys(path@).contains(x) implies (
                        visited@.contains(x) && !v0.contains(x)) by {
                            let w = choose|w: int|
                                0 <= w < path_keys(path@).len() && path_keys(path@)[w] == x;
                            if w < pk0.len() {
                                assert(pk0[w] == x);
                                assert(pk0.contains(x));
                            } else {
                                assert(x == n);
                            }
                        }
                        assert forall|x: u64|
                            visited@.contains(x) && !v0.contains(x) implies #[trigger] path_keys(
                            path@,
                        ).contains(x) by {
                            if x == n {
                                assert(path_keys(path@)[pk0.len() as int] == n);
                            } else {
                                assert(vh.contains(x));
                                assert(pk0.contains(x));
                                let w = choose|w: int| 0 <= w < pk0.len() && pk0[w] == x;
                                assert(path_keys(path@)[w] == x);
                            }
                        }
                    }
                    let neigh = graph_neighbor_list(g, n);
                    push_all(&mut stack, &neigh);
                    proof {
                        assert(visited@.contains(start) || stack@.contains(start)) by {
                            if start == n {
                                assert(visited@.contains(start));
                            } else if vh.contains(start) {
                                assert(visited@.contains(start));
                            } else {
                                let w = choose|w: int| 0 <= w < pre.len() && pre[w] == start;
                                assert(w < pre.len() - 1);
                                assert(stack@ == pre.subrange(0, pre.len() - 1) + neigh@);
                                assert(stack@[w] == pre[w]);
                            }
                        }
                        assert forall|s: u64| #[trigger] stack@.contains(s) implies nodes.contains(
                            s,
                        ) by {
                            let w = choose|w: int| 0 <= w < stack@.len() && stack@[w] == s;
                            assert(stack@ == pre.subrange(0, pre.len() - 1) + neigh@);
                            if w < pre.len() - 1 {
                                assert(pre[w] == s);
                                assert(pre.contains(s));
                            } else {
                                assert(neigh@[w - (pre.len() - 1)] == s);
                                assert(neigh@.contains(s));
                                assert(adj.contains((n, s)));
                            }
                        }
                        assert forall|s: u64| #[trigger] stack@.contains(s) implies connected(
                            adj,
                            start,
                            s,
                        ) by {
                            let w = choose|w: int| 0 <= w < stack@.len() && stack@[w] == s;
                            assert(stack@ == pre.subrange(0, pre.len() - 1) + neigh@);
                            if w < pre.len() - 1 {
                                assert(pre[w] == s);
                                assert(pre.contains(s));
                            } else {
                                assert(neigh@[w - (pre.len() - 1)] == s);
                                assert(neigh@.contains(s));
                                assert(adj.contains((n, s)));
                                lemma_connected_step(adj, n, s);
                                lemma_connected_trans(adj, start, n, s);
                            }
                        }
                        assert forall|a: u64, b: u64|
                            visited@.contains(a) && !v0.contains(a) && #[trigger] adj.contains(
                                (a, b),
                            ) implies visited@.contains(b) || stack@.contains(b) by {
                            if a == n {
                                assert(neigh@.contains(b));
                                let w = choose|w: int| 0 <= w < neigh@.len() && neigh@[w] == b;
                                assert(stack@ == pre.subrange(0, pre.len() - 1) + neigh@);
                                assert(stack@[pre.len() - 1 + w] == b);
                                assert(stack@.contains(b));
                            } else {
                                if !visited@.contains(b) {
                                    assert(pre.contains(b));
                                    if b == n {
                                        assert(visited@.contains(b));
                                    } else {
                                        let w = choose|w: int|
                                            0 <= w < pre.len() && pre[w] == b;
                                        assert(w < pre.len() - 1);
                                        assert(stack@.contains(b)) by {
                                            assert(stack@ == pre.subrange(0, pre.len() - 1)
                                                + neigh@);
                                            assert(stack@[w] == pre[w]);
                                        }
                                    }
                                }
                            }
                        }
                    }
                } else {
                    proof {
                        assert forall|a: u64, b: u64|
                            visited@.contains(a) && !v0.contains(a) && #[trigger] adj.contains(
                                (a, b),
                            ) implies visited@.contains(b) || stack@.contains(b) by {
                            if !visited@.contains(b) {
                                assert(pre.contains(b));
                                let w = choose|w: int| 0 <= w < pre.len() && pre[w] == b;
                                if w < pre.len() - 1 {
                                    assert(stack@.contains(b)) by {
                                        assert(stack@[w] == b);
                                    }
                                } else {
                                    assert(b == n);
                                    assert(visited@.contains(b));
                                }
                            }
                        }
                        assert(visited@.contains(start) || stack@.contains(start)) by {
                            if !visited@.contains(start) {
                                let w = choose|w: int| 0 <= w < pre.len() && pre[w] == start;
                                if w < pre.len() - 1 {
                                    assert(stack@[w] == start);
                                } else {
                                    assert(start == n);
                                }
                            }
                        }
                    }
                }
            }
            // The pass is over: everything newly visited is closed under
            // adjacency, and the new path holds exactly the newly visited
            // coordinates.
            proof {
                assert(visited@.contains(start));
                assert(path_keys(path@).contains(start)) by {
                    assert(visited@.contains(start) && !v0.contains(start));
                }
                assert(path@.len() >= 1);
            }
            if path.len() >= 2 {
                let ghost p = path@;
                result.push(path);
                proof {
                    let jn = result@.len() - 1;
                    assert(result@[jn]@ == p);
                    assert(forall|j: int| 0 <= j < jn ==> result@[j] == r0[j]);
                    assert forall|i: int| 0 <= i < p.len() implies (#[trigger] p[i]).wf()
                        && visited@.contains(vertex_key(p[i])) by {
                        assert(path_keys(p)[i] == vertex_key(p[i]));
                        assert(path_keys(p).contains(vertex_key(p[i])));
                    }
                    assert forall|i1: int, i2: int| 0 <= i1 < i2 < p.len() implies vertex_key(
                        #[trigger] p[i1],
                    ) != vertex_key(#[trigger] p[i2]) by {
                        assert(path_keys(p)[i1] == vertex_key(p[i1]));
                        assert(path_keys(p)[i2] == vertex_key(p[i2]));
                    }
                    assert forall|j1: int, i1: int, i2: int|
                        0 <= j1 < jn && 0 <= i1 < result@[j1]@.len() && 0 <= i2 < p.len() implies
                        vertex_key(#[trigger] result@[j1]@[i1]) != vertex_key(
                        #[trigger] p[i2]) by {
                        assert(v0.contains(vertex_key(r0[j1]@[i1])));
                        assert(path_keys(p)[i2] == vertex_key(p[i2]));
                        assert(path_keys(p).contains(vertex_key(p[i2])));
                        assert(!v0.contains(vertex_key(p[i2])));
                    }
                    assert forall|nn: u64|
                        #[trigger] visited@.contains(nn) && (exists|m: u64|
                            m != nn && #[trigger] adj.contains((nn, m))) implies exists|
                        j: int,
                        i: int,
                    |
                        0 <= j < result@.len() && 0 <= i < result@[j]@.len() && vertex_key(
                            #[trigger] result@[j]@[i],
                        ) == nn by {
                        if v0.contains(nn) {
                            let (j, i) = choose|j: int, i: int|
                                0 <= j < r0.len() && 0 <= i < r0[j]@.len() && vertex_key(
                                    #[trigger] r0[j]@[i],
                                ) == nn;
                            assert(result@[j]@[i] == r0[j]@[i]);
                        } else {
                            assert(path_keys(p).contains(nn));
                            let i = choose|i: int|
                                0 <= i < path_keys(p).len() && path_keys(p)[i] == nn;
                            let j = result@.len() - 1;
                            assert(result@[j]@[i] == p[i]);
                            assert(vertex_key(result@[j]@[i]) == nn);
                        }
                    }
                    assert forall|i1: int, i2: int|
                        0 <= i1 < p.len() && 0 <= i2 < p.len() implies connected(
                        adj,
                        vertex_key(#[trigger] p[i1]),
                        vertex_key(#[trigger] p[i2]),
                    ) by {
                        let x = vertex_key(p[i1]);
                        let y = vertex_key(p[i2]);
                        assert(path_keys(p)[i1] == x);
                        assert(path_keys(p).contains(x));
                        assert(path_keys(p)[i2] == y);
                        assert(path_keys(p).contains(y));
                        assert(connected(adj, start, x));
                        assert(connected(adj, start, y));
                        lemma_connected_sym(adj, start, x);
                        lemma_connected_trans(adj, x, start, y);
                    }
                    assert forall|j: int, i1: int, i2: int|
                        0 <= j < result@.len() && 0 <= i1 < result@[j]@.len() && 0 <= i2
                            < result@[j]@.len() implies connected(
                        adj,
                        vertex_key(#[trigger] result@[j]@[i1]),
                        vertex_key(#[trigger] result@[j]@[i2]),
                    ) by {
                        if j < jn {
                            assert(result@[j] == r0[j]);
                        } else {
                            assert(result@[j]@ == p);
                        }
                    }
                    assert forall|a: u64, b: u64|
                        visited@.contains(a) && #[trigger] adj.contains((a, b)) && a
                            != b implies exists|j: int, i1: int, i2: int|
                        #![trigger result@[j]@[i1], result@[j]@[i2]]
                        0 <= j < result@.len() && 0 <= i1 < result@[j]@.len() && 0 <= i2
                            < result@[j]@.len() && vertex_key(result@[j]@[i1]) == a && vertex_key(
                            result@[j]@[i2],
                        ) == b by {
                        if v0.contains(a) {
                            let (j, i1, i2) = choose|j: int, i1: int, i2: int|
                                #![trigger r0[j]@[i1], r0[j]@[i2]]
                                0 <= j < r0.len() && 0 <= i1 < r0[j]@.len() && 0 <= i2
                                    < r0[j]@.len() && vertex_key(r0[j]@[i1]) == a && vertex_key(
                                    r0[j]@[i2],
                                ) == b;
                            assert(result@[j] == r0[j]);
                            assert(vertex_key(result@[j]@[i1]) == a);
                            assert(vertex_key(result@[j]@[i2]) == b);
                        } else {
                            assert(visited@.contains(b));
                            if v0.contains(b) {
                                assert(adj.contains((b, a)));
                                assert(v0.contains(a));
                            }
                            assert(path_keys(p).contains(a));
                            assert(path_keys(p).contains(b));
                            let i1 = choose|i: int|
                                0 <= i < path_keys(p).len() && path_keys(p)[i] == a;
                            let i2 = choose|i: int|
                                0 <= i < path_keys(p).len() && path_keys(p)[i] == b;
                            assert(result@[jn]@ == p);
                            assert(vertex_key(result@[jn]@[i1]) == a);
                            assert(vertex_key(result@[jn]@[i2]) == b);
                        }
                    }
                }
            } else {
                // A component of a single coordinate: it has no neighbor
                // besides itself, so dropping it loses nothing.
                proof {
                    assert(path@.len() == 1);
                    assert forall|nn: u64|
                        #[trigger] visited@.contains(nn) && (exists|m: u64|
                            m != nn && #[trigger] adj.contains((nn, m))) implies exists|
                        j: int,
                        i: int,
                    |
                        0 <= j < result@.len() && 0 <= i < result@[j]@.len() && vertex_key(
                            #[trigger] result@[j]@[i],
                        ) == nn by {
                        if !v0.contains(nn) {
                            assert(path_keys(path@).contains(nn)) by {
                                assert(visited@.contains(nn) && !v0.contains(nn));
                            }
                            assert(path_keys(path@)[0] == nn);
                            let m = choose|m: u64| m != nn && #[trigger] adj.contains((nn, m));
                            assert(visited@.contains(m));
                            if v0.contains(m) {
                                assert(adj.contains((m, nn)));
                                assert(v0.contains(nn));
                            } else {
                                assert(path_keys(path@).contains(m));
                                assert(path_keys(path@)[0] == m);
                            }
                            assert(false);
                        }
                    }
                    assert forall|a: u64, b: u64|
                        visited@.contains(a) && #[trigger] adj.contains((a, b)) && a
                            != b implies exists|j: int, i1: int, i2: int|
                        #![trigger result@[j]@[i1], result@[j]@[i2]]
                        0 <= j < result@.len() && 0 <= i1 < result@[j]@.len() && 0 <= i2
                            < result@[j]@.len() && vertex_key(result@[j]@[i1]) == a && vertex_key(
                            result@[j]@[i2],
                        ) == b by {
                        if !v0.contains(a) {
                            assert(path_keys(path@).contains(a)) by {
                                assert(visited@.contains(a) && !v0.contains(a));
                            }
                            assert(path_keys(path@)[0] == a);
                            assert(visited@.contains(b));
                            if v0.contains(b) {
                                assert(adj.contains((b, a)));
                                assert(v0.contains(a));
                            } else {
                                assert(path_keys(path@).contains(b));
                                assert(path_keys(path@)[0] == b);
                            }
                            assert(false);
                        }
                    }
                }
            }
        }
        idx += 1;
    }
    proof {
        assert forall|nn: u64| #[trigger] nodes.contains(nn) implies visited@.contains(nn) by {
            assert(node_list@.contains(nn));
            let w = choose|w: int| 0 <= w < node_list@.len() && node_list@[w] == nn;
            assert(visited@.contains(node_list@[w]));
        }
    }
    result
}

/// Convert an unordered bag of way points into reconnected polylines: one
/// polyline per connected component of the segment graph, covering every
/// coordinate that shares a segment with another, each exactly once.  Any
/// two coordinates of one polyline are connected in the segment graph, and
/// coordinates joined by a segment — in particular consecutive input points
/// not separated by a break — come out in the same polyline.
#[verifier::rlimit(100)]
#[verifier::spinoff_prover]
pub fn waypoints_to_multilinestring(waypoints: &Vec<WayPoint>) -> (r: MultiLineString)
    requires
        points_wf(waypoints@),
    ensures
        forall|j: int| 0 <= j < r.lines@.len() ==> (#[trigger] r.lines@[j])@.len() >= 2,
        forall|j: int, i: int|
            0 <= j < r.lines@.len() && 0 <= i < r.lines@[j]@.len() ==> (
            #[trigger] r.lines@[j]@[i]).wf() && node_set(waypoints@).contains(
                vertex_key(r.lines@[j]@[i]),
            ),
        forall|j: int, i1: int, i2: int|
            0 <= j < r.lines@.len() && 0 <= i1 < i2 < r.lines@[j]@.len() ==> vertex_key(
                #[trigger] r.lines@[j]@[i1],
            ) != vertex_key(#[trigger] r.lines@[j]@[i2]),
        forall|j1: int, i1: int, j2: int, i2: int|
            0 <= j1 < j2 < r.lines@.len() && 0 <= i1 < r.lines@[j1]@.len() && 0 <= i2
                < r.lines@[j2]@.len() ==> vertex_key(#[trigger] r.lines@[j1]@[i1]) != vertex_key(
                #[trigger] r.lines@[j2]@[i2],
            ),
        forall|n: u64|
            #[trigger] node_set(waypoints@).contains(n) && (exists|m: u64|
                m != n && #[trigger] edge_set(waypoints@).contains((n, m))) ==> exists|
                j: int,
                i: int,
            |
                0 <= j < r.lines@.len() && 0 <= i < r.lines@[j]@.len() && vertex_key(
                    #[trigger] r.lines@[j]@[i],
                ) == n,
        forall|t: int|
            #![trigger waypoints@[t]]
            0 <= t < waypoints@.len() && (exists|m: u64|
                m != waypoint_key(waypoints@[t]) && #[trigger] edge_set(waypoints@).contains(
                    (waypoint_key(waypoints@[t]), m),
                )) ==> exists|j: int, i: int|
                0 <= j < r.lines@.len() && 0 <= i < r.lines@[j]@.len() && (
                #[trigger] r.lines@[j]@[i]).x == waypoints@[t].x && r.lines@[j]@[i].y
                    == waypoints@[t].y,
        forall|j: int, i1: int, i2: int|
            0 <= j < r.lines@.len() && 0 <= i1 < r.lines@[j]@.len() && 0 <= i2
                < r.lines@[j]@.len() ==> connected(
                edge_set(waypoints@),
                vertex_key(#[trigger] r.lines@[j]@[i1]),
                vertex_key(#[trigger] r.lines@[j]@[i2]),
            ),
        forall|a: u64, b: u64|
            #[trigger] edge_set(waypoints@).contains((a, b)) && a != b ==> exists|
                j: int,
                i1: int,
                i2: int,
            |
                #![trigger r.lines@[j]@[i1], r.lines@[j]@[i2]]
                0 <= j < r.lines@.len() && 0 <= i1 < r.lines@[j]@.len() && 0 <= i2
                    < r.lines@[j]@.len() && vertex_key(r.lines@[j]@[i1]) == a && vertex_key(
                    r.lines@[j]@[i2],
                ) == b,
        forall|t: int|
            #![trigger waypoints@[t].is_start]
            0 <= t < waypoints@.len() - 1 && !waypoints@[t + 1].is_start && waypoint_key(
                waypoints@[t],
            ) != waypoint_key(waypoints@[t + 1]) ==> exists|j: int, i1: int, i2: int|
                #![trigger r.lines@[j]@[i1], r.lines@[j]@[i2]]
                0 <= j < r.lines@.len() && 0 <= i1 < r.lines@[j]@.len() && 0 <= i2
                    < r.lines@[j]@.len() && vertex_key(r.lines@[j]@[i1]) == waypoint_key(
                    waypoints@[t],
                ) && vertex_key(r.lines@[j]@[i2]) == waypoint_key(waypoints@[t + 1]),
{
    let g = build_graph(waypoints);
    proof {
        assert forall|k: u64| #[trigger] graph_nodes(g).contains(k) implies k < KEY_LIMIT by {
            let i = choose|i: int|
                0 <= i < waypoints@.len() && k == waypoint_key(waypoints@[i]);
            lemma_key_bound(waypoints@[i].x as int, waypoints@[i].y as int);
        }
        assert forall|a: u64, b: u64| #[trigger] graph_adj(g).contains((a, b)) implies graph_adj(
            g,
        ).contains((b, a)) && graph_nodes(g).contains(a) && graph_nodes(g).contains(b) by {
            let i = choose|i: int| i < waypoints@.len() - 1 && edge_at(waypoints@, i, (a, b));
            assert(edge_at(waypoints@, i, (b, a)));
            assert(keys_upto(waypoints@, waypoints@.len() as int).contains(
                waypoint_key(waypoints@[i]),
            ));
            assert(keys_upto(waypoints@, waypoints@.len() as int).contains(
                waypoint_key(waypoints@[i + 1]),
            ));
        }
    }
    let lines = extract_paths(&g);
    proof {
        assert forall|t: int|
            0 <= t < waypoints@.len() - 1 && !waypoints@[t + 1].is_start && waypoint_key(
                #[trigger] waypoints@[t],
            ) != waypoint_key(waypoints@[t + 1]) implies exists|j: int, i1: int, i2: int|
            #![trigger lines@[j]@[i1], lines@[j]@[i2]]
            0 <= j < lines@.len() && 0 <= i1 < lines@[j]@.len() && 0 <= i2 < lines@[j]@.len()
                && vertex_key(lines@[j]@[i1]) == waypoint_key(waypoints@[t]) && vertex_key(
                lines@[j]@[i2],
            ) == waypoint_key(waypoints@[t + 1]) by {
            let a = waypoint_key(waypoints@[t]);
            let b = waypoint_key(waypoints@[t + 1]);
            assert(edge_at(waypoints@, t, (a, b)));
            assert(edge_set(waypoints@).contains((a, b)));
            assert(graph_adj(g).contains((a, b)));
        }
    }
    let r = MultiLineString { lines };
    proof {
        assert forall|t: int|
            0 <= t < waypoints@.len() && (exists|m: u64|
                m != waypoint_key(#[trigger] waypoints@[t]) && #[trigger] edge_set(
                    waypoints@,
                ).contains((waypoint_key(waypoints@[t]), m))) implies exists|j: int, i: int|
            0 <= j < r.lines@.len() && 0 <= i < r.lines@[j]@.len() && (
            #[trigger] r.lines@[j]@[i]).x == waypoints@[t].x && r.lines@[j]@[i].y
                == waypoints@[t].y by {
            let n = waypoint_key(waypoints@[t]);
            let m = choose|m: u64| m != n && edge_set(waypoints@).contains((n, m));
            let e = choose|e: int| e < waypoints@.len() - 1 && edge_at(waypoints@, e, (n, m));
            assert(waypoints@.len() >= 2);
            assert(node_set(waypoints@).contains(n));
            let (j, i) = choose|j: int, i: int|
                0 <= j < r.lines@.len() && 0 <= i < r.lines@[j]@.len() && vertex_key(
                    #[trigger] r.lines@[j]@[i],
                ) == n;
            let v = r.lines@[j]@[i];
            lemma_key_injective(v.x as int, v.y as int, waypoints@[t].x as int, waypoints@[t].y as int);
        }
    }
    r
}

/// The way points of one polyline: its vertices with a break marker on the
/// first.
pub open spec fn line_points(l: Seq<Vertex>) -> Seq<WayPoint> {
    Seq::new(l.len(), |i: int| WayPoint { is_start: i == 0, x: l[i].x, y: l[i].y })
}

/// The way points of the first `n` polylines, concatenated.
pub open spec fn flat_upto(lines: Seq<Seq<Vertex>>, n: int) -> Seq<WayPoint>
    decreases n,
{
    if n <= 0 {
        Seq::empty()
    } else {
        flat_upto(lines, n - 1) + line_points(lines[n - 1])
    }
}

/// The way points of a collection of polylines: each polyline's vertices in
/// order, the first of each marked as a sub-path start.
pub open spec fn flatten_with_breaks(lines: Seq<Seq<Vertex>>) -> Seq<WayPoint> {
    flat_upto(lines, lines.len() as int)
}

/// Convert reconnected polylines back into one concatenated way point
/// sequence, marking the first point of each polyline as a sub-path start.
pub fn multilinestring_to_waypoints(multi_line: &MultiLineString) -> (r: Vec<WayPoint>)
    ensures
        r@ == flatten_with_breaks(multi_line.lines@.map_values(|l: Vec<Vertex>| l@)),
{
    let ghost vlines = multi_line.lines@.map_values(|l: Vec<Vertex>| l@);
    let mut out: Vec<WayPoint> = Vec::new();
    let n = multi_line.lines.len();
    let mut i: usize = 0;
    while i < n
        invariant
            n == multi_line.lines@.len(),
            vlines == multi_line.lines@.map_values(|l: Vec<Vertex>| l@),
            i <= n,
            out@ == flat_upto(vlines, i as int),
        decreases n - i,
    {
        let line = &multi_line.lines[i];
        let m = line.len();
        let mut j: usize = 0;
        while j < m
            invariant
                n == multi_line.lines@.len(),
                vlines == multi_line.lines@.map_values(|l: Vec<Vertex>| l@),
                i < n,
                m == line@.len(),
                line@ == vlines[i as int],
                j <= m,
                out@ == flat_upto(vlines, i as int) + line_points(line@).take(j as int),
            decreases m - j,
        {
            let v = line[j];
            out.push(WayPoint { is_start: j == 0, x: v.x, y: v.y });
            proof {
                assert(out@ =~= flat_upto(vlines, i as int) + line_points(line@).take(j + 1));
            }
            j += 1;
        }
        proof {
            assert(line_points(line@).take(m as int) =~= line_points(line@));
            assert(out@ == flat_upto(vlines, i + 1));
        }
        i += 1;
    }
    proof {
        assert(out@ == flatten_with_breaks(vlines));
    }
    out
}

} // verus!
