//! Tolerance-based line simplification (Douglas–Peucker).
//!
//! A sub-path keeps only its two endpoints unless some interior point's
//! perpendicular distance to the endpoint chord exceeds the tolerance, in
//! which case the sub-path splits at the farthest such point and both halves
//! are simplified recursively.  Distances are compared exactly in integer
//! arithmetic: the squared cross product of a point against the chord is
//! held against the squared tolerance times the squared chord length, so no
//! square root is ever taken.
//!
//! Guarantees, proved below: a zero tolerance is the identity
//! ([`lemma_simplify_zero`]); a larger tolerance never yields more points
//! ([`lemma_simplify_monotone`]); the output keeps both endpoints and only
//! ever drops interior points ([`lemma_simplify_endpoints`]).

use vstd::prelude::*;

use crate::data::MultiLineString;
use crate::data::Vertex;

verus! {

use vstd::seq_lib::*;
use vstd::set_lib::*;

/// Largest accepted simplification tolerance.  The split test compares
/// `cross^2 > tol^2 * chord^2` exactly in 128-bit arithmetic; with
/// coordinates bounded by [`crate::data::COORD_LIMIT`] the squared chord length reaches
/// 8 * 10^12, so the squared tolerance may use what remains of the 128-bit
/// range.  This is a machine limit, not a geometric one: it far exceeds the
/// grid's diameter, so every meaningful tolerance is accepted.
pub const TOLERANCE_LIMIT: i64 = 4_000_000_000_000;

/// Squared length of the chord from `a` to `b`.
pub open spec fn chord2(a: Vertex, b: Vertex) -> int {
    (b.x - a.x) * (b.x - a.x) + (b.y - a.y) * (b.y - a.y)
}

/// Whether two vertices sit on the same position.
pub open spec fn same_pos(a: Vertex, b: Vertex) -> bool {
    a.x == b.x && a.y == b.y
}

/// Deviation measure of `p` against the chord from `a` to `b`: the squared
/// cross product, or the squared distance to `a` when the chord is
/// degenerate.  For a fixed chord it orders points exactly as their
/// perpendicular distance does.
pub open spec fn dev_measure(a: Vertex, b: Vertex, p: Vertex) -> int {
    if same_pos(a, b) {
        (p.x - a.x) * (p.x - a.x) + (p.y - a.y) * (p.y - a.y)
    } else {
        let cross = (b.x - a.x) * (p.y - a.y) - (b.y - a.y) * (p.x - a.x);
        cross * cross
    }
}

/// Whether the perpendicular distance from `p` to the chord from `a` to `b`
/// strictly exceeds `tol`, compared exactly on squares.
pub open spec fn exceeds_tol(a: Vertex, b: Vertex, p: Vertex, tol: int) -> bool {
    if same_pos(a, b) {
        dev_measure(a, b, p) > tol * tol
    } else {
        dev_measure(a, b, p) > tol * tol * chord2(a, b)
    }
}

/// Index of the first point of `s[i..hi]` deviating most from the chord
/// `(a, b)`, seeded with the candidate `besti`.
pub open spec fn best_from(s: Seq<Vertex>, a: Vertex, b: Vertex, i: int, hi: int, besti: int) -> int
    decreases hi - i,
{
    if i >= hi {
        besti
    } else if dev_measure(a, b, s[i]) > dev_measure(a, b, s[besti]) {
        best_from(s, a, b, i + 1, hi, i)
    } else {
        best_from(s, a, b, i + 1, hi, besti)
    }
}

/// The split index of the sub-path from `lo` to `hi`: the first interior
/// point farthest from the chord.
pub open spec fn split_index(s: Seq<Vertex>, lo: int, hi: int) -> int {
    let k = best_from(s, s[lo], s[hi], lo + 1, hi, lo + 1);
    if lo < k < hi {
        k
    } else {
        lo + 1
    }
}

/// The interior indices that Douglas–Peucker keeps strictly between `lo`
/// and `hi`, in ascending order.
pub open spec fn dp_idx(s: Seq<Vertex>, lo: int, hi: int, tol: int) -> Seq<int>
    decreases hi - lo,
{
    if lo + 1 >= hi {
        Seq::empty()
    } else {
        let k = split_index(s, lo, hi);
        if exceeds_tol(s[lo], s[hi], s[k], tol) {
            dp_idx(s, lo, k, tol) + seq![k] + dp_idx(s, k, hi, tol)
        } else {
            Seq::empty()
        }
    }
}

/// What simplification returns: the path itself for a zero tolerance or a
/// path of fewer than three points, otherwise both endpoints plus the kept
/// interior points in order.
pub open spec fn simplify_spec(s: Seq<Vertex>, tol: int) -> Seq<Vertex> {
    if tol == 0 || s.len() <= 2 {
        s
    } else {
        seq![s[0]] + dp_idx(s, 0, s.len() - 1, tol).map_values(|i: int| s[i]) + seq![
            s[s.len() - 1],
        ]
    }
}

/// The seeded scan returns either its seed or a scanned index, and its
/// result deviates at least as much as the seed and every scanned point.
proof fn lemma_best_from(s: Seq<Vertex>, a: Vertex, b: Vertex, i: int, hi: int, besti: int)
    ensures
        ({
            let r = best_from(s, a, b, i, hi, besti);
            &&& r == besti || i <= r < hi
            &&& dev_measure(a, b, s[r]) >= dev_measure(a, b, s[besti])
            &&& forall|j: int| i <= j < hi ==> dev_measure(a, b, s[j]) <= dev_measure(a, b, s[r])
        }),
    decreases hi - i,
{
    if i >= hi {
    } else if dev_measure(a, b, s[i]) > dev_measure(a, b, s[besti]) {
        lemma_best_from(s, a, b, i + 1, hi, i);
    } else {
        lemma_best_from(s, a, b, i + 1, hi, besti);
    }
}

/// The split index is interior and deviates at least as much as every
/// interior point.
proof fn lemma_split_index(s: Seq<Vertex>, lo: int, hi: int)
    requires
        lo + 1 < hi,
    ensures
        lo < split_index(s, lo, hi) < hi,
        forall|j: int|
            lo < j < hi ==> #[trigger] dev_measure(s[lo], s[hi], s[j]) <= dev_measure(
                s[lo],
                s[hi],
                s[split_index(s, lo, hi)],
            ),
{
    lemma_best_from(s, s[lo], s[hi], lo + 1, hi, lo + 1);
}

/// The kept interior indices are strictly increasing and strictly between
/// the endpoints.
proof fn lemma_dp_idx_sorted(s: Seq<Vertex>, lo: int, hi: int, tol: int)
    ensures
        ({
            let ks = dp_idx(s, lo, hi, tol);
            &&& forall|i: int| 0 <= i < ks.len() ==> lo < #[trigger] ks[i] < hi
            &&& forall|i: int, j: int| 0 <= i < j < ks.len() ==> ks[i] < ks[j]
        }),
    decreases hi - lo,
{
    if lo + 1 >= hi {
    } else {
        let k = split_index(s, lo, hi);
        lemma_split_index(s, lo, hi);
        if exceeds_tol(s[lo], s[hi], s[k], tol) {
            lemma_dp_idx_sorted(s, lo, k, tol);
            lemma_dp_idx_sorted(s, k, hi, tol);
            let a = dp_idx(s, lo, k, tol);
            let b = dp_idx(s, k, hi, tol);
            let ks = dp_idx(s, lo, hi, tol);
            assert(ks == a + seq![k] + b);
            assert forall|i: int| 0 <= i < ks.len() implies lo < #[trigger] ks[i] < hi by {
                if i < a.len() {
                    assert(ks[i] == a[i]);
                } else if i == a.len() {
                    assert(ks[i] == k);
                } else {
                    assert(ks[i] == b[i - a.len() - 1]);
                }
            }
            assert forall|i: int, j: int| 0 <= i < j < ks.len() implies ks[i] < ks[j] by {
                if j < a.len() {
                } else if i < a.len() && j == a.len() {
                    assert(ks[i] == a[i] && ks[j] == k);
                } else if i < a.len() {
                    assert(ks[i] == a[i] && ks[j] == b[j - a.len() - 1]);
                } else if i == a.len() {
                    assert(ks[i] == k && ks[j] == b[j - a.len() - 1]);
                } else {
                    assert(ks[i] == b[i - a.len() - 1] && ks[j] == b[j - a.len() - 1]);
                }
            }
        }
    }
}

/// A tolerance that some point exceeds is also exceeded at any smaller
/// nonnegative tolerance.
proof fn lemma_exceeds_monotone(a: Vertex, b: Vertex, p: Vertex, t1: int, t2: int)
    requires
        0 <= t1 <= t2,
        exceeds_tol(a, b, p, t2),
    ensures
        exceeds_tol(a, b, p, t1),
{
    assert(t1 * t1 <= t2 * t2) by (nonlinear_arith)
        requires
            0 <= t1 <= t2,
    ;
    if same_pos(a, b) {
    } else {
        let dx = b.x - a.x;
        let dy = b.y - a.y;
        assert(dx * dx + dy * dy >= 0) by (nonlinear_arith);
        let c = chord2(a, b);
        assert(t1 * t1 * c <= t2 * t2 * c) by (nonlinear_arith)
            requires
                t1 * t1 <= t2 * t2,
                c >= 0,
        ;
    }
}

/// The kept indices of a split are those of both halves plus the split
/// point, as a set.
proof fn lemma_concat_set(a: Seq<int>, b: Seq<int>, k: int)
    ensures
        (a + seq![k] + b).to_set() =~= a.to_set().union(b.to_set()).insert(k),
{
    seq_to_set_distributes_over_add(a, seq![k]);
    seq_to_set_distributes_over_add(a + seq![k], b);
    assert(seq![k][0] == k);
    assert(seq![k].contains(k));
    assert forall|x: int| #[trigger] seq![k].to_set().contains(x) implies x == k by {
        assert(seq![k].contains(x));
    }
    assert(seq![k].to_set() =~= Set::empty().insert(k));
}

/// Raising the tolerance can only shrink the set of kept interior indices.
proof fn lemma_dp_idx_monotone(s: Seq<Vertex>, lo: int, hi: int, t1: int, t2: int)
    requires
        0 <= t1 <= t2,
    ensures
        dp_idx(s, lo, hi, t2).to_set() <= dp_idx(s, lo, hi, t1).to_set(),
    decreases hi - lo,
{
    if lo + 1 >= hi {
    } else {
        let k = split_index(s, lo, hi);
        if exceeds_tol(s[lo], s[hi], s[k], t2) {
            lemma_exceeds_monotone(s[lo], s[hi], s[k], t1, t2);
            lemma_dp_idx_monotone(s, lo, k, t1, t2);
            lemma_dp_idx_monotone(s, k, hi, t1, t2);
            let a1 = dp_idx(s, lo, k, t1);
            let b1 = dp_idx(s, k, hi, t1);
            let a2 = dp_idx(s, lo, k, t2);
            let b2 = dp_idx(s, k, hi, t2);
            lemma_concat_set(a1, b1, k);
            lemma_concat_set(a2, b2, k);
        } else {
            assert(dp_idx(s, lo, hi, t2).to_set() =~= Set::<int>::empty());
        }
    }
}

/// Strictly increasing index sequences have no duplicates.
proof fn lemma_sorted_no_dup(ks: Seq<int>)
    requires
        forall|i: int, j: int| 0 <= i < j < ks.len() ==> ks[i] < ks[j],
    ensures
        ks.no_duplicates(),
{
}

/// Count the kept interior indices: all distinct values in the open range.
proof fn lemma_dp_idx_len(s: Seq<Vertex>, lo: int, hi: int, tol: int)
    requires
        lo < hi,
    ensures
        dp_idx(s, lo, hi, tol).len() <= hi - lo - 1,
{
    broadcast use vstd::seq_lib::seq_to_set_is_finite;

    let ks = dp_idx(s, lo, hi, tol);
    lemma_dp_idx_sorted(s, lo, hi, tol);
    lemma_sorted_no_dup(ks);
    ks.unique_seq_to_set();
    assert(ks.to_set() <= set_int_range(lo + 1, hi));
    lemma_int_range(lo + 1, hi);
    lemma_len_subset(ks.to_set(), set_int_range(lo + 1, hi));
}

/// Every vertex of a line is within the coordinate bound.
pub open spec fn line_wf(l: Seq<Vertex>) -> bool {
    forall|i: int| 0 <= i < l.len() ==> (#[trigger] l[i]).wf()
}

/// Deviation measure of `p` against the chord `(a, b)`, computed exactly.
fn dev_measure_exec(a: Vertex, b: Vertex, p: Vertex) -> (m: i128)
    requires
        a.wf(),
        b.wf(),
        p.wf(),
    ensures
        m as int == dev_measure(a, b, p),
{
    if a.x == b.x && a.y == b.y {
        let dx: i128 = (p.x as i128) - (a.x as i128);
        let dy: i128 = (p.y as i128) - (a.y as i128);
        proof {
            lemma_sq_bound(dx as int, 2_000_000);
            lemma_sq_bound(dy as int, 2_000_000);
        }
        dx * dx + dy * dy
    } else {
        let cx: i128 = (b.x as i128) - (a.x as i128);
        let cy: i128 = (b.y as i128) - (a.y as i128);
        let px: i128 = (p.x as i128) - (a.x as i128);
        let py: i128 = (p.y as i128) - (a.y as i128);
        proof {
            lemma_mul_bound(cx as int, py as int, 2_000_000, 2_000_000);
            lemma_mul_bound(cy as int, px as int, 2_000_000, 2_000_000);
        }
        let cross: i128 = cx * py - cy * px;
        proof {
            lemma_sq_bound(cross as int, 8_000_000_000_000);
        }
        cross * cross
    }
}

/// A product of bounded factors is bounded.
pub(crate) proof fn lemma_mul_bound(x: int, y: int, bx: int, by: int)
    requires
        -bx <= x <= bx,
        -by <= y <= by,
        0 <= bx,
        0 <= by,
    ensures
        -(bx * by) <= x * y <= bx * by,
{
    assert(-(bx * by) <= x * y <= bx * by) by (nonlinear_arith)
        requires
            -bx <= x <= bx,
            -by <= y <= by,
            0 <= bx,
            0 <= by,
    ;
}

/// A square of a bounded value is nonnegative and bounded.
proof fn lemma_sq_bound(x: int, b: int)
    requires
        -b <= x <= b,
        0 <= b,
    ensures
        0 <= x * x <= b * b,
{
    assert(0 <= x * x <= b * b) by (nonlinear_arith)
        requires
            -b <= x <= b,
            0 <= b,
    ;
}

/// Whether `p` deviates from the chord `(a, b)` by more than `tol`.
fn exceeds_tol_exec(a: Vertex, b: Vertex, p: Vertex, tol: i64) -> (r: bool)
    requires
        a.wf(),
        b.wf(),
        p.wf(),
        0 <= tol <= TOLERANCE_LIMIT,
    ensures
        r == exceeds_tol(a, b, p, tol as int),
{
    let m = dev_measure_exec(a, b, p);
    proof {
        lemma_sq_bound(tol as int, 4_000_000_000_000);
    }
    let t2: i128 = (tol as i128) * (tol as i128);
    if a.x == b.x && a.y == b.y {
        m > t2
    } else {
        let dx: i128 = (b.x as i128) - (a.x as i128);
        let dy: i128 = (b.y as i128) - (a.y as i128);
        proof {
            lemma_sq_bound(dx as int, 2_000_000);
            lemma_sq_bound(dy as int, 2_000_000);
        }
        let c2: i128 = dx * dx + dy * dy;
        proof {
            lemma_mul_bound(
                t2 as int,
                c2 as int,
                16_000_000_000_000_000_000_000_000,
                8_000_000_000_000,
            );
        }
        m > t2 * c2
    }
}

/// Find the split index of the sub-path from `lo` to `hi`.
fn find_split(s: &Vec<Vertex>, lo: usize, hi: usize) -> (k: usize)
    requires
        line_wf(s@),
        lo + 1 < hi < s@.len(),
    ensures
        k as int == split_index(s@, lo as int, hi as int),
        lo < k < hi,
{
    let a = s[lo];
    let b = s[hi];
    let mut best: usize = lo + 1;
    let mut best_m: i128 = dev_measure_exec(a, b, s[lo + 1]);
    let mut j: usize = lo + 2;
    while j < hi
        invariant
            line_wf(s@),
            lo + 1 < hi < s@.len(),
            a == s@[lo as int],
            b == s@[hi as int],
            lo + 1 <= j <= hi,
            lo < best < hi,
            best_m as int == dev_measure(a, b, s@[best as int]),
            best_from(s@, a, b, j as int, hi as int, best as int) == best_from(
                s@,
                a,
                b,
                lo + 1,
                hi as int,
                lo + 1,
            ),
        decreases hi - j,
    {
        let m = dev_measure_exec(a, b, s[j]);
        if m > best_m {
            best = j;
            best_m = m;
        }
        j += 1;
    }
    proof {
        lemma_best_from(s@, a, b, hi as int, hi as int, best as int);
    }
    best
}

/// Append the kept interior points of the sub-path from `lo` to `hi`.
fn dp_rec(s: &Vec<Vertex>, lo: usize, hi: usize, tol: i64, out: &mut Vec<Vertex>)
    requires
        line_wf(s@),
        lo < hi < s@.len(),
        0 <= tol <= TOLERANCE_LIMIT,
    ensures
        final(out)@ == old(out)@ + dp_idx(s@, lo as int, hi as int, tol as int).map_values(
            |i: int| s@[i],
        ),
    decreases hi - lo,
{
    if lo + 1 >= hi {
        assert(final(out)@ =~= old(out)@ + dp_idx(
            s@,
            lo as int,
            hi as int,
            tol as int,
        ).map_values(|i: int| s@[i]));
        return ;
    }
    let k = find_split(s, lo, hi);
    if exceeds_tol_exec(s[lo], s[hi], s[k], tol) {
        dp_rec(s, lo, k, tol, out);
        out.push(s[k]);
        dp_rec(s, k, hi, tol, out);
        proof {
            let f = |i: int| s@[i];
            let a = dp_idx(s@, lo as int, k as int, tol as int);
            let b = dp_idx(s@, k as int, hi as int, tol as int);
            assert(final(out)@ =~= old(out)@ + (a + seq![k as int] + b).map_values(f));
        }
    } else {
        assert(final(out)@ =~= old(out)@ + dp_idx(
            s@,
            lo as int,
            hi as int,
            tol as int,
        ).map_values(|i: int| s@[i]));
    }
}

/// Simplify one path with the Douglas–Peucker algorithm.  The output is a
/// subsequence of the input retaining both endpoints; a zero tolerance
/// returns the path unchanged.
pub fn simplify(line: &Vec<Vertex>, tolerance: i64) -> (r: Vec<Vertex>)
    requires
        line_wf(line@),
        0 <= tolerance <= TOLERANCE_LIMIT,
    ensures
        r@ == simplify_spec(line@, tolerance as int),
{
    let n = line.len();
    if tolerance == 0 || n <= 2 {
        let mut r: Vec<Vertex> = Vec::new();
        let mut i: usize = 0;
        while i < n
            invariant
                n == line@.len(),
                i <= n,
                r@ == line@.take(i as int),
            decreases n - i,
        {
            r.push(line[i]);
            assert(r@ =~= line@.take(i + 1));
            i += 1;
        }
        assert(r@ =~= line@);
        return r;
    }
    let mut out: Vec<Vertex> = Vec::new();
    out.push(line[0]);
    dp_rec(line, 0, n - 1, tolerance, &mut out);
    let last = line[n - 1];
    out.push(last);
    assert(out@ =~= simplify_spec(line@, tolerance as int));
    out
}

/// Simplify every line of a collection of polylines with the
/// Douglas–Peucker algorithm.
pub fn simplify_multilinestring(multi_line: &MultiLineString, tolerance: i64) -> (r:
    MultiLineString)
    requires
        forall|i: int|
            0 <= i < multi_line.lines@.len() ==> line_wf(#[trigger] multi_line.lines@[i]@),
        0 <= tolerance <= TOLERANCE_LIMIT,
    ensures
        r.lines@.len() == multi_line.lines@.len(),
        forall|i: int|
            0 <= i < r.lines@.len() ==> (#[trigger] r.lines@[i])@ == simplify_spec(
                multi_line.lines@[i]@,
                tolerance as int,
            ),
{
    let mut lines: Vec<Vec<Vertex>> = Vec::new();
    let n = multi_line.lines.len();
    let mut i: usize = 0;
    while i < n
        invariant
            n == multi_line.lines@.len(),
            forall|j: int|
                0 <= j < multi_line.lines@.len() ==> line_wf(#[trigger] multi_line.lines@[j]@),
            0 <= tolerance <= TOLERANCE_LIMIT,
            i <= n,
            lines@.len() == i,
            forall|j: int|
                0 <= j < i ==> (#[trigger] lines@[j])@ == simplify_spec(
                    multi_line.lines@[j]@,
                    tolerance as int,
                ),
        decreases n - i,
    {
        let simplified = simplify(&multi_line.lines[i], tolerance);
        lines.push(simplified);
        i += 1;
    }
    MultiLineString { lines }
}

/// Law: simplifying with zero tolerance returns the path unchanged.
pub proof fn lemma_simplify_zero(s: Seq<Vertex>)
    ensures
        simplify_spec(s, 0) == s,
{
}

/// Law: a larger tolerance never yields more points than a smaller one.
pub proof fn lemma_simplify_monotone(s: Seq<Vertex>, t1: int, t2: int)
    requires
        0 <= t1 <= t2,
    ensures
        simplify_spec(s, t2).len() <= simplify_spec(s, t1).len(),
{
    broadcast use vstd::seq_lib::seq_to_set_is_finite;

    if t2 == 0 || s.len() <= 2 {
    } else {
        let n = s.len() as int;
        let k2 = dp_idx(s, 0, n - 1, t2);
        lemma_dp_idx_sorted(s, 0, n - 1, t2);
        lemma_sorted_no_dup(k2);
        k2.unique_seq_to_set();
        if t1 == 0 {
            lemma_dp_idx_len(s, 0, n - 1, t2);
        } else {
            let k1 = dp_idx(s, 0, n - 1, t1);
            lemma_dp_idx_sorted(s, 0, n - 1, t1);
            lemma_sorted_no_dup(k1);
            k1.unique_seq_to_set();
            lemma_dp_idx_monotone(s, 0, n - 1, t1, t2);
            lemma_len_subset(k2.to_set(), k1.to_set());
        }
    }
}

/// Law: a simplified path of two or more points keeps both endpoints, and
/// every point of the output is a point of the input.
pub proof fn lemma_simplify_endpoints(s: Seq<Vertex>, tol: int)
    requires
        s.len() >= 2,
    ensures
        simplify_spec(s, tol).len() >= 2,
        simplify_spec(s, tol)[0] == s[0],
        simplify_spec(s, tol).last() == s.last(),
        forall|i: int|
            0 <= i < simplify_spec(s, tol).len() ==> s.contains(#[trigger] simplify_spec(s, tol)[i]),
{
    let r = simplify_spec(s, tol);
    if tol == 0 || s.len() <= 2 {
        assert(forall|i: int| 0 <= i < r.len() ==> s.contains(#[trigger] r[i]));
    } else {
        let n = s.len() as int;
        lemma_dp_idx_sorted(s, 0, n - 1, tol);
        let ks = dp_idx(s, 0, n - 1, tol);
        assert(r.last() == s[n - 1]);
        assert forall|i: int| 0 <= i < r.len() implies s.contains(#[trigger] r[i]) by {
            if i == 0 {
                assert(r[i] == s[0]);
            } else if i == r.len() - 1 {
                assert(r[i] == s[n - 1]);
            } else {
                assert(r[i] == s[ks[i - 1]]);
            }
        }
    }
}

} // verus!
