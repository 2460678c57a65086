//! Point de-duplicator: greedily select a maximal subset of
//! population-weighted settlement points such that no two selected points
//! are closer than a caller-supplied radius.
//!
//! Candidates are taken in their given order — callers pre-sort by
//! descending importance — and a candidate is accepted exactly when it
//! meets the population floor and keeps Euclidean distance at least
//! `min_radius` to every point already accepted.  Distances are compared
//! exactly on squares.

use vstd::prelude::*;

use crate::data::Location;
use crate::data::coord_ok;
use crate::load::RAW_LIMIT;
use crate::scaled;

verus! {

/// Population floor for a settlement to be shown at all.
pub const MIN_POPULATION: i64 = 25_000;

/// A location with its raw projected coordinates scaled into rendering
/// units.
pub open spec fn scale_location(l: Location) -> Location {
    Location {
        name: l.name,
        x: scaled(l.x as int) as i64,
        y: scaled(l.y as int) as i64,
        population: l.population,
        region_id: l.region_id,
    }
}

/// Squared Euclidean distance between two locations.
pub open spec fn dist_sq(a: Location, b: Location) -> int {
    (a.x - b.x) * (a.x - b.x) + (a.y - b.y) * (a.y - b.y)
}

/// Whether a candidate keeps at least `min_radius` from every accepted
/// point, compared on squares.
pub open spec fn far_from_all(accepted: Seq<Location>, cand: Location, min_radius: int) -> bool {
    forall|i: int|
        0 <= i < accepted.len() ==> dist_sq(#[trigger] accepted[i], cand) >= min_radius
            * min_radius
}

/// What greedy de-duplication selects: walking the candidates in order,
/// keep each one that meets the population floor and stays out of every
/// kept point's exclusion radius.
pub open spec fn greedy_select(locs: Seq<Location>, min_radius: int, min_weight: int) -> Seq<
    Location,
>
    decreases locs.len(),
{
    if locs.len() == 0 {
        Seq::empty()
    } else {
        let prefix = greedy_select(locs.drop_last(), min_radius, min_weight);
        let cand = locs.last();
        if cand.population >= min_weight && far_from_all(prefix, cand, min_radius) {
            prefix.push(cand)
        } else {
            prefix
        }
    }
}

/// Every location of a sequence is within the coordinate bound.
pub open spec fn locations_wf(locs: Seq<Location>) -> bool {
    forall|i: int| 0 <= i < locs.len() ==> coord_ok((#[trigger] locs[i]).x as int, locs[i].y as int)
}

/// Squared distance between two locations, computed exactly.
fn dist_sq_exec(a: &Location, b: &Location) -> (d: i128)
    requires
        coord_ok(a.x as int, a.y as int),
        coord_ok(b.x as int, b.y as int),
    ensures
        d as int == dist_sq(*a, *b),
{
    let dx: i128 = (a.x as i128) - (b.x as i128);
    let dy: i128 = (a.y as i128) - (b.y as i128);
    proof {
        crate::simplify::lemma_mul_bound(dx as int, dx as int, 2_000_000, 2_000_000);
        crate::simplify::lemma_mul_bound(dy as int, dy as int, 2_000_000, 2_000_000);
    }
    dx * dx + dy * dy
}

/// Greedily select the points to keep: walk the candidates in their given
/// order and accept each one that meets the population floor and keeps at
/// least `min_radius` to every point accepted before it.
pub fn dedupe(locations: &Vec<Location>, min_radius: i64, min_weight: i64) -> (r: Vec<Location>)
    requires
        locations_wf(locations@),
        0 <= min_radius,
    ensures
        r@ == greedy_select(locations@, min_radius as int, min_weight as int),
{
    let ghost rad = min_radius as int;
    let ghost wt = min_weight as int;
    proof {
        crate::simplify::lemma_mul_bound(
            min_radius as int,
            min_radius as int,
            0x8000_0000_0000_0000,
            0x8000_0000_0000_0000,
        );
    }
    let r2: i128 = (min_radius as i128) * (min_radius as i128);
    let mut out: Vec<Location> = Vec::new();
    let n = locations.len();
    let mut i: usize = 0;
    while i < n
        invariant
            n == locations@.len(),
            locations_wf(locations@),
            0 <= min_radius,
            rad == min_radius as int,
            wt == min_weight as int,
            r2 as int == rad * rad,
            i <= n,
            out@ == greedy_select(locations@.take(i as int), rad, wt),
            locations_wf(out@),
        decreases n - i,
    {
        let cand = &locations[i];
        proof {
            assert(coord_ok(locations@[i as int].x as int, locations@[i as int].y as int));
        }
        let mut ok = cand.population >= min_weight;
        if ok {
            let k = out.len();
            let mut j: usize = 0;
            while j < k
                invariant
                    k == out@.len(),
                    locations_wf(out@),
                    i < n,
                    n == locations@.len(),
                    locations_wf(locations@),
                    r2 as int == rad * rad,
                    j <= k,
                    ok == far_from_all(out@.take(j as int), locations@[i as int], rad),
                decreases k - j,
            {
                proof {
                    assert(coord_ok(out@[j as int].x as int, out@[j as int].y as int));
                    assert(coord_ok(
                        locations@[i as int].x as int,
                        locations@[i as int].y as int,
                    ));
                }
                let ghost ok_before = ok;
                let d = dist_sq_exec(&out[j], &locations[i]);
                proof {
                    assert(out@.take(j + 1) =~= out@.take(j as int).push(out@[j as int]));
                }
                if d < r2 {
                    ok = false;
                }
                proof {
                    if ok {
                        assert forall|t: int| 0 <= t < j + 1 implies dist_sq(
                            #[trigger] out@.take(j + 1)[t],
                            locations@[i as int],
                        ) >= rad * rad by {
                            if t < j {
                                assert(out@.take(j as int)[t] == out@.take(j + 1)[t]);
                            }
                        }
                    } else if ok_before {
                        assert(out@.take(j + 1)[j as int] == out@[j as int]);
                        assert(dist_sq(out@.take(j + 1)[j as int], locations@[i as int]) < rad
                            * rad);
                        assert(!far_from_all(out@.take(j + 1), locations@[i as int], rad));
                    } else {
                        let w = choose|w: int|
                            0 <= w < j && dist_sq(
                                #[trigger] out@.take(j as int)[w],
                                locations@[i as int],
                            ) < rad * rad;
                        assert(out@.take(j + 1)[w] == out@.take(j as int)[w]);
                        assert(dist_sq(out@.take(j + 1)[w], locations@[i as int]) < rad * rad);
                        assert(!far_from_all(out@.take(j + 1), locations@[i as int], rad));
                    }
                }
                j += 1;
            }
            proof {
                assert(out@.take(k as int) =~= out@);
            }
        }
        proof {
            assert(locations@.take(i + 1).drop_last() =~= locations@.take(i as int));
            assert(locations@.take(i + 1).last() == locations@[i as int]);
        }
        if ok {
            let src_loc = &locations[i];
            let keep = Location {
                name: src_loc.name.clone(),
                x: src_loc.x,
                y: src_loc.y,
                population: src_loc.population,
                region_id: src_loc.region_id,
            };
            proof {
                assert(keep == locations@[i as int]);
            }
            out.push(keep);
            proof {
                assert forall|t: int|
                    0 <= t < out@.len() implies coord_ok(
                    (#[trigger] out@[t]).x as int,
                    out@[t].y as int,
                ) by {
                    if t == out@.len() - 1 {
                        assert(out@[t] == locations@[i as int]);
                    }
                }
            }
        }
        i += 1;
    }
    proof {
        assert(locations@.take(n as int) =~= locations@);
    }
    out
}

/// Load the settlement points to show: scale each candidate into rendering
/// units, then greedily keep those above the population floor that stay
/// `radius` apart, in the candidates' given order.
pub fn load_cities(locations: Vec<Location>, radius: i64) -> (r: Vec<Location>)
    requires
        forall|i: int|
            0 <= i < locations@.len() ==> -RAW_LIMIT <= (#[trigger] locations@[i]).x <= RAW_LIMIT
                && -RAW_LIMIT <= locations@[i].y <= RAW_LIMIT,
        0 <= radius,
    ensures
        r@ == greedy_select(
            locations@.map_values(|l: Location| scale_location(l)),
            radius as int,
            MIN_POPULATION as int,
        ),
{
    let ghost target = locations@.map_values(|l: Location| scale_location(l));
    let mut scaled_locs: Vec<Location> = Vec::new();
    let n = locations.len();
    let mut i: usize = 0;
    while i < n
        invariant
            n == locations@.len(),
            forall|j: int|
                0 <= j < locations@.len() ==> -RAW_LIMIT <= (#[trigger] locations@[j]).x
                    <= RAW_LIMIT && -RAW_LIMIT <= locations@[j].y <= RAW_LIMIT,
            target == locations@.map_values(|l: Location| scale_location(l)),
            i <= n,
            scaled_locs@.len() == i,
            forall|j: int| 0 <= j < i ==> #[trigger] scaled_locs@[j] == target[j],
            locations_wf(scaled_locs@),
        decreases n - i,
    {
        let l = &locations[i];
        proof {
            crate::load::lemma_scaled_bound(l.x as int);
            crate::load::lemma_scaled_bound(l.y as int);
        }
        let x = crate::scale_coordinate(l.x);
        let y = crate::scale_coordinate(l.y);
        let s = Location {
            name: l.name.clone(),
            x,
            y,
            population: l.population,
            region_id: l.region_id,
        };
        proof {
            assert(s == scale_location(locations@[i as int]));
        }
        scaled_locs.push(s);
        proof {
            assert forall|t: int|
                0 <= t < scaled_locs@.len() implies coord_ok(
                (#[trigger] scaled_locs@[t]).x as int,
                scaled_locs@[t].y as int,
            ) by {
                assert(scaled_locs@[t] == target[t]);
            }
        }
        i += 1;
    }
    proof {
        assert(scaled_locs@ =~= target);
    }
    dedupe(&scaled_locs, radius, MIN_POPULATION)
}

/// Squared distance is symmetric.
proof fn lemma_dist_sq_sym(a: Location, b: Location)
    ensures
        dist_sq(a, b) == dist_sq(b, a),
{
    assert((a.x - b.x) * (a.x - b.x) == (b.x - a.x) * (b.x - a.x)) by (nonlinear_arith);
    assert((a.y - b.y) * (a.y - b.y) == (b.y - a.y) * (b.y - a.y)) by (nonlinear_arith);
}

/// Law: every point the de-duplicator accepts meets the population floor,
/// every accepted point is one of the candidates, and every two distinct
/// accepted points keep Euclidean distance at least `min_radius` apart.
pub proof fn lemma_dedupe_separated(locs: Seq<Location>, min_radius: int, min_weight: int)
    ensures
        ({
            let r = greedy_select(locs, min_radius, min_weight);
            &&& forall|i: int| 0 <= i < r.len() ==> (#[trigger] r[i]).population >= min_weight
            &&& forall|i: int| 0 <= i < r.len() ==> locs.contains(#[trigger] r[i])
            &&& forall|i: int, j: int|
                0 <= i < r.len() && 0 <= j < r.len() && i != j ==> dist_sq(
                    #[trigger] r[i],
                    #[trigger] r[j],
                ) >= min_radius * min_radius
        }),
    decreases locs.len(),
{
    if locs.len() == 0 {
    } else {
        lemma_dedupe_separated(locs.drop_last(), min_radius, min_weight);
        let prefix = greedy_select(locs.drop_last(), min_radius, min_weight);
        let cand = locs.last();
        let r = greedy_select(locs, min_radius, min_weight);
        assert forall|i: int| 0 <= i < prefix.len() implies locs.contains(#[trigger] prefix[i]) by {
            let w = choose|w: int|
                0 <= w < locs.drop_last().len() && locs.drop_last()[w] == prefix[i];
            assert(locs[w] == prefix[i]);
        }
        assert(locs[locs.len() - 1] == cand);
        assert(locs.contains(cand));
        if cand.population >= min_weight && far_from_all(prefix, cand, min_radius) {
            assert(r == prefix.push(cand));
            assert forall|i: int, j: int|
                0 <= i < r.len() && 0 <= j < r.len() && i != j implies dist_sq(
                #[trigger] r[i],
                #[trigger] r[j],
            ) >= min_radius * min_radius by {
                if i < prefix.len() && j < prefix.len() {
                    assert(r[i] == prefix[i] && r[j] == prefix[j]);
                } else if j == prefix.len() {
                    assert(r[i] == prefix[i] && r[j] == cand);
                } else {
                    assert(r[j] == prefix[j] && r[i] == cand);
                    lemma_dist_sq_sym(cand, prefix[j]);
                }
            }
        }
    }
}


/// A shorter candidate list selects a prefix of what a longer one selects.
proof fn lemma_greedy_prefix(locs: Seq<Location>, min_radius: int, min_weight: int)
    requires
        locs.len() > 0,
    ensures
        greedy_select(locs, min_radius, min_weight).len() >= greedy_select(
            locs.drop_last(),
            min_radius,
            min_weight,
        ).len(),
        forall|i: int|
            0 <= i < greedy_select(locs.drop_last(), min_radius, min_weight).len()
                ==> #[trigger] greedy_select(locs, min_radius, min_weight)[i] == greedy_select(
                locs.drop_last(),
                min_radius,
                min_weight,
            )[i],
{
}

/// The selection of a prefix of the candidates is a prefix of the final
/// selection.
proof fn lemma_greedy_take_prefix(locs: Seq<Location>, n: int, min_radius: int, min_weight: int)
    requires
        0 <= n <= locs.len(),
    ensures
        greedy_select(locs, min_radius, min_weight).len() >= greedy_select(
            locs.take(n),
            min_radius,
            min_weight,
        ).len(),
        forall|i: int|
            0 <= i < greedy_select(locs.take(n), min_radius, min_weight).len()
                ==> #[trigger] greedy_select(locs, min_radius, min_weight)[i] == greedy_select(
                locs.take(n),
                min_radius,
                min_weight,
            )[i],
    decreases locs.len() - n,
{
    if n == locs.len() {
        assert(locs.take(n) =~= locs);
    } else {
        lemma_greedy_take_prefix(locs, n + 1, min_radius, min_weight);
        assert(locs.take(n + 1).drop_last() =~= locs.take(n));
        lemma_greedy_prefix(locs.take(n + 1), min_radius, min_weight);
    }
}

/// Law: the selection is maximal.  Every candidate that meets the
/// population floor is either selected or lies strictly within the
/// exclusion radius of some selected point: nothing more could have been
/// accepted without breaking the separation guarantee.
pub proof fn lemma_dedupe_maximal(locs: Seq<Location>, min_radius: int, min_weight: int, t: int)
    requires
        0 <= t < locs.len(),
        locs[t].population >= min_weight,
    ensures
        ({
            let r = greedy_select(locs, min_radius, min_weight);
            (exists|i: int| 0 <= i < r.len() && r[i] == locs[t]) || (exists|i: int|
                0 <= i < r.len() && dist_sq(#[trigger] r[i], locs[t]) < min_radius * min_radius)
        }),
    decreases locs.len(),
{
    let r = greedy_select(locs, min_radius, min_weight);
    let pre = greedy_select(locs.take(t + 1).drop_last(), min_radius, min_weight);
    let step = greedy_select(locs.take(t + 1), min_radius, min_weight);
    assert(locs.take(t + 1).last() == locs[t]);
    if far_from_all(pre, locs[t], min_radius) {
        assert(step == pre.push(locs[t]));
        lemma_greedy_take_prefix(locs, t + 1, min_radius, min_weight);
        assert(r[step.len() - 1] == locs[t]);
    } else {
        let w = choose|w: int|
            0 <= w < pre.len() && dist_sq(#[trigger] pre[w], locs[t]) < min_radius * min_radius;
        assert(locs.take(t + 1).drop_last() =~= locs.take(t));
        lemma_greedy_take_prefix(locs, t, min_radius, min_weight);
        assert(r[w] == pre[w]);
    }
}

} // verus!
