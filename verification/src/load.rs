//! Ingestion steps around the cache: scaling raw geometry into rendering
//! units and grouping ways by their road class.

use vstd::prelude::*;

use crate::RATIO_ADJUST;
use crate::codec::ClassifiedWays;
use crate::codec::enc_cache;
use crate::codec::serialize_ways;
use crate::data::COORD_LIMIT;
use crate::data::Geo;
use crate::data::GeoModel;
use crate::data::Polygon;
use crate::data::PolygonModel;
use crate::data::Vertex;
use crate::data::Way;
use crate::data::WayClass;
use crate::data::WayPoint;
use crate::classify::str_eq;
use crate::errors::GeoError;
use crate::scaled;

verus! {

/// Exclusive magnitude bound on raw projected coordinates: anything below
/// this scales down into the rendering grid.
pub const RAW_LIMIT: i64 = 1_000_000 * 1000;

/// Scaling a bounded raw coordinate lands inside the rendering grid.
pub(crate) proof fn lemma_scaled_bound(v: int)
    requires
        -(RAW_LIMIT as int) <= v <= RAW_LIMIT as int,
    ensures
        -(COORD_LIMIT as int) <= scaled(v) <= COORD_LIMIT as int,
{
    if v >= 0 {
        vstd::arithmetic::div_mod::lemma_div_is_ordered(v, RAW_LIMIT as int, RATIO_ADJUST as int);
        vstd::arithmetic::div_mod::lemma_div_pos_is_pos(v, RATIO_ADJUST as int);
    } else {
        vstd::arithmetic::div_mod::lemma_div_is_ordered(-v, RAW_LIMIT as int, RATIO_ADJUST as int);
        vstd::arithmetic::div_mod::lemma_div_pos_is_pos(-v, RATIO_ADJUST as int);
    }
}

/// Turn one raw projected polyline into way points in rendering units: each
/// coordinate is scaled down by `RATIO_ADJUST` and the first point starts
/// the sub-path.
pub fn get_geometry(raw: &Vec<Vertex>) -> (r: Vec<WayPoint>)
    requires
        forall|i: int|
            0 <= i < raw@.len() ==> -RAW_LIMIT <= (#[trigger] raw@[i]).x <= RAW_LIMIT && -RAW_LIMIT
                <= raw@[i].y <= RAW_LIMIT,
    ensures
        r@.len() == raw@.len(),
        forall|i: int|
            0 <= i < r@.len() ==> {
                &&& (#[trigger] r@[i]).is_start == (i == 0)
                &&& r@[i].x as int == scaled(raw@[i].x as int)
                &&& r@[i].y as int == scaled(raw@[i].y as int)
                &&& r@[i].wf()
            },
{
    let n = raw.len();
    let mut r: Vec<WayPoint> = Vec::new();
    let mut i: usize = 0;
    while i < n
        invariant
            n == raw@.len(),
            forall|j: int|
                0 <= j < raw@.len() ==> -RAW_LIMIT <= (#[trigger] raw@[j]).x <= RAW_LIMIT
                    && -RAW_LIMIT <= raw@[j].y <= RAW_LIMIT,
            i <= n,
            r@.len() == i,
            forall|j: int|
                0 <= j < i ==> {
                    &&& (#[trigger] r@[j]).is_start == (j == 0)
                    &&& r@[j].x as int == scaled(raw@[j].x as int)
                    &&& r@[j].y as int == scaled(raw@[j].y as int)
                    &&& r@[j].wf()
                },
        decreases n - i,
    {
        let v = raw[i];
        proof {
            lemma_scaled_bound(v.x as int);
            lemma_scaled_bound(v.y as int);
        }
        let x = crate::scale_coordinate(v.x);
        let y = crate::scale_coordinate(v.y);
        r.push(WayPoint { is_start: i == 0, x, y });
        i += 1;
    }
    r
}

/// The ways of one road class, in their given order.
pub open spec fn ways_of_class(ws: Seq<Way>, c: WayClass) -> Seq<Way> {
    ws.filter(|w: Way| w.class == c)
}

/// Group ways by their road class, keeping each class's given order.
pub fn categorise_ways(ways: Vec<Way>) -> (r: ClassifiedWays)
    ensures
        r.minor@ == ways_of_class(ways@, WayClass::Minor),
        r.b_roads@ == ways_of_class(ways@, WayClass::BRoad),
        r.a_roads@ == ways_of_class(ways@, WayClass::ARoad),
        r.motorways@ == ways_of_class(ways@, WayClass::Motorway),
        r.unclassified@ == ways_of_class(ways@, WayClass::Unclassified),
        r.unknown@ == ways_of_class(ways@, WayClass::Unknown),
{
    proof {
        reveal(Seq::filter);
    }
    let ghost all = ways@;
    let mut rest = ways;
    let mut minor: Vec<Way> = Vec::new();
    let mut b_roads: Vec<Way> = Vec::new();
    let mut a_roads: Vec<Way> = Vec::new();
    let mut motorways: Vec<Way> = Vec::new();
    let mut unclassified: Vec<Way> = Vec::new();
    let mut unknown: Vec<Way> = Vec::new();
    let ghost mut i: int = 0;
    proof {
        assert(all.take(0) =~= Seq::<Way>::empty());
    }
    while rest.len() > 0
        invariant
            0 <= i <= all.len(),
            rest@ == all.skip(i),
            minor@ == ways_of_class(all.take(i), WayClass::Minor),
            b_roads@ == ways_of_class(all.take(i), WayClass::BRoad),
            a_roads@ == ways_of_class(all.take(i), WayClass::ARoad),
            motorways@ == ways_of_class(all.take(i), WayClass::Motorway),
            unclassified@ == ways_of_class(all.take(i), WayClass::Unclassified),
            unknown@ == ways_of_class(all.take(i), WayClass::Unknown),
        decreases rest@.len(),
    {
        let w = rest.remove(0);
        proof {
            assert(w == all[i]);
            assert(rest@ =~= all.skip(i + 1));
            assert(all.take(i + 1).drop_last() =~= all.take(i));
            assert(all.take(i + 1).last() == all[i]);
            reveal(Seq::filter);
        }
        match w.class {
            WayClass::Minor => minor.push(w),
            WayClass::BRoad => b_roads.push(w),
            WayClass::ARoad => a_roads.push(w),
            WayClass::Motorway => motorways.push(w),
            WayClass::Unclassified => unclassified.push(w),
            WayClass::Unknown => unknown.push(w),
        }
        proof {
            i = i + 1;
        }
    }
    proof {
        assert(all.take(i) =~= all);
    }
    ClassifiedWays { minor, b_roads, a_roads, motorways, unclassified, unknown }
}

/// Where a way joins existing name groups: the first group bearing its
/// name, or a new group of its own at the end.
pub open spec fn add_to_groups(groups: Seq<Seq<Way>>, w: Way) -> Seq<Seq<Way>>
    decreases groups.len(),
{
    if groups.len() == 0 {
        seq![seq![w]]
    } else if groups[0].len() > 0 && groups[0][0].name@ == w.name@ {
        seq![groups[0].push(w)] + groups.drop_first()
    } else {
        seq![groups[0]] + add_to_groups(groups.drop_first(), w)
    }
}

/// The ways grouped by name, in first-appearance order, each group in the
/// ways' given order.
pub open spec fn group_ways(ways: Seq<Way>) -> Seq<Seq<Way>>
    decreases ways.len(),
{
    if ways.len() == 0 {
        Seq::empty()
    } else {
        add_to_groups(group_ways(ways.drop_last()), ways.last())
    }
}

/// Joining at the first matching index updates exactly that group.
proof fn lemma_add_to_groups_at(groups: Seq<Seq<Way>>, w: Way, k: int)
    requires
        0 <= k < groups.len(),
        forall|j: int| 0 <= j < groups.len() ==> (#[trigger] groups[j]).len() > 0,
        forall|j: int| 0 <= j < k ==> (#[trigger] groups[j])[0].name@ != w.name@,
        groups[k][0].name@ == w.name@,
    ensures
        add_to_groups(groups, w) == groups.update(k, groups[k].push(w)),
    decreases k,
{
    if k == 0 {
        assert(add_to_groups(groups, w) =~= groups.update(0, groups[0].push(w)));
    } else {
        lemma_add_to_groups_at(groups.drop_first(), w, k - 1);
        assert(groups.drop_first()[k - 1] == groups[k]);
        assert(add_to_groups(groups, w) =~= groups.update(k, groups[k].push(w)));
    }
}

/// Joining with a fresh name appends a new group.
proof fn lemma_add_to_groups_new(groups: Seq<Seq<Way>>, w: Way)
    requires
        forall|j: int| 0 <= j < groups.len() ==> (#[trigger] groups[j]).len() > 0,
        forall|j: int| 0 <= j < groups.len() ==> (#[trigger] groups[j])[0].name@ != w.name@,
    ensures
        add_to_groups(groups, w) == groups.push(seq![w]),
    decreases groups.len(),
{
    if groups.len() == 0 {
        assert(add_to_groups(groups, w) =~= groups.push(seq![w]));
    } else {
        lemma_add_to_groups_new(groups.drop_first(), w);
        assert(add_to_groups(groups, w) =~= groups.push(seq![w]));
    }
}

/// Grouped ways keep every group non-empty.
proof fn lemma_group_ways_nonempty(ways: Seq<Way>)
    ensures
        forall|j: int|
            0 <= j < group_ways(ways).len() ==> (#[trigger] group_ways(ways)[j]).len() > 0,
    decreases ways.len(),
{
    if ways.len() > 0 {
        lemma_group_ways_nonempty(ways.drop_last());
        lemma_add_nonempty(group_ways(ways.drop_last()), ways.last());
    }
}

/// Joining preserves non-emptiness of every group.
proof fn lemma_add_nonempty(groups: Seq<Seq<Way>>, w: Way)
    requires
        forall|j: int| 0 <= j < groups.len() ==> (#[trigger] groups[j]).len() > 0,
    ensures
        forall|j: int|
            #![trigger add_to_groups(groups, w)[j]]
            0 <= j < add_to_groups(groups, w).len() ==> add_to_groups(groups, w)[j].len() > 0,
    decreases groups.len(),
{
    if groups.len() == 0 {
    } else if groups[0].len() > 0 && groups[0][0].name@ == w.name@ {
    } else {
        lemma_add_nonempty(groups.drop_first(), w);
        assert forall|j: int|
            #![trigger add_to_groups(groups, w)[j]]
            0 <= j < add_to_groups(groups, w).len() implies add_to_groups(groups, w)[j].len()
            > 0 by {
            if j > 0 {
                assert(add_to_groups(groups, w)[j] == add_to_groups(groups.drop_first(), w)[j - 1]);
            }
        }
    }
}

/// Merge ways that share a name into one group per name: groups appear in
/// first-appearance order and each keeps its ways' given order, so
/// fragments of one named way are concatenated for the segment grapher.
pub fn group_ways_by_name(ways: Vec<Way>) -> (r: Vec<Vec<Way>>)
    ensures
        r@.map_values(|g: Vec<Way>| g@) == group_ways(ways@),
{
    let ghost all = ways@;
    let mut rest = ways;
    let mut groups: Vec<Vec<Way>> = Vec::new();
    let ghost mut i: int = 0;
    proof {
        assert(all.take(0) =~= Seq::<Way>::empty());
        assert(groups@.map_values(|g: Vec<Way>| g@) =~= group_ways(all.take(0)));
    }
    while rest.len() > 0
        invariant
            0 <= i <= all.len(),
            rest@ == all.skip(i),
            groups@.map_values(|g: Vec<Way>| g@) == group_ways(all.take(i)),
        decreases rest@.len(),
    {
        let w = rest.remove(0);
        proof {
            assert(w == all[i]);
            assert(rest@ =~= all.skip(i + 1));
            assert(all.take(i + 1).drop_last() =~= all.take(i));
            assert(all.take(i + 1).last() == all[i]);
            lemma_group_ways_nonempty(all.take(i));
        }
        let ghost gv = groups@.map_values(|g: Vec<Way>| g@);
        let n = groups.len();
        let mut k: usize = 0;
        let mut found = false;
        while k < n && !found
            invariant
                n == groups@.len(),
                gv == groups@.map_values(|g: Vec<Way>| g@),
                forall|j: int| 0 <= j < gv.len() ==> (#[trigger] gv[j]).len() > 0,
                k <= n,
                !found ==> forall|j: int| 0 <= j < k ==> (#[trigger] gv[j])[0].name@ != w.name@,
                found ==> k < n && gv[k as int][0].name@ == w.name@ && (forall|j: int|
                    0 <= j < k ==> (#[trigger] gv[j])[0].name@ != w.name@),
            decreases n - k + (if found {
                0int
            } else {
                1int
            }),
        {
            proof {
                assert(gv[k as int] == groups@[k as int]@);
            }
            if str_eq(groups[k][0].name.as_str(), w.name.as_str()) {
                found = true;
            } else {
                k += 1;
            }
        }
        if found {
            proof {
                lemma_add_to_groups_at(gv, w, k as int);
            }
            let mut slot = groups.remove(k);
            slot.push(w);
            groups.insert(k, slot);
            proof {
                assert(groups@.map_values(|g: Vec<Way>| g@) =~= gv.update(
                    k as int,
                    gv[k as int].push(all[i]),
                ));
            }
        } else {
            proof {
                lemma_add_to_groups_new(gv, w);
            }
            let mut fresh: Vec<Way> = Vec::new();
            fresh.push(w);
            groups.push(fresh);
            proof {
                assert(fresh@ =~= seq![all[i]]);
                assert(groups@.map_values(|g: Vec<Way>| g@) =~= gv.push(seq![all[i]]));
            }
        }
        proof {
            i = i + 1;
        }
    }
    proof {
        assert(all.take(i) =~= all);
    }
    groups
}

/// One ingestion step: group the raw ways by class and serialize the
/// grouping into its cache form, ready to be written out.
pub fn create_geo(ways: Vec<Way>) -> (r: (ClassifiedWays, Vec<u8>))
    ensures
        r.0.minor@ == ways_of_class(ways@, WayClass::Minor),
        r.0.b_roads@ == ways_of_class(ways@, WayClass::BRoad),
        r.0.a_roads@ == ways_of_class(ways@, WayClass::ARoad),
        r.0.motorways@ == ways_of_class(ways@, WayClass::Motorway),
        r.0.unclassified@ == ways_of_class(ways@, WayClass::Unclassified),
        r.0.unknown@ == ways_of_class(ways@, WayClass::Unknown),
        r.1@ == enc_cache(r.0@),
{
    let classified = categorise_ways(ways);
    let bytes = serialize_ways(&classified);
    (classified, bytes)
}


/// One raw feature geometry as a source parser hands it over: a single
/// polygon, a multi-polygon, or a geometry kind the pipeline does not take.
#[derive(Clone, Debug, PartialEq)]
pub enum RawGeometry {
    One(Polygon),
    Many(Vec<Polygon>),
    Unsupported,
}

/// The polygon group of one feature's geometry: a single polygon kept, a
/// multi-polygon flattened.
pub open spec fn geometry_polygons(g: RawGeometry) -> Seq<PolygonModel> {
    match g {
        RawGeometry::One(p) => seq![p@],
        RawGeometry::Many(ps) => ps@.map_values(|p: Polygon| p@),
        RawGeometry::Unsupported => Seq::empty(),
    }
}

/// Whether a feature's geometry, if any, is of a kind the pipeline takes.
pub open spec fn geometry_supported(f: Option<RawGeometry>) -> bool {
    match f {
        Some(RawGeometry::Unsupported) => false,
        _ => true,
    }
}

/// The polygon groups of a feature list: one group per feature that has a
/// geometry, in order.
pub open spec fn features_polygons(feats: Seq<Option<RawGeometry>>) -> Seq<GeoModel>
    decreases feats.len(),
{
    if feats.len() == 0 {
        Seq::empty()
    } else {
        let rest = features_polygons(feats.drop_last());
        match feats.last() {
            Some(g) => rest.push(GeoModel { geo: geometry_polygons(g) }),
            None => rest,
        }
    }
}

/// Map parsed features into polygon groups: a feature without a geometry is
/// skipped, a polygon is kept, a multi-polygon is flattened, and any other
/// geometry kind is malformed input that aborts ingestion.
pub fn extract_polygons(feats: Vec<Option<RawGeometry>>) -> (r: Result<Vec<Geo>, GeoError>)
    ensures
        r is Ok <==> (forall|i: int| 0 <= i < feats@.len() ==> geometry_supported(#[trigger] feats@[i])),
        match r {
            Ok(gs) => gs@.map_values(|g: Geo| g@) == features_polygons(feats@),
            Err(e) => e == GeoError::MalformedInput,
        },
{
    let ghost all = feats@;
    let mut rest = feats;
    let mut out: Vec<Geo> = Vec::new();
    let ghost mut i: int = 0;
    proof {
        assert(all.take(0) =~= Seq::<Option<RawGeometry>>::empty());
        assert(out@.map_values(|g: Geo| g@) =~= features_polygons(all.take(0)));
    }
    while rest.len() > 0
        invariant
            all == feats@,
            0 <= i <= all.len(),
            rest@ == all.skip(i),
            out@.map_values(|g: Geo| g@) == features_polygons(all.take(i)),
            forall|j: int| 0 <= j < i ==> geometry_supported(#[trigger] all[j]),
        decreases rest@.len(),
    {
        let f = rest.remove(0);
        proof {
            assert(f == all[i]);
            assert(rest@ =~= all.skip(i + 1));
            assert(all.take(i + 1).drop_last() =~= all.take(i));
            assert(all.take(i + 1).last() == all[i]);
        }
        let ghost before = out@.map_values(|g: Geo| g@);
        match f {
            None => {},
            Some(RawGeometry::One(p)) => {
                let mut geo: Vec<Polygon> = Vec::new();
                geo.push(p);
                let group = Geo { geo };
                proof {
                    assert(group@.geo =~= geometry_polygons(all[i]->Some_0));
                }
                out.push(group);
                proof {
                    assert(out@.map_values(|g: Geo| g@) =~= before.push(
                        GeoModel { geo: geometry_polygons(all[i]->Some_0) },
                    ));
                }
            },
            Some(RawGeometry::Many(ps)) => {
                let group = Geo { geo: ps };
                out.push(group);
                proof {
                    assert(out@.map_values(|g: Geo| g@) =~= before.push(
                        GeoModel { geo: geometry_polygons(all[i]->Some_0) },
                    ));
                }
            },
            Some(RawGeometry::Unsupported) => {
                proof {
                    assert(!geometry_supported(all[i]));
                }
                return Err(GeoError::MalformedInput);
            },
        }
        proof {
            i = i + 1;
        }
    }
    proof {
        assert(all.take(i) =~= all);
    }
    Ok(out)
}

} // verus!
