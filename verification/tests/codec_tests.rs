use ridgeline::ClassifiedWays;
use ridgeline::GeoError;
use ridgeline::Way;
use ridgeline::WayClass;
use ridgeline::WayForm;
use ridgeline::WayPoint;
use ridgeline::deserialize_ways;
use ridgeline::serialize_ways;

fn wp(is_start: bool, x: i64, y: i64) -> WayPoint {
    WayPoint { is_start, x, y }
}

fn empty_cache() -> ClassifiedWays {
    ClassifiedWays {
        minor: vec![],
        b_roads: vec![],
        a_roads: vec![],
        motorways: vec![],
        unclassified: vec![],
        unknown: vec![],
    }
}

fn sample_cache() -> ClassifiedWays {
    ClassifiedWays {
        minor: vec![],
        b_roads: vec![Way {
            name: "B1042".to_string(),
            class: WayClass::BRoad,
            form: WayForm::SingleCarriageway,
            way_points: vec![wp(true, 0, 0), wp(false, 10, 0), wp(false, 20, 5)],
        }],
        a_roads: vec![Way {
            // A multi-part way: the second sub-path starts at a break.
            name: "A1".to_string(),
            class: WayClass::ARoad,
            form: WayForm::DualCarriageway,
            way_points: vec![
                wp(true, 0, 0),
                wp(false, 10, 0),
                wp(true, 50, 50),
                wp(false, 60, 50),
            ],
        }],
        motorways: vec![Way {
            name: "M1 (Señalización)".to_string(),
            class: WayClass::Motorway,
            form: WayForm::CollapsedDualCarriageway,
            way_points: vec![wp(true, -5, -7), wp(false, -100, 42)],
        }],
        unclassified: vec![Way {
            name: String::new(),
            class: WayClass::Unclassified,
            form: WayForm::Roundabout,
            way_points: vec![],
        }],
        unknown: vec![
            Way {
                name: "lane".to_string(),
                class: WayClass::Unknown,
                form: WayForm::SlipRoad,
                way_points: vec![wp(true, 1, 1)],
            },
            Way {
                name: "busway".to_string(),
                class: WayClass::Unknown,
                form: WayForm::TransitWay,
                way_points: vec![wp(true, 2, 2), wp(false, 3, 3)],
            },
        ],
    }
}

#[test]
fn cache_round_trip_on_representative_ways() {
    let cache = sample_cache();
    let bytes = serialize_ways(&cache);
    let back = deserialize_ways(&bytes).expect("the written cache must read back");
    assert_eq!(back, cache);
}

#[test]
fn cache_round_trip_on_empty_collection() {
    let cache = empty_cache();
    let bytes = serialize_ways(&cache);
    let back = deserialize_ways(&bytes).expect("the empty cache must read back");
    assert_eq!(back, cache);
}

#[test]
fn truncated_cache_is_a_schema_mismatch() {
    let bytes = serialize_ways(&sample_cache());
    for cut in [0, 1, 7, 8, 9, bytes.len() - 1] {
        let truncated: Vec<u8> = bytes[..cut].to_vec();
        assert_eq!(deserialize_ways(&truncated), Err(GeoError::SchemaMismatch));
    }
}

#[test]
fn trailing_garbage_is_a_schema_mismatch() {
    let mut bytes = serialize_ways(&sample_cache());
    bytes.push(0);
    assert_eq!(deserialize_ways(&bytes), Err(GeoError::SchemaMismatch));
}

#[test]
fn mismatched_scale_is_a_schema_mismatch() {
    // A cache written under another scale divisor must be rejected, not
    // rendered skewed.
    let mut bytes = serialize_ways(&empty_cache());
    bytes[0] = bytes[0].wrapping_add(1);
    assert_eq!(deserialize_ways(&bytes), Err(GeoError::SchemaMismatch));
}

#[test]
fn corrupt_class_byte_is_a_schema_mismatch() {
    let cache = sample_cache();
    let bytes = serialize_ways(&cache);
    // Find the class byte of the first B road: it follows the scale, the
    // minor count, the b-road count, and the name (length prefix + bytes).
    let idx = 8 + 8 + 8 + 8 + "B1042".len();
    let mut corrupted = bytes.clone();
    corrupted[idx] = 99;
    assert_eq!(deserialize_ways(&corrupted), Err(GeoError::SchemaMismatch));
}

use ridgeline::Geo;
use ridgeline::Location;
use ridgeline::Polygon;
use ridgeline::Vertex;
use ridgeline::deserialize_boundaries;
use ridgeline::deserialize_cities;
use ridgeline::deserialize_geo;
use ridgeline::serialize_boundaries;
use ridgeline::serialize_cities;
use ridgeline::serialize_geo;

#[test]
fn cities_cache_round_trip() {
    let cities = vec![
        Location { name: "Bergstad".to_string(), x: 12, y: -34, population: 56_000, region_id: Some(3) },
        Location { name: String::new(), x: 0, y: 0, population: 0, region_id: None },
        Location { name: "Ólafsvík".to_string(), x: -999, y: 999, population: 1_200, region_id: Some(-1) },
    ];
    let bytes = serialize_cities(&cities);
    let back = deserialize_cities(&bytes).expect("the written settlements cache must read back");
    assert_eq!(back, cities);
}

#[test]
fn truncated_cities_cache_is_a_schema_mismatch() {
    let bytes = serialize_cities(&vec![Location {
        name: "x".to_string(),
        x: 1,
        y: 2,
        population: 3,
        region_id: None,
    }]);
    let truncated: Vec<u8> = bytes[..bytes.len() - 1].to_vec();
    assert_eq!(deserialize_cities(&truncated), Err(GeoError::SchemaMismatch));
}

#[test]
fn boundaries_cache_round_trip() {
    let boundaries = vec![
        vec![wp(true, 0, 0), wp(false, 5, 5), wp(false, 9, 2)],
        vec![],
        vec![wp(true, -3, -3)],
    ];
    let bytes = serialize_boundaries(&boundaries);
    let back = deserialize_boundaries(&bytes).expect("the written boundaries cache must read back");
    assert_eq!(back, boundaries);
}

#[test]
fn boundaries_bad_scale_is_a_schema_mismatch() {
    let mut bytes = serialize_boundaries(&vec![]);
    bytes[0] = bytes[0].wrapping_add(1);
    assert_eq!(deserialize_boundaries(&bytes), Err(GeoError::SchemaMismatch));
}

#[test]
fn geo_cache_round_trip() {
    let v = |x: i64, y: i64| Vertex { x, y };
    let groups = vec![
        Geo {
            geo: vec![
                Polygon {
                    exterior: vec![v(0, 0), v(10, 0), v(10, 10), v(0, 10)],
                    interiors: vec![vec![v(4, 4), v(6, 4), v(5, 6)]],
                },
                Polygon { exterior: vec![v(20, 20), v(30, 20), v(25, 30)], interiors: vec![] },
            ],
        },
        Geo { geo: vec![] },
    ];
    let bytes = serialize_geo(&groups);
    let back = deserialize_geo(&bytes).expect("the written polygons cache must read back");
    assert_eq!(back, groups);
}

#[test]
fn truncated_geo_cache_is_a_schema_mismatch() {
    let bytes = serialize_geo(&vec![Geo {
        geo: vec![Polygon { exterior: vec![Vertex { x: 1, y: 1 }], interiors: vec![] }],
    }]);
    let truncated: Vec<u8> = bytes[..bytes.len() - 3].to_vec();
    assert_eq!(deserialize_geo(&truncated), Err(GeoError::SchemaMismatch));
}

use ridgeline::deserialize_grouped_ways;
use ridgeline::serialize_grouped_ways;

#[test]
fn grouped_ways_cache_round_trip() {
    let groups = vec![
        vec![
            Way {
                name: "A1".to_string(),
                class: WayClass::ARoad,
                form: WayForm::DualCarriageway,
                way_points: vec![wp(true, 0, 0), wp(false, 10, 0)],
            },
            Way {
                name: "A1".to_string(),
                class: WayClass::ARoad,
                form: WayForm::DualCarriageway,
                way_points: vec![wp(true, 10, 0), wp(false, 20, 0)],
            },
        ],
        vec![Way {
            name: "B660".to_string(),
            class: WayClass::BRoad,
            form: WayForm::SingleCarriageway,
            way_points: vec![wp(true, 5, 5)],
        }],
    ];
    let bytes = serialize_grouped_ways(&groups);
    let back = deserialize_grouped_ways(&bytes).expect("the written grouped cache must read back");
    assert_eq!(back, groups);
}

#[test]
fn truncated_grouped_cache_is_a_schema_mismatch() {
    let bytes = serialize_grouped_ways(&vec![vec![]]);
    let truncated: Vec<u8> = bytes[..bytes.len() - 1].to_vec();
    assert_eq!(deserialize_grouped_ways(&truncated), Err(GeoError::SchemaMismatch));
}
