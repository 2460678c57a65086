use ridgeline::Vertex;
use ridgeline::Way;
use ridgeline::WayClass;
use ridgeline::WayForm;
use ridgeline::WayPoint;
use ridgeline::categorise_ways;
use ridgeline::create_geo;
use ridgeline::deserialize_ways;
use ridgeline::get_geometry;
use ridgeline::scale_coordinate;

fn way(name: &str, class: WayClass) -> Way {
    Way {
        name: name.to_string(),
        class,
        form: WayForm::SingleCarriageway,
        way_points: vec![WayPoint { is_start: true, x: 0, y: 0 }],
    }
}

#[test]
fn scale_coordinate_truncates_toward_zero() {
    assert_eq!(scale_coordinate(1500), 1);
    assert_eq!(scale_coordinate(999), 0);
    assert_eq!(scale_coordinate(-1500), -1);
    assert_eq!(scale_coordinate(-999), 0);
    assert_eq!(scale_coordinate(123_456_789), 123_456);
}

#[test]
fn get_geometry_scales_and_marks_first_point() {
    let raw = vec![
        Vertex { x: 1_000, y: 2_000 },
        Vertex { x: 3_500, y: -4_500 },
        Vertex { x: 0, y: 0 },
    ];
    let out = get_geometry(&raw);
    assert_eq!(
        out,
        vec![
            WayPoint { is_start: true, x: 1, y: 2 },
            WayPoint { is_start: false, x: 3, y: -4 },
            WayPoint { is_start: false, x: 0, y: 0 },
        ]
    );
}

#[test]
fn categorise_ways_groups_by_class_in_order() {
    let ways = vec![
        way("a1", WayClass::ARoad),
        way("m1", WayClass::Motorway),
        way("a2", WayClass::ARoad),
        way("u1", WayClass::Unclassified),
        way("x1", WayClass::Unknown),
        way("b1", WayClass::BRoad),
        way("n1", WayClass::Minor),
    ];
    let grouped = categorise_ways(ways);
    let names = |ws: &Vec<Way>| ws.iter().map(|w| w.name.clone()).collect::<Vec<_>>();
    assert_eq!(names(&grouped.a_roads), vec!["a1", "a2"]);
    assert_eq!(names(&grouped.motorways), vec!["m1"]);
    assert_eq!(names(&grouped.unclassified), vec!["u1"]);
    assert_eq!(names(&grouped.unknown), vec!["x1"]);
    assert_eq!(names(&grouped.b_roads), vec!["b1"]);
    assert_eq!(names(&grouped.minor), vec!["n1"]);
}

#[test]
fn create_geo_serializes_the_grouping() {
    let ways = vec![way("a1", WayClass::ARoad), way("b1", WayClass::BRoad)];
    let (grouped, bytes) = create_geo(ways);
    assert_eq!(grouped.a_roads.len(), 1);
    assert_eq!(grouped.b_roads.len(), 1);
    let back = deserialize_ways(&bytes).expect("cache written by ingestion must read back");
    assert_eq!(back, grouped);
}

use ridgeline::GeoError;
use ridgeline::Polygon;
use ridgeline::RawGeometry;
use ridgeline::extract_polygons;

fn tri(x: i64, y: i64) -> Polygon {
    Polygon {
        exterior: vec![
            Vertex { x, y },
            Vertex { x: x + 4, y },
            Vertex { x: x + 2, y: y + 3 },
        ],
        interiors: vec![],
    }
}

#[test]
fn extract_polygons_keeps_and_flattens() {
    let feats = vec![
        Some(RawGeometry::One(tri(0, 0))),
        None,
        Some(RawGeometry::Many(vec![tri(10, 10), tri(20, 20)])),
    ];
    let groups = extract_polygons(feats).expect("supported geometries must be accepted");
    assert_eq!(groups.len(), 2);
    assert_eq!(groups[0].geo, vec![tri(0, 0)]);
    assert_eq!(groups[1].geo, vec![tri(10, 10), tri(20, 20)]);
}

#[test]
fn extract_polygons_rejects_unsupported_geometry() {
    let feats = vec![
        Some(RawGeometry::One(tri(0, 0))),
        Some(RawGeometry::Unsupported),
    ];
    assert_eq!(extract_polygons(feats), Err(GeoError::MalformedInput));
}
