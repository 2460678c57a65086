use ridgeline::Geo;
use ridgeline::PathVerb;
use ridgeline::Polygon;
use ridgeline::Vertex;
use ridgeline::WayPoint;
use ridgeline::boundaries_to_paths;
use ridgeline::build_path;
use ridgeline::convert_paths;
use ridgeline::filled;
use ridgeline::path_from_ways;
use ridgeline::polygon_path;

fn v(x: i64, y: i64) -> Vertex {
    Vertex { x, y }
}

#[test]
fn way_path_alternates_moves_and_lines() {
    let points = vec![
        WayPoint { is_start: true, x: 0, y: 0 },
        WayPoint { is_start: false, x: 1, y: 2 },
        WayPoint { is_start: true, x: 5, y: 5 },
        WayPoint { is_start: false, x: 6, y: 7 },
    ];
    let path = path_from_ways(&points);
    assert_eq!(
        path.verbs,
        vec![
            PathVerb::MoveTo(v(0, 0)),
            PathVerb::LineTo(v(1, 2)),
            PathVerb::MoveTo(v(5, 5)),
            PathVerb::LineTo(v(6, 7)),
        ]
    );
}

#[test]
fn ring_path_is_closed() {
    let ring = vec![v(0, 0), v(10, 0), v(10, 10)];
    let path = build_path(&ring);
    assert_eq!(
        path.verbs,
        vec![
            PathVerb::MoveTo(v(0, 0)),
            PathVerb::LineTo(v(10, 0)),
            PathVerb::LineTo(v(10, 10)),
            PathVerb::Close,
        ]
    );
}

#[test]
fn degenerate_ring_yields_empty_path() {
    let ring = vec![v(0, 0), v(10, 0)];
    let path = build_path(&ring);
    assert_eq!(path.verbs, vec![]);
}

#[test]
fn square_with_triangular_hole_fill_test() {
    // A square exterior ring with a triangular hole: the fill test is false
    // inside the hole and true in the solid part.
    let poly = Polygon {
        exterior: vec![v(0, 0), v(10, 0), v(10, 10), v(0, 10)],
        interiors: vec![vec![v(4, 4), v(6, 4), v(5, 6)]],
    };
    let path = polygon_path(&poly);
    assert!(!filled(&path, v(5, 5)));
    assert!(filled(&path, v(1, 1)));
}

#[test]
fn hole_interior_is_never_filled() {
    let poly = Polygon {
        exterior: vec![v(0, 0), v(100, 0), v(100, 100), v(0, 100)],
        interiors: vec![vec![v(40, 40), v(60, 40), v(60, 60), v(40, 60)]],
    };
    let path = polygon_path(&poly);
    for (x, y) in [(41, 41), (50, 50), (59, 59), (45, 55)] {
        assert!(!filled(&path, v(x, y)));
    }
    for (x, y) in [(1, 1), (99, 99), (50, 20), (20, 50)] {
        assert!(filled(&path, v(x, y)));
    }
    assert!(!filled(&path, v(-5, 50)));
    assert!(!filled(&path, v(200, 50)));
}

#[test]
fn polygon_without_holes_fills_its_interior() {
    let poly = Polygon {
        exterior: vec![v(0, 0), v(10, 0), v(10, 10), v(0, 10)],
        interiors: vec![],
    };
    let path = polygon_path(&poly);
    assert!(filled(&path, v(5, 5)));
    assert!(!filled(&path, v(15, 5)));
}

#[test]
fn convert_paths_builds_one_path_per_polygon() {
    let geo = vec![Geo {
        geo: vec![
            Polygon { exterior: vec![v(0, 0), v(4, 0), v(4, 4)], interiors: vec![] },
            Polygon { exterior: vec![v(10, 10), v(14, 10), v(14, 14)], interiors: vec![] },
        ],
    }];
    let out = convert_paths(&geo);
    assert_eq!(out.len(), 1);
    assert_eq!(out[0].polys.len(), 2);
    assert_eq!(
        out[0].polys[0].verbs,
        vec![
            PathVerb::MoveTo(v(0, 0)),
            PathVerb::LineTo(v(4, 0)),
            PathVerb::LineTo(v(4, 4)),
            PathVerb::Close,
        ]
    );
}

#[test]
fn boundaries_become_open_paths() {
    let boundaries = vec![vec![
        WayPoint { is_start: true, x: 0, y: 0 },
        WayPoint { is_start: false, x: 3, y: 3 },
    ]];
    let out = boundaries_to_paths(&boundaries);
    assert_eq!(out.len(), 1);
    assert_eq!(
        out[0].verbs,
        vec![PathVerb::MoveTo(v(0, 0)), PathVerb::LineTo(v(3, 3))]
    );
}
