use ridgeline::WayPoint;
use ridgeline::multilinestring_to_waypoints;
use ridgeline::waypoints_to_multilinestring;

fn wp(is_start: bool, x: i64, y: i64) -> WayPoint {
    WayPoint { is_start, x, y }
}

#[test]
fn grapher_joins_segments_sharing_an_endpoint() {
    // Two segments of way "A1": (0,0)-(10,0) and (10,0)-(20,0), each with a
    // break at its own start.  They share (10,0), so one connected path
    // covering all three coordinates must come out; the exact ordering at
    // the shared point is not asserted.
    let waypoints = vec![
        wp(true, 0, 0),
        wp(false, 10, 0),
        wp(true, 10, 0),
        wp(false, 20, 0),
    ];
    let out = waypoints_to_multilinestring(&waypoints);
    assert_eq!(out.lines.len(), 1);
    let line = &out.lines[0];
    assert_eq!(line.len(), 3);
    let mut coords: Vec<(i64, i64)> = line.iter().map(|v| (v.x, v.y)).collect();
    coords.sort();
    assert_eq!(coords, vec![(0, 0), (10, 0), (20, 0)]);
}

#[test]
fn grapher_respects_break_markers() {
    // Two disjoint segments stay two paths: the break marker suppresses the
    // edge between (10,0) and (30,5).
    let waypoints = vec![
        wp(true, 0, 0),
        wp(false, 10, 0),
        wp(true, 30, 5),
        wp(false, 40, 5),
    ];
    let out = waypoints_to_multilinestring(&waypoints);
    assert_eq!(out.lines.len(), 2);
    let mut all: Vec<(i64, i64)> = out
        .lines
        .iter()
        .flat_map(|l| l.iter().map(|v| (v.x, v.y)))
        .collect();
    all.sort();
    assert_eq!(all, vec![(0, 0), (10, 0), (30, 5), (40, 5)]);
    for line in &out.lines {
        assert_eq!(line.len(), 2);
    }
}

#[test]
fn grapher_emits_each_coordinate_once() {
    // A triangle visits its first corner twice in the input, but the
    // reconstruction emits each distinct coordinate exactly once.
    let waypoints = vec![
        wp(true, 0, 0),
        wp(false, 10, 0),
        wp(false, 5, 8),
        wp(false, 0, 0),
    ];
    let out = waypoints_to_multilinestring(&waypoints);
    assert_eq!(out.lines.len(), 1);
    let mut coords: Vec<(i64, i64)> = out.lines[0].iter().map(|v| (v.x, v.y)).collect();
    coords.sort();
    assert_eq!(coords, vec![(0, 0), (5, 8), (10, 0)]);
}

#[test]
fn grapher_drops_isolated_points() {
    // A single-point way yields no graph nodes at all, so nothing comes out.
    let waypoints = vec![wp(true, 7, 7)];
    let out = waypoints_to_multilinestring(&waypoints);
    assert_eq!(out.lines.len(), 0);
}

#[test]
fn multilinestring_to_waypoints_marks_breaks() {
    let m = ridgeline::MultiLineString {
        lines: vec![
            vec![ridgeline::Vertex { x: 0, y: 0 }, ridgeline::Vertex { x: 1, y: 0 }],
            vec![ridgeline::Vertex { x: 5, y: 5 }, ridgeline::Vertex { x: 6, y: 5 }],
        ],
    };
    let out = multilinestring_to_waypoints(&m);
    assert_eq!(
        out,
        vec![
            wp(true, 0, 0),
            wp(false, 1, 0),
            wp(true, 5, 5),
            wp(false, 6, 5),
        ]
    );
}

#[test]
fn grapher_round_trip_preserves_break_structure() {
    let waypoints = vec![
        wp(true, 0, 0),
        wp(false, 10, 0),
        wp(true, 30, 5),
        wp(false, 40, 5),
    ];
    let m = waypoints_to_multilinestring(&waypoints);
    let back = multilinestring_to_waypoints(&m);
    assert_eq!(back.len(), 4);
    assert_eq!(back.iter().filter(|p| p.is_start).count(), 2);
    let mut coords: Vec<(i64, i64)> = back.iter().map(|p| (p.x, p.y)).collect();
    coords.sort();
    assert_eq!(coords, vec![(0, 0), (10, 0), (30, 5), (40, 5)]);
}

#[test]
fn grapher_covers_junctions_of_higher_degree() {
    // Three segments meet at (0,0): whatever order the traversal picks at
    // the junction, every coordinate is covered exactly once.
    let waypoints = vec![
        wp(true, 0, 0),
        wp(false, 10, 0),
        wp(true, 0, 0),
        wp(false, 0, 10),
        wp(true, 0, 0),
        wp(false, -10, 0),
    ];
    let out = waypoints_to_multilinestring(&waypoints);
    let mut all: Vec<(i64, i64)> = out
        .lines
        .iter()
        .flat_map(|l| l.iter().map(|v| (v.x, v.y)))
        .collect();
    all.sort();
    assert_eq!(all, vec![(-10, 0), (0, 0), (0, 10), (10, 0)]);
}
