use ridgeline::MultiLineString;
use ridgeline::Vertex;
use ridgeline::simplify;
use ridgeline::simplify_multilinestring;

fn v(x: i64, y: i64) -> Vertex {
    Vertex { x, y }
}

#[test]
fn simplify_zero_tolerance_is_identity() {
    let line = vec![v(0, 0), v(5, 1), v(10, 0), v(15, -2), v(20, 0)];
    let out = simplify(&line, 0);
    assert_eq!(out, line);
}

#[test]
fn simplify_zero_tolerance_keeps_collinear_points() {
    let line = vec![v(0, 0), v(5, 0), v(10, 0)];
    let out = simplify(&line, 0);
    assert_eq!(out, line);
}

#[test]
fn simplify_drops_point_within_tolerance() {
    // The middle point deviates by exactly 1 from the chord, which does not
    // strictly exceed the tolerance of 1, so only the endpoints remain.
    let line = vec![v(0, 0), v(5, 1), v(10, 0)];
    let out = simplify(&line, 1);
    assert_eq!(out, vec![v(0, 0), v(10, 0)]);
}

#[test]
fn simplify_keeps_point_beyond_tolerance() {
    // The middle point deviates by 2, which exceeds the tolerance of 1.
    let line = vec![v(0, 0), v(5, 2), v(10, 0)];
    let out = simplify(&line, 1);
    assert_eq!(out, vec![v(0, 0), v(5, 2), v(10, 0)]);
}

#[test]
fn simplify_keeps_endpoints_of_short_lines() {
    let line = vec![v(3, 4), v(7, 8)];
    let out = simplify(&line, 100);
    assert_eq!(out, line);
}

#[test]
fn simplify_monotone_in_tolerance() {
    let line = vec![v(0, 0), v(2, 3), v(4, -1), v(6, 5), v(8, 0), v(10, 2), v(12, 0)];
    let mut prev_len = simplify(&line, 0).len();
    for tol in 1..8i64 {
        let len = simplify(&line, tol).len();
        assert!(len <= prev_len);
        prev_len = len;
    }
}

#[test]
fn simplify_recurses_on_both_halves() {
    // The farthest point splits the chord; the second extreme survives in
    // its half while the collinear point between the extremes goes.
    let line = vec![v(0, 0), v(2, 40), v(4, 0), v(6, -40), v(8, 0)];
    let out = simplify(&line, 7);
    assert_eq!(out, vec![v(0, 0), v(2, 40), v(6, -40), v(8, 0)]);
}

#[test]
fn simplify_multilinestring_simplifies_each_line() {
    let m = MultiLineString {
        lines: vec![
            vec![v(0, 0), v(5, 1), v(10, 0)],
            vec![v(0, 0), v(5, 2), v(10, 0)],
        ],
    };
    let out = simplify_multilinestring(&m, 1);
    assert_eq!(out.lines.len(), 2);
    assert_eq!(out.lines[0], vec![v(0, 0), v(10, 0)]);
    assert_eq!(out.lines[1], vec![v(0, 0), v(5, 2), v(10, 0)]);
}

#[test]
fn simplify_accepts_tolerances_beyond_the_grid() {
    // A tolerance far larger than the grid's diameter collapses any path to
    // its endpoints; the bound on tolerance is a machine limit, not 10^6.
    let line = vec![v(-1_000_000, 0), v(0, 1_000_000), v(1_000_000, 0)];
    let out = simplify(&line, 4_000_000_000_000);
    assert_eq!(out, vec![v(-1_000_000, 0), v(1_000_000, 0)]);
}
