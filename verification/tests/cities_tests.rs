use ridgeline::Location;
use ridgeline::dedupe;
use ridgeline::load_cities;

fn loc(name: &str, x: i64, y: i64, population: i64) -> Location {
    Location { name: name.to_string(), x, y, population, region_id: None }
}

#[test]
fn dedupe_rejects_close_neighbour_keeps_far_one() {
    // Candidates in descending importance: the second is 3 away from the
    // first, under the radius of 5, so it is rejected; the third is far
    // away and accepted.
    let cands = vec![
        loc("first", 0, 0, 100_000),
        loc("second", 3, 0, 50_000),
        loc("third", 100, 100, 10_000),
    ];
    let out = dedupe(&cands, 5, 0);
    let names: Vec<&str> = out.iter().map(|l| l.name.as_str()).collect();
    assert_eq!(names, vec!["first", "third"]);
}

#[test]
fn dedupe_accepts_point_exactly_at_radius() {
    let cands = vec![loc("a", 0, 0, 1), loc("b", 5, 0, 1)];
    let out = dedupe(&cands, 5, 0);
    assert_eq!(out.len(), 2);
}

#[test]
fn dedupe_filters_by_population_floor() {
    let cands = vec![
        loc("big", 0, 0, 30_000),
        loc("small", 500, 500, 10_000),
    ];
    let out = dedupe(&cands, 5, 25_000);
    let names: Vec<&str> = out.iter().map(|l| l.name.as_str()).collect();
    assert_eq!(names, vec!["big"]);
}

#[test]
fn dedupe_output_is_radius_separated() {
    let mut cands = Vec::new();
    for i in 0..20i64 {
        cands.push(loc("c", i * 2, 0, 1_000_000 - i));
    }
    let radius = 5i64;
    let out = dedupe(&cands, radius, 0);
    assert!(!out.is_empty());
    for i in 0..out.len() {
        for j in 0..out.len() {
            if i != j {
                let dx = out[i].x - out[j].x;
                let dy = out[i].y - out[j].y;
                assert!(dx * dx + dy * dy >= radius * radius);
            }
        }
    }
}

#[test]
fn dedupe_of_empty_input_is_empty() {
    let out = dedupe(&Vec::new(), 5, 0);
    assert!(out.is_empty());
}

#[test]
fn load_cities_scales_then_selects() {
    // Raw coordinates are in projected units; they shrink by the shared
    // scale divisor of 1000 before the radius test.  These two towns are
    // 3000 raw units apart, only 3 rendering units, so the lighter one
    // goes; the village fails the population floor.
    let cands = vec![
        loc("town", 0, 0, 100_000),
        loc("suburb", 3_000, 0, 50_000),
        loc("village", 200_000, 200_000, 1_000),
    ];
    let out = load_cities(cands, 5);
    let names: Vec<&str> = out.iter().map(|l| l.name.as_str()).collect();
    assert_eq!(names, vec!["town"]);
    assert_eq!(out[0].x, 0);
}

#[test]
fn load_cities_keeps_separated_heavy_towns() {
    let cands = vec![
        loc("north", 0, 900_000, 100_000),
        loc("south", 0, -900_000, 90_000),
    ];
    let out = load_cities(cands, 5);
    assert_eq!(out.len(), 2);
    assert_eq!(out[0].y, 900);
    assert_eq!(out[1].y, -900);
}
