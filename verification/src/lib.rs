//! Vector-geometry ingestion and optimization pipeline for rendering
//! national-scale map data: feature classification, coordinate scaling,
//! segment-graph path reconstruction, line simplification, polygon-to-path
//! conversion with hole handling, spatial de-duplication of point features,
//! and a binary cache codec.

mod cities;
mod classify;
mod codec;
mod data;
mod errors;
mod game;
mod load;
mod optimise;
mod paths;
mod simplify;

pub use data::COORD_LIMIT;
pub use data::Geo;
pub use data::GeoModel;
pub use data::Location;
pub use data::LocationModel;
pub use data::MultiLineString;
pub use data::Polygon;
pub use data::PolygonModel;
pub use data::Ring;
pub use data::Vertex;
pub use data::Way;
pub use data::WayClass;
pub use data::WayForm;
pub use data::WayModel;
pub use data::WayPoint;
pub use data::coord_ok;
pub use errors::GeoError;

pub use classify::class_for;
pub use classify::form_for;
pub use classify::str_eq;
pub use classify::way_class_of;
pub use classify::way_form_of;

pub use load::RAW_LIMIT;
pub use load::add_to_groups;
pub use load::categorise_ways;
pub use load::create_geo;
pub use load::get_geometry;
pub use load::group_ways;
pub use load::group_ways_by_name;
pub use load::RawGeometry;
pub use load::extract_polygons;
pub use load::features_polygons;
pub use load::geometry_polygons;
pub use load::geometry_supported;
pub use load::ways_of_class;

pub use optimise::KEY_LIMIT;
pub use optimise::KEY_SPAN;
pub use optimise::build_graph;
pub use optimise::connected;
pub use optimise::connected_within;
pub use optimise::edge_at;
pub use optimise::edge_set;
pub use optimise::extract_paths;
pub use optimise::flat_upto;
pub use optimise::flatten_with_breaks;
pub use optimise::graph_adj;
pub use optimise::graph_nodes;
pub use optimise::key_of;
pub use optimise::keys_upto;
pub use optimise::line_points;
pub use optimise::multilinestring_to_waypoints;
pub use optimise::node_set;
pub use optimise::path_keys;
pub use optimise::points_wf;
pub use optimise::vertex_key;
pub use optimise::waypoint_key;
pub use optimise::waypoints_to_multilinestring;

pub use simplify::TOLERANCE_LIMIT;
pub use simplify::chord2;
pub use simplify::dev_measure;
pub use simplify::dp_idx;
pub use simplify::exceeds_tol;
pub use simplify::lemma_simplify_endpoints;
pub use simplify::lemma_simplify_monotone;
pub use simplify::lemma_simplify_zero;
pub use simplify::line_wf;
pub use simplify::same_pos;
pub use simplify::simplify;
pub use simplify::simplify_multilinestring;
pub use simplify::simplify_spec;

pub use paths::GeoWithPath;
pub use paths::PathVerb;
pub use paths::RenderPath;
pub use paths::WaySkia;
pub use paths::boundaries_to_paths;
pub use paths::build_path;
pub use paths::convert_paths;
pub use paths::edge_crosses;
pub use paths::filled;
pub use paths::filled_spec;
pub use paths::interiors_verbs_upto;
pub use paths::lemma_hole_excluded;
pub use paths::lemma_polygon_one_hole_fill;
pub use paths::path_from_ways;
pub use paths::path_rings;
pub use paths::polygon_path;
pub use paths::polygon_verbs;
pub use paths::ring_contains;
pub use paths::ring_crossings;
pub use paths::ring_verbs;
pub use paths::rings_crossings;
pub use paths::rings_from;
pub use paths::verbs_wf;
pub use paths::way_verbs;
pub use paths::ways_to_skia;

pub use cities::MIN_POPULATION;
pub use cities::dedupe;
pub use cities::dist_sq;
pub use cities::far_from_all;
pub use cities::greedy_select;
pub use cities::lemma_dedupe_maximal;
pub use cities::lemma_dedupe_separated;
pub use cities::load_cities;
pub use cities::locations_wf;
pub use cities::scale_location;

pub use codec::ClassifiedWays;
pub use codec::ClassifiedWaysModel;
pub use codec::boundaries_wf_codec;
pub use codec::cache_wf_codec;
pub use codec::cities_wf_codec;
pub use codec::class_code;
pub use codec::class_of_code;
pub use codec::dec_boundaries;
pub use codec::dec_cache;
pub use codec::dec_cities;
pub use codec::dec_geo_cache;
pub use codec::deserialize_boundaries;
pub use codec::deserialize_cities;
pub use codec::deserialize_geo;
pub use codec::deserialize_ways;
pub use codec::enc_boundaries;
pub use codec::enc_cache;
pub use codec::enc_cities;
pub use codec::enc_geo_cache;
pub use codec::form_code;
pub use codec::form_of_code;
pub use codec::geo_wf_codec;
pub use codec::lemma_boundaries_round_trip;
pub use codec::lemma_cache_round_trip;
pub use codec::lemma_cities_round_trip;
pub use codec::lemma_geo_round_trip;
pub use codec::serialize_boundaries;
pub use codec::serialize_cities;
pub use codec::serialize_geo;
pub use codec::serialize_grouped_ways;
pub use codec::deserialize_grouped_ways;
pub use codec::enc_grouped;
pub use codec::dec_grouped;
pub use codec::group_model;
pub use codec::grouped_wf_codec;
pub use codec::lemma_grouped_round_trip;
pub use codec::serialize_ways;
pub use codec::way_wf_codec;
pub use codec::ways_wf_codec;

pub use game::Army;
pub use game::City;
pub use game::Player;
pub use game::PlayerType;
pub use game::Spy;
pub use game::UnitTrait;

use vstd::prelude::*;

verus! {

/// Divisor taking projected source units down to rendering units.
/// Every consumer shares this constant so cached geometry stays consistent.
pub const RATIO_ADJUST: i64 = 1000;

/// What scaling a projected coordinate means: division by `RATIO_ADJUST`
/// rounded toward zero, as the renderer expects.
pub open spec fn scaled(raw: int) -> int {
    if raw >= 0 {
        raw / (RATIO_ADJUST as int)
    } else {
        -((-raw) / (RATIO_ADJUST as int))
    }
}

/// Scale a projected coordinate down to rendering units.
pub fn scale_coordinate(raw: i64) -> (r: i64)
    ensures
        r == scaled(raw as int),
{
    match raw.checked_div(RATIO_ADJUST) {
        Some(v) => v,
        None => 0,
    }
}

} // verus!
