//! Core data model: points, ways, polygons, locations.
//!
//! Coordinates live in rendering units after projection and scaling.  They
//! are kept as integers quantized to the rendering grid; every coordinate is
//! bounded by [`COORD_LIMIT`], which keeps all of the geometric arithmetic in
//! this crate free of overflow.

use vstd::prelude::*;

verus! {

/// Bound on the magnitude of any coordinate in rendering units.
pub const COORD_LIMIT: i64 = 1_000_000;

/// A coordinate pair is acceptable when both components are bounded.
pub open spec fn coord_ok(x: int, y: int) -> bool {
    -(COORD_LIMIT as int) <= x <= COORD_LIMIT as int && -(COORD_LIMIT as int) <= y
        <= COORD_LIMIT as int
}

/// One coordinate of a way.  `is_start` marks the beginning of a new
/// disjoint sub-path within a concatenated way (a pen-up/pen-down break).
#[derive(Clone, Copy, Debug, PartialEq, Eq, Structural)]
pub struct WayPoint {
    pub is_start: bool,
    pub x: i64,
    pub y: i64,
}

impl WayPoint {
    /// A way point is well formed when its coordinates are bounded.
    pub open spec fn wf(self) -> bool {
        coord_ok(self.x as int, self.y as int)
    }
}

/// Road classification, decoded once at ingestion from the source's
/// free-text attribute.
#[derive(Clone, Copy, Debug, PartialEq, Eq, Structural)]
pub enum WayClass {
    Minor,
    BRoad,
    ARoad,
    Motorway,
    Unclassified,
    Unknown,
}

/// Physical form of a road, decoded once at ingestion.
#[derive(Clone, Copy, Debug, PartialEq, Eq, Structural)]
pub enum WayForm {
    SingleCarriageway,
    DualCarriageway,
    CollapsedDualCarriageway,
    Roundabout,
    SlipRoad,
    TransitWay,
}

/// A named way: one or more disjoint polylines sharing a name, stored as a
/// concatenated point sequence with break markers.
#[derive(Clone, Debug, PartialEq)]
pub struct Way {
    pub name: String,
    pub class: WayClass,
    pub form: WayForm,
    pub way_points: Vec<WayPoint>,
}

/// The mathematical content of a [`Way`].
pub struct WayModel {
    pub name: Seq<char>,
    pub class: WayClass,
    pub form: WayForm,
    pub way_points: Seq<WayPoint>,
}

impl View for Way {
    type V = WayModel;

    open spec fn view(&self) -> WayModel {
        WayModel {
            name: self.name@,
            class: self.class,
            form: self.form,
            way_points: self.way_points@,
        }
    }
}

impl Way {
    /// A way is well formed when every point is bounded and its first
    /// point, if any, starts a sub-path.
    pub open spec fn wf(self) -> bool {
        &&& forall|i: int| 0 <= i < self.way_points@.len() ==> (#[trigger] self.way_points@[i]).wf()
        &&& self.way_points@.len() > 0 ==> self.way_points@[0].is_start
    }
}

/// A bare coordinate pair in rendering units.
#[derive(Clone, Copy, Debug, PartialEq, Eq, Structural)]
pub struct Vertex {
    pub x: i64,
    pub y: i64,
}

impl Vertex {
    /// A vertex is well formed when its coordinates are bounded.
    pub open spec fn wf(self) -> bool {
        coord_ok(self.x as int, self.y as int)
    }
}

/// A ring of a polygon: its vertices in order, implicitly closed.
pub type Ring = Vec<Vertex>;

/// A polygon: an exterior ring and zero or more interior rings (holes).
#[derive(Clone, Debug, PartialEq)]
pub struct Polygon {
    pub exterior: Ring,
    pub interiors: Vec<Ring>,
}

/// A collection of disjoint polylines, the unit that the segment grapher
/// emits and the simplifier consumes.
#[derive(Clone, Debug, PartialEq)]
pub struct MultiLineString {
    pub lines: Vec<Vec<Vertex>>,
}

/// A group of polygons read from one source feature.
#[derive(Clone, Debug, PartialEq)]
pub struct Geo {
    pub geo: Vec<Polygon>,
}

/// The mathematical content of a [`Polygon`].
pub struct PolygonModel {
    pub exterior: Seq<Vertex>,
    pub interiors: Seq<Seq<Vertex>>,
}

impl View for Polygon {
    type V = PolygonModel;

    open spec fn view(&self) -> PolygonModel {
        PolygonModel {
            exterior: self.exterior@,
            interiors: self.interiors@.map_values(|r: Ring| r@),
        }
    }
}

/// The mathematical content of a [`Geo`].
pub struct GeoModel {
    pub geo: Seq<PolygonModel>,
}

impl View for Geo {
    type V = GeoModel;

    open spec fn view(&self) -> GeoModel {
        GeoModel { geo: self.geo@.map_values(|p: Polygon| p@) }
    }
}

/// A settlement point feature.
#[derive(Clone, Debug, PartialEq)]
pub struct Location {
    pub name: String,
    pub x: i64,
    pub y: i64,
    pub population: i64,
    pub region_id: Option<i64>,
}

/// The mathematical content of a [`Location`].
pub struct LocationModel {
    pub name: Seq<char>,
    pub x: i64,
    pub y: i64,
    pub population: i64,
    pub region_id: Option<i64>,
}

impl View for Location {
    type V = LocationModel;

    open spec fn view(&self) -> LocationModel {
        LocationModel {
            name: self.name@,
            x: self.x,
            y: self.y,
            population: self.population,
            region_id: self.region_id,
        }
    }
}

impl Location {
    /// A location is well formed when its coordinates are bounded.
    pub open spec fn wf(self) -> bool {
        coord_ok(self.x as int, self.y as int)
    }
}

} // verus!
