//! A street-network simplifier: a planar multigraph of road edges and junctions,
//! the kinds of its edges, and the rewrites that fold digitising artefacts (dual
//! carriageways, sidepaths, dog-legs, service roads, degree-two junctions) into a
//! centre-line graph.
//!
//! The library never looks inside a coordinate: every type that carries geometry
//! is generic over the coordinate type `C`, and the rewrites only move
//! coordinates around. Whatever needs arithmetic on coordinates (lengths,
//! bearings, midpoints, centre lines) is measured by the caller and handed in
//! as plain values: lengths in micrometres, bearings in millionths of a degree.
//!
//! The modules, leaves first: `ids`, `tags`, `id_set`, `kinds`, `areas`,
//! `measure` and `errors` hold the vocabulary; `seqs` and `lines` work on
//! lists; `model` and `rewrite` say what a graph is and what the commands do
//! to it; `graph`, `ingest`, `clean`, `faces`, `dog_leg`, `sidepath`,
//! `dual_carriageway` and `dc_collapse` do it; `session` keeps the log of
//! what was done and can take the last step back; `laws` states what holds
//! of every graph that the commands can reach.

pub mod areas;
pub mod clean;
pub mod dc_collapse;
pub mod dog_leg;
pub mod dual_carriageway;
pub mod errors;
pub mod faces;
pub mod graph;
pub mod id_set;
pub mod ids;
pub mod ingest;
pub mod kinds;
pub mod laws;
pub mod lines;
pub mod measure;
pub mod model;
pub mod rewrite;
pub mod seqs;
pub mod session;
pub mod sidepath;
pub mod tags;

pub use areas::{keep_edge, AreaKind};
pub use dc_collapse::{linestring_endpoints, split_positions, Splits};
pub use dog_leg::DogLeg;
pub use dual_carriageway::{detect_dc_edges, join_side, nearest_index, sort_by_bearing,
    DualCarriageway};
pub use errors::DetectError;
pub use faces::{classify_face, find_connections, make_face, make_faces, Face, FaceInput, FaceKind};
pub use graph::{Edge, Graph, Intersection, OriginalEdge, Polygon};
pub use id_set::OriginalEdgeSet;
pub use ids::{EdgeID, FaceID, IntersectionID, OriginalEdgeID};
pub use ingest::{OsmEdge, OsmGraph, OsmIntersection};
pub use kinds::{EdgeKind, EdgeKindView};
pub use lines::{line_slice, linestring_along_polygon, ring_arc, sample_distances};
pub use measure::{classify_bearings, roughly_parallel, Bearing, EdgeMeasure, Measures};
pub use model::IntersectionProvenance;
pub use session::{Command, RoadBundler, Step};
pub use sidepath::{detect_sidepath, detect_sidepaths, Sidepath};
pub use tags::Tags;
