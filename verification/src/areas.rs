//! Areas: what the tags of a way say about keeping it as an edge or as an area.

use vstd::prelude::*;
use crate::tags::Tags;

verus! {

/// What kind of area a polygon of the source data is.
#[derive(Clone, Copy, Debug, PartialEq, Eq, Structural)]
pub enum AreaKind {
    Building,
    Water,
    Park,
}

/// The kind of area that tags stand for, if any: anything tagged `building`
/// is a building, else `leisure=park` is a park, else `natural=water` is water.
pub open spec fn area_kind(tags: Map<Seq<char>, Seq<char>>) -> Option<AreaKind> {
    if tags.contains_key("building"@) {
        Some(AreaKind::Building)
    } else if tags.contains_key("leisure"@) && tags["leisure"@] == "park"@ {
        Some(AreaKind::Park)
    } else if tags.contains_key("natural"@) && tags["natural"@] == "water"@ {
        Some(AreaKind::Water)
    } else {
        None
    }
}

/// Whether a `highway` value names a road that is not there yet.
pub open spec fn unbuilt_highway(v: Seq<char>) -> bool {
    v == "construction"@ || v == "proposed"@
}

/// Whether a way with these tags becomes an edge of the street graph: it
/// has a `highway` tag, the road is built, and it is not mapped as an area.
pub open spec fn kept_as_edge(tags: Map<Seq<char>, Seq<char>>) -> bool {
    &&& tags.contains_key("highway"@)
    &&& !unbuilt_highway(tags["highway"@])
    &&& !(tags.contains_key("area"@) && tags["area"@] == "yes"@)
}

impl AreaKind {
    /// The kind of area that the tags stand for, if any.
    pub fn from_tags(tags: &Tags) -> (r: Option<AreaKind>)
        ensures
            r == area_kind(tags@),
    {
        if tags.has("building") {
            Some(AreaKind::Building)
        } else if tags.is("leisure", "park") {
            Some(AreaKind::Park)
        } else if tags.is("natural", "water") {
            Some(AreaKind::Water)
        } else {
            None
        }
    }

    /// Whether the area counts as built: a building does, water and parks
    /// are other areas.
    pub fn is_building(&self) -> (r: bool)
        ensures
            r == (*self == AreaKind::Building),
    {
        match self {
            AreaKind::Building => true,
            _ => false,
        }
    }
}

/// Whether a way with these tags becomes an edge of the street graph.
pub fn keep_edge(tags: &Tags) -> (r: bool)
    ensures
        r == kept_as_edge(tags@),
{
    if !tags.has("highway") || tags.is_any("highway", vec!["construction", "proposed"]) || tags.is(
        "area",
        "yes",
    ) {
        return false;
    }
    true
}

} // verus!
