//! Why a detection found nothing.

use vstd::prelude::*;
use vstd::string::StringExecFns;

verus! {

/// The reason why a face is no dual carriageway, or no sidepath.
#[derive(Clone, Copy, Debug, PartialEq, Eq, Structural)]
pub enum DetectError {
    /// The face is not a road artifact.
    NotRoadArtifact,
    /// No boundary edge is a named oneway road.
    NoOneways,
    /// The largest group of oneways of one name has fewer than two edges.
    NotEnoughEdges,
    /// The edges of a side do not join up into one line.
    SidesDidNotCoalesce,
    /// The centre line would have fewer than two points.
    AverageNeedsTwoSamples,
    /// The face is not a sidepath artifact.
    NotSidepathArtifact,
    /// The face has no sidepath, or no road that runs parallel to one.
    SidepathOrRoadMissing,
}

impl DetectError {
    /// The reason in words.
    pub open spec fn text(self) -> Seq<char> {
        match self {
            DetectError::NotRoadArtifact => "not a road artifact"@,
            DetectError::NoOneways => "no oneways"@,
            DetectError::NotEnoughEdges => "not enough edges"@,
            DetectError::SidesDidNotCoalesce => "sides didn't coalesce"@,
            DetectError::AverageNeedsTwoSamples => "average needs ≥ 2 samples"@,
            DetectError::NotSidepathArtifact => "not a SidepathArtifact"@,
            DetectError::SidepathOrRoadMissing => "sidepath or matching road is missing"@,
        }
    }

    /// The reason in words.
    pub fn message(&self) -> (r: String)
        ensures
            r@ == self.text(),
    {
        match self {
            DetectError::NotRoadArtifact => String::from_str("not a road artifact"),
            DetectError::NoOneways => String::from_str("no oneways"),
            DetectError::NotEnoughEdges => String::from_str("not enough edges"),
            DetectError::SidesDidNotCoalesce => String::from_str("sides didn't coalesce"),
            DetectError::AverageNeedsTwoSamples => String::from_str("average needs ≥ 2 samples"),
            DetectError::NotSidepathArtifact => String::from_str("not a SidepathArtifact"),
            DetectError::SidepathOrRoadMissing => String::from_str(
                "sidepath or matching road is missing",
            ),
        }
    }
}

} // verus!
