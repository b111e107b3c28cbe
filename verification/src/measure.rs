//! Measurements. The library does no arithmetic on coordinates; lengths and
//! bearings reach it as whole numbers of micrometres and of millionths of a
//! degree, and every rule with a tolerance is stated on those.

use vstd::prelude::*;
use crate::ids::EdgeID;

verus! {

/// Millionths of a degree in one degree.
pub const MICRO: u64 = 1_000_000;

/// Two bearings further apart than this belong to opposite carriageways.
pub const CARRIAGEWAY_GAP: u64 = 45_000_000;

/// Two bearings closer than this count as parallel, whichever way each runs.
pub const PARALLEL_TOLERANCE: u64 = 30_000_000;

/// Side roads whose bearings differ by less than this lie on the same side.
pub const DOG_LEG_CUTOFF: u64 = 30_000_000;

/// A dog-leg is at most this long, in micrometres.
pub const DOG_LEG_MAX_LENGTH: u64 = 5_000_000;

/// A linestring runs along a polygon if the midpoints of the two are at most
/// this far apart, in micrometres.
pub const ALONG_POLYGON_THRESHOLD: u64 = 1_500_000;

/// A compass bearing: north is 0, east is 90 degrees, clockwise.
#[derive(Clone, Copy, Debug, PartialEq, Eq, Structural)]
pub struct Bearing {
    /// The bearing in millionths of a degree.
    pub micro_degrees: u64,
}

/// The distance between two numbers.
pub open spec fn distance(a: int, b: int) -> int {
    if a >= b {
        a - b
    } else {
        b - a
    }
}

/// Whether two bearings are parallel or anti-parallel within the tolerance.
pub open spec fn parallel(b1: Bearing, b2: Bearing) -> bool {
    let turn = distance((b1.micro_degrees - b2.micro_degrees + 180 * MICRO) as int, 0) % (360
        * MICRO) as int;
    let diff = distance(turn, (180 * MICRO) as int);
    diff < PARALLEL_TOLERANCE || distance(diff, (180 * MICRO) as int) < PARALLEL_TOLERANCE
}

/// The carriageway classes of bearings in rising order: the first is class 0,
/// and the class changes wherever a bearing is more than 45 degrees from the
/// one before it.
pub open spec fn bearing_classes(bearings: Seq<Bearing>) -> Seq<usize>
    decreases bearings.len(),
{
    if bearings.len() == 0 {
        Seq::<usize>::empty()
    } else if bearings.len() == 1 {
        seq![0usize]
    } else {
        let before = bearing_classes(bearings.drop_last());
        let last = bearings[bearings.len() - 1];
        let prev = bearings[bearings.len() - 2];
        if distance(last.micro_degrees as int, prev.micro_degrees as int) > CARRIAGEWAY_GAP {
            before.push((1 - before.last()) as usize)
        } else {
            before.push(before.last())
        }
    }
}

/// There is a class for every bearing, and it is 0 or 1.
pub proof fn lemma_bearing_classes(bearings: Seq<Bearing>)
    ensures
        bearing_classes(bearings).len() == bearings.len(),
        forall|i: int|
            0 <= i < bearings.len() ==> (#[trigger] bearing_classes(bearings)[i]) == 0
                || bearing_classes(bearings)[i] == 1,
    decreases bearings.len(),
{
    if bearings.len() > 1 {
        lemma_bearing_classes(bearings.drop_last());
    }
}

impl Bearing {
    /// The bearing of a whole number of degrees.
    pub fn from_degrees(degrees: u32) -> (r: Bearing)
        ensures
            r.micro_degrees == degrees * MICRO,
    {
        Bearing { micro_degrees: (degrees as u64) * MICRO }
    }

    /// How far apart the two bearings are as numbers, in millionths of a degree.
    pub fn gap(self, other: Bearing) -> (r: u64)
        ensures
            r == distance(self.micro_degrees as int, other.micro_degrees as int),
    {
        if self.micro_degrees >= other.micro_degrees {
            self.micro_degrees - other.micro_degrees
        } else {
            other.micro_degrees - self.micro_degrees
        }
    }
}

/// Whether two bearings are within 30 degrees of parallel or of anti-parallel.
pub fn roughly_parallel(b1: Bearing, b2: Bearing) -> (r: bool)
    ensures
        r == parallel(b1, b2),
{
    let half: i128 = 180_000_000;
    let full: i128 = 360_000_000;
    let raw: i128 = (b1.micro_degrees as i128) - (b2.micro_degrees as i128) + half;
    let turned: i128 = if raw >= 0 {
        raw
    } else {
        -raw
    };
    let turn: i128 = turned % full;
    let diff: i128 = if turn >= half {
        turn - half
    } else {
        half - turn
    };
    let far: i128 = if diff >= half {
        diff - half
    } else {
        half - diff
    };
    diff < 30_000_000 || far < 30_000_000
}

/// Sorts bearings into the two directions of a dual carriageway. The
/// bearings are taken in rising order.
pub fn classify_bearings(bearings: &Vec<Bearing>) -> (classes: Vec<usize>)
    ensures
        classes@ == bearing_classes(bearings@),
{
    let mut classes: Vec<usize> = Vec::new();
    let mut last_class: usize = 0;
    let mut k: usize = 0;
    while k < bearings.len()
        invariant
            k <= bearings@.len(),
            classes@ == bearing_classes(bearings@.take(k as int)),
            classes@.len() == k,
            last_class == 0 || last_class == 1,
            k == 0 ==> last_class == 0,
            k > 0 ==> last_class == classes@.last(),
        decreases bearings@.len() - k,
    {
        proof {
            let t1 = bearings@.take(k + 1);
            assert(t1.drop_last() == bearings@.take(k as int));
            assert(t1[t1.len() - 1] == bearings@[k as int]);
            if k > 0 {
                assert(t1[t1.len() - 2] == bearings@[k - 1]);
            }
        }
        if k > 0 {
            if bearings[k].gap(bearings[k - 1]) > CARRIAGEWAY_GAP {
                last_class = 1 - last_class;
            }
        }
        classes.push(last_class);
        proof {
            let t1 = bearings@.take(k + 1);
            if k == 0 {
                assert(classes@ =~= seq![0usize]);
            }
            assert(classes@ =~= bearing_classes(t1));
        }
        k = k + 1;
    }
    assert(bearings@.take(bearings@.len() as int) == bearings@);
    classes
}

/// What was measured of one edge.
#[derive(Clone, Copy, Debug, PartialEq, Eq, Structural)]
pub struct EdgeMeasure {
    /// The length of the linestring in micrometres.
    pub length: u64,
    /// The bearing from the first point of the linestring to the last.
    pub bearing: Bearing,
    /// The bearing from the last point of the linestring to the first.
    pub reverse_bearing: Bearing,
}

/// The measurements of edges, by edge id.
pub struct Measures {
    by_edge: Vec<Option<EdgeMeasure>>,
}

impl View for Measures {
    type V = Map<EdgeID, EdgeMeasure>;

    closed spec fn view(&self) -> Map<EdgeID, EdgeMeasure> {
        Map::new(
            |e: EdgeID| e.0 < self.by_edge@.len() && self.by_edge@[e.0 as int] is Some,
            |e: EdgeID| self.by_edge@[e.0 as int]->0,
        )
    }
}

impl Measures {
    /// No measurement.
    pub fn new() -> (r: Measures)
        ensures
            r@ == Map::<EdgeID, EdgeMeasure>::empty(),
    {
        let r = Measures { by_edge: Vec::new() };
        assert(r@ =~= Map::<EdgeID, EdgeMeasure>::empty());
        r
    }

    /// Records the measurement of edge `e`, in place of an earlier one.
    pub fn set(&mut self, e: EdgeID, measure: EdgeMeasure)
        requires
            e.0 < usize::MAX,
        ensures
            final(self)@ == old(self)@.insert(e, measure),
    {
        while self.by_edge.len() <= e.0
            invariant
                old(self).by_edge@.len() <= self.by_edge@.len(),
                forall|j: int|
                    0 <= j < old(self).by_edge@.len() ==> self.by_edge@[j] == old(self).by_edge@[j],
                forall|j: int|
                    old(self).by_edge@.len() <= j < self.by_edge@.len() ==> self.by_edge@[j] is None,
            decreases e.0 + 1 - self.by_edge@.len(),
        {
            self.by_edge.push(None);
        }
        self.by_edge[e.0] = Some(measure);
        assert(self@ =~= old(self)@.insert(e, measure));
    }

    /// The measurement of edge `e`, if there is one.
    pub fn get(&self, e: EdgeID) -> (r: Option<EdgeMeasure>)
        ensures
            r is Some <==> self@.contains_key(e),
            r is Some ==> r->0 == self@[e],
    {
        if e.0 < self.by_edge.len() {
            self.by_edge[e.0]
        } else {
            None
        }
    }

    /// A copy of the measurements.
    pub fn clone(&self) -> (r: Measures)
        ensures
            r@ == self@,
    {
        let r = Measures { by_edge: crate::graph::copy_vec(&self.by_edge) };
        assert(r@ =~= self@);
        r
    }
}

} // verus!
