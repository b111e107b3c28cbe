//! What the library does with lines and rings without looking at a
//! coordinate: cutting out the part between two places, and choosing the
//! distances at which a line is sampled.

use vstd::prelude::*;
use crate::measure::ALONG_POLYGON_THRESHOLD;

verus! {

/// The part of a closed ring from a place on segment `start` round to a
/// place on segment `end`, going with the ring and past its seam if `end`
/// comes before `start`. Segment `k` runs from point `k` of the ring to
/// point `k + 1`, and the last point of the ring is its first again. The arc
/// holds the place on segment `start`, every point of the ring that lies
/// between the two places, each once, and the place on segment `end`.
pub open spec fn ring_arc_spec<C>(
    ring: Seq<C>,
    start: int,
    end: int,
    start_coord: C,
    end_coord: C,
) -> Seq<C> {
    if start < end {
        seq![start_coord] + ring.subrange(start + 1, end + 1) + seq![end_coord]
    } else if start == end {
        seq![start_coord, end_coord]
    } else {
        seq![start_coord] + ring.subrange(start + 1, ring.len() as int) + ring.subrange(
            1,
            end + 1,
        ) + seq![end_coord]
    }
}

/// The part of a line between a place on segment `first` and a place on
/// segment `last`, in the direction of the line whichever of the two comes
/// first on it.
pub open spec fn line_slice_spec<C>(
    line: Seq<C>,
    first: int,
    last: int,
    first_coord: C,
    last_coord: C,
) -> Seq<C> {
    if first < last {
        seq![first_coord] + line.subrange(first + 1, last + 1) + seq![last_coord]
    } else if first == last {
        seq![first_coord, last_coord]
    } else {
        seq![last_coord] + line.subrange(last + 1, first + 1) + seq![first_coord]
    }
}

/// The two arcs between two places on a closed ring hold, between them,
/// every point of the ring but its repeated last: the arc from `start` to
/// `end` the points behind `start` up to `end`, the arc back the others.
pub proof fn lemma_ring_arcs_cover<C>(ring: Seq<C>, start: int, end: int, a: C, b: C)
    requires
        0 <= start < end < ring.len() - 1,
    ensures
        ring_arc_spec(ring, start, end, a, b) == seq![a] + ring.subrange(start + 1, end + 1)
            + seq![b],
        ring_arc_spec(ring, end, start, b, a) == seq![b] + ring.subrange(
            end + 1,
            ring.len() as int,
        ) + ring.subrange(1, start + 1) + seq![a],
        ring_arc_spec(ring, start, end, a, b).len() + ring_arc_spec(ring, end, start, b, a).len()
            == ring.len() - 1 + 4,
{
}

/// Adds the items of `from` with index in `lo..hi` to `out`.
fn push_range<C: Copy>(out: &mut Vec<C>, from: &Vec<C>, lo: usize, hi: usize)
    requires
        lo <= hi <= from@.len(),
    ensures
        final(out)@ == old(out)@ + from@.subrange(lo as int, hi as int),
{
    let mut k: usize = lo;
    assert(from@.subrange(lo as int, lo as int) =~= Seq::<C>::empty());
    assert(out@ =~= old(out)@ + from@.subrange(lo as int, lo as int));
    while k < hi
        invariant
            lo <= k <= hi <= from@.len(),
            out@ == old(out)@ + from@.subrange(lo as int, k as int),
        decreases hi - k,
    {
        out.push(from[k]);
        assert(from@.subrange(lo as int, k + 1) =~= from@.subrange(lo as int, k as int).push(
            from@[k as int],
        ));
        assert(out@ =~= old(out)@ + from@.subrange(lo as int, k + 1));
        k = k + 1;
    }
}

/// The part of a closed ring from a place on segment `start` round to a
/// place on segment `end`.
pub fn ring_arc<C: Copy>(ring: &Vec<C>, start: usize, end: usize, start_coord: C, end_coord: C) -> (r:
    Vec<C>)
    requires
        start < ring@.len(),
        end < ring@.len(),
    ensures
        r@ == ring_arc_spec(ring@, start as int, end as int, start_coord, end_coord),
{
    let n = ring.len();
    let mut coords: Vec<C> = Vec::new();
    coords.push(start_coord);
    assert(coords@ =~= seq![start_coord]);
    if start < end {
        push_range(&mut coords, ring, start + 1, end + 1);
    } else if start > end {
        push_range(&mut coords, ring, start + 1, n);
        push_range(&mut coords, ring, 1, end + 1);
    }
    coords.push(end_coord);
    assert(coords@ =~= ring_arc_spec(ring@, start as int, end as int, start_coord, end_coord));
    coords
}

/// The part of a line between a place on segment `first` and a place on
/// segment `last`.
pub fn line_slice<C: Copy>(line: &Vec<C>, first: usize, last: usize, first_coord: C, last_coord: C) -> (r:
    Vec<C>)
    requires
        first < line@.len(),
        last < line@.len(),
    ensures
        r@ == line_slice_spec(line@, first as int, last as int, first_coord, last_coord),
{
    let n = line.len();
    let mut coords: Vec<C> = Vec::new();
    if first < last {
        coords.push(first_coord);
        assert(coords@ =~= seq![first_coord]);
        push_range(&mut coords, line, first + 1, last + 1);
        coords.push(last_coord);
    } else if first == last {
        coords.push(first_coord);
        coords.push(last_coord);
    } else {
        coords.push(last_coord);
        assert(coords@ =~= seq![last_coord]);
        push_range(&mut coords, line, last + 1, first + 1);
        coords.push(first_coord);
    }
    assert(coords@ =~= line_slice_spec(line@, first as int, last as int, first_coord, last_coord));
    coords
}

/// Whether a linestring runs along a polygon. The caller has cut each ring
/// of the polygon, holes and outer ring, into the two arcs between the
/// places nearest to the ends of the linestring, and has measured, in
/// micrometres, how far the midpoint of each arc is from the midpoint of
/// the linestring. The linestring runs along the polygon if one of those
/// distances is at most a metre and a half.
pub open spec fn runs_along(distances: Seq<(u64, u64)>) -> bool {
    exists|k: int|
        0 <= k < distances.len() && ((#[trigger] distances[k]).0 <= ALONG_POLYGON_THRESHOLD
            || distances[k].1 <= ALONG_POLYGON_THRESHOLD)
}

/// Whether a linestring runs along a polygon, by the midpoint distances of
/// the two arcs of each ring.
pub fn linestring_along_polygon(distances: &Vec<(u64, u64)>) -> (r: bool)
    ensures
        r == runs_along(distances@),
{
    let mut k: usize = 0;
    while k < distances.len()
        invariant
            k <= distances@.len(),
            forall|j: int|
                0 <= j < k ==> !((#[trigger] distances@[j]).0 <= ALONG_POLYGON_THRESHOLD
                    || distances@[j].1 <= ALONG_POLYGON_THRESHOLD),
        decreases distances@.len() - k,
    {
        if distances[k].0 <= ALONG_POLYGON_THRESHOLD || distances[k].1 <= ALONG_POLYGON_THRESHOLD {
            return true;
        }
        k = k + 1;
    }
    false
}

/// The distances from `from` on at which a line of length `length` is
/// sampled with step `step`: `from`, then every `step` further, and last the
/// length itself.
pub open spec fn samples_from(length: u64, step: u64, from: u64) -> Seq<u64>
    decreases length - from,
{
    if from >= length || step == 0 {
        seq![from]
    } else if length - from <= step {
        seq![from, length]
    } else {
        seq![from] + samples_from(length, step, (from + step) as u64)
    }
}

/// The samples start at `from`, end at the length, and rise by `step` at
/// most from one to the next.
pub proof fn lemma_samples(length: u64, step: u64, from: u64)
    requires
        from <= length,
        step > 0,
    ensures
        samples_from(length, step, from).len() >= 1,
        samples_from(length, step, from).first() == from,
        samples_from(length, step, from).last() == length,
        forall|i: int|
            0 <= i < samples_from(length, step, from).len() - 1 ==> {
                &&& (#[trigger] samples_from(length, step, from)[i]) < samples_from(
                    length,
                    step,
                    from,
                )[i + 1]
                &&& samples_from(length, step, from)[i + 1] - samples_from(length, step, from)[i]
                    <= step
            },
    decreases length - from,
{
    if from < length && length - from > step {
        let next = (from + step) as u64;
        lemma_samples(length, step, next);
        let rest = samples_from(length, step, next);
        let all = samples_from(length, step, from);
        assert(all == seq![from] + rest);
        assert forall|i: int| 0 <= i < all.len() - 1 implies {
            &&& (#[trigger] all[i]) < all[i + 1]
            &&& all[i + 1] - all[i] <= step
        } by {
            if i > 0 {
                assert(all[i] == rest[i - 1]);
                assert(all[i + 1] == rest[i]);
            } else {
                assert(all[1] == rest[0]);
            }
        }
        assert(all.last() == rest.last());
    }
}

/// The distances at which a line of length `length` is walked with step
/// `interval`, both in micrometres: the start, then every `interval`
/// further, and always the exact end, which may be closer to the sample
/// before it than `interval`.
pub fn sample_distances(length: u64, interval: u64) -> (r: Vec<u64>)
    requires
        interval > 0,
    ensures
        r@ == samples_from(length, interval, 0),
{
    let mut out: Vec<u64> = Vec::new();
    let mut distance: u64 = 0;
    loop
        invariant_except_break
            interval > 0,
            distance <= length,
            out@ + samples_from(length, interval, distance) == samples_from(length, interval, 0),
        ensures
            out@ == samples_from(length, interval, 0),
        decreases length - distance,
    {
        let ghost before = out@;
        out.push(distance);
        if distance == length {
            assert(out@ =~= before + samples_from(length, interval, distance));
            break ;
        }
        if length - distance <= interval {
            out.push(length);
            assert(out@ =~= before + samples_from(length, interval, distance));
            break ;
        }
        proof {
            let next = (distance + interval) as u64;
            assert(samples_from(length, interval, distance) == seq![distance] + samples_from(
                length,
                interval,
                next,
            ));
            assert(out@ + samples_from(length, interval, next) =~= before + samples_from(
                length,
                interval,
                distance,
            ));
        }
        distance = distance + interval;
    }
    out
}

} // verus!
