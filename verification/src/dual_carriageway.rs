//! Dual carriageways: two oneway lines of one name that bound a face. This
//! part finds them and joins each direction into one line.

use itertools::Itertools;
use vstd::prelude::*;
use crate::clean::{concat, reversed};
use crate::errors::DetectError;
use crate::faces::{Face, FaceKind, FaceView};
use crate::graph::{Graph, copy_vec, list_contains};
use crate::ids::{EdgeID, IntersectionID};
use crate::measure::{bearing_classes, classify_bearings, lemma_bearing_classes, Bearing,
    EdgeMeasure, Measures};
use crate::model::GraphView;
use crate::seqs::{keep, lemma_keep, lemma_keep_agree};

verus! {

/// The list with `x` put in behind the last item whose bearing is not
/// greater. The list is taken to be in order of bearing.
pub open spec fn insert_by_bearing(sorted: Seq<(EdgeID, Bearing)>, x: (EdgeID, Bearing)) -> Seq<
    (EdgeID, Bearing),
>
    decreases sorted.len(),
{
    if sorted.len() == 0 {
        seq![x]
    } else if sorted.last().1.micro_degrees <= x.1.micro_degrees {
        sorted.push(x)
    } else {
        insert_by_bearing(sorted.drop_last(), x).push(sorted.last())
    }
}

/// The list in order of bearing; items of equal bearing keep their order.
pub open spec fn sorted_by_bearing(s: Seq<(EdgeID, Bearing)>) -> Seq<(EdgeID, Bearing)>
    decreases s.len(),
{
    if s.len() == 0 {
        s
    } else {
        insert_by_bearing(sorted_by_bearing(s.drop_last()), s.last())
    }
}

/// The bearings do not fall from one item to the next.
pub open spec fn in_bearing_order(s: Seq<(EdgeID, Bearing)>) -> bool {
    forall|i: int, j: int|
        0 <= i < j < s.len() ==> s[i].1.micro_degrees <= s[j].1.micro_degrees
}

/// Putting an item into an ordered list keeps it ordered, and holds the old
/// items and the new one.
pub proof fn lemma_insert_by_bearing(sorted: Seq<(EdgeID, Bearing)>, x: (EdgeID, Bearing))
    requires
        in_bearing_order(sorted),
    ensures
        in_bearing_order(insert_by_bearing(sorted, x)),
        insert_by_bearing(sorted, x).len() == sorted.len() + 1,
        forall|y: (EdgeID, Bearing)| #[trigger]
            insert_by_bearing(sorted, x).contains(y) <==> (sorted.contains(y) || y == x),
    decreases sorted.len(),
{
    let r = insert_by_bearing(sorted, x);
    if sorted.len() == 0 {
        assert forall|y: (EdgeID, Bearing)| #[trigger] r.contains(y) <==> (sorted.contains(y) || y
            == x) by {
            if y == x {
                assert(r[0] == x);
            }
        }
    } else if sorted.last().1.micro_degrees <= x.1.micro_degrees {
        assert forall|y: (EdgeID, Bearing)| #[trigger] r.contains(y) <==> (sorted.contains(y) || y
            == x) by {
            crate::seqs::lemma_contains_push(sorted, x, y);
        }
    } else {
        let init = sorted.drop_last();
        assert(in_bearing_order(init));
        lemma_insert_by_bearing(init, x);
        let mid = insert_by_bearing(init, x);
        assert forall|y: (EdgeID, Bearing)| #[trigger] r.contains(y) <==> (sorted.contains(y) || y
            == x) by {
            crate::seqs::lemma_contains_push(mid, sorted.last(), y);
            crate::seqs::lemma_contains_push(init, sorted.last(), y);
            assert(init.push(sorted.last()) == sorted);
            assert(mid.contains(y) <==> (init.contains(y) || y == x));
        }
        assert forall|i: int, j: int| 0 <= i < j < r.len() implies r[i].1.micro_degrees
            <= r[j].1.micro_degrees by {
            if j == r.len() - 1 {
                assert(mid.contains(mid[i]));
                if mid[i] != x {
                    let k = init.index_of(mid[i]);
                    assert(sorted[k] == mid[i]);
                }
            }
        }
    }
}

/// Sorting by bearing gives an ordered list of the same items.
pub proof fn lemma_sorted_by_bearing(s: Seq<(EdgeID, Bearing)>)
    ensures
        in_bearing_order(sorted_by_bearing(s)),
        sorted_by_bearing(s).len() == s.len(),
        forall|y: (EdgeID, Bearing)| #[trigger] sorted_by_bearing(s).contains(y) <==> s.contains(y),
    decreases s.len(),
{
    if s.len() > 0 {
        let init = s.drop_last();
        lemma_sorted_by_bearing(init);
        lemma_insert_by_bearing(sorted_by_bearing(init), s.last());
        assert forall|y: (EdgeID, Bearing)| #[trigger]
            sorted_by_bearing(s).contains(y) <==> s.contains(y) by {
            crate::seqs::lemma_contains_push(init, s.last(), y);
            assert(init.push(s.last()) == s);
            assert(sorted_by_bearing(init).contains(y) <==> init.contains(y));
        }
    }
}

/// Where `insert_by_bearing` puts an item: at `p`, if everything from `p` on
/// has a greater bearing and the item before `p` has not.
pub proof fn lemma_insert_position(sorted: Seq<(EdgeID, Bearing)>, x: (EdgeID, Bearing), p: int)
    requires
        0 <= p <= sorted.len(),
        forall|j: int| p <= j < sorted.len() ==> sorted[j].1.micro_degrees > x.1.micro_degrees,
        p > 0 ==> sorted[p - 1].1.micro_degrees <= x.1.micro_degrees,
    ensures
        insert_by_bearing(sorted, x) == sorted.insert(p, x),
    decreases sorted.len() - p,
{
    if sorted.len() == 0 {
        assert(sorted.insert(p, x) =~= seq![x]);
    } else if p == sorted.len() {
        assert(sorted.insert(p, x) =~= sorted.push(x));
    } else {
        let init = sorted.drop_last();
        lemma_insert_position(init, x, p);
        assert(sorted.insert(p, x) =~= init.insert(p, x).push(sorted.last()));
    }
}

/// The list in order of bearing; items of equal bearing keep their order.
pub fn sort_by_bearing(items: &Vec<(EdgeID, Bearing)>) -> (r: Vec<(EdgeID, Bearing)>)
    ensures
        r@ == sorted_by_bearing(items@),
{
    let mut out: Vec<(EdgeID, Bearing)> = Vec::new();
    let mut k: usize = 0;
    while k < items.len()
        invariant
            k <= items@.len(),
            out@ == sorted_by_bearing(items@.take(k as int)),
            out@.len() == k,
        decreases items@.len() - k,
    {
        let x = items[k];
        assert(items@.take(k + 1).drop_last() == items@.take(k as int));
        let mut p: usize = out.len();
        while p > 0 && out[p - 1].1.micro_degrees > x.1.micro_degrees
            invariant
                p <= out@.len(),
                forall|j: int| p <= j < out@.len() ==> out@[j].1.micro_degrees > x.1.micro_degrees,
            decreases p,
        {
            p = p - 1;
        }
        proof {
            lemma_insert_position(out@, x, p as int);
        }
        out.insert(p, x);
        k = k + 1;
    }
    assert(items@.take(items@.len() as int) == items@);
    out
}

/// The first index at which `keys` is least. The list is not empty.
pub open spec fn first_least(keys: Seq<u64>) -> int
    decreases keys.len(),
{
    if keys.len() <= 1 {
        0
    } else {
        let best = first_least(keys.drop_last());
        if keys.last() < keys[best] {
            keys.len() - 1
        } else {
            best
        }
    }
}

/// `first_least` is an index of a least key, and no earlier key is as small.
pub proof fn lemma_first_least(keys: Seq<u64>)
    requires
        keys.len() > 0,
    ensures
        0 <= first_least(keys) < keys.len(),
        forall|j: int| 0 <= j < keys.len() ==> keys[first_least(keys)] <= #[trigger] keys[j],
        forall|j: int| 0 <= j < first_least(keys) ==> keys[first_least(keys)] < #[trigger] keys[j],
    decreases keys.len(),
{
    if keys.len() > 1 {
        let init = keys.drop_last();
        lemma_first_least(init);
        let best = first_least(init);
        assert forall|j: int| 0 <= j < keys.len() implies keys[first_least(keys)] <= #[trigger] keys[j] by {
            if j < init.len() {
                assert(init[j] == keys[j]);
                assert(init[best] <= init[j]);
            }
        }
        assert forall|j: int| 0 <= j < first_least(keys) implies keys[first_least(keys)] < #[trigger] keys[j] by {
            assert(init[j] == keys[j]);
            if first_least(keys) == best {
                assert(init[best] < init[j]);
            } else {
                assert(init[best] <= init[j]);
            }
        }
    }
}

/// The index of the nearest of several places, by whole-number distance
/// keys: the first index at which the key is least.
pub fn nearest_index(keys: &Vec<u64>) -> (r: usize)
    requires
        keys@.len() > 0,
    ensures
        r == first_least(keys@),
        r < keys@.len(),
{
    let mut best: usize = 0;
    let mut k: usize = 1;
    assert(keys@.take(1).len() == 1);
    while k < keys.len()
        invariant
            1 <= k <= keys@.len(),
            best == first_least(keys@.take(k as int)),
            best < k,
        decreases keys@.len() - k,
    {
        assert(keys@.take(k + 1).drop_last() == keys@.take(k as int));
        assert(keys@.take(k + 1).last() == keys@[k as int]);
        assert(keys@.take(k + 1)[best as int] == keys@[best as int]);
        if keys[k] < keys[best] {
            best = k;
        }
        k = k + 1;
    }
    assert(keys@.take(keys@.len() as int) == keys@);
    best
}

/// A line that is being joined from edges: where it starts, where it ends,
/// and its points.
pub struct Chain<C> {
    pub head: IntersectionID,
    pub tail: IntersectionID,
    pub coords: Seq<C>,
}

impl<C> GraphView<C> {
    /// Edge `e` is a measured oneway road with a name.
    pub open spec fn is_named_oneway(self, e: EdgeID, m: Map<EdgeID, EdgeMeasure>) -> bool {
        &&& self.edges[e].kind.is_oneway_road(self)
        &&& self.name_of(e) is Some
        &&& m.contains_key(e)
    }

    /// The edges of `list` that are named like edge `e`.
    pub open spec fn named_like(self, list: Seq<EdgeID>, e: EdgeID) -> Seq<EdgeID> {
        keep(list, |x: EdgeID| self.name_of(x) == self.name_of(e))
    }

    /// The index, among the first `upto` edges of `list`, of the first edge
    /// whose name is borne by the most edges of `list`.
    pub open spec fn most_common(self, list: Seq<EdgeID>, upto: int) -> int
        decreases upto,
    {
        if upto <= 1 {
            0
        } else {
            let best = self.most_common(list, upto - 1);
            if self.named_like(list, list[upto - 1]).len() > self.named_like(list, list[best]).len() {
                upto - 1
            } else {
                best
            }
        }
    }

    /// The edges of a dual carriageway on the boundary of a face, or why
    /// there is none: the face must be a road artifact; the candidates are
    /// its measured boundary edges that are named oneways; of those, the
    /// edges with the most common name are taken (of two names equally
    /// common, the one that comes first on the boundary); and there must be
    /// two of them at least.
    pub open spec fn dc_edges(self, face: FaceView<C>, m: Map<EdgeID, EdgeMeasure>) -> Result<
        Seq<EdgeID>,
        DetectError,
    > {
        let oneways = keep(face.boundary_edges, |e: EdgeID| self.is_named_oneway(e, m));
        let chosen = self.named_like(oneways, oneways[self.most_common(oneways, oneways.len() as int)]);
        if face.kind != FaceKind::RoadArtifact {
            Err(DetectError::NotRoadArtifact)
        } else if oneways.len() == 0 {
            Err(DetectError::NoOneways)
        } else if chosen.len() < 2 {
            Err(DetectError::NotEnoughEdges)
        } else {
            Ok(chosen)
        }
    }

    /// The chain that is edge `e` alone.
    pub open spec fn chain_of(self, e: EdgeID) -> Chain<C> {
        Chain { head: self.edges[e].src, tail: self.edges[e].dst, coords: self.edges[e].linestring }
    }

    /// Whether edge `x` has an end at the head or the tail of the chain.
    pub open spec fn attaches(self, chain: Chain<C>, x: EdgeID) -> bool {
        let ed = self.edges[x];
        ed.src == chain.tail || ed.dst == chain.tail || ed.dst == chain.head || ed.src
            == chain.head
    }

    /// The chain with edge `x` joined on: behind the tail if `x` starts or
    /// ends there, else before the head; turned round where it must be. The
    /// point at the joint is kept once.
    pub open spec fn attach(self, chain: Chain<C>, x: EdgeID) -> Chain<C> {
        let ed = self.edges[x];
        if ed.src == chain.tail {
            Chain { head: chain.head, tail: ed.dst, coords: chain.coords + ed.linestring.skip(1) }
        } else if ed.dst == chain.tail {
            Chain {
                head: chain.head,
                tail: ed.src,
                coords: chain.coords + ed.linestring.reverse().skip(1),
            }
        } else if ed.dst == chain.head {
            Chain { head: ed.src, tail: chain.tail, coords: ed.linestring.drop_last() + chain.coords }
        } else {
            Chain {
                head: ed.dst,
                tail: chain.tail,
                coords: ed.linestring.reverse().drop_last() + chain.coords,
            }
        }
    }

    /// The index of the first edge of `rest` that attaches to the chain, or
    /// the length of `rest` if none does.
    pub open spec fn first_attaching(self, chain: Chain<C>, rest: Seq<EdgeID>) -> int
        decreases rest.len(),
    {
        if rest.len() == 0 {
            0
        } else if self.attaches(chain, rest[0]) {
            0
        } else {
            1 + self.first_attaching(chain, rest.skip(1))
        }
    }

    /// The chain grown as far as it goes: as long as an edge of `rest`
    /// attaches, the first such edge is joined on and leaves `rest`. Gives the
    /// chain and the edges that never attached.
    pub open spec fn grow(self, chain: Chain<C>, rest: Seq<EdgeID>) -> (Chain<C>, Seq<EdgeID>)
        decreases rest.len(),
    {
        let k = self.first_attaching(chain, rest);
        if 0 <= k < rest.len() {
            self.grow(self.attach(chain, rest[k]), rest.remove(k))
        } else {
            (chain, rest)
        }
    }

    /// The one line that the edges of a side join up to, if they do: there is
    /// an edge, and the chain grown from the first edge takes in all others.
    pub open spec fn joined_side(self, side: Seq<EdgeID>) -> Option<Seq<C>> {
        if side.len() == 0 {
            None
        } else {
            let grown = self.grow(self.chain_of(side[0]), side.skip(1));
            if grown.1.len() == 0 {
                Some(grown.0.coords)
            } else {
                None
            }
        }
    }
}

/// The first index of `rest` at which an edge attaches is in range or the length.
pub proof fn lemma_first_attaching<C>(g: GraphView<C>, chain: Chain<C>, rest: Seq<EdgeID>)
    ensures
        0 <= g.first_attaching(chain, rest) <= rest.len(),
        g.first_attaching(chain, rest) < rest.len() ==> g.attaches(
            chain,
            rest[g.first_attaching(chain, rest)],
        ),
        forall|j: int|
            0 <= j < g.first_attaching(chain, rest) ==> !g.attaches(chain, #[trigger] rest[j]),
    decreases rest.len(),
{
    if rest.len() > 0 && !g.attaches(chain, rest[0]) {
        lemma_first_attaching(g, chain, rest.skip(1));
        let k = g.first_attaching(chain, rest.skip(1));
        assert forall|j: int| 0 <= j < 1 + k implies !g.attaches(chain, #[trigger] rest[j]) by {
            if j > 0 {
                assert(rest.skip(1)[j - 1] == rest[j]);
            }
        }
        if k < rest.skip(1).len() {
            assert(rest.skip(1)[k] == rest[k + 1]);
        }
    }
}

/// If no edge before `p` attaches and the edge at `p` does, or `p` is the
/// length, then `p` is the first index at which one attaches.
pub proof fn lemma_first_attaching_is<C>(
    g: GraphView<C>,
    chain: Chain<C>,
    rest: Seq<EdgeID>,
    p: int,
)
    requires
        0 <= p <= rest.len(),
        forall|j: int| 0 <= j < p ==> !g.attaches(chain, #[trigger] rest[j]),
        p < rest.len() ==> g.attaches(chain, rest[p]),
    ensures
        g.first_attaching(chain, rest) == p,
{
    lemma_first_attaching(g, chain, rest);
    let k = g.first_attaching(chain, rest);
    if k < p {
        assert(!g.attaches(chain, rest[k]));
    }
}

/// The edges of `sorted` whose class is `class`, in their order.
pub open spec fn side_of(sorted: Seq<(EdgeID, Bearing)>, classes: Seq<usize>, class: usize) -> Seq<
    EdgeID,
>
    decreases sorted.len(),
{
    if sorted.len() == 0 || classes.len() == 0 {
        Seq::<EdgeID>::empty()
    } else {
        let rest = side_of(sorted.drop_last(), classes.drop_last(), class);
        if classes.last() == class {
            rest.push(sorted.last().0)
        } else {
            rest
        }
    }
}

/// The edges with their measured bearings.
pub open spec fn with_bearings(edges: Seq<EdgeID>, m: Map<EdgeID, EdgeMeasure>) -> Seq<
    (EdgeID, Bearing),
> {
    Seq::new(edges.len(), |i: int| (edges[i], m[edges[i]].bearing))
}

/// The bearings of a list of edges with bearings.
pub open spec fn bearings_of(items: Seq<(EdgeID, Bearing)>) -> Seq<Bearing> {
    Seq::new(items.len(), |i: int| items[i].1)
}

/// A dual carriageway that was found on the boundary of a face.
pub struct DualCarriageway<C> {
    /// The name that its edges share.
    pub name: String,
    /// The edges of the one direction, by rising bearing.
    pub side1: Vec<EdgeID>,
    /// The edges of the other direction, by rising bearing.
    pub side2: Vec<EdgeID>,
    /// The one direction as one line.
    pub side1_line: Vec<C>,
    /// The other direction as one line.
    pub side2_line: Vec<C>,
}

/// The value of a [`DualCarriageway`].
pub struct DualCarriagewayView<C> {
    pub name: Seq<char>,
    pub side1: Seq<EdgeID>,
    pub side2: Seq<EdgeID>,
    pub side1_line: Seq<C>,
    pub side2_line: Seq<C>,
}

impl<C> View for DualCarriageway<C> {
    type V = DualCarriagewayView<C>;

    open spec fn view(&self) -> DualCarriagewayView<C> {
        DualCarriagewayView {
            name: self.name@,
            side1: self.side1@,
            side2: self.side2@,
            side1_line: self.side1_line@,
            side2_line: self.side2_line@,
        }
    }
}

impl<C> GraphView<C> {
    /// The dual carriageway on the boundary of a face, or why there is none:
    /// its edges are found, put in order of bearing and sorted into two
    /// directions, and the edges of each direction must join up to one line.
    pub open spec fn dual_carriageway(self, face: FaceView<C>, m: Map<EdgeID, EdgeMeasure>) -> Result<
        DualCarriagewayView<C>,
        DetectError,
    > {
        match self.dc_edges(face, m) {
            Err(e) => Err(e),
            Ok(dc) => {
                let sorted = sorted_by_bearing(with_bearings(dc, m));
                let classes = bearing_classes(bearings_of(sorted));
                let side1 = side_of(sorted, classes, 0);
                let side2 = side_of(sorted, classes, 1);
                match (self.joined_side(side1), self.joined_side(side2)) {
                    (Some(a), Some(b)) => Ok(
                        DualCarriagewayView {
                            name: self.name_of(dc[0])->0,
                            side1,
                            side2,
                            side1_line: a,
                            side2_line: b,
                        },
                    ),
                    _ => Err(DetectError::SidesDidNotCoalesce),
                }
            },
        }
    }
}

/// Edge `e` is one of the edges of the list.
pub open spec fn lists_edge(items: Seq<(EdgeID, Bearing)>, e: EdgeID) -> bool {
    exists|j: int| 0 <= j < items.len() && (#[trigger] items[j]).0 == e
}

/// The edges of a side are edges of the sorted list.
pub proof fn lemma_side_of(sorted: Seq<(EdgeID, Bearing)>, classes: Seq<usize>, class: usize)
    requires
        sorted.len() == classes.len(),
    ensures
        forall|k: int|
            0 <= k < side_of(sorted, classes, class).len() ==> lists_edge(
                sorted,
                #[trigger] side_of(sorted, classes, class)[k],
            ),
    decreases sorted.len(),
{
    if sorted.len() > 0 {
        let init = sorted.drop_last();
        let rest = side_of(init, classes.drop_last(), class);
        lemma_side_of(init, classes.drop_last(), class);
        let s = side_of(sorted, classes, class);
        assert forall|k: int| 0 <= k < s.len() implies lists_edge(sorted, #[trigger] s[k]) by {
            if k < rest.len() {
                assert(s[k] == rest[k]);
                assert(lists_edge(init, rest[k]));
                let j = choose|j: int| 0 <= j < init.len() && (#[trigger] init[j]).0 == rest[k];
                assert(sorted[j] == init[j]);
            } else {
                assert(sorted[sorted.len() - 1].0 == s[k]);
            }
        }
    }
}

/// The measured boundary edges that are named oneways.
fn named_oneways<C: Copy>(graph: &Graph<C>, boundary_edges: &Vec<EdgeID>, measures: &Measures) -> (r:
    Vec<EdgeID>)
    requires
        graph.inv(),
        forall|k: int|
            0 <= k < boundary_edges@.len() ==> graph@.edges.contains_key(
                #[trigger] boundary_edges@[k],
            ),
    ensures
        r@ == keep(boundary_edges@, |e: EdgeID| graph@.is_named_oneway(e, measures@)),
{
    let ghost g = graph@;
    let ghost be = boundary_edges@;
    let ghost pred = |e: EdgeID| g.is_named_oneway(e, measures@);
    let mut out: Vec<EdgeID> = Vec::new();
    let mut k: usize = 0;
    while k < boundary_edges.len()
        invariant
            k <= be.len(),
            be == boundary_edges@,
            g == graph@,
            graph.inv(),
            forall|j: int| 0 <= j < be.len() ==> g.edges.contains_key(#[trigger] be[j]),
            pred == (|e: EdgeID| g.is_named_oneway(e, measures@)),
            out@ == keep(be.take(k as int), pred),
        decreases be.len() - k,
    {
        let e = boundary_edges[k];
        assert(g.edges.contains_key(be[k as int]));
        assert(g.edge_wf(e));
        assert(be.take(k + 1).drop_last() == be.take(k as int));
        let oneway = match graph.edge(e) {
            Some(edge) => edge.kind.is_oneway_road(graph),
            None => false,
        };
        let fits = oneway && graph.edge_name(e).is_some() && measures.get(e).is_some();
        assert(fits == pred(e));
        if fits {
            out.push(e);
        }
        k = k + 1;
    }
    assert(be.take(be.len() as int) == be);
    out
}

/// Edge `e` is in one of the groups.
pub open spec fn grouped(groups: Seq<Vec<EdgeID>>, e: EdgeID) -> bool {
    exists|g: int| 0 <= g < groups.len() && (#[trigger] groups[g])@.contains(e)
}

impl<C: Copy> Graph<C> {
    /// The name of the road that a live edge is part of, as a value of its own.
    pub fn owned_name(&self, e: EdgeID) -> (r: Option<String>)
        requires
            self.inv(),
            self@.edges.contains_key(e),
        ensures
            r is Some <==> self@.name_of(e) is Some,
            r is Some ==> r->0@ == self@.name_of(e)->0,
    {
        match self.edge_name(e) {
            Some(name) => Some(name.clone()),
            None => None,
        }
    }
}

/// The edges grouped by the name of their road. This calls
/// `Itertools::into_group_map_by` of the crate itertools, with the name of an
/// edge as the key, and takes the groups out of the map that it gives. The
/// contract claims what that function does with keys and values: a group is
/// never empty and holds exactly the edges that are named like its first
/// edge, in the order in which they came; and every edge is in a group. It
/// claims nothing of the order of the groups, which is that of a hash map.
#[verifier::external_body]
fn group_by_name<C: Copy>(graph: &Graph<C>, edges: &Vec<EdgeID>) -> (groups: Vec<Vec<EdgeID>>)
    requires
        graph.inv(),
        forall|k: int| 0 <= k < edges@.len() ==> graph@.edges.contains_key(#[trigger] edges@[k]),
    ensures
        forall|g: int|
            0 <= g < groups@.len() ==> (#[trigger] groups@[g])@.len() > 0 && groups@[g]@
                == graph@.named_like(edges@, groups@[g]@[0]),
        forall|k: int| 0 <= k < edges@.len() ==> grouped(groups@, #[trigger] edges@[k]),
{
    edges.iter().cloned().into_group_map_by(|e| graph.owned_name(*e)).into_values().collect()
}

/// The group that holds edge `e`.
fn group_of(groups: &Vec<Vec<EdgeID>>, e: EdgeID) -> (g: usize)
    requires
        grouped(groups@, e),
    ensures
        g < groups@.len(),
        groups@[g as int]@.contains(e),
{
    let mut g: usize = 0;
    while g < groups.len()
        invariant
            g <= groups@.len(),
            grouped(groups@, e),
            forall|j: int| 0 <= j < g ==> !(#[trigger] groups@[j])@.contains(e),
        decreases groups@.len() - g,
    {
        if list_contains(&groups[g], e) {
            return g;
        }
        g = g + 1;
    }
    proof {
        let j = choose|j: int| 0 <= j < groups@.len() && (#[trigger] groups@[j])@.contains(e);
        assert(!groups@[j]@.contains(e));
    }
    0
}

/// A group that holds an edge of the list holds exactly the edges of the
/// list that are named like that edge.
proof fn lemma_group_is_named_like<C>(
    g: GraphView<C>,
    list: Seq<EdgeID>,
    group: Seq<EdgeID>,
    e: EdgeID,
)
    requires
        group.len() > 0,
        group == g.named_like(list, group[0]),
        group.contains(e),
    ensures
        group == g.named_like(list, e),
{
    let first = group[0];
    lemma_keep(list, |x: EdgeID| g.name_of(x) == g.name_of(first));
    assert(g.name_of(e) == g.name_of(first));
    lemma_keep_agree(
        list,
        |x: EdgeID| g.name_of(x) == g.name_of(first),
        |x: EdgeID| g.name_of(x) == g.name_of(e),
    );
}

/// The index of the first edge of `list` whose name is borne by the most
/// edges of `list`, read off the groups of `list` by name.
fn most_common<C: Copy>(graph: &Graph<C>, list: &Vec<EdgeID>, groups: &Vec<Vec<EdgeID>>) -> (r:
    usize)
    requires
        list@.len() > 0,
        forall|g: int|
            0 <= g < groups@.len() ==> (#[trigger] groups@[g])@.len() > 0 && groups@[g]@
                == graph@.named_like(list@, groups@[g]@[0]),
        forall|k: int| 0 <= k < list@.len() ==> grouped(groups@, #[trigger] list@[k]),
    ensures
        r == graph@.most_common(list@, list@.len() as int),
        r < list@.len(),
{
    let ghost g = graph@;
    let mut best: usize = 0;
    let first_group = group_of(groups, list[0]);
    let mut best_size: usize = groups[first_group].len();
    proof {
        lemma_group_is_named_like(g, list@, groups@[first_group as int]@, list@[0]);
    }
    let mut k: usize = 1;
    while k < list.len()
        invariant
            1 <= k <= list@.len(),
            g == graph@,
            forall|j: int|
                0 <= j < groups@.len() ==> (#[trigger] groups@[j])@.len() > 0 && groups@[j]@
                    == g.named_like(list@, groups@[j]@[0]),
            forall|j: int| 0 <= j < list@.len() ==> grouped(groups@, #[trigger] list@[j]),
            best == g.most_common(list@, k as int),
            best < k,
            best_size == g.named_like(list@, list@[best as int]).len(),
        decreases list@.len() - k,
    {
        let at = group_of(groups, list[k]);
        let size = groups[at].len();
        proof {
            lemma_group_is_named_like(g, list@, groups@[at as int]@, list@[k as int]);
        }
        if size > best_size {
            best = k;
            best_size = size;
        }
        k = k + 1;
    }
    best
}

/// The edges of a dual carriageway on the boundary of a face, or why there
/// is none.
pub fn detect_dc_edges<C: Copy>(graph: &Graph<C>, face: &Face<C>, measures: &Measures) -> (r: Result<
    Vec<EdgeID>,
    DetectError,
>)
    requires
        graph.inv(),
        forall|k: int|
            0 <= k < face.boundary_edges@.len() ==> graph@.edges.contains_key(
                #[trigger] face.boundary_edges@[k],
            ),
    ensures
        r is Ok <==> graph@.dc_edges(face@, measures@) is Ok,
        r is Ok ==> r->Ok_0@ == graph@.dc_edges(face@, measures@)->Ok_0,
        r is Err ==> r->Err_0 == graph@.dc_edges(face@, measures@)->Err_0,
        r is Ok ==> forall|k: int|
            0 <= k < r->Ok_0@.len() ==> graph@.edges.contains_key(#[trigger] r->Ok_0@[k])
                && measures@.contains_key(r->Ok_0@[k]) && graph@.name_of(r->Ok_0@[k]) is Some,
{
    if face.kind != FaceKind::RoadArtifact {
        return Err(DetectError::NotRoadArtifact);
    }
    let ghost g = graph@;
    let oneways = named_oneways(graph, &face.boundary_edges, measures);
    if oneways.len() == 0 {
        return Err(DetectError::NoOneways);
    }
    proof {
        lemma_keep(face.boundary_edges@, |e: EdgeID| g.is_named_oneway(e, measures@));
        assert forall|k: int| 0 <= k < oneways@.len() implies g.edges.contains_key(
            #[trigger] oneways@[k],
        ) && g.is_named_oneway(oneways@[k], measures@) by {
            assert(oneways@.contains(oneways@[k]));
            let j = face.boundary_edges@.index_of(oneways@[k]);
            assert(g.edges.contains_key(face.boundary_edges@[j]));
        }
    }
    let groups = group_by_name(graph, &oneways);
    let best = most_common(graph, &oneways, &groups);
    let chosen = group_of(&groups, oneways[best]);
    let dc_edges = copy_vec(&groups[chosen]);
    proof {
        lemma_group_is_named_like(g, oneways@, groups@[chosen as int]@, oneways@[best as int]);
    }
    if dc_edges.len() < 2 {
        return Err(DetectError::NotEnoughEdges);
    }
    proof {
        lemma_keep(oneways@, |x: EdgeID| g.name_of(x) == g.name_of(oneways@[best as int]));
        assert forall|k: int| 0 <= k < dc_edges@.len() implies g.edges.contains_key(
            #[trigger] dc_edges@[k],
        ) && measures@.contains_key(dc_edges@[k]) && g.name_of(dc_edges@[k]) is Some by {
            assert(dc_edges@.contains(dc_edges@[k]));
            let j = oneways@.index_of(dc_edges@[k]);
            assert(g.is_named_oneway(oneways@[j], measures@));
        }
    }
    Ok(dc_edges)
}

/// The one line that the live edges of a side join up to, if they do.
pub fn join_side<C: Copy>(graph: &Graph<C>, side: &Vec<EdgeID>) -> (r: Option<Vec<C>>)
    requires
        graph.inv(),
        forall|k: int| 0 <= k < side@.len() ==> graph@.edges.contains_key(#[trigger] side@[k]),
    ensures
        r is Some <==> graph@.joined_side(side@) is Some,
        r is Some ==> r->0@ == graph@.joined_side(side@)->0,
{
    let ghost g = graph@;
    if side.len() == 0 {
        return None;
    }
    assert(g.edges.contains_key(side@[0]));
    let (mut head, mut tail, mut coords) = match graph.edge(side[0]) {
        Some(ed) => (ed.src, ed.dst, copy_vec(&ed.linestring)),
        None => (IntersectionID(0), IntersectionID(0), Vec::new()),
    };
    let mut rest: Vec<EdgeID> = Vec::new();
    let mut k: usize = 1;
    while k < side.len()
        invariant
            1 <= k <= side@.len(),
            rest@ == side@.subrange(1, k as int),
        decreases side@.len() - k,
    {
        rest.push(side[k]);
        assert(side@.subrange(1, k + 1) == side@.subrange(1, k as int).push(side@[k as int]));
        k = k + 1;
    }
    assert(side@.subrange(1, side@.len() as int) == side@.skip(1));
    let ghost goal = g.grow(g.chain_of(side@[0]), side@.skip(1));
    loop
        invariant
            g == graph@,
            graph.inv(),
            forall|j: int| 0 <= j < rest@.len() ==> g.edges.contains_key(#[trigger] rest@[j]),
            goal == g.grow(Chain { head, tail, coords: coords@ }, rest@),
        ensures
            goal == (Chain { head, tail, coords: coords@ }, rest@),
        decreases rest@.len(),
    {
        let ghost chain = Chain { head, tail, coords: coords@ };
        let mut p: usize = 0;
        let mut found = false;
        while !found && p < rest.len()
            invariant
                p <= rest@.len(),
                g == graph@,
                forall|j: int| 0 <= j < rest@.len() ==> g.edges.contains_key(#[trigger] rest@[j]),
                chain == (Chain { head, tail, coords: coords@ }),
                forall|j: int| 0 <= j < p ==> !g.attaches(chain, #[trigger] rest@[j]),
                found ==> p < rest@.len() && g.attaches(chain, rest@[p as int]),
            decreases rest@.len() - p + (if found {
                0int
            } else {
                1int
            }),
        {
            assert(g.edges.contains_key(rest@[p as int]));
            let hit = match graph.edge(rest[p]) {
                Some(ed) => ed.src == tail || ed.dst == tail || ed.dst == head || ed.src == head,
                None => false,
            };
            if hit {
                found = true;
            } else {
                p = p + 1;
            }
        }
        proof {
            lemma_first_attaching_is(g, chain, rest@, p as int);
        }
        if !found {
            break ;
        }
        let ghost before = rest@;
        let x = rest.remove(p);
        assert(g.edges.contains_key(before[p as int]));
        assert forall|j: int| 0 <= j < rest@.len() implies g.edges.contains_key(
            #[trigger] rest@[j],
        ) by {
            if j < p {
                assert(rest@[j] == before[j]);
            } else {
                assert(rest@[j] == before[j + 1]);
            }
        }
        match graph.edge(x) {
            Some(ed) => {
                if ed.src == tail {
                    let mut i: usize = 1;
                    let ghost start = coords@;
                    while i < ed.linestring.len()
                        invariant
                            1 <= i <= ed.linestring@.len() || ed.linestring@.len() == 0,
                            coords@ == start + ed.linestring@.subrange(
                                1,
                                if ed.linestring@.len() == 0 {
                                    1
                                } else {
                                    i as int
                                },
                            ),
                        decreases ed.linestring@.len() - i,
                    {
                        coords.push(ed.linestring[i]);
                        assert(ed.linestring@.subrange(1, i + 1) == ed.linestring@.subrange(
                            1,
                            i as int,
                        ).push(ed.linestring@[i as int]));
                        assert(coords@ =~= start + ed.linestring@.subrange(1, i + 1));
                        i = i + 1;
                    }
                    proof {
                        assert(g.edge_wf(x));
                        assert(ed.linestring@.subrange(1, ed.linestring@.len() as int)
                            == ed.linestring@.skip(1));
                    }
                    tail = ed.dst;
                } else if ed.dst == tail {
                    proof {
                        assert(g.edge_wf(x));
                    }
                    let turned = reversed(&ed.linestring);
                    let mut i: usize = 1;
                    let ghost start = coords@;
                    while i < turned.len()
                        invariant
                            1 <= i <= turned@.len(),
                            coords@ == start + turned@.subrange(1, i as int),
                        decreases turned@.len() - i,
                    {
                        coords.push(turned[i]);
                        assert(turned@.subrange(1, i + 1) == turned@.subrange(1, i as int).push(
                            turned@[i as int],
                        ));
                        assert(coords@ =~= start + turned@.subrange(1, i + 1));
                        i = i + 1;
                    }
                    assert(turned@.subrange(1, turned@.len() as int) == turned@.skip(1));
                    tail = ed.src;
                } else if ed.dst == head {
                    proof {
                        assert(g.edge_wf(x));
                    }
                    let mut front = copy_vec(&ed.linestring);
                    front.pop();
                    coords = concat(&front, &coords);
                    head = ed.src;
                } else {
                    proof {
                        assert(g.edge_wf(x));
                    }
                    let mut front = reversed(&ed.linestring);
                    front.pop();
                    coords = concat(&front, &coords);
                    head = ed.dst;
                }
            },
            None => {},
        }
    }
    if rest.len() == 0 {
        Some(coords)
    } else {
        None
    }
}

impl<C: Copy> DualCarriageway<C> {
    /// The dual carriageway on the boundary of a face, by these
    /// measurements, or why there is none.
    pub fn maybe_new(graph: &Graph<C>, face: &Face<C>, measures: &Measures) -> (r: Result<
        DualCarriageway<C>,
        DetectError,
    >)
        requires
            graph.inv(),
            forall|k: int|
                0 <= k < face.boundary_edges@.len() ==> graph@.edges.contains_key(
                    #[trigger] face.boundary_edges@[k],
                ),
        ensures
            r is Ok <==> graph@.dual_carriageway(face@, measures@) is Ok,
            r is Ok ==> r->Ok_0@ == graph@.dual_carriageway(face@, measures@)->Ok_0,
            r is Err ==> r->Err_0 == graph@.dual_carriageway(face@, measures@)->Err_0,
    {
        let ghost g = graph@;
        let dc_edges = match detect_dc_edges(graph, face, measures) {
            Ok(dc) => dc,
            Err(e) => {
                return Err(e);
            },
        };
        let mut edge_bearings: Vec<(EdgeID, Bearing)> = Vec::new();
        let mut k: usize = 0;
        while k < dc_edges.len()
            invariant
                k <= dc_edges@.len(),
                forall|j: int|
                    0 <= j < dc_edges@.len() ==> measures@.contains_key(#[trigger] dc_edges@[j]),
                edge_bearings@ == with_bearings(dc_edges@.take(k as int), measures@),
            decreases dc_edges@.len() - k,
        {
            assert(measures@.contains_key(dc_edges@[k as int]));
            let bearing = match measures.get(dc_edges[k]) {
                Some(m) => m.bearing,
                None => Bearing { micro_degrees: 0 },
            };
            edge_bearings.push((dc_edges[k], bearing));
            assert(edge_bearings@ =~= with_bearings(dc_edges@.take(k + 1), measures@));
            k = k + 1;
        }
        assert(dc_edges@.take(dc_edges@.len() as int) == dc_edges@);
        let sorted = sort_by_bearing(&edge_bearings);
        let mut bearings: Vec<Bearing> = Vec::new();
        let mut k: usize = 0;
        while k < sorted.len()
            invariant
                k <= sorted@.len(),
                bearings@ == bearings_of(sorted@.take(k as int)),
            decreases sorted@.len() - k,
        {
            bearings.push(sorted[k].1);
            assert(bearings@ =~= bearings_of(sorted@.take(k + 1)));
            k = k + 1;
        }
        assert(sorted@.take(sorted@.len() as int) == sorted@);
        let classes = classify_bearings(&bearings);
        proof {
            lemma_bearing_classes(bearings@);
        }
        let mut side1: Vec<EdgeID> = Vec::new();
        let mut side2: Vec<EdgeID> = Vec::new();
        let mut k: usize = 0;
        while k < sorted.len()
            invariant
                k <= sorted@.len(),
                classes@.len() == sorted@.len(),
                forall|i: int|
                    0 <= i < classes@.len() ==> (#[trigger] classes@[i]) == 0 || classes@[i] == 1,
                side1@ == side_of(sorted@.take(k as int), classes@.take(k as int), 0),
                side2@ == side_of(sorted@.take(k as int), classes@.take(k as int), 1),
            decreases sorted@.len() - k,
        {
            assert(sorted@.take(k + 1).drop_last() == sorted@.take(k as int));
            assert(classes@.take(k + 1).drop_last() == classes@.take(k as int));
            assert(classes@.take(k + 1).last() == classes@[k as int]);
            assert(sorted@.take(k + 1).last() == sorted@[k as int]);
            if classes[k] == 0 {
                side1.push(sorted[k].0);
            } else {
                side2.push(sorted[k].0);
            }
            k = k + 1;
        }
        assert(sorted@.take(sorted@.len() as int) == sorted@);
        assert(classes@.take(classes@.len() as int) == classes@);
        proof {
            lemma_sorted_by_bearing(edge_bearings@);
            lemma_side_of(sorted@, classes@, 0);
            lemma_side_of(sorted@, classes@, 1);
            assert forall|j: int| 0 <= j < sorted@.len() implies g.edges.contains_key(
                (#[trigger] sorted@[j]).0,
            ) by {
                assert(sorted@.contains(sorted@[j]));
                let i = edge_bearings@.index_of(sorted@[j]);
                assert(edge_bearings@[i].0 == dc_edges@[i]);
            }
            assert forall|k: int| 0 <= k < side1@.len() implies g.edges.contains_key(
                #[trigger] side1@[k],
            ) by {
                assert(lists_edge(sorted@, side1@[k]));
                let j = choose|j: int|
                    0 <= j < sorted@.len() && (#[trigger] sorted@[j]).0 == side1@[k];
                assert(g.edges.contains_key(sorted@[j].0));
            }
            assert forall|k: int| 0 <= k < side2@.len() implies g.edges.contains_key(
                #[trigger] side2@[k],
            ) by {
                assert(lists_edge(sorted@, side2@[k]));
                let j = choose|j: int|
                    0 <= j < sorted@.len() && (#[trigger] sorted@[j]).0 == side2@[k];
                assert(g.edges.contains_key(sorted@[j].0));
            }
        }
        let side1_line = join_side(graph, &side1);
        let side2_line = join_side(graph, &side2);
        let name = match graph.edge_name(dc_edges[0]) {
            Some(n) => n.clone(),
            None => String::new(),
        };
        match (side1_line, side2_line) {
            (Some(a), Some(b)) => Ok(
                DualCarriageway { name, side1, side2, side1_line: a, side2_line: b },
            ),
            _ => Err(DetectError::SidesDidNotCoalesce),
        }
    }
}

} // verus!
