//! The graph store: edges and intersections in two arenas, addressed by id
//! only, with the primitive mutations that every rewrite is built from.

use vstd::prelude::*;
use crate::ids::{EdgeID, IntersectionID, OriginalEdgeID};
use crate::kinds::EdgeKind;
use crate::model::{EdgeView, GraphView, IntersectionProvenance, IntersectionView,
    OriginalEdgeView, PolygonView, lemma_bump_wf, lemma_create_edge_wf,
    lemma_create_intersection_wf, lemma_remove_edge_wf, lemma_remove_intersection_wf,
    lemma_replace_intersection_wf, lemma_sweep_wf};
use crate::seqs::{append_missing, lemma_without, without};
use crate::tags::Tags;

verus! {

/// A directed edge with its geometry and its kind.
pub struct Edge<C> {
    pub id: EdgeID,
    pub src: IntersectionID,
    pub dst: IntersectionID,
    /// The polyline from `src` to `dst`.
    pub linestring: Vec<C>,
    pub kind: EdgeKind,
}

/// A junction: a point and the edges that end at it.
pub struct Intersection<C> {
    pub id: IntersectionID,
    pub edges: Vec<EdgeID>,
    pub point: C,
    pub provenance: IntersectionProvenance,
}

/// An edge as the source data had it. Never changed.
pub struct OriginalEdge {
    pub way: i64,
    pub node1: i64,
    pub node2: i64,
    pub tags: Tags,
}

/// A polygon: an outer ring and holes.
pub struct Polygon<C> {
    pub exterior: Vec<C>,
    pub interiors: Vec<Vec<C>>,
}

impl<C> View for Edge<C> {
    type V = EdgeView<C>;

    open spec fn view(&self) -> EdgeView<C> {
        EdgeView {
            id: self.id,
            src: self.src,
            dst: self.dst,
            linestring: self.linestring@,
            kind: self.kind@,
        }
    }
}

impl<C> View for Intersection<C> {
    type V = IntersectionView<C>;

    open spec fn view(&self) -> IntersectionView<C> {
        IntersectionView {
            id: self.id,
            edges: self.edges@,
            point: self.point,
            provenance: self.provenance,
        }
    }
}

impl View for OriginalEdge {
    type V = OriginalEdgeView;

    open spec fn view(&self) -> OriginalEdgeView {
        OriginalEdgeView { way: self.way, node1: self.node1, node2: self.node2, tags: self.tags@ }
    }
}

impl<C> View for Polygon<C> {
    type V = PolygonView<C>;

    open spec fn view(&self) -> PolygonView<C> {
        PolygonView {
            exterior: self.exterior@,
            interiors: Seq::new(self.interiors@.len(), |i: int| self.interiors@[i]@),
        }
    }
}

/// A copy of a list of plain values.
pub fn copy_vec<T: Copy>(v: &Vec<T>) -> (r: Vec<T>)
    ensures
        r@ == v@,
{
    let mut out: Vec<T> = Vec::new();
    let mut i: usize = 0;
    while i < v.len()
        invariant
            i <= v@.len(),
            out@ == v@.take(i as int),
        decreases v@.len() - i,
    {
        out.push(v[i]);
        assert(v@.take(i + 1) == v@.take(i as int).push(v@[i as int]));
        i = i + 1;
    }
    assert(v@.take(v@.len() as int) == v@);
    out
}

impl<C: Copy> Edge<C> {
    /// A copy of the edge.
    pub fn clone(&self) -> (r: Edge<C>)
        ensures
            r@ == self@,
            r.kind.wf() == self.kind.wf(),
    {
        Edge {
            id: self.id,
            src: self.src,
            dst: self.dst,
            linestring: copy_vec(&self.linestring),
            kind: self.kind.clone(),
        }
    }
}

impl<C: Copy> Intersection<C> {
    /// A copy of the intersection.
    pub fn clone(&self) -> (r: Intersection<C>)
        ensures
            r@ == self@,
    {
        Intersection {
            id: self.id,
            edges: copy_vec(&self.edges),
            point: self.point,
            provenance: self.provenance,
        }
    }
}

impl OriginalEdge {
    /// A copy of the original edge.
    pub fn clone(&self) -> (r: OriginalEdge)
        ensures
            r@ == self@,
    {
        OriginalEdge {
            way: self.way,
            node1: self.node1,
            node2: self.node2,
            tags: self.tags.clone(),
        }
    }
}

impl<C: Copy> Polygon<C> {
    /// A copy of the polygon.
    pub fn clone(&self) -> (r: Polygon<C>)
        ensures
            r@ == self@,
    {
        let mut interiors: Vec<Vec<C>> = Vec::new();
        let mut i: usize = 0;
        while i < self.interiors.len()
            invariant
                i <= self.interiors@.len(),
                interiors@.len() == i,
                forall|j: int| 0 <= j < i ==> interiors@[j]@ == self.interiors@[j]@,
            decreases self.interiors@.len() - i,
        {
            interiors.push(copy_vec(&self.interiors[i]));
            i = i + 1;
        }
        let r = Polygon { exterior: copy_vec(&self.exterior), interiors };
        assert(r@.interiors =~= self@.interiors);
        r
    }
}

/// `list` without `e`.
fn retain_other(list: &Vec<EdgeID>, e: EdgeID) -> (r: Vec<EdgeID>)
    ensures
        r@ == without(list@, e),
{
    let mut out: Vec<EdgeID> = Vec::new();
    let mut i: usize = 0;
    while i < list.len()
        invariant
            i <= list@.len(),
            out@ == without(list@.take(i as int), e),
        decreases list@.len() - i,
    {
        assert(list@.take(i + 1).drop_last() == list@.take(i as int));
        if list[i] != e {
            out.push(list[i]);
        }
        i = i + 1;
    }
    assert(list@.take(list@.len() as int) == list@);
    out
}

/// Whether `list` holds `e`.
pub fn list_contains(list: &Vec<EdgeID>, e: EdgeID) -> (r: bool)
    ensures
        r == list@.contains(e),
{
    let mut i: usize = 0;
    while i < list.len()
        invariant
            i <= list@.len(),
            forall|j: int| 0 <= j < i ==> list@[j] != e,
        decreases list@.len() - i,
    {
        if list[i] == e {
            return true;
        }
        i = i + 1;
    }
    false
}

/// The mutable planar multigraph.
pub struct Graph<C> {
    edges: Vec<Option<Edge<C>>>,
    intersections: Vec<Option<Intersection<C>>>,
    original_edges: Vec<Option<OriginalEdge>>,
    boundary_polygon: Polygon<C>,
    intersection_id_counter: usize,
    edge_id_counter: usize,
}

impl<C> View for Graph<C> {
    type V = GraphView<C>;

    closed spec fn view(&self) -> GraphView<C> {
        GraphView {
            edges: Map::new(
                |e: EdgeID| e.0 < self.edges@.len() && self.edges@[e.0 as int] is Some,
                |e: EdgeID| self.edges@[e.0 as int]->0@,
            ),
            intersections: Map::new(
                |i: IntersectionID|
                    i.0 < self.intersections@.len() && self.intersections@[i.0 as int] is Some,
                |i: IntersectionID| self.intersections@[i.0 as int]->0@,
            ),
            original_edges: Map::new(
                |o: OriginalEdgeID|
                    o.0 < self.original_edges@.len() && self.original_edges@[o.0 as int] is Some,
                |o: OriginalEdgeID| self.original_edges@[o.0 as int]->0@,
            ),
            boundary_polygon: self.boundary_polygon@,
            intersection_id_counter: self.intersection_id_counter as nat,
            edge_id_counter: self.edge_id_counter as nat,
        }
    }
}

impl<C: Copy> Graph<C> {
    /// The arenas are in order: each element sits in the slot of its id, the
    /// counters are past every slot, and every kind lists its members once.
    pub closed spec fn arenas_ok(&self) -> bool {
        &&& self.edges@.len() <= self.edge_id_counter + 1
        &&& self.intersections@.len() <= self.intersection_id_counter + 1
        &&& forall|k: int|
            0 <= k < self.edges@.len() && (#[trigger] self.edges@[k]) is Some ==> {
                &&& self.edges@[k]->0.id == EdgeID(k as usize)
                &&& self.edges@[k]->0.kind.wf()
            }
        &&& forall|k: int|
            0 <= k < self.intersections@.len() && (#[trigger] self.intersections@[k]) is Some
                ==> self.intersections@[k]->0.id == IntersectionID(k as usize)
    }

    /// The invariant of the store: the arenas are in order and the graph they
    /// hold is consistent.
    pub open spec fn inv(&self) -> bool {
        self.arenas_ok() && self@.wf()
    }

    /// A store of these arenas, with each counter at the length of its arena.
    pub(crate) fn from_arenas(
        edges: Vec<Option<Edge<C>>>,
        intersections: Vec<Option<Intersection<C>>>,
        original_edges: Vec<Option<OriginalEdge>>,
        boundary_polygon: Polygon<C>,
    ) -> (r: Graph<C>)
        ensures
            r@.edges == Map::new(
                |e: EdgeID| e.0 < edges@.len() && edges@[e.0 as int] is Some,
                |e: EdgeID| edges@[e.0 as int]->0@,
            ),
            r@.intersections == Map::new(
                |i: IntersectionID| i.0 < intersections@.len() && intersections@[i.0 as int] is Some,
                |i: IntersectionID| intersections@[i.0 as int]->0@,
            ),
            r@.original_edges == Map::new(
                |o: OriginalEdgeID|
                    o.0 < original_edges@.len() && original_edges@[o.0 as int] is Some,
                |o: OriginalEdgeID| original_edges@[o.0 as int]->0@,
            ),
            r@.boundary_polygon == boundary_polygon@,
            r@.edge_id_counter == edges@.len(),
            r@.intersection_id_counter == intersections@.len(),
            r.arenas_ok() == ((forall|k: int|
                0 <= k < edges@.len() && (#[trigger] edges@[k]) is Some ==> {
                    &&& edges@[k]->0.id == EdgeID(k as usize)
                    &&& edges@[k]->0.kind.wf()
                }) && (forall|k: int|
                0 <= k < intersections@.len() && (#[trigger] intersections@[k]) is Some
                    ==> intersections@[k]->0.id == IntersectionID(k as usize))),
    {
        let ec = edges.len();
        let ic = intersections.len();
        Graph {
            edges,
            intersections,
            original_edges,
            boundary_polygon,
            intersection_id_counter: ic,
            edge_id_counter: ec,
        }
    }

    /// A store holds finitely many edges and intersections.
    pub proof fn lemma_finite(&self)
        ensures
            self@.edges.dom().finite(),
            self@.intersections.dom().finite(),
    {
        let ne = self.edges@.len() as int;
        let ni = self.intersections@.len() as int;
        vstd::set_lib::lemma_int_range(0, ne);
        vstd::set_lib::lemma_int_range(0, ni);
        let edge_ids = vstd::set_lib::set_int_range(0, ne).map(|k: int| EdgeID(k as usize));
        let intersection_ids = vstd::set_lib::set_int_range(0, ni).map(
            |k: int| IntersectionID(k as usize),
        );
        vstd::set_lib::set_int_range(0, ne).lemma_map_finite(|k: int| EdgeID(k as usize));
        vstd::set_lib::set_int_range(0, ni).lemma_map_finite(|k: int| IntersectionID(k as usize));
        assert forall|e: EdgeID| self@.edges.dom().contains(e) implies edge_ids.contains(e) by {
            assert(vstd::set_lib::set_int_range(0, ne).contains(e.0 as int));
            assert(EdgeID((e.0 as int) as usize) == e);
        }
        assert forall|i: IntersectionID| self@.intersections.dom().contains(
            i,
        ) implies intersection_ids.contains(i) by {
            assert(vstd::set_lib::set_int_range(0, ni).contains(i.0 as int));
            assert(IntersectionID((i.0 as int) as usize) == i);
        }
        vstd::set_lib::lemma_set_subset_finite(edge_ids, self@.edges.dom());
        vstd::set_lib::lemma_set_subset_finite(intersection_ids, self@.intersections.dom());
    }

    /// The edge with id `e`, if it is live.
    pub fn edge(&self, e: EdgeID) -> (r: Option<&Edge<C>>)
        ensures
            r is Some <==> self@.edges.contains_key(e),
            r is Some ==> r->0@ == self@.edges[e],
            r is Some && self.arenas_ok() ==> r->0.kind.wf() && r->0.id == e && e.0
                <= self@.edge_id_counter,
    {
        if e.0 < self.edges.len() {
            match &self.edges[e.0] {
                Some(x) => Some(x),
                None => None,
            }
        } else {
            None
        }
    }

    /// The intersection with id `i`, if it is live.
    pub fn intersection(&self, i: IntersectionID) -> (r: Option<&Intersection<C>>)
        ensures
            r is Some <==> self@.intersections.contains_key(i),
            r is Some ==> r->0@ == self@.intersections[i],
            r is Some && self.arenas_ok() ==> r->0.id == i && i.0
                <= self@.intersection_id_counter,
    {
        if i.0 < self.intersections.len() {
            match &self.intersections[i.0] {
                Some(x) => Some(x),
                None => None,
            }
        } else {
            None
        }
    }

    /// The original edge with id `o`, if the graph knows it.
    pub fn original_edge(&self, o: OriginalEdgeID) -> (r: Option<&OriginalEdge>)
        ensures
            r is Some <==> self@.original_edges.contains_key(o),
            r is Some ==> r->0@ == self@.original_edges[o],
    {
        if o.0 < self.original_edges.len() {
            match &self.original_edges[o.0] {
                Some(x) => Some(x),
                None => None,
            }
        } else {
            None
        }
    }

    /// The polygon that bounds the mapped region.
    pub fn boundary_polygon(&self) -> (r: &Polygon<C>)
        ensures
            r@ == self@.boundary_polygon,
    {
        &self.boundary_polygon
    }

    /// One past the largest edge id that may be live.
    pub fn edge_id_bound(&self) -> (r: usize)
        ensures
            forall|e: EdgeID| #[trigger] self@.edges.contains_key(e) ==> e.0 < r,
            self.inv() ==> r <= self@.edge_id_counter + 1,
            self@.edge_id_counter <= usize::MAX,
    {
        self.edges.len()
    }

    /// One past the largest intersection id that may be live.
    pub fn intersection_id_bound(&self) -> (r: usize)
        ensures
            forall|i: IntersectionID| #[trigger] self@.intersections.contains_key(i) ==> i.0 < r,
            self.inv() ==> r <= self@.intersection_id_counter + 1,
            self@.intersection_id_counter <= usize::MAX,
    {
        self.intersections.len()
    }

    /// A copy of the graph.
    pub fn clone(&self) -> (r: Graph<C>)
        ensures
            r@ == self@,
            r.inv() == self.inv(),
    {
        let mut edges: Vec<Option<Edge<C>>> = Vec::new();
        let mut k: usize = 0;
        while k < self.edges.len()
            invariant
                k <= self.edges@.len(),
                edges@.len() == k,
                forall|j: int|
                    0 <= j < k ==> ((#[trigger] edges@[j]) is Some) == (self.edges@[j] is Some),
                forall|j: int|
                    0 <= j < k && (#[trigger] edges@[j]) is Some ==> edges@[j]->0@
                        == self.edges@[j]->0@ && edges@[j]->0.kind.wf()
                        == self.edges@[j]->0.kind.wf(),
            decreases self.edges@.len() - k,
        {
            let slot = match &self.edges[k] {
                Some(e) => Some(e.clone()),
                None => None,
            };
            edges.push(slot);
            k = k + 1;
        }
        let mut intersections: Vec<Option<Intersection<C>>> = Vec::new();
        let mut k: usize = 0;
        while k < self.intersections.len()
            invariant
                k <= self.intersections@.len(),
                intersections@.len() == k,
                forall|j: int|
                    0 <= j < k ==> ((#[trigger] intersections@[j]) is Some) == (
                    self.intersections@[j] is Some),
                forall|j: int|
                    0 <= j < k && (#[trigger] intersections@[j]) is Some ==> intersections@[j]->0@
                        == self.intersections@[j]->0@,
            decreases self.intersections@.len() - k,
        {
            let slot = match &self.intersections[k] {
                Some(x) => Some(x.clone()),
                None => None,
            };
            intersections.push(slot);
            k = k + 1;
        }
        let mut original_edges: Vec<Option<OriginalEdge>> = Vec::new();
        let mut k: usize = 0;
        while k < self.original_edges.len()
            invariant
                k <= self.original_edges@.len(),
                original_edges@.len() == k,
                forall|j: int|
                    0 <= j < k ==> ((#[trigger] original_edges@[j]) is Some) == (
                    self.original_edges@[j] is Some),
                forall|j: int|
                    0 <= j < k && (#[trigger] original_edges@[j]) is Some
                        ==> original_edges@[j]->0@ == self.original_edges@[j]->0@,
            decreases self.original_edges@.len() - k,
        {
            let slot = match &self.original_edges[k] {
                Some(x) => Some(x.clone()),
                None => None,
            };
            original_edges.push(slot);
            k = k + 1;
        }
        let r = Graph {
            edges,
            intersections,
            original_edges,
            boundary_polygon: self.boundary_polygon.clone(),
            intersection_id_counter: self.intersection_id_counter,
            edge_id_counter: self.edge_id_counter,
        };
        proof {
            assert(r@.edges =~= self@.edges);
            assert(r@.intersections =~= self@.intersections);
            assert(r@.original_edges =~= self@.original_edges);
            assert(r.arenas_ok() == self.arenas_ok()) by {
                if self.arenas_ok() {
                    assert forall|k: int|
                        0 <= k < r.edges@.len() && (#[trigger] r.edges@[k]) is Some implies {
                        &&& r.edges@[k]->0.id == EdgeID(k as usize)
                        &&& r.edges@[k]->0.kind.wf()
                    } by {
                        assert(self.edges@[k] is Some);
                        assert(r.edges@[k]->0@ == self.edges@[k]->0@);
                    }
                    assert forall|k: int|
                        0 <= k < r.intersections@.len() && (#[trigger] r.intersections@[k]) is Some implies r.intersections@[k]->0.id
                        == IntersectionID(k as usize) by {
                        assert(self.intersections@[k] is Some);
                        assert(r.intersections@[k]->0@ == self.intersections@[k]->0@);
                    }
                }
                if r.arenas_ok() {
                    assert forall|k: int|
                        0 <= k < self.edges@.len() && (#[trigger] self.edges@[k]) is Some implies {
                        &&& self.edges@[k]->0.id == EdgeID(k as usize)
                        &&& self.edges@[k]->0.kind.wf()
                    } by {
                        assert(r.edges@[k] is Some);
                        assert(r.edges@[k]->0@ == self.edges@[k]->0@);
                    }
                    assert forall|k: int|
                        0 <= k < self.intersections@.len() && (#[trigger] self.intersections@[k]) is Some implies self.intersections@[k]->0.id
                        == IntersectionID(k as usize) by {
                        assert(r.intersections@[k] is Some);
                        assert(r.intersections@[k]->0@ == self.intersections@[k]->0@);
                    }
                }
            }
        }
        r
    }

    /// The number of the id that the next new intersection gets.
    pub fn next_intersection_number(&self) -> (r: usize)
        requires
            self@.intersection_id_counter < usize::MAX,
        ensures
            r == self@.intersection_id_counter + 1,
    {
        self.intersection_id_counter + 1
    }

    /// Whether there are ids left for so many new intersections and edges.
    pub fn counters_leave(&self, intersections: usize, edges: usize) -> (r: bool)
        ensures
            r == (self@.intersection_id_counter + intersections <= usize::MAX
                && self@.edge_id_counter + edges <= usize::MAX),
            self@.intersection_id_counter <= usize::MAX,
            self@.edge_id_counter <= usize::MAX,
    {
        intersections <= usize::MAX - self.intersection_id_counter && edges <= usize::MAX
            - self.edge_id_counter
    }

    /// Hands out a fresh intersection id.
    pub fn new_intersection_id(&mut self) -> (id: IntersectionID)
        requires
            old(self).inv(),
            old(self)@.intersection_id_counter < usize::MAX,
        ensures
            final(self).inv(),
            final(self)@ == old(self)@.bump_intersection_id(),
            id == old(self)@.next_intersection_id(),
    {
        self.intersection_id_counter += 1;
        proof {
            assert(self@.edges =~= old(self)@.edges);
            assert(self@.intersections =~= old(self)@.intersections);
            assert(self@.original_edges =~= old(self)@.original_edges);
            lemma_bump_wf(old(self)@);
        }
        IntersectionID(self.intersection_id_counter)
    }

    /// Hands out a fresh edge id.
    pub fn new_edge_id(&mut self) -> (id: EdgeID)
        requires
            old(self).inv(),
            old(self)@.edge_id_counter < usize::MAX,
        ensures
            final(self).inv(),
            final(self)@ == old(self)@.bump_edge_id(),
            id == old(self)@.next_edge_id(),
    {
        self.edge_id_counter += 1;
        proof {
            assert(self@.edges =~= old(self)@.edges);
            assert(self@.intersections =~= old(self)@.intersections);
            assert(self@.original_edges =~= old(self)@.original_edges);
            lemma_bump_wf(old(self)@);
        }
        EdgeID(self.edge_id_counter)
    }

    /// Takes `e` out of the list of intersection `i`.
    fn unlist(&mut self, i: IntersectionID, e: EdgeID)
        requires
            i.0 < old(self).intersections@.len(),
            old(self).intersections@[i.0 as int] is Some,
        ensures
            final(self).edges == old(self).edges,
            final(self).original_edges == old(self).original_edges,
            final(self).boundary_polygon == old(self).boundary_polygon,
            final(self).intersection_id_counter == old(self).intersection_id_counter,
            final(self).edge_id_counter == old(self).edge_id_counter,
            final(self).intersections@.len() == old(self).intersections@.len(),
            forall|k: int|
                0 <= k < old(self).intersections@.len() && k != i.0 ==> final(self).intersections@[k] == old(self).intersections@[k],
            final(self).intersections@[i.0 as int] is Some,
            final(self).intersections@[i.0 as int]->0@ == (IntersectionView {
                edges: without(old(self).intersections@[i.0 as int]->0.edges@, e),
                ..old(self).intersections@[i.0 as int]->0@
            }),
    {
        match &mut self.intersections[i.0] {
            Some(x) => {
                let kept = retain_other(&x.edges, e);
                x.edges = kept;
            },
            None => {},
        }
    }

    /// Puts `e` last in the list of intersection `i`.
    fn list(&mut self, i: IntersectionID, e: EdgeID)
        requires
            i.0 < old(self).intersections@.len(),
            old(self).intersections@[i.0 as int] is Some,
        ensures
            final(self).edges == old(self).edges,
            final(self).original_edges == old(self).original_edges,
            final(self).boundary_polygon == old(self).boundary_polygon,
            final(self).intersection_id_counter == old(self).intersection_id_counter,
            final(self).edge_id_counter == old(self).edge_id_counter,
            final(self).intersections@.len() == old(self).intersections@.len(),
            forall|k: int|
                0 <= k < old(self).intersections@.len() && k != i.0 ==> final(self).intersections@[k] == old(self).intersections@[k],
            final(self).intersections@[i.0 as int] is Some,
            final(self).intersections@[i.0 as int]->0@ == (IntersectionView {
                edges: old(self).intersections@[i.0 as int]->0.edges@.push(e),
                ..old(self).intersections@[i.0 as int]->0@
            }),
    {
        match &mut self.intersections[i.0] {
            Some(x) => {
                x.edges.push(e);
            },
            None => {},
        }
    }

    /// Puts `e` last in the list of intersection `i`, unless it is there.
    fn list_if_missing(&mut self, i: IntersectionID, e: EdgeID)
        requires
            i.0 < old(self).intersections@.len(),
            old(self).intersections@[i.0 as int] is Some,
        ensures
            final(self).edges == old(self).edges,
            final(self).original_edges == old(self).original_edges,
            final(self).boundary_polygon == old(self).boundary_polygon,
            final(self).intersection_id_counter == old(self).intersection_id_counter,
            final(self).edge_id_counter == old(self).edge_id_counter,
            final(self).intersections@.len() == old(self).intersections@.len(),
            forall|k: int|
                0 <= k < old(self).intersections@.len() && k != i.0 ==> final(self).intersections@[k]
                    == old(self).intersections@[k],
            final(self).intersections@[i.0 as int] is Some,
            final(self).intersections@[i.0 as int]->0@ == (IntersectionView {
                edges: if old(self).intersections@[i.0 as int]->0.edges@.contains(e) {
                    old(self).intersections@[i.0 as int]->0.edges@
                } else {
                    old(self).intersections@[i.0 as int]->0.edges@.push(e)
                },
                ..old(self).intersections@[i.0 as int]->0@
            }),
    {
        match &mut self.intersections[i.0] {
            Some(x) => {
                if !list_contains(&x.edges, e) {
                    x.edges.push(e);
                }
            },
            None => {},
        }
    }

    /// Moves each end of edge `e` that sits on `old` to `new`; with `extend`,
    /// adds `p` to the linestring at each end that moved.
    fn rewire_edge(
        &mut self,
        e: EdgeID,
        old_i: IntersectionID,
        new_i: IntersectionID,
        p: C,
        extend: bool,
    )
        requires
            e.0 < old(self).edges@.len(),
            old(self).edges@[e.0 as int] is Some,
        ensures
            final(self).intersections == old(self).intersections,
            final(self).original_edges == old(self).original_edges,
            final(self).boundary_polygon == old(self).boundary_polygon,
            final(self).intersection_id_counter == old(self).intersection_id_counter,
            final(self).edge_id_counter == old(self).edge_id_counter,
            final(self).edges@.len() == old(self).edges@.len(),
            forall|k: int|
                0 <= k < old(self).edges@.len() && k != e.0 ==> final(self).edges@[k] == old(self).edges@[k],
            final(self).edges@[e.0 as int] is Some,
            final(self).edges@[e.0 as int]->0@ == old(self).edges@[e.0 as int]->0@.rewire(
                old_i,
                new_i,
                p,
                extend,
            ),
            final(self).edges@[e.0 as int]->0.kind == old(self).edges@[e.0 as int]->0.kind,
    {
        match &mut self.edges[e.0] {
            Some(edge) => {
                let ghost before = edge@;
                if edge.src == old_i {
                    edge.src = new_i;
                    if extend {
                        edge.linestring.insert(0, p);
                    }
                }
                if edge.dst == old_i {
                    edge.dst = new_i;
                    if extend {
                        edge.linestring.push(p);
                    }
                }
                assert(edge@.linestring =~= before.rewire(old_i, new_i, p, extend).linestring);
            },
            None => {},
        }
    }

    /// Folds intersection `remove_i` into `new_intersection`: every edge end
    /// on the former moves to the latter, which lists those edges behind its
    /// own, and the former is removed. With `extend_geometry`, the point of
    /// `new_intersection` is added to the linestring at each end that moved.
    pub fn replace_intersection(
        &mut self,
        remove_i: IntersectionID,
        new_intersection: IntersectionID,
        extend_geometry: bool,
    )
        requires
            old(self).inv(),
            old(self)@.intersections.contains_key(remove_i),
            old(self)@.intersections.contains_key(new_intersection),
            remove_i != new_intersection,
        ensures
            final(self).inv(),
            final(self)@ == old(self)@.replace_intersection(
                remove_i,
                new_intersection,
                extend_geometry,
            ),
    {
        let ghost g = old(self)@;
        let mut slot: Option<Intersection<C>> = None;
        std::mem::swap(&mut slot, &mut self.intersections[remove_i.0]);
        let intersection = slot.unwrap();
        let p = match &self.intersections[new_intersection.0] {
            Some(x) => x.point,
            None => intersection.point,
        };
        let ghost moved = intersection.edges@;
        let ghost base = g.intersections[new_intersection].edges;
        proof {
            assert(g.intersection_wf(remove_i));
        }
        let mut k: usize = 0;
        while k < intersection.edges.len()
            invariant
                k <= moved.len(),
                moved == intersection.edges@,
                moved == g.intersections[remove_i].edges,
                moved.no_duplicates(),
                base == g.intersections[new_intersection].edges,
                p == g.intersections[new_intersection].point,
                g == old(self)@,
                old(self).arenas_ok(),
                remove_i != new_intersection,
                remove_i.0 < self.intersections@.len(),
                new_intersection.0 < self.intersections@.len(),
                forall|j: int| 0 <= j < moved.len() ==> g.edges.contains_key(#[trigger] moved[j]),
                self.original_edges == old(self).original_edges,
                self.boundary_polygon == old(self).boundary_polygon,
                self.intersection_id_counter == old(self).intersection_id_counter,
                self.edge_id_counter == old(self).edge_id_counter,
                self.edges@.len() == old(self).edges@.len(),
                self.intersections@.len() == old(self).intersections@.len(),
                forall|j: int|
                    0 <= j < self.edges@.len() ==> (#[trigger] self.edges@[j]) is Some == old(self).edges@[j] is Some,
                forall|j: int|
                    0 <= j < self.edges@.len() && (#[trigger] self.edges@[j]) is Some ==> {
                        &&& self.edges@[j]->0.kind == old(self).edges@[j]->0.kind
                        &&& self.edges@[j]->0@ == (if moved.take(k as int).contains(
                            EdgeID(j as usize),
                        ) {
                            old(self).edges@[j]->0@.rewire(
                                remove_i,
                                new_intersection,
                                p,
                                extend_geometry,
                            )
                        } else {
                            old(self).edges@[j]->0@
                        })
                    },
                forall|j: int|
                    0 <= j < self.intersections@.len() && j != remove_i.0 && j
                        != new_intersection.0 ==> self.intersections@[j] == old(self).intersections@[j],
                self.intersections@[remove_i.0 as int] is None,
                self.intersections@[new_intersection.0 as int] is Some,
                self.intersections@[new_intersection.0 as int]->0@ == (IntersectionView {
                    edges: append_missing(base, moved.take(k as int)),
                    ..g.intersections[new_intersection]
                }),
            decreases moved.len() - k,
        {
            let e = intersection.edges[k];
            proof {
                assert(g.edges.contains_key(moved[k as int]));
                assert(moved.take(k + 1).drop_last() == moved.take(k as int));
                assert(moved.take(k + 1).last() == e);
                assert(!moved.take(k as int).contains(e)) by {
                    if moved.take(k as int).contains(e) {
                        let m = moved.take(k as int).index_of(e);
                        assert(moved[m] == moved[k as int]);
                    }
                }
                assert forall|x: EdgeID| moved.take(k + 1).contains(x) <==> (moved.take(
                    k as int,
                ).contains(x) || x == e) by {
                    crate::seqs::lemma_contains_push(moved.take(k as int), e, x);
                    assert(moved.take(k as int).push(e) == moved.take(k + 1));
                }
            }
            self.rewire_edge(e, remove_i, new_intersection, p, extend_geometry);
            self.list_if_missing(new_intersection, e);
            k = k + 1;
        }
        proof {
            assert(moved.take(moved.len() as int) == moved);
            let h = g.replace_intersection(remove_i, new_intersection, extend_geometry);
            assert(self@.edges =~= h.edges);
            assert(self@.intersections =~= h.intersections);
            assert(self@.original_edges =~= h.original_edges);
            lemma_replace_intersection_wf(g, remove_i, new_intersection, extend_geometry);
        }
    }

    /// Replaces the linestring of a live edge.
    pub fn set_linestring(&mut self, e: EdgeID, linestring: Vec<C>)
        requires
            old(self).inv(),
            old(self)@.edges.contains_key(e),
            linestring@.len() >= 2,
        ensures
            final(self).inv(),
            final(self)@ == old(self)@.with_linestring(e, linestring@),
    {
        let ghost ls = linestring@;
        match &mut self.edges[e.0] {
            Some(edge) => {
                edge.linestring = linestring;
            },
            None => {},
        }
        proof {
            let g = old(self)@;
            let h = g.with_linestring(e, ls);
            assert(self@.edges =~= h.edges);
            assert(self@.intersections =~= h.intersections);
            assert(self@.original_edges =~= h.original_edges);
            crate::model::lemma_with_field_wf(g, e, ls, g.edges[e].kind);
        }
    }

    /// Replaces the kind of a live edge.
    pub fn set_kind(&mut self, e: EdgeID, kind: EdgeKind)
        requires
            old(self).inv(),
            old(self)@.edges.contains_key(e),
            kind.wf(),
            kind@.all().subset_of(old(self)@.original_edges.dom()),
        ensures
            final(self).inv(),
            final(self)@ == old(self)@.with_kind(e, kind@),
    {
        let ghost kv = kind@;
        match &mut self.edges[e.0] {
            Some(edge) => {
                edge.kind = kind;
            },
            None => {},
        }
        proof {
            let g = old(self)@;
            let h = g.with_kind(e, kv);
            assert(self@.edges =~= h.edges);
            assert(self@.intersections =~= h.intersections);
            assert(self@.original_edges =~= h.original_edges);
            crate::model::lemma_with_field_wf(g, e, g.edges[e].linestring, kv);
        }
    }

    /// Removes a live edge from the graph and from the lists of both of its
    /// ends, and hands it back.
    pub fn remove_edge(&mut self, e: EdgeID) -> (edge: Edge<C>)
        requires
            old(self).inv(),
            old(self)@.edges.contains_key(e),
        ensures
            final(self).inv(),
            final(self)@ == old(self)@.remove_edge(e),
            edge@ == old(self)@.edges[e],
            edge.kind.wf(),
    {
        let mut slot: Option<Edge<C>> = None;
        std::mem::swap(&mut slot, &mut self.edges[e.0]);
        let edge = slot.unwrap();
        proof {
            assert(old(self)@.edge_wf(e));
        }
        self.unlist(edge.src, e);
        self.unlist(edge.dst, e);
        proof {
            let g = old(self)@;
            let h = g.remove_edge(e);
            assert(self@.edges =~= h.edges);
            lemma_without(g.intersections[edge.src].edges, e);
            lemma_without(without(g.intersections[edge.src].edges, e), e);
            assert(self@.intersections =~= h.intersections);
            assert(self@.original_edges =~= h.original_edges);
            lemma_remove_edge_wf(g, e);
        }
        edge
    }

    /// Removes a live intersection that has no edge.
    pub fn remove_empty_intersection(&mut self, i: IntersectionID)
        requires
            old(self).inv(),
            old(self)@.intersections.contains_key(i),
            old(self)@.intersections[i].edges.len() == 0,
        ensures
            final(self).inv(),
            final(self)@ == old(self)@.remove_intersection(i),
    {
        self.intersections[i.0] = None;
        proof {
            let g = old(self)@;
            let h = g.remove_intersection(i);
            assert(self@.edges =~= h.edges);
            assert(self@.intersections =~= h.intersections);
            assert(self@.original_edges =~= h.original_edges);
            lemma_remove_intersection_wf(g, i);
        }
    }

    /// Removes every intersection that has no edge.
    pub fn remove_all_empty_intersections(&mut self)
        requires
            old(self).inv(),
        ensures
            final(self).inv(),
            final(self)@ == old(self)@.sweep(),
    {
        let n = self.intersections.len();
        let mut k: usize = 0;
        while k < n
            invariant
                k <= n,
                n == self.intersections@.len(),
                n == old(self).intersections@.len(),
                self.edges == old(self).edges,
                self.original_edges == old(self).original_edges,
                self.boundary_polygon == old(self).boundary_polygon,
                self.intersection_id_counter == old(self).intersection_id_counter,
                self.edge_id_counter == old(self).edge_id_counter,
                forall|j: int|
                    k <= j < n ==> self.intersections@[j] == old(self).intersections@[j],
                forall|j: int|
                    0 <= j < k ==> self.intersections@[j] == (if old(self).intersections@[j] is Some
                        && old(self).intersections@[j]->0.edges@.len() > 0 {
                        old(self).intersections@[j]
                    } else {
                        None
                    }),
            decreases n - k,
        {
            let empty = match &self.intersections[k] {
                Some(x) => x.edges.len() == 0,
                None => false,
            };
            if empty {
                self.intersections[k] = None;
            }
            k = k + 1;
        }
        proof {
            let g = old(self)@;
            let h = g.sweep();
            assert(self@.edges =~= h.edges);
            assert(self@.intersections =~= h.intersections);
            assert(self@.original_edges =~= h.original_edges);
            lemma_sweep_wf(g);
        }
    }

    /// Adds an intersection at `point`, with no edge yet.
    pub fn create_intersection(&mut self, point: C, provenance: IntersectionProvenance) -> (id:
        IntersectionID)
        requires
            old(self).inv(),
            old(self)@.intersection_id_counter < usize::MAX,
        ensures
            final(self).inv(),
            final(self)@ == old(self)@.create_intersection(point, provenance),
            id == old(self)@.next_intersection_id(),
            !old(self)@.intersections.contains_key(id),
    {
        self.intersection_id_counter += 1;
        let id = IntersectionID(self.intersection_id_counter);
        while self.intersections.len() < id.0
            invariant
                self.edges == old(self).edges,
                self.original_edges == old(self).original_edges,
                self.boundary_polygon == old(self).boundary_polygon,
                self.intersection_id_counter == old(self).intersection_id_counter + 1,
                self.edge_id_counter == old(self).edge_id_counter,
                id.0 == self.intersection_id_counter,
                old(self).intersections@.len() <= self.intersections@.len(),
                self.intersections@.len() <= id.0 || self.intersections@.len() == old(self).intersections@.len(),
                forall|j: int|
                    0 <= j < old(self).intersections@.len() ==> self.intersections@[j] == old(self).intersections@[j],
                forall|j: int|
                    old(self).intersections@.len() <= j < self.intersections@.len()
                        ==> self.intersections@[j] is None,
            decreases id.0 - self.intersections@.len(),
        {
            self.intersections.push(None);
        }
        self.intersections.push(
            Some(Intersection { id, edges: Vec::new(), point, provenance }),
        );
        proof {
            let g = old(self)@;
            let h = g.create_intersection(point, provenance);
            assert(self@.edges =~= h.edges);
            assert(self@.intersections =~= h.intersections);
            assert(self@.original_edges =~= h.original_edges);
            lemma_create_intersection_wf(g, point, provenance);
        }
        id
    }

    /// Adds an edge from `src` to `dst` and lists it at both. The linestring is
    /// taken on trust to run from the one to the other.
    pub fn create_new_edge(
        &mut self,
        linestring: Vec<C>,
        src: IntersectionID,
        dst: IntersectionID,
        kind: EdgeKind,
    ) -> (id: EdgeID)
        requires
            old(self).inv(),
            old(self)@.edge_id_counter < usize::MAX,
            old(self)@.intersections.contains_key(src),
            old(self)@.intersections.contains_key(dst),
            linestring@.len() >= 2,
            kind.wf(),
            kind@.all().subset_of(old(self)@.original_edges.dom()),
        ensures
            final(self).inv(),
            final(self)@ == old(self)@.create_edge(linestring@, src, dst, kind@),
            id == old(self)@.next_edge_id(),
            !old(self)@.edges.contains_key(id),
    {
        self.edge_id_counter += 1;
        let id = EdgeID(self.edge_id_counter);
        let ghost ls = linestring@;
        let ghost kv = kind@;
        while self.edges.len() < id.0
            invariant
                self.intersections == old(self).intersections,
                self.original_edges == old(self).original_edges,
                self.boundary_polygon == old(self).boundary_polygon,
                self.intersection_id_counter == old(self).intersection_id_counter,
                self.edge_id_counter == old(self).edge_id_counter + 1,
                id.0 == self.edge_id_counter,
                old(self).edges@.len() <= self.edges@.len(),
                self.edges@.len() <= id.0 || self.edges@.len() == old(self).edges@.len(),
                forall|j: int|
                    0 <= j < old(self).edges@.len() ==> self.edges@[j] == old(self).edges@[j],
                forall|j: int|
                    old(self).edges@.len() <= j < self.edges@.len() ==> self.edges@[j] is None,
            decreases id.0 - self.edges@.len(),
        {
            self.edges.push(None);
        }
        self.edges.push(Some(Edge { id, src, dst, linestring, kind }));
        self.list(src, id);
        if dst != src {
            self.list(dst, id);
        }
        proof {
            let g = old(self)@;
            let h = g.create_edge(ls, src, dst, kv);
            assert(self@.edges =~= h.edges);
            assert(self@.intersections =~= h.intersections);
            assert(self@.original_edges =~= h.original_edges);
            lemma_create_edge_wf(g, ls, src, dst, kv);
        }
        id
    }
}

} // verus!
