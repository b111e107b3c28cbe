//! Building the graph store from a planar street graph, and checking that a
//! store is consistent.

use vstd::prelude::*;
use crate::graph::{Edge, Graph, Intersection, OriginalEdge, Polygon, copy_vec, list_contains};
use crate::ids::{EdgeID, IntersectionID, OriginalEdgeID};
use crate::id_set::OriginalEdgeSet;
use crate::kinds::{initial_kind, EdgeKind};
use crate::model::{EdgeView, GraphView, IntersectionProvenance, IntersectionView,
    OriginalEdgeView};
use crate::seqs::{append_missing, lemma_append_missing};
use crate::tags::Tags;

verus! {

/// An edge of the street graph that the store is built from.
pub struct OsmEdge<C> {
    pub id: EdgeID,
    pub src: IntersectionID,
    pub dst: IntersectionID,
    pub linestring: Vec<C>,
    pub osm_way: i64,
    pub osm_node1: i64,
    pub osm_node2: i64,
    pub osm_tags: Tags,
}

/// An intersection of the street graph that the store is built from.
pub struct OsmIntersection<C> {
    pub id: IntersectionID,
    pub edges: Vec<EdgeID>,
    pub point: C,
    pub osm_node: i64,
}

/// The street graph that the store is built from: planar, in a metric
/// frame, with ids of its own choosing.
pub struct OsmGraph<C> {
    pub edges: Vec<OsmEdge<C>>,
    pub intersections: Vec<OsmIntersection<C>>,
    pub boundary_polygon: Polygon<C>,
}

impl<C> OsmEdge<C> {
    /// The edge as the store holds it at first.
    pub open spec fn initial(&self) -> EdgeView<C> {
        EdgeView {
            id: self.id,
            src: self.src,
            dst: self.dst,
            linestring: self.linestring@,
            kind: initial_kind(OriginalEdgeID(self.id.0), self.osm_tags@),
        }
    }

    /// The edge as the store remembers it.
    pub open spec fn original(&self) -> OriginalEdgeView {
        OriginalEdgeView {
            way: self.osm_way,
            node1: self.osm_node1,
            node2: self.osm_node2,
            tags: self.osm_tags@,
        }
    }
}

/// The list with every item at its first place only.
pub open spec fn listed_once(list: Seq<EdgeID>) -> Seq<EdgeID> {
    append_missing(Seq::<EdgeID>::empty(), list)
}

/// The list with every item at its first place only.
pub fn list_once(list: &Vec<EdgeID>) -> (r: Vec<EdgeID>)
    ensures
        r@ == listed_once(list@),
        r@.no_duplicates(),
        forall|e: EdgeID| #[trigger] r@.contains(e) <==> list@.contains(e),
{
    let mut out: Vec<EdgeID> = Vec::new();
    let mut k: usize = 0;
    while k < list.len()
        invariant
            k <= list@.len(),
            out@ == listed_once(list@.take(k as int)),
        decreases list@.len() - k,
    {
        assert(list@.take(k + 1).drop_last() == list@.take(k as int));
        if !list_contains(&out, list[k]) {
            out.push(list[k]);
        }
        k = k + 1;
    }
    assert(list@.take(list@.len() as int) == list@);
    proof {
        lemma_append_missing(Seq::<EdgeID>::empty(), list@);
    }
    out
}

impl<C> OsmIntersection<C> {
    /// The intersection as the store holds it at first. An edge that the
    /// source lists twice, as it may list a loop, is listed once.
    pub open spec fn initial(&self) -> IntersectionView<C> {
        IntersectionView {
            id: self.id,
            edges: listed_once(self.edges@),
            point: self.point,
            provenance: IntersectionProvenance::OSM(self.osm_node),
        }
    }
}

/// The largest of the ids, or -1 if there is none.
pub open spec fn max_edge_id<C>(edges: Seq<OsmEdge<C>>) -> int
    decreases edges.len(),
{
    if edges.len() == 0 {
        -1
    } else {
        let rest = max_edge_id(edges.drop_last());
        if edges.last().id.0 > rest {
            edges.last().id.0 as int
        } else {
            rest
        }
    }
}

/// The largest of the ids, or -1 if there is none.
pub open spec fn max_intersection_id<C>(intersections: Seq<OsmIntersection<C>>) -> int
    decreases intersections.len(),
{
    if intersections.len() == 0 {
        -1
    } else {
        let rest = max_intersection_id(intersections.drop_last());
        if intersections.last().id.0 > rest {
            intersections.last().id.0 as int
        } else {
            rest
        }
    }
}

impl<C> OsmGraph<C> {
    /// Some edge of the first `n` has the id `e`.
    pub open spec fn has_edge(&self, e: EdgeID, n: int) -> bool {
        exists|k: int| 0 <= k < n && (#[trigger] self.edges@[k]).id == e
    }

    /// Some intersection of the first `n` has the id `i`.
    pub open spec fn has_intersection(&self, i: IntersectionID, n: int) -> bool {
        exists|k: int| 0 <= k < n && (#[trigger] self.intersections@[k]).id == i
    }

    /// The edge with the id `e`.
    pub open spec fn edge_of(&self, e: EdgeID) -> OsmEdge<C> {
        self.edges@[choose|k: int| 0 <= k < self.edges@.len() && (#[trigger] self.edges@[k]).id == e]
    }

    /// The intersection with the id `i`.
    pub open spec fn intersection_of(&self, i: IntersectionID) -> OsmIntersection<C> {
        self.intersections@[choose|k: int|
            0 <= k < self.intersections@.len() && (#[trigger] self.intersections@[k]).id == i]
    }

    /// No two edges and no two intersections share an id, and every id
    /// leaves room for a counter above it.
    pub open spec fn ids_ok(&self) -> bool {
        &&& forall|j: int, k: int|
            0 <= j < k < self.edges@.len() ==> (#[trigger] self.edges@[j]).id != (
            #[trigger] self.edges@[k]).id
        &&& forall|j: int, k: int|
            0 <= j < k < self.intersections@.len() ==> (#[trigger] self.intersections@[j]).id != (
            #[trigger] self.intersections@[k]).id
        &&& forall|k: int| 0 <= k < self.edges@.len() ==> (#[trigger] self.edges@[k]).id.0 < usize::MAX
        &&& forall|k: int|
            0 <= k < self.intersections@.len() ==> (#[trigger] self.intersections@[k]).id.0
                < usize::MAX
    }

    /// The graph that the store holds at first: every edge with the kind
    /// that its tags give it, every intersection as a node of the source
    /// data, every edge remembered as an original edge under its own id, and
    /// each counter one past the largest id.
    pub open spec fn initial(&self) -> GraphView<C> {
        GraphView {
            edges: Map::new(
                |e: EdgeID| self.has_edge(e, self.edges@.len() as int),
                |e: EdgeID| self.edge_of(e).initial(),
            ),
            intersections: Map::new(
                |i: IntersectionID| self.has_intersection(i, self.intersections@.len() as int),
                |i: IntersectionID| self.intersection_of(i).initial(),
            ),
            original_edges: Map::new(
                |o: OriginalEdgeID| self.has_edge(EdgeID(o.0), self.edges@.len() as int),
                |o: OriginalEdgeID| self.edge_of(EdgeID(o.0)).original(),
            ),
            boundary_polygon: self.boundary_polygon@,
            intersection_id_counter: (max_intersection_id(self.intersections@) + 1) as nat,
            edge_id_counter: (max_edge_id(self.edges@) + 1) as nat,
        }
    }

    /// Whether a store can be built: there is an edge and an intersection,
    /// the ids are in order, and the graph is consistent.
    pub open spec fn ok(&self) -> bool {
        &&& self.edges@.len() > 0
        &&& self.intersections@.len() > 0
        &&& self.ids_ok()
        &&& self.initial().wf()
    }
}

/// Every id is at most the largest.
pub proof fn lemma_max_edge_id<C>(edges: Seq<OsmEdge<C>>)
    ensures
        max_edge_id(edges) >= -1,
        forall|k: int| 0 <= k < edges.len() ==> (#[trigger] edges[k]).id.0 <= max_edge_id(edges),
    decreases edges.len(),
{
    if edges.len() > 0 {
        lemma_max_edge_id(edges.drop_last());
        assert forall|k: int| 0 <= k < edges.len() implies (#[trigger] edges[k]).id.0 <= max_edge_id(
            edges,
        ) by {
            if k < edges.len() - 1 {
                assert(edges.drop_last()[k] == edges[k]);
            }
        }
    }
}

/// Every id is at most the largest.
pub proof fn lemma_max_intersection_id<C>(intersections: Seq<OsmIntersection<C>>)
    ensures
        max_intersection_id(intersections) >= -1,
        forall|k: int|
            0 <= k < intersections.len() ==> (#[trigger] intersections[k]).id.0
                <= max_intersection_id(intersections),
    decreases intersections.len(),
{
    if intersections.len() > 0 {
        lemma_max_intersection_id(intersections.drop_last());
        assert forall|k: int| 0 <= k < intersections.len() implies (
        #[trigger] intersections[k]).id.0 <= max_intersection_id(intersections) by {
            if k < intersections.len() - 1 {
                assert(intersections.drop_last()[k] == intersections[k]);
            }
        }
    }
}

/// Whether nothing occurs twice in the list.
pub fn no_repeats(list: &Vec<EdgeID>) -> (r: bool)
    ensures
        r == list@.no_duplicates(),
{
    let mut i: usize = 0;
    while i < list.len()
        invariant
            i <= list@.len(),
            forall|a: int, b: int| 0 <= a < i && a < b < list@.len() ==> list@[a] != list@[b],
        decreases list@.len() - i,
    {
        let mut j: usize = i + 1;
        while j < list.len()
            invariant
                i < j <= list@.len(),
                forall|b: int| i < b < j ==> list@[i as int] != list@[b],
            decreases list@.len() - j,
        {
            if list[i] == list[j] {
                return false;
            }
            j = j + 1;
        }
        i = i + 1;
    }
    assert forall|a: int, b: int| 0 <= a < list@.len() && 0 <= b < list@.len() && a != b implies list@[a]
        != list@[b] by {
        if a < b {
        } else {
            assert(list@[b] != list@[a]);
        }
    }
    true
}

/// Makes the list at least `n` long by adding empty slots.
fn pad<T>(v: &mut Vec<Option<T>>, n: usize)
    ensures
        final(v)@.len() == (if old(v)@.len() >= n {
            old(v)@.len()
        } else {
            n as nat
        }),
        forall|s: int| 0 <= s < old(v)@.len() ==> final(v)@[s] == old(v)@[s],
        forall|s: int| old(v)@.len() <= s < final(v)@.len() ==> final(v)@[s] is None,
{
    while v.len() < n
        invariant
            old(v)@.len() <= v@.len(),
            v@.len() <= n || v@.len() == old(v)@.len(),
            forall|s: int| 0 <= s < old(v)@.len() ==> v@[s] == old(v)@[s],
            forall|s: int| old(v)@.len() <= s < v@.len() ==> v@[s] is None,
        decreases n - v@.len(),
    {
        v.push(None);
    }
}

impl<C: Copy> OsmGraph<C> {
    /// The arena of edges holds the first `k` edges, each in the slot of its
    /// id, and nothing else; and it ends with the largest id.
    pub open spec fn edges_placed(&self, edges: Seq<Option<Edge<C>>>, k: int) -> bool {
        &&& edges.len() == max_edge_id(self.edges@.take(k)) + 1
        &&& forall|s: int|
            0 <= s < edges.len() ==> ((#[trigger] edges[s]) is Some <==> self.has_edge(
                EdgeID(s as usize),
                k,
            ))
        &&& forall|j: int|
            0 <= j < k ==> {
                let e = (#[trigger] self.edges@[j]);
                &&& e.id.0 < edges.len()
                &&& edges[e.id.0 as int] is Some
                &&& edges[e.id.0 as int]->0@ == e.initial()
                &&& edges[e.id.0 as int]->0.kind.wf()
            }
    }

    /// The arena of original edges holds the first `k` edges as they are
    /// remembered, each in the slot of its id, and nothing else.
    pub open spec fn originals_placed(&self, originals: Seq<Option<OriginalEdge>>, k: int) -> bool {
        &&& originals.len() == max_edge_id(self.edges@.take(k)) + 1
        &&& forall|s: int|
            0 <= s < originals.len() ==> ((#[trigger] originals[s]) is Some <==> self.has_edge(
                EdgeID(s as usize),
                k,
            ))
        &&& forall|j: int|
            0 <= j < k ==> {
                let e = (#[trigger] self.edges@[j]);
                &&& e.id.0 < originals.len()
                &&& originals[e.id.0 as int] is Some
                &&& originals[e.id.0 as int]->0@ == e.original()
            }
    }

    /// The arena of intersections holds the first `k` intersections, each
    /// in the slot of its id, and nothing else; and it ends with the
    /// largest id.
    pub open spec fn intersections_placed(
        &self,
        intersections: Seq<Option<Intersection<C>>>,
        k: int,
    ) -> bool {
        &&& intersections.len() == max_intersection_id(self.intersections@.take(k)) + 1
        &&& forall|s: int|
            0 <= s < intersections.len() ==> ((#[trigger] intersections[s]) is Some
                <==> self.has_intersection(IntersectionID(s as usize), k))
        &&& forall|j: int|
            0 <= j < k ==> {
                let x = (#[trigger] self.intersections@[j]);
                &&& x.id.0 < intersections.len()
                &&& intersections[x.id.0 as int] is Some
                &&& intersections[x.id.0 as int]->0@ == x.initial()
            }
    }

    /// The first `k` edges have ids that differ and leave room above them.
    pub open spec fn edge_ids_ok(&self, k: int) -> bool {
        &&& forall|j: int, m: int|
            0 <= j < m < k ==> (#[trigger] self.edges@[j]).id != (#[trigger] self.edges@[m]).id
        &&& forall|j: int| 0 <= j < k ==> (#[trigger] self.edges@[j]).id.0 < usize::MAX
    }

    /// The first `k` intersections have ids that differ and leave room above them.
    pub open spec fn intersection_ids_ok(&self, k: int) -> bool {
        &&& forall|j: int, m: int|
            0 <= j < m < k ==> (#[trigger] self.intersections@[j]).id != (
            #[trigger] self.intersections@[m]).id
        &&& forall|j: int| 0 <= j < k ==> (#[trigger] self.intersections@[j]).id.0 < usize::MAX
    }

    /// Puts every edge into the slot of its id, if the ids allow it.
    fn place_edges(&self) -> (r: Option<(Vec<Option<Edge<C>>>, Vec<Option<OriginalEdge>>)>)
        ensures
            r is Some <==> self.edge_ids_ok(self.edges@.len() as int),
            match r {
                Some(arenas) => self.edges_placed(arenas.0@, self.edges@.len() as int)
                    && self.originals_placed(arenas.1@, self.edges@.len() as int),
                None => true,
            },
    {
        let mut edges: Vec<Option<Edge<C>>> = Vec::new();
        let mut originals: Vec<Option<OriginalEdge>> = Vec::new();
        let mut k: usize = 0;
        assert(self.edges@.take(0).len() == 0);
        while k < self.edges.len()
            invariant
                k <= self.edges@.len(),
                self.edge_ids_ok(k as int),
                self.edges_placed(edges@, k as int),
                self.originals_placed(originals@, k as int),
            decreases self.edges@.len() - k,
        {
            let e = &self.edges[k];
            let ghost before = edges@;
            let ghost before_o = originals@;
            proof {
                assert(self.edges@.take(k + 1).drop_last() == self.edges@.take(k as int));
                assert(self.edges@.take(k + 1).last() == self.edges@[k as int]);
            }
            if e.id.0 == usize::MAX {
                assert(!self.edge_ids_ok(self.edges@.len() as int));
                return None;
            }
            pad(&mut edges, e.id.0 + 1);
            pad(&mut originals, e.id.0 + 1);
            if edges[e.id.0].is_some() {
                proof {
                    assert(before[e.id.0 as int] is Some);
                    assert(self.has_edge(e.id, k as int));
                    let j = choose|j: int| 0 <= j < k && (#[trigger] self.edges@[j]).id == e.id;
                    assert(self.edges@[j].id == self.edges@[k as int].id);
                    assert(!self.edge_ids_ok(self.edges@.len() as int));
                }
                return None;
            }
            edges[e.id.0] = Some(
                Edge {
                    id: e.id,
                    src: e.src,
                    dst: e.dst,
                    linestring: copy_vec(&e.linestring),
                    kind: EdgeKind::initially_classify(e.id, &e.osm_tags),
                },
            );
            originals[e.id.0] = Some(
                OriginalEdge {
                    way: e.osm_way,
                    node1: e.osm_node1,
                    node2: e.osm_node2,
                    tags: e.osm_tags.clone(),
                },
            );
            proof {
                assert(edges.len() == edges@.len());
                assert(originals.len() == originals@.len());
                assert forall|s: int| 0 <= s < edges@.len() implies ((#[trigger] edges@[s]) is Some
                    <==> self.has_edge(EdgeID(s as usize), k + 1)) by {
                    self.lemma_has_edge_step(EdgeID(s as usize), k as int);
                    if s == e.id.0 {
                        assert(EdgeID(s as usize) == e.id);
                    } else if s < before.len() {
                        assert(before[s] is Some <==> self.has_edge(EdgeID(s as usize), k as int));
                    } else if self.has_edge(EdgeID(s as usize), k as int) {
                        let j = choose|j: int|
                            0 <= j < k && (#[trigger] self.edges@[j]).id == EdgeID(s as usize);
                        assert(self.edges@[j].id.0 < before.len());
                    }
                }
                assert forall|s: int| 0 <= s < originals@.len() implies ((
                #[trigger] originals@[s]) is Some <==> self.has_edge(EdgeID(s as usize), k + 1)) by {
                    self.lemma_has_edge_step(EdgeID(s as usize), k as int);
                    if s == e.id.0 {
                        assert(EdgeID(s as usize) == e.id);
                    } else if s < before_o.len() {
                        assert(before_o[s] is Some <==> self.has_edge(
                            EdgeID(s as usize),
                            k as int,
                        ));
                    } else if self.has_edge(EdgeID(s as usize), k as int) {
                        let j = choose|j: int|
                            0 <= j < k && (#[trigger] self.edges@[j]).id == EdgeID(s as usize);
                        assert(self.edges@[j].id.0 < before_o.len());
                    }
                }
                assert forall|j: int| 0 <= j < k + 1 implies {
                    let x = (#[trigger] self.edges@[j]);
                    &&& x.id.0 < edges@.len()
                    &&& edges@[x.id.0 as int] is Some
                    &&& edges@[x.id.0 as int]->0@ == x.initial()
                    &&& edges@[x.id.0 as int]->0.kind.wf()
                    &&& x.id.0 < originals@.len()
                    &&& originals@[x.id.0 as int] is Some
                    &&& originals@[x.id.0 as int]->0@ == x.original()
                } by {
                    if j < k {
                        let x = self.edges@[j];
                        assert(before[x.id.0 as int] is Some);
                        assert(before_o[x.id.0 as int] is Some);
                    }
                }
                assert forall|j: int, m: int| 0 <= j < m < k + 1 implies (
                #[trigger] self.edges@[j]).id != (#[trigger] self.edges@[m]).id by {
                    if m == k {
                        let x = self.edges@[j];
                        assert(before[x.id.0 as int] is Some);
                    }
                }
            }
            k = k + 1;
        }
        Some((edges, originals))
    }

    /// Puts every intersection into the slot of its id, if the ids allow it.
    fn place_intersections(&self) -> (r: Option<Vec<Option<Intersection<C>>>>)
        ensures
            r is Some <==> self.intersection_ids_ok(self.intersections@.len() as int),
            r is Some ==> self.intersections_placed(r->0@, self.intersections@.len() as int),
    {
        let mut intersections: Vec<Option<Intersection<C>>> = Vec::new();
        let mut k: usize = 0;
        assert(self.intersections@.take(0).len() == 0);
        while k < self.intersections.len()
            invariant
                k <= self.intersections@.len(),
                self.intersection_ids_ok(k as int),
                self.intersections_placed(intersections@, k as int),
            decreases self.intersections@.len() - k,
        {
            let x = &self.intersections[k];
            let ghost before = intersections@;
            proof {
                assert(self.intersections@.take(k + 1).drop_last() == self.intersections@.take(
                    k as int,
                ));
                assert(self.intersections@.take(k + 1).last() == self.intersections@[k as int]);
            }
            if x.id.0 == usize::MAX {
                assert(!self.intersection_ids_ok(self.intersections@.len() as int));
                return None;
            }
            pad(&mut intersections, x.id.0 + 1);
            if intersections[x.id.0].is_some() {
                proof {
                    assert(before[x.id.0 as int] is Some);
                    assert(self.has_intersection(x.id, k as int));
                    let j = choose|j: int|
                        0 <= j < k && (#[trigger] self.intersections@[j]).id == x.id;
                    assert(self.intersections@[j].id == self.intersections@[k as int].id);
                    assert(!self.intersection_ids_ok(self.intersections@.len() as int));
                }
                return None;
            }
            intersections[x.id.0] = Some(
                Intersection {
                    id: x.id,
                    edges: list_once(&x.edges),
                    point: x.point,
                    provenance: IntersectionProvenance::OSM(x.osm_node),
                },
            );
            proof {
                assert(intersections.len() == intersections@.len());
                assert forall|s: int| 0 <= s < intersections@.len() implies ((
                #[trigger] intersections@[s]) is Some <==> self.has_intersection(
                    IntersectionID(s as usize),
                    k + 1,
                )) by {
                    self.lemma_has_intersection_step(IntersectionID(s as usize), k as int);
                    if s == x.id.0 {
                        assert(IntersectionID(s as usize) == x.id);
                    } else if s < before.len() {
                        assert(before[s] is Some <==> self.has_intersection(
                            IntersectionID(s as usize),
                            k as int,
                        ));
                    } else if self.has_intersection(IntersectionID(s as usize), k as int) {
                        let j = choose|j: int|
                            0 <= j < k && (#[trigger] self.intersections@[j]).id == IntersectionID(
                                s as usize,
                            );
                        assert(self.intersections@[j].id.0 < before.len());
                    }
                }
                assert forall|j: int| 0 <= j < k + 1 implies {
                    let y = (#[trigger] self.intersections@[j]);
                    &&& y.id.0 < intersections@.len()
                    &&& intersections@[y.id.0 as int] is Some
                    &&& intersections@[y.id.0 as int]->0@ == y.initial()
                } by {
                    if j < k {
                        let y = self.intersections@[j];
                        assert(before[y.id.0 as int] is Some);
                    }
                }
                assert forall|j: int, m: int| 0 <= j < m < k + 1 implies (
                #[trigger] self.intersections@[j]).id != (#[trigger] self.intersections@[m]).id by {
                    if m == k {
                        let y = self.intersections@[j];
                        assert(before[y.id.0 as int] is Some);
                    }
                }
            }
            k = k + 1;
        }
        Some(intersections)
    }

    /// A full arena of edges holds the edges of the graph that the store
    /// holds at first, and is in order.
    proof fn lemma_edges_arena(&self, ev: Seq<Option<Edge<C>>>)
        requires
            self.edges_placed(ev, self.edges@.len() as int),
            ev.len() <= usize::MAX,
        ensures
            Map::new(
                |e: EdgeID| e.0 < ev.len() && ev[e.0 as int] is Some,
                |e: EdgeID| ev[e.0 as int]->0@,
            ) == self.initial().edges,
            forall|k: int|
                0 <= k < ev.len() && (#[trigger] ev[k]) is Some ==> {
                    &&& ev[k]->0.id == EdgeID(k as usize)
                    &&& ev[k]->0.kind.wf()
                },
    {
        let ne = self.edges@.len() as int;
        let got = Map::new(
            |e: EdgeID| e.0 < ev.len() && ev[e.0 as int] is Some,
            |e: EdgeID| ev[e.0 as int]->0@,
        );
        assert forall|e: EdgeID| got.contains_key(e) <==> #[trigger] self.has_edge(e, ne) by {
            if self.has_edge(e, ne) {
                let k = choose|k: int| 0 <= k < ne && (#[trigger] self.edges@[k]).id == e;
                assert(self.edges@[k].id.0 < ev.len());
            }
            if e.0 < ev.len() {
                assert(ev[e.0 as int] is Some <==> self.has_edge(EdgeID(e.0), ne));
            }
        }
        assert forall|e: EdgeID| #[trigger] self.has_edge(e, ne) implies ev[e.0 as int]->0@
            == self.edge_of(e).initial() && ev[e.0 as int]->0.kind.wf() by {
            let k = choose|k: int| 0 <= k < ne && (#[trigger] self.edges@[k]).id == e;
            let x = self.edges@[k];
            assert(ev[x.id.0 as int]->0@ == x.initial());
        }
        assert(got =~= self.initial().edges);
        assert forall|k: int| 0 <= k < ev.len() && (#[trigger] ev[k]) is Some implies {
            &&& ev[k]->0.id == EdgeID(k as usize)
            &&& ev[k]->0.kind.wf()
        } by {
            assert(self.has_edge(EdgeID(k as usize), ne));
        }
    }

    /// A full arena of original edges holds the original edges of the graph
    /// that the store holds at first.
    proof fn lemma_originals_arena(&self, ov: Seq<Option<OriginalEdge>>)
        requires
            self.originals_placed(ov, self.edges@.len() as int),
            ov.len() <= usize::MAX,
        ensures
            Map::new(
                |o: OriginalEdgeID| o.0 < ov.len() && ov[o.0 as int] is Some,
                |o: OriginalEdgeID| ov[o.0 as int]->0@,
            ) == self.initial().original_edges,
    {
        let ne = self.edges@.len() as int;
        let got = Map::new(
            |o: OriginalEdgeID| o.0 < ov.len() && ov[o.0 as int] is Some,
            |o: OriginalEdgeID| ov[o.0 as int]->0@,
        );
        assert forall|o: OriginalEdgeID| #[trigger]
            got.contains_key(o) <==> self.has_edge(EdgeID(o.0), ne) by {
            if self.has_edge(EdgeID(o.0), ne) {
                let k = choose|k: int|
                    0 <= k < ne && (#[trigger] self.edges@[k]).id == EdgeID(o.0);
                assert(self.edges@[k].id.0 < ov.len());
            }
            if o.0 < ov.len() {
                assert(ov[o.0 as int] is Some <==> self.has_edge(EdgeID(o.0), ne));
            }
        }
        assert forall|o: OriginalEdgeID| #[trigger] got.contains_key(o) implies ov[o.0 as int]->0@
            == self.edge_of(EdgeID(o.0)).original() by {
            let k = choose|k: int| 0 <= k < ne && (#[trigger] self.edges@[k]).id == EdgeID(o.0);
            let x = self.edges@[k];
            assert(ov[x.id.0 as int]->0@ == x.original());
        }
        assert(got =~= self.initial().original_edges);
    }

    /// A full arena of intersections holds the intersections of the graph
    /// that the store holds at first, and is in order.
    proof fn lemma_intersections_arena(&self, iv: Seq<Option<Intersection<C>>>)
        requires
            self.intersections_placed(iv, self.intersections@.len() as int),
            iv.len() <= usize::MAX,
        ensures
            Map::new(
                |i: IntersectionID| i.0 < iv.len() && iv[i.0 as int] is Some,
                |i: IntersectionID| iv[i.0 as int]->0@,
            ) == self.initial().intersections,
            forall|k: int|
                0 <= k < iv.len() && (#[trigger] iv[k]) is Some ==> iv[k]->0.id == IntersectionID(
                    k as usize,
                ),
    {
        let ni = self.intersections@.len() as int;
        let got = Map::new(
            |i: IntersectionID| i.0 < iv.len() && iv[i.0 as int] is Some,
            |i: IntersectionID| iv[i.0 as int]->0@,
        );
        assert forall|i: IntersectionID| got.contains_key(i) <==> #[trigger] self.has_intersection(
            i,
            ni,
        ) by {
            if self.has_intersection(i, ni) {
                let k = choose|k: int| 0 <= k < ni && (#[trigger] self.intersections@[k]).id == i;
                assert(self.intersections@[k].id.0 < iv.len());
            }
            if i.0 < iv.len() {
                assert(iv[i.0 as int] is Some <==> self.has_intersection(IntersectionID(i.0), ni));
            }
        }
        assert forall|i: IntersectionID| #[trigger] self.has_intersection(i, ni) implies iv[i.0 as int]->0@
            == self.intersection_of(i).initial() by {
            let k = choose|k: int| 0 <= k < ni && (#[trigger] self.intersections@[k]).id == i;
            let x = self.intersections@[k];
            assert(iv[x.id.0 as int]->0@ == x.initial());
        }
        assert(got =~= self.initial().intersections);
        assert forall|k: int| 0 <= k < iv.len() && (#[trigger] iv[k]) is Some implies iv[k]->0.id
            == IntersectionID(k as usize) by {
            assert(self.has_intersection(IntersectionID(k as usize), ni));
        }
    }

    /// An id is among the first `k + 1` edges if it is among the first `k`
    /// or is that of the next.
    proof fn lemma_has_edge_step(&self, e: EdgeID, k: int)
        requires
            0 <= k < self.edges@.len(),
        ensures
            self.has_edge(e, k + 1) <==> (self.has_edge(e, k) || self.edges@[k].id == e),
    {
        if self.has_edge(e, k) {
            let j = choose|j: int| 0 <= j < k && (#[trigger] self.edges@[j]).id == e;
            assert(0 <= j < k + 1 && self.edges@[j].id == e);
        }
        if self.edges@[k].id == e {
            assert(0 <= k < k + 1 && self.edges@[k].id == e);
        }
    }

    /// An id is among the first `k + 1` intersections if it is among the
    /// first `k` or is that of the next.
    proof fn lemma_has_intersection_step(&self, i: IntersectionID, k: int)
        requires
            0 <= k < self.intersections@.len(),
        ensures
            self.has_intersection(i, k + 1) <==> (self.has_intersection(i, k)
                || self.intersections@[k].id == i),
    {
        if self.has_intersection(i, k) {
            let j = choose|j: int| 0 <= j < k && (#[trigger] self.intersections@[j]).id == i;
            assert(0 <= j < k + 1 && self.intersections@[j].id == i);
        }
        if self.intersections@[k].id == i {
            assert(0 <= k < k + 1 && self.intersections@[k].id == i);
        }
    }
}

impl<C: Copy> Graph<C> {
    /// Whether every member of the set is an original edge that the graph knows.
    fn knows_all(&self, set: &OriginalEdgeSet) -> (r: bool)
        requires
            set.wf(),
        ensures
            r == set@.subset_of(self@.original_edges.dom()),
    {
        proof {
            set.lemma_members();
        }
        let n = set.len();
        let mut i: usize = 0;
        while i < n
            invariant
                i <= n,
                n == set.members().len(),
                forall|x: OriginalEdgeID| set@.contains(x) <==> set.members().contains(x),
                forall|j: int|
                    0 <= j < i ==> self@.original_edges.contains_key(#[trigger] set.members()[j]),
            decreases n - i,
        {
            let o = set.get(i);
            if self.original_edge(o).is_none() {
                return false;
            }
            i = i + 1;
        }
        assert forall|o: OriginalEdgeID| set@.contains(o) implies self@.original_edges.dom().contains(
            o,
        ) by {
            let j = set.members().index_of(o);
            assert(self@.original_edges.contains_key(set.members()[j]));
        }
        true
    }

    /// Whether the graph knows every original edge that the kind stands for.
    fn knows_kind(&self, kind: &EdgeKind) -> (r: bool)
        requires
            kind.wf(),
        ensures
            r == kind@.all().subset_of(self@.original_edges.dom()),
    {
        let ghost all = kind@.all();
        let ghost dom = self@.original_edges.dom();
        match kind {
            EdgeKind::Motorized { roads, service_roads, sidepaths, connectors } => {
                let a = self.knows_all(roads);
                let b = self.knows_all(service_roads);
                let c = self.knows_all(sidepaths);
                let d = self.knows_all(connectors);
                proof {
                    if a && b && c && d {
                        assert forall|o: OriginalEdgeID| all.contains(o) implies dom.contains(o) by {}
                    } else if !a {
                        let o = choose|o: OriginalEdgeID| roads@.contains(o) && !dom.contains(o);
                        assert(all.contains(o));
                    } else if !b {
                        let o = choose|o: OriginalEdgeID|
                            service_roads@.contains(o) && !dom.contains(o);
                        assert(all.contains(o));
                    } else if !c {
                        let o = choose|o: OriginalEdgeID| sidepaths@.contains(o) && !dom.contains(o);
                        assert(all.contains(o));
                    } else {
                        let o = choose|o: OriginalEdgeID|
                            connectors@.contains(o) && !dom.contains(o);
                        assert(all.contains(o));
                    }
                }
                a && b && c && d
            },
            EdgeKind::Nonmotorized(edges) => self.knows_all(edges),
        }
    }

    /// Whether the live edge `e` is consistent with the graph around it.
    fn edge_is_consistent(&self, e: EdgeID) -> (r: bool)
        requires
            self.arenas_ok(),
            self@.edges.contains_key(e),
        ensures
            r == self@.edge_wf(e),
    {
        match self.edge(e) {
            Some(edge) => {
                if edge.linestring.len() < 2 {
                    return false;
                }
                let at_src = match self.intersection(edge.src) {
                    Some(x) => list_contains(&x.edges, e),
                    None => false,
                };
                let at_dst = match self.intersection(edge.dst) {
                    Some(x) => list_contains(&x.edges, e),
                    None => false,
                };
                let known = self.knows_kind(&edge.kind);
                at_src && at_dst && known
            },
            None => false,
        }
    }

    /// Whether the live intersection `i` is consistent with the graph around it.
    fn intersection_is_consistent(&self, i: IntersectionID) -> (r: bool)
        requires
            self.arenas_ok(),
            self@.intersections.contains_key(i),
        ensures
            r == self@.intersection_wf(i),
    {
        match self.intersection(i) {
            Some(x) => {
                if !no_repeats(&x.edges) {
                    return false;
                }
                let mut k: usize = 0;
                while k < x.edges.len()
                    invariant
                        k <= x.edges@.len(),
                        x@ == self@.intersections[i],
                        forall|j: int| 0 <= j < k ==> self@.incident(#[trigger] x.edges@[j], i),
                    decreases x.edges@.len() - k,
                {
                    let ok = match self.edge(x.edges[k]) {
                        Some(edge) => edge.src == i || edge.dst == i,
                        None => false,
                    };
                    if !ok {
                        assert(!self@.incident(x.edges@[k as int], i));
                        return false;
                    }
                    k = k + 1;
                }
                true
            },
            None => false,
        }
    }

    /// Whether the graph is consistent: every edge ends at live
    /// intersections that both list it, every intersection lists, each once,
    /// only live edges that end at it, every linestring has two points or
    /// more, and every kind stands only for original edges that the graph
    /// knows.
    pub fn is_consistent(&self) -> (r: bool)
        requires
            self.arenas_ok(),
        ensures
            r == self@.wf(),
            r == self.inv(),
    {
        let bound = self.edge_id_bound();
        let mut k: usize = 0;
        while k < bound
            invariant
                k <= bound,
                self.arenas_ok(),
                forall|e: EdgeID| #[trigger] self@.edges.contains_key(e) ==> e.0 < bound,
                forall|e: EdgeID|
                    e.0 < k && #[trigger] self@.edges.contains_key(e) ==> self@.edge_wf(e),
            decreases bound - k,
        {
            if self.edge(EdgeID(k)).is_some() {
                if !self.edge_is_consistent(EdgeID(k)) {
                    return false;
                }
            }
            k = k + 1;
        }
        let bound = self.intersection_id_bound();
        let mut k: usize = 0;
        while k < bound
            invariant
                k <= bound,
                self.arenas_ok(),
                forall|e: EdgeID| #[trigger] self@.edges.contains_key(e) ==> self@.edge_wf(e),
                forall|i: IntersectionID| #[trigger]
                    self@.intersections.contains_key(i) ==> i.0 < bound,
                forall|i: IntersectionID|
                    i.0 < k && #[trigger] self@.intersections.contains_key(i)
                        ==> self@.intersection_wf(i),
            decreases bound - k,
        {
            if self.intersection(IntersectionID(k)).is_some() {
                if !self.intersection_is_consistent(IntersectionID(k)) {
                    return false;
                }
            }
            k = k + 1;
        }
        true
    }

    /// Builds the store from a street graph: every edge gets the kind that
    /// its tags give it and is remembered as an original edge under its own
    /// id, every intersection lists each of its edges once, however often
    /// the source lists it, and each counter starts one past the largest id.
    /// Nothing is built from a graph without an edge or an intersection,
    /// with an id used twice or too large for a counter above it, or that is
    /// not consistent.
    pub fn new(osm_graph: OsmGraph<C>) -> (r: Option<Graph<C>>)
        ensures
            r is Some <==> osm_graph.ok(),
            r is Some ==> r->0.inv() && r->0@ == osm_graph.initial(),
    {
        if osm_graph.edges.len() == 0 || osm_graph.intersections.len() == 0 {
            return None;
        }
        let ghost ne = osm_graph.edges@.len() as int;
        let ghost ni = osm_graph.intersections@.len() as int;
        let (edges, originals) = match osm_graph.place_edges() {
            Some(arenas) => arenas,
            None => {
                return None;
            },
        };
        let intersections = match osm_graph.place_intersections() {
            Some(arena) => arena,
            None => {
                return None;
            },
        };
        let ghost ev = edges@;
        let ghost ov = originals@;
        let ghost iv = intersections@;
        assert(edges.len() == ev.len());
        assert(originals.len() == ov.len());
        assert(intersections.len() == iv.len());
        assert(osm_graph.edges@.take(ne) == osm_graph.edges@);
        assert(osm_graph.intersections@.take(ni) == osm_graph.intersections@);
        let graph = Graph::from_arenas(
            edges,
            intersections,
            originals,
            osm_graph.boundary_polygon.clone(),
        );
        proof {
            osm_graph.lemma_edges_arena(ev);
            osm_graph.lemma_originals_arena(ov);
            osm_graph.lemma_intersections_arena(iv);
            lemma_max_edge_id(osm_graph.edges@);
            lemma_max_intersection_id(osm_graph.intersections@);
            assert(graph@ == osm_graph.initial());
        }
        if graph.is_consistent() {
            Some(graph)
        } else {
            None
        }
    }
}

} // verus!
