//! The mathematical model of the graph store: what a graph is, when it is
//! well formed, and what each primitive mutation does to it.

use vstd::prelude::*;
use crate::ids::{EdgeID, IntersectionID, OriginalEdgeID};
use crate::kinds::EdgeKindView;
use crate::seqs::{append_missing, lemma_append_missing, lemma_contains_push, lemma_no_dup_push,
    lemma_without, without};

verus! {

/// Where an intersection came from.
#[derive(Clone, Copy, Debug, PartialEq, Eq, Structural)]
pub enum IntersectionProvenance {
    /// A node of the source data, by its id there.
    OSM(i64),
    /// Made by a rewrite.
    Synthetic,
}

/// The value of an edge.
pub struct EdgeView<C> {
    pub id: EdgeID,
    pub src: IntersectionID,
    pub dst: IntersectionID,
    pub linestring: Seq<C>,
    pub kind: EdgeKindView,
}

/// The value of an intersection.
pub struct IntersectionView<C> {
    pub id: IntersectionID,
    pub edges: Seq<EdgeID>,
    pub point: C,
    pub provenance: IntersectionProvenance,
}

/// The value of an original edge.
pub struct OriginalEdgeView {
    pub way: i64,
    pub node1: i64,
    pub node2: i64,
    pub tags: Map<Seq<char>, Seq<char>>,
}

/// The value of a polygon: its outer ring and its holes.
pub struct PolygonView<C> {
    pub exterior: Seq<C>,
    pub interiors: Seq<Seq<C>>,
}

/// The value of a graph.
pub struct GraphView<C> {
    pub edges: Map<EdgeID, EdgeView<C>>,
    pub intersections: Map<IntersectionID, IntersectionView<C>>,
    pub original_edges: Map<OriginalEdgeID, OriginalEdgeView>,
    pub boundary_polygon: PolygonView<C>,
    pub intersection_id_counter: nat,
    pub edge_id_counter: nat,
}

impl<C> EdgeView<C> {
    /// The edge with each end that sat on `old` moved to `new`, and, if
    /// `extend`, with the point `p` of `new` put before or behind the
    /// linestring at each end that moved.
    pub open spec fn rewire(
        self,
        old: IntersectionID,
        new: IntersectionID,
        p: C,
        extend: bool,
    ) -> EdgeView<C> {
        let front = if extend && self.src == old {
            seq![p]
        } else {
            Seq::<C>::empty()
        };
        let back = if extend && self.dst == old {
            seq![p]
        } else {
            Seq::<C>::empty()
        };
        EdgeView {
            id: self.id,
            src: if self.src == old {
                new
            } else {
                self.src
            },
            dst: if self.dst == old {
                new
            } else {
                self.dst
            },
            linestring: front + self.linestring + back,
            kind: self.kind,
        }
    }

    /// The end of the edge that is not `i`; for a loop at `i`, `i` itself.
    pub open spec fn other_end(self, i: IntersectionID) -> IntersectionID {
        if self.src == i {
            self.dst
        } else {
            self.src
        }
    }
}

impl<C> GraphView<C> {
    /// Edge `e` is live and has an end at `i`.
    pub open spec fn incident(self, e: EdgeID, i: IntersectionID) -> bool {
        self.edges.contains_key(e) && (self.edges[e].src == i || self.edges[e].dst == i)
    }

    /// Edge `e` is stored under its own id, has a linestring of two points or
    /// more, ends at live intersections that both list it, and stands only for
    /// original edges that the graph knows.
    pub open spec fn edge_wf(self, e: EdgeID) -> bool {
        let edge = self.edges[e];
        &&& edge.id == e
        &&& e.0 <= self.edge_id_counter
        &&& edge.linestring.len() >= 2
        &&& self.intersections.contains_key(edge.src)
        &&& self.intersections.contains_key(edge.dst)
        &&& self.intersections[edge.src].edges.contains(e)
        &&& self.intersections[edge.dst].edges.contains(e)
        &&& edge.kind.all().subset_of(self.original_edges.dom())
    }

    /// Intersection `i` is stored under its own id and lists, each once, only
    /// live edges that end at it.
    pub open spec fn intersection_wf(self, i: IntersectionID) -> bool {
        let x = self.intersections[i];
        &&& x.id == i
        &&& i.0 <= self.intersection_id_counter
        &&& x.edges.no_duplicates()
        &&& forall|k: int| 0 <= k < x.edges.len() ==> self.incident(#[trigger] x.edges[k], i)
    }

    /// The graph is consistent: every edge and every intersection is.
    pub open spec fn wf(self) -> bool {
        &&& forall|e: EdgeID| #[trigger] self.edges.contains_key(e) ==> self.edge_wf(e)
        &&& forall|i: IntersectionID| #[trigger]
            self.intersections.contains_key(i) ==> self.intersection_wf(i)
        &&& self.edge_id_counter <= usize::MAX
        &&& self.intersection_id_counter <= usize::MAX
    }

    /// No intersection is left without an edge.
    pub open spec fn no_empty_intersections(self) -> bool {
        forall|i: IntersectionID| #[trigger]
            self.intersections.contains_key(i) ==> self.intersections[i].edges.len() > 0
    }

    /// Every linestring starts at the point of its edge's source and ends at
    /// the point of its destination.
    pub open spec fn endpoints_attached(self) -> bool {
        forall|e: EdgeID| #[trigger]
            self.edges.contains_key(e) ==> {
                let edge = self.edges[e];
                &&& edge.linestring.len() > 0
                &&& self.intersections.contains_key(edge.src)
                &&& self.intersections.contains_key(edge.dst)
                &&& edge.linestring.first() == self.intersections[edge.src].point
                &&& edge.linestring.last() == self.intersections[edge.dst].point
            }
    }

    /// Original edge `o` is known and tagged `key=value`.
    pub open spec fn tag_is(self, o: OriginalEdgeID, key: Seq<char>, value: Seq<char>) -> bool {
        &&& self.original_edges.contains_key(o)
        &&& self.original_edges[o].tags.contains_key(key)
        &&& self.original_edges[o].tags[key] == value
    }

    /// Original edge `o` is tagged as a crossing for feet or cycles.
    pub open spec fn is_crossing_way(self, o: OriginalEdgeID) -> bool {
        self.tag_is(o, "footway"@, "crossing"@) || self.tag_is(o, "cycleway"@, "crossing"@)
    }

    /// Every linestring starts at the point of its edge's source and ends at
    /// the point of its destination, but for the ends that sit on `at`.
    pub open spec fn attached_but_at(self, at: IntersectionID) -> bool {
        forall|e: EdgeID| #[trigger]
            self.edges.contains_key(e) ==> {
                let edge = self.edges[e];
                &&& edge.linestring.len() > 0
                &&& self.intersections.contains_key(edge.src)
                &&& self.intersections.contains_key(edge.dst)
                &&& edge.src != at ==> edge.linestring.first() == self.intersections[edge.src].point
                &&& edge.dst != at ==> edge.linestring.last() == self.intersections[edge.dst].point
            }
    }

    /// The id that the next new edge gets.
    pub open spec fn next_edge_id(self) -> EdgeID {
        EdgeID((self.edge_id_counter + 1) as usize)
    }

    /// The id that the next new intersection gets.
    pub open spec fn next_intersection_id(self) -> IntersectionID {
        IntersectionID((self.intersection_id_counter + 1) as usize)
    }

    /// The graph after one edge id was handed out.
    pub open spec fn bump_edge_id(self) -> GraphView<C> {
        GraphView { edge_id_counter: self.edge_id_counter + 1, ..self }
    }

    /// The graph after one intersection id was handed out.
    pub open spec fn bump_intersection_id(self) -> GraphView<C> {
        GraphView { intersection_id_counter: self.intersection_id_counter + 1, ..self }
    }

    /// The graph without edge `e`: gone from the edges and from the lists of
    /// both of its ends.
    pub open spec fn remove_edge(self, e: EdgeID) -> GraphView<C> {
        let edge = self.edges[e];
        GraphView {
            edges: self.edges.remove(e),
            intersections: Map::new(
                |i: IntersectionID| self.intersections.contains_key(i),
                |i: IntersectionID|
                    if i == edge.src || i == edge.dst {
                        IntersectionView {
                            edges: without(self.intersections[i].edges, e),
                            ..self.intersections[i]
                        }
                    } else {
                        self.intersections[i]
                    },
            ),
            ..self
        }
    }

    /// The graph without intersection `i`.
    pub open spec fn remove_intersection(self, i: IntersectionID) -> GraphView<C> {
        GraphView { intersections: self.intersections.remove(i), ..self }
    }

    /// The graph without the intersections that have no edge.
    pub open spec fn sweep(self) -> GraphView<C> {
        GraphView {
            intersections: Map::new(
                |i: IntersectionID|
                    self.intersections.contains_key(i) && self.intersections[i].edges.len() > 0,
                |i: IntersectionID| self.intersections[i],
            ),
            ..self
        }
    }

    /// The graph with a new intersection, under the next id and with no edge.
    pub open spec fn create_intersection(
        self,
        point: C,
        provenance: IntersectionProvenance,
    ) -> GraphView<C> {
        let id = self.next_intersection_id();
        GraphView {
            intersections: self.intersections.insert(
                id,
                IntersectionView { id, edges: Seq::<EdgeID>::empty(), point, provenance },
            ),
            intersection_id_counter: self.intersection_id_counter + 1,
            ..self
        }
    }

    /// The graph with a new edge under the next id, listed last at both of its
    /// ends (once, if both ends are the same intersection).
    pub open spec fn create_edge(
        self,
        linestring: Seq<C>,
        src: IntersectionID,
        dst: IntersectionID,
        kind: EdgeKindView,
    ) -> GraphView<C> {
        let id = self.next_edge_id();
        GraphView {
            edges: self.edges.insert(id, EdgeView { id, src, dst, linestring, kind }),
            intersections: Map::new(
                |i: IntersectionID| self.intersections.contains_key(i),
                |i: IntersectionID|
                    if i == src || i == dst {
                        IntersectionView {
                            edges: self.intersections[i].edges.push(id),
                            ..self.intersections[i]
                        }
                    } else {
                        self.intersections[i]
                    },
            ),
            edge_id_counter: self.edge_id_counter + 1,
            ..self
        }
    }

    /// The graph with the linestring of edge `e` replaced.
    pub open spec fn with_linestring(self, e: EdgeID, linestring: Seq<C>) -> GraphView<C> {
        GraphView {
            edges: self.edges.insert(e, EdgeView { linestring, ..self.edges[e] }),
            ..self
        }
    }

    /// The graph with the kind of edge `e` replaced.
    pub open spec fn with_kind(self, e: EdgeID, kind: EdgeKindView) -> GraphView<C> {
        GraphView { edges: self.edges.insert(e, EdgeView { kind, ..self.edges[e] }), ..self }
    }

    /// The graph with intersection `old` folded into `new`: `old` is gone,
    /// every edge end that sat on it sits on `new`, and `new` lists those
    /// edges behind its own. With `extend`, the point of `new` is added to the
    /// linestring at each end that moved.
    pub open spec fn replace_intersection(
        self,
        old: IntersectionID,
        new: IntersectionID,
        extend: bool,
    ) -> GraphView<C> {
        let p = self.intersections[new].point;
        let moved = self.intersections[old].edges;
        GraphView {
            edges: Map::new(
                |e: EdgeID| self.edges.contains_key(e),
                |e: EdgeID|
                    if moved.contains(e) {
                        self.edges[e].rewire(old, new, p, extend)
                    } else {
                        self.edges[e]
                    },
            ),
            intersections: self.intersections.remove(old).insert(
                new,
                IntersectionView {
                    edges: append_missing(self.intersections[new].edges, moved),
                    ..self.intersections[new]
                },
            ),
            ..self
        }
    }
}

/// In a consistent graph an intersection lists exactly the edges that end at it.
pub proof fn lemma_listed_iff_incident<C>(g: GraphView<C>, e: EdgeID, i: IntersectionID)
    requires
        g.wf(),
        g.intersections.contains_key(i),
    ensures
        g.intersections[i].edges.contains(e) <==> g.incident(e, i),
{
    assert(g.intersection_wf(i));
    if g.incident(e, i) {
        assert(g.edge_wf(e));
    }
}

/// Handing out an id keeps the graph consistent.
pub proof fn lemma_bump_wf<C>(g: GraphView<C>)
    requires
        g.wf(),
    ensures
        g.edge_id_counter < usize::MAX ==> g.bump_edge_id().wf(),
        g.intersection_id_counter < usize::MAX ==> g.bump_intersection_id().wf(),
        g.bump_edge_id().endpoints_attached() == g.endpoints_attached(),
        g.bump_intersection_id().endpoints_attached() == g.endpoints_attached(),
{
    let a = g.bump_edge_id();
    let b = g.bump_intersection_id();
    assert forall|e: EdgeID| #[trigger] a.edges.contains_key(e) implies a.edge_wf(e) by {
        assert(g.edge_wf(e));
    }
    assert forall|i: IntersectionID| #[trigger] a.intersections.contains_key(i) implies
        a.intersection_wf(i) by {
        assert(g.intersection_wf(i));
    }
    assert forall|e: EdgeID| #[trigger] b.edges.contains_key(e) implies b.edge_wf(e) by {
        assert(g.edge_wf(e));
    }
    assert forall|i: IntersectionID| #[trigger] b.intersections.contains_key(i) implies
        b.intersection_wf(i) by {
        assert(g.intersection_wf(i));
    }
}

/// Removing a live edge keeps the graph consistent and its linestrings attached.
pub proof fn lemma_remove_edge_wf<C>(g: GraphView<C>, e: EdgeID)
    requires
        g.wf(),
        g.edges.contains_key(e),
    ensures
        g.remove_edge(e).wf(),
        g.endpoints_attached() ==> g.remove_edge(e).endpoints_attached(),
        forall|i: IntersectionID| #[trigger]
            g.intersections.contains_key(i) && !g.incident(e, i) ==> g.remove_edge(
                e,
            ).intersections[i] == g.intersections[i],
        forall|i: IntersectionID, x: EdgeID|
            g.intersections.contains_key(i) ==> (#[trigger] g.remove_edge(
                e,
            ).intersections[i].edges.contains(x) <==> (g.intersections[i].edges.contains(x) && x
                != e)),
{
    let h = g.remove_edge(e);
    let edge = g.edges[e];
    assert(g.edge_wf(e));
    assert forall|i: IntersectionID| #[trigger] h.intersections.contains_key(i) implies
        h.intersection_wf(i) && (forall|x: EdgeID|
        h.intersections[i].edges.contains(x) <==> (g.intersections[i].edges.contains(x) && x
            != e)) by {
        assert(g.intersection_wf(i));
        let before = g.intersections[i].edges;
        let after = h.intersections[i].edges;
        lemma_without(before, e);
        if !(i == edge.src || i == edge.dst) {
            lemma_listed_iff_incident(g, e, i);
        }
        assert forall|k: int| 0 <= k < after.len() implies h.incident(#[trigger] after[k], i) by {
            assert(after.contains(after[k]));
            assert(before.contains(after[k]));
            let j = before.index_of(after[k]);
            assert(g.incident(before[j], i));
        }
    }
    assert forall|x: EdgeID| #[trigger] h.edges.contains_key(x) implies h.edge_wf(x) by {
        assert(g.edge_wf(x));
        assert(h.intersections.contains_key(g.edges[x].src));
        assert(h.intersections.contains_key(g.edges[x].dst));
    }
    assert forall|i: IntersectionID| #[trigger]
        g.intersections.contains_key(i) && !g.incident(e, i) implies h.intersections[i]
        == g.intersections[i] by {}
    assert forall|i: IntersectionID, x: EdgeID| g.intersections.contains_key(i) implies (
    #[trigger] h.intersections[i].edges.contains(x) <==> (g.intersections[i].edges.contains(x) && x
        != e)) by {
        assert(h.intersections.contains_key(i));
    }
    if g.endpoints_attached() {
        assert forall|x: EdgeID| #[trigger] h.edges.contains_key(x) implies ({
            let ed = h.edges[x];
            &&& ed.linestring.len() > 0
            &&& h.intersections.contains_key(ed.src)
            &&& h.intersections.contains_key(ed.dst)
            &&& ed.linestring.first() == h.intersections[ed.src].point
            &&& ed.linestring.last() == h.intersections[ed.dst].point
        }) by {
            assert(g.edges.contains_key(x));
        }
    }
}

/// Removing an intersection that lists no edge keeps the graph consistent.
pub proof fn lemma_remove_intersection_wf<C>(g: GraphView<C>, i: IntersectionID)
    requires
        g.wf(),
        g.intersections.contains_key(i),
        g.intersections[i].edges.len() == 0,
    ensures
        g.remove_intersection(i).wf(),
        g.endpoints_attached() ==> g.remove_intersection(i).endpoints_attached(),
        g.no_empty_intersections() ==> g.remove_intersection(i).no_empty_intersections(),
{
    let h = g.remove_intersection(i);
    assert forall|x: EdgeID| #[trigger] h.edges.contains_key(x) implies h.edge_wf(x)
        && g.edges[x].src != i && g.edges[x].dst != i by {
        assert(g.edge_wf(x));
        lemma_listed_iff_incident(g, x, i);
    }
    assert forall|j: IntersectionID| #[trigger] h.intersections.contains_key(j) implies
        h.intersection_wf(j) by {
        assert(g.intersection_wf(j));
    }
    if g.endpoints_attached() {
        assert forall|x: EdgeID| #[trigger] h.edges.contains_key(x) implies ({
            let ed = h.edges[x];
            &&& ed.linestring.len() > 0
            &&& h.intersections.contains_key(ed.src)
            &&& h.intersections.contains_key(ed.dst)
            &&& ed.linestring.first() == h.intersections[ed.src].point
            &&& ed.linestring.last() == h.intersections[ed.dst].point
        }) by {
            assert(g.edges.contains_key(x));
        }
    }
}

/// Sweeping keeps the graph consistent and leaves no intersection empty.
pub proof fn lemma_sweep_wf<C>(g: GraphView<C>)
    requires
        g.wf(),
    ensures
        g.sweep().wf(),
        g.sweep().no_empty_intersections(),
        g.endpoints_attached() ==> g.sweep().endpoints_attached(),
        g.no_empty_intersections() ==> g.sweep() == g,
{
    let h = g.sweep();
    assert forall|x: EdgeID| #[trigger] h.edges.contains_key(x) implies h.edge_wf(x) by {
        assert(g.edge_wf(x));
        let ed = g.edges[x];
        assert(g.intersections[ed.src].edges.len() > 0);
        assert(g.intersections[ed.dst].edges.len() > 0);
    }
    assert forall|j: IntersectionID| #[trigger] h.intersections.contains_key(j) implies
        h.intersection_wf(j) by {
        assert(g.intersection_wf(j));
    }
    if g.endpoints_attached() {
        assert forall|x: EdgeID| #[trigger] h.edges.contains_key(x) implies ({
            let ed = h.edges[x];
            &&& ed.linestring.len() > 0
            &&& h.intersections.contains_key(ed.src)
            &&& h.intersections.contains_key(ed.dst)
            &&& ed.linestring.first() == h.intersections[ed.src].point
            &&& ed.linestring.last() == h.intersections[ed.dst].point
        }) by {
            assert(g.edges.contains_key(x));
            assert(h.edge_wf(x));
        }
    }
    if g.no_empty_intersections() {
        assert(h.intersections =~= g.intersections);
    }
}

/// A new intersection keeps the graph consistent.
pub proof fn lemma_create_intersection_wf<C>(
    g: GraphView<C>,
    point: C,
    provenance: IntersectionProvenance,
)
    requires
        g.wf(),
        g.intersection_id_counter < usize::MAX,
    ensures
        g.create_intersection(point, provenance).wf(),
        !g.intersections.contains_key(g.next_intersection_id()),
        g.endpoints_attached() ==> g.create_intersection(point, provenance).endpoints_attached(),
{
    let h = g.create_intersection(point, provenance);
    let id = g.next_intersection_id();
    if g.intersections.contains_key(id) {
        assert(g.intersection_wf(id));
    }
    assert forall|x: EdgeID| #[trigger] h.edges.contains_key(x) implies h.edge_wf(x) by {
        assert(g.edge_wf(x));
    }
    assert forall|j: IntersectionID| #[trigger] h.intersections.contains_key(j) implies
        h.intersection_wf(j) by {
        if j != id {
            assert(g.intersection_wf(j));
        }
    }
    if g.endpoints_attached() {
        assert forall|x: EdgeID| #[trigger] h.edges.contains_key(x) implies ({
            let ed = h.edges[x];
            &&& ed.linestring.len() > 0
            &&& h.intersections.contains_key(ed.src)
            &&& h.intersections.contains_key(ed.dst)
            &&& ed.linestring.first() == h.intersections[ed.src].point
            &&& ed.linestring.last() == h.intersections[ed.dst].point
        }) by {
            assert(g.edges.contains_key(x));
        }
    }
}

/// A new edge between live intersections keeps the graph consistent.
pub proof fn lemma_create_edge_wf<C>(
    g: GraphView<C>,
    linestring: Seq<C>,
    src: IntersectionID,
    dst: IntersectionID,
    kind: EdgeKindView,
)
    requires
        g.wf(),
        g.edge_id_counter < usize::MAX,
        g.intersections.contains_key(src),
        g.intersections.contains_key(dst),
        linestring.len() >= 2,
        kind.all().subset_of(g.original_edges.dom()),
    ensures
        g.create_edge(linestring, src, dst, kind).wf(),
        !g.edges.contains_key(g.next_edge_id()),
        (g.endpoints_attached() && linestring.first() == g.intersections[src].point
            && linestring.last() == g.intersections[dst].point) ==> g.create_edge(
            linestring,
            src,
            dst,
            kind,
        ).endpoints_attached(),
{
    let h = g.create_edge(linestring, src, dst, kind);
    let id = g.next_edge_id();
    if g.edges.contains_key(id) {
        assert(g.edge_wf(id));
    }
    assert forall|j: IntersectionID| #[trigger] h.intersections.contains_key(j) implies
        h.intersection_wf(j) && (forall|x: EdgeID|
        g.intersections[j].edges.contains(x) ==> h.intersections[j].edges.contains(x)) by {
        assert(g.intersection_wf(j));
        let before = g.intersections[j].edges;
        let after = h.intersections[j].edges;
        if j == src || j == dst {
            assert(!before.contains(id)) by {
                if before.contains(id) {
                    let k = before.index_of(id);
                    assert(g.incident(before[k], j));
                }
            }
            lemma_no_dup_push(before, id);
            assert forall|x: EdgeID| before.contains(x) implies after.contains(x) by {
                lemma_contains_push(before, id, x);
            }
            assert forall|k: int| 0 <= k < after.len() implies h.incident(#[trigger] after[k], j) by {
                if k < before.len() {
                    assert(g.incident(before[k], j));
                }
            }
        } else {
            assert forall|k: int| 0 <= k < after.len() implies h.incident(#[trigger] after[k], j) by {
                assert(g.incident(before[k], j));
            }
        }
    }
    assert forall|x: EdgeID| #[trigger] h.edges.contains_key(x) implies h.edge_wf(x) by {
        if x == id {
            lemma_contains_push(g.intersections[src].edges, id, id);
            lemma_contains_push(g.intersections[dst].edges, id, id);
        } else {
            assert(g.edge_wf(x));
            assert(h.intersections.contains_key(g.edges[x].src));
            assert(h.intersections.contains_key(g.edges[x].dst));
        }
    }
    if g.endpoints_attached() && linestring.first() == g.intersections[src].point
        && linestring.last() == g.intersections[dst].point {
        assert forall|x: EdgeID| #[trigger] h.edges.contains_key(x) implies ({
            let ed = h.edges[x];
            &&& ed.linestring.len() > 0
            &&& h.intersections.contains_key(ed.src)
            &&& h.intersections.contains_key(ed.dst)
            &&& ed.linestring.first() == h.intersections[ed.src].point
            &&& ed.linestring.last() == h.intersections[ed.dst].point
        }) by {
            if x != id {
                assert(g.edges.contains_key(x));
            }
        }
    }
}

/// Folding an intersection into `new` keeps the linestrings attached
/// everywhere but at `new`.
pub proof fn lemma_replace_intersection_attached_but<C>(
    g: GraphView<C>,
    old: IntersectionID,
    new: IntersectionID,
    extend: bool,
)
    requires
        g.wf(),
        g.intersections.contains_key(old),
        g.intersections.contains_key(new),
        old != new,
        g.attached_but_at(new),
    ensures
        g.replace_intersection(old, new, extend).attached_but_at(new),
{
    let h = g.replace_intersection(old, new, extend);
    lemma_replace_intersection_wf(g, old, new, extend);
    let p = g.intersections[new].point;
    assert forall|x: EdgeID| #[trigger] h.edges.contains_key(x) implies ({
        let edge = h.edges[x];
        &&& edge.linestring.len() > 0
        &&& h.intersections.contains_key(edge.src)
        &&& h.intersections.contains_key(edge.dst)
        &&& edge.src != new ==> edge.linestring.first() == h.intersections[edge.src].point
        &&& edge.dst != new ==> edge.linestring.last() == h.intersections[edge.dst].point
    }) by {
        assert(g.edges.contains_key(x));
        assert(h.edge_wf(x));
        assert(g.edge_wf(x));
        lemma_listed_iff_incident(g, x, old);
        let before = g.edges[x];
        if !g.intersections[old].edges.contains(x) {
            assert(h.edges[x] == before);
        } else {
            let after = before.rewire(old, new, p, extend);
            assert(h.edges[x] == after);
            if after.src != new {
                assert(before.src != old);
                assert(after.linestring.first() == before.linestring.first());
            }
            if after.dst != new {
                assert(before.dst != old);
                assert(after.linestring.last() == before.linestring.last());
            }
        }
    }
}

/// A new linestring of two points or more, or a new kind that stands for
/// known original edges, keeps the graph consistent.
pub proof fn lemma_with_field_wf<C>(
    g: GraphView<C>,
    e: EdgeID,
    linestring: Seq<C>,
    kind: EdgeKindView,
)
    requires
        g.wf(),
        g.edges.contains_key(e),
    ensures
        linestring.len() >= 2 ==> g.with_linestring(e, linestring).wf(),
        kind.all().subset_of(g.original_edges.dom()) ==> g.with_kind(e, kind).wf(),
        g.endpoints_attached() ==> g.with_kind(e, kind).endpoints_attached(),
        g.no_empty_intersections() ==> g.with_kind(e, kind).no_empty_intersections()
            && g.with_linestring(e, linestring).no_empty_intersections(),
{
    let a = g.with_linestring(e, linestring);
    let b = g.with_kind(e, kind);
    if linestring.len() >= 2 {
        assert forall|x: EdgeID| #[trigger] a.edges.contains_key(x) implies a.edge_wf(x) by {
            assert(g.edge_wf(x));
        }
        assert forall|i: IntersectionID| #[trigger] a.intersections.contains_key(i) implies
            a.intersection_wf(i) by {
            assert(g.intersection_wf(i));
            let list = g.intersections[i].edges;
            assert forall|k: int| 0 <= k < list.len() implies a.incident(#[trigger] list[k], i) by {
                assert(g.incident(list[k], i));
            }
        }
    }
    if kind.all().subset_of(g.original_edges.dom()) {
        assert forall|x: EdgeID| #[trigger] b.edges.contains_key(x) implies b.edge_wf(x) by {
            assert(g.edge_wf(x));
        }
        assert forall|i: IntersectionID| #[trigger] b.intersections.contains_key(i) implies
            b.intersection_wf(i) by {
            assert(g.intersection_wf(i));
            let list = g.intersections[i].edges;
            assert forall|k: int| 0 <= k < list.len() implies b.incident(#[trigger] list[k], i) by {
                assert(g.incident(list[k], i));
            }
        }
    }
    if g.endpoints_attached() {
        assert forall|x: EdgeID| #[trigger] b.edges.contains_key(x) implies ({
            let ed = b.edges[x];
            &&& ed.linestring.len() > 0
            &&& b.intersections.contains_key(ed.src)
            &&& b.intersections.contains_key(ed.dst)
            &&& ed.linestring.first() == b.intersections[ed.src].point
            &&& ed.linestring.last() == b.intersections[ed.dst].point
        }) by {
            assert(g.edges.contains_key(x));
        }
    }
}

/// Folding one live intersection into another keeps the graph consistent;
/// with `extend` it also keeps the linestrings attached.
pub proof fn lemma_replace_intersection_wf<C>(
    g: GraphView<C>,
    old: IntersectionID,
    new: IntersectionID,
    extend: bool,
)
    requires
        g.wf(),
        g.intersections.contains_key(old),
        g.intersections.contains_key(new),
        old != new,
    ensures
        g.replace_intersection(old, new, extend).wf(),
        (g.endpoints_attached() && extend) ==> g.replace_intersection(
            old,
            new,
            extend,
        ).endpoints_attached(),
        g.replace_intersection(old, new, extend).intersections.dom()
            == g.intersections.dom().remove(old),
        forall|j: IntersectionID|
            j != old && j != new && #[trigger] g.intersections.contains_key(j)
                ==> g.replace_intersection(old, new, extend).intersections[j]
                == g.intersections[j],
        forall|x: EdgeID| #[trigger]
            g.replace_intersection(old, new, extend).intersections[new].edges.contains(x) <==> (
            g.intersections[new].edges.contains(x) || g.intersections[old].edges.contains(x)),
{
    let h = g.replace_intersection(old, new, extend);
    assert(h.intersections.dom() =~= g.intersections.dom().remove(old));
    let p = g.intersections[new].point;
    let moved = g.intersections[old].edges;
    let merged = append_missing(g.intersections[new].edges, moved);
    lemma_append_missing(g.intersections[new].edges, moved);
    assert(g.intersection_wf(old));
    assert(g.intersection_wf(new));
    assert forall|x: EdgeID| #[trigger] h.edges.contains_key(x) implies h.edge_wf(x)
        && h.edges[x] == g.edges[x].rewire(old, new, p, extend) by {
        assert(g.edge_wf(x));
        lemma_listed_iff_incident(g, x, old);
        let ed = g.edges[x];
        if (ed.src == old || ed.dst == old) {
            assert(merged.contains(x));
        }
        if ed.src != old {
            assert(h.intersections[ed.src].edges.contains(x));
        }
        if ed.dst != old {
            assert(h.intersections[ed.dst].edges.contains(x));
        }
        if !moved.contains(x) {
            assert(ed.rewire(old, new, p, extend).linestring =~= ed.linestring);
        }
    }
    assert forall|j: IntersectionID| #[trigger] h.intersections.contains_key(j) implies
        h.intersection_wf(j) by {
        assert(g.intersection_wf(j));
        let after = h.intersections[j].edges;
        assert forall|k: int| 0 <= k < after.len() implies h.incident(#[trigger] after[k], j) by {
            let x = after[k];
            assert(after.contains(x));
            if j == new {
                if g.intersections[new].edges.contains(x) {
                    let m = g.intersections[new].edges.index_of(x);
                    assert(g.incident(g.intersections[new].edges[m], new));
                } else {
                    let m = moved.index_of(x);
                    assert(g.incident(moved[m], old));
                }
            } else {
                assert(g.incident(g.intersections[j].edges[k], j));
            }
            assert(h.edges.contains_key(x));
        }
    }
    if g.endpoints_attached() && extend {
        assert forall|x: EdgeID| #[trigger] h.edges.contains_key(x) implies ({
            let ed = h.edges[x];
            &&& ed.linestring.len() > 0
            &&& h.intersections.contains_key(ed.src)
            &&& h.intersections.contains_key(ed.dst)
            &&& ed.linestring.first() == h.intersections[ed.src].point
            &&& ed.linestring.last() == h.intersections[ed.dst].point
        }) by {
            assert(g.edges.contains_key(x));
            assert(h.edge_wf(x));
        }
    }
}

} // verus!
