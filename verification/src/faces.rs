//! Faces: the polygons that the edges cut the mapped region into, what bounds
//! each of them, and what kind of space each of them is.

use vstd::prelude::*;
use crate::graph::{Graph, Polygon, copy_vec, list_contains};
use crate::ids::{EdgeID, IntersectionID};
use crate::model::{GraphView, IntersectionProvenance, PolygonView, lemma_replace_intersection_wf};

verus! {

/// What kind of space a face is.
#[derive(Clone, Copy, Debug, PartialEq, Eq, Structural)]
pub enum FaceKind {
    /// Not to be simplified: there are buildings inside, or it is bounded by
    /// a parking aisle.
    UrbanBlock,
    /// A candidate for simplifying.
    RoadArtifact,
    /// The space between a road and a footway or cycleway.
    SidepathArtifact,
    /// Water or a park.
    OtherArea,
}

/// One face of the decomposition.
pub struct Face<C> {
    pub polygon: Polygon<C>,
    pub kind: FaceKind,
    /// The edges that run along the boundary.
    pub boundary_edges: Vec<EdgeID>,
    /// The ends of the boundary edges, by rising id.
    pub boundary_intersections: Vec<IntersectionID>,
    /// The other edges at those intersections, by rising id.
    pub connecting_edges: Vec<EdgeID>,
    /// The edges inside the polygon that do not run along its boundary.
    pub internal_edges: Vec<EdgeID>,
}

/// What the caller has found out about one polygon of the decomposition.
pub struct FaceInput<C> {
    pub polygon: Polygon<C>,
    /// The edges that run along the boundary of the polygon.
    pub boundary_edges: Vec<EdgeID>,
    /// The edges that lie inside the polygon. An edge that is also named as
    /// a boundary edge counts as a boundary edge only.
    pub internal_edges: Vec<EdgeID>,
    /// How many building centroids the polygon contains.
    pub num_buildings: usize,
    /// How many centroids of other areas (water, park) the polygon contains.
    pub num_other_areas: usize,
}

/// The value of a face.
pub struct FaceView<C> {
    pub polygon: PolygonView<C>,
    pub kind: FaceKind,
    pub boundary_edges: Seq<EdgeID>,
    pub boundary_intersections: Seq<IntersectionID>,
    pub connecting_edges: Seq<EdgeID>,
    pub internal_edges: Seq<EdgeID>,
}

impl<C> View for Face<C> {
    type V = FaceView<C>;

    open spec fn view(&self) -> FaceView<C> {
        FaceView {
            polygon: self.polygon@,
            kind: self.kind,
            boundary_edges: self.boundary_edges@,
            boundary_intersections: self.boundary_intersections@,
            connecting_edges: self.connecting_edges@,
            internal_edges: self.internal_edges@,
        }
    }
}

impl<C: Copy> Face<C> {
    /// A copy of the face.
    pub fn clone(&self) -> (r: Face<C>)
        ensures
            r@ == self@,
    {
        Face {
            polygon: self.polygon.clone(),
            kind: self.kind,
            boundary_edges: copy_vec(&self.boundary_edges),
            boundary_intersections: copy_vec(&self.boundary_intersections),
            connecting_edges: copy_vec(&self.connecting_edges),
            internal_edges: copy_vec(&self.internal_edges),
        }
    }
}

/// The kind of a face, by precedence: buildings inside make an urban block;
/// else other areas inside make an other area; else a boundary of both
/// motorized and nonmotorized edges makes a sidepath artifact; else a parking
/// aisle on the boundary makes an urban block; else it is a road artifact.
pub open spec fn face_kind(
    num_buildings: nat,
    num_other_areas: nat,
    has_motorized: bool,
    has_nonmotorized: bool,
    has_parking_aisle: bool,
) -> FaceKind {
    if num_buildings > 0 {
        FaceKind::UrbanBlock
    } else if num_other_areas > 0 {
        FaceKind::OtherArea
    } else if has_motorized && has_nonmotorized {
        FaceKind::SidepathArtifact
    } else if has_parking_aisle {
        FaceKind::UrbanBlock
    } else {
        FaceKind::RoadArtifact
    }
}

/// The kind of a face from what is known of it.
pub fn classify_face(
    num_buildings: usize,
    num_other_areas: usize,
    has_motorized: bool,
    has_nonmotorized: bool,
    has_parking_aisle: bool,
) -> (r: FaceKind)
    ensures
        r == face_kind(
            num_buildings as nat,
            num_other_areas as nat,
            has_motorized,
            has_nonmotorized,
            has_parking_aisle,
        ),
{
    if num_buildings > 0 {
        FaceKind::UrbanBlock
    } else if num_other_areas > 0 {
        FaceKind::OtherArea
    } else if has_motorized && has_nonmotorized {
        FaceKind::SidepathArtifact
    } else if has_parking_aisle {
        FaceKind::UrbanBlock
    } else {
        FaceKind::RoadArtifact
    }
}

/// An urban block has a building inside or a parking aisle on its boundary. A
/// road artifact has neither, nor another area inside, nor a boundary of
/// both motorized and nonmotorized edges.
pub proof fn lemma_face_kind(
    num_buildings: nat,
    num_other_areas: nat,
    has_motorized: bool,
    has_nonmotorized: bool,
    has_parking_aisle: bool,
)
    ensures
        face_kind(num_buildings, num_other_areas, has_motorized, has_nonmotorized, has_parking_aisle)
            == FaceKind::UrbanBlock ==> num_buildings > 0 || has_parking_aisle,
        face_kind(num_buildings, num_other_areas, has_motorized, has_nonmotorized, has_parking_aisle)
            == FaceKind::RoadArtifact ==> num_buildings == 0 && num_other_areas == 0
            && !has_parking_aisle && !(has_motorized && has_nonmotorized),
        face_kind(num_buildings, num_other_areas, has_motorized, has_nonmotorized, has_parking_aisle)
            == FaceKind::SidepathArtifact ==> has_motorized && has_nonmotorized,
        face_kind(num_buildings, num_other_areas, has_motorized, has_nonmotorized, has_parking_aisle)
            == FaceKind::OtherArea ==> num_buildings == 0 && num_other_areas > 0,
{
}

/// The edges of `internal` that are not among `boundary`, in their order: an
/// edge is inside a face only if it does not run along its boundary.
pub open spec fn inside_only(boundary: Seq<EdgeID>, internal: Seq<EdgeID>) -> Seq<EdgeID> {
    crate::seqs::keep(internal, |e: EdgeID| !boundary.contains(e))
}

/// No edge is both a boundary edge and an internal edge of a face, and the
/// internal edges of a face are internal edges that the caller named.
pub proof fn lemma_inside_only(boundary: Seq<EdgeID>, internal: Seq<EdgeID>)
    ensures
        forall|e: EdgeID| #[trigger]
            inside_only(boundary, internal).contains(e) <==> (internal.contains(e)
                && !boundary.contains(e)),
{
    crate::seqs::lemma_keep(internal, |e: EdgeID| !boundary.contains(e));
}

/// The ids rise strictly.
pub open spec fn rising_edges(s: Seq<EdgeID>) -> bool {
    forall|i: int, j: int| 0 <= i < j < s.len() ==> s[i].0 < s[j].0
}

/// The ids rise strictly.
pub open spec fn rising_intersections(s: Seq<IntersectionID>) -> bool {
    forall|i: int, j: int| 0 <= i < j < s.len() ==> s[i].0 < s[j].0
}

/// Two lists of strictly rising ids with the same members are the same list.
pub proof fn lemma_rising_edges_unique(a: Seq<EdgeID>, b: Seq<EdgeID>)
    requires
        rising_edges(a),
        rising_edges(b),
        forall|x: EdgeID| a.contains(x) <==> b.contains(x),
    ensures
        a == b,
    decreases a.len(),
{
    if a.len() == 0 {
        if b.len() > 0 {
            assert(b.contains(b[0]));
        }
    } else {
        assert(a.contains(a.last()));
        let kb = b.index_of(a.last());
        assert(b.contains(b.last()));
        let ka = a.index_of(b.last());
        assert(kb == b.len() - 1);
        let a0 = a.drop_last();
        let b0 = b.drop_last();
        assert forall|x: EdgeID| a0.contains(x) <==> b0.contains(x) by {
            if a0.contains(x) {
                let j = a0.index_of(x);
                assert(a[j] == x);
                assert(a.contains(x));
                let m = b.index_of(x);
                assert(m != b.len() - 1);
                assert(b0[m] == x);
            }
            if b0.contains(x) {
                let j = b0.index_of(x);
                assert(b[j] == x);
                assert(b.contains(x));
                let m = a.index_of(x);
                assert(m != a.len() - 1);
                assert(a0[m] == x);
            }
        }
        lemma_rising_edges_unique(a0, b0);
        assert(a =~= a0.push(a.last()));
        assert(b =~= b0.push(b.last()));
    }
}

/// Two lists of strictly rising ids with the same members are the same list.
pub proof fn lemma_rising_intersections_unique(a: Seq<IntersectionID>, b: Seq<IntersectionID>)
    requires
        rising_intersections(a),
        rising_intersections(b),
        forall|x: IntersectionID| a.contains(x) <==> b.contains(x),
    ensures
        a == b,
    decreases a.len(),
{
    if a.len() == 0 {
        if b.len() > 0 {
            assert(b.contains(b[0]));
        }
    } else {
        assert(a.contains(a.last()));
        let kb = b.index_of(a.last());
        assert(b.contains(b.last()));
        let ka = a.index_of(b.last());
        assert(kb == b.len() - 1);
        let a0 = a.drop_last();
        let b0 = b.drop_last();
        assert forall|x: IntersectionID| a0.contains(x) <==> b0.contains(x) by {
            if a0.contains(x) {
                let j = a0.index_of(x);
                assert(a[j] == x);
                assert(a.contains(x));
                let m = b.index_of(x);
                assert(m != b.len() - 1);
                assert(b0[m] == x);
            }
            if b0.contains(x) {
                let j = b0.index_of(x);
                assert(b[j] == x);
                assert(b.contains(x));
                let m = a.index_of(x);
                assert(m != a.len() - 1);
                assert(a0[m] == x);
            }
        }
        lemma_rising_intersections_unique(a0, b0);
        assert(a =~= a0.push(a.last()));
        assert(b =~= b0.push(b.last()));
    }
}

/// Puts `x` at its place in a list of rising ids, unless it is there.
pub fn insert_rising_edge(v: &mut Vec<EdgeID>, x: EdgeID)
    requires
        rising_edges(old(v)@),
    ensures
        rising_edges(final(v)@),
        forall|y: EdgeID| #[trigger] final(v)@.contains(y) <==> (old(v)@.contains(y) || y == x),
{
    let mut p: usize = 0;
    while p < v.len() && v[p].0 < x.0
        invariant
            p <= v@.len(),
            v@ == old(v)@,
            forall|j: int| 0 <= j < p ==> v@[j].0 < x.0,
        decreases v@.len() - p,
    {
        p = p + 1;
    }
    if p < v.len() && v[p] == x {
        assert forall|y: EdgeID| v@.contains(y) <==> (old(v)@.contains(y) || y == x) by {
            assert(v@[p as int] == x);
        }
        return ;
    }
    let ghost before = v@;
    v.insert(p, x);
    proof {
        let after = v@;
        assert forall|i: int, j: int| 0 <= i < j < after.len() implies after[i].0 < after[j].0 by {
            if j < p {
            } else if j == p {
            } else {
                assert(after[j] == before[j - 1]);
                if i < p {
                } else if i == p {
                    assert(before[p as int].0 >= x.0);
                    assert(before[p as int] != x);
                    if j - 1 > p {
                        assert(before[p as int].0 < before[j - 1].0);
                    }
                } else {
                    assert(after[i] == before[i - 1]);
                }
            }
        }
        assert forall|y: EdgeID| after.contains(y) <==> (before.contains(y) || y == x) by {
            if before.contains(y) {
                let j = before.index_of(y);
                if j < p {
                    assert(after[j] == y);
                } else {
                    assert(after[j + 1] == y);
                }
            }
            if y == x {
                assert(after[p as int] == x);
            }
            if after.contains(y) {
                let j = after.index_of(y);
                if j < p {
                    assert(before[j] == y);
                } else if j > p {
                    assert(before[j - 1] == y);
                }
            }
        }
    }
}

/// Puts `x` at its place in a list of rising ids, unless it is there.
pub fn insert_rising_intersection(v: &mut Vec<IntersectionID>, x: IntersectionID)
    requires
        rising_intersections(old(v)@),
    ensures
        rising_intersections(final(v)@),
        forall|y: IntersectionID| #[trigger]
            final(v)@.contains(y) <==> (old(v)@.contains(y) || y == x),
{
    let mut p: usize = 0;
    while p < v.len() && v[p].0 < x.0
        invariant
            p <= v@.len(),
            v@ == old(v)@,
            forall|j: int| 0 <= j < p ==> v@[j].0 < x.0,
        decreases v@.len() - p,
    {
        p = p + 1;
    }
    if p < v.len() && v[p] == x {
        assert forall|y: IntersectionID| v@.contains(y) <==> (old(v)@.contains(y) || y == x) by {
            assert(v@[p as int] == x);
        }
        return ;
    }
    let ghost before = v@;
    v.insert(p, x);
    proof {
        let after = v@;
        assert forall|i: int, j: int| 0 <= i < j < after.len() implies after[i].0 < after[j].0 by {
            if j < p {
            } else if j == p {
            } else {
                assert(after[j] == before[j - 1]);
                if i < p {
                } else if i == p {
                    assert(before[p as int].0 >= x.0);
                    assert(before[p as int] != x);
                    if j - 1 > p {
                        assert(before[p as int].0 < before[j - 1].0);
                    }
                } else {
                    assert(after[i] == before[i - 1]);
                }
            }
        }
        assert forall|y: IntersectionID| after.contains(y) <==> (before.contains(y) || y == x) by {
            if before.contains(y) {
                let j = before.index_of(y);
                if j < p {
                    assert(after[j] == y);
                } else {
                    assert(after[j + 1] == y);
                }
            }
            if y == x {
                assert(after[p as int] == x);
            }
            if after.contains(y) {
                let j = after.index_of(y);
                if j < p {
                    assert(before[j] == y);
                } else if j > p {
                    assert(before[j - 1] == y);
                }
            }
        }
    }
}

impl<C> GraphView<C> {
    /// Intersection `i` is an end of one of the edges `boundary`.
    pub open spec fn on_boundary(self, boundary: Seq<EdgeID>, i: IntersectionID) -> bool {
        exists|k: int|
            0 <= k < boundary.len() && (self.edges[#[trigger] boundary[k]].src == i
                || self.edges[boundary[k]].dst == i)
    }

    /// Edge `x` is not one of the edges `boundary` but ends at an
    /// intersection where one of them ends.
    pub open spec fn connects_to(self, boundary: Seq<EdgeID>, x: EdgeID) -> bool {
        &&& !boundary.contains(x)
        &&& exists|i: IntersectionID|
            self.on_boundary(boundary, i) && #[trigger] self.intersections[i].edges.contains(x)
    }

    /// Edge `x` is listed at one of the intersections `at`.
    pub open spec fn listed_at_any(self, at: Seq<IntersectionID>, x: EdgeID) -> bool {
        exists|j: int| 0 <= j < at.len() && self.intersections[#[trigger] at[j]].edges.contains(x)
    }

    /// Some edge among `edges` is motorized.
    pub open spec fn any_motorized(self, edges: Seq<EdgeID>) -> bool {
        exists|k: int| 0 <= k < edges.len() && self.edges[#[trigger] edges[k]].kind is Motorized
    }

    /// Some edge among `edges` is nonmotorized.
    pub open spec fn any_nonmotorized(self, edges: Seq<EdgeID>) -> bool {
        exists|k: int| 0 <= k < edges.len() && self.edges[#[trigger] edges[k]].kind is Nonmotorized
    }

    /// Some edge among `edges` is a parking aisle.
    pub open spec fn any_parking_aisle(self, edges: Seq<EdgeID>) -> bool {
        exists|k: int|
            0 <= k < edges.len() && self.edges[#[trigger] edges[k]].kind.is_parking_aisle(self)
    }

    /// `face` is the face that the graph gives for a polygon with this
    /// boundary, these edges inside and these counts of centroids.
    pub open spec fn is_face(
        self,
        face: FaceView<C>,
        polygon: PolygonView<C>,
        boundary_edges: Seq<EdgeID>,
        internal_edges: Seq<EdgeID>,
        num_buildings: nat,
        num_other_areas: nat,
    ) -> bool {
        &&& face.polygon == polygon
        &&& face.boundary_edges == boundary_edges
        &&& face.internal_edges == inside_only(boundary_edges, internal_edges)
        &&& face.kind == face_kind(
            num_buildings,
            num_other_areas,
            self.any_motorized(boundary_edges),
            self.any_nonmotorized(boundary_edges),
            self.any_parking_aisle(boundary_edges),
        )
        &&& rising_intersections(face.boundary_intersections)
        &&& forall|i: IntersectionID| #[trigger]
            face.boundary_intersections.contains(i) <==> self.on_boundary(boundary_edges, i)
        &&& rising_edges(face.connecting_edges)
        &&& forall|x: EdgeID| #[trigger]
            face.connecting_edges.contains(x) <==> self.connects_to(boundary_edges, x)
    }
}

/// The boundary intersections of a face are live, and they are all the
/// ends of its boundary edges.
pub proof fn lemma_face_boundary<C>(
    g: GraphView<C>,
    face: FaceView<C>,
    polygon: PolygonView<C>,
    boundary_edges: Seq<EdgeID>,
    internal_edges: Seq<EdgeID>,
    num_buildings: nat,
    num_other_areas: nat,
)
    requires
        g.wf(),
        g.is_face(face, polygon, boundary_edges, internal_edges, num_buildings, num_other_areas),
        forall|k: int| 0 <= k < boundary_edges.len() ==> g.edges.contains_key(#[trigger] boundary_edges[k]),
    ensures
        g.ends_among(face.boundary_edges, face.boundary_intersections),
        forall|k: int|
            0 <= k < face.boundary_intersections.len() ==> g.intersections.contains_key(
                #[trigger] face.boundary_intersections[k],
            ),
{
    assert forall|k: int|
        0 <= k < boundary_edges.len() && g.edges.contains_key(
            #[trigger] boundary_edges[k],
        ) implies face.boundary_intersections.contains(g.edges[boundary_edges[k]].src)
        && face.boundary_intersections.contains(g.edges[boundary_edges[k]].dst) by {
        assert(g.on_boundary(boundary_edges, g.edges[boundary_edges[k]].src));
        assert(g.on_boundary(boundary_edges, g.edges[boundary_edges[k]].dst));
    }
    assert forall|k: int| 0 <= k < face.boundary_intersections.len() implies g.intersections.contains_key(
        #[trigger] face.boundary_intersections[k],
    ) by {
        let i = face.boundary_intersections[k];
        assert(face.boundary_intersections.contains(i));
        assert(g.on_boundary(boundary_edges, i));
        let m = choose|m: int|
            0 <= m < boundary_edges.len() && (g.edges[#[trigger] boundary_edges[m]].src == i
                || g.edges[boundary_edges[m]].dst == i);
        assert(g.edge_wf(boundary_edges[m]));
    }
}

/// A graph gives one face only for a polygon with given boundary, inside
/// edges and counts.
pub proof fn lemma_face_unique<C>(
    g: GraphView<C>,
    a: FaceView<C>,
    b: FaceView<C>,
    polygon: PolygonView<C>,
    boundary_edges: Seq<EdgeID>,
    internal_edges: Seq<EdgeID>,
    num_buildings: nat,
    num_other_areas: nat,
)
    requires
        g.is_face(a, polygon, boundary_edges, internal_edges, num_buildings, num_other_areas),
        g.is_face(b, polygon, boundary_edges, internal_edges, num_buildings, num_other_areas),
    ensures
        a == b,
{
    lemma_rising_intersections_unique(a.boundary_intersections, b.boundary_intersections);
    lemma_rising_edges_unique(a.connecting_edges, b.connecting_edges);
}

/// The ends of the boundary edges, and the other edges at those ends, each
/// list by rising id.
pub fn find_connections<C: Copy>(graph: &Graph<C>, boundary_edges: &Vec<EdgeID>) -> (r: (
    Vec<IntersectionID>,
    Vec<EdgeID>,
))
    requires
        graph.inv(),
        forall|k: int|
            0 <= k < boundary_edges@.len() ==> graph@.edges.contains_key(
                #[trigger] boundary_edges@[k],
            ),
    ensures
        rising_intersections(r.0@),
        forall|i: IntersectionID| #[trigger]
            r.0@.contains(i) <==> graph@.on_boundary(boundary_edges@, i),
        rising_edges(r.1@),
        forall|x: EdgeID| #[trigger] r.1@.contains(x) <==> graph@.connects_to(boundary_edges@, x),
{
    let ghost g = graph@;
    let ghost be = boundary_edges@;
    let mut boundary_intersections: Vec<IntersectionID> = Vec::new();
    let mut k: usize = 0;
    while k < boundary_edges.len()
        invariant
            k <= be.len(),
            be == boundary_edges@,
            g == graph@,
            forall|j: int| 0 <= j < be.len() ==> g.edges.contains_key(#[trigger] be[j]),
            rising_intersections(boundary_intersections@),
            forall|i: IntersectionID| #[trigger]
                boundary_intersections@.contains(i) <==> g.on_boundary(be.take(k as int), i),
        decreases be.len() - k,
    {
        let ghost before = boundary_intersections@;
        assert(g.edges.contains_key(be[k as int]));
        let (src, dst) = match graph.edge(boundary_edges[k]) {
            Some(edge) => (edge.src, edge.dst),
            None => (IntersectionID(0), IntersectionID(0)),
        };
        insert_rising_intersection(&mut boundary_intersections, src);
        insert_rising_intersection(&mut boundary_intersections, dst);
        proof {
            let t0 = be.take(k as int);
            let t1 = be.take(k + 1);
            assert forall|i: IntersectionID| #[trigger]
                boundary_intersections@.contains(i) <==> g.on_boundary(t1, i) by {
                if g.on_boundary(t1, i) {
                    let m = choose|m: int|
                        0 <= m < t1.len() && (g.edges[#[trigger] t1[m]].src == i
                            || g.edges[t1[m]].dst == i);
                    if m < k {
                        assert(t0[m] == t1[m]);
                        assert(g.on_boundary(t0, i));
                    }
                }
                if before.contains(i) {
                    let m = choose|m: int|
                        0 <= m < t0.len() && (g.edges[#[trigger] t0[m]].src == i
                            || g.edges[t0[m]].dst == i);
                    assert(t1[m] == t0[m]);
                }
                if i == src || i == dst {
                    assert(t1[k as int] == be[k as int]);
                }
            }
        }
        k = k + 1;
    }
    assert(be.take(be.len() as int) == be);
    let mut connecting_edges: Vec<EdgeID> = Vec::new();
    let ghost bi = boundary_intersections@;
    let mut n: usize = 0;
    while n < boundary_intersections.len()
        invariant
            n <= bi.len(),
            bi == boundary_intersections@,
            be == boundary_edges@,
            g == graph@,
            graph.inv(),
            forall|i: IntersectionID| #[trigger] bi.contains(i) <==> g.on_boundary(be, i),
            forall|j: int| 0 <= j < be.len() ==> g.edges.contains_key(#[trigger] be[j]),
            rising_edges(connecting_edges@),
            forall|x: EdgeID| #[trigger]
                connecting_edges@.contains(x) <==> (!be.contains(x) && g.listed_at_any(
                    bi.take(n as int),
                    x,
                )),
        decreases bi.len() - n,
    {
        let i = boundary_intersections[n];
        let ghost done = bi.take(n as int);
        let ghost next = bi.take(n + 1);
        let ghost list = g.intersections[i].edges;
        proof {
            assert forall|y: EdgeID| #[trigger]
                g.listed_at_any(next, y) <==> (g.listed_at_any(done, y) || list.contains(y)) by {
                if g.listed_at_any(done, y) {
                    let j = choose|j: int|
                        0 <= j < done.len() && g.intersections[#[trigger] done[j]].edges.contains(y);
                    assert(next[j] == done[j]);
                }
                if list.contains(y) {
                    assert(next[n as int] == i);
                }
                if g.listed_at_any(next, y) {
                    let j = choose|j: int|
                        0 <= j < next.len() && g.intersections[#[trigger] next[j]].edges.contains(y);
                    if j < n {
                        assert(done[j] == next[j]);
                    }
                }
            }
        }
        match graph.intersection(i) {
            Some(x) => {
                let mut m: usize = 0;
                assert(list.take(0).len() == 0);
                assert(done == bi.take(n as int));
                while m < x.edges.len()
                    invariant
                        m <= list.len(),
                        list == x.edges@,
                        be == boundary_edges@,
                        rising_edges(connecting_edges@),
                        forall|y: EdgeID| #[trigger]
                            connecting_edges@.contains(y) <==> (!be.contains(y) && (g.listed_at_any(
                                done,
                                y,
                            ) || list.take(m as int).contains(y))),
                    decreases list.len() - m,
                {
                    let y = x.edges[m];
                    proof {
                        assert(list.take(m + 1) == list.take(m as int).push(y));
                        assert forall|z: EdgeID| list.take(m + 1).contains(z) <==> (list.take(
                            m as int,
                        ).contains(z) || z == y) by {
                            crate::seqs::lemma_contains_push(list.take(m as int), y, z);
                        }
                    }
                    let ghost before = connecting_edges@;
                    if !list_contains(boundary_edges, y) {
                        insert_rising_edge(&mut connecting_edges, y);
                    }
                    assert forall|z: EdgeID| #[trigger]
                        connecting_edges@.contains(z) <==> (!be.contains(z) && (g.listed_at_any(
                            done,
                            z,
                        ) || list.take(m + 1).contains(z))) by {
                        assert(before.contains(z) <==> (!be.contains(z) && (g.listed_at_any(done, z)
                            || list.take(m as int).contains(z))));
                    }
                    m = m + 1;
                }
                assert(list.take(list.len() as int) == list);
            },
            None => {
                proof {
                    assert(bi.contains(bi[n as int]));
                    assert(g.on_boundary(be, i));
                    let m = choose|m: int|
                        0 <= m < be.len() && (g.edges[#[trigger] be[m]].src == i
                            || g.edges[be[m]].dst == i);
                    assert(g.edges.contains_key(be[m]));
                    assert(g.edge_wf(be[m]));
                }
            },
        }
        n = n + 1;
    }
    proof {
        assert(bi.take(bi.len() as int) == bi);
        assert forall|x: EdgeID| #[trigger]
            connecting_edges@.contains(x) <==> g.connects_to(be, x) by {
            if g.listed_at_any(bi, x) {
                let j = choose|j: int|
                    0 <= j < bi.len() && g.intersections[#[trigger] bi[j]].edges.contains(x);
                assert(bi.contains(bi[j]));
                assert(g.on_boundary(be, bi[j]));
            }
            if g.connects_to(be, x) {
                let i = choose|i: IntersectionID|
                    g.on_boundary(be, i) && #[trigger] g.intersections[i].edges.contains(x);
                assert(bi.contains(i));
                let j = bi.index_of(i);
                assert(g.intersections[bi[j]].edges.contains(x));
            }
        }
    }
    (boundary_intersections, connecting_edges)
}

/// Whether the boundary has a motorized edge, a nonmotorized edge, and a
/// parking aisle.
fn boundary_flags<C: Copy>(graph: &Graph<C>, boundary_edges: &Vec<EdgeID>) -> (r: (bool, bool, bool))
    requires
        graph.inv(),
        forall|k: int|
            0 <= k < boundary_edges@.len() ==> graph@.edges.contains_key(
                #[trigger] boundary_edges@[k],
            ),
    ensures
        r.0 == graph@.any_motorized(boundary_edges@),
        r.1 == graph@.any_nonmotorized(boundary_edges@),
        r.2 == graph@.any_parking_aisle(boundary_edges@),
{
    let ghost g = graph@;
    let ghost be = boundary_edges@;
    let mut has_motorized = false;
    let mut has_nonmotorized = false;
    let mut has_parking_aisle = false;
    let mut k: usize = 0;
    while k < boundary_edges.len()
        invariant
            k <= be.len(),
            be == boundary_edges@,
            g == graph@,
            graph.inv(),
            forall|j: int| 0 <= j < be.len() ==> g.edges.contains_key(#[trigger] be[j]),
            has_motorized == g.any_motorized(be.take(k as int)),
            has_nonmotorized == g.any_nonmotorized(be.take(k as int)),
            has_parking_aisle == g.any_parking_aisle(be.take(k as int)),
        decreases be.len() - k,
    {
        let ghost t0 = be.take(k as int);
        let ghost t1 = be.take(k + 1);
        assert(g.edges.contains_key(be[k as int]));
        assert(g.edge_wf(be[k as int]));
        let (motorized, aisle) = match graph.edge(boundary_edges[k]) {
            Some(edge) => (!edge.kind.is_nonmotorized(), edge.kind.is_parking_aisle(graph)),
            None => (false, false),
        };
        proof {
            let here = g.edges[be[k as int]].kind;
            assert(t1[k as int] == be[k as int]);
            assert(g.any_motorized(t1) == (g.any_motorized(t0) || here is Motorized)) by {
                if g.any_motorized(t0) {
                    let m = choose|m: int|
                        0 <= m < t0.len() && g.edges[#[trigger] t0[m]].kind is Motorized;
                    assert(t1[m] == t0[m]);
                }
                if g.any_motorized(t1) {
                    let m = choose|m: int|
                        0 <= m < t1.len() && g.edges[#[trigger] t1[m]].kind is Motorized;
                    if m < k {
                        assert(t0[m] == t1[m]);
                    }
                }
            }
            assert(g.any_nonmotorized(t1) == (g.any_nonmotorized(t0) || here is Nonmotorized)) by {
                if g.any_nonmotorized(t0) {
                    let m = choose|m: int|
                        0 <= m < t0.len() && g.edges[#[trigger] t0[m]].kind is Nonmotorized;
                    assert(t1[m] == t0[m]);
                }
                if g.any_nonmotorized(t1) {
                    let m = choose|m: int|
                        0 <= m < t1.len() && g.edges[#[trigger] t1[m]].kind is Nonmotorized;
                    if m < k {
                        assert(t0[m] == t1[m]);
                    }
                }
            }
            assert(g.any_parking_aisle(t1) == (g.any_parking_aisle(t0) || here.is_parking_aisle(
                g,
            ))) by {
                if g.any_parking_aisle(t0) {
                    let m = choose|m: int|
                        0 <= m < t0.len() && g.edges[#[trigger] t0[m]].kind.is_parking_aisle(g);
                    assert(t1[m] == t0[m]);
                }
                if g.any_parking_aisle(t1) {
                    let m = choose|m: int|
                        0 <= m < t1.len() && g.edges[#[trigger] t1[m]].kind.is_parking_aisle(g);
                    if m < k {
                        assert(t0[m] == t1[m]);
                    }
                }
            }
        }
        if motorized {
            has_motorized = true;
        } else {
            has_nonmotorized = true;
        }
        if aisle {
            has_parking_aisle = true;
        }
        k = k + 1;
    }
    assert(be.take(be.len() as int) == be);
    (has_motorized, has_nonmotorized, has_parking_aisle)
}

impl<C: Copy> FaceInput<C> {
    /// Every boundary edge is a live edge of the graph.
    pub open spec fn fits(&self, g: GraphView<C>) -> bool {
        forall|k: int|
            0 <= k < self.boundary_edges@.len() ==> g.edges.contains_key(
                #[trigger] self.boundary_edges@[k],
            )
    }
}

/// The face of one polygon: its kind by what bounds it and what lies inside,
/// and what its boundary connects to.
pub fn make_face<C: Copy>(graph: &Graph<C>, input: &FaceInput<C>) -> (face: Face<C>)
    requires
        graph.inv(),
        input.fits(graph@),
    ensures
        graph@.is_face(
            face@,
            input.polygon@,
            input.boundary_edges@,
            input.internal_edges@,
            input.num_buildings as nat,
            input.num_other_areas as nat,
        ),
{
    let (boundary_intersections, connecting_edges) = find_connections(
        graph,
        &input.boundary_edges,
    );
    let flags = boundary_flags(graph, &input.boundary_edges);
    let kind = classify_face(input.num_buildings, input.num_other_areas, flags.0, flags.1, flags.2);
    let ghost off_boundary = |e: EdgeID| !input.boundary_edges@.contains(e);
    let mut internal_edges: Vec<EdgeID> = Vec::new();
    let mut k: usize = 0;
    while k < input.internal_edges.len()
        invariant
            k <= input.internal_edges@.len(),
            off_boundary == (|e: EdgeID| !input.boundary_edges@.contains(e)),
            internal_edges@ == crate::seqs::keep(input.internal_edges@.take(k as int), off_boundary),
        decreases input.internal_edges@.len() - k,
    {
        let e = input.internal_edges[k];
        assert(input.internal_edges@.take(k + 1).drop_last() == input.internal_edges@.take(
            k as int,
        ));
        if !list_contains(&input.boundary_edges, e) {
            internal_edges.push(e);
        }
        k = k + 1;
    }
    assert(input.internal_edges@.take(input.internal_edges@.len() as int)
        == input.internal_edges@);
    Face {
        polygon: input.polygon.clone(),
        kind,
        boundary_edges: copy_vec(&input.boundary_edges),
        boundary_intersections,
        connecting_edges,
        internal_edges,
    }
}

/// The faces of the decomposition, one for each polygon and in their order:
/// the id of a face is its place in the list.
pub fn make_faces<C: Copy>(graph: &Graph<C>, inputs: &Vec<FaceInput<C>>) -> (faces: Vec<Face<C>>)
    requires
        graph.inv(),
        forall|k: int| 0 <= k < inputs@.len() ==> (#[trigger] inputs@[k]).fits(graph@),
    ensures
        faces@.len() == inputs@.len(),
        forall|k: int|
            0 <= k < inputs@.len() ==> graph@.is_face(
                (#[trigger] faces@[k])@,
                inputs@[k].polygon@,
                inputs@[k].boundary_edges@,
                inputs@[k].internal_edges@,
                inputs@[k].num_buildings as nat,
                inputs@[k].num_other_areas as nat,
            ),
{
    let mut faces: Vec<Face<C>> = Vec::new();
    let mut k: usize = 0;
    while k < inputs.len()
        invariant
            k <= inputs@.len(),
            graph.inv(),
            forall|j: int| 0 <= j < inputs@.len() ==> (#[trigger] inputs@[j]).fits(graph@),
            faces@.len() == k,
            forall|j: int|
                0 <= j < k ==> graph@.is_face(
                    (#[trigger] faces@[j])@,
                    inputs@[j].polygon@,
                    inputs@[j].boundary_edges@,
                    inputs@[j].internal_edges@,
                    inputs@[j].num_buildings as nat,
                    inputs@[j].num_other_areas as nat,
                ),
        decreases inputs@.len() - k,
    {
        assert(inputs@[k as int].fits(graph@));
        let face = make_face(graph, &inputs[k]);
        faces.push(face);
        k = k + 1;
    }
    faces
}

impl<C: Copy> Graph<C> {
    /// Folds each of `olds` that is live and not `new_intersection` into
    /// `new_intersection`, one by one.
    pub fn replace_all(
        &mut self,
        olds: &Vec<IntersectionID>,
        new_intersection: IntersectionID,
        extend_geometry: bool,
    )
        requires
            old(self).inv(),
            old(self)@.intersections.contains_key(new_intersection),
        ensures
            final(self).inv(),
            final(self)@ == old(self)@.replace_all(olds@, new_intersection, extend_geometry),
    {
        let mut k: usize = 0;
        while k < olds.len()
            invariant
                k <= olds@.len(),
                self.inv(),
                self@.intersections.contains_key(new_intersection),
                self@ == old(self)@.replace_all(
                    olds@.take(k as int),
                    new_intersection,
                    extend_geometry,
                ),
            decreases olds@.len() - k,
        {
            assert(olds@.take(k + 1).drop_last() == olds@.take(k as int));
            let i = olds[k];
            if i != new_intersection && self.intersection(i).is_some() {
                proof {
                    lemma_replace_intersection_wf(self@, i, new_intersection, extend_geometry);
                }
                self.replace_intersection(i, new_intersection, extend_geometry);
            }
            k = k + 1;
        }
        assert(olds@.take(olds@.len() as int) == olds@);
    }

    /// Folds a face into one point: removes its boundary edges, makes a
    /// synthetic intersection at `centroid`, and folds every boundary
    /// intersection into it, drawing the surviving edges out to it. Edges and
    /// intersections of the lists that are not live are passed over.
    pub fn collapse_to_centroid(
        &mut self,
        boundary_edges: &Vec<EdgeID>,
        boundary_intersections: &Vec<IntersectionID>,
        centroid: C,
    ) -> (new_intersection: IntersectionID)
        requires
            old(self).inv(),
            old(self)@.intersection_id_counter < usize::MAX,
        ensures
            final(self).inv(),
            final(self)@ == old(self)@.collapse_to_centroid(
                boundary_edges@,
                boundary_intersections@,
                centroid,
            ),
            new_intersection == old(self)@.next_intersection_id(),
    {
        proof {
            crate::rewrite::lemma_remove_edges(self@, boundary_edges@);
        }
        self.remove_edges(boundary_edges);
        let new_intersection = self.create_intersection(centroid, IntersectionProvenance::Synthetic);
        self.replace_all(boundary_intersections, new_intersection, true);
        new_intersection
    }
}

} // verus!
