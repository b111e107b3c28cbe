//! Sidepaths: footways and cycleways that were drawn beside a road, and the
//! rewrite that attributes them to the road and removes them.

use vstd::prelude::*;
use crate::errors::DetectError;
use crate::faces::{Face, FaceKind, FaceView};
use crate::graph::Graph;
use crate::id_set::OriginalEdgeSet;
use crate::ids::{EdgeID, OriginalEdgeID};
use crate::measure::{parallel, roughly_parallel, EdgeMeasure, Measures};
use crate::model::{GraphView, lemma_sweep_wf, lemma_with_field_wf};
use crate::rewrite::lemma_remove_edges;
use crate::seqs::keep;

verus! {

/// What a sidepath face is made of.
pub struct Sidepath {
    /// The footways and cycleways that run along the road.
    pub sidepath_edges: Vec<EdgeID>,
    /// The crossings that come with them.
    pub connector_edges: Vec<EdgeID>,
    /// The roads that run parallel to one of the sidepaths.
    pub road_edges: Vec<EdgeID>,
}

/// The value of a [`Sidepath`].
pub struct SidepathView {
    pub sidepath_edges: Seq<EdgeID>,
    pub connector_edges: Seq<EdgeID>,
    pub road_edges: Seq<EdgeID>,
}

impl View for Sidepath {
    type V = SidepathView;

    open spec fn view(&self) -> SidepathView {
        SidepathView {
            sidepath_edges: self.sidepath_edges@,
            connector_edges: self.connector_edges@,
            road_edges: self.road_edges@,
        }
    }
}

impl Sidepath {
    /// A copy.
    pub fn clone(&self) -> (r: Sidepath)
        ensures
            r@ == self@,
    {
        Sidepath {
            sidepath_edges: crate::graph::copy_vec(&self.sidepath_edges),
            connector_edges: crate::graph::copy_vec(&self.connector_edges),
            road_edges: crate::graph::copy_vec(&self.road_edges),
        }
    }
}

/// The views of a list of sidepaths.
pub open spec fn sidepath_views(plans: Seq<Sidepath>) -> Seq<SidepathView> {
    Seq::new(plans.len(), |i: int| plans[i]@)
}

impl<C> GraphView<C> {
    /// Edge `e` is a way for feet or cycles and no crossing.
    pub open spec fn is_sidepath_piece(self, e: EdgeID) -> bool {
        self.edges[e].kind is Nonmotorized && !self.edges[e].kind.is_crossing(self)
    }

    /// Edge `e` is a crossing for feet or cycles.
    pub open spec fn is_connector_piece(self, e: EdgeID) -> bool {
        self.edges[e].kind is Nonmotorized && self.edges[e].kind.is_crossing(self)
    }

    /// Edge `e` is motorized.
    pub open spec fn is_road_piece(self, e: EdgeID) -> bool {
        self.edges[e].kind is Motorized
    }

    /// Edge `r` is measured, and its bearing is roughly parallel to that of
    /// one of the measured edges `sidepaths`.
    pub open spec fn parallel_to_some(
        self,
        r: EdgeID,
        sidepaths: Seq<EdgeID>,
        m: Map<EdgeID, EdgeMeasure>,
    ) -> bool {
        m.contains_key(r) && exists|k: int|
            0 <= k < sidepaths.len() && m.contains_key(#[trigger] sidepaths[k]) && parallel(
                m[r].bearing,
                m[sidepaths[k]].bearing,
            )
    }

    /// What a face holds as a sidepath, or why it holds none: it must be a
    /// sidepath artifact; its nonmotorized boundary edges are sidepaths or,
    /// if they are crossings, connectors; its roads are the motorized
    /// boundary edges that are roughly parallel to a sidepath; and there
    /// must be a sidepath and a road.
    pub open spec fn sidepath_of(self, face: FaceView<C>, m: Map<EdgeID, EdgeMeasure>) -> Result<
        SidepathView,
        DetectError,
    > {
        let sidepath_edges = keep(face.boundary_edges, |e: EdgeID| self.is_sidepath_piece(e));
        let connector_edges = keep(face.boundary_edges, |e: EdgeID| self.is_connector_piece(e));
        let road_edges = keep(
            keep(face.boundary_edges, |e: EdgeID| self.is_road_piece(e)),
            |r: EdgeID| self.parallel_to_some(r, sidepath_edges, m),
        );
        if face.kind != FaceKind::SidepathArtifact {
            Err(DetectError::NotSidepathArtifact)
        } else if sidepath_edges.len() == 0 || road_edges.len() == 0 {
            Err(DetectError::SidepathOrRoadMissing)
        } else {
            Ok(SidepathView { sidepath_edges, connector_edges, road_edges })
        }
    }

    /// The sidepaths of the faces that hold one, in the order of the faces.
    pub open spec fn sidepath_plans(
        self,
        faces: Seq<FaceView<C>>,
        m: Map<EdgeID, EdgeMeasure>,
    ) -> Seq<SidepathView>
        decreases faces.len(),
    {
        if faces.len() == 0 {
            Seq::<SidepathView>::empty()
        } else {
            let rest = self.sidepath_plans(faces.drop_last(), m);
            match self.sidepath_of(faces.last(), m) {
                Ok(p) => rest.push(p),
                Err(_) => rest,
            }
        }
    }

    /// The original edges that the live nonmotorized edges among `ids` stand for.
    pub open spec fn nonmotorized_members(self, ids: Seq<EdgeID>) -> Set<OriginalEdgeID>
        decreases ids.len(),
    {
        if ids.len() == 0 {
            Set::<OriginalEdgeID>::empty()
        } else {
            let rest = self.nonmotorized_members(ids.drop_last());
            if self.edges.contains_key(ids.last()) {
                rest.union(self.edges[ids.last()].kind.nonmotorized_members())
            } else {
                rest
            }
        }
    }

    /// The graph after each live edge among `roads` took the sidepaths and
    /// connectors into its kind.
    pub open spec fn absorb(
        self,
        roads: Seq<EdgeID>,
        sidepaths: Set<OriginalEdgeID>,
        connectors: Set<OriginalEdgeID>,
    ) -> GraphView<C>
        decreases roads.len(),
    {
        if roads.len() == 0 {
            self
        } else {
            let g = self.absorb(roads.drop_last(), sidepaths, connectors);
            if g.edges.contains_key(roads.last()) {
                g.with_kind(roads.last(), g.edges[roads.last()].kind.absorb(sidepaths, connectors))
            } else {
                g
            }
        }
    }

    /// The graph after the roads of each plan took the sidepaths and
    /// connectors of that plan into their kinds, plan by plan.
    pub open spec fn absorb_plans(self, plans: Seq<SidepathView>) -> GraphView<C>
        decreases plans.len(),
    {
        if plans.len() == 0 {
            self
        } else {
            let g = self.absorb_plans(plans.drop_last());
            let p = plans.last();
            g.absorb(
                p.road_edges,
                g.nonmotorized_members(p.sidepath_edges),
                g.nonmotorized_members(p.connector_edges),
            )
        }
    }

    /// The command that removes the sidepaths: every road of a plan takes
    /// the sidepaths and connectors of that plan into its kind; then the
    /// sidepaths and connectors of all plans go, and with them every
    /// intersection that is left without an edge.
    pub open spec fn remove_all_sidepaths(self, plans: Seq<SidepathView>) -> GraphView<C> {
        self.absorb_plans(plans).remove_edges(pieces_of(plans)).sweep()
    }
}

/// The sidepath and connector edges of the plans, plan by plan.
pub open spec fn pieces_of(plans: Seq<SidepathView>) -> Seq<EdgeID>
    decreases plans.len(),
{
    if plans.len() == 0 {
        Seq::<EdgeID>::empty()
    } else {
        pieces_of(plans.drop_last()) + plans.last().sidepath_edges + plans.last().connector_edges
    }
}

/// The members of nonmotorized edges of a consistent graph are known to it.
pub proof fn lemma_nonmotorized_members<C>(g: GraphView<C>, ids: Seq<EdgeID>)
    requires
        g.wf(),
    ensures
        g.nonmotorized_members(ids).subset_of(g.original_edges.dom()),
    decreases ids.len(),
{
    if ids.len() > 0 {
        lemma_nonmotorized_members(g, ids.drop_last());
        if g.edges.contains_key(ids.last()) {
            assert(g.edge_wf(ids.last()));
        }
    }
}

/// Attributing known original edges to roads keeps the graph consistent and
/// changes nothing but kinds.
pub proof fn lemma_absorb<C>(
    g: GraphView<C>,
    roads: Seq<EdgeID>,
    sidepaths: Set<OriginalEdgeID>,
    connectors: Set<OriginalEdgeID>,
)
    requires
        g.wf(),
        sidepaths.subset_of(g.original_edges.dom()),
        connectors.subset_of(g.original_edges.dom()),
    ensures
        g.absorb(roads, sidepaths, connectors).wf(),
        g.absorb(roads, sidepaths, connectors).original_edges == g.original_edges,
        g.absorb(roads, sidepaths, connectors).edge_id_counter == g.edge_id_counter,
        g.absorb(roads, sidepaths, connectors).intersection_id_counter
            == g.intersection_id_counter,
        g.endpoints_attached() ==> g.absorb(roads, sidepaths, connectors).endpoints_attached(),
    decreases roads.len(),
{
    if roads.len() > 0 {
        let mid = g.absorb(roads.drop_last(), sidepaths, connectors);
        lemma_absorb(g, roads.drop_last(), sidepaths, connectors);
        let r = roads.last();
        if mid.edges.contains_key(r) {
            assert(mid.edge_wf(r));
            let kind = mid.edges[r].kind.absorb(sidepaths, connectors);
            lemma_with_field_wf(mid, r, mid.edges[r].linestring, kind);
        }
    }
}

/// Attributing the sidepaths of all plans keeps the graph consistent.
pub proof fn lemma_absorb_plans<C>(g: GraphView<C>, plans: Seq<SidepathView>)
    requires
        g.wf(),
    ensures
        g.absorb_plans(plans).wf(),
        g.absorb_plans(plans).original_edges == g.original_edges,
        g.absorb_plans(plans).edge_id_counter == g.edge_id_counter,
        g.absorb_plans(plans).intersection_id_counter == g.intersection_id_counter,
        g.endpoints_attached() ==> g.absorb_plans(plans).endpoints_attached(),
    decreases plans.len(),
{
    if plans.len() > 0 {
        let mid = g.absorb_plans(plans.drop_last());
        lemma_absorb_plans(g, plans.drop_last());
        let p = plans.last();
        lemma_nonmotorized_members(mid, p.sidepath_edges);
        lemma_nonmotorized_members(mid, p.connector_edges);
        lemma_absorb(
            mid,
            p.road_edges,
            mid.nonmotorized_members(p.sidepath_edges),
            mid.nonmotorized_members(p.connector_edges),
        );
    }
}

/// Removing the sidepaths keeps the graph consistent and its linestrings
/// attached, and leaves no intersection without an edge.
pub proof fn lemma_remove_all_sidepaths<C>(g: GraphView<C>, plans: Seq<SidepathView>)
    requires
        g.wf(),
    ensures
        g.remove_all_sidepaths(plans).wf(),
        g.remove_all_sidepaths(plans).edge_id_counter == g.edge_id_counter,
        g.remove_all_sidepaths(plans).intersection_id_counter == g.intersection_id_counter,
        g.remove_all_sidepaths(plans).no_empty_intersections(),
        g.endpoints_attached() ==> g.remove_all_sidepaths(plans).endpoints_attached(),
{
    lemma_absorb_plans(g, plans);
    lemma_remove_edges(g.absorb_plans(plans), pieces_of(plans));
    lemma_sweep_wf(g.absorb_plans(plans).remove_edges(pieces_of(plans)));
}

/// The boundary edges of a face that satisfy a test of their kind.
fn boundary_pieces<C: Copy>(graph: &Graph<C>, boundary_edges: &Vec<EdgeID>, which: u8) -> (r: Vec<
    EdgeID,
>)
    requires
        graph.inv(),
        which < 3,
        forall|k: int|
            0 <= k < boundary_edges@.len() ==> graph@.edges.contains_key(
                #[trigger] boundary_edges@[k],
            ),
    ensures
        which == 0 ==> r@ == keep(boundary_edges@, |e: EdgeID| graph@.is_sidepath_piece(e)),
        which == 1 ==> r@ == keep(boundary_edges@, |e: EdgeID| graph@.is_connector_piece(e)),
        which == 2 ==> r@ == keep(boundary_edges@, |e: EdgeID| graph@.is_road_piece(e)),
{
    let ghost g = graph@;
    let ghost be = boundary_edges@;
    let ghost pred = if which == 0 {
        |e: EdgeID| g.is_sidepath_piece(e)
    } else if which == 1 {
        |e: EdgeID| g.is_connector_piece(e)
    } else {
        |e: EdgeID| g.is_road_piece(e)
    };
    let mut out: Vec<EdgeID> = Vec::new();
    let mut k: usize = 0;
    while k < boundary_edges.len()
        invariant
            k <= be.len(),
            be == boundary_edges@,
            g == graph@,
            graph.inv(),
            which < 3,
            forall|j: int| 0 <= j < be.len() ==> g.edges.contains_key(#[trigger] be[j]),
            pred == (if which == 0 {
                |e: EdgeID| g.is_sidepath_piece(e)
            } else if which == 1 {
                |e: EdgeID| g.is_connector_piece(e)
            } else {
                |e: EdgeID| g.is_road_piece(e)
            }),
            out@ == keep(be.take(k as int), pred),
        decreases be.len() - k,
    {
        let e = boundary_edges[k];
        assert(g.edges.contains_key(be[k as int]));
        assert(g.edge_wf(e));
        assert(be.take(k + 1).drop_last() == be.take(k as int));
        let fits = match graph.edge(e) {
            Some(edge) => {
                if which == 2 {
                    !edge.kind.is_nonmotorized()
                } else if edge.kind.is_nonmotorized() {
                    let crossing = edge.kind.is_crossing(graph);
                    if which == 0 {
                        !crossing
                    } else {
                        crossing
                    }
                } else {
                    false
                }
            },
            None => false,
        };
        assert(fits == pred(e));
        if fits {
            out.push(e);
        }
        k = k + 1;
    }
    assert(be.take(be.len() as int) == be);
    out
}

/// Whether `road` is measured and roughly parallel to a measured edge of
/// `sidepaths`.
fn parallel_to_some<C: Copy>(
    graph: &Graph<C>,
    road: EdgeID,
    sidepaths: &Vec<EdgeID>,
    measures: &Measures,
) -> (r: bool)
    ensures
        r == graph@.parallel_to_some(road, sidepaths@, measures@),
{
    let bearing = match measures.get(road) {
        Some(m) => m.bearing,
        None => {
            return false;
        },
    };
    let mut k: usize = 0;
    while k < sidepaths.len()
        invariant
            k <= sidepaths@.len(),
            measures@.contains_key(road),
            bearing == measures@[road].bearing,
            forall|j: int|
                0 <= j < k ==> !(measures@.contains_key(#[trigger] sidepaths@[j]) && parallel(
                    bearing,
                    measures@[sidepaths@[j]].bearing,
                )),
        decreases sidepaths@.len() - k,
    {
        match measures.get(sidepaths[k]) {
            Some(m) => {
                if roughly_parallel(bearing, m.bearing) {
                    return true;
                }
            },
            None => {},
        }
        k = k + 1;
    }
    false
}

/// What a face holds as a sidepath, or why it holds none.
pub fn detect_sidepath<C: Copy>(graph: &Graph<C>, face: &Face<C>, measures: &Measures) -> (r:
    Result<Sidepath, DetectError>)
    requires
        graph.inv(),
        forall|k: int|
            0 <= k < face.boundary_edges@.len() ==> graph@.edges.contains_key(
                #[trigger] face.boundary_edges@[k],
            ),
    ensures
        r is Ok <==> graph@.sidepath_of(face@, measures@) is Ok,
        r is Ok ==> r->Ok_0@ == graph@.sidepath_of(face@, measures@)->Ok_0,
        r is Err ==> r->Err_0 == graph@.sidepath_of(face@, measures@)->Err_0,
{
    if face.kind != FaceKind::SidepathArtifact {
        return Err(DetectError::NotSidepathArtifact);
    }
    let ghost g = graph@;
    let sidepath_edges = boundary_pieces(graph, &face.boundary_edges, 0);
    let connector_edges = boundary_pieces(graph, &face.boundary_edges, 1);
    let candidates = boundary_pieces(graph, &face.boundary_edges, 2);
    let ghost pred = |r: EdgeID| g.parallel_to_some(r, sidepath_edges@, measures@);
    let mut road_edges: Vec<EdgeID> = Vec::new();
    let mut k: usize = 0;
    while k < candidates.len()
        invariant
            k <= candidates@.len(),
            g == graph@,
            pred == (|r: EdgeID| g.parallel_to_some(r, sidepath_edges@, measures@)),
            road_edges@ == keep(candidates@.take(k as int), pred),
        decreases candidates@.len() - k,
    {
        assert(candidates@.take(k + 1).drop_last() == candidates@.take(k as int));
        let road = candidates[k];
        let fits = parallel_to_some(graph, road, &sidepath_edges, measures);
        assert(fits == pred(road));
        if fits {
            road_edges.push(road);
        }
        k = k + 1;
    }
    assert(candidates@.take(candidates@.len() as int) == candidates@);
    if sidepath_edges.len() == 0 || road_edges.len() == 0 {
        return Err(DetectError::SidepathOrRoadMissing);
    }
    Ok(Sidepath { sidepath_edges, connector_edges, road_edges })
}

/// The sidepaths of the faces that hold one, in the order of the faces.
pub fn detect_sidepaths<C: Copy>(graph: &Graph<C>, faces: &Vec<Face<C>>, measures: &Measures) -> (r:
    Vec<Sidepath>)
    requires
        graph.inv(),
        forall|f: int, k: int|
            0 <= f < faces@.len() && 0 <= k < faces@[f].boundary_edges@.len()
                ==> graph@.edges.contains_key(#[trigger] faces@[f].boundary_edges@[k]),
    ensures
        sidepath_views(r@) == graph@.sidepath_plans(
            Seq::new(faces@.len(), |i: int| faces@[i]@),
            measures@,
        ),
{
    let ghost views = Seq::new(faces@.len(), |i: int| faces@[i]@);
    let mut plans: Vec<Sidepath> = Vec::new();
    let mut f: usize = 0;
    while f < faces.len()
        invariant
            f <= faces@.len(),
            graph.inv(),
            views == Seq::new(faces@.len(), |i: int| faces@[i]@),
            forall|f: int, k: int|
                0 <= f < faces@.len() && 0 <= k < faces@[f].boundary_edges@.len()
                    ==> graph@.edges.contains_key(#[trigger] faces@[f].boundary_edges@[k]),
            sidepath_views(plans@) == graph@.sidepath_plans(views.take(f as int), measures@),
        decreases faces@.len() - f,
    {
        assert(views.take(f + 1).drop_last() == views.take(f as int));
        assert(views.take(f + 1).last() == faces@[f as int]@);
        let ghost before = plans@;
        match detect_sidepath(graph, &faces[f], measures) {
            Ok(p) => {
                plans.push(p);
                assert(sidepath_views(plans@) =~= sidepath_views(before).push(p@));
            },
            Err(_) => {},
        }
        f = f + 1;
    }
    assert(views.take(views.len() as int) == views);
    plans
}

impl<C: Copy> Graph<C> {
    /// The original edges that the live nonmotorized edges among `ids` stand for.
    fn nonmotorized_members(&self, ids: &Vec<EdgeID>) -> (r: OriginalEdgeSet)
        requires
            self.inv(),
        ensures
            r.wf(),
            r@ == self@.nonmotorized_members(ids@),
    {
        let mut out = OriginalEdgeSet::new();
        let mut k: usize = 0;
        while k < ids.len()
            invariant
                k <= ids@.len(),
                self.inv(),
                out.wf(),
                out@ == self@.nonmotorized_members(ids@.take(k as int)),
            decreases ids@.len() - k,
        {
            assert(ids@.take(k + 1).drop_last() == ids@.take(k as int));
            match self.edge(ids[k]) {
                Some(edge) => {
                    match &edge.kind {
                        crate::kinds::EdgeKind::Nonmotorized(orig) => {
                            out = out.union(orig);
                        },
                        _ => {
                            assert(out@.union(Set::<OriginalEdgeID>::empty()) =~= out@);
                        },
                    }
                },
                None => {},
            }
            k = k + 1;
        }
        assert(ids@.take(ids@.len() as int) == ids@);
        out
    }

    /// Attributes the sidepaths and connectors to each live edge among `roads`.
    fn absorb(&mut self, roads: &Vec<EdgeID>, sidepaths: &OriginalEdgeSet, connectors: &OriginalEdgeSet)
        requires
            old(self).inv(),
            sidepaths@.subset_of(old(self)@.original_edges.dom()),
            connectors@.subset_of(old(self)@.original_edges.dom()),
        ensures
            final(self).inv(),
            final(self)@ == old(self)@.absorb(roads@, sidepaths@, connectors@),
    {
        let mut k: usize = 0;
        while k < roads.len()
            invariant
                k <= roads@.len(),
                self.inv(),
                self@.original_edges == old(self)@.original_edges,
                sidepaths@.subset_of(old(self)@.original_edges.dom()),
                connectors@.subset_of(old(self)@.original_edges.dom()),
                self@ == old(self)@.absorb(roads@.take(k as int), sidepaths@, connectors@),
            decreases roads@.len() - k,
        {
            assert(roads@.take(k + 1).drop_last() == roads@.take(k as int));
            let r = roads[k];
            let kind = match self.edge(r) {
                Some(edge) => Some(edge.kind.absorb(sidepaths, connectors)),
                None => None,
            };
            match kind {
                Some(kind) => {
                    proof {
                        assert(self@.edge_wf(r));
                    }
                    self.set_kind(r, kind);
                },
                None => {},
            }
            k = k + 1;
        }
        assert(roads@.take(roads@.len() as int) == roads@);
    }

    /// Removes the sidepaths of the plans: every road of a plan takes the
    /// sidepaths and connectors of that plan into its kind; then the
    /// sidepaths and connectors of all plans are removed, an edge that two
    /// plans name only once, and every intersection without an edge is swept.
    pub fn remove_all_sidepaths(&mut self, plans: &Vec<Sidepath>)
        requires
            old(self).inv(),
        ensures
            final(self).inv(),
            final(self)@ == old(self)@.remove_all_sidepaths(sidepath_views(plans@)),
    {
        let ghost views = sidepath_views(plans@);
        let mut remove_edges: Vec<EdgeID> = Vec::new();
        let mut f: usize = 0;
        while f < plans.len()
            invariant
                f <= plans@.len(),
                self.inv(),
                views == sidepath_views(plans@),
                self@ == old(self)@.absorb_plans(views.take(f as int)),
                remove_edges@ == pieces_of(views.take(f as int)),
            decreases plans@.len() - f,
        {
            assert(views.take(f + 1).drop_last() == views.take(f as int));
            assert(views.take(f + 1).last() == plans@[f as int]@);
            let info = &plans[f];
            let original_sidepaths = self.nonmotorized_members(&info.sidepath_edges);
            let original_connectors = self.nonmotorized_members(&info.connector_edges);
            proof {
                lemma_nonmotorized_members(self@, info.sidepath_edges@);
                lemma_nonmotorized_members(self@, info.connector_edges@);
            }
            self.absorb(&info.road_edges, &original_sidepaths, &original_connectors);
            let ghost before = remove_edges@;
            let mut k: usize = 0;
            while k < info.sidepath_edges.len()
                invariant
                    k <= info.sidepath_edges@.len(),
                    remove_edges@ == before + info.sidepath_edges@.take(k as int),
                decreases info.sidepath_edges@.len() - k,
            {
                remove_edges.push(info.sidepath_edges[k]);
                assert(info.sidepath_edges@.take(k + 1) == info.sidepath_edges@.take(k as int).push(
                    info.sidepath_edges@[k as int],
                ));
                assert(remove_edges@ =~= before + info.sidepath_edges@.take(k + 1));
                k = k + 1;
            }
            assert(info.sidepath_edges@.take(info.sidepath_edges@.len() as int)
                == info.sidepath_edges@);
            let ghost middle = remove_edges@;
            let mut k: usize = 0;
            while k < info.connector_edges.len()
                invariant
                    k <= info.connector_edges@.len(),
                    remove_edges@ == middle + info.connector_edges@.take(k as int),
                decreases info.connector_edges@.len() - k,
            {
                remove_edges.push(info.connector_edges[k]);
                assert(info.connector_edges@.take(k + 1) == info.connector_edges@.take(
                    k as int,
                ).push(info.connector_edges@[k as int]));
                assert(remove_edges@ =~= middle + info.connector_edges@.take(k + 1));
                k = k + 1;
            }
            assert(info.connector_edges@.take(info.connector_edges@.len() as int)
                == info.connector_edges@);
            f = f + 1;
        }
        assert(views.take(views.len() as int) == views);
        self.remove_edges(&remove_edges);
        self.remove_all_empty_intersections();
    }
}

} // verus!
