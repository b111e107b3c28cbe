//! The session: the graph as it was first built, the graph as it is now, the
//! commands that lead from the one to the other, and the faces of the
//! current graph.

use vstd::prelude::*;
use crate::dc_collapse::{Splits, SplitsView};
use crate::dog_leg::DogLeg;
use crate::dual_carriageway::nearest_index;
use crate::faces::{make_faces, Face, FaceInput, FaceView};
use crate::graph::{Graph, copy_vec};
use crate::ids::{EdgeID, FaceID, IntersectionID};
use crate::measure::Measures;
use crate::model::GraphView;
use crate::sidepath::{detect_sidepaths, sidepath_views, Sidepath, SidepathView};

verus! {

/// What the user can ask for. A face id means a face of the decomposition
/// that is current when the command is given.
#[derive(Clone, Copy, Debug, PartialEq, Eq, Structural)]
pub enum Command {
    CollapseToCentroid(FaceID),
    CollapseDualCarriageway(FaceID),
    RemoveAllSidepaths,
    RemoveEdge(EdgeID),
    RemoveAllServiceRoads,
    CollapseDegenerateIntersection(IntersectionID),
    CollapseEdge(EdgeID),
}

/// A command together with everything that decides what it does to a graph:
/// what it took from the faces and what was measured for it. A step can be
/// applied again later, to the same graph, with the same result.
pub enum Step<C> {
    CollapseToCentroid {
        face: FaceID,
        boundary_edges: Vec<EdgeID>,
        boundary_intersections: Vec<IntersectionID>,
        centroid: C,
    },
    CollapseDualCarriageway {
        face: FaceID,
        boundary_edges: Vec<EdgeID>,
        boundary_intersections: Vec<IntersectionID>,
        splits: Splits<C>,
        attach: Vec<usize>,
    },
    RemoveAllSidepaths { plans: Vec<Sidepath> },
    RemoveEdge(EdgeID),
    RemoveAllServiceRoads,
    CollapseDegenerateIntersection(IntersectionID),
    CollapseEdge { edge: EdgeID, midpoint: C, dog_leg: Option<DogLeg>, trims: (Option<C>, Option<C>) },
}

/// The value of a [`Step`].
pub enum StepView<C> {
    CollapseToCentroid {
        face: FaceID,
        boundary_edges: Seq<EdgeID>,
        boundary_intersections: Seq<IntersectionID>,
        centroid: C,
    },
    CollapseDualCarriageway {
        face: FaceID,
        boundary_edges: Seq<EdgeID>,
        boundary_intersections: Seq<IntersectionID>,
        splits: SplitsView<C>,
        attach: Seq<usize>,
    },
    RemoveAllSidepaths { plans: Seq<SidepathView> },
    RemoveEdge(EdgeID),
    RemoveAllServiceRoads,
    CollapseDegenerateIntersection(IntersectionID),
    CollapseEdge { edge: EdgeID, midpoint: C, dog_leg: Option<DogLeg>, trims: (Option<C>, Option<C>) },
}

impl<C> View for Step<C> {
    type V = StepView<C>;

    open spec fn view(&self) -> StepView<C> {
        match self {
            Step::CollapseToCentroid { face, boundary_edges, boundary_intersections, centroid } => {
                StepView::CollapseToCentroid {
                    face: *face,
                    boundary_edges: boundary_edges@,
                    boundary_intersections: boundary_intersections@,
                    centroid: *centroid,
                }
            },
            Step::CollapseDualCarriageway {
                face,
                boundary_edges,
                boundary_intersections,
                splits,
                attach,
            } => StepView::CollapseDualCarriageway {
                face: *face,
                boundary_edges: boundary_edges@,
                boundary_intersections: boundary_intersections@,
                splits: splits@,
                attach: attach@,
            },
            Step::RemoveAllSidepaths { plans } => StepView::RemoveAllSidepaths {
                plans: sidepath_views(plans@),
            },
            Step::RemoveEdge(e) => StepView::RemoveEdge(*e),
            Step::RemoveAllServiceRoads => StepView::RemoveAllServiceRoads,
            Step::CollapseDegenerateIntersection(i) => StepView::CollapseDegenerateIntersection(*i),
            Step::CollapseEdge { edge, midpoint, dog_leg, trims } => StepView::CollapseEdge {
                edge: *edge,
                midpoint: *midpoint,
                dog_leg: *dog_leg,
                trims: *trims,
            },
        }
    }
}

/// The views of a list of steps.
pub open spec fn step_views<C>(steps: Seq<Step<C>>) -> Seq<StepView<C>> {
    Seq::new(steps.len(), |i: int| steps[i]@)
}

impl<C> StepView<C> {
    /// The command that the step carries out.
    pub open spec fn command(self) -> Command {
        match self {
            StepView::CollapseToCentroid { face, .. } => Command::CollapseToCentroid(face),
            StepView::CollapseDualCarriageway { face, .. } => Command::CollapseDualCarriageway(face),
            StepView::RemoveAllSidepaths { .. } => Command::RemoveAllSidepaths,
            StepView::RemoveEdge(e) => Command::RemoveEdge(e),
            StepView::RemoveAllServiceRoads => Command::RemoveAllServiceRoads,
            StepView::CollapseDegenerateIntersection(i) => Command::CollapseDegenerateIntersection(
                i,
            ),
            StepView::CollapseEdge { edge, .. } => Command::CollapseEdge(edge),
        }
    }
}

impl<C: Copy> Step<C> {
    /// The command that the step carries out.
    pub fn command(&self) -> (r: Command)
        ensures
            r == self@.command(),
    {
        match self {
            Step::CollapseToCentroid { face, .. } => Command::CollapseToCentroid(*face),
            Step::CollapseDualCarriageway { face, .. } => Command::CollapseDualCarriageway(*face),
            Step::RemoveAllSidepaths { .. } => Command::RemoveAllSidepaths,
            Step::RemoveEdge(e) => Command::RemoveEdge(*e),
            Step::RemoveAllServiceRoads => Command::RemoveAllServiceRoads,
            Step::CollapseDegenerateIntersection(i) => Command::CollapseDegenerateIntersection(*i),
            Step::CollapseEdge { edge, .. } => Command::CollapseEdge(*edge),
        }
    }
}

impl<C> GraphView<C> {
    /// Whether the step can be applied to the graph: what it names is live,
    /// and there are ids left for what it makes. A step that cannot be
    /// applied is passed over.
    pub open spec fn applicable(self, step: StepView<C>) -> bool {
        match step {
            StepView::CollapseToCentroid { .. } => self.intersection_id_counter < usize::MAX,
            StepView::CollapseDualCarriageway {
                boundary_intersections,
                splits,
                attach,
                ..
            } => self.dc_input_ok(splits.lines, splits.new_endpts, boundary_intersections, attach),
            StepView::RemoveAllSidepaths { .. } => true,
            StepView::RemoveEdge(e) => self.edges.contains_key(e),
            StepView::RemoveAllServiceRoads => true,
            StepView::CollapseDegenerateIntersection(i) => self.intersections.contains_key(i)
                && self.edge_id_counter < usize::MAX,
            StepView::CollapseEdge { edge, .. } => self.edges.contains_key(edge)
                && self.intersection_id_counter < usize::MAX,
        }
    }

    /// The graph after the step.
    pub open spec fn apply(self, step: StepView<C>) -> GraphView<C> {
        match step {
            StepView::CollapseToCentroid {
                boundary_edges,
                boundary_intersections,
                centroid,
                ..
            } => self.collapse_to_centroid(boundary_edges, boundary_intersections, centroid),
            StepView::CollapseDualCarriageway {
                boundary_edges,
                boundary_intersections,
                splits,
                attach,
                ..
            } => self.collapse_dual_carriageway(
                boundary_edges,
                boundary_intersections,
                splits.lines,
                splits.new_endpts,
                attach,
            ),
            StepView::RemoveAllSidepaths { plans } => self.remove_all_sidepaths(plans),
            StepView::RemoveEdge(e) => self.remove_edge_and_orphans(e),
            StepView::RemoveAllServiceRoads => self.remove_all_service_roads(),
            StepView::CollapseDegenerateIntersection(i) => self.collapse_degenerate_intersection(
                i,
            ),
            StepView::CollapseEdge { edge, midpoint, dog_leg, trims } => self.collapse_edge(
                edge,
                midpoint,
                dog_leg,
                trims,
            ),
        }
    }

    /// The graph after the step, if the step can be applied; else the graph.
    pub open spec fn step(self, step: StepView<C>) -> GraphView<C> {
        if self.applicable(step) {
            self.apply(step)
        } else {
            self
        }
    }

    /// The graph after the steps, one by one.
    pub open spec fn replay(self, steps: Seq<StepView<C>>) -> GraphView<C>
        decreases steps.len(),
    {
        if steps.len() == 0 {
            self
        } else {
            self.replay(steps.drop_last()).step(steps.last())
        }
    }
}

/// A step keeps a consistent graph consistent.
pub proof fn lemma_step_wf<C>(g: GraphView<C>, step: StepView<C>)
    requires
        g.wf(),
    ensures
        g.step(step).wf(),
{
    if g.applicable(step) {
        match step {
            StepView::CollapseToCentroid {
                boundary_edges,
                boundary_intersections,
                centroid,
                ..
            } => {
                crate::rewrite::lemma_collapse_to_centroid(
                    g,
                    boundary_edges,
                    boundary_intersections,
                    centroid,
                );
            },
            StepView::CollapseDualCarriageway {
                boundary_edges,
                boundary_intersections,
                splits,
                attach,
                ..
            } => {
                crate::dc_collapse::lemma_collapse_dual_carriageway(
                    g,
                    boundary_edges,
                    boundary_intersections,
                    splits.lines,
                    splits.new_endpts,
                    attach,
                );
            },
            StepView::RemoveAllSidepaths { plans } => {
                crate::sidepath::lemma_remove_all_sidepaths(g, plans);
            },
            StepView::RemoveEdge(e) => {
                crate::rewrite::lemma_remove_edge_and_orphans(g, e);
            },
            StepView::RemoveAllServiceRoads => {
                crate::rewrite::lemma_remove_all_service_roads(g);
            },
            StepView::CollapseDegenerateIntersection(i) => {
                crate::rewrite::lemma_collapse_degenerate_intersection(g, i);
            },
            StepView::CollapseEdge { edge, midpoint, dog_leg, trims } => {
                crate::dog_leg::lemma_collapse_edge(g, edge, midpoint, dog_leg, trims);
            },
        }
    }
}

/// Replaying the steps after one more was applied and logged gives the graph
/// after that step.
pub proof fn lemma_replay_push<C>(g: GraphView<C>, steps: Seq<StepView<C>>, step: StepView<C>)
    ensures
        g.replay(steps.push(step)) == g.replay(steps).step(step),
{
    assert(steps.push(step).drop_last() == steps);
}

impl<C: Copy> Step<C> {
    /// A copy of the step.
    pub fn clone(&self) -> (r: Step<C>)
        ensures
            r@ == self@,
    {
        match self {
            Step::CollapseToCentroid { face, boundary_edges, boundary_intersections, centroid } => {
                Step::CollapseToCentroid {
                    face: *face,
                    boundary_edges: copy_vec(boundary_edges),
                    boundary_intersections: copy_vec(boundary_intersections),
                    centroid: *centroid,
                }
            },
            Step::CollapseDualCarriageway {
                face,
                boundary_edges,
                boundary_intersections,
                splits,
                attach,
            } => Step::CollapseDualCarriageway {
                face: *face,
                boundary_edges: copy_vec(boundary_edges),
                boundary_intersections: copy_vec(boundary_intersections),
                splits: splits.clone(),
                attach: copy_vec(attach),
            },
            Step::RemoveAllSidepaths { plans } => {
                let mut out: Vec<Sidepath> = Vec::new();
                let mut k: usize = 0;
                while k < plans.len()
                    invariant
                        k <= plans@.len(),
                        out@.len() == k,
                        forall|j: int| 0 <= j < k ==> (#[trigger] out@[j])@ == plans@[j]@,
                    decreases plans@.len() - k,
                {
                    out.push(plans[k].clone());
                    k = k + 1;
                }
                assert(sidepath_views(out@) =~= sidepath_views(plans@));
                Step::RemoveAllSidepaths { plans: out }
            },
            Step::RemoveEdge(e) => Step::RemoveEdge(*e),
            Step::RemoveAllServiceRoads => Step::RemoveAllServiceRoads,
            Step::CollapseDegenerateIntersection(i) => Step::CollapseDegenerateIntersection(*i),
            Step::CollapseEdge { edge, midpoint, dog_leg, trims } => Step::CollapseEdge {
                edge: *edge,
                midpoint: *midpoint,
                dog_leg: *dog_leg,
                trims: *trims,
            },
        }
    }
}

impl<C: Copy> Graph<C> {
    /// Applies the step, if it can be applied. Returns whether it could.
    pub fn apply(&mut self, step: &Step<C>) -> (applied: bool)
        requires
            old(self).inv(),
        ensures
            final(self).inv(),
            applied == old(self)@.applicable(step@),
            final(self)@ == old(self)@.step(step@),
    {
        match step {
            Step::CollapseToCentroid { boundary_edges, boundary_intersections, centroid, .. } => {
                if !self.counters_leave(1, 0) {
                    return false;
                }
                self.collapse_to_centroid(boundary_edges, boundary_intersections, *centroid);
                true
            },
            Step::CollapseDualCarriageway {
                boundary_edges,
                boundary_intersections,
                splits,
                attach,
                ..
            } => self.collapse_dual_carriageway(
                boundary_edges,
                boundary_intersections,
                splits,
                attach,
            ),
            Step::RemoveAllSidepaths { plans } => {
                self.remove_all_sidepaths(plans);
                true
            },
            Step::RemoveEdge(e) => {
                if self.edge(*e).is_none() {
                    return false;
                }
                self.remove_edge_and_orphans(*e);
                true
            },
            Step::RemoveAllServiceRoads => {
                self.remove_all_service_roads();
                true
            },
            Step::CollapseDegenerateIntersection(i) => {
                if self.intersection(*i).is_none() || !self.counters_leave(0, 1) {
                    return false;
                }
                self.collapse_degenerate_intersection(*i);
                true
            },
            Step::CollapseEdge { edge, midpoint, dog_leg, trims } => {
                if self.edge(*edge).is_none() || !self.counters_leave(1, 0) {
                    return false;
                }
                self.collapse_edge(*edge, *midpoint, *dog_leg, *trims);
                true
            },
        }
    }

    /// The graph after the steps, one by one.
    pub fn replay(&mut self, steps: &Vec<Step<C>>)
        requires
            old(self).inv(),
        ensures
            final(self).inv(),
            final(self)@ == old(self)@.replay(step_views(steps@)),
    {
        let ghost views = step_views(steps@);
        let mut k: usize = 0;
        while k < steps.len()
            invariant
                k <= steps@.len(),
                views == step_views(steps@),
                self.inv(),
                self@ == old(self)@.replay(views.take(k as int)),
            decreases steps@.len() - k,
        {
            assert(views.take(k + 1).drop_last() == views.take(k as int));
            assert(views.take(k + 1).last() == steps@[k as int]@);
            self.apply(&steps[k]);
            k = k + 1;
        }
        assert(views.take(views.len() as int) == views);
    }
}

/// The indices of the nearest end points, one for each list of distance keys.
pub open spec fn nearest_all(keys: Seq<Vec<u64>>) -> Seq<usize> {
    Seq::new(keys.len(), |k: int| crate::dual_carriageway::first_least(keys[k]@) as usize)
}

/// The steps that dissolve the junctions, one for each.
pub open spec fn dissolve_steps<C>(junctions: Seq<IntersectionID>) -> Seq<StepView<C>> {
    Seq::new(junctions.len(), |k: int| StepView::CollapseDegenerateIntersection(junctions[k]))
}

/// The views of a list of faces.
pub open spec fn face_views<C>(faces: Seq<Face<C>>) -> Seq<FaceView<C>> {
    Seq::new(faces.len(), |i: int| faces[i]@)
}

/// A session of simplifying one street network.
pub struct RoadBundler<C> {
    original_graph: Graph<C>,
    commands: Vec<Step<C>>,
    graph: Graph<C>,
    faces: Vec<Face<C>>,
}

impl<C: Copy> RoadBundler<C> {
    /// The graph as it was first built.
    pub closed spec fn original(&self) -> GraphView<C> {
        self.original_graph@
    }

    /// The graph as it is now.
    pub closed spec fn current(&self) -> GraphView<C> {
        self.graph@
    }

    /// The steps that were taken, oldest first.
    pub closed spec fn log(&self) -> Seq<StepView<C>> {
        step_views(self.commands@)
    }

    /// The faces of the current graph, if they were set since it last changed.
    pub closed spec fn face_list(&self) -> Seq<FaceView<C>> {
        face_views(self.faces@)
    }

    /// Every boundary edge of every face is a live edge of the current graph.
    pub closed spec fn faces_fit(&self) -> bool {
        forall|f: int, k: int|
            0 <= f < self.faces@.len() && 0 <= k < self.faces@[f].boundary_edges@.len()
                ==> self.graph@.edges.contains_key(#[trigger] self.faces@[f].boundary_edges@[k])
    }

    /// The invariant of the session: both graphs are in order, the faces fit
    /// the current graph, and the current graph is what replaying the log on
    /// the original gives.
    pub closed spec fn inv(&self) -> bool {
        &&& self.original_graph.inv()
        &&& self.graph.inv()
        &&& self.faces_fit()
        &&& self.graph@ == self.original_graph@.replay(step_views(self.commands@))
    }

    /// What the invariant says of the graphs.
    pub proof fn lemma_inv(&self)
        requires
            self.inv(),
        ensures
            self.original().wf(),
            self.current().wf(),
            self.current() == self.original().replay(self.log()),
    {
    }

    /// The session after the step `sv` was issued: the step is in the log,
    /// the current graph has taken it if it could, the faces are dropped, and
    /// the original is as it was.
    pub open spec fn stepped(&self, before: &RoadBundler<C>, sv: StepView<C>) -> bool {
        &&& self.inv()
        &&& self.original() == before.original()
        &&& self.current() == before.current().step(sv)
        &&& self.log() == before.log().push(sv)
        &&& self.face_list() == Seq::<FaceView<C>>::empty()
    }

    /// The session with nothing changed.
    pub open spec fn same(&self, before: &RoadBundler<C>) -> bool {
        &&& self.inv()
        &&& self.original() == before.original()
        &&& self.current() == before.current()
        &&& self.log() == before.log()
        &&& self.face_list() == before.face_list()
    }

    /// A session on a graph, with no step taken and no faces set.
    pub fn new(graph: Graph<C>) -> (r: RoadBundler<C>)
        requires
            graph.inv(),
        ensures
            r.inv(),
            r.original() == graph@,
            r.current() == graph@,
            r.log() == Seq::<StepView<C>>::empty(),
            r.face_list() == Seq::<FaceView<C>>::empty(),
    {
        let r = RoadBundler {
            original_graph: graph.clone(),
            commands: Vec::new(),
            graph,
            faces: Vec::new(),
        };
        assert(r.log() =~= Seq::<StepView<C>>::empty());
        assert(r.face_list() =~= Seq::<FaceView<C>>::empty());
        r
    }

    /// The current graph.
    pub fn graph(&self) -> (g: &Graph<C>)
        ensures
            g@ == self.current(),
            self.inv() ==> g.inv(),
    {
        &self.graph
    }

    /// The graph as it was first built.
    pub fn original_graph(&self) -> (g: &Graph<C>)
        ensures
            g@ == self.original(),
            self.inv() ==> g.inv(),
    {
        &self.original_graph
    }

    /// The faces that were last set.
    pub fn faces(&self) -> (f: &Vec<Face<C>>)
        ensures
            face_views(f@) == self.face_list(),
    {
        &self.faces
    }

    /// The steps that were taken, oldest first.
    pub fn commands(&self) -> (c: &Vec<Step<C>>)
        ensures
            step_views(c@) == self.log(),
    {
        &self.commands
    }

    /// Sets the faces of the current graph from what the caller found out
    /// about each polygon. If a boundary edge is named that is not live,
    /// nothing is set and the answer is no.
    pub fn set_faces(&mut self, inputs: &Vec<FaceInput<C>>) -> (fit: bool)
        requires
            old(self).inv(),
        ensures
            final(self).inv(),
            final(self).original() == old(self).original(),
            final(self).current() == old(self).current(),
            final(self).log() == old(self).log(),
            fit == (forall|k: int|
                0 <= k < inputs@.len() ==> (#[trigger] inputs@[k]).fits(old(self).current())),
            !fit ==> final(self).face_list() == old(self).face_list(),
            fit ==> final(self).face_list().len() == inputs@.len(),
            fit ==> forall|k: int|
                0 <= k < inputs@.len() ==> old(self).current().is_face(
                    #[trigger] final(self).face_list()[k],
                    inputs@[k].polygon@,
                    inputs@[k].boundary_edges@,
                    inputs@[k].internal_edges@,
                    inputs@[k].num_buildings as nat,
                    inputs@[k].num_other_areas as nat,
                ),
    {
        let mut k: usize = 0;
        while k < inputs.len()
            invariant
                k <= inputs@.len(),
                *self == *old(self),
                self.inv(),
                forall|j: int| 0 <= j < k ==> (#[trigger] inputs@[j]).fits(self.graph@),
            decreases inputs@.len() - k,
        {
            let input = &inputs[k];
            let mut m: usize = 0;
            while m < input.boundary_edges.len()
                invariant
                    m <= input.boundary_edges@.len(),
                    input == inputs@[k as int],
                    k < inputs@.len(),
                    *self == *old(self),
                    self.inv(),
                    forall|j: int|
                        0 <= j < m ==> self.graph@.edges.contains_key(
                            #[trigger] input.boundary_edges@[j],
                        ),
                decreases input.boundary_edges@.len() - m,
            {
                if self.graph.edge(input.boundary_edges[m]).is_none() {
                    assert(!inputs@[k as int].fits(self.graph@));
                    return false;
                }
                m = m + 1;
            }
            k = k + 1;
        }
        let faces = make_faces(&self.graph, inputs);
        proof {
            assert forall|f: int, k: int|
                0 <= f < faces@.len() && 0 <= k < faces@[f].boundary_edges@.len() implies self.graph@.edges.contains_key(
                #[trigger] faces@[f].boundary_edges@[k],
            ) by {
                assert(inputs@[f].fits(self.graph@));
                assert(self.graph@.is_face(
                    faces@[f]@,
                    inputs@[f].polygon@,
                    inputs@[f].boundary_edges@,
                    inputs@[f].internal_edges@,
                    inputs@[f].num_buildings as nat,
                    inputs@[f].num_other_areas as nat,
                ));
                assert(faces@[f].boundary_edges@[k] == inputs@[f].boundary_edges@[k]);
            }
        }
        self.faces = faces;
        proof {
            assert forall|k: int| 0 <= k < inputs@.len() implies old(self).current().is_face(
                #[trigger] self.face_list()[k],
                inputs@[k].polygon@,
                inputs@[k].boundary_edges@,
                inputs@[k].internal_edges@,
                inputs@[k].num_buildings as nat,
                inputs@[k].num_other_areas as nat,
            ) by {
                assert(self.face_list()[k] == self.faces@[k]@);
            }
        }
        true
    }

    /// Takes a step: logs it, applies it to the current graph if it can be
    /// applied, and drops the faces, which belong to the graph as it was.
    /// Returns whether the step could be applied.
    pub fn apply_cmd(&mut self, step: Step<C>) -> (applied: bool)
        requires
            old(self).inv(),
        ensures
            final(self).stepped(old(self), step@),
            applied == old(self).current().applicable(step@),
    {
        let ghost sv = step@;
        let ghost before = step_views(self.commands@);
        let applied = self.graph.apply(&step);
        self.commands.push(step);
        self.faces = Vec::new();
        proof {
            assert(step_views(self.commands@) =~= before.push(sv));
            lemma_replay_push(self.original_graph@, before, sv);
            assert(self.face_list() =~= Seq::<FaceView<C>>::empty());
        }
        applied
    }

    /// Takes back the last step: the log loses it, and the current graph is
    /// what replaying the rest of the log on the original gives. With an
    /// empty log nothing changes but that the faces are dropped.
    pub fn undo(&mut self)
        requires
            old(self).inv(),
        ensures
            final(self).inv(),
            final(self).original() == old(self).original(),
            final(self).log() == (if old(self).log().len() > 0 {
                old(self).log().drop_last()
            } else {
                old(self).log()
            }),
            final(self).current() == final(self).original().replay(final(self).log()),
            final(self).face_list() == Seq::<FaceView<C>>::empty(),
    {
        let ghost before = step_views(self.commands@);
        match self.commands.pop() {
            Some(_) => {
                assert(step_views(self.commands@) =~= before.drop_last());
            },
            None => {
                assert(step_views(self.commands@) =~= before);
            },
        }
        self.graph = self.original_graph.clone();
        self.faces = Vec::new();
        self.graph.replay(&self.commands);
        proof {
            assert(self.face_list() =~= Seq::<FaceView<C>>::empty());
        }
    }

    /// The command that removes an edge, and each of its ends that is left
    /// without an edge.
    pub fn remove_edge(&mut self, id: EdgeID) -> (applied: bool)
        requires
            old(self).inv(),
        ensures
            final(self).stepped(old(self), StepView::RemoveEdge(id)),
            applied == old(self).current().edges.contains_key(id),
    {
        self.apply_cmd(Step::RemoveEdge(id))
    }

    /// The command that removes every service road, and every intersection
    /// that is left without an edge.
    pub fn remove_all_service_roads(&mut self) -> (applied: bool)
        requires
            old(self).inv(),
        ensures
            final(self).stepped(old(self), StepView::RemoveAllServiceRoads),
            applied,
    {
        self.apply_cmd(Step::RemoveAllServiceRoads)
    }

    /// The command that dissolves a junction of exactly two edges whose
    /// kinds combine. On any other live junction it changes nothing.
    pub fn collapse_degenerate_intersection(&mut self, id: IntersectionID) -> (applied: bool)
        requires
            old(self).inv(),
        ensures
            final(self).stepped(old(self), StepView::CollapseDegenerateIntersection(id)),
            applied == old(self).current().applicable(
                StepView::<C>::CollapseDegenerateIntersection(id),
            ),
    {
        self.apply_cmd(Step::CollapseDegenerateIntersection(id))
    }

    /// The command that folds a face into its centroid, which the caller has
    /// measured. Without a face of that id nothing happens.
    pub fn collapse_to_centroid(&mut self, id: FaceID, centroid: C) -> (applied: bool)
        requires
            old(self).inv(),
        ensures
            id.0 >= old(self).face_list().len() ==> !applied && final(self).same(old(self)),
            id.0 < old(self).face_list().len() ==> {
                let face = old(self).face_list()[id.0 as int];
                let sv = StepView::CollapseToCentroid {
                    face: id,
                    boundary_edges: face.boundary_edges,
                    boundary_intersections: face.boundary_intersections,
                    centroid,
                };
                final(self).stepped(old(self), sv) && applied == old(self).current().applicable(sv)
            },
    {
        if id.0 >= self.faces.len() {
            return false;
        }
        let face = &self.faces[id.0];
        let step = Step::CollapseToCentroid {
            face: id,
            boundary_edges: copy_vec(&face.boundary_edges),
            boundary_intersections: copy_vec(&face.boundary_intersections),
            centroid,
        };
        self.apply_cmd(step)
    }

    /// The command that replaces the dual carriageway on the boundary of a
    /// face by its centre line. The caller has measured the edges, has cut
    /// the centre line into `splits`, and gives for each boundary
    /// intersection of the face a key for its distance to each end point of
    /// the pieces; each is joined to the nearest, the first of equally near
    /// ones. Nothing happens without a face of that id, if the face holds no
    /// dual carriageway, or if there is not a key for every boundary
    /// intersection and end point.
    pub fn collapse_dual_carriageway(
        &mut self,
        id: FaceID,
        measures: &Measures,
        splits: Splits<C>,
        distance_keys: &Vec<Vec<u64>>,
    ) -> (applied: bool)
        requires
            old(self).inv(),
        ensures
            !old(self).dc_ready(id, measures@, distance_keys@) ==> !applied && final(self).same(
                old(self),
            ),
            old(self).dc_ready(id, measures@, distance_keys@) ==> {
                let face = old(self).face_list()[id.0 as int];
                let sv = StepView::CollapseDualCarriageway {
                    face: id,
                    boundary_edges: face.boundary_edges,
                    boundary_intersections: face.boundary_intersections,
                    splits: splits@,
                    attach: nearest_all(distance_keys@),
                };
                final(self).stepped(old(self), sv) && applied == old(self).current().applicable(sv)
            },
    {
        if id.0 >= self.faces.len() {
            return false;
        }
        let face = &self.faces[id.0];
        if distance_keys.len() != face.boundary_intersections.len() {
            return false;
        }
        match crate::dual_carriageway::DualCarriageway::maybe_new(&self.graph, face, measures) {
            Ok(_) => {},
            Err(_) => {
                return false;
            },
        }
        let mut attach: Vec<usize> = Vec::new();
        let mut k: usize = 0;
        while k < distance_keys.len()
            invariant
                k <= distance_keys@.len(),
                attach@.len() == k,
                *self == *old(self),
                self.inv(),
                forall|j: int| 0 <= j < k ==> (#[trigger] distance_keys@[j])@.len() > 0,
                forall|j: int|
                    0 <= j < k ==> (#[trigger] attach@[j]) == crate::dual_carriageway::first_least(
                        distance_keys@[j]@,
                    ),
            decreases distance_keys@.len() - k,
        {
            if distance_keys[k].len() == 0 {
                return false;
            }
            attach.push(nearest_index(&distance_keys[k]));
            k = k + 1;
        }
        assert(attach@ =~= nearest_all(distance_keys@));
        let step = Step::CollapseDualCarriageway {
            face: id,
            boundary_edges: copy_vec(&face.boundary_edges),
            boundary_intersections: copy_vec(&face.boundary_intersections),
            splits,
            attach,
        };
        self.apply_cmd(step)
    }

    /// Whether the command to collapse a dual carriageway has what it needs:
    /// a face of that id which holds a dual carriageway by these
    /// measurements, and for each of its boundary intersections a list of
    /// distance keys that is not empty.
    pub open spec fn dc_ready(
        &self,
        id: FaceID,
        m: Map<EdgeID, crate::measure::EdgeMeasure>,
        keys: Seq<Vec<u64>>,
    ) -> bool {
        &&& id.0 < self.face_list().len()
        &&& keys.len() == self.face_list()[id.0 as int].boundary_intersections.len()
        &&& self.current().dual_carriageway(self.face_list()[id.0 as int], m) is Ok
        &&& forall|k: int| 0 <= k < keys.len() ==> (#[trigger] keys[k])@.len() > 0
    }

    /// The command that removes the sidepaths of all faces that hold one by
    /// these measurements, attributing them to the roads beside them.
    pub fn remove_all_sidepaths(&mut self, measures: &Measures) -> (applied: bool)
        requires
            old(self).inv(),
        ensures
            final(self).stepped(
                old(self),
                StepView::RemoveAllSidepaths {
                    plans: old(self).current().sidepath_plans(old(self).face_list(), measures@),
                },
            ),
            applied,
    {
        let plans = detect_sidepaths(&self.graph, &self.faces, measures);
        self.apply_cmd(Step::RemoveAllSidepaths { plans })
    }

    /// Whether a live edge is a dog-leg by these measurements, and between
    /// which side roads.
    pub fn is_dog_leg(&self, e: EdgeID, measures: &Measures) -> (r: Option<DogLeg>)
        requires
            self.inv(),
            self.current().edges.contains_key(e),
        ensures
            r == self.current().dog_leg(e, measures@),
    {
        self.graph.is_dog_leg(e, measures)
    }

    /// The command that folds an edge into its midpoint, which the caller
    /// has measured. If the edge is a dog-leg by these measurements, its
    /// side roads are trimmed back to `trims` and joined to the midpoint.
    /// Without a live edge of that id nothing happens.
    pub fn collapse_edge(
        &mut self,
        collapse_e: EdgeID,
        midpt: C,
        measures: &Measures,
        trims: (Option<C>, Option<C>),
    ) -> (applied: bool)
        requires
            old(self).inv(),
        ensures
            !old(self).current().edges.contains_key(collapse_e) ==> !applied && final(self).same(
                old(self),
            ),
            old(self).current().edges.contains_key(collapse_e) ==> {
                let sv = StepView::CollapseEdge {
                    edge: collapse_e,
                    midpoint: midpt,
                    dog_leg: old(self).current().dog_leg(collapse_e, measures@),
                    trims,
                };
                final(self).stepped(old(self), sv) && applied == old(self).current().applicable(sv)
            },
    {
        if self.graph.edge(collapse_e).is_none() {
            return false;
        }
        let dog_leg = self.graph.is_dog_leg(collapse_e, measures);
        self.apply_cmd(Step::CollapseEdge { edge: collapse_e, midpoint: midpt, dog_leg, trims })
    }

    /// The live edge of least id that is a dog-leg by these measurements.
    pub fn next_dog_leg(&self, measures: &Measures) -> (r: Option<EdgeID>)
        requires
            self.inv(),
        ensures
            match r {
                Some(found) => {
                    &&& self.current().edges.contains_key(found)
                    &&& self.current().dog_leg(found, measures@) is Some
                    &&& forall|e: EdgeID|
                        e.0 < found.0 && #[trigger] self.current().edges.contains_key(e)
                            ==> self.current().dog_leg(e, measures@) is None
                },
                None => forall|e: EdgeID| #[trigger]
                    self.current().edges.contains_key(e) ==> self.current().dog_leg(e, measures@)
                        is None,
            },
    {
        let bound = self.graph.edge_id_bound();
        let mut k: usize = 0;
        while k < bound
            invariant
                k <= bound,
                self.graph.inv(),
                forall|e: EdgeID|
                    e.0 < k && #[trigger] self.graph@.edges.contains_key(e) ==> self.graph@.dog_leg(
                        e,
                        measures@,
                    ) is None,
            decreases bound - k,
        {
            if self.graph.edge(EdgeID(k)).is_some() {
                if self.graph.is_dog_leg(EdgeID(k), measures).is_some() {
                    return Some(EdgeID(k));
                }
            }
            k = k + 1;
        }
        None
    }

    /// The first face from place `from` on that holds a dual carriageway by
    /// these measurements.
    pub fn next_dual_carriageway(&self, measures: &Measures, from: usize) -> (r: Option<FaceID>)
        requires
            self.inv(),
        ensures
            match r {
                Some(found) => {
                    &&& from <= found.0 < self.face_list().len()
                    &&& self.current().dual_carriageway(
                        self.face_list()[found.0 as int],
                        measures@,
                    ) is Ok
                    &&& forall|f: int|
                        from <= f < found.0 ==> self.current().dual_carriageway(
                            #[trigger] self.face_list()[f],
                            measures@,
                        ) is Err
                },
                None => forall|f: int|
                    from <= f < self.face_list().len() ==> self.current().dual_carriageway(
                        #[trigger] self.face_list()[f],
                        measures@,
                    ) is Err,
            },
    {
        let mut f: usize = from;
        while f < self.faces.len()
            invariant
                from <= f,
                self.graph.inv(),
                self.faces_fit(),
                forall|j: int|
                    from <= j < f && j < self.faces@.len() ==> self.graph@.dual_carriageway(
                        #[trigger] face_views(self.faces@)[j],
                        measures@,
                    ) is Err,
            decreases self.faces@.len() - f,
        {
            match crate::dual_carriageway::DualCarriageway::maybe_new(
                &self.graph,
                &self.faces[f],
                measures,
            ) {
                Ok(_) => {
                    assert(face_views(self.faces@)[f as int] == self.faces@[f as int]@);
                    return Some(FaceID(f));
                },
                Err(_) => {
                    assert(face_views(self.faces@)[f as int] == self.faces@[f as int]@);
                },
            }
            f = f + 1;
        }
        None
    }

    /// The live junctions with exactly two edges, by rising id.
    pub fn degenerate_intersections(&self) -> (r: Vec<IntersectionID>)
        requires
            self.inv(),
        ensures
            crate::faces::rising_intersections(r@),
            forall|i: IntersectionID| #[trigger]
                r@.contains(i) <==> (self.current().intersections.contains_key(i)
                    && self.current().intersections[i].edges.len() == 2),
    {
        let bound = self.graph.intersection_id_bound();
        let mut out: Vec<IntersectionID> = Vec::new();
        let mut k: usize = 0;
        while k < bound
            invariant
                k <= bound,
                crate::faces::rising_intersections(out@),
                forall|j: int| 0 <= j < out@.len() ==> (#[trigger] out@[j]).0 < k,
                forall|i: IntersectionID| #[trigger]
                    out@.contains(i) <==> (i.0 < k && self.graph@.intersections.contains_key(i)
                        && self.graph@.intersections[i].edges.len() == 2),
            decreases bound - k,
        {
            let two = match self.graph.intersection(IntersectionID(k)) {
                Some(x) => x.edges.len() == 2,
                None => false,
            };
            let ghost before = out@;
            if two {
                out.push(IntersectionID(k));
            }
            proof {
                assert forall|i: IntersectionID| #[trigger]
                    out@.contains(i) <==> (i.0 < k + 1 && self.graph@.intersections.contains_key(i)
                        && self.graph@.intersections[i].edges.len() == 2) by {
                    if two {
                        crate::seqs::lemma_contains_push(before, IntersectionID(k), i);
                    }
                    assert(before.contains(i) <==> (i.0 < k
                        && self.graph@.intersections.contains_key(i)
                        && self.graph@.intersections[i].edges.len() == 2));
                }
            }
            k = k + 1;
        }
        out
    }

    /// The command that dissolves every junction that has exactly two edges
    /// when the command is given, by rising id. Returns how many there were.
    pub fn collapse_all_degenerate_intersections(&mut self) -> (count: usize)
        requires
            old(self).inv(),
        ensures
            final(self).inv(),
            final(self).original() == old(self).original(),
            exists|junctions: Seq<IntersectionID>|
                {
                    &&& crate::faces::rising_intersections(junctions)
                    &&& forall|i: IntersectionID| #[trigger]
                        junctions.contains(i) <==> (old(self).current().intersections.contains_key(
                            i,
                        ) && old(self).current().intersections[i].edges.len() == 2)
                    &&& count == junctions.len()
                    &&& final(self).log() == old(self).log() + dissolve_steps::<C>(junctions)
                },
            final(self).current() == final(self).original().replay(final(self).log()),
    {
        let to_merge = self.degenerate_intersections();
        let ghost start = step_views(self.commands@);
        let mut k: usize = 0;
        while k < to_merge.len()
            invariant
                k <= to_merge@.len(),
                self.inv(),
                self.original() == old(self).original(),
                self.log() == start + dissolve_steps::<C>(to_merge@.take(k as int)),
            decreases to_merge@.len() - k,
        {
            self.collapse_degenerate_intersection(to_merge[k]);
            proof {
                let a = dissolve_steps::<C>(to_merge@.take(k as int));
                let b = dissolve_steps::<C>(to_merge@.take(k + 1));
                assert(b =~= a.push(StepView::CollapseDegenerateIntersection(to_merge@[k as int])));
                assert(self.log() =~= start + b);
            }
            k = k + 1;
        }
        assert(to_merge@.take(to_merge@.len() as int) == to_merge@);
        to_merge.len()
    }
}

} // verus!
