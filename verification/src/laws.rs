//! What holds of every graph that the commands can reach.

use vstd::prelude::*;
use crate::model::GraphView;
use crate::session::{lemma_step_wf, RoadBundler, StepView};

verus! {

/// Replaying steps on a consistent graph gives a consistent graph: every
/// live edge is listed at both of its ends, and every intersection lists
/// only live edges that end at it.
pub proof fn lemma_replay_wf<C>(g: GraphView<C>, steps: Seq<StepView<C>>)
    requires
        g.wf(),
    ensures
        g.replay(steps).wf(),
    decreases steps.len(),
{
    if steps.len() > 0 {
        lemma_replay_wf(g, steps.drop_last());
        lemma_step_wf(g.replay(steps.drop_last()), steps.last());
    }
}

/// Whether a step keeps every intersection in use. A step that removes
/// edges sweeps behind it and always does. Folding a face into its centroid
/// does if the boundary intersections are all the ends of the boundary
/// edges and an edge survives at one of them; folding an edge into its
/// midpoint does if another edge ends where it ends; replacing a dual
/// carriageway does if the boundary intersections are live and are all the
/// ends of the boundary edges.
pub open spec fn keeps_in_use<C>(g: GraphView<C>, step: StepView<C>) -> bool {
    match step {
        StepView::CollapseToCentroid { boundary_edges, boundary_intersections, .. } => {
            g.ends_among(boundary_edges, boundary_intersections) && g.survivor_at(
                boundary_edges,
                boundary_intersections,
            )
        },
        StepView::CollapseEdge { edge, .. } => g.survivor_at(
            seq![edge],
            seq![g.edges[edge].src, g.edges[edge].dst],
        ),
        StepView::CollapseDualCarriageway { boundary_edges, boundary_intersections, .. } => {
            &&& g.ends_among(boundary_edges, boundary_intersections)
            &&& forall|k: int|
                0 <= k < boundary_intersections.len() ==> g.intersections.contains_key(
                    #[trigger] boundary_intersections[k],
                )
        },
        _ => true,
    }
}

/// Such a step leaves no intersection without an edge, if there was none
/// before.
pub proof fn lemma_step_leaves_none_empty<C>(g: GraphView<C>, step: StepView<C>)
    requires
        g.wf(),
        g.no_empty_intersections(),
        keeps_in_use(g, step),
    ensures
        g.step(step).no_empty_intersections(),
{
    if g.applicable(step) {
        match step {
            StepView::CollapseToCentroid {
                boundary_edges,
                boundary_intersections,
                centroid,
                ..
            } => {
                crate::rewrite::lemma_fold_leaves_none_empty(
                    g,
                    boundary_edges,
                    boundary_intersections,
                    centroid,
                    true,
                );
            },
            StepView::CollapseDualCarriageway {
                boundary_edges,
                boundary_intersections,
                splits,
                attach,
                ..
            } => {
                crate::dc_collapse::lemma_collapse_dual_carriageway_none_empty(
                    g,
                    boundary_edges,
                    boundary_intersections,
                    splits.lines,
                    splits.new_endpts,
                    attach,
                );
            },
            StepView::RemoveAllSidepaths { plans } => {
                crate::sidepath::lemma_remove_all_sidepaths(g, plans);
            },
            StepView::RemoveEdge(e) => {
                crate::rewrite::lemma_remove_edge_and_orphans(g, e);
            },
            StepView::RemoveAllServiceRoads => {
                crate::rewrite::lemma_remove_all_service_roads(g);
            },
            StepView::CollapseDegenerateIntersection(i) => {
                crate::rewrite::lemma_collapse_degenerate_intersection(g, i);
            },
            StepView::CollapseEdge { edge, midpoint, dog_leg, trims } => {
                let ends = seq![g.edges[edge].src, g.edges[edge].dst];
                let only = seq![edge];
                assert(g.edge_wf(edge));
                assert(g.ends_among(only, ends)) by {
                    assert(ends[0] == g.edges[edge].src);
                    assert(ends[1] == g.edges[edge].dst);
                }
                assert(only.drop_last() =~= Seq::<crate::ids::EdgeID>::empty());
                assert(g.remove_edges(only.drop_last()) == g);
                assert(only.last() == edge);
                assert(g.remove_edges(only) == g.remove_edge(edge));
                crate::rewrite::lemma_fold_leaves_none_empty(g, only, ends, midpoint, dog_leg is None);
                let folded = g.fold_into_point(only, ends, midpoint, dog_leg is None);
                match dog_leg {
                    None => {},
                    Some(d) => {
                        crate::dog_leg::lemma_collapse_edge(g, edge, midpoint, dog_leg, trims);
                        let new = g.remove_edge(edge).next_intersection_id();
                        let list = folded.intersections[new].edges;
                        crate::model::lemma_remove_edge_wf(g, edge);
                        crate::model::lemma_create_intersection_wf(
                            g.remove_edge(edge),
                            midpoint,
                            crate::model::IntersectionProvenance::Synthetic,
                        );
                        crate::rewrite::lemma_replace_all(
                            g.remove_edge(edge).create_intersection(
                                midpoint,
                                crate::model::IntersectionProvenance::Synthetic,
                            ),
                            ends,
                            new,
                            false,
                        );
                        assert(folded.intersection_wf(new));
                        assert forall|k: int| 0 <= k < list.len() implies folded.edges.contains_key(
                            #[trigger] list[k],
                        ) by {
                            assert(folded.incident(list[k], new));
                        }
                        crate::dog_leg::lemma_fix_dog_leg(folded, list, new, midpoint, d, trims);
                    },
                }
            },
        }
    }
}

/// Whether a step keeps every linestring running from the point of its
/// source to the point of its destination. The collapse of a dual
/// carriageway does if the pieces of the centre line run from end point to
/// end point. The collapse of a dog-leg does if no edge is left as a loop
/// at the midpoint and there is a trim point for each side road. Every
/// other step does.
pub open spec fn keeps_attached<C>(g: GraphView<C>, step: StepView<C>) -> bool {
    match step {
        StepView::CollapseDualCarriageway { splits, .. } => crate::dc_collapse::splits_join(
            splits.lines,
            splits.new_endpts,
        ),
        StepView::CollapseEdge { edge, midpoint, dog_leg: Some(d), trims } => {
            let new = g.remove_edge(edge).next_intersection_id();
            let folded = g.remove_edge(edge).create_intersection(
                midpoint,
                crate::model::IntersectionProvenance::Synthetic,
            ).replace_all(seq![g.edges[edge].src, g.edges[edge].dst], new, false);
            folded.can_attach(folded.intersections[new].edges, new, d, trims)
        },
        _ => true,
    }
}

/// Such a step keeps the linestrings attached to their intersections.
pub proof fn lemma_step_keeps_attached<C>(g: GraphView<C>, step: StepView<C>)
    requires
        g.wf(),
        g.endpoints_attached(),
        keeps_attached(g, step),
    ensures
        g.step(step).endpoints_attached(),
{
    if g.applicable(step) {
        match step {
            StepView::CollapseToCentroid {
                boundary_edges,
                boundary_intersections,
                centroid,
                ..
            } => {
                crate::rewrite::lemma_collapse_to_centroid(
                    g,
                    boundary_edges,
                    boundary_intersections,
                    centroid,
                );
            },
            StepView::CollapseDualCarriageway {
                boundary_edges,
                boundary_intersections,
                splits,
                attach,
                ..
            } => {
                crate::dc_collapse::lemma_collapse_dual_carriageway_attached(
                    g,
                    boundary_edges,
                    boundary_intersections,
                    splits.lines,
                    splits.new_endpts,
                    attach,
                );
            },
            StepView::RemoveAllSidepaths { plans } => {
                crate::sidepath::lemma_remove_all_sidepaths(g, plans);
            },
            StepView::RemoveEdge(e) => {
                crate::rewrite::lemma_remove_edge_and_orphans(g, e);
            },
            StepView::RemoveAllServiceRoads => {
                crate::rewrite::lemma_remove_all_service_roads(g);
            },
            StepView::CollapseDegenerateIntersection(i) => {
                crate::rewrite::lemma_collapse_degenerate_intersection(g, i);
            },
            StepView::CollapseEdge { edge, midpoint, dog_leg, trims } => {
                match dog_leg {
                    None => {
                        crate::dog_leg::lemma_collapse_edge(g, edge, midpoint, dog_leg, trims);
                    },
                    Some(d) => {
                        crate::dog_leg::lemma_collapse_dog_leg_attached(g, edge, midpoint, d, trims);
                    },
                }
            },
        }
    }
}

/// Two sessions on the same original graph with the same log have the same
/// current graph: replaying a log twice gives the same graph twice.
pub proof fn lemma_replay_equivalence<C: Copy>(first: &RoadBundler<C>, second: &RoadBundler<C>)
    requires
        first.inv(),
        second.inv(),
        first.original() == second.original(),
        first.log() == second.log(),
    ensures
        first.current() == second.current(),
{
    first.lemma_inv();
    second.lemma_inv();
}

/// A session whose last step was taken back has the graph of a session on
/// the same original graph that took the steps before it and stopped there.
/// `longer` is the session before `undo`, `undone` the same session after
/// it, and `shorter` the session that stopped.
pub proof fn lemma_undo_determinism<C: Copy>(
    longer: &RoadBundler<C>,
    undone: &RoadBundler<C>,
    shorter: &RoadBundler<C>,
)
    requires
        longer.inv(),
        undone.inv(),
        shorter.inv(),
        longer.log().len() > 0,
        undone.original() == longer.original(),
        undone.log() == longer.log().drop_last(),
        shorter.original() == longer.original(),
        shorter.log() == longer.log().drop_last(),
    ensures
        undone.current() == shorter.current(),
        longer.current() == shorter.current().step(longer.log().last()),
{
    longer.lemma_inv();
    undone.lemma_inv();
    shorter.lemma_inv();
}

/// Folding an edge into its midpoint takes exactly that edge away, so that
/// the graph has one edge fewer after it.
pub proof fn lemma_collapse_edge_shrinks<C>(g: GraphView<C>, step: StepView<C>)
    requires
        g.wf(),
        step is CollapseEdge,
        g.applicable(step),
    ensures
        g.step(step).edges.dom() == g.edges.dom().remove(step->CollapseEdge_edge),
{
    match step {
        StepView::CollapseEdge { edge, midpoint, dog_leg, trims } => {
            crate::dog_leg::lemma_collapse_edge(g, edge, midpoint, dog_leg, trims);
        },
        _ => {},
    }
}

/// A run of collapses of edges, each of a live edge when its turn comes,
/// takes one edge away with every step: a graph with finitely many edges
/// allows no longer run than it has edges. So a loop that collapses one
/// dog-leg in every round comes to an end.
pub proof fn lemma_run_of_edge_collapses_ends<C>(g: GraphView<C>, steps: Seq<StepView<C>>)
    requires
        g.wf(),
        g.edges.dom().finite(),
        forall|k: int|
            0 <= k < steps.len() ==> (#[trigger] steps[k]) is CollapseEdge && g.replay(
                steps.take(k),
            ).applicable(steps[k]),
    ensures
        g.replay(steps).edges.dom().finite(),
        g.replay(steps).edges.dom().len() + steps.len() == g.edges.dom().len(),
        steps.len() <= g.edges.dom().len(),
    decreases steps.len(),
{
    if steps.len() > 0 {
        let init = steps.drop_last();
        let last = steps.last();
        assert forall|k: int| 0 <= k < init.len() implies (#[trigger] init[k]) is CollapseEdge
            && g.replay(init.take(k)).applicable(init[k]) by {
            assert(init[k] == steps[k]);
            assert(init.take(k) == steps.take(k));
        }
        lemma_run_of_edge_collapses_ends(g, init);
        lemma_replay_wf(g, init);
        let mid = g.replay(init);
        assert(init == steps.take(steps.len() - 1));
        assert(steps[steps.len() - 1] is CollapseEdge && mid.applicable(steps[steps.len() - 1]));
        lemma_collapse_edge_shrinks(mid, last);
    }
}

/// No step turns a counter back: an id that was handed out once is never
/// handed out again.
pub proof fn lemma_step_counters<C>(g: GraphView<C>, step: StepView<C>)
    requires
        g.wf(),
    ensures
        g.step(step).edge_id_counter >= g.edge_id_counter,
        g.step(step).intersection_id_counter >= g.intersection_id_counter,
{
    if g.applicable(step) {
        match step {
            StepView::CollapseToCentroid {
                boundary_edges,
                boundary_intersections,
                centroid,
                ..
            } => {
                crate::rewrite::lemma_collapse_to_centroid(
                    g,
                    boundary_edges,
                    boundary_intersections,
                    centroid,
                );
            },
            StepView::CollapseDualCarriageway {
                boundary_edges,
                boundary_intersections,
                splits,
                attach,
                ..
            } => {
                crate::dc_collapse::lemma_collapse_dual_carriageway(
                    g,
                    boundary_edges,
                    boundary_intersections,
                    splits.lines,
                    splits.new_endpts,
                    attach,
                );
            },
            StepView::RemoveAllSidepaths { plans } => {
                crate::sidepath::lemma_remove_all_sidepaths(g, plans);
            },
            StepView::RemoveEdge(e) => {
                crate::rewrite::lemma_remove_edge_and_orphans(g, e);
            },
            StepView::RemoveAllServiceRoads => {
                crate::rewrite::lemma_remove_all_service_roads(g);
            },
            StepView::CollapseDegenerateIntersection(i) => {
                crate::rewrite::lemma_collapse_degenerate_intersection(g, i);
            },
            StepView::CollapseEdge { edge, midpoint, dog_leg, trims } => {
                crate::dog_leg::lemma_collapse_edge(g, edge, midpoint, dog_leg, trims);
            },
        }
    }
}

} // verus!
