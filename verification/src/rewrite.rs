//! What the rewrites do, stated on the model: each command as a function from
//! graph to graph, built from the primitive mutations.

use vstd::prelude::*;
use crate::ids::{EdgeID, IntersectionID};
use crate::model::{GraphView, IntersectionProvenance, lemma_create_edge_wf,
    lemma_create_intersection_wf, lemma_remove_edge_wf, lemma_remove_intersection_wf,
    lemma_replace_intersection_wf, lemma_sweep_wf, lemma_listed_iff_incident};
use crate::seqs::{lemma_without, without};

verus! {

/// The ids below `bound` that satisfy `pred`, in rising order.
pub open spec fn ids_where(bound: nat, pred: spec_fn(EdgeID) -> bool) -> Seq<EdgeID>
    decreases bound,
{
    if bound == 0 {
        Seq::<EdgeID>::empty()
    } else {
        let rest = ids_where((bound - 1) as nat, pred);
        let e = EdgeID((bound - 1) as usize);
        if pred(e) {
            rest.push(e)
        } else {
            rest
        }
    }
}

/// `ids_where` lists exactly the ids below the bound that satisfy the
/// predicate, each once.
pub proof fn lemma_ids_where(bound: nat, pred: spec_fn(EdgeID) -> bool)
    requires
        bound <= usize::MAX + 1,
    ensures
        forall|e: EdgeID| ids_where(bound, pred).contains(e) <==> (e.0 < bound && pred(e)),
        ids_where(bound, pred).no_duplicates(),
    decreases bound,
{
    if bound > 0 {
        let rest = ids_where((bound - 1) as nat, pred);
        let last = EdgeID((bound - 1) as usize);
        lemma_ids_where((bound - 1) as nat, pred);
        assert forall|e: EdgeID| ids_where(bound, pred).contains(e) <==> (e.0 < bound && pred(
            e,
        )) by {
            crate::seqs::lemma_contains_push(rest, last, e);
        }
        if pred(last) {
            crate::seqs::lemma_no_dup_push(rest, last);
        }
    }
}

/// Raising the bound past ids that do not satisfy the predicate changes nothing.
pub proof fn lemma_ids_where_extend(low: nat, high: nat, pred: spec_fn(EdgeID) -> bool)
    requires
        low <= high <= usize::MAX + 1,
        forall|e: EdgeID| low <= e.0 ==> !(#[trigger] pred(e)),
    ensures
        ids_where(high, pred) == ids_where(low, pred),
    decreases high - low,
{
    if low < high {
        lemma_ids_where_extend(low, (high - 1) as nat, pred);
        assert(!pred(EdgeID((high - 1) as usize)));
    }
}

impl<C> GraphView<C> {
    /// The graph without the live edges among `ids`, removed one by one.
    pub open spec fn remove_edges(self, ids: Seq<EdgeID>) -> GraphView<C>
        decreases ids.len(),
    {
        if ids.len() == 0 {
            self
        } else {
            let g = self.remove_edges(ids.drop_last());
            if g.edges.contains_key(ids.last()) {
                g.remove_edge(ids.last())
            } else {
                g
            }
        }
    }

    /// The graph with each of `olds` that is live and not `new` folded into
    /// `new`, one by one.
    pub open spec fn replace_all(
        self,
        olds: Seq<IntersectionID>,
        new: IntersectionID,
        extend: bool,
    ) -> GraphView<C>
        decreases olds.len(),
    {
        if olds.len() == 0 {
            self
        } else {
            let g = self.replace_all(olds.drop_last(), new, extend);
            if g.intersections.contains_key(olds.last()) && olds.last() != new {
                g.replace_intersection(olds.last(), new, extend)
            } else {
                g
            }
        }
    }

    /// Those of `olds` that are live and not `new`.
    pub open spec fn live_among(self, olds: Seq<IntersectionID>, new: IntersectionID) -> Seq<
        IntersectionID,
    >
        decreases olds.len(),
    {
        if olds.len() == 0 {
            olds
        } else if self.intersections.contains_key(olds.last()) && olds.last() != new {
            self.live_among(olds.drop_last(), new).push(olds.last())
        } else {
            self.live_among(olds.drop_last(), new)
        }
    }

    /// An intersection of `olds` that is live and not `new` is among the live ones.
    pub proof fn lemma_live_among(self, olds: Seq<IntersectionID>, new: IntersectionID, j: IntersectionID)
        ensures
            self.live_among(olds, new).contains(j) <==> (olds.contains(j)
                && self.intersections.contains_key(j) && j != new),
        decreases olds.len(),
    {
        if olds.len() > 0 {
            let init = olds.drop_last();
            self.lemma_live_among(init, new, j);
            crate::seqs::lemma_contains_push(init, olds.last(), j);
            assert(init.push(olds.last()) == olds);
            crate::seqs::lemma_contains_push(self.live_among(init, new), olds.last(), j);
        }
    }

    /// The graph without intersection `i`, if `i` is live and has no edge.
    pub open spec fn drop_if_empty(self, i: IntersectionID) -> GraphView<C> {
        if self.intersections.contains_key(i) && self.intersections[i].edges.len() == 0 {
            self.remove_intersection(i)
        } else {
            self
        }
    }

    /// The command that removes edge `e`: the edge goes, and so does each of
    /// its ends that is left without an edge.
    pub open spec fn remove_edge_and_orphans(self, e: EdgeID) -> GraphView<C> {
        let edge = self.edges[e];
        self.remove_edge(e).drop_if_empty(edge.src).drop_if_empty(edge.dst)
    }

    /// Edge `e` is a live service road.
    pub open spec fn is_service_road(self, e: EdgeID) -> bool {
        self.edges.contains_key(e) && self.edges[e].kind.is_service_road()
    }

    /// The live service roads, by rising id.
    pub open spec fn service_roads(self) -> Seq<EdgeID> {
        ids_where(self.edge_id_counter + 1, |e: EdgeID| self.is_service_road(e))
    }

    /// The command that removes every service road, and then every
    /// intersection that has no edge.
    pub open spec fn remove_all_service_roads(self) -> GraphView<C> {
        self.remove_edges(self.service_roads()).sweep()
    }

    /// Whether junction `i` can be dissolved: it has exactly two edges, they
    /// differ, neither is a loop at `i`, and their kinds combine.
    pub open spec fn is_degenerate(self, i: IntersectionID) -> bool {
        let list = self.intersections[i].edges;
        &&& list.len() == 2
        &&& list[0] != list[1]
        &&& self.edges[list[0]].kind.merge(self.edges[list[1]].kind) is Some
        &&& self.edges[list[0]].other_end(i) != i
        &&& self.edges[list[1]].other_end(i) != i
    }

    /// The linestring of the edge that replaces the two edges at a dissolved
    /// junction `i`: the first run towards `i`, then the second run away from it.
    pub open spec fn joined_linestring(self, i: IntersectionID) -> Seq<C> {
        let list = self.intersections[i].edges;
        let a = self.edges[list[0]];
        let b = self.edges[list[1]];
        (if a.src == i {
            a.linestring.reverse()
        } else {
            a.linestring
        }) + (if b.src == i {
            b.linestring
        } else {
            b.linestring.reverse()
        })
    }

    /// The command that dissolves junction `i`: where `i` can be dissolved,
    /// its two edges and `i` itself go, and one edge with the combined kind
    /// joins the far ends; elsewhere nothing changes.
    pub open spec fn collapse_degenerate_intersection(self, i: IntersectionID) -> GraphView<C> {
        if self.is_degenerate(i) {
            let list = self.intersections[i].edges;
            let a = self.edges[list[0]];
            let b = self.edges[list[1]];
            self.remove_edge(list[0]).remove_edge(list[1]).remove_intersection(i).create_edge(
                self.joined_linestring(i),
                a.other_end(i),
                b.other_end(i),
                a.kind.merge(b.kind)->0,
            )
        } else {
            self
        }
    }

    /// The command that folds a face into one point: its boundary edges go, a
    /// new synthetic intersection appears at `centroid`, and every boundary
    /// intersection is folded into it, the surviving edges drawn out to it.
    pub open spec fn collapse_to_centroid(
        self,
        boundary_edges: Seq<EdgeID>,
        boundary_intersections: Seq<IntersectionID>,
        centroid: C,
    ) -> GraphView<C> {
        let g = self.remove_edges(boundary_edges);
        g.create_intersection(centroid, IntersectionProvenance::Synthetic).replace_all(
            boundary_intersections,
            g.next_intersection_id(),
            true,
        )
    }
}

/// Removing edges one by one keeps the graph consistent, keeps linestrings
/// attached, leaves the other edges as they were and the intersections live.
pub proof fn lemma_remove_edges<C>(g: GraphView<C>, ids: Seq<EdgeID>)
    requires
        g.wf(),
    ensures
        g.remove_edges(ids).wf(),
        g.endpoints_attached() ==> g.remove_edges(ids).endpoints_attached(),
        forall|e: EdgeID| #[trigger]
            g.remove_edges(ids).edges.contains_key(e) <==> (g.edges.contains_key(e)
                && !ids.contains(e)),
        forall|e: EdgeID| #[trigger]
            g.remove_edges(ids).edges.contains_key(e) ==> g.edges.contains_key(e)
                && g.remove_edges(ids).edges[e] == g.edges[e],
        g.remove_edges(ids).intersections.dom() == g.intersections.dom(),
        forall|i: IntersectionID| #[trigger]
            g.intersections.contains_key(i) ==> g.remove_edges(ids).intersections[i].point
                == g.intersections[i].point,
        forall|i: IntersectionID, x: EdgeID|
            g.intersections.contains_key(i) ==> (#[trigger] g.remove_edges(
                ids,
            ).intersections[i].edges.contains(x) <==> (g.intersections[i].edges.contains(x)
                && !ids.contains(x))),
        g.remove_edges(ids).original_edges == g.original_edges,
        g.remove_edges(ids).edge_id_counter == g.edge_id_counter,
        g.remove_edges(ids).intersection_id_counter == g.intersection_id_counter,
        g.remove_edges(ids).boundary_polygon == g.boundary_polygon,
    decreases ids.len(),
{
    if ids.len() > 0 {
        let init = ids.drop_last();
        let mid = g.remove_edges(init);
        lemma_remove_edges(g, init);
        let h = g.remove_edges(ids);
        if mid.edges.contains_key(ids.last()) {
            lemma_remove_edge_wf(mid, ids.last());
        }
        assert forall|e: EdgeID| #[trigger]
            h.edges.contains_key(e) <==> (g.edges.contains_key(e) && !ids.contains(e)) by {
            crate::seqs::lemma_contains_push(init, ids.last(), e);
            assert(init.push(ids.last()) == ids);
            assert(mid.edges.contains_key(e) <==> (g.edges.contains_key(e) && !init.contains(e)));
        }
        assert(h.intersections.dom() =~= g.intersections.dom());
        assert forall|i: IntersectionID, x: EdgeID| g.intersections.contains_key(i) implies (
        #[trigger] h.intersections[i].edges.contains(x) <==> (g.intersections[i].edges.contains(x)
            && !ids.contains(x))) by {
            crate::seqs::lemma_contains_push(init, ids.last(), x);
            assert(init.push(ids.last()) == ids);
            assert(mid.intersections.contains_key(i));
            assert(mid.intersections[i].edges.contains(x) <==> (g.intersections[i].edges.contains(
                x,
            ) && !init.contains(x)));
            if !mid.edges.contains_key(ids.last()) && x == ids.last() {
                if mid.intersections[i].edges.contains(x) {
                    assert(mid.intersection_wf(i));
                    let k = mid.intersections[i].edges.index_of(x);
                    assert(mid.incident(mid.intersections[i].edges[k], i));
                }
            }
        }
    } else {
        assert forall|e: EdgeID| #[trigger]
            g.remove_edges(ids).edges.contains_key(e) <==> (g.edges.contains_key(e)
                && !ids.contains(e)) by {}
    }
}

/// Removing an edge and the ends it orphans keeps the graph consistent; if no
/// intersection was empty before, none is after.
pub proof fn lemma_remove_edge_and_orphans<C>(g: GraphView<C>, e: EdgeID)
    requires
        g.wf(),
        g.edges.contains_key(e),
    ensures
        g.remove_edge_and_orphans(e).wf(),
        g.remove_edge_and_orphans(e).edge_id_counter == g.edge_id_counter,
        g.remove_edge_and_orphans(e).intersection_id_counter == g.intersection_id_counter,
        g.endpoints_attached() ==> g.remove_edge_and_orphans(e).endpoints_attached(),
        g.no_empty_intersections() ==> g.remove_edge_and_orphans(e).no_empty_intersections(),
{
    let edge = g.edges[e];
    let g1 = g.remove_edge(e);
    lemma_remove_edge_wf(g, e);
    let g2 = g1.drop_if_empty(edge.src);
    if g1.intersections.contains_key(edge.src) && g1.intersections[edge.src].edges.len() == 0 {
        lemma_remove_intersection_wf(g1, edge.src);
    }
    let g3 = g2.drop_if_empty(edge.dst);
    if g2.intersections.contains_key(edge.dst) && g2.intersections[edge.dst].edges.len() == 0 {
        lemma_remove_intersection_wf(g2, edge.dst);
    }
    if g.no_empty_intersections() {
        assert forall|i: IntersectionID| #[trigger] g3.intersections.contains_key(i) implies
            g3.intersections[i].edges.len() > 0 by {
            assert(g.intersections.contains_key(i));
            if i != edge.src && i != edge.dst {
                assert(!g.incident(e, i));
            }
        }
    }
}

/// Removing the service roads and sweeping keeps the graph consistent and
/// leaves neither a service road nor an empty intersection.
pub proof fn lemma_remove_all_service_roads<C>(g: GraphView<C>)
    requires
        g.wf(),
    ensures
        g.remove_all_service_roads().wf(),
        g.remove_all_service_roads().no_empty_intersections(),
        g.endpoints_attached() ==> g.remove_all_service_roads().endpoints_attached(),
        forall|e: EdgeID| #[trigger]
            g.remove_all_service_roads().edges.contains_key(e) <==> (g.edges.contains_key(e)
                && !g.edges[e].kind.is_service_road()),
        forall|e: EdgeID| #[trigger]
            g.remove_all_service_roads().edges.contains_key(e) ==> g.edges.contains_key(e)
                && g.remove_all_service_roads().edges[e] == g.edges[e],
        g.remove_all_service_roads().edge_id_counter == g.edge_id_counter,
        g.remove_all_service_roads().intersection_id_counter == g.intersection_id_counter,
{
    let ids = g.service_roads();
    lemma_ids_where(g.edge_id_counter + 1, |e: EdgeID| g.is_service_road(e));
    lemma_remove_edges(g, ids);
    lemma_sweep_wf(g.remove_edges(ids));
    let mid = g.remove_edges(ids);
    assert forall|e: EdgeID| #[trigger]
        g.remove_all_service_roads().edges.contains_key(e) <==> (g.edges.contains_key(e)
            && !g.edges[e].kind.is_service_road()) by {
        assert(mid.edges.contains_key(e) <==> (g.edges.contains_key(e) && !ids.contains(e)));
        if g.edges.contains_key(e) {
            assert(g.edge_wf(e));
            assert(ids.contains(e) <==> g.is_service_road(e));
        }
    }
    assert forall|e: EdgeID| #[trigger]
        g.remove_all_service_roads().edges.contains_key(e) implies g.edges.contains_key(e)
        && g.remove_all_service_roads().edges[e] == g.edges[e] by {
        assert(mid.edges.contains_key(e));
    }
}

/// Removing all service roads a second time changes nothing.
pub proof fn lemma_remove_all_service_roads_idempotent<C>(g: GraphView<C>)
    requires
        g.wf(),
    ensures
        g.remove_all_service_roads().remove_all_service_roads() == g.remove_all_service_roads(),
{
    let h = g.remove_all_service_roads();
    lemma_remove_all_service_roads(g);
    let pred = |e: EdgeID| h.is_service_road(e);
    assert forall|e: EdgeID| !(#[trigger] pred(e)) by {
        if h.edges.contains_key(e) {
            assert(h.edges[e] == g.edges[e]);
        }
    }
    lemma_ids_where_extend(0, h.edge_id_counter + 1, pred);
    assert(h.service_roads() == Seq::<EdgeID>::empty());
    assert(h.remove_edges(h.service_roads()) == h);
    lemma_sweep_wf(h);
}

/// Folding intersections into one keeps the graph consistent and the
/// linestrings attached, if the geometry is extended.
pub proof fn lemma_replace_all<C>(
    g: GraphView<C>,
    olds: Seq<IntersectionID>,
    new: IntersectionID,
    extend: bool,
)
    requires
        g.wf(),
        g.intersections.contains_key(new),
    ensures
        g.replace_all(olds, new, extend).wf(),
        g.replace_all(olds, new, extend).intersections.contains_key(new),
        (g.endpoints_attached() && extend) ==> g.replace_all(olds, new, extend).endpoints_attached(),
        g.replace_all(olds, new, extend).edges.dom() == g.edges.dom(),
        g.replace_all(olds, new, extend).edge_id_counter == g.edge_id_counter,
        g.replace_all(olds, new, extend).intersection_id_counter == g.intersection_id_counter,
        forall|j: IntersectionID| #[trigger]
            g.replace_all(olds, new, extend).intersections.contains_key(j) <==> (
            g.intersections.contains_key(j) && (j == new || !olds.contains(j))),
        forall|j: IntersectionID|
            j != new && #[trigger] g.replace_all(olds, new, extend).intersections.contains_key(j)
                ==> g.replace_all(olds, new, extend).intersections[j] == g.intersections[j],
        forall|x: EdgeID| #[trigger]
            g.replace_all(olds, new, extend).intersections[new].edges.contains(x) <==> (
            g.intersections[new].edges.contains(x) || g.listed_at_any(g.live_among(olds, new), x)),
    decreases olds.len(),
{
    let h = g.replace_all(olds, new, extend);
    if olds.len() > 0 {
        let init = olds.drop_last();
        let last = olds.last();
        let mid = g.replace_all(init, new, extend);
        lemma_replace_all(g, init, new, extend);
        let moved = mid.intersections.contains_key(last) && last != new;
        if moved {
            lemma_replace_intersection_wf(mid, last, new, extend);
            assert(mid.replace_intersection(last, new, extend).edges.dom() =~= mid.edges.dom());
        }
        assert forall|j: IntersectionID| #[trigger]
            h.intersections.contains_key(j) <==> (g.intersections.contains_key(j) && (j == new
                || !olds.contains(j))) by {
            crate::seqs::lemma_contains_push(init, last, j);
            assert(init.push(last) == olds);
            assert(mid.intersections.contains_key(j) <==> (g.intersections.contains_key(j) && (j
                == new || !init.contains(j))));
        }
        assert forall|j: IntersectionID|
            j != new && #[trigger] h.intersections.contains_key(j) implies h.intersections[j]
            == g.intersections[j] by {
            assert(mid.intersections.contains_key(j));
        }
        let live_init = g.live_among(init, new);
        let live_all = g.live_among(olds, new);
        assert(init.push(last) == olds);
        assert forall|x: EdgeID| #[trigger]
            h.intersections[new].edges.contains(x) <==> (g.intersections[new].edges.contains(x)
                || g.listed_at_any(live_all, x)) by {
            assert(mid.intersections[new].edges.contains(x) <==> (
            g.intersections[new].edges.contains(x) || g.listed_at_any(live_init, x)));
            let keeps = g.intersections.contains_key(last) && last != new;
            if keeps {
                assert(live_all == live_init.push(last));
            } else {
                assert(live_all == live_init);
            }
            if g.listed_at_any(live_init, x) {
                let k = choose|k: int|
                    0 <= k < live_init.len() && g.intersections[#[trigger] live_init[k]].edges.contains(
                        x,
                    );
                assert(live_all[k] == live_init[k]);
            }
            if g.listed_at_any(live_all, x) {
                let k = choose|k: int|
                    0 <= k < live_all.len() && g.intersections[#[trigger] live_all[k]].edges.contains(
                        x,
                    );
                if k < live_init.len() {
                    assert(live_init[k] == live_all[k]);
                }
            }
            if moved {
                assert(mid.intersections[last] == g.intersections[last]);
                if g.intersections[last].edges.contains(x) {
                    assert(live_all[live_all.len() - 1] == last);
                }
            } else if keeps {
                // It was live at first and is gone: it was folded before.
                assert(init.contains(last));
                g.lemma_live_among(init, new, last);
                let k = live_init.index_of(last);
                if g.intersections[last].edges.contains(x) {
                    assert(g.intersections[live_init[k]].edges.contains(x));
                }
            }
        }
    } else {
        assert forall|x: EdgeID| #[trigger]
            h.intersections[new].edges.contains(x) <==> (g.intersections[new].edges.contains(x)
                || g.listed_at_any(g.live_among(olds, new), x)) by {}
    }
}

/// Dissolving a junction keeps the graph consistent, and keeps every
/// intersection with an edge if every intersection had one.
pub proof fn lemma_collapse_degenerate_intersection<C>(g: GraphView<C>, i: IntersectionID)
    requires
        g.wf(),
        g.intersections.contains_key(i),
        g.edge_id_counter < usize::MAX,
    ensures
        g.collapse_degenerate_intersection(i).wf(),
        g.collapse_degenerate_intersection(i).edge_id_counter >= g.edge_id_counter,
        g.collapse_degenerate_intersection(i).intersection_id_counter
            == g.intersection_id_counter,
        g.endpoints_attached() ==> g.collapse_degenerate_intersection(i).endpoints_attached(),
        g.no_empty_intersections() ==> g.collapse_degenerate_intersection(
            i,
        ).no_empty_intersections(),
        g.is_degenerate(i) ==> {
            let list = g.intersections[i].edges;
            let g3 = g.remove_edge(list[0]).remove_edge(list[1]).remove_intersection(i);
            &&& g.edges.contains_key(list[0])
            &&& g.edges.contains_key(list[1])
            &&& g.remove_edge(list[0]).wf()
            &&& g.remove_edge(list[0]).edges.contains_key(list[1])
            &&& g.remove_edge(list[0]).remove_edge(list[1]).wf()
            &&& g.remove_edge(list[0]).remove_edge(list[1]).intersections.contains_key(i)
            &&& g.remove_edge(list[0]).remove_edge(list[1]).intersections[i].edges.len() == 0
            &&& g3.wf()
            &&& g3.intersections.contains_key(g.edges[list[0]].other_end(i))
            &&& g3.intersections.contains_key(g.edges[list[1]].other_end(i))
            &&& g.joined_linestring(i).len() >= 2
            &&& g.edges[list[0]].kind.merge(g.edges[list[1]].kind)->0.all().subset_of(
                g3.original_edges.dom(),
            )
        },
{
    if g.is_degenerate(i) {
        let list = g.intersections[i].edges;
        let e1 = list[0];
        let e2 = list[1];
        let a = g.edges[e1];
        let b = g.edges[e2];
        assert(g.intersection_wf(i));
        assert(g.incident(list[0], i));
        assert(g.incident(list[1], i));
        assert(g.edge_wf(e1));
        assert(g.edge_wf(e2));
        let g1 = g.remove_edge(e1);
        lemma_remove_edge_wf(g, e1);
        let g2 = g1.remove_edge(e2);
        lemma_remove_edge_wf(g1, e2);
        lemma_without(list, e1);
        lemma_without(without(list, e1), e2);
        assert(g2.intersections[i].edges.len() == 0) by {
            let l1 = g1.intersections[i].edges;
            let l2 = g2.intersections[i].edges;
            assert(l1 == without(list, e1));
            assert(g1.incident(e2, i));
            assert(l2 == without(l1, e2));
            if l2.len() > 0 {
                let x = l2[0];
                assert(l2.contains(x));
                assert(l1.contains(x));
                assert(list.contains(x));
                let k = list.index_of(x);
                assert(k == 0 || k == 1);
            }
        }
        let g3 = g2.remove_intersection(i);
        lemma_remove_intersection_wf(g2, i);
        let kind = a.kind.merge(b.kind)->0;
        let pts = g.joined_linestring(i);
        let i1 = a.other_end(i);
        let i2 = b.other_end(i);
        assert(kind.all().subset_of(g3.original_edges.dom())) by {
            assert forall|o: crate::ids::OriginalEdgeID| kind.all().contains(o) implies a.kind.all().contains(
                o,
            ) || b.kind.all().contains(o) by {}
        }
        lemma_create_edge_wf(g3, pts, i1, i2, kind);
        let h = g3.create_edge(pts, i1, i2, kind);
        if g.endpoints_attached() {
            assert(g.edges.contains_key(e1));
            assert(g.edges.contains_key(e2));
            assert(pts.first() == g.intersections[i1].point) by {
                if a.src == i {
                    assert(a.linestring.reverse()[0] == a.linestring.last());
                }
            }
            assert(pts.last() == g.intersections[i2].point) by {
                if b.src != i {
                    let r = b.linestring.reverse();
                    assert(r[r.len() - 1] == b.linestring.first());
                }
            }
            assert(g3.intersections[i1].point == g.intersections[i1].point);
            assert(g3.intersections[i2].point == g.intersections[i2].point);
        }
        if g.no_empty_intersections() {
            assert forall|j: IntersectionID| #[trigger] h.intersections.contains_key(j) implies
                h.intersections[j].edges.len() > 0 by {
                assert(g.intersections.contains_key(j));
                if j == i1 || j == i2 {
                } else {
                    assert(g.intersection_wf(j));
                    lemma_listed_iff_incident(g, e1, j);
                    lemma_listed_iff_incident(g, e2, j);
                    lemma_without(g.intersections[j].edges, e1);
                    lemma_without(g.intersections[j].edges, e2);
                    assert(!g.incident(e1, j));
                    assert(!g1.incident(e2, j));
                }
            }
        }
    }
}

/// Folding a face into a point keeps the graph consistent and its
/// linestrings attached.
pub proof fn lemma_collapse_to_centroid<C>(
    g: GraphView<C>,
    boundary_edges: Seq<EdgeID>,
    boundary_intersections: Seq<IntersectionID>,
    centroid: C,
)
    requires
        g.wf(),
        g.intersection_id_counter < usize::MAX,
    ensures
        g.collapse_to_centroid(boundary_edges, boundary_intersections, centroid).wf(),
        g.collapse_to_centroid(boundary_edges, boundary_intersections, centroid).edge_id_counter
            == g.edge_id_counter,
        g.collapse_to_centroid(
            boundary_edges,
            boundary_intersections,
            centroid,
        ).intersection_id_counter == g.intersection_id_counter + 1,
        g.endpoints_attached() ==> g.collapse_to_centroid(
            boundary_edges,
            boundary_intersections,
            centroid,
        ).endpoints_attached(),
{
    let g1 = g.remove_edges(boundary_edges);
    lemma_remove_edges(g, boundary_edges);
    let g2 = g1.create_intersection(centroid, IntersectionProvenance::Synthetic);
    lemma_create_intersection_wf(g1, centroid, IntersectionProvenance::Synthetic);
    lemma_replace_all(g2, boundary_intersections, g1.next_intersection_id(), true);
}

impl<C> GraphView<C> {
    /// Every end of every live edge among `edges` is one of `intersections`.
    pub open spec fn ends_among(
        self,
        edges: Seq<EdgeID>,
        intersections: Seq<IntersectionID>,
    ) -> bool {
        forall|k: int|
            0 <= k < edges.len() && self.edges.contains_key(#[trigger] edges[k])
                ==> intersections.contains(self.edges[edges[k]].src) && intersections.contains(
                self.edges[edges[k]].dst,
            )
    }

    /// Some live intersection among `intersections` lists an edge that is
    /// not among `edges`.
    pub open spec fn survivor_at(
        self,
        edges: Seq<EdgeID>,
        intersections: Seq<IntersectionID>,
    ) -> bool {
        exists|k: int, x: EdgeID|
            0 <= k < intersections.len() && self.intersections.contains_key(
                #[trigger] intersections[k],
            ) && (#[trigger] self.intersections[intersections[k]].edges.contains(x))
                && !edges.contains(x)
    }

    /// The graph after edges went and the intersections at their ends were
    /// folded into a new one at `point`.
    pub open spec fn fold_into_point(
        self,
        edges: Seq<EdgeID>,
        intersections: Seq<IntersectionID>,
        point: C,
        extend: bool,
    ) -> GraphView<C> {
        let g = self.remove_edges(edges);
        g.create_intersection(point, IntersectionProvenance::Synthetic).replace_all(
            intersections,
            g.next_intersection_id(),
            extend,
        )
    }
}

/// Folding edges into a point leaves no intersection without an edge, if
/// there was none before, if all ends of the edges are folded, and if an
/// edge survives at one of them.
pub proof fn lemma_fold_leaves_none_empty<C>(
    g: GraphView<C>,
    edges: Seq<EdgeID>,
    intersections: Seq<IntersectionID>,
    point: C,
    extend: bool,
)
    requires
        g.wf(),
        g.no_empty_intersections(),
        g.intersection_id_counter < usize::MAX,
        g.ends_among(edges, intersections),
        g.survivor_at(edges, intersections),
    ensures
        g.fold_into_point(edges, intersections, point, extend).no_empty_intersections(),
{
    let g1 = g.remove_edges(edges);
    lemma_remove_edges(g, edges);
    let new = g1.next_intersection_id();
    let g2 = g1.create_intersection(point, IntersectionProvenance::Synthetic);
    lemma_create_intersection_wf(g1, point, IntersectionProvenance::Synthetic);
    let h = g2.replace_all(intersections, new, extend);
    lemma_replace_all(g2, intersections, new, extend);
    assert forall|j: IntersectionID| #[trigger] h.intersections.contains_key(j) implies h.intersections[j].edges.len()
        > 0 by {
        if j == new {
            let (k, x) = choose|k: int, x: EdgeID|
                0 <= k < intersections.len() && g.intersections.contains_key(
                    #[trigger] intersections[k],
                ) && (#[trigger] g.intersections[intersections[k]].edges.contains(x))
                    && !edges.contains(x);
            let at = intersections[k];
            assert(g1.intersections.dom().contains(at));
            assert(g1.intersections[at].edges.contains(x));
            assert(g2.intersections[at] == g1.intersections[at]);
            g2.lemma_live_among(intersections, new, at);
            let live = g2.live_among(intersections, new);
            assert(intersections.contains(at));
            let m = live.index_of(at);
            assert(g2.intersections[live[m]].edges.contains(x));
            assert(g2.listed_at_any(live, x));
            assert(h.intersections[new].edges.contains(x));
        } else {
            assert(g2.intersections.contains_key(j));
            assert(g.intersections.contains_key(j));
            assert(h.intersections[j] == g1.intersections[j]);
            let list = g.intersections[j].edges;
            let x0 = list[0];
            assert(list.contains(x0));
            assert(g.intersection_wf(j));
            assert(g.incident(list[0], j));
            if edges.contains(x0) {
                let k = edges.index_of(x0);
                assert(g.edges.contains_key(edges[k]));
                assert(intersections.contains(j));
            }
            assert(g1.intersections[j].edges.contains(x0));
        }
    }
}

/// Folding intersections into `new` keeps the linestrings attached
/// everywhere but at `new`.
pub proof fn lemma_replace_all_attached_but<C>(
    g: GraphView<C>,
    olds: Seq<IntersectionID>,
    new: IntersectionID,
    extend: bool,
)
    requires
        g.wf(),
        g.intersections.contains_key(new),
        g.attached_but_at(new),
    ensures
        g.replace_all(olds, new, extend).attached_but_at(new),
    decreases olds.len(),
{
    if olds.len() > 0 {
        let mid = g.replace_all(olds.drop_last(), new, extend);
        lemma_replace_all(g, olds.drop_last(), new, extend);
        lemma_replace_all_attached_but(g, olds.drop_last(), new, extend);
        if mid.intersections.contains_key(olds.last()) && olds.last() != new {
            crate::model::lemma_replace_intersection_attached_but(mid, olds.last(), new, extend);
        }
    }
}

impl<C> GraphView<C> {
    /// Edge `x` after those of `olds` that are live and not `new` were
    /// folded into `new`: each end that sat on one of them sits on `new`,
    /// and with `extend` the point of `new` is added to the linestring at
    /// each end that moved. Id and kind stay.
    pub open spec fn folded_edge(
        self,
        x: EdgeID,
        olds: Seq<IntersectionID>,
        new: IntersectionID,
        extend: bool,
    ) -> crate::model::EdgeView<C> {
        let ed = self.edges[x];
        let gone = self.live_among(olds, new);
        let p = self.intersections[new].point;
        let front = if extend && gone.contains(ed.src) {
            seq![p]
        } else {
            Seq::<C>::empty()
        };
        let back = if extend && gone.contains(ed.dst) {
            seq![p]
        } else {
            Seq::<C>::empty()
        };
        crate::model::EdgeView {
            id: ed.id,
            src: if gone.contains(ed.src) {
                new
            } else {
                ed.src
            },
            dst: if gone.contains(ed.dst) {
                new
            } else {
                ed.dst
            },
            linestring: front + ed.linestring + back,
            kind: ed.kind,
        }
    }
}

/// What folding intersections into `new` does to every edge: each end that
/// sat on a folded intersection now sits on `new`; all other ends, the ids
/// and the kinds are as they were; and the linestrings have gained the
/// point of `new` at the ends that moved, if they were to be extended, and
/// nothing else.
pub proof fn lemma_replace_all_edges<C>(
    g: GraphView<C>,
    olds: Seq<IntersectionID>,
    new: IntersectionID,
    extend: bool,
)
    requires
        g.wf(),
        g.intersections.contains_key(new),
    ensures
        forall|x: EdgeID| #[trigger]
            g.edges.contains_key(x) ==> g.replace_all(olds, new, extend).edges[x] == g.folded_edge(
                x,
                olds,
                new,
                extend,
            ),
    decreases olds.len(),
{
    let h = g.replace_all(olds, new, extend);
    if olds.len() == 0 {
        assert forall|x: EdgeID| #[trigger] g.edges.contains_key(x) implies h.edges[x]
            == g.folded_edge(x, olds, new, extend) by {
            assert(g.folded_edge(x, olds, new, extend).linestring =~= g.edges[x].linestring);
        }
    } else {
        let init = olds.drop_last();
        let last = olds.last();
        let mid = g.replace_all(init, new, extend);
        lemma_replace_all_edges(g, init, new, extend);
        lemma_replace_all(g, init, new, extend);
        crate::dog_leg::lemma_replace_all_keeps_point(g, init, new, extend);
        let p = g.intersections[new].point;
        let gone_init = g.live_among(init, new);
        let gone = g.live_among(olds, new);
        let moved = mid.intersections.contains_key(last) && last != new;
        let counts = g.intersections.contains_key(last) && last != new;
        assert(init.push(last) == olds);
        if moved {
            lemma_replace_intersection_wf(mid, last, new, extend);
            assert(!init.contains(last));
            g.lemma_live_among(init, new, last);
            assert(!gone_init.contains(last));
            assert(gone == gone_init.push(last));
        }
        assert forall|j: IntersectionID| gone.contains(j) <==> (gone_init.contains(j) || (moved
            && j == last)) by {
            g.lemma_live_among(init, new, j);
            g.lemma_live_among(olds, new, j);
            crate::seqs::lemma_contains_push(init, last, j);
            if counts && !moved {
                assert(init.contains(last));
            }
        }
        assert forall|x: EdgeID| #[trigger] g.edges.contains_key(x) implies h.edges[x]
            == g.folded_edge(x, olds, new, extend) by {
            let ed = g.edges[x];
            let before = mid.edges[x];
            let want = g.folded_edge(x, olds, new, extend);
            assert(mid.edges.dom().contains(x));
            assert(mid.edges.contains_key(x));
            assert(before == g.folded_edge(x, init, new, extend));
            if moved {
                crate::model::lemma_listed_iff_incident(mid, x, last);
                assert(h.edges.contains_key(x));
                let after = before.rewire(last, new, p, extend);
                assert(mid.intersections[new].point == p);
                if mid.intersections[last].edges.contains(x) {
                    assert(h.edges[x] == after);
                } else {
                    assert(h.edges[x] == before);
                    assert(after.linestring =~= before.linestring);
                }
                assert(before.src == last <==> ed.src == last);
                assert(before.dst == last <==> ed.dst == last);
                assert(after.linestring =~= want.linestring);
                assert(after == want);
            } else {
                assert(h == mid);
                assert(before.linestring =~= want.linestring);
            }
        }
    }
}

/// What dissolving a junction does, in full, where the junction can be
/// dissolved. The junction and its two edges are gone. One edge is added,
/// under an id that was not in use: it runs from the far end of the first
/// edge to the far end of the second, its linestring is the points of the
/// first edge as they run towards the junction followed by the points of
/// the second as they run away from it, and its kind is the two kinds
/// combined, so that it stands for every original edge that either stood
/// for. The far ends list the new edge and neither old one. Every other
/// edge and every other intersection is as it was.
pub proof fn lemma_collapse_degenerate_in_full<C>(g: GraphView<C>, i: IntersectionID)
    requires
        g.wf(),
        g.intersections.contains_key(i),
        g.edge_id_counter < usize::MAX,
        g.is_degenerate(i),
    ensures
        ({
            let h = g.collapse_degenerate_intersection(i);
            let first = g.intersections[i].edges[0];
            let second = g.intersections[i].edges[1];
            let a = g.edges[first];
            let b = g.edges[second];
            let n = g.next_edge_id();
            let kind = a.kind.merge(b.kind)->0;
            &&& !g.edges.contains_key(n)
            &&& forall|e: EdgeID| #[trigger]
                h.edges.contains_key(e) <==> (e == n || (g.edges.contains_key(e) && e != first && e
                    != second))
            &&& forall|e: EdgeID|
                e != n && #[trigger] h.edges.contains_key(e) ==> h.edges[e] == g.edges[e]
            &&& h.edges[n] == (crate::model::EdgeView {
                id: n,
                src: a.other_end(i),
                dst: b.other_end(i),
                linestring: g.joined_linestring(i),
                kind,
            })
            &&& g.joined_linestring(i).len() == a.linestring.len() + b.linestring.len()
            &&& kind.all() == a.kind.all().union(b.kind.all())
            &&& forall|j: IntersectionID| #[trigger]
                h.intersections.contains_key(j) <==> (g.intersections.contains_key(j) && j != i)
            &&& forall|j: IntersectionID| #[trigger]
                h.intersections.contains_key(j) ==> {
                    &&& h.intersections[j].id == g.intersections[j].id
                    &&& h.intersections[j].point == g.intersections[j].point
                    &&& h.intersections[j].provenance == g.intersections[j].provenance
                    &&& j != a.other_end(i) && j != b.other_end(i) ==> h.intersections[j].edges
                        == g.intersections[j].edges
                    &&& j == a.other_end(i) || j == b.other_end(i) ==> forall|e: EdgeID| #[trigger]
                        h.intersections[j].edges.contains(e) <==> (e == n || (
                        g.intersections[j].edges.contains(e) && e != first && e != second))
                }
        }),
{
    let list = g.intersections[i].edges;
    let first = list[0];
    let second = list[1];
    let a = g.edges[first];
    let b = g.edges[second];
    let n = g.next_edge_id();
    let kind = a.kind.merge(b.kind)->0;
    let x = a.other_end(i);
    let y = b.other_end(i);
    lemma_collapse_degenerate_intersection(g, i);
    assert(g.intersection_wf(i));
    assert(g.incident(list[0], i));
    assert(g.incident(list[1], i));
    let g1 = g.remove_edge(first);
    lemma_remove_edge_wf(g, first);
    let g2 = g1.remove_edge(second);
    lemma_remove_edge_wf(g1, second);
    let g3 = g2.remove_intersection(i);
    let pts = g.joined_linestring(i);
    lemma_create_edge_wf(g3, pts, x, y, kind);
    let h = g3.create_edge(pts, x, y, kind);
    assert(h == g.collapse_degenerate_intersection(i));
    assert(g3.next_edge_id() == n);
    assert(kind.all() =~= a.kind.all().union(b.kind.all()));
    assert(a.linestring.reverse().len() == a.linestring.len());
    assert(b.linestring.reverse().len() == b.linestring.len());
    assert forall|j: IntersectionID| #[trigger] h.intersections.contains_key(j) implies {
        &&& h.intersections[j].id == g.intersections[j].id
        &&& h.intersections[j].point == g.intersections[j].point
        &&& h.intersections[j].provenance == g.intersections[j].provenance
        &&& j != x && j != y ==> h.intersections[j].edges == g.intersections[j].edges
        &&& j == x || j == y ==> forall|e: EdgeID| #[trigger]
            h.intersections[j].edges.contains(e) <==> (e == n || (
            g.intersections[j].edges.contains(e) && e != first && e != second))
    } by {
        assert(g3.intersections.contains_key(j));
        assert(g2.intersections.contains_key(j));
        assert(g1.intersections.contains_key(j));
        assert(g.intersections.contains_key(j));
        assert(j != i);
        if j != x && j != y {
            assert(g.edge_wf(first));
            assert(g.edge_wf(second));
            assert(!g.incident(first, j));
            assert(g1.intersections[j] == g.intersections[j]);
            assert(!g1.incident(second, j));
            assert(g2.intersections[j] == g1.intersections[j]);
        } else {
            assert forall|e: EdgeID| #[trigger]
                h.intersections[j].edges.contains(e) <==> (e == n || (
                g.intersections[j].edges.contains(e) && e != first && e != second)) by {
                crate::seqs::lemma_contains_push(g3.intersections[j].edges, n, e);
                assert(g1.intersections[j].edges.contains(e) <==> (
                g.intersections[j].edges.contains(e) && e != first));
                assert(g2.intersections[j].edges.contains(e) <==> (
                g1.intersections[j].edges.contains(e) && e != second));
            }
        }
    }
}

} // verus!
