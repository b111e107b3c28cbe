//! Dog-legs: short edges that join two roads across a small offset, and the
//! rewrite that folds an edge into its midpoint.

use vstd::prelude::*;
use crate::clean::concat;
use crate::graph::{Graph, copy_vec};
use crate::ids::{EdgeID, IntersectionID};
use crate::measure::{distance, EdgeMeasure, Measures, DOG_LEG_CUTOFF, DOG_LEG_MAX_LENGTH};
use crate::model::{GraphView, IntersectionProvenance, lemma_create_intersection_wf,
    lemma_remove_edge_wf, lemma_with_field_wf};
use crate::rewrite::lemma_replace_all;
use crate::seqs::{keep, lemma_keep};

verus! {

/// A dog-leg, by the two side roads that it offsets: the first at the source
/// of the short edge, the second at its destination.
#[derive(Clone, Copy, Debug)]
pub struct DogLeg {
    pub side_roads: (EdgeID, EdgeID),
}

impl<C> GraphView<C> {
    /// The name of the road that edge `x` is part of, if it has one.
    pub open spec fn name_of(self, x: EdgeID) -> Option<Seq<char>> {
        self.edges[x].kind.road_name(self)
    }

    /// The edges at intersection `i` that are not named like edge `e`, in the
    /// order in which `i` lists them.
    pub open spec fn side_edges(self, i: IntersectionID, e: EdgeID) -> Seq<EdgeID> {
        keep(self.intersections[i].edges, |x: EdgeID| self.name_of(x) != self.name_of(e))
    }

    /// The bearing of edge `x` as it runs into intersection `i`.
    pub open spec fn bearing_into(
        self,
        x: EdgeID,
        i: IntersectionID,
        m: Map<EdgeID, EdgeMeasure>,
    ) -> int {
        if self.edges[x].dst == i {
            m[x].bearing.micro_degrees as int
        } else {
            m[x].reverse_bearing.micro_degrees as int
        }
    }

    /// Whether edge `e` is a dog-leg, and between which side roads: it is
    /// measured and at most five metres long; each of its ends has three
    /// edges, of which exactly one is not named like `e`; both of those side
    /// roads are measured; and, running into `e`, their bearings differ by
    /// thirty degrees or more.
    pub open spec fn dog_leg(self, e: EdgeID, m: Map<EdgeID, EdgeMeasure>) -> Option<DogLeg> {
        let edge = self.edges[e];
        let src_sides = self.side_edges(edge.src, e);
        let dst_sides = self.side_edges(edge.dst, e);
        if !m.contains_key(e) || m[e].length > DOG_LEG_MAX_LENGTH {
            None
        } else if self.intersections[edge.src].edges.len() != 3 || self.intersections[edge.dst].edges.len()
            != 3 {
            None
        } else if src_sides.len() != 1 || dst_sides.len() != 1 {
            None
        } else if !m.contains_key(src_sides[0]) || !m.contains_key(dst_sides[0]) {
            None
        } else if distance(
            self.bearing_into(src_sides[0], edge.src, m),
            self.bearing_into(dst_sides[0], edge.dst, m),
        ) < DOG_LEG_CUTOFF {
            None
        } else {
            Some(DogLeg { side_roads: (src_sides[0], dst_sides[0]) })
        }
    }

    /// Whether the tip of edge `side` that is joined to the midpoint of edge
    /// `e`, when `e` is folded into it, is the start of its linestring: it
    /// is, if `side` leaves one of the ends of `e`; else it is the end.
    pub open spec fn tip_at_start(self, e: EdgeID, side: EdgeID) -> bool {
        self.edges[side].src == self.edges[e].src || self.edges[side].src == self.edges[e].dst
    }

    /// The linestring of edge `x` after a dog-leg was folded into `new` at
    /// `midpt`. A side road loses the tip that sits on `new` back to its trim
    /// point and is joined to `midpt` from there; without a trim point it
    /// stays as it is. Any other edge is drawn out to `midpt`. The tip meant
    /// is the start if the edge leaves `new`, else the end.
    pub open spec fn fixed_linestring(
        self,
        x: EdgeID,
        new: IntersectionID,
        midpt: C,
        dog_leg: DogLeg,
        trims: (Option<C>, Option<C>),
    ) -> Seq<C> {
        let ed = self.edges[x];
        let ls = ed.linestring;
        if x == dog_leg.side_roads.0 || x == dog_leg.side_roads.1 {
            let trim = if x == dog_leg.side_roads.0 {
                trims.0
            } else {
                trims.1
            };
            match trim {
                None => ls,
                Some(t) => if ed.src == new {
                    seq![midpt, t] + ls.skip(1)
                } else {
                    ls.drop_last() + seq![t, midpt]
                },
            }
        } else if ed.src == new {
            seq![midpt] + ls
        } else {
            ls + seq![midpt]
        }
    }

    /// The graph after the linestrings of the edges `list` were fixed up, one
    /// by one.
    pub open spec fn fix_dog_leg(
        self,
        list: Seq<EdgeID>,
        new: IntersectionID,
        midpt: C,
        dog_leg: DogLeg,
        trims: (Option<C>, Option<C>),
    ) -> GraphView<C>
        decreases list.len(),
    {
        if list.len() == 0 {
            self
        } else {
            let g = self.fix_dog_leg(list.drop_last(), new, midpt, dog_leg, trims);
            g.with_linestring(
                list.last(),
                g.fixed_linestring(list.last(), new, midpt, dog_leg, trims),
            )
        }
    }

    /// The command that folds edge `e` into the point `midpt`: the edge goes,
    /// a new synthetic intersection appears at `midpt`, and both ends of `e`
    /// are folded into it. If `e` is no dog-leg, the edges that ended there
    /// are drawn out to `midpt`; if it is, they are fixed up one by one.
    pub open spec fn collapse_edge(
        self,
        e: EdgeID,
        midpt: C,
        dog_leg: Option<DogLeg>,
        trims: (Option<C>, Option<C>),
    ) -> GraphView<C> {
        let edge = self.edges[e];
        let g1 = self.remove_edge(e);
        let new = g1.next_intersection_id();
        let g3 = g1.create_intersection(midpt, IntersectionProvenance::Synthetic).replace_all(
            seq![edge.src, edge.dst],
            new,
            dog_leg is None,
        );
        match dog_leg {
            None => g3,
            Some(d) => g3.fix_dog_leg(g3.intersections[new].edges, new, midpt, d, trims),
        }
    }
}

/// Fixing up live edges keeps the graph consistent and changes nothing but
/// linestrings.
pub proof fn lemma_fix_dog_leg<C>(
    g: GraphView<C>,
    list: Seq<EdgeID>,
    new: IntersectionID,
    midpt: C,
    dog_leg: DogLeg,
    trims: (Option<C>, Option<C>),
)
    requires
        g.wf(),
        forall|k: int| 0 <= k < list.len() ==> g.edges.contains_key(#[trigger] list[k]),
    ensures
        g.fix_dog_leg(list, new, midpt, dog_leg, trims).wf(),
        g.fix_dog_leg(list, new, midpt, dog_leg, trims).edges.dom() == g.edges.dom(),
        g.fix_dog_leg(list, new, midpt, dog_leg, trims).intersections == g.intersections,
        g.fix_dog_leg(list, new, midpt, dog_leg, trims).edge_id_counter == g.edge_id_counter,
        g.fix_dog_leg(list, new, midpt, dog_leg, trims).intersection_id_counter
            == g.intersection_id_counter,
    decreases list.len(),
{
    if list.len() > 0 {
        let init = list.drop_last();
        assert forall|k: int| 0 <= k < init.len() implies g.edges.contains_key(
            #[trigger] init[k],
        ) by {
            assert(init[k] == list[k]);
        }
        lemma_fix_dog_leg(g, init, new, midpt, dog_leg, trims);
        let mid = g.fix_dog_leg(init, new, midpt, dog_leg, trims);
        let x = list.last();
        assert(g.edges.contains_key(list[list.len() - 1]));
        assert(mid.edges.dom().contains(x));
        assert(mid.edge_wf(x));
        let ls = mid.fixed_linestring(x, new, midpt, dog_leg, trims);
        assert(ls.len() >= 2);
        lemma_with_field_wf(mid, x, ls, mid.edges[x].kind);
        assert(mid.with_linestring(x, ls).edges.dom() =~= mid.edges.dom());
    }
}

/// Folding an edge into its midpoint keeps the graph consistent and takes
/// exactly that edge away.
pub proof fn lemma_collapse_edge<C>(
    g: GraphView<C>,
    e: EdgeID,
    midpt: C,
    dog_leg: Option<DogLeg>,
    trims: (Option<C>, Option<C>),
)
    requires
        g.wf(),
        g.edges.contains_key(e),
        g.intersection_id_counter < usize::MAX,
    ensures
        g.collapse_edge(e, midpt, dog_leg, trims).wf(),
        g.collapse_edge(e, midpt, dog_leg, trims).edges.dom() == g.edges.dom().remove(e),
        g.collapse_edge(e, midpt, dog_leg, trims).edge_id_counter == g.edge_id_counter,
        g.collapse_edge(e, midpt, dog_leg, trims).intersection_id_counter
            == g.intersection_id_counter + 1,
        (g.endpoints_attached() && dog_leg is None) ==> g.collapse_edge(
            e,
            midpt,
            dog_leg,
            trims,
        ).endpoints_attached(),
{
    let edge = g.edges[e];
    let g1 = g.remove_edge(e);
    lemma_remove_edge_wf(g, e);
    let new = g1.next_intersection_id();
    let g2 = g1.create_intersection(midpt, IntersectionProvenance::Synthetic);
    lemma_create_intersection_wf(g1, midpt, IntersectionProvenance::Synthetic);
    let g3 = g2.replace_all(seq![edge.src, edge.dst], new, dog_leg is None);
    lemma_replace_all(g2, seq![edge.src, edge.dst], new, dog_leg is None);
    assert(g3.edges.dom() =~= g.edges.dom().remove(e));
    match dog_leg {
        None => {},
        Some(d) => {
            let list = g3.intersections[new].edges;
            assert(g3.intersection_wf(new));
            assert forall|k: int| 0 <= k < list.len() implies g3.edges.contains_key(
                #[trigger] list[k],
            ) by {
                assert(g3.incident(list[k], new));
            }
            lemma_fix_dog_leg(g3, list, new, midpt, d, trims);
        },
    }
}

impl<C> GraphView<C> {
    /// Whether fixing up the edges `list` at `new` can attach them all: none
    /// of them is a loop at `new`, and there is a trim point for each side
    /// road among them.
    pub open spec fn can_attach(
        self,
        list: Seq<EdgeID>,
        new: IntersectionID,
        dog_leg: DogLeg,
        trims: (Option<C>, Option<C>),
    ) -> bool {
        &&& forall|k: int|
            0 <= k < list.len() ==> !(self.edges[#[trigger] list[k]].src == new && self.edges[list[k]].dst
                == new)
        &&& list.contains(dog_leg.side_roads.0) ==> trims.0 is Some
        &&& list.contains(dog_leg.side_roads.1) && dog_leg.side_roads.1 != dog_leg.side_roads.0
            ==> trims.1 is Some
    }

    /// Edge `x` runs from the point of its source to the point of its
    /// destination.
    pub open spec fn attached(self, x: EdgeID) -> bool {
        let edge = self.edges[x];
        &&& edge.linestring.len() > 0
        &&& self.intersections.contains_key(edge.src)
        &&& self.intersections.contains_key(edge.dst)
        &&& edge.linestring.first() == self.intersections[edge.src].point
        &&& edge.linestring.last() == self.intersections[edge.dst].point
    }
}

/// Fixing up edges that end at `new`, none of them a loop and each with the
/// trim point it needs, attaches them to `new` and leaves the others alone.
pub proof fn lemma_fix_dog_leg_attaches<C>(
    g: GraphView<C>,
    list: Seq<EdgeID>,
    new: IntersectionID,
    midpt: C,
    dog_leg: DogLeg,
    trims: (Option<C>, Option<C>),
)
    requires
        g.wf(),
        g.attached_but_at(new),
        g.intersections.contains_key(new),
        g.intersections[new].point == midpt,
        list.no_duplicates(),
        forall|k: int| 0 <= k < list.len() ==> g.incident(#[trigger] list[k], new),
        g.can_attach(list, new, dog_leg, trims),
    ensures
        forall|x: EdgeID|
            list.contains(x) ==> #[trigger] g.fix_dog_leg(list, new, midpt, dog_leg, trims).attached(
                x,
            ),
        forall|x: EdgeID|
            g.edges.contains_key(x) && !list.contains(x) ==> #[trigger] g.fix_dog_leg(
                list,
                new,
                midpt,
                dog_leg,
                trims,
            ).edges[x] == g.edges[x],
        forall|x: EdgeID| #[trigger]
            g.edges.contains_key(x) ==> g.fix_dog_leg(list, new, midpt, dog_leg, trims).edges[x].src
                == g.edges[x].src && g.fix_dog_leg(list, new, midpt, dog_leg, trims).edges[x].dst
                == g.edges[x].dst,
    decreases list.len(),
{
    let h = g.fix_dog_leg(list, new, midpt, dog_leg, trims);
    if list.len() > 0 {
        let init = list.drop_last();
        let x = list.last();
        assert forall|k: int| 0 <= k < init.len() implies g.incident(#[trigger] init[k], new) by {
            assert(init[k] == list[k]);
        }
        assert(g.can_attach(init, new, dog_leg, trims)) by {
            assert forall|k: int| 0 <= k < init.len() implies !(g.edges[#[trigger] init[k]].src == new
                && g.edges[init[k]].dst == new) by {
                assert(init[k] == list[k]);
            }
            assert forall|y: EdgeID| init.contains(y) implies list.contains(y) by {
                let j = init.index_of(y);
                assert(list[j] == y);
            }
        }
        assert forall|k: int| 0 <= k < init.len() implies g.edges.contains_key(
            #[trigger] init[k],
        ) by {
            assert(g.incident(init[k], new));
        }
        lemma_fix_dog_leg_attaches(g, init, new, midpt, dog_leg, trims);
        lemma_fix_dog_leg(g, init, new, midpt, dog_leg, trims);
        let mid = g.fix_dog_leg(init, new, midpt, dog_leg, trims);
        assert(g.incident(list[list.len() - 1], new));
        assert(!init.contains(x)) by {
            if init.contains(x) {
                let j = init.index_of(x);
                assert(list[j] == list[list.len() - 1]);
            }
        }
        assert(mid.edges[x] == g.edges[x]);
        let ed = g.edges[x];
        let ls = mid.fixed_linestring(x, new, midpt, dog_leg, trims);
        assert(g.edge_wf(x));
        assert(!(g.edges[list[list.len() - 1]].src == new && g.edges[list[list.len() - 1]].dst
            == new));
        assert(list.contains(x)) by {
            assert(list[list.len() - 1] == x);
        }
        assert(ls.len() > 0);
        assert(ls.first() == (if ed.src == new {
            midpt
        } else {
            ed.linestring.first()
        })) by {
            if x == dog_leg.side_roads.0 || x == dog_leg.side_roads.1 {
                if ed.src != new {
                    assert(ed.linestring.drop_last().len() > 0);
                    assert(ls[0] == ed.linestring[0]);
                }
            }
        }
        assert(ls.last() == (if ed.src == new {
            ed.linestring.last()
        } else {
            midpt
        })) by {
            if x == dog_leg.side_roads.0 || x == dog_leg.side_roads.1 {
                if ed.src == new {
                    let t = if x == dog_leg.side_roads.0 {
                        trims.0->0
                    } else {
                        trims.1->0
                    };
                    assert(ls =~= seq![midpt, t] + ed.linestring.skip(1));
                    if ed.linestring.len() > 1 {
                        assert(ls[ls.len() - 1] == ed.linestring[ed.linestring.len() - 1]);
                    }
                }
            } else if ed.src == new {
                assert(ls[ls.len() - 1] == ed.linestring[ed.linestring.len() - 1]);
            }
        }
        assert(h == mid.with_linestring(x, ls));
        assert forall|y: EdgeID| list.contains(y) implies #[trigger] h.attached(y) by {
            crate::seqs::lemma_contains_push(init, x, y);
            assert(init.push(x) == list);
            if y == x {
                assert(h.edges[x].linestring == ls);
            } else {
                assert(mid.attached(y));
                assert(h.edges[y] == mid.edges[y]);
            }
        }
        assert forall|y: EdgeID| g.edges.contains_key(y) && !list.contains(y) implies #[trigger] h.edges[y]
            == g.edges[y] by {
            crate::seqs::lemma_contains_push(init, x, y);
            assert(init.push(x) == list);
            assert(mid.edges[y] == g.edges[y]);
        }
        assert forall|y: EdgeID| #[trigger] g.edges.contains_key(y) implies h.edges[y].src
            == g.edges[y].src && h.edges[y].dst == g.edges[y].dst by {
            assert(mid.edges[y].src == g.edges[y].src);
        }
    }
}

/// Folding a dog-leg into its midpoint keeps every linestring attached, if
/// no edge is left as a loop at the midpoint and there is a trim point for
/// each side road.
pub proof fn lemma_collapse_dog_leg_attached<C>(
    g: GraphView<C>,
    e: EdgeID,
    midpt: C,
    dog_leg: DogLeg,
    trims: (Option<C>, Option<C>),
)
    requires
        g.wf(),
        g.endpoints_attached(),
        g.edges.contains_key(e),
        g.intersection_id_counter < usize::MAX,
        ({
            let edge = g.edges[e];
            let new = g.remove_edge(e).next_intersection_id();
            let folded = g.remove_edge(e).create_intersection(
                midpt,
                IntersectionProvenance::Synthetic,
            ).replace_all(seq![edge.src, edge.dst], new, false);
            folded.can_attach(folded.intersections[new].edges, new, dog_leg, trims)
        }),
    ensures
        g.collapse_edge(e, midpt, Some(dog_leg), trims).endpoints_attached(),
{
    let edge = g.edges[e];
    let g1 = g.remove_edge(e);
    lemma_remove_edge_wf(g, e);
    let new = g1.next_intersection_id();
    let g2 = g1.create_intersection(midpt, IntersectionProvenance::Synthetic);
    lemma_create_intersection_wf(g1, midpt, IntersectionProvenance::Synthetic);
    let ends = seq![edge.src, edge.dst];
    let g3 = g2.replace_all(ends, new, false);
    lemma_replace_all(g2, ends, new, false);
    assert(g2.attached_but_at(new)) by {
        assert forall|x: EdgeID| #[trigger] g2.edges.contains_key(x) implies ({
            let ed = g2.edges[x];
            &&& ed.linestring.len() > 0
            &&& g2.intersections.contains_key(ed.src)
            &&& g2.intersections.contains_key(ed.dst)
            &&& ed.src != new ==> ed.linestring.first() == g2.intersections[ed.src].point
            &&& ed.dst != new ==> ed.linestring.last() == g2.intersections[ed.dst].point
        }) by {
            assert(g2.endpoints_attached());
        }
    }
    crate::rewrite::lemma_replace_all_attached_but(g2, ends, new, false);
    let list = g3.intersections[new].edges;
    assert(g3.intersection_wf(new));
    assert(g3.intersections[new].point == midpt) by {
        assert(g2.intersections[new].point == midpt);
        lemma_replace_all_keeps_point(g2, ends, new, false);
    }
    lemma_fix_dog_leg_attaches(g3, list, new, midpt, dog_leg, trims);
    lemma_fix_dog_leg(g3, list, new, midpt, dog_leg, trims);
    let h = g3.fix_dog_leg(list, new, midpt, dog_leg, trims);
    assert forall|x: EdgeID| #[trigger] h.edges.contains_key(x) implies ({
        let ed = h.edges[x];
        &&& ed.linestring.len() > 0
        &&& h.intersections.contains_key(ed.src)
        &&& h.intersections.contains_key(ed.dst)
        &&& ed.linestring.first() == h.intersections[ed.src].point
        &&& ed.linestring.last() == h.intersections[ed.dst].point
    }) by {
        assert(g3.edges.dom().contains(x));
        assert(g3.edges.contains_key(x));
        if list.contains(x) {
            assert(h.attached(x));
        } else {
            assert(h.edges[x] == g3.edges[x]);
            crate::model::lemma_listed_iff_incident(g3, x, new);
        }
    }
}

/// Folding intersections into `new` leaves the point of `new` where it is,
/// and its id and provenance as they were.
pub proof fn lemma_replace_all_keeps_point<C>(
    g: GraphView<C>,
    olds: Seq<IntersectionID>,
    new: IntersectionID,
    extend: bool,
)
    requires
        g.intersections.contains_key(new),
    ensures
        g.replace_all(olds, new, extend).intersections.contains_key(new),
        g.replace_all(olds, new, extend).intersections[new].point == g.intersections[new].point,
        g.replace_all(olds, new, extend).intersections[new].provenance
            == g.intersections[new].provenance,
        g.replace_all(olds, new, extend).intersections[new].id == g.intersections[new].id,
    decreases olds.len(),
{
    if olds.len() > 0 {
        lemma_replace_all_keeps_point(g, olds.drop_last(), new, extend);
    }
}

/// What fixing up does to every edge: an edge of the list, which names no
/// edge twice, has the linestring that `fixed_linestring` gives for it and
/// is otherwise as it was; every other edge is as it was.
pub proof fn lemma_fix_dog_leg_edges<C>(
    g: GraphView<C>,
    list: Seq<EdgeID>,
    new: IntersectionID,
    midpt: C,
    dog_leg: DogLeg,
    trims: (Option<C>, Option<C>),
)
    requires
        list.no_duplicates(),
        forall|k: int| 0 <= k < list.len() ==> g.edges.contains_key(#[trigger] list[k]),
    ensures
        forall|x: EdgeID|
            list.contains(x) ==> #[trigger] g.fix_dog_leg(list, new, midpt, dog_leg, trims).edges[x]
                == (crate::model::EdgeView {
                linestring: g.fixed_linestring(x, new, midpt, dog_leg, trims),
                ..g.edges[x]
            }),
        forall|x: EdgeID|
            g.edges.contains_key(x) && !list.contains(x) ==> #[trigger] g.fix_dog_leg(
                list,
                new,
                midpt,
                dog_leg,
                trims,
            ).edges[x] == g.edges[x],
    decreases list.len(),
{
    let h = g.fix_dog_leg(list, new, midpt, dog_leg, trims);
    if list.len() > 0 {
        let init = list.drop_last();
        let x = list.last();
        assert forall|k: int| 0 <= k < init.len() implies g.edges.contains_key(
            #[trigger] init[k],
        ) by {
            assert(init[k] == list[k]);
        }
        lemma_fix_dog_leg_edges(g, init, new, midpt, dog_leg, trims);
        let mid = g.fix_dog_leg(init, new, midpt, dog_leg, trims);
        assert(g.edges.contains_key(list[list.len() - 1]));
        assert(!init.contains(x)) by {
            if init.contains(x) {
                let j = init.index_of(x);
                assert(list[j] == list[list.len() - 1]);
            }
        }
        assert(mid.edges[x] == g.edges[x]);
        assert(mid.fixed_linestring(x, new, midpt, dog_leg, trims) == g.fixed_linestring(
            x,
            new,
            midpt,
            dog_leg,
            trims,
        ));
        assert(init.push(x) == list);
        assert forall|y: EdgeID| list.contains(y) implies #[trigger] h.edges[y]
            == (crate::model::EdgeView {
            linestring: g.fixed_linestring(y, new, midpt, dog_leg, trims),
            ..g.edges[y]
        }) by {
            crate::seqs::lemma_contains_push(init, x, y);
        }
        assert forall|y: EdgeID| g.edges.contains_key(y) && !list.contains(y) implies #[trigger] h.edges[y]
            == g.edges[y] by {
            crate::seqs::lemma_contains_push(init, x, y);
        }
    }
}

impl<C> GraphView<C> {
    /// Intersection `i` is an end of edge `e`.
    pub open spec fn at_end_of(self, e: EdgeID, i: IntersectionID) -> bool {
        i == self.edges[e].src || i == self.edges[e].dst
    }

    /// The linestring of edge `x` after edge `e` was folded into `midpt`.
    /// An edge that ended at neither end of `e` keeps its linestring. If `e`
    /// is no dog-leg, the midpoint is added at each end that sat on an end
    /// of `e`. If it is one, a side road with a trim point has its tip
    /// replaced by the trim point and the midpoint added beyond it, a side
    /// road without a trim point stays as it is, and any other edge gets the
    /// midpoint added at its tip; the tip is the start if the edge left an
    /// end of `e`, else the end.
    pub open spec fn collapsed_linestring(
        self,
        e: EdgeID,
        x: EdgeID,
        midpt: C,
        dog_leg: Option<DogLeg>,
        trims: (Option<C>, Option<C>),
    ) -> Seq<C> {
        let ed = self.edges[x];
        let ls = ed.linestring;
        let src_moves = self.at_end_of(e, ed.src);
        let dst_moves = self.at_end_of(e, ed.dst);
        match dog_leg {
            None => (if src_moves {
                seq![midpt]
            } else {
                Seq::<C>::empty()
            }) + ls + (if dst_moves {
                seq![midpt]
            } else {
                Seq::<C>::empty()
            }),
            Some(d) => {
                if !src_moves && !dst_moves {
                    ls
                } else if x == d.side_roads.0 || x == d.side_roads.1 {
                    let trim = if x == d.side_roads.0 {
                        trims.0
                    } else {
                        trims.1
                    };
                    match trim {
                        None => ls,
                        Some(t) => if src_moves {
                            seq![midpt, t] + ls.skip(1)
                        } else {
                            ls.drop_last() + seq![t, midpt]
                        },
                    }
                } else if src_moves {
                    seq![midpt] + ls
                } else {
                    ls + seq![midpt]
                }
            },
        }
    }
}

/// What folding an edge into its midpoint does, in full. One intersection is
/// added: under an id that was not in use, synthetic, at the midpoint, and
/// listing exactly the other edges that ended where the folded edge ended.
/// The folded edge and both of its ends are gone. Every other intersection
/// is as it was. Every other edge keeps its id and its kind; each of its
/// ends that sat on an end of the folded edge sits on the new intersection,
/// every other end is as it was; and its linestring is the one that
/// `collapsed_linestring` gives.
pub proof fn lemma_collapse_edge_in_full<C>(
    g: GraphView<C>,
    e: EdgeID,
    midpt: C,
    dog_leg: Option<DogLeg>,
    trims: (Option<C>, Option<C>),
)
    requires
        g.wf(),
        g.edges.contains_key(e),
        g.intersection_id_counter < usize::MAX,
    ensures
        ({
            let h = g.collapse_edge(e, midpt, dog_leg, trims);
            let new = g.next_intersection_id();
            let ends = g.edges[e];
            &&& !g.intersections.contains_key(new)
            &&& h.intersections.contains_key(new)
            &&& h.intersections[new].id == new
            &&& h.intersections[new].point == midpt
            &&& h.intersections[new].provenance == IntersectionProvenance::Synthetic
            &&& forall|x: EdgeID| #[trigger]
                h.intersections[new].edges.contains(x) <==> (x != e && (
                g.intersections[ends.src].edges.contains(x)
                    || g.intersections[ends.dst].edges.contains(x)))
            &&& forall|j: IntersectionID| #[trigger]
                h.intersections.contains_key(j) <==> (j == new || (g.intersections.contains_key(j)
                    && !g.at_end_of(e, j)))
            &&& forall|j: IntersectionID|
                j != new && #[trigger] h.intersections.contains_key(j) ==> h.intersections[j]
                    == g.intersections[j]
            &&& forall|x: EdgeID| #[trigger] h.edges.contains_key(x) <==> (g.edges.contains_key(x) && x != e)
            &&& forall|x: EdgeID| #[trigger]
                h.edges.contains_key(x) ==> h.edges[x] == (crate::model::EdgeView {
                    id: g.edges[x].id,
                    src: if g.at_end_of(e, g.edges[x].src) {
                        new
                    } else {
                        g.edges[x].src
                    },
                    dst: if g.at_end_of(e, g.edges[x].dst) {
                        new
                    } else {
                        g.edges[x].dst
                    },
                    linestring: g.collapsed_linestring(e, x, midpt, dog_leg, trims),
                    kind: g.edges[x].kind,
                })
        }),
{
    let ends = g.edges[e];
    let s = ends.src;
    let d = ends.dst;
    assert(g.edge_wf(e));
    let g1 = g.remove_edge(e);
    lemma_remove_edge_wf(g, e);
    let new = g1.next_intersection_id();
    assert(new == g.next_intersection_id());
    let g2 = g1.create_intersection(midpt, IntersectionProvenance::Synthetic);
    lemma_create_intersection_wf(g1, midpt, IntersectionProvenance::Synthetic);
    let both = seq![s, d];
    let extend = dog_leg is None;
    let g3 = g2.replace_all(both, new, extend);
    lemma_replace_all(g2, both, new, extend);
    crate::rewrite::lemma_replace_all_edges(g2, both, new, extend);
    lemma_replace_all_keeps_point(g2, both, new, extend);
    let gone = g2.live_among(both, new);
    assert forall|j: IntersectionID| gone.contains(j) <==> g.at_end_of(e, j) by {
        g2.lemma_live_among(both, new, j);
        if both.contains(j) {
            let k = both.index_of(j);
            assert(k == 0 || k == 1);
        }
        if j == s {
            assert(both[0] == j);
        }
        if j == d {
            assert(both[1] == j);
        }
    }
    assert forall|x: EdgeID| #[trigger]
        g3.intersections[new].edges.contains(x) <==> (x != e && (g.intersections[s].edges.contains(
            x,
        ) || g.intersections[d].edges.contains(x))) by {
        assert(g2.intersections[new].edges.len() == 0);
        assert(!g2.intersections[new].edges.contains(x));
        assert(g2.intersections[s] == g1.intersections[s]);
        assert(g2.intersections[d] == g1.intersections[d]);
        if g2.listed_at_any(gone, x) {
            let k = choose|k: int|
                0 <= k < gone.len() && g2.intersections[#[trigger] gone[k]].edges.contains(x);
            assert(gone.contains(gone[k]));
        }
        if x != e && g.intersections[s].edges.contains(x) {
            assert(gone.contains(s));
            let k = gone.index_of(s);
            assert(g2.intersections[gone[k]].edges.contains(x));
        }
        if x != e && g.intersections[d].edges.contains(x) {
            assert(gone.contains(d));
            let k = gone.index_of(d);
            assert(g2.intersections[gone[k]].edges.contains(x));
        }
    }
    assert forall|j: IntersectionID| #[trigger]
        g3.intersections.contains_key(j) <==> (j == new || (g.intersections.contains_key(j)
            && !g.at_end_of(e, j))) by {
        if j == s {
            assert(both[0] == j);
        }
        if j == d {
            assert(both[1] == j);
        }
        if both.contains(j) {
            let k = both.index_of(j);
            assert(k == 0 || k == 1);
        }
    }
    assert forall|j: IntersectionID|
        j != new && #[trigger] g3.intersections.contains_key(j) implies g3.intersections[j]
        == g.intersections[j] by {
        assert(g2.intersections.contains_key(j));
        assert(g.intersections.contains_key(j));
        assert(!g.at_end_of(e, j));
        assert(!g.incident(e, j));
    }
    assert forall|x: EdgeID| #[trigger] g3.edges.contains_key(x) implies g3.edges[x]
        == g2.folded_edge(x, both, new, extend) && g2.edges[x] == g.edges[x] by {
        assert(g3.edges.dom().contains(x));
        assert(g2.edges.contains_key(x));
    }
    let h = g.collapse_edge(e, midpt, dog_leg, trims);
    match dog_leg {
        None => {
            assert(h == g3);
        },
        Some(dl) => {
            let list = g3.intersections[new].edges;
            assert(g3.intersection_wf(new));
            assert forall|k: int| 0 <= k < list.len() implies g3.edges.contains_key(
                #[trigger] list[k],
            ) by {
                assert(g3.incident(list[k], new));
            }
            lemma_fix_dog_leg(g3, list, new, midpt, dl, trims);
            lemma_fix_dog_leg_edges(g3, list, new, midpt, dl, trims);
            assert(h == g3.fix_dog_leg(list, new, midpt, dl, trims));
            assert forall|x: EdgeID| #[trigger] h.edges.contains_key(x) implies h.edges[x]
                == (crate::model::EdgeView {
                id: g.edges[x].id,
                src: if g.at_end_of(e, g.edges[x].src) {
                    new
                } else {
                    g.edges[x].src
                },
                dst: if g.at_end_of(e, g.edges[x].dst) {
                    new
                } else {
                    g.edges[x].dst
                },
                linestring: g.collapsed_linestring(e, x, midpt, dog_leg, trims),
                kind: g.edges[x].kind,
            }) by {
                assert(g3.edges.dom().contains(x));
                assert(g3.edges.contains_key(x));
                let folded = g3.edges[x];
                let was = g.edges[x];
                assert(folded == g2.folded_edge(x, both, new, false));
                assert(folded.linestring =~= was.linestring);
                crate::model::lemma_listed_iff_incident(g3, x, new);
                assert(g.edge_wf(x));
                assert(was.src != new && was.dst != new);
                assert(list.contains(x) <==> (g.at_end_of(e, was.src) || g.at_end_of(e, was.dst)));
                assert(folded.src == new <==> g.at_end_of(e, was.src));
            }
        },
    }
}

/// The tip from which a side road is trimmed is the tip that sits on the
/// new intersection once the edge is folded: the start of the side road, if
/// it then leaves the new intersection.
pub proof fn lemma_tip_at_start<C>(
    g: GraphView<C>,
    e: EdgeID,
    side: EdgeID,
    midpt: C,
    dog_leg: DogLeg,
    trims: (Option<C>, Option<C>),
)
    requires
        g.wf(),
        g.edges.contains_key(e),
        g.edges.contains_key(side),
        side != e,
        g.intersection_id_counter < usize::MAX,
    ensures
        g.tip_at_start(e, side) <==> g.collapse_edge(e, midpt, Some(dog_leg), trims).edges[side].src
            == g.next_intersection_id(),
{
    lemma_collapse_edge_in_full(g, e, midpt, Some(dog_leg), trims);
    assert(g.edge_wf(side));
    let h = g.collapse_edge(e, midpt, Some(dog_leg), trims);
    assert(h.edges.contains_key(side));
}

impl<C: Copy> Graph<C> {
    /// Whether the two names are the same: both missing, or both there and equal.
    fn same_name(a: Option<&String>, b: Option<&String>) -> (r: bool)
        ensures
            r == (match (a, b) {
                (Some(x), Some(y)) => x@ == y@,
                (None, None) => true,
                _ => false,
            }),
    {
        match (a, b) {
            (Some(x), Some(y)) => *x == *y,
            (None, None) => true,
            _ => false,
        }
    }

    /// The name of the road that a live edge is part of, if it has one.
    pub fn edge_name(&self, x: EdgeID) -> (r: Option<&String>)
        requires
            self.inv(),
            self@.edges.contains_key(x),
        ensures
            r is Some <==> self@.name_of(x) is Some,
            r is Some ==> r->0@ == self@.name_of(x)->0,
    {
        proof {
            assert(self@.edge_wf(x));
        }
        match self.edge(x) {
            Some(edge) => edge.kind.get_road_name(self),
            None => None,
        }
    }

    /// The edges at a live intersection that are not named like edge `e`.
    pub fn side_edges(&self, i: IntersectionID, e: EdgeID) -> (r: Vec<EdgeID>)
        requires
            self.inv(),
            self@.intersections.contains_key(i),
            self@.edges.contains_key(e),
        ensures
            r@ == self@.side_edges(i, e),
    {
        let ghost g = self@;
        let ghost pred = |x: EdgeID| g.name_of(x) != g.name_of(e);
        let name = self.edge_name(e);
        let mut out: Vec<EdgeID> = Vec::new();
        proof {
            assert(g.intersection_wf(i));
        }
        match self.intersection(i) {
            Some(at) => {
                let ghost list = at.edges@;
                let mut k: usize = 0;
                while k < at.edges.len()
                    invariant
                        k <= list.len(),
                        list == at.edges@,
                        g == self@,
                        self.inv(),
                        forall|j: int| 0 <= j < list.len() ==> g.incident(#[trigger] list[j], i),
                        pred == (|x: EdgeID| g.name_of(x) != g.name_of(e)),
                        name is Some <==> g.name_of(e) is Some,
                        name is Some ==> name->0@ == g.name_of(e)->0,
                        out@ == keep(list.take(k as int), pred),
                    decreases list.len() - k,
                {
                    let x = at.edges[k];
                    assert(g.incident(list[k as int], i));
                    assert(list.take(k + 1).drop_last() == list.take(k as int));
                    let other = self.edge_name(x);
                    let same = Self::same_name(other, name);
                    assert(same == !pred(x));
                    if !same {
                        out.push(x);
                    }
                    k = k + 1;
                }
                assert(list.take(list.len() as int) == list);
            },
            None => {},
        }
        out
    }

    /// From which tip a side road is trimmed when edge `e` is folded into its
    /// midpoint: from the start of its linestring, or else from its end.
    /// There is no answer unless both edges are live.
    pub fn tip_at_start(&self, e: EdgeID, side: EdgeID) -> (r: Option<bool>)
        ensures
            r is Some <==> (self@.edges.contains_key(e) && self@.edges.contains_key(side)),
            r is Some ==> r->0 == self@.tip_at_start(e, side),
    {
        match (self.edge(e), self.edge(side)) {
            (Some(short), Some(road)) => Some(road.src == short.src || road.src == short.dst),
            _ => None,
        }
    }

    /// Whether edge `e` is a dog-leg by these measurements, and between which
    /// side roads.
    pub fn is_dog_leg(&self, e: EdgeID, measures: &Measures) -> (r: Option<DogLeg>)
        requires
            self.inv(),
            self@.edges.contains_key(e),
        ensures
            r == self@.dog_leg(e, measures@),
    {
        let ghost g = self@;
        proof {
            assert(g.edge_wf(e));
        }
        let (src, dst) = match self.edge(e) {
            Some(edge) => (edge.src, edge.dst),
            None => {
                return None;
            },
        };
        match measures.get(e) {
            Some(m) => {
                if m.length > DOG_LEG_MAX_LENGTH {
                    return None;
                }
            },
            None => {
                return None;
            },
        }
        let src_degree = match self.intersection(src) {
            Some(x) => x.edges.len(),
            None => 0,
        };
        let dst_degree = match self.intersection(dst) {
            Some(x) => x.edges.len(),
            None => 0,
        };
        if src_degree != 3 || dst_degree != 3 {
            return None;
        }
        let src_edges = self.side_edges(src, e);
        let dst_edges = self.side_edges(dst, e);
        if src_edges.len() != 1 || dst_edges.len() != 1 {
            return None;
        }
        let s1 = src_edges[0];
        let s2 = dst_edges[0];
        proof {
            lemma_keep(g.intersections[src].edges, |x: EdgeID| g.name_of(x) != g.name_of(e));
            lemma_keep(g.intersections[dst].edges, |x: EdgeID| g.name_of(x) != g.name_of(e));
            assert(src_edges@.contains(src_edges@[0]));
            assert(dst_edges@.contains(dst_edges@[0]));
            assert(g.intersection_wf(src));
            assert(g.intersection_wf(dst));
            let k1 = g.intersections[src].edges.index_of(s1);
            assert(g.incident(g.intersections[src].edges[k1], src));
            let k2 = g.intersections[dst].edges.index_of(s2);
            assert(g.incident(g.intersections[dst].edges[k2], dst));
        }
        let (m1, m2) = match (measures.get(s1), measures.get(s2)) {
            (Some(m1), Some(m2)) => (m1, m2),
            _ => {
                return None;
            },
        };
        let b1 = match self.edge(s1) {
            Some(side) => if side.dst == src {
                m1.bearing
            } else {
                m1.reverse_bearing
            },
            None => m1.bearing,
        };
        let b2 = match self.edge(s2) {
            Some(side) => if side.dst == dst {
                m2.bearing
            } else {
                m2.reverse_bearing
            },
            None => m2.bearing,
        };
        if b1.gap(b2) < DOG_LEG_CUTOFF {
            return None;
        }
        Some(DogLeg { side_roads: (s1, s2) })
    }

    /// The linestring of a live edge after a dog-leg was folded into `new` at
    /// `midpt`.
    fn fixed_linestring(
        &self,
        x: EdgeID,
        new: IntersectionID,
        midpt: C,
        dog_leg: DogLeg,
        trims: (Option<C>, Option<C>),
    ) -> (r: Vec<C>)
        requires
            self.inv(),
            self@.edges.contains_key(x),
        ensures
            r@ == self@.fixed_linestring(x, new, midpt, dog_leg, trims),
            r@.len() >= 2,
    {
        proof {
            assert(self@.edge_wf(x));
        }
        match self.edge(x) {
            Some(ed) => {
                if x == dog_leg.side_roads.0 || x == dog_leg.side_roads.1 {
                    let trim = if x == dog_leg.side_roads.0 {
                        trims.0
                    } else {
                        trims.1
                    };
                    match trim {
                        None => copy_vec(&ed.linestring),
                        Some(t) => {
                            if ed.src == new {
                                let mut out: Vec<C> = Vec::new();
                                out.push(midpt);
                                out.push(t);
                                let mut k: usize = 1;
                                while k < ed.linestring.len()
                                    invariant
                                        1 <= k <= ed.linestring@.len(),
                                        out@ == seq![midpt, t] + ed.linestring@.subrange(
                                            1,
                                            k as int,
                                        ),
                                    decreases ed.linestring@.len() - k,
                                {
                                    out.push(ed.linestring[k]);
                                    assert(ed.linestring@.subrange(1, k + 1)
                                        == ed.linestring@.subrange(1, k as int).push(
                                        ed.linestring@[k as int],
                                    ));
                                    assert(out@ =~= seq![midpt, t] + ed.linestring@.subrange(
                                        1,
                                        k + 1,
                                    ));
                                    k = k + 1;
                                }
                                assert(ed.linestring@.subrange(1, ed.linestring@.len() as int)
                                    == ed.linestring@.skip(1));
                                out
                            } else {
                                let mut out = copy_vec(&ed.linestring);
                                out.pop();
                                out.push(t);
                                out.push(midpt);
                                assert(out@ =~= ed.linestring@.drop_last() + seq![t, midpt]);
                                out
                            }
                        },
                    }
                } else if ed.src == new {
                    let mut front: Vec<C> = Vec::new();
                    front.push(midpt);
                    let out = concat(&front, &ed.linestring);
                    assert(front@ =~= seq![midpt]);
                    out
                } else {
                    let mut out = copy_vec(&ed.linestring);
                    out.push(midpt);
                    assert(out@ =~= ed.linestring@ + seq![midpt]);
                    out
                }
            },
            None => Vec::new(),
        }
    }

    /// Folds edge `collapse_e` into the point `midpt`, which the caller has
    /// measured as the middle of its linestring. With a dog-leg, `trims` holds
    /// for each side road the point one metre in from the tip that is to be
    /// joined to `midpt`, if there is such a point.
    pub fn collapse_edge(
        &mut self,
        collapse_e: EdgeID,
        midpt: C,
        dog_leg: Option<DogLeg>,
        trims: (Option<C>, Option<C>),
    ) -> (new_intersection: IntersectionID)
        requires
            old(self).inv(),
            old(self)@.edges.contains_key(collapse_e),
            old(self)@.intersection_id_counter < usize::MAX,
        ensures
            final(self).inv(),
            final(self)@ == old(self)@.collapse_edge(collapse_e, midpt, dog_leg, trims),
            new_intersection == old(self)@.next_intersection_id(),
    {
        let ghost g = self@;
        let edge = self.remove_edge(collapse_e);
        proof {
            lemma_remove_edge_wf(g, collapse_e);
        }
        let new_intersection = self.create_intersection(midpt, IntersectionProvenance::Synthetic);
        let mut ends: Vec<IntersectionID> = Vec::new();
        ends.push(edge.src);
        ends.push(edge.dst);
        assert(ends@ =~= seq![edge.src, edge.dst]);
        let extend_geometry = dog_leg.is_none();
        self.replace_all(&ends, new_intersection, extend_geometry);
        let ghost g3 = self@;
        match dog_leg {
            None => {},
            Some(d) => {
                let list = match self.intersection(new_intersection) {
                    Some(x) => copy_vec(&x.edges),
                    None => Vec::new(),
                };
                proof {
                    lemma_replace_all(
                        g.remove_edge(collapse_e).create_intersection(
                            midpt,
                            IntersectionProvenance::Synthetic,
                        ),
                        seq![edge.src, edge.dst],
                        new_intersection,
                        extend_geometry,
                    );
                    assert(g3.intersection_wf(new_intersection));
                    assert forall|k: int| 0 <= k < list@.len() implies g3.edges.contains_key(
                        #[trigger] list@[k],
                    ) by {
                        assert(g3.incident(list@[k], new_intersection));
                    }
                }
                let mut k: usize = 0;
                while k < list.len()
                    invariant
                        k <= list@.len(),
                        self.inv(),
                        g3.wf(),
                        forall|j: int|
                            0 <= j < list@.len() ==> g3.edges.contains_key(#[trigger] list@[j]),
                        self@ == g3.fix_dog_leg(
                            list@.take(k as int),
                            new_intersection,
                            midpt,
                            d,
                            trims,
                        ),
                    decreases list@.len() - k,
                {
                    proof {
                        assert(list@.take(k + 1).drop_last() == list@.take(k as int));
                        assert forall|j: int| 0 <= j < list@.take(k as int).len() implies g3.edges.contains_key(
                            #[trigger] list@.take(k as int)[j],
                        ) by {
                            assert(list@.take(k as int)[j] == list@[j]);
                        }
                        lemma_fix_dog_leg(
                            g3,
                            list@.take(k as int),
                            new_intersection,
                            midpt,
                            d,
                            trims,
                        );
                        assert(g3.edges.contains_key(list@[k as int]));
                        assert(self@.edges.dom().contains(list@[k as int]));
                    }
                    let x = list[k];
                    let fixed = self.fixed_linestring(x, new_intersection, midpt, d, trims);
                    self.set_linestring(x, fixed);
                    k = k + 1;
                }
                assert(list@.take(list@.len() as int) == list@);
            },
        }
        new_intersection
    }
}

} // verus!
