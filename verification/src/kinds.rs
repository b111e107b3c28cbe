//! The kind of an edge: which original edges it stands for, and in which role.

use vstd::prelude::*;
use crate::graph::Graph;
use crate::ids::{EdgeID, OriginalEdgeID};
use crate::id_set::OriginalEdgeSet;
use crate::model::GraphView;
use crate::tags::Tags;

verus! {

/// What a live edge stands for. Consolidating edges moves original edges from
/// one bucket to another; the two variants never mix.
pub enum EdgeKind {
    Motorized {
        /// The carriageways: the main identity of the edge.
        roads: OriginalEdgeSet,
        /// Service roads and corridors that belong to it.
        service_roads: OriginalEdgeSet,
        /// Footways and cycleways that ran alongside and were absorbed.
        sidepaths: OriginalEdgeSet,
        /// Crossings and joiners that came with those sidepaths.
        connectors: OriginalEdgeSet,
    },
    /// Footways and cycleways that stand alone.
    Nonmotorized(OriginalEdgeSet),
}

/// The mathematical value of an [`EdgeKind`].
pub enum EdgeKindView {
    Motorized {
        roads: Set<OriginalEdgeID>,
        service_roads: Set<OriginalEdgeID>,
        sidepaths: Set<OriginalEdgeID>,
        connectors: Set<OriginalEdgeID>,
    },
    Nonmotorized(Set<OriginalEdgeID>),
}

impl EdgeKindView {
    /// Every original edge that the kind mentions, in any bucket.
    pub open spec fn all(self) -> Set<OriginalEdgeID> {
        match self {
            EdgeKindView::Motorized { roads, service_roads, sidepaths, connectors } => roads.union(
                service_roads,
            ).union(sidepaths).union(connectors),
            EdgeKindView::Nonmotorized(edges) => edges,
        }
    }

    /// The union of two kinds of the same variant; nothing for one of each.
    pub open spec fn merge(self, other: EdgeKindView) -> Option<EdgeKindView> {
        match (self, other) {
            (
                EdgeKindView::Motorized {
                    roads: r1,
                    service_roads: s1,
                    sidepaths: p1,
                    connectors: c1,
                },
                EdgeKindView::Motorized {
                    roads: r2,
                    service_roads: s2,
                    sidepaths: p2,
                    connectors: c2,
                },
            ) => Some(
                EdgeKindView::Motorized {
                    roads: r1.union(r2),
                    service_roads: s1.union(s2),
                    sidepaths: p1.union(p2),
                    connectors: c1.union(c2),
                },
            ),
            (EdgeKindView::Nonmotorized(e1), EdgeKindView::Nonmotorized(e2)) => Some(
                EdgeKindView::Nonmotorized(e1.union(e2)),
            ),
            _ => None,
        }
    }

    /// The short name of the kind: that of the first bucket that is not empty.
    pub open spec fn simple(self) -> Seq<char> {
        match self {
            EdgeKindView::Motorized { roads, service_roads, sidepaths, connectors } => {
                if roads != Set::<OriginalEdgeID>::empty() {
                    "road"@
                } else if service_roads != Set::<OriginalEdgeID>::empty() {
                    "service road"@
                } else if sidepaths != Set::<OriginalEdgeID>::empty() {
                    "sidepath"@
                } else {
                    "connector"@
                }
            },
            EdgeKindView::Nonmotorized(_) => "nonmotorized"@,
        }
    }

    /// The kind after sidepaths and connectors were attributed to it. Only a
    /// motorized kind takes them.
    pub open spec fn absorb(
        self,
        sidepaths: Set<OriginalEdgeID>,
        connectors: Set<OriginalEdgeID>,
    ) -> EdgeKindView {
        match self {
            EdgeKindView::Motorized { roads, service_roads, sidepaths: s, connectors: c } => {
                EdgeKindView::Motorized {
                    roads,
                    service_roads,
                    sidepaths: s.union(sidepaths),
                    connectors: c.union(connectors),
                }
            },
            EdgeKindView::Nonmotorized(_) => self,
        }
    }

    /// The members of a nonmotorized kind; nothing for a motorized one.
    pub open spec fn nonmotorized_members(self) -> Set<OriginalEdgeID> {
        match self {
            EdgeKindView::Motorized { .. } => Set::<OriginalEdgeID>::empty(),
            EdgeKindView::Nonmotorized(edges) => edges,
        }
    }

    /// A nonmotorized kind whose members are all tagged as crossings.
    pub open spec fn is_crossing<C>(self, g: GraphView<C>) -> bool {
        match self {
            EdgeKindView::Motorized { .. } => false,
            EdgeKindView::Nonmotorized(edges) => forall|o: OriginalEdgeID|
                edges.contains(o) ==> #[trigger] g.is_crossing_way(o),
        }
    }

    /// A motorized kind whose carriageways are all tagged `oneway=yes`.
    pub open spec fn is_oneway_road<C>(self, g: GraphView<C>) -> bool {
        match self {
            EdgeKindView::Motorized { roads, .. } => forall|o: OriginalEdgeID|
                roads.contains(o) ==> #[trigger] g.tag_is(o, "oneway"@, "yes"@),
            EdgeKindView::Nonmotorized(_) => false,
        }
    }

    /// A motorized kind without a carriageway whose service roads are all
    /// tagged `service=parking_aisle`.
    pub open spec fn is_parking_aisle<C>(self, g: GraphView<C>) -> bool {
        match self {
            EdgeKindView::Motorized { roads, service_roads, .. } => {
                &&& roads == Set::<OriginalEdgeID>::empty()
                &&& forall|o: OriginalEdgeID|
                    service_roads.contains(o) ==> #[trigger] g.tag_is(
                        o,
                        "service"@,
                        "parking_aisle"@,
                    )
            },
            EdgeKindView::Nonmotorized(_) => false,
        }
    }

    /// Every carriageway of a motorized kind is named `name`, and there is one.
    pub open spec fn all_named<C>(self, g: GraphView<C>, name: Seq<char>) -> bool {
        match self {
            EdgeKindView::Motorized { roads, .. } => {
                &&& roads != Set::<OriginalEdgeID>::empty()
                &&& forall|o: OriginalEdgeID|
                    roads.contains(o) ==> #[trigger] g.tag_is(o, "name"@, name)
            },
            EdgeKindView::Nonmotorized(_) => false,
        }
    }

    /// The name that all carriageways share, if they share one.
    pub open spec fn road_name<C>(self, g: GraphView<C>) -> Option<Seq<char>> {
        if exists|name: Seq<char>| self.all_named(g, name) {
            Some(choose|name: Seq<char>| self.all_named(g, name))
        } else {
            None
        }
    }

    /// A motorized kind with service roads and no carriageway.
    pub open spec fn is_service_road(self) -> bool {
        match self {
            EdgeKindView::Motorized { roads, service_roads, .. } => {
                service_roads != Set::<OriginalEdgeID>::empty() && roads == Set::<
                    OriginalEdgeID,
                >::empty()
            },
            EdgeKindView::Nonmotorized(_) => false,
        }
    }
}

/// Whether a `highway` value names a way for feet or cycles.
pub open spec fn nonmotorized_highway(v: Seq<char>) -> bool {
    v == "footway"@ || v == "cycleway"@ || v == "elevator"@ || v == "path"@ || v == "pedestrian"@
        || v == "platform"@ || v == "steps"@ || v == "track"@
}

/// Whether a `highway` value names a service road.
pub open spec fn service_highway(v: Seq<char>) -> bool {
    v == "corridor"@ || v == "service"@
}

/// The kind that an original edge with these tags starts out with.
pub open spec fn initial_kind(e: OriginalEdgeID, tags: Map<Seq<char>, Seq<char>>) -> EdgeKindView {
    let only = Set::<OriginalEdgeID>::empty().insert(e);
    let none = Set::<OriginalEdgeID>::empty();
    if tags.contains_key("highway"@) && nonmotorized_highway(tags["highway"@]) {
        EdgeKindView::Nonmotorized(only)
    } else if tags.contains_key("highway"@) && service_highway(tags["highway"@]) {
        EdgeKindView::Motorized {
            roads: none,
            service_roads: only,
            sidepaths: none,
            connectors: none,
        }
    } else {
        EdgeKindView::Motorized {
            roads: only,
            service_roads: none,
            sidepaths: none,
            connectors: none,
        }
    }
}

impl View for EdgeKind {
    type V = EdgeKindView;

    open spec fn view(&self) -> EdgeKindView {
        match self {
            EdgeKind::Motorized { roads, service_roads, sidepaths, connectors } => {
                EdgeKindView::Motorized {
                    roads: roads@,
                    service_roads: service_roads@,
                    sidepaths: sidepaths@,
                    connectors: connectors@,
                }
            },
            EdgeKind::Nonmotorized(edges) => EdgeKindView::Nonmotorized(edges@),
        }
    }
}

impl EdgeKind {
    /// Every bucket lists each of its members once.
    pub open spec fn wf(&self) -> bool {
        match self {
            EdgeKind::Motorized { roads, service_roads, sidepaths, connectors } => {
                roads.wf() && service_roads.wf() && sidepaths.wf() && connectors.wf()
            },
            EdgeKind::Nonmotorized(edges) => edges.wf(),
        }
    }

    /// The kind of an edge fresh from the source data: by its `highway` tag a
    /// way for feet or cycles, a service road, or else a carriageway.
    pub fn initially_classify(e: EdgeID, tags: &Tags) -> (r: EdgeKind)
        ensures
            r.wf(),
            r@ == initial_kind(OriginalEdgeID(e.0), tags@),
    {
        let id = OriginalEdgeSet::singleton(OriginalEdgeID(e.0));
        if tags.is_any(
            "highway",
            vec!["footway", "cycleway", "elevator", "path", "pedestrian", "platform", "steps", "track"],
        ) {
            return EdgeKind::Nonmotorized(id);
        }
        if tags.is_any("highway", vec!["corridor", "service"]) {
            return EdgeKind::Motorized {
                roads: OriginalEdgeSet::new(),
                service_roads: id,
                sidepaths: OriginalEdgeSet::new(),
                connectors: OriginalEdgeSet::new(),
            };
        }
        EdgeKind::Motorized {
            roads: id,
            service_roads: OriginalEdgeSet::new(),
            sidepaths: OriginalEdgeSet::new(),
            connectors: OriginalEdgeSet::new(),
        }
    }

    /// Combines two kinds of the same variant bucket by bucket. A motorized and
    /// a nonmotorized kind do not combine.
    pub fn merge(&self, other: &EdgeKind) -> (r: Option<EdgeKind>)
        requires
            self.wf(),
        ensures
            r is Some <==> self@.merge(other@) is Some,
            r is Some ==> r->0.wf() && r->0@ == self@.merge(other@)->0,
    {
        match (self, other) {
            (
                EdgeKind::Motorized {
                    roads: roads1,
                    service_roads: service_roads1,
                    sidepaths: sidepaths1,
                    connectors: connectors1,
                },
                EdgeKind::Motorized {
                    roads: roads2,
                    service_roads: service_roads2,
                    sidepaths: sidepaths2,
                    connectors: connectors2,
                },
            ) => Some(
                EdgeKind::Motorized {
                    roads: roads1.union(roads2),
                    service_roads: service_roads1.union(service_roads2),
                    sidepaths: sidepaths1.union(sidepaths2),
                    connectors: connectors1.union(connectors2),
                },
            ),
            (EdgeKind::Nonmotorized(edges1), EdgeKind::Nonmotorized(edges2)) => Some(
                EdgeKind::Nonmotorized(edges1.union(edges2)),
            ),
            _ => None,
        }
    }

    /// The short name of the kind.
    pub fn to_simple(&self) -> (r: &'static str)
        ensures
            r@ == self@.simple(),
    {
        match self {
            EdgeKind::Motorized { roads, service_roads, sidepaths, .. } => {
                if !roads.is_empty() {
                    return "road";
                }
                if !service_roads.is_empty() {
                    return "service road";
                }
                if !sidepaths.is_empty() {
                    return "sidepath";
                }
                "connector"
            },
            EdgeKind::Nonmotorized(_) => "nonmotorized",
        }
    }

    /// Whether the edge is a service road with no carriageway of its own.
    pub fn is_service_road(&self) -> (r: bool)
        ensures
            r == self@.is_service_road(),
    {
        match self {
            EdgeKind::Motorized { roads, service_roads, .. } => {
                !service_roads.is_empty() && roads.is_empty()
            },
            _ => false,
        }
    }

    /// Whether every member of `set` has the tag `key=value`.
    fn all_tagged<C: Copy>(set: &OriginalEdgeSet, graph: &Graph<C>, key: &str, value: &str) -> (r:
        bool)
        requires
            set.wf(),
            set@.subset_of(graph@.original_edges.dom()),
        ensures
            r == (forall|o: OriginalEdgeID|
                set@.contains(o) ==> #[trigger] graph@.tag_is(o, key@, value@)),
    {
        proof {
            set.lemma_members();
        }
        let n = set.len();
        let mut i: usize = 0;
        while i < n
            invariant
                i <= n,
                n == set.members().len(),
                set@.subset_of(graph@.original_edges.dom()),
                forall|x: OriginalEdgeID| set@.contains(x) <==> set.members().contains(x),
                forall|j: int|
                    0 <= j < i ==> #[trigger] graph@.tag_is(set.members()[j], key@, value@),
            decreases n - i,
        {
            let o = set.get(i);
            let tagged = match graph.original_edge(o) {
                Some(orig) => orig.tags.is(key, value),
                None => false,
            };
            if !tagged {
                assert(!graph@.tag_is(o, key@, value@));
                return false;
            }
            i = i + 1;
        }
        assert forall|o: OriginalEdgeID| set@.contains(o) implies #[trigger] graph@.tag_is(
            o,
            key@,
            value@,
        ) by {
            let j = set.members().index_of(o);
            assert(graph@.tag_is(set.members()[j], key@, value@));
        }
        true
    }

    /// Whether the edge is a way for feet or cycles all of whose members are
    /// tagged `footway=crossing` or `cycleway=crossing`.
    pub fn is_crossing<C: Copy>(&self, graph: &Graph<C>) -> (r: bool)
        requires
            self.wf(),
            self@.all().subset_of(graph@.original_edges.dom()),
        ensures
            r == self@.is_crossing(graph@),
    {
        match self {
            EdgeKind::Nonmotorized(edges) => {
                proof {
                    edges.lemma_members();
                }
                let n = edges.len();
                let mut i: usize = 0;
                while i < n
                    invariant
                        i <= n,
                        n == edges.members().len(),
                        edges@.subset_of(graph@.original_edges.dom()),
                        forall|x: OriginalEdgeID| edges@.contains(x) <==> edges.members().contains(x),
                        forall|j: int|
                            0 <= j < i ==> #[trigger] graph@.is_crossing_way(edges.members()[j]),
                        self@ == EdgeKindView::Nonmotorized(edges@),
                    decreases n - i,
                {
                    let o = edges.get(i);
                    let crossing = match graph.original_edge(o) {
                        Some(orig) => orig.tags.is("footway", "crossing") || orig.tags.is(
                            "cycleway",
                            "crossing",
                        ),
                        None => false,
                    };
                    if !crossing {
                        assert(!graph@.is_crossing_way(o));
                        return false;
                    }
                    i = i + 1;
                }
                assert forall|o: OriginalEdgeID| edges@.contains(o) implies #[trigger] graph@.is_crossing_way(
                    o,
                ) by {
                    let j = edges.members().index_of(o);
                    assert(graph@.is_crossing_way(edges.members()[j]));
                }
                true
            },
            _ => false,
        }
    }

    /// The kind with sidepaths and connectors attributed to it, if it is
    /// motorized; a copy of it, if it is not.
    pub fn absorb(&self, sidepaths: &OriginalEdgeSet, connectors: &OriginalEdgeSet) -> (r: EdgeKind)
        requires
            self.wf(),
        ensures
            r.wf(),
            r@ == self@.absorb(sidepaths@, connectors@),
    {
        match self {
            EdgeKind::Motorized { roads, service_roads, sidepaths: s, connectors: c } => {
                EdgeKind::Motorized {
                    roads: roads.clone(),
                    service_roads: service_roads.clone(),
                    sidepaths: s.union(sidepaths),
                    connectors: c.union(connectors),
                }
            },
            EdgeKind::Nonmotorized(edges) => EdgeKind::Nonmotorized(edges.clone()),
        }
    }

    /// Whether every carriageway of the edge is tagged `oneway=yes`.
    pub fn is_oneway_road<C: Copy>(&self, graph: &Graph<C>) -> (r: bool)
        requires
            self.wf(),
            self@.all().subset_of(graph@.original_edges.dom()),
        ensures
            r == self@.is_oneway_road(graph@),
    {
        match self {
            EdgeKind::Motorized { roads, .. } => {
                assert(roads@.subset_of(self@.all()));
                EdgeKind::all_tagged(roads, graph, "oneway", "yes")
            },
            _ => false,
        }
    }

    /// Whether the edge has no carriageway and every service road of it is
    /// tagged `service=parking_aisle`.
    pub fn is_parking_aisle<C: Copy>(&self, graph: &Graph<C>) -> (r: bool)
        requires
            self.wf(),
            self@.all().subset_of(graph@.original_edges.dom()),
        ensures
            r == self@.is_parking_aisle(graph@),
    {
        match self {
            EdgeKind::Motorized { roads, service_roads, .. } => {
                assert(service_roads@.subset_of(self@.all()));
                roads.is_empty() && EdgeKind::all_tagged(
                    service_roads,
                    graph,
                    "service",
                    "parking_aisle",
                )
            },
            _ => false,
        }
    }

    /// The name of the road, if all of its carriageways have the same one.
    pub fn get_road_name<'a, C: Copy>(&self, graph: &'a Graph<C>) -> (r: Option<&'a String>)
        requires
            self.wf(),
            self@.all().subset_of(graph@.original_edges.dom()),
        ensures
            r is Some <==> self@.road_name(graph@) is Some,
            r is Some ==> r->0@ == self@.road_name(graph@)->0,
    {
        match self {
            EdgeKind::Motorized { roads, .. } => {
                assert(roads@.subset_of(self@.all()));
                proof {
                    roads.lemma_members();
                }
                let n = roads.len();
                if n == 0 {
                    assert(roads@ =~= Set::<OriginalEdgeID>::empty());
                    assert(forall|name: Seq<char>| !self@.all_named(graph@, name));
                    return None;
                }
                let first = roads.get(0);
                let name: &'a String = match graph.original_edge(first) {
                    Some(orig) => {
                        match orig.tags.get("name") {
                            Some(name) => name,
                            None => {
                                assert forall|other: Seq<char>| !self@.all_named(
                                    graph@,
                                    other,
                                ) by {
                                    if self@.all_named(graph@, other) {
                                        assert(graph@.tag_is(first, "name"@, other));
                                    }
                                }
                                return None;
                            },
                        }
                    },
                    None => {
                        return None;
                    },
                };
                let mut i: usize = 1;
                while i < n
                    invariant
                        1 <= i <= n,
                        n == roads.members().len(),
                        roads@.subset_of(graph@.original_edges.dom()),
                        forall|x: OriginalEdgeID| roads@.contains(x) <==> roads.members().contains(x),
                        forall|j: int|
                            0 <= j < i ==> #[trigger] graph@.tag_is(
                                roads.members()[j],
                                "name"@,
                                name@,
                            ),
                        self@ is Motorized,
                        self@->Motorized_roads == roads@,
                    decreases n - i,
                {
                    let o = roads.get(i);
                    let same = match graph.original_edge(o) {
                        Some(orig) => orig.tags.is("name", name.as_str()),
                        None => false,
                    };
                    if !same {
                        assert forall|other: Seq<char>| !self@.all_named(graph@, other) by {
                            if self@.all_named(graph@, other) {
                                assert(graph@.tag_is(roads.members()[0], "name"@, other));
                                assert(graph@.tag_is(roads.members()[0], "name"@, name@));
                                assert(graph@.tag_is(o, "name"@, other));
                            }
                        }
                        return None;
                    }
                    i = i + 1;
                }
                proof {
                    assert(roads@.contains(first));
                    assert forall|o: OriginalEdgeID| roads@.contains(o) implies #[trigger] graph@.tag_is(
                        o,
                        "name"@,
                        name@,
                    ) by {
                        let j = roads.members().index_of(o);
                        assert(graph@.tag_is(roads.members()[j], "name"@, name@));
                    }
                    assert(self@.all_named(graph@, name@));
                    let chosen = choose|other: Seq<char>| self@.all_named(graph@, other);
                    assert(graph@.tag_is(first, "name"@, chosen));
                    assert(graph@.tag_is(first, "name"@, name@));
                }
                Some(name)
            },
            _ => {
                assert(forall|name: Seq<char>| !self@.all_named(graph@, name));
                None
            },
        }
    }

    /// Whether the edge is a way for feet or cycles.
    pub fn is_nonmotorized(&self) -> (r: bool)
        ensures
            r == (self@ is Nonmotorized),
    {
        match self {
            EdgeKind::Motorized { .. } => false,
            EdgeKind::Nonmotorized(_) => true,
        }
    }

    /// A copy of the kind.
    pub fn clone(&self) -> (r: EdgeKind)
        ensures
            r@ == self@,
            r.wf() == self.wf(),
    {
        match self {
            EdgeKind::Motorized { roads, service_roads, sidepaths, connectors } => {
                EdgeKind::Motorized {
                    roads: roads.clone(),
                    service_roads: service_roads.clone(),
                    sidepaths: sidepaths.clone(),
                    connectors: connectors.clone(),
                }
            },
            EdgeKind::Nonmotorized(edges) => EdgeKind::Nonmotorized(edges.clone()),
        }
    }
}

} // verus!
