//! The rewrite that replaces a dual carriageway by its centre line.

use vstd::prelude::*;
use crate::graph::{Graph, copy_vec};
use crate::id_set::OriginalEdgeSet;
use crate::ids::{EdgeID, IntersectionID, OriginalEdgeID};
use crate::kinds::{EdgeKind, EdgeKindView};
use crate::model::{GraphView, IntersectionProvenance, lemma_create_edge_wf,
    lemma_create_intersection_wf, lemma_replace_intersection_wf};
use crate::rewrite::lemma_remove_edges;

verus! {

/// The centre line of a dual carriageway, cut where side roads meet it.
pub struct Splits<C> {
    /// The pieces of the centre line, in order. Piece `i` runs from end
    /// point `i` to end point `i + 1`.
    pub lines: Vec<Vec<C>>,
    /// The end points of the pieces: one more than there are pieces.
    pub new_endpts: Vec<C>,
}

/// The value of [`Splits`].
pub struct SplitsView<C> {
    pub lines: Seq<Seq<C>>,
    pub new_endpts: Seq<C>,
}

impl<C> View for Splits<C> {
    type V = SplitsView<C>;

    open spec fn view(&self) -> SplitsView<C> {
        SplitsView {
            lines: Seq::new(self.lines@.len(), |i: int| self.lines@[i]@),
            new_endpts: self.new_endpts@,
        }
    }
}

impl<C: Copy> Splits<C> {
    /// A copy.
    pub fn clone(&self) -> (r: Splits<C>)
        ensures
            r@ == self@,
    {
        let mut lines: Vec<Vec<C>> = Vec::new();
        let mut i: usize = 0;
        while i < self.lines.len()
            invariant
                i <= self.lines@.len(),
                lines@.len() == i,
                forall|j: int| 0 <= j < i ==> lines@[j]@ == self.lines@[j]@,
            decreases self.lines@.len() - i,
        {
            lines.push(copy_vec(&self.lines[i]));
            i = i + 1;
        }
        let r = Splits { lines, new_endpts: copy_vec(&self.new_endpts) };
        assert(r@.lines =~= self@.lines);
        r
    }
}

/// The keys rise strictly.
pub open spec fn rising_keys(s: Seq<u64>) -> bool {
    forall|i: int, j: int| 0 <= i < j < s.len() ==> s[i] < s[j]
}

/// Puts `x` at its place in a list of rising keys, unless it is there.
fn insert_rising_key(v: &mut Vec<u64>, x: u64)
    requires
        rising_keys(old(v)@),
    ensures
        rising_keys(final(v)@),
        forall|y: u64| #[trigger] final(v)@.contains(y) <==> (old(v)@.contains(y) || y == x),
{
    let mut p: usize = 0;
    while p < v.len() && v[p] < x
        invariant
            p <= v@.len(),
            v@ == old(v)@,
            forall|j: int| 0 <= j < p ==> v@[j] < x,
        decreases v@.len() - p,
    {
        p = p + 1;
    }
    if p < v.len() && v[p] == x {
        assert forall|y: u64| #[trigger] v@.contains(y) <==> (old(v)@.contains(y) || y == x) by {
            assert(v@[p as int] == x);
        }
        return ;
    }
    let ghost before = v@;
    v.insert(p, x);
    proof {
        let after = v@;
        assert forall|i: int, j: int| 0 <= i < j < after.len() implies after[i] < after[j] by {
            if j < p {
            } else if j == p {
            } else {
                assert(after[j] == before[j - 1]);
                if i < p {
                } else if i == p {
                    if j - 1 > p {
                        assert(before[p as int] < before[j - 1]);
                    }
                } else {
                    assert(after[i] == before[i - 1]);
                }
            }
        }
        assert forall|y: u64| #[trigger] after.contains(y) <==> (before.contains(y) || y == x) by {
            if before.contains(y) {
                let j = before.index_of(y);
                if j < p {
                    assert(after[j] == y);
                } else {
                    assert(after[j + 1] == y);
                }
            }
            if y == x {
                assert(after[p as int] == x);
            }
            if after.contains(y) {
                let j = after.index_of(y);
                if j < p {
                    assert(before[j] == y);
                } else if j > p {
                    assert(before[j - 1] == y);
                }
            }
        }
    }
}

/// The places at which a centre line is cut, in the order in which they lie
/// along it. The caller gives a whole-number key for the position of every
/// place; the keys come back in rising order, each once.
pub fn split_positions(keys: &Vec<u64>) -> (r: Vec<u64>)
    ensures
        rising_keys(r@),
        forall|y: u64| #[trigger] r@.contains(y) <==> keys@.contains(y),
{
    let mut out: Vec<u64> = Vec::new();
    let mut k: usize = 0;
    while k < keys.len()
        invariant
            k <= keys@.len(),
            rising_keys(out@),
            forall|y: u64| #[trigger] out@.contains(y) <==> keys@.take(k as int).contains(y),
        decreases keys@.len() - k,
    {
        let ghost before = out@;
        insert_rising_key(&mut out, keys[k]);
        proof {
            assert(keys@.take(k + 1) == keys@.take(k as int).push(keys@[k as int]));
            assert forall|y: u64| #[trigger] out@.contains(y) <==> keys@.take(k + 1).contains(y) by {
                crate::seqs::lemma_contains_push(keys@.take(k as int), keys@[k as int], y);
                assert(before.contains(y) <==> keys@.take(k as int).contains(y));
            }
        }
        k = k + 1;
    }
    assert(keys@.take(keys@.len() as int) == keys@);
    out
}

impl<C> GraphView<C> {
    /// The end of edge `e` at which it meets the boundary of a face: its
    /// source, if that is one of the boundary intersections, else its
    /// destination.
    pub open spec fn boundary_end(
        self,
        boundary_intersections: Seq<IntersectionID>,
        e: EdgeID,
    ) -> IntersectionID {
        if boundary_intersections.contains(self.edges[e].src) {
            self.edges[e].src
        } else {
            self.edges[e].dst
        }
    }
}

/// Whether the list holds the intersection.
fn lists_intersection(list: &Vec<IntersectionID>, i: IntersectionID) -> (r: bool)
    ensures
        r == list@.contains(i),
{
    let mut k: usize = 0;
    while k < list.len()
        invariant
            k <= list@.len(),
            forall|j: int| 0 <= j < k ==> list@[j] != i,
        decreases list@.len() - k,
    {
        if list[k] == i {
            return true;
        }
        k = k + 1;
    }
    false
}

impl<C: Copy> Graph<C> {
    /// The end of a connecting edge that is projected onto the centre line
    /// of a dual carriageway: the end at which the edge meets the boundary
    /// of the face. There is none for an edge that is not live.
    pub fn boundary_end(&self, boundary_intersections: &Vec<IntersectionID>, e: EdgeID) -> (r:
        Option<IntersectionID>)
        ensures
            r is Some <==> self@.edges.contains_key(e),
            r is Some ==> r->0 == self@.boundary_end(boundary_intersections@, e),
    {
        match self.edge(e) {
            Some(edge) => {
                if lists_intersection(boundary_intersections, edge.src) {
                    Some(edge.src)
                } else {
                    Some(edge.dst)
                }
            },
            None => None,
        }
    }
}

/// The end points of the pieces of a line: the first point of every piece,
/// and the last point of the last.
pub open spec fn endpoints_of<C>(lines: Seq<Seq<C>>) -> Seq<C> {
    Seq::new(
        (lines.len() + 1) as nat,
        |i: int|
            if i < lines.len() {
                lines[i].first()
            } else {
                lines[lines.len() - 1].last()
            },
    )
}

/// The end points of the pieces of a line. There is a piece, and no piece
/// is empty.
pub fn linestring_endpoints<C: Copy>(lines: &Vec<Vec<C>>) -> (pts: Vec<C>)
    requires
        lines@.len() > 0,
        forall|i: int| 0 <= i < lines@.len() ==> (#[trigger] lines@[i])@.len() > 0,
    ensures
        pts@ == endpoints_of(Seq::new(lines@.len(), |i: int| lines@[i]@)),
{
    let ghost views = Seq::new(lines@.len(), |i: int| lines@[i]@);
    let mut pts: Vec<C> = Vec::new();
    let mut k: usize = 0;
    while k < lines.len()
        invariant
            k <= lines@.len(),
            forall|i: int| 0 <= i < lines@.len() ==> (#[trigger] lines@[i])@.len() > 0,
            pts@.len() == k,
            forall|i: int| 0 <= i < k ==> pts@[i] == lines@[i]@.first(),
        decreases lines@.len() - k,
    {
        assert(lines@[k as int]@.len() > 0);
        pts.push(lines[k][0]);
        k = k + 1;
    }
    let last_line = &lines[lines.len() - 1];
    assert(lines@[lines@.len() - 1]@.len() > 0);
    pts.push(last_line[last_line.len() - 1]);
    assert(pts@ =~= endpoints_of(views));
    pts
}

/// The intersection id `t` past `first`.
pub open spec fn id_at(first: nat, t: int) -> IntersectionID {
    IntersectionID((first + t) as usize)
}

/// The motorized kind that stands for nothing.
pub open spec fn empty_motorized() -> EdgeKindView {
    EdgeKindView::Motorized {
        roads: Set::<OriginalEdgeID>::empty(),
        service_roads: Set::<OriginalEdgeID>::empty(),
        sidepaths: Set::<OriginalEdgeID>::empty(),
        connectors: Set::<OriginalEdgeID>::empty(),
    }
}

impl<C> GraphView<C> {
    /// The motorized kind that stands for everything that the live
    /// motorized edges among `ids` stand for, bucket by bucket.
    pub open spec fn merged_motorized(self, ids: Seq<EdgeID>) -> EdgeKindView
        decreases ids.len(),
    {
        if ids.len() == 0 {
            empty_motorized()
        } else {
            let rest = self.merged_motorized(ids.drop_last());
            if self.edges.contains_key(ids.last()) {
                match rest.merge(self.edges[ids.last()].kind) {
                    Some(k) => k,
                    None => rest,
                }
            } else {
                rest
            }
        }
    }

    /// The graph with a new synthetic intersection at each of the points,
    /// in their order.
    pub open spec fn create_intersections(self, pts: Seq<C>) -> GraphView<C>
        decreases pts.len(),
    {
        if pts.len() == 0 {
            self
        } else {
            self.create_intersections(pts.drop_last()).create_intersection(
                pts.last(),
                IntersectionProvenance::Synthetic,
            )
        }
    }

    /// The graph with a new edge of kind `kind` for each of the lines, the
    /// `i`-th from intersection `first + i` to intersection `first + i + 1`.
    pub open spec fn create_chain(
        self,
        lines: Seq<Seq<C>>,
        first: nat,
        kind: EdgeKindView,
    ) -> GraphView<C>
        decreases lines.len(),
    {
        if lines.len() == 0 {
            self
        } else {
            self.create_chain(lines.drop_last(), first, kind).create_edge(
                lines.last(),
                id_at(first, lines.len() - 1),
                id_at(first, lines.len() as int),
                kind,
            )
        }
    }

    /// The graph with each live intersection of `olds` folded into the
    /// intersection `first + attach[k]`, if that one is live and another
    /// one; the edges that ended there are drawn out to it.
    pub open spec fn attach_all(
        self,
        olds: Seq<IntersectionID>,
        attach: Seq<usize>,
        first: nat,
    ) -> GraphView<C>
        decreases olds.len(),
    {
        if olds.len() == 0 || attach.len() == 0 {
            self
        } else {
            let g = self.attach_all(olds.drop_last(), attach.drop_last(), first);
            let target = id_at(first, attach.last() as int);
            if g.intersections.contains_key(olds.last()) && g.intersections.contains_key(target)
                && olds.last() != target {
                g.replace_intersection(olds.last(), target, true)
            } else {
                g
            }
        }
    }

    /// Whether a centre line can take the place of a dual carriageway: there
    /// is a piece, there is one end point more than pieces, every piece has
    /// two points or more, every boundary intersection is given one of the
    /// end points, and there are ids left for what is made.
    pub open spec fn dc_input_ok(
        self,
        lines: Seq<Seq<C>>,
        new_endpts: Seq<C>,
        boundary_intersections: Seq<IntersectionID>,
        attach: Seq<usize>,
    ) -> bool {
        &&& lines.len() >= 1
        &&& new_endpts.len() == lines.len() + 1
        &&& forall|i: int| 0 <= i < lines.len() ==> (#[trigger] lines[i]).len() >= 2
        &&& attach.len() == boundary_intersections.len()
        &&& forall|k: int| 0 <= k < attach.len() ==> (#[trigger] attach[k]) < new_endpts.len()
        &&& self.intersection_id_counter + new_endpts.len() <= usize::MAX
        &&& self.edge_id_counter + lines.len() <= usize::MAX
    }

    /// The command that replaces a dual carriageway by its centre line: the
    /// boundary edges of the face go; a synthetic intersection appears at
    /// each end point of the pieces; each piece becomes an edge that stands
    /// for everything that the motorized boundary edges stood for; and each
    /// boundary intersection is folded into the end point given for it, so
    /// that the roads that met the carriageway meet the centre line. Where
    /// the centre line cannot be used, nothing changes.
    pub open spec fn collapse_dual_carriageway(
        self,
        boundary_edges: Seq<EdgeID>,
        boundary_intersections: Seq<IntersectionID>,
        lines: Seq<Seq<C>>,
        new_endpts: Seq<C>,
        attach: Seq<usize>,
    ) -> GraphView<C> {
        if !self.dc_input_ok(lines, new_endpts, boundary_intersections, attach) {
            self
        } else {
            let first = self.intersection_id_counter + 1;
            self.remove_edges(boundary_edges).create_intersections(new_endpts).create_chain(
                lines,
                first,
                self.merged_motorized(boundary_edges),
            ).attach_all(boundary_intersections, attach, first)
        }
    }
}

/// What the merged kind stands for is known to a consistent graph.
pub proof fn lemma_merged_motorized<C>(g: GraphView<C>, ids: Seq<EdgeID>)
    requires
        g.wf(),
    ensures
        g.merged_motorized(ids) is Motorized,
        g.merged_motorized(ids).all().subset_of(g.original_edges.dom()),
    decreases ids.len(),
{
    if ids.len() > 0 {
        lemma_merged_motorized(g, ids.drop_last());
        if g.edges.contains_key(ids.last()) {
            assert(g.edge_wf(ids.last()));
        }
    }
}

/// New intersections keep the graph consistent; they get the next ids in a
/// row, and nothing else changes.
pub proof fn lemma_create_intersections<C>(g: GraphView<C>, pts: Seq<C>)
    requires
        g.wf(),
        g.intersection_id_counter + pts.len() <= usize::MAX,
    ensures
        g.create_intersections(pts).wf(),
        g.create_intersections(pts).intersection_id_counter == g.intersection_id_counter
            + pts.len(),
        g.create_intersections(pts).edge_id_counter == g.edge_id_counter,
        g.create_intersections(pts).edges == g.edges,
        g.create_intersections(pts).original_edges == g.original_edges,
        forall|i: IntersectionID| #[trigger]
            g.create_intersections(pts).intersections.contains_key(i) <==> (
            g.intersections.contains_key(i) || g.intersection_id_counter < i.0
                <= g.intersection_id_counter + pts.len()),
        g.endpoints_attached() ==> g.create_intersections(pts).endpoints_attached(),
        forall|j: IntersectionID| #[trigger]
            g.intersections.contains_key(j) ==> g.create_intersections(pts).intersections[j]
                == g.intersections[j],
        forall|t: int|
            0 <= t < pts.len() ==> (#[trigger] g.create_intersections(pts).intersections[id_at(
                g.intersection_id_counter + 1,
                t,
            )]).point == pts[t],
    decreases pts.len(),
{
    if pts.len() > 0 {
        let mid = g.create_intersections(pts.drop_last());
        lemma_create_intersections(g, pts.drop_last());
        lemma_create_intersection_wf(mid, pts.last(), IntersectionProvenance::Synthetic);
        let h = g.create_intersections(pts);
        let first = g.intersection_id_counter + 1;
        assert forall|j: IntersectionID| #[trigger] g.intersections.contains_key(j) implies h.intersections[j]
            == g.intersections[j] by {
            assert(g.intersection_wf(j));
        }
        assert forall|t: int| 0 <= t < pts.len() implies (#[trigger] h.intersections[id_at(
            first,
            t,
        )]).point == pts[t] by {
            if t < pts.len() - 1 {
                assert(mid.intersections[id_at(first, t)].point == pts.drop_last()[t]);
                assert(id_at(first, t) != mid.next_intersection_id());
            } else {
                assert(id_at(first, t) == mid.next_intersection_id());
            }
        }
        assert forall|i: IntersectionID| #[trigger]
            h.intersections.contains_key(i) <==> (g.intersections.contains_key(i)
                || g.intersection_id_counter < i.0 <= g.intersection_id_counter + pts.len()) by {
            assert(mid.intersections.contains_key(i) <==> (g.intersections.contains_key(i)
                || g.intersection_id_counter < i.0 <= g.intersection_id_counter + pts.len() - 1));
            if g.intersections.contains_key(i) {
                assert(g.intersection_wf(i));
            }
        }
    } else {
        assert forall|i: IntersectionID| #[trigger]
            g.create_intersections(pts).intersections.contains_key(i) <==> (
            g.intersections.contains_key(i) || g.intersection_id_counter < i.0
                <= g.intersection_id_counter + pts.len()) by {}
    }
}

/// A chain of new edges between live intersections keeps the graph consistent.
pub proof fn lemma_create_chain<C>(
    g: GraphView<C>,
    lines: Seq<Seq<C>>,
    first: nat,
    kind: EdgeKindView,
)
    requires
        g.wf(),
        g.edge_id_counter + lines.len() <= usize::MAX,
        first + lines.len() <= usize::MAX,
        forall|i: int| 0 <= i < lines.len() ==> (#[trigger] lines[i]).len() >= 2,
        forall|t: int|
            0 <= t <= lines.len() ==> g.intersections.contains_key(
                #[trigger] id_at(first as nat, t),
            ),
        kind.all().subset_of(g.original_edges.dom()),
    ensures
        g.create_chain(lines, first, kind).wf(),
        g.create_chain(lines, first, kind).edge_id_counter == g.edge_id_counter + lines.len(),
        g.create_chain(lines, first, kind).intersection_id_counter == g.intersection_id_counter,
        g.create_chain(lines, first, kind).intersections.dom() == g.intersections.dom(),
        g.create_chain(lines, first, kind).original_edges == g.original_edges,
        forall|j: IntersectionID| #[trigger]
            g.intersections.contains_key(j) ==> {
                &&& g.create_chain(lines, first, kind).intersections[j].point
                    == g.intersections[j].point
                &&& g.create_chain(lines, first, kind).intersections[j].edges.len()
                    >= g.intersections[j].edges.len()
            },
        forall|t: int|
            0 <= t <= lines.len() && lines.len() > 0 ==> (#[trigger] g.create_chain(
                lines,
                first,
                kind,
            ).intersections[id_at(first, t)]).edges.len() > 0,
        (g.endpoints_attached() && forall|i: int|
            0 <= i < lines.len() ==> (#[trigger] lines[i]).first() == g.intersections[id_at(
                first,
                i,
            )].point && lines[i].last() == g.intersections[id_at(first, i + 1)].point)
            ==> g.create_chain(lines, first, kind).endpoints_attached(),
    decreases lines.len(),
{
    if lines.len() > 0 {
        let init = lines.drop_last();
        let mid = g.create_chain(init, first, kind);
        let h = g.create_chain(lines, first, kind);
        assert forall|i: int| 0 <= i < init.len() implies (#[trigger] init[i]).len() >= 2 by {
            assert(init[i] == lines[i]);
        }
        lemma_create_chain(g, init, first, kind);
        let a = id_at(first, lines.len() - 1);
        let b = id_at(first, lines.len() as int);
        assert(g.intersections.contains_key(id_at(first, lines.len() - 1)));
        assert(g.intersections.contains_key(id_at(first, lines.len() as int)));
        assert(mid.intersections.dom().contains(a));
        assert(mid.intersections.dom().contains(b));
        assert(lines[lines.len() - 1].len() >= 2);
        lemma_create_edge_wf(mid, lines.last(), a, b, kind);
        assert(g.create_chain(lines, first, kind).intersections.dom() =~= mid.intersections.dom());
        assert forall|j: IntersectionID| #[trigger] g.intersections.contains_key(j) implies {
            &&& h.intersections[j].point == g.intersections[j].point
            &&& h.intersections[j].edges.len() >= g.intersections[j].edges.len()
        } by {
            assert(mid.intersections.dom().contains(j));
            assert(h.intersections.contains_key(j));
        }
        assert forall|t: int| 0 <= t <= lines.len() implies (#[trigger] h.intersections[id_at(
            first,
            t,
        )]).edges.len() > 0 by {
            let j = id_at(first, t);
            assert(g.intersections.contains_key(id_at(first, t)));
            assert(mid.intersections.dom().contains(j));
            if t >= lines.len() - 1 {
                assert(j == a || j == b);
            } else {
                assert(init.len() > 0);
                assert(mid.intersections[id_at(first, t)].edges.len() > 0);
            }
        }
        if g.endpoints_attached() && forall|i: int|
            0 <= i < lines.len() ==> (#[trigger] lines[i]).first() == g.intersections[id_at(
                first,
                i,
            )].point && lines[i].last() == g.intersections[id_at(first, i + 1)].point {
            assert forall|i: int| 0 <= i < init.len() implies (#[trigger] init[i]).first()
                == g.intersections[id_at(first, i)].point && init[i].last()
                == g.intersections[id_at(first, i + 1)].point by {
                assert(init[i] == lines[i]);
            }
            assert(mid.endpoints_attached());
            let n = lines.len() - 1;
            assert(lines[n].first() == g.intersections[id_at(first, n)].point);
            assert(lines[n].last() == g.intersections[id_at(first, n + 1)].point);
            assert(mid.intersections[a].point == g.intersections[a].point);
            assert(mid.intersections[b].point == g.intersections[b].point);
        }
    }
}

/// Folding the boundary intersections into the new ones keeps the graph
/// consistent.
pub proof fn lemma_attach_all<C>(
    g: GraphView<C>,
    olds: Seq<IntersectionID>,
    attach: Seq<usize>,
    first: nat,
)
    requires
        g.wf(),
    ensures
        g.attach_all(olds, attach, first).wf(),
        g.attach_all(olds, attach, first).edge_id_counter == g.edge_id_counter,
        g.attach_all(olds, attach, first).intersection_id_counter == g.intersection_id_counter,
        g.endpoints_attached() ==> g.attach_all(olds, attach, first).endpoints_attached(),
        forall|j: IntersectionID| #[trigger]
            g.attach_all(olds, attach, first).intersections.contains_key(j) ==> {
                &&& g.intersections.contains_key(j)
                &&& g.intersections[j].edges.len() > 0 ==> g.attach_all(
                    olds,
                    attach,
                    first,
                ).intersections[j].edges.len() > 0
            },
        forall|j: IntersectionID| #[trigger]
            g.intersections.contains_key(j) && !olds.contains(j) ==> g.attach_all(
                olds,
                attach,
                first,
            ).intersections.contains_key(j),
    decreases olds.len(),
{
    if olds.len() > 0 && attach.len() > 0 {
        let mid = g.attach_all(olds.drop_last(), attach.drop_last(), first);
        lemma_attach_all(g, olds.drop_last(), attach.drop_last(), first);
        let target = id_at(first, attach.last() as int);
        let h = g.attach_all(olds, attach, first);
        if mid.intersections.contains_key(olds.last()) && mid.intersections.contains_key(target)
            && olds.last() != target {
            lemma_replace_intersection_wf(mid, olds.last(), target, true);
            assert forall|j: IntersectionID| #[trigger] h.intersections.contains_key(j) implies {
                &&& g.intersections.contains_key(j)
                &&& g.intersections[j].edges.len() > 0 ==> h.intersections[j].edges.len() > 0
            } by {
                assert(mid.intersections.dom().contains(j));
                assert(mid.intersections.contains_key(j));
                if g.intersections[j].edges.len() > 0 {
                    let x = mid.intersections[j].edges[0];
                    assert(mid.intersections[j].edges.contains(x));
                    if j == target {
                        assert(h.intersections[target].edges.contains(x));
                    }
                }
            }
        }
        assert forall|j: IntersectionID| #[trigger]
            g.intersections.contains_key(j) && !olds.contains(j) implies h.intersections.contains_key(
            j,
        ) by {
            crate::seqs::lemma_contains_push(olds.drop_last(), olds.last(), j);
            assert(olds.drop_last().push(olds.last()) == olds);
            assert(mid.intersections.contains_key(j));
        }
    }
}

/// Folding boundary intersections that are all live into new ones that
/// are live and differ from them takes every one of them away.
pub proof fn lemma_attach_all_removes<C>(
    g: GraphView<C>,
    olds: Seq<IntersectionID>,
    attach: Seq<usize>,
    first: nat,
    bound: nat,
)
    requires
        g.wf(),
        olds.len() == attach.len(),
        forall|k: int| 0 <= k < olds.len() ==> (#[trigger] olds[k]).0 < first,
        forall|k: int| 0 <= k < attach.len() ==> (#[trigger] attach[k]) < bound,
        first + bound <= usize::MAX + 1,
        forall|t: int| 0 <= t < bound ==> g.intersections.contains_key(#[trigger] id_at(first, t)),
    ensures
        forall|k: int|
            0 <= k < olds.len() ==> !g.attach_all(olds, attach, first).intersections.contains_key(
                #[trigger] olds[k],
            ),
        forall|t: int|
            0 <= t < bound ==> g.attach_all(olds, attach, first).intersections.contains_key(
                #[trigger] id_at(first, t),
            ),
    decreases olds.len(),
{
    if olds.len() > 0 {
        let init = olds.drop_last();
        let mid = g.attach_all(init, attach.drop_last(), first);
        assert forall|k: int| 0 <= k < init.len() implies (#[trigger] init[k]).0 < first by {
            assert(init[k] == olds[k]);
        }
        assert forall|k: int| 0 <= k < attach.drop_last().len() implies (
        #[trigger] attach.drop_last()[k]) < bound by {
            assert(attach.drop_last()[k] == attach[k]);
        }
        lemma_attach_all_removes(g, init, attach.drop_last(), first, bound);
        lemma_attach_all(g, init, attach.drop_last(), first);
        let h = g.attach_all(olds, attach, first);
        let last = olds.last();
        assert(olds[olds.len() - 1].0 < first);
        assert(attach[attach.len() - 1] < bound);
        let target = id_at(first, attach.last() as int);
        assert(mid.intersections.contains_key(id_at(first, attach.last() as int)));
        assert(target.0 >= first);
        assert(last != target);
        if mid.intersections.contains_key(last) {
            lemma_replace_intersection_wf(mid, last, target, true);
        }
        assert forall|k: int| 0 <= k < olds.len() implies !h.intersections.contains_key(
            #[trigger] olds[k],
        ) by {
            if k < init.len() {
                assert(init[k] == olds[k]);
                assert(!mid.intersections.contains_key(init[k]));
            }
        }
        assert forall|t: int| 0 <= t < bound implies h.intersections.contains_key(
            #[trigger] id_at(first, t),
        ) by {
            assert(mid.intersections.contains_key(id_at(first, t)));
            assert(id_at(first, t).0 >= first);
            assert(id_at(first, t) != last);
        }
    }
}

/// Replacing a dual carriageway by its centre line keeps the graph consistent.
pub proof fn lemma_collapse_dual_carriageway<C>(
    g: GraphView<C>,
    boundary_edges: Seq<EdgeID>,
    boundary_intersections: Seq<IntersectionID>,
    lines: Seq<Seq<C>>,
    new_endpts: Seq<C>,
    attach: Seq<usize>,
)
    requires
        g.wf(),
    ensures
        g.collapse_dual_carriageway(
            boundary_edges,
            boundary_intersections,
            lines,
            new_endpts,
            attach,
        ).wf(),
        g.collapse_dual_carriageway(
            boundary_edges,
            boundary_intersections,
            lines,
            new_endpts,
            attach,
        ).edge_id_counter >= g.edge_id_counter,
        g.collapse_dual_carriageway(
            boundary_edges,
            boundary_intersections,
            lines,
            new_endpts,
            attach,
        ).intersection_id_counter >= g.intersection_id_counter,
{
    if g.dc_input_ok(lines, new_endpts, boundary_intersections, attach) {
        let first = g.intersection_id_counter + 1;
        let kind = g.merged_motorized(boundary_edges);
        lemma_merged_motorized(g, boundary_edges);
        let g1 = g.remove_edges(boundary_edges);
        lemma_remove_edges(g, boundary_edges);
        let g2 = g1.create_intersections(new_endpts);
        lemma_create_intersections(g1, new_endpts);
        assert forall|t: int| 0 <= t <= lines.len() implies g2.intersections.contains_key(
            #[trigger] id_at(first as nat, t),
        ) by {}
        lemma_create_chain(g2, lines, first, kind);
        let g3 = g2.create_chain(lines, first, kind);
        lemma_attach_all(g3, boundary_intersections, attach, first);
    }
}

/// Whether the pieces of a centre line run from end point to end point.
pub open spec fn splits_join<C>(lines: Seq<Seq<C>>, new_endpts: Seq<C>) -> bool {
    forall|i: int|
        0 <= i < lines.len() ==> (#[trigger] lines[i]).first() == new_endpts[i] && lines[i].last()
            == new_endpts[i + 1]
}

/// Replacing a dual carriageway by a centre line whose pieces run from end
/// point to end point keeps every linestring attached to its intersections.
pub proof fn lemma_collapse_dual_carriageway_attached<C>(
    g: GraphView<C>,
    boundary_edges: Seq<EdgeID>,
    boundary_intersections: Seq<IntersectionID>,
    lines: Seq<Seq<C>>,
    new_endpts: Seq<C>,
    attach: Seq<usize>,
)
    requires
        g.wf(),
        g.endpoints_attached(),
        splits_join(lines, new_endpts),
    ensures
        g.collapse_dual_carriageway(
            boundary_edges,
            boundary_intersections,
            lines,
            new_endpts,
            attach,
        ).endpoints_attached(),
{
    if g.dc_input_ok(lines, new_endpts, boundary_intersections, attach) {
        let first = g.intersection_id_counter + 1;
        let kind = g.merged_motorized(boundary_edges);
        lemma_merged_motorized(g, boundary_edges);
        let g1 = g.remove_edges(boundary_edges);
        lemma_remove_edges(g, boundary_edges);
        let g2 = g1.create_intersections(new_endpts);
        lemma_create_intersections(g1, new_endpts);
        assert forall|t: int| 0 <= t <= lines.len() implies g2.intersections.contains_key(
            #[trigger] id_at(first as nat, t),
        ) by {}
        assert forall|i: int| 0 <= i < lines.len() implies (#[trigger] lines[i]).first()
            == g2.intersections[id_at(first, i)].point && lines[i].last()
            == g2.intersections[id_at(first, i + 1)].point by {
            assert(g2.intersections[id_at(first, i)].point == new_endpts[i]);
            assert(g2.intersections[id_at(first, i + 1)].point == new_endpts[i + 1]);
        }
        lemma_create_chain(g2, lines, first, kind);
        let g3 = g2.create_chain(lines, first, kind);
        lemma_attach_all(g3, boundary_intersections, attach, first);
    }
}

/// Replacing a dual carriageway by its centre line leaves no intersection
/// without an edge, if there was none before and the boundary
/// intersections are live and are all the ends of the boundary edges.
pub proof fn lemma_collapse_dual_carriageway_none_empty<C>(
    g: GraphView<C>,
    boundary_edges: Seq<EdgeID>,
    boundary_intersections: Seq<IntersectionID>,
    lines: Seq<Seq<C>>,
    new_endpts: Seq<C>,
    attach: Seq<usize>,
)
    requires
        g.wf(),
        g.no_empty_intersections(),
        g.ends_among(boundary_edges, boundary_intersections),
        forall|k: int|
            0 <= k < boundary_intersections.len() ==> g.intersections.contains_key(
                #[trigger] boundary_intersections[k],
            ),
    ensures
        g.collapse_dual_carriageway(
            boundary_edges,
            boundary_intersections,
            lines,
            new_endpts,
            attach,
        ).no_empty_intersections(),
{
    if g.dc_input_ok(lines, new_endpts, boundary_intersections, attach) {
        let first = g.intersection_id_counter + 1;
        let kind = g.merged_motorized(boundary_edges);
        lemma_merged_motorized(g, boundary_edges);
        let g1 = g.remove_edges(boundary_edges);
        lemma_remove_edges(g, boundary_edges);
        let g2 = g1.create_intersections(new_endpts);
        lemma_create_intersections(g1, new_endpts);
        assert forall|t: int| 0 <= t <= lines.len() implies g2.intersections.contains_key(
            #[trigger] id_at(first as nat, t),
        ) by {}
        lemma_create_chain(g2, lines, first, kind);
        let g3 = g2.create_chain(lines, first, kind);
        lemma_attach_all(g3, boundary_intersections, attach, first);
        assert forall|k: int| 0 <= k < boundary_intersections.len() implies (
        #[trigger] boundary_intersections[k]).0 < first by {
            assert(g.intersection_wf(boundary_intersections[k]));
        }
        assert forall|t: int| 0 <= t < new_endpts.len() implies g3.intersections.contains_key(
            #[trigger] id_at(first as nat, t),
        ) by {
            assert(g2.intersections.contains_key(id_at(first as nat, t)));
            assert(g3.intersections.dom().contains(id_at(first as nat, t)));
        }
        lemma_attach_all_removes(g3, boundary_intersections, attach, first, new_endpts.len());
        let h = g3.attach_all(boundary_intersections, attach, first);
        assert forall|j: IntersectionID| #[trigger] h.intersections.contains_key(j) implies h.intersections[j].edges.len()
            > 0 by {
            assert(g3.intersections.contains_key(j));
            assert(g3.intersections.dom().contains(j));
            assert(g2.intersections.contains_key(j));
            if g.intersections.contains_key(j) {
                // An old intersection that is left: it is off the boundary.
                if boundary_intersections.contains(j) {
                    let k = boundary_intersections.index_of(j);
                    assert(!h.intersections.contains_key(boundary_intersections[k]));
                }
                let list = g.intersections[j].edges;
                let x0 = list[0];
                assert(list.contains(x0));
                assert(g.intersection_wf(j));
                assert(g.incident(list[0], j));
                if boundary_edges.contains(x0) {
                    let k = boundary_edges.index_of(x0);
                    assert(g.edges.contains_key(boundary_edges[k]));
                }
                assert(g1.intersections[j].edges.contains(x0));
                assert(g2.intersections[j] == g1.intersections[j]);
                assert(g3.intersections[j].edges.len() >= g2.intersections[j].edges.len());
            } else {
                let t = j.0 - first;
                assert(id_at(first as nat, t) == j);
                assert(g3.intersections[id_at(first as nat, t)].edges.len() > 0);
            }
        }
    }
}

impl<C: Copy> Graph<C> {
    /// The motorized kind that stands for everything that the live
    /// motorized edges among `ids` stand for.
    pub fn merged_motorized(&self, ids: &Vec<EdgeID>) -> (r: EdgeKind)
        requires
            self.inv(),
        ensures
            r.wf(),
            r@ == self@.merged_motorized(ids@),
    {
        let mut kind = EdgeKind::Motorized {
            roads: OriginalEdgeSet::new(),
            service_roads: OriginalEdgeSet::new(),
            sidepaths: OriginalEdgeSet::new(),
            connectors: OriginalEdgeSet::new(),
        };
        let mut k: usize = 0;
        while k < ids.len()
            invariant
                k <= ids@.len(),
                self.inv(),
                kind.wf(),
                kind@ == self@.merged_motorized(ids@.take(k as int)),
            decreases ids@.len() - k,
        {
            assert(ids@.take(k + 1).drop_last() == ids@.take(k as int));
            let merged = match self.edge(ids[k]) {
                Some(edge) => kind.merge(&edge.kind),
                None => None,
            };
            match merged {
                Some(m) => {
                    kind = m;
                },
                None => {},
            }
            k = k + 1;
        }
        assert(ids@.take(ids@.len() as int) == ids@);
        kind
    }

    /// Whether a centre line can take the place of a dual carriageway.
    fn dc_input_ok(
        &self,
        splits: &Splits<C>,
        boundary_intersections: &Vec<IntersectionID>,
        attach: &Vec<usize>,
    ) -> (r: bool)
        ensures
            r == self@.dc_input_ok(
                splits@.lines,
                splits@.new_endpts,
                boundary_intersections@,
                attach@,
            ),
    {
        let n = splits.lines.len();
        if n < 1 || n == usize::MAX || splits.new_endpts.len() != n + 1 {
            return false;
        }
        if attach.len() != boundary_intersections.len() {
            return false;
        }
        let mut i: usize = 0;
        while i < n
            invariant
                i <= n,
                n == splits.lines@.len(),
                forall|j: int| 0 <= j < i ==> (#[trigger] splits@.lines[j]).len() >= 2,
            decreases n - i,
        {
            if splits.lines[i].len() < 2 {
                assert(splits@.lines[i as int].len() < 2);
                return false;
            }
            i = i + 1;
        }
        let mut k: usize = 0;
        while k < attach.len()
            invariant
                k <= attach@.len(),
                forall|j: int| 0 <= j < k ==> (#[trigger] attach@[j]) < splits.new_endpts@.len(),
            decreases attach@.len() - k,
        {
            if attach[k] >= splits.new_endpts.len() {
                return false;
            }
            k = k + 1;
        }
        self.counters_leave(n + 1, n)
    }

    /// Replaces a dual carriageway by its centre line. `attach` gives for
    /// each boundary intersection the index of the end point that it is
    /// folded into. Returns whether the centre line could be used; if not,
    /// nothing has changed.
    pub fn collapse_dual_carriageway(
        &mut self,
        boundary_edges: &Vec<EdgeID>,
        boundary_intersections: &Vec<IntersectionID>,
        splits: &Splits<C>,
        attach: &Vec<usize>,
    ) -> (applied: bool)
        requires
            old(self).inv(),
        ensures
            final(self).inv(),
            final(self)@ == old(self)@.collapse_dual_carriageway(
                boundary_edges@,
                boundary_intersections@,
                splits@.lines,
                splits@.new_endpts,
                attach@,
            ),
            applied == old(self)@.dc_input_ok(
                splits@.lines,
                splits@.new_endpts,
                boundary_intersections@,
                attach@,
            ),
    {
        if !self.dc_input_ok(splits, boundary_intersections, attach) {
            return false;
        }
        let ghost g = self@;
        let ghost lines = splits@.lines;
        let ghost pts = splits@.new_endpts;
        let kind = self.merged_motorized(boundary_edges);
        proof {
            lemma_merged_motorized(g, boundary_edges@);
            lemma_remove_edges(g, boundary_edges@);
        }
        self.remove_edges(boundary_edges);
        let ghost g1 = self@;
        let first = self.next_intersection_number();
        let mut k: usize = 0;
        while k < splits.new_endpts.len()
            invariant
                k <= pts.len(),
                pts == splits.new_endpts@,
                self.inv(),
                g1.wf(),
                g1.intersection_id_counter + pts.len() <= usize::MAX,
                self@ == g1.create_intersections(pts.take(k as int)),
            decreases pts.len() - k,
        {
            proof {
                assert(pts.take(k + 1).drop_last() == pts.take(k as int));
                lemma_create_intersections(g1, pts.take(k as int));
            }
            self.create_intersection(splits.new_endpts[k], IntersectionProvenance::Synthetic);
            k = k + 1;
        }
        assert(pts.take(pts.len() as int) == pts);
        let ghost g2 = self@;
        proof {
            lemma_create_intersections(g1, pts);
            assert forall|t: int| 0 <= t <= lines.len() implies g2.intersections.contains_key(
                #[trigger] id_at(first as nat, t),
            ) by {}
        }
        let mut k: usize = 0;
        while k < splits.lines.len()
            invariant
                k <= lines.len(),
                lines == splits@.lines,
                lines.len() == splits.lines@.len(),
                self.inv(),
                g2.wf(),
                kind.wf(),
                kind@.all().subset_of(g2.original_edges.dom()),
                g2.edge_id_counter + lines.len() <= usize::MAX,
                first + lines.len() <= usize::MAX,
                forall|i: int| 0 <= i < lines.len() ==> (#[trigger] lines[i]).len() >= 2,
                forall|t: int|
                    0 <= t <= lines.len() ==> g2.intersections.contains_key(
                        #[trigger] id_at(first as nat, t),
                    ),
                self@ == g2.create_chain(lines.take(k as int), first as nat, kind@),
            decreases lines.len() - k,
        {
            proof {
                let init = lines.take(k as int);
                assert(lines.take(k + 1).drop_last() == init);
                assert(lines.take(k + 1).last() == lines[k as int]);
                assert forall|i: int| 0 <= i < init.len() implies (#[trigger] init[i]).len()
                    >= 2 by {
                    assert(init[i] == lines[i]);
                }
                assert forall|t: int| 0 <= t <= init.len() implies g2.intersections.contains_key(
                    #[trigger] id_at(first as nat, t),
                ) by {}
                lemma_create_chain(g2, init, first as nat, kind@);
                assert(g2.intersections.contains_key(id_at(first as nat, k as int)));
                assert(g2.intersections.contains_key(id_at(first as nat, k + 1)));
                assert(self@.intersections.dom().contains(id_at(first as nat, k as int)));
                assert(self@.intersections.dom().contains(id_at(first as nat, k + 1)));
                assert(lines[k as int].len() >= 2);
            }
            let line = copy_vec(&splits.lines[k]);
            self.create_new_edge(
                line,
                IntersectionID(first + k),
                IntersectionID(first + k + 1),
                kind.clone(),
            );
            k = k + 1;
        }
        assert(lines.take(lines.len() as int) == lines);
        let ghost g3 = self@;
        let ghost olds = boundary_intersections@;
        let mut k: usize = 0;
        while k < boundary_intersections.len()
            invariant
                k <= olds.len(),
                olds == boundary_intersections@,
                attach@.len() == olds.len(),
                first + pts.len() <= usize::MAX + 1,
                forall|j: int| 0 <= j < attach@.len() ==> (#[trigger] attach@[j]) < pts.len(),
                self.inv(),
                self@ == g3.attach_all(olds.take(k as int), attach@.take(k as int), first as nat),
            decreases olds.len() - k,
        {
            assert(olds.take(k + 1).drop_last() == olds.take(k as int));
            assert(attach@.take(k + 1).drop_last() == attach@.take(k as int));
            assert(attach@.take(k + 1).last() == attach@[k as int]);
            assert(attach@[k as int] < pts.len());
            let i = boundary_intersections[k];
            let target = IntersectionID(first + attach[k]);
            if i != target && self.intersection(i).is_some() && self.intersection(target).is_some() {
                self.replace_intersection(i, target, true);
            }
            k = k + 1;
        }
        assert(olds.take(olds.len() as int) == olds);
        assert(attach@.take(attach@.len() as int) == attach@);
        true
    }
}

} // verus!
