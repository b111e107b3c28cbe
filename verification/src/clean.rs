//! The simple clean-up rewrites: removing an edge, removing the service
//! roads, and dissolving a junction of two edges.

use vstd::prelude::*;
use crate::graph::{Graph, copy_vec};
use crate::ids::{EdgeID, IntersectionID};
use crate::rewrite::{ids_where, lemma_collapse_degenerate_intersection, lemma_ids_where_extend};

verus! {

/// `v` back to front.
pub fn reversed<T: Copy>(v: &Vec<T>) -> (r: Vec<T>)
    ensures
        r@ == v@.reverse(),
{
    let mut out: Vec<T> = Vec::new();
    let n = v.len();
    let mut i: usize = 0;
    while i < n
        invariant
            i <= n,
            n == v@.len(),
            out@.len() == i,
            forall|j: int| 0 <= j < i ==> out@[j] == v@[n - 1 - j],
        decreases n - i,
    {
        out.push(v[n - 1 - i]);
        i = i + 1;
    }
    assert(out@ =~= v@.reverse());
    out
}

/// `a` followed by `b`.
pub fn concat<T: Copy>(a: &Vec<T>, b: &Vec<T>) -> (r: Vec<T>)
    ensures
        r@ == a@ + b@,
{
    let mut out = copy_vec(a);
    let mut i: usize = 0;
    while i < b.len()
        invariant
            i <= b@.len(),
            out@ == a@ + b@.take(i as int),
        decreases b@.len() - i,
    {
        out.push(b[i]);
        assert(b@.take(i + 1) == b@.take(i as int).push(b@[i as int]));
        assert(a@ + b@.take(i + 1) =~= (a@ + b@.take(i as int)).push(b@[i as int]));
        i = i + 1;
    }
    assert(b@.take(b@.len() as int) == b@);
    out
}

impl<C: Copy> Graph<C> {
    /// Removes intersection `i` if it is live and has no edge.
    pub fn drop_if_empty(&mut self, i: IntersectionID)
        requires
            old(self).inv(),
        ensures
            final(self).inv(),
            final(self)@ == old(self)@.drop_if_empty(i),
    {
        let empty = match self.intersection(i) {
            Some(x) => x.edges.len() == 0,
            None => false,
        };
        if empty {
            self.remove_empty_intersection(i);
        }
    }

    /// Removes edge `e`, and each of its ends that is left without an edge.
    pub fn remove_edge_and_orphans(&mut self, e: EdgeID)
        requires
            old(self).inv(),
            old(self)@.edges.contains_key(e),
        ensures
            final(self).inv(),
            final(self)@ == old(self)@.remove_edge_and_orphans(e),
    {
        let edge = self.remove_edge(e);
        self.drop_if_empty(edge.src);
        self.drop_if_empty(edge.dst);
    }

    /// Removes the live edges among `ids`, one by one.
    pub fn remove_edges(&mut self, ids: &Vec<EdgeID>)
        requires
            old(self).inv(),
        ensures
            final(self).inv(),
            final(self)@ == old(self)@.remove_edges(ids@),
    {
        let mut k: usize = 0;
        while k < ids.len()
            invariant
                k <= ids@.len(),
                self.inv(),
                self@ == old(self)@.remove_edges(ids@.take(k as int)),
            decreases ids@.len() - k,
        {
            assert(ids@.take(k + 1).drop_last() == ids@.take(k as int));
            if self.edge(ids[k]).is_some() {
                self.remove_edge(ids[k]);
            }
            k = k + 1;
        }
        assert(ids@.take(ids@.len() as int) == ids@);
    }

    /// The live service roads, by rising id.
    pub fn service_roads(&self) -> (r: Vec<EdgeID>)
        requires
            self.inv(),
        ensures
            r@ == self@.service_roads(),
    {
        let ghost pred = |e: EdgeID| self@.is_service_road(e);
        let bound = self.edge_id_bound();
        let mut ids: Vec<EdgeID> = Vec::new();
        let mut k: usize = 0;
        while k < bound
            invariant
                k <= bound,
                ids@ == ids_where(k as nat, pred),
                pred == (|e: EdgeID| self@.is_service_road(e)),
            decreases bound - k,
        {
            let is_service = match self.edge(EdgeID(k)) {
                Some(edge) => edge.kind.is_service_road(),
                None => false,
            };
            assert(is_service == pred(EdgeID(k)));
            if is_service {
                ids.push(EdgeID(k));
            }
            k = k + 1;
        }
        proof {
            lemma_ids_where_extend(bound as nat, self@.edge_id_counter + 1, pred);
        }
        ids
    }

    /// Removes every service road, and then every intersection that has no edge.
    pub fn remove_all_service_roads(&mut self)
        requires
            old(self).inv(),
        ensures
            final(self).inv(),
            final(self)@ == old(self)@.remove_all_service_roads(),
    {
        let remove_edges = self.service_roads();
        self.remove_edges(&remove_edges);
        self.remove_all_empty_intersections();
    }

    /// Dissolves junction `id` where it has exactly two different edges,
    /// neither of them a loop, whose kinds combine: both edges and the
    /// junction go, and one edge joins the far ends. Elsewhere nothing changes.
    pub fn collapse_degenerate_intersection(&mut self, id: IntersectionID)
        requires
            old(self).inv(),
            old(self)@.intersections.contains_key(id),
            old(self)@.edge_id_counter < usize::MAX,
        ensures
            final(self).inv(),
            final(self)@ == old(self)@.collapse_degenerate_intersection(id),
    {
        let ghost g = self@;
        proof {
            assert(g.intersection_wf(id));
        }
        let (e1, e2) = match self.intersection(id) {
            Some(x) => {
                if x.edges.len() != 2 || x.edges[0] == x.edges[1] {
                    return ;
                }
                (x.edges[0], x.edges[1])
            },
            None => {
                return ;
            },
        };
        proof {
            let list = g.intersections[id].edges;
            assert(g.incident(list[0], id));
            assert(g.incident(list[1], id));
        }
        let (kind, src1, dst1, src2, dst2) = match (self.edge(e1), self.edge(e2)) {
            (Some(a), Some(b)) => {
                match a.kind.merge(&b.kind) {
                    Some(kind) => (kind, a.src, a.dst, b.src, b.dst),
                    None => {
                        return ;
                    },
                }
            },
            _ => {
                return ;
            },
        };
        let i1 = if src1 == id {
            dst1
        } else {
            src1
        };
        let i2 = if src2 == id {
            dst2
        } else {
            src2
        };
        if i1 == id || i2 == id {
            return ;
        }
        proof {
            lemma_collapse_degenerate_intersection(g, id);
        }
        let edge1 = self.remove_edge(e1);
        let edge2 = self.remove_edge(e2);
        self.remove_empty_intersection(id);
        let first = if edge1.src == id {
            reversed(&edge1.linestring)
        } else {
            edge1.linestring
        };
        let second = if edge2.src == id {
            edge2.linestring
        } else {
            reversed(&edge2.linestring)
        };
        let pts = concat(&first, &second);
        self.create_new_edge(pts, i1, i2, kind);
    }
}

} // verus!
