//! Sets of original edges.

use vstd::prelude::*;
use crate::ids::OriginalEdgeID;

verus! {

/// A finite set of original edges, kept as a list in which nothing occurs twice.
pub struct OriginalEdgeSet {
    ids: Vec<OriginalEdgeID>,
}

impl View for OriginalEdgeSet {
    type V = Set<OriginalEdgeID>;

    closed spec fn view(&self) -> Set<OriginalEdgeID> {
        self.ids@.to_set()
    }
}

impl OriginalEdgeSet {
    /// The members in the order in which they were added.
    pub closed spec fn members(&self) -> Seq<OriginalEdgeID> {
        self.ids@
    }

    /// No member is listed twice.
    pub closed spec fn wf(&self) -> bool {
        self.ids@.no_duplicates()
    }

    /// The list of members holds exactly the set, each member once.
    pub proof fn lemma_members(&self)
        requires
            self.wf(),
        ensures
            self.members().no_duplicates(),
            self.members().to_set() == self@,
            self.members().len() == self@.len(),
            self@.finite(),
            forall|x: OriginalEdgeID| self@.contains(x) <==> self.members().contains(x),
    {
        self.ids@.unique_seq_to_set();
    }

    /// The empty set.
    pub fn new() -> (r: OriginalEdgeSet)
        ensures
            r.wf(),
            r@ == Set::<OriginalEdgeID>::empty(),
    {
        let r = OriginalEdgeSet { ids: Vec::new() };
        assert(r@ =~= Set::<OriginalEdgeID>::empty());
        r
    }

    /// The set that holds `id` alone.
    pub fn singleton(id: OriginalEdgeID) -> (r: OriginalEdgeSet)
        ensures
            r.wf(),
            r@ == Set::<OriginalEdgeID>::empty().insert(id),
    {
        let mut ids = Vec::new();
        ids.push(id);
        let r = OriginalEdgeSet { ids };
        assert(r@ =~= Set::<OriginalEdgeID>::empty().insert(id)) by {
            assert(r.ids@[0] == id);
        }
        r
    }

    /// Whether `id` is a member.
    pub fn contains(&self, id: OriginalEdgeID) -> (r: bool)
        ensures
            r == self@.contains(id),
    {
        let mut i: usize = 0;
        while i < self.ids.len()
            invariant
                i <= self.ids@.len(),
                forall|j: int| 0 <= j < i ==> self.ids@[j] != id,
            decreases self.ids@.len() - i,
        {
            if self.ids[i] == id {
                return true;
            }
            i = i + 1;
        }
        false
    }

    /// Adds `id`. A member is not added again.
    pub fn insert(&mut self, id: OriginalEdgeID)
        requires
            old(self).wf(),
        ensures
            final(self).wf(),
            final(self)@ == old(self)@.insert(id),
    {
        if !self.contains(id) {
            self.ids.push(id);
            assert(self.ids@.drop_last() == old(self).ids@);
        }
        assert(self@ =~= old(self)@.insert(id)) by {
            assert forall|x: OriginalEdgeID| self@.contains(x) <==> old(self)@.insert(id).contains(
                x,
            ) by {
                if old(self)@.contains(id) {
                } else {
                    if old(self).ids@.contains(x) {
                        let j = old(self).ids@.index_of(x);
                        assert(self.ids@[j] == x);
                    }
                    if x == id {
                        assert(self.ids@[self.ids@.len() - 1] == id);
                    }
                }
            }
        }
    }

    /// The number of members.
    pub fn len(&self) -> (r: usize)
        requires
            self.wf(),
        ensures
            r == self@.len(),
            r == self.members().len(),
    {
        proof {
            self.lemma_members();
        }
        self.ids.len()
    }

    /// Whether the set has no member.
    pub fn is_empty(&self) -> (r: bool)
        ensures
            r == (self@ == Set::<OriginalEdgeID>::empty()),
            r == (self.members().len() == 0),
    {
        let r = self.ids.len() == 0;
        proof {
            if r {
                assert(self@ =~= Set::<OriginalEdgeID>::empty());
            } else {
                assert(self@.contains(self.ids@[0]));
            }
        }
        r
    }

    /// The `i`-th member in the order in which members were added.
    pub fn get(&self, i: usize) -> (r: OriginalEdgeID)
        requires
            i < self.members().len(),
        ensures
            r == self.members()[i as int],
            self@.contains(r),
    {
        self.ids[i]
    }

    /// The members as a list, each once.
    pub fn to_vec(&self) -> (r: Vec<OriginalEdgeID>)
        ensures
            r@ == self.members(),
    {
        let mut out: Vec<OriginalEdgeID> = Vec::new();
        let mut i: usize = 0;
        while i < self.ids.len()
            invariant
                i <= self.ids@.len(),
                out@ == self.ids@.take(i as int),
            decreases self.ids@.len() - i,
        {
            out.push(self.ids[i]);
            assert(self.ids@.take(i + 1) == self.ids@.take(i as int).push(self.ids@[i as int]));
            i = i + 1;
        }
        assert(self.ids@.take(self.ids@.len() as int) == self.ids@);
        out
    }

    /// A copy of the set.
    pub fn clone(&self) -> (r: OriginalEdgeSet)
        ensures
            r@ == self@,
            r.members() == self.members(),
            r.wf() == self.wf(),
    {
        OriginalEdgeSet { ids: self.to_vec() }
    }

    /// The union of the two sets.
    pub fn union(&self, other: &OriginalEdgeSet) -> (r: OriginalEdgeSet)
        requires
            self.wf(),
        ensures
            r.wf(),
            r@ == self@.union(other@),
    {
        let mut out = self.clone();
        let mut i: usize = 0;
        while i < other.ids.len()
            invariant
                i <= other.ids@.len(),
                out.wf(),
                out@ == self@.union(other.ids@.take(i as int).to_set()),
            decreases other.ids@.len() - i,
        {
            out.insert(other.ids[i]);
            proof {
                let a = other.ids@.take(i as int);
                let b = other.ids@.take(i + 1);
                assert(b == a.push(other.ids@[i as int]));
                assert(b.to_set() =~= a.to_set().insert(other.ids@[i as int])) by {
                    assert forall|x: OriginalEdgeID| b.to_set().contains(x) <==> a.to_set().insert(
                        other.ids@[i as int],
                    ).contains(x) by {
                        if a.contains(x) {
                            let j = a.index_of(x);
                            assert(b[j] == x);
                        }
                        if x == other.ids@[i as int] {
                            assert(b[i as int] == x);
                        }
                    }
                }
                assert(out@ =~= self@.union(b.to_set()));
            }
            i = i + 1;
        }
        assert(other.ids@.take(other.ids@.len() as int) == other.ids@);
        out
    }
}

} // verus!
