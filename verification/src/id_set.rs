//! A set of object ids.

use vstd::prelude::*;
use crate::object::ObjectId;

verus! {

/// A finite set of object ids, kept in the order in which they were added.
#[derive(Debug, PartialEq, Eq)]
pub struct IdSet {
    ids: Vec<ObjectId>,
}

impl View for IdSet {
    type V = Set<ObjectId>;

    open spec fn view(&self) -> Set<ObjectId> {
        self.order().to_set()
    }
}

impl IdSet {
    /// The ids in the order in which they were added.
    pub closed spec fn order(&self) -> Seq<ObjectId> {
        self.ids@
    }

    /// No id occurs twice. Every set made by `new` and `insert` is of this kind.
    pub open spec fn wf(&self) -> bool {
        self.order().no_duplicates()
    }

    /// The empty set.
    pub fn new() -> (s: IdSet)
        ensures
            s.order() == Seq::<ObjectId>::empty(),
            s@ == Set::<ObjectId>::empty(),
            s.wf(),
    {
        let s = IdSet { ids: Vec::new() };
        s
    }

    /// Whether `id` is in the set.
    pub fn contains(&self, id: ObjectId) -> (b: bool)
        ensures
            b == self@.contains(id),
    {
        let mut i: usize = 0;
        while i < self.ids.len()
            invariant
                i <= self.ids.len(),
                forall|j: int| 0 <= j < i ==> self.ids@[j] != id,
            decreases self.ids.len() - i,
        {
            if self.ids[i] == id {
                return true;
            }
            i += 1;
        }
        false
    }

    /// Adds `id` and says whether it was new.
    pub fn insert(&mut self, id: ObjectId) -> (fresh: bool)
        ensures
            fresh == !old(self)@.contains(id),
            final(self)@ == old(self)@.insert(id),
            final(self).order() == if fresh {
                old(self).order().push(id)
            } else {
                old(self).order()
            },
            old(self).wf() ==> final(self).wf(),
    {
        if self.contains(id) {
            false
        } else {
            let ghost before = self.ids@;
            self.ids.push(id);
            proof {
                before.lemma_push_to_set_commute(id);
            }
            true
        }
    }

    /// How many ids the set holds.
    pub fn len(&self) -> (n: usize)
        requires
            self.wf(),
        ensures
            n == self@.len(),
    {
        proof {
            self.ids@.unique_seq_to_set();
        }
        self.ids.len()
    }

    /// The ids in the order in which they were added.
    pub fn ids(&self) -> (v: &Vec<ObjectId>)
        ensures
            v@ == self.order(),
    {
        &self.ids
    }
}

} // verus!
