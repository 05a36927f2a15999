//! The two ways of collecting what a tracker hands out.

use vstd::prelude::*;
use crate::course::leads_to;
use crate::id_set::IdSet;
use crate::laws::{law_each_commit_once, law_what_is_reported, law_when_the_walk_goes_through};
use crate::model::{History, StoreError};
use crate::object::ObjectId;
use crate::order::{insert_newest_first, is_newest_first, law_newest_first, newest_first};
use crate::store::{Commit, CommitStore};
use crate::tracker::FileChangeTracker;
use crate::walk::{lemma_trace_unfold, remaining, trace, TrackerState};

verus! {

/// The commits that changed `path`, in the order in which a walk from the root
/// of `h` finds them.
pub open spec fn changes(h: History, path: Seq<char>) -> Result<Seq<ObjectId>, StoreError> {
    trace(h, path, TrackerState::start(h.root))
}

/// The commits that changed `path`, newest first.
pub open spec fn changes_newest_first(h: History, path: Seq<char>) -> Result<
    Seq<ObjectId>,
    StoreError,
> {
    match changes(h, path) {
        Err(e) => Err(e),
        Ok(found) => Ok(newest_first(h, found)),
    }
}

/// The ids of `commits`, in order.
pub open spec fn ids_of(commits: Seq<&Commit>) -> Seq<ObjectId> {
    commits.map_values(|c: &Commit| c.id)
}

/// Whether each of `commits` is what `h` holds under its id.
pub open spec fn held_by(h: History, commits: Seq<&Commit>) -> bool {
    forall|i: int|
        0 <= i < commits.len() ==> h.commits[(#[trigger] commits[i]).id] == commits[i].data()
}

impl CommitStore {
    /// Every commit that changed `path`, newest first. Commits of one time come
    /// in the order in which the walk from the current root found them.
    ///
    /// Fails where the walk does, and then reports nothing.
    pub fn all_commits_where_file_changed<'a>(&'a self, path: &String) -> (r: Result<
        Vec<&'a Commit>,
        StoreError,
    >)
        ensures
            match r {
                Ok(v) => {
                    &&& changes_newest_first(self@, path@) == Ok::<Seq<ObjectId>, StoreError>(
                        ids_of(v@),
                    )
                    &&& held_by(self@, v@)
                    &&& is_newest_first(self@, ids_of(v@))
                    &&& ids_of(v@).no_duplicates()
                    &&& forall|c: ObjectId| #[trigger]
                        ids_of(v@).contains(c) <==> leads_to(self@, path@, self@.root, c)
                            && self@.changed(c, path@)
                },
                Err(e) => changes_newest_first(self@, path@) == Err::<Seq<ObjectId>, StoreError>(
                    e,
                ),
            },
            r is Ok <==> forall|c: ObjectId| #[trigger]
                leads_to(self@, path@, self@.root, c) ==> self@.content(c, path@) is Ok,
    {
        proof {
            self.lemma_finite();
            law_when_the_walk_goes_through(self@, path@);
        }
        let found = match self.changing_commits(path) {
            Err(e) => {
                return Err(e);
            },
            Ok(found) => found,
        };
        let mut sorted: Vec<&'a Commit> = Vec::new();
        let mut i: usize = 0;
        while i < found.len()
            invariant
                i <= found.len(),
                changes(self@, path@) == Ok::<Seq<ObjectId>, StoreError>(ids_of(found@)),
                held_by(self@, found@),
                held_by(self@, sorted@),
                ids_of(sorted@) == newest_first(self@, ids_of(found@.take(i as int))),
            decreases found.len() - i,
        {
            proof {
                assert(ids_of(found@.take(i + 1)).drop_last() =~= ids_of(found@.take(i as int)));
            }
            insert_newest_first(Ghost(self@), &mut sorted, found[i]);
            i += 1;
        }
        proof {
            assert(found@.take(i as int) =~= found@);
            law_each_commit_once(self@, path@);
            law_newest_first(self@, ids_of(found@));
            ids_of(found@).lemma_multiset_has_no_duplicates();
            newest_first(self@, ids_of(found@)).lemma_multiset_has_no_duplicates_conv();
            assert forall|c: ObjectId| #[trigger]
                ids_of(sorted@).contains(c) <==> leads_to(self@, path@, self@.root, c)
                    && self@.changed(c, path@) by {
                law_what_is_reported(self@, path@, c);
                assert(ids_of(sorted@).to_set().contains(c) <==> ids_of(found@).to_set().contains(
                    c,
                ));
            }
        }
        Ok(sorted)
    }

    /// The ids of the commits that changed `path`, each once, in the order in
    /// which the walk from the current root found them.
    ///
    /// Fails where the walk does, and then reports nothing.
    pub fn all_commit_ids_where_file_changed(&self, path: &String) -> (r: Result<
        IdSet,
        StoreError,
    >)
        ensures
            match r {
                Ok(ids) => {
                    &&& changes(self@, path@) == Ok::<Seq<ObjectId>, StoreError>(ids.order())
                    &&& ids.wf()
                    &&& forall|c: ObjectId| #[trigger]
                        ids@.contains(c) <==> leads_to(self@, path@, self@.root, c)
                            && self@.changed(c, path@)
                },
                Err(e) => changes(self@, path@) == Err::<Seq<ObjectId>, StoreError>(e),
            },
            r is Ok <==> forall|c: ObjectId| #[trigger]
                leads_to(self@, path@, self@.root, c) ==> self@.content(c, path@) is Ok,
    {
        proof {
            self.lemma_finite();
            law_when_the_walk_goes_through(self@, path@);
        }
        let found = match self.changing_commits(path) {
            Err(e) => {
                return Err(e);
            },
            Ok(found) => found,
        };
        let ghost all = ids_of(found@);
        proof {
            law_each_commit_once(self@, path@);
        }
        let mut ids = IdSet::new();
        let mut i: usize = 0;
        while i < found.len()
            invariant
                i <= found.len(),
                all == ids_of(found@),
                all.no_duplicates(),
                ids.wf(),
                ids.order() == all.take(i as int),
            decreases found.len() - i,
        {
            proof {
                assert(!all.take(i as int).contains(all[i as int]));
            }
            ids.insert(found[i].id);
            i += 1;
        }
        proof {
            assert(all.take(i as int) =~= all);
            assert forall|c: ObjectId| #[trigger]
                ids@.contains(c) <==> leads_to(self@, path@, self@.root, c) && self@.changed(
                    c,
                    path@,
                ) by {
                law_what_is_reported(self@, path@, c);
            }
        }
        Ok(ids)
    }

    /// Pulls a tracker that starts at the current root until it is exhausted.
    fn changing_commits<'a>(&'a self, path: &String) -> (r: Result<Vec<&'a Commit>, StoreError>)
        ensures
            match r {
                Ok(v) => changes(self@, path@) == Ok::<Seq<ObjectId>, StoreError>(ids_of(v@))
                    && held_by(self@, v@),
                Err(e) => changes(self@, path@) == Err::<Seq<ObjectId>, StoreError>(e),
            },
    {
        let mut tracker = FileChangeTracker::new(self, self.current_root(), path);
        let mut found: Vec<&'a Commit> = Vec::new();
        proof {
            self.lemma_finite();
        }
        loop
            invariant
                tracker.store() == self,
                tracker.path() == path,
                self@.commits.dom().finite(),
                held_by(self@, found@),
                changes(self@, path@) == match trace(self@, path@, tracker@) {
                    Err(e) => Err::<Seq<ObjectId>, StoreError>(e),
                    Ok(rest) => Ok(ids_of(found@) + rest),
                },
            decreases remaining(self@, tracker@),
        {
            proof {
                lemma_trace_unfold(self@, path@, tracker@);
            }
            let ghost before = ids_of(found@);
            match tracker.next() {
                Err(e) => {
                    return Err(e);
                },
                Ok(None) => {
                    return Ok(found);
                },
                Ok(Some(c)) => {
                    found.push(c);
                    proof {
                        if let Ok(rest) = trace(self@, path@, tracker@) {
                            assert(before + (seq![c.id] + rest) =~= ids_of(found@) + rest);
                        }
                    }
                },
            }
        }
    }
}

} // verus!
