//! The walk as a value that is stepped, and the tracker that is pulled.

use vstd::prelude::*;
use crate::course::{lemma_next_on_course, lemma_start_on_course, on_course};
use crate::id_set::IdSet;
use crate::model::StoreError;
use crate::object::ObjectId;
use crate::store::{Commit, CommitStore};
use crate::walk::{
    lemma_next_emission, lemma_step_remaining, next_emission, remaining, step, Outcome,
    TrackerState,
};

verus! {

/// The walk as a value: what waits to be examined, what was visited, and what
/// is claimed. Each step is taken against a store that the caller hands in,
/// so the store may grow between two steps.
///
/// A walk claims no content id. A commit is therefore emitted whenever a
/// parent disagrees with it, also where a commit emitted before held the same
/// content: after a revert both the revert and the first introduction are
/// reported.
pub struct Walk {
    frontier: Vec<ObjectId>,
    visited: IdSet,
    claimed: IdSet,
}

/// How one step of a walk ended.
#[derive(Debug, PartialEq, Eq)]
pub enum Step<'store> {
    /// Nothing was left to examine.
    Exhausted,
    /// The store could not resolve an object; the walk is as it was.
    Failed(StoreError),
    /// A commit was examined and found not to have changed the path.
    Skipped,
    /// A commit was examined and found to have changed the path.
    Emitted(&'store Commit),
}

impl<'store> Step<'store> {
    /// The outcome without the commit's data.
    pub open spec fn outcome(self) -> Outcome {
        match self {
            Step::Exhausted => Outcome::Exhausted,
            Step::Failed(e) => Outcome::Failed(e),
            Step::Skipped => Outcome::Skipped,
            Step::Emitted(c) => Outcome::Emitted(c.id),
        }
    }
}

impl View for Walk {
    type V = TrackerState;

    closed spec fn view(&self) -> TrackerState {
        TrackerState {
            frontier: self.frontier@,
            visited: self.visited@,
            claimed: self.claimed@,
        }
    }
}

impl Walk {
    /// A walk that begins at the commit named `root`: the root waits on the
    /// frontier and is marked as visited.
    pub fn new(root: ObjectId) -> (w: Walk)
        ensures
            w@ == TrackerState::start(root),
    {
        let mut frontier: Vec<ObjectId> = Vec::new();
        frontier.push(root);
        let mut visited = IdSet::new();
        visited.insert(root);
        let w = Walk { frontier, visited, claimed: IdSet::new() };
        w
    }

    /// Examines the last commit of the frontier.
    pub fn step<'store>(&mut self, store: &'store CommitStore, path: &String) -> (r: Step<'store>)
        ensures
            (final(self)@, r.outcome()) == step(store@, path@, old(self)@),
            r matches Step::Emitted(c) ==> store@.commits[c.id] == c.data(),
    {
        let n = self.frontier.len();
        if n == 0 {
            return Step::Exhausted;
        }
        let id = self.frontier[n - 1];
        let commit = match store.commit(id) {
            None => {
                return Step::Failed(StoreError::MissingCommit(id));
            },
            Some(c) => c,
        };
        let snapshot = match store.snapshot(commit.snapshot) {
            None => {
                return Step::Failed(StoreError::MissingSnapshot(commit.snapshot));
            },
            Some(s) => s,
        };
        match snapshot.lookup(path) {
            None => {
                self.frontier.pop();
                Step::Skipped
            },
            Some(content) => {
                if self.claimed.contains(content) {
                    self.frontier.pop();
                    Step::Skipped
                } else if commit.parents.len() == 0 {
                    self.frontier.pop();
                    Step::Emitted(commit)
                } else {
                    match store.any_differs(&commit.parents, path, content) {
                        Err(e) => Step::Failed(e),
                        Ok(changed) => {
                            self.frontier.pop();
                            self.enqueue(&commit.parents);
                            if changed {
                                Step::Emitted(commit)
                            } else {
                                Step::Skipped
                            }
                        },
                    }
                }
            },
        }
    }

    /// Marks each of `parents` that was not visited before and puts it on the
    /// frontier.
    fn enqueue(&mut self, parents: &Vec<ObjectId>)
        ensures
            final(self)@ == old(self)@.enqueue(parents@),
    {
        let mut i: usize = 0;
        while i < parents.len()
            invariant
                i <= parents.len(),
                self@ == old(self)@.enqueue(parents@.take(i as int)),
            decreases parents.len() - i,
        {
            proof {
                assert(parents@.take(i + 1).drop_last() =~= parents@.take(i as int));
            }
            if self.visited.insert(parents[i]) {
                self.frontier.push(parents[i]);
            }
            i += 1;
        }
        proof {
            assert(parents@.take(i as int) =~= parents@);
        }
    }
}

/// Hands out, one at a time, the commits that changed a path, walking a store
/// back from a root commit. No commit is examined twice, and nothing is read
/// from the store before it is needed.
pub struct FileChangeTracker<'store, 'path> {
    store: &'store CommitStore,
    path: &'path String,
    walk: Walk,
}

impl<'store, 'path> View for FileChangeTracker<'store, 'path> {
    type V = TrackerState;

    closed spec fn view(&self) -> TrackerState {
        self.walk@
    }
}

impl<'store, 'path> FileChangeTracker<'store, 'path> {
    /// The store that is walked.
    pub closed spec fn store(&self) -> &'store CommitStore {
        self.store
    }

    /// The path that is tracked.
    pub closed spec fn path(&self) -> &'path String {
        self.path
    }

    /// A tracker that walks `store` back from the commit named `root` and
    /// watches `path`. The root waits on the frontier and is marked as visited.
    pub fn new(store: &'store CommitStore, root: ObjectId, path: &'path String) -> (t:
        FileChangeTracker<'store, 'path>)
        ensures
            t@ == TrackerState::start(root),
            t.store() == store,
            t.path() == path,
            on_course(store@, path@, root, t@),
    {
        proof {
            lemma_start_on_course(store@, path@, root);
        }
        FileChangeTracker { store, path, walk: Walk::new(root) }
    }

    /// The next commit that changed the path, `None` once the walk is over.
    ///
    /// Fails where the store cannot resolve a commit or a snapshot that the walk
    /// needs. The tracker then stays at the commit it could not examine, and
    /// fails in the same way when pulled again.
    ///
    /// A tracker that is on course stays so: no commit is marked or examined
    /// twice, and none is marked to which the walk was not led.
    pub fn next(&mut self) -> (r: Result<Option<&'store Commit>, StoreError>)
        ensures
            final(self).store() == old(self).store(),
            final(self).path() == old(self).path(),
            ({
                let h = old(self).store()@;
                let path = old(self).path()@;
                let (after, emission) = next_emission(h, path, old(self)@);
                &&& final(self)@ == after
                &&& match r {
                    Ok(Some(c)) => emission == Ok::<Option<ObjectId>, StoreError>(Some(c.id))
                        && h.commits[c.id] == c.data() && h.changed(c.id, path),
                    Ok(None) => emission == Ok::<Option<ObjectId>, StoreError>(None)
                        && after.frontier.len() == 0,
                    Err(e) => emission == Err::<Option<ObjectId>, StoreError>(e),
                }
                &&& forall|root: ObjectId|
                    on_course(h, path, root, old(self)@) ==> on_course(h, path, root, after)
            }),
    {
        let r = self.pull();
        proof {
            let h = self.store@;
            let path = self.path@;
            self.store.lemma_finite();
            lemma_next_emission(h, path, old(self)@);
            assert forall|root: ObjectId| on_course(h, path, root, old(self)@) implies on_course(
                h,
                path,
                root,
                self@,
            ) by {
                lemma_next_on_course(h, path, root, old(self)@);
            }
        }
        r
    }

    /// Takes steps until one emits, fails or finds the frontier empty.
    fn pull(&mut self) -> (r: Result<Option<&'store Commit>, StoreError>)
        ensures
            final(self).store() == old(self).store(),
            final(self).path() == old(self).path(),
            ({
                let h = old(self).store()@;
                let (after, emission) = next_emission(h, old(self).path()@, old(self)@);
                &&& final(self)@ == after
                &&& match r {
                    Ok(Some(c)) => emission == Ok::<Option<ObjectId>, StoreError>(Some(c.id))
                        && h.commits[c.id] == c.data(),
                    Ok(None) => emission == Ok::<Option<ObjectId>, StoreError>(None),
                    Err(e) => emission == Err::<Option<ObjectId>, StoreError>(e),
                }
            }),
    {
        proof {
            self.store.lemma_finite();
        }
        loop
            invariant
                self.store() == old(self).store(),
                self.path() == old(self).path(),
                self.store()@.commits.dom().finite(),
                next_emission(self.store()@, self.path()@, self@) == next_emission(
                    old(self).store()@,
                    old(self).path()@,
                    old(self)@,
                ),
            decreases remaining(self.store()@, self@),
        {
            proof {
                lemma_step_remaining(self.store@, self.path@, self@);
            }
            match self.walk.step(self.store, self.path) {
                Step::Exhausted => {
                    return Ok(None);
                },
                Step::Failed(e) => {
                    return Err(e);
                },
                Step::Emitted(c) => {
                    return Ok(Some(c));
                },
                Step::Skipped => {},
            }
        }
    }
}

} // verus!
