//! The mathematical picture of a commit store.

use vstd::prelude::*;
use crate::object::{ObjectId, Timestamp};

verus! {

/// A referenced object that the store cannot resolve. Either is fatal to a walk.
#[derive(Clone, Copy, Debug, PartialEq, Eq, Structural)]
pub enum StoreError {
    /// No commit has this id.
    MissingCommit(ObjectId),
    /// No snapshot has this id.
    MissingSnapshot(ObjectId),
}

/// What a commit records besides its own id.
#[verifier::ext_equal]
pub struct CommitData {
    pub snapshot: ObjectId,
    pub parents: Seq<ObjectId>,
    pub time: Timestamp,
}

/// An immutable object graph: commits by id, snapshots by id, and the commit
/// that the active reference points to. A snapshot maps paths to content ids.
#[verifier::ext_equal]
pub struct History {
    pub root: ObjectId,
    pub commits: Map<ObjectId, CommitData>,
    pub snapshots: Map<ObjectId, Map<Seq<char>, ObjectId>>,
}

impl History {
    /// The content id found at `path` in the snapshot of `commit`; `None` where
    /// the snapshot has no such path. Fails where the commit or its snapshot
    /// does not resolve.
    pub open spec fn content(self, commit: ObjectId, path: Seq<char>) -> Result<
        Option<ObjectId>,
        StoreError,
    > {
        if !self.commits.contains_key(commit) {
            Err(StoreError::MissingCommit(commit))
        } else {
            let snapshot = self.commits[commit].snapshot;
            if !self.snapshots.contains_key(snapshot) {
                Err(StoreError::MissingSnapshot(snapshot))
            } else if self.snapshots[snapshot].contains_key(path) {
                Ok(Some(self.snapshots[snapshot][path]))
            } else {
                Ok(None)
            }
        }
    }

    /// Whether `commit` holds `path` at all.
    pub open spec fn present(self, commit: ObjectId, path: Seq<char>) -> bool {
        self.content(commit, path) matches Ok(Some(_))
    }

    /// Whether `parent` disagrees with `content` at `path`: it lacks the path, or
    /// holds other content there.
    pub open spec fn differs_from(self, parent: ObjectId, path: Seq<char>, content: ObjectId)
        -> Result<bool, StoreError> {
        match self.content(parent, path) {
            Err(e) => Err(e),
            Ok(None) => Ok(true),
            Ok(Some(c)) => Ok(c != content),
        }
    }

    /// Whether any of `parents` disagrees with `content` at `path`. Parents are
    /// read in order, and the first one that fails to resolve decides the error.
    pub open spec fn any_differs(self, parents: Seq<ObjectId>, path: Seq<char>, content: ObjectId)
        -> Result<bool, StoreError>
        decreases parents.len(),
    {
        if parents.len() == 0 {
            Ok(false)
        } else {
            match self.any_differs(parents.drop_last(), path, content) {
                Err(e) => Err(e),
                Ok(before) => match self.differs_from(parents.last(), path, content) {
                    Err(e) => Err(e),
                    Ok(d) => Ok(before || d),
                },
            }
        }
    }

    /// Whether this history holds all that `g` holds: the same root, and every
    /// commit and snapshot of `g`, unchanged.
    pub open spec fn extends(self, g: History) -> bool {
        &&& self.root == g.root
        &&& forall|id: ObjectId| #[trigger]
            g.commits.contains_key(id) ==> self.commits.contains_key(id) && self.commits[id]
                == g.commits[id]
        &&& forall|id: ObjectId| #[trigger]
            g.snapshots.contains_key(id) ==> self.snapshots.contains_key(id) && self.snapshots[id]
                == g.snapshots[id]
    }

    /// Whether `commit` changed `path`: it holds the path, and either has no
    /// parent or disagrees with at least one of them.
    pub open spec fn changed(self, commit: ObjectId, path: Seq<char>) -> bool {
        match self.content(commit, path) {
            Ok(Some(c)) => {
                let parents = self.commits[commit].parents;
                parents.len() == 0 || self.any_differs(parents, path, c) == Ok::<
                    bool,
                    StoreError,
                >(true)
            },
            _ => false,
        }
    }
}

/// `any_differs` without the recursion: it succeeds exactly when every parent
/// resolves, and then says whether one of them disagrees.
pub proof fn lemma_any_differs(
    h: History,
    parents: Seq<ObjectId>,
    path: Seq<char>,
    content: ObjectId,
)
    ensures
        h.any_differs(parents, path, content) is Ok <==> forall|i: int|
            0 <= i < parents.len() ==> #[trigger] h.differs_from(parents[i], path, content) is Ok,
        h.any_differs(parents, path, content) matches Ok(b) ==> (b <==> exists|i: int|
            0 <= i < parents.len() && #[trigger] h.differs_from(parents[i], path, content) == Ok::<
                bool,
                StoreError,
            >(true)),
        h.any_differs(parents, path, content) matches Err(e) ==> exists|i: int|
            0 <= i < parents.len() && #[trigger] h.differs_from(parents[i], path, content) == Err::<
                bool,
                StoreError,
            >(e) && forall|j: int|
                0 <= j < i ==> #[trigger] h.differs_from(parents[j], path, content) is Ok,
    decreases parents.len(),
{
    if parents.len() > 0 {
        let front = parents.drop_last();
        lemma_any_differs(h, front, path, content);
        assert(forall|i: int| 0 <= i < front.len() ==> front[i] == parents[i]);
    }
}

} // verus!
