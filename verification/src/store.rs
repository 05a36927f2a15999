//! The commit store held in memory, and what it answers.

use vstd::prelude::*;
use crate::model::{CommitData, History, StoreError};
use crate::object::{ObjectId, Timestamp};

verus! {

/// A commit: its id, the snapshot it recorded, its parents in order, and when
/// it was made.
#[derive(Clone, Debug, PartialEq, Eq)]
pub struct Commit {
    pub id: ObjectId,
    pub snapshot: ObjectId,
    pub parents: Vec<ObjectId>,
    pub time: Timestamp,
}

/// One line of a snapshot: the content found at a path.
#[derive(Clone, Debug, PartialEq, Eq)]
pub struct Entry {
    pub path: String,
    pub content: ObjectId,
}

/// A snapshot: its id and the paths it holds.
#[derive(Clone, Debug, PartialEq, Eq)]
pub struct Snapshot {
    pub id: ObjectId,
    pub entries: Vec<Entry>,
}

/// Commits and snapshots, and the id of the commit that the active reference
/// points to. Where an id or a path occurs twice, the first occurrence counts.
#[derive(Clone, Debug, PartialEq, Eq)]
pub struct CommitStore {
    pub root: ObjectId,
    pub commits: Vec<Commit>,
    pub snapshots: Vec<Snapshot>,
}

/// Whether `i` is where `key` first occurs in `keys`.
pub open spec fn is_first<K>(keys: Seq<K>, key: K, i: int) -> bool {
    &&& 0 <= i < keys.len()
    &&& keys[i] == key
    &&& forall|j: int| 0 <= j < i ==> keys[j] != key
}

/// Where `key` first occurs in `keys`, if it occurs.
pub open spec fn first_of<K>(keys: Seq<K>, key: K) -> int {
    choose|i: int| is_first(keys, key, i)
}

/// A key has one first occurrence.
pub proof fn lemma_first_of<K>(keys: Seq<K>, key: K, i: int)
    requires
        is_first(keys, key, i),
    ensures
        first_of(keys, key) == i,
        keys.contains(key),
{
}

/// A key that occurs has a first occurrence.
pub proof fn lemma_first_exists<K>(keys: Seq<K>, key: K)
    requires
        keys.contains(key),
    ensures
        is_first(keys, key, first_of(keys, key)),
{
    let i = choose|i: int| 0 <= i < keys.len() && keys[i] == key;
    lemma_first_before(keys, key, i);
}

/// A key that occurs at `i` has a first occurrence, at `i` or before.
proof fn lemma_first_before<K>(keys: Seq<K>, key: K, i: int)
    requires
        0 <= i < keys.len(),
        keys[i] == key,
    ensures
        exists|k: int| is_first(keys, key, k),
    decreases i,
{
    if exists|j: int| 0 <= j < i && keys[j] == key {
        let j = choose|j: int| 0 <= j < i && keys[j] == key;
        lemma_first_before(keys, key, j);
    } else {
        assert(is_first(keys, key, i));
    }
}

impl Commit {
    /// What the commit records besides its id.
    pub open spec fn data(&self) -> CommitData {
        CommitData { snapshot: self.snapshot, parents: self.parents@, time: self.time }
    }
}

impl Snapshot {
    /// The paths of the entries, in order.
    pub open spec fn paths(&self) -> Seq<Seq<char>> {
        self.entries@.map_values(|e: Entry| e.path@)
    }

    /// The content found at `path`, if the snapshot holds that path.
    pub fn lookup(&self, path: &String) -> (r: Option<ObjectId>)
        ensures
            match r {
                Some(c) => self@.contains_key(path@) && self@[path@] == c,
                None => !self@.contains_key(path@),
            },
    {
        let mut i: usize = 0;
        while i < self.entries.len()
            invariant
                i <= self.entries.len(),
                forall|j: int| 0 <= j < i ==> self.paths()[j] != path@,
            decreases self.entries.len() - i,
        {
            if self.entries[i].path == *path {
                proof {
                    lemma_first_of(self.paths(), path@, i as int);
                }
                return Some(self.entries[i].content);
            }
            i += 1;
        }
        None
    }
}

impl View for Snapshot {
    type V = Map<Seq<char>, ObjectId>;

    open spec fn view(&self) -> Map<Seq<char>, ObjectId> {
        Map::new(
            |p: Seq<char>| self.paths().contains(p),
            |p: Seq<char>| self.entries@[first_of(self.paths(), p)].content,
        )
    }
}

impl CommitStore {
    /// The ids of the commits, in order.
    pub open spec fn commit_ids(&self) -> Seq<ObjectId> {
        self.commits@.map_values(|c: Commit| c.id)
    }

    /// The ids of the snapshots, in order.
    pub open spec fn snapshot_ids(&self) -> Seq<ObjectId> {
        self.snapshots@.map_values(|s: Snapshot| s.id)
    }

    /// The store never holds more than finitely many commits.
    pub proof fn lemma_finite(&self)
        ensures
            self@.commits.dom().finite(),
    {
        let ids = self.commit_ids();
        vstd::seq_lib::seq_to_set_is_finite(ids);
    }

    /// The commit that the active reference points to.
    pub fn current_root(&self) -> (r: ObjectId)
        ensures
            r == self@.root,
    {
        self.root
    }

    /// The commit named `id`, if the store has one.
    pub fn commit(&self, id: ObjectId) -> (r: Option<&Commit>)
        ensures
            match r {
                Some(c) => self@.commits.contains_key(id) && self@.commits[id] == c.data() && c.id
                    == id && *c == self.commits@[first_of(self.commit_ids(), id)],
                None => !self@.commits.contains_key(id),
            },
    {
        let mut i: usize = 0;
        while i < self.commits.len()
            invariant
                i <= self.commits.len(),
                forall|j: int| 0 <= j < i ==> self.commit_ids()[j] != id,
            decreases self.commits.len() - i,
        {
            if self.commits[i].id == id {
                proof {
                    lemma_first_of(self.commit_ids(), id, i as int);
                }
                return Some(&self.commits[i]);
            }
            i += 1;
        }
        None
    }

    /// The snapshot named `id`, if the store has one.
    pub fn snapshot(&self, id: ObjectId) -> (r: Option<&Snapshot>)
        ensures
            match r {
                Some(s) => self@.snapshots.contains_key(id) && self@.snapshots[id] == s@ && s.id
                    == id && *s == self.snapshots@[first_of(self.snapshot_ids(), id)],
                None => !self@.snapshots.contains_key(id),
            },
    {
        let mut i: usize = 0;
        while i < self.snapshots.len()
            invariant
                i <= self.snapshots.len(),
                forall|j: int| 0 <= j < i ==> self.snapshot_ids()[j] != id,
            decreases self.snapshots.len() - i,
        {
            if self.snapshots[i].id == id {
                proof {
                    lemma_first_of(self.snapshot_ids(), id, i as int);
                }
                return Some(&self.snapshots[i]);
            }
            i += 1;
        }
        None
    }

    /// The content id that the commit named `commit` holds at `path`, `None`
    /// where its snapshot has no such path.
    pub fn content(&self, commit: ObjectId, path: &String) -> (r: Result<
        Option<ObjectId>,
        StoreError,
    >)
        ensures
            r == self@.content(commit, path@),
    {
        match self.commit(commit) {
            None => Err(StoreError::MissingCommit(commit)),
            Some(c) => match self.snapshot(c.snapshot) {
                None => Err(StoreError::MissingSnapshot(c.snapshot)),
                Some(s) => Ok(s.lookup(path)),
            },
        }
    }

    /// Whether the commit named `parent` lacks `path` or holds other content
    /// there than `content`.
    pub fn differs_from(&self, parent: ObjectId, path: &String, content: ObjectId) -> (r: Result<
        bool,
        StoreError,
    >)
        ensures
            r == self@.differs_from(parent, path@, content),
    {
        match self.content(parent, path) {
            Err(e) => Err(e),
            Ok(None) => Ok(true),
            Ok(Some(c)) => Ok(c != content),
        }
    }

    /// Whether any of `parents` lacks `path` or holds other content there than
    /// `content`. Every parent is read, also after one has been found to differ.
    pub fn any_differs(&self, parents: &Vec<ObjectId>, path: &String, content: ObjectId) -> (r:
        Result<bool, StoreError>)
        ensures
            r == self@.any_differs(parents@, path@, content),
    {
        let mut changed = false;
        let mut i: usize = 0;
        while i < parents.len()
            invariant
                i <= parents.len(),
                self@.any_differs(parents@.take(i as int), path@, content) == Ok::<
                    bool,
                    StoreError,
                >(changed),
            decreases parents.len() - i,
        {
            proof {
                assert(parents@.take(i + 1).drop_last() =~= parents@.take(i as int));
            }
            match self.differs_from(parents[i], path, content) {
                Err(e) => {
                    proof {
                        lemma_any_differs_failed_prefix(self@, parents@, path@, content, i + 1);
                    }
                    return Err(e);
                },
                Ok(d) => {
                    changed = changed || d;
                },
            }
            i += 1;
        }
        proof {
            assert(parents@.take(i as int) =~= parents@);
        }
        Ok(changed)
    }
}

impl View for CommitStore {
    type V = History;

    open spec fn view(&self) -> History {
        History {
            root: self.root,
            commits: Map::new(
                |id: ObjectId| self.commit_ids().contains(id),
                |id: ObjectId| self.commits@[first_of(self.commit_ids(), id)].data(),
            ),
            snapshots: Map::new(
                |id: ObjectId| self.snapshot_ids().contains(id),
                |id: ObjectId| self.snapshots@[first_of(self.snapshot_ids(), id)]@,
            ),
        }
    }
}

/// A store to which a commit is added at the end holds all it held before,
/// and the added commit if none had its id.
pub proof fn lemma_commit_added(before: &CommitStore, after: &CommitStore, c: Commit)
    requires
        after.root == before.root,
        after.commits@ == before.commits@.push(c),
        after.snapshots@ == before.snapshots@,
    ensures
        after@.extends(before@),
        after@.commits.contains_key(c.id),
        !before@.commits.contains_key(c.id) ==> after@.commits[c.id] == c.data(),
        forall|id: ObjectId| #[trigger]
            after@.commits.contains_key(id) ==> before@.commits.contains_key(id) || id == c.id,
{
    let old_ids = before.commit_ids();
    let new_ids = after.commit_ids();
    assert(new_ids =~= old_ids.push(c.id));
    assert forall|id: ObjectId| #[trigger]
        before@.commits.contains_key(id) implies after@.commits.contains_key(id)
        && after@.commits[id] == before@.commits[id] by {
        lemma_first_exists(old_ids, id);
        let i = first_of(old_ids, id);
        assert(is_first(new_ids, id, i));
    }
    if !before@.commits.contains_key(c.id) {
        assert(is_first(new_ids, c.id, old_ids.len() as int));
    }
}

/// A store to which a snapshot is added at the end holds all it held before,
/// and the added snapshot if none had its id.
pub proof fn lemma_snapshot_added(before: &CommitStore, after: &CommitStore, s: Snapshot)
    requires
        after.root == before.root,
        after.commits@ == before.commits@,
        after.snapshots@ == before.snapshots@.push(s),
    ensures
        after@.extends(before@),
        after@.snapshots.contains_key(s.id),
        !before@.snapshots.contains_key(s.id) ==> after@.snapshots[s.id] == s@,
        after@.commits == before@.commits,
{
    let old_ids = before.snapshot_ids();
    let new_ids = after.snapshot_ids();
    assert(new_ids =~= old_ids.push(s.id));
    assert forall|id: ObjectId| #[trigger]
        before@.snapshots.contains_key(id) implies after@.snapshots.contains_key(id)
        && after@.snapshots[id] == before@.snapshots[id] by {
        lemma_first_exists(old_ids, id);
        let i = first_of(old_ids, id);
        assert(is_first(new_ids, id, i));
    }
    if !before@.snapshots.contains_key(s.id) {
        assert(is_first(new_ids, s.id, old_ids.len() as int));
    }
}

/// Once the first `n` parents fail to resolve, so do all of them.
proof fn lemma_any_differs_failed_prefix(
    h: History,
    parents: Seq<ObjectId>,
    path: Seq<char>,
    content: ObjectId,
    n: int,
)
    requires
        0 <= n <= parents.len(),
        h.any_differs(parents.take(n), path, content) is Err,
    ensures
        h.any_differs(parents, path, content) == h.any_differs(parents.take(n), path, content),
    decreases parents.len() - n,
{
    if n < parents.len() {
        assert(parents.take(n + 1).drop_last() =~= parents.take(n));
        lemma_any_differs_failed_prefix(h, parents, path, content, n + 1);
    } else {
        assert(parents.take(n) =~= parents);
    }
}

} // verus!
