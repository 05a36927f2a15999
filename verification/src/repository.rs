//! Walking a repository: what a walk needs is read from it, and nothing else.
//!
//! A repository hands out commits and trees by id. Its answers are taken as
//! they come: nothing is assumed of them, and two questions may be answered
//! differently. What was read is kept in a [`CommitStore`], and every result is
//! stated of that store.

use vstd::prelude::*;
use crate::collect::{changes, changes_newest_first, ids_of};
use crate::course::{
    leads_to, lemma_start_on_course, lemma_step_on_course, lemma_trail_grows, on_course,
};
use crate::growth::{
    after_steps, lemma_after_steps_kept, lemma_after_steps_trace, lemma_leads_to_kept,
    lemma_on_course_kept, lemma_what_a_step_lacks,
};
use crate::id_set::IdSet;
use crate::model::StoreError;
use crate::object::{ObjectId, Timestamp};
use crate::order::is_newest_first;
use crate::store::{
    lemma_commit_added, lemma_snapshot_added, Commit, CommitStore, Entry, Snapshot,
};
use crate::tracker::{Step, Walk};
use crate::walk::{lemma_step_remaining, remaining, TrackerState};

verus! {

/// A repository on disk. Nothing is known of what it holds.
#[verifier::external_type_specification]
#[verifier::external_body]
pub struct ExRepository(git2::Repository);

/// A tree of a repository. Nothing is known of what it holds.
#[verifier::external_type_specification]
#[verifier::external_body]
pub struct ExTree<'repo>(git2::Tree<'repo>);

/// Why a repository did not answer. Nothing is known of the reason.
#[verifier::external_type_specification]
#[verifier::external_body]
pub struct ExError(git2::Error);

/// What a repository records of a commit, its ids as bytes.
#[derive(Debug, PartialEq, Eq)]
pub struct RawCommit {
    pub snapshot: Vec<u8>,
    pub parents: Vec<Vec<u8>>,
    pub seconds: i64,
    pub offset_minutes: i32,
}

/// Why a repository could not be walked.
#[derive(Clone, Copy, Debug, PartialEq, Eq, Structural)]
pub enum TrackError {
    /// The repository has no commit that its head points to.
    NoHead,
    /// The repository named an object by an id that is not 160 bits wide.
    MalformedId,
    /// The repository lacks a commit or a tree that the walk needs.
    Missing(StoreError),
}

/// `Repository::head` and `Reference::target`: the id of the commit that the
/// head of `repo` points to, as bytes; `None` where the head does not point to
/// an object directly. Fails where the head does not resolve. Nothing is
/// claimed of the bytes.
#[verifier::external_body]
fn head_target(repo: &git2::Repository) -> (target: Result<Option<Vec<u8>>, git2::Error>) {
    let head = repo.head()?;
    Ok(head.target().map(|oid| oid.as_bytes().to_vec()))
}

/// `Repository::find_commit`: what `repo` records of the commit named `id`,
/// read off the commit by `Commit::tree_id`, `Commit::parent_ids` and
/// `Commit::time`, ids as bytes. Fails where `Oid::from_bytes` takes `id` for
/// no id, or `repo` finds no such commit. Nothing is claimed of the record.
#[verifier::external_body]
fn read_commit(repo: &git2::Repository, id: &Vec<u8>) -> (raw: Result<RawCommit, git2::Error>) {
    let commit = repo.find_commit(git2::Oid::from_bytes(id)?)?;
    let time = commit.time();
    Ok(
        RawCommit {
            snapshot: commit.tree_id().as_bytes().to_vec(),
            parents: commit.parent_ids().map(|parent| parent.as_bytes().to_vec()).collect(),
            seconds: time.seconds(),
            offset_minutes: time.offset_minutes(),
        },
    )
}

/// `Repository::find_tree`: the tree of `repo` named `id`. Fails where
/// `Oid::from_bytes` takes `id` for no id, or `repo` finds no such tree.
/// Nothing is claimed of the tree.
#[verifier::external_body]
fn find_tree<'repo>(repo: &'repo git2::Repository, id: &Vec<u8>) -> (tree: Result<
    git2::Tree<'repo>,
    git2::Error,
>) {
    repo.find_tree(git2::Oid::from_bytes(id)?)
}

/// `Tree::get_path` and `TreeEntry::id`: the id of what `tree` holds at
/// `path`, as bytes. Fails where the lookup does, as it does where the tree
/// holds no such path. Nothing is claimed of the bytes.
#[verifier::external_body]
fn tree_entry(tree: &git2::Tree, path: &String) -> (content: Result<Vec<u8>, git2::Error>) {
    let entry = tree.get_path(std::path::Path::new(path))?;
    Ok(entry.id().as_bytes().to_vec())
}

/// The root of a walk, from what the head of a repository pointed to.
pub fn root_from_head(head: &Option<Vec<u8>>) -> (r: Result<ObjectId, TrackError>)
    ensures
        r == match head {
            None => Err::<ObjectId, TrackError>(TrackError::NoHead),
            Some(bytes) => match ObjectId::spelt_by(bytes@) {
                None => Err(TrackError::MalformedId),
                Some(id) => Ok(id),
            },
        },
{
    match head {
        None => Err(TrackError::NoHead),
        Some(bytes) => match ObjectId::from_bytes(bytes) {
            None => Err(TrackError::MalformedId),
            Some(id) => Ok(id),
        },
    }
}

/// The commit named `id`, from what a repository recorded of it. Fails where
/// the record names its snapshot or a parent by an id that is not 160 bits
/// wide.
pub fn commit_from_raw(id: ObjectId, raw: &RawCommit) -> (r: Result<Commit, TrackError>)
    ensures
        match r {
            Ok(c) => {
                &&& c.id == id
                &&& ObjectId::spelt_by(raw.snapshot@) == Some(c.snapshot)
                &&& c.time == Timestamp { seconds: raw.seconds, offset_minutes: raw.offset_minutes }
                &&& c.parents@.len() == raw.parents@.len()
                &&& forall|i: int|
                    0 <= i < raw.parents@.len() ==> ObjectId::spelt_by(
                        (#[trigger] raw.parents@[i])@,
                    ) == Some(c.parents@[i])
            },
            Err(e) => e == TrackError::MalformedId && (raw.snapshot@.len() != 20 || exists|i: int|
                0 <= i < raw.parents@.len() && (#[trigger] raw.parents@[i])@.len() != 20),
        },
{
    let snapshot = match ObjectId::from_bytes(&raw.snapshot) {
        None => {
            return Err(TrackError::MalformedId);
        },
        Some(snapshot) => snapshot,
    };
    let mut parents: Vec<ObjectId> = Vec::new();
    let mut i: usize = 0;
    while i < raw.parents.len()
        invariant
            i <= raw.parents.len(),
            parents@.len() == i,
            forall|j: int|
                0 <= j < i ==> ObjectId::spelt_by((#[trigger] raw.parents@[j])@) == Some(
                    parents@[j],
                ),
        decreases raw.parents.len() - i,
    {
        match ObjectId::from_bytes(&raw.parents[i]) {
            None => {
                return Err(TrackError::MalformedId);
            },
            Some(parent) => {
                parents.push(parent);
            },
        }
        i += 1;
    }
    Ok(
        Commit {
            id,
            snapshot,
            parents,
            time: Timestamp { seconds: raw.seconds, offset_minutes: raw.offset_minutes },
        },
    )
}

/// The snapshot named `id` as far as a walk along `path` reads it: its entry
/// at `path`, if the tree had one. Fails where the tree named the content by
/// an id that is not 160 bits wide.
pub fn snapshot_from_entry(id: ObjectId, path: &String, entry: &Option<Vec<u8>>) -> (r: Result<
    Snapshot,
    TrackError,
>)
    ensures
        match r {
            Ok(s) => s.id == id && match entry {
                None => s.entries@.len() == 0,
                Some(bytes) => s.entries@.len() == 1 && s.entries@[0].path@ == path@
                    && ObjectId::spelt_by(bytes@) == Some(s.entries@[0].content),
            },
            Err(e) => e == TrackError::MalformedId && (entry matches Some(bytes) && bytes@.len()
                != 20),
        },
{
    let mut entries: Vec<Entry> = Vec::new();
    match entry {
        None => {},
        Some(bytes) => match ObjectId::from_bytes(bytes) {
            None => {
                return Err(TrackError::MalformedId);
            },
            Some(content) => {
                entries.push(Entry { path: path.clone(), content });
            },
        },
    }
    Ok(Snapshot { id, entries })
}

/// Reads the commit named `id`.
fn load_commit(repo: &git2::Repository, id: ObjectId) -> (r: Result<Commit, TrackError>)
    ensures
        r matches Ok(c) ==> c.id == id,
        r matches Err(e) ==> e == TrackError::MalformedId || e == TrackError::Missing(
            StoreError::MissingCommit(id),
        ),
{
    let bytes = id.to_bytes();
    match read_commit(repo, &bytes) {
        Err(_) => Err(TrackError::Missing(StoreError::MissingCommit(id))),
        Ok(raw) => commit_from_raw(id, &raw),
    }
}

/// Reads of the tree named `id` what it holds at `path`.
fn load_snapshot(repo: &git2::Repository, id: ObjectId, path: &String) -> (r: Result<
    Snapshot,
    TrackError,
>)
    ensures
        r matches Ok(s) ==> s.id == id,
        r matches Err(e) ==> e == TrackError::MalformedId || e == TrackError::Missing(
            StoreError::MissingSnapshot(id),
        ),
{
    let bytes = id.to_bytes();
    match find_tree(repo, &bytes) {
        Err(_) => Err(TrackError::Missing(StoreError::MissingSnapshot(id))),
        Ok(tree) => {
            let entry = match tree_entry(&tree, path) {
                Err(_) => None,
                Ok(content) => Some(content),
            };
            snapshot_from_entry(id, path, &entry)
        },
    }
}

/// Reads from `repo` the object that a step of a walk along `path` found
/// missing, and adds it at the end of `store`: a commit as the repository
/// records it, a snapshot with its entry at `path` alone. All that the store
/// held before it holds after.
///
/// Fails where the repository lacks the object too, and where it names an
/// object by an id that is not 160 bits wide. The store is then as it was.
pub fn read_missing(
    repo: &git2::Repository,
    store: &mut CommitStore,
    path: &String,
    missing: StoreError,
) -> (r: Result<(), TrackError>)
    ensures
        match r {
            Ok(_) => {
                &&& final(store).root == old(store).root
                &&& final(store)@.extends(old(store)@)
                &&& match missing {
                    StoreError::MissingCommit(id) => {
                        &&& final(store).snapshots@ == old(store).snapshots@
                        &&& final(store).commits@.len() == old(store).commits@.len() + 1
                        &&& final(store).commits@.drop_last() == old(store).commits@
                        &&& final(store).commits@.last().id == id
                    },
                    StoreError::MissingSnapshot(id) => {
                        &&& final(store).commits@ == old(store).commits@
                        &&& final(store).snapshots@.len() == old(store).snapshots@.len() + 1
                        &&& final(store).snapshots@.drop_last() == old(store).snapshots@
                        &&& final(store).snapshots@.last().id == id
                    },
                }
            },
            Err(e) => *final(store) == *old(store) && (e == TrackError::MalformedId || e
                == TrackError::Missing(missing)),
        },
{
    match missing {
        StoreError::MissingCommit(id) => {
            let commit = match load_commit(repo, id) {
                Err(e) => {
                    return Err(e);
                },
                Ok(commit) => commit,
            };
            let ghost added = commit;
            store.commits.push(commit);
            proof {
                lemma_commit_added(old(store), store, added);
            }
        },
        StoreError::MissingSnapshot(id) => {
            let snapshot = match load_snapshot(repo, id, path) {
                Err(e) => {
                    return Err(e);
                },
                Ok(snapshot) => snapshot,
            };
            let ghost added = snapshot;
            store.snapshots.push(snapshot);
            proof {
                lemma_snapshot_added(old(store), store, added);
            }
        },
    }
    Ok(())
}

/// Whether `store` holds what a walk along `path` needs, and no commit
/// besides: the walk from its root goes through, and is led to every commit
/// of the store.
pub open spec fn suffices(store: &CommitStore, path: Seq<char>) -> bool {
    &&& changes(store@, path) is Ok
    &&& forall|i: int|
        0 <= i < store.commits.len() ==> leads_to(
            store@,
            path,
            store.root,
            (#[trigger] store.commits[i]).id,
        )
}

/// The commit that the head of `repo` points to.
///
/// Fails where the head does not resolve, and where it names the commit by an
/// id that is not 160 bits wide.
pub fn current_root(repo: &git2::Repository) -> (r: Result<ObjectId, TrackError>)
    ensures
        r matches Err(e) ==> e == TrackError::NoHead || e == TrackError::MalformedId,
{
    match head_target(repo) {
        Err(_) => Err(TrackError::NoHead),
        Ok(head) => root_from_head(&head),
    }
}

/// Walks `repo` back from the commit named `root` along `path` and reads what
/// the walk asks for: the commit that is to be examined, its snapshot, and each
/// parent of a commit that holds the path with its snapshot. Of a snapshot
/// only the entry at `path` is kept.
///
/// Fails where the repository lacks an object that the walk asks for, and
/// where it names an object by an id that is not 160 bits wide.
pub fn load_history(repo: &git2::Repository, root: ObjectId, path: &String) -> (r: Result<
    CommitStore,
    TrackError,
>)
    ensures
        r matches Ok(store) ==> store.root == root && suffices(&store, path@),
        r matches Err(e) ==> e != TrackError::NoHead,
{
    let mut store = CommitStore { root, commits: Vec::new(), snapshots: Vec::new() };
    let mut walk = Walk::new(root);
    let ghost mut k: nat = 0;
    proof {
        lemma_start_on_course(store@, path@, root);
    }
    // Each round takes a step of the walk or adds an object to the store, and
    // a store holds no more objects than the machine can count.
    loop
        invariant
            store.root == root,
            after_steps(store@, path@, TrackerState::start(root), k) == Some(walk@),
            on_course(store@, path@, root, walk@),
            forall|i: int|
                0 <= i < store.commits.len() ==> leads_to(
                    store@,
                    path@,
                    root,
                    (#[trigger] store.commits[i]).id,
                ),
        decreases
                2 * usize::MAX - store.commits.len() - store.snapshots.len(),
                remaining(store@, walk@),
    {
        let ghost before = walk@;
        proof {
            store.lemma_finite();
            lemma_step_remaining(store@, path@, before);
            lemma_step_on_course(store@, path@, root, before);
        }
        let missing = match walk.step(&store, path) {
            Step::Exhausted => {
                proof {
                    lemma_after_steps_trace(store@, path@, TrackerState::start(root), k);
                }
                return Ok(store);
            },
            Step::Failed(e) => e,
            _ => {
                proof {
                    k = k + 1;
                }
                continue;
            },
        };
        proof {
            lemma_what_a_step_lacks(store@, path@, before);
        }
        let ghost old_store = store;
        match read_missing(repo, &mut store, path, missing) {
            Err(e) => {
                return Err(e);
            },
            Ok(()) => {},
        }
        proof {
            if let StoreError::MissingCommit(id) = missing {
                assert(leads_to(old_store@, path@, root, id)) by {
                    let c = before.frontier.last();
                    if id != c {
                        lemma_trail_grows(old_store@, path@, root, c, id);
                    }
                }
            }
            assert forall|i: int| 0 <= i < store.commits.len() implies leads_to(
                store@,
                path@,
                root,
                (#[trigger] store.commits[i]).id,
            ) by {
                if i < old_store.commits.len() {
                    assert(store.commits[i] == old_store.commits[i]);
                }
                lemma_leads_to_kept(old_store@, store@, path@, root, store.commits[i].id);
            }
            lemma_after_steps_kept(old_store@, store@, path@, TrackerState::start(root), k);
            lemma_on_course_kept(old_store@, store@, path@, root, before);
        }
    }
}

/// Every commit reachable from the head of `repo` that changed `path`, newest
/// first, together with what was read of the repository to find them.
/// Commits of one time come in the order in which the walk found them.
pub fn all_commits_where_file_changed(repo: &git2::Repository, path: &String) -> (r: Result<
    (CommitStore, Vec<ObjectId>),
    TrackError,
>)
    ensures
        r matches Ok((store, commits)) ==> {
            &&& suffices(&store, path@)
            &&& changes_newest_first(store@, path@) == Ok::<Seq<ObjectId>, StoreError>(commits@)
            &&& is_newest_first(store@, commits@)
            &&& commits@.no_duplicates()
            &&& forall|c: ObjectId| #[trigger]
                commits@.contains(c) <==> leads_to(store@, path@, store.root, c) && store@.changed(
                    c,
                    path@,
                )
        },
{
    let root = match current_root(repo) {
        Err(e) => {
            return Err(e);
        },
        Ok(root) => root,
    };
    let store = match load_history(repo, root, path) {
        Err(e) => {
            return Err(e);
        },
        Ok(store) => store,
    };
    let mut commits: Vec<ObjectId> = Vec::new();
    match store.all_commits_where_file_changed(path) {
        Err(e) => {
            return Err(TrackError::Missing(e));
        },
        Ok(found) => {
            let mut i: usize = 0;
            while i < found.len()
                invariant
                    i <= found.len(),
                    commits@ == ids_of(found@).take(i as int),
                decreases found.len() - i,
            {
                commits.push(found[i].id);
                i += 1;
            }
            assert(commits@ =~= ids_of(found@));
        },
    }
    Ok((store, commits))
}

/// The ids of the commits reachable from the head of `repo` that changed
/// `path`, each once, together with what was read of the repository to find
/// them.
pub fn all_commit_ids_where_file_changed(repo: &git2::Repository, path: &String) -> (r: Result<
    (CommitStore, IdSet),
    TrackError,
>)
    ensures
        r matches Ok((store, ids)) ==> {
            &&& suffices(&store, path@)
            &&& changes(store@, path@) == Ok::<Seq<ObjectId>, StoreError>(ids.order())
            &&& ids.wf()
            &&& forall|c: ObjectId| #[trigger]
                ids@.contains(c) <==> leads_to(store@, path@, store.root, c) && store@.changed(
                    c,
                    path@,
                )
        },
{
    let root = match current_root(repo) {
        Err(e) => {
            return Err(e);
        },
        Ok(root) => root,
    };
    let store = match load_history(repo, root, path) {
        Err(e) => {
            return Err(e);
        },
        Ok(store) => store,
    };
    match store.all_commit_ids_where_file_changed(path) {
        Err(e) => Err(TrackError::Missing(e)),
        Ok(ids) => Ok((store, ids)),
    }
}

} // verus!
