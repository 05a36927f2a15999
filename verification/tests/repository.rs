use git2::{ObjectType, Odb, Oid, Repository, Signature, Time};
use git_staredown::repository::{
    all_commit_ids_where_file_changed, all_commits_where_file_changed, commit_from_raw,
    current_root, load_history, read_missing, root_from_head, snapshot_from_entry, RawCommit,
    TrackError,
};
use git_staredown::{CommitStore, ObjectId, Step, StoreError, Timestamp, Walk};

/// A repository that keeps its objects in memory and has no head.
fn memory_repo() -> Repository {
    let odb = Odb::new().unwrap();
    odb.add_new_mempack_backend(3).unwrap();
    Repository::from_odb(odb).unwrap()
}

/// A repository on disk, whose head can be set.
fn disk_repo(name: &str) -> Repository {
    Repository::init(format!("/tmp/git_staredown_tests/{}", name)).unwrap()
}

fn id(oid: Oid) -> ObjectId {
    ObjectId::from_bytes(&oid.as_bytes().to_vec()).unwrap()
}

fn ids(oids: &[Oid]) -> Vec<ObjectId> {
    oids.iter().map(|oid| id(*oid)).collect()
}

/// A tree that holds `files` side by side.
fn tree(repo: &Repository, files: &[(&str, &str)]) -> Oid {
    let mut builder = repo.treebuilder(None).unwrap();
    for (name, text) in files {
        builder.insert(*name, repo.blob(text.as_bytes()).unwrap(), 0o100644).unwrap();
    }
    builder.write().unwrap()
}

/// A tree that holds `inner` as the directory `dir`.
fn tree_around(repo: &Repository, dir: &str, inner: Oid) -> Oid {
    let mut builder = repo.treebuilder(None).unwrap();
    builder.insert(dir, inner, 0o040000).unwrap();
    builder.write().unwrap()
}

fn commit_at(repo: &Repository, tree: Oid, parents: &[Oid], time: Time) -> Oid {
    let sig = Signature::new("someone", "someone@example.com", &time).unwrap();
    let tree = repo.find_tree(tree).unwrap();
    let parents: Vec<git2::Commit> =
        parents.iter().map(|p| repo.find_commit(*p).unwrap()).collect();
    let parents: Vec<&git2::Commit> = parents.iter().collect();
    repo.commit(None, &sig, &sig, "message", &tree, &parents).unwrap()
}

fn commit(repo: &Repository, tree: Oid, parents: &[Oid], seconds: i64) -> Oid {
    commit_at(repo, tree, parents, Time::new(seconds, 0))
}

/// C1 (x) <- C2 (x) <- C3 (y) <- C4 (y).
fn linear(repo: &Repository) -> [Oid; 4] {
    let x = tree(repo, &[("file.txt", "x"), ("other.txt", "o")]);
    let y = tree(repo, &[("file.txt", "y"), ("other.txt", "o")]);
    let c1 = commit(repo, x, &[], 10);
    let c2 = commit(repo, x, &[c1], 20);
    let c3 = commit(repo, y, &[c2], 30);
    let c4 = commit(repo, y, &[c3], 40);
    [c1, c2, c3, c4]
}

fn path(text: &str) -> String {
    text.to_string()
}

#[test]
fn id_is_spelt_by_twenty_bytes() {
    let bytes: Vec<u8> = (1..=20).collect();
    let id = ObjectId::from_bytes(&bytes).unwrap();
    assert_eq!(id.hi, 0x0102030405060708);
    assert_eq!(id.mid, 0x090a0b0c0d0e0f10);
    assert_eq!(id.lo, 0x11121314);
    assert_eq!(id.to_bytes(), bytes);
}

#[test]
fn id_of_other_lengths_is_refused() {
    assert_eq!(ObjectId::from_bytes(&vec![]), None);
    assert_eq!(ObjectId::from_bytes(&vec![0; 19]), None);
    assert_eq!(ObjectId::from_bytes(&vec![0; 21]), None);
    assert_eq!(ObjectId::from_bytes(&vec![0; 32]), None);
    assert_eq!(ObjectId::from_bytes(&vec![0; 20]), Some(ObjectId { hi: 0, mid: 0, lo: 0 }));
}

#[test]
fn id_bytes_go_back_and_forth() {
    let id = ObjectId { hi: u64::MAX, mid: 0x8000000000000001, lo: 0xfffffffe };
    let bytes = id.to_bytes();
    assert_eq!(bytes.len(), 20);
    assert_eq!(bytes[0], 0xff);
    assert_eq!(bytes[8], 0x80);
    assert_eq!(bytes[15], 0x01);
    assert_eq!(bytes[19], 0xfe);
    assert_eq!(ObjectId::from_bytes(&bytes), Some(id));
}

#[test]
fn id_agrees_with_the_repository() {
    let repo = memory_repo();
    let oid = repo.blob(b"some content").unwrap();
    assert_eq!(Oid::from_bytes(&id(oid).to_bytes()).unwrap(), oid);
}

#[test]
fn root_comes_from_the_head() {
    let bytes: Vec<u8> = (1..=20).collect();
    assert_eq!(root_from_head(&None), Err(TrackError::NoHead));
    assert_eq!(root_from_head(&Some(vec![1, 2, 3])), Err(TrackError::MalformedId));
    assert_eq!(root_from_head(&Some(bytes.clone())), Ok(ObjectId::from_bytes(&bytes).unwrap()));
}

#[test]
fn commit_is_made_from_its_record() {
    let one = ObjectId { hi: 0, mid: 0, lo: 1 };
    let two = ObjectId { hi: 0, mid: 2, lo: 0 };
    let three = ObjectId { hi: 3, mid: 0, lo: 0 };
    let four = ObjectId { hi: 4, mid: 4, lo: 4 };
    let raw = RawCommit {
        snapshot: two.to_bytes(),
        parents: vec![three.to_bytes(), four.to_bytes()],
        seconds: -5,
        offset_minutes: 90,
    };
    let commit = commit_from_raw(one, &raw).unwrap();
    assert_eq!(commit.id, one);
    assert_eq!(commit.snapshot, two);
    assert_eq!(commit.parents, vec![three, four]);
    assert_eq!(commit.time, Timestamp { seconds: -5, offset_minutes: 90 });
}

#[test]
fn commit_with_a_malformed_id_is_refused() {
    let one = ObjectId { hi: 0, mid: 0, lo: 1 };
    let good = one.to_bytes();
    let raw = RawCommit { snapshot: vec![1], parents: vec![], seconds: 0, offset_minutes: 0 };
    assert_eq!(commit_from_raw(one, &raw), Err(TrackError::MalformedId));
    let raw = RawCommit {
        snapshot: good.clone(),
        parents: vec![good.clone(), vec![0; 32]],
        seconds: 0,
        offset_minutes: 0,
    };
    assert_eq!(commit_from_raw(one, &raw), Err(TrackError::MalformedId));
}

#[test]
fn snapshot_is_made_from_its_entry() {
    let one = ObjectId { hi: 0, mid: 0, lo: 1 };
    let two = ObjectId { hi: 0, mid: 2, lo: 0 };
    let with = snapshot_from_entry(one, &path("a/b"), &Some(two.to_bytes())).unwrap();
    assert_eq!(with.id, one);
    assert_eq!(with.entries.len(), 1);
    assert_eq!(with.lookup(&path("a/b")), Some(two));
    assert_eq!(with.lookup(&path("a")), None);
    let without = snapshot_from_entry(one, &path("a/b"), &None).unwrap();
    assert_eq!(without.id, one);
    assert!(without.entries.is_empty());
    assert_eq!(
        snapshot_from_entry(one, &path("a/b"), &Some(vec![7; 5])),
        Err(TrackError::MalformedId)
    );
}

#[test]
fn repository_without_head_has_no_root() {
    let repo = memory_repo();
    linear(&repo);
    assert_eq!(current_root(&repo), Err(TrackError::NoHead));
    assert_eq!(all_commits_where_file_changed(&repo, &path("file.txt")), Err(TrackError::NoHead));
    assert_eq!(
        all_commit_ids_where_file_changed(&repo, &path("file.txt")),
        Err(TrackError::NoHead)
    );
}

#[test]
fn head_names_the_root() {
    let repo = disk_repo("head_names_the_root");
    let [_, c2, _, c4] = linear(&repo);
    repo.set_head_detached(c4).unwrap();
    assert_eq!(current_root(&repo), Ok(id(c4)));
    repo.set_head_detached(c2).unwrap();
    assert_eq!(current_root(&repo), Ok(id(c2)));
}

#[test]
fn linear_repository_is_walked_from_its_head() {
    let repo = disk_repo("linear_repository_is_walked_from_its_head");
    let [c1, _, c3, c4] = linear(&repo);
    repo.set_head_detached(c4).unwrap();
    let (store, commits) = all_commits_where_file_changed(&repo, &path("file.txt")).unwrap();
    assert_eq!(commits, ids(&[c3, c1]));
    assert_eq!(store.root, id(c4));
    let (store, set) = all_commit_ids_where_file_changed(&repo, &path("file.txt")).unwrap();
    assert_eq!(set.len(), 2);
    assert!(set.contains(id(c1)));
    assert!(set.contains(id(c3)));
    assert_eq!(store.commits.len(), 4);
}

#[test]
fn history_holds_what_the_repository_records() {
    let repo = memory_repo();
    let x = tree(&repo, &[("file.txt", "x")]);
    let y = tree(&repo, &[("file.txt", "y")]);
    let c1 = commit_at(&repo, x, &[], Time::new(1000, -120));
    let c2 = commit_at(&repo, y, &[], Time::new(2000, 60));
    let c3 = commit_at(&repo, y, &[c1, c2], Time::new(3000, 0));
    let store = load_history(&repo, id(c3), &path("file.txt")).unwrap();
    assert_eq!(store.root, id(c3));
    assert_eq!(store.commits.len(), 3);
    let merge = store.commit(id(c3)).unwrap();
    assert_eq!(merge.snapshot, id(y));
    assert_eq!(merge.parents, ids(&[c1, c2]));
    assert_eq!(merge.time, Timestamp { seconds: 3000, offset_minutes: 0 });
    let first = store.commit(id(c1)).unwrap();
    assert_eq!(first.snapshot, id(x));
    assert!(first.parents.is_empty());
    assert_eq!(first.time, Timestamp { seconds: 1000, offset_minutes: -120 });
    assert_eq!(store.commit(id(c2)).unwrap().time, Timestamp { seconds: 2000, offset_minutes: 60 });
    let blob_x = repo.find_tree(x).unwrap().get_name("file.txt").unwrap().id();
    assert_eq!(store.snapshot(id(x)).unwrap().lookup(&path("file.txt")), Some(id(blob_x)));
    assert_eq!(store.content(id(c1), &path("file.txt")), Ok(Some(id(blob_x))));
}

#[test]
fn linear_repository_reports_the_two_changes() {
    let repo = memory_repo();
    let [c1, _, c3, c4] = linear(&repo);
    let file = path("file.txt");
    let store = load_history(&repo, id(c4), &file).unwrap();
    let found: Vec<ObjectId> =
        store.all_commits_where_file_changed(&file).unwrap().iter().map(|c| c.id).collect();
    assert_eq!(found, ids(&[c3, c1]));
    let set = store.all_commit_ids_where_file_changed(&file).unwrap();
    assert_eq!(set.ids(), &ids(&[c3, c1]));
}

#[test]
fn merge_in_a_repository_is_reported() {
    let repo = memory_repo();
    let x = tree(&repo, &[("file.txt", "x")]);
    let y = tree(&repo, &[("file.txt", "y")]);
    let z = tree(&repo, &[("file.txt", "z")]);
    let base = commit(&repo, x, &[], 10);
    let first = commit(&repo, y, &[base], 20);
    let second = commit(&repo, z, &[base], 30);
    let merge = commit(&repo, y, &[first, second], 40);
    let file = path("file.txt");
    let store = load_history(&repo, id(merge), &file).unwrap();
    let found: Vec<ObjectId> =
        store.all_commits_where_file_changed(&file).unwrap().iter().map(|c| c.id).collect();
    assert_eq!(found, ids(&[merge, second, first, base]));
}

#[test]
fn nothing_is_read_behind_an_absent_path() {
    // C1 (x) <- C2 (no file) <- C3 (x): C1 is never asked for.
    let repo = memory_repo();
    let x = tree(&repo, &[("file.txt", "x")]);
    let none = tree(&repo, &[("other.txt", "o")]);
    let c1 = commit(&repo, x, &[], 10);
    let c2 = commit(&repo, none, &[c1], 20);
    let c3 = commit(&repo, x, &[c2], 30);
    let file = path("file.txt");
    let store = load_history(&repo, id(c3), &file).unwrap();
    assert_eq!(store.commits.len(), 2);
    assert!(store.commit(id(c3)).is_some());
    assert!(store.commit(id(c2)).is_some());
    assert!(store.commit(id(c1)).is_none());
    assert_eq!(store.snapshots.len(), 2);
    let set = store.all_commit_ids_where_file_changed(&file).unwrap();
    assert_eq!(set.ids(), &ids(&[c3]));
}

#[test]
fn only_the_root_is_read_where_the_file_never_existed() {
    let repo = memory_repo();
    let [_, _, _, c4] = linear(&repo);
    let file = path("absent.txt");
    let store = load_history(&repo, id(c4), &file).unwrap();
    assert_eq!(store.commits.len(), 1);
    assert_eq!(store.snapshots.len(), 1);
    assert!(store.snapshots[0].entries.is_empty());
    assert_eq!(store.all_commits_where_file_changed(&file), Ok(vec![]));
}

#[test]
fn path_leads_through_directories() {
    let repo = memory_repo();
    let inner_x = tree(&repo, &[("file.txt", "x")]);
    let inner_y = tree(&repo, &[("file.txt", "y")]);
    let x = tree_around(&repo, "dir", inner_x);
    let y = tree_around(&repo, "dir", inner_y);
    let c1 = commit(&repo, x, &[], 10);
    let c2 = commit(&repo, y, &[c1], 20);
    let c3 = commit(&repo, y, &[c2], 30);
    let file = path("dir/file.txt");
    let store = load_history(&repo, id(c3), &file).unwrap();
    let set = store.all_commit_ids_where_file_changed(&file).unwrap();
    assert_eq!(set.ids(), &ids(&[c2, c1]));
    // The directory itself changed with the file in it.
    let dir = path("dir");
    let store = load_history(&repo, id(c3), &dir).unwrap();
    let set = store.all_commit_ids_where_file_changed(&dir).unwrap();
    assert_eq!(set.ids(), &ids(&[c2, c1]));
    assert_eq!(store.content(id(c1), &dir), Ok(Some(id(inner_x))));
}

#[test]
fn unknown_root_is_missing() {
    let repo = memory_repo();
    linear(&repo);
    let nowhere = ObjectId { hi: 1, mid: 2, lo: 3 };
    assert_eq!(
        load_history(&repo, nowhere, &path("file.txt")),
        Err(TrackError::Missing(StoreError::MissingCommit(nowhere)))
    );
}

#[test]
fn tree_named_as_root_is_no_commit() {
    let repo = memory_repo();
    let x = tree(&repo, &[("file.txt", "x")]);
    assert_eq!(
        load_history(&repo, id(x), &path("file.txt")),
        Err(TrackError::Missing(StoreError::MissingCommit(id(x))))
    );
}

#[test]
fn commit_whose_tree_is_gone_fails_the_walk() {
    let repo = memory_repo();
    let gone = "0123456789abcdef0123456789abcdef01234567";
    let who = "a <a@example.com> 10 +0000";
    let text = format!("tree {}\nauthor {}\ncommitter {}\n\nm\n", gone, who, who);
    let broken = repo.odb().unwrap().write(ObjectType::Commit, text.as_bytes()).unwrap();
    assert_eq!(
        load_history(&repo, id(broken), &path("file.txt")),
        Err(TrackError::Missing(StoreError::MissingSnapshot(id(Oid::from_str(gone).unwrap()))))
    );
}

#[test]
fn commit_whose_parent_is_gone_fails_the_walk() {
    let repo = memory_repo();
    let x = tree(&repo, &[("file.txt", "x")]);
    let gone = "89abcdef0123456789abcdef0123456701234567";
    let who = "a <a@example.com> 10 +0000";
    let text = format!("tree {}\nparent {}\nauthor {}\ncommitter {}\n\nm\n", x, gone, who, who);
    let orphan = repo.odb().unwrap().write(ObjectType::Commit, text.as_bytes()).unwrap();
    let child = commit(&repo, x, &[orphan], 20);
    assert_eq!(
        load_history(&repo, id(child), &path("file.txt")),
        Err(TrackError::Missing(StoreError::MissingCommit(id(Oid::from_str(gone).unwrap()))))
    );
    // Where the orphan lacks the path, its parent is never asked for.
    let store = load_history(&repo, id(child), &path("absent.txt")).unwrap();
    assert_eq!(store.commits.len(), 1);
}

#[test]
fn commits_of_a_repository_come_newest_first() {
    let repo = disk_repo("commits_of_a_repository_come_newest_first");
    let x = tree(&repo, &[("file.txt", "x")]);
    let y = tree(&repo, &[("file.txt", "y")]);
    let z = tree(&repo, &[("file.txt", "z")]);
    let base = commit_at(&repo, x, &[], Time::new(10, 0));
    let first = commit_at(&repo, y, &[base], Time::new(30, 60));
    let second = commit_at(&repo, z, &[base], Time::new(30, -60));
    let merge = commit_at(&repo, y, &[first, second], Time::new(40, 0));
    repo.set_head_detached(merge).unwrap();
    let (store, commits) = all_commits_where_file_changed(&repo, &path("file.txt")).unwrap();
    assert_eq!(commits, ids(&[merge, first, second, base]));
    assert_eq!(store.commits.len(), 4);
    let (_, set) = all_commit_ids_where_file_changed(&repo, &path("file.txt")).unwrap();
    assert_eq!(set.ids(), &ids(&[merge, second, base, first]));
}

#[test]
fn missing_object_is_read_into_the_store() {
    let repo = memory_repo();
    let [c1, c2, _, _] = linear(&repo);
    let file = path("file.txt");
    let mut store = CommitStore { root: id(c2), commits: vec![], snapshots: vec![] };
    assert_eq!(read_missing(&repo, &mut store, &file, StoreError::MissingCommit(id(c2))), Ok(()));
    assert_eq!(store.commits.len(), 1);
    assert_eq!(store.commits[0].id, id(c2));
    assert_eq!(store.commits[0].parents, ids(&[c1]));
    let tree = store.commits[0].snapshot;
    assert_eq!(read_missing(&repo, &mut store, &file, StoreError::MissingSnapshot(tree)), Ok(()));
    assert_eq!(store.snapshots.len(), 1);
    assert_eq!(store.snapshots[0].id, tree);
    assert_eq!(store.snapshots[0].entries.len(), 1);
    assert_eq!(store.snapshots[0].entries[0].path, file);
}

#[test]
fn object_that_the_repository_lacks_is_not_added() {
    let repo = memory_repo();
    linear(&repo);
    let file = path("file.txt");
    let nowhere = ObjectId { hi: 9, mid: 9, lo: 9 };
    let mut store = CommitStore { root: nowhere, commits: vec![], snapshots: vec![] };
    for missing in [StoreError::MissingCommit(nowhere), StoreError::MissingSnapshot(nowhere)] {
        assert_eq!(
            read_missing(&repo, &mut store, &file, missing),
            Err(TrackError::Missing(missing))
        );
    }
    assert!(store.commits.is_empty());
    assert!(store.snapshots.is_empty());
}

#[test]
fn walk_that_stops_early_reads_little() {
    // Ten commits, each changing the file; the walk is left after the first.
    let repo = memory_repo();
    let mut tip = None;
    for n in 0..10 {
        let t = tree(&repo, &[("file.txt", &format!("{}", n))]);
        let parents: Vec<Oid> = tip.into_iter().collect();
        tip = Some(commit(&repo, t, &parents, n));
    }
    let tip = tip.unwrap();
    let file = path("file.txt");
    let mut store = CommitStore { root: id(tip), commits: vec![], snapshots: vec![] };
    let mut walk = Walk::new(id(tip));
    let first = loop {
        let missing = match walk.step(&store, &file) {
            Step::Emitted(c) => break Some(c.id),
            Step::Exhausted => break None,
            Step::Skipped => continue,
            Step::Failed(missing) => missing,
        };
        read_missing(&repo, &mut store, &file, missing).unwrap();
    };
    assert_eq!(first, Some(id(tip)));
    assert_eq!(store.commits.len(), 2);
    assert_eq!(store.snapshots.len(), 2);
}
