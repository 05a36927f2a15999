use git_staredown::{Commit, CommitStore, Entry, IdSet, ObjectId, Snapshot, StoreError, Timestamp};

fn oid(n: u32) -> ObjectId {
    ObjectId { hi: 0, mid: 0, lo: n }
}

fn at(seconds: i64, offset_minutes: i32) -> Timestamp {
    Timestamp { seconds, offset_minutes }
}

fn entry(path: &str, content: u32) -> Entry {
    Entry { path: path.to_string(), content: oid(content) }
}

fn store() -> CommitStore {
    CommitStore {
        root: oid(3),
        commits: vec![
            Commit { id: oid(1), snapshot: oid(10), parents: vec![], time: at(100, 0) },
            Commit { id: oid(2), snapshot: oid(11), parents: vec![oid(1)], time: at(200, 0) },
            Commit {
                id: oid(3),
                snapshot: oid(12),
                parents: vec![oid(2), oid(1)],
                time: at(300, 0),
            },
            Commit { id: oid(1), snapshot: oid(99), parents: vec![oid(3)], time: at(400, 0) },
            Commit { id: oid(4), snapshot: oid(77), parents: vec![oid(5)], time: at(500, 0) },
        ],
        snapshots: vec![
            Snapshot { id: oid(10), entries: vec![entry("a", 50), entry("b", 51)] },
            Snapshot { id: oid(11), entries: vec![entry("a", 50), entry("a", 52)] },
            Snapshot { id: oid(12), entries: vec![entry("b", 53)] },
            Snapshot { id: oid(10), entries: vec![] },
        ],
    }
}

#[test]
fn ids_differ_in_any_word() {
    let a = ObjectId { hi: 1, mid: 2, lo: 3 };
    assert_eq!(a, ObjectId { hi: 1, mid: 2, lo: 3 });
    assert_ne!(a, ObjectId { hi: 0, mid: 2, lo: 3 });
    assert_ne!(a, ObjectId { hi: 1, mid: 0, lo: 3 });
    assert_ne!(a, ObjectId { hi: 1, mid: 2, lo: 0 });
}

#[test]
fn earlier_seconds_come_before() {
    assert!(at(10, 0).is_before(&at(11, 0)));
    assert!(!at(11, 0).is_before(&at(10, 0)));
    assert!(at(-5, 0).is_before(&at(0, 0)));
    assert!(at(10, 600).is_before(&at(11, -600)));
}

#[test]
fn offset_decides_among_equal_seconds() {
    assert!(at(10, -60).is_before(&at(10, 0)));
    assert!(at(10, 0).is_before(&at(10, 60)));
    assert!(!at(10, 60).is_before(&at(10, 0)));
}

#[test]
fn no_time_is_before_itself() {
    assert!(!at(10, 30).is_before(&at(10, 30)));
    assert!(!at(i64::MIN, i32::MIN).is_before(&at(i64::MIN, i32::MIN)));
    assert!(at(i64::MIN, i32::MIN).is_before(&at(i64::MAX, i32::MAX)));
}

#[test]
fn current_root_is_the_recorded_one() {
    assert_eq!(store().current_root(), oid(3));
}

#[test]
fn commit_is_found_by_id() {
    let s = store();
    assert_eq!(s.commit(oid(2)), Some(&s.commits[1]));
    assert_eq!(s.commit(oid(4)).map(|c| c.snapshot), Some(oid(77)));
    assert_eq!(s.commit(oid(6)), None);
}

#[test]
fn first_commit_of_an_id_counts() {
    let s = store();
    let found = s.commit(oid(1)).unwrap();
    assert_eq!(found.snapshot, oid(10));
    assert_eq!(found.time, at(100, 0));
    assert!(found.parents.is_empty());
}

#[test]
fn snapshot_is_found_by_id() {
    let s = store();
    assert_eq!(s.snapshot(oid(12)), Some(&s.snapshots[2]));
    assert_eq!(s.snapshot(oid(10)).map(|t| t.entries.len()), Some(2));
    assert_eq!(s.snapshot(oid(13)), None);
}

#[test]
fn lookup_finds_the_path_or_nothing() {
    let s = store();
    assert_eq!(s.snapshots[0].lookup(&"a".to_string()), Some(oid(50)));
    assert_eq!(s.snapshots[0].lookup(&"b".to_string()), Some(oid(51)));
    assert_eq!(s.snapshots[0].lookup(&"c".to_string()), None);
    assert_eq!(s.snapshots[0].lookup(&"".to_string()), None);
    assert_eq!(s.snapshots[3].lookup(&"a".to_string()), None);
}

#[test]
fn first_entry_of_a_path_counts() {
    let s = store();
    assert_eq!(s.snapshots[1].lookup(&"a".to_string()), Some(oid(50)));
}

#[test]
fn content_goes_through_the_snapshot() {
    let s = store();
    assert_eq!(s.content(oid(1), &"a".to_string()), Ok(Some(oid(50))));
    assert_eq!(s.content(oid(3), &"b".to_string()), Ok(Some(oid(53))));
    assert_eq!(s.content(oid(3), &"a".to_string()), Ok(None));
}

#[test]
fn content_of_an_unknown_commit_fails() {
    let s = store();
    assert_eq!(s.content(oid(6), &"a".to_string()), Err(StoreError::MissingCommit(oid(6))));
}

#[test]
fn content_of_a_commit_without_snapshot_fails() {
    let s = store();
    assert_eq!(s.content(oid(4), &"a".to_string()), Err(StoreError::MissingSnapshot(oid(77))));
}

#[test]
fn parent_differs_by_content_or_by_absence() {
    let s = store();
    let a = "a".to_string();
    assert_eq!(s.differs_from(oid(1), &a, oid(50)), Ok(false));
    assert_eq!(s.differs_from(oid(1), &a, oid(51)), Ok(true));
    assert_eq!(s.differs_from(oid(3), &a, oid(50)), Ok(true));
    assert_eq!(s.differs_from(oid(6), &a, oid(50)), Err(StoreError::MissingCommit(oid(6))));
    assert_eq!(s.differs_from(oid(4), &a, oid(50)), Err(StoreError::MissingSnapshot(oid(77))));
}

#[test]
fn any_parent_that_differs_counts() {
    let s = store();
    let a = "a".to_string();
    assert_eq!(s.any_differs(&vec![], &a, oid(50)), Ok(false));
    assert_eq!(s.any_differs(&vec![oid(1), oid(2)], &a, oid(50)), Ok(false));
    assert_eq!(s.any_differs(&vec![oid(1), oid(3)], &a, oid(50)), Ok(true));
    assert_eq!(s.any_differs(&vec![oid(3), oid(1)], &a, oid(50)), Ok(true));
    assert_eq!(s.any_differs(&vec![oid(1), oid(2)], &a, oid(52)), Ok(true));
}

#[test]
fn every_parent_is_read() {
    let s = store();
    let a = "a".to_string();
    // The first parent differs, and the second still has to resolve.
    assert_eq!(
        s.any_differs(&vec![oid(3), oid(6)], &a, oid(50)),
        Err(StoreError::MissingCommit(oid(6)))
    );
    assert_eq!(
        s.any_differs(&vec![oid(4), oid(6)], &a, oid(50)),
        Err(StoreError::MissingSnapshot(oid(77)))
    );
}

#[test]
fn id_set_starts_empty() {
    let set = IdSet::new();
    assert_eq!(set.len(), 0);
    assert!(!set.contains(oid(1)));
    assert!(set.ids().is_empty());
}

#[test]
fn id_set_holds_each_id_once() {
    let mut set = IdSet::new();
    assert!(set.insert(oid(2)));
    assert!(set.insert(oid(1)));
    assert!(!set.insert(oid(2)));
    assert_eq!(set.len(), 2);
    assert!(set.contains(oid(1)));
    assert!(set.contains(oid(2)));
    assert!(!set.contains(oid(3)));
    assert_eq!(set.ids(), &vec![oid(2), oid(1)]);
}

#[test]
fn id_set_tells_ids_apart_by_every_word() {
    let mut set = IdSet::new();
    assert!(set.insert(ObjectId { hi: 1, mid: 0, lo: 0 }));
    assert!(set.insert(ObjectId { hi: 0, mid: 1, lo: 0 }));
    assert!(set.insert(ObjectId { hi: 0, mid: 0, lo: 1 }));
    assert_eq!(set.len(), 3);
    assert!(!set.contains(ObjectId { hi: 0, mid: 0, lo: 0 }));
}
