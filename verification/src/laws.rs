//! What holds of every walk, and of the two collections.

use vstd::prelude::*;
use crate::collect::{changes, changes_newest_first};
use crate::order::law_newest_first;
use crate::course::{
    is_trail, leads_to, lemma_start_on_course, lemma_step_on_course, lemma_trail_grows, on_course,
    pending,
};
use crate::model::{lemma_any_differs, History, StoreError};
use crate::object::ObjectId;
use crate::store::{first_of, lemma_first_exists, CommitStore};
use crate::walk::{lemma_step_remaining, remaining, step, trace, Outcome, TrackerState};

verus! {

/// Once the frontier is empty, every commit along a trail from the root is
/// visited.
proof fn lemma_trail_visited(
    h: History,
    path: Seq<char>,
    root: ObjectId,
    st: TrackerState,
    trail: Seq<ObjectId>,
    k: int,
)
    requires
        on_course(h, path, root, st),
        st.frontier.len() == 0,
        is_trail(h, path, trail),
        trail[0] == root,
        0 <= k < trail.len(),
    ensures
        st.visited.contains(trail[k]),
    decreases k,
{
    if k > 0 {
        lemma_trail_visited(h, path, root, st, trail, k - 1);
    }
}

/// What a walk that is on course still emits: each commit once, and exactly the
/// commits not yet examined to which the walk is led and which changed the path.
proof fn lemma_trace_from(h: History, path: Seq<char>, root: ObjectId, st: TrackerState)
    requires
        h.commits.dom().finite(),
        on_course(h, path, root, st),
        trace(h, path, st) is Ok,
    ensures
        trace(h, path, st)->Ok_0.no_duplicates(),
        forall|x: ObjectId| #[trigger]
            trace(h, path, st)->Ok_0.contains(x) <==> pending(st, x) && leads_to(h, path, root, x)
                && h.changed(x, path),
    decreases remaining(h, st),
{
    let s = trace(h, path, st)->Ok_0;
    let (after, outcome) = step(h, path, st);
    lemma_step_remaining(h, path, st);
    lemma_step_on_course(h, path, root, st);
    match outcome {
        Outcome::Exhausted => {
            assert forall|x: ObjectId|
                pending(st, x) && leads_to(h, path, root, x) implies false by {
                let trail = choose|trail: Seq<ObjectId>|
                    #[trigger] is_trail(h, path, trail) && trail[0] == root && trail.last() == x;
                lemma_trail_visited(h, path, root, st, trail, trail.len() - 1);
            }
        },
        Outcome::Failed(_) => {},
        Outcome::Skipped => {
            lemma_trace_from(h, path, root, after);
        },
        Outcome::Emitted(c) => {
            lemma_trace_from(h, path, root, after);
            let rest = trace(h, path, after)->Ok_0;
            assert(s[0] == c);
            assert(forall|i: int| 0 <= i < rest.len() ==> s[i + 1] == rest[i]);
            assert(!rest.contains(c));
            assert forall|x: ObjectId| #[trigger]
                s.contains(x) <==> pending(st, x) && leads_to(h, path, root, x) && h.changed(
                    x,
                    path,
                ) by {
                if rest.contains(x) {
                    assert(s.contains(x));
                }
            }
        },
    }
}

/// When a walk that is on course goes through: when every commit not yet
/// examined to which the walk is led resolves.
proof fn lemma_trace_succeeds(h: History, path: Seq<char>, root: ObjectId, st: TrackerState)
    requires
        h.commits.dom().finite(),
        on_course(h, path, root, st),
    ensures
        trace(h, path, st) is Ok <==> forall|c: ObjectId|
            pending(st, c) && #[trigger] leads_to(h, path, root, c) ==> h.content(c, path) is Ok,
    decreases remaining(h, st),
{
    let (after, outcome) = step(h, path, st);
    lemma_step_remaining(h, path, st);
    lemma_step_on_course(h, path, root, st);
    match outcome {
        Outcome::Exhausted => {
            assert forall|c: ObjectId|
                pending(st, c) && #[trigger] leads_to(h, path, root, c) implies false by {
                let trail = choose|trail: Seq<ObjectId>|
                    #[trigger] is_trail(h, path, trail) && trail[0] == root && trail.last() == c;
                lemma_trail_visited(h, path, root, st, trail, trail.len() - 1);
            }
        },
        Outcome::Failed(e) => {
            let c = st.frontier.last();
            if h.content(c, path) is Ok {
                let content = h.content(c, path)->Ok_0->Some_0;
                let parents = h.commits[c].parents;
                lemma_any_differs(h, parents, path, content);
                let i = choose|i: int|
                    0 <= i < parents.len() && #[trigger] h.differs_from(parents[i], path, content)
                        == Err::<bool, StoreError>(e);
                let p = parents[i];
                lemma_trail_grows(h, path, root, c, p);
            }
        },
        _ => {
            lemma_trace_succeeds(h, path, root, after);
        },
    }
}

/// The walk goes through exactly when every commit to which it is led
/// resolves, together with its snapshot. Otherwise it fails, with the first
/// object that it could not resolve.
pub proof fn law_when_the_walk_goes_through(h: History, path: Seq<char>)
    requires
        h.commits.dom().finite(),
    ensures
        changes(h, path) is Ok <==> forall|c: ObjectId| #[trigger]
            leads_to(h, path, h.root, c) ==> h.content(c, path) is Ok,
{
    let st = TrackerState::start(h.root);
    lemma_start_on_course(h, path, h.root);
    lemma_trace_succeeds(h, path, h.root, st);
}

/// The walk reports exactly the commits to which it is led and which changed
/// the path: a commit is among `changes` if and only if a chain of parent links
/// joins the root to it on which every earlier commit holds the path, and the
/// commit itself holds the path and has no parent or disagrees with one.
pub proof fn law_what_is_reported(h: History, path: Seq<char>, c: ObjectId)
    requires
        h.commits.dom().finite(),
        changes(h, path) is Ok,
    ensures
        changes(h, path)->Ok_0.contains(c) <==> leads_to(h, path, h.root, c) && h.changed(c, path),
{
    let st = TrackerState::start(h.root);
    lemma_start_on_course(h, path, h.root);
    lemma_trace_from(h, path, h.root, st);
}

/// A walk through a finite store ends, and reports no commit twice: `changes`
/// is a sequence without repetition, all of whose members are commits of the
/// store, so it is no longer than the store has commits.
pub proof fn law_each_commit_once(h: History, path: Seq<char>)
    requires
        h.commits.dom().finite(),
        changes(h, path) is Ok,
    ensures
        changes(h, path)->Ok_0.no_duplicates(),
        forall|i: int|
            0 <= i < changes(h, path)->Ok_0.len() ==> h.commits.contains_key(
                #[trigger] changes(h, path)->Ok_0[i],
            ),
        changes(h, path)->Ok_0.len() <= h.commits.dom().len(),
{
    let s = changes(h, path)->Ok_0;
    lemma_start_on_course(h, path, h.root);
    lemma_trace_from(h, path, h.root, TrackerState::start(h.root));
    s.unique_seq_to_set();
    vstd::set_lib::lemma_len_subset(s.to_set(), h.commits.dom());
}

/// No commit is marked twice, and none is put on the frontier twice: on the
/// frontier no id repeats, what waits there is marked, and a step enqueues only
/// what was not marked. This holds at the start and after every step.
pub proof fn law_no_commit_twice(h: History, path: Seq<char>, root: ObjectId, st: TrackerState)
    requires
        st == TrackerState::start(root) || on_course(h, path, root, st),
    ensures
        on_course(h, path, root, st),
        on_course(h, path, root, step(h, path, st).0),
        st.frontier.no_duplicates(),
        forall|i: int|
            0 <= i < st.frontier.len() ==> st.visited.contains(#[trigger] st.frontier[i]),
        forall|x: ObjectId|
            step(h, path, st).0.frontier.contains(x) && !st.frontier.contains(x)
                ==> !st.visited.contains(x),
{
    lemma_start_on_course(h, path, root);
    lemma_step_on_course(h, path, root, st);
    let after = step(h, path, st).0;
    assert forall|x: ObjectId|
        after.frontier.contains(x) && !st.frontier.contains(x) implies !st.visited.contains(x) by {
        assert(pending(after, x));
    }
}

/// A commit without parents that holds the path is reported, provided the walk
/// is led to it.
pub proof fn law_parentless_commit_is_reported(h: History, path: Seq<char>, c: ObjectId)
    requires
        h.commits.dom().finite(),
        changes(h, path) is Ok,
        h.present(c, path),
        h.commits[c].parents.len() == 0,
        leads_to(h, path, h.root, c),
    ensures
        changes(h, path)->Ok_0.contains(c),
{
    law_what_is_reported(h, path, c);
}

/// Whether `chain` is a chain of parent links.
pub open spec fn is_chain(h: History, chain: Seq<ObjectId>) -> bool {
    &&& chain.len() > 0
    &&& forall|i: int|
        0 <= i < chain.len() - 1 ==> h.commits[#[trigger] chain[i]].parents.contains(chain[i + 1])
}

/// Behind a commit that lacks the path nothing is examined: where every chain
/// of parent links from the root to `a` passes through `x`, and `x` lacks the
/// path, the walk never marks `a`, never puts it on the frontier and never
/// reports it.
pub proof fn law_nothing_behind_an_absent_path(
    h: History,
    path: Seq<char>,
    root: ObjectId,
    st: TrackerState,
    x: ObjectId,
    a: ObjectId,
)
    requires
        on_course(h, path, root, st),
        !h.present(x, path),
        a != x,
        forall|chain: Seq<ObjectId>|
            #[trigger] is_chain(h, chain) && chain[0] == root && chain.last() == a
                ==> chain.contains(x),
    ensures
        !leads_to(h, path, root, a),
        !st.visited.contains(a),
        !st.frontier.contains(a),
        root == h.root && h.commits.dom().finite() ==> (changes(h, path) matches Ok(found)
            ==> !found.contains(a)),
{
    if leads_to(h, path, root, a) {
        let trail = choose|trail: Seq<ObjectId>|
            #[trigger] is_trail(h, path, trail) && trail[0] == root && trail.last() == a;
        assert(is_chain(h, trail));
    }
    if root == h.root && h.commits.dom().finite() && changes(h, path) is Ok {
        law_what_is_reported(h, path, a);
    }
}

/// A path that no commit within reach holds yields nothing. It is enough that
/// the root lacks it: the walk looks at the root, and ends.
pub proof fn law_absent_path_yields_nothing(h: History, path: Seq<char>)
    requires
        h.commits.dom().finite(),
        !h.present(h.root, path),
    ensures
        changes(h, path) == match h.content(h.root, path) {
            Err(e) => Err::<Seq<ObjectId>, StoreError>(e),
            Ok(_) => Ok(Seq::<ObjectId>::empty()),
        },
{
    let st = TrackerState::start(h.root);
    if h.content(h.root, path) is Ok {
        let after = st.popped();
        assert(trace(h, path, after) == Ok::<Seq<ObjectId>, StoreError>(Seq::empty()));
    }
}

/// The list and the set hold the same commits: both fail together, with the
/// same error, and otherwise the ids of the list are the members of the set.
pub proof fn law_list_and_set_agree(h: History, path: Seq<char>)
    ensures
        match changes_newest_first(h, path) {
            Err(e) => changes(h, path) == Err::<Seq<ObjectId>, StoreError>(e),
            Ok(list) => changes(h, path) matches Ok(found) && list.to_set() == found.to_set(),
        },
{
    if let Ok(found) = changes(h, path) {
        law_newest_first(h, found);
    }
}

/// Whether two stores hold the same state: the same root, and commit for commit
/// and snapshot for snapshot the same ids, parents, times, paths and contents.
pub open spec fn same_state(a: &CommitStore, b: &CommitStore) -> bool {
    &&& a.root == b.root
    &&& a.commits.len() == b.commits.len()
    &&& forall|i: int|
        0 <= i < a.commits.len() ==> (#[trigger] a.commits[i]).id == b.commits[i].id
            && a.commits[i].data() == b.commits[i].data()
    &&& a.snapshots.len() == b.snapshots.len()
    &&& forall|i: int|
        0 <= i < a.snapshots.len() ==> (#[trigger] a.snapshots[i]).id == b.snapshots[i].id
            && a.snapshots[i].entries.len() == b.snapshots[i].entries.len()
    &&& forall|i: int, j: int|
        0 <= i < a.snapshots.len() && 0 <= j < a.snapshots[i].entries.len() ==> (
        #[trigger] a.snapshots[i].entries[j]).path@ == b.snapshots[i].entries[j].path@
            && a.snapshots[i].entries[j].content == b.snapshots[i].entries[j].content
}

/// Two runs over the same state give the same results: stores that hold the
/// same state are the same history, and both collections are functions of the
/// history and the path alone.
pub proof fn law_same_state_same_result(a: &CommitStore, b: &CommitStore, path: Seq<char>)
    requires
        same_state(a, b),
    ensures
        a@ == b@,
        changes(a@, path) == changes(b@, path),
        changes_newest_first(a@, path) == changes_newest_first(b@, path),
{
    assert(a.commit_ids() =~= b.commit_ids());
    assert(a.snapshot_ids() =~= b.snapshot_ids());
    assert forall|id: ObjectId| a@.commits.contains_key(id) implies a@.commits[id]
        == b@.commits[id] by {
        lemma_first_exists(a.commit_ids(), id);
    }
    assert forall|id: ObjectId| a@.snapshots.contains_key(id) implies a@.snapshots[id]
        == b@.snapshots[id] by {
        let i = first_of(a.snapshot_ids(), id);
        lemma_first_exists(a.snapshot_ids(), id);
        let sa = a.snapshots[i];
        let sb = b.snapshots[i];
        assert(sa.paths() =~= sb.paths());
        assert forall|p: Seq<char>| sa@.contains_key(p) implies sa@[p] == sb@[p] by {
            lemma_first_exists(sa.paths(), p);
        }
    }
}

} // verus!
