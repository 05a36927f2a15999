//! What holds of a tracker at every moment of a walk.

use vstd::prelude::*;
use crate::model::History;
use crate::object::ObjectId;
use crate::walk::{lemma_step_remaining, next_emission, remaining, step, TrackerState};

verus! {

/// Whether `trail` is a chain of parent links along which every commit but the
/// last holds the path.
pub open spec fn is_trail(h: History, path: Seq<char>, trail: Seq<ObjectId>) -> bool {
    &&& trail.len() > 0
    &&& forall|i: int|
        0 <= i < trail.len() - 1 ==> h.present(#[trigger] trail[i], path)
            && h.commits[trail[i]].parents.contains(trail[i + 1])
}

/// Whether the walk from `root` is led to `c`: a chain of parent links joins
/// them, and every commit on it before `c` holds the path.
pub open spec fn leads_to(h: History, path: Seq<char>, root: ObjectId, c: ObjectId) -> bool {
    exists|trail: Seq<ObjectId>|
        #[trigger] is_trail(h, path, trail) && trail[0] == root && trail.last() == c
}

/// Whether `x` has not been examined yet: it waits on the frontier, or was
/// never visited.
pub open spec fn pending(st: TrackerState, x: ObjectId) -> bool {
    st.frontier.contains(x) || !st.visited.contains(x)
}

/// What holds of every state of a walk from `root`:
/// no commit waits twice, and every waiting commit is visited;
/// the walk was led to every visited commit;
/// every examined commit resolved, and where it holds the path all its parents
/// are visited;
/// and no content is claimed.
pub open spec fn on_course(h: History, path: Seq<char>, root: ObjectId, st: TrackerState) -> bool {
    &&& st.frontier.no_duplicates()
    &&& forall|i: int| 0 <= i < st.frontier.len() ==> st.visited.contains(#[trigger] st.frontier[i])
    &&& st.visited.contains(root)
    &&& forall|x: ObjectId| #[trigger] st.visited.contains(x) ==> leads_to(h, path, root, x)
    &&& forall|x: ObjectId|
        #[trigger] st.visited.contains(x) && !st.frontier.contains(x) ==> h.content(x, path) is Ok
    &&& forall|x: ObjectId, i: int|
        st.visited.contains(x) && !st.frontier.contains(x) && h.present(x, path) && 0 <= i
            < h.commits[x].parents.len() ==> st.visited.contains(
            #[trigger] h.commits[x].parents[i],
        )
    &&& st.claimed == Set::<ObjectId>::empty()
}

/// What enqueuing does: the frontier grows at its end by the parents that were
/// not visited, each once, and these are marked.
pub proof fn lemma_enqueue(st: TrackerState, parents: Seq<ObjectId>)
    ensures
        ({
            let after = st.enqueue(parents);
            &&& after.claimed == st.claimed
            &&& after.frontier.len() >= st.frontier.len()
            &&& forall|i: int| 0 <= i < st.frontier.len() ==> after.frontier[i] == st.frontier[i]
            &&& forall|i: int|
                st.frontier.len() <= i < after.frontier.len() ==> !st.visited.contains(
                    #[trigger] after.frontier[i],
                ) && parents.contains(after.frontier[i])
            &&& forall|i: int, j: int|
                st.frontier.len() <= i < j < after.frontier.len() ==> after.frontier[i]
                    != after.frontier[j]
            &&& forall|x: ObjectId|
                #[trigger] after.visited.contains(x) <==> st.visited.contains(x)
                    || parents.contains(x)
            &&& forall|x: ObjectId|
                #[trigger] after.visited.contains(x) && !st.visited.contains(x)
                    ==> after.frontier.contains(x)
        }),
    decreases parents.len(),
{
    if parents.len() > 0 {
        let front = parents.drop_last();
        let p = parents.last();
        lemma_enqueue(st, front);
        let before = st.enqueue(front);
        let after = st.enqueue(parents);
        assert forall|x: ObjectId| parents.contains(x) implies front.contains(x) || x == p by {
            let i = choose|i: int| 0 <= i < parents.len() && parents[i] == x;
            if i < front.len() {
                assert(front[i] == x);
            }
        }
        if !before.visited.contains(p) {
            let n = before.frontier.len() as int;
            assert(after.frontier[n] == p);
            assert forall|x: ObjectId| #[trigger]
                after.visited.contains(x) && !st.visited.contains(x)
                implies after.frontier.contains(x) by {
                if x != p {
                    let i = choose|i: int|
                        0 <= i < before.frontier.len() && before.frontier[i] == x;
                    assert(after.frontier[i] == x);
                }
            }
        }
    }
}

/// A walk starts on course.
pub proof fn lemma_start_on_course(h: History, path: Seq<char>, root: ObjectId)
    ensures
        on_course(h, path, root, TrackerState::start(root)),
{
    let trail = seq![root];
    assert(is_trail(h, path, trail) && trail[0] == root && trail.last() == root);
}

/// One more parent link prolongs a trail.
pub proof fn lemma_trail_grows(
    h: History,
    path: Seq<char>,
    root: ObjectId,
    c: ObjectId,
    p: ObjectId,
)
    requires
        leads_to(h, path, root, c),
        h.present(c, path),
        h.commits[c].parents.contains(p),
    ensures
        leads_to(h, path, root, p),
{
    let trail = choose|trail: Seq<ObjectId>|
        #[trigger] is_trail(h, path, trail) && trail[0] == root && trail.last() == c;
    let longer = trail.push(p);
    assert(is_trail(h, path, longer) && longer[0] == root && longer.last() == p);
}

/// A step keeps the walk on course, and the commit it examines is the one
/// commit that no longer waits.
pub proof fn lemma_step_on_course(h: History, path: Seq<char>, root: ObjectId, st: TrackerState)
    requires
        on_course(h, path, root, st),
    ensures
        on_course(h, path, root, step(h, path, st).0),
        step(h, path, st).1 is Skipped || step(h, path, st).1 is Emitted ==> forall|x: ObjectId|
            #[trigger] pending(step(h, path, st).0, x) <==> pending(st, x) && x
                != st.frontier.last(),
{
    let (after, outcome) = step(h, path, st);
    if outcome is Skipped || outcome is Emitted {
        let c = st.frontier.last();
        let popped = st.popped();
        let n = popped.frontier.len() as int;
        assert(forall|i: int| 0 <= i < n ==> popped.frontier[i] == st.frontier[i]);
        let parents = h.commits[c].parents;
        let enqueues = h.present(c, path) && parents.len() > 0;
        if enqueues {
            lemma_enqueue(popped, parents);
            assert forall|x: ObjectId| #[trigger] after.visited.contains(x) implies leads_to(
                h,
                path,
                root,
                x,
            ) by {
                if !st.visited.contains(x) {
                    lemma_trail_grows(h, path, root, c, x);
                }
            }
        }
    }
}

/// Pulling the next emission keeps the walk on course.
pub proof fn lemma_next_on_course(h: History, path: Seq<char>, root: ObjectId, st: TrackerState)
    requires
        h.commits.dom().finite(),
        on_course(h, path, root, st),
    ensures
        on_course(h, path, root, next_emission(h, path, st).0),
    decreases remaining(h, st),
{
    lemma_step_remaining(h, path, st);
    lemma_step_on_course(h, path, root, st);
    if step(h, path, st).1 is Skipped {
        lemma_next_on_course(h, path, root, step(h, path, st).0);
    }
}

} // verus!
