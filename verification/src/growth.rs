//! Walks over a history that grows.
//!
//! A step that succeeds reads only what the history holds, so it ends in the
//! same way over any history that holds more.

use vstd::prelude::*;
use crate::collect::changes;
use crate::course::{is_trail, leads_to, on_course};
use crate::model::{lemma_any_differs, History, StoreError};
use crate::object::ObjectId;
use crate::walk::{lemma_step_remaining, remaining, step, trace, Outcome, TrackerState};

verus! {

/// Parents that all resolve in a history compare in the same way in one that
/// extends it.
pub proof fn lemma_any_differs_kept(
    g: History,
    h: History,
    parents: Seq<ObjectId>,
    path: Seq<char>,
    content: ObjectId,
)
    requires
        h.extends(g),
        g.any_differs(parents, path, content) is Ok,
    ensures
        h.any_differs(parents, path, content) == g.any_differs(parents, path, content),
    decreases parents.len(),
{
    if parents.len() > 0 {
        lemma_any_differs_kept(g, h, parents.drop_last(), path, content);
    }
}

/// A step that does not fail ends in the same way over a history that extends
/// the one it was taken over.
pub proof fn lemma_step_kept(g: History, h: History, path: Seq<char>, st: TrackerState)
    requires
        h.extends(g),
        !(step(g, path, st).1 is Failed),
    ensures
        step(h, path, st) == step(g, path, st),
{
    if st.frontier.len() > 0 {
        let c = st.frontier.last();
        if let Ok(Some(content)) = g.content(c, path) {
            let parents = g.commits[c].parents;
            if !st.claimed.contains(content) && parents.len() > 0 {
                lemma_any_differs_kept(g, h, parents, path, content);
            }
        }
    }
}

/// The state after `k` steps, none of which failed or found the frontier
/// empty.
pub open spec fn after_steps(h: History, path: Seq<char>, st: TrackerState, k: nat) -> Option<
    TrackerState,
>
    decreases k,
{
    if k == 0 {
        Some(st)
    } else {
        match after_steps(h, path, st, (k - 1) as nat) {
            None => None,
            Some(before) => match step(h, path, before) {
                (after, Outcome::Skipped) => Some(after),
                (after, Outcome::Emitted(_)) => Some(after),
                _ => None,
            },
        }
    }
}

/// Steps that were taken over a history are the same steps over one that
/// extends it.
pub proof fn lemma_after_steps_kept(
    g: History,
    h: History,
    path: Seq<char>,
    st: TrackerState,
    k: nat,
)
    requires
        h.extends(g),
        after_steps(g, path, st, k) is Some,
    ensures
        after_steps(h, path, st, k) == after_steps(g, path, st, k),
    decreases k,
{
    if k > 0 {
        lemma_after_steps_kept(g, h, path, st, (k - 1) as nat);
        lemma_step_kept(g, h, path, after_steps(g, path, st, (k - 1) as nat)->Some_0);
    }
}

/// A walk goes through from a state exactly when it goes through from the
/// state that some steps lead to.
pub proof fn lemma_after_steps_trace(h: History, path: Seq<char>, st: TrackerState, k: nat)
    requires
        h.commits.dom().finite(),
        after_steps(h, path, st, k) is Some,
    ensures
        trace(h, path, st) is Ok <==> trace(h, path, after_steps(h, path, st, k)->Some_0) is Ok,
    decreases k,
{
    if k > 0 {
        lemma_after_steps_trace(h, path, st, (k - 1) as nat);
    }
}

/// A trail stays a trail in every history that extends the one it lies in.
pub proof fn lemma_leads_to_kept(
    g: History,
    h: History,
    path: Seq<char>,
    root: ObjectId,
    c: ObjectId,
)
    requires
        h.extends(g),
        leads_to(g, path, root, c),
    ensures
        leads_to(h, path, root, c),
{
    let trail = choose|trail: Seq<ObjectId>|
        #[trigger] is_trail(g, path, trail) && trail[0] == root && trail.last() == c;
    assert(is_trail(h, path, trail));
}

/// A walk that is on course over a history is on course over one that
/// extends it.
pub proof fn lemma_on_course_kept(
    g: History,
    h: History,
    path: Seq<char>,
    root: ObjectId,
    st: TrackerState,
)
    requires
        h.extends(g),
        on_course(g, path, root, st),
    ensures
        on_course(h, path, root, st),
{
    assert forall|x: ObjectId| #[trigger] st.visited.contains(x) implies leads_to(
        h,
        path,
        root,
        x,
    ) by {
        lemma_leads_to_kept(g, h, path, root, x);
    }
}

/// What lies beyond the commits that a walk examines does not matter: a walk
/// that goes through over a history reports the same over every history that
/// extends it.
pub proof fn law_growth_keeps_the_walk(g: History, h: History, path: Seq<char>)
    requires
        g.commits.dom().finite(),
        h.commits.dom().finite(),
        h.extends(g),
        changes(g, path) is Ok,
    ensures
        changes(h, path) == changes(g, path),
{
    lemma_trace_kept(g, h, path, TrackerState::start(g.root));
}

/// A walk that goes through from a state emits the same over a history that
/// extends the one it was taken over.
proof fn lemma_trace_kept(g: History, h: History, path: Seq<char>, st: TrackerState)
    requires
        g.commits.dom().finite(),
        h.commits.dom().finite(),
        h.extends(g),
        trace(g, path, st) is Ok,
    ensures
        trace(h, path, st) == trace(g, path, st),
    decreases remaining(g, st),
{
    lemma_step_remaining(g, path, st);
    let (after, outcome) = step(g, path, st);
    if !(outcome is Failed) {
        lemma_step_kept(g, h, path, st);
        if !(outcome is Exhausted) {
            lemma_trace_kept(g, h, path, after);
        }
    }
}

/// The object that a failed step names is one that the history lacks: the
/// commit that was to be examined, one of its parents, or the snapshot of
/// either.
pub proof fn lemma_what_a_step_lacks(h: History, path: Seq<char>, st: TrackerState)
    requires
        step(h, path, st).1 is Failed,
    ensures
        st.frontier.len() > 0,
        match step(h, path, st).1->Failed_0 {
            StoreError::MissingCommit(id) => !h.commits.contains_key(id) && (id
                == st.frontier.last() || (h.present(st.frontier.last(), path)
                && h.commits[st.frontier.last()].parents.contains(id))),
            StoreError::MissingSnapshot(id) => !h.snapshots.contains_key(id),
        },
{
    let c = st.frontier.last();
    if let Ok(Some(content)) = h.content(c, path) {
        let parents = h.commits[c].parents;
        lemma_any_differs(h, parents, path, content);
    }
}

} // verus!
