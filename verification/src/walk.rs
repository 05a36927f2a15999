//! The walk through the ancestry, one step at a time.

use vstd::prelude::*;
use crate::model::{History, StoreError};
use crate::object::ObjectId;

verus! {

/// What a tracker holds between two steps.
#[verifier::ext_equal]
pub struct TrackerState {
    /// Commits that wait to be examined; the last one is examined next.
    pub frontier: Seq<ObjectId>,
    /// Every commit that was ever put on the frontier.
    pub visited: Set<ObjectId>,
    /// Content ids whose commits are passed over.
    pub claimed: Set<ObjectId>,
}

/// How one step ended.
pub enum Outcome {
    /// Nothing was left to examine.
    Exhausted,
    /// The store could not resolve an object; the state is as it was.
    Failed(StoreError),
    /// A commit was examined and found not to have changed the path.
    Skipped,
    /// A commit was examined and found to have changed the path.
    Emitted(ObjectId),
}

impl TrackerState {
    /// The state in which a walk from `root` begins.
    pub open spec fn start(root: ObjectId) -> TrackerState {
        TrackerState {
            frontier: seq![root],
            visited: set![root],
            claimed: Set::<ObjectId>::empty(),
        }
    }

    /// The state without the commit that is examined next.
    pub open spec fn popped(self) -> TrackerState {
        TrackerState { frontier: self.frontier.drop_last(), ..self }
    }

    /// The state after each of `parents` that was not visited before has been
    /// marked and put on the frontier, in order.
    pub open spec fn enqueue(self, parents: Seq<ObjectId>) -> TrackerState
        decreases parents.len(),
    {
        if parents.len() == 0 {
            self
        } else {
            let before = self.enqueue(parents.drop_last());
            let p = parents.last();
            if before.visited.contains(p) {
                before
            } else {
                TrackerState {
                    frontier: before.frontier.push(p),
                    visited: before.visited.insert(p),
                    ..before
                }
            }
        }
    }
}

/// One step of the walk: the last commit of the frontier is examined.
///
/// A commit that lacks the path, or whose content is claimed, is dropped and its
/// parents are left alone. A commit without parents is emitted. Of any other
/// commit all parents are enqueued, and it is emitted if one of them disagrees
/// with it. Where an object does not resolve the step fails and changes nothing.
pub open spec fn step(h: History, path: Seq<char>, st: TrackerState) -> (TrackerState, Outcome) {
    if st.frontier.len() == 0 {
        (st, Outcome::Exhausted)
    } else {
        let c = st.frontier.last();
        match h.content(c, path) {
            Err(e) => (st, Outcome::Failed(e)),
            Ok(None) => (st.popped(), Outcome::Skipped),
            Ok(Some(content)) => {
                let parents = h.commits[c].parents;
                if st.claimed.contains(content) {
                    (st.popped(), Outcome::Skipped)
                } else if parents.len() == 0 {
                    (st.popped(), Outcome::Emitted(c))
                } else {
                    match h.any_differs(parents, path, content) {
                        Err(e) => (st, Outcome::Failed(e)),
                        Ok(changed) => (
                            st.popped().enqueue(parents),
                            if changed {
                                Outcome::Emitted(c)
                            } else {
                                Outcome::Skipped
                            },
                        ),
                    }
                }
            },
        }
    }
}

/// A bound on the steps that are left: the commits not yet visited, and those
/// that wait on the frontier.
pub open spec fn remaining(h: History, st: TrackerState) -> nat {
    h.commits.dom().difference(st.visited).len() + st.frontier.len()
}

/// Enqueuing commits of the store moves them from the unvisited to the frontier.
pub proof fn lemma_enqueue_remaining(h: History, st: TrackerState, parents: Seq<ObjectId>)
    requires
        h.commits.dom().finite(),
        forall|i: int| 0 <= i < parents.len() ==> h.commits.contains_key(#[trigger] parents[i]),
    ensures
        remaining(h, st.enqueue(parents)) == remaining(h, st),
    decreases parents.len(),
{
    if parents.len() > 0 {
        let front = parents.drop_last();
        lemma_enqueue_remaining(h, st, front);
        let before = st.enqueue(front);
        let p = parents.last();
        if !before.visited.contains(p) {
            let unvisited = h.commits.dom().difference(before.visited);
            assert(h.commits.dom().difference(before.visited.insert(p)) =~= unvisited.remove(p));
        }
    }
}

/// A step that examines a commit takes one from what remains.
pub proof fn lemma_step_remaining(h: History, path: Seq<char>, st: TrackerState)
    requires
        h.commits.dom().finite(),
    ensures
        match step(h, path, st).1 {
            Outcome::Exhausted => step(h, path, st).0 == st && st.frontier.len() == 0,
            Outcome::Failed(_) => step(h, path, st).0 == st,
            _ => remaining(h, step(h, path, st).0) + 1 == remaining(h, st),
        },
{
    if st.frontier.len() > 0 {
        let c = st.frontier.last();
        if let Ok(Some(content)) = h.content(c, path) {
            let parents = h.commits[c].parents;
            if let Ok(_) = h.any_differs(parents, path, content) {
                crate::model::lemma_any_differs(h, parents, path, content);
                assert forall|i: int| 0 <= i < parents.len() implies h.commits.contains_key(
                    #[trigger] parents[i],
                ) by {
                    assert(h.differs_from(parents[i], path, content) is Ok);
                }
                lemma_enqueue_remaining(h, st.popped(), parents);
            }
        }
    }
}

/// The state after the next emission, and the commit emitted: `None` once the
/// frontier is empty. Steps are taken until one emits, fails or finds nothing
/// left.
pub open spec fn next_emission(h: History, path: Seq<char>, st: TrackerState) -> (
    TrackerState,
    Result<Option<ObjectId>, StoreError>,
)
    decreases remaining(h, st),
    when h.commits.dom().finite()
    via next_emission_decreases
{
    let (after, outcome) = step(h, path, st);
    match outcome {
        Outcome::Exhausted => (after, Ok(None)),
        Outcome::Failed(e) => (after, Err(e)),
        Outcome::Emitted(c) => (after, Ok(Some(c))),
        Outcome::Skipped => next_emission(h, path, after),
    }
}

#[via_fn]
proof fn next_emission_decreases(h: History, path: Seq<char>, st: TrackerState) {
    lemma_step_remaining(h, path, st);
}

/// Everything the walk emits from `st` on, in the order of emission.
pub open spec fn trace(h: History, path: Seq<char>, st: TrackerState) -> Result<
    Seq<ObjectId>,
    StoreError,
>
    decreases remaining(h, st),
    when h.commits.dom().finite()
    via trace_decreases
{
    let (after, outcome) = step(h, path, st);
    match outcome {
        Outcome::Exhausted => Ok(Seq::empty()),
        Outcome::Failed(e) => Err(e),
        Outcome::Skipped => trace(h, path, after),
        Outcome::Emitted(c) => match trace(h, path, after) {
            Err(e) => Err(e),
            Ok(rest) => Ok(seq![c] + rest),
        },
    }
}

#[via_fn]
proof fn trace_decreases(h: History, path: Seq<char>, st: TrackerState) {
    lemma_step_remaining(h, path, st);
}

/// What is emitted changed the path; once nothing is emitted any more, the
/// frontier is empty.
pub proof fn lemma_next_emission(h: History, path: Seq<char>, st: TrackerState)
    requires
        h.commits.dom().finite(),
    ensures
        next_emission(h, path, st).1 matches Ok(Some(c)) ==> h.changed(c, path),
        next_emission(h, path, st).1 matches Ok(None) ==> next_emission(
            h,
            path,
            st,
        ).0.frontier.len() == 0,
    decreases remaining(h, st),
{
    lemma_step_remaining(h, path, st);
    let (after, outcome) = step(h, path, st);
    if outcome is Skipped {
        lemma_next_emission(h, path, after);
    }
}

/// The trace is what pulling one emission after the other yields.
pub proof fn lemma_trace_unfold(h: History, path: Seq<char>, st: TrackerState)
    requires
        h.commits.dom().finite(),
    ensures
        trace(h, path, st) == match next_emission(h, path, st) {
            (_, Err(e)) => Err::<Seq<ObjectId>, StoreError>(e),
            (_, Ok(None)) => Ok(Seq::empty()),
            (after, Ok(Some(c))) => match trace(h, path, after) {
                Err(e) => Err(e),
                Ok(rest) => Ok(seq![c] + rest),
            },
        },
        next_emission(h, path, st).1 matches Ok(Some(_)) ==> remaining(
            h,
            next_emission(h, path, st).0,
        ) < remaining(h, st),
    decreases remaining(h, st),
{
    lemma_step_remaining(h, path, st);
    let (after, outcome) = step(h, path, st);
    if outcome is Skipped {
        lemma_trace_unfold(h, path, after);
    }
}

} // verus!
