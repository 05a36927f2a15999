//! Commits in order of time, newest first.

use vstd::prelude::*;
use crate::collect::{held_by, ids_of};
use crate::model::History;
use crate::object::ObjectId;
use crate::store::Commit;

verus! {

/// `sorted` with `c` put behind every commit that is not older than `c`.
pub open spec fn insert_by_time(h: History, sorted: Seq<ObjectId>, c: ObjectId) -> Seq<ObjectId>
    decreases sorted.len(),
{
    if sorted.len() > 0 && h.commits[sorted.last()].time.precedes(h.commits[c].time) {
        insert_by_time(h, sorted.drop_last(), c).push(sorted.last())
    } else {
        sorted.push(c)
    }
}

/// `found` ordered by time, newest first; commits of one time keep the order
/// they have in `found`.
pub open spec fn newest_first(h: History, found: Seq<ObjectId>) -> Seq<ObjectId>
    decreases found.len(),
{
    if found.len() == 0 {
        found
    } else {
        insert_by_time(h, newest_first(h, found.drop_last()), found.last())
    }
}

/// Whether no commit of `list` is older than one that follows it.
pub open spec fn is_newest_first(h: History, list: Seq<ObjectId>) -> bool {
    forall|i: int, j: int|
        0 <= i < j < list.len() ==> !h.commits[#[trigger] list[i]].time.precedes(
            h.commits[#[trigger] list[j]].time,
        )
}

/// Putting a commit in its place keeps the order and adds that commit alone.
proof fn lemma_insert_by_time_keeps(h: History, sorted: Seq<ObjectId>, c: ObjectId)
    requires
        is_newest_first(h, sorted),
    ensures
        is_newest_first(h, insert_by_time(h, sorted, c)),
        insert_by_time(h, sorted, c).to_multiset() == sorted.to_multiset().insert(c),
        insert_by_time(h, sorted, c).len() == sorted.len() + 1,
        forall|x: ObjectId| #[trigger]
            insert_by_time(h, sorted, c).contains(x) <==> x == c || sorted.contains(x),
    decreases sorted.len(),
{
    broadcast use vstd::seq_lib::group_to_multiset_ensures;

    let placed = insert_by_time(h, sorted, c);
    if sorted.len() > 0 && h.commits[sorted.last()].time.precedes(h.commits[c].time) {
        let front = sorted.drop_last();
        let last = sorted.last();
        lemma_insert_by_time_keeps(h, front, c);
        let inner = insert_by_time(h, front, c);
        assert(placed == inner.push(last));
        assert(sorted == front.push(last));
        assert forall|x: ObjectId| #[trigger]
            placed.contains(x) <==> x == c || sorted.contains(x) by {
            if placed.contains(x) {
                let i = choose|i: int| 0 <= i < placed.len() && placed[i] == x;
                if i < inner.len() {
                    assert(inner.contains(inner[i]));
                }
            }
            if x == c || sorted.contains(x) {
                if x == last {
                    assert(placed[placed.len() - 1] == x);
                } else {
                    assert(inner.contains(x));
                }
            }
        }
    } else {
        assert forall|x: ObjectId| #[trigger]
            placed.contains(x) <==> x == c || sorted.contains(x) by {
            if x == c {
                assert(placed[placed.len() - 1] == x);
            } else if sorted.contains(x) {
                let k = choose|k: int| 0 <= k < sorted.len() && sorted[k] == x;
                assert(placed[k] == x);
            }
        }
    }
}

/// `newest_first` orders and neither adds nor drops: no commit of the result is
/// older than one that follows it, and the result holds each commit as often as
/// `found` does.
pub proof fn law_newest_first(h: History, found: Seq<ObjectId>)
    ensures
        is_newest_first(h, newest_first(h, found)),
        newest_first(h, found).to_multiset() == found.to_multiset(),
        newest_first(h, found).len() == found.len(),
        newest_first(h, found).to_set() == found.to_set(),
    decreases found.len(),
{
    broadcast use vstd::seq_lib::group_to_multiset_ensures;

    if found.len() > 0 {
        let front = found.drop_last();
        law_newest_first(h, front);
        lemma_insert_by_time_keeps(h, newest_first(h, front), found.last());
        assert(found == front.push(found.last()));
        let sorted = newest_first(h, front);
        assert forall|x: ObjectId|
            newest_first(h, found).to_set().contains(x) <==> found.to_set().contains(x) by {
            assert(sorted.to_set().contains(x) <==> front.to_set().contains(x));
        }
    }
}

/// Where `insert_by_time` puts a commit: in front of the commits that are
/// older, and of those alone.
proof fn lemma_insert_position(h: History, sorted: Seq<ObjectId>, c: ObjectId) -> (at: int)
    ensures
        0 <= at <= sorted.len(),
        insert_by_time(h, sorted, c) == sorted.insert(at, c),
        at > 0 ==> !h.commits[sorted[at - 1]].time.precedes(h.commits[c].time),
        forall|k: int|
            at <= k < sorted.len() ==> h.commits[#[trigger] sorted[k]].time.precedes(
                h.commits[c].time,
            ),
    decreases sorted.len(),
{
    if sorted.len() > 0 && h.commits[sorted.last()].time.precedes(h.commits[c].time) {
        let front = sorted.drop_last();
        let at = lemma_insert_position(h, front, c);
        assert forall|k: int|
            at <= k < sorted.len()
            implies h.commits[#[trigger] sorted[k]].time.precedes(h.commits[c].time) by {
            if k < front.len() {
                assert(front[k] == sorted[k]);
            }
        }
        at
    } else {
        sorted.len() as int
    }
}

/// Whether commits of one time stand in `list` in the order they have in
/// `found`.
pub open spec fn keeps_order_of(h: History, found: Seq<ObjectId>, list: Seq<ObjectId>) -> bool {
    forall|a: int, b: int|
        0 <= a < b < list.len() && h.commits[#[trigger] list[a]].time
            == h.commits[#[trigger] list[b]].time ==> exists|i: int, j: int|
            0 <= i < j < found.len() && #[trigger] found[i] == list[a] && #[trigger] found[j]
                == list[b]
}

/// `newest_first` is stable: commits of one time keep the order in which they
/// were found.
pub proof fn law_newest_first_stable(h: History, found: Seq<ObjectId>)
    ensures
        keeps_order_of(h, found, newest_first(h, found)),
    decreases found.len(),
{
    if found.len() > 0 {
        let front = found.drop_last();
        let c = found.last();
        let sorted = newest_first(h, front);
        let list = newest_first(h, found);
        law_newest_first_stable(h, front);
        law_newest_first(h, front);
        let at = lemma_insert_position(h, sorted, c);
        assert forall|a: int, b: int|
            0 <= a < b < list.len() && h.commits[#[trigger] list[a]].time
                == h.commits[#[trigger] list[b]].time implies exists|i: int, j: int|
            0 <= i < j < found.len() && #[trigger] found[i] == list[a] && #[trigger] found[j]
                == list[b] by {
            if a != at && b == at {
                assert(sorted.to_set().contains(sorted[a]));
            }
        }
    }
}

/// Whether `list` is `found` put in order: the same commits, none older than
/// one that follows it, and commits of one time in the order of `found`.
pub open spec fn is_stable_order_of(h: History, found: Seq<ObjectId>, list: Seq<ObjectId>) -> bool {
    &&& list.to_multiset() == found.to_multiset()
    &&& is_newest_first(h, list)
    &&& keeps_order_of(h, found, list)
}

/// There is one way to put commits in order: where no commit occurs twice in
/// `found`, `newest_first` is the only sequence that holds the same commits,
/// newest first, with commits of one time in the order of `found`.
pub proof fn law_newest_first_unique(h: History, found: Seq<ObjectId>, list: Seq<ObjectId>)
    requires
        found.no_duplicates(),
    ensures
        is_stable_order_of(h, found, list) <==> list == newest_first(h, found),
    decreases found.len(),
{
    broadcast use vstd::seq_lib::group_to_multiset_ensures;

    law_newest_first(h, found);
    law_newest_first_stable(h, found);
    if is_stable_order_of(h, found, list) {
        assert(list.len() == found.len()) by {
            assert(list.to_multiset().len() == found.to_multiset().len());
        }
        if found.len() == 0 {
            assert(list =~= newest_first(h, found));
        } else {
            let front = found.drop_last();
            let c = found.last();
            assert(found == front.push(c));
            assert(list.to_multiset().count(c) > 0);
            let p = choose|p: int| 0 <= p < list.len() && list[p] == c;
            let rest = list.remove(p);
            assert(rest.to_multiset() =~= front.to_multiset());
            law_newest_first_unique(h, front, rest);
            let at = lemma_insert_position(h, rest, c);
            assert(list =~= rest.insert(p, c));
            if at < p {
                assert(rest[at] == list[at]);
            }
        }
    }
}

/// Where `c` goes: `at` is behind every commit that is not older than `c`, and
/// every commit from `at` on is older.
proof fn lemma_insert_by_time(h: History, sorted: Seq<ObjectId>, c: ObjectId, at: int)
    requires
        0 <= at <= sorted.len(),
        at > 0 ==> !h.commits[sorted[at - 1]].time.precedes(h.commits[c].time),
        forall|i: int|
            at <= i < sorted.len() ==> h.commits[#[trigger] sorted[i]].time.precedes(
                h.commits[c].time,
            ),
    ensures
        insert_by_time(h, sorted, c) == sorted.insert(at, c),
    decreases sorted.len(),
{
    if at < sorted.len() {
        lemma_insert_by_time(h, sorted.drop_last(), c, at);
    }
}

/// Puts `c` into `sorted`, behind every commit that is not older.
pub(crate) fn insert_newest_first<'a>(
    Ghost(h): Ghost<History>,
    sorted: &mut Vec<&'a Commit>,
    c: &'a Commit,
)
    requires
        held_by(h, old(sorted)@),
        h.commits[c.id] == c.data(),
    ensures
        held_by(h, final(sorted)@),
        ids_of(final(sorted)@) == insert_by_time(h, ids_of(old(sorted)@), c.id),
{
    let mut at: usize = sorted.len();
    while at > 0 && sorted[at - 1].time.is_before(&c.time)
        invariant
            at <= sorted.len(),
            sorted == old(sorted),
            forall|i: int| at <= i < sorted.len() ==> sorted@[i].time.precedes(c.time),
        decreases at,
    {
        at -= 1;
    }
    proof {
        lemma_insert_by_time(h, ids_of(sorted@), c.id, at as int);
    }
    sorted.insert(at, c);
}

} // verus!
