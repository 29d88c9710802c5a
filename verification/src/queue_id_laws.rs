//! What holds of the ids in a queue that is never offered an id again.

use vstd::prelude::*;
use crate::neighbor::{ids_of, Neighbor};
use crate::queue::{count_before, lemma_first_unvisited, Entry, QueueView};

verus! {

impl QueueView {
    /// The ids in the queue, that of the closest neighbor first.
    pub open spec fn ids(self) -> Seq<u32> {
        ids_of(self.neighbors())
    }

    /// Whether the queue has a neighbor with that id that is not yet visited.
    pub open spec fn waits(self, id: u32) -> bool {
        exists|i: int|
            0 <= i < self.entries.len() && !(#[trigger] self.entries[i]).visited
                && self.entries[i].neighbor.id == id
    }
}

proof fn lemma_count_bound(entries: Seq<Entry>, n: Neighbor)
    ensures
        count_before(entries, n) <= entries.len(),
    decreases entries.len(),
{
    if entries.len() > 0 {
        lemma_count_bound(entries.drop_last(), n);
    }
}

/// A new id leaves the ids of a queue distinct, and adds no other.
proof fn lemma_insert_id(queue: QueueView, n: Neighbor)
    requires
        queue.ids().no_duplicates(),
        !queue.contains_id(n.id),
    ensures
        queue.insert(n).ids().no_duplicates(),
        forall|id: u32| #[trigger]
            queue.insert(n).contains_id(id) ==> queue.contains_id(id) || id == n.id,
        forall|id: u32| #[trigger]
            queue.insert(n).waits(id) ==> queue.waits(id) || id == n.id,
{
    let post = queue.insert(n);
    let at = count_before(queue.entries, n) as int;
    lemma_count_bound(queue.entries, n);
    assert(!queue.holds(n));
    let grown = queue.entries.insert(at, Entry { neighbor: n, visited: false });
    assert forall|i: int| 0 <= i < post.entries.len() implies (#[trigger] post.entries[i]) == if i
        == at {
        Entry { neighbor: n, visited: false }
    } else if i < at {
        queue.entries[i]
    } else {
        queue.entries[i - 1]
    } by {
        assert(post.entries[i] == grown[i]);
    }
    assert forall|i: int, j: int|
        0 <= i < post.ids().len() && 0 <= j < post.ids().len() && i != j implies post.ids()[i]
        != post.ids()[j] by {
        let a = if i < at { i } else { i - 1 };
        let b = if j < at { j } else { j - 1 };
        assert(post.ids()[i] == post.entries[i].neighbor.id);
        assert(post.ids()[j] == post.entries[j].neighbor.id);
        if i == at {
            assert(post.entries[j] == queue.entries[b]);
        } else if j == at {
            assert(post.entries[i] == queue.entries[a]);
        } else {
            assert(queue.ids()[a] == queue.entries[a].neighbor.id);
            assert(queue.ids()[b] == queue.entries[b].neighbor.id);
        }
    }
    assert forall|id: u32| #[trigger] post.contains_id(id) implies queue.contains_id(id) || id
        == n.id by {
        let i = choose|i: int|
            0 <= i < post.entries.len() && (#[trigger] post.entries[i]).neighbor.id == id;
        if i != at {
            assert(post.entries[i] == queue.entries[if i < at { i } else { i - 1 }]);
        }
    }
    assert forall|id: u32| #[trigger] post.waits(id) implies queue.waits(id) || id == n.id by {
        let i = choose|i: int|
            0 <= i < post.entries.len() && !(#[trigger] post.entries[i]).visited
                && post.entries[i].neighbor.id == id;
        if i != at {
            assert(post.entries[i] == queue.entries[if i < at { i } else { i - 1 }]);
        }
    }
}

/// New ids leave the ids of a queue distinct, and no others are added.
pub proof fn law_offer_new_ids(queue: QueueView, list: Seq<Neighbor>)
    requires
        queue.ids().no_duplicates(),
        ids_of(list).no_duplicates(),
        forall|i: int| 0 <= i < list.len() ==> !queue.contains_id((#[trigger] list[i]).id),
    ensures
        queue.insert_all(list).ids().no_duplicates(),
        forall|id: u32| #[trigger]
            queue.insert_all(list).contains_id(id) ==> queue.contains_id(id) || ids_of(
                list,
            ).contains(id),
        forall|id: u32| #[trigger]
            queue.insert_all(list).waits(id) ==> queue.waits(id) || ids_of(list).contains(id),
    decreases list.len(),
{
    if list.len() > 0 {
        let front = list.drop_last();
        assert forall|i: int, j: int|
            0 <= i < ids_of(front).len() && 0 <= j < ids_of(front).len() && i != j implies ids_of(
            front,
        )[i] != ids_of(front)[j] by {
            assert(ids_of(front)[i] == ids_of(list)[i]);
            assert(ids_of(front)[j] == ids_of(list)[j]);
        }
        law_offer_new_ids(queue, front);
        let mid = queue.insert_all(front);
        let last = list.len() - 1;
        assert(ids_of(list)[last] == list[last].id);
        assert forall|id: u32| ids_of(front).contains(id) implies ids_of(list).contains(id) && id
            != list[last].id by {
            let k = ids_of(front).index_of(id);
            assert(ids_of(list)[k] == id);
        }
        assert(!mid.contains_id(list[last].id)) by {
            assert(!queue.contains_id(list[last].id));
        }
        lemma_insert_id(mid, list[last]);
    }
}

/// Neighbors that are taken for expansion have distinct ids, which were waiting
/// and no longer are; the ids in the queue stay.
pub proof fn law_beam_ids(queue: QueueView, width: nat)
    requires
        queue.ids().no_duplicates(),
    ensures
        queue.after_beam(width).ids() == queue.ids(),
        ids_of(queue.beam(width)).no_duplicates(),
        forall|i: int|
            0 <= i < queue.beam(width).len() ==> queue.waits((#[trigger] queue.beam(width)[i]).id),
        forall|id: u32| #[trigger]
            queue.after_beam(width).waits(id) ==> queue.waits(id) && !ids_of(
                queue.beam(width),
            ).contains(id),
    decreases width,
{
    if width > 0 && queue.has_unvisited() {
        let first = queue.closest();
        let mid = queue.mark_closest();
        let rest = mid.beam((width - 1) as nat);
        let beam = queue.beam(width);
        let at = lemma_closest(queue);
        assert(mid.ids() =~= queue.ids());
        law_beam_ids(mid, (width - 1) as nat);
        assert forall|id: u32| #[trigger] mid.waits(id) implies queue.waits(id) && id
            != first.id by {
            let i = choose|i: int|
                0 <= i < mid.entries.len() && !(#[trigger] mid.entries[i]).visited
                    && mid.entries[i].neighbor.id == id;
            assert(queue.entries[i] == mid.entries[i]);
            assert(queue.ids()[i] == id);
            assert(queue.ids()[at] == first.id);
        }
        assert(beam =~= seq![first] + rest);
        assert forall|i: int| 0 <= i < beam.len() implies queue.waits(
            (#[trigger] beam[i]).id,
        ) by {
            if i > 0 {
                assert(beam[i] == rest[i - 1]);
                assert(mid.waits(rest[i - 1].id));
            } else {
                assert(!queue.entries[at].visited);
            }
        }
        let ids = ids_of(beam);
        assert forall|i: int, j: int|
            0 <= i < ids.len() && 0 <= j < ids.len() && i != j implies ids[i] != ids[j] by {
            if i > 0 {
                assert(ids[i] == ids_of(rest)[i - 1]);
                assert(mid.waits(rest[i - 1].id));
            }
            if j > 0 {
                assert(ids[j] == ids_of(rest)[j - 1]);
                assert(mid.waits(rest[j - 1].id));
            }
        }
        assert forall|id: u32| #[trigger] queue.after_beam(width).waits(id) implies queue.waits(id)
            && !ids.contains(id) by {
            assert(mid.after_beam((width - 1) as nat).waits(id));
            assert(mid.waits(id));
            if ids.contains(id) {
                let k = ids.index_of(id);
                if k > 0 {
                    assert(ids_of(rest)[k - 1] == id);
                }
            }
        }
    } else {
        assert(ids_of(queue.beam(width)) =~= Seq::empty());
    }
}

/// The closest unvisited neighbor has a place in the queue.
proof fn lemma_closest(queue: QueueView) -> (at: int)
    requires
        queue.has_unvisited(),
    ensures
        0 <= at < queue.entries.len(),
        !queue.entries[at].visited,
        queue.entries[at].neighbor == queue.closest(),
        queue.mark_closest().entries == queue.entries.update(
            at,
            Entry { visited: true, ..queue.entries[at] },
        ),
{
    lemma_first_unvisited(queue.entries);
    let at = crate::queue::first_unvisited(queue.entries) as int;
    let i = choose|i: int| 0 <= i < queue.entries.len() && !(#[trigger] queue.entries[i]).visited;
    assert(at <= i);
    at
}

/// What waits in a queue is in it.
pub proof fn lemma_waits(queue: QueueView)
    ensures
        forall|id: u32| #[trigger] queue.waits(id) ==> queue.contains_id(id),
{
    assert forall|id: u32| #[trigger] queue.waits(id) implies queue.contains_id(id) by {
        let i = choose|i: int|
            0 <= i < queue.entries.len() && !(#[trigger] queue.entries[i]).visited
                && queue.entries[i].neighbor.id == id;
        assert(queue.entries[i].neighbor.id == id);
    }
}

/// Offering reported neighbors keeps the queue apart from what was visited before.
pub proof fn lemma_offer_reported(queue: QueueView, list: Seq<Neighbor>, before: Set<u32>)
    requires
        queue.ids().no_duplicates(),
        forall|id: u32| #[trigger] queue.contains_id(id) ==> before.contains(id),
        ids_of(list).no_duplicates(),
        forall|i: int| 0 <= i < list.len() ==> !before.contains((#[trigger] list[i]).id),
    ensures
        queue.insert_all(list).ids().no_duplicates(),
        forall|id: u32| #[trigger]
            queue.insert_all(list).contains_id(id) ==> queue.contains_id(id) || ids_of(
                list,
            ).contains(id),
        forall|id: u32| before.contains(id) && #[trigger] queue.insert_all(list).waits(id)
            ==> queue.waits(id),
        forall|id: u32| before.contains(id) && #[trigger] queue.insert_all(list).contains_id(id)
            ==> queue.contains_id(id),
{
    law_offer_new_ids(queue, list);
    assert forall|id: u32| before.contains(id) implies !ids_of(list).contains(id) by {
        if ids_of(list).contains(id) {
            let k = ids_of(list).index_of(id);
            assert(list[k].id == id);
        }
    }
}

/// Queues with the same ids have the same ids.
pub proof fn lemma_same_ids(a: QueueView, b: QueueView)
    requires
        a.ids() == b.ids(),
    ensures
        forall|id: u32| #[trigger] b.contains_id(id) ==> a.contains_id(id),
{
    assert(a.ids().len() == a.entries.len() && b.ids().len() == b.entries.len());
    assert forall|id: u32| #[trigger] b.contains_id(id) implies a.contains_id(id) by {
        let i = choose|i: int|
            0 <= i < b.entries.len() && (#[trigger] b.entries[i]).neighbor.id == id;
        assert(b.ids()[i] == id);
        assert(a.ids()[i] == a.entries[i].neighbor.id);
    }
}

} // verus!
