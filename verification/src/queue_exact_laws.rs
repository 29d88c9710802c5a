//! What the operations on a queue leave in it, entry by entry.

use vstd::prelude::*;
use crate::neighbor::Neighbor;
use crate::queue::{count_before, first_unvisited, lemma_count_before, lemma_first_unvisited};
use crate::queue::{Entry, QueueView};

verus! {

/// Whether `a` comes before `b` in a queue: it is closer, or as close with a lower id.
pub open spec fn comes_before(a: Neighbor, b: Neighbor) -> bool {
    a.distance.rank() < b.distance.rank() || (a.distance.rank() == b.distance.rank() && a.id < b.id)
}

/// The place at which a neighbor goes into a ranked queue.
proof fn lemma_place(queue: QueueView, n: Neighbor) -> (at: int)
    requires
        queue.wf(),
    ensures
        at == count_before(queue.entries, n),
        0 <= at <= queue.entries.len(),
        forall|i: int| 0 <= i < at ==> comes_before((#[trigger] queue.entries[i]).neighbor, n),
        forall|i: int|
            at <= i < queue.entries.len() ==> !comes_before(
                (#[trigger] queue.entries[i]).neighbor,
                n,
            ),
{
    let at = lemma_boundary(queue.entries, n);
    lemma_count_before(queue.entries, n, at);
    at
}

/// The entries that come before a neighbor stand at the front.
proof fn lemma_boundary(entries: Seq<Entry>, n: Neighbor) -> (at: int)
    requires
        forall|i: int, j: int|
            0 <= i < j < entries.len() ==> (#[trigger] entries[i]).neighbor.precedes(
                (#[trigger] entries[j]).neighbor,
            ),
    ensures
        0 <= at <= entries.len(),
        forall|i: int| 0 <= i < at ==> (#[trigger] entries[i]).neighbor.precedes(n),
        forall|i: int| at <= i < entries.len() ==> !(#[trigger] entries[i]).neighbor.precedes(n),
    decreases entries.len(),
{
    if entries.len() == 0 {
        0
    } else if entries.last().neighbor.precedes(n) {
        assert forall|i: int| 0 <= i < entries.len() implies (
        #[trigger] entries[i]).neighbor.precedes(n) by {
            if i < entries.len() - 1 {
                assert(entries[i].neighbor.precedes(entries[entries.len() - 1].neighbor));
            }
        }
        entries.len() as int
    } else {
        let front = entries.drop_last();
        assert forall|i: int, j: int| 0 <= i < j < front.len() implies (
        #[trigger] front[i]).neighbor.precedes((#[trigger] front[j]).neighbor) by {
            assert(entries[i].neighbor.precedes(entries[j].neighbor));
        }
        let at = lemma_boundary(front, n);
        assert forall|i: int| 0 <= i < at implies (#[trigger] entries[i]).neighbor.precedes(n) by {
            assert(front[i] == entries[i]);
        }
        assert forall|i: int| at <= i < entries.len() implies !(
        #[trigger] entries[i]).neighbor.precedes(n) by {
            if i < front.len() {
                assert(front[i] == entries[i]);
            }
        }
        at
    }
}

/// A neighbor whose place and id the queue already has changes nothing. Another one
/// comes in, not visited: of all the entries together the queue then has the first
/// ones in order, as many as it may hold, and all as they were.
pub proof fn law_insert_exactly(queue: QueueView, n: Neighbor)
    requires
        queue.wf(),
    ensures
        ({
            let post = queue.insert(n);
            let came = Entry { neighbor: n, visited: false };
            let known = exists|i: int|
                0 <= i < queue.entries.len() && (#[trigger] queue.entries[i]).neighbor.id == n.id
                    && queue.entries[i].neighbor.distance.rank() == n.distance.rank();
            &&& post.capacity == queue.capacity
            &&& known ==> post.entries == queue.entries
            &&& !known ==> {
                &&& post.entries.len() == if queue.entries.len() < queue.capacity {
                    queue.entries.len() + 1
                } else {
                    queue.capacity
                }
                &&& forall|i: int, j: int|
                    0 <= i < j < post.entries.len() ==> comes_before(
                        (#[trigger] post.entries[i]).neighbor,
                        (#[trigger] post.entries[j]).neighbor,
                    )
                &&& forall|i: int|
                    0 <= i < post.entries.len() ==> (#[trigger] post.entries[i]) == came
                        || queue.entries.contains(post.entries[i])
                &&& forall|e: Entry|
                    (e == came || #[trigger] queue.entries.contains(e)) ==> post.entries.contains(e)
                        || forall|k: int|
                        0 <= k < post.entries.len() ==> comes_before(
                            (#[trigger] post.entries[k]).neighbor,
                            e.neighbor,
                        )
                &&& post.entries.contains(came) || forall|k: int|
                    0 <= k < post.entries.len() ==> comes_before(
                        (#[trigger] post.entries[k]).neighbor,
                        n,
                    )
            }
        }),
{
    let post = queue.insert(n);
    let came = Entry { neighbor: n, visited: false };
    let known = exists|i: int|
        0 <= i < queue.entries.len() && (#[trigger] queue.entries[i]).neighbor.id == n.id
            && queue.entries[i].neighbor.distance.rank() == n.distance.rank();
    assert(known <==> queue.holds(n)) by {
        if queue.holds(n) {
            let i = choose|i: int|
                0 <= i < queue.entries.len() && (#[trigger] queue.entries[i]).neighbor.ties(n);
            assert(queue.entries[i].neighbor.id == n.id);
        }
        if known {
            let i = choose|i: int|
                0 <= i < queue.entries.len() && (#[trigger] queue.entries[i]).neighbor.id == n.id
                    && queue.entries[i].neighbor.distance.rank() == n.distance.rank();
            assert(queue.entries[i].neighbor.ties(n));
        }
    }
    if !known {
        let at = lemma_place(queue, n);
        let grown = queue.entries.insert(at, came);
        assert forall|i: int, j: int| 0 <= i < j < grown.len() implies comes_before(
            (#[trigger] grown[i]).neighbor,
            (#[trigger] grown[j]).neighbor,
        ) by {
            let a = if i < at { i } else { i - 1 };
            let b = if j < at { j } else { j - 1 };
            if i != at {
                assert(grown[i] == queue.entries[a]);
            }
            if j != at {
                assert(grown[j] == queue.entries[b]);
            }
            if i != at && j != at {
                assert(queue.entries[a].neighbor.precedes(queue.entries[b].neighbor));
            }
        }
        assert forall|i: int| 0 <= i < post.entries.len() implies (#[trigger] post.entries[i])
            == grown[i] by {}
        assert forall|e: Entry|
            e == came || #[trigger] queue.entries.contains(e) implies post.entries.contains(e)
            || forall|k: int|
            0 <= k < post.entries.len() ==> comes_before(
                (#[trigger] post.entries[k]).neighbor,
                e.neighbor,
            ) by {
            let k = if e == came && !queue.entries.contains(e) {
                at
            } else if queue.entries.contains(e) {
                let m = queue.entries.index_of(e);
                if m < at { m } else { m + 1 }
            } else {
                at
            };
            assert(grown[k] == e);
            if k < post.entries.len() {
                assert(post.entries[k] == e);
            }
        }
        assert(grown[at] == came);
        if at < post.entries.len() {
            assert(post.entries[at] == came);
        }
        assert forall|i: int| 0 <= i < post.entries.len() implies (#[trigger] post.entries[i])
            == came || queue.entries.contains(post.entries[i]) by {
            assert(post.entries[i] == grown[i]);
            if i != at {
                let a = if i < at { i } else { i - 1 };
                assert(grown[i] == queue.entries[a]);
                assert(queue.entries.contains(queue.entries[a]));
            }
        }
    }
}

/// Neighbors are offered one after the other.
pub proof fn law_offered_in_order(queue: QueueView, list: Seq<Neighbor>, n: Neighbor)
    ensures
        queue.insert_all(Seq::empty()) == queue,
        queue.insert_all(list.push(n)) == queue.insert_all(list).insert(n),
{
    assert(list.push(n).drop_last() =~= list);
}

/// The entries of a queue that are not visited, in order.
pub open spec fn unvisited(entries: Seq<Entry>) -> Seq<Entry> {
    entries.filter(|e: Entry| !e.visited)
}

/// What is not visited in two parts is what is not visited in each.
proof fn lemma_unvisited_parts(a: Seq<Entry>, b: Seq<Entry>)
    ensures
        unvisited(a + b) == unvisited(a) + unvisited(b),
{
    Seq::filter_distributes_over_add(a, b, |e: Entry| !e.visited);
}

proof fn lemma_unvisited_one(e: Entry)
    ensures
        unvisited(seq![e]) == if e.visited {
            Seq::empty()
        } else {
            seq![e]
        },
{
    reveal(Seq::filter);
    let open = |e: Entry| !e.visited;
    assert(seq![e].drop_last() =~= Seq::empty());
    assert(seq![e].drop_last().filter(open) =~= Seq::empty());
    assert(seq![e].filter(open) =~= if e.visited { Seq::empty() } else { seq![e] });
}

proof fn lemma_all_visited(entries: Seq<Entry>)
    requires
        forall|i: int| 0 <= i < entries.len() ==> (#[trigger] entries[i]).visited,
    ensures
        unvisited(entries) == Seq::<Entry>::empty(),
    decreases entries.len(),
{
    reveal(Seq::filter);
    if entries.len() > 0 {
        assert forall|i: int| 0 <= i < entries.drop_last().len() implies (
        #[trigger] entries.drop_last()[i]).visited by {
            assert(entries.drop_last()[i] == entries[i]);
        }
        lemma_all_visited(entries.drop_last());
        assert(entries[entries.len() - 1].visited);
    }
}

/// What is not visited from the first such entry on.
proof fn lemma_unvisited_split(entries: Seq<Entry>, at: int)
    requires
        0 <= at < entries.len(),
        forall|i: int| 0 <= i < at ==> (#[trigger] entries[i]).visited,
    ensures
        unvisited(entries) == unvisited(seq![entries[at]]) + unvisited(entries.skip(at + 1)),
{
    let a = entries.take(at);
    let b = seq![entries[at]];
    let c = entries.skip(at + 1);
    assert(entries =~= a + (b + c));
    lemma_all_visited(a);
    lemma_unvisited_parts(a, b + c);
    lemma_unvisited_parts(b, c);
    assert(Seq::<Entry>::empty() + (unvisited(b) + unvisited(c)) =~= unvisited(b) + unvisited(c));
}

/// The nodes taken for expansion are the first entries that are not visited, in order:
/// as many as the beam is wide, or all there are. They are marked, and all else stays.
pub proof fn law_beam_exactly(queue: QueueView, width: nat)
    ensures
        ({
            let open = unvisited(queue.entries);
            let beam = queue.beam(width);
            let post = queue.after_beam(width);
            &&& beam.len() == if width < open.len() {
                width
            } else {
                open.len()
            }
            &&& forall|i: int| 0 <= i < beam.len() ==> (#[trigger] beam[i]) == open[i].neighbor
            &&& post.capacity == queue.capacity
            &&& post.entries.len() == queue.entries.len()
            &&& forall|i: int|
                0 <= i < post.entries.len() ==> (#[trigger] post.entries[i]).neighbor
                    == queue.entries[i].neighbor && (post.entries[i].visited
                    <==> queue.entries[i].visited || unvisited(queue.entries.take(i + 1)).len()
                    <= width)
        }),
    decreases width,
{
    let entries = queue.entries;
    if width > 0 && queue.has_unvisited() {
        lemma_first_unvisited(entries);
        let at = first_unvisited(entries) as int;
        let some = choose|i: int| 0 <= i < entries.len() && !(#[trigger] entries[i]).visited;
        assert(at <= some);
        let mid = queue.mark_closest();
        let rest = entries.skip(at + 1);
        assert(mid.entries.skip(at + 1) =~= rest);
        lemma_unvisited_split(entries, at);
        lemma_unvisited_split(mid.entries, at);
        lemma_unvisited_one(entries[at]);
        lemma_unvisited_one(mid.entries[at]);
        assert(unvisited(mid.entries) =~= unvisited(rest));
        assert(unvisited(entries) =~= seq![entries[at]] + unvisited(rest));
        law_beam_exactly(mid, (width - 1) as nat);
        let post = queue.after_beam(width);
        assert forall|i: int| 0 <= i < post.entries.len() implies (
        #[trigger] post.entries[i]).neighbor == entries[i].neighbor && (post.entries[i].visited
            <==> entries[i].visited || unvisited(entries.take(i + 1)).len() <= width) by {
            assert(post.entries[i].neighbor == mid.entries[i].neighbor);
            if i >= at {
                let a = entries.take(i + 1);
                let b = mid.entries.take(i + 1);
                lemma_unvisited_split(a, at);
                lemma_unvisited_split(b, at);
                assert(a.skip(at + 1) =~= b.skip(at + 1));
                assert(a[at] == entries[at] && b[at] == mid.entries[at]);
                assert(unvisited(a).len() == 1 + unvisited(b).len());
                if i == at {
                    assert(b.skip(at + 1) =~= Seq::empty());
                    lemma_all_visited(b);
                }
            } else {
                assert(entries[i].visited);
            }
        }
    } else {
        if !queue.has_unvisited() {
            assert forall|i: int| 0 <= i < entries.len() implies (
            #[trigger] entries[i]).visited by {}
            lemma_all_visited(entries);
        }
        assert forall|i: int| 0 <= i < entries.len() implies (entries[i].visited <==> (
        #[trigger] entries[i]).visited || unvisited(entries.take(i + 1)).len() <= width) by {
            if !entries[i].visited {
                let a = entries.take(i);
                assert(entries.take(i + 1) =~= a + seq![entries[i]]);
                lemma_unvisited_parts(a, seq![entries[i]]);
                lemma_unvisited_one(entries[i]);
            }
        }
    }
}

} // verus!
