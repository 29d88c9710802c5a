//! What holds of a queue over any history of operations on it.

use vstd::prelude::*;
use crate::neighbor::Neighbor;
use crate::queue::{count_before, first_unvisited, ranked};
use crate::queue::{lemma_beam_len, lemma_count_before, lemma_first_unvisited};
use crate::queue::{Entry, QueueView};

verus! {

/// What a search does to its queue in one step.
pub enum QueueOp {
    /// It offers neighbors, one after the other.
    Offer(Seq<Neighbor>),
    /// It takes this many of the closest unvisited neighbors.
    TakeBeam(nat),
}

impl QueueView {
    /// The queue after one operation.
    pub open spec fn apply(self, op: QueueOp) -> QueueView {
        match op {
            QueueOp::Offer(list) => self.insert_all(list),
            QueueOp::TakeBeam(width) => self.after_beam(width),
        }
    }

    /// The neighbors that an operation takes for expansion.
    pub open spec fn taken_by(self, op: QueueOp) -> Seq<Neighbor> {
        match op {
            QueueOp::Offer(_) => Seq::empty(),
            QueueOp::TakeBeam(width) => self.beam(width),
        }
    }

    /// The queue after a sequence of operations.
    pub open spec fn apply_all(self, ops: Seq<QueueOp>) -> QueueView
        decreases ops.len(),
    {
        if ops.len() == 0 {
            self
        } else {
            self.apply_all(ops.drop_last()).apply(ops.last())
        }
    }

    /// Whether `n` is in the queue, or the queue is full of neighbors that are
    /// ranked before it.
    pub open spec fn accounts_for(self, n: Neighbor) -> bool {
        self.holds(n) || self.outranks(n)
    }

    /// Whether the queue is full of neighbors that are ranked before `n`.
    pub open spec fn outranks(self, n: Neighbor) -> bool {
        &&& self.entries.len() == self.capacity
        &&& forall|i: int|
            0 <= i < self.entries.len() ==> (#[trigger] self.entries[i]).neighbor.precedes(n)
    }

    /// Whether `n` can no longer be taken for expansion: it is in the queue as
    /// visited, or the queue is full of neighbors ranked before it.
    pub open spec fn spent(self, n: Neighbor) -> bool {
        ||| exists|i: int|
            0 <= i < self.entries.len() && (#[trigger] self.entries[i]).visited
                && self.entries[i].neighbor.ties(n)
        ||| self.outranks(n)
    }
}

/// How many entries are not visited.
pub open spec fn unvisited_count(entries: Seq<Entry>) -> nat
    decreases entries.len(),
{
    if entries.len() == 0 {
        0
    } else {
        unvisited_count(entries.drop_last()) + if entries.last().visited {
            0nat
        } else {
            1nat
        }
    }
}

/// How many neighbors the operations offer.
pub open spec fn offered_count(ops: Seq<QueueOp>) -> nat
    decreases ops.len(),
{
    if ops.len() == 0 {
        0
    } else {
        offered_count(ops.drop_last()) + match ops.last() {
            QueueOp::Offer(list) => list.len(),
            QueueOp::TakeBeam(_) => 0,
        }
    }
}

/// How many neighbors the operations take for expansion.
pub open spec fn taken_count(queue: QueueView, ops: Seq<QueueOp>) -> nat
    decreases ops.len(),
{
    if ops.len() == 0 {
        0
    } else {
        taken_count(queue, ops.drop_last()) + queue.apply_all(ops.drop_last()).taken_by(
            ops.last(),
        ).len()
    }
}

/// How many of the operations take neighbors for expansion.
pub open spec fn beam_count(ops: Seq<QueueOp>) -> nat
    decreases ops.len(),
{
    if ops.len() == 0 {
        0
    } else {
        beam_count(ops.drop_last()) + if ops.last() is TakeBeam {
            1nat
        } else {
            0nat
        }
    }
}

/// Where a neighbor that is not in a ranked queue goes.
proof fn lemma_split(entries: Seq<Entry>, n: Neighbor) -> (at: int)
    requires
        ranked(entries),
    ensures
        at == count_before(entries, n),
        0 <= at <= entries.len(),
        forall|i: int| 0 <= i < at ==> (#[trigger] entries[i]).neighbor.precedes(n),
        forall|i: int| at <= i < entries.len() ==> !(#[trigger] entries[i]).neighbor.precedes(n),
    decreases entries.len(),
{
    if entries.len() == 0 {
        0
    } else {
        let last = entries.len() - 1;
        let at = lemma_split(entries.drop_last(), n);
        if entries[last].neighbor.precedes(n) {
            assert forall|i: int| 0 <= i < entries.len() implies (
            #[trigger] entries[i]).neighbor.precedes(n) by {
                if i < last {
                    assert(entries[i].neighbor.precedes(entries[last].neighbor));
                }
            }
            lemma_count_before(entries, n, entries.len() as int);
            entries.len() as int
        } else {
            assert forall|i: int| at <= i < entries.len() implies !(
            #[trigger] entries[i]).neighbor.precedes(n) by {
                if i < last {
                    assert(entries.drop_last()[i] == entries[i]);
                }
            }
            assert forall|i: int| 0 <= i < at implies (#[trigger] entries[i]).neighbor.precedes(
                n,
            ) by {
                assert(entries.drop_last()[i] == entries[i]);
            }
            lemma_count_before(entries, n, at);
            at
        }
    }
}

/// The index of an entry after another one has been inserted at `at`.
spec fn shifted(i: int, at: int) -> int {
    if i < at {
        i
    } else {
        i + 1
    }
}

/// Inserting keeps a queue ranked and within its bound, accounts for the new
/// neighbor, adds nothing else, and keeps what was accounted for or spent so.
pub proof fn law_insert(queue: QueueView, n: Neighbor)
    requires
        queue.wf(),
    ensures
        queue.insert(n).wf(),
        queue.insert(n).accounts_for(n),
        forall|m: Neighbor| queue.accounts_for(m) ==> #[trigger] queue.insert(n).accounts_for(m),
        forall|m: Neighbor| queue.spent(m) ==> #[trigger] queue.insert(n).spent(m),
        forall|i: int|
            0 <= i < queue.insert(n).entries.len() ==> {
                let e = #[trigger] queue.insert(n).entries[i];
                queue.entries.contains(e) || e == (Entry { neighbor: n, visited: false })
            },
{
    let post = queue.insert(n);
    if queue.holds(n) {
        assert forall|i: int| 0 <= i < post.entries.len() implies queue.entries.contains(
            #[trigger] post.entries[i],
        ) by {}
    } else {
        let at = lemma_split(queue.entries, n);
        let entry = Entry { neighbor: n, visited: false };
        let grown = queue.entries.insert(at, entry);
        assert(grown.len() == queue.entries.len() + 1);
        assert forall|i: int| 0 <= i < queue.entries.len() implies #[trigger] grown[shifted(i, at)]
            == queue.entries[i] by {}
        // Whatever is not ranked before `n` is ranked behind it.
        assert forall|i: int| at <= i < queue.entries.len() implies n.precedes(
            (#[trigger] queue.entries[i]).neighbor,
        ) by {
            assert(!queue.entries[i].neighbor.ties(n));
        }
        assert forall|i: int, j: int| 0 <= i < j < grown.len() implies (
        #[trigger] grown[i]).neighbor.precedes((#[trigger] grown[j]).neighbor) by {
            if i == at {
                assert(grown[j] == queue.entries[j - 1]);
            } else if j == at {
                assert(grown[i] == queue.entries[i]);
            }
        }
        assert(ranked(grown));
        assert(post.wf());
        let full = grown.len() > queue.capacity;
        let last = grown[grown.len() - 1];
        // A neighbor of the grown queue is held, or it is the one that was dropped.
        assert forall|i: int| 0 <= i < grown.len() implies post.accounts_for(
            (#[trigger] grown[i]).neighbor,
        ) by {
            if i < post.entries.len() {
                assert(post.entries[i] == grown[i]);
            } else {
                assert(full && i == grown.len() - 1);
                assert forall|j: int| 0 <= j < post.entries.len() implies (
                #[trigger] post.entries[j]).neighbor.precedes(grown[i].neighbor) by {
                    assert(post.entries[j] == grown[j]);
                }
            }
        }
        assert(grown[at] == entry);
        assert forall|m: Neighbor| queue.outranks(m) implies #[trigger] post.outranks(m) by {
            assert forall|j: int| 0 <= j < post.entries.len() implies (
            #[trigger] post.entries[j]).neighbor.precedes(m) by {
                assert(full);
                assert(post.entries[j] == grown[j]);
                if j < at {
                    assert(grown[j] == queue.entries[j]);
                } else if j == at {
                    assert(n.precedes(queue.entries[at].neighbor));
                } else {
                    assert(grown[j] == queue.entries[j - 1]);
                }
            }
        }
        assert forall|m: Neighbor| queue.accounts_for(m) implies #[trigger] post.accounts_for(
            m,
        ) by {
            if queue.holds(m) {
                let i = choose|i: int|
                    0 <= i < queue.entries.len() && (#[trigger] queue.entries[i]).neighbor.ties(m);
                let k = shifted(i, at);
                assert(grown[k] == queue.entries[i]);
                if k < post.entries.len() {
                    assert(post.entries[k].neighbor.ties(m));
                } else {
                    assert(post.accounts_for(grown[k].neighbor));
                    lemma_outranks_ties(post, grown[k].neighbor, m);
                }
            } else {
                assert(post.outranks(m));
            }
        }
        assert forall|m: Neighbor| queue.spent(m) implies #[trigger] post.spent(m) by {
            if !queue.outranks(m) {
                let i = choose|i: int|
                    0 <= i < queue.entries.len() && (#[trigger] queue.entries[i]).visited
                        && queue.entries[i].neighbor.ties(m);
                let k = shifted(i, at);
                assert(grown[k] == queue.entries[i]);
                if k < post.entries.len() {
                    assert(post.entries[k].visited && post.entries[k].neighbor.ties(m));
                } else {
                    assert(post.accounts_for(grown[k].neighbor));
                    assert(!post.holds(grown[k].neighbor)) by {
                        if post.holds(grown[k].neighbor) {
                            let j = choose|j: int|
                                0 <= j < post.entries.len() && (
                                #[trigger] post.entries[j]).neighbor.ties(grown[k].neighbor);
                            assert(post.entries[j] == grown[j]);
                            assert(grown[j].neighbor.precedes(grown[k].neighbor));
                        }
                    }
                    lemma_outranks_ties(post, grown[k].neighbor, m);
                }
            } else {
                assert(post.outranks(m));
            }
        }
        assert forall|i: int| 0 <= i < post.entries.len() implies {
            let e = #[trigger] post.entries[i];
            queue.entries.contains(e) || e == entry
        } by {
            assert(post.entries[i] == grown[i]);
            if i < at {
                assert(grown[i] == queue.entries[i]);
            } else if i > at {
                assert(grown[i] == queue.entries[i - 1]);
            }
        }
    }
}

/// Neighbors of the same rank and id are outranked alike.
proof fn lemma_outranks_ties(queue: QueueView, a: Neighbor, b: Neighbor)
    requires
        queue.accounts_for(a),
        a.ties(b),
    ensures
        queue.outranks(a) ==> queue.outranks(b),
        queue.holds(a) ==> queue.holds(b),
{
    if queue.holds(a) {
        let i = choose|i: int|
            0 <= i < queue.entries.len() && (#[trigger] queue.entries[i]).neighbor.ties(a);
        assert(queue.entries[i].neighbor.ties(b));
    }
}

/// Being spent or accounted for only depends on the rank and the id.
proof fn lemma_spent_ties(queue: QueueView, a: Neighbor, b: Neighbor)
    requires
        queue.spent(a),
        a.ties(b),
    ensures
        queue.spent(b),
{
    if !queue.outranks(a) {
        let i = choose|i: int|
            0 <= i < queue.entries.len() && (#[trigger] queue.entries[i]).visited
                && queue.entries[i].neighbor.ties(a);
        assert(queue.entries[i].visited && queue.entries[i].neighbor.ties(b));
    } else {
        assert(queue.outranks(b));
    }
}

proof fn lemma_unvisited_count_add(a: Seq<Entry>, b: Seq<Entry>)
    ensures
        unvisited_count(a + b) == unvisited_count(a) + unvisited_count(b),
    decreases b.len(),
{
    if b.len() == 0 {
        assert(a + b =~= a);
    } else {
        assert((a + b).drop_last() =~= a + b.drop_last());
        lemma_unvisited_count_add(a, b.drop_last());
    }
}

proof fn lemma_unvisited_count_one(e: Entry)
    ensures
        unvisited_count(seq![e]) == if e.visited {
            0nat
        } else {
            1nat
        },
{
    reveal_with_fuel(unvisited_count, 2);
    assert(seq![e].drop_last() =~= Seq::empty());
}

/// The closest unvisited neighbor is the one ranked before all others that are
/// unvisited. Marking it changes nothing but its mark: it is spent from then on.
pub proof fn law_mark_closest(queue: QueueView)
    requires
        queue.wf(),
        queue.has_unvisited(),
    ensures
        queue.mark_closest().wf(),
        queue.mark_closest().neighbors() == queue.neighbors(),
        queue.holds(queue.closest()),
        forall|i: int|
            0 <= i < queue.entries.len() && !(#[trigger] queue.entries[i]).visited
                ==> queue.entries[i].neighbor == queue.closest() || queue.closest().precedes(
                queue.entries[i].neighbor,
            ),
        !queue.spent(queue.closest()),
        queue.mark_closest().spent(queue.closest()),
        forall|m: Neighbor| #[trigger]
            queue.mark_closest().accounts_for(m) == queue.accounts_for(m),
        forall|m: Neighbor| queue.spent(m) ==> #[trigger] queue.mark_closest().spent(m),
        unvisited_count(queue.entries) == unvisited_count(queue.mark_closest().entries) + 1,
{
    let post = queue.mark_closest();
    lemma_first_unvisited(queue.entries);
    let at = first_unvisited(queue.entries) as int;
    let closest = queue.closest();
    assert(queue.entries[at].neighbor == closest && !queue.entries[at].visited);
    assert(queue.entries[at].neighbor.ties(closest));
    assert forall|i: int| 0 <= i < queue.entries.len() implies (
    #[trigger] post.entries[i]).neighbor == queue.entries[i].neighbor by {}
    assert forall|i: int, j: int| 0 <= i < j < post.entries.len() implies (
    #[trigger] post.entries[i]).neighbor.precedes((#[trigger] post.entries[j]).neighbor) by {
        assert(queue.entries[i].neighbor.precedes(queue.entries[j].neighbor));
    }
    assert(post.neighbors() =~= queue.neighbors());
    assert forall|i: int|
        0 <= i < queue.entries.len() && !(#[trigger] queue.entries[i]).visited implies
        queue.entries[i].neighbor == closest || closest.precedes(queue.entries[i].neighbor) by {
        if i != at {
            assert(i > at);
            assert(queue.entries[at].neighbor.precedes(queue.entries[i].neighbor));
        }
    }
    assert(!queue.spent(closest)) by {
        if queue.spent(closest) {
            if queue.outranks(closest) {
                assert(queue.entries[at].neighbor.precedes(closest));
            } else {
                let i = choose|i: int|
                    0 <= i < queue.entries.len() && (#[trigger] queue.entries[i]).visited
                        && queue.entries[i].neighbor.ties(closest);
                if i < at {
                    assert(queue.entries[i].neighbor.precedes(queue.entries[at].neighbor));
                } else {
                    assert(queue.entries[at].neighbor.precedes(queue.entries[i].neighbor));
                }
            }
        }
    }
    assert(post.entries[at].visited && post.entries[at].neighbor.ties(closest));
    assert forall|m: Neighbor| #[trigger] post.accounts_for(m) == queue.accounts_for(m) by {
        if queue.holds(m) {
            let i = choose|i: int|
                0 <= i < queue.entries.len() && (#[trigger] queue.entries[i]).neighbor.ties(m);
            assert(post.entries[i].neighbor.ties(m));
        }
        if post.holds(m) {
            let i = choose|i: int|
                0 <= i < post.entries.len() && (#[trigger] post.entries[i]).neighbor.ties(m);
            assert(queue.entries[i].neighbor.ties(m));
        }
        if queue.outranks(m) {
            lemma_same_neighbors_outrank(queue, post, m);
        }
        if post.outranks(m) {
            lemma_same_neighbors_outrank(post, queue, m);
        }
    }
    assert forall|m: Neighbor| queue.spent(m) implies #[trigger] post.spent(m) by {
        if queue.outranks(m) {
            lemma_same_neighbors_outrank(queue, post, m);
        } else {
            let i = choose|i: int|
                0 <= i < queue.entries.len() && (#[trigger] queue.entries[i]).visited
                    && queue.entries[i].neighbor.ties(m);
            assert(post.entries[i].visited && post.entries[i].neighbor.ties(m));
        }
    }
    let front = queue.entries.take(at);
    let back = queue.entries.skip(at + 1);
    let old_entry = queue.entries[at];
    let new_entry = post.entries[at];
    assert(queue.entries =~= front + seq![old_entry] + back);
    assert(post.entries =~= front + seq![new_entry] + back);
    lemma_unvisited_count_add(front + seq![old_entry], back);
    lemma_unvisited_count_add(front, seq![old_entry]);
    lemma_unvisited_count_add(front + seq![new_entry], back);
    lemma_unvisited_count_add(front, seq![new_entry]);
    lemma_unvisited_count_one(old_entry);
    lemma_unvisited_count_one(new_entry);
}

proof fn lemma_same_neighbors_outrank(a: QueueView, b: QueueView, m: Neighbor)
    requires
        a.neighbors() == b.neighbors(),
        a.capacity == b.capacity,
        a.outranks(m),
    ensures
        b.outranks(m),
{
    assert(a.entries.len() == a.neighbors().len());
    assert(b.entries.len() == b.neighbors().len());
    assert forall|i: int| 0 <= i < b.entries.len() implies (
    #[trigger] b.entries[i]).neighbor.precedes(m) by {
        assert(b.neighbors()[i] == b.entries[i].neighbor);
        assert(a.neighbors()[i] == a.entries[i].neighbor);
    }
}

/// A beam holds distinct neighbors, closest first, none of which was spent
/// before and all of which are spent afterwards; the neighbors in the queue stay.
pub proof fn law_take_beam(queue: QueueView, width: nat)
    requires
        queue.wf(),
    ensures
        queue.after_beam(width).wf(),
        queue.after_beam(width).neighbors() == queue.neighbors(),
        queue.beam(width).len() <= width,
        forall|i: int|
            0 <= i < queue.beam(width).len() ==> queue.holds(#[trigger] queue.beam(width)[i])
                && !queue.spent(queue.beam(width)[i]) && queue.after_beam(width).spent(
                queue.beam(width)[i],
            ),
        forall|i: int, j: int|
            0 <= i < j < queue.beam(width).len() ==> (#[trigger] queue.beam(width)[i]).precedes(
                #[trigger] queue.beam(width)[j],
            ),
        forall|m: Neighbor| #[trigger]
            queue.after_beam(width).accounts_for(m) == queue.accounts_for(m),
        forall|m: Neighbor| queue.spent(m) ==> #[trigger] queue.after_beam(width).spent(m),
        unvisited_count(queue.entries) == unvisited_count(queue.after_beam(width).entries)
            + queue.beam(width).len(),
    decreases width,
{
    if width > 0 && queue.has_unvisited() {
        let marked = queue.mark_closest();
        let rest = (width - 1) as nat;
        law_mark_closest(queue);
        lemma_first_unvisited(queue.entries);
        law_take_beam(marked, rest);
        let beam = queue.beam(width);
        let tail = marked.beam(rest);
        assert(beam =~= seq![queue.closest()] + tail);
        assert forall|i: int| 0 <= i < beam.len() implies queue.holds(#[trigger] beam[i])
            && !queue.spent(beam[i]) && queue.after_beam(width).spent(beam[i]) by {
            if i > 0 {
                assert(beam[i] == tail[i - 1]);
                assert(!marked.spent(tail[i - 1]));
                assert(marked.holds(tail[i - 1]));
                lemma_same_neighbors_hold(marked, queue, tail[i - 1]);
            } else {
                assert(marked.spent(queue.closest()));
            }
        }
        assert forall|i: int, j: int| 0 <= i < j < beam.len() implies (
        #[trigger] beam[i]).precedes(#[trigger] beam[j]) by {
            assert(beam[j] == tail[j - 1]);
            if i > 0 {
                assert(beam[i] == tail[i - 1]);
            } else {
                let n = tail[j - 1];
                assert(marked.holds(n) && !marked.spent(n));
                let k = choose|k: int|
                    0 <= k < marked.entries.len() && (#[trigger] marked.entries[k]).neighbor.ties(
                        n,
                    );
                assert(!marked.entries[k].visited);
                assert(queue.entries[k].neighbor == marked.entries[k].neighbor);
                assert(!queue.entries[k].visited);
                assert(marked.spent(queue.closest()));
                if queue.entries[k].neighbor == queue.closest() {
                    lemma_spent_ties(marked, queue.closest(), n);
                }
            }
        }
    }
}

proof fn lemma_same_neighbors_hold(a: QueueView, b: QueueView, m: Neighbor)
    requires
        a.neighbors() == b.neighbors(),
        a.holds(m),
    ensures
        b.holds(m),
{
    let i = choose|i: int|
        0 <= i < a.entries.len() && (#[trigger] a.entries[i]).neighbor.ties(m);
    assert(a.neighbors().len() == a.entries.len() && b.neighbors().len() == b.entries.len());
    assert(a.neighbors()[i] == a.entries[i].neighbor);
    assert(b.neighbors()[i] == b.entries[i].neighbor);
    assert(b.entries[i].neighbor.ties(m));
}

/// Offering a list of neighbors accounts for all of them, adds nothing else,
/// and keeps what was accounted for or spent so.
pub proof fn law_insert_all(queue: QueueView, list: Seq<Neighbor>)
    requires
        queue.wf(),
    ensures
        queue.insert_all(list).wf(),
        queue.insert_all(list).capacity == queue.capacity,
        forall|i: int|
            0 <= i < list.len() ==> queue.insert_all(list).accounts_for(#[trigger] list[i]),
        forall|m: Neighbor|
            queue.accounts_for(m) ==> #[trigger] queue.insert_all(list).accounts_for(m),
        forall|m: Neighbor| queue.spent(m) ==> #[trigger] queue.insert_all(list).spent(m),
        forall|i: int|
            0 <= i < queue.insert_all(list).entries.len() ==> {
                let e = #[trigger] queue.insert_all(list).entries[i];
                queue.neighbors().contains(e.neighbor) || list.contains(e.neighbor)
            },
        unvisited_count(queue.insert_all(list).entries) <= unvisited_count(queue.entries)
            + list.len(),
    decreases list.len(),
{
    if list.len() == 0 {
        assert forall|i: int| 0 <= i < queue.entries.len() implies queue.neighbors().contains(
            (#[trigger] queue.entries[i]).neighbor,
        ) by {
            assert(queue.neighbors()[i] == queue.entries[i].neighbor);
        }
    } else {
        let before = queue.insert_all(list.drop_last());
        let n = list.last();
        law_insert_all(queue, list.drop_last());
        law_insert(before, n);
        lemma_insert_unvisited_count(before, n);
        let post = queue.insert_all(list);
        assert(post == before.insert(n));
        assert forall|i: int| 0 <= i < list.len() implies post.accounts_for(
            #[trigger] list[i],
        ) by {
            if i < list.len() - 1 {
                assert(list.drop_last()[i] == list[i]);
                assert(before.accounts_for(list[i]));
            }
        }
        assert forall|i: int| 0 <= i < post.entries.len() implies {
            let e = #[trigger] post.entries[i];
            queue.neighbors().contains(e.neighbor) || list.contains(e.neighbor)
        } by {
            let e = post.entries[i];
            if before.entries.contains(e) {
                let k = choose|k: int| 0 <= k < before.entries.len() && before.entries[k] == e;
                assert(queue.neighbors().contains(before.entries[k].neighbor)
                    || list.drop_last().contains(before.entries[k].neighbor));
                if list.drop_last().contains(e.neighbor) {
                    let j = choose|j: int|
                        0 <= j < list.drop_last().len() && list.drop_last()[j] == e.neighbor;
                    assert(list[j] == e.neighbor);
                }
            } else {
                assert(list[list.len() - 1] == e.neighbor);
            }
        }
    }
}

proof fn lemma_insert_unvisited_count(queue: QueueView, n: Neighbor)
    requires
        queue.wf(),
    ensures
        unvisited_count(queue.insert(n).entries) <= unvisited_count(queue.entries) + 1,
{
    if !queue.holds(n) {
        let at = lemma_split(queue.entries, n);
        let entry = Entry { neighbor: n, visited: false };
        let front = queue.entries.take(at);
        let back = queue.entries.skip(at);
        let grown = queue.entries.insert(at, entry);
        assert(queue.entries =~= front + back);
        assert(grown =~= front + seq![entry] + back);
        lemma_unvisited_count_add(front, back);
        lemma_unvisited_count_add(front + seq![entry], back);
        lemma_unvisited_count_add(front, seq![entry]);
        lemma_unvisited_count_one(entry);
        assert(unvisited_count(grown.drop_last()) <= unvisited_count(grown));
    }
}

/// Over any history, a queue stays ranked and within its bound, and what was
/// once accounted for or spent stays so.
pub proof fn law_history(queue: QueueView, ops: Seq<QueueOp>, from: int)
    requires
        queue.wf(),
        0 <= from <= ops.len(),
    ensures
        queue.apply_all(ops).wf(),
        queue.apply_all(ops).capacity == queue.capacity,
        forall|m: Neighbor|
            queue.apply_all(ops.take(from)).accounts_for(m) ==> #[trigger] queue.apply_all(
                ops,
            ).accounts_for(m),
        forall|m: Neighbor|
            queue.apply_all(ops.take(from)).spent(m) ==> #[trigger] queue.apply_all(ops).spent(m),
    decreases ops.len(),
{
    if ops.len() == 0 || from == ops.len() {
        assert(ops.take(from) =~= ops);
    }
    if ops.len() > 0 {
        let before = queue.apply_all(ops.drop_last());
        if from < ops.len() {
            law_history(queue, ops.drop_last(), from);
            assert(ops.drop_last().take(from) =~= ops.take(from));
        } else {
            law_history(queue, ops.drop_last(), 0);
        }
        match ops.last() {
            QueueOp::Offer(list) => law_insert_all(before, list),
            QueueOp::TakeBeam(width) => {
                law_take_beam(before, width);
                lemma_after_beam_capacity(before, width);
            },
        }
        if from < ops.len() {
            assert forall|m: Neighbor|
                queue.apply_all(ops.take(from)).accounts_for(m) implies #[trigger] queue.apply_all(
                ops,
            ).accounts_for(m) by {
                assert(before.accounts_for(m));
            }
            assert forall|m: Neighbor|
                queue.apply_all(ops.take(from)).spent(m) implies #[trigger] queue.apply_all(
                ops,
            ).spent(m) by {
                assert(before.spent(m));
            }
        }
    }
}

proof fn lemma_after_beam_capacity(queue: QueueView, width: nat)
    ensures
        queue.after_beam(width).capacity == queue.capacity,
    decreases width,
{
    if width > 0 && queue.has_unvisited() {
        lemma_after_beam_capacity(queue.mark_closest(), (width - 1) as nat);
    }
}

/// Offering one neighbor inserts it.
pub proof fn lemma_offer_one(queue: QueueView, n: Neighbor)
    ensures
        queue.insert_all(seq![n]) == queue.insert(n),
{
    assert(seq![n].drop_last() =~= Seq::empty());
    assert(queue.insert_all(Seq::empty()) == queue);
}

/// Inserting keeps a queue ranked and within is in the queue in the end, or the queue is full of
/// neighbors that are closer.
pub proof fn law_keeps_closest(queue: QueueView, ops: Seq<QueueOp>, at: int, n: Neighbor)
    requires
        queue.wf(),
        0 <= at < ops.len(),
        ops[at] matches QueueOp::Offer(list) && list.contains(n),
    ensures
        queue.apply_all(ops).accounts_for(n),
{
    let list = ops[at]->Offer_0;
    let before = queue.apply_all(ops.take(at));
    law_history(queue, ops.take(at), 0);
    law_insert_all(before, list);
    let i = choose|i: int| 0 <= i < list.len() && list[i] == n;
    assert(before.insert_all(list).accounts_for(list[i]));
    assert(ops.take(at + 1).drop_last() =~= ops.take(at));
    assert(queue.apply_all(ops.take(at + 1)) == before.insert_all(list));
    law_history(queue, ops, at + 1);
}

/// The queue only ever holds neighbors that it began with or that were offered.
pub proof fn law_holds_only_offered(queue: QueueView, ops: Seq<QueueOp>, n: Neighbor)
    requires
        queue.wf(),
        queue.apply_all(ops).neighbors().contains(n),
    ensures
        queue.neighbors().contains(n) || exists|i: int|
            0 <= i < ops.len() && (#[trigger] ops[i] matches QueueOp::Offer(list) && list.contains(n)),
    decreases ops.len(),
{
    if ops.len() > 0 {
        let before = queue.apply_all(ops.drop_last());
        let post = queue.apply_all(ops);
        law_history(queue, ops.drop_last(), 0);
        let k = choose|k: int| 0 <= k < post.neighbors().len() && post.neighbors()[k] == n;
        let last = ops.len() - 1;
        match ops[last] {
            QueueOp::Offer(list) => {
                law_insert_all(before, list);
                assert(before.insert_all(list).entries[k].neighbor == n);
                assert(before.neighbors().contains(n) || list.contains(n));
            },
            QueueOp::TakeBeam(width) => {
                law_take_beam(before, width);
            },
        }
        if before.neighbors().contains(n) {
            law_holds_only_offered(queue, ops.drop_last(), n);
            if !queue.neighbors().contains(n) {
                let i = choose|i: int|
                    0 <= i < ops.drop_last().len() && (#[trigger] ops.drop_last()[i] matches
                        QueueOp::Offer(list) && list.contains(n));
                assert(ops[i] == ops.drop_last()[i]);
            }
        }
    }
}

/// No neighbor is taken for expansion twice.
pub proof fn law_taken_once(
    queue: QueueView,
    ops: Seq<QueueOp>,
    i: int,
    j: int,
    n: Neighbor,
    m: Neighbor,
)
    requires
        queue.wf(),
        0 <= i < j < ops.len(),
        queue.apply_all(ops.take(i)).taken_by(ops[i]).contains(n),
        queue.apply_all(ops.take(j)).taken_by(ops[j]).contains(m),
    ensures
        !n.ties(m),
{
    let at_i = queue.apply_all(ops.take(i));
    let at_j = queue.apply_all(ops.take(j));
    law_history(queue, ops.take(i), 0);
    law_history(queue, ops.take(j), i + 1);
    let width_i = ops[i]->TakeBeam_0;
    let width_j = ops[j]->TakeBeam_0;
    law_take_beam(at_i, width_i);
    law_take_beam(at_j, width_j);
    let a = choose|a: int| 0 <= a < at_i.beam(width_i).len() && at_i.beam(width_i)[a] == n;
    let b = choose|b: int| 0 <= b < at_j.beam(width_j).len() && at_j.beam(width_j)[b] == m;
    assert(at_i.after_beam(width_i).spent(at_i.beam(width_i)[a]));
    assert(!at_j.spent(at_j.beam(width_j)[b]));
    assert(ops.take(i + 1).drop_last() =~= ops.take(i));
    assert(ops.take(j).take(i + 1) =~= ops.take(i + 1));
    assert(at_j.spent(n));
    if n.ties(m) {
        lemma_spent_ties(at_j, n, m);
    }
}

/// No more neighbors are taken for expansion than there were to begin with and
/// have been offered.
pub proof fn law_taken_bounded(queue: QueueView, ops: Seq<QueueOp>)
    requires
        queue.wf(),
    ensures
        taken_count(queue, ops) + unvisited_count(queue.apply_all(ops).entries)
            <= unvisited_count(queue.entries) + offered_count(ops),
    decreases ops.len(),
{
    if ops.len() > 0 {
        let before = queue.apply_all(ops.drop_last());
        law_taken_bounded(queue, ops.drop_last());
        law_history(queue, ops.drop_last(), 0);
        match ops.last() {
            QueueOp::Offer(list) => law_insert_all(before, list),
            QueueOp::TakeBeam(width) => law_take_beam(before, width),
        }
    }
}

/// Operations that find an unvisited neighbor whenever they take some are no more
/// than the neighbors that they take.
pub proof fn law_beams_bounded(queue: QueueView, ops: Seq<QueueOp>)
    requires
        forall|i: int|
            0 <= i < ops.len() ==> (#[trigger] ops[i] matches QueueOp::TakeBeam(width) ==> width > 0
                && queue.apply_all(ops.take(i)).has_unvisited()),
    ensures
        beam_count(ops) <= taken_count(queue, ops),
    decreases ops.len(),
{
    if ops.len() > 0 {
        let front = ops.drop_last();
        assert forall|i: int| 0 <= i < front.len() implies (#[trigger] front[i] matches
            QueueOp::TakeBeam(width) ==> width > 0 && queue.apply_all(
            front.take(i),
        ).has_unvisited()) by {
            assert(front[i] == ops[i]);
            assert(front.take(i) =~= ops.take(i));
        }
        law_beams_bounded(queue, front);
        assert(ops.take(ops.len() - 1) =~= front);
        if let QueueOp::TakeBeam(width) = ops[ops.len() - 1] {
            lemma_beam_len(queue.apply_all(front), width);
        }
    }
}

} // verus!
