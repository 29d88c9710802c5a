//! The bounded queue of the best neighbors that a search has met.

use vstd::prelude::*;
use crate::neighbor::{in_rank_order, Neighbor};

verus! {

/// A neighbor in the queue, and whether the search has expanded it.
#[derive(Clone, Copy, Debug, PartialEq, Eq, Structural)]
pub struct Entry {
    pub neighbor: Neighbor,
    pub visited: bool,
}

/// The contents of a [`NeighborPriorityQueue`], closest first, and its bound.
#[verifier::ext_equal]
pub struct QueueView {
    pub entries: Seq<Entry>,
    pub capacity: nat,
}

/// How many of the entries are ranked before `n`.
pub open spec fn count_before(entries: Seq<Entry>, n: Neighbor) -> nat
    decreases entries.len(),
{
    if entries.len() == 0 {
        0
    } else {
        count_before(entries.drop_last(), n) + if entries.last().neighbor.precedes(n) {
            1nat
        } else {
            0nat
        }
    }
}

/// The index of the first entry that is not yet visited; the length if there is none.
pub open spec fn first_unvisited(entries: Seq<Entry>) -> nat
    decreases entries.len(),
{
    if entries.len() == 0 || !entries.first().visited {
        0
    } else {
        1 + first_unvisited(entries.drop_first())
    }
}

/// Whether each entry is ranked before all entries behind it.
pub open spec fn ranked(entries: Seq<Entry>) -> bool {
    forall|i: int, j: int|
        0 <= i < j < entries.len() ==> (#[trigger] entries[i]).neighbor.precedes(
            (#[trigger] entries[j]).neighbor,
        )
}

impl QueueView {
    pub open spec fn wf(self) -> bool {
        &&& self.entries.len() <= self.capacity
        &&& ranked(self.entries)
    }

    pub open spec fn empty(capacity: nat) -> QueueView {
        QueueView { entries: Seq::empty(), capacity }
    }

    pub open spec fn size(self) -> nat {
        self.entries.len()
    }

    /// The neighbors in the queue, closest first.
    pub open spec fn neighbors(self) -> Seq<Neighbor> {
        Seq::new(self.entries.len(), |i: int| self.entries[i].neighbor)
    }

    /// Whether the queue has a neighbor of that rank and id.
    pub open spec fn holds(self, n: Neighbor) -> bool {
        exists|i: int| 0 <= i < self.entries.len() && (#[trigger] self.entries[i]).neighbor.ties(n)
    }

    pub open spec fn contains_id(self, id: u32) -> bool {
        exists|i: int|
            0 <= i < self.entries.len() && (#[trigger] self.entries[i]).neighbor.id == id
    }

    /// The queue with `n` in its ranked place, not visited. A neighbor that is
    /// already there is not added again; what then exceeds the capacity is
    /// dropped from the far end.
    pub open spec fn insert(self, n: Neighbor) -> QueueView {
        if self.holds(n) {
            self
        } else {
            let grown = self.entries.insert(
                count_before(self.entries, n) as int,
                Entry { neighbor: n, visited: false },
            );
            QueueView {
                entries: if grown.len() <= self.capacity {
                    grown
                } else {
                    grown.drop_last()
                },
                capacity: self.capacity,
            }
        }
    }

    /// The queue after inserting the neighbors of `list` one after the other.
    pub open spec fn insert_all(self, list: Seq<Neighbor>) -> QueueView
        decreases list.len(),
    {
        if list.len() == 0 {
            self
        } else {
            self.insert_all(list.drop_last()).insert(list.last())
        }
    }

    pub open spec fn has_unvisited(self) -> bool {
        exists|i: int| 0 <= i < self.entries.len() && !(#[trigger] self.entries[i]).visited
    }

    /// The closest neighbor that is not visited.
    pub open spec fn closest(self) -> Neighbor
        recommends
            self.has_unvisited(),
    {
        self.entries[first_unvisited(self.entries) as int].neighbor
    }

    /// The queue with its closest unvisited neighbor marked as visited.
    pub open spec fn mark_closest(self) -> QueueView
        recommends
            self.has_unvisited(),
    {
        let at = first_unvisited(self.entries) as int;
        QueueView {
            entries: self.entries.update(at, Entry { visited: true, ..self.entries[at] }),
            capacity: self.capacity,
        }
    }

    /// The closest unvisited neighbors, closest first, `width` of them or as
    /// many as there are.
    pub open spec fn beam(self, width: nat) -> Seq<Neighbor>
        decreases width,
    {
        if width == 0 || !self.has_unvisited() {
            Seq::empty()
        } else {
            seq![self.closest()] + self.mark_closest().beam((width - 1) as nat)
        }
    }

    /// The queue with the neighbors of [`QueueView::beam`] marked as visited.
    pub open spec fn after_beam(self, width: nat) -> QueueView
        decreases width,
    {
        if width == 0 || !self.has_unvisited() {
            self
        } else {
            self.mark_closest().after_beam((width - 1) as nat)
        }
    }
}

/// The best neighbors of a search, at most `capacity` of them, closest first,
/// each with a mark that tells whether it has been expanded.
#[derive(Debug)]
pub struct NeighborPriorityQueue {
    entries: Vec<Entry>,
    capacity: usize,
    cursor: usize,
}

impl View for NeighborPriorityQueue {
    type V = QueueView;

    closed spec fn view(&self) -> QueueView {
        QueueView { entries: self.entries@, capacity: self.capacity as nat }
    }
}

impl NeighborPriorityQueue {
    /// The queue is ranked, within its bound, and remembers where its first
    /// unvisited entry is.
    pub closed spec fn wf(&self) -> bool {
        &&& self@.wf()
        &&& self.cursor == first_unvisited(self.entries@)
    }

    /// A well-formed queue has well-formed contents.
    pub proof fn lemma_wf(&self)
        requires
            self.wf(),
        ensures
            self@.wf(),
    {
    }

    /// An empty queue for at most `capacity` neighbors.
    pub fn new(capacity: usize) -> (queue: Self)
        ensures
            queue.wf(),
            queue@ == QueueView::empty(capacity as nat),
    {
        NeighborPriorityQueue { entries: Vec::new(), capacity, cursor: 0 }
    }

    /// The number of neighbors in the queue.
    pub fn size(&self) -> (n: usize)
        ensures
            n == self@.size(),
    {
        self.entries.len()
    }

    /// The neighbor at place `index`, counted from the closest.
    pub fn get(&self, index: usize) -> (n: Neighbor)
        requires
            index < self@.size(),
        ensures
            n == self@.entries[index as int].neighbor,
    {
        self.entries[index].neighbor
    }

    /// Inserts `item` in its ranked place, as [`QueueView::insert`] says.
    pub fn insert(&mut self, item: Neighbor)
        requires
            old(self).wf(),
        ensures
            final(self).wf(),
            final(self)@ == old(self)@.insert(item),
    {
        let ghost before = self.entries@;
        let mut lo: usize = 0;
        let mut hi: usize = self.entries.len();
        while lo < hi
            invariant
                lo <= hi <= before.len(),
                *self == *old(self),
                self.entries@ == before,
                ranked(before),
                forall|i: int| 0 <= i < lo ==> (#[trigger] before[i]).neighbor.precedes(item),
                forall|i: int|
                    hi <= i < before.len() ==> !(#[trigger] before[i]).neighbor.precedes(item),
            decreases hi - lo,
        {
            let mid: usize = lo + (hi - lo) / 2;
            if self.entries[mid].neighbor.is_before(item) {
                lo = mid + 1;
            } else {
                hi = mid;
            }
        }
        proof {
            lemma_count_before(before, item, lo as int);
        }
        if lo < self.entries.len() && !item.is_before(self.entries[lo].neighbor) {
            assert(before[lo as int].neighbor.ties(item));
            assert(self@.holds(item));
            return;
        }
        assert(!self@.holds(item)) by {
            if self@.holds(item) {
                let i = choose|i: int|
                    0 <= i < before.len() && (#[trigger] before[i]).neighbor.ties(item);
                assert(before[i].neighbor.ties(item));
                if lo < i {
                    assert(before[lo as int].neighbor.precedes(before[i].neighbor));
                }
            }
        }
        let entry = Entry { neighbor: item, visited: false };
        let ghost grown = before.insert(lo as int, entry);
        proof {
            assert forall|i: int, j: int| 0 <= i < j < grown.len() implies (
            #[trigger] grown[i]).neighbor.precedes((#[trigger] grown[j]).neighbor) by {
                if i == lo {
                    assert(grown[j] == before[j - 1]);
                    if j - 1 > lo {
                        assert(before[lo as int].neighbor.precedes(before[j - 1].neighbor));
                    }
                }
            }
            lemma_first_unvisited(before);
            lemma_first_unvisited(grown);
            lemma_first_unvisited(grown.drop_last());
            let at = first_unvisited(before) as int;
            if lo <= at {
                lemma_first_unvisited_is(grown, lo as int);
                lemma_first_unvisited_is(grown.drop_last(), if lo < before.len() { lo as int } else {
                        before.len() as int
                    });
            } else {
                assert(grown[at] == before[at]);
                lemma_first_unvisited_is(grown, at);
                lemma_first_unvisited_is(grown.drop_last(), at);
            }
        }
        if self.entries.len() < self.capacity {
            self.entries.insert(lo, entry);
        } else if lo < self.entries.len() {
            self.entries.insert(lo, entry);
            self.entries.pop();
            assert(self.entries@ =~= grown.drop_last());
        } else {
            assert(grown.drop_last() =~= before);
            return;
        }
        if lo < self.cursor {
            self.cursor = lo;
        }
    }

    /// Inserts the neighbors of `list` one after the other.
    pub fn insert_all(&mut self, list: &Vec<Neighbor>)
        requires
            old(self).wf(),
        ensures
            final(self).wf(),
            final(self)@ == old(self)@.insert_all(list@),
    {
        for i in 0..list.len()
            invariant
                self.wf(),
                self@ == old(self)@.insert_all(list@.take(i as int)),
        {
            self.insert(list[i]);
            assert(list@.take(i + 1).drop_last() =~= list@.take(i as int));
        }
        assert(list@.take(list@.len() as int) == list@);
    }

    /// Whether some neighbor has not been expanded yet.
    pub fn has_notvisited_node(&self) -> (r: bool)
        requires
            self.wf(),
        ensures
            r == self@.has_unvisited(),
    {
        proof {
            lemma_first_unvisited(self.entries@);
        }
        self.cursor < self.entries.len()
    }

    /// Takes the closest neighbor that has not been expanded, and marks it.
    pub fn closest_notvisited(&mut self) -> (r: Option<Neighbor>)
        requires
            old(self).wf(),
        ensures
            final(self).wf(),
            r is Some <==> old(self)@.has_unvisited(),
            r matches Some(n) ==> n == old(self)@.closest() && final(self)@
                == old(self)@.mark_closest(),
            r is None ==> final(self)@ == old(self)@,
    {
        proof {
            lemma_first_unvisited(self.entries@);
        }
        if self.cursor >= self.entries.len() {
            return None;
        }
        let ghost before = self.entries@;
        let at: usize = self.cursor;
        let found: Neighbor = self.entries[at].neighbor;
        self.entries.set(at, Entry { neighbor: found, visited: true });
        let ghost marked = self.entries@;
        assert(marked == before.update(at as int, Entry { visited: true, ..before[at as int] }));
        let mut next: usize = at + 1;
        while next < self.entries.len() && self.entries[next].visited
            invariant
                self.entries@ == marked,
                at < next <= marked.len(),
                forall|i: int| 0 <= i < next ==> (#[trigger] marked[i]).visited,
            decreases marked.len() - next,
        {
            next = next + 1;
        }
        proof {
            lemma_first_unvisited_is(marked, next as int);
            assert(ranked(marked)) by {
                assert forall|i: int, j: int| 0 <= i < j < marked.len() implies (
                #[trigger] marked[i]).neighbor.precedes((#[trigger] marked[j]).neighbor) by {
                    assert(before[i].neighbor.precedes(before[j].neighbor));
                }
            }
        }
        self.cursor = next;
        Some(found)
    }

    /// Takes up to `width` of the closest unexpanded neighbors, closest first,
    /// and marks them.
    pub fn take_beam(&mut self, width: usize) -> (beam: Vec<Neighbor>)
        requires
            old(self).wf(),
        ensures
            final(self).wf(),
            beam@ == old(self)@.beam(width as nat),
            final(self)@ == old(self)@.after_beam(width as nat),
    {
        let mut beam: Vec<Neighbor> = Vec::new();
        let mut left: usize = width;
        while left > 0
            invariant
                self.wf(),
                left <= width,
                beam@ + self@.beam(left as nat) == old(self)@.beam(width as nat),
                self@.after_beam(left as nat) == old(self)@.after_beam(width as nat),
            ensures
                self.wf(),
                beam@ == old(self)@.beam(width as nat),
                self@ == old(self)@.after_beam(width as nat),
            decreases left,
        {
            let ghost rest = self@.beam(left as nat);
            let ghost taken = beam@;
            match self.closest_notvisited() {
                Some(n) => {
                    beam.push(n);
                    left = left - 1;
                    assert(beam@ + self@.beam(left as nat) =~= taken + rest);
                },
                None => {
                    assert(taken + rest =~= taken);
                    break;
                },
            }
        }
        beam
    }

    /// The closest `limit` neighbors, or all where there are fewer, closest first.
    pub fn closest(&self, limit: usize) -> (list: Vec<Neighbor>)
        ensures
            list@ == self@.neighbors().take(
                if limit <= self@.size() {
                    limit as int
                } else {
                    self@.size() as int
                },
            ),
            self.wf() ==> in_rank_order(list@),
            forall|i: int|
                0 <= i < list@.len() ==> (#[trigger] list@[i]) == self@.entries[i].neighbor,
    {
        let mut list: Vec<Neighbor> = Vec::new();
        let n: usize = if limit <= self.entries.len() {
            limit
        } else {
            self.entries.len()
        };
        for i in 0..n
            invariant
                n <= self@.size(),
                list@ == self@.neighbors().take(i as int),
        {
            list.push(self.entries[i].neighbor);
            assert(list@ =~= self@.neighbors().take(i + 1));
        }
        list
    }
}

/// What [`first_unvisited`] finds: everything before it is visited, it is not.
pub proof fn lemma_first_unvisited(entries: Seq<Entry>)
    ensures
        first_unvisited(entries) <= entries.len(),
        forall|i: int| 0 <= i < first_unvisited(entries) ==> (#[trigger] entries[i]).visited,
        first_unvisited(entries) < entries.len() ==> !entries[first_unvisited(
            entries,
        ) as int].visited,
        first_unvisited(entries) < entries.len() <==> (exists|i: int|
            0 <= i < entries.len() && !(#[trigger] entries[i]).visited),
    decreases entries.len(),
{
    if entries.len() > 0 && entries.first().visited {
        let rest = entries.drop_first();
        lemma_first_unvisited(rest);
        assert forall|i: int| 0 <= i < first_unvisited(entries) implies (
        #[trigger] entries[i]).visited by {
            if i > 0 {
                assert(rest[i - 1] == entries[i]);
            }
        }
        if first_unvisited(entries) < entries.len() {
            assert(rest[first_unvisited(rest) as int] == entries[first_unvisited(entries) as int]);
        }
    }
}

/// The first unvisited index is the only one of its kind.
proof fn lemma_first_unvisited_is(entries: Seq<Entry>, at: int)
    requires
        0 <= at <= entries.len(),
        forall|i: int| 0 <= i < at ==> (#[trigger] entries[i]).visited,
        at < entries.len() ==> !entries[at].visited,
    ensures
        first_unvisited(entries) == at,
{
    lemma_first_unvisited(entries);
}

/// In a ranked sequence, the entries ranked before `n` are the first ones.
pub proof fn lemma_count_before(entries: Seq<Entry>, n: Neighbor, at: int)
    requires
        0 <= at <= entries.len(),
        forall|i: int| 0 <= i < at ==> (#[trigger] entries[i]).neighbor.precedes(n),
        forall|i: int| at <= i < entries.len() ==> !(#[trigger] entries[i]).neighbor.precedes(n),
    ensures
        count_before(entries, n) == at,
    decreases entries.len(),
{
    if entries.len() > 0 {
        let rest = entries.drop_last();
        lemma_count_before(rest, n, if at < entries.len() { at } else { at - 1 });
    }
}

/// A beam has at most `width` neighbors, and one at least where there is an
/// unvisited neighbor.
pub proof fn lemma_beam_len(queue: QueueView, width: nat)
    ensures
        queue.beam(width).len() <= width,
        width > 0 && queue.has_unvisited() ==> queue.beam(width).len() > 0,
    decreases width,
{
    if width > 0 && queue.has_unvisited() {
        lemma_beam_len(queue.mark_closest(), (width - 1) as nat);
    }
}

} // verus!
