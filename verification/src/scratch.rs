//! Search parameters, counters and the working state that a search carries.

use vstd::prelude::*;
use crate::neighbor::Neighbor;
use crate::queue::{NeighborPriorityQueue, QueueView};
use crate::visited::VisitedSet;

verus! {

/// Parameters of a k-nearest-neighbor graph search; none of them is zero.
#[derive(Clone, Copy, Debug)]
pub struct Knn {
    k: usize,
    l: usize,
    width: usize,
}

impl Knn {
    #[verifier::type_invariant]
    closed spec fn nonzero(self) -> bool {
        self.k > 0 && self.l > 0 && self.width > 0
    }

    /// How many neighbors are asked for.
    pub closed spec fn spec_k(self) -> usize {
        self.k
    }

    /// How many candidates the search keeps.
    pub closed spec fn spec_l(self) -> usize {
        self.l
    }

    /// How many nodes the search expands at once.
    pub closed spec fn spec_width(self) -> usize {
        self.width
    }

    /// The parameters, if none of them is zero.
    pub fn new(k_value: usize, l_value: usize, beam_width: usize) -> (r: Option<Knn>)
        ensures
            r is Some <==> k_value > 0 && l_value > 0 && beam_width > 0,
            r matches Some(p) ==> p.spec_k() == k_value && p.spec_l() == l_value && p.spec_width()
                == beam_width,
    {
        if k_value > 0 && l_value > 0 && beam_width > 0 {
            Some(Knn { k: k_value, l: l_value, width: beam_width })
        } else {
            None
        }
    }

    pub fn k_value(&self) -> (r: usize)
        ensures
            r == self.spec_k(),
            r > 0,
    {
        proof {
            use_type_invariant(self);
        }
        self.k
    }

    pub fn l_value(&self) -> (r: usize)
        ensures
            r == self.spec_l(),
            r > 0,
    {
        proof {
            use_type_invariant(self);
        }
        self.l
    }

    pub fn beam_width(&self) -> (r: usize)
        ensures
            r == self.spec_width(),
            r > 0,
    {
        proof {
            use_type_invariant(self);
        }
        self.width
    }
}

/// The counters of a search that is not yet post-processed.
#[derive(Clone, Copy, Debug, PartialEq, Eq, Structural)]
pub struct InternalSearchStats {
    pub comparisons: u32,
    pub hops: u32,
    pub range_search_second_round: bool,
}

/// The counters of a finished search.
#[derive(Clone, Copy, Debug, PartialEq, Eq, Structural)]
pub struct SearchStats {
    pub comparisons: u32,
    pub hops: u32,
    pub result_count: u32,
    pub range_search_second_round: bool,
}

/// What is left of a length in a 32-bit counter.
pub open spec fn low32(n: int) -> int {
    n % 0x1_0000_0000
}

/// The lowest 32 bits of `n`.
pub fn low32_of(n: usize) -> (r: u32)
    ensures
        r == low32(n as int),
        r == n as int % 0x1_0000_0000,
{
    let wide: u64 = n as u64;
    assert(wide as u32 == wide % 0x1_0000_0000) by (bit_vector);
    wide as u32
}

impl InternalSearchStats {
    /// The counters together with the number of results, of which the lowest 32
    /// bits are kept.
    pub fn finish(self, result_count: usize) -> (r: SearchStats)
        ensures
            r.comparisons == self.comparisons,
            r.hops == self.hops,
            r.result_count == low32(result_count as int),
            r.result_count == result_count as int % 0x1_0000_0000,
            r.range_search_second_round == self.range_search_second_round,
    {
        SearchStats {
            comparisons: self.comparisons,
            hops: self.hops,
            result_count: low32_of(result_count),
            range_search_second_round: self.range_search_second_round,
        }
    }
}

/// The state of a search: the best neighbors so far, the nodes it has met, the
/// nodes it is expanding, and how many distances it has computed and nodes it
/// has expanded.
#[derive(Debug)]
pub struct SearchScratch {
    pub best: NeighborPriorityQueue,
    pub visited: VisitedSet,
    pub beam_nodes: Vec<Neighbor>,
    pub comparisons: u32,
    pub hops: u32,
}

/// The contents of a [`SearchScratch`].
#[verifier::ext_equal]
pub struct ScratchView {
    pub best: QueueView,
    pub visited: Set<u32>,
    pub beam_nodes: Seq<Neighbor>,
    pub comparisons: nat,
    pub hops: nat,
}

impl View for SearchScratch {
    type V = ScratchView;

    open spec fn view(&self) -> ScratchView {
        ScratchView {
            best: self.best@,
            visited: self.visited@,
            beam_nodes: self.beam_nodes@,
            comparisons: self.comparisons as nat,
            hops: self.hops as nat,
        }
    }
}

impl SearchScratch {
    /// A fresh state whose queue keeps at most `capacity` neighbors.
    pub fn new(capacity: usize) -> (scratch: SearchScratch)
        ensures
            scratch.best.wf(),
            scratch@ == (ScratchView {
                best: QueueView::empty(capacity as nat),
                visited: Set::empty(),
                beam_nodes: Seq::empty(),
                comparisons: 0,
                hops: 0,
            }),
            scratch@.best.entries.len() == 0,
            scratch@.best.capacity == capacity,
    {
        SearchScratch {
            best: NeighborPriorityQueue::new(capacity),
            visited: VisitedSet::empty(),
            beam_nodes: Vec::new(),
            comparisons: 0,
            hops: 0,
        }
    }

    /// The counters so far.
    pub fn make_stats(&self) -> (r: InternalSearchStats)
        ensures
            r == (InternalSearchStats {
                comparisons: self.comparisons,
                hops: self.hops,
                range_search_second_round: false,
            }),
    {
        InternalSearchStats { comparisons: self.comparisons, hops: self.hops, range_search_second_round: false }
    }
}

} // verus!
