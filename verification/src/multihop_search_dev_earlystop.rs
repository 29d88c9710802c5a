//! Label-filtered search by multi-hop expansion that stops once hops no longer
//! find matches, and that records what each hop brought into the queue.
//!
//! As in [`crate::multihop_search_dev`], the search is a state machine.

use vstd::prelude::*;
use crate::label::{accepted, answers, rejected, terminates};
use crate::label::{partition, QueryLabelProvider, QueryVisitDecision};
use crate::neighbor::{collect_ids, copy_neighbors, ids_of, sort_by_distance, sorted_by_distance};
use crate::neighbor::{in_rank_order, Distance, Neighbor};
use crate::queue::{lemma_beam_len, NeighborPriorityQueue, QueueView};
use crate::queue_laws::law_take_beam;
use crate::scratch::{low32, low32_of, InternalSearchStats, Knn, ScratchView, SearchScratch};
use crate::scratch::SearchStats;
use crate::visited::VisitedSet;

pub use crate::multihop_search_dev::NotInMutWithLabelCheckDev;

verus! {

/// What one hop brought into the queue.
#[derive(Clone, Debug)]
pub struct HopTrace<I> {
    pub hop_index: u32,
    pub one_hop_enqueued: Vec<I>,
    pub two_hop_enqueued: Vec<I>,
}

/// The contents of a [`HopTrace`].
#[verifier::ext_equal]
pub struct HopView<I> {
    pub hop_index: nat,
    pub one_hop_enqueued: Seq<I>,
    pub two_hop_enqueued: Seq<I>,
}

impl<I> View for HopTrace<I> {
    type V = HopView<I>;

    open spec fn view(&self) -> HopView<I> {
        HopView {
            hop_index: self.hop_index as nat,
            one_hop_enqueued: self.one_hop_enqueued@,
            two_hop_enqueued: self.two_hop_enqueued@,
        }
    }
}

/// What the hops of one query brought into the queue.
#[derive(Clone, Debug)]
pub struct QueryTrace<I> {
    pub hops: Vec<HopTrace<I>>,
}

impl<I> View for QueryTrace<I> {
    type V = Seq<HopView<I>>;

    open spec fn view(&self) -> Seq<HopView<I>> {
        Seq::new(self.hops@.len(), |i: int| self.hops@[i]@)
    }
}

impl<I> Default for QueryTrace<I> {
    fn default() -> (r: Self)
        ensures
            r@ == Seq::<HopView<I>>::empty(),
    {
        let r = QueryTrace { hops: Vec::new() };
        assert(r@ =~= Seq::empty());
        r
    }
}

/// The counters and the trace of a finished search.
#[derive(Clone, Debug)]
pub struct MultihopSearchDevOutput<I> {
    pub stats: SearchStats,
    pub trace: QueryTrace<I>,
}

/// Whether the queue has a neighbor with that id.
pub fn queue_contains_id(queue: &NeighborPriorityQueue, id: u32) -> (r: bool)
    ensures
        r == queue@.contains_id(id),
        r == exists|i: int|
            0 <= i < queue@.entries.len() && (#[trigger] queue@.entries[i]).neighbor.id == id,
{
    let size: usize = queue.size();
    for index in 0..size
        invariant
            size == queue@.size(),
            forall|i: int| 0 <= i < index ==> (#[trigger] queue@.entries[i]).neighbor.id != id,
    {
        if queue.get(index).id == id {
            return true;
        }
    }
    false
}

/// The ids of `list` that are in the queue right after their insertion, where
/// the neighbors of `list` are inserted one after the other.
pub open spec fn enqueued(queue: QueueView, list: Seq<Neighbor>) -> Seq<u32>
    decreases list.len(),
{
    if list.len() == 0 {
        Seq::empty()
    } else {
        let before = enqueued(queue, list.drop_last());
        if queue.insert_all(list).contains_id(list.last().id) {
            before.push(list.last().id)
        } else {
            before
        }
    }
}

/// Inserts the neighbors of `list` one after the other and returns the ids that
/// made it into the queue.
fn enqueue_all(queue: &mut NeighborPriorityQueue, list: &Vec<Neighbor>) -> (ids: Vec<u32>)
    requires
        old(queue).wf(),
    ensures
        final(queue).wf(),
        final(queue)@ == old(queue)@.insert_all(list@),
        ids@ == enqueued(old(queue)@, list@),
{
    let mut ids: Vec<u32> = Vec::new();
    for i in 0..list.len()
        invariant
            queue.wf(),
            queue@ == old(queue)@.insert_all(list@.take(i as int)),
            ids@ == enqueued(old(queue)@, list@.take(i as int)),
    {
        let item: Neighbor = list[i];
        queue.insert(item);
        assert(list@.take(i + 1).drop_last() =~= list@.take(i as int));
        if queue_contains_id(queue, item.id) {
            ids.push(item.id);
        }
    }
    assert(list@.take(list@.len() as int) == list@);
    ids
}

/// How many hops without a match end a search that has met a match before.
pub const MAX_HOPS_WITHOUT_MATCH: usize = 2;

/// The fixed numbers of a search.
#[derive(Clone, Copy, Debug, PartialEq, Eq, Structural)]
pub struct EarlyStopConfig {
    /// How many neighbors are asked for.
    pub k: usize,
    /// How many nodes are expanded per hop.
    pub beam_width: usize,
    /// The largest degree of a node.
    pub max_degree: usize,
}

/// Where a search stands.
#[derive(Clone, Copy, Debug, PartialEq, Eq, Structural)]
pub enum Phase {
    /// The ids of the start points are to be fetched.
    Start,
    /// A start point is being fetched.
    StartPoint,
    /// There is a node to expand, unless the search is to end early.
    Frontier,
    /// The nodes of the beam are being expanded.
    OneHop,
    /// The rejected nodes of the hop are being expanded.
    TwoHop,
    /// The search is over.
    Done,
}

/// What the search needs next.
#[derive(Debug)]
pub enum Action {
    /// Fetch the ids of the start points: [`Event::StartIds`].
    FetchStartIds,
    /// Fetch this start point and its distance: [`Event::StartPoint`].
    FetchStartPoint(u32),
    /// Ask whether the search is to end early: [`Event::EarlyTermination`].
    PollTermination,
    /// Expand these nodes to the neighbors not yet visited, and decide about
    /// each: [`Event::OneHop`].
    ExpandBeam(Vec<Neighbor>),
    /// Expand these nodes to the matching neighbors not yet visited: [`Event::TwoHop`].
    ExpandCandidates(Vec<u32>),
    /// Nothing: the search is over.
    Finish(InternalSearchStats),
}

/// An answer from the graph.
#[derive(Debug)]
pub enum Event {
    StartIds(Vec<u32>),
    StartPoint(Distance),
    EarlyTermination(bool),
    OneHop { neighbors: Vec<Neighbor>, decisions: Vec<QueryVisitDecision> },
    TwoHop(Vec<Neighbor>),
}

/// The state of an [`EarlyStopSearch`].
#[verifier::ext_equal]
pub struct EarlyStopState {
    pub scratch: ScratchView,
    pub config: EarlyStopConfig,
    pub phase: Phase,
    /// The start points that are still to be queued; the first is being fetched.
    pub starts: Seq<u32>,
    /// The rejected nodes of this hop that are walked through.
    pub pending: Seq<Neighbor>,
    /// How many matching nodes this hop has found.
    pub hop_match_count: nat,
    /// What the expansion of the beam brought into the queue.
    pub one_hop_enqueued: Seq<u32>,
    /// Whether any hop has found a match.
    pub entered: bool,
    /// How many hops in a row found no match, once one has found some.
    pub idle_hops: nat,
    /// The number of the current hop.
    pub hop_index: nat,
    /// The recorded hops.
    pub trace: Seq<HopView<u32>>,
}

impl EarlyStopState {
    /// The state in which a search begins.
    pub open spec fn initial(config: EarlyStopConfig, scratch: ScratchView) -> EarlyStopState {
        let state = EarlyStopState {
            scratch,
            config,
            phase: Phase::Start,
            starts: Seq::empty(),
            pending: Seq::empty(),
            hop_match_count: 0,
            one_hop_enqueued: Seq::empty(),
            entered: false,
            idle_hops: 0,
            hop_index: 0,
            trace: Seq::empty(),
        };
        if scratch.visited == Set::<u32>::empty() {
            state
        } else {
            state.to_frontier()
        }
    }

    /// The state with another set of visited nodes.
    pub open spec fn with_visited(self, visited: Set<u32>) -> EarlyStopState {
        EarlyStopState { scratch: ScratchView { visited, ..self.scratch }, ..self }
    }

    /// Goes on with the closest unexpanded node, or ends where there is none.
    pub open spec fn to_frontier(self) -> EarlyStopState {
        EarlyStopState {
            phase: if self.scratch.best.has_unvisited() {
                Phase::Frontier
            } else {
                Phase::Done
            },
            ..self
        }
    }

    /// Goes on with the next start point, which then counts as visited, or with the
    /// first hop where there is none.
    pub open spec fn to_start(self) -> EarlyStopState {
        if self.starts.len() == 0 {
            self.to_frontier()
        } else {
            EarlyStopState {
                scratch: ScratchView {
                    visited: self.scratch.visited.insert(self.starts[0]),
                    ..self.scratch
                },
                phase: Phase::StartPoint,
                ..self
            }
        }
    }

    /// After the ids of the start points have come in.
    pub open spec fn after_start_ids(self, ids: Seq<u32>) -> EarlyStopState {
        EarlyStopState { starts: ids, ..self }.to_start()
    }

    /// The start point that is being fetched, at this distance.
    pub open spec fn start_neighbor(self, distance: Distance) -> Neighbor {
        Neighbor { id: self.starts[0], distance }
    }

    /// After a start point has come in: it is queued.
    pub open spec fn after_start_point(self, distance: Distance) -> EarlyStopState {
        EarlyStopState {
            scratch: ScratchView {
                best: self.scratch.best.insert(self.start_neighbor(distance)),
                ..self.scratch
            },
            starts: self.starts.drop_first(),
            ..self
        }.to_start()
    }

    /// After the question whether to end early has been answered.
    pub open spec fn after_poll(self, stop: bool) -> EarlyStopState {
        if stop {
            EarlyStopState { phase: Phase::Done, ..self }
        } else {
            EarlyStopState {
                scratch: ScratchView {
                    best: self.scratch.best.after_beam(self.config.beam_width as nat),
                    beam_nodes: self.scratch.best.beam(self.config.beam_width as nat),
                    ..self.scratch
                },
                phase: Phase::OneHop,
                pending: Seq::empty(),
                hop_match_count: 0,
                one_hop_enqueued: Seq::empty(),
                ..self
            }
        }
    }

    /// The state with the current hop recorded.
    pub open spec fn recorded(self, two_hop_enqueued: Seq<u32>) -> EarlyStopState {
        EarlyStopState {
            trace: self.trace.push(
                HopView {
                    hop_index: self.hop_index,
                    one_hop_enqueued: self.one_hop_enqueued,
                    two_hop_enqueued,
                },
            ),
            one_hop_enqueued: Seq::empty(),
            ..self
        }
    }

    /// After the neighbors of the beam have been decided about; `pending` are
    /// the rejected ones to walk through. A decision to terminate ends the
    /// search, and the hop is recorded.
    pub open spec fn after_one_hop(
        self,
        neighbors: Seq<Neighbor>,
        decisions: Seq<QueryVisitDecision>,
        pending: Seq<Neighbor>,
    ) -> EarlyStopState {
        let counted = EarlyStopState {
            scratch: ScratchView {
                best: self.scratch.best.insert_all(accepted(decisions)),
                comparisons: (self.scratch.comparisons + low32(neighbors.len() as int)) as nat,
                hops: (self.scratch.hops + low32(self.scratch.beam_nodes.len() as int)) as nat,
                ..self.scratch
            },
            hop_match_count: accepted(decisions).len(),
            one_hop_enqueued: enqueued(self.scratch.best, accepted(decisions)),
            ..self
        };
        if terminates(decisions) {
            EarlyStopState { phase: Phase::Done, ..counted.recorded(Seq::empty()) }
        } else {
            EarlyStopState { phase: Phase::TwoHop, pending, ..counted }
        }
    }

    /// Whether `pending` are the rejected neighbors closest to the query, closest
    /// first, half as many as the degree at most.
    pub open spec fn walks(
        self,
        neighbors: Seq<Neighbor>,
        decisions: Seq<QueryVisitDecision>,
        pending: Seq<Neighbor>,
    ) -> bool {
        exists|order: Seq<Neighbor>|
            {
                &&& sorted_by_distance(order)
                &&& #[trigger] order.to_multiset() == rejected(neighbors, decisions).to_multiset()
                &&& pending == order.take(
                    if order.len() <= self.config.max_degree / 2 {
                        order.len() as int
                    } else {
                        (self.config.max_degree / 2) as int
                    },
                )
            }
    }

    /// After the rejected nodes have been expanded to their matching neighbors.
    /// The search ends where this is the last idle hop it bears with and the
    /// queue holds more neighbors than are asked for; that hop is not recorded.
    pub open spec fn after_two_hop(self, neighbors: Seq<Neighbor>) -> EarlyStopState {
        let best = self.scratch.best.insert_all(neighbors);
        let matches = self.hop_match_count + neighbors.len();
        let idle_hops = if matches > 0 {
            0
        } else if self.entered {
            self.idle_hops + 1
        } else {
            self.idle_hops
        };
        let counted = EarlyStopState {
            scratch: ScratchView {
                best,
                comparisons: (self.scratch.comparisons + low32(neighbors.len() as int)) as nat,
                hops: (self.scratch.hops + low32(self.pending.len() as int)) as nat,
                ..self.scratch
            },
            hop_match_count: matches,
            entered: self.entered || matches > 0,
            idle_hops,
            ..self
        };
        if matches == 0 && self.entered && idle_hops >= MAX_HOPS_WITHOUT_MATCH && best.size()
            > self.config.k {
            EarlyStopState { phase: Phase::Done, ..counted }
        } else {
            EarlyStopState {
                hop_index: self.hop_index + 1,
                ..counted.recorded(enqueued(self.scratch.best, neighbors))
            }.to_frontier()
        }
    }

    /// What holds of every state that a search reaches.
    pub open spec fn valid(self) -> bool {
        &&& self.scratch.best.wf()
        &&& self.config.k > 0
        &&& self.config.beam_width > 0
        &&& self.phase is Frontier ==> self.scratch.best.has_unvisited()
        &&& self.phase is OneHop ==> 0 < self.scratch.beam_nodes.len()
            <= self.config.beam_width
        &&& self.phase is TwoHop ==> self.pending.len() <= self.config.max_degree / 2
        &&& self.phase is StartPoint <==> self.starts.len() > 0
        &&& self.phase is Start || self.phase is StartPoint ==> !self.entered
        &&& !self.entered ==> self.idle_hops == 0
        &&& (self.phase is Frontier || self.phase is OneHop) && self.idle_hops
            >= MAX_HOPS_WITHOUT_MATCH ==> self.scratch.best.size() <= self.config.k
        &&& sorted_by_distance(self.pending)
        &&& !(self.phase is Done) ==> self.trace.len() == self.hop_index
        &&& forall|i: int|
            0 <= i < self.trace.len() ==> (#[trigger] self.trace[i]).hop_index == i
    }

    /// Whether `event` is the answer that the search waits for.
    pub open spec fn expects(self, event: Event) -> bool {
        match event {
            Event::StartIds(_) => self.phase is Start,
            Event::StartPoint(_) => self.phase is StartPoint,
            Event::EarlyTermination(_) => self.phase is Frontier,
            Event::OneHop { neighbors, decisions } => self.phase is OneHop && answers(
                decisions@,
                neighbors@.len(),
            ),
            Event::TwoHop(_) => self.phase is TwoHop,
        }
    }

    /// Whether the counters have room for what `event` adds.
    pub open spec fn fits(self, event: Event) -> bool {
        match event {
            Event::StartIds(_) => true,
            Event::StartPoint(_) => true,
            Event::EarlyTermination(_) => true,
            Event::OneHop { neighbors, .. } => {
                &&& self.scratch.comparisons + low32(neighbors@.len() as int) <= u32::MAX
                &&& self.scratch.hops + low32(self.scratch.beam_nodes.len() as int) <= u32::MAX
            },
            Event::TwoHop(neighbors) => {
                &&& self.scratch.comparisons + low32(neighbors@.len() as int) <= u32::MAX
                &&& self.scratch.hops + low32(self.pending.len() as int) <= u32::MAX
                &&& self.hop_match_count + neighbors@.len() <= usize::MAX
                &&& self.idle_hops < usize::MAX
                &&& self.hop_index < u32::MAX
            },
        }
    }

    /// Whether `event` leads from this state to `post`. Which of two equally
    /// distant rejected nodes comes first is open.
    pub open spec fn steps_to(self, event: Event, post: EarlyStopState) -> bool {
        match event {
            Event::StartIds(ids) => post == self.after_start_ids(ids@),
            Event::StartPoint(distance) => post == self.after_start_point(distance),
            Event::EarlyTermination(stop) => post == self.after_poll(stop),
            Event::OneHop { neighbors, decisions } => {
                &&& post == self.after_one_hop(neighbors@, decisions@, post.pending)
                &&& !terminates(decisions@) ==> self.walks(neighbors@, decisions@, post.pending)
            },
            Event::TwoHop(neighbors) => post == self.after_two_hop(neighbors@),
        }
    }

    /// Whether `action` is what the search needs in this state.
    pub open spec fn needs(self, action: Action) -> bool {
        match self.phase {
            Phase::Start => action is FetchStartIds,
            Phase::StartPoint => action == Action::FetchStartPoint(self.starts[0]),
            Phase::Frontier => action is PollTermination,
            Phase::OneHop => action matches Action::ExpandBeam(beam) && beam@
                == self.scratch.beam_nodes,
            Phase::TwoHop => action matches Action::ExpandCandidates(ids) && ids@ == ids_of(
                self.pending,
            ),
            Phase::Done => action matches Action::Finish(stats) && stats.comparisons
                == self.scratch.comparisons && stats.hops == self.scratch.hops
                && !stats.range_search_second_round,
        }
    }
}

/// A search in progress.
#[derive(Debug)]
pub struct EarlyStopSearch {
    scratch: SearchScratch,
    config: EarlyStopConfig,
    phase: Phase,
    start_ids: Vec<u32>,
    next_start: usize,
    pending: Vec<Neighbor>,
    hop_match_count: usize,
    one_hop_enqueued: Vec<u32>,
    entered: bool,
    idle_hops: usize,
    hop_index: u32,
    trace: QueryTrace<u32>,
}

impl View for EarlyStopSearch {
    type V = EarlyStopState;

    closed spec fn view(&self) -> EarlyStopState {
        EarlyStopState {
            scratch: self.scratch@,
            config: self.config,
            phase: self.phase,
            starts: self.start_ids@.skip(self.next_start as int),
            pending: self.pending@,
            hop_match_count: self.hop_match_count as nat,
            one_hop_enqueued: self.one_hop_enqueued@,
            entered: self.entered,
            idle_hops: self.idle_hops as nat,
            hop_index: self.hop_index as nat,
            trace: self.trace@,
        }
    }
}

impl EarlyStopSearch {
    /// The queue is in order and the state is one that a search can reach.
    pub closed spec fn wf(&self) -> bool {
        &&& self.scratch.best.wf()
        &&& self.next_start <= self.start_ids@.len()
        &&& self@.valid()
    }

    /// Ends the hop.
    fn enter_frontier(&mut self)
        requires
            old(self).scratch.best.wf(),
        ensures
            final(self)@ == old(self)@.to_frontier(),
            final(self).scratch == old(self).scratch,
            final(self).next_start == old(self).next_start,
            final(self).start_ids == old(self).start_ids,
    {
        if self.scratch.best.has_notvisited_node() {
            self.phase = Phase::Frontier;
        } else {
            self.phase = Phase::Done;
        }
    }

    /// Records the current hop.
    fn record_hop(&mut self, two_hop_enqueued: Vec<u32>)
        ensures
            final(self)@ == old(self)@.recorded(two_hop_enqueued@),
            final(self).scratch == old(self).scratch,
            final(self).next_start == old(self).next_start,
            final(self).start_ids == old(self).start_ids,
    {
        let mut one_hop_enqueued: Vec<u32> = Vec::new();
        std::mem::swap(&mut one_hop_enqueued, &mut self.one_hop_enqueued);
        let ghost before = self.trace@;
        let hop = HopTrace { hop_index: self.hop_index, one_hop_enqueued, two_hop_enqueued };
        let ghost record = hop@;
        self.trace.hops.push(hop);
        assert(self.trace@ =~= before.push(record));
    }

    /// Turns to the next start point, or ends the start.
    fn enter_start(&mut self)
        requires
            old(self).scratch.best.wf(),
            old(self).next_start <= old(self).start_ids@.len(),
        ensures
            final(self)@ == old(self)@.to_start(),
            final(self).scratch.best == old(self).scratch.best,
            final(self).next_start == old(self).next_start,
            final(self).start_ids == old(self).start_ids,
    {
        if self.next_start >= self.start_ids.len() {
            self.enter_frontier();
        } else {
            self.scratch.visited.insert(self.start_ids[self.next_start]);
            self.phase = Phase::StartPoint;
        }
    }

    /// Takes the ids of the start points.
    fn take_start_ids(&mut self, ids: Vec<u32>)
        requires
            old(self).wf(),
            old(self)@.phase is Start,
        ensures
            final(self).wf(),
            final(self)@ == old(self)@.after_start_ids(ids@),
    {
        self.start_ids = ids;
        self.next_start = 0;
        assert(self@.starts =~= ids@);
        self.enter_start();
    }

    /// Takes a start point.
    fn take_start_point(&mut self, distance: Distance)
        requires
            old(self).wf(),
            old(self)@.phase is StartPoint,
        ensures
            final(self).wf(),
            final(self)@ == old(self)@.after_start_point(distance),
    {
        let ghost rest = self@.starts.drop_first();
        let id: u32 = self.start_ids[self.next_start];
        assert(id == self@.starts[0] && self.next_start < self.start_ids.len());
        self.scratch.best.insert(Neighbor::new(id, distance));
        self.next_start = self.next_start + 1;
        proof {
            self.scratch.best.lemma_wf();
            assert(self@.starts =~= rest);
        }
        self.enter_start();
    }

    /// Takes the answer whether to end early.
    fn take_poll(&mut self, stop: bool)
        requires
            old(self).wf(),
            old(self)@.phase is Frontier,
        ensures
            final(self).wf(),
            final(self)@ == old(self)@.after_poll(stop),
    {
        if stop {
            self.phase = Phase::Done;
        } else {
            self.scratch.beam_nodes = self.scratch.best.take_beam(self.config.beam_width);
            self.phase = Phase::OneHop;
            self.pending = Vec::new();
            self.hop_match_count = 0;
            self.one_hop_enqueued = Vec::new();
            proof {
                self.scratch.best.lemma_wf();
                lemma_beam_len(old(self)@.scratch.best, self.config.beam_width as nat);
                law_take_beam(old(self)@.scratch.best, self.config.beam_width as nat);
                assert(self@.scratch.best.neighbors().len() == self@.scratch.best.size());
                assert(old(self)@.scratch.best.neighbors().len() == old(self)@.scratch.best.size());
            }
        }
    }

    /// Takes the neighbors of the beam and what was decided about them.
    fn take_one_hop(&mut self, neighbors: &Vec<Neighbor>, decisions: &Vec<QueryVisitDecision>)
        requires
            old(self).wf(),
            old(self)@.phase is OneHop,
            answers(decisions@, neighbors@.len()),
            old(self)@.scratch.comparisons + low32(neighbors@.len() as int) <= u32::MAX,
            old(self)@.scratch.hops + low32(old(self)@.scratch.beam_nodes.len() as int)
                <= u32::MAX,
        ensures
            final(self).wf(),
            final(self)@ == old(self)@.after_one_hop(
                neighbors@,
                decisions@,
                final(self)@.pending,
            ),
            !terminates(decisions@) ==> old(self)@.walks(
                neighbors@,
                decisions@,
                final(self)@.pending,
            ),
    {
        let (taken, walk) = partition(neighbors, decisions);
        self.hop_match_count = taken.len();
        self.one_hop_enqueued = enqueue_all(&mut self.scratch.best, &taken);
        self.scratch.comparisons = self.scratch.comparisons + low32_of(neighbors.len());
        self.scratch.hops = self.scratch.hops + low32_of(self.scratch.beam_nodes.len());
        proof {
            self.scratch.best.lemma_wf();
        }
        if decisions.len() > 0 {
            if let QueryVisitDecision::Terminate = decisions[decisions.len() - 1] {
                self.record_hop(Vec::new());
                self.phase = Phase::Done;
                return;
            }
        }
        let mut order: Vec<Neighbor> = sort_by_distance(&walk);
        let ghost full = order@;
        order.truncate(self.config.max_degree / 2);
        assert(full.take(full.len() as int) =~= full);
        self.pending = order;
        self.phase = Phase::TwoHop;
        assert(full.to_multiset() == rejected(neighbors@, decisions@).to_multiset());
    }

    /// Takes the matching neighbors of the rejected nodes.
    fn take_two_hop(&mut self, neighbors: &Vec<Neighbor>)
        requires
            old(self).wf(),
            old(self)@.phase is TwoHop,
            old(self)@.scratch.comparisons + low32(neighbors@.len() as int) <= u32::MAX,
            old(self)@.scratch.hops + low32(old(self)@.pending.len() as int) <= u32::MAX,
            old(self)@.hop_match_count + neighbors@.len() <= usize::MAX,
            old(self)@.idle_hops < usize::MAX,
            old(self)@.hop_index < u32::MAX,
        ensures
            final(self).wf(),
            final(self)@ == old(self)@.after_two_hop(neighbors@),
    {
        let two_hop_enqueued: Vec<u32> = enqueue_all(&mut self.scratch.best, neighbors);
        self.hop_match_count = self.hop_match_count + neighbors.len();
        self.scratch.comparisons = self.scratch.comparisons + low32_of(neighbors.len());
        self.scratch.hops = self.scratch.hops + low32_of(self.pending.len());
        proof {
            self.scratch.best.lemma_wf();
        }
        if self.hop_match_count > 0 {
            self.entered = true;
            self.idle_hops = 0;
        } else if self.entered {
            self.idle_hops = self.idle_hops + 1;
            if self.idle_hops >= MAX_HOPS_WITHOUT_MATCH && self.scratch.best.size()
                > self.config.k {
                self.phase = Phase::Done;
                return;
            }
        }
        self.record_hop(two_hop_enqueued);
        self.hop_index = self.hop_index + 1;
        self.enter_frontier();
    }

    /// The queue, the visited nodes and the counters.
    pub fn scratch(&self) -> (r: &SearchScratch)
        ensures
            r@ == self@.scratch,
            self.wf() ==> r.best.wf(),
    {
        &self.scratch
    }

    /// The visited nodes, for the predicate that selects the neighbors of a node
    /// while it is expanded.
    pub fn visited_mut(&mut self) -> (r: &mut VisitedSet)
        ensures
            r@ == old(self)@.scratch.visited,
            final(self)@ == old(self)@.with_visited(final(r)@),
            old(self).wf() ==> final(self).wf(),
    {
        &mut self.scratch.visited
    }

    /// Gives the queue, the visited nodes and the counters back, and the recorded
    /// hops.
    pub fn into_parts(self) -> (r: (SearchScratch, QueryTrace<u32>))
        ensures
            r.0@ == self@.scratch,
            self.wf() ==> r.0.best.wf(),
            r.1@ == self@.trace,
    {
        (self.scratch, self.trace)
    }

    /// What the search needs next.
    pub fn action(&self) -> (action: Action)
        requires
            self.wf(),
        ensures
            self@.needs(action),
            self@.phase is Start ==> action is FetchStartIds,
            self@.phase is StartPoint ==> action == Action::FetchStartPoint(self@.starts[0]),
            self@.phase is Frontier ==> action is PollTermination,
            self@.phase is OneHop ==> (action matches Action::ExpandBeam(beam) && beam@
                == self@.scratch.beam_nodes),
            self@.phase is TwoHop ==> (action matches Action::ExpandCandidates(ids) && ids@.len()
                == self@.pending.len() && forall|i: int|
                0 <= i < ids@.len() ==> (#[trigger] ids@[i]) == self@.pending[i].id),
            self@.phase is Done ==> (action matches Action::Finish(stats) && stats.comparisons
                == self@.scratch.comparisons && stats.hops == self@.scratch.hops
                && !stats.range_search_second_round),
    {
        match self.phase {
            Phase::Start => Action::FetchStartIds,
            Phase::StartPoint => {
                assert(self.start_ids@[self.next_start as int] == self@.starts[0]);
                Action::FetchStartPoint(self.start_ids[self.next_start])
            },
            Phase::Frontier => Action::PollTermination,
            Phase::OneHop => Action::ExpandBeam(copy_neighbors(&self.scratch.beam_nodes)),
            Phase::TwoHop => Action::ExpandCandidates(collect_ids(&self.pending)),
            Phase::Done => Action::Finish(self.scratch.make_stats()),
        }
    }

    /// Whether the counters have room for what `event` adds.
    pub fn has_room(&self, event: &Event) -> (r: bool)
        requires
            self.wf(),
        ensures
            r == self@.fits(*event),
            r == match *event {
                Event::StartIds(_) => true,
                Event::StartPoint(_) => true,
                Event::EarlyTermination(_) => true,
                Event::OneHop { neighbors, .. } => self@.scratch.comparisons + neighbors@.len()
                    as int % 0x1_0000_0000 <= u32::MAX && self@.scratch.hops
                    + self@.scratch.beam_nodes.len() as int % 0x1_0000_0000 <= u32::MAX,
                Event::TwoHop(neighbors) => self@.scratch.comparisons + neighbors@.len() as int
                    % 0x1_0000_0000 <= u32::MAX && self@.scratch.hops + self@.pending.len() as int
                    % 0x1_0000_0000 <= u32::MAX && self@.hop_match_count + neighbors@.len()
                    <= usize::MAX && self@.idle_hops < usize::MAX && self@.hop_index < u32::MAX,
            },
    {
        match event {
            Event::StartIds(_) => true,
            Event::StartPoint(_) => true,
            Event::EarlyTermination(_) => true,
            Event::OneHop { neighbors, decisions: _ } => low32_of(neighbors.len()) <= u32::MAX
                - self.scratch.comparisons && low32_of(self.scratch.beam_nodes.len()) <= u32::MAX
                - self.scratch.hops,
            Event::TwoHop(neighbors) => low32_of(neighbors.len()) <= u32::MAX
                - self.scratch.comparisons && low32_of(self.pending.len()) <= u32::MAX
                - self.scratch.hops && neighbors.len() <= usize::MAX - self.hop_match_count
                && self.idle_hops < usize::MAX && self.hop_index < u32::MAX,
        }
    }

    /// Goes on with the answer to the last action.
    pub fn step(&mut self, event: Event)
        requires
            old(self).wf(),
            old(self)@.expects(event),
            old(self)@.fits(event),
        ensures
            final(self).wf(),
            old(self)@.steps_to(event, final(self)@),
    {
        match event {
            Event::StartIds(ids) => self.take_start_ids(ids),
            Event::StartPoint(distance) => self.take_start_point(distance),
            Event::EarlyTermination(stop) => self.take_poll(stop),
            Event::OneHop { neighbors, decisions } => self.take_one_hop(&neighbors, &decisions),
            Event::TwoHop(neighbors) => self.take_two_hop(&neighbors),
        }
    }
}

/// Parameters of a label-filtered search that stops once hops find no matches.
#[derive(Debug)]
pub struct MultihopSearchDev<'q, L: QueryLabelProvider + ?Sized> {
    /// Base graph search parameters.
    pub inner: Knn,
    /// Label evaluator for determining node matches.
    pub label_evaluator: &'q L,
}

impl<'q, L: QueryLabelProvider + ?Sized> MultihopSearchDev<'q, L> {
    /// Creates the parameters.
    pub fn new(inner: Knn, label_evaluator: &'q L) -> (r: Self)
        ensures
            r.inner == inner,
            r.label_evaluator == label_evaluator,
    {
        MultihopSearchDev { inner, label_evaluator }
    }

    /// Begins a search on `scratch`. The start points are fetched only where
    /// `scratch` has not visited any node, so that a search can be taken up again.
    pub fn begin(&self, max_degree: usize, scratch: SearchScratch) -> (search: EarlyStopSearch)
        requires
            scratch.best.wf(),
        ensures
            search.wf(),
            search@ == EarlyStopState::initial(
                EarlyStopConfig {
                    k: self.inner.spec_k(),
                    beam_width: self.inner.spec_width(),
                    max_degree,
                },
                scratch@,
            ),
            search@.config.k == self.inner.spec_k(),
            search@.config.beam_width == self.inner.spec_width(),
            search@.config.max_degree == max_degree,
            search@.scratch == scratch@,
            search@.phase is Start <==> scratch@.visited == Set::<u32>::empty(),
    {
        let config = EarlyStopConfig {
            k: self.inner.k_value(),
            beam_width: self.inner.beam_width(),
            max_degree,
        };
        proof {
            scratch.best.lemma_wf();
        }
        let fresh: bool = scratch.visited.is_empty();
        let mut search = EarlyStopSearch {
            scratch,
            config,
            phase: Phase::Start,
            start_ids: Vec::new(),
            next_start: 0,
            pending: Vec::new(),
            hop_match_count: 0,
            one_hop_enqueued: Vec::new(),
            entered: false,
            idle_hops: 0,
            hop_index: 0,
            trace: QueryTrace::default(),
        };
        assert(search@.starts =~= Seq::empty());
        if !fresh {
            search.enter_frontier();
        }
        search
    }

    /// The neighbors that the search hands on, closest first: as many as it
    /// keeps candidates, or all where it found fewer.
    pub fn results(&self, search: &EarlyStopSearch) -> (list: Vec<Neighbor>)
        ensures
            list@ == search@.scratch.best.neighbors().take(
                if self.inner.spec_l() <= search@.scratch.best.size() {
                    self.inner.spec_l() as int
                } else {
                    search@.scratch.best.size() as int
                },
            ),
            search.wf() ==> in_rank_order(list@),
            list@.len() == if self.inner.spec_l() <= search@.scratch.best.entries.len() {
                self.inner.spec_l() as nat
            } else {
                search@.scratch.best.entries.len()
            },
            forall|i: int|
                0 <= i < list@.len() ==> (#[trigger] list@[i])
                    == search@.scratch.best.entries[i].neighbor,
    {
        search.scratch.best.closest(self.inner.l_value())
    }

    /// The counters and the trace of a search whose results have been counted.
    pub fn finish(stats: InternalSearchStats, search: EarlyStopSearch, result_count: usize) -> (r:
        MultihopSearchDevOutput<u32>)
        ensures
            r.stats.comparisons == stats.comparisons,
            r.stats.hops == stats.hops,
            r.stats.result_count == low32(result_count as int),
            r.stats.result_count == result_count as int % 0x1_0000_0000,
            r.stats.range_search_second_round == stats.range_search_second_round,
            r.trace@ == search@.trace,
    {
        MultihopSearchDevOutput { stats: stats.finish(result_count), trace: search.trace }
    }
}

} // verus!
