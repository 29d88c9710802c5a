//! Label-filtered search that walks through non-matching nodes to find matching
//! ones within two hops.
//!
//! The search is a state machine. [`DevSearch::action`] tells what it needs from
//! the graph next, and [`DevSearch::step`] takes the answer.

use vstd::prelude::*;
use crate::label::{accepted, answers, matching_ids, rejected, terminates};
use crate::label::{partition, QueryLabelProvider, QueryVisitDecision, Selectivity};
use crate::neighbor::{copy_neighbors, in_rank_order, sort_by_distance};
use crate::neighbor::{sorted_by_distance, Distance, Neighbor};
use crate::queue::lemma_beam_len;
use crate::scratch::{low32, low32_of, InternalSearchStats, Knn, ScratchView, SearchScratch};
use crate::visited::{admission, VisitedSet};

verus! {

/// A predicate that holds of the ids that are not in the visited set and match
/// the label filter.
pub struct NotInMutWithLabelCheckDev<'a, L: QueryLabelProvider + ?Sized> {
    pub visited_set: &'a mut VisitedSet,
    pub query_label_evaluator: &'a L,
}

impl<'a, L: QueryLabelProvider + ?Sized> NotInMutWithLabelCheckDev<'a, L> {
    /// Constructs the predicate around `visited_set`.
    pub fn new(visited_set: &'a mut VisitedSet, query_label_evaluator: &'a L) -> (r: Self)
        ensures
            *r.visited_set == *old(visited_set),
            *final(r.visited_set) == *final(visited_set),
            r.query_label_evaluator == query_label_evaluator,
    {
        NotInMutWithLabelCheckDev { visited_set, query_label_evaluator }
    }

    /// Whether `item` has not been visited and matches.
    pub fn eval(&self, item: &u32) -> (r: bool)
        ensures
            r == (!old(self.visited_set)@.contains(*item) && self.query_label_evaluator.matches(
                *item,
            )),
    {
        !self.visited_set.contains(item) && self.query_label_evaluator.is_match(*item)
    }

    /// Whether `item` has not been visited and matches. An item that matches
    /// then counts as visited; one that does not match stays as it was.
    pub fn eval_mut(&mut self, item: &u32) -> (r: bool)
        ensures
            r == (old(self).query_label_evaluator.matches(*item)
                && !old(self).visited_set@.contains(*item)),
            final(self).visited_set@ == if old(self).query_label_evaluator.matches(*item) {
                old(self).visited_set@.insert(*item)
            } else {
                old(self).visited_set@
            },
            admission(
                old(self).visited_set@,
                matching_ids(old(self).query_label_evaluator),
                *item,
                r,
                final(self).visited_set@,
            ),
            *final(final(self).visited_set) == *final(old(self).visited_set),
            final(self).query_label_evaluator == old(self).query_label_evaluator,
    {
        if self.query_label_evaluator.is_match(*item) {
            return self.visited_set.insert(*item);
        }
        false
    }
}

/// The fixed numbers of a search.
#[derive(Clone, Copy, Debug, PartialEq, Eq, Structural)]
pub struct DevConfig {
    /// How many neighbors are asked for.
    pub k: usize,
    /// How many nodes are expanded per hop.
    pub beam_width: usize,
    /// The largest degree of a node.
    pub max_degree: usize,
    /// How many matches of one hop make further two-hop expansion pointless.
    pub match_limit: usize,
}

/// Where a search stands.
#[derive(Clone, Copy, Debug, PartialEq, Eq, Structural)]
pub enum Phase {
    /// The ids of the start points are to be fetched.
    Start,
    /// A start point is being fetched.
    StartPoint,
    /// There is a node to expand, unless the search is to end early.
    Frontier,
    /// The nodes of the beam are being expanded.
    OneHop,
    /// There is a rejected node to walk through, unless the search is to end early.
    Candidate,
    /// A rejected node is being expanded.
    TwoHop,
    /// The search is over.
    Done,
}

/// What the search needs next.
#[derive(Debug)]
pub enum Action {
    /// Fetch the ids of the start points: [`Event::StartIds`].
    FetchStartIds,
    /// Fetch this start point and its distance: [`Event::StartPoint`].
    FetchStartPoint(u32),
    /// Ask whether the search is to end early: [`Event::EarlyTermination`].
    PollTermination,
    /// Expand these nodes to the neighbors not yet visited, and decide about
    /// each: [`Event::OneHop`].
    ExpandBeam(Vec<Neighbor>),
    /// Expand this node to the matching neighbors not yet visited: [`Event::TwoHop`].
    ExpandCandidate(u32),
    /// Nothing: the search is over.
    Finish(InternalSearchStats),
}

/// An answer from the graph.
#[derive(Debug)]
pub enum Event {
    StartIds(Vec<u32>),
    StartPoint(Distance),
    EarlyTermination(bool),
    OneHop { neighbors: Vec<Neighbor>, decisions: Vec<QueryVisitDecision> },
    TwoHop(Vec<Neighbor>),
}

/// The state of a [`DevSearch`].
#[verifier::ext_equal]
pub struct DevState {
    pub scratch: ScratchView,
    pub config: DevConfig,
    pub phase: Phase,
    /// The start points that are still to be queued; the first is being fetched.
    pub starts: Seq<u32>,
    /// The rejected nodes of this hop that are still to be walked through.
    pub pending: Seq<Neighbor>,
    /// How many rejected nodes of this hop have been walked through.
    pub expansions: nat,
    /// How many matching nodes this hop has found.
    pub hop_match_count: nat,
    /// The farthest neighbor in the queue when two-hop expansion began, if the
    /// queue then held as many neighbors as are asked for.
    pub worst: Option<Distance>,
}

impl DevState {
    /// The state in which a search begins.
    pub open spec fn initial(config: DevConfig, scratch: ScratchView) -> DevState {
        let state = DevState {
            scratch,
            config,
            phase: Phase::Start,
            starts: Seq::empty(),
            pending: Seq::empty(),
            expansions: 0,
            hop_match_count: 0,
            worst: None,
        };
        if scratch.visited == Set::<u32>::empty() {
            state
        } else {
            state.to_frontier()
        }
    }

    /// The state with another set of visited nodes.
    pub open spec fn with_visited(self, visited: Set<u32>) -> DevState {
        DevState { scratch: ScratchView { visited, ..self.scratch }, ..self }
    }

    /// Goes on with the closest unexpanded node, or ends where there is none.
    pub open spec fn to_frontier(self) -> DevState {
        DevState {
            phase: if self.scratch.best.has_unvisited() {
                Phase::Frontier
            } else {
                Phase::Done
            },
            ..self
        }
    }

    /// Whether the next rejected node is worth walking through: the hop has not
    /// found enough matches, and the node is not one that comes late and lies
    /// beyond the queue.
    pub open spec fn wants_candidate(self) -> bool {
        &&& self.pending.len() > 0
        &&& self.hop_match_count < self.config.match_limit
        &&& !(self.worst matches Some(w) && self.expansions >= self.config.max_degree / 4
            && self.pending[0].distance.exceeds(w))
    }

    /// Goes on with the next rejected node if it is worth it, else with the next hop.
    pub open spec fn next_candidate(self) -> DevState {
        if self.wants_candidate() {
            DevState { phase: Phase::Candidate, ..self }
        } else {
            self.to_frontier()
        }
    }

    /// Goes on with the next start point, which then counts as visited, or with the
    /// first hop where there is none.
    pub open spec fn to_start(self) -> DevState {
        if self.starts.len() == 0 {
            self.to_frontier()
        } else {
            DevState {
                scratch: ScratchView {
                    visited: self.scratch.visited.insert(self.starts[0]),
                    ..self.scratch
                },
                phase: Phase::StartPoint,
                ..self
            }
        }
    }

    /// After the ids of the start points have come in.
    pub open spec fn after_start_ids(self, ids: Seq<u32>) -> DevState {
        DevState { starts: ids, ..self }.to_start()
    }

    /// The start point that is being fetched, at this distance.
    pub open spec fn start_neighbor(self, distance: Distance) -> Neighbor {
        Neighbor { id: self.starts[0], distance }
    }

    /// After a start point has come in: it is queued and counted.
    pub open spec fn after_start_point(self, distance: Distance) -> DevState {
        DevState {
            scratch: ScratchView {
                best: self.scratch.best.insert(self.start_neighbor(distance)),
                comparisons: self.scratch.comparisons + 1,
                ..self.scratch
            },
            starts: self.starts.drop_first(),
            ..self
        }.to_start()
    }

    /// After the question whether to end early has been answered.
    pub open spec fn after_poll(self, stop: bool) -> DevState {
        if self.phase is Candidate {
            if stop {
                self.to_frontier()
            } else {
                DevState { phase: Phase::TwoHop, ..self }
            }
        } else if stop {
            DevState { phase: Phase::Done, ..self }
        } else {
            DevState {
                scratch: ScratchView {
                    best: self.scratch.best.after_beam(self.config.beam_width as nat),
                    beam_nodes: self.scratch.best.beam(self.config.beam_width as nat),
                    ..self.scratch
                },
                phase: Phase::OneHop,
                pending: Seq::empty(),
                expansions: 0,
                hop_match_count: 0,
                worst: None,
                ..self
            }
        }
    }

    /// Whether the hop goes on to walk through rejected nodes: fewer than half
    /// of the neighbors matched.
    pub open spec fn goes_two_hop(
        neighbors: Seq<Neighbor>,
        decisions: Seq<QueryVisitDecision>,
    ) -> bool {
        !terminates(decisions) && 2 * accepted(decisions).len() < neighbors.len()
    }

    /// After the neighbors of the beam have been decided about; `pending` is an
    /// order in which to walk through the rejected ones.
    pub open spec fn after_one_hop(
        self,
        neighbors: Seq<Neighbor>,
        decisions: Seq<QueryVisitDecision>,
        pending: Seq<Neighbor>,
    ) -> DevState {
        let best = self.scratch.best.insert_all(accepted(decisions));
        let counted = DevState {
            scratch: ScratchView {
                best,
                comparisons: (self.scratch.comparisons + low32(neighbors.len() as int)) as nat,
                hops: (self.scratch.hops + low32(self.scratch.beam_nodes.len() as int)) as nat,
                ..self.scratch
            },
            hop_match_count: accepted(decisions).len(),
            ..self
        };
        if terminates(decisions) {
            DevState { phase: Phase::Done, ..counted }
        } else if DevState::goes_two_hop(neighbors, decisions) {
            DevState {
                pending,
                worst: if best.size() >= self.config.k {
                    Some(best.entries.last().neighbor.distance)
                } else {
                    None
                },
                ..counted
            }.next_candidate()
        } else {
            counted.to_frontier()
        }
    }

    /// After a rejected node has been expanded to its matching neighbors.
    pub open spec fn after_two_hop(self, neighbors: Seq<Neighbor>) -> DevState {
        DevState {
            scratch: ScratchView {
                best: self.scratch.best.insert_all(neighbors),
                comparisons: (self.scratch.comparisons + low32(neighbors.len() as int)) as nat,
                hops: self.scratch.hops + 1,
                ..self.scratch
            },
            pending: self.pending.drop_first(),
            expansions: self.expansions + 1,
            hop_match_count: self.hop_match_count + neighbors.len(),
            ..self
        }.next_candidate()
    }

    /// What holds of every state that a search reaches.
    pub open spec fn valid(self) -> bool {
        &&& self.scratch.best.wf()
        &&& self.config.k > 0
        &&& self.config.beam_width > 0
        &&& self.phase is Frontier ==> self.scratch.best.has_unvisited()
        &&& self.phase is StartPoint <==> self.starts.len() > 0
        &&& self.phase is Start || self.phase is StartPoint || self.phase is OneHop
            ==> self.pending.len() == 0 && self.expansions == 0 && self.hop_match_count == 0
        &&& self.phase is OneHop ==> 0 < self.scratch.beam_nodes.len()
            <= self.config.beam_width
        &&& self.phase is Candidate || self.phase is TwoHop ==> self.wants_candidate()
        &&& sorted_by_distance(self.pending)
    }

    /// Whether `event` is the answer that the search waits for.
    pub open spec fn expects(self, event: Event) -> bool {
        match event {
            Event::StartIds(_) => self.phase is Start,
            Event::StartPoint(_) => self.phase is StartPoint,
            Event::EarlyTermination(_) => self.phase is Frontier || self.phase is Candidate,
            Event::OneHop { neighbors, decisions } => self.phase is OneHop && answers(
                decisions@,
                neighbors@.len(),
            ),
            Event::TwoHop(_) => self.phase is TwoHop,
        }
    }

    /// Whether the counters have room for what `event` adds.
    pub open spec fn fits(self, event: Event) -> bool {
        match event {
            Event::StartIds(_) => true,
            Event::StartPoint(_) => self.scratch.comparisons < u32::MAX,
            Event::EarlyTermination(_) => true,
            Event::OneHop { neighbors, .. } => {
                &&& self.scratch.comparisons + low32(neighbors@.len() as int) <= u32::MAX
                &&& self.scratch.hops + low32(self.scratch.beam_nodes.len() as int) <= u32::MAX
            },
            Event::TwoHop(neighbors) => {
                &&& self.scratch.comparisons + low32(neighbors@.len() as int) <= u32::MAX
                &&& self.scratch.hops < u32::MAX
                &&& self.hop_match_count + neighbors@.len() <= usize::MAX
            },
        }
    }

    /// Whether `event` leads from this state to `post`. Rejected nodes are walked
    /// through from the closest to the farthest; which of two equally distant ones
    /// comes first is open.
    pub open spec fn steps_to(self, event: Event, post: DevState) -> bool {
        match event {
            Event::StartIds(ids) => post == self.after_start_ids(ids@),
            Event::StartPoint(distance) => post == self.after_start_point(distance),
            Event::EarlyTermination(stop) => post == self.after_poll(stop),
            Event::OneHop { neighbors, decisions } => {
                &&& post == self.after_one_hop(neighbors@, decisions@, post.pending)
                &&& DevState::goes_two_hop(neighbors@, decisions@) ==> {
                    &&& sorted_by_distance(post.pending)
                    &&& post.pending.to_multiset() == rejected(
                        neighbors@,
                        decisions@,
                    ).to_multiset()
                }
            },
            Event::TwoHop(neighbors) => post == self.after_two_hop(neighbors@),
        }
    }

    /// Whether `action` is what the search needs in this state.
    pub open spec fn needs(self, action: Action) -> bool {
        match self.phase {
            Phase::Start => action is FetchStartIds,
            Phase::StartPoint => action == Action::FetchStartPoint(self.starts[0]),
            Phase::Frontier | Phase::Candidate => action is PollTermination,
            Phase::OneHop => action matches Action::ExpandBeam(beam) && beam@
                == self.scratch.beam_nodes,
            Phase::TwoHop => action == Action::ExpandCandidate(self.pending[0].id),
            Phase::Done => action matches Action::Finish(stats) && stats.comparisons
                == self.scratch.comparisons && stats.hops == self.scratch.hops
                && !stats.range_search_second_round,
        }
    }
}

/// A search in progress.
#[derive(Debug)]
pub struct DevSearch {
    scratch: SearchScratch,
    config: DevConfig,
    phase: Phase,
    start_ids: Vec<u32>,
    next_start: usize,
    candidates: Vec<Neighbor>,
    next: usize,
    hop_match_count: usize,
    worst: Option<Distance>,
}

impl View for DevSearch {
    type V = DevState;

    closed spec fn view(&self) -> DevState {
        DevState {
            scratch: self.scratch@,
            config: self.config,
            phase: self.phase,
            starts: self.start_ids@.skip(self.next_start as int),
            pending: self.candidates@.skip(self.next as int),
            expansions: self.next as nat,
            hop_match_count: self.hop_match_count as nat,
            worst: self.worst,
        }
    }
}

impl DevSearch {
    /// The queue is in order and the state is one that a search can reach.
    pub closed spec fn wf(&self) -> bool {
        &&& self.scratch.best.wf()
        &&& self.next_start <= self.start_ids@.len()
        &&& self.next <= self.candidates@.len()
        &&& self@.valid()
    }

    /// Ends the hop.
    fn enter_frontier(&mut self)
        requires
            old(self).scratch.best.wf(),
        ensures
            final(self)@ == old(self)@.to_frontier(),
            final(self).scratch == old(self).scratch,
            final(self).next_start == old(self).next_start,
            final(self).start_ids == old(self).start_ids,
            final(self).next == old(self).next,
            final(self).candidates == old(self).candidates,
    {
        if self.scratch.best.has_notvisited_node() {
            self.phase = Phase::Frontier;
        } else {
            self.phase = Phase::Done;
        }
    }

    /// Turns to the next rejected node, or ends the hop.
    fn enter_candidate(&mut self)
        requires
            old(self).scratch.best.wf(),
            old(self).next <= old(self).candidates@.len(),
        ensures
            final(self)@ == old(self)@.next_candidate(),
            final(self).scratch == old(self).scratch,
            final(self).next_start == old(self).next_start,
            final(self).start_ids == old(self).start_ids,
            final(self).next == old(self).next,
            final(self).candidates == old(self).candidates,
    {
        if self.next >= self.candidates.len() || self.hop_match_count >= self.config.match_limit {
            self.enter_frontier();
            return;
        }
        let candidate: Neighbor = self.candidates[self.next];
        assert(candidate == self@.pending[0]);
        if let Some(worst) = self.worst {
            if self.next >= self.config.max_degree / 4 && candidate.distance.is_greater(worst) {
                self.enter_frontier();
                return;
            }
        }
        self.phase = Phase::Candidate;
    }

    /// Turns to the next start point, or ends the start.
    fn enter_start(&mut self)
        requires
            old(self).scratch.best.wf(),
            old(self).next_start <= old(self).start_ids@.len(),
        ensures
            final(self)@ == old(self)@.to_start(),
            final(self).scratch.best == old(self).scratch.best,
            final(self).next_start == old(self).next_start,
            final(self).start_ids == old(self).start_ids,
            final(self).next == old(self).next,
            final(self).candidates == old(self).candidates,
    {
        if self.next_start >= self.start_ids.len() {
            self.enter_frontier();
        } else {
            self.scratch.visited.insert(self.start_ids[self.next_start]);
            self.phase = Phase::StartPoint;
        }
    }

    /// Takes the ids of the start points.
    fn take_start_ids(&mut self, ids: Vec<u32>)
        requires
            old(self).wf(),
            old(self)@.phase is Start,
        ensures
            final(self).wf(),
            final(self)@ == old(self)@.after_start_ids(ids@),
    {
        self.start_ids = ids;
        self.next_start = 0;
        assert(self@.starts =~= ids@);
        self.enter_start();
    }

    /// Takes a start point.
    fn take_start_point(&mut self, distance: Distance)
        requires
            old(self).wf(),
            old(self)@.phase is StartPoint,
            old(self)@.scratch.comparisons < u32::MAX,
        ensures
            final(self).wf(),
            final(self)@ == old(self)@.after_start_point(distance),
    {
        let ghost rest = self@.starts.drop_first();
        let id: u32 = self.start_ids[self.next_start];
        assert(id == self@.starts[0] && self.next_start < self.start_ids.len());
        self.scratch.best.insert(Neighbor::new(id, distance));
        self.scratch.comparisons = self.scratch.comparisons + 1;
        self.next_start = self.next_start + 1;
        proof {
            self.scratch.best.lemma_wf();
            assert(self@.starts =~= rest);
        }
        self.enter_start();
    }

    /// Takes the answer whether to end early.
    fn take_poll(&mut self, stop: bool)
        requires
            old(self).wf(),
            old(self)@.phase is Frontier || old(self)@.phase is Candidate,
        ensures
            final(self).wf(),
            final(self)@ == old(self)@.after_poll(stop),
    {
        if let Phase::Candidate = self.phase {
            if stop {
                self.enter_frontier();
            } else {
                self.phase = Phase::TwoHop;
            }
        } else if stop {
            self.phase = Phase::Done;
        } else {
            self.scratch.beam_nodes = self.scratch.best.take_beam(self.config.beam_width);
            self.phase = Phase::OneHop;
            self.candidates = Vec::new();
            self.next = 0;
            self.hop_match_count = 0;
            self.worst = None;
            proof {
                self.scratch.best.lemma_wf();
                lemma_beam_len(old(self)@.scratch.best, self.config.beam_width as nat);
                assert(self@.pending =~= Seq::empty());
            }
        }
    }

    /// Takes the neighbors of the beam and what was decided about them.
    fn take_one_hop(&mut self, neighbors: &Vec<Neighbor>, decisions: &Vec<QueryVisitDecision>)
        requires
            old(self).wf(),
            old(self)@.phase is OneHop,
            answers(decisions@, neighbors@.len()),
            old(self)@.scratch.comparisons + low32(neighbors@.len() as int) <= u32::MAX,
            old(self)@.scratch.hops + low32(old(self)@.scratch.beam_nodes.len() as int)
                <= u32::MAX,
        ensures
            final(self).wf(),
            final(self)@ == old(self)@.after_one_hop(
                neighbors@,
                decisions@,
                final(self)@.pending,
            ),
            DevState::goes_two_hop(neighbors@, decisions@) ==> {
                &&& sorted_by_distance(final(self)@.pending)
                &&& final(self)@.pending.to_multiset() == rejected(
                    neighbors@,
                    decisions@,
                ).to_multiset()
            },
    {
        let (taken, walk) = partition(neighbors, decisions);
        let matched: usize = taken.len();
        self.scratch.best.insert_all(&taken);
        self.hop_match_count = matched;
        self.scratch.comparisons = self.scratch.comparisons + low32_of(neighbors.len());
        self.scratch.hops = self.scratch.hops + low32_of(self.scratch.beam_nodes.len());
        proof {
            self.scratch.best.lemma_wf();
        }
        if decisions.len() > 0 {
            if let QueryVisitDecision::Terminate = decisions[decisions.len() - 1] {
                self.phase = Phase::Done;
                return;
            }
        }
        if matched >= neighbors.len() - matched {
            self.enter_frontier();
            return;
        }
        self.candidates = sort_by_distance(&walk);
        self.next = 0;
        let size: usize = self.scratch.best.size();
        self.worst = if size >= self.config.k {
            Some(self.scratch.best.get(size - 1).distance)
        } else {
            None
        };
        assert(self@.pending =~= self.candidates@);
        self.enter_candidate();
    }

    /// Takes the matching neighbors of a rejected node.
    fn take_two_hop(&mut self, neighbors: &Vec<Neighbor>)
        requires
            old(self).wf(),
            old(self)@.phase is TwoHop,
            old(self)@.scratch.comparisons + low32(neighbors@.len() as int) <= u32::MAX,
            old(self)@.scratch.hops < u32::MAX,
            old(self)@.hop_match_count + neighbors@.len() <= usize::MAX,
        ensures
            final(self).wf(),
            final(self)@ == old(self)@.after_two_hop(neighbors@),
    {
        let ghost rest = self@.pending.drop_first();
        assert(self.next < self.candidates.len());
        self.hop_match_count = self.hop_match_count + neighbors.len();
        self.scratch.comparisons = self.scratch.comparisons + low32_of(neighbors.len());
        self.scratch.hops = self.scratch.hops + 1;
        self.scratch.best.insert_all(neighbors);
        self.next = self.next + 1;
        proof {
            self.scratch.best.lemma_wf();
            assert(self@.pending =~= rest);
        }
        self.enter_candidate();
    }

    /// The queue, the visited nodes and the counters.
    pub fn scratch(&self) -> (r: &SearchScratch)
        ensures
            r@ == self@.scratch,
            self.wf() ==> r.best.wf(),
    {
        &self.scratch
    }

    /// The visited nodes, for the predicate that selects the neighbors of a node
    /// while it is expanded.
    pub fn visited_mut(&mut self) -> (r: &mut VisitedSet)
        ensures
            r@ == old(self)@.scratch.visited,
            final(self)@ == old(self)@.with_visited(final(r)@),
            old(self).wf() ==> final(self).wf(),
    {
        &mut self.scratch.visited
    }

    /// Gives the queue, the visited nodes and the counters back.
    pub fn into_scratch(self) -> (r: SearchScratch)
        ensures
            r@ == self@.scratch,
            self.wf() ==> r.best.wf(),
    {
        self.scratch
    }

    /// What the search needs next.
    pub fn action(&self) -> (action: Action)
        requires
            self.wf(),
        ensures
            self@.needs(action),
            self@.phase is Start ==> action is FetchStartIds,
            self@.phase is StartPoint ==> action == Action::FetchStartPoint(self@.starts[0]),
            self@.phase is Frontier || self@.phase is Candidate ==> action is PollTermination,
            self@.phase is OneHop ==> (action matches Action::ExpandBeam(beam) && beam@
                == self@.scratch.beam_nodes),
            self@.phase is TwoHop ==> action == Action::ExpandCandidate(self@.pending[0].id),
            self@.phase is Done ==> (action matches Action::Finish(stats) && stats.comparisons
                == self@.scratch.comparisons && stats.hops == self@.scratch.hops
                && !stats.range_search_second_round),
    {
        match self.phase {
            Phase::Start => Action::FetchStartIds,
            Phase::StartPoint => {
                assert(self.start_ids@[self.next_start as int] == self@.starts[0]);
                Action::FetchStartPoint(self.start_ids[self.next_start])
            },
            Phase::Frontier | Phase::Candidate => Action::PollTermination,
            Phase::OneHop => Action::ExpandBeam(copy_neighbors(&self.scratch.beam_nodes)),
            Phase::TwoHop => {
                assert(self.candidates@[self.next as int] == self@.pending[0]);
                Action::ExpandCandidate(self.candidates[self.next].id)
            },
            Phase::Done => Action::Finish(self.scratch.make_stats()),
        }
    }

    /// Whether the counters have room for what `event` adds.
    pub fn has_room(&self, event: &Event) -> (r: bool)
        requires
            self.wf(),
        ensures
            r == self@.fits(*event),
            r == match *event {
                Event::StartIds(_) => true,
                Event::StartPoint(_) => self@.scratch.comparisons + 1 <= u32::MAX,
                Event::EarlyTermination(_) => true,
                Event::OneHop { neighbors, .. } => self@.scratch.comparisons + neighbors@.len()
                    as int % 0x1_0000_0000 <= u32::MAX && self@.scratch.hops
                    + self@.scratch.beam_nodes.len() as int % 0x1_0000_0000 <= u32::MAX,
                Event::TwoHop(neighbors) => self@.scratch.comparisons + neighbors@.len() as int
                    % 0x1_0000_0000 <= u32::MAX && self@.scratch.hops + 1 <= u32::MAX
                    && self@.hop_match_count + neighbors@.len() <= usize::MAX,
            },
    {
        match event {
            Event::StartIds(_) => true,
            Event::StartPoint(_) => self.scratch.comparisons < u32::MAX,
            Event::EarlyTermination(_) => true,
            Event::OneHop { neighbors, decisions: _ } => low32_of(neighbors.len()) <= u32::MAX
                - self.scratch.comparisons && low32_of(self.scratch.beam_nodes.len()) <= u32::MAX
                - self.scratch.hops,
            Event::TwoHop(neighbors) => low32_of(neighbors.len()) <= u32::MAX
                - self.scratch.comparisons && self.scratch.hops < u32::MAX && neighbors.len()
                <= usize::MAX - self.hop_match_count,
        }
    }

    /// Goes on with the answer to the last action.
    pub fn step(&mut self, event: Event)
        requires
            old(self).wf(),
            old(self)@.expects(event),
            old(self)@.fits(event),
        ensures
            final(self).wf(),
            old(self)@.steps_to(event, final(self)@),
    {
        match event {
            Event::StartIds(ids) => self.take_start_ids(ids),
            Event::StartPoint(distance) => self.take_start_point(distance),
            Event::EarlyTermination(stop) => self.take_poll(stop),
            Event::OneHop { neighbors, decisions } => self.take_one_hop(&neighbors, &decisions),
            Event::TwoHop(neighbors) => self.take_two_hop(&neighbors),
        }
    }
}

/// The share of matching points that is assumed where the filter does not know it.
pub open spec fn assumed_selectivity(known: Option<Selectivity>) -> Selectivity {
    match known {
        Some(s) => s,
        None => Selectivity { matching: 1, total: 10 },
    }
}

/// How many matches make further two-hop expansion of a hop pointless: the
/// degree scaled by the selectivity, but an eighth of the degree at least.
pub open spec fn match_limit(max_degree: usize, scaled_degree: usize) -> usize {
    if scaled_degree >= max_degree / 8 {
        scaled_degree
    } else {
        max_degree / 8
    }
}

/// Parameters of a label-filtered search by multi-hop expansion.
#[derive(Debug)]
pub struct MultihopSearchDev<'q, L: QueryLabelProvider + ?Sized> {
    /// Base graph search parameters.
    pub inner: Knn,
    /// Label evaluator for determining node matches.
    pub label_evaluator: &'q L,
}

impl<'q, L: QueryLabelProvider + ?Sized> MultihopSearchDev<'q, L> {
    /// Creates the parameters.
    pub fn new(inner: Knn, label_evaluator: &'q L) -> (r: Self)
        ensures
            r.inner == inner,
            r.label_evaluator == label_evaluator,
    {
        MultihopSearchDev { inner, label_evaluator }
    }

    /// The share of points that match the filter, one in ten where it is not known.
    pub fn selectivity(&self) -> (r: Selectivity)
        ensures
            r == assumed_selectivity(self.label_evaluator.selectivity()),
            self.label_evaluator.selectivity() matches Some(s) ==> r == s,
            self.label_evaluator.selectivity() is None ==> r.matching == 1 && r.total == 10,
    {
        match self.label_evaluator.global_selectivity() {
            Some(s) => s,
            None => Selectivity { matching: 1, total: 10 },
        }
    }

    /// Begins a search on `scratch`. `scaled_degree` is `max_degree` times the
    /// square root of the selectivity, rounded down. The start points are fetched
    /// only where `scratch` has not visited any node, so that a search can be
    /// taken up again.
    pub fn begin(&self, max_degree: usize, scaled_degree: usize, scratch: SearchScratch) -> (
        search: DevSearch)
        requires
            scratch.best.wf(),
        ensures
            search.wf(),
            search@ == DevState::initial(
                DevConfig {
                    k: self.inner.spec_k(),
                    beam_width: self.inner.spec_width(),
                    max_degree,
                    match_limit: match_limit(max_degree, scaled_degree),
                },
                scratch@,
            ),
            search@.config.k == self.inner.spec_k(),
            search@.config.beam_width == self.inner.spec_width(),
            search@.config.max_degree == max_degree,
            search@.config.match_limit >= scaled_degree,
            search@.config.match_limit >= max_degree / 8,
            search@.config.match_limit == scaled_degree || search@.config.match_limit == max_degree
                / 8,
            search@.scratch == scratch@,
            search@.phase is Start <==> scratch@.visited == Set::<u32>::empty(),
    {
        let config = DevConfig {
            k: self.inner.k_value(),
            beam_width: self.inner.beam_width(),
            max_degree,
            match_limit: if scaled_degree >= max_degree / 8 {
                scaled_degree
            } else {
                max_degree / 8
            },
        };
        proof {
            scratch.best.lemma_wf();
        }
        let fresh: bool = scratch.visited.is_empty();
        let mut search = DevSearch {
            scratch,
            config,
            phase: Phase::Start,
            start_ids: Vec::new(),
            next_start: 0,
            candidates: Vec::new(),
            next: 0,
            hop_match_count: 0,
            worst: None,
        };
        assert(search@.pending =~= Seq::empty());
        assert(search@.starts =~= Seq::empty());
        if !fresh {
            search.enter_frontier();
        }
        search
    }

    /// The neighbors that the search hands on, closest first: as many as it
    /// keeps candidates, or all where it found fewer.
    pub fn results(&self, search: &DevSearch) -> (list: Vec<Neighbor>)
        ensures
            list@ == search@.scratch.best.neighbors().take(
                if self.inner.spec_l() <= search@.scratch.best.size() {
                    self.inner.spec_l() as int
                } else {
                    search@.scratch.best.size() as int
                },
            ),
            search.wf() ==> in_rank_order(list@),
            list@.len() == if self.inner.spec_l() <= search@.scratch.best.entries.len() {
                self.inner.spec_l() as nat
            } else {
                search@.scratch.best.entries.len()
            },
            forall|i: int|
                0 <= i < list@.len() ==> (#[trigger] list@[i])
                    == search@.scratch.best.entries[i].neighbor,
    {
        search.scratch.best.closest(self.inner.l_value())
    }
}

} // verus!
