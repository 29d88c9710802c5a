//! What each answer does to a [`crate::multihop_search_dev::DevSearch`], and when a hop
//! walks through rejected nodes.

use vstd::prelude::*;
use crate::label::{accept_count, accepted, answers, law_parted, reject_count, rejected};
use crate::label::QueryVisitDecision;
use crate::multihop_search_dev::{match_limit, DevConfig, DevState, Event};
use crate::multihop_search_dev_laws::{is_run, law_run};
use crate::neighbor::Neighbor;
use crate::queue::QueueView;
use crate::scratch::ScratchView;

verus! {

/// Whether the queue has an entry that is not visited.
pub open spec fn has_open(queue: QueueView) -> bool {
    exists|i: int| 0 <= i < queue.entries.len() && !(#[trigger] queue.entries[i]).visited
}

/// Whether the last of the decisions ends the search.
pub open spec fn is_ended(decisions: Seq<QueryVisitDecision>) -> bool {
    decisions.len() > 0 && decisions[decisions.len() - 1] is Terminate
}

/// Whether a step leaves the search where a hop is over: before the next hop where the
/// queue has an entry that is not visited, else at the end.
pub open spec fn hop_over(post: DevState) -> bool {
    if has_open(post.scratch.best) {
        post.phase is Frontier
    } else {
        post.phase is Done
    }
}

/// The match limit of a hop is the larger one of the scaled degree and an eighth of the
/// degree.
pub proof fn law_match_limit(max_degree: usize, scaled_degree: usize)
    ensures
        match_limit(max_degree, scaled_degree) >= scaled_degree,
        match_limit(max_degree, scaled_degree) >= max_degree / 8,
        match_limit(max_degree, scaled_degree) == scaled_degree || match_limit(
            max_degree,
            scaled_degree,
        ) == max_degree / 8,
{
}

/// More selective filters do not raise the match limit of a hop: it grows with the scaled
/// degree, and with the degree.
pub proof fn law_match_limit_grows(d: usize, e: usize, s: usize, t: usize)
    requires
        d <= e,
        s <= t,
    ensures
        match_limit(d, s) <= match_limit(e, t),
{
}

/// A search begins with nothing pending. It asks for start points exactly where no node
/// has been visited, and else goes on with the queue as it is.
pub proof fn law_begins(config: DevConfig, scratch: ScratchView)
    ensures
        ({
            let state = DevState::initial(config, scratch);
            &&& state.scratch == scratch
            &&& state.config == config
            &&& state.starts.len() == 0
            &&& state.pending.len() == 0
            &&& state.expansions == 0
            &&& state.hop_match_count == 0
            &&& state.worst is None
            &&& (forall|id: u32| !(#[trigger] scratch.visited.contains(id))) ==> state.phase
                is Start
            &&& (exists|id: u32| #[trigger] scratch.visited.contains(id)) ==> hop_over(state)
        }),
{
    if forall|id: u32| !(#[trigger] scratch.visited.contains(id)) {
        assert(scratch.visited =~= Set::empty());
    }
}

/// The start points are taken in order. Each is visited before it is fetched, and
/// queued and counted when it comes in; the first hop follows the last of them.
pub proof fn law_start_step(pre: DevState, event: Event, post: DevState)
    requires
        pre.valid(),
        pre.expects(event),
        pre.steps_to(event, post),
        event is StartIds || event is StartPoint,
    ensures
        event matches Event::StartIds(ids) ==> {
            &&& post.starts == ids@
            &&& post.scratch.best == pre.scratch.best
            &&& post.scratch.comparisons == pre.scratch.comparisons
        },
        event matches Event::StartPoint(distance) ==> {
            &&& post.starts.len() == pre.starts.len() - 1
            &&& forall|i: int|
                0 <= i < post.starts.len() ==> (#[trigger] post.starts[i]) == pre.starts[i + 1]
            &&& post.scratch.best == pre.scratch.best.insert(
                Neighbor { id: pre.starts[0], distance },
            )
            &&& post.scratch.comparisons == pre.scratch.comparisons + 1
        },
        post.starts.len() > 0 ==> post.phase is StartPoint && post.scratch.visited
            == pre.scratch.visited.insert(post.starts[0]),
        post.starts.len() == 0 ==> hop_over(post) && post.scratch.visited == pre.scratch.visited,
        post.scratch.hops == pre.scratch.hops,
        post.scratch.beam_nodes == pre.scratch.beam_nodes,
        post.config == pre.config,
        post.pending == pre.pending,
        post.worst == pre.worst,
{
}

/// An early end before a hop ends the search; one before a walk ends the walk. Otherwise
/// the closest unvisited entries of the queue are taken for a new hop, or the walk
/// goes on with the first node that is pending.
pub proof fn law_poll_step(pre: DevState, stop: bool, post: DevState)
    requires
        pre.valid(),
        pre.phase is Frontier || pre.phase is Candidate,
        pre.steps_to(Event::EarlyTermination(stop), post),
    ensures
        post.config == pre.config,
        post.scratch.visited == pre.scratch.visited,
        post.scratch.comparisons == pre.scratch.comparisons,
        post.scratch.hops == pre.scratch.hops,
        pre.phase is Frontier && stop ==> post.phase is Done && post.scratch == pre.scratch,
        pre.phase is Candidate && stop ==> hop_over(post) && post.scratch == pre.scratch,
        pre.phase is Candidate && !stop ==> {
            &&& post.phase is TwoHop
            &&& post.scratch == pre.scratch
            &&& post.pending == pre.pending
            &&& post.expansions == pre.expansions
            &&& post.hop_match_count == pre.hop_match_count
            &&& post.worst == pre.worst
        },
        pre.phase is Frontier && !stop ==> {
            &&& post.phase is OneHop
            &&& post.scratch.beam_nodes == pre.scratch.best.beam(pre.config.beam_width as nat)
            &&& post.scratch.best == pre.scratch.best.after_beam(pre.config.beam_width as nat)
            &&& post.pending.len() == 0
            &&& post.expansions == 0
            &&& post.hop_match_count == 0
            &&& post.worst is None
        },
{
}

/// What the neighbors of a beam lead to. All of them count as compared, and the beam as
/// expanded; the accepted ones are queued. A decision to terminate ends the search.
/// Otherwise, where at least half of the neighbors were accepted, the hop is over and
/// no rejected neighbor is pending. Where fewer were, all the rejected ones are pending,
/// closest first, and the walk goes to the first of them, unless enough were accepted or
/// the queue, holding as many neighbors as are asked for, ends before it and no walk
/// beyond that is allowed for.
pub proof fn law_one_hop_step(
    pre: DevState,
    neighbors: Vec<Neighbor>,
    decisions: Vec<QueryVisitDecision>,
    post: DevState,
)
    requires
        pre.valid(),
        pre.phase is OneHop,
        answers(decisions@, neighbors@.len()),
        pre.steps_to(Event::OneHop { neighbors, decisions }, post),
    ensures
        post.config == pre.config,
        post.scratch.visited == pre.scratch.visited,
        post.scratch.beam_nodes == pre.scratch.beam_nodes,
        post.scratch.comparisons == pre.scratch.comparisons + neighbors@.len() as int
            % 0x1_0000_0000,
        post.scratch.hops == pre.scratch.hops + pre.scratch.beam_nodes.len() as int
            % 0x1_0000_0000,
        post.scratch.best == pre.scratch.best.insert_all(
            decisions@.filter(|d: QueryVisitDecision| d is Accept).map_values(
                |d: QueryVisitDecision| d->Accept_0,
            ),
        ),
        post.hop_match_count == accept_count(decisions@),
        post.expansions == 0,
        is_ended(decisions@) ==> post.phase is Done,
        !is_ended(decisions@) && 2 * accept_count(decisions@) >= neighbors@.len() ==> hop_over(post)
            && post.pending.len() == 0,
        !is_ended(decisions@) && 2 * accept_count(decisions@) < neighbors@.len() ==> {
            &&& post.pending.len() == reject_count(decisions@)
            &&& post.pending.to_multiset() == Seq::new(decisions@.len(), |i: int| i).filter(
                |i: int| decisions@[i] is Reject,
            ).map_values(|i: int| neighbors@[i]).to_multiset()
            &&& forall|i: int, j: int|
                0 <= i < j < post.pending.len() ==> (#[trigger] post.pending[i]).distance.rank() <= (
                #[trigger] post.pending[j]).distance.rank()
            &&& forall|i: int|
                0 <= i < decisions@.len() && decisions@[i] is Reject ==> post.pending.len() > 0
                    && post.pending[0].distance.rank() <= (
                #[trigger] neighbors@[i]).distance.rank()
            &&& post.scratch.best.entries.len() < pre.config.k ==> post.worst is None
            &&& post.scratch.best.entries.len() >= pre.config.k ==> post.worst == Some(
                post.scratch.best.entries[post.scratch.best.entries.len()
                    - 1].neighbor.distance,
            )
            &&& if post.pending.len() > 0 && accept_count(decisions@) < pre.config.match_limit && (
            post.scratch.best.entries.len() < pre.config.k || pre.config.max_degree >= 4
                || !post.pending[0].distance.exceeds(
                post.scratch.best.entries[post.scratch.best.entries.len() - 1].neighbor.distance,
            )) {
                post.phase is Candidate
            } else {
                hop_over(post)
            }
        },
{
    law_parted(neighbors@, decisions@);
    let queue = pre.scratch.best.insert_all(accepted(decisions@));
    assert(post.scratch.best == queue);
    assert(pre.config.max_degree / 4 == 0 <==> pre.config.max_degree < 4);
    if !is_ended(decisions@) && 2 * accept_count(decisions@) < neighbors@.len() {
        let walk = rejected(neighbors@, decisions@);
        walk.to_multiset_ensures();
        post.pending.to_multiset_ensures();
        assert forall|i: int|
            0 <= i < decisions@.len() && decisions@[i] is Reject implies post.pending.len() > 0
            && post.pending[0].distance.rank() <= (#[trigger] neighbors@[i]).distance.rank() by {
            lemma_is_rejected(neighbors@, decisions@, i);
            assert(walk.contains(neighbors@[i]));
            assert(walk.to_multiset().count(neighbors@[i]) > 0);
            assert(post.pending.contains(neighbors@[i]));
            let k = post.pending.index_of(neighbors@[i]);
            assert(post.pending[k] == neighbors@[i]);
        }
    }
}

/// A neighbor with a decision to reject is one of the rejected.
pub proof fn lemma_is_rejected(
    neighbors: Seq<Neighbor>,
    decisions: Seq<QueryVisitDecision>,
    i: int,
)
    requires
        0 <= i < decisions.len() <= neighbors.len(),
        decisions[i] is Reject,
    ensures
        rejected(neighbors, decisions).contains(neighbors[i]),
    decreases decisions.len(),
{
    let all = rejected(neighbors, decisions);
    let front = rejected(neighbors, decisions.drop_last());
    if i == decisions.len() - 1 {
        assert(all == front.push(neighbors[i]));
        assert(all[front.len() as int] == neighbors[i]);
    } else {
        lemma_is_rejected(neighbors, decisions.drop_last(), i);
        let k = front.index_of(neighbors[i]);
        assert(front[k] == neighbors[i]);
        assert(all[k] == neighbors[i]);
    }
}

/// What the matching neighbors of a rejected node lead to. They count as compared and as
/// matches of the hop, the node counts as expanded, and they are queued. The walk goes
/// to the next pending node, unless the hop has found enough matches, or the node lies
/// beyond the queue as it was when the walk began and a quarter of the degree has been
/// walked through.
pub proof fn law_two_hop_step(pre: DevState, neighbors: Vec<Neighbor>, post: DevState)
    requires
        pre.valid(),
        pre.phase is TwoHop,
        pre.steps_to(Event::TwoHop(neighbors), post),
    ensures
        post.config == pre.config,
        post.scratch.visited == pre.scratch.visited,
        post.scratch.beam_nodes == pre.scratch.beam_nodes,
        post.scratch.comparisons == pre.scratch.comparisons + neighbors@.len() as int
            % 0x1_0000_0000,
        post.scratch.hops == pre.scratch.hops + 1,
        post.scratch.best == pre.scratch.best.insert_all(neighbors@),
        post.hop_match_count == pre.hop_match_count + neighbors@.len(),
        post.expansions == pre.expansions + 1,
        post.worst == pre.worst,
        pre.pending.len() > 0,
        post.pending.len() == pre.pending.len() - 1,
        forall|i: int|
            0 <= i < post.pending.len() ==> (#[trigger] post.pending[i]) == pre.pending[i + 1],
        if post.pending.len() > 0 && pre.hop_match_count + neighbors@.len() < pre.config.match_limit
            && !(pre.expansions + 1 >= pre.config.max_degree / 4 && (pre.worst matches Some(w)
            && post.pending[0].distance.exceeds(w))) {
            post.phase is Candidate
        } else {
            hop_over(post)
        },
{
}

/// A search ends only by a decision to terminate, by an early end before a hop, or where
/// no entry of its queue is unvisited.
pub proof fn law_ends_only(pre: DevState, event: Event, post: DevState)
    requires
        pre.valid(),
        pre.expects(event),
        pre.steps_to(event, post),
    ensures
        post.phase is Done ==> {
            ||| !has_open(post.scratch.best)
            ||| pre.phase is Frontier && event == Event::EarlyTermination(true)
            ||| event matches Event::OneHop { decisions, .. } && is_ended(decisions@)
        },
        event matches Event::OneHop { decisions, .. } ==> (is_ended(decisions@) ==> post.phase
            is Done),
        pre.phase is Frontier && event == Event::EarlyTermination(true) ==> post.phase is Done,
{
}

/// A node that is expanded on the walk of a hop is one that this hop rejected; the hop had
/// fewer matches among its neighbors than other neighbors, and no decision to terminate.
/// The nodes are expanded from the closest to the farthest. Event `i` is that of the
/// hop's beam, and event `j` that of the expansion.
pub proof fn law_walks_own_rejected(
    pre: Seq<DevState>,
    events: Seq<Event>,
    post: Seq<DevState>,
    i: int,
    j: int,
)
    requires
        is_run(pre, events, post),
        0 <= i < j < events.len(),
        events[i] is OneHop,
        forall|m: int| i < m <= j ==> !((#[trigger] events[m]) is OneHop),
        events[j] is TwoHop,
    ensures
        2 * accept_count(events[i]->decisions@) < events[i]->neighbors@.len(),
        !is_ended(events[i]->decisions@),
        rejected(events[i]->neighbors@, events[i]->decisions@).contains(pre[j].pending[0]),
        forall|m: int|
            i < m < j && (#[trigger] events[m]) is TwoHop
                ==> pre[m].pending[0].distance.rank() <= pre[j].pending[0].distance.rank(),
{
    let neighbors = events[i]->neighbors;
    let decisions = events[i]->decisions;
    law_run(pre, events, post, i);
    assert(pre[i].expects(events[i]) && pre[i].steps_to(events[i], post[i]));
    law_one_hop_step(pre[i], neighbors, decisions, post[i]);
    law_parted(neighbors@, decisions@);
    lemma_walk(pre, events, post, i, j - 1);
    assert(pre[j] == post[j - 1].with_visited(pre[j].scratch.visited));
    assert(pre[j].expects(events[j]));
    law_run(pre, events, post, j);
    let first = post[i].pending;
    let walk = rejected(neighbors@, decisions@);
    walk.to_multiset_ensures();
    first.to_multiset_ensures();
    let n = pre[j].expansions as int;
    assert(pre[j].pending[0] == first[n]);
    assert(first.contains(first[n]));
    assert(first.to_multiset().count(first[n]) > 0);
    assert forall|m: int| i < m < j && (#[trigger] events[m]) is TwoHop implies
        pre[m].pending[0].distance.rank() <= pre[j].pending[0].distance.rank() by {
        lemma_walk(pre, events, post, i, m - 1);
        assert(pre[m] == post[m - 1].with_visited(pre[m].scratch.visited));
        assert(pre[m].expects(events[m]));
        law_run(pre, events, post, m);
        assert(pre[m].pending[0] == first[pre[m].expansions as int]);
        lemma_walk_grows(pre, events, post, i, m, j);
    }
}

/// The walk of a hop goes through what was pending after its beam.
proof fn lemma_walk(
    pre: Seq<DevState>,
    events: Seq<Event>,
    post: Seq<DevState>,
    i: int,
    at: int,
)
    requires
        is_run(pre, events, post),
        0 <= i <= at < events.len(),
        events[i] is OneHop,
        forall|m: int| i < m <= at ==> !((#[trigger] events[m]) is OneHop),
    ensures
        post[at].phase is Candidate || post[at].phase is TwoHop ==> {
            &&& post[at].expansions <= post[i].pending.len()
            &&& post[at].pending == post[i].pending.skip(post[at].expansions as int)
            &&& !is_ended(events[i]->decisions@)
            &&& 2 * accept_count(events[i]->decisions@) < events[i]->neighbors@.len()
        },
        !(post[at].phase is Start || post[at].phase is StartPoint),
    decreases at - i,
{
    law_run(pre, events, post, at);
    assert(pre[at].expects(events[at]) && pre[at].steps_to(events[at], post[at]));
    if at == i {
        law_one_hop_step(pre[i], events[i]->neighbors, events[i]->decisions, post[i]);
        assert(post[i].pending.skip(0) =~= post[i].pending);
    } else {
        lemma_walk(pre, events, post, i, at - 1);
        assert(pre[at] == post[at - 1].with_visited(pre[at].scratch.visited));
        if let Event::TwoHop(neighbors) = events[at] {
            let n = pre[at].expansions as int;
            assert(post[at].pending =~= post[i].pending.skip(n + 1));
        }
    }
}

/// The walk of a hop only goes forward.
proof fn lemma_walk_grows(
    pre: Seq<DevState>,
    events: Seq<Event>,
    post: Seq<DevState>,
    i: int,
    from: int,
    to: int,
)
    requires
        is_run(pre, events, post),
        0 <= i < from < to < events.len(),
        events[i] is OneHop,
        forall|m: int| i < m <= to ==> !((#[trigger] events[m]) is OneHop),
        pre[from].phase is TwoHop,
        pre[to].phase is Candidate || pre[to].phase is TwoHop,
    ensures
        pre[from].expansions < pre[to].expansions || from == to,
        pre[from].expansions <= pre[to].expansions,
    decreases to - from,
{
    assert(pre[to] == post[to - 1].with_visited(pre[to].scratch.visited));
    assert(pre[to - 1].expects(events[to - 1]) && pre[to - 1].steps_to(
        events[to - 1],
        post[to - 1],
    ));
    assert(!(events[to - 1] is OneHop));
    if to - 1 > from {
        lemma_walk_grows(pre, events, post, i, from, to - 1);
    }
}

} // verus!
