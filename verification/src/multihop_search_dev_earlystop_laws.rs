//! What holds of every run of a [`crate::multihop_search_dev_earlystop::EarlyStopSearch`].

use vstd::prelude::*;
use crate::label::{accepted, lemma_accepted, QueryVisitDecision};
use crate::multihop_search_dev_earlystop::{enqueued, EarlyStopState, Event, HopView};
use crate::multihop_search_dev_earlystop::MAX_HOPS_WITHOUT_MATCH;
use crate::neighbor::{ids_of, Neighbor};
use crate::queue::{lemma_beam_len, QueueView};
use crate::queue_laws::{beam_count, law_beams_bounded};
use crate::queue_laws::{law_holds_only_offered, law_insert_all, law_keeps_closest};
use crate::queue_laws::{lemma_offer_one, law_taken_bounded, law_taken_once, law_take_beam};
use crate::queue_laws::{offered_count, taken_count, unvisited_count, QueueOp};
use crate::scratch::low32;

verus! {

/// The neighbors that an event offers to the queue.
pub open spec fn offered(state: EarlyStopState, event: Event) -> Seq<Neighbor> {
    match event {
        Event::StartIds(_) => Seq::empty(),
        Event::StartPoint(distance) => seq![state.start_neighbor(distance)],
        Event::EarlyTermination(_) => Seq::empty(),
        Event::OneHop { decisions, .. } => accepted(decisions@),
        Event::TwoHop(neighbors) => neighbors@,
    }
}

/// What an event does to the queue.
pub open spec fn queue_op(state: EarlyStopState, event: Event) -> QueueOp {
    match event {
        Event::EarlyTermination(stop) => if !stop {
            QueueOp::TakeBeam(state.config.beam_width as nat)
        } else {
            QueueOp::Offer(Seq::empty())
        },
        _ => QueueOp::Offer(offered(state, event)),
    }
}

/// How many distances an event adds to the counter.
pub open spec fn compared_by(event: Event) -> int {
    match event {
        Event::StartIds(_) => 0,
        Event::StartPoint(_) => 0,
        Event::EarlyTermination(_) => 0,
        Event::OneHop { neighbors, .. } => low32(neighbors@.len() as int),
        Event::TwoHop(neighbors) => low32(neighbors@.len() as int),
    }
}

/// How many expanded nodes an event adds to the counter.
pub open spec fn expanded_by(state: EarlyStopState, event: Event) -> int {
    match event {
        Event::OneHop { .. } => low32(state.scratch.beam_nodes.len() as int),
        Event::TwoHop(_) => low32(state.pending.len() as int),
        _ => 0,
    }
}

/// The distances that all the events add to the counter.
pub open spec fn total_compared(events: Seq<Event>) -> int
    decreases events.len(),
{
    if events.len() == 0 {
        0
    } else {
        total_compared(events.drop_last()) + compared_by(events.last())
    }
}

/// The expanded nodes that all the events add to the counter.
pub open spec fn total_expanded(pre: Seq<EarlyStopState>, events: Seq<Event>) -> int
    decreases events.len(),
{
    if events.len() == 0 {
        0
    } else {
        total_expanded(pre, events.drop_last()) + expanded_by(
            pre[events.len() - 1],
            events.last(),
        )
    }
}

/// Whether the events lead a search from state to state: from `pre[i]` to
/// `post[i]`, between which and `pre[i + 1]` only the visited set changes.
pub open spec fn is_run(pre: Seq<EarlyStopState>, events: Seq<Event>, post: Seq<EarlyStopState>) -> bool {
    &&& events.len() > 0
    &&& pre.len() == events.len()
    &&& post.len() == events.len()
    &&& pre[0].valid()
    &&& forall|i: int|
        0 <= i < events.len() ==> (#[trigger] pre[i]).expects(events[i]) && pre[i].steps_to(
            events[i],
            post[i],
        )
    &&& forall|i: int|
        1 <= i < events.len() ==> (#[trigger] pre[i]) == post[i - 1].with_visited(
            pre[i].scratch.visited,
        )
}

/// What the events do to the queue, one after the other.
pub open spec fn queue_ops(pre: Seq<EarlyStopState>, events: Seq<Event>) -> Seq<QueueOp> {
    Seq::new(events.len(), |i: int| queue_op(pre[i], events[i]))
}

/// Every step leads from a valid state to a valid one, and does to the queue
/// what [`queue_op`] says.
pub proof fn law_step(pre: EarlyStopState, event: Event, post: EarlyStopState)
    requires
        pre.valid(),
        pre.expects(event),
        pre.steps_to(event, post),
    ensures
        post.valid(),
        post.config == pre.config,
        post.scratch.best == pre.scratch.best.apply(queue_op(pre, event)),
{
    match event {
        Event::StartIds(_) => {},
        Event::StartPoint(distance) => {
            lemma_offer_one(pre.scratch.best, pre.start_neighbor(distance));
            law_insert_all(pre.scratch.best, seq![pre.start_neighbor(distance)]);
        },
        Event::EarlyTermination(_) => {
            law_take_beam(pre.scratch.best, pre.config.beam_width as nat);
            lemma_beam_len(pre.scratch.best, pre.config.beam_width as nat);
            assert(post.scratch.best.neighbors().len() == post.scratch.best.size());
            assert(pre.scratch.best.neighbors().len() == pre.scratch.best.size());
        },
        Event::OneHop { neighbors, decisions } => {
            law_insert_all(pre.scratch.best, accepted(decisions@));
        },
        Event::TwoHop(neighbors) => {
            law_insert_all(pre.scratch.best, neighbors@);
        },
    }
}

/// A run only passes through valid states, and its queue has the history of
/// [`queue_ops`].
pub proof fn law_run(pre: Seq<EarlyStopState>, events: Seq<Event>, post: Seq<EarlyStopState>, at: int)
    requires
        is_run(pre, events, post),
        0 <= at < events.len(),
    ensures
        pre[at].valid(),
        post[at].valid(),
        pre[at].config == pre[0].config,
        pre[at].scratch.best == pre[0].scratch.best.apply_all(queue_ops(pre, events).take(at)),
        post[at].scratch.best == pre[0].scratch.best.apply_all(queue_ops(pre, events).take(at + 1)),
    decreases at,
{
    let ops = queue_ops(pre, events);
    if at > 0 {
        law_run(pre, events, post, at - 1);
        assert(pre[at] == post[at - 1].with_visited(pre[at].scratch.visited));
        law_step(pre[at - 1], events[at - 1], post[at - 1]);
    } else {
        assert(ops.take(0) =~= Seq::empty());
    }
    law_step(pre[at], events[at], post[at]);
    assert(ops.take(at + 1).drop_last() =~= ops.take(at));
    assert(ops.take(at + 1).last() == queue_op(pre[at], events[at]));
    assert(pre[0].scratch.best.apply_all(ops.take(at + 1)) == pre[0].scratch.best.apply_all(
        ops.take(at + 1).drop_last(),
    ).apply(ops.take(at + 1).last()));
}

/// Whatever start point, accepted neighbor or two-hop match a search has met is
/// in its queue in the end, or the queue is full of neighbors that are closer.
pub proof fn law_keeps_closest_found(
    pre: Seq<EarlyStopState>,
    events: Seq<Event>,
    post: Seq<EarlyStopState>,
    at: int,
    n: Neighbor,
)
    requires
        is_run(pre, events, post),
        0 <= at < events.len(),
        offered(pre[at], events[at]).contains(n),
    ensures
        post.last().scratch.best.accounts_for(n),
{
    let ops = queue_ops(pre, events);
    law_run(pre, events, post, events.len() - 1);
    assert(ops.take(events.len() as int) =~= ops);
    assert(ops[at] == QueueOp::Offer(offered(pre[at], events[at])));
    law_keeps_closest(pre[0].scratch.best, ops, at, n);
}

/// A search puts only matching nodes into its queue: besides the start points
/// and what the queue began with, every node in it matches, provided that the
/// visits accept only nodes that match and that two-hop expansion reports only
/// nodes that match.
pub proof fn law_finds_only_matches(
    pre: Seq<EarlyStopState>,
    events: Seq<Event>,
    post: Seq<EarlyStopState>,
    matching: Set<u32>,
    n: Neighbor,
)
    requires
        is_run(pre, events, post),
        forall|i: int, d: QueryVisitDecision|
            0 <= i < events.len() && (#[trigger] events[i]) is OneHop
                && #[trigger] events[i]->decisions@.contains(d) ==> (d matches
                QueryVisitDecision::Accept(a) ==> matching.contains(a.id)),
        forall|i: int, m: Neighbor|
            0 <= i < events.len() && (#[trigger] events[i]) is TwoHop
                && #[trigger] events[i]->TwoHop_0@.contains(m) ==> matching.contains(m.id),
        post.last().scratch.best.neighbors().contains(n),
    ensures
        matching.contains(n.id) || pre[0].scratch.best.neighbors().contains(n) || exists|i: int|
            0 <= i < events.len() && (#[trigger] events[i] matches Event::StartPoint(distance)
                && n == pre[i].start_neighbor(distance)),
{
    let ops = queue_ops(pre, events);
    law_run(pre, events, post, events.len() - 1);
    assert(ops.take(events.len() as int) =~= ops);
    law_holds_only_offered(pre[0].scratch.best, ops, n);
    if !pre[0].scratch.best.neighbors().contains(n) {
        let i = choose|i: int|
            0 <= i < ops.len() && (#[trigger] ops[i] matches QueueOp::Offer(list) && list.contains(n));
        assert(ops[i] == queue_op(pre[i], events[i]));
        match events[i] {
            Event::StartIds(_) => {},
            Event::StartPoint(distance) => {
                assert(n == pre[i].start_neighbor(distance));
            },
            Event::EarlyTermination(_) => {},
            Event::OneHop { neighbors, decisions } => {
                lemma_accepted(decisions@);
                let j = choose|j: int|
                    0 <= j < accepted(decisions@).len() && accepted(decisions@)[j] == n;
                let d = QueryVisitDecision::Accept(accepted(decisions@)[j]);
                assert(decisions@.contains(d));
                assert(events[i]->decisions@.contains(d));
            },
            Event::TwoHop(list) => {
                assert(events[i]->TwoHop_0@.contains(n));
            },
        }
    }
}

/// The beams of two hops have no neighbor in common.
pub proof fn law_expands_once(
    pre: Seq<EarlyStopState>,
    events: Seq<Event>,
    post: Seq<EarlyStopState>,
    i: int,
    j: int,
    n: Neighbor,
    m: Neighbor,
)
    requires
        is_run(pre, events, post),
        0 <= i < j < events.len(),
        pre[i].phase is Frontier && post[i].phase is OneHop,
        pre[j].phase is Frontier && post[j].phase is OneHop,
        post[i].scratch.beam_nodes.contains(n),
        post[j].scratch.beam_nodes.contains(m),
    ensures
        !n.ties(m),
{
    let ops = queue_ops(pre, events);
    law_run(pre, events, post, i);
    law_run(pre, events, post, j);
    assert(pre[i].expects(events[i]) && pre[j].expects(events[j]));
    assert(ops[i] == queue_op(pre[i], events[i]));
    assert(ops[j] == queue_op(pre[j], events[j]));
    law_taken_once(pre[0].scratch.best, ops, i, j, n, m);
}

/// A search does not go on forever: over a run it takes no more nodes for
/// expansion than its queue began with and were offered to it, and it takes at
/// least one of them for each hop.
pub proof fn law_expansion_bounded(pre: Seq<EarlyStopState>, events: Seq<Event>, post: Seq<EarlyStopState>)
    requires
        is_run(pre, events, post),
    ensures
        taken_count(pre[0].scratch.best, queue_ops(pre, events)) + unvisited_count(
            post.last().scratch.best.entries,
        ) <= unvisited_count(pre[0].scratch.best.entries) + offered_count(queue_ops(pre, events)),
        beam_count(queue_ops(pre, events)) <= taken_count(
            pre[0].scratch.best,
            queue_ops(pre, events),
        ),
{
    let ops = queue_ops(pre, events);
    law_run(pre, events, post, events.len() - 1);
    assert(ops.take(events.len() as int) =~= ops);
    law_taken_bounded(pre[0].scratch.best, ops);
    assert forall|i: int| 0 <= i < ops.len() implies (#[trigger] ops[i] matches
        QueueOp::TakeBeam(width) ==> width > 0 && pre[0].scratch.best.apply_all(
        ops.take(i),
    ).has_unvisited()) by {
        law_run(pre, events, post, i);
        assert(pre[i].expects(events[i]));
        assert(ops[i] == queue_op(pre[i], events[i]));
    }
    law_beams_bounded(pre[0].scratch.best, ops);
}

/// The counters tell how many distances were computed and how many nodes were
/// expanded since the search began.
pub proof fn law_counts(pre: Seq<EarlyStopState>, events: Seq<Event>, post: Seq<EarlyStopState>)
    requires
        is_run(pre, events, post),
    ensures
        post.last().scratch.comparisons == pre[0].scratch.comparisons + total_compared(events),
        post.last().scratch.hops == pre[0].scratch.hops + total_expanded(pre, events),
    decreases events.len(),
{
    let last = events.len() - 1;
    assert(pre[last].steps_to(events[last], post[last]));
    assert(events.last() == events[last]);
    if last > 0 {
        let short = events.drop_last();
        assert(is_run(pre.drop_last(), short, post.drop_last())) by {
            assert forall|i: int| 0 <= i < short.len() implies (
            #[trigger] pre.drop_last()[i]).expects(short[i]) && pre.drop_last()[i].steps_to(
                short[i],
                post.drop_last()[i],
            ) by {
                assert(pre[i].expects(events[i]));
            }
            assert forall|i: int| 1 <= i < short.len() implies (#[trigger] pre.drop_last()[i])
                == post.drop_last()[i - 1].with_visited(pre.drop_last()[i].scratch.visited) by {
                assert(pre[i] == post[i - 1].with_visited(pre[i].scratch.visited));
            }
        }
        law_counts(pre.drop_last(), short, post.drop_last());
        lemma_total_expanded(pre, pre.drop_last(), short);
        assert(pre[last] == post[last - 1].with_visited(pre[last].scratch.visited));
    } else {
        assert(total_compared(events.drop_last()) == 0);
        assert(total_expanded(pre, events.drop_last()) == 0);
    }
}

/// The expanded nodes only depend on the states that the events meet.
proof fn lemma_total_expanded(a: Seq<EarlyStopState>, b: Seq<EarlyStopState>, events: Seq<Event>)
    requires
        a.len() >= events.len(),
        b.len() >= events.len(),
        forall|i: int| 0 <= i < events.len() ==> #[trigger] a[i] == b[i],
    ensures
        total_expanded(a, events) == total_expanded(b, events),
    decreases events.len(),
{
    if events.len() > 0 {
        lemma_total_expanded(a, b, events.drop_last());
        assert(a[events.len() - 1] == b[events.len() - 1]);
    }
}

/// A search that has met a match ends with the second hop in a row that finds
/// none, where its queue holds more neighbors than are asked for; where the
/// queue holds no more, the search goes on as long as there is a node to expand.
pub proof fn law_stops_when_idle(pre: EarlyStopState, event: Event, post: EarlyStopState)
    requires
        pre.valid(),
        pre.phase is TwoHop,
        pre.steps_to(event, post),
        pre.entered,
        pre.idle_hops + 1 >= MAX_HOPS_WITHOUT_MATCH,
        pre.hop_match_count == 0,
        event matches Event::TwoHop(list) && list@.len() == 0,
    ensures
        pre.scratch.best.size() > pre.config.k ==> post.phase is Done && post.trace == pre.trace,
        pre.scratch.best.size() <= pre.config.k ==> (post.phase is Frontier
            <==> pre.scratch.best.has_unvisited()),
{
}

/// The ids that made it into the queue are ids of what was offered, and distinct
/// where those are.
pub proof fn lemma_enqueued(queue: QueueView, list: Seq<Neighbor>)
    ensures
        forall|i: int|
            0 <= i < enqueued(queue, list).len() ==> ids_of(list).contains(
                #[trigger] enqueued(queue, list)[i],
            ),
        ids_of(list).no_duplicates() ==> enqueued(queue, list).no_duplicates(),
    decreases list.len(),
{
    if list.len() > 0 {
        let before = list.drop_last();
        lemma_enqueued(queue, before);
        if ids_of(list).no_duplicates() {
            assert forall|i: int, j: int|
                0 <= i < ids_of(before).len() && 0 <= j < ids_of(before).len() && i
                    != j implies ids_of(before)[i] != ids_of(before)[j] by {
                assert(ids_of(list)[i] != ids_of(list)[j]);
            }
            assert forall|i: int| 0 <= i < enqueued(queue, before).len() implies enqueued(
                queue,
                before,
            )[i] != list.last().id by {
                let id = enqueued(queue, before)[i];
                assert(ids_of(before).contains(id));
                let k = ids_of(before).index_of(id);
                assert(ids_of(list)[k] == id);
                assert(ids_of(list)[k] != ids_of(list)[list.len() - 1]);
            }
        }
        assert forall|i: int| 0 <= i < enqueued(queue, list).len() implies ids_of(list).contains(
            #[trigger] enqueued(queue, list)[i],
        ) by {
            let id = enqueued(queue, list)[i];
            if i < enqueued(queue, before).len() {
                assert(ids_of(before).contains(enqueued(queue, before)[i]));
                let k = choose|k: int| 0 <= k < ids_of(before).len() && ids_of(before)[k] == id;
                assert(ids_of(list)[k] == id);
            } else {
                assert(ids_of(list)[list.len() - 1] == id);
            }
        }
    }
}

/// Whether all the ids of a record match.
pub open spec fn record_matches(hop: HopView<u32>, matching: Set<u32>) -> bool {
    &&& forall|i: int|
        0 <= i < hop.one_hop_enqueued.len() ==> matching.contains(
            #[trigger] hop.one_hop_enqueued[i],
        )
    &&& forall|i: int|
        0 <= i < hop.two_hop_enqueued.len() ==> matching.contains(
            #[trigger] hop.two_hop_enqueued[i],
        )
}

/// Whether all the ids that a search has recorded match.
pub open spec fn trace_matches(state: EarlyStopState, matching: Set<u32>) -> bool {
    &&& forall|i: int|
        0 <= i < state.one_hop_enqueued.len() ==> matching.contains(
            #[trigger] state.one_hop_enqueued[i],
        )
    &&& forall|i: int|
        0 <= i < state.trace.len() ==> record_matches(#[trigger] state.trace[i], matching)
}

/// The record of a search names only matching nodes, provided that the visits
/// accept only nodes that match and that two-hop expansion reports only nodes
/// that match.
pub proof fn law_trace_matches(
    pre: Seq<EarlyStopState>,
    events: Seq<Event>,
    post: Seq<EarlyStopState>,
    matching: Set<u32>,
    at: int,
)
    requires
        is_run(pre, events, post),
        0 <= at < events.len(),
        trace_matches(pre[0], matching),
        forall|i: int, d: QueryVisitDecision|
            0 <= i < events.len() && (#[trigger] events[i]) is OneHop
                && #[trigger] events[i]->decisions@.contains(d) ==> (d matches
                QueryVisitDecision::Accept(a) ==> matching.contains(a.id)),
        forall|i: int, m: Neighbor|
            0 <= i < events.len() && (#[trigger] events[i]) is TwoHop
                && #[trigger] events[i]->TwoHop_0@.contains(m) ==> matching.contains(m.id),
    ensures
        trace_matches(post[at], matching),
    decreases at,
{
    if at > 0 {
        law_trace_matches(pre, events, post, matching, at - 1);
        assert(pre[at] == post[at - 1].with_visited(pre[at].scratch.visited));
    }
    assert(pre[at].expects(events[at]) && pre[at].steps_to(events[at], post[at]));
    assert(trace_matches(pre[at], matching));
    match events[at] {
        Event::StartIds(_) => {},
        Event::StartPoint(_) => {},
        Event::EarlyTermination(_) => {},
        Event::OneHop { neighbors, decisions } => {
            let taken = accepted(decisions@);
            lemma_accepted(decisions@);
            lemma_enqueued(pre[at].scratch.best, taken);
            let ids = enqueued(pre[at].scratch.best, taken);
            assert forall|i: int| 0 <= i < ids.len() implies matching.contains(
                #[trigger] ids[i],
            ) by {
                assert(ids_of(taken).contains(ids[i]));
                let k = choose|k: int| 0 <= k < ids_of(taken).len() && ids_of(taken)[k] == ids[i];
                let d = QueryVisitDecision::Accept(taken[k]);
                assert(decisions@.contains(QueryVisitDecision::Accept(accepted(decisions@)[k])));
                assert(events[at]->decisions@.contains(d));
            }
        },
        Event::TwoHop(list) => {
            lemma_enqueued(pre[at].scratch.best, list@);
            let ids = enqueued(pre[at].scratch.best, list@);
            assert forall|i: int| 0 <= i < ids.len() implies matching.contains(
                #[trigger] ids[i],
            ) by {
                assert(ids_of(list@).contains(ids[i]));
                let k = choose|k: int| 0 <= k < ids_of(list@).len() && ids_of(list@)[k] == ids[i];
                assert(events[at]->TwoHop_0@.contains(list@[k]));
            }
        },
    }
}

/// A search that is ended before a hop and begun again on what it left goes on
/// with that hop: it expands the same nodes from the same queue. Only its record
/// and its count of idle hops begin anew.
pub proof fn law_resumes(state: EarlyStopState)
    requires
        state.valid(),
        state.phase is Frontier,
        state.scratch.visited != Set::<u32>::empty(),
    ensures
        state.after_poll(true).phase is Done,
        ({
            let again = EarlyStopState::initial(state.config, state.after_poll(true).scratch);
            &&& again.phase is Frontier
            &&& again.after_poll(false) == (EarlyStopState {
                entered: false,
                idle_hops: 0,
                hop_index: 0,
                trace: Seq::empty(),
                ..state.after_poll(false)
            })
        }),
{
}

} // verus!
