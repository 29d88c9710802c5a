//! What each answer does to a
//! [`crate::multihop_search_dev_earlystop::EarlyStopSearch`], when idle hops end it, and
//! what its trace tells of each hop.

use vstd::prelude::*;
use crate::label::{accept_count, accepted, answers, law_parted, reject_count, rejected};
use crate::label::QueryVisitDecision;
use crate::multihop_search_dev_earlystop::{enqueued, EarlyStopConfig, EarlyStopState, Event};
use crate::multihop_search_dev_earlystop_laws::{is_run, law_run};
use crate::multihop_search_dev_step_laws::{has_open, is_ended, lemma_is_rejected};
use crate::neighbor::{sorted_by_distance, Neighbor};
use crate::queue::QueueView;
use crate::scratch::ScratchView;

verus! {

/// Whether a step leaves the search where a hop is over: before the next hop where the
/// queue has an entry that is not visited, else at the end.
pub open spec fn hop_over(post: EarlyStopState) -> bool {
    if has_open(post.scratch.best) {
        post.phase is Frontier
    } else {
        post.phase is Done
    }
}

/// What the accepting decisions hold, in order.
pub open spec fn accepts(decisions: Seq<QueryVisitDecision>) -> Seq<Neighbor> {
    decisions.filter(|d: QueryVisitDecision| d is Accept).map_values(
        |d: QueryVisitDecision| d->Accept_0,
    )
}

/// Whether the queue has an entry with that id.
pub open spec fn has_id(queue: QueueView, id: u32) -> bool {
    exists|e: int| 0 <= e < queue.entries.len() && (#[trigger] queue.entries[e]).neighbor.id == id
}

/// Whether the places are those, in order, of the neighbors of `list` whose ids the queue
/// has right after they are inserted, where the neighbors are inserted one after the other.
pub open spec fn are_kept(queue: QueueView, list: Seq<Neighbor>, places: Seq<int>) -> bool {
    &&& forall|m: int| 0 <= m < places.len() ==> 0 <= #[trigger] places[m] < list.len()
    &&& forall|m: int, n: int|
        0 <= m < n < places.len() ==> (#[trigger] places[m]) < (#[trigger] places[n])
    &&& forall|j: int|
        0 <= j < list.len() ==> (#[trigger] places.contains(j) <==> has_id(
            queue.insert_all(list.take(j + 1)),
            list[j].id,
        ))
}

/// Whether `ids` are, in order, the ids of those neighbors of `list` that the queue has
/// right after they are inserted.
pub open spec fn lists_kept(queue: QueueView, list: Seq<Neighbor>, ids: Seq<u32>) -> bool {
    exists|places: Seq<int>|
        {
            &&& #[trigger] are_kept(queue, list, places)
            &&& places.len() == ids.len()
            &&& forall|m: int| 0 <= m < ids.len() ==> (#[trigger] ids[m]) == list[places[m]].id
        }
}

/// What is recorded as enqueued are the ids, in order, of the neighbors that the queue
/// has right after they are inserted.
pub proof fn law_enqueued(queue: QueueView, list: Seq<Neighbor>)
    ensures
        lists_kept(queue, list, enqueued(queue, list)),
    decreases list.len(),
{
    if list.len() == 0 {
        assert(are_kept(queue, list, Seq::empty()));
    } else {
        let front = list.drop_last();
        let last = list.len() - 1;
        law_enqueued(queue, front);
        let ids = enqueued(queue, front);
        let places = choose|places: Seq<int>|
            {
                &&& #[trigger] are_kept(queue, front, places)
                &&& places.len() == ids.len()
                &&& forall|m: int|
                    0 <= m < ids.len() ==> (#[trigger] ids[m]) == front[places[m]].id
            };
        assert(list.take(last + 1) =~= list);
        let kept = queue.insert_all(list).contains_id(list.last().id);
        let now = if kept {
            places.push(last)
        } else {
            places
        };
        assert(are_kept(queue, list, now)) by {
            assert forall|m: int| 0 <= m < now.len() implies 0 <= #[trigger] now[m]
                < list.len() by {
                if m < places.len() {
                    assert(now[m] == places[m]);
                }
            }
            assert forall|m: int, n: int| 0 <= m < n < now.len() implies (#[trigger] now[m]) < (
            #[trigger] now[n]) by {
                assert(now[m] == places[m]);
                if n < places.len() {
                    assert(now[n] == places[n]);
                }
            }
            assert forall|j: int| 0 <= j < list.len() implies (#[trigger] now.contains(j) <==> has_id(
                queue.insert_all(list.take(j + 1)),
                list[j].id,
            )) by {
                if j < last {
                    assert(front.take(j + 1) =~= list.take(j + 1));
                    assert(front[j] == list[j]);
                    assert(places.contains(j) <==> now.contains(j)) by {
                        if places.contains(j) {
                            let m = places.index_of(j);
                            assert(now[m] == j);
                        }
                        if now.contains(j) {
                            let m = now.index_of(j);
                            assert(places[m] == j);
                        }
                    }
                } else {
                    if now.contains(last) {
                        let m = now.index_of(last);
                        if m < places.len() {
                            assert(places[m] == last);
                        }
                    }
                    if kept {
                        assert(now[places.len() as int] == last);
                    }
                }
            }
        }
        let all = enqueued(queue, list);
        assert forall|m: int| 0 <= m < all.len() implies (#[trigger] all[m]) == list[now[m]].id by {
            if m < ids.len() {
                assert(all[m] == ids[m]);
                assert(now[m] == places[m]);
            }
        }
    }
}

/// A search begins with nothing pending and nothing recorded. It asks for start points
/// exactly where no node has been visited, and else goes on with the queue as it is.
pub proof fn law_begins(config: EarlyStopConfig, scratch: ScratchView)
    ensures
        ({
            let state = EarlyStopState::initial(config, scratch);
            &&& state.scratch == scratch
            &&& state.config == config
            &&& state.starts.len() == 0
            &&& state.pending.len() == 0
            &&& state.hop_match_count == 0
            &&& state.one_hop_enqueued.len() == 0
            &&& !state.entered
            &&& state.idle_hops == 0
            &&& state.hop_index == 0
            &&& state.trace.len() == 0
            &&& (forall|id: u32| !(#[trigger] scratch.visited.contains(id))) ==> state.phase
                is Start
            &&& (exists|id: u32| #[trigger] scratch.visited.contains(id)) ==> hop_over(state)
        }),
{
    if forall|id: u32| !(#[trigger] scratch.visited.contains(id)) {
        assert(scratch.visited =~= Set::empty());
    }
}

/// The start points are taken in order. Each is visited before it is fetched, and queued
/// when it comes in, without being counted; the first hop follows the last of them.
pub proof fn law_start_step(pre: EarlyStopState, event: Event, post: EarlyStopState)
    requires
        pre.valid(),
        pre.expects(event),
        pre.steps_to(event, post),
        event is StartIds || event is StartPoint,
    ensures
        event matches Event::StartIds(ids) ==> post.starts == ids@ && post.scratch.best
            == pre.scratch.best,
        event matches Event::StartPoint(distance) ==> {
            &&& post.starts.len() == pre.starts.len() - 1
            &&& forall|i: int|
                0 <= i < post.starts.len() ==> (#[trigger] post.starts[i]) == pre.starts[i + 1]
            &&& post.scratch.best == pre.scratch.best.insert(
                Neighbor { id: pre.starts[0], distance },
            )
        },
        post.starts.len() > 0 ==> post.phase is StartPoint && post.scratch.visited
            == pre.scratch.visited.insert(post.starts[0]),
        post.starts.len() == 0 ==> hop_over(post) && post.scratch.visited == pre.scratch.visited,
        post.scratch.comparisons == pre.scratch.comparisons,
        post.scratch.hops == pre.scratch.hops,
        post.scratch.beam_nodes == pre.scratch.beam_nodes,
        post.config == pre.config,
        post.entered == pre.entered,
        post.idle_hops == pre.idle_hops,
        post.hop_index == pre.hop_index,
        post.trace == pre.trace,
{
}

/// An early end ends the search. Otherwise the closest unvisited entries of the queue are
/// taken for a new hop, which has found nothing yet.
pub proof fn law_poll_step(pre: EarlyStopState, stop: bool, post: EarlyStopState)
    requires
        pre.valid(),
        pre.phase is Frontier,
        pre.steps_to(Event::EarlyTermination(stop), post),
    ensures
        post.config == pre.config,
        post.scratch.visited == pre.scratch.visited,
        post.scratch.comparisons == pre.scratch.comparisons,
        post.scratch.hops == pre.scratch.hops,
        post.entered == pre.entered,
        post.idle_hops == pre.idle_hops,
        post.hop_index == pre.hop_index,
        post.trace == pre.trace,
        stop ==> post.phase is Done && post.scratch == pre.scratch,
        !stop ==> {
            &&& post.phase is OneHop
            &&& post.scratch.beam_nodes == pre.scratch.best.beam(pre.config.beam_width as nat)
            &&& post.scratch.best == pre.scratch.best.after_beam(pre.config.beam_width as nat)
            &&& post.pending.len() == 0
            &&& post.hop_match_count == 0
            &&& post.one_hop_enqueued.len() == 0
        },
{
}

/// Whether a decision to reject was made about `n`.
pub open spec fn was_rejected(
    neighbors: Seq<Neighbor>,
    decisions: Seq<QueryVisitDecision>,
    n: Neighbor,
) -> bool {
    exists|j: int|
        0 <= j < decisions.len() && decisions[j] is Reject && (#[trigger] neighbors[j]) == n
}

/// What the neighbors of a beam lead to. All of them count as compared, and the beam as
/// expanded; the accepted ones are queued. A decision to terminate ends the search, and
/// the hop is recorded without a two-hop part. Otherwise the rejected neighbors closest to
/// the query, half as many as the degree at most, are pending, closest first.
pub proof fn law_one_hop_step(
    pre: EarlyStopState,
    neighbors: Vec<Neighbor>,
    decisions: Vec<QueryVisitDecision>,
    post: EarlyStopState,
)
    requires
        pre.valid(),
        pre.phase is OneHop,
        answers(decisions@, neighbors@.len()),
        pre.steps_to(Event::OneHop { neighbors, decisions }, post),
    ensures
        post.config == pre.config,
        post.scratch.visited == pre.scratch.visited,
        post.scratch.beam_nodes == pre.scratch.beam_nodes,
        post.scratch.comparisons == pre.scratch.comparisons + neighbors@.len() as int
            % 0x1_0000_0000,
        post.scratch.hops == pre.scratch.hops + pre.scratch.beam_nodes.len() as int
            % 0x1_0000_0000,
        post.scratch.best == pre.scratch.best.insert_all(accepts(decisions@)),
        post.hop_match_count == accept_count(decisions@),
        post.entered == pre.entered,
        post.idle_hops == pre.idle_hops,
        post.hop_index == pre.hop_index,
        is_ended(decisions@) ==> {
            &&& post.phase is Done
            &&& post.trace.len() == pre.trace.len() + 1
            &&& forall|i: int|
                0 <= i < pre.trace.len() ==> (#[trigger] post.trace[i]) == pre.trace[i]
            &&& post.trace[pre.trace.len() as int].hop_index == pre.hop_index
            &&& lists_kept(
                pre.scratch.best,
                accepts(decisions@),
                post.trace[pre.trace.len() as int].one_hop_enqueued,
            )
            &&& post.trace[pre.trace.len() as int].two_hop_enqueued.len() == 0
        },
        !is_ended(decisions@) ==> {
            &&& post.phase is TwoHop
            &&& post.trace == pre.trace
            &&& lists_kept(pre.scratch.best, accepts(decisions@), post.one_hop_enqueued)
            &&& post.pending.len() == if reject_count(decisions@) <= pre.config.max_degree / 2 {
                reject_count(decisions@) as int
            } else {
                pre.config.max_degree as int / 2
            }
            &&& forall|i: int, j: int|
                0 <= i < j < post.pending.len() ==> (#[trigger] post.pending[i]).distance.rank() <= (
                #[trigger] post.pending[j]).distance.rank()
            &&& forall|i: int|
                0 <= i < post.pending.len() ==> was_rejected(
                    neighbors@,
                    decisions@,
                    #[trigger] post.pending[i],
                )
            &&& forall|n: Neighbor| #[trigger]
                post.pending.to_multiset().count(n) <= rejected(
                    neighbors@,
                    decisions@,
                ).to_multiset().count(n)
            &&& forall|j: int|
                0 <= j < decisions@.len() && decisions@[j] is Reject && !post.pending.contains(
                    #[trigger] neighbors@[j],
                ) ==> forall|i: int|
                    0 <= i < post.pending.len() ==> (#[trigger] post.pending[i]).distance.rank()
                        <= neighbors@[j].distance.rank()
        },
{
    law_parted(neighbors@, decisions@);
    law_enqueued(pre.scratch.best, accepted(decisions@));
    assert(accepts(decisions@) == accepted(decisions@));
    if !is_ended(decisions@) {
        let walk = rejected(neighbors@, decisions@);
        let most = pre.config.max_degree / 2;
        assert(pre.walks(neighbors@, decisions@, post.pending));
        let order = choose|order: Seq<Neighbor>|
            {
                &&& sorted_by_distance(order)
                &&& #[trigger] order.to_multiset() == walk.to_multiset()
                &&& post.pending == order.take(
                    if order.len() <= most {
                        order.len() as int
                    } else {
                        most as int
                    },
                )
            };
        walk.to_multiset_ensures();
        order.to_multiset_ensures();
        let pending = post.pending;
        let rest = order.skip(pending.len() as int);
        assert(order =~= pending + rest);
        assert forall|i: int| 0 <= i < pending.len() implies was_rejected(
            neighbors@,
            decisions@,
            #[trigger] pending[i],
        ) by {
            assert(order[i] == pending[i]);
            assert(order.contains(order[i]));
            assert(order.to_multiset().count(order[i]) > 0);
            assert(walk.contains(order[i]));
            lemma_rejected_from(neighbors@, decisions@, order[i]);
        }
        vstd::seq_lib::lemma_multiset_commutative(pending, rest);
        assert forall|n: Neighbor| #[trigger]
            pending.to_multiset().count(n) <= walk.to_multiset().count(n) by {
            assert(order.to_multiset().count(n) == pending.to_multiset().count(n)
                + rest.to_multiset().count(n));
        }
        assert forall|j: int|
            0 <= j < decisions@.len() && decisions@[j] is Reject && !pending.contains(
                #[trigger] neighbors@[j],
            ) implies forall|i: int|
            0 <= i < pending.len() ==> (#[trigger] pending[i]).distance.rank()
                <= neighbors@[j].distance.rank() by {
            lemma_is_rejected(neighbors@, decisions@, j);
            assert(walk.to_multiset().count(neighbors@[j]) > 0);
            assert(order.contains(neighbors@[j]));
            let k = order.index_of(neighbors@[j]);
            assert(order[k] == neighbors@[j]);
            if k < pending.len() {
                assert(pending[k] == neighbors@[j]);
            }
            assert forall|i: int| 0 <= i < pending.len() implies (
            #[trigger] pending[i]).distance.rank() <= neighbors@[j].distance.rank() by {
                assert(order[i] == pending[i]);
            }
        }
    }
}

/// A rejected neighbor has a decision to reject it.
proof fn lemma_rejected_from(
    neighbors: Seq<Neighbor>,
    decisions: Seq<QueryVisitDecision>,
    n: Neighbor,
)
    requires
        decisions.len() <= neighbors.len(),
        rejected(neighbors, decisions).contains(n),
    ensures
        was_rejected(neighbors, decisions, n),
    decreases decisions.len(),
{
    let all = rejected(neighbors, decisions);
    if decisions.len() > 0 {
        let front = decisions.drop_last();
        let k = all.index_of(n);
        assert(all[k] == n);
        if k < rejected(neighbors, front).len() {
            assert(rejected(neighbors, front)[k] == n);
            assert(rejected(neighbors, front).contains(n));
            lemma_rejected_from(neighbors, front, n);
            let j = choose|j: int|
                0 <= j < front.len() && front[j] is Reject && (#[trigger] neighbors[j]) == n;
            assert(decisions[j] == front[j]);
        } else {
            assert(neighbors[decisions.len() - 1] == n);
            assert(decisions[decisions.len() - 1] is Reject);
        }
    }
}

/// What the matching neighbors of the pending nodes lead to. They count as compared and as
/// matches of the hop, the pending nodes count as expanded, and the neighbors are queued.
/// A hop with a match, among the accepted ones or among these, sets the count of idle
/// hops to zero; one without counts as idle if some hop before had a match. The second
/// idle hop in a row ends the search, unless the queue holds no more neighbors than are
/// asked for; after any other hop the search goes on exactly where the queue has an
/// unvisited entry, and the hop is recorded.
pub proof fn law_two_hop_step(pre: EarlyStopState, neighbors: Vec<Neighbor>, post: EarlyStopState)
    requires
        pre.valid(),
        pre.phase is TwoHop,
        pre.steps_to(Event::TwoHop(neighbors), post),
    ensures
        post.config == pre.config,
        post.scratch.visited == pre.scratch.visited,
        post.scratch.beam_nodes == pre.scratch.beam_nodes,
        post.scratch.comparisons == pre.scratch.comparisons + neighbors@.len() as int
            % 0x1_0000_0000,
        post.scratch.hops == pre.scratch.hops + pre.pending.len() as int % 0x1_0000_0000,
        post.scratch.best == pre.scratch.best.insert_all(neighbors@),
        post.entered == (pre.entered || pre.hop_match_count > 0 || neighbors@.len() > 0),
        pre.hop_match_count > 0 || neighbors@.len() > 0 ==> post.idle_hops == 0,
        pre.hop_match_count == 0 && neighbors@.len() == 0 && pre.entered ==> post.idle_hops
            == pre.idle_hops + 1,
        pre.hop_match_count == 0 && neighbors@.len() == 0 && !pre.entered ==> post.idle_hops
            == pre.idle_hops,
        ({
            let ends = pre.hop_match_count == 0 && neighbors@.len() == 0 && pre.entered
                && pre.idle_hops >= 1 && post.scratch.best.entries.len() > pre.config.k;
            &&& ends ==> post.phase is Done && post.trace == pre.trace
            &&& !ends ==> {
                &&& hop_over(post)
                &&& post.hop_index == pre.hop_index + 1
                &&& post.one_hop_enqueued.len() == 0
                &&& post.trace.len() == pre.trace.len() + 1
                &&& forall|i: int|
                    0 <= i < pre.trace.len() ==> (#[trigger] post.trace[i]) == pre.trace[i]
                &&& post.trace[pre.trace.len() as int].hop_index == pre.hop_index
                &&& post.trace[pre.trace.len() as int].one_hop_enqueued == pre.one_hop_enqueued
                &&& lists_kept(
                    pre.scratch.best,
                    neighbors@,
                    post.trace[pre.trace.len() as int].two_hop_enqueued,
                )
            }
        }),
{
    law_enqueued(pre.scratch.best, neighbors@);
}

/// Whether a search stands where [`law_begins`] says that it begins, before a hop.
pub open spec fn is_begun(state: EarlyStopState) -> bool {
    &&& state.phase is Start || state.phase is Frontier || state.phase is Done
    &&& !state.entered
    &&& state.idle_hops == 0
    &&& state.hop_index == 0
    &&& state.trace.len() == 0
}

/// Whether the answers tell of a match: an accepted neighbor, or one found behind a
/// rejected one.
pub open spec fn tells_match(event: Event) -> bool {
    match event {
        Event::OneHop { decisions, .. } => exists|j: int|
            0 <= j < decisions@.len() && (#[trigger] decisions@[j]) is Accept,
        Event::TwoHop(neighbors) => neighbors@.len() > 0,
        _ => false,
    }
}

/// How many hops began with the first `n` events.
pub open spec fn hops_begun(events: Seq<Event>, n: int) -> int
    decreases n,
{
    if n <= 0 {
        0
    } else {
        hops_begun(events, n - 1) + if events[n - 1] is OneHop {
            1int
        } else {
            0int
        }
    }
}

proof fn lemma_accept_count(decisions: Seq<QueryVisitDecision>)
    ensures
        accept_count(decisions) > 0 <==> exists|j: int|
            0 <= j < decisions.len() && (#[trigger] decisions[j]) is Accept,
    decreases decisions.len(),
{
    reveal(Seq::filter);
    if decisions.len() > 0 {
        let front = decisions.drop_last();
        lemma_accept_count(front);
        let last = decisions.len() - 1;
        if decisions[last] is Accept {
        } else if accept_count(front) > 0 {
            let j = choose|j: int| 0 <= j < front.len() && (#[trigger] front[j]) is Accept;
            assert(decisions[j] is Accept);
        } else if exists|j: int| 0 <= j < decisions.len() && (#[trigger] decisions[j]) is Accept {
            let j = choose|j: int| 0 <= j < decisions.len() && (#[trigger] decisions[j]) is Accept;
            assert(front[j] is Accept);
        }
    }
}

/// Whether one of the first `n` events tells of a match.
pub open spec fn met_match(events: Seq<Event>, n: int) -> bool {
    exists|j: int| 0 <= j < n && tells_match(#[trigger] events[j])
}

/// Whether the hop whose last event is event `e` found no match.
pub open spec fn is_idle_hop(events: Seq<Event>, e: int) -> bool {
    &&& e >= 1
    &&& events[e] is TwoHop
    &&& events[e - 1] is OneHop
    &&& !tells_match(events[e])
    &&& !tells_match(events[e - 1])
}

/// Whether the hop whose last event is event `e` and the hop before it found no match,
/// though one before them did, and a queue of that size holds more neighbors than are
/// asked for.
pub open spec fn ends_idle(events: Seq<Event>, e: int, size: nat, k: usize) -> bool {
    e >= 4 && is_idle_hop(events, e) && is_idle_hop(events, e - 3) && met_match(events, e - 4)
        && size > k
}

/// What a search knows of the hops behind it.
spec fn remembers(pre: Seq<EarlyStopState>, events: Seq<Event>, post: EarlyStopState, e: int) -> bool {
    &&& !(post.phase is Done) ==> post.trace.len() == hops_begun(events, e + 1)
        - if post.phase is TwoHop {
        1int
    } else {
        0int
    }
    &&& post.phase is TwoHop ==> {
        &&& events[e] is OneHop
        &&& !is_ended(events[e]->decisions@)
        &&& post.hop_match_count > 0 <==> tells_match(events[e])
        &&& lists_kept(
            pre[e].scratch.best,
            accepts(events[e]->decisions@),
            post.one_hop_enqueued,
        )
        &&& post.entered <==> met_match(events, e)
    }
    &&& !(post.phase is TwoHop || post.phase is Done) ==> {
        &&& post.entered <==> met_match(events, e + 1)
    }
    &&& post.phase is OneHop ==> e >= 0 && events[e] == Event::EarlyTermination(false)
    &&& post.phase is Frontier && events[e] is TwoHop ==> (post.idle_hops >= 1
        <==> is_idle_hop(events, e) && met_match(events, e - 1))
    &&& post.phase is Frontier && !(events[e] is TwoHop) ==> post.idle_hops == 0 && !post.entered
    &&& post.phase is OneHop ==> (post.idle_hops >= 1 <==> e >= 2 && is_idle_hop(events, e - 1)
        && met_match(events, e - 2))
    &&& post.phase is TwoHop ==> (post.idle_hops >= 1 <==> e >= 3 && is_idle_hop(events, e - 2)
        && met_match(events, e - 3))
    &&& post.phase is TwoHop && e >= 2 && events[e - 2] is TwoHop ==> events[e - 1]
        == Event::EarlyTermination(false)
}

proof fn lemma_met(events: Seq<Event>, n: int)
    requires
        0 <= n,
    ensures
        met_match(events, n + 1) <==> met_match(events, n) || tells_match(events[n]),
{
    if met_match(events, n + 1) {
        let j = choose|j: int| 0 <= j < n + 1 && tells_match(#[trigger] events[j]);
        if j < n {
            assert(met_match(events, n));
        }
    }
    if met_match(events, n) {
        let j = choose|j: int| 0 <= j < n && tells_match(#[trigger] events[j]);
        assert(tells_match(events[j]));
    }
}

/// [`remembers`] holds throughout a run.
proof fn lemma_remembers(
    pre: Seq<EarlyStopState>,
    events: Seq<Event>,
    post: Seq<EarlyStopState>,
    e: int,
)
    requires
        is_run(pre, events, post),
        is_begun(pre[0]),
        0 <= e < events.len(),
    ensures
        remembers(pre, events, post[e], e),
    decreases e,
{
    law_run(pre, events, post, e);
    assert(pre[e].expects(events[e]) && pre[e].steps_to(events[e], post[e]));
    lemma_met(events, e);
    assert(!met_match(events, 0));
    if e > 0 {
        lemma_remembers(pre, events, post, e - 1);
        assert(pre[e] == post[e - 1].with_visited(pre[e].scratch.visited));
        lemma_met(events, e - 1);
    }
    assert(hops_begun(events, e + 1) == hops_begun(events, e) + if events[e] is OneHop {
        1int
    } else {
        0int
    });
    match events[e] {
        Event::StartIds(_) => {
            law_start_step(pre[e], events[e], post[e]);
        },
        Event::StartPoint(_) => {
            law_start_step(pre[e], events[e], post[e]);
        },
        Event::EarlyTermination(stop) => {
            law_poll_step(pre[e], stop, post[e]);
        },
        Event::OneHop { neighbors, decisions } => {
            law_one_hop_step(pre[e], neighbors, decisions, post[e]);
            lemma_accept_count(decisions@);
        },
        Event::TwoHop(neighbors) => {
            law_two_hop_step(pre[e], neighbors, post[e]);
        },
    }
}

/// When a hop ends a search: where the queue has no unvisited entry left, or where this hop
/// and the one before it found no match, some hop before them found one, and the queue
/// holds more neighbors than are asked for. Event `e` is the last one of the hop.
pub proof fn law_two_idle_hops_end(
    pre: Seq<EarlyStopState>,
    events: Seq<Event>,
    post: Seq<EarlyStopState>,
    e: int,
)
    requires
        is_run(pre, events, post),
        is_begun(pre[0]),
        0 <= e < events.len(),
        events[e] is TwoHop,
    ensures
        post[e].phase is Done <==> {
            ||| !has_open(post[e].scratch.best)
            ||| ends_idle(events, e, post[e].scratch.best.entries.len(), pre[0].config.k)
        },
        post[e].trace.len() == pre[e].trace.len() + if ends_idle(
            events,
            e,
            post[e].scratch.best.entries.len(),
            pre[0].config.k,
        ) {
            0int
        } else {
            1int
        },
{
    law_run(pre, events, post, e);
    assert(pre[e].expects(events[e]) && pre[e].steps_to(events[e], post[e]));
    assert(e > 0);
    lemma_remembers(pre, events, post, e - 1);
    assert(pre[e] == post[e - 1].with_visited(pre[e].scratch.visited));
    law_two_hop_step(pre[e], events[e]->TwoHop_0, post[e]);
    if e >= 4 && is_idle_hop(events, e - 3) && met_match(events, e - 4) {
        let j = choose|j: int| 0 <= j < e - 4 && tells_match(#[trigger] events[j]);
        assert(met_match(events, e - 1));
    }
}

/// A search ends only by a decision to terminate, by an early end, where no entry of its
/// queue is unvisited, or after two hops in a row without a match.
pub proof fn law_ends_only(
    pre: Seq<EarlyStopState>,
    events: Seq<Event>,
    post: Seq<EarlyStopState>,
    e: int,
)
    requires
        is_run(pre, events, post),
        is_begun(pre[0]),
        0 <= e < events.len(),
    ensures
        post[e].phase is Done ==> {
            ||| !has_open(post[e].scratch.best)
            ||| events[e] == Event::EarlyTermination(true)
            ||| events[e] matches Event::OneHop { decisions, .. } && is_ended(decisions@)
            ||| e >= 4 && is_idle_hop(events, e) && is_idle_hop(events, e - 3)
        },
        events[e] == Event::EarlyTermination(true) ==> post[e].phase is Done,
{
    law_run(pre, events, post, e);
    assert(pre[e].expects(events[e]) && pre[e].steps_to(events[e], post[e]));
    match events[e] {
        Event::StartIds(_) => {
            law_start_step(pre[e], events[e], post[e]);
        },
        Event::StartPoint(_) => {
            law_start_step(pre[e], events[e], post[e]);
        },
        Event::EarlyTermination(stop) => {
            law_poll_step(pre[e], stop, post[e]);
        },
        Event::OneHop { neighbors, decisions } => {
            law_one_hop_step(pre[e], neighbors, decisions, post[e]);
        },
        Event::TwoHop(neighbors) => {
            law_two_idle_hops_end(pre, events, post, e);
        },
    }
}

/// Records are added at the end and stay.
proof fn lemma_trace_stays(
    pre: Seq<EarlyStopState>,
    events: Seq<Event>,
    post: Seq<EarlyStopState>,
    from: int,
    to: int,
)
    requires
        is_run(pre, events, post),
        0 <= from <= to < events.len(),
    ensures
        post[from].trace.len() <= post[to].trace.len(),
        forall|h: int|
            0 <= h < post[from].trace.len() ==> (#[trigger] post[to].trace[h])
                == post[from].trace[h],
        post[from].phase is Done ==> from == to,
    decreases to - from,
{
    if from < to {
        lemma_trace_stays(pre, events, post, from, to - 1);
        law_run(pre, events, post, to);
        assert(pre[to] == post[to - 1].with_visited(pre[to].scratch.visited));
        assert(pre[to].expects(events[to]) && pre[to].steps_to(events[to], post[to]));
        match events[to] {
            Event::StartIds(_) => {
                law_start_step(pre[to], events[to], post[to]);
            },
            Event::StartPoint(_) => {
                law_start_step(pre[to], events[to], post[to]);
            },
            Event::EarlyTermination(stop) => {
                law_poll_step(pre[to], stop, post[to]);
            },
            Event::OneHop { neighbors, decisions } => {
                law_one_hop_step(pre[to], neighbors, decisions, post[to]);
            },
            Event::TwoHop(neighbors) => {
                law_two_hop_step(pre[to], neighbors, post[to]);
            },
        }
    }
}

/// What the trace tells of the hop whose beam event `i` answers. Its record has the number
/// of the hop; under the one-hop part, the ids of the neighbors accepted by this event
/// that the queue had right after they were inserted; and under the two-hop part, those
/// of the neighbors that the next event reports. Where this event has a decision to
/// terminate, the two-hop part is empty. Every hop that is over has its record,
/// but for one that ends the search by being idle.
pub proof fn law_trace_of_hop(
    pre: Seq<EarlyStopState>,
    events: Seq<Event>,
    post: Seq<EarlyStopState>,
    i: int,
)
    requires
        is_run(pre, events, post),
        is_begun(pre[0]),
        0 <= i < events.len(),
        events[i] is OneHop,
    ensures
        ({
            let h = hops_begun(events, i);
            let trace = post.last().trace;
            let decisions = events[i]->decisions@;
            &&& h < trace.len() ==> {
                &&& trace[h].hop_index == h
                &&& lists_kept(pre[i].scratch.best, accepts(decisions), trace[h].one_hop_enqueued)
                &&& is_ended(decisions) ==> trace[h].two_hop_enqueued.len() == 0
                &&& !is_ended(decisions) ==> {
                    &&& i + 1 < events.len()
                    &&& events[i + 1] is TwoHop
                    &&& lists_kept(
                        pre[i + 1].scratch.best,
                        events[i + 1]->TwoHop_0@,
                        trace[h].two_hop_enqueued,
                    )
                }
            }
            &&& h < trace.len() <==> is_ended(decisions) || (i + 1 < events.len() && !ends_idle(
                events,
                i + 1,
                post[i + 1].scratch.best.entries.len(),
                pre[0].config.k,
            ))
        }),
{
    let last = events.len() - 1;
    let h = hops_begun(events, i);
    let neighbors = events[i]->neighbors;
    let decisions = events[i]->decisions;
    law_run(pre, events, post, i);
    assert(pre[i].expects(events[i]) && pre[i].steps_to(events[i], post[i]));
    assert(i > 0);
    lemma_remembers(pre, events, post, i - 1);
    assert(pre[i] == post[i - 1].with_visited(pre[i].scratch.visited));
    assert(pre[i].trace.len() == h);
    law_one_hop_step(pre[i], neighbors, decisions, post[i]);
    if is_ended(decisions@) {
        lemma_trace_stays(pre, events, post, i, last);
    } else if i + 1 < events.len() {
        let n = i + 1;
        law_run(pre, events, post, n);
        assert(pre[n] == post[n - 1].with_visited(pre[n].scratch.visited));
        assert(pre[n].expects(events[n]) && pre[n].steps_to(events[n], post[n]));
        law_two_hop_step(pre[n], events[n]->TwoHop_0, post[n]);
        lemma_remembers(pre, events, post, i);
        lemma_trace_stays(pre, events, post, n, last);
        law_two_idle_hops_end(pre, events, post, n);
    }
}

/// Every record of a search is that of some hop of it.
pub proof fn law_trace_of_hops_only(
    pre: Seq<EarlyStopState>,
    events: Seq<Event>,
    post: Seq<EarlyStopState>,
)
    requires
        is_run(pre, events, post),
        is_begun(pre[0]),
    ensures
        post.last().trace.len() <= hops_begun(events, events.len() as int),
{
    let last = events.len() - 1;
    law_run(pre, events, post, last);
    assert(pre[last].expects(events[last]) && pre[last].steps_to(events[last], post[last]));
    assert(hops_begun(events, last + 1) == hops_begun(events, last) + if events[last] is OneHop {
        1int
    } else {
        0int
    });
    if last > 0 {
        lemma_remembers(pre, events, post, last - 1);
        assert(pre[last] == post[last - 1].with_visited(pre[last].scratch.visited));
    }
    match events[last] {
        Event::StartIds(_) => {
            law_start_step(pre[last], events[last], post[last]);
        },
        Event::StartPoint(_) => {
            law_start_step(pre[last], events[last], post[last]);
        },
        Event::EarlyTermination(stop) => {
            law_poll_step(pre[last], stop, post[last]);
        },
        Event::OneHop { neighbors, decisions } => {
            law_one_hop_step(pre[last], neighbors, decisions, post[last]);
        },
        Event::TwoHop(neighbors) => {
            law_two_hop_step(pre[last], neighbors, post[last]);
        },
    }
}

} // verus!
