//! What holds of the ids that a [`crate::multihop_search_dev_earlystop::EarlyStopSearch`] meets,
//! from a fresh start on.

use vstd::prelude::*;
use crate::label::{accepted, keeps_ids, lemma_decided_ids, rejected, terminates};
use crate::label::QueryVisitDecision;
use crate::multihop_search_dev_earlystop::{enqueued, EarlyStopState, Event, HopView};
use crate::multihop_search_dev_earlystop_laws::{is_run, law_finds_only_matches, law_run};
use crate::multihop_search_dev_earlystop_laws::lemma_enqueued;
use crate::neighbor::{ids_of, lemma_reordered_ids, sorted_by_distance, Neighbor};
use crate::queue_id_laws::{law_beam_ids, law_offer_new_ids};
use crate::queue_id_laws::{lemma_offer_reported, lemma_same_ids, lemma_waits};
use crate::queue_laws::lemma_offer_one;
use crate::scratch::ScratchView;
use crate::visited::{lemma_id_set, lemma_ids_within, lemma_reports_len, reports};

verus! {

/// The ids that a search hands to the graph for expansion, to be answered by `event`.
pub open spec fn handed_by(state: EarlyStopState, event: Event) -> Seq<u32> {
    match event {
        Event::OneHop { .. } => ids_of(state.scratch.beam_nodes),
        Event::TwoHop(_) => ids_of(state.pending),
        _ => Seq::empty(),
    }
}

/// All the ids that a search hands to the graph for expansion, in order.
pub open spec fn handed(pre: Seq<EarlyStopState>, events: Seq<Event>) -> Seq<u32>
    decreases events.len(),
{
    if events.len() == 0 {
        Seq::empty()
    } else {
        handed(pre, events.drop_last()) + handed_by(pre[events.len() - 1], events.last())
    }
}

/// Whether the nodes of the beam that `event` answers can be counted.
pub open spec fn beam_fits(state: EarlyStopState, event: Event) -> bool {
    event is OneHop ==> state.scratch.beam_nodes.len() <= u32::MAX
}

/// Whether the nodes of each beam of a search can be counted.
pub open spec fn beams_fit(pre: Seq<EarlyStopState>, events: Seq<Event>) -> bool {
    forall|i: int| 0 <= i < events.len() ==> beam_fits(#[trigger] pre[i], events[i])
}

/// The ids that the expansion before `event` reports.
pub open spec fn reported(event: Event) -> Seq<u32> {
    match event {
        Event::OneHop { neighbors, .. } => ids_of(neighbors@),
        Event::TwoHop(neighbors) => ids_of(neighbors@),
        _ => Seq::empty(),
    }
}

/// The ids that the expansion before `event` may report.
pub open spec fn reportable(event: Event, matching: Set<u32>) -> Set<u32> {
    match event {
        Event::TwoHop(_) => matching,
        _ => Set::full(),
    }
}

/// Whether a search begins on an empty queue, with no node visited and nothing counted.
pub open spec fn is_fresh(state: EarlyStopState) -> bool {
    &&& state == EarlyStopState::initial(state.config, state.scratch)
    &&& state.scratch.visited == Set::<u32>::empty()
    &&& state.scratch.best.entries.len() == 0
    &&& state.scratch.comparisons == 0
    &&& state.scratch.hops == 0
}

/// The ids of the start points.
pub open spec fn start_ids(events: Seq<Event>) -> Seq<u32> {
    match events[0] {
        Event::StartIds(ids) => ids@,
        _ => Seq::empty(),
    }
}

/// The nodes that were visited when the expansion before event `i` began.
pub open spec fn visited_before(pre: Seq<EarlyStopState>, post: Seq<EarlyStopState>, i: int) -> Set<u32> {
    if i == 0 {
        pre[0].scratch.visited
    } else {
        post[i - 1].scratch.visited
    }
}

/// Whether the events lead a fresh search from state to state, where each expansion
/// reports the nodes that its predicate admits:
/// those not yet visited and, behind the rejected nodes, in `matching`.
pub open spec fn is_search(
    pre: Seq<EarlyStopState>,
    events: Seq<Event>,
    post: Seq<EarlyStopState>,
    matching: Set<u32>,
) -> bool {
    &&& is_run(pre, events, post)
    &&& is_fresh(pre[0])
    &&& forall|i: int|
        0 <= i < events.len() ==> reports(
            visited_before(pre, post, i),
            reportable(events[i], matching),
            reported(events[i]),
            (#[trigger] pre[i]).scratch.visited,
        )
}

/// Whether the visits of a search accept each neighbor under its own id, if at all.
pub open spec fn accepts_own_ids(events: Seq<Event>) -> bool {
    forall|i: int|
        0 <= i < events.len() ==> (#[trigger] events[i] matches Event::OneHop {
            neighbors,
            decisions,
        } ==> keeps_ids(neighbors@, decisions@))
}

/// Whether the visits of a search accept only nodes in `matching`.
pub open spec fn accepts_matching(events: Seq<Event>, matching: Set<u32>) -> bool {
    forall|i: int, d: QueryVisitDecision|
        0 <= i < events.len() && (#[trigger] events[i]) is OneHop
            && #[trigger] events[i]->decisions@.contains(d) ==> (d matches
            QueryVisitDecision::Accept(a) ==> matching.contains(a.id))
}

/// The state before the expansion that event `i` answers.
spec fn state_before(pre: Seq<EarlyStopState>, post: Seq<EarlyStopState>, i: int) -> EarlyStopState {
    if i == 0 {
        pre[0]
    } else {
        post[i - 1]
    }
}

/// What the counter of distances has to do with the visited nodes, where `begun` are
/// the start points: those are visited as well, but not counted.
spec fn counts_visited(s: EarlyStopState, begun: Seq<u32>) -> bool {
    &&& !(s.phase is Start) ==> s.scratch.visited.len() + s.starts.len() == begun.len()
        + s.scratch.comparisons + if s.phase is StartPoint {
        1int
    } else {
        0int
    }
    &&& s.phase is Start ==> s.scratch.visited == Set::<u32>::empty()
        && s.scratch.best.entries.len() == 0 && s.scratch.comparisons == 0
    &&& !(s.phase is Start || s.phase is Done) ==> s.scratch.visited.len() > 0
    &&& s.phase is StartPoint ==> s.scratch.visited.contains(s.starts[0])
    &&& s.starts.no_duplicates()
    &&& forall|i: int|
        0 < i < s.starts.len() ==> !s.scratch.visited.contains(#[trigger] s.starts[i])
    &&& forall|i: int|
        0 <= i < begun.len() && !(s.phase is Start) ==> s.scratch.visited.contains(
            #[trigger] begun[i],
        ) || s.starts.contains(begun[i])
}

/// Turning to the next start point visits it.
proof fn lemma_to_start(s: EarlyStopState, begun: Seq<u32>)
    requires
        s.scratch.visited.len() + s.starts.len() == begun.len() + s.scratch.comparisons,
        s.starts.len() == 0 ==> s.scratch.visited.len() > 0 || s.scratch.best.entries.len() == 0,
        s.starts.no_duplicates(),
        forall|i: int|
            0 <= i < s.starts.len() ==> !s.scratch.visited.contains(#[trigger] s.starts[i]),
        forall|i: int|
            0 <= i < begun.len() ==> s.scratch.visited.contains(#[trigger] begun[i])
                || s.starts.contains(begun[i]),
    ensures
        counts_visited(s.to_start(), begun),
{
    lemma_id_set(s.scratch.visited);
    if s.starts.len() > 0 {
        let post = s.to_start();
        assert forall|i: int| 0 < i < post.starts.len() implies !post.scratch.visited.contains(
            #[trigger] post.starts[i],
        ) by {
            assert(s.starts[i] != s.starts[0]);
        }
    }
}

/// A step keeps [`counts_visited`].
proof fn lemma_count_step(
    prev: EarlyStopState,
    pre: EarlyStopState,
    event: Event,
    post: EarlyStopState,
    matching: Set<u32>,
    begun: Seq<u32>,
)
    requires
        prev.valid(),
        counts_visited(prev, begun),
        pre == prev.with_visited(pre.scratch.visited),
        reports(
            prev.scratch.visited,
            reportable(event, matching),
            reported(event),
            pre.scratch.visited,
        ),
        pre.expects(event),
        pre.steps_to(event, post),
        event matches Event::StartIds(ids) ==> ids@.no_duplicates() && ids@ == begun,
    ensures
        counts_visited(post, begun),
{
    lemma_reports_len(
        prev.scratch.visited,
        reportable(event, matching),
        reported(event),
        pre.scratch.visited,
    );
    lemma_id_set(pre.scratch.visited);
    match event {
        Event::StartIds(ids) => {
            assert(pre.scratch.visited =~= Set::empty());
            lemma_to_start(EarlyStopState { starts: ids@, ..pre }, begun);
        },
        Event::StartPoint(distance) => {
            assert(pre.scratch.visited =~= prev.scratch.visited);
            let rest = pre.starts.drop_first();
            assert forall|i: int| 0 <= i < rest.len() implies !pre.scratch.visited.contains(
                #[trigger] rest[i],
            ) by {
                assert(rest[i] == pre.starts[i + 1]);
            }
            assert forall|i: int, j: int|
                0 <= i < rest.len() && 0 <= j < rest.len() && i != j implies rest[i] != rest[j] by {
                assert(rest[i] == pre.starts[i + 1] && rest[j] == pre.starts[j + 1]);
            }
            assert forall|i: int| 0 <= i < begun.len() implies pre.scratch.visited.contains(
                #[trigger] begun[i],
            ) || rest.contains(begun[i]) by {
                if !pre.scratch.visited.contains(begun[i]) {
                    let k = pre.starts.index_of(begun[i]);
                    if k > 0 {
                        assert(rest[k - 1] == begun[i]);
                    }
                }
            }
            lemma_to_start(
                EarlyStopState {
                    scratch: ScratchView {
                        best: pre.scratch.best.insert(pre.start_neighbor(distance)),
                        ..pre.scratch
                    },
                    starts: rest,
                    ..pre
                },
                begun,
            );
        },
        Event::EarlyTermination(_) => {
            assert(pre.scratch.visited =~= prev.scratch.visited);
        },
        Event::OneHop { neighbors, decisions } => {
            assert(ids_of(neighbors@).len() == neighbors@.len());
        },
        Event::TwoHop(neighbors) => {
            assert(ids_of(neighbors@).len() == neighbors@.len());
        },
    }
}

/// The events of a search lead from state to state.
proof fn lemma_at(
    pre: Seq<EarlyStopState>,
    events: Seq<Event>,
    post: Seq<EarlyStopState>,
    matching: Set<u32>,
    at: int,
)
    requires
        is_search(pre, events, post, matching),
        0 <= at < events.len(),
    ensures
        state_before(pre, post, at).valid(),
        pre[at] == state_before(pre, post, at).with_visited(pre[at].scratch.visited),
        reports(
            state_before(pre, post, at).scratch.visited,
            reportable(events[at], matching),
            reported(events[at]),
            pre[at].scratch.visited,
        ),
        pre[at].expects(events[at]),
        pre[at].steps_to(events[at], post[at]),
        events[at] is StartIds ==> state_before(pre, post, at).phase is Start,
{
    assert(pre[at].expects(events[at]));
    if at > 0 {
        law_run(pre, events, post, at - 1);
    }
}

/// Only the first event brings the ids of start points.
proof fn lemma_starts_once(pre: Seq<EarlyStopState>, events: Seq<Event>, post: Seq<EarlyStopState>, at: int)
    requires
        is_run(pre, events, post),
        is_fresh(pre[0]),
        0 <= at < events.len(),
    ensures
        !(post[at].phase is Start),
        events[at] is StartIds <==> at == 0,
        forall|j: int|
            0 <= j < post[at].starts.len() ==> start_ids(events).contains(
                #[trigger] post[at].starts[j],
            ),
    decreases at,
{
    assert(pre[at].expects(events[at]) && pre[at].steps_to(events[at], post[at]));
    if at > 0 {
        lemma_starts_once(pre, events, post, at - 1);
        law_run(pre, events, post, at - 1);
        assert(pre[at] == post[at - 1].with_visited(pre[at].scratch.visited));
        if let Event::StartPoint(distance) = events[at] {
            assert forall|j: int| 0 <= j < post[at].starts.len() implies start_ids(
                events,
            ).contains(#[trigger] post[at].starts[j]) by {
                assert(post[at].starts[j] == post[at - 1].starts[j + 1]);
            }
        }
    } else {
        assert(post[0].starts == start_ids(events));
    }
}

/// The counter follows the visited nodes through a search.
proof fn lemma_counts_visited(
    pre: Seq<EarlyStopState>,
    events: Seq<Event>,
    post: Seq<EarlyStopState>,
    matching: Set<u32>,
    at: int,
)
    requires
        is_search(pre, events, post, matching),
        start_ids(events).no_duplicates(),
        0 <= at < events.len(),
    ensures
        counts_visited(post[at], start_ids(events)),
    decreases at,
{
    lemma_at(pre, events, post, matching, at);
    lemma_starts_once(pre, events, post, at);
    if at > 0 {
        lemma_counts_visited(pre, events, post, matching, at - 1);
    } else {
        assert(pre[0].starts =~= Seq::empty());
    }
    lemma_count_step(
        state_before(pre, post, at),
        pre[at],
        events[at],
        post[at],
        matching,
        start_ids(events),
    );
}

/// A fresh search with distinct start points computes one distance for each node that it
/// visits besides them: one for each neighbor that an expansion reports. The start points are
/// all visited when it turns to its first hop, and are not counted.
pub proof fn law_compares_visited(
    pre: Seq<EarlyStopState>,
    events: Seq<Event>,
    post: Seq<EarlyStopState>,
    matching: Set<u32>,
)
    requires
        is_search(pre, events, post, matching),
        start_ids(events).no_duplicates(),
        !(post.last().phase is StartPoint),
    ensures
        post.last().scratch.visited.len() == start_ids(events).len()
            + post.last().scratch.comparisons,
        forall|i: int|
            0 <= i < start_ids(events).len() ==> post.last().scratch.visited.contains(
                #[trigger] start_ids(events)[i],
            ),
{
    let last = events.len() - 1;
    lemma_counts_visited(pre, events, post, matching, last);
    lemma_starts_once(pre, events, post, last);
    law_run(pre, events, post, last);
}

/// What holds of the ids that a search has met and handed out; `counted` tells whether
/// the counter of expanded nodes is their number.
spec fn keeps_apart(s: EarlyStopState, counted: bool, handed: Seq<u32>) -> bool {
    &&& s.scratch.best.ids().no_duplicates()
    &&& forall|id: u32| #[trigger]
        s.scratch.best.contains_id(id) ==> s.scratch.visited.contains(id)
    &&& handed.no_duplicates()
    &&& forall|i: int|
        0 <= i < handed.len() ==> s.scratch.visited.contains(#[trigger] handed[i])
            && !s.scratch.best.waits(handed[i])
    &&& s.scratch.hops <= handed.len()
    &&& counted <==> s.scratch.hops == handed.len()
    &&& handed.len() == 0 ==> s.scratch.comparisons == 0
    &&& s.phase is OneHop ==> {
        &&& (handed + ids_of(s.scratch.beam_nodes)).no_duplicates()
        &&& forall|i: int|
            0 <= i < s.scratch.beam_nodes.len() ==> s.scratch.visited.contains(
                (#[trigger] s.scratch.beam_nodes[i]).id,
            ) && !s.scratch.best.waits(s.scratch.beam_nodes[i].id)
    }
    &&& s.phase is TwoHop ==> {
        &&& handed.len() > 0
        &&& (handed + ids_of(s.pending)).no_duplicates()
        &&& forall|i: int|
            0 <= i < s.pending.len() ==> s.scratch.visited.contains((#[trigger] s.pending[i]).id)
                && !s.scratch.best.contains_id(s.pending[i].id)
    }
    &&& s.phase is Start ==> s.scratch.best.entries.len() == 0 && handed.len() == 0
    &&& s.phase is StartPoint ==> handed.len() == 0 && s.scratch.visited.contains(s.starts[0])
        && !s.scratch.best.contains_id(s.starts[0])
}

/// A start point, a poll or an expansion keeps [`keeps_apart`].
proof fn lemma_apart_step(
    prev: EarlyStopState,
    pre: EarlyStopState,
    event: Event,
    post: EarlyStopState,
    matching: Set<u32>,
    begun: Seq<u32>,
    counted: bool,
    so_far: Seq<u32>,
)
    requires
        prev.valid(),
        counts_visited(prev, begun),
        keeps_apart(prev, counted, so_far),
        pre == prev.with_visited(pre.scratch.visited),
        reports(
            prev.scratch.visited,
            reportable(event, matching),
            reported(event),
            pre.scratch.visited,
        ),
        pre.expects(event),
        pre.steps_to(event, post),
        event matches Event::OneHop { neighbors, decisions } ==> keeps_ids(
            neighbors@,
            decisions@,
        ),
    ensures
        keeps_apart(
            post,
            counted && beam_fits(pre, event),
            so_far + handed_by(pre, event),
        ),
        begun.len() <= u32::MAX || pre.config.beam_width <= u32::MAX ==> beam_fits(pre, event),
{
    let now = so_far + handed_by(pre, event);
    let queue = prev.scratch.best;
    let before = prev.scratch.visited;
    lemma_waits(queue);
    lemma_waits(post.scratch.best);
    match event {
        Event::StartIds(ids) => {
            assert(now =~= so_far);
            assert(pre.scratch.visited =~= before);
        },
        Event::StartPoint(distance) => {
            assert(now =~= so_far);
            assert(pre.scratch.visited =~= before);
            let n = pre.start_neighbor(distance);
            lemma_offer_one(queue, n);
            assert(ids_of(seq![n]) =~= seq![n.id]);
            law_offer_new_ids(queue, seq![n]);
            if pre.starts.len() > 1 {
                assert(post.starts[0] == pre.starts[1]);
                assert(!before.contains(pre.starts[1]));
                assert(!queue.contains_id(post.starts[0]));
            }
        },
        Event::EarlyTermination(stop) => {
            assert(now =~= so_far);
            assert(pre.scratch.visited =~= before);
            if !stop {
                let width = pre.config.beam_width as nat;
                law_beam_ids(queue, width);
                let beam = queue.beam(width);
                lemma_same_ids(queue, post.scratch.best);
                assert forall|i: int| 0 <= i < beam.len() implies post.scratch.visited.contains(
                    (#[trigger] beam[i]).id,
                ) && !post.scratch.best.waits(beam[i].id) by {
                    assert(queue.waits(beam[i].id));
                    assert(ids_of(beam)[i] == beam[i].id);
                }
                let all = so_far + ids_of(beam);
                assert forall|i: int, j: int|
                    0 <= i < all.len() && 0 <= j < all.len() && i != j implies all[i]
                    != all[j] by {
                    if i >= so_far.len() {
                        assert(queue.waits(beam[i - so_far.len()].id));
                    }
                    if j >= so_far.len() {
                        assert(queue.waits(beam[j - so_far.len()].id));
                    }
                }
            }
        },
        Event::OneHop { neighbors, decisions } => {
            let taken = accepted(decisions@);
            let walk = rejected(neighbors@, decisions@);
            let found = ids_of(neighbors@);
            lemma_decided_ids(neighbors@, decisions@);
            assert forall|id: u32| found.contains(id) implies !before.contains(id)
                && pre.scratch.visited.contains(id) by {
                let k = found.index_of(id);
                assert(found[k] == id);
                assert(found.to_set().contains(id));
            }
            lemma_offer_reported(queue, taken, before);
            assert forall|id: u32| ids_of(taken).contains(id) implies found.contains(id) by {
                let k = ids_of(taken).index_of(id);
                assert(taken[k].id == id);
            }
            let beam = ids_of(pre.scratch.beam_nodes);
            assert forall|i: int| 0 <= i < now.len() implies pre.scratch.visited.contains(
                #[trigger] now[i],
            ) && before.contains(now[i]) && !post.scratch.best.waits(now[i]) by {
                if i >= so_far.len() {
                    assert(now[i] == pre.scratch.beam_nodes[i - so_far.len()].id);
                } else {
                    assert(now[i] == so_far[i]);
                }
            }
            assert forall|i: int| 0 <= i < beam.len() implies before.contains(
                #[trigger] beam[i],
            ) by {
                assert(beam[i] == pre.scratch.beam_nodes[i].id);
            }
            let own = Seq::new(beam.len(), |i: int| now[so_far.len() + i]);
            assert(own =~= beam);
            assert(beam.no_duplicates()) by {
                assert forall|i: int, j: int|
                    0 <= i < beam.len() && 0 <= j < beam.len() && i != j implies beam[i]
                    != beam[j] by {
                    assert(now[so_far.len() + i] != now[so_far.len() + j]);
                }
            }
            assert(now =~= so_far + beam);
            lemma_ids_within(now, before);
            lemma_id_set(before);
            if !terminates(decisions@) {
                let pending = post.pending;
                let order = choose|order: Seq<Neighbor>|
                    {
                        &&& sorted_by_distance(order)
                        &&& #[trigger] order.to_multiset() == rejected(
                            neighbors@,
                            decisions@,
                        ).to_multiset()
                        &&& pending == order.take(
                            if order.len() <= pre.config.max_degree / 2 {
                                order.len() as int
                            } else {
                                (pre.config.max_degree / 2) as int
                            },
                        )
                    };
                lemma_reordered_ids(walk, order);
                assert forall|i: int, j: int|
                    0 <= i < pending.len() && 0 <= j < pending.len() && i != j implies ids_of(
                    pending,
                )[i] != ids_of(pending)[j] by {
                    assert(ids_of(order)[i] != ids_of(order)[j]);
                }
                assert forall|i: int| 0 <= i < pending.len() implies post.scratch.visited.contains(
                    (#[trigger] pending[i]).id,
                ) && !post.scratch.best.contains_id(pending[i].id) && !before.contains(
                    pending[i].id,
                ) by {
                    assert(walk.contains(order[i]));
                    let k = walk.index_of(pending[i]);
                    assert(found.contains(walk[k].id));
                    if ids_of(taken).contains(pending[i].id) {
                        let m = ids_of(taken).index_of(pending[i].id);
                        assert(taken[m].id == walk[k].id);
                    }
                }
                let all = now + ids_of(pending);
                assert forall|i: int, j: int|
                    0 <= i < all.len() && 0 <= j < all.len() && i != j implies all[i]
                    != all[j] by {
                    if i >= now.len() {
                        assert(all[i] == pending[i - now.len()].id);
                        assert(all[i] == ids_of(pending)[i - now.len()]);
                    } else {
                        assert(all[i] == now[i]);
                    }
                    if j >= now.len() {
                        assert(all[j] == pending[j - now.len()].id);
                        assert(all[j] == ids_of(pending)[j - now.len()]);
                    } else {
                        assert(all[j] == now[j]);
                    }
                }
            }
        },
        Event::TwoHop(neighbors) => {
            let list = neighbors@;
            let found = ids_of(list);
            assert forall|i: int| 0 <= i < list.len() implies !before.contains(
                (#[trigger] list[i]).id,
            ) && pre.scratch.visited.contains(list[i].id) by {
                assert(found[i] == list[i].id);
                assert(found.to_set().contains(found[i]));
            }
            assert forall|id: u32| found.contains(id) implies pre.scratch.visited.contains(id) by {
                let k = found.index_of(id);
                assert(list[k].id == id);
            }
            lemma_offer_reported(queue, list, before);
            let walked = ids_of(prev.pending);
            assert(now =~= so_far + walked);
            assert forall|i: int| 0 <= i < now.len() implies pre.scratch.visited.contains(
                #[trigger] now[i],
            ) && before.contains(now[i]) && !post.scratch.best.waits(now[i]) by {
                if i < so_far.len() {
                    assert(now[i] == so_far[i]);
                } else {
                    assert(now[i] == prev.pending[i - so_far.len()].id);
                    assert(!queue.contains_id(prev.pending[i - so_far.len()].id));
                }
            }
            lemma_ids_within(now, before);
            lemma_id_set(before);
        },
    }
}

/// [`keeps_apart`] holds throughout a search.
proof fn lemma_apart(
    pre: Seq<EarlyStopState>,
    events: Seq<Event>,
    post: Seq<EarlyStopState>,
    matching: Set<u32>,
    at: int,
)
    requires
        is_search(pre, events, post, matching),
        start_ids(events).no_duplicates(),
        accepts_own_ids(events),
        0 <= at < events.len(),
    ensures
        keeps_apart(
            post[at],
            beams_fit(pre, events.take(at + 1)),
            handed(pre, events.take(at + 1)),
        ),
        start_ids(events).len() <= u32::MAX || pre[0].config.beam_width <= u32::MAX ==> beams_fit(
            pre,
            events.take(at + 1),
        ),
    decreases at,
{
    lemma_at(pre, events, post, matching, at);
    let front = events.take(at);
    let now = events.take(at + 1);
    assert(now.drop_last() =~= front);
    assert(now.last() == events[at]);
    let prev = state_before(pre, post, at);
    if at > 0 {
        lemma_counts_visited(pre, events, post, matching, at - 1);
        lemma_apart(pre, events, post, matching, at - 1);
    } else {
        assert(handed(pre, front) =~= Seq::empty());
        assert(pre[0].starts =~= Seq::empty());
        assert(prev.scratch.best.ids() =~= Seq::empty());
    }
    let begun = start_ids(events);
    let counted = beams_fit(pre, front);
    let so_far = handed(pre, front);
    lemma_apart_step(prev, pre[at], events[at], post[at], matching, begun, counted, so_far);
    law_run(pre, events, post, at);
    assert(beams_fit(pre, now) <==> counted && beam_fits(pre[at], events[at])) by {
        assert forall|i: int| 0 <= i < at implies now[i] == front[i] by {}
        assert(now[at] == events[at]);
        if beams_fit(pre, now) {
            assert(beam_fits(pre[at], now[at]));
            assert forall|i: int| 0 <= i < front.len() implies beam_fits(
                #[trigger] pre[i],
                front[i],
            ) by {
                assert(beam_fits(pre[i], now[i]));
            }
        }
        if counted && beam_fits(pre[at], events[at]) {
            assert forall|i: int| 0 <= i < now.len() implies beam_fits(
                #[trigger] pre[i],
                now[i],
            ) by {
                if i < at {
                    assert(beam_fits(pre[i], front[i]));
                }
            }
        }
    }
}

/// A fresh search with distinct start points hands no node to the graph for expansion
/// twice, be it from the queue or as a rejected one to walk through; all of them are
/// visited nodes. The counter of expanded nodes is their number exactly where no
/// beam is of all ids, which is more than the counter holds; that cannot be where
/// not every id is that of a start point, or where the beam width fits the counter.
/// This presumes that visits accept neighbors under their own ids.
pub proof fn law_hands_out_once(
    pre: Seq<EarlyStopState>,
    events: Seq<Event>,
    post: Seq<EarlyStopState>,
    matching: Set<u32>,
)
    requires
        is_search(pre, events, post, matching),
        start_ids(events).no_duplicates(),
        accepts_own_ids(events),
    ensures
        handed(pre, events).no_duplicates(),
        post.last().scratch.hops == handed(pre, events).len() <==> beams_fit(pre, events),
        start_ids(events).len() <= u32::MAX || pre[0].config.beam_width <= u32::MAX
            ==> post.last().scratch.hops == handed(pre, events).len(),
        forall|i: int|
            0 <= i < handed(pre, events).len() ==> post.last().scratch.visited.contains(
                #[trigger] handed(pre, events)[i],
            ),
        post.last().scratch.hops <= post.last().scratch.visited.len(),
{
    lemma_apart(pre, events, post, matching, events.len() - 1);
    assert(events.take(events.len() as int) =~= events);
    lemma_ids_within(handed(pre, events), post.last().scratch.visited);
}

/// In the queue of a fresh search no id occurs twice, and each is that of a visited
/// node, where the start points are distinct and visits accept neighbors under their
/// own ids. Each is that of a start point or of a node in `matching`, where visits
/// accept only such nodes.
pub proof fn law_queued_ids(
    pre: Seq<EarlyStopState>,
    events: Seq<Event>,
    post: Seq<EarlyStopState>,
    matching: Set<u32>,
)
    requires
        is_search(pre, events, post, matching),
    ensures
        start_ids(events).no_duplicates() && accepts_own_ids(events)
            ==> post.last().scratch.best.ids().no_duplicates(),
        start_ids(events).no_duplicates() && accepts_own_ids(events) ==> forall|i: int|
            0 <= i < post.last().scratch.best.ids().len() ==> post.last().scratch.visited.contains(
                #[trigger] post.last().scratch.best.ids()[i],
            ),
        accepts_matching(events, matching) ==> forall|i: int|
            0 <= i < post.last().scratch.best.ids().len() ==> start_ids(events).contains(
                #[trigger] post.last().scratch.best.ids()[i],
            ) || matching.contains(post.last().scratch.best.ids()[i]),
{
    let queue = post.last().scratch.best;
    assert(queue.ids().len() == queue.entries.len());
    if start_ids(events).no_duplicates() && accepts_own_ids(events) {
        lemma_apart(pre, events, post, matching, events.len() - 1);
        assert forall|i: int| 0 <= i < queue.ids().len() implies post.last().scratch.visited.contains(
            #[trigger] queue.ids()[i],
        ) by {
            assert(queue.entries[i].neighbor.id == queue.ids()[i]);
            assert(queue.contains_id(queue.ids()[i]));
        }
    }
    if accepts_matching(events, matching) {
        assert forall|i: int| 0 <= i < queue.ids().len() implies start_ids(events).contains(
            #[trigger] queue.ids()[i],
        ) || matching.contains(queue.ids()[i]) by {
            let n = queue.neighbors()[i];
            assert(queue.neighbors().contains(n));
            lemma_walked_match(pre, events, post, matching);
            law_finds_only_matches(pre, events, post, matching, n);
            assert(pre[0].scratch.best.neighbors() =~= Seq::empty());
            if !matching.contains(n.id) {
                let j = choose|j: int|
                    0 <= j < events.len() && (#[trigger] events[j] matches Event::StartPoint(
                        distance,
                    ) && n == pre[j].start_neighbor(distance));
                lemma_starts_once(pre, events, post, j);
                lemma_starts_once(pre, events, post, j - 1);
                law_run(pre, events, post, j);
                assert(pre[j].expects(events[j]));
                assert(pre[j] == post[j - 1].with_visited(pre[j].scratch.visited));
                assert(n.id == post[j - 1].starts[0]);
            }
        }
    }
}

/// What two-hop expansion reports is in `matching`.
proof fn lemma_walked_match(
    pre: Seq<EarlyStopState>,
    events: Seq<Event>,
    post: Seq<EarlyStopState>,
    matching: Set<u32>,
)
    requires
        is_search(pre, events, post, matching),
    ensures
        forall|i: int, m: Neighbor|
            0 <= i < events.len() && (#[trigger] events[i]) is TwoHop
                && #[trigger] events[i]->TwoHop_0@.contains(m) ==> matching.contains(m.id),
{
    assert forall|i: int, m: Neighbor|
        0 <= i < events.len() && (#[trigger] events[i]) is TwoHop
            && #[trigger] events[i]->TwoHop_0@.contains(m) implies matching.contains(m.id) by {
        lemma_at(pre, events, post, matching, i);
        let list = events[i]->TwoHop_0@;
        let k = list.index_of(m);
        assert(reported(events[i])[k] == m.id);
    }
}

/// Whether all of the start points `begun` are visited, besides those still to come.
spec fn starts_visited(s: EarlyStopState, begun: Seq<u32>) -> bool {
    &&& s.phase is StartPoint ==> s.scratch.visited.contains(s.starts[0])
    &&& forall|i: int|
        0 <= i < begun.len() ==> s.scratch.visited.contains(#[trigger] begun[i])
            || s.starts.contains(begun[i])
}

/// [`starts_visited`] holds throughout a search.
proof fn lemma_starts_visited(
    pre: Seq<EarlyStopState>,
    events: Seq<Event>,
    post: Seq<EarlyStopState>,
    matching: Set<u32>,
    at: int,
)
    requires
        is_search(pre, events, post, matching),
        0 <= at < events.len(),
    ensures
        starts_visited(post[at], start_ids(events)),
    decreases at,
{
    lemma_at(pre, events, post, matching, at);
    lemma_starts_once(pre, events, post, at);
    let begun = start_ids(events);
    if at > 0 {
        lemma_starts_visited(pre, events, post, matching, at - 1);
        if let Event::StartPoint(distance) = events[at] {
            let starts = pre[at].starts;
            let rest = starts.drop_first();
            assert forall|i: int| 0 <= i < begun.len() implies post[at].scratch.visited.contains(
                #[trigger] begun[i],
            ) || rest.contains(begun[i]) by {
                if !pre[at].scratch.visited.contains(begun[i]) {
                    let k = starts.index_of(begun[i]);
                    if k > 0 {
                        assert(rest[k - 1] == begun[i]);
                    }
                }
            }
        }
    } else {
        assert(pre[0].expects(events[0]));
    }
}

/// All the ids in a trace, in order.
pub open spec fn recorded(trace: Seq<HopView<u32>>) -> Seq<u32>
    decreases trace.len(),
{
    if trace.len() == 0 {
        Seq::empty()
    } else {
        recorded(trace.drop_last()) + trace.last().one_hop_enqueued
            + trace.last().two_hop_enqueued
    }
}

/// What holds of the ids that a search has recorded, where `begun` are the start points.
spec fn records_apart(s: EarlyStopState, begun: Seq<u32>, matching: Set<u32>) -> bool {
    let all = recorded(s.trace) + s.one_hop_enqueued;
    &&& all.no_duplicates()
    &&& forall|i: int|
        0 <= i < all.len() ==> s.scratch.visited.contains(#[trigger] all[i]) && !begun.contains(
            all[i],
        )
    &&& forall|i: int, j: int|
        0 <= i < s.trace.len() && 0 <= j < s.trace[i].two_hop_enqueued.len() ==> matching.contains(
            #[trigger] s.trace[i].two_hop_enqueued[j],
        )
}

/// New ids behind recorded ones leave them distinct.
proof fn lemma_record_more(
    old_ids: Seq<u32>,
    new_ids: Seq<u32>,
    found: Seq<u32>,
    before: Set<u32>,
    now: Set<u32>,
    begun: Seq<u32>,
)
    requires
        old_ids.no_duplicates(),
        forall|i: int|
            0 <= i < old_ids.len() ==> before.contains(#[trigger] old_ids[i]) && !begun.contains(
                old_ids[i],
            ),
        new_ids.no_duplicates(),
        forall|i: int| 0 <= i < new_ids.len() ==> found.contains(#[trigger] new_ids[i]),
        forall|i: int| 0 <= i < found.len() ==> !before.contains(#[trigger] found[i]),
        now == before.union(found.to_set()),
        forall|i: int| 0 <= i < begun.len() ==> before.contains(#[trigger] begun[i]),
    ensures
        (old_ids + new_ids).no_duplicates(),
        forall|i: int|
            0 <= i < (old_ids + new_ids).len() ==> now.contains(#[trigger] (old_ids + new_ids)[i])
                && !begun.contains((old_ids + new_ids)[i]),
{
    let all = old_ids + new_ids;
    assert forall|i: int| 0 <= i < new_ids.len() implies !before.contains(#[trigger] new_ids[i])
        && now.contains(new_ids[i]) && !begun.contains(new_ids[i]) by {
        let k = found.index_of(new_ids[i]);
        assert(found[k] == new_ids[i]);
        assert(found.to_set().contains(found[k]));
    }
    assert forall|i: int| 0 <= i < all.len() implies now.contains(#[trigger] all[i])
        && !begun.contains(all[i]) by {
        if i < old_ids.len() {
            assert(all[i] == old_ids[i]);
        } else {
            assert(all[i] == new_ids[i - old_ids.len()]);
        }
    }
    assert forall|i: int, j: int| 0 <= i < all.len() && 0 <= j < all.len() && i != j implies all[i]
        != all[j] by {
        if i < old_ids.len() {
            assert(all[i] == old_ids[i]);
        } else {
            assert(all[i] == new_ids[i - old_ids.len()]);
        }
        if j < old_ids.len() {
            assert(all[j] == old_ids[j]);
        } else {
            assert(all[j] == new_ids[j - old_ids.len()]);
        }
    }
}

/// A step keeps [`records_apart`].
proof fn lemma_record_step(
    prev: EarlyStopState,
    pre: EarlyStopState,
    event: Event,
    post: EarlyStopState,
    matching: Set<u32>,
    begun: Seq<u32>,
)
    requires
        prev.valid(),
        !(prev.phase is Start) ==> starts_visited(prev, begun),
        records_apart(prev, begun, matching),
        prev.phase is Start || prev.phase is StartPoint ==> recorded(prev.trace).len() == 0
            && prev.one_hop_enqueued.len() == 0,
        pre == prev.with_visited(pre.scratch.visited),
        reports(
            prev.scratch.visited,
            reportable(event, matching),
            reported(event),
            pre.scratch.visited,
        ),
        pre.expects(event),
        pre.steps_to(event, post),
        event matches Event::OneHop { neighbors, decisions } ==> keeps_ids(
            neighbors@,
            decisions@,
        ),
    ensures
        records_apart(post, begun, matching),
        post.phase is StartPoint ==> recorded(post.trace).len() == 0
            && post.one_hop_enqueued.len() == 0,
{
    let before = prev.scratch.visited;
    let found = reported(event);
    let old_ids = recorded(prev.trace) + prev.one_hop_enqueued;
    match event {
        Event::StartIds(_) => {},
        Event::StartPoint(_) => {},
        Event::EarlyTermination(stop) => {
            assert(pre.scratch.visited =~= before);
            if !stop {
                let kept = recorded(prev.trace);
                assert(kept + Seq::<u32>::empty() =~= kept);
                assert forall|i: int| 0 <= i < kept.len() implies before.contains(
                    #[trigger] kept[i],
                ) && !begun.contains(kept[i]) by {
                    assert(old_ids[i] == kept[i]);
                }
                assert forall|i: int, j: int|
                    0 <= i < kept.len() && 0 <= j < kept.len() && i != j implies kept[i]
                    != kept[j] by {
                    assert(old_ids[i] == kept[i] && old_ids[j] == kept[j]);
                }
            }
        },
        Event::OneHop { neighbors, decisions } => {
            let taken = accepted(decisions@);
            lemma_decided_ids(neighbors@, decisions@);
            lemma_enqueued(prev.scratch.best, taken);
            let new_ids = enqueued(prev.scratch.best, taken);
            assert forall|i: int| 0 <= i < new_ids.len() implies found.contains(
                #[trigger] new_ids[i],
            ) by {
                assert(ids_of(taken).contains(new_ids[i]));
                let k = ids_of(taken).index_of(new_ids[i]);
                assert(taken[k].id == new_ids[i]);
            }
            let kept = recorded(prev.trace);
            assert forall|i: int| 0 <= i < kept.len() implies before.contains(#[trigger] kept[i])
                && !begun.contains(kept[i]) by {
                assert(old_ids[i] == kept[i]);
            }
            assert forall|i: int, j: int|
                0 <= i < kept.len() && 0 <= j < kept.len() && i != j implies kept[i] != kept[j] by {
                assert(old_ids[i] == kept[i] && old_ids[j] == kept[j]);
            }
            lemma_record_more(kept, new_ids, found, before, pre.scratch.visited, begun);
            if terminates(decisions@) {
                assert(post.trace.drop_last() =~= prev.trace);
                assert(recorded(post.trace) + post.one_hop_enqueued =~= kept + new_ids);
                assert forall|i: int, j: int|
                    0 <= i < post.trace.len() && 0 <= j
                        < post.trace[i].two_hop_enqueued.len() implies matching.contains(
                    #[trigger] post.trace[i].two_hop_enqueued[j],
                ) by {
                    if i < prev.trace.len() {
                        assert(post.trace[i] == prev.trace[i]);
                    }
                }
            } else {
                assert(post.trace == prev.trace);
            }
        },
        Event::TwoHop(neighbors) => {
            lemma_enqueued(prev.scratch.best, neighbors@);
            let new_ids = enqueued(prev.scratch.best, neighbors@);
            lemma_record_more(old_ids, new_ids, found, before, pre.scratch.visited, begun);
            if post.trace.len() > prev.trace.len() {
                assert(post.trace.drop_last() =~= prev.trace);
                assert(recorded(post.trace) + post.one_hop_enqueued =~= old_ids + new_ids);
                assert forall|i: int, j: int|
                    0 <= i < post.trace.len() && 0 <= j
                        < post.trace[i].two_hop_enqueued.len() implies matching.contains(
                    #[trigger] post.trace[i].two_hop_enqueued[j],
                ) by {
                    if i < prev.trace.len() {
                        assert(post.trace[i] == prev.trace[i]);
                    } else {
                        assert(found.contains(new_ids[j]));
                        let k = found.index_of(new_ids[j]);
                        assert(found[k] == new_ids[j]);
                    }
                }
            } else {
                assert(post.trace == prev.trace);
                assert(recorded(post.trace) + post.one_hop_enqueued =~= old_ids);
            }
        },
    }
}

/// [`records_apart`] holds throughout a search.
proof fn lemma_records(
    pre: Seq<EarlyStopState>,
    events: Seq<Event>,
    post: Seq<EarlyStopState>,
    matching: Set<u32>,
    at: int,
)
    requires
        is_search(pre, events, post, matching),
        accepts_own_ids(events),
        0 <= at < events.len(),
    ensures
        records_apart(post[at], start_ids(events), matching),
        post[at].phase is StartPoint ==> recorded(post[at].trace).len() == 0
            && post[at].one_hop_enqueued.len() == 0,
    decreases at,
{
    lemma_at(pre, events, post, matching, at);
    let prev = state_before(pre, post, at);
    if at > 0 {
        lemma_starts_visited(pre, events, post, matching, at - 1);
        lemma_records(pre, events, post, matching, at - 1);
        lemma_starts_once(pre, events, post, at - 1);
    } else {
        assert(pre[0].starts =~= Seq::empty());
        assert(recorded(prev.trace) + prev.one_hop_enqueued =~= Seq::empty());
    }
    lemma_record_step(prev, pre[at], events[at], post[at], matching, start_ids(events));
}

/// In the trace of a fresh search, hops are numbered from zero, no id occurs twice over all
/// the hops, none is that of a start point, each is that of a visited node, and
/// what was found behind rejected nodes is in `matching`. This presumes that visits
/// accept neighbors under their own ids.
pub proof fn law_records_once(
    pre: Seq<EarlyStopState>,
    events: Seq<Event>,
    post: Seq<EarlyStopState>,
    matching: Set<u32>,
)
    requires
        is_search(pre, events, post, matching),
        accepts_own_ids(events),
    ensures
        forall|i: int|
            0 <= i < post.last().trace.len() ==> (#[trigger] post.last().trace[i]).hop_index == i,
        recorded(post.last().trace).no_duplicates(),
        forall|i: int|
            0 <= i < recorded(post.last().trace).len() ==> !start_ids(events).contains(
                #[trigger] recorded(post.last().trace)[i],
            ) && post.last().scratch.visited.contains(recorded(post.last().trace)[i]),
        forall|i: int, j: int|
            0 <= i < post.last().trace.len() && 0 <= j
                < post.last().trace[i].two_hop_enqueued.len() ==> matching.contains(
                #[trigger] post.last().trace[i].two_hop_enqueued[j],
            ),
{
    let last = events.len() - 1;
    law_run(pre, events, post, last);
    lemma_records(pre, events, post, matching, last);
    let ids = recorded(post.last().trace);
    let all = ids + post.last().one_hop_enqueued;
    assert forall|i: int| 0 <= i < ids.len() implies !start_ids(events).contains(#[trigger] ids[i])
        && post.last().scratch.visited.contains(ids[i]) by {
        assert(all[i] == ids[i]);
    }
    assert forall|i: int, j: int| 0 <= i < ids.len() && 0 <= j < ids.len() && i != j implies ids[i]
        != ids[j] by {
        assert(all[i] == ids[i] && all[j] == ids[j]);
    }
}

} // verus!
