//! What holds of the ids that a [`crate::multihop_search_dev::DevSearch`] meets,
//! from a fresh start on.

use vstd::prelude::*;
use crate::label::{accepted, keeps_ids, lemma_decided_ids, rejected, QueryVisitDecision};
use crate::multihop_search_dev::{DevState, Event};
use crate::multihop_search_dev_laws::{is_run, law_finds_only_matches, law_run};
use crate::neighbor::{ids_of, lemma_reordered_ids, Neighbor};
use crate::queue_id_laws::{law_beam_ids, law_offer_new_ids};
use crate::queue_id_laws::{lemma_offer_reported, lemma_same_ids, lemma_waits};
use crate::queue_laws::lemma_offer_one;
use crate::scratch::ScratchView;
use crate::visited::{lemma_id_set, lemma_ids_within, lemma_reports_len, reports};

verus! {

/// The ids that a search hands to the graph for expansion, to be answered by `event`.
pub open spec fn handed_by(state: DevState, event: Event) -> Seq<u32> {
    match event {
        Event::OneHop { .. } => ids_of(state.scratch.beam_nodes),
        Event::TwoHop(_) => seq![state.pending[0].id],
        _ => Seq::empty(),
    }
}

/// All the ids that a search hands to the graph for expansion, in order.
pub open spec fn handed(pre: Seq<DevState>, events: Seq<Event>) -> Seq<u32>
    decreases events.len(),
{
    if events.len() == 0 {
        Seq::empty()
    } else {
        handed(pre, events.drop_last()) + handed_by(pre[events.len() - 1], events.last())
    }
}

/// The ids that the expansion before `event` reports.
pub open spec fn reported(event: Event) -> Seq<u32> {
    match event {
        Event::OneHop { neighbors, .. } => ids_of(neighbors@),
        Event::TwoHop(neighbors) => ids_of(neighbors@),
        _ => Seq::empty(),
    }
}

/// The ids that the expansion before `event` may report.
pub open spec fn reportable(event: Event, matching: Set<u32>) -> Set<u32> {
    match event {
        Event::TwoHop(_) => matching,
        _ => Set::full(),
    }
}

/// Whether a search begins on an empty queue, with no node visited and nothing counted.
pub open spec fn is_fresh(state: DevState) -> bool {
    &&& state == DevState::initial(state.config, state.scratch)
    &&& state.scratch.visited == Set::<u32>::empty()
    &&& state.scratch.best.entries.len() == 0
    &&& state.scratch.comparisons == 0
    &&& state.scratch.hops == 0
}

/// The ids of the start points.
pub open spec fn start_ids(events: Seq<Event>) -> Seq<u32> {
    match events[0] {
        Event::StartIds(ids) => ids@,
        _ => Seq::empty(),
    }
}

/// The nodes that were visited when the expansion before event `i` began.
pub open spec fn visited_before(pre: Seq<DevState>, post: Seq<DevState>, i: int) -> Set<u32> {
    if i == 0 {
        pre[0].scratch.visited
    } else {
        post[i - 1].scratch.visited
    }
}

/// Whether the events lead a fresh search from state to state, where each expansion
/// reports the nodes that its predicate admits:
/// those not yet visited and, behind a rejected node, in `matching`.
pub open spec fn is_search(
    pre: Seq<DevState>,
    events: Seq<Event>,
    post: Seq<DevState>,
    matching: Set<u32>,
) -> bool {
    &&& is_run(pre, events, post)
    &&& is_fresh(pre[0])
    &&& forall|i: int| 0 <= i < events.len() ==> (#[trigger] pre[i]).fits(events[i])
    &&& forall|i: int|
        0 <= i < events.len() ==> reports(
            visited_before(pre, post, i),
            reportable(events[i], matching),
            reported(events[i]),
            (#[trigger] pre[i]).scratch.visited,
        )
}

/// Whether the visits of a search accept each neighbor under its own id, if at all.
pub open spec fn accepts_own_ids(events: Seq<Event>) -> bool {
    forall|i: int|
        0 <= i < events.len() ==> (#[trigger] events[i] matches Event::OneHop {
            neighbors,
            decisions,
        } ==> keeps_ids(neighbors@, decisions@))
}

/// Whether the visits of a search accept only nodes in `matching`.
pub open spec fn accepts_matching(events: Seq<Event>, matching: Set<u32>) -> bool {
    forall|i: int, d: QueryVisitDecision|
        0 <= i < events.len() && (#[trigger] events[i]) is OneHop
            && #[trigger] events[i]->decisions@.contains(d) ==> (d matches
            QueryVisitDecision::Accept(a) ==> matching.contains(a.id))
}

/// The state before the expansion that event `i` answers.
spec fn state_before(pre: Seq<DevState>, post: Seq<DevState>, i: int) -> DevState {
    if i == 0 {
        pre[0]
    } else {
        post[i - 1]
    }
}

/// What the counter of distances has to do with the visited nodes: only a start
/// point that is being fetched is visited and not yet counted.
spec fn counts_visited(s: DevState) -> bool {
    &&& s.scratch.visited.len() == s.scratch.comparisons + if s.phase is StartPoint {
        1int
    } else {
        0int
    }
    &&& s.scratch.comparisons <= u32::MAX
    &&& s.phase is Start ==> s.scratch.visited == Set::<u32>::empty()
        && s.scratch.best.entries.len() == 0
    &&& !(s.phase is Start || s.phase is Done) ==> s.scratch.visited.len() > 0
    &&& s.starts.no_duplicates()
    &&& forall|i: int|
        0 < i < s.starts.len() ==> !s.scratch.visited.contains(#[trigger] s.starts[i])
}

/// Turning to the next start point visits it.
proof fn lemma_to_start(s: DevState)
    requires
        s.scratch.visited.len() == s.scratch.comparisons,
        s.scratch.comparisons <= u32::MAX,
        s.starts.len() == 0 ==> s.scratch.visited.len() > 0 || s.scratch.best.entries.len() == 0,
        s.starts.no_duplicates(),
        forall|i: int|
            0 <= i < s.starts.len() ==> !s.scratch.visited.contains(#[trigger] s.starts[i]),
    ensures
        counts_visited(s.to_start()),
{
    lemma_id_set(s.scratch.visited);
    if s.starts.len() > 0 {
        let post = s.to_start();
        assert forall|i: int| 0 < i < post.starts.len() implies !post.scratch.visited.contains(
            #[trigger] post.starts[i],
        ) by {
            assert(s.starts[i] != s.starts[0]);
        }
    }
}

/// A step keeps [`counts_visited`].
proof fn lemma_count_step(
    prev: DevState,
    pre: DevState,
    event: Event,
    post: DevState,
    matching: Set<u32>,
)
    requires
        prev.valid(),
        counts_visited(prev),
        pre == prev.with_visited(pre.scratch.visited),
        reports(
            prev.scratch.visited,
            reportable(event, matching),
            reported(event),
            pre.scratch.visited,
        ),
        pre.expects(event),
        pre.fits(event),
        pre.steps_to(event, post),
        event matches Event::StartIds(ids) ==> ids@.no_duplicates(),
    ensures
        counts_visited(post),
{
    lemma_reports_len(
        prev.scratch.visited,
        reportable(event, matching),
        reported(event),
        pre.scratch.visited,
    );
    lemma_id_set(pre.scratch.visited);
    match event {
        Event::StartIds(ids) => {
            assert(pre.scratch.visited =~= Set::empty());
            lemma_to_start(DevState { starts: ids@, ..pre });
        },
        Event::StartPoint(distance) => {
            assert(pre.scratch.visited =~= prev.scratch.visited);
            let rest = pre.starts.drop_first();
            assert forall|i: int| 0 <= i < rest.len() implies !pre.scratch.visited.contains(
                #[trigger] rest[i],
            ) by {
                assert(rest[i] == pre.starts[i + 1]);
            }
            assert forall|i: int, j: int|
                0 <= i < rest.len() && 0 <= j < rest.len() && i != j implies rest[i] != rest[j] by {
                assert(rest[i] == pre.starts[i + 1] && rest[j] == pre.starts[j + 1]);
            }
            lemma_to_start(
                DevState {
                    scratch: ScratchView {
                        best: pre.scratch.best.insert(pre.start_neighbor(distance)),
                        comparisons: pre.scratch.comparisons + 1,
                        ..pre.scratch
                    },
                    starts: rest,
                    ..pre
                },
            );
        },
        Event::EarlyTermination(_) => {
            assert(pre.scratch.visited =~= prev.scratch.visited);
        },
        Event::OneHop { neighbors, decisions } => {
            assert(ids_of(neighbors@).len() == neighbors@.len());
        },
        Event::TwoHop(neighbors) => {
            assert(ids_of(neighbors@).len() == neighbors@.len());
        },
    }
}

/// The events of a search lead from state to state.
proof fn lemma_at(
    pre: Seq<DevState>,
    events: Seq<Event>,
    post: Seq<DevState>,
    matching: Set<u32>,
    at: int,
)
    requires
        is_search(pre, events, post, matching),
        0 <= at < events.len(),
    ensures
        state_before(pre, post, at).valid(),
        pre[at] == state_before(pre, post, at).with_visited(pre[at].scratch.visited),
        reports(
            state_before(pre, post, at).scratch.visited,
            reportable(events[at], matching),
            reported(events[at]),
            pre[at].scratch.visited,
        ),
        pre[at].expects(events[at]),
        pre[at].fits(events[at]),
        pre[at].steps_to(events[at], post[at]),
        events[at] is StartIds ==> state_before(pre, post, at).phase is Start,
{
    assert(pre[at].fits(events[at]));
    if at > 0 {
        law_run(pre, events, post, at - 1);
    }
}

/// Only the first event brings the ids of start points.
proof fn lemma_starts_once(pre: Seq<DevState>, events: Seq<Event>, post: Seq<DevState>, at: int)
    requires
        is_run(pre, events, post),
        is_fresh(pre[0]),
        0 <= at < events.len(),
    ensures
        !(post[at].phase is Start),
        events[at] is StartIds <==> at == 0,
        forall|j: int|
            0 <= j < post[at].starts.len() ==> start_ids(events).contains(
                #[trigger] post[at].starts[j],
            ),
    decreases at,
{
    assert(pre[at].expects(events[at]) && pre[at].steps_to(events[at], post[at]));
    if at > 0 {
        lemma_starts_once(pre, events, post, at - 1);
        law_run(pre, events, post, at - 1);
        assert(pre[at] == post[at - 1].with_visited(pre[at].scratch.visited));
        if let Event::StartPoint(distance) = events[at] {
            assert forall|j: int| 0 <= j < post[at].starts.len() implies start_ids(
                events,
            ).contains(#[trigger] post[at].starts[j]) by {
                assert(post[at].starts[j] == post[at - 1].starts[j + 1]);
            }
        }
    } else {
        assert(post[0].starts == start_ids(events));
    }
}

/// The counter follows the visited nodes through a search.
proof fn lemma_counts_visited(
    pre: Seq<DevState>,
    events: Seq<Event>,
    post: Seq<DevState>,
    matching: Set<u32>,
    at: int,
)
    requires
        is_search(pre, events, post, matching),
        start_ids(events).no_duplicates(),
        0 <= at < events.len(),
    ensures
        counts_visited(post[at]),
    decreases at,
{
    lemma_at(pre, events, post, matching, at);
    lemma_starts_once(pre, events, post, at);
    if at > 0 {
        lemma_counts_visited(pre, events, post, matching, at - 1);
    } else {
        assert(pre[0].starts =~= Seq::empty());
    }
    lemma_count_step(state_before(pre, post, at), pre[at], events[at], post[at], matching);
}

/// A fresh search with distinct start points computes one distance for each node that
/// it visits: one for each start point and for each neighbor that an expansion reports, and none for a node
/// that is filtered out. Only a start point that is being fetched is visited and
/// not yet counted.
pub proof fn law_compares_visited(
    pre: Seq<DevState>,
    events: Seq<Event>,
    post: Seq<DevState>,
    matching: Set<u32>,
)
    requires
        is_search(pre, events, post, matching),
        start_ids(events).no_duplicates(),
    ensures
        post.last().phase is StartPoint ==> post.last().scratch.comparisons + 1
            == post.last().scratch.visited.len(),
        !(post.last().phase is StartPoint) ==> post.last().scratch.comparisons
            == post.last().scratch.visited.len(),
{
    lemma_counts_visited(pre, events, post, matching, events.len() - 1);
}

/// What holds of the ids that a search has met and handed out.
spec fn keeps_apart(s: DevState, handed: Seq<u32>) -> bool {
    &&& s.scratch.best.ids().no_duplicates()
    &&& forall|id: u32| #[trigger]
        s.scratch.best.contains_id(id) ==> s.scratch.visited.contains(id)
    &&& handed.no_duplicates()
    &&& forall|i: int|
        0 <= i < handed.len() ==> s.scratch.visited.contains(#[trigger] handed[i])
            && !s.scratch.best.waits(handed[i])
    &&& s.scratch.hops == handed.len()
    &&& s.phase is OneHop ==> {
        &&& (handed + ids_of(s.scratch.beam_nodes)).no_duplicates()
        &&& forall|i: int|
            0 <= i < s.scratch.beam_nodes.len() ==> s.scratch.visited.contains(
                (#[trigger] s.scratch.beam_nodes[i]).id,
            ) && !s.scratch.best.waits(s.scratch.beam_nodes[i].id)
    }
    &&& s.phase is Candidate || s.phase is TwoHop ==> {
        &&& (handed + ids_of(s.pending)).no_duplicates()
        &&& forall|i: int|
            0 <= i < s.pending.len() ==> s.scratch.visited.contains((#[trigger] s.pending[i]).id)
                && !s.scratch.best.contains_id(s.pending[i].id)
    }
    &&& s.phase is Start ==> s.scratch.best.entries.len() == 0 && handed.len() == 0
    &&& s.phase is StartPoint ==> handed.len() == 0 && s.scratch.visited.contains(s.starts[0])
        && !s.scratch.best.contains_id(s.starts[0])
}

/// A start point, a poll or an expansion keeps [`keeps_apart`].
proof fn lemma_apart_step(
    prev: DevState,
    pre: DevState,
    event: Event,
    post: DevState,
    matching: Set<u32>,
    so_far: Seq<u32>,
)
    requires
        prev.valid(),
        counts_visited(prev),
        keeps_apart(prev, so_far),
        pre == prev.with_visited(pre.scratch.visited),
        reports(
            prev.scratch.visited,
            reportable(event, matching),
            reported(event),
            pre.scratch.visited,
        ),
        pre.expects(event),
        pre.steps_to(event, post),
        event matches Event::OneHop { neighbors, decisions } ==> keeps_ids(
            neighbors@,
            decisions@,
        ),
    ensures
        keeps_apart(post, so_far + handed_by(pre, event)),
{
    let now = so_far + handed_by(pre, event);
    let queue = prev.scratch.best;
    let before = prev.scratch.visited;
    lemma_waits(queue);
    lemma_waits(post.scratch.best);
    match event {
        Event::StartIds(ids) => {
            assert(now =~= so_far);
            assert(pre.scratch.visited =~= before);
        },
        Event::StartPoint(distance) => {
            assert(now =~= so_far);
            assert(pre.scratch.visited =~= before);
            let n = pre.start_neighbor(distance);
            lemma_offer_one(queue, n);
            assert(ids_of(seq![n]) =~= seq![n.id]);
            law_offer_new_ids(queue, seq![n]);
            if pre.starts.len() > 1 {
                assert(post.starts[0] == pre.starts[1]);
                assert(!before.contains(pre.starts[1]));
                assert(!queue.contains_id(post.starts[0]));
            }
        },
        Event::EarlyTermination(stop) => {
            assert(now =~= so_far);
            assert(pre.scratch.visited =~= before);
            if !stop && !(pre.phase is Candidate) {
                let width = pre.config.beam_width as nat;
                law_beam_ids(queue, width);
                let beam = queue.beam(width);
                lemma_same_ids(queue, post.scratch.best);
                assert forall|i: int| 0 <= i < beam.len() implies post.scratch.visited.contains(
                    (#[trigger] beam[i]).id,
                ) && !post.scratch.best.waits(beam[i].id) by {
                    assert(queue.waits(beam[i].id));
                    assert(ids_of(beam)[i] == beam[i].id);
                }
                let all = so_far + ids_of(beam);
                assert forall|i: int, j: int|
                    0 <= i < all.len() && 0 <= j < all.len() && i != j implies all[i]
                    != all[j] by {
                    if i >= so_far.len() {
                        assert(queue.waits(beam[i - so_far.len()].id));
                    }
                    if j >= so_far.len() {
                        assert(queue.waits(beam[j - so_far.len()].id));
                    }
                }
            }
        },
        Event::OneHop { neighbors, decisions } => {
            let taken = accepted(decisions@);
            let walk = rejected(neighbors@, decisions@);
            let found = ids_of(neighbors@);
            lemma_decided_ids(neighbors@, decisions@);
            assert forall|id: u32| found.contains(id) implies !before.contains(id)
                && pre.scratch.visited.contains(id) by {
                let k = found.index_of(id);
                assert(found[k] == id);
                assert(found.to_set().contains(id));
            }
            lemma_offer_reported(queue, taken, before);
            assert forall|id: u32| ids_of(taken).contains(id) implies found.contains(id) by {
                let k = ids_of(taken).index_of(id);
                assert(taken[k].id == id);
            }
            let beam = ids_of(pre.scratch.beam_nodes);
            assert forall|i: int| 0 <= i < now.len() implies pre.scratch.visited.contains(
                #[trigger] now[i],
            ) && before.contains(now[i]) && !post.scratch.best.waits(now[i]) by {
                if i >= so_far.len() {
                    assert(now[i] == pre.scratch.beam_nodes[i - so_far.len()].id);
                } else {
                    assert(now[i] == so_far[i]);
                }
            }
            assert forall|i: int| 0 <= i < beam.len() implies before.contains(
                #[trigger] beam[i],
            ) by {
                assert(beam[i] == pre.scratch.beam_nodes[i].id);
            }
            let own = Seq::new(beam.len(), |i: int| now[so_far.len() + i]);
            assert(own =~= beam);
            assert(beam.no_duplicates()) by {
                assert forall|i: int, j: int|
                    0 <= i < beam.len() && 0 <= j < beam.len() && i != j implies beam[i]
                    != beam[j] by {
                    assert(now[so_far.len() + i] != now[so_far.len() + j]);
                }
            }
            lemma_ids_within(beam, before);
            if DevState::goes_two_hop(neighbors@, decisions@) {
                let pending = post.pending;
                lemma_reordered_ids(walk, pending);
                assert forall|i: int| 0 <= i < pending.len() implies post.scratch.visited.contains(
                    (#[trigger] pending[i]).id,
                ) && !post.scratch.best.contains_id(pending[i].id) && !before.contains(
                    pending[i].id,
                ) by {
                    assert(walk.contains(pending[i]));
                    let k = walk.index_of(pending[i]);
                    assert(found.contains(walk[k].id));
                    if ids_of(taken).contains(pending[i].id) {
                        let m = ids_of(taken).index_of(pending[i].id);
                        assert(taken[m].id == walk[k].id);
                    }
                }
                let all = now + ids_of(pending);
                assert forall|i: int, j: int|
                    0 <= i < all.len() && 0 <= j < all.len() && i != j implies all[i]
                    != all[j] by {
                    if i >= now.len() {
                        assert(all[i] == pending[i - now.len()].id);
                        assert(all[i] == ids_of(pending)[i - now.len()]);
                    } else {
                        assert(all[i] == now[i]);
                    }
                    if j >= now.len() {
                        assert(all[j] == pending[j - now.len()].id);
                        assert(all[j] == ids_of(pending)[j - now.len()]);
                    } else {
                        assert(all[j] == now[j]);
                    }
                }
            }
        },
        Event::TwoHop(neighbors) => {
            let list = neighbors@;
            let found = ids_of(list);
            assert forall|i: int| 0 <= i < list.len() implies !before.contains(
                (#[trigger] list[i]).id,
            ) && pre.scratch.visited.contains(list[i].id) by {
                assert(found[i] == list[i].id);
                assert(found.to_set().contains(found[i]));
            }
            assert forall|id: u32| found.contains(id) implies pre.scratch.visited.contains(id) by {
                let k = found.index_of(id);
                assert(list[k].id == id);
            }
            lemma_offer_reported(queue, list, before);
            let first = prev.pending[0].id;
            assert(now =~= so_far.push(first));
            let all = so_far + ids_of(prev.pending);
            assert(all[so_far.len() as int] == first);
            assert forall|i: int| 0 <= i < now.len() implies pre.scratch.visited.contains(
                #[trigger] now[i],
            ) && before.contains(now[i]) && !post.scratch.best.waits(now[i]) by {
                if i < so_far.len() {
                    assert(now[i] == so_far[i]);
                } else {
                    assert(!queue.contains_id(prev.pending[0].id));
                }
            }
            assert forall|i: int, j: int|
                0 <= i < now.len() && 0 <= j < now.len() && i != j implies now[i] != now[j] by {
                assert(now[i] == all[i] && now[j] == all[j]);
            }
            assert(now + ids_of(post.pending) =~= all);
            assert forall|i: int| 0 <= i < post.pending.len() implies post.scratch.visited.contains(
                (#[trigger] post.pending[i]).id,
            ) && !post.scratch.best.contains_id(post.pending[i].id) by {
                assert(post.pending[i] == prev.pending[i + 1]);
            }
        },
    }
}

/// [`keeps_apart`] holds throughout a search.
proof fn lemma_apart(
    pre: Seq<DevState>,
    events: Seq<Event>,
    post: Seq<DevState>,
    matching: Set<u32>,
    at: int,
)
    requires
        is_search(pre, events, post, matching),
        start_ids(events).no_duplicates(),
        accepts_own_ids(events),
        0 <= at < events.len(),
    ensures
        keeps_apart(post[at], handed(pre, events.take(at + 1))),
    decreases at,
{
    lemma_at(pre, events, post, matching, at);
    let front = events.take(at);
    let now = events.take(at + 1);
    assert(now.drop_last() =~= front);
    assert(now.last() == events[at]);
    let prev = state_before(pre, post, at);
    if at > 0 {
        lemma_counts_visited(pre, events, post, matching, at - 1);
        lemma_apart(pre, events, post, matching, at - 1);
    } else {
        assert(handed(pre, front) =~= Seq::empty());
        assert(pre[0].starts =~= Seq::empty());
        assert(prev.scratch.best.ids() =~= Seq::empty());
    }
    lemma_apart_step(prev, pre[at], events[at], post[at], matching, handed(pre, front));
}

/// A fresh search with distinct start points hands no node to the graph for expansion
/// twice, be it from the queue or as a rejected one to walk through; all of them are
/// visited nodes, and the counter of expanded nodes is their number. This presumes
/// that visits accept neighbors under their own ids.
pub proof fn law_hands_out_once(
    pre: Seq<DevState>,
    events: Seq<Event>,
    post: Seq<DevState>,
    matching: Set<u32>,
)
    requires
        is_search(pre, events, post, matching),
        start_ids(events).no_duplicates(),
        accepts_own_ids(events),
    ensures
        handed(pre, events).no_duplicates(),
        post.last().scratch.hops == handed(pre, events).len(),
        forall|i: int|
            0 <= i < handed(pre, events).len() ==> post.last().scratch.visited.contains(
                #[trigger] handed(pre, events)[i],
            ),
        post.last().scratch.hops <= post.last().scratch.visited.len(),
{
    lemma_apart(pre, events, post, matching, events.len() - 1);
    assert(events.take(events.len() as int) =~= events);
    lemma_ids_within(handed(pre, events), post.last().scratch.visited);
}

/// In the queue of a fresh search no id occurs twice, and each is that of a visited
/// node, where the start points are distinct and visits accept neighbors under their
/// own ids. Each is that of a start point or of a node in `matching`, where visits
/// accept only such nodes.
pub proof fn law_queued_ids(
    pre: Seq<DevState>,
    events: Seq<Event>,
    post: Seq<DevState>,
    matching: Set<u32>,
)
    requires
        is_search(pre, events, post, matching),
    ensures
        start_ids(events).no_duplicates() && accepts_own_ids(events)
            ==> post.last().scratch.best.ids().no_duplicates(),
        start_ids(events).no_duplicates() && accepts_own_ids(events) ==> forall|i: int|
            0 <= i < post.last().scratch.best.ids().len() ==> post.last().scratch.visited.contains(
                #[trigger] post.last().scratch.best.ids()[i],
            ),
        accepts_matching(events, matching) ==> forall|i: int|
            0 <= i < post.last().scratch.best.ids().len() ==> start_ids(events).contains(
                #[trigger] post.last().scratch.best.ids()[i],
            ) || matching.contains(post.last().scratch.best.ids()[i]),
{
    let queue = post.last().scratch.best;
    assert(queue.ids().len() == queue.entries.len());
    if start_ids(events).no_duplicates() && accepts_own_ids(events) {
        lemma_apart(pre, events, post, matching, events.len() - 1);
        assert forall|i: int| 0 <= i < queue.ids().len() implies post.last().scratch.visited.contains(
            #[trigger] queue.ids()[i],
        ) by {
            assert(queue.entries[i].neighbor.id == queue.ids()[i]);
            assert(queue.contains_id(queue.ids()[i]));
        }
    }
    if accepts_matching(events, matching) {
        assert forall|i: int| 0 <= i < queue.ids().len() implies start_ids(events).contains(
            #[trigger] queue.ids()[i],
        ) || matching.contains(queue.ids()[i]) by {
            let n = queue.neighbors()[i];
            assert(queue.neighbors().contains(n));
            lemma_walked_match(pre, events, post, matching);
            law_finds_only_matches(pre, events, post, matching, n);
            assert(pre[0].scratch.best.neighbors() =~= Seq::empty());
            if !matching.contains(n.id) {
                let j = choose|j: int|
                    0 <= j < events.len() && (#[trigger] events[j] matches Event::StartPoint(
                        distance,
                    ) && n == pre[j].start_neighbor(distance));
                lemma_starts_once(pre, events, post, j);
                lemma_starts_once(pre, events, post, j - 1);
                law_run(pre, events, post, j);
                assert(pre[j].expects(events[j]));
                assert(pre[j] == post[j - 1].with_visited(pre[j].scratch.visited));
                assert(n.id == post[j - 1].starts[0]);
            }
        }
    }
}

/// What two-hop expansion reports is in `matching`.
proof fn lemma_walked_match(
    pre: Seq<DevState>,
    events: Seq<Event>,
    post: Seq<DevState>,
    matching: Set<u32>,
)
    requires
        is_search(pre, events, post, matching),
    ensures
        forall|i: int, m: Neighbor|
            0 <= i < events.len() && (#[trigger] events[i]) is TwoHop
                && #[trigger] events[i]->TwoHop_0@.contains(m) ==> matching.contains(m.id),
{
    assert forall|i: int, m: Neighbor|
        0 <= i < events.len() && (#[trigger] events[i]) is TwoHop
            && #[trigger] events[i]->TwoHop_0@.contains(m) implies matching.contains(m.id) by {
        lemma_at(pre, events, post, matching, i);
        let list = events[i]->TwoHop_0@;
        let k = list.index_of(m);
        assert(reported(events[i])[k] == m.id);
    }
}

} // verus!
