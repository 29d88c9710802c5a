//! Label filters: which nodes of the graph match a query.

use vstd::prelude::*;
use crate::neighbor::{ids_of, Neighbor};

verus! {

/// What a search does with a neighbor that it visits.
#[derive(Clone, Copy, Debug, PartialEq, Eq, Structural)]
pub enum QueryVisitDecision {
    /// Take this neighbor into the queue.
    Accept(Neighbor),
    /// Keep the neighbor out, but allow walking through it.
    Reject,
    /// End the search.
    Terminate,
}

/// The share of all points that a filter matches: `matching` out of `total`.
#[derive(Clone, Copy, Debug, PartialEq, Eq, Structural)]
pub struct Selectivity {
    pub matching: usize,
    pub total: usize,
}

/// Tells which nodes match the label filter of a query.
pub trait QueryLabelProvider {
    /// Whether the node `id` matches.
    spec fn matches(&self, id: u32) -> bool;

    /// Whether `decision` is an answer that [`QueryLabelProvider::on_visit`]
    /// may give for `neighbor`.
    spec fn may_decide(&self, neighbor: Neighbor, decision: QueryVisitDecision) -> bool;

    /// The share of points that match, where it is known.
    spec fn selectivity(&self) -> Option<Selectivity>;

    /// Whether the node `id` matches.
    fn is_match(&self, id: u32) -> (r: bool)
        ensures
            r == self.matches(id),
    ;

    /// Decides what happens to a visited neighbor.
    fn on_visit(&self, neighbor: Neighbor) -> (decision: QueryVisitDecision)
        ensures
            self.may_decide(neighbor, decision),
    ;

    /// The share of points that match, where it is known.
    fn global_selectivity(&self) -> (r: Option<Selectivity>)
        ensures
            r == self.selectivity(),
    ;
}

/// The nodes that match a filter.
pub open spec fn matching_ids<L: QueryLabelProvider + ?Sized>(evaluator: &L) -> Set<u32> {
    Set::new(|id: u32| evaluator.matches(id))
}

/// The decision of a plain filter: accept what matches, reject what does not.
pub open spec fn plain_decision(matches: bool, neighbor: Neighbor) -> QueryVisitDecision {
    if matches {
        QueryVisitDecision::Accept(neighbor)
    } else {
        QueryVisitDecision::Reject
    }
}

/// Accepts `neighbor` if it matches, rejects it otherwise.
pub fn decide_by_match(matches: bool, neighbor: Neighbor) -> (decision: QueryVisitDecision)
    ensures
        decision == plain_decision(matches, neighbor),
        matches ==> decision == QueryVisitDecision::Accept(neighbor),
        !matches ==> decision == QueryVisitDecision::Reject,
{
    if matches {
        QueryVisitDecision::Accept(neighbor)
    } else {
        QueryVisitDecision::Reject
    }
}

/// Whether `decisions` answers `count` neighbors one by one, up to and
/// including the first answer that ends the search.
pub open spec fn answers(decisions: Seq<QueryVisitDecision>, count: nat) -> bool {
    &&& decisions.len() <= count
    &&& forall|i: int| 0 <= i < decisions.len() - 1 ==> (#[trigger] decisions[i]) !is Terminate
    &&& decisions.len() == count || terminates(decisions)
}

/// Whether the last of the decisions ends the search.
pub open spec fn terminates(decisions: Seq<QueryVisitDecision>) -> bool {
    decisions.len() > 0 && decisions.last() is Terminate
}

/// The neighbors that were accepted, in order.
pub open spec fn accepted(decisions: Seq<QueryVisitDecision>) -> Seq<Neighbor>
    decreases decisions.len(),
{
    if decisions.len() == 0 {
        Seq::empty()
    } else {
        let before = accepted(decisions.drop_last());
        match decisions.last() {
            QueryVisitDecision::Accept(n) => before.push(n),
            _ => before,
        }
    }
}

/// The neighbors that were rejected, in order.
pub open spec fn rejected(
    neighbors: Seq<Neighbor>,
    decisions: Seq<QueryVisitDecision>,
) -> Seq<Neighbor>
    recommends
        decisions.len() <= neighbors.len(),
    decreases decisions.len(),
{
    if decisions.len() == 0 {
        Seq::empty()
    } else {
        let before = rejected(neighbors, decisions.drop_last());
        match decisions.last() {
            QueryVisitDecision::Reject => before.push(neighbors[decisions.len() - 1]),
            _ => before,
        }
    }
}

/// Asks the filter about the visited neighbors in order, up to the first answer
/// that ends the search.
pub fn visit_all<L: QueryLabelProvider + ?Sized>(evaluator: &L, neighbors: &Vec<Neighbor>) -> (
    decisions: Vec<QueryVisitDecision>)
    ensures
        answers(decisions@, neighbors@.len()),
        decisions@.len() <= neighbors@.len(),
        decisions@.len() < neighbors@.len() ==> decisions@.len() > 0
            && decisions@[decisions@.len() - 1] is Terminate,
        forall|i: int| 0 <= i < decisions@.len() - 1 ==> (#[trigger] decisions@[i]) !is Terminate,
        forall|i: int|
            0 <= i < decisions@.len() ==> evaluator.may_decide(
                neighbors@[i],
                #[trigger] decisions@[i],
            ),
{
    let mut decisions: Vec<QueryVisitDecision> = Vec::with_capacity(neighbors.len());
    let mut i: usize = 0;
    while i < neighbors.len()
        invariant
            i == decisions@.len(),
            i <= neighbors@.len(),
            forall|j: int| 0 <= j < i ==> (#[trigger] decisions@[j]) !is Terminate,
            forall|j: int|
                0 <= j < i ==> evaluator.may_decide(neighbors@[j], #[trigger] decisions@[j]),
        decreases neighbors@.len() - i,
    {
        let decision: QueryVisitDecision = evaluator.on_visit(neighbors[i]);
        decisions.push(decision);
        if let QueryVisitDecision::Terminate = decision {
            return decisions;
        }
        i = i + 1;
    }
    decisions
}

/// Parts the visited neighbors into the accepted and the rejected ones.
pub fn partition(neighbors: &Vec<Neighbor>, decisions: &Vec<QueryVisitDecision>) -> (r: (
    Vec<Neighbor>,
    Vec<Neighbor>,
))
    requires
        decisions@.len() <= neighbors@.len(),
    ensures
        r.0@ == accepted(decisions@),
        r.1@ == rejected(neighbors@, decisions@),
        r.0@ == decisions@.filter(|d: QueryVisitDecision| d is Accept).map_values(
            |d: QueryVisitDecision| d->Accept_0,
        ),
        r.1@ == Seq::new(decisions@.len(), |i: int| i).filter(
            |i: int| decisions@[i] is Reject,
        ).map_values(|i: int| neighbors@[i]),
        r.0@.len() <= decisions@.len(),
{
    let mut taken: Vec<Neighbor> = Vec::new();
    let mut walk: Vec<Neighbor> = Vec::new();
    assert(decisions@.take(0) =~= Seq::empty());
    for i in 0..decisions.len()
        invariant
            decisions@.len() <= neighbors@.len(),
            taken@ == accepted(decisions@.take(i as int)),
            taken@.len() <= i,
            walk@ == rejected(neighbors@, decisions@.take(i as int)),
    {
        assert(decisions@.take(i + 1).drop_last() =~= decisions@.take(i as int));
        match decisions[i] {
            QueryVisitDecision::Accept(n) => {
                taken.push(n);
            },
            QueryVisitDecision::Reject => {
                walk.push(neighbors[i]);
            },
            QueryVisitDecision::Terminate => {},
        }
    }
    assert(decisions@.take(decisions@.len() as int) == decisions@);
    proof {
        law_parted(neighbors@, decisions@);
    }
    (taken, walk)
}

/// Every accepted neighbor is the answer to some visit.
pub proof fn lemma_accepted(decisions: Seq<QueryVisitDecision>)
    ensures
        accepted(decisions).len() <= decisions.len(),
        forall|j: int|
            0 <= j < accepted(decisions).len() ==> decisions.contains(
                QueryVisitDecision::Accept(#[trigger] accepted(decisions)[j]),
            ),
    decreases decisions.len(),
{
    if decisions.len() > 0 {
        let before = decisions.drop_last();
        lemma_accepted(before);
        assert forall|j: int| 0 <= j < accepted(decisions).len() implies decisions.contains(
            QueryVisitDecision::Accept(#[trigger] accepted(decisions)[j]),
        ) by {
            if j < accepted(before).len() {
                let d = QueryVisitDecision::Accept(accepted(before)[j]);
                assert(before.contains(d));
                let k = choose|k: int| 0 <= k < before.len() && before[k] == d;
                assert(decisions[k] == d);
            } else {
                assert(decisions[decisions.len() - 1] == QueryVisitDecision::Accept(
                    accepted(decisions)[j],
                ));
            }
        }
    }
}

/// Whether the decisions are those of a plain filter with the nodes `matching`.
pub open spec fn plain_decisions(
    matching: Set<u32>,
    neighbors: Seq<Neighbor>,
    decisions: Seq<QueryVisitDecision>,
) -> bool {
    &&& decisions.len() == neighbors.len()
    &&& forall|i: int|
        0 <= i < decisions.len() ==> (#[trigger] decisions[i]) == plain_decision(
            matching.contains(neighbors[i].id),
            neighbors[i],
        )
}

/// A plain filter never ends a search; it accepts the neighbors that match and
/// rejects the others, all in order and as they are.
pub proof fn law_plain_filter(
    matching: Set<u32>,
    neighbors: Seq<Neighbor>,
    decisions: Seq<QueryVisitDecision>,
)
    requires
        plain_decisions(matching, neighbors, decisions),
    ensures
        answers(decisions, neighbors.len()),
        !terminates(decisions),
        forall|d: QueryVisitDecision| #[trigger]
            decisions.contains(d) ==> (d matches QueryVisitDecision::Accept(a) ==> matching.contains(
                a.id,
            )),
        accepted(decisions) == neighbors.filter(|n: Neighbor| matching.contains(n.id)),
        rejected(neighbors, decisions) == neighbors.filter(
            |n: Neighbor| !matching.contains(n.id),
        ),
    decreases neighbors.len(),
{
    reveal(Seq::filter);
    if neighbors.len() > 0 {
        let last = decisions.len() - 1;
        assert(decisions[last] == plain_decision(
            matching.contains(neighbors[last].id),
            neighbors[last],
        ));
        law_plain_filter(matching, neighbors.drop_last(), decisions.drop_last());
        lemma_rejected_prefix(neighbors, neighbors.drop_last(), decisions.drop_last());
    }
}

/// Only the neighbors that were decided about count.
proof fn lemma_rejected_prefix(
    a: Seq<Neighbor>,
    b: Seq<Neighbor>,
    decisions: Seq<QueryVisitDecision>,
)
    requires
        decisions.len() <= a.len(),
        decisions.len() <= b.len(),
        forall|i: int| 0 <= i < decisions.len() ==> #[trigger] a[i] == b[i],
    ensures
        rejected(a, decisions) == rejected(b, decisions),
    decreases decisions.len(),
{
    if decisions.len() > 0 {
        lemma_rejected_prefix(a, b, decisions.drop_last());
        assert(a[decisions.len() - 1] == b[decisions.len() - 1]);
    }
}

/// Whether every neighbor is accepted under its own id, if at all.
pub open spec fn keeps_ids(
    neighbors: Seq<Neighbor>,
    decisions: Seq<QueryVisitDecision>,
) -> bool {
    forall|i: int|
        0 <= i < decisions.len() ==> (#[trigger] decisions[i] matches QueryVisitDecision::Accept(n)
            ==> n.id == neighbors[i].id)
}

/// The ids that were decided about are distinct, and those of the first neighbors.
proof fn lemma_decided_prefix(neighbors: Seq<Neighbor>, decisions: Seq<QueryVisitDecision>)
    requires
        decisions.len() <= neighbors.len(),
        ids_of(neighbors).no_duplicates(),
        keeps_ids(neighbors, decisions),
    ensures
        (ids_of(accepted(decisions)) + ids_of(rejected(neighbors, decisions))).no_duplicates(),
        forall|i: int|
            0 <= i < accepted(decisions).len() ==> ids_of(neighbors).take(
                decisions.len() as int,
            ).contains((#[trigger] accepted(decisions)[i]).id),
        forall|i: int|
            0 <= i < rejected(neighbors, decisions).len() ==> ids_of(neighbors).take(
                decisions.len() as int,
            ).contains((#[trigger] rejected(neighbors, decisions)[i]).id),
    decreases decisions.len(),
{
    if decisions.len() > 0 {
        let front = decisions.drop_last();
        let last = decisions.len() - 1;
        lemma_decided_prefix(neighbors, front);
        let ids = ids_of(neighbors);
        let old_ids = ids.take(last);
        let new_ids = ids.take(decisions.len() as int);
        let new_id = neighbors[last].id;
        assert(new_ids[last] == new_id);
        assert forall|id: u32| old_ids.contains(id) implies new_ids.contains(id) && id
            != new_id by {
            let k = old_ids.index_of(id);
            assert(new_ids[k] == id);
            assert(ids[k] != ids[last]);
        }
        let a = accepted(front);
        let r = rejected(neighbors, front);
        let old_all = ids_of(a) + ids_of(r);
        assert(decisions[last] == decisions.last());
        assert forall|i: int| 0 <= i < old_all.len() implies old_all[i] != new_id by {
            if i < a.len() {
                assert(old_all[i] == a[i].id);
            } else {
                assert(old_all[i] == r[i - a.len()].id);
            }
        }
        let all = ids_of(accepted(decisions)) + ids_of(rejected(neighbors, decisions));
        match decisions.last() {
            QueryVisitDecision::Accept(n) => {
                let at = a.len() as int;
                assert(all =~= old_all.insert(at, new_id));
            },
            QueryVisitDecision::Reject => {
                assert(all =~= old_all.push(new_id));
            },
            QueryVisitDecision::Terminate => {
                assert(all =~= old_all);
            },
        }
    } else {
        assert(ids_of(accepted(decisions)) + ids_of(rejected(neighbors, decisions))
            =~= Seq::empty());
    }
}

/// Neighbors with distinct ids are parted into accepted and rejected ones, all with
/// distinct ids, where each is accepted under its own id.
pub proof fn lemma_decided_ids(neighbors: Seq<Neighbor>, decisions: Seq<QueryVisitDecision>)
    requires
        decisions.len() <= neighbors.len(),
        ids_of(neighbors).no_duplicates(),
        keeps_ids(neighbors, decisions),
    ensures
        ids_of(accepted(decisions)).no_duplicates(),
        ids_of(rejected(neighbors, decisions)).no_duplicates(),
        forall|i: int, j: int|
            0 <= i < accepted(decisions).len() && 0 <= j < rejected(neighbors, decisions).len()
                ==> (#[trigger] accepted(decisions)[i]).id != (#[trigger] rejected(
                neighbors,
                decisions,
            )[j]).id,
        forall|i: int|
            0 <= i < accepted(decisions).len() ==> ids_of(neighbors).contains(
                (#[trigger] accepted(decisions)[i]).id,
            ),
        forall|i: int|
            0 <= i < rejected(neighbors, decisions).len() ==> ids_of(neighbors).contains(
                (#[trigger] rejected(neighbors, decisions)[i]).id,
            ),
{
    lemma_decided_prefix(neighbors, decisions);
    let a = accepted(decisions);
    let b = rejected(neighbors, decisions);
    let all = ids_of(a) + ids_of(b);
    let n = a.len() as int;
    assert forall|i: int, j: int|
        0 <= i < ids_of(a).len() && 0 <= j < ids_of(a).len() && i != j implies ids_of(a)[i]
        != ids_of(a)[j] by {
        assert(all[i] != all[j]);
    }
    assert forall|i: int, j: int|
        0 <= i < ids_of(b).len() && 0 <= j < ids_of(b).len() && i != j implies ids_of(b)[i]
        != ids_of(b)[j] by {
        assert(all[n + i] != all[n + j]);
    }
    assert forall|i: int, j: int| 0 <= i < a.len() && 0 <= j < b.len() implies (
    #[trigger] a[i]).id != (#[trigger] b[j]).id by {
        assert(all[i] != all[n + j]);
    }
    let found = ids_of(neighbors);
    let front = found.take(decisions.len() as int);
    assert forall|id: u32| front.contains(id) implies found.contains(id) by {
        assert(found[front.index_of(id)] == id);
    }
}

/// How many of the decisions accept a neighbor.
pub open spec fn accept_count(decisions: Seq<QueryVisitDecision>) -> nat {
    decisions.filter(|d: QueryVisitDecision| d is Accept).len()
}

/// How many of the decisions reject a neighbor.
pub open spec fn reject_count(decisions: Seq<QueryVisitDecision>) -> nat {
    decisions.filter(|d: QueryVisitDecision| d is Reject).len()
}

/// The accepted neighbors are what the accepting decisions hold, in order; the rejected
/// ones are the neighbors, as they are and in order, whose decision is to reject.
pub proof fn law_parted(neighbors: Seq<Neighbor>, decisions: Seq<QueryVisitDecision>)
    requires
        decisions.len() <= neighbors.len(),
    ensures
        accepted(decisions) == decisions.filter(
            |d: QueryVisitDecision| d is Accept,
        ).map_values(|d: QueryVisitDecision| d->Accept_0),
        accepted(decisions).len() == accept_count(decisions),
        rejected(neighbors, decisions) == Seq::new(decisions.len(), |i: int| i).filter(
            |i: int| decisions[i] is Reject,
        ).map_values(|i: int| neighbors[i]),
        rejected(neighbors, decisions).len() == reject_count(decisions),
    decreases decisions.len(),
{
    reveal(Seq::filter);
    let accepts = |d: QueryVisitDecision| d is Accept;
    let holds = |d: QueryVisitDecision| d->Accept_0;
    let places = Seq::new(decisions.len(), |i: int| i);
    let rejects = |i: int| decisions[i] is Reject;
    let pick = |i: int| neighbors[i];
    if decisions.len() == 0 {
        assert(decisions.filter(accepts).map_values(holds) =~= Seq::empty());
        assert(places.filter(rejects).map_values(pick) =~= Seq::empty());
    } else {
        let front = decisions.drop_last();
        law_parted(neighbors, front);
        let front_places = Seq::new(front.len(), |i: int| i);
        let front_rejects = |i: int| front[i] is Reject;
        assert(places.drop_last() =~= front_places);
        lemma_filter_agrees(front_places, rejects, front_rejects);
        assert(decisions.filter(accepts).map_values(holds) =~= accepted(decisions));
        assert(places.filter(rejects).map_values(pick) =~= rejected(neighbors, decisions));
    }
}

/// Predicates that agree on a sequence select the same of it.
proof fn lemma_filter_agrees(s: Seq<int>, p: spec_fn(int) -> bool, q: spec_fn(int) -> bool)
    requires
        forall|i: int| 0 <= i < s.len() ==> p(#[trigger] s[i]) == q(s[i]),
    ensures
        s.filter(p) == s.filter(q),
    decreases s.len(),
{
    reveal(Seq::filter);
    if s.len() > 0 {
        let front = s.drop_last();
        assert forall|i: int| 0 <= i < front.len() implies p(#[trigger] front[i]) == q(
            front[i],
        ) by {
            assert(front[i] == s[i]);
        }
        lemma_filter_agrees(front, p, q);
        assert(p(s[s.len() - 1]) == q(s[s.len() - 1]));
    }
}

} // verus!
