//! The set of nodes that a search has already met.

use vstd::prelude::*;
use vstd::set_lib::{lemma_int_range, lemma_len_subset, lemma_map_size_bound};
use vstd::set_lib::{lemma_set_disjoint_lens, set_int_range};

verus! {

/// The ids that a search has met, in a `hashbrown::HashSet`.
#[verifier::external_body]
#[derive(Debug)]
pub struct VisitedSet {
    ids: hashbrown::HashSet<u32>,
}

/// The ids in a [`VisitedSet`].
pub uninterp spec fn visited_ids(set: VisitedSet) -> Set<u32>;

impl View for VisitedSet {
    type V = Set<u32>;

    open spec fn view(&self) -> Set<u32> {
        visited_ids(*self)
    }
}

impl VisitedSet {
    /// `hashbrown::HashSet::new`: a set without any id.
    #[verifier::external_body]
    pub(crate) fn empty() -> (set: VisitedSet)
        ensures
            visited_ids(set) == Set::<u32>::empty(),
    {
        VisitedSet { ids: hashbrown::HashSet::new() }
    }

    /// `hashbrown::HashSet::is_empty`: whether the set has no id.
    #[verifier::external_body]
    pub(crate) fn is_empty(&self) -> (r: bool)
        ensures
            r == (visited_ids(*self) == Set::<u32>::empty()),
    {
        self.ids.is_empty()
    }

    /// `hashbrown::HashSet::contains`: whether `id` is in the set.
    #[verifier::external_body]
    pub(crate) fn contains(&self, id: &u32) -> (r: bool)
        ensures
            r == visited_ids(*self).contains(*id),
    {
        self.ids.contains(id)
    }

    /// `hashbrown::HashSet::insert`: adds `id`, and tells whether it was not yet there.
    #[verifier::external_body]
    pub(crate) fn insert(&mut self, id: u32) -> (added: bool)
        ensures
            visited_ids(*final(self)) == visited_ids(*old(self)).insert(id),
            added == !visited_ids(*old(self)).contains(id),
    {
        self.ids.insert(id)
    }
}

/// A predicate that holds of the ids not yet visited, and marks them.
#[derive(Debug)]
pub struct NotInMut<'a> {
    pub visited_set: &'a mut VisitedSet,
}

impl<'a> NotInMut<'a> {
    /// Constructs the predicate around `visited_set`.
    pub fn new(visited_set: &'a mut VisitedSet) -> (r: Self)
        ensures
            *r.visited_set == *old(visited_set),
            *final(r.visited_set) == *final(visited_set),
    {
        NotInMut { visited_set }
    }

    /// Whether `item` has not been visited.
    pub fn eval(&self, item: &u32) -> (r: bool)
        ensures
            r == !old(self.visited_set)@.contains(*item),
    {
        !self.visited_set.contains(item)
    }

    /// Whether `item` has not been visited; it then counts as visited.
    pub fn eval_mut(&mut self, item: &u32) -> (r: bool)
        ensures
            r == !old(self).visited_set@.contains(*item),
            final(self).visited_set@ == old(self).visited_set@.insert(*item),
            admission(
                old(self).visited_set@,
                Set::full(),
                *item,
                r,
                final(self).visited_set@,
            ),
            *final(final(self).visited_set) == *final(old(self).visited_set),
    {
        self.visited_set.insert(*item)
    }
}

/// Whether asking a marking predicate about `item` answers `admitted` and takes the
/// visited nodes from `pre` to `post`, where `matching` are the nodes that it may admit.
pub open spec fn admission(
    pre: Set<u32>,
    matching: Set<u32>,
    item: u32,
    admitted: bool,
    post: Set<u32>,
) -> bool {
    &&& admitted == (matching.contains(item) && !pre.contains(item))
    &&& post == if matching.contains(item) {
        pre.insert(item)
    } else {
        pre
    }
}

/// Whether a marking predicate, asked about the items in order, gives the answers
/// and takes the visited nodes from `states[0]` to `states.last()`.
pub open spec fn admissions(
    states: Seq<Set<u32>>,
    matching: Set<u32>,
    items: Seq<u32>,
    answers: Seq<bool>,
) -> bool {
    &&& states.len() == items.len() + 1
    &&& answers.len() == items.len()
    &&& forall|i: int|
        0 <= i < items.len() ==> admission(
            #[trigger] states[i],
            matching,
            items[i],
            answers[i],
            states[i + 1],
        )
}

/// Nodes that were visited stay visited.
proof fn lemma_visited_stays(
    states: Seq<Set<u32>>,
    matching: Set<u32>,
    items: Seq<u32>,
    answers: Seq<bool>,
    from: int,
    to: int,
)
    requires
        admissions(states, matching, items, answers),
        0 <= from <= to <= items.len(),
    ensures
        states[from].subset_of(states[to]),
    decreases to - from,
{
    if from < to {
        lemma_visited_stays(states, matching, items, answers, from, to - 1);
        assert(admission(states[to - 1], matching, items[to - 1], answers[to - 1], states[to]));
    }
}

/// However often it is asked, a marking predicate admits a node only if it matches and
/// has not been visited, and only once; it is visited from then on. A matching
/// node that was not visited is admitted the first time.
pub proof fn law_admits_once(
    states: Seq<Set<u32>>,
    matching: Set<u32>,
    items: Seq<u32>,
    answers: Seq<bool>,
    i: int,
)
    requires
        admissions(states, matching, items, answers),
        0 <= i < items.len(),
    ensures
        answers[i] ==> matching.contains(items[i]) && !states[0].contains(items[i])
            && states.last().contains(items[i]),
        forall|j: int|
            i < j < items.len() && answers[i] ==> !(#[trigger] answers[j] && items[j] == items[i]),
        matching.contains(items[i]) && !states[0].contains(items[i]) ==> exists|j: int|
            0 <= j <= i && items[j] == items[i] && #[trigger] answers[j],
    decreases i,
{
    assert(admission(states[i], matching, items[i], answers[i], states[i + 1]));
    lemma_visited_stays(states, matching, items, answers, 0, i);
    lemma_visited_stays(states, matching, items, answers, i + 1, items.len() as int);
    assert forall|j: int| i < j < items.len() && answers[i] implies !(#[trigger] answers[j]
        && items[j] == items[i]) by {
        lemma_visited_stays(states, matching, items, answers, i + 1, j);
        assert(admission(states[j], matching, items[j], answers[j], states[j + 1]));
    }
    if matching.contains(items[i]) && !states[0].contains(items[i]) {
        if states[i].contains(items[i]) {
            lemma_first_visit(states, matching, items, answers, items[i], i);
        } else {
            assert(answers[i]);
        }
    }
}

/// A node that has become visited was admitted.
proof fn lemma_first_visit(
    states: Seq<Set<u32>>,
    matching: Set<u32>,
    items: Seq<u32>,
    answers: Seq<bool>,
    id: u32,
    to: int,
)
    requires
        admissions(states, matching, items, answers),
        0 <= to <= items.len(),
        !states[0].contains(id),
        states[to].contains(id),
    ensures
        exists|j: int| 0 <= j < to && items[j] == id && #[trigger] answers[j],
    decreases to,
{
    assert(to > 0);
    assert(admission(states[to - 1], matching, items[to - 1], answers[to - 1], states[to]));
    if states[to - 1].contains(id) {
        lemma_first_visit(states, matching, items, answers, id, to - 1);
    } else {
        assert(answers[to - 1]);
    }
}

/// The items that a marking predicate admitted, in order.
pub open spec fn admitted(items: Seq<u32>, answers: Seq<bool>) -> Seq<u32>
    decreases items.len(),
{
    if items.len() == 0 {
        Seq::empty()
    } else {
        let before = admitted(items.drop_last(), answers.drop_last());
        if answers.last() {
            before.push(items.last())
        } else {
            before
        }
    }
}

/// Whether an expansion that reports the nodes `ids`, each of them once, takes the
/// visited nodes from `pre` to `post`: the reported nodes are in `matching`, had
/// not been visited, and are all that is visited now besides.
pub open spec fn reports(pre: Set<u32>, matching: Set<u32>, ids: Seq<u32>, post: Set<u32>) -> bool {
    &&& ids.no_duplicates()
    &&& forall|i: int|
        0 <= i < ids.len() ==> matching.contains(#[trigger] ids[i]) && !pre.contains(ids[i])
    &&& post == pre.union(ids.to_set())
}

/// An expansion that asks a marking predicate about the nodes that it meets, however
/// often, and reports those that it admits, is one that [`reports`] speaks of.
pub proof fn law_admitted_are_reported(
    states: Seq<Set<u32>>,
    matching: Set<u32>,
    items: Seq<u32>,
    answers: Seq<bool>,
)
    requires
        admissions(states, matching, items, answers),
    ensures
        reports(states[0], matching, admitted(items, answers), states.last()),
    decreases items.len(),
{
    if items.len() == 0 {
        assert(states.last() =~= states[0].union(Seq::<u32>::empty().to_set()));
    } else {
        let last = items.len() - 1;
        let front = states.drop_last();
        assert(admissions(front, matching, items.drop_last(), answers.drop_last())) by {
            assert forall|i: int| 0 <= i < last implies admission(
                #[trigger] front[i],
                matching,
                items.drop_last()[i],
                answers.drop_last()[i],
                front[i + 1],
            ) by {
                assert(admission(states[i], matching, items[i], answers[i], states[i + 1]));
            }
        }
        law_admitted_are_reported(front, matching, items.drop_last(), answers.drop_last());
        assert(admission(states[last], matching, items[last], answers[last], states[last + 1]));
        let before = admitted(items.drop_last(), answers.drop_last());
        let id = items[last];
        before.lemma_push_to_set_commute(id);
        assert(front.last() == states[last]);
        if answers[last] {
            let ids = before.push(id);
            assert forall|i: int| 0 <= i < before.len() implies before[i] != id by {
                assert(before.to_set().contains(before[i]));
            }
            assert(states.last() =~= states[0].union(ids.to_set()));
        } else if matching.contains(id) {
            assert(states.last() =~= states[last]);
        }
    }
}

/// A set of ids is finite, and no larger than there are ids.
pub proof fn lemma_id_set(ids: Set<u32>)
    ensures
        ids.finite(),
        ids.len() <= 0x1_0000_0000,
{
    let to_id = |i: int| i as u32;
    let all = set_int_range(0, 0x1_0000_0000);
    lemma_int_range(0, 0x1_0000_0000);
    let every = all.map(to_id);
    lemma_map_size_bound(all, every, to_id);
    assert forall|id: u32| ids.contains(id) implies every.contains(id) by {
        assert(all.contains(id as int) && to_id(id as int) == id);
    }
    lemma_len_subset(ids, every);
}

/// As many nodes are visited besides as an expansion reports.
pub proof fn lemma_reports_len(pre: Set<u32>, matching: Set<u32>, ids: Seq<u32>, post: Set<u32>)
    requires
        reports(pre, matching, ids, post),
    ensures
        post.len() == pre.len() + ids.len(),
        pre.len() + ids.len() <= 0x1_0000_0000,
{
    lemma_id_set(pre);
    lemma_id_set(post);
    lemma_id_set(ids.to_set());
    ids.unique_seq_to_set();
    lemma_set_disjoint_lens(pre, ids.to_set());
    assert(pre.disjoint(ids.to_set()));
}

/// Distinct ids out of a set are no more than the set has.
pub proof fn lemma_ids_within(ids: Seq<u32>, set: Set<u32>)
    requires
        ids.no_duplicates(),
        forall|i: int| 0 <= i < ids.len() ==> set.contains(#[trigger] ids[i]),
    ensures
        ids.len() <= set.len(),
{
    lemma_id_set(set);
    ids.unique_seq_to_set();
    lemma_len_subset(ids.to_set(), set);
}

} // verus!
