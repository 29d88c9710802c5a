//! Label filters over bitmaps, and where the bitmaps come from.

use std::sync::Arc;

use bit_set::BitSet;
use vstd::prelude::*;
use vstd::set_lib::lemma_map_size;
use crate::bitmap::{bit_set_contains, bit_set_len, bit_set_members};
use crate::bitmap_cache::{all_fit, decode_bitmaps, is_cache, loads, CacheError};
use crate::label::{answers, matching_ids, plain_decisions};
use crate::label::{decide_by_match, plain_decision};
use crate::label::{QueryLabelProvider, QueryVisitDecision, Selectivity};
use crate::neighbor::Neighbor;
use crate::visited::lemma_id_set;

verus! {

/// Whether every number in a set is the id of a node.
pub open spec fn holds_ids(members: Set<usize>) -> bool {
    forall|v: usize| #[trigger] members.contains(v) ==> v <= u32::MAX
}

/// A set of ids has as many members as ids are in it.
proof fn lemma_matching_count(members: Set<usize>, matching: Set<u32>)
    requires
        forall|id: u32| #[trigger] matching.contains(id) <==> members.contains(id as usize),
    ensures
        holds_ids(members) ==> members.len() == matching.len(),
{
    if holds_ids(members) {
        let number = |id: u32| id as usize;
        lemma_id_set(matching);
        assert forall|v: usize| members.contains(v) implies matching.map(number).contains(v) by {
            assert(matching.contains(v as u32) && number(v as u32) == v);
        }
        assert(matching.map(number) =~= members);
        lemma_map_size(matching, members, number);
    }
}

/// A filter expression together with the set of nodes that it selects.
pub struct QueryBitmapEvaluator<A> {
    pub ast_expr: A,
    evaluated_bitmap: BitSet,
}

impl<A> QueryBitmapEvaluator<A> {
    /// The filter expression.
    pub closed spec fn expression(&self) -> A {
        self.ast_expr
    }

    /// The nodes that the expression selects.
    pub closed spec fn members(&self) -> Set<usize> {
        bit_set_members(self.evaluated_bitmap)
    }

    /// Pairs an expression with the set of nodes that it selects.
    pub fn new(ast_expr: A, evaluated_bitmap: BitSet) -> (r: Self)
        ensures
            r.expression() == ast_expr,
            r.members() == bit_set_members(evaluated_bitmap),
    {
        QueryBitmapEvaluator { ast_expr, evaluated_bitmap }
    }

    /// The set of nodes that the expression selects.
    pub fn get_bitmap(&self) -> (r: &BitSet)
        ensures
            bit_set_members(*r) == self.members(),
    {
        &self.evaluated_bitmap
    }

    /// How many nodes the expression selects: as many as match, where the set holds
    /// only ids.
    pub fn count(&self) -> (n: usize)
        ensures
            n == self.members().len(),
            holds_ids(self.members()) ==> n == matching_ids(self).len(),
    {
        proof {
            lemma_matching_count(self.members(), matching_ids(self));
        }
        bit_set_len(self.get_bitmap())
    }
}

impl<A> QueryLabelProvider for QueryBitmapEvaluator<A> {
    open spec fn matches(&self, id: u32) -> bool {
        self.members().contains(id as usize)
    }

    open spec fn may_decide(&self, neighbor: Neighbor, decision: QueryVisitDecision) -> bool {
        decision == plain_decision(self.matches(neighbor.id), neighbor)
    }

    open spec fn selectivity(&self) -> Option<Selectivity> {
        None
    }

    fn is_match(&self, id: u32) -> (r: bool)
        ensures
            r == self.members().contains(id as usize),
    {
        bit_set_contains(self.get_bitmap(), id as usize)
    }

    fn on_visit(&self, neighbor: Neighbor) -> (decision: QueryVisitDecision)
        ensures
            decision == if self.members().contains(neighbor.id as usize) {
                QueryVisitDecision::Accept(neighbor)
            } else {
                QueryVisitDecision::Reject
            },
    {
        decide_by_match(self.is_match(neighbor.id), neighbor)
    }

    fn global_selectivity(&self) -> (r: Option<Selectivity>)
        ensures
            r is None,
    {
        None
    }
}

/// A filter that matches the nodes of a bitmap, and knows their share of all
/// points where the number of points is known.
#[derive(Debug)]
pub struct BitmapFilter {
    bitset: BitSet,
    global_selectivity: Option<Selectivity>,
}

impl BitmapFilter {
    /// The nodes that match.
    pub closed spec fn members(&self) -> Set<usize> {
        bit_set_members(self.bitset)
    }

    /// The share of points that match.
    pub closed spec fn share(&self) -> Option<Selectivity> {
        self.global_selectivity
    }

    /// A filter on a collection of `total_points` points. Its selectivity is
    /// not known where there are none.
    pub fn new(bitset: BitSet, total_points: usize) -> (r: Self)
        ensures
            r.members() == bit_set_members(bitset),
            total_points == 0 ==> r.share() == None::<Selectivity>,
            total_points > 0 ==> (r.share() matches Some(s) && s.matching == bit_set_members(
                bitset,
            ).len() && s.total == total_points),
            total_points > 0 && holds_ids(bit_set_members(bitset)) ==> (r.share() matches Some(s)
                && s.matching == matching_ids(&r).len()),
    {
        let global_selectivity = if total_points == 0 {
            None
        } else {
            Some(Selectivity { matching: bit_set_len(&bitset), total: total_points })
        };
        let filter = BitmapFilter { bitset, global_selectivity };
        proof {
            lemma_matching_count(filter.members(), matching_ids(&filter));
        }
        filter
    }

    /// A filter on a collection of unknown size.
    pub fn without_total_points(bitset: BitSet) -> (r: Self)
        ensures
            r.members() == bit_set_members(bitset),
            r.share() == None::<Selectivity>,
    {
        BitmapFilter { bitset, global_selectivity: None }
    }
}

impl QueryLabelProvider for BitmapFilter {
    open spec fn matches(&self, id: u32) -> bool {
        self.members().contains(id as usize)
    }

    open spec fn may_decide(&self, neighbor: Neighbor, decision: QueryVisitDecision) -> bool {
        decision == plain_decision(self.matches(neighbor.id), neighbor)
    }

    open spec fn selectivity(&self) -> Option<Selectivity> {
        self.share()
    }

    fn is_match(&self, id: u32) -> (r: bool)
        ensures
            r == self.members().contains(id as usize),
    {
        bit_set_contains(&self.bitset, id as usize)
    }

    fn on_visit(&self, neighbor: Neighbor) -> (decision: QueryVisitDecision)
        ensures
            decision == if self.members().contains(neighbor.id as usize) {
                QueryVisitDecision::Accept(neighbor)
            } else {
                QueryVisitDecision::Reject
            },
    {
        decide_by_match(self.is_match(neighbor.id), neighbor)
    }

    fn global_selectivity(&self) -> (r: Option<Selectivity>)
        ensures
            r == self.share(),
    {
        self.global_selectivity
    }
}

/// A bitmap filter decides as a plain filter with the nodes of its bitmap: what
/// [`crate::label::visit_all`] asks it is answered by `plain_decisions`.
pub proof fn law_bitmap_filter_is_plain(
    filter: BitmapFilter,
    neighbors: Seq<Neighbor>,
    decisions: Seq<QueryVisitDecision>,
)
    requires
        answers(decisions, neighbors.len()),
        forall|i: int|
            0 <= i < decisions.len() ==> filter.may_decide(neighbors[i], #[trigger] decisions[i]),
    ensures
        plain_decisions(matching_ids(&filter), neighbors, decisions),
{
    if decisions.len() > 0 {
        assert(filter.may_decide(neighbors[decisions.len() - 1], decisions[decisions.len() - 1]));
    }
    assert forall|i: int| 0 <= i < decisions.len() implies (#[trigger] decisions[i])
        == plain_decision(matching_ids(&filter).contains(neighbors[i].id), neighbors[i]) by {
        assert(filter.may_decide(neighbors[i], decisions[i]));
    }
}

/// The bitmap of each query, and the number of points they are about.
pub struct GeneratedBitmaps {
    pub bit_maps: Vec<BitSet>,
    pub total_points: usize,
}

/// Where the bitmaps of a run come from.
#[derive(Clone, Copy, Debug, PartialEq, Eq, Structural)]
pub enum BitmapSource {
    /// The cache file.
    Cache,
    /// The labels; the bitmaps are then written to the cache file.
    LabelsAndStore,
    /// The labels; no cache file is wanted.
    Labels,
}

/// Where the bitmaps come from, given whether a cache path was configured and
/// whether it is that of a file.
pub open spec fn source_of(path_given: bool, is_file: bool) -> BitmapSource {
    if !path_given {
        BitmapSource::Labels
    } else if is_file {
        BitmapSource::Cache
    } else {
        BitmapSource::LabelsAndStore
    }
}

/// Decides where the bitmaps come from.
pub fn bitmap_source(bitmap_path: Option<&str>, is_file: bool) -> (r: BitmapSource)
    ensures
        r == source_of(bitmap_path is Some, is_file),
        r is Cache <==> bitmap_path is Some && is_file,
        r is LabelsAndStore <==> bitmap_path is Some && !is_file,
        r is Labels <==> bitmap_path is None,
{
    match bitmap_path {
        None => BitmapSource::Labels,
        Some(_) => if is_file {
            BitmapSource::Cache
        } else {
            BitmapSource::LabelsAndStore
        },
    }
}

/// A cache file that exists is used; otherwise the bitmaps are computed, and
/// they are stored if and only if a cache path was configured.
pub proof fn law_cache_used_once_written(path_given: bool, is_file: bool)
    ensures
        source_of(path_given, is_file) is Cache <==> path_given && is_file,
        !(source_of(path_given, is_file) is Cache) ==> (source_of(path_given, is_file)
            is LabelsAndStore <==> path_given),
        source_of(path_given, is_file) is LabelsAndStore ==> source_of(path_given, true) is Cache,
{
}

/// The bitmaps in a cache file with the contents `bytes`, for `total_points` points.
pub fn load_bitmaps(bytes: &Vec<u8>, total_points: usize) -> (r: Result<
    GeneratedBitmaps,
    CacheError,
>)
    requires
        all_fit(bytes@),
    ensures
        match r {
            Ok(g) => loads(bytes@, g.bit_maps@) && g.total_points == total_points,
            Err(e) => e is Malformed && !is_cache(bytes@),
        },
{
    match decode_bitmaps(bytes) {
        Ok(bit_maps) => Ok(GeneratedBitmaps { bit_maps, total_points }),
        Err(e) => Err(e),
    }
}

/// A search strategy whose distances are weighted by a label filter.
#[derive(Debug)]
pub struct BetaFilter<S, P, B> {
    pub strategy: S,
    pub labels: P,
    pub beta: B,
}

/// One weighted strategy for each label filter, all with the same weight and
/// each with its own copy of the strategy.
pub fn setup_filter_strategies<S: Clone, P, B: Copy>(
    beta: B,
    bit_maps: Vec<P>,
    search_strategy: S,
) -> (r: Vec<BetaFilter<S, P, B>>)
    ensures
        r@.len() == bit_maps@.len(),
        forall|i: int|
            0 <= i < r@.len() ==> (#[trigger] r@[i]).labels == bit_maps@[i] && r@[i].beta == beta
                && cloned(search_strategy, r@[i].strategy),
{
    let mut r: Vec<BetaFilter<S, P, B>> = Vec::with_capacity(bit_maps.len());
    let ghost given = bit_maps@;
    for labels in it: bit_maps
        invariant
            given == it.seq(),
            r@.len() == it.index(),
            forall|i: int|
                0 <= i < r@.len() ==> (#[trigger] r@[i]).labels == given[i] && r@[i].beta == beta
                    && cloned(search_strategy, r@[i].strategy),
    {
        r.push(BetaFilter { strategy: search_strategy.clone(), labels, beta });
    }
    r
}

/// A shared filter on the nodes of `set`, out of `total_points` points.
pub fn as_query_label_provider(set: BitSet, total_points: usize) -> (r: Arc<BitmapFilter>)
    ensures
        r.members() == bit_set_members(set),
        total_points == 0 ==> r.share() == None::<Selectivity>,
        total_points > 0 ==> (r.share() matches Some(s) && s.matching == bit_set_members(set).len()
            && s.total == total_points),
{
    Arc::new(BitmapFilter::new(set, total_points))
}

} // verus!
