//! The results of a benchmark run and the tables that show them.
//!
//! Floating-point quantities are carried through as values of type parameters:
//! `F` stands for a mean, `R` for a recall and `P` for an average precision.

use vstd::prelude::*;
use crate::multihop_search_dev_earlystop as search;
use crate::multihop_search_dev_earlystop::HopView;

verus! {

/// A throughput: so many queries in so many microseconds.
#[derive(Clone, Copy, Debug, PartialEq, Eq, Structural)]
pub struct Rate {
    pub queries: usize,
    pub micros: u64,
}

/// What a benchmark of k-nearest-neighbor searches measured.
#[derive(Debug)]
pub struct Summary<F, R> {
    pub tasks: usize,
    pub k_value: usize,
    pub l_value: usize,
    /// In microseconds, one for each repetition.
    pub end_to_end_latencies: Vec<u64>,
    pub mean_latencies: Vec<F>,
    pub p90_latencies: Vec<u64>,
    pub p99_latencies: Vec<u64>,
    pub recall: R,
    /// The number of queries that the recall is about.
    pub num_queries: usize,
    pub mean_comparisons: F,
    pub mean_hops: F,
}

/// The trace of one query of a benchmark.
#[derive(Debug)]
pub struct TracedQuery {
    pub query_index: usize,
    pub trace: search::QueryTrace<u32>,
}

/// What a benchmark of traced multi-hop searches measured.
#[derive(Debug)]
pub struct MultihopDevSummary<F, R> {
    pub base: Summary<F, R>,
    pub query_traces: Vec<TracedQuery>,
}

/// What a benchmark of range searches measured.
#[derive(Debug)]
pub struct RangeSummary<F, P> {
    pub tasks: usize,
    pub starting_l: usize,
    /// In microseconds, one for each repetition.
    pub end_to_end_latencies: Vec<u64>,
    pub mean_latencies: Vec<F>,
    pub p90_latencies: Vec<u64>,
    pub p99_latencies: Vec<u64>,
    pub average_precision: P,
    /// The number of queries that the average precision is about.
    pub num_queries: usize,
}

/// What one hop of a query brought into the queue.
#[derive(Clone, Debug)]
pub struct HopTrace {
    pub hop_index: u32,
    pub one_hop_enqueued: Vec<u32>,
    pub two_hop_enqueued: Vec<u32>,
}

impl View for HopTrace {
    type V = HopView<u32>;

    open spec fn view(&self) -> HopView<u32> {
        HopView {
            hop_index: self.hop_index as nat,
            one_hop_enqueued: self.one_hop_enqueued@,
            two_hop_enqueued: self.two_hop_enqueued@,
        }
    }
}

/// What the hops of one query brought into the queue.
#[derive(Clone, Debug)]
pub struct QueryTrace {
    pub query_index: usize,
    pub hops: Vec<HopTrace>,
}

impl QueryTrace {
    /// The recorded hops.
    pub open spec fn hop_views(&self) -> Seq<HopView<u32>> {
        Seq::new(self.hops@.len(), |i: int| self.hops@[i]@)
    }
}

/// The results of a benchmark of k-nearest-neighbor searches.
#[derive(Debug)]
pub struct SearchResults<F, R> {
    pub num_tasks: usize,
    pub search_n: usize,
    pub search_l: usize,
    pub qps: Vec<Rate>,
    pub search_latencies: Vec<u64>,
    pub mean_latencies: Vec<F>,
    pub p90_latencies: Vec<u64>,
    pub p99_latencies: Vec<u64>,
    pub recall: R,
    pub mean_comparisons: F,
    pub mean_hops: F,
    pub query_traces: Option<Vec<QueryTrace>>,
}

/// The results of a benchmark of range searches.
#[derive(Debug)]
pub struct RangeSearchResults<F, P> {
    pub num_tasks: usize,
    pub initial_l: usize,
    pub qps: Vec<Rate>,
    pub search_latencies: Vec<u64>,
    pub mean_latencies: Vec<F>,
    pub p90_latencies: Vec<u64>,
    pub p99_latencies: Vec<u64>,
    pub average_precision: P,
}

/// The throughput of each repetition.
pub open spec fn rates(num_queries: usize, latencies: Seq<u64>) -> Seq<Rate> {
    Seq::new(latencies.len(), |i: int| Rate { queries: num_queries, micros: latencies[i] })
}

/// The throughput of each repetition.
fn collect_rates(num_queries: usize, latencies: &Vec<u64>) -> (r: Vec<Rate>)
    ensures
        r@ == rates(num_queries, latencies@),
{
    let mut r: Vec<Rate> = Vec::with_capacity(latencies.len());
    for i in 0..latencies.len()
        invariant
            r@ == rates(num_queries, latencies@.take(i as int)),
    {
        r.push(Rate { queries: num_queries, micros: latencies[i] });
        assert(r@ =~= rates(num_queries, latencies@.take(i + 1)));
    }
    assert(latencies@.take(latencies@.len() as int) == latencies@);
    r
}

/// Whether `r` are the results that `summary` gives, whatever their traces.
pub open spec fn reports<F, R>(r: SearchResults<F, R>, summary: Summary<F, R>) -> bool {
    &&& r.num_tasks == summary.tasks
    &&& r.search_n == summary.k_value
    &&& r.search_l == summary.l_value
    &&& r.qps@ == rates(summary.num_queries, summary.end_to_end_latencies@)
    &&& r.search_latencies == summary.end_to_end_latencies
    &&& r.mean_latencies == summary.mean_latencies
    &&& r.p90_latencies == summary.p90_latencies
    &&& r.p99_latencies == summary.p99_latencies
    &&& r.recall == summary.recall
    &&& r.mean_comparisons == summary.mean_comparisons
    &&& r.mean_hops == summary.mean_hops
}

/// Whether `r` are the traces of `given`, in order.
pub open spec fn keeps_traces(r: Seq<QueryTrace>, given: Seq<TracedQuery>) -> bool {
    &&& r.len() == given.len()
    &&& forall|i: int|
        0 <= i < r.len() ==> (#[trigger] r[i]).query_index == given[i].query_index
            && r[i].hop_views() == given[i].trace@
}

/// The hops of a trace.
fn convert_hops(trace: search::QueryTrace<u32>) -> (hops: Vec<HopTrace>)
    ensures
        hops@.len() == trace@.len(),
        forall|i: int| 0 <= i < hops@.len() ==> (#[trigger] hops@[i])@ == trace@[i],
{
    let ghost given = trace@;
    let mut hops: Vec<HopTrace> = Vec::with_capacity(trace.hops.len());
    for hop in it: trace.hops
        invariant
            given.len() == it.seq().len(),
            forall|i: int| 0 <= i < given.len() ==> (#[trigger] given[i]) == it.seq()[i]@,
            hops@.len() == it.index(),
            forall|i: int| 0 <= i < hops@.len() ==> (#[trigger] hops@[i])@ == given[i],
    {
        assert(given[it.index()] == hop@);
        hops.push(
            HopTrace {
                hop_index: hop.hop_index,
                one_hop_enqueued: hop.one_hop_enqueued,
                two_hop_enqueued: hop.two_hop_enqueued,
            },
        );
    }
    hops
}

/// The traces of the queries of a benchmark.
fn convert_traces(given: Vec<TracedQuery>) -> (r: Vec<QueryTrace>)
    ensures
        keeps_traces(r@, given@),
{
    let ghost all = given@;
    let mut r: Vec<QueryTrace> = Vec::with_capacity(given.len());
    for traced in it: given
        invariant
            all == it.seq(),
            r@.len() == it.index(),
            forall|i: int|
                0 <= i < r@.len() ==> (#[trigger] r@[i]).query_index == all[i].query_index
                    && r@[i].hop_views() == all[i].trace@,
    {
        assert(all[it.index()] == traced);
        let trace = QueryTrace {
            query_index: traced.query_index,
            hops: convert_hops(traced.trace),
        };
        assert(trace.hop_views() =~= traced.trace@);
        r.push(trace);
    }
    r
}

impl<F, R> SearchResults<F, R> {
    /// The results of a benchmark without traces.
    pub fn new(summary: Summary<F, R>) -> (r: Self)
        ensures
            reports(r, summary),
            r.query_traces is None,
            r.num_tasks == summary.tasks,
            r.search_n == summary.k_value,
            r.search_l == summary.l_value,
            r.qps@.len() == summary.end_to_end_latencies@.len(),
            forall|i: int|
                0 <= i < r.qps@.len() ==> (#[trigger] r.qps@[i]).queries == summary.num_queries
                    && r.qps@[i].micros == summary.end_to_end_latencies@[i],
            r.search_latencies == summary.end_to_end_latencies,
            r.mean_latencies == summary.mean_latencies,
            r.p90_latencies == summary.p90_latencies,
            r.p99_latencies == summary.p99_latencies,
            r.recall == summary.recall,
            r.mean_comparisons == summary.mean_comparisons,
            r.mean_hops == summary.mean_hops,
    {
        let qps: Vec<Rate> = collect_rates(summary.num_queries, &summary.end_to_end_latencies);
        SearchResults {
            num_tasks: summary.tasks,
            search_n: summary.k_value,
            search_l: summary.l_value,
            qps,
            search_latencies: summary.end_to_end_latencies,
            mean_latencies: summary.mean_latencies,
            p90_latencies: summary.p90_latencies,
            p99_latencies: summary.p99_latencies,
            recall: summary.recall,
            mean_comparisons: summary.mean_comparisons,
            mean_hops: summary.mean_hops,
            query_traces: None,
        }
    }

    /// The results of a benchmark of traced searches.
    pub fn new_multihop_dev(summary: MultihopDevSummary<F, R>) -> (r: Self)
        ensures
            reports(r, summary.base),
            r.query_traces is Some,
            keeps_traces(r.query_traces->Some_0@, summary.query_traces@),
            r.num_tasks == summary.base.tasks,
            r.search_n == summary.base.k_value,
            r.search_l == summary.base.l_value,
            r.qps@.len() == summary.base.end_to_end_latencies@.len(),
            forall|i: int|
                0 <= i < r.qps@.len() ==> (#[trigger] r.qps@[i]).queries == summary.base.num_queries
                    && r.qps@[i].micros == summary.base.end_to_end_latencies@[i],
            r.search_latencies == summary.base.end_to_end_latencies,
            r.mean_latencies == summary.base.mean_latencies,
            r.p90_latencies == summary.base.p90_latencies,
            r.p99_latencies == summary.base.p99_latencies,
            r.recall == summary.base.recall,
            r.mean_comparisons == summary.base.mean_comparisons,
            r.mean_hops == summary.base.mean_hops,
            r.query_traces->Some_0@.len() == summary.query_traces@.len(),
            forall|i: int|
                0 <= i < summary.query_traces@.len() ==> {
                    let kept = #[trigger] r.query_traces->Some_0@[i];
                    let given = summary.query_traces@[i];
                    &&& kept.query_index == given.query_index
                    &&& kept.hops@.len() == given.trace.hops@.len()
                },
            forall|i: int, j: int|
                0 <= i < summary.query_traces@.len() && 0 <= j
                    < summary.query_traces@[i].trace.hops@.len() ==> {
                    let kept = #[trigger] r.query_traces->Some_0@[i].hops@[j];
                    let given = summary.query_traces@[i].trace.hops@[j];
                    &&& kept.hop_index == given.hop_index
                    &&& kept.one_hop_enqueued@ == given.one_hop_enqueued@
                    &&& kept.two_hop_enqueued@ == given.two_hop_enqueued@
                },
    {
        let MultihopDevSummary { base, query_traces } = summary;
        let mut r = SearchResults::new(base);
        r.query_traces = Some(convert_traces(query_traces));
        proof {
            let kept = r.query_traces->Some_0@;
            let given = query_traces@;
            assert forall|i: int| 0 <= i < given.len() implies (#[trigger] kept[i]).hops@.len()
                == given[i].trace.hops@.len() by {
                assert(kept[i].hop_views().len() == given[i].trace@.len());
            }
            assert forall|i: int, j: int|
                0 <= i < given.len() && 0 <= j < given[i].trace.hops@.len() implies (
            #[trigger] kept[i].hops@[j])@ == given[i].trace.hops@[j]@ by {
                assert(kept[i].hop_views()[j] == given[i].trace@[j]);
            }
        }
        r
    }
}

impl<F, P> RangeSearchResults<F, P> {
    /// The results of a benchmark of range searches.
    pub fn new(summary: RangeSummary<F, P>) -> (r: Self)
        ensures
            r.num_tasks == summary.tasks,
            r.initial_l == summary.starting_l,
            r.qps@ == rates(summary.num_queries, summary.end_to_end_latencies@),
            r.qps@.len() == summary.end_to_end_latencies@.len(),
            forall|i: int|
                0 <= i < r.qps@.len() ==> (#[trigger] r.qps@[i]).queries == summary.num_queries
                    && r.qps@[i].micros == summary.end_to_end_latencies@[i],
            r.search_latencies == summary.end_to_end_latencies,
            r.mean_latencies == summary.mean_latencies,
            r.p90_latencies == summary.p90_latencies,
            r.p99_latencies == summary.p99_latencies,
            r.average_precision == summary.average_precision,
    {
        let qps: Vec<Rate> = collect_rates(summary.num_queries, &summary.end_to_end_latencies);
        RangeSearchResults {
            num_tasks: summary.tasks,
            initial_l: summary.starting_l,
            qps,
            search_latencies: summary.end_to_end_latencies,
            mean_latencies: summary.mean_latencies,
            p90_latencies: summary.p90_latencies,
            p99_latencies: summary.p99_latencies,
            average_precision: summary.average_precision,
        }
    }
}

/// The results of several benchmarks of one kind.
#[derive(Debug)]
pub enum AggregatedSearchResults<F, R, P> {
    Topk(Vec<SearchResults<F, R>>),
    Range(Vec<RangeSearchResults<F, P>>),
}

impl<F, R, P> AggregatedSearchResults<F, R, P> {
    /// Whether the two hold results of the same kind.
    pub open spec fn same_kind(self, other: Self) -> bool {
        self is Topk <==> other is Topk
    }

    /// Whether the two hold results of the same kind.
    pub fn is_same_kind(&self, other: &Self) -> (r: bool)
        ensures
            r == self.same_kind(*other),
    {
        match (self, other) {
            (AggregatedSearchResults::Topk(_), AggregatedSearchResults::Topk(_)) => true,
            (AggregatedSearchResults::Range(_), AggregatedSearchResults::Range(_)) => true,
            _ => false,
        }
    }

    /// Adds further results of the same kind behind these.
    pub fn append(&mut self, search: Self)
        requires
            old(self).same_kind(search),
        ensures
            final(self).same_kind(*old(self)),
            *old(self) is Topk ==> final(self)->Topk_0@ == old(self)->Topk_0@ + search->Topk_0@,
            *old(self) is Range ==> final(self)->Range_0@ == old(self)->Range_0@
                + search->Range_0@,
    {
        match self {
            AggregatedSearchResults::Topk(v) => {
                if let AggregatedSearchResults::Topk(mut s) = search {
                    v.append(&mut s);
                }
            },
            AggregatedSearchResults::Range(v) => {
                if let AggregatedSearchResults::Range(mut s) = search {
                    v.append(&mut s);
                }
            },
        }
    }
}

/// The statistics of building an index, and the results of the searches on it.
#[derive(Debug)]
pub struct BuildResult<B, F, R, P> {
    pub build: Option<B>,
    pub search: AggregatedSearchResults<F, R, P>,
}

impl<B, F, R, P> BuildResult<B, F, R, P> {
    /// No results of k-nearest-neighbor searches yet.
    pub fn new_topk(build: Option<B>) -> (r: Self)
        ensures
            r.build == build,
            r.search is Topk,
            r.search->Topk_0@ == Seq::<SearchResults<F, R>>::empty(),
    {
        BuildResult { build, search: AggregatedSearchResults::Topk(Vec::new()) }
    }

    /// No results of range searches yet.
    pub fn new_range(build: Option<B>) -> (r: Self)
        ensures
            r.build == build,
            r.search is Range,
            r.search->Range_0@ == Seq::<RangeSearchResults<F, P>>::empty(),
    {
        BuildResult { build, search: AggregatedSearchResults::Range(Vec::new()) }
    }

    /// Adds further results of the same kind.
    pub fn append(&mut self, search: AggregatedSearchResults<F, R, P>)
        requires
            old(self).search.same_kind(search),
        ensures
            final(self).build == old(self).build,
            final(self).search.same_kind(old(self).search),
            old(self).search is Topk ==> final(self).search->Topk_0@ == old(self).search->Topk_0@
                + search->Topk_0@,
            old(self).search is Range ==> final(self).search->Range_0@
                == old(self).search->Range_0@ + search->Range_0@,
    {
        self.search.append(search);
    }
}

} // verus!
