//! Benchmarking label-filtered search: one query, one label filter and one
//! strategy for each search.

use vstd::prelude::*;
use crate::label::QueryLabelProvider;
use crate::multihop_search_dev::MultihopSearchDev;
use crate::scratch::{Knn, SearchStats};
use crate::text::{decimal, push_decimal};

verus! {

/// The strategies of a benchmark.
#[derive(Clone, Debug)]
pub enum Strategy<S> {
    /// One strategy for all queries.
    Broadcast(S),
    /// A strategy of its own for each query.
    Collection(Vec<S>),
}

impl<S> Strategy<S> {
    /// Whether there is a strategy for each of `count` queries and no further one.
    pub open spec fn covers(&self, count: nat) -> bool {
        self matches Strategy::Collection(all) ==> all@.len() == count
    }

    /// The strategy of query `index`.
    pub open spec fn of(&self, index: int) -> S {
        match self {
            Strategy::Broadcast(one) => *one,
            Strategy::Collection(all) => all@[index],
        }
    }

    /// Whether there is a strategy for each of `count` queries; if not, how many
    /// there are.
    pub fn length_compatible(&self, count: usize) -> (r: Result<(), usize>)
        ensures
            r is Ok <==> self.covers(count as nat),
            r is Ok <==> (self is Broadcast || self->Collection_0@.len() == count),
            r matches Err(n) ==> (self matches Strategy::Collection(all) && n == all@.len()),
    {
        match self {
            Strategy::Broadcast(_) => Ok(()),
            Strategy::Collection(all) => if all.len() == count {
                Ok(())
            } else {
                Err(all.len())
            },
        }
    }

    /// The strategy of query `index`, if there is one.
    pub fn get(&self, index: usize) -> (r: Option<&S>)
        ensures
            r is Some <==> (self matches Strategy::Collection(all) ==> index < all@.len()),
            r matches Some(s) ==> *s == self.of(index as int),
            self matches Strategy::Broadcast(one) ==> r == Some(one),
            self matches Strategy::Collection(all) ==> (index < all@.len() ==> r == Some(
                &all@[index as int],
            )),
    {
        match self {
            Strategy::Broadcast(one) => Some(one),
            Strategy::Collection(all) => if index < all.len() {
                Some(&all[index])
            } else {
                None
            },
        }
    }
}

/// Why a benchmark cannot be set up.
#[derive(Clone, Copy, Debug, PartialEq, Eq, Structural)]
pub enum SetupError {
    /// There is not one strategy for each query.
    Strategies { strategies: usize, queries: usize },
    /// There is not one label filter for each query.
    LabelProviders { labels: usize, queries: usize },
}

impl SetupError {
    /// The error in words.
    pub open spec fn words(self) -> Seq<char> {
        match self {
            SetupError::Strategies { strategies, queries } => "Number of strategies ("@ + decimal(
                strategies as nat,
            ) + ") must be equal to the number of queries ("@ + decimal(queries as nat) + ")"@,
            SetupError::LabelProviders { labels, queries } => "Number of label providers ("@
                + decimal(labels as nat) + ") must be equal to the number of queries ("@ + decimal(
                queries as nat,
            ) + ")"@,
        }
    }

    /// The error in words.
    pub fn message(&self) -> (r: String)
        ensures
            r@ == self.words(),
    {
        let (mut r, given, queries): (String, usize, usize) = match *self {
            SetupError::Strategies { strategies, queries } => (
                String::from_str("Number of strategies ("),
                strategies,
                queries,
            ),
            SetupError::LabelProviders { labels, queries } => (
                String::from_str("Number of label providers ("),
                labels,
                queries,
            ),
        };
        push_decimal(&mut r, given);
        r.append(") must be equal to the number of queries (");
        push_decimal(&mut r, queries);
        r.append(")");
        r
    }
}

/// How many ids a search gives back.
#[derive(Clone, Copy, Debug, PartialEq, Eq, Structural)]
pub enum IdCount {
    /// This many.
    Fixed(usize),
}

/// The counters of one search of a benchmark.
#[derive(Clone, Copy, Debug, PartialEq, Eq, Structural)]
pub struct Metrics {
    pub comparisons: u32,
    pub hops: u32,
    /// How often the label filter was asked.
    pub bitmap_checks: usize,
}

/// A benchmark of label-filtered searches on `index`.
#[derive(Debug)]
pub struct MultiHopDev<I, Q, S, L> {
    index: I,
    queries: Vec<Q>,
    strategy: Strategy<S>,
    labels: Vec<L>,
}

/// What one search of a benchmark needs.
#[derive(Debug)]
pub struct SearchRequest<'a, I, Q, S, L: QueryLabelProvider> {
    pub index: &'a I,
    pub query: &'a Q,
    pub strategy: &'a S,
    pub search: MultihopSearchDev<'a, L>,
}

impl<I, Q, S, L> MultiHopDev<I, Q, S, L> {
    /// There is one strategy and one label filter for each query.
    #[verifier::type_invariant]
    closed spec fn complete(self) -> bool {
        &&& self.strategy.covers(self.queries@.len())
        &&& self.labels@.len() == self.queries@.len()
    }

    /// The index that is searched.
    pub closed spec fn spec_index(&self) -> I {
        self.index
    }

    /// The queries.
    pub closed spec fn spec_queries(&self) -> Seq<Q> {
        self.queries@
    }

    /// The strategies.
    pub closed spec fn spec_strategy(&self) -> Strategy<S> {
        self.strategy
    }

    /// The label filters.
    pub closed spec fn spec_labels(&self) -> Seq<L> {
        self.labels@
    }

    /// Sets a benchmark up, if there is one strategy and one label filter for each
    /// query.
    pub fn new(index: I, queries: Vec<Q>, strategy: Strategy<S>, labels: Vec<L>) -> (r: Result<
        Self,
        SetupError,
    >)
        ensures
            match r {
                Ok(b) => {
                    &&& strategy.covers(queries@.len())
                    &&& strategy matches Strategy::Collection(all) ==> all@.len() == queries@.len()
                    &&& labels@.len() == queries@.len()
                    &&& b.spec_index() == index
                    &&& b.spec_queries() == queries@
                    &&& b.spec_strategy() == strategy
                    &&& b.spec_labels() == labels@
                },
                Err(SetupError::Strategies { strategies, queries: count }) => {
                    &&& !strategy.covers(queries@.len())
                    &&& strategy matches Strategy::Collection(all) && strategies == all@.len()
                    &&& count == queries@.len()
                },
                Err(SetupError::LabelProviders { labels: given, queries: count }) => {
                    &&& strategy.covers(queries@.len())
                    &&& labels@.len() != queries@.len()
                    &&& given == labels@.len()
                    &&& count == queries@.len()
                },
            },
    {
        if let Err(strategies) = strategy.length_compatible(queries.len()) {
            return Err(SetupError::Strategies { strategies, queries: queries.len() });
        }
        if labels.len() != queries.len() {
            Err(SetupError::LabelProviders { labels: labels.len(), queries: queries.len() })
        } else {
            Ok(MultiHopDev { index, queries, strategy, labels })
        }
    }

    /// How many queries there are.
    pub fn num_queries(&self) -> (r: usize)
        ensures
            r == self.spec_queries().len(),
    {
        self.queries.len()
    }

    /// How many ids a search gives back: as many as are asked for.
    pub fn id_count(&self, parameters: &Knn) -> (r: IdCount)
        ensures
            r == IdCount::Fixed(parameters.spec_k()),
    {
        IdCount::Fixed(parameters.k_value())
    }
}

impl<I, Q, S, L: QueryLabelProvider> MultiHopDev<I, Q, S, L> {
    /// What the search for query `index` needs.
    pub fn request(&self, parameters: &Knn, index: usize) -> (r: SearchRequest<'_, I, Q, S, L>)
        requires
            index < self.spec_queries().len(),
        ensures
            *r.index == self.spec_index(),
            *r.query == self.spec_queries()[index as int],
            *r.strategy == self.spec_strategy().of(index as int),
            self.spec_strategy() matches Strategy::Broadcast(one) ==> *r.strategy == one,
            self.spec_strategy() matches Strategy::Collection(all) ==> *r.strategy
                == all@[index as int],
            r.search.inner == *parameters,
            *r.search.label_evaluator == self.spec_labels()[index as int],
    {
        proof {
            use_type_invariant(self);
        }
        let strategy: &S = self.strategy.get(index).unwrap();
        SearchRequest {
            index: &self.index,
            query: &self.queries[index],
            strategy,
            search: MultihopSearchDev::new(*parameters, &self.labels[index]),
        }
    }
}

/// The counters of a search, given how often the label filter had been asked before
/// and after it.
pub fn metrics(stats: &SearchStats, checks_before: usize, checks_after: usize) -> (r: Metrics)
    requires
        checks_before <= checks_after,
    ensures
        r.comparisons == stats.comparisons,
        r.hops == stats.hops,
        r.bitmap_checks == checks_after - checks_before,
{
    Metrics {
        comparisons: stats.comparisons,
        hops: stats.hops,
        bitmap_checks: checks_after - checks_before,
    }
}

} // verus!
