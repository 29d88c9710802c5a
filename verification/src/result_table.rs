//! Benchmark results laid out as tables. The cells name what they show; how a
//! number is printed is left to who prints the table.

use vstd::prelude::*;
use crate::result::{RangeSearchResults, Rate, SearchResults};

verus! {

/// One cell of a table.
#[derive(Debug)]
pub enum Cell<'a, F, S> {
    /// A text.
    Text(String),
    /// A number.
    Count(usize),
    /// A mean.
    Mean(&'a F),
    /// Throughputs: their mean, and in brackets their maximum.
    Throughput(&'a Vec<Rate>),
    /// Mean latencies: their mean, and in brackets their maximum.
    MeanLatency(&'a Vec<F>),
    /// Tail latencies: their mean, and in brackets their maximum, if there is one.
    TailLatency(&'a Vec<u64>, Option<u64>),
    /// The recall or the average precision.
    Score(&'a S),
}

/// A table: one row of cells for each result.
#[derive(Debug)]
pub struct Table<'a, F, S> {
    pub headers: Vec<&'static str>,
    pub rows: Vec<Vec<Cell<'a, F, S>>>,
}

/// Whether `m` is the largest of the values, if there is any.
pub open spec fn is_max(values: Seq<u64>, m: Option<u64>) -> bool {
    match m {
        None => values.len() == 0,
        Some(v) => values.contains(v) && forall|i: int|
            0 <= i < values.len() ==> (#[trigger] values[i]) <= v,
    }
}

/// The largest of the values, if there is any.
pub fn largest(values: &Vec<u64>) -> (m: Option<u64>)
    ensures
        is_max(values@, m),
        m is None <==> values@.len() == 0,
        m matches Some(v) ==> values@.contains(v) && forall|i: int|
            0 <= i < values@.len() ==> (#[trigger] values@[i]) <= v,
{
    if values.len() == 0 {
        return None;
    }
    let mut best: u64 = values[0];
    for i in 1..values.len()
        invariant
            values@.len() > 0,
            values@.contains(best),
            forall|j: int| 0 <= j < i ==> (#[trigger] values@[j]) <= best,
    {
        if values[i] > best {
            best = values[i];
        }
    }
    Some(best)
}

/// The headers of a table of k-nearest-neighbor results.
pub open spec fn search_headers() -> Seq<&'static str> {
    seq![
        "Ls",
        "KNN",
        "Avg cmps",
        "Avg hops",
        "QPS - mean(max)",
        "Avg Latency",
        "p99 Latency",
        "Recall",
        "Threads",
    ]
}

/// The headers of a table of range search results.
pub open spec fn range_headers() -> Seq<&'static str> {
    seq![
        "initial Ls",
        "QPS - mean(max)",
        "Avg Latency",
        "p99 Latency",
        "Average Precision",
        "Threads",
    ]
}

/// Whether `cells` show `r`.
pub open spec fn shows_search<F, R>(cells: Seq<Cell<'_, F, R>>, r: SearchResults<F, R>) -> bool {
    &&& cells.len() == 9
    &&& cells[0] == Cell::<F, R>::Count(r.search_l)
    &&& cells[1] == Cell::<F, R>::Count(r.search_n)
    &&& cells[2] == Cell::<F, R>::Mean(&r.mean_comparisons)
    &&& cells[3] == Cell::<F, R>::Mean(&r.mean_hops)
    &&& cells[4] == Cell::<F, R>::Throughput(&r.qps)
    &&& cells[5] == Cell::<F, R>::MeanLatency(&r.mean_latencies)
    &&& cells[6] matches Cell::TailLatency(values, max) && *values == r.p99_latencies && is_max(
        r.p99_latencies@,
        max,
    )
    &&& cells[7] == Cell::<F, R>::Score(&r.recall)
    &&& cells[8] == Cell::<F, R>::Count(r.num_tasks)
}

/// Whether `cells` show `r`.
pub open spec fn shows_range<F, P>(
    cells: Seq<Cell<'_, F, P>>,
    r: RangeSearchResults<F, P>,
) -> bool {
    &&& cells.len() == 6
    &&& cells[0] == Cell::<F, P>::Count(r.initial_l)
    &&& cells[1] == Cell::<F, P>::Throughput(&r.qps)
    &&& cells[2] == Cell::<F, P>::MeanLatency(&r.mean_latencies)
    &&& cells[3] matches Cell::TailLatency(values, max) && *values == r.p99_latencies && is_max(
        r.p99_latencies@,
        max,
    )
    &&& cells[4] == Cell::<F, P>::Score(&r.average_precision)
    &&& cells[5] == Cell::<F, P>::Count(r.num_tasks)
}

/// Whether `row` has the name of batch `i` in front, if batches are named.
pub open spec fn names_batch<F, S, G: Fn(usize) -> String>(
    row: Seq<Cell<'_, F, S>>,
    formatter: Option<G>,
    i: usize,
) -> bool {
    formatter matches Some(f) ==> row.len() > 0 && (row[0] matches Cell::Text(name)
        && call_ensures(f, (i,), name))
}

/// A row without the name of its batch.
pub open spec fn behind_batch<F, S, G>(
    row: Seq<Cell<'_, F, S>>,
    formatter: Option<G>,
) -> Seq<Cell<'_, F, S>> {
    if formatter is Some {
        row.drop_first()
    } else {
        row
    }
}

/// The table of k-nearest-neighbor results, one row for each; none where there
/// are no results. With a `batch_formatter`, the rows begin with the name that it
/// gives to their number.
pub fn format_search_results_table<'a, F, R, G: Fn(usize) -> String>(
    results: &'a [SearchResults<F, R>],
    batch_formatter: &Option<G>,
) -> (table: Option<Table<'a, F, R>>)
    requires
        batch_formatter matches Some(f) ==> forall|i: usize|
            i < results@.len() ==> call_requires(f, (i,)),
    ensures
        table is None <==> results@.len() == 0,
        table matches Some(t) ==> {
            &&& t.headers@ == if batch_formatter is Some {
                seq!["Batch"] + search_headers()
            } else {
                search_headers()
            }
            &&& t.rows@.len() == results@.len()
            &&& forall|i: usize|
                #![trigger t.rows@[i as int]]
                i < results@.len() ==> names_batch(t.rows@[i as int]@, *batch_formatter, i)
                    && shows_search(
                    behind_batch(t.rows@[i as int]@, *batch_formatter),
                    results@[i as int],
                )
            &&& forall|i: int|
                0 <= i < results@.len() ==> {
                    let row = (#[trigger] t.rows@[i])@;
                    let r = results@[i];
                    let b: int = if batch_formatter is Some {
                        1
                    } else {
                        0
                    };
                    &&& row.len() == b + 9
                    &&& batch_formatter matches Some(f) ==> (row[0] matches Cell::Text(name)
                        && call_ensures(f, (i as usize,), name))
                    &&& row[b] matches Cell::Count(n) && n == r.search_l
                    &&& row[b + 1] matches Cell::Count(n) && n == r.search_n
                    &&& row[b + 2] matches Cell::Mean(v) && *v == r.mean_comparisons
                    &&& row[b + 3] matches Cell::Mean(v) && *v == r.mean_hops
                    &&& row[b + 4] matches Cell::Throughput(v) && *v == r.qps
                    &&& row[b + 5] matches Cell::MeanLatency(v) && *v == r.mean_latencies
                    &&& row[b + 6] matches Cell::TailLatency(v, max) && *v == r.p99_latencies && (
                    max is None <==> v@.len() == 0) && (max matches Some(m) ==> v@.contains(m)
                        && forall|k: int| 0 <= k < v@.len() ==> (#[trigger] v@[k]) <= m)
                    &&& row[b + 7] matches Cell::Score(v) && *v == r.recall
                    &&& row[b + 8] matches Cell::Count(n) && n == r.num_tasks
                }
        },
{
    if results.len() == 0 {
        return None;
    }
    let mut headers: Vec<&'static str> = Vec::new();
    if batch_formatter.is_some() {
        headers.push("Batch");
    }
    headers.push("Ls");
    headers.push("KNN");
    headers.push("Avg cmps");
    headers.push("Avg hops");
    headers.push("QPS - mean(max)");
    headers.push("Avg Latency");
    headers.push("p99 Latency");
    headers.push("Recall");
    headers.push("Threads");
    assert(headers@ =~= if batch_formatter is Some {
        seq!["Batch"] + search_headers()
    } else {
        search_headers()
    });
    let mut rows: Vec<Vec<Cell<'a, F, R>>> = Vec::with_capacity(results.len());
    for i in 0..results.len()
        invariant
            batch_formatter matches Some(f) ==> forall|i: usize|
                i < results@.len() ==> call_requires(f, (i,)),
            rows@.len() == i,
            forall|j: usize|
                #![trigger rows@[j as int]]
                j < i ==> names_batch(rows@[j as int]@, *batch_formatter, j) && shows_search(
                    behind_batch(rows@[j as int]@, *batch_formatter),
                    results@[j as int],
                ),
    {
        let r: &'a SearchResults<F, R> = &results[i];
        let mut row: Vec<Cell<'a, F, R>> = Vec::new();
        if let Some(formatter) = batch_formatter {
            row.push(Cell::Text(formatter(i)));
        }
        let ghost front = row@;
        row.push(Cell::Count(r.search_l));
        row.push(Cell::Count(r.search_n));
        row.push(Cell::Mean(&r.mean_comparisons));
        row.push(Cell::Mean(&r.mean_hops));
        row.push(Cell::Throughput(&r.qps));
        row.push(Cell::MeanLatency(&r.mean_latencies));
        row.push(Cell::TailLatency(&r.p99_latencies, largest(&r.p99_latencies)));
        row.push(Cell::Score(&r.recall));
        row.push(Cell::Count(r.num_tasks));
        proof {
            let behind = behind_batch(row@, *batch_formatter);
            assert(behind =~= row@.skip(front.len() as int));
            assert(shows_search(behind, *r));
        }
        rows.push(row);
    }
    proof {
        assert forall|i: int| 0 <= i < results@.len() implies shows_search(
            behind_batch((#[trigger] rows@[i])@, *batch_formatter),
            results@[i],
        ) && rows@[i]@.len() == 9 + if batch_formatter is Some {
            1int
        } else {
            0int
        } by {
            let at = i as usize;
            assert(names_batch(rows@[at as int]@, *batch_formatter, at));
        }
    }
    Some(Table { headers, rows })
}

/// The table of range search results, one row for each; none where there are no
/// results. With a `batch_formatter`, the rows begin with the name that it gives
/// to their number.
pub fn format_range_search_results_table<'a, F, P, G: Fn(usize) -> String>(
    results: &'a [RangeSearchResults<F, P>],
    batch_formatter: &Option<G>,
) -> (table: Option<Table<'a, F, P>>)
    requires
        batch_formatter matches Some(f) ==> forall|i: usize|
            i < results@.len() ==> call_requires(f, (i,)),
    ensures
        table is None <==> results@.len() == 0,
        table matches Some(t) ==> {
            &&& t.headers@ == if batch_formatter is Some {
                seq!["Batch"] + range_headers()
            } else {
                range_headers()
            }
            &&& t.rows@.len() == results@.len()
            &&& forall|i: usize|
                #![trigger t.rows@[i as int]]
                i < results@.len() ==> names_batch(t.rows@[i as int]@, *batch_formatter, i)
                    && shows_range(
                    behind_batch(t.rows@[i as int]@, *batch_formatter),
                    results@[i as int],
                )
            &&& forall|i: int|
                0 <= i < results@.len() ==> {
                    let row = (#[trigger] t.rows@[i])@;
                    let r = results@[i];
                    let b: int = if batch_formatter is Some {
                        1
                    } else {
                        0
                    };
                    &&& row.len() == b + 6
                    &&& batch_formatter matches Some(f) ==> (row[0] matches Cell::Text(name)
                        && call_ensures(f, (i as usize,), name))
                    &&& row[b] matches Cell::Count(n) && n == r.initial_l
                    &&& row[b + 1] matches Cell::Throughput(v) && *v == r.qps
                    &&& row[b + 2] matches Cell::MeanLatency(v) && *v == r.mean_latencies
                    &&& row[b + 3] matches Cell::TailLatency(v, max) && *v == r.p99_latencies && (
                    max is None <==> v@.len() == 0) && (max matches Some(m) ==> v@.contains(m)
                        && forall|k: int| 0 <= k < v@.len() ==> (#[trigger] v@[k]) <= m)
                    &&& row[b + 4] matches Cell::Score(v) && *v == r.average_precision
                    &&& row[b + 5] matches Cell::Count(n) && n == r.num_tasks
                }
        },
{
    if results.len() == 0 {
        return None;
    }
    let mut headers: Vec<&'static str> = Vec::new();
    if batch_formatter.is_some() {
        headers.push("Batch");
    }
    headers.push("initial Ls");
    headers.push("QPS - mean(max)");
    headers.push("Avg Latency");
    headers.push("p99 Latency");
    headers.push("Average Precision");
    headers.push("Threads");
    assert(headers@ =~= if batch_formatter is Some {
        seq!["Batch"] + range_headers()
    } else {
        range_headers()
    });
    let mut rows: Vec<Vec<Cell<'a, F, P>>> = Vec::with_capacity(results.len());
    for i in 0..results.len()
        invariant
            batch_formatter matches Some(f) ==> forall|i: usize|
                i < results@.len() ==> call_requires(f, (i,)),
            rows@.len() == i,
            forall|j: usize|
                #![trigger rows@[j as int]]
                j < i ==> names_batch(rows@[j as int]@, *batch_formatter, j) && shows_range(
                    behind_batch(rows@[j as int]@, *batch_formatter),
                    results@[j as int],
                ),
    {
        let r: &'a RangeSearchResults<F, P> = &results[i];
        let mut row: Vec<Cell<'a, F, P>> = Vec::new();
        if let Some(formatter) = batch_formatter {
            row.push(Cell::Text(formatter(i)));
        }
        let ghost front = row@;
        row.push(Cell::Count(r.initial_l));
        row.push(Cell::Throughput(&r.qps));
        row.push(Cell::MeanLatency(&r.mean_latencies));
        row.push(Cell::TailLatency(&r.p99_latencies, largest(&r.p99_latencies)));
        row.push(Cell::Score(&r.average_precision));
        row.push(Cell::Count(r.num_tasks));
        proof {
            let behind = behind_batch(row@, *batch_formatter);
            assert(behind =~= row@.skip(front.len() as int));
            assert(shows_range(behind, *r));
        }
        rows.push(row);
    }
    proof {
        assert forall|i: int| 0 <= i < results@.len() implies shows_range(
            behind_batch((#[trigger] rows@[i])@, *batch_formatter),
            results@[i],
        ) && rows@[i]@.len() == 6 + if batch_formatter is Some {
            1int
        } else {
            0int
        } by {
            let at = i as usize;
            assert(names_batch(rows@[at as int]@, *batch_formatter, at));
        }
    }
    Some(Table { headers, rows })
}

} // verus!
