//! The file that the traces of a benchmark are written to, one record a line.

use vstd::prelude::*;
use crate::result::{HopTrace, SearchResults};
use crate::text::{decimal, decimals, digit, joined, push_decimal, push_joined};

verus! {

/// Where the trace files go.
pub const TRACE_OUTPUT_DIR: &'static str = "/scratch1/zhan4404/dataset/caselaw/new_query/trace";

/// One line of a trace file: the hops of one query, and the search they belong to.
#[derive(Debug)]
pub struct QueryTraceRecord<'a> {
    pub query_file: &'a str,
    pub context: Option<&'a str>,
    pub num_tasks: usize,
    pub search_n: usize,
    pub search_l: usize,
    pub query_index: usize,
    pub hops: &'a Vec<HopTrace>,
}

/// A trace file: its name and its lines.
#[derive(Debug)]
pub struct TraceFile<'a> {
    pub file_name: String,
    pub records: Vec<QueryTraceRecord<'a>>,
}

/// Whether a character may stand in a part of a file name.
pub open spec fn is_plain(c: char) -> bool {
    ||| 'a' <= c <= 'z'
    ||| 'A' <= c <= 'Z'
    ||| '0' <= c <= '9'
    ||| c == '-'
    ||| c == '_'
}

/// The text with an underscore for each character that may not stand in a file name.
pub open spec fn sanitized(value: Seq<char>) -> Seq<char> {
    Seq::new(
        value.len(),
        |i: int|
            if is_plain(value[i]) {
                value[i]
            } else {
                '_'
            },
    )
}

/// The text with an underscore for each character that may not stand in a file name.
pub fn sanitize_file_component(value: &str) -> (r: String)
    ensures
        r@ == sanitized(value@),
        r@.len() == value@.len(),
        forall|i: int|
            0 <= i < value@.len() ==> (#[trigger] r@[i]) == if ('a' <= value@[i] <= 'z') || ('A'
                <= value@[i] <= 'Z') || ('0' <= value@[i] <= '9') || value@[i] == '-' || value@[i]
                == '_' {
                value@[i]
            } else {
                '_'
            },
{
    let mut r: String = String::new();
    for c in it: value.chars()
        invariant
            it.seq() == value@,
            r@ == sanitized(value@.take(it.index())),
    {
        assert(c == value@[it.index()]);
        let plain: bool = ('a' <= c && c <= 'z') || ('A' <= c && c <= 'Z') || ('0' <= c && c
            <= '9') || c == '-' || c == '_';
        r.push(
            if plain {
                c
            } else {
                '_'
            },
        );
        assert(r@ =~= sanitized(value@.take(it.index() + 1)));
    }
    assert(value@.take(value@.len() as int) == value@);
    r
}

/// Whether the values stand in strictly ascending order.
pub open spec fn is_ascending(values: Seq<usize>) -> bool {
    forall|i: int, j: int| 0 <= i < j < values.len() ==> values[i] < values[j]
}

/// Whether `listed` holds each of the values once, in ascending order, and no others.
pub open spec fn lists(listed: Seq<usize>, values: Seq<usize>) -> bool {
    &&& is_ascending(listed)
    &&& forall|v: usize| #[trigger] listed.contains(v) <==> values.contains(v)
}

/// The values in ascending order, each of them once.
pub open spec fn ascending(values: Seq<usize>) -> Seq<usize> {
    choose|listed: Seq<usize>| lists(listed, values)
}

/// Ascending lists of the same values are the same.
proof fn lemma_lists_unique(a: Seq<usize>, b: Seq<usize>)
    requires
        is_ascending(a),
        is_ascending(b),
        forall|v: usize| #[trigger] a.contains(v) <==> b.contains(v),
    ensures
        a == b,
    decreases a.len(),
{
    if a.len() == 0 {
        if b.len() > 0 {
            assert(b.contains(b[0]));
            assert(a.contains(b[0]));
        }
        assert(a =~= b);
    } else {
        assert(a.contains(a.last()));
        assert(b.contains(a.last()));
        assert(b.contains(b.last()));
        assert(a.contains(b.last()));
        let i = b.index_of(a.last());
        let j = a.index_of(b.last());
        assert(b[i] == a.last() && a[j] == b.last());
        assert(a.last() == b.last());
        let x = a.drop_last();
        let y = b.drop_last();
        assert forall|v: usize| #[trigger] x.contains(v) <==> y.contains(v) by {
            if x.contains(v) {
                let k = x.index_of(v);
                assert(a[k] == v);
                assert(a.contains(v));
                let m = b.index_of(v);
                assert(b[m] == v);
                assert(y[m] == v);
            }
            if y.contains(v) {
                let k = y.index_of(v);
                assert(b[k] == v);
                assert(b.contains(v));
                assert(a.contains(v));
                let m = a.index_of(v);
                assert(a[m] == v);
                assert(x[m] == v);
            }
        }
        lemma_lists_unique(x, y);
        assert(a =~= x.push(a.last()));
        assert(b =~= y.push(b.last()));
    }
}

/// A list of the values in ascending order is the list of them.
pub proof fn lemma_ascending(listed: Seq<usize>, values: Seq<usize>)
    requires
        lists(listed, values),
    ensures
        ascending(values) == listed,
{
    let other = ascending(values);
    assert(lists(other, values));
    lemma_lists_unique(other, listed);
}

/// The values in ascending order, each of them once.
pub fn sort_distinct(values: &Vec<usize>) -> (r: Vec<usize>)
    ensures
        lists(r@, values@),
        r@ == ascending(values@),
        forall|i: int, j: int| 0 <= i < j < r@.len() ==> (#[trigger] r@[i]) < (#[trigger] r@[j]),
        forall|v: usize| #[trigger] r@.contains(v) <==> values@.contains(v),
{
    let mut r: Vec<usize> = Vec::new();
    for i in 0..values.len()
        invariant
            lists(r@, values@.take(i as int)),
    {
        let v: usize = values[i];
        let size: usize = r.len();
        let mut at: usize = 0;
        while at < size && r[at] < v
            invariant
                at <= size,
                size == r@.len(),
                forall|k: int| 0 <= k < at ==> r@[k] < v,
            decreases size - at,
        {
            at += 1;
        }
        let ghost before = r@;
        let ghost seen = values@.take(i as int);
        let ghost next = values@.take(i + 1);
        assert(next =~= seen.push(v));
        if at < size && r[at] == v {
            assert forall|w: usize| #[trigger] r@.contains(w) <==> next.contains(w) by {
                assert(r@[at as int] == v);
                assert(r@.contains(v));
                assert(next.contains(w) <==> seen.contains(w) || w == v) by {
                    if seen.contains(w) {
                        assert(next[seen.index_of(w)] == w);
                    }
                    assert(next[i as int] == v);
                }
            }
        } else {
            r.insert(at, v);
            assert(r@ =~= before.insert(at as int, v));
            assert forall|w: usize| #[trigger] r@.contains(w) <==> next.contains(w) by {
                assert(r@[at as int] == v);
                if before.contains(w) {
                    let k = before.index_of(w);
                    assert(r@[if k < at { k } else { k + 1 }] == w);
                }
                if r@.contains(w) && w != v {
                    let k = r@.index_of(w);
                    assert(before[if k < at { k } else { k - 1 }] == w);
                }
                assert(next.contains(w) <==> seen.contains(w) || w == v) by {
                    if seen.contains(w) {
                        assert(next[seen.index_of(w)] == w);
                    }
                    assert(next[i as int] == v);
                }
            }
            assert(is_ascending(r@));
        }
    }
    assert(values@.take(values@.len() as int) == values@);
    proof {
        lemma_ascending(r@, values@);
    }
    r
}

/// The list sizes of the searches.
pub open spec fn search_sizes<F, R>(results: Seq<SearchResults<F, R>>) -> Seq<usize> {
    Seq::new(results.len(), |i: int| results[i].search_l)
}

/// How a file name tells the list sizes in it.
pub open spec fn size_suffix(sizes: Seq<usize>) -> Seq<char> {
    if sizes.len() == 0 {
        "lunknown"@
    } else if sizes.len() == 1 {
        "l"@ + decimal(sizes[0] as nat)
    } else {
        "ls"@ + joined(decimals(sizes), "-"@)
    }
}

/// The part of a file name that tells the list sizes of the searches: each of them
/// once, in ascending order.
pub fn search_l_suffix<F, R>(results: &[SearchResults<F, R>]) -> (r: String)
    ensures
        r@ == size_suffix(ascending(search_sizes(results@))),
        exists|sizes: Seq<usize>|
            {
                &&& forall|i: int, j: int|
                    0 <= i < j < sizes.len() ==> (#[trigger] sizes[i]) < (#[trigger] sizes[j])
                &&& forall|v: usize| #[trigger]
                    sizes.contains(v) <==> exists|i: int|
                        0 <= i < results@.len() && (#[trigger] results@[i]).search_l == v
                &&& sizes.len() == 0 ==> r@ == "lunknown"@
                &&& sizes.len() == 1 ==> r@ == "l"@ + decimal(sizes[0] as nat)
                &&& sizes.len() > 1 ==> r@ == "ls"@ + joined(#[trigger] decimals(sizes), "-"@)
            },
{
    let mut sizes: Vec<usize> = Vec::with_capacity(results.len());
    for i in 0..results.len()
        invariant
            sizes@ == search_sizes(results@.take(i as int)),
    {
        sizes.push(results[i].search_l);
        assert(sizes@ =~= search_sizes(results@.take(i + 1)));
    }
    assert(results@.take(results@.len() as int) == results@);
    let values: Vec<usize> = sort_distinct(&sizes);
    assert forall|v: usize| #[trigger] values@.contains(v) <==> exists|i: int|
        0 <= i < results@.len() && (#[trigger] results@[i]).search_l == v by {
        if values@.contains(v) {
            let k = sizes@.index_of(v);
            assert(results@[k].search_l == v);
        }
        if exists|i: int| 0 <= i < results@.len() && (#[trigger] results@[i]).search_l == v {
            let i = choose|i: int| 0 <= i < results@.len() && (#[trigger] results@[i]).search_l == v;
            assert(sizes@[i] == v);
        }
    }
    assert(decimals(values@).len() == values@.len());
    if values.len() == 0 {
        return String::from_str("lunknown");
    }
    if values.len() == 1 {
        let mut r: String = String::from_str("l");
        push_decimal(&mut r, values[0]);
        return r;
    }
    let mut r: String = String::from_str("ls");
    push_joined(&mut r, &values, "-");
    r
}

/// The first part of the name of a trace file: the stem of the name of the query
/// file, else its name, else `query`.
pub open spec fn base_name(stem: Option<&str>, name: Option<&str>) -> Seq<char> {
    match (stem, name) {
        (Some(stem), _) => stem@,
        (None, Some(name)) => name@,
        (None, None) => "query"@,
    }
}

/// The part of the name of a trace file that tells the context, if there is one.
pub open spec fn context_part(context: Option<&str>) -> Seq<char> {
    match context {
        Some(context) if context@.len() > 0 => "_"@ + sanitized(context@),
        _ => Seq::empty(),
    }
}

/// The name of the trace file of the results.
pub open spec fn file_name_of<F, R>(
    stem: Option<&str>,
    name: Option<&str>,
    context: Option<&str>,
    results: Seq<SearchResults<F, R>>,
) -> Seq<char> {
    base_name(stem, name) + "_"@ + size_suffix(ascending(search_sizes(results))) + context_part(
        context,
    ) + ".trace.jsonl"@
}

/// The name of the trace file of the results, from the stem and the name of the
/// query file as far as they are text.
pub fn trace_file_name<F, R>(
    stem: Option<&str>,
    name: Option<&str>,
    context: Option<&str>,
    results: &[SearchResults<F, R>],
) -> (r: String)
    ensures
        r@ == file_name_of(stem, name, context, results@),
        r@ == match (stem, name) {
            (Some(stem), _) => stem@,
            (None, Some(name)) => name@,
            (None, None) => "query"@,
        } + "_"@ + size_suffix(ascending(search_sizes(results@))) + match context {
            Some(context) if context@.len() > 0 => "_"@ + sanitized(context@),
            _ => Seq::empty(),
        } + ".trace.jsonl"@,
{
    let mut r: String = match (stem, name) {
        (Some(stem), _) => String::from_str(stem),
        (None, Some(name)) => String::from_str(name),
        (None, None) => String::from_str("query"),
    };
    r.append("_");
    let suffix: String = search_l_suffix(results);
    r.append(suffix.as_str());
    match context {
        Some(context) if context.unicode_len() > 0 => {
            r.append("_");
            let part: String = sanitize_file_component(context);
            r.append(part.as_str());
        },
        _ => {},
    }
    r.append(".trace.jsonl");
    assert(r@ =~= file_name_of(stem, name, context, results@));
    r
}

/// The name that the records give to the query file.
pub fn query_file_name<'a>(name: Option<&'a str>) -> (r: &'a str)
    ensures
        name matches Some(n) ==> r == n,
        name is None ==> r@ == "unknown-query"@,
{
    match name {
        Some(name) => name,
        None => "unknown-query",
    }
}

/// Whether one of the results has a trace.
pub open spec fn has_traces<F, R>(results: Seq<SearchResults<F, R>>) -> bool {
    exists|i: int|
        0 <= i < results.len() && ((#[trigger] results[i]).query_traces matches Some(t) && t@.len()
            > 0)
}

/// The records of one search.
pub open spec fn records_of<'a, F, R>(
    result: SearchResults<F, R>,
    query_file: &'a str,
    context: Option<&'a str>,
) -> Seq<QueryTraceRecord<'a>> {
    match result.query_traces {
        None => Seq::empty(),
        Some(traces) => Seq::new(
            traces@.len(),
            |i: int|
                QueryTraceRecord {
                    query_file,
                    context,
                    num_tasks: result.num_tasks,
                    search_n: result.search_n,
                    search_l: result.search_l,
                    query_index: traces@[i].query_index,
                    hops: &traces@[i].hops,
                },
        ),
    }
}

/// The records of all searches, in order.
pub open spec fn all_records<'a, F, R>(
    results: Seq<SearchResults<F, R>>,
    query_file: &'a str,
    context: Option<&'a str>,
) -> Seq<QueryTraceRecord<'a>>
    decreases results.len(),
{
    if results.len() == 0 {
        Seq::empty()
    } else {
        all_records(results.drop_last(), query_file, context) + records_of(
            results.last(),
            query_file,
            context,
        )
    }
}

/// There are records exactly where one of the results has a trace.
pub proof fn law_records_of_traces<F, R>(
    results: Seq<SearchResults<F, R>>,
    query_file: &str,
    context: Option<&str>,
)
    ensures
        all_records(results, query_file, context).len() > 0 <==> has_traces(results),
    decreases results.len(),
{
    if results.len() > 0 {
        let front = results.drop_last();
        law_records_of_traces(front, query_file, context);
        if has_traces(front) {
            let i = choose|i: int|
                0 <= i < front.len() && ((#[trigger] front[i]).query_traces matches Some(t)
                    && t@.len() > 0);
            assert(results[i] == front[i]);
        }
        if has_traces(results) {
            let i = choose|i: int|
                0 <= i < results.len() && ((#[trigger] results[i]).query_traces matches Some(t)
                    && t@.len() > 0);
            if i < front.len() {
                assert(front[i] == results[i]);
            }
        }
        assert(results[results.len() - 1] == results.last());
    }
}

/// The records of all searches, in order.
fn collect_records<'a, F, R>(
    results: &'a [SearchResults<F, R>],
    query_file: &'a str,
    context: Option<&'a str>,
) -> (records: Vec<QueryTraceRecord<'a>>)
    ensures
        records@ == all_records(results@, query_file, context),
{
    let mut records: Vec<QueryTraceRecord<'a>> = Vec::new();
    for i in 0..results.len()
        invariant
            records@ == all_records(results@.take(i as int), query_file, context),
    {
        let result: &'a SearchResults<F, R> = &results[i];
        let ghost front = records@;
        if let Some(traces) = &result.query_traces {
            for j in 0..traces.len()
                invariant
                    result.query_traces == Some(*traces),
                    records@ == front + records_of(*result, query_file, context).take(j as int),
            {
                records.push(
                    QueryTraceRecord {
                        query_file,
                        context,
                        num_tasks: result.num_tasks,
                        search_n: result.search_n,
                        search_l: result.search_l,
                        query_index: traces[j].query_index,
                        hops: &traces[j].hops,
                    },
                );
                assert(records@ =~= front + records_of(*result, query_file, context).take(j + 1));
            }
        }
        proof {
            let of_result = records_of(*result, query_file, context);
            assert(of_result.take(of_result.len() as int) =~= of_result);
            assert(records@ =~= front + of_result);
            assert(results@.take(i + 1).drop_last() =~= results@.take(i as int));
        }
    }
    assert(results@.take(results@.len() as int) == results@);
    records
}

/// The trace file of the results, or none where no result has a trace.
pub fn trace_file<'a, F, R>(
    results: &'a [SearchResults<F, R>],
    stem: Option<&'a str>,
    name: Option<&'a str>,
    context: Option<&'a str>,
) -> (r: Option<TraceFile<'a>>)
    ensures
        r is Some <==> has_traces(results@),
        r matches Some(file) ==> {
            &&& file.file_name@ == file_name_of(stem, name, context, results@)
            &&& name matches Some(n) ==> file.records@ == all_records(results@, n, context)
            &&& name is None ==> exists|n: &str|
                n@ == "unknown-query"@ && file.records@ == #[trigger] all_records(
                    results@,
                    n,
                    context,
                )
            &&& forall|m: int|
                0 <= m < file.records@.len() ==> (#[trigger] file.records@[m]).query_file@
                    == match name {
                    Some(n) => n@,
                    None => "unknown-query"@,
                } && file.records@[m].context == context
            &&& exists|places: Seq<(int, int)>|
                {
                    &&& #[trigger] are_traces(results@, places)
                    &&& places.len() == file.records@.len()
                    &&& forall|m: int|
                        0 <= m < places.len() ==> {
                            let result = results@[(#[trigger] places[m]).0];
                            let trace = result.query_traces->Some_0@[places[m].1];
                            &&& file.records@[m].num_tasks == result.num_tasks
                            &&& file.records@[m].search_n == result.search_n
                            &&& file.records@[m].search_l == result.search_l
                            &&& file.records@[m].query_index == trace.query_index
                            &&& *file.records@[m].hops == trace.hops
                        }
                }
        },
{
    let query_file: &'a str = query_file_name(name);
    let records: Vec<QueryTraceRecord<'a>> = collect_records(results, query_file, context);
    proof {
        law_records_of_traces(results@, query_file, context);
        law_records(results@, query_file, context);
    }
    if records.len() == 0 {
        return None;
    }
    let file_name: String = trace_file_name(stem, name, context, results);
    Some(TraceFile { file_name, records })
}

/// A sanitized text is as long as the text, holds only characters that may stand in
/// a file name, and keeps those that may; sanitizing it again changes nothing.
pub proof fn law_sanitized(value: Seq<char>)
    ensures
        sanitized(value).len() == value.len(),
        forall|i: int| 0 <= i < value.len() ==> is_plain(#[trigger] sanitized(value)[i]),
        forall|i: int|
            0 <= i < value.len() && is_plain(value[i]) ==> #[trigger] sanitized(value)[i]
                == value[i],
        sanitized(sanitized(value)) == sanitized(value),
{
    assert(sanitized(sanitized(value)) =~= sanitized(value));
}

/// Any values can be put in ascending order, each of them once.
pub proof fn lemma_ascending_exists(values: Seq<usize>)
    ensures
        lists(ascending(values), values),
    decreases values.len(),
{
    if values.len() == 0 {
        assert(lists(Seq::<usize>::empty(), values));
    } else {
        let front = values.drop_last();
        let v = values.last();
        lemma_ascending_exists(front);
        let rest = ascending(front);
        assert forall|w: usize| #[trigger] values.contains(w) <==> front.contains(w) || w == v by {
            if front.contains(w) {
                assert(values[front.index_of(w)] == w);
            }
            if values.contains(w) && w != v {
                assert(front[values.index_of(w)] == w);
            }
            assert(values[values.len() - 1] == v);
        }
        if rest.contains(v) {
            assert(lists(rest, values));
        } else {
            let at = count_below(rest, v);
            lemma_count_below(rest, v);
            let listed = rest.insert(at, v);
            assert forall|w: usize| #[trigger] listed.contains(w) <==> values.contains(w) by {
                assert(listed[at] == v);
                if rest.contains(w) {
                    let k = rest.index_of(w);
                    assert(listed[if k < at { k } else { k + 1 }] == w);
                }
                if listed.contains(w) && w != v {
                    let k = listed.index_of(w);
                    assert(rest[if k < at { k } else { k - 1 }] == w);
                }
                assert(values.contains(w) <==> front.contains(w) || w == v);
                assert(rest.contains(w) <==> front.contains(w));
            }
            assert forall|i: int, j: int| 0 <= i < j < listed.len() implies listed[i]
                < listed[j] by {
                assert(rest.contains(rest[j - 1]));
                if i == at {
                    assert(listed[j] == rest[j - 1]);
                } else if j == at {
                    assert(listed[i] == rest[i]);
                }
            }
            assert(lists(listed, values));
        }
    }
}

/// How many values of an ascending list stand before all that are not below `v`.
spec fn count_below(listed: Seq<usize>, v: usize) -> int
    decreases listed.len(),
{
    if listed.len() == 0 || listed.last() < v {
        listed.len() as int
    } else {
        count_below(listed.drop_last(), v)
    }
}

proof fn lemma_count_below(listed: Seq<usize>, v: usize)
    requires
        is_ascending(listed),
    ensures
        0 <= count_below(listed, v) <= listed.len(),
        forall|i: int| 0 <= i < count_below(listed, v) ==> listed[i] < v,
        forall|i: int| count_below(listed, v) <= i < listed.len() ==> listed[i] >= v,
    decreases listed.len(),
{
    if listed.len() > 0 && listed.last() >= v {
        lemma_count_below(listed.drop_last(), v);
        assert forall|i: int| 0 <= i < count_below(listed, v) implies listed[i] < v by {
            assert(listed.drop_last()[i] == listed[i]);
        }
        assert forall|i: int| count_below(listed, v) <= i < listed.len() implies listed[i]
            >= v by {
            if i < listed.len() - 1 {
                assert(listed.drop_last()[i] == listed[i]);
            }
        }
    }
}

/// Neither the order of the searches nor how often a list size occurs changes the
/// part of the file name that tells the list sizes.
pub proof fn law_suffix_by_values(a: Seq<usize>, b: Seq<usize>)
    requires
        forall|v: usize| #[trigger] a.contains(v) <==> b.contains(v),
    ensures
        size_suffix(ascending(a)) == size_suffix(ascending(b)),
{
    lemma_ascending_exists(a);
    let listed = ascending(a);
    assert forall|v: usize| #[trigger] listed.contains(v) <==> b.contains(v) by {
        assert(a.contains(v) <==> b.contains(v));
    }
    lemma_ascending(listed, b);
}

/// Searches with different list sizes get different file name parts.
pub proof fn law_suffix_tells_sizes(a: Seq<usize>, b: Seq<usize>)
    requires
        size_suffix(ascending(a)) == size_suffix(ascending(b)),
    ensures
        forall|v: usize| #[trigger] a.contains(v) <==> b.contains(v),
{
    lemma_ascending_exists(a);
    lemma_ascending_exists(b);
    lemma_suffix_injective(ascending(a), ascending(b));
    assert forall|v: usize| #[trigger] a.contains(v) <==> b.contains(v) by {
        assert(ascending(a).contains(v) <==> a.contains(v));
        assert(ascending(b).contains(v) <==> b.contains(v));
    }
}

proof fn lemma_suffix_injective(a: Seq<usize>, b: Seq<usize>)
    requires
        size_suffix(a) == size_suffix(b),
    ensures
        a == b,
{
    reveal_strlit("lunknown");
    reveal_strlit("l");
    reveal_strlit("ls");
    reveal_strlit("-");
    let s = size_suffix(a);
    assert forall|x: Seq<usize>| #[trigger] size_suffix(x) == s implies (x.len() == 0 <==> s[1]
        == 'u') && (x.len() == 1 <==> s[1] != 'u' && s[1] != 's') by {
        if x.len() == 1 {
            lemma_decimal(x[0] as nat);
            assert(s[1] == decimal(x[0] as nat)[0]);
        } else if x.len() > 1 {
            assert(s[1] == 's');
        }
    }
    assert(size_suffix(b) == s);
    if a.len() == 0 {
        assert(a =~= b);
    } else if a.len() == 1 {
        assert(s.skip(1) =~= decimal(a[0] as nat));
        assert(s.skip(1) =~= decimal(b[0] as nat));
        lemma_decimal_injective(a[0] as nat, b[0] as nat);
        assert(a =~= b);
    } else {
        assert(s.skip(2) =~= joined(decimals(a), "-"@));
        assert(s.skip(2) =~= joined(decimals(b), "-"@));
        lemma_joined_injective(a, b);
    }
}

/// A number is written with one digit at least, and with digits alone.
proof fn lemma_decimal(n: nat)
    ensures
        decimal(n).len() > 0,
        forall|i: int| 0 <= i < decimal(n).len() ==> '0' <= (#[trigger] decimal(n)[i]) <= '9',
    decreases n,
{
    if n >= 10 {
        lemma_decimal(n / 10);
    }
}

proof fn lemma_decimal_injective(a: nat, b: nat)
    requires
        decimal(a) == decimal(b),
    ensures
        a == b,
    decreases a,
{
    lemma_decimal(a / 10);
    lemma_decimal(b / 10);
    assert(decimal(a).last() == digit(a % 10));
    assert(decimal(b).last() == digit(b % 10));
    if a >= 10 && b >= 10 {
        assert(decimal(a).drop_last() =~= decimal(a / 10));
        assert(decimal(b).drop_last() =~= decimal(b / 10));
        lemma_decimal_injective(a / 10, b / 10);
    }
}

proof fn lemma_joined_injective(a: Seq<usize>, b: Seq<usize>)
    requires
        a.len() > 0,
        b.len() > 0,
        joined(decimals(a), "-"@) == joined(decimals(b), "-"@),
    ensures
        a == b,
    decreases a.len(),
{
    reveal_strlit("-");
    let s = joined(decimals(a), "-"@);
    let x = decimal(a.last() as nat);
    let y = decimal(b.last() as nat);
    lemma_decimal(a.last() as nat);
    lemma_decimal(b.last() as nat);
    assert(decimals(a).drop_last() =~= decimals(a.drop_last()));
    assert(decimals(b).drop_last() =~= decimals(b.drop_last()));
    // The last dash stands just before the last number.
    if a.len() > 1 {
        assert(s[s.len() - x.len() - 1] == '-');
    }
    if b.len() > 1 {
        assert(s[s.len() - y.len() - 1] == '-');
    }
    assert(s.skip(s.len() - x.len()) =~= x);
    assert(s.skip(s.len() - y.len()) =~= y);
    if a.len() > 1 && x.len() < y.len() {
        assert(y[y.len() - x.len() - 1] == '-');
    }
    if b.len() > 1 && y.len() < x.len() {
        assert(x[x.len() - y.len() - 1] == '-');
    }
    assert(x.len() == y.len());
    lemma_decimal_injective(a.last() as nat, b.last() as nat);
    if a.len() > 1 {
        assert(s.take(s.len() - x.len() - 1) =~= joined(decimals(a.drop_last()), "-"@));
        assert(s.take(s.len() - y.len() - 1) =~= joined(decimals(b.drop_last()), "-"@));
        lemma_joined_injective(a.drop_last(), b.drop_last());
    }
    assert(a =~= a.drop_last().push(a.last()));
    assert(b =~= b.drop_last().push(b.last()));
}

/// The name of a trace file begins with the first part of its name and ends with
/// `.trace.jsonl`. It holds no slash where the stem and the name of the query file hold
/// none. An empty context leaves it as it is without one; another stands, sanitized
/// and behind an underscore, just before `.trace.jsonl`.
pub proof fn law_file_name<F, R>(
    stem: Option<&str>,
    name: Option<&str>,
    context: Option<&str>,
    results: Seq<SearchResults<F, R>>,
)
    ensures
        base_name(stem, name).is_prefix_of(file_name_of(stem, name, context, results)),
        ".trace.jsonl"@.is_suffix_of(file_name_of(stem, name, context, results)),
        (stem matches Some(s) ==> !s@.contains('/')) && (name matches Some(n) ==> !n@.contains('/'))
            ==> !file_name_of(stem, name, context, results).contains('/'),
        context matches Some(c) && c@.len() == 0 ==> file_name_of(stem, name, context, results)
            == file_name_of(stem, name, None, results),
        context matches Some(c) ==> (c@.len() > 0 ==> {
            let plain = file_name_of(stem, name, None, results);
            let end = ".trace.jsonl"@;
            file_name_of(stem, name, context, results) == plain.take(plain.len() - end.len())
                + "_"@ + sanitized(c@) + end
        }),
{
    let base = base_name(stem, name);
    let sizes = size_suffix(ascending(search_sizes(results)));
    let part = context_part(context);
    let end = ".trace.jsonl"@;
    let full = file_name_of(stem, name, context, results);
    let plain = file_name_of(stem, name, None, results);
    let rest = "_"@ + sizes + part + end;
    assert(full =~= base + rest);
    assert(base =~= full.take(base.len() as int));
    assert(end =~= full.skip(full.len() - end.len()));
    assert(plain.take(plain.len() - end.len()) =~= base + "_"@ + sizes);
    if let Some(c) = context {
        if c@.len() > 0 {
            assert(full =~= base + "_"@ + sizes + "_"@ + sanitized(c@) + end);
            assert(full =~= plain.take(plain.len() - end.len()) + "_"@ + sanitized(c@) + end);
        }
    }
    if (stem matches Some(s) ==> !s@.contains('/')) && (name matches Some(n) ==> !n@.contains(
        '/',
    )) {
        reveal_strlit("_");
        reveal_strlit(".trace.jsonl");
        reveal_strlit("query");
        lemma_suffix_chars(ascending(search_sizes(results)));
        assert(!base.contains('/'));
        if let Some(c) = context {
            law_sanitized(c@);
        }
        assert forall|i: int| 0 <= i < part.len() implies part[i] != '/' by {
            if let Some(c) = context {
                if i > 0 {
                    assert(part[i] == sanitized(c@)[i - 1]);
                    assert(is_plain(sanitized(c@)[i - 1]));
                }
            }
        }
        assert forall|i: int| 0 <= i < full.len() implies full[i] != '/' by {
            let a = base.len() as int;
            let b = a + 1 + sizes.len();
            let d = b + part.len();
            if i < a {
                assert(full[i] == base[i]);
            } else if i == a {
                assert(full[i] == '_');
            } else if i < b {
                assert(full[i] == sizes[i - a - 1]);
            } else if i < d {
                assert(full[i] == part[i - b]);
            } else {
                assert(full[i] == end[i - d]);
            }
        }
    }
}

/// The part of a file name that tells list sizes holds only plain characters.
proof fn lemma_suffix_chars(sizes: Seq<usize>)
    ensures
        forall|i: int| 0 <= i < size_suffix(sizes).len() ==> is_plain(
            #[trigger] size_suffix(sizes)[i],
        ),
{
    reveal_strlit("lunknown");
    reveal_strlit("l");
    reveal_strlit("ls");
    if sizes.len() == 1 {
        lemma_decimal(sizes[0] as nat);
    } else if sizes.len() > 1 {
        lemma_joined_chars(sizes);
        assert forall|i: int| 0 <= i < size_suffix(sizes).len() implies is_plain(
            #[trigger] size_suffix(sizes)[i],
        ) by {
            if i >= 2 {
                assert(size_suffix(sizes)[i] == joined(decimals(sizes), "-"@)[i - 2]);
            }
        }
    }
}

/// Joined numbers hold only digits and dashes.
proof fn lemma_joined_chars(sizes: Seq<usize>)
    ensures
        forall|i: int| 0 <= i < joined(decimals(sizes), "-"@).len() ==> is_plain(
            #[trigger] joined(decimals(sizes), "-"@)[i],
        ),
    decreases sizes.len(),
{
    reveal_strlit("-");
    if sizes.len() > 0 {
        lemma_decimal(sizes.last() as nat);
        assert(decimals(sizes).drop_last() =~= decimals(sizes.drop_last()));
        if sizes.len() > 1 {
            lemma_joined_chars(sizes.drop_last());
            let front = joined(decimals(sizes.drop_last()), "-"@);
            let all = joined(decimals(sizes), "-"@);
            assert forall|i: int| 0 <= i < all.len() implies is_plain(#[trigger] all[i]) by {
                if i < front.len() {
                    assert(all[i] == front[i]);
                } else if i > front.len() {
                    assert(all[i] == decimal(sizes.last() as nat)[i - front.len() - 1]);
                }
            }
        }
    }
}

/// Whether the places are those of all the traces of the results, in order: the number of
/// a result, and the number of a trace among its traces.
pub open spec fn are_traces<F, R>(
    results: Seq<SearchResults<F, R>>,
    places: Seq<(int, int)>,
) -> bool {
    &&& forall|m: int|
        0 <= m < places.len() ==> is_trace(results, (#[trigger] places[m]).0, places[m].1)
    &&& forall|m: int, n: int|
        0 <= m < n < places.len() ==> (#[trigger] places[m]).0 < (#[trigger] places[n]).0 || (
        places[m].0 == places[n].0 && places[m].1 < places[n].1)
    &&& forall|i: int, j: int| #[trigger]
        is_trace(results, i, j) ==> places.contains((i, j))
}

/// Whether result `i` has a trace with the number `j`.
pub open spec fn is_trace<F, R>(results: Seq<SearchResults<F, R>>, i: int, j: int) -> bool {
    &&& 0 <= i < results.len()
    &&& results[i].query_traces is Some
    &&& 0 <= j < results[i].query_traces->Some_0@.len()
}

/// There is one record for each trace of the results, in the order of the results and of
/// their traces. It tells the query file and the context, of its result the tasks, the
/// neighbors asked for and the list size, and of its trace the query and the hops.
pub proof fn law_records<F, R>(
    results: Seq<SearchResults<F, R>>,
    query_file: &str,
    context: Option<&str>,
)
    ensures
        ({
            let records = all_records(results, query_file, context);
            &&& forall|m: int|
                0 <= m < records.len() ==> (#[trigger] records[m]).query_file == query_file
                    && records[m].context == context
            &&& exists|places: Seq<(int, int)>|
                {
                    &&& #[trigger] are_traces(results, places)
                    &&& places.len() == records.len()
                    &&& forall|m: int|
                        0 <= m < places.len() ==> {
                            let result = results[(#[trigger] places[m]).0];
                            let trace = result.query_traces->Some_0@[places[m].1];
                            &&& records[m].num_tasks == result.num_tasks
                            &&& records[m].search_n == result.search_n
                            &&& records[m].search_l == result.search_l
                            &&& records[m].query_index == trace.query_index
                            &&& *records[m].hops == trace.hops
                        }
                }
        }),
    decreases results.len(),
{
    let records = all_records(results, query_file, context);
    if results.len() == 0 {
        assert(are_traces(results, Seq::<(int, int)>::empty()));
    } else {
        let front = results.drop_last();
        let last = results.len() - 1;
        law_records(front, query_file, context);
        let before = all_records(front, query_file, context);
        let places = choose|places: Seq<(int, int)>|
            {
                &&& #[trigger] are_traces(front, places)
                &&& places.len() == before.len()
                &&& forall|m: int|
                    0 <= m < places.len() ==> {
                        let result = front[(#[trigger] places[m]).0];
                        let trace = result.query_traces->Some_0@[places[m].1];
                        &&& before[m].num_tasks == result.num_tasks
                        &&& before[m].search_n == result.search_n
                        &&& before[m].search_l == result.search_l
                        &&& before[m].query_index == trace.query_index
                        &&& *before[m].hops == trace.hops
                    }
            };
        let own = records_of(results.last(), query_file, context);
        let now = places + Seq::new(own.len(), |j: int| (last, j));
        assert(records == before + own);
        assert forall|m: int| 0 <= m < now.len() implies is_trace(
            results,
            (#[trigger] now[m]).0,
            now[m].1,
        ) && {
            let result = results[now[m].0];
            let trace = result.query_traces->Some_0@[now[m].1];
            &&& records[m].num_tasks == result.num_tasks
            &&& records[m].search_n == result.search_n
            &&& records[m].search_l == result.search_l
            &&& records[m].query_index == trace.query_index
            &&& *records[m].hops == trace.hops
        } by {
            if m < places.len() {
                assert(now[m] == places[m]);
                assert(is_trace(front, places[m].0, places[m].1));
                assert(records[m] == before[m]);
            } else {
                assert(now[m] == (last, m - places.len()));
                assert(records[m] == own[m - places.len()]);
            }
        }
        assert(are_traces(results, now)) by {
            assert forall|m: int, n: int| 0 <= m < n < now.len() implies (#[trigger] now[m]).0 < (
            #[trigger] now[n]).0 || (now[m].0 == now[n].0 && now[m].1 < now[n].1) by {
                if m < places.len() {
                    assert(now[m] == places[m]);
                    assert(is_trace(front, places[m].0, places[m].1));
                }
                if n < places.len() {
                    assert(now[n] == places[n]);
                } else {
                    assert(now[n] == (last, n - places.len()));
                }
            }
            assert forall|i: int, j: int| #[trigger] is_trace(results, i, j) implies now.contains(
                (i, j),
            ) by {
                if i < last {
                    assert(is_trace(front, i, j));
                    let k = places.index_of((i, j));
                    assert(now[k] == (i, j));
                } else {
                    assert(now[places.len() + j] == (i, j));
                }
            }
        }
        assert forall|m: int| 0 <= m < records.len() implies (#[trigger] records[m]).query_file
            == query_file && records[m].context == context by {
            if m < before.len() {
                assert(records[m] == before[m]);
            } else {
                assert(records[m] == own[m - before.len()]);
            }
        }
    }
}

} // verus!
