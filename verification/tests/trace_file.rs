use multihop_filter::result::{HopTrace, QueryTrace, SearchResults};
use multihop_filter::trace_file::{
    query_file_name, sanitize_file_component, search_l_suffix, sort_distinct, trace_file,
    trace_file_name, TRACE_OUTPUT_DIR,
};

fn result(search_l: usize, query_traces: Option<Vec<QueryTrace>>) -> SearchResults<f64, f64> {
    SearchResults {
        num_tasks: 4,
        search_n: 10,
        search_l,
        qps: Vec::new(),
        search_latencies: Vec::new(),
        mean_latencies: Vec::new(),
        p90_latencies: Vec::new(),
        p99_latencies: Vec::new(),
        recall: 1.0,
        mean_comparisons: 0.0,
        mean_hops: 0.0,
        query_traces,
    }
}

fn trace(query_index: usize, one_hop: Vec<u32>) -> QueryTrace {
    QueryTrace {
        query_index,
        hops: vec![HopTrace {
            hop_index: 0,
            one_hop_enqueued: one_hop,
            two_hop_enqueued: Vec::new(),
        }],
    }
}

#[test]
fn plain_characters_stay() {
    let plain = "abcxyzABCXYZ0189-_";
    assert_eq!(sanitize_file_component(plain), plain);
    assert_eq!(sanitize_file_component(""), "");
}

#[test]
fn other_characters_become_underscores() {
    assert_eq!(sanitize_file_component("a/b c.d:e"), "a_b_c_d_e");
    assert_eq!(sanitize_file_component("@[`{/:"), "______");
    assert_eq!(sanitize_file_component("caf\u{e9} \u{1F600}"), "caf___");
}

#[test]
fn sanitizing_twice_changes_nothing() {
    let once = sanitize_file_component("sel 0.005/0.01");
    assert_eq!(once, "sel_0_005_0_01");
    assert_eq!(sanitize_file_component(&once), once);
}

#[test]
fn sizes_are_sorted_and_distinct() {
    assert_eq!(sort_distinct(&vec![30, 10, 20, 10, 30]), vec![10, 20, 30]);
    assert_eq!(sort_distinct(&vec![7, 7, 7]), vec![7]);
    assert_eq!(sort_distinct(&Vec::new()), Vec::<usize>::new());
}

#[test]
fn suffix_tells_the_list_sizes() {
    assert_eq!(search_l_suffix::<f64, f64>(&[]), "lunknown");
    assert_eq!(search_l_suffix(&[result(100, None)]), "l100");
    assert_eq!(search_l_suffix(&[result(100, None), result(100, None)]), "l100");
    assert_eq!(
        search_l_suffix(&[result(200, None), result(50, None), result(1000, None)]),
        "ls50-200-1000"
    );
    assert_eq!(search_l_suffix(&[result(0, None)]), "l0");
}

#[test]
fn suffix_does_not_depend_on_order_or_repetition() {
    let a = [result(5, None), result(40, None), result(5, None)];
    let b = [result(40, None), result(5, None)];
    assert_eq!(search_l_suffix(&a), search_l_suffix(&b));
    assert_ne!(search_l_suffix(&a), search_l_suffix(&[result(540, None)]));
    assert_ne!(search_l_suffix(&a), search_l_suffix(&[result(5, None), result(4, None)]));
}

#[test]
fn file_name_has_base_sizes_and_context() {
    let results = [result(100, None)];
    assert_eq!(
        trace_file_name(Some("queries"), Some("queries.bin"), Some("run 1"), &results),
        "queries_l100_run_1.trace.jsonl"
    );
    assert_eq!(
        trace_file_name(Some("queries"), Some("queries.bin"), None, &results),
        "queries_l100.trace.jsonl"
    );
    assert_eq!(
        trace_file_name(Some("queries"), Some("queries.bin"), Some(""), &results),
        "queries_l100.trace.jsonl"
    );
    assert_eq!(trace_file_name(None, Some("name"), None, &results), "name_l100.trace.jsonl");
    assert_eq!(trace_file_name(None, None, None, &results), "query_l100.trace.jsonl");
}

#[test]
fn query_file_has_a_name() {
    assert_eq!(query_file_name(Some("q.bin")), "q.bin");
    assert_eq!(query_file_name(None), "unknown-query");
}

#[test]
fn nothing_to_write_without_traces() {
    assert!(trace_file::<f64, f64>(&[], Some("q"), Some("q.bin"), None).is_none());
    let results = [result(10, None), result(20, Some(Vec::new()))];
    assert!(trace_file(&results, Some("q"), Some("q.bin"), None).is_none());
}

#[test]
fn records_come_in_order() {
    let results = [
        result(10, Some(vec![trace(0, vec![5]), trace(1, vec![6, 7])])),
        result(20, None),
        result(30, Some(vec![trace(0, Vec::new())])),
    ];
    let file = trace_file(&results, Some("q"), Some("q.bin"), Some("ctx")).unwrap();
    assert_eq!(file.file_name, "q_ls10-20-30_ctx.trace.jsonl");
    assert_eq!(file.records.len(), 3);
    let record = &file.records[1];
    assert_eq!(record.query_file, "q.bin");
    assert_eq!(record.context, Some("ctx"));
    assert_eq!(record.num_tasks, 4);
    assert_eq!(record.search_n, 10);
    assert_eq!(record.search_l, 10);
    assert_eq!(record.query_index, 1);
    assert_eq!(record.hops[0].one_hop_enqueued, vec![6, 7]);
    assert_eq!(file.records[2].search_l, 30);
    assert_eq!(file.records[2].query_index, 0);
}

#[test]
fn records_of_an_unnamed_file_say_so() {
    let results = [result(10, Some(vec![trace(3, vec![5])]))];
    let file = trace_file(&results, None, None, None).unwrap();
    assert_eq!(file.file_name, "query_l10.trace.jsonl");
    assert_eq!(file.records[0].query_file, "unknown-query");
    assert_eq!(file.records[0].context, None);
}

#[test]
fn traces_have_a_place() {
    assert_eq!(TRACE_OUTPUT_DIR, "/scratch1/zhan4404/dataset/caselaw/new_query/trace");
}

#[test]
fn the_context_stands_before_the_ending() {
    let results = [result(10, None), result(20, None)];
    let plain = trace_file_name(Some("q"), None, None, &results);
    assert_eq!(plain, "q_ls10-20.trace.jsonl");
    let named = trace_file_name(Some("q"), None, Some("a/b"), &results);
    assert_eq!(named, plain.replace(".trace.jsonl", "_a_b.trace.jsonl"));
    assert!(!named.contains('/'));
}
