use multihop_filter::multihop_search_dev_earlystop as search;
use multihop_filter::result::{
    AggregatedSearchResults, BuildResult, MultihopDevSummary, RangeSearchResults, RangeSummary,
    Rate, SearchResults, Summary, TracedQuery,
};
use multihop_filter::result_table::{
    format_range_search_results_table, format_search_results_table, largest, Cell,
};

fn summary() -> Summary<f64, f32> {
    Summary {
        tasks: 8,
        k_value: 10,
        l_value: 100,
        end_to_end_latencies: vec![2_000_000, 4_000_000],
        mean_latencies: vec![1.5, 2.5],
        p90_latencies: vec![3, 4],
        p99_latencies: vec![9, 7],
        recall: 0.75,
        num_queries: 1000,
        mean_comparisons: 12.5,
        mean_hops: 3.25,
    }
}

fn range_summary() -> RangeSummary<f64, f32> {
    RangeSummary {
        tasks: 2,
        starting_l: 30,
        end_to_end_latencies: vec![1_000_000],
        mean_latencies: vec![1.0],
        p90_latencies: vec![5],
        p99_latencies: vec![6],
        average_precision: 0.5,
        num_queries: 20,
    }
}

#[test]
fn results_report_the_summary() {
    let r = SearchResults::new(summary());
    assert_eq!(r.num_tasks, 8);
    assert_eq!(r.search_n, 10);
    assert_eq!(r.search_l, 100);
    assert_eq!(
        r.qps,
        vec![
            Rate { queries: 1000, micros: 2_000_000 },
            Rate { queries: 1000, micros: 4_000_000 }
        ]
    );
    assert_eq!(r.search_latencies, vec![2_000_000, 4_000_000]);
    assert_eq!(r.mean_latencies, vec![1.5, 2.5]);
    assert_eq!(r.p90_latencies, vec![3, 4]);
    assert_eq!(r.p99_latencies, vec![9, 7]);
    assert_eq!(r.recall, 0.75);
    assert_eq!(r.mean_comparisons, 12.5);
    assert_eq!(r.mean_hops, 3.25);
    assert!(r.query_traces.is_none());
}

#[test]
fn traced_results_keep_the_traces() {
    let trace = search::QueryTrace {
        hops: vec![
            search::HopTrace {
                hop_index: 0,
                one_hop_enqueued: vec![1, 2],
                two_hop_enqueued: vec![3],
            },
            search::HopTrace {
                hop_index: 1,
                one_hop_enqueued: vec![],
                two_hop_enqueued: vec![4, 5],
            },
        ],
    };
    let r = SearchResults::new_multihop_dev(MultihopDevSummary {
        base: summary(),
        query_traces: vec![
            TracedQuery { query_index: 7, trace },
            TracedQuery { query_index: 8, trace: search::QueryTrace::default() },
        ],
    });
    assert_eq!(r.search_l, 100);
    let traces = r.query_traces.unwrap();
    assert_eq!(traces.len(), 2);
    assert_eq!(traces[0].query_index, 7);
    assert_eq!(traces[0].hops.len(), 2);
    assert_eq!(traces[0].hops[0].one_hop_enqueued, vec![1, 2]);
    assert_eq!(traces[0].hops[0].two_hop_enqueued, vec![3]);
    assert_eq!(traces[0].hops[1].hop_index, 1);
    assert_eq!(traces[0].hops[1].two_hop_enqueued, vec![4, 5]);
    assert_eq!(traces[1].query_index, 8);
    assert!(traces[1].hops.is_empty());
}

#[test]
fn range_results_report_the_summary() {
    let r = RangeSearchResults::new(range_summary());
    assert_eq!(r.num_tasks, 2);
    assert_eq!(r.initial_l, 30);
    assert_eq!(r.qps, vec![Rate { queries: 20, micros: 1_000_000 }]);
    assert_eq!(r.search_latencies, vec![1_000_000]);
    assert_eq!(r.mean_latencies, vec![1.0]);
    assert_eq!(r.p90_latencies, vec![5]);
    assert_eq!(r.p99_latencies, vec![6]);
    assert_eq!(r.average_precision, 0.5);
}

#[test]
fn results_of_one_kind_are_collected() {
    let mut topk: BuildResult<&str, f64, f32, f32> = BuildResult::new_topk(Some("built"));
    let more = AggregatedSearchResults::Topk(vec![
        SearchResults::new(summary()),
        SearchResults::new(Summary { l_value: 50, ..summary() }),
    ]);
    assert!(topk.search.is_same_kind(&more));
    topk.append(more);
    topk.append(AggregatedSearchResults::Topk(vec![SearchResults::new(Summary {
        l_value: 20,
        ..summary()
    })]));
    assert_eq!(topk.build, Some("built"));
    match &topk.search {
        AggregatedSearchResults::Topk(v) => {
            let sizes: Vec<usize> = v.iter().map(|r| r.search_l).collect();
            assert_eq!(sizes, vec![100, 50, 20]);
        }
        AggregatedSearchResults::Range(_) => panic!("not of the kind that was begun with"),
    }

    let mut range: BuildResult<&str, f64, f32, f32> = BuildResult::new_range(None);
    assert!(!range.search.is_same_kind(&topk.search));
    range.append(AggregatedSearchResults::Range(vec![RangeSearchResults::new(range_summary())]));
    assert!(range.build.is_none());
    match &range.search {
        AggregatedSearchResults::Range(v) => assert_eq!(v.len(), 1),
        AggregatedSearchResults::Topk(_) => panic!("not of the kind that was begun with"),
    }
}

#[test]
fn largest_of_some_and_of_none() {
    assert_eq!(largest(&vec![3, 9, 7]), Some(9));
    assert_eq!(largest(&vec![5]), Some(5));
    assert_eq!(largest(&Vec::new()), None);
}

#[test]
fn no_results_no_table() {
    let none: Option<fn(usize) -> String> = None;
    assert!(format_search_results_table::<f64, f32, _>(&[], &none).is_none());
    assert!(format_range_search_results_table::<f64, f32, _>(&[], &none).is_none());
}

#[test]
fn a_row_for_each_result() {
    let results = [
        SearchResults::new(summary()),
        SearchResults::new(Summary { l_value: 50, p99_latencies: vec![], ..summary() }),
    ];
    let table = format_search_results_table(&results, &None::<fn(usize) -> String>).unwrap();
    assert_eq!(
        table.headers,
        vec![
            "Ls",
            "KNN",
            "Avg cmps",
            "Avg hops",
            "QPS - mean(max)",
            "Avg Latency",
            "p99 Latency",
            "Recall",
            "Threads",
        ]
    );
    assert_eq!(table.rows.len(), 2);
    let row = &table.rows[0];
    assert_eq!(row.len(), 9);
    assert!(matches!(row[0], Cell::Count(100)));
    assert!(matches!(row[1], Cell::Count(10)));
    assert!(matches!(row[2], Cell::Mean(m) if *m == 12.5));
    assert!(matches!(row[3], Cell::Mean(m) if *m == 3.25));
    assert!(matches!(row[4], Cell::Throughput(q) if q.len() == 2));
    assert!(matches!(row[5], Cell::MeanLatency(l) if l[1] == 2.5));
    assert!(matches!(row[6], Cell::TailLatency(l, Some(9)) if l[1] == 7));
    assert!(matches!(row[7], Cell::Score(s) if *s == 0.75));
    assert!(matches!(row[8], Cell::Count(8)));
    assert!(matches!(table.rows[1][0], Cell::Count(50)));
    assert!(matches!(table.rows[1][6], Cell::TailLatency(_, None)));
}

#[test]
fn batches_are_named_first() {
    let results = [SearchResults::new(summary()), SearchResults::new(summary())];
    let table =
        format_search_results_table(&results, &Some(|i: usize| format!("batch {}", i))).unwrap();
    assert_eq!(table.headers.len(), 10);
    assert_eq!(table.headers[0], "Batch");
    assert_eq!(table.headers[1], "Ls");
    assert_eq!(table.rows[1].len(), 10);
    assert!(matches!(&table.rows[0][0], Cell::Text(t) if t == "batch 0"));
    assert!(matches!(&table.rows[1][0], Cell::Text(t) if t == "batch 1"));
    assert!(matches!(table.rows[1][1], Cell::Count(100)));
}

#[test]
fn range_tables_show_the_precision() {
    let results = [RangeSearchResults::new(range_summary())];
    let table = format_range_search_results_table(&results, &None::<fn(usize) -> String>).unwrap();
    assert_eq!(
        table.headers,
        vec![
            "initial Ls",
            "QPS - mean(max)",
            "Avg Latency",
            "p99 Latency",
            "Average Precision",
            "Threads",
        ]
    );
    let row = &table.rows[0];
    assert!(matches!(row[0], Cell::Count(30)));
    assert!(matches!(row[3], Cell::TailLatency(_, Some(6))));
    assert!(matches!(row[4], Cell::Score(s) if *s == 0.5));
    assert!(matches!(row[5], Cell::Count(2)));

    let named =
        format_range_search_results_table(&results, &Some(|i: usize| format!("#{}", i))).unwrap();
    assert_eq!(named.headers[0], "Batch");
    assert!(matches!(&named.rows[0][0], Cell::Text(t) if t == "#0"));
    assert!(matches!(named.rows[0][6], Cell::Count(2)));
}
