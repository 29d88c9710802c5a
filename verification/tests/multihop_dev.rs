use bit_set::BitSet;
use multihop_filter::filters::BitmapFilter;
use multihop_filter::label::QueryLabelProvider;
use multihop_filter::multihop_dev::{metrics, IdCount, Metrics, MultiHopDev, SetupError, Strategy};
use multihop_filter::scratch::{low32_of, Knn, SearchStats};
use multihop_filter::text::{push_decimal, push_joined};

fn labels(count: usize) -> Vec<BitmapFilter> {
    (0..count)
        .map(|i| {
            let mut set = BitSet::new();
            set.insert(i);
            BitmapFilter::new(set, 10)
        })
        .collect()
}

#[test]
fn a_benchmark_has_one_filter_for_each_query() {
    let bench =
        MultiHopDev::new("index", vec!["q0", "q1"], Strategy::Broadcast("exact"), labels(2))
            .unwrap();
    assert_eq!(bench.num_queries(), 2);
    let knn = Knn::new(5, 20, 1).unwrap();
    assert_eq!(bench.id_count(&knn), IdCount::Fixed(5));
    let request = bench.request(&knn, 1);
    assert_eq!(*request.index, "index");
    assert_eq!(*request.query, "q1");
    assert_eq!(*request.strategy, "exact");
    assert_eq!(request.search.inner.l_value(), 20);
    assert!(request.search.label_evaluator.is_match(1));
    assert!(!request.search.label_evaluator.is_match(0));
}

#[test]
fn a_strategy_for_each_query() {
    let strategy = Strategy::Collection(vec!["a", "b"]);
    assert_eq!(strategy.length_compatible(2), Ok(()));
    assert_eq!(strategy.length_compatible(3), Err(2));
    assert_eq!(strategy.get(1), Some(&"b"));
    assert_eq!(strategy.get(2), None);
    assert_eq!(Strategy::Broadcast("a").length_compatible(3), Ok(()));
    assert_eq!(Strategy::Broadcast("a").get(7), Some(&"a"));
    let bench = MultiHopDev::new((), vec![0, 1], strategy, labels(2)).unwrap();
    let knn = Knn::new(5, 20, 1).unwrap();
    assert_eq!(*bench.request(&knn, 0).strategy, "a");
    assert_eq!(*bench.request(&knn, 1).strategy, "b");
}

#[test]
fn too_few_filters() {
    let error = MultiHopDev::new((), vec![0; 12], Strategy::Broadcast(()), labels(3)).err();
    assert_eq!(error, Some(SetupError::LabelProviders { labels: 3, queries: 12 }));
    assert_eq!(
        error.unwrap().message(),
        "Number of label providers (3) must be equal to the number of queries (12)"
    );
}

#[test]
fn too_many_strategies() {
    let strategy = Strategy::Collection(vec![(); 4]);
    let error = MultiHopDev::new((), vec![0; 3], strategy, labels(2)).err();
    assert_eq!(error, Some(SetupError::Strategies { strategies: 4, queries: 3 }));
    assert_eq!(
        error.unwrap().message(),
        "Number of strategies (4) must be equal to the number of queries (3)"
    );
}

#[test]
fn metrics_count_the_checks_of_the_search() {
    let stats = SearchStats {
        comparisons: 7,
        hops: 3,
        result_count: 5,
        range_search_second_round: false,
    };
    assert_eq!(
        metrics(&stats, 100, 142),
        Metrics { comparisons: 7, hops: 3, bitmap_checks: 42 }
    );
}

#[test]
fn lengths_keep_their_lowest_bits() {
    assert_eq!(low32_of(7), 7);
    assert_eq!(low32_of(u32::MAX as usize), u32::MAX);
    assert_eq!(low32_of(0x1_0000_0005), 5);
}

#[test]
fn numbers_are_written_in_decimal() {
    for (n, text) in [(0, "0"), (9, "9"), (10, "10"), (907, "907"), (12345678900, "12345678900")] {
        let mut s = String::from("n");
        push_decimal(&mut s, n);
        assert_eq!(s, format!("n{}", text));
    }
    let mut s = String::new();
    push_decimal(&mut s, usize::MAX);
    assert_eq!(s, format!("{}", usize::MAX));
}

#[test]
fn lists_are_joined() {
    let mut s = String::from(">");
    push_joined(&mut s, &vec![1, 20, 3], ", ");
    assert_eq!(s, ">1, 20, 3");
    let mut s = String::new();
    push_joined(&mut s, &vec![], "-");
    assert_eq!(s, "");
}
