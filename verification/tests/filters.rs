use bit_set::BitSet;
use multihop_filter::filters::{
    as_query_label_provider, bitmap_source, load_bitmaps, setup_filter_strategies, BitmapFilter,
    BitmapSource, QueryBitmapEvaluator,
};
use multihop_filter::bitmap_cache::{encode_bitmaps, CacheError};
use multihop_filter::label::{
    partition, visit_all, QueryLabelProvider, QueryVisitDecision, Selectivity,
};
use multihop_filter::neighbor::{Distance, Neighbor};

fn set_of(members: &[usize]) -> BitSet {
    let mut set = BitSet::new();
    for member in members {
        set.insert(*member);
    }
    set
}

fn near(id: u32, distance: f32) -> Neighbor {
    Neighbor::new(id, Distance { bits: distance.to_bits() })
}

#[test]
fn test_bitmap_filter_match() {
    let mut bitset = BitSet::new();
    bitset.insert(1);
    bitset.insert(3);
    let filter = BitmapFilter::without_total_points(bitset);

    assert!(filter.is_match(1u32));
    assert!(filter.is_match(3u32));
    assert!(!filter.is_match(2u32));
    assert!(!filter.is_match(0u32));
}

#[test]
fn test_bitmap_filter_empty() {
    let bitset = BitSet::new();
    let filter = BitmapFilter::without_total_points(bitset);

    assert!(!filter.is_match(0u32));
    assert!(!filter.is_match(10u32));
}

#[test]
fn test_bitmap_filter_large_id() {
    let mut bitset = BitSet::new();
    bitset.insert(1000);
    let filter = BitmapFilter::without_total_points(bitset);

    assert!(filter.is_match(1000u32));
    assert!(!filter.is_match(999u32));
}

#[test]
fn test_bitmap_filter_global_selectivity() {
    let mut bitset = BitSet::new();
    bitset.insert(1);
    bitset.insert(3);
    let filter = BitmapFilter::new(bitset, 10);

    assert_eq!(
        filter.global_selectivity().map(|s| s.matching as f64 / s.total as f64),
        Some(0.2)
    );
}

#[test]
fn selectivity_is_the_share_of_members() {
    let filter = BitmapFilter::new(set_of(&[1, 3]), 10);
    assert_eq!(filter.global_selectivity(), Some(Selectivity { matching: 2, total: 10 }));
}

#[test]
fn selectivity_is_unknown_without_points() {
    assert_eq!(BitmapFilter::new(set_of(&[1, 3]), 0).global_selectivity(), None);
    assert_eq!(BitmapFilter::without_total_points(set_of(&[1, 3])).global_selectivity(), None);
}

#[test]
fn shared_filter_is_a_bitmap_filter() {
    let filter = as_query_label_provider(set_of(&[2, 4, 70]), 100);
    assert!(filter.is_match(70));
    assert!(!filter.is_match(71));
    assert_eq!(filter.global_selectivity(), Some(Selectivity { matching: 3, total: 100 }));
}

#[test]
fn evaluator_counts_its_bitmap() {
    let evaluator = QueryBitmapEvaluator::new("color == red", set_of(&[0, 5, 64]));
    assert_eq!(evaluator.ast_expr, "color == red");
    assert_eq!(evaluator.count(), 3);
    assert_eq!((0..1000).filter(|id| evaluator.is_match(*id)).count(), 3);
    assert_eq!(evaluator.get_bitmap().iter().collect::<Vec<_>>(), vec![0, 5, 64]);
    assert!(evaluator.is_match(64));
    assert!(!evaluator.is_match(1));
    assert_eq!(evaluator.global_selectivity(), None);
    assert_eq!(evaluator.on_visit(near(5, 1.0)), QueryVisitDecision::Accept(near(5, 1.0)));
    assert_eq!(evaluator.on_visit(near(6, 1.0)), QueryVisitDecision::Reject);
}

#[test]
fn plain_filter_parts_matches_from_the_rest() {
    let filter = BitmapFilter::without_total_points(set_of(&[1, 3]));
    let neighbors = vec![near(3, 4.0), near(2, 1.0), near(1, 2.0), near(0, 3.0)];
    let decisions = visit_all(&filter, &neighbors);
    assert_eq!(
        decisions,
        vec![
            QueryVisitDecision::Accept(near(3, 4.0)),
            QueryVisitDecision::Reject,
            QueryVisitDecision::Accept(near(1, 2.0)),
            QueryVisitDecision::Reject,
        ]
    );
    let (taken, walk) = partition(&neighbors, &decisions);
    assert_eq!(taken, vec![near(3, 4.0), near(1, 2.0)]);
    assert_eq!(walk, vec![near(2, 1.0), near(0, 3.0)]);
}

/// Accepts even ids at distance zero and ends the search at the first multiple of five.
struct Picky;

impl QueryLabelProvider for Picky {
    fn matches(&self, id: u32) -> bool {
        self.is_match(id)
    }

    fn may_decide(&self, neighbor: Neighbor, decision: QueryVisitDecision) -> bool {
        self.on_visit(neighbor) == decision
    }

    fn selectivity(&self) -> Option<Selectivity> {
        self.global_selectivity()
    }

    fn is_match(&self, id: u32) -> bool {
        id % 2 == 0
    }

    fn on_visit(&self, neighbor: Neighbor) -> QueryVisitDecision {
        if neighbor.id % 5 == 0 {
            QueryVisitDecision::Terminate
        } else if self.is_match(neighbor.id) {
            QueryVisitDecision::Accept(near(neighbor.id, 0.0))
        } else {
            QueryVisitDecision::Reject
        }
    }

    fn global_selectivity(&self) -> Option<Selectivity> {
        None
    }
}

#[test]
fn visiting_ends_at_the_first_terminate() {
    let neighbors = vec![near(2, 4.0), near(3, 1.0), near(5, 2.0), near(8, 3.0)];
    let decisions = visit_all(&Picky, &neighbors);
    assert_eq!(
        decisions,
        vec![
            QueryVisitDecision::Accept(near(2, 0.0)),
            QueryVisitDecision::Reject,
            QueryVisitDecision::Terminate,
        ]
    );
    let (taken, walk) = partition(&neighbors, &decisions);
    assert_eq!(taken, vec![near(2, 0.0)]);
    assert_eq!(walk, vec![near(3, 1.0)]);
}

#[test]
fn strategies_share_the_weight() {
    let strategies = setup_filter_strategies(0.5f32, vec!["a", "b"], String::from("exact"));
    assert_eq!(strategies.len(), 2);
    assert_eq!(strategies[0].labels, "a");
    assert_eq!(strategies[1].labels, "b");
    for strategy in &strategies {
        assert_eq!(strategy.strategy, "exact");
        assert_eq!(strategy.beta, 0.5);
    }
    assert!(setup_filter_strategies(1.0f32, Vec::<u8>::new(), 7u8).is_empty());
}

#[test]
fn cache_is_used_where_it_is_a_file() {
    assert_eq!(bitmap_source(Some("cache.bin"), true), BitmapSource::Cache);
    assert_eq!(bitmap_source(Some("cache.bin"), false), BitmapSource::LabelsAndStore);
    assert_eq!(bitmap_source(None, false), BitmapSource::Labels);
    assert_eq!(bitmap_source(None, true), BitmapSource::Labels);
}

#[test]
fn loaded_bitmaps_come_with_the_number_of_points() {
    let bytes = encode_bitmaps(&vec![set_of(&[1, 3])]);
    let loaded = load_bitmaps(&bytes, 42).ok().unwrap();
    assert_eq!(loaded.total_points, 42);
    assert_eq!(loaded.bit_maps.len(), 1);
    assert!(loaded.bit_maps[0].contains(3));
    assert!(!loaded.bit_maps[0].contains(2));
    assert_eq!(load_bitmaps(&vec![1, 2, 3], 42).err(), Some(CacheError::Malformed));
}
