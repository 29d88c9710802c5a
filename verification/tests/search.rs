use bit_set::BitSet;
use multihop_filter::filters::BitmapFilter;
use multihop_filter::label::{visit_all, QueryLabelProvider, QueryVisitDecision, Selectivity};
use multihop_filter::multihop_search_dev::{
    Action, DevSearch, Event, MultihopSearchDev, NotInMutWithLabelCheckDev,
};
use multihop_filter::multihop_search_dev_earlystop as earlystop;
use multihop_filter::neighbor::{Distance, Neighbor};
use multihop_filter::queue::NeighborPriorityQueue;
use multihop_filter::scratch::{Knn, SearchScratch};
use multihop_filter::visited::NotInMut;

fn near(id: u32, distance: f32) -> Neighbor {
    Neighbor::new(id, Distance { bits: distance.to_bits() })
}

fn ids(list: &[Neighbor]) -> Vec<u32> {
    list.iter().map(|n| n.id).collect()
}

/// A graph in memory: for each node its distance to the query and its neighbors.
struct Graph {
    start: Vec<u32>,
    nodes: Vec<(f32, Vec<u32>)>,
}

impl Graph {
    fn neighbor(&self, id: u32) -> Neighbor {
        near(id, self.nodes[id as usize].0)
    }

    fn distance(&self, id: u32) -> Distance {
        self.neighbor(id).distance
    }
}

/// Node 0 leads over the nodes 1 and 2 to the nodes 3 and 4, and node 3 to node 5.
fn graph(start_distance: f32) -> Graph {
    Graph {
        start: vec![0],
        nodes: vec![
            (start_distance, vec![1, 2]),
            (5.0, vec![0, 3]),
            (6.0, vec![0, 4]),
            (1.0, vec![1, 5]),
            (2.0, vec![2]),
            (0.5, vec![3]),
        ],
    }
}

fn filter() -> BitmapFilter {
    let mut set = BitSet::new();
    for id in 3..6 {
        set.insert(id);
    }
    BitmapFilter::new(set, 6)
}

fn expand(
    search: &mut DevSearch,
    graph: &Graph,
    nodes: &[u32],
    labels: Option<&BitmapFilter>,
) -> Vec<Neighbor> {
    let mut found = Vec::new();
    for node in nodes {
        for id in &graph.nodes[*node as usize].1 {
            let admitted = match labels {
                None => NotInMut::new(search.visited_mut()).eval_mut(id),
                Some(labels) => {
                    NotInMutWithLabelCheckDev::new(search.visited_mut(), labels).eval_mut(id)
                }
            };
            if admitted {
                found.push(graph.neighbor(*id));
            }
        }
    }
    found
}

/// Runs a search until it is over, and ends it early at the poll with number `stop_at`.
fn run(
    params: &MultihopSearchDev<'_, BitmapFilter>,
    search: &mut DevSearch,
    graph: &Graph,
    stop_at: usize,
) -> (u32, u32) {
    let mut polls = 0;
    loop {
        let event = match search.action() {
            Action::FetchStartIds => Event::StartIds(graph.start.clone()),
            Action::FetchStartPoint(id) => Event::StartPoint(graph.distance(id)),
            Action::PollTermination => {
                polls += 1;
                Event::EarlyTermination(polls > stop_at)
            }
            Action::ExpandBeam(beam) => {
                let neighbors = expand(search, graph, &ids(&beam), None);
                let decisions = visit_all(params.label_evaluator, &neighbors);
                Event::OneHop { neighbors, decisions }
            }
            Action::ExpandCandidate(id) => {
                Event::TwoHop(expand(search, graph, &[id], Some(params.label_evaluator)))
            }
            Action::Finish(stats) => return (stats.comparisons, stats.hops),
        };
        assert!(search.has_room(&event));
        search.step(event);
    }
}

fn search_all(graph: &Graph, k: usize, scaled_degree: usize) -> (Vec<u32>, u32, u32) {
    let filter = filter();
    let params = MultihopSearchDev::new(Knn::new(k, 10, 1).unwrap(), &filter);
    let mut search = params.begin(4, scaled_degree, SearchScratch::new(10));
    let (comparisons, hops) = run(&params, &mut search, graph, 1000);
    (ids(&params.results(&search)), comparisons, hops)
}

#[test]
fn search_walks_through_nodes_that_do_not_match() {
    assert_eq!(search_all(&graph(10.0), 3, 4), (vec![5, 3, 4, 0], 6, 6));
}

#[test]
fn search_stops_walking_after_enough_matches() {
    assert_eq!(search_all(&graph(10.0), 3, 1), (vec![5, 3, 0], 5, 4));
}

#[test]
fn search_stops_walking_beyond_a_full_queue() {
    assert_eq!(search_all(&graph(4.0), 1, 4), (vec![5, 3, 0], 5, 4));
}

#[test]
fn search_walks_on_while_the_queue_is_not_full() {
    assert_eq!(search_all(&graph(4.0), 2, 4), (vec![5, 3, 4, 0], 6, 6));
}

#[test]
fn search_does_not_walk_where_half_of_the_neighbors_match() {
    let graph = Graph {
        start: vec![0],
        nodes: vec![
            (3.0, vec![1, 3]),
            (2.0, vec![4]),
            (9.0, vec![]),
            (1.0, vec![]),
            (0.5, vec![]),
            (0.25, vec![]),
        ],
    };
    assert_eq!(search_all(&graph, 3, 4), (vec![3, 0], 3, 2));
}

#[test]
fn results_are_no_more_than_the_list_size() {
    let filter = filter();
    let params = MultihopSearchDev::new(Knn::new(1, 2, 1).unwrap(), &filter);
    let graph = graph(10.0);
    let mut search = params.begin(4, 4, SearchScratch::new(10));
    run(&params, &mut search, &graph, 1000);
    assert_eq!(search.scratch().best.size(), 4);
    assert_eq!(ids(&params.results(&search)), vec![5, 3]);
}

#[test]
fn the_queue_bounds_what_is_kept() {
    let filter = filter();
    let params = MultihopSearchDev::new(Knn::new(1, 2, 1).unwrap(), &filter);
    let graph = graph(10.0);
    let mut search = params.begin(4, 4, SearchScratch::new(2));
    run(&params, &mut search, &graph, 1000);
    assert_eq!(ids(&params.results(&search)), vec![5, 3]);
}

#[test]
fn a_wider_beam_expands_several_nodes_at_once() {
    let filter = filter();
    let params = MultihopSearchDev::new(Knn::new(3, 10, 2).unwrap(), &filter);
    let graph = Graph { start: vec![1, 2], ..graph(10.0) };
    let mut search = params.begin(4, 4, SearchScratch::new(10));
    search.step(Event::StartIds(graph.start.clone()));
    search.step(Event::StartPoint(graph.distance(1)));
    search.step(Event::StartPoint(graph.distance(2)));
    search.step(Event::EarlyTermination(false));
    match search.action() {
        Action::ExpandBeam(beam) => assert_eq!(ids(&beam), vec![1, 2]),
        other => panic!("expected to expand the beam, not {:?}", other),
    }
    let (comparisons, hops) = run(&params, &mut search, &graph, 1000);
    assert_eq!(ids(&params.results(&search)), vec![5, 3, 4, 1, 2]);
    assert_eq!(comparisons, 6);
    assert_eq!(hops, 5);
}

#[test]
fn an_early_end_leaves_what_was_found() {
    let filter = filter();
    let params = MultihopSearchDev::new(Knn::new(3, 10, 1).unwrap(), &filter);
    let graph = graph(10.0);
    let mut search = params.begin(4, 4, SearchScratch::new(10));
    assert_eq!(run(&params, &mut search, &graph, 0), (1, 0));
    assert_eq!(ids(&params.results(&search)), vec![0]);
}

#[test]
fn an_early_end_of_walking_goes_on_with_the_next_hop() {
    let filter = filter();
    let params = MultihopSearchDev::new(Knn::new(3, 10, 1).unwrap(), &filter);
    let graph = graph(10.0);
    let mut search = params.begin(4, 4, SearchScratch::new(10));
    // The second poll stands before the first walk through a rejected node.
    assert_eq!(run(&params, &mut search, &graph, 1), (3, 1));
    assert_eq!(ids(&params.results(&search)), vec![0]);
}

#[test]
fn a_search_can_be_taken_up_again() {
    let filter = filter();
    let params = MultihopSearchDev::new(Knn::new(3, 10, 1).unwrap(), &filter);
    let graph = graph(10.0);
    let mut search = params.begin(4, 4, SearchScratch::new(10));
    run(&params, &mut search, &graph, 0);
    let mut again = params.begin(4, 4, search.into_scratch());
    assert!(matches!(again.action(), Action::PollTermination));
    assert_eq!(run(&params, &mut again, &graph, 1000), (6, 6));
    assert_eq!(ids(&params.results(&again)), vec![5, 3, 4, 0]);
}

#[test]
fn start_points_are_visited_before_they_are_fetched() {
    let filter = filter();
    let params = MultihopSearchDev::new(Knn::new(3, 10, 1).unwrap(), &filter);
    let mut search = params.begin(4, 4, SearchScratch::new(10));
    assert!(matches!(search.action(), Action::FetchStartIds));
    search.step(Event::StartIds(vec![7, 8, 9]));
    assert!(matches!(search.action(), Action::FetchStartPoint(7)));
    search.step(Event::StartPoint(near(7, 2.0).distance));
    assert!(matches!(search.action(), Action::FetchStartPoint(8)));
    // Where the second start point cannot be fetched, it is visited all the same.
    let mut scratch = search.into_scratch();
    assert_eq!(scratch.comparisons, 1);
    assert_eq!(ids(&scratch.best.closest(10)), vec![7]);
    let predicate = NotInMut::new(&mut scratch.visited);
    assert!(!predicate.eval(&7));
    assert!(!predicate.eval(&8));
    assert!(predicate.eval(&9));
}

#[test]
fn early_stop_visits_start_points_before_they_are_fetched() {
    let filter = filter();
    let params = earlystop::MultihopSearchDev::new(Knn::new(3, 10, 1).unwrap(), &filter);
    let mut search = params.begin(4, SearchScratch::new(10));
    search.step(earlystop::Event::StartIds(vec![7, 8]));
    search.step(earlystop::Event::StartPoint(near(7, 2.0).distance));
    assert!(matches!(search.action(), earlystop::Action::FetchStartPoint(8)));
    let (mut scratch, trace) = search.into_parts();
    assert!(trace.hops.is_empty());
    assert_eq!(scratch.comparisons, 0);
    assert_eq!(ids(&scratch.best.closest(10)), vec![7]);
    let predicate = NotInMut::new(&mut scratch.visited);
    assert!(!predicate.eval(&8));
    assert!(predicate.eval(&9));
}

#[test]
fn a_search_without_start_points_is_over() {
    let filter = filter();
    let params = MultihopSearchDev::new(Knn::new(3, 10, 1).unwrap(), &filter);
    let mut search = params.begin(4, 4, SearchScratch::new(10));
    search.step(Event::StartIds(Vec::new()));
    assert!(matches!(search.action(), Action::Finish(_)));
}

#[test]
fn comparisons_are_the_visited_nodes() {
    let filter = filter();
    let params = MultihopSearchDev::new(Knn::new(3, 10, 1).unwrap(), &filter);
    let graph = graph(10.0);
    let mut search = params.begin(4, 1, SearchScratch::new(10));
    let (comparisons, _) = run(&params, &mut search, &graph, 1000);
    let predicate = NotInMut::new(search.visited_mut());
    let visited = (0..100).filter(|id| !predicate.eval(id)).count();
    assert_eq!(comparisons as usize, visited);
    assert_eq!(visited, 5);
}

#[test]
fn no_node_is_handed_out_twice() {
    let filter = filter();
    let params = MultihopSearchDev::new(Knn::new(3, 10, 2).unwrap(), &filter);
    let graph = graph(10.0);
    let mut search = params.begin(4, 4, SearchScratch::new(10));
    let mut handed = Vec::new();
    let hops = loop {
        let event = match search.action() {
            Action::FetchStartIds => Event::StartIds(graph.start.clone()),
            Action::FetchStartPoint(id) => Event::StartPoint(graph.distance(id)),
            Action::PollTermination => Event::EarlyTermination(false),
            Action::ExpandBeam(beam) => {
                handed.extend(ids(&beam));
                let neighbors = expand(&mut search, &graph, &ids(&beam), None);
                let decisions = visit_all(&filter, &neighbors);
                Event::OneHop { neighbors, decisions }
            }
            Action::ExpandCandidate(id) => {
                handed.push(id);
                Event::TwoHop(expand(&mut search, &graph, &[id], Some(&filter)))
            }
            Action::Finish(stats) => break stats.hops,
        };
        search.step(event);
    };
    assert_eq!(hops as usize, handed.len());
    handed.sort();
    assert_eq!(handed, vec![0, 1, 2, 3, 4, 5]);
}

#[test]
fn a_decision_can_end_the_search() {
    let filter = filter();
    let params = MultihopSearchDev::new(Knn::new(3, 10, 1).unwrap(), &filter);
    let graph = graph(10.0);
    let mut search = params.begin(4, 4, SearchScratch::new(10));
    search.step(Event::StartIds(graph.start.clone()));
    search.step(Event::StartPoint(graph.distance(0)));
    search.step(Event::EarlyTermination(false));
    search.step(Event::OneHop {
        neighbors: vec![graph.neighbor(3), graph.neighbor(1), graph.neighbor(4)],
        decisions: vec![
            QueryVisitDecision::Accept(graph.neighbor(3)),
            QueryVisitDecision::Terminate,
        ],
    });
    match search.action() {
        Action::Finish(stats) => {
            assert_eq!(stats.comparisons, 4);
            assert_eq!(stats.hops, 1);
            let finished = stats.finish(2);
            assert_eq!(finished.comparisons, 4);
            assert_eq!(finished.hops, 1);
            assert_eq!(finished.result_count, 2);
            assert!(!finished.range_search_second_round);
        }
        other => panic!("expected the end, not {:?}", other),
    }
    assert_eq!(ids(&params.results(&search)), vec![3, 0]);
}

#[test]
fn counters_have_an_end() {
    let filter = filter();
    let params = MultihopSearchDev::new(Knn::new(3, 10, 1).unwrap(), &filter);
    let mut scratch = SearchScratch::new(10);
    scratch.comparisons = u32::MAX;
    let mut search = params.begin(4, 4, scratch);
    assert!(search.has_room(&Event::StartIds(vec![0])));
    search.step(Event::StartIds(vec![0]));
    assert!(!search.has_room(&Event::StartPoint(near(0, 1.0).distance)));
}

#[test]
fn selectivity_is_one_in_ten_where_it_is_not_known() {
    let known = filter();
    let params = MultihopSearchDev::new(Knn::new(3, 10, 1).unwrap(), &known);
    assert_eq!(params.selectivity(), Selectivity { matching: 3, total: 6 });
    let unknown = BitmapFilter::without_total_points(BitSet::new());
    let params = MultihopSearchDev::new(Knn::new(3, 10, 1).unwrap(), &unknown);
    assert_eq!(params.selectivity(), Selectivity { matching: 1, total: 10 });
}

#[test]
fn the_match_limit_is_an_eighth_of_the_degree_at_least() {
    // With a degree of eight, one match ends the walk though the scaled degree is zero.
    let filter = filter();
    let params = MultihopSearchDev::new(Knn::new(3, 10, 1).unwrap(), &filter);
    let graph = graph(10.0);
    let mut search = params.begin(8, 0, SearchScratch::new(10));
    assert_eq!(run(&params, &mut search, &graph, 1000), (5, 4));
    // With a degree of seven there is no walk at all.
    let mut search = params.begin(7, 0, SearchScratch::new(10));
    assert_eq!(run(&params, &mut search, &graph, 1000), (3, 1));
}

#[test]
fn parameters_are_not_zero() {
    let knn = Knn::new(3, 10, 2).unwrap();
    assert_eq!((knn.k_value(), knn.l_value(), knn.beam_width()), (3, 10, 2));
    assert!(Knn::new(0, 10, 2).is_none());
    assert!(Knn::new(3, 0, 2).is_none());
    assert!(Knn::new(3, 10, 0).is_none());
}

#[test]
fn the_predicate_admits_matching_nodes_once() {
    let filter = filter();
    let mut scratch = SearchScratch::new(1);
    let mut predicate = NotInMutWithLabelCheckDev::new(&mut scratch.visited, &filter);
    assert!(predicate.eval(&3));
    assert!(predicate.eval_mut(&3));
    assert!(!predicate.eval(&3));
    assert!(!predicate.eval_mut(&3));
    assert!(!predicate.eval(&1));
    assert!(!predicate.eval_mut(&1));
    // A node that does not match has not been marked.
    let mut plain = NotInMut::new(&mut scratch.visited);
    assert!(plain.eval(&1));
    assert!(plain.eval_mut(&1));
    assert!(!plain.eval(&1));
    assert!(!plain.eval_mut(&1));
    assert!(!plain.eval_mut(&3));
}

fn expand_early(
    search: &mut earlystop::EarlyStopSearch,
    graph: &Graph,
    nodes: &[u32],
    labels: Option<&BitmapFilter>,
) -> Vec<Neighbor> {
    let mut found = Vec::new();
    for node in nodes {
        for id in &graph.nodes[*node as usize].1 {
            let admitted = match labels {
                None => NotInMut::new(search.visited_mut()).eval_mut(id),
                Some(labels) => {
                    NotInMutWithLabelCheckDev::new(search.visited_mut(), labels).eval_mut(id)
                }
            };
            if admitted {
                found.push(graph.neighbor(*id));
            }
        }
    }
    found
}

/// The results, the counters and the record of a search that stops once hops are idle.
fn search_early(
    graph: &Graph,
    k: usize,
    max_degree: usize,
    capacity: usize,
) -> (Vec<u32>, u32, u32, Vec<(u32, Vec<u32>, Vec<u32>)>) {
    let filter = filter();
    let params = earlystop::MultihopSearchDev::new(Knn::new(k, 10, 1).unwrap(), &filter);
    let mut search = params.begin(max_degree, SearchScratch::new(capacity));
    loop {
        let event = match search.action() {
            earlystop::Action::FetchStartIds => earlystop::Event::StartIds(graph.start.clone()),
            earlystop::Action::FetchStartPoint(id) => {
                earlystop::Event::StartPoint(graph.distance(id))
            }
            earlystop::Action::PollTermination => earlystop::Event::EarlyTermination(false),
            earlystop::Action::ExpandBeam(beam) => {
                let neighbors = expand_early(&mut search, graph, &ids(&beam), None);
                let decisions = visit_all(&filter, &neighbors);
                earlystop::Event::OneHop { neighbors, decisions }
            }
            earlystop::Action::ExpandCandidates(nodes) => {
                let found = expand_early(&mut search, graph, &nodes, Some(&filter));
                earlystop::Event::TwoHop(found)
            }
            earlystop::Action::Finish(stats) => {
                let results = ids(&params.results(&search));
                let count = results.len();
                let output =
                    earlystop::MultihopSearchDev::<BitmapFilter>::finish(stats, search, count);
                assert_eq!(output.stats.result_count as usize, count);
                let hops = output
                    .trace
                    .hops
                    .into_iter()
                    .map(|h| (h.hop_index, h.one_hop_enqueued, h.two_hop_enqueued))
                    .collect();
                return (results, output.stats.comparisons, output.stats.hops, hops);
            }
        };
        assert!(search.has_room(&event));
        search.step(event);
    }
}

#[test]
fn early_stop_hands_no_node_out_twice() {
    let filter = filter();
    let params = earlystop::MultihopSearchDev::new(Knn::new(4, 10, 2).unwrap(), &filter);
    let graph = graph(10.0);
    let mut search = params.begin(4, SearchScratch::new(10));
    let mut handed = Vec::new();
    let stats = loop {
        let event = match search.action() {
            earlystop::Action::FetchStartIds => earlystop::Event::StartIds(graph.start.clone()),
            earlystop::Action::FetchStartPoint(id) => {
                earlystop::Event::StartPoint(graph.distance(id))
            }
            earlystop::Action::PollTermination => earlystop::Event::EarlyTermination(false),
            earlystop::Action::ExpandBeam(beam) => {
                handed.extend(ids(&beam));
                let neighbors = expand_early(&mut search, &graph, &ids(&beam), None);
                let decisions = visit_all(&filter, &neighbors);
                earlystop::Event::OneHop { neighbors, decisions }
            }
            earlystop::Action::ExpandCandidates(nodes) => {
                handed.extend(&nodes);
                let found = expand_early(&mut search, &graph, &nodes, Some(&filter));
                earlystop::Event::TwoHop(found)
            }
            earlystop::Action::Finish(stats) => break stats,
        };
        search.step(event);
    };
    assert_eq!(stats.hops as usize, handed.len());
    handed.sort();
    assert_eq!(handed, vec![0, 1, 2, 3, 4, 5]);
    // Every visited node but the start point was compared, and recorded at most once.
    assert_eq!(stats.comparisons, 5);
    let (_, trace) = search.into_parts();
    let mut recorded: Vec<u32> = trace
        .hops
        .iter()
        .flat_map(|hop| hop.one_hop_enqueued.iter().chain(&hop.two_hop_enqueued).copied())
        .collect();
    recorded.sort();
    assert_eq!(recorded, vec![3, 4, 5]);
}

#[test]
fn early_stop_records_what_each_hop_enqueued() {
    let (results, comparisons, hops, trace) = search_early(&graph(10.0), 4, 4, 10);
    assert_eq!(results, vec![5, 3, 4, 0]);
    assert_eq!(comparisons, 5);
    assert_eq!(hops, 6);
    assert_eq!(
        trace,
        vec![
            (0, vec![], vec![3, 4]),
            (1, vec![5], vec![]),
            (2, vec![], vec![]),
            (3, vec![], vec![]),
        ]
    );
}

#[test]
fn early_stop_ends_with_the_second_idle_hop() {
    let (results, comparisons, hops, trace) = search_early(&graph(10.0), 3, 4, 10);
    assert_eq!(results, vec![5, 3, 4, 0]);
    assert_eq!(comparisons, 5);
    assert_eq!(hops, 6);
    // The idle hop that ends the search is not recorded.
    assert_eq!(trace.len(), 3);
    assert_eq!(trace[2], (2, vec![], vec![]));
}

#[test]
fn early_stop_walks_through_the_closest_half() {
    let (results, comparisons, hops, trace) = search_early(&graph(10.0), 4, 3, 10);
    assert_eq!(results, vec![5, 3, 0]);
    assert_eq!(comparisons, 4);
    assert_eq!(hops, 4);
    assert_eq!(trace[0], (0, vec![], vec![3]));
}

#[test]
fn early_stop_does_not_record_what_the_queue_turned_away() {
    let (results, _, _, trace) = search_early(&graph(0.75), 4, 4, 1);
    // A queue of one keeps the start point until node 5 comes closer.
    assert_eq!(results, vec![0]);
    assert_eq!(trace, vec![(0, vec![], vec![])]);
    let (results, _, _, trace) = search_early(&graph(1.5), 4, 4, 1);
    assert_eq!(results, vec![5]);
    assert_eq!(trace[0], (0, vec![], vec![3]));
    assert_eq!(trace[1], (1, vec![5], vec![]));
}

#[test]
fn early_stop_records_the_hop_that_a_decision_ends() {
    let filter = filter();
    let params = earlystop::MultihopSearchDev::new(Knn::new(3, 10, 1).unwrap(), &filter);
    let mut search = params.begin(4, SearchScratch::new(10));
    assert!(matches!(search.action(), earlystop::Action::FetchStartIds));
    search.step(earlystop::Event::StartIds(vec![0]));
    search.step(earlystop::Event::StartPoint(near(0, 9.0).distance));
    search.step(earlystop::Event::EarlyTermination(false));
    search.step(earlystop::Event::OneHop {
        neighbors: vec![near(3, 1.0), near(1, 2.0)],
        decisions: vec![
            QueryVisitDecision::Accept(near(3, 1.0)),
            QueryVisitDecision::Terminate,
        ],
    });
    match search.action() {
        earlystop::Action::Finish(stats) => {
            assert_eq!(stats.comparisons, 2);
            assert_eq!(stats.hops, 1);
        }
        other => panic!("expected the end, not {:?}", other),
    }
    let (scratch, trace) = search.into_parts();
    assert_eq!(scratch.best.size(), 2);
    assert_eq!(trace.hops.len(), 1);
    assert_eq!(trace.hops[0].one_hop_enqueued, vec![3]);
}

#[test]
fn early_stop_can_end_early() {
    let filter = filter();
    let params = earlystop::MultihopSearchDev::new(Knn::new(3, 10, 1).unwrap(), &filter);
    let mut search = params.begin(4, SearchScratch::new(10));
    search.step(earlystop::Event::StartIds(vec![0]));
    search.step(earlystop::Event::StartPoint(near(0, 9.0).distance));
    search.step(earlystop::Event::EarlyTermination(true));
    match search.action() {
        earlystop::Action::Finish(stats) => assert_eq!((stats.comparisons, stats.hops), (0, 0)),
        other => panic!("expected the end, not {:?}", other),
    }
    assert_eq!(ids(&params.results(&search)), vec![0]);
    assert_eq!(earlystop::MAX_HOPS_WITHOUT_MATCH, 2);
}

#[test]
fn queues_know_their_ids() {
    let mut queue = NeighborPriorityQueue::new(2);
    queue.insert(near(4, 1.0));
    queue.insert(near(7, 2.0));
    queue.insert(near(9, 3.0));
    assert!(earlystop::queue_contains_id(&queue, 4));
    assert!(earlystop::queue_contains_id(&queue, 7));
    assert!(!earlystop::queue_contains_id(&queue, 9));
}

/// A filter that knows nothing of its selectivity and rejects every node.
struct Nothing;

impl QueryLabelProvider for Nothing {
    fn matches(&self, id: u32) -> bool {
        self.is_match(id)
    }

    fn may_decide(&self, neighbor: Neighbor, decision: QueryVisitDecision) -> bool {
        self.on_visit(neighbor) == decision
    }

    fn selectivity(&self) -> Option<Selectivity> {
        self.global_selectivity()
    }

    fn is_match(&self, _id: u32) -> bool {
        false
    }

    fn on_visit(&self, _neighbor: Neighbor) -> QueryVisitDecision {
        QueryVisitDecision::Reject
    }

    fn global_selectivity(&self) -> Option<Selectivity> {
        None
    }
}

#[test]
fn filters_can_be_trait_objects() {
    let nothing = Nothing;
    let dynamic: &dyn QueryLabelProvider = &nothing;
    let params = MultihopSearchDev::new(Knn::new(1, 1, 1).unwrap(), dynamic);
    assert_eq!(params.selectivity(), Selectivity { matching: 1, total: 10 });
    assert_eq!(visit_all(dynamic, &vec![near(1, 1.0)]), vec![QueryVisitDecision::Reject]);
}
