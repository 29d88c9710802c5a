use multihop_filter::neighbor::{collect_ids, sort_by_distance, Distance, Neighbor};
use multihop_filter::queue::NeighborPriorityQueue;

fn near(id: u32, distance: f32) -> Neighbor {
    Neighbor::new(id, Distance { bits: distance.to_bits() })
}

fn distance(value: f32) -> Distance {
    Distance { bits: value.to_bits() }
}

fn ids(queue: &NeighborPriorityQueue) -> Vec<u32> {
    (0..queue.size()).map(|i| queue.get(i).id).collect()
}

#[test]
fn queue_keeps_the_closest() {
    let mut queue = NeighborPriorityQueue::new(2);
    queue.insert(near(1, 3.0));
    queue.insert(near(2, 1.0));
    queue.insert(near(3, 2.0));
    assert_eq!(queue.size(), 2);
    assert_eq!(queue.get(0).id, 2);
    assert_eq!(queue.get(1).id, 3);
}

#[test]
fn queue_of_none_keeps_none() {
    let mut queue = NeighborPriorityQueue::new(0);
    queue.insert(near(1, 3.0));
    assert_eq!(queue.size(), 0);
    assert!(!queue.has_notvisited_node());
    assert_eq!(queue.closest_notvisited(), None);
}

#[test]
fn queue_holds_a_neighbor_once() {
    let mut queue = NeighborPriorityQueue::new(5);
    queue.insert_all(&vec![near(1, 3.0), near(2, 3.0), near(1, 3.0), near(1, 2.0)]);
    assert_eq!(ids(&queue), vec![1, 1, 2]);
}

#[test]
fn closest_unvisited_comes_first_and_once() {
    let mut queue = NeighborPriorityQueue::new(5);
    queue.insert_all(&vec![near(1, 3.0), near(2, 1.0), near(3, 2.0)]);
    assert_eq!(queue.closest_notvisited(), Some(near(2, 1.0)));
    assert_eq!(queue.closest_notvisited(), Some(near(3, 2.0)));
    queue.insert(near(4, 0.5));
    assert_eq!(queue.closest_notvisited(), Some(near(4, 0.5)));
    assert_eq!(queue.closest_notvisited(), Some(near(1, 3.0)));
    assert_eq!(queue.closest_notvisited(), None);
    assert!(!queue.has_notvisited_node());
    assert_eq!(ids(&queue), vec![4, 2, 3, 1]);
}

#[test]
fn beams_are_the_closest_unvisited() {
    let mut queue = NeighborPriorityQueue::new(5);
    queue.insert_all(&vec![near(1, 3.0), near(2, 1.0), near(3, 2.0)]);
    assert_eq!(queue.take_beam(2), vec![near(2, 1.0), near(3, 2.0)]);
    assert!(queue.has_notvisited_node());
    assert_eq!(queue.take_beam(2), vec![near(1, 3.0)]);
    assert_eq!(queue.take_beam(2), vec![]);
}

#[test]
fn closest_are_as_many_as_there_are() {
    let mut queue = NeighborPriorityQueue::new(5);
    queue.insert_all(&vec![near(1, 3.0), near(2, 1.0), near(3, 2.0)]);
    assert_eq!(collect_ids(&queue.closest(2)), vec![2, 3]);
    assert_eq!(collect_ids(&queue.closest(9)), vec![2, 3, 1]);
    assert_eq!(collect_ids(&queue.closest(0)), Vec::<u32>::new());
}

#[test]
fn distances_compare_as_numbers() {
    let values = [
        f32::NEG_INFINITY,
        -2.5,
        -f32::MIN_POSITIVE,
        -0.0,
        0.0,
        1e-40,
        0.5,
        3.0,
        f32::MAX,
        f32::INFINITY,
        f32::NAN,
        -f32::NAN,
    ];
    for a in values {
        for b in values {
            assert_eq!(distance(a).is_greater(distance(b)), a > b);
        }
    }
}

#[test]
fn ties_go_by_id() {
    assert!(near(1, 2.0).is_before(near(2, 2.0)));
    assert!(!near(2, 2.0).is_before(near(1, 2.0)));
    assert!(near(2, -1.0).is_before(near(1, 2.0)));
    assert!(!near(1, 0.0).is_before(near(1, -0.0)));
}

#[test]
fn sorting_goes_from_close_to_far() {
    let sorted = sort_by_distance(&vec![near(1, 3.0), near(2, -1.0), near(3, 2.0), near(4, 2.5)]);
    assert_eq!(collect_ids(&sorted), vec![2, 3, 4, 1]);
    assert!(sort_by_distance(&Vec::new()).is_empty());
}
