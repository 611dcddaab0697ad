use streamer::element::ElementCapacity;
use streamer::queue::{Interval, Queue, FOREVER};

fn holes(queue: &Queue, from: u64) -> Vec<(u64, u64)> {
    queue.holes(from).iter().map(|i| (i.0, i.1)).collect()
}

#[test]
fn push() {
    let mut queue = Queue::new(ElementCapacity::Single);

    assert_eq!(holes(&queue, 0), vec![(0, FOREVER)]);
    assert_eq!(holes(&queue, 10), vec![(10, FOREVER)]);

    queue.push((5, 15));
    assert_eq!(holes(&queue, 10), vec![(15, FOREVER)]);

    queue.push((15, 20));
    assert_eq!(holes(&queue, 10), vec![(20, FOREVER)]);
    assert_eq!(holes(&queue, 15), vec![(20, FOREVER)]);
    assert_eq!(holes(&queue, 20), vec![(20, FOREVER)]);

    queue.push((16, 42));
    assert_eq!(holes(&queue, 0), vec![(0, 5), (42, FOREVER)]);
}

#[test]
fn push_duplicate() {
    let mut queue = Queue::new(ElementCapacity::Single);

    queue.push((1, 2));
    queue.push((1, 4));

    assert_eq!(queue.occupied().len(), 2);
    assert_eq!(holes(&queue, 0), vec![(0, 1), (4, FOREVER)]);
}

#[test]
fn step() {
    let mut queue = Queue::new(ElementCapacity::Single);

    queue.push((10, 15));
    queue.push((15, 20));
    queue.push((25, 30));

    queue.step(10);
    assert_eq!(holes(&queue, 0), vec![(0, 10), (20, 25), (30, FOREVER)]);

    queue.step(11);
    assert_eq!(holes(&queue, 0), vec![(0, 10), (20, 25), (30, FOREVER)]);

    queue.step(15);
    assert_eq!(holes(&queue, 0), vec![(0, 15), (20, 25), (30, FOREVER)]);

    queue.step(20);
    assert_eq!(holes(&queue, 0), vec![(0, 25), (30, FOREVER)]);

    queue.step(30);
    assert_eq!(holes(&queue, 0), vec![(0, FOREVER)]);
}

#[test]
fn vacancy_is_first_fit() {
    let mut queue = Queue::new(ElementCapacity::Single);
    queue.push((10, 20));
    queue.push((25, 40));
    queue.push((45, 50));
    assert_eq!(queue.next(0, 5), Interval(0, 10));
    assert_eq!(queue.next(12, 5), Interval(20, 25));
    assert_eq!(queue.next(12, 6), Interval(50, FOREVER));
    assert_eq!(queue.next(41, 4), Interval(41, 45));
    assert_eq!(queue.next(30, 3), Interval(40, 45));
}

#[test]
fn infinite_capacity_is_always_vacant() {
    let mut queue = Queue::new(ElementCapacity::Infinite);
    queue.push((10, 20));
    queue.push((10, 30));
    assert_eq!(queue.next(12, 100), Interval(12, FOREVER));
    assert_eq!(queue.occupied().len(), 2);
    assert_eq!(queue.occupied()[1], Interval(11, 30));
}

#[test]
fn interval_accessors() {
    let interval = Interval(3, 8);
    assert_eq!(interval.start(), 3);
    assert_eq!(interval.finish(), 8);
}
