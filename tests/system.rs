use streamer::element::{Element, ElementKind};
use streamer::platform::Platform;
use streamer::profile::Profile;
use streamer::schedule::{sort, Decision, Impartial, NoData};
use streamer::job::{Job, ID};
use streamer::queue::Interval;
use streamer::system::{Event, Kind, System};
use streamer::traffic::Traffic;
use streamer::workload::{self, Pattern, Random};

// One tick is a millisecond throughout.

fn pattern(kinds: &[ElementKind], time_step: u64, power: &[u64]) -> Pattern {
    let elements = kinds
        .iter()
        .map(|&kind| workload::Element { kind, area: 1, leakage_power: 1, dynamic_power: power.to_vec() })
        .collect();
    Pattern::new("test".to_string(), time_step, elements).unwrap()
}

fn system(kinds: &[ElementKind], time_step: u64, leakage: u64, arrivals: &[u64], patterns: Vec<Pattern>) -> System {
    let elements: Vec<Element> = kinds.iter().enumerate().map(|(i, &kind)| Element::new(i, kind, 1)).collect();
    let schedule = Impartial::new(&elements);
    let platform = Platform::new(elements, time_step, vec![leakage; kinds.len()]).unwrap();
    let mut traffic = Traffic::new();
    let mut last = 0;
    let steps: Vec<u64> = arrivals.iter().map(|&a| { let step = a - last; last = a; step }).collect();
    traffic.refill(&steps).unwrap();
    System::new(traffic, Random::new(patterns).unwrap(), platform, schedule).unwrap()
}

fn run(system: &mut System, count: usize) -> Vec<(Event, Profile)> {
    (0..count).map(|_| system.next(0).unwrap().unwrap()).collect()
}

#[test]
fn empty_platform_rejects() {
    let mut system = system(&[ElementKind::L3], 100, 1, &[1000], vec![pattern(&[ElementKind::Core], 500, &[2])]);
    assert!(system.next(0).is_err());
}

#[test]
fn single_job_single_core() {
    let mut system = system(
        &[ElementKind::Core],
        500,
        1,
        &[1000, 5000],
        vec![pattern(&[ElementKind::Core], 500, &[2, 4, 2])],
    );
    let events = run(&mut system, 4);
    assert_eq!(events[0].0.kind, Kind::Arrival);
    assert_eq!(events[0].0.time, 1000);
    assert_eq!(events[1].0.kind, Kind::Start);
    assert_eq!(events[1].0.time, 1001);
    assert_eq!(events[2].0.kind, Kind::Finish);
    assert_eq!(events[2].0.time, 1001 + 1500);
    assert_eq!(events[3].0.kind, Kind::Arrival);
    assert_eq!(events[3].0.time, 5000);
    let mut energy = 0;
    let mut rows = 0;
    for (_, power) in &events {
        energy += power.data.iter().sum::<u64>();
        rows += power.step_count as u64;
    }
    assert_eq!(rows, 10);
    assert_eq!(energy, (2 + 4 + 2) * 500 + 500 * rows);
}

#[test]
fn two_jobs_contend() {
    let mut system = system(
        &[ElementKind::Core, ElementKind::Core],
        1000,
        0,
        &[1000, 1100, 100000],
        vec![pattern(&[ElementKind::Core], 1000, &[1; 5])],
    );
    let events = run(&mut system, 3);
    assert_eq!((events[0].0.kind, events[0].0.time), (Kind::Arrival, 1000));
    assert_eq!((events[1].0.kind, events[1].0.time), (Kind::Start, 1001));
    assert_eq!((events[2].0.kind, events[2].0.time), (Kind::Arrival, 1100));
    let next = system.next(0).unwrap().unwrap().0;
    assert_eq!((next.kind, next.time, next.job.id), (Kind::Start, 1101, ID(1)));
    assert_eq!(next.mapping, vec![(0, 1)]);
}

#[test]
fn two_jobs_same_element() {
    let mut system = system(
        &[ElementKind::Core],
        1000,
        0,
        &[1000, 1100, 100000],
        vec![pattern(&[ElementKind::Core], 1000, &[1; 5])],
    );
    let events = run(&mut system, 6);
    let time = |kind: Kind, id: usize| {
        events.iter().find(|(e, _)| e.kind == kind && e.job.id == ID(id)).unwrap().0.time
    };
    assert_eq!(time(Kind::Finish, 0), 6001);
    assert!(time(Kind::Start, 1) >= time(Kind::Finish, 0));
}

#[test]
fn shared_cache() {
    let mut system = system(
        &[ElementKind::Core, ElementKind::L3],
        1000,
        0,
        &[1000, 1001, 100000],
        vec![pattern(&[ElementKind::Core, ElementKind::L3], 1000, &[1; 5])],
    );
    let events = run(&mut system, 6);
    let start = |id: usize| {
        let (event, _) = events.iter().find(|(e, _)| e.kind == Kind::Start && e.job.id == ID(id)).unwrap();
        (event.time, event.mapping.clone())
    };
    assert_eq!(start(0), (1001, vec![(0, 0), (1, 1)]));
    assert_eq!(start(1), (6001, vec![(0, 0), (1, 1)]));
}

#[test]
fn events_in_order_and_counted() {
    let mut system = system(
        &[ElementKind::Core, ElementKind::Core, ElementKind::L3],
        250,
        3,
        &[100, 120, 130, 900, 2000, 2100],
        vec![
            pattern(&[ElementKind::Core, ElementKind::L3], 300, &[4, 1]),
            pattern(&[ElementKind::Core, ElementKind::Core], 100, &[2, 2, 2]),
        ],
    );
    let mut events = vec![];
    let mut choice = 0;
    while let Some((event, power)) = system.next(choice).unwrap() {
        assert_eq!(power.time % power.time_step, 0);
        if event.kind == Kind::Arrival {
            choice = 1 - choice;
        }
        events.push(event);
    }
    for pair in events.windows(2) {
        assert!(pair[0].time <= pair[1].time);
    }
    let count = |kind: Kind| events.iter().filter(|e| e.kind == kind).count();
    assert_eq!(system.history().arrived, count(Kind::Arrival));
    assert_eq!(system.history().started, count(Kind::Start));
    assert_eq!(system.history().finished, count(Kind::Finish));
    assert_eq!(count(Kind::Arrival), 6);
    for (k, event) in events.iter().filter(|e| e.kind == Kind::Arrival).enumerate() {
        assert_eq!(event.job.id, ID(k));
    }
}

#[test]
fn scheduler_places_by_kind() {
    let elements = vec![
        Element::new(0, ElementKind::L3, 1),
        Element::new(1, ElementKind::Core, 1),
        Element::new(2, ElementKind::Core, 1),
    ];
    let mut schedule = Impartial::new(&elements);
    let job = Job::new(ID(0), 10, pattern(&[ElementKind::Core, ElementKind::L3, ElementKind::Core], 5, &[1, 1]));
    match schedule.next(&job).unwrap() {
        Decision::Accept { start, finish, mapping } => {
            assert_eq!(start, 11);
            assert_eq!(finish, 21);
            assert_eq!(mapping, vec![(0, 1), (1, 0), (2, 2)]);
        },
        Decision::Reject => panic!("rejected"),
    }
    assert_eq!(schedule.queues()[1].occupied().clone(), vec![Interval(11, 21)]);
    let job = Job::new(ID(1), 12, pattern(&[ElementKind::Core], 5, &[1]));
    match schedule.next(&job).unwrap() {
        Decision::Accept { start, mapping, .. } => {
            assert_eq!(start, 21);
            assert_eq!(mapping, vec![(0, 1)]);
        },
        Decision::Reject => panic!("rejected"),
    }
    schedule.push(21, NoData);
    assert_eq!(schedule.queues()[1].occupied().clone(), vec![Interval(21, 26)]);
    assert_eq!(schedule.queues()[2].occupied().len(), 0);
}

#[test]
fn scheduler_fails_without_enough_elements() {
    let elements = vec![Element::new(0, ElementKind::Core, 1)];
    let mut schedule = Impartial::new(&elements);
    let job = Job::new(ID(0), 10, pattern(&[ElementKind::Core, ElementKind::Core], 5, &[1]));
    assert!(schedule.next(&job).is_err());
}

#[test]
fn sort_is_stable() {
    let items = [Interval(5, 9), Interval(1, 2), Interval(5, 6), Interval(0, 1), Interval(1, 9)];
    assert_eq!(sort(&items), vec![3, 1, 4, 0, 2]);
}

#[test]
fn pattern_validation() {
    let element = |n: usize| workload::Element { kind: ElementKind::Core, area: 1, leakage_power: 1, dynamic_power: vec![1; n] };
    assert!(Pattern::new("a".to_string(), 5, vec![]).is_err());
    assert!(Pattern::new("a".to_string(), 5, vec![element(0)]).is_err());
    assert!(Pattern::new("a".to_string(), 0, vec![element(2)]).is_err());
    assert!(Pattern::new("a".to_string(), 5, vec![element(2), element(3)]).is_err());
    let p = Pattern::new("a".to_string(), 5, vec![element(3), element(3)]).unwrap();
    assert_eq!(p.duration(), 15);
    assert_eq!(p.0.units, 2);
    assert!(Random::new(vec![]).is_err());
}

#[test]
fn platform_leakage_fill() {
    let elements = vec![Element::new(0, ElementKind::Core, 1), Element::new(1, ElementKind::L3, 1)];
    let mut platform = Platform::new(elements, 10, vec![2, 5]).unwrap();
    assert_eq!(platform.power().fill().clone(), vec![20, 50]);
    let power = platform.next(35).unwrap();
    assert_eq!(power.data, vec![20, 50, 20, 50, 20, 50]);
    assert!(platform.next(5).is_err());
    let elements = vec![Element::new(0, ElementKind::Core, 1)];
    assert!(Platform::new(elements, 10, vec![u64::MAX]).is_err());
}

#[test]
fn choice_out_of_range() {
    let mut system = system(&[ElementKind::Core], 100, 1, &[1000], vec![pattern(&[ElementKind::Core], 500, &[2])]);
    assert!(system.next(1).is_err());
}

#[test]
fn no_arrivals_ahead() {
    let mut system = system(&[ElementKind::Core], 100, 1, &[], vec![pattern(&[ElementKind::Core], 500, &[2])]);
    assert!(system.next(0).unwrap().is_none());
    system.refill(&[7]).unwrap();
    let (event, power) = system.next(0).unwrap().unwrap();
    assert_eq!((event.kind, event.time), (Kind::Arrival, 7));
    assert_eq!(power.step_count, 0);
}

#[test]
fn arrival_past_time_limit() {
    let elements = vec![Element::new(0, ElementKind::Core, 1)];
    let mut schedule = Impartial::new(&elements);
    let job = Job::new(ID(0), streamer::time::TIME_LIMIT, pattern(&[ElementKind::Core], 5, &[1]));
    assert!(schedule.next(&job).is_err());
    assert_eq!(schedule.queues()[0].occupied().len(), 0);
}

#[test]
fn platform_refuses_bad_mapping() {
    let elements = vec![Element::new(0, ElementKind::Core, 1)];
    let mut platform = Platform::new(elements, 10, vec![1]).unwrap();
    let job = Job::new(ID(0), 0, pattern(&[ElementKind::Core], 5, &[1]));
    assert!(platform.push(&job, 3, &vec![(0, 1)]).is_err());
    assert!(platform.push(&job, 3, &vec![(0, 0)]).is_ok());
    let power = platform.next(20).unwrap();
    assert_eq!(power.data, vec![10 + 5, 10]);
}
