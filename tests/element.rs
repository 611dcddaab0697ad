use streamer::element::{Element, ElementCapacity, ElementKind};
use streamer::job::ID;
use streamer::traffic::{coarse_scales, Traffic};
use streamer::Error;

#[test]
fn kind_from_name() {
    assert_eq!(ElementKind::parse("core0").unwrap(), ElementKind::Core);
    assert_eq!(ElementKind::parse("CORE12").unwrap(), ElementKind::Core);
    assert_eq!(ElementKind::parse("Core").unwrap(), ElementKind::Core);
    assert_eq!(ElementKind::parse("l30").unwrap(), ElementKind::L3);
    assert_eq!(ElementKind::parse("L3").unwrap(), ElementKind::L3);
    assert!(ElementKind::parse("gpu0").is_err());
    assert!(ElementKind::parse("cor").is_err());
    assert!(ElementKind::parse("").is_err());
}

#[test]
fn capacity_follows_kind() {
    assert_eq!(Element::new(0, ElementKind::Core, 1).capacity(), ElementCapacity::Single);
    assert_eq!(Element::new(1, ElementKind::L3, 1).capacity(), ElementCapacity::Infinite);
}

#[test]
fn error_message() {
    let error = Error::new("failed");
    assert_eq!(error.message(), "failed");
}

#[test]
fn id_number() {
    assert_eq!(ID(7).number(), 7);
}

#[test]
fn coarse_scales_of_counts() {
    assert!(coarse_scales(0).is_err());
    assert!(coarse_scales(1).is_err());
    assert_eq!(coarse_scales(2).unwrap(), 1);
    assert_eq!(coarse_scales(3).unwrap(), 1);
    assert_eq!(coarse_scales(4).unwrap(), 2);
    assert_eq!(coarse_scales(668088).unwrap(), 19);
}

#[test]
fn traffic_accumulates_interarrivals() {
    let mut traffic = Traffic::new();
    assert_eq!(traffic.peek(), None);
    traffic.refill(&[3, 0, 5]).unwrap();
    assert_eq!(traffic.peek(), Some(3));
    assert_eq!(traffic.next(), Some(3));
    assert_eq!(traffic.next(), Some(3));
    traffic.refill(&[2]).unwrap();
    assert_eq!(traffic.next(), Some(8));
    assert_eq!(traffic.next(), Some(10));
    assert_eq!(traffic.next(), None);
    assert_eq!(traffic.time(), 10);
    assert!(traffic.refill(&[u64::MAX]).is_err());
    assert_eq!(traffic.time(), 10);
}
