use pubsub_broker::pending::PendingTracker;
use pubsub_broker::registry::{Taken, TopicRegistry};

fn s(x: &str) -> String {
    x.to_string()
}

#[test]
fn registry_take_outcomes() {
    let mut r = TopicRegistry::new();
    assert_eq!(r.take(&s("t"), &s("a")), Taken::NotFound);
    r.subscribe(&s("t"), &s("a"));
    assert_eq!(r.take(&s("t"), &s("b")), Taken::NotSubscribed);
    assert_eq!(r.take(&s("t"), &s("a")), Taken::Empty);
    r.publish(&s("t"), &s("x"));
    r.publish(&s("t"), &s("y"));
    assert_eq!(r.take(&s("t"), &s("a")), Taken::Value(s("x")));
    r.requeue(&s("t"), &s("a"), s("x"));
    assert_eq!(r.take(&s("t"), &s("a")), Taken::Value(s("x")));
    assert_eq!(r.take(&s("t"), &s("a")), Taken::Value(s("y")));
    assert_eq!(r.take(&s("t"), &s("a")), Taken::Empty);
}

#[test]
fn registry_requeue_for_unknown_is_no_op() {
    let mut r = TopicRegistry::new();
    r.requeue(&s("t"), &s("a"), s("x"));
    assert!(r.to_snapshot().is_empty());
}

#[test]
fn registry_queues_are_independent() {
    let mut r = TopicRegistry::new();
    r.subscribe(&s("t"), &s("a"));
    r.publish(&s("t"), &s("1"));
    r.subscribe(&s("t"), &s("b"));
    r.publish(&s("t"), &s("2"));
    assert_eq!(r.take(&s("t"), &s("b")), Taken::Value(s("2")));
    assert_eq!(r.take(&s("t"), &s("a")), Taken::Value(s("1")));
    assert_eq!(r.take(&s("t"), &s("a")), Taken::Value(s("2")));
}

#[test]
fn pending_record_and_clear() {
    let mut p = PendingTracker::new();
    p.add_pending_request(&s("t"), &s("a"));
    p.add_pending_request(&s("t"), &s("a"));
    p.add_pending_request(&s("u"), &s("a"));
    p.add_pending_request(&s("t"), &s("b"));
    assert!(p.contains(&s("t"), &s("a")));
    assert_eq!(p.to_snapshot().len(), 3);
    p.clear(&s("t"), &s("a"));
    assert!(!p.contains(&s("t"), &s("a")));
    assert!(p.contains(&s("u"), &s("a")));
    p.clear_subscriber(&s("a"));
    assert_eq!(p.to_snapshot(), vec![(s("t"), s("b"))]);
}

#[test]
fn pending_take_waiting() {
    let mut p = PendingTracker::new();
    p.add_pending_request(&s("t"), &s("a"));
    p.add_pending_request(&s("u"), &s("c"));
    p.add_pending_request(&s("t"), &s("b"));
    let mut w = p.take_waiting(&s("t"));
    w.sort();
    assert_eq!(w, vec![s("a"), s("b")]);
    assert_eq!(p.to_snapshot(), vec![(s("u"), s("c"))]);
    assert!(p.take_waiting(&s("t")).is_empty());
}
