use pubsub_broker::broker::{Broker, Delivery, Outcome, Snapshot};
use pubsub_broker::protocol::Reply;

fn send(b: &mut Broker, who: &str, req: &str) -> Outcome {
    b.handle(&who.to_string(), req)
}

fn delivery(who: &str, topic: &str, payload: &str) -> Delivery {
    Delivery {
        subscriber: who.to_string(),
        topic: topic.to_string(),
        payload: payload.to_string(),
    }
}

fn queue_of(b: &Broker, topic: &str, who: &str) -> Option<Vec<String>> {
    let snap = b.checkpoint();
    for (t, subs) in snap.topics {
        if t == topic {
            for (s, q) in subs {
                if s == who {
                    return Some(q);
                }
            }
        }
    }
    None
}

fn topic_names(b: &Broker) -> Vec<String> {
    b.checkpoint().topics.into_iter().map(|(t, _)| t).collect()
}

#[test]
fn scenario_a_deferred_get_is_answered_by_put() {
    let mut b = Broker::new();
    let o = send(&mut b, "alice", "SUB [news]");
    assert_eq!(o.reply, Some(Reply::Ack));
    assert!(o.deliveries.is_empty());

    let o = send(&mut b, "alice", "GET [news]");
    assert_eq!(o.reply, None);
    assert!(o.deliveries.is_empty());

    let o = send(&mut b, "bob", "PUT [news] hello");
    assert_eq!(o.reply, Some(Reply::Ack));
    assert_eq!(o.deliveries, vec![delivery("alice", "news", "hello")]);
    assert_eq!(o.deliveries[0].text(), "OK hello");
    assert_eq!(queue_of(&b, "news", "alice"), Some(vec![]));
    assert!(b.checkpoint().waiting.is_empty());
}

#[test]
fn scenario_b_get_on_unknown_topic() {
    let mut b = Broker::new();
    let o = send(&mut b, "carol", "GET [sports]");
    assert_eq!(o.reply, Some(Reply::NotFound));
    assert_eq!(o.reply.unwrap().text(), "NF");
    assert!(o.deliveries.is_empty());
    assert!(b.checkpoint().waiting.is_empty());
}

#[test]
fn scenario_c_fifo_then_deferred() {
    let mut b = Broker::new();
    send(&mut b, "dave", "SUB [x]");
    send(&mut b, "eve", "PUT [x] one");
    send(&mut b, "eve", "PUT [x] two");
    let o = send(&mut b, "dave", "GET [x]");
    assert_eq!(o.reply, None);
    assert_eq!(o.deliveries, vec![delivery("dave", "x", "one")]);
    assert_eq!(o.deliveries[0].text(), "OK one");
    let o = send(&mut b, "dave", "GET [x]");
    assert_eq!(o.deliveries, vec![delivery("dave", "x", "two")]);
    let o = send(&mut b, "dave", "GET [x]");
    assert_eq!(o.reply, None);
    assert!(o.deliveries.is_empty());
    assert_eq!(
        b.checkpoint().waiting,
        vec![("x".to_string(), "dave".to_string())]
    );
}

#[test]
fn scenario_d_restart_from_checkpoint() {
    let mut b = Broker::new();
    send(&mut b, "ann", "SUB [a]");
    send(&mut b, "ben", "SUB [a]");
    send(&mut b, "ann", "SUB [b]");
    send(&mut b, "pub", "PUT [a] first");
    send(&mut b, "pub", "PUT [a] second");
    send(&mut b, "ann", "GET [b]");
    let snap = b.checkpoint();
    // Work after the checkpoint is lost with the process.
    send(&mut b, "pub", "PUT [a] third");

    let mut restored = Broker::restore(&snap).unwrap();
    assert_eq!(
        queue_of(&restored, "a", "ann"),
        Some(vec!["first".to_string(), "second".to_string()])
    );
    assert_eq!(
        queue_of(&restored, "a", "ben"),
        Some(vec!["first".to_string(), "second".to_string()])
    );
    assert_eq!(queue_of(&restored, "b", "ann"), Some(vec![]));
    assert_eq!(
        restored.checkpoint().waiting,
        vec![("b".to_string(), "ann".to_string())]
    );
    // The recovered wait is resolved by the next PUT.
    let o = send(&mut restored, "pub", "PUT [b] late");
    assert_eq!(o.deliveries, vec![delivery("ann", "b", "late")]);
}

#[test]
fn subscribe_then_take_finds_empty_queue() {
    let mut b = Broker::new();
    send(&mut b, "s", "SUB [t]");
    let o = send(&mut b, "s", "GET [t]");
    assert_eq!(o.reply, None);
    assert!(o.deliveries.is_empty());
}

#[test]
fn two_publishes_are_taken_in_order() {
    let mut b = Broker::new();
    send(&mut b, "s", "SUB [t]");
    send(&mut b, "p", "PUT [t] m1");
    send(&mut b, "p", "PUT [t] m2");
    assert_eq!(
        send(&mut b, "s", "GET [t]").deliveries,
        vec![delivery("s", "t", "m1")]
    );
    assert_eq!(
        send(&mut b, "s", "GET [t]").deliveries,
        vec![delivery("s", "t", "m2")]
    );
}

#[test]
fn subscribing_twice_changes_nothing() {
    let mut once = Broker::new();
    send(&mut once, "s", "SUB [t]");
    send(&mut once, "p", "PUT [t] kept");
    let mut twice = Broker::new();
    send(&mut twice, "s", "SUB [t]");
    send(&mut twice, "p", "PUT [t] kept");
    let o = send(&mut twice, "s", "SUB [t]");
    assert_eq!(o.reply, Some(Reply::Ack));
    let a = once.checkpoint();
    let b = twice.checkpoint();
    assert_eq!(a.topics, b.topics);
    assert_eq!(a.waiting, b.waiting);
    assert_eq!(queue_of(&twice, "t", "s"), Some(vec!["kept".to_string()]));
}

#[test]
fn failed_delivery_is_requeued_at_front() {
    let mut b = Broker::new();
    send(&mut b, "s", "SUB [t]");
    send(&mut b, "s", "GET [t]");
    let o = send(&mut b, "p", "PUT [t] m1");
    assert_eq!(o.deliveries.len(), 1);
    send(&mut b, "p", "PUT [t] m2");
    assert_eq!(queue_of(&b, "t", "s"), Some(vec!["m2".to_string()]));
    // The transmission of m1 failed.
    b.undeliverable(o.deliveries[0].clone());
    assert_eq!(
        queue_of(&b, "t", "s"),
        Some(vec!["m1".to_string(), "m2".to_string()])
    );
    assert_eq!(
        send(&mut b, "s", "GET [t]").deliveries,
        vec![delivery("s", "t", "m1")]
    );
}

#[test]
fn failed_get_delivery_is_requeued() {
    let mut b = Broker::new();
    send(&mut b, "s", "SUB [t]");
    send(&mut b, "p", "PUT [t] m1");
    let o = send(&mut b, "s", "GET [t]");
    assert_eq!(queue_of(&b, "t", "s"), Some(vec![]));
    b.undeliverable(o.deliveries[0].clone());
    assert_eq!(queue_of(&b, "t", "s"), Some(vec!["m1".to_string()]));
}

#[test]
fn each_waiter_gets_one_delivery() {
    let mut b = Broker::new();
    send(&mut b, "a", "SUB [t]");
    send(&mut b, "b", "SUB [t]");
    send(&mut b, "c", "SUB [t]");
    send(&mut b, "a", "GET [t]");
    send(&mut b, "b", "GET [t]");
    let o = send(&mut b, "p", "PUT [t] v");
    let mut who: Vec<String> = o.deliveries.iter().map(|d| d.subscriber.clone()).collect();
    who.sort();
    assert_eq!(who, vec!["a".to_string(), "b".to_string()]);
    assert!(o.deliveries.iter().all(|d| d.payload == "v" && d.topic == "t"));
    assert_eq!(queue_of(&b, "t", "a"), Some(vec![]));
    assert_eq!(queue_of(&b, "t", "c"), Some(vec!["v".to_string()]));
    assert!(b.checkpoint().waiting.is_empty());
}

#[test]
fn get_without_subscription() {
    let mut b = Broker::new();
    send(&mut b, "a", "SUB [t]");
    let o = send(&mut b, "z", "GET [t]");
    assert_eq!(o.reply, Some(Reply::NotSubscribed));
    assert_eq!(o.reply.unwrap().text(), "NS");
}

#[test]
fn put_on_unknown_topic_creates_it() {
    let mut b = Broker::new();
    let o = send(&mut b, "p", "PUT [fresh] nobody hears");
    assert_eq!(o.reply, Some(Reply::Ack));
    assert!(o.deliveries.is_empty());
    assert_eq!(topic_names(&b), vec!["fresh".to_string()]);
    assert_eq!(
        send(&mut b, "z", "GET [fresh]").reply,
        Some(Reply::NotSubscribed)
    );
}

#[test]
fn last_unsubscribe_removes_topic() {
    let mut b = Broker::new();
    send(&mut b, "a", "SUB [t]");
    send(&mut b, "b", "SUB [t]");
    send(&mut b, "a", "UNSUB [t]");
    assert_eq!(topic_names(&b), vec!["t".to_string()]);
    assert_eq!(queue_of(&b, "t", "a"), None);
    let o = send(&mut b, "b", "UNSUB [t]");
    assert_eq!(o.reply, Some(Reply::Ack));
    assert!(topic_names(&b).is_empty());
    assert_eq!(send(&mut b, "b", "GET [t]").reply, Some(Reply::NotFound));
}

#[test]
fn unsubscribe_of_absent_is_no_op() {
    let mut b = Broker::new();
    send(&mut b, "p", "PUT [t] x");
    assert_eq!(send(&mut b, "a", "UNSUB [t]").reply, Some(Reply::Ack));
    assert_eq!(topic_names(&b), vec!["t".to_string()]);
    assert_eq!(send(&mut b, "a", "UNSUB [none]").reply, Some(Reply::Ack));
    assert_eq!(topic_names(&b), vec!["t".to_string()]);
}

#[test]
fn online_clears_waits_of_sender() {
    let mut b = Broker::new();
    send(&mut b, "a", "SUB [t]");
    send(&mut b, "a", "SUB [u]");
    send(&mut b, "b", "SUB [t]");
    send(&mut b, "a", "GET [t]");
    send(&mut b, "a", "GET [u]");
    send(&mut b, "b", "GET [t]");
    let o = send(&mut b, "a", "ONLINE");
    assert_eq!(o.reply, Some(Reply::Ack));
    assert_eq!(
        b.checkpoint().waiting,
        vec![("t".to_string(), "b".to_string())]
    );
    let o = send(&mut b, "p", "PUT [t] v");
    assert_eq!(o.deliveries, vec![delivery("b", "t", "v")]);
    assert_eq!(queue_of(&b, "t", "a"), Some(vec!["v".to_string()]));
}

#[test]
fn unknown_and_malformed_requests_are_rejected() {
    let mut b = Broker::new();
    for req in ["HELLO [t]", "sub [t]", "SUB t", "SUB []", "SUB", ""] {
        let o = send(&mut b, "a", req);
        assert_eq!(o.reply, Some(Reply::Rejected), "{}", req);
        assert!(o.deliveries.is_empty());
    }
    assert!(topic_names(&b).is_empty());
    assert_eq!(Reply::Rejected.text(), "NOK");
}

#[test]
fn put_payload_is_trimmed() {
    let mut b = Broker::new();
    send(&mut b, "s", "SUB [t]");
    send(&mut b, "p", "PUT [t]   spaced  out  ");
    assert_eq!(
        queue_of(&b, "t", "s"),
        Some(vec!["spaced  out".to_string()])
    );
}

#[test]
fn restore_rejects_duplicate_topic() {
    let snap = Snapshot {
        topics: vec![
            ("t".to_string(), vec![]),
            ("t".to_string(), vec![]),
        ],
        waiting: vec![],
    };
    assert!(Broker::restore(&snap).is_none());
}

#[test]
fn restore_rejects_duplicate_subscriber() {
    let snap = Snapshot {
        topics: vec![(
            "t".to_string(),
            vec![
                ("a".to_string(), vec!["x".to_string()]),
                ("a".to_string(), vec![]),
            ],
        )],
        waiting: vec![],
    };
    assert!(Broker::restore(&snap).is_none());
}

#[test]
fn restore_merges_repeated_waits() {
    let snap = Snapshot {
        topics: vec![("t".to_string(), vec![("a".to_string(), vec![])])],
        waiting: vec![
            ("t".to_string(), "a".to_string()),
            ("t".to_string(), "a".to_string()),
        ],
    };
    let mut b = Broker::restore(&snap).unwrap();
    assert_eq!(
        b.checkpoint().waiting,
        vec![("t".to_string(), "a".to_string())]
    );
    let o = send(&mut b, "p", "PUT [t] v");
    assert_eq!(o.deliveries, vec![delivery("a", "t", "v")]);
}

#[test]
fn snapshot_round_trip_is_exact() {
    let mut b = Broker::new();
    send(&mut b, "a", "SUB [t]");
    send(&mut b, "b", "SUB [t]");
    send(&mut b, "a", "SUB [u]");
    send(&mut b, "p", "PUT [t] 1");
    send(&mut b, "p", "PUT [t] 2");
    send(&mut b, "p", "PUT [u] 3");
    send(&mut b, "b", "GET [t]");
    send(&mut b, "c", "SUB [v]");
    send(&mut b, "c", "GET [v]");
    let first = b.checkpoint();
    let again = Broker::restore(&first).unwrap().checkpoint();
    assert_eq!(first.topics, again.topics);
    assert_eq!(first.waiting, again.waiting);
}
