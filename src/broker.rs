//! The request dispatcher: one request in, at most one immediate reply out,
//! plus deliveries of payloads.
//!
//! Every payload leaves the broker as a [`Delivery`]. Whoever transmits it
//! and fails hands it back through [`Broker::undeliverable`], which puts the
//! payload back at the front of its queue: no payload is lost on a failed
//! transmission, at the cost of possibly sending it twice.
use vstd::prelude::*;
use crate::pending::{PendingTracker, WaitKey, waiting_on, without_topic, without_subscriber, wait_keys};
use crate::protocol::{Command, Request, Reply, parse_request, command_of};
use crate::registry::{TopicRegistry, TopicsModel, Taken, Lookup, subscribe_model,
    unsubscribe_model, publish_model, take_result, take_model, requeue_model, TopicSnapshot,
    snapshot_valid, snapshot_model};

verus! {

/// A payload on its way to a subscriber.
#[derive(Debug, Clone, PartialEq, Eq)]
pub struct Delivery {
    pub subscriber: String,
    pub topic: String,
    pub payload: String,
}

impl Delivery {
    /// The text sent to the subscriber: `OK <payload>`.
    pub fn text(&self) -> (r: String)
        ensures
            r@ == "OK "@ + self.payload@,
    {
        let reply = Reply::Value(self.payload.clone());
        reply.text()
    }
}

/// What handling one request produced.
pub struct Outcome {
    /// The immediate reply to the sender; none when the request is a GET
    /// whose answer is a delivery or is deferred.
    pub reply: Option<Reply>,
    /// Payloads to transmit.
    pub deliveries: Vec<Delivery>,
}

/// The registry and the set of (topic, subscriber) waits.
pub type BrokerModel = (TopicsModel, Set<WaitKey>);

/// The registry after each subscriber of `ws` with a queue on `t` took the
/// front payload of that queue.
pub open spec fn resolve_model(m: TopicsModel, t: Seq<char>, ws: Set<Seq<char>>) -> TopicsModel {
    m.insert(
        t,
        Map::new(
            |s: Seq<char>| m[t].contains_key(s),
            |s: Seq<char>| if ws.contains(s) { m[t][s].drop_first() } else { m[t][s] },
        ),
    )
}

/// `ds` holds one delivery for each subscriber of `ws` that has a queue on
/// `t` in `m`, and nothing else; each carries the front payload of that queue.
pub open spec fn delivers_fronts(ds: Seq<Delivery>, m: TopicsModel, t: Seq<char>, ws: Set<Seq<char>>) -> bool {
    &&& forall|j: int|
        0 <= j < ds.len() ==> {
            let s = (#[trigger] ds[j]).subscriber@;
            &&& ds[j].topic@ == t
            &&& ws.contains(s)
            &&& m[t].contains_key(s)
            &&& m[t][s].len() > 0
            &&& ds[j].payload@ == m[t][s][0]
        }
    &&& forall|s: Seq<char>|
        ws.contains(s) && #[trigger] m[t].contains_key(s) ==> exists|j: int|
            0 <= j < ds.len() && (#[trigger] ds[j]).subscriber@ == s
    &&& forall|i: int, j: int|
        0 <= i < ds.len() && 0 <= j < ds.len() && i != j ==> (#[trigger] ds[i]).subscriber@ != (
        #[trigger] ds[j]).subscriber@
}

/// How a request from `s` moves the broker from `pre` to `post` and what it
/// produces.
pub open spec fn handled(pre: BrokerModel, post: BrokerModel, s: Seq<char>, cmd: Command, out: Outcome) -> bool {
    match cmd {
        Command::Sub(t) => post == (subscribe_model(pre.0, t, s), pre.1) && out.reply == Some(Reply::Ack)
            && out.deliveries@.len() == 0,
        Command::Unsub(t) => post == (unsubscribe_model(pre.0, t, s), pre.1) && out.reply == Some(
            Reply::Ack,
        ) && out.deliveries@.len() == 0,
        Command::Get(t) => match take_result(pre.0, t, s) {
            Lookup::NotFound => post == pre && out.reply == Some(Reply::NotFound)
                && out.deliveries@.len() == 0,
            Lookup::NotSubscribed => post == pre && out.reply == Some(Reply::NotSubscribed)
                && out.deliveries@.len() == 0,
            Lookup::Empty => post == (pre.0, pre.1.insert((t, s))) && out.reply is None
                && out.deliveries@.len() == 0,
            Lookup::Front(p) => post == (take_model(pre.0, t, s), pre.1) && out.reply is None
                && out.deliveries@.len() == 1 && out.deliveries@[0].subscriber@ == s
                && out.deliveries@[0].topic@ == t && out.deliveries@[0].payload@ == p,
        },
        Command::Put(t, p) => {
            let m1 = publish_model(pre.0, t, p);
            let ws = waiting_on(pre.1, t);
            &&& post == (resolve_model(m1, t, ws), without_topic(pre.1, t))
            &&& out.reply == Some(Reply::Ack)
            &&& delivers_fronts(out.deliveries@, m1, t, ws)
        },
        Command::Online => post == (pre.0, without_subscriber(pre.1, s)) && out.reply == Some(
            Reply::Ack,
        ) && out.deliveries@.len() == 0,
        Command::Invalid => post == pre && out.reply == Some(Reply::Rejected) && out.deliveries@.len()
            == 0,
    }
}

/// The broker's state as plain values, for storage.
pub struct Snapshot {
    /// Each topic with each subscriber's queue, front first.
    pub topics: Vec<TopicSnapshot>,
    /// The (topic, subscriber) pairs of deferred GET requests.
    pub waiting: Vec<(String, String)>,
}

/// The broker state that a snapshot describes.
pub open spec fn snapshot_view(s: Snapshot) -> BrokerModel {
    (snapshot_model(s.topics@), wait_keys(s.waiting@))
}

/// `s` is a snapshot taken of the state `b`.
pub open spec fn checkpoint_of(s: Snapshot, b: BrokerModel) -> bool {
    snapshot_valid(s.topics@) && snapshot_view(s) == b
}

/// `r` is what restoring `s` gives: none exactly when `s` lists a topic twice
/// or a subscriber twice under one topic, else the state `s` describes.
pub open spec fn restored(s: Snapshot, r: Option<BrokerModel>) -> bool {
    &&& r is Some <==> snapshot_valid(s.topics@)
    &&& r matches Some(b) ==> b == snapshot_view(s)
}

/// The subscribers among the first `n` of `r`.
spec fn first_of(r: Seq<String>, n: int) -> Set<Seq<char>> {
    Set::new(|x: Seq<char>| exists|a: int| 0 <= a < n && (#[trigger] r[a])@ == x)
}

/// The broker's whole state.
pub struct Broker {
    registry: TopicRegistry,
    pending: PendingTracker,
}

impl View for Broker {
    type V = BrokerModel;

    closed spec fn view(&self) -> BrokerModel {
        (self.registry@, self.pending@)
    }
}

impl Broker {
    /// The registry and the tracker are each well formed.
    pub closed spec fn wf(&self) -> bool {
        self.registry.wf() && self.pending.wf()
    }

    /// A broker with no topics and no waits.
    pub fn new() -> (r: Broker)
        ensures
            r.wf(),
            r@ == (TopicsModel::empty(), Set::<WaitKey>::empty()),
    {
        Broker { registry: TopicRegistry::new(), pending: PendingTracker::new() }
    }

    /// Hands each subscriber waiting on `t` the front payload of its queue.
    fn resolve(&mut self, t: &String) -> (ds: Vec<Delivery>)
        requires
            old(self).wf(),
            old(self)@.0.contains_key(t@),
            forall|x: Seq<char>| #[trigger] old(self)@.0[t@].contains_key(x) ==> old(self)@.0[t@][x].len() > 0,
        ensures
            final(self).wf(),
            final(self)@ == (
                resolve_model(old(self)@.0, t@, waiting_on(old(self)@.1, t@)),
                without_topic(old(self)@.1, t@),
            ),
            delivers_fronts(ds@, old(self)@.0, t@, waiting_on(old(self)@.1, t@)),
    {
        let ghost m1 = self.registry@;
        let ghost ws = waiting_on(self.pending@, t@);
        let waiters = self.pending.take_waiting(t);
        let mut ds: Vec<Delivery> = Vec::new();
        let mut i: usize = 0;
        proof {
            assert(first_of(waiters@, 0) =~= Set::<Seq<char>>::empty());
            assert(m1[t@] =~= resolve_model(m1, t@, first_of(waiters@, 0))[t@]);
            assert(m1 =~= resolve_model(m1, t@, first_of(waiters@, 0)));
        }
        while i < waiters.len()
            invariant
                self.wf(),
                i <= waiters@.len(),
                m1.contains_key(t@),
                forall|x: Seq<char>| #[trigger] m1[t@].contains_key(x) ==> m1[t@][x].len() > 0,
                forall|a: int, b: int|
                    0 <= a < waiters@.len() && 0 <= b < waiters@.len() && a != b ==> (#[trigger] waiters@[a])@
                        != (#[trigger] waiters@[b])@,
                forall|a: int| 0 <= a < waiters@.len() ==> ws.contains((#[trigger] waiters@[a])@),
                self.pending@ == without_topic(old(self)@.1, t@),
                self.registry@ == resolve_model(m1, t@, first_of(waiters@, i as int)),
                delivers_fronts(ds@, m1, t@, first_of(waiters@, i as int)),
            decreases waiters@.len() - i,
        {
            let ghost cur = self.registry@;
            let ghost s = waiters@[i as int]@;
            let ghost done = first_of(waiters@, i as int);
            let ghost next = first_of(waiters@, i + 1);
            proof {
                assert(!done.contains(s)) by {
                    if done.contains(s) {
                        let a = choose|a: int| 0 <= a < i && (#[trigger] waiters@[a])@ == s;
                        assert(waiters@[a]@ == waiters@[i as int]@);
                    }
                }
                assert(next =~= done.insert(s)) by {
                    assert forall|x: Seq<char>| next.contains(x) implies #[trigger] done.insert(s).contains(x) by {
                        let a = choose|a: int| 0 <= a < i + 1 && (#[trigger] waiters@[a])@ == x;
                        if a < i {
                            assert(done.contains(x));
                        }
                    }
                    assert forall|x: Seq<char>| done.insert(s).contains(x) implies #[trigger] next.contains(x) by {
                        if x == s {
                            assert(waiters@[i as int]@ == x);
                        } else {
                            let a = choose|a: int| 0 <= a < i && (#[trigger] waiters@[a])@ == x;
                            assert(waiters@[a]@ == x);
                        }
                    }
                }
            }
            let taken = self.registry.take(t, &waiters[i]);
            let ghost ds_before = ds@;
            match taken {
                Taken::Value(p) => {
                    proof {
                        assert(m1[t@].contains_key(s));
                        assert(p@ == m1[t@][s][0]);
                        assert(self.registry@[t@] =~= resolve_model(m1, t@, next)[t@]);
                        assert(self.registry@ =~= resolve_model(m1, t@, next));
                    }
                    ds.push(Delivery { subscriber: waiters[i].clone(), topic: t.clone(), payload: p });
                },
                _ => {
                    proof {
                        assert(!m1[t@].contains_key(s));
                        assert(cur[t@] =~= resolve_model(m1, t@, next)[t@]);
                        assert(cur =~= resolve_model(m1, t@, next));
                    }
                },
            }
            proof {
                assert forall|j: int| 0 <= j < ds@.len() implies ({
                    let x = (#[trigger] ds@[j]).subscriber@;
                    &&& ds@[j].topic@ == t@
                    &&& next.contains(x)
                    &&& m1[t@].contains_key(x)
                    &&& m1[t@][x].len() > 0
                    &&& ds@[j].payload@ == m1[t@][x][0]
                }) by {
                    if j < ds_before.len() {
                        assert(ds@[j] == ds_before[j]);
                    }
                }
                assert forall|x: Seq<char>| next.contains(x) && #[trigger] m1[t@].contains_key(x) implies exists|j: int|
                    0 <= j < ds@.len() && (#[trigger] ds@[j]).subscriber@ == x by {
                    if x == s {
                        assert(ds@[ds@.len() - 1].subscriber@ == x);
                    } else {
                        assert(done.contains(x));
                        let j = choose|j: int| 0 <= j < ds_before.len() && (#[trigger] ds_before[j]).subscriber@ == x;
                        assert(ds@[j] == ds_before[j]);
                    }
                }
                assert forall|a: int, b: int|
                    0 <= a < ds@.len() && 0 <= b < ds@.len() && a != b implies (#[trigger] ds@[a]).subscriber@ != (
                    #[trigger] ds@[b]).subscriber@ by {
                    if a < ds_before.len() {
                        assert(ds@[a] == ds_before[a]);
                    }
                    if b < ds_before.len() {
                        assert(ds@[b] == ds_before[b]);
                    }
                }
            }
            i = i + 1;
        }
        proof {
            assert(first_of(waiters@, waiters@.len() as int) =~= ws) by {
                assert forall|x: Seq<char>| ws.contains(x) implies #[trigger] first_of(waiters@, waiters@.len() as int).contains(x) by {
                    assert(old(self)@.1.contains((t@, x)));
                    let a = choose|a: int| 0 <= a < waiters@.len() && (#[trigger] waiters@[a])@ == x;
                }
            }
        }
        ds
    }

    /// Handles one request text from `sender`.
    pub fn handle(&mut self, sender: &String, request: &str) -> (out: Outcome)
        requires
            old(self).wf(),
        ensures
            final(self).wf(),
            handled(old(self)@, final(self)@, sender@, command_of(request@), out),
    {
        let req = parse_request(request);
        match req {
            Request::Sub(t) => {
                self.registry.subscribe(&t, sender);
                Outcome { reply: Some(Reply::Ack), deliveries: Vec::new() }
            },
            Request::Unsub(t) => {
                self.registry.unsubscribe(&t, sender);
                Outcome { reply: Some(Reply::Ack), deliveries: Vec::new() }
            },
            Request::Get(t) => {
                match self.registry.take(&t, sender) {
                    Taken::NotFound => Outcome { reply: Some(Reply::NotFound), deliveries: Vec::new() },
                    Taken::NotSubscribed => Outcome { reply: Some(Reply::NotSubscribed), deliveries: Vec::new() },
                    Taken::Empty => {
                        self.pending.add_pending_request(&t, sender);
                        Outcome { reply: None, deliveries: Vec::new() }
                    },
                    Taken::Value(p) => {
                        let mut deliveries: Vec<Delivery> = Vec::new();
                        deliveries.push(Delivery { subscriber: sender.clone(), topic: t, payload: p });
                        Outcome { reply: None, deliveries }
                    },
                }
            },
            Request::Put(t, p) => {
                self.registry.publish(&t, &p);
                let deliveries = self.resolve(&t);
                Outcome { reply: Some(Reply::Ack), deliveries }
            },
            Request::Online => {
                self.pending.clear_subscriber(sender);
                Outcome { reply: Some(Reply::Ack), deliveries: Vec::new() }
            },
            Request::Invalid => Outcome { reply: Some(Reply::Rejected), deliveries: Vec::new() },
        }
    }

    /// The state as plain values.
    pub fn checkpoint(&self) -> (r: Snapshot)
        requires
            self.wf(),
        ensures
            checkpoint_of(r, self@),
    {
        Snapshot { topics: self.registry.to_snapshot(), waiting: self.pending.to_snapshot() }
    }

    /// The broker that a snapshot describes; none when the snapshot lists a
    /// topic twice, or a subscriber twice under one topic.
    pub fn restore(s: &Snapshot) -> (r: Option<Broker>)
        ensures
            r matches Some(b) ==> b.wf(),
            restored(
                *s,
                match r {
                    Some(b) => Some(b@),
                    None => None,
                },
            ),
    {
        match TopicRegistry::from_snapshot(&s.topics) {
            Some(registry) => Some(Broker { registry, pending: PendingTracker::from_snapshot(&s.waiting) }),
            None => None,
        }
    }

    /// Puts the payload of a delivery that could not be transmitted back at
    /// the front of its subscriber's queue.
    pub fn undeliverable(&mut self, d: Delivery)
        requires
            old(self).wf(),
        ensures
            final(self).wf(),
            final(self)@ == (requeue_model(old(self)@.0, d.topic@, d.subscriber@, d.payload@), old(self)@.1),
    {
        self.registry.requeue(&d.topic, &d.subscriber, d.payload);
    }
}

} // verus!
