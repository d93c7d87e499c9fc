//! The topic registry: topics, and under each topic one FIFO queue of
//! payloads per subscriber.
//!
//! Policy on empty topics: a topic is created by the first subscribe or
//! publish that names it, and removed when an unsubscribe takes away its last
//! subscriber. A topic created by a publish with no subscribers stays until
//! then.
use std::collections::VecDeque;
use vstd::prelude::*;
use crate::keyed::{assoc, keys_unique, has_key, lemma_assoc_index, lemma_assoc_update,
    lemma_assoc_push, lemma_assoc_remove, lemma_assoc_pointwise};

verus! {

/// Subscriber identity to that subscriber's queue, front first.
pub type Queues = Map<Seq<char>, Seq<Seq<char>>>;

/// Topic name to the queues of its subscribers.
pub type TopicsModel = Map<Seq<char>, Queues>;

/// The outcome of taking the front payload of a subscriber's queue.
#[derive(Debug, PartialEq, Eq)]
pub enum Taken {
    /// The topic is unknown.
    NotFound,
    /// The topic is known but the subscriber is not registered on it.
    NotSubscribed,
    /// The subscriber is registered and its queue is empty.
    Empty,
    /// The payload that was at the front of the queue.
    Value(String),
}

/// What taking the front of a queue finds, over views.
pub enum Lookup {
    NotFound,
    NotSubscribed,
    Empty,
    Front(Seq<char>),
}

impl View for Taken {
    type V = Lookup;

    open spec fn view(&self) -> Lookup {
        match self {
            Taken::NotFound => Lookup::NotFound,
            Taken::NotSubscribed => Lookup::NotSubscribed,
            Taken::Empty => Lookup::Empty,
            Taken::Value(p) => Lookup::Front(p@),
        }
    }
}

/// The texts of a queue of payloads.
pub open spec fn texts(q: Seq<String>) -> Seq<Seq<char>> {
    q.map_values(|p: String| p@)
}

/// The queues of topic `t`; none when the topic is unknown.
pub open spec fn queues_in(m: TopicsModel, t: Seq<char>) -> Queues {
    if m.contains_key(t) {
        m[t]
    } else {
        Map::empty()
    }
}

pub open spec fn subscribe_model(m: TopicsModel, t: Seq<char>, s: Seq<char>) -> TopicsModel {
    let q = queues_in(m, t);
    m.insert(t, if q.contains_key(s) { q } else { q.insert(s, Seq::empty()) })
}

pub open spec fn unsubscribe_model(m: TopicsModel, t: Seq<char>, s: Seq<char>) -> TopicsModel {
    if m.contains_key(t) && m[t].contains_key(s) {
        let q = m[t].remove(s);
        if q.dom() == Set::<Seq<char>>::empty() {
            m.remove(t)
        } else {
            m.insert(t, q)
        }
    } else {
        m
    }
}

pub open spec fn publish_model(m: TopicsModel, t: Seq<char>, p: Seq<char>) -> TopicsModel {
    let q = queues_in(m, t);
    m.insert(t, Map::new(|s: Seq<char>| q.contains_key(s), |s: Seq<char>| q[s].push(p)))
}

pub open spec fn take_result(m: TopicsModel, t: Seq<char>, s: Seq<char>) -> Lookup {
    if !m.contains_key(t) {
        Lookup::NotFound
    } else if !m[t].contains_key(s) {
        Lookup::NotSubscribed
    } else if m[t][s].len() == 0 {
        Lookup::Empty
    } else {
        Lookup::Front(m[t][s][0])
    }
}

pub open spec fn take_model(m: TopicsModel, t: Seq<char>, s: Seq<char>) -> TopicsModel {
    if take_result(m, t, s) is Front {
        m.insert(t, m[t].insert(s, m[t][s].drop_first()))
    } else {
        m
    }
}

pub open spec fn requeue_model(m: TopicsModel, t: Seq<char>, s: Seq<char>, p: Seq<char>) -> TopicsModel {
    if m.contains_key(t) && m[t].contains_key(s) {
        m.insert(t, m[t].insert(s, seq![p] + m[t][s]))
    } else {
        m
    }
}

/// A subscriber with its queue, front first, as plain values.
pub type QueueSnapshot = (String, Vec<String>);

/// A topic with the queues of its subscribers, as plain values.
pub type TopicSnapshot = (String, Vec<QueueSnapshot>);

pub open spec fn queue_entries(v: Seq<QueueSnapshot>) -> Seq<(Seq<char>, Seq<Seq<char>>)> {
    v.map_values(|e: QueueSnapshot| (e.0@, texts(e.1@)))
}

pub open spec fn snapshot_entries(v: Seq<TopicSnapshot>) -> Seq<(Seq<char>, Queues)> {
    v.map_values(|e: TopicSnapshot| (e.0@, assoc(queue_entries(e.1@))))
}

/// No topic is listed twice, and no subscriber twice under one topic.
pub open spec fn snapshot_valid(v: Seq<TopicSnapshot>) -> bool {
    &&& keys_unique(snapshot_entries(v))
    &&& forall|i: int| 0 <= i < v.len() ==> keys_unique(queue_entries((#[trigger] v[i]).1@))
}

/// The registry that a snapshot describes.
pub open spec fn snapshot_model(v: Seq<TopicSnapshot>) -> TopicsModel {
    assoc(snapshot_entries(v))
}

struct Subscription {
    id: String,
    queue: VecDeque<String>,
}

impl Subscription {
    spec fn entry(&self) -> (Seq<char>, Seq<Seq<char>>) {
        (self.id@, texts(self.queue@))
    }
}

struct Topic {
    name: String,
    subscribers: Vec<Subscription>,
}

spec fn sub_entries(s: Seq<Subscription>) -> Seq<(Seq<char>, Seq<Seq<char>>)> {
    s.map_values(|x: Subscription| x.entry())
}

impl Topic {
    spec fn entries(&self) -> Seq<(Seq<char>, Seq<Seq<char>>)> {
        sub_entries(self.subscribers@)
    }

    spec fn queues(&self) -> Queues {
        assoc(self.entries())
    }

    spec fn wf(&self) -> bool {
        keys_unique(self.entries())
    }

    fn find(&self, s: &String) -> (r: Option<usize>)
        requires
            self.wf(),
        ensures
            match r {
                Some(j) => j < self.subscribers@.len() && self.subscribers@[j as int].id@ == s@
                    && self.queues().contains_key(s@),
                None => !self.queues().contains_key(s@),
            },
    {
        let mut j: usize = 0;
        while j < self.subscribers.len()
            invariant
                self.wf(),
                j <= self.subscribers@.len(),
                forall|k: int| 0 <= k < j ==> self.subscribers@[k].id@ != s@,
            decreases self.subscribers@.len() - j,
        {
            if self.subscribers[j].id == *s {
                proof {
                    lemma_assoc_index(self.entries(), j as int);
                }
                return Some(j);
            }
            j = j + 1;
        }
        proof {
            if has_key(self.entries(), s@) {
                let k = choose|k: int| 0 <= k < self.entries().len() && #[trigger] self.entries()[k].0 == s@;
                assert(self.subscribers@[k].id@ == s@);
            }
        }
        None
    }

    /// Appends `p` to every queue of the topic.
    fn push_all(&mut self, p: &String)
        requires
            old(self).wf(),
        ensures
            final(self).wf(),
            final(self).name == old(self).name,
            final(self).queues() == Map::new(
                |k: Seq<char>| old(self).queues().contains_key(k),
                |k: Seq<char>| old(self).queues()[k].push(p@),
            ),
    {
        let ghost old_t = *self;
        let mut j: usize = 0;
        while j < self.subscribers.len()
            invariant
                self.name == old_t.name,
                self.subscribers@.len() == old_t.subscribers@.len(),
                j <= self.subscribers@.len(),
                forall|k: int| 0 <= k < j ==> (#[trigger] self.subscribers@[k]).id == old_t.subscribers@[k].id
                    && self.subscribers@[k].queue@ == old_t.subscribers@[k].queue@.push(*p),
                forall|k: int| j <= k < self.subscribers@.len() ==> #[trigger] self.subscribers@[k] == old_t.subscribers@[k],
            decreases self.subscribers@.len() - j,
        {
            let sub = &mut self.subscribers[j];
            sub.queue.push_back(p.clone());
            j = j + 1;
        }
        proof {
            let f = |q: Seq<Seq<char>>| q.push(p@);
            assert forall|k: int| 0 <= k < old_t.entries().len() implies (#[trigger] self.entries()[k]).0
                == old_t.entries()[k].0 && self.entries()[k].1 == f(old_t.entries()[k].1) by {
                assert(self.subscribers@[k].id == old_t.subscribers@[k].id);
                assert(texts(self.subscribers@[k].queue@) =~= texts(old_t.subscribers@[k].queue@).push(p@));
            }
            lemma_assoc_pointwise(old_t.entries(), self.entries(), f);
        }
    }

    /// Takes the front payload of subscriber `j`'s queue.
    fn pop_at(&mut self, j: usize) -> (r: Option<String>)
        requires
            old(self).wf(),
            j < old(self).subscribers@.len(),
        ensures
            final(self).wf(),
            final(self).name == old(self).name,
            ({
                let s = old(self).subscribers@[j as int].id@;
                let q = old(self).queues()[s];
                &&& old(self).queues().contains_key(s)
                &&& q.len() == 0 ==> r is None && final(self).queues() == old(self).queues()
                &&& q.len() > 0 ==> r is Some && r->0@ == q[0] && final(self).queues() == old(self).queues().insert(
                    s,
                    q.drop_first(),
                )
            }),
    {
        let ghost old_t = *self;
        proof {
            lemma_assoc_index(old_t.entries(), j as int);
        }
        let sub = &mut self.subscribers[j];
        let r = sub.queue.pop_front();
        proof {
            let e = old_t.entries();
            let nq = texts(self.subscribers@[j as int].queue@);
            assert(self.entries() =~= e.update(j as int, (e[j as int].0, nq)));
            lemma_assoc_update(e, j as int, nq);
            if r is None {
                assert(e.update(j as int, (e[j as int].0, nq)) =~= e);
            } else {
                assert(nq =~= e[j as int].1.drop_first());
            }
        }
        r
    }

    /// Puts `p` back at the front of subscriber `j`'s queue.
    fn push_front_at(&mut self, j: usize, p: String)
        requires
            old(self).wf(),
            j < old(self).subscribers@.len(),
        ensures
            final(self).wf(),
            final(self).name == old(self).name,
            ({
                let s = old(self).subscribers@[j as int].id@;
                &&& old(self).queues().contains_key(s)
                &&& final(self).queues() == old(self).queues().insert(s, seq![p@] + old(self).queues()[s])
            }),
    {
        let ghost old_t = *self;
        proof {
            lemma_assoc_index(old_t.entries(), j as int);
        }
        let sub = &mut self.subscribers[j];
        sub.queue.push_front(p);
        proof {
            let e = old_t.entries();
            let nq = texts(self.subscribers@[j as int].queue@);
            assert(self.entries() =~= e.update(j as int, (e[j as int].0, nq)));
            assert(nq =~= seq![p@] + e[j as int].1);
            lemma_assoc_update(e, j as int, nq);
        }
    }
}

fn queue_to_vec(q: &VecDeque<String>) -> (r: Vec<String>)
    ensures
        r@ == q@,
{
    let mut r: Vec<String> = Vec::new();
    let mut k: usize = 0;
    while k < q.len()
        invariant
            k <= q@.len(),
            r@ == q@.subrange(0, k as int),
        decreases q@.len() - k,
    {
        r.push(q[k].clone());
        proof {
            assert(r@ =~= q@.subrange(0, k + 1));
        }
        k = k + 1;
    }
    assert(r@ =~= q@);
    r
}

fn vec_to_queue(v: &Vec<String>) -> (r: VecDeque<String>)
    ensures
        r@ == v@,
{
    let mut r: VecDeque<String> = VecDeque::new();
    let mut k: usize = 0;
    while k < v.len()
        invariant
            k <= v@.len(),
            r@ == v@.subrange(0, k as int),
        decreases v@.len() - k,
    {
        r.push_back(v[k].clone());
        proof {
            assert(r@ =~= v@.subrange(0, k + 1));
        }
        k = k + 1;
    }
    assert(r@ =~= v@);
    r
}

impl Topic {
    fn to_snapshot(&self) -> (r: Vec<QueueSnapshot>)
        ensures
            queue_entries(r@) == self.entries(),
    {
        let mut r: Vec<QueueSnapshot> = Vec::new();
        let mut j: usize = 0;
        while j < self.subscribers.len()
            invariant
                j <= self.subscribers@.len(),
                queue_entries(r@) == self.entries().subrange(0, j as int),
            decreases self.subscribers@.len() - j,
        {
            let sub = &self.subscribers[j];
            let ghost before = r@;
            r.push((sub.id.clone(), queue_to_vec(&sub.queue)));
            proof {
                assert(queue_entries(r@) =~= queue_entries(before).push(self.entries()[j as int]));
                assert(queue_entries(r@) =~= self.entries().subrange(0, j + 1));
            }
            j = j + 1;
        }
        assert(self.entries() =~= self.entries().subrange(0, j as int));
        r
    }

    fn from_snapshot(name: &String, subs: &Vec<QueueSnapshot>) -> (r: Option<Topic>)
        ensures
            r is Some <==> keys_unique(queue_entries(subs@)),
            r matches Some(t) ==> t.wf() && t.name@ == name@ && t.entries() == queue_entries(subs@),
    {
        let mut t = Topic { name: name.clone(), subscribers: Vec::new() };
        let ghost e = queue_entries(subs@);
        proof {
            assert(t.entries() =~= e.subrange(0, 0));
        }
        let mut j: usize = 0;
        while j < subs.len()
            invariant
                e == queue_entries(subs@),
                j <= subs@.len(),
                t.wf(),
                t.name@ == name@,
                t.entries() == e.subrange(0, j as int),
            decreases subs@.len() - j,
        {
            match t.find(&subs[j].0) {
                Some(k) => {
                    proof {
                        assert(t.entries()[k as int] == e[k as int]);
                        assert(e[k as int].0 == e[j as int].0);
                    }
                    return None;
                },
                None => {},
            }
            let ghost before = t.entries();
            t.subscribers.push(Subscription { id: subs[j].0.clone(), queue: vec_to_queue(&subs[j].1) });
            proof {
                assert(t.entries() =~= before.push(e[j as int]));
                lemma_assoc_push(before, e[j as int].0, e[j as int].1);
                assert(t.entries() =~= e.subrange(0, j + 1));
            }
            j = j + 1;
        }
        assert(e =~= e.subrange(0, j as int));
        Some(t)
    }
}

spec fn topic_entries(t: Seq<Topic>) -> Seq<(Seq<char>, Queues)> {
    t.map_values(|x: Topic| (x.name@, x.queues()))
}

/// The registry of topics and subscriber queues.
pub struct TopicRegistry {
    topics: Vec<Topic>,
}

impl View for TopicRegistry {
    type V = TopicsModel;

    closed spec fn view(&self) -> TopicsModel {
        assoc(topic_entries(self.topics@))
    }
}

impl TopicRegistry {
    /// Topic names are unique, and so are subscriber identities within each topic.
    pub closed spec fn wf(&self) -> bool {
        &&& keys_unique(topic_entries(self.topics@))
        &&& forall|i: int| 0 <= i < self.topics@.len() ==> (#[trigger] self.topics@[i]).wf()
    }

    /// Every queue of the registry is the view of a queue held here.
    proof fn lemma_topic_at(&self, i: int)
        requires
            self.wf(),
            0 <= i < self.topics@.len(),
        ensures
            self@.contains_key(self.topics@[i].name@),
            self@[self.topics@[i].name@] == self.topics@[i].queues(),
    {
        lemma_assoc_index(topic_entries(self.topics@), i);
    }

    fn find(&self, t: &String) -> (r: Option<usize>)
        requires
            self.wf(),
        ensures
            match r {
                Some(i) => i < self.topics@.len() && self.topics@[i as int].name@ == t@
                    && self@.contains_key(t@),
                None => !self@.contains_key(t@),
            },
    {
        let mut i: usize = 0;
        while i < self.topics.len()
            invariant
                self.wf(),
                i <= self.topics@.len(),
                forall|k: int| 0 <= k < i ==> self.topics@[k].name@ != t@,
            decreases self.topics@.len() - i,
        {
            if self.topics[i].name == *t {
                proof {
                    lemma_assoc_index(topic_entries(self.topics@), i as int);
                }
                return Some(i);
            }
            i = i + 1;
        }
        proof {
            let e = topic_entries(self.topics@);
            if has_key(e, t@) {
                let k = choose|k: int| 0 <= k < e.len() && #[trigger] e[k].0 == t@;
                assert(self.topics@[k].name@ == t@);
            }
        }
        None
    }

    /// Replaces topic `i` by `nt`, which has the same name.
    proof fn lemma_replace_topic(old_topics: Seq<Topic>, i: int, nt: Topic)
        requires
            keys_unique(topic_entries(old_topics)),
            0 <= i < old_topics.len(),
            nt.name@ == old_topics[i].name@,
        ensures
            keys_unique(topic_entries(old_topics.update(i, nt))),
            assoc(topic_entries(old_topics.update(i, nt))) == assoc(topic_entries(old_topics)).insert(
                nt.name@,
                nt.queues(),
            ),
    {
        let e = topic_entries(old_topics);
        assert(topic_entries(old_topics.update(i, nt)) =~= e.update(i, (e[i].0, nt.queues())));
        lemma_assoc_update(e, i, nt.queues());
    }

    /// An empty registry.
    pub fn new() -> (r: TopicRegistry)
        ensures
            r.wf(),
            r@ == TopicsModel::empty(),
    {
        let r = TopicRegistry { topics: Vec::new() };
        proof {
            assert(topic_entries(r.topics@) =~= Seq::empty());
            assert(r@ =~= TopicsModel::empty());
        }
        r
    }

    /// Registers `s` on topic `t`, creating the topic and an empty queue as
    /// needed; an existing queue is left as it is.
    pub fn subscribe(&mut self, t: &String, s: &String)
        requires
            old(self).wf(),
        ensures
            final(self).wf(),
            final(self)@ == subscribe_model(old(self)@, t@, s@),
    {
        match self.find(t) {
            Some(i) => {
                proof { self.lemma_topic_at(i as int); }
                let ghost old_topics = self.topics@;
                let topic = &mut self.topics[i];
                match topic.find(s) {
                    Some(_) => {
                        proof {
                            assert(old_topics.update(i as int, *topic) =~= old_topics);
                            Self::lemma_replace_topic(old_topics, i as int, *topic);
                        }
                    },
                    None => {
                        let ghost old_t = *topic;
                        topic.subscribers.push(Subscription { id: s.clone(), queue: VecDeque::new() });
                        proof {
                            assert(texts(Seq::<String>::empty()) =~= Seq::<Seq<char>>::empty());
                            assert(topic.entries() =~= old_t.entries().push((s@, Seq::<Seq<char>>::empty())));
                            lemma_assoc_push(old_t.entries(), s@, Seq::<Seq<char>>::empty());
                        }
                    },
                }
                proof {
                    Self::lemma_replace_topic(old_topics, i as int, *topic);
                }
                assert(self@ =~= subscribe_model(old(self)@, t@, s@));
            },
            None => {
                let mut subscribers: Vec<Subscription> = Vec::new();
                subscribers.push(Subscription { id: s.clone(), queue: VecDeque::new() });
                let nt = Topic { name: t.clone(), subscribers };
                proof {
                    assert(sub_entries(Seq::<Subscription>::empty()) =~= Seq::empty());
                    assert(texts(Seq::<String>::empty()) =~= Seq::<Seq<char>>::empty());
                    assert(nt.entries() =~= sub_entries(Seq::<Subscription>::empty()).push((s@, Seq::<Seq<char>>::empty())));
                    lemma_assoc_push(Seq::<(Seq<char>, Seq<Seq<char>>)>::empty(), s@, Seq::<Seq<char>>::empty());
                    assert(assoc(Seq::<(Seq<char>, Seq<Seq<char>>)>::empty()) =~= Queues::empty());
                }
                let ghost old_topics = self.topics@;
                self.topics.push(nt);
                proof {
                    assert(topic_entries(self.topics@) =~= topic_entries(old_topics).push((t@, nt.queues())));
                    lemma_assoc_push(topic_entries(old_topics), t@, nt.queues());
                    assert forall|k: int| 0 <= k < self.topics@.len() implies (#[trigger] self.topics@[k]).wf() by {
                        if k < old_topics.len() {
                            assert(self.topics@[k] == old_topics[k]);
                        }
                    }
                }
                assert(self@ =~= subscribe_model(old(self)@, t@, s@));
            },
        }
    }

    /// Removes the queue of `s` from topic `t`, if there is one, and the topic
    /// itself once no subscriber is left on it.
    pub fn unsubscribe(&mut self, t: &String, s: &String)
        requires
            old(self).wf(),
        ensures
            final(self).wf(),
            final(self)@ == unsubscribe_model(old(self)@, t@, s@),
    {
        match self.find(t) {
            None => {},
            Some(i) => {
                proof { self.lemma_topic_at(i as int); }
                let ghost old_topics = self.topics@;
                match self.topics[i].find(s) {
                    None => {},
                    Some(j) => {
                        let ghost old_t = self.topics@[i as int];
                        let topic = &mut self.topics[i];
                        topic.subscribers.remove(j);
                        let empty = topic.subscribers.len() == 0;
                        let ghost nt = *topic;
                        proof {
                            assert(nt.entries() =~= old_t.entries().remove(j as int));
                            lemma_assoc_remove(old_t.entries(), j as int);
                            Self::lemma_replace_topic(old_topics, i as int, nt);
                            assert(self.topics@ == old_topics.update(i as int, nt));
                        }
                        if empty {
                            let ghost mid = self.topics@;
                            self.topics.remove(i);
                            proof {
                                assert(topic_entries(self.topics@) =~= topic_entries(mid).remove(i as int));
                                lemma_assoc_remove(topic_entries(mid), i as int);
                                assert(nt.entries() =~= Seq::empty());
                                assert(nt.queues().dom() =~= Set::<Seq<char>>::empty());
                                assert forall|k: int| 0 <= k < self.topics@.len() implies (#[trigger] self.topics@[k]).wf() by {
                                    if k < i {
                                        assert(self.topics@[k] == mid[k]);
                                    } else {
                                        assert(self.topics@[k] == mid[k + 1]);
                                    }
                                }
                            }
                            assert(self@ =~= unsubscribe_model(old(self)@, t@, s@));
                        } else {
                            proof {
                                lemma_assoc_index(nt.entries(), 0);
                                assert(nt.queues().dom().contains(nt.entries()[0].0));
                                assert forall|k: int| 0 <= k < self.topics@.len() implies (#[trigger] self.topics@[k]).wf() by {
                                    if k != i {
                                        assert(self.topics@[k] == old_topics[k]);
                                    }
                                }
                            }
                            assert(self@ =~= unsubscribe_model(old(self)@, t@, s@));
                        }
                    },
                }
            },
        }
    }

    /// Appends `p` to the queue of every subscriber of topic `t`, creating the
    /// topic, with no subscribers, if it is unknown.
    pub fn publish(&mut self, t: &String, p: &String)
        requires
            old(self).wf(),
        ensures
            final(self).wf(),
            final(self)@ == publish_model(old(self)@, t@, p@),
    {
        match self.find(t) {
            Some(i) => {
                proof { self.lemma_topic_at(i as int); }
                let ghost old_topics = self.topics@;
                let topic = &mut self.topics[i];
                topic.push_all(p);
                let ghost nt = *topic;
                proof {
                    Self::lemma_replace_topic(old_topics, i as int, nt);
                    assert forall|k: int| 0 <= k < self.topics@.len() implies (#[trigger] self.topics@[k]).wf() by {
                        if k != i {
                            assert(self.topics@[k] == old_topics[k]);
                        }
                    }
                }
                assert(self@ =~= publish_model(old(self)@, t@, p@));
            },
            None => {
                let nt = Topic { name: t.clone(), subscribers: Vec::new() };
                proof {
                    assert(nt.entries() =~= Seq::empty());
                    assert(nt.queues() =~= Queues::empty());
                }
                let ghost old_topics = self.topics@;
                self.topics.push(nt);
                proof {
                    assert(topic_entries(self.topics@) =~= topic_entries(old_topics).push((t@, nt.queues())));
                    lemma_assoc_push(topic_entries(old_topics), t@, nt.queues());
                    assert forall|k: int| 0 <= k < self.topics@.len() implies (#[trigger] self.topics@[k]).wf() by {
                        if k < old_topics.len() {
                            assert(self.topics@[k] == old_topics[k]);
                        }
                    }
                    let q = queues_in(old(self)@, t@);
                    assert(q =~= Queues::empty());
                    assert(Map::new(|k: Seq<char>| q.contains_key(k), |k: Seq<char>| q[k].push(p@)) =~= nt.queues());
                }
                assert(self@ =~= publish_model(old(self)@, t@, p@));
            },
        }
    }

    /// Takes the front payload of the queue of `s` on topic `t`.
    pub fn take(&mut self, t: &String, s: &String) -> (r: Taken)
        requires
            old(self).wf(),
        ensures
            final(self).wf(),
            r@ == take_result(old(self)@, t@, s@),
            final(self)@ == take_model(old(self)@, t@, s@),
    {
        match self.find(t) {
            None => Taken::NotFound,
            Some(i) => {
                proof { self.lemma_topic_at(i as int); }
                match self.topics[i].find(s) {
                    None => Taken::NotSubscribed,
                    Some(j) => {
                        let ghost old_topics = self.topics@;
                        let topic = &mut self.topics[i];
                        let front = topic.pop_at(j);
                        let ghost nt = *topic;
                        proof {
                            Self::lemma_replace_topic(old_topics, i as int, nt);
                            assert forall|k: int| 0 <= k < self.topics@.len() implies (#[trigger] self.topics@[k]).wf() by {
                                if k != i {
                                    assert(self.topics@[k] == old_topics[k]);
                                }
                            }
                        }
                        match front {
                            None => {
                                assert(self@ =~= old(self)@);
                                Taken::Empty
                            },
                            Some(v) => {
                                assert(self@ =~= take_model(old(self)@, t@, s@));
                                Taken::Value(v)
                            },
                        }
                    },
                }
            },
        }
    }

    /// Puts `p` back at the front of the queue of `s` on topic `t`, after a
    /// delivery of it failed; nothing changes if `s` is not registered there.
    pub fn requeue(&mut self, t: &String, s: &String, p: String)
        requires
            old(self).wf(),
        ensures
            final(self).wf(),
            final(self)@ == requeue_model(old(self)@, t@, s@, p@),
    {
        match self.find(t) {
            None => {},
            Some(i) => {
                proof { self.lemma_topic_at(i as int); }
                match self.topics[i].find(s) {
                    None => {},
                    Some(j) => {
                        let ghost old_topics = self.topics@;
                        let topic = &mut self.topics[i];
                        topic.push_front_at(j, p);
                        let ghost nt = *topic;
                        proof {
                            Self::lemma_replace_topic(old_topics, i as int, nt);
                            assert forall|k: int| 0 <= k < self.topics@.len() implies (#[trigger] self.topics@[k]).wf() by {
                                if k != i {
                                    assert(self.topics@[k] == old_topics[k]);
                                }
                            }
                        }
                        assert(self@ =~= requeue_model(old(self)@, t@, s@, p@));
                    },
                }
            },
        }
    }
    /// The registry as plain values: each topic with each subscriber's queue,
    /// front first.
    pub fn to_snapshot(&self) -> (r: Vec<TopicSnapshot>)
        requires
            self.wf(),
        ensures
            snapshot_valid(r@),
            snapshot_model(r@) == self@,
    {
        let mut r: Vec<TopicSnapshot> = Vec::new();
        let mut i: usize = 0;
        while i < self.topics.len()
            invariant
                i <= self.topics@.len(),
                r@.len() == i,
                forall|k: int| 0 <= k < i ==> (#[trigger] r@[k]).0@ == self.topics@[k].name@
                    && queue_entries(r@[k].1@) == self.topics@[k].entries(),
            decreases self.topics@.len() - i,
        {
            let topic = &self.topics[i];
            let subs = topic.to_snapshot();
            r.push((topic.name.clone(), subs));
            i = i + 1;
        }
        proof {
            assert(snapshot_entries(r@) =~= topic_entries(self.topics@));
            assert forall|k: int| 0 <= k < r@.len() implies keys_unique(queue_entries((#[trigger] r@[k]).1@)) by {
                assert(self.topics@[k].wf());
            }
        }
        r
    }

    /// The registry that a snapshot describes; none when the snapshot lists a
    /// topic twice, or a subscriber twice under one topic.
    pub fn from_snapshot(v: &Vec<TopicSnapshot>) -> (r: Option<TopicRegistry>)
        ensures
            r is Some <==> snapshot_valid(v@),
            r matches Some(g) ==> g.wf() && g@ == snapshot_model(v@),
    {
        let mut g = TopicRegistry { topics: Vec::new() };
        let ghost e = snapshot_entries(v@);
        let mut i: usize = 0;
        proof {
            assert(topic_entries(g.topics@) =~= e.subrange(0, 0));
        }
        while i < v.len()
            invariant
                e == snapshot_entries(v@),
                i <= v@.len(),
                g.wf(),
                g.topics@.len() == i,
                topic_entries(g.topics@) == e.subrange(0, i as int),
                forall|k: int| 0 <= k < i ==> (#[trigger] g.topics@[k]).entries() == queue_entries(v@[k].1@),
            decreases v@.len() - i,
        {
            match g.find(&v[i].0) {
                Some(k) => {
                    proof {
                        assert(topic_entries(g.topics@)[k as int] == e[k as int]);
                        assert(e[k as int].0 == e[i as int].0);
                    }
                    return None;
                },
                None => {},
            }
            let topic = match Topic::from_snapshot(&v[i].0, &v[i].1) {
                Some(t) => t,
                None => {
                    return None;
                },
            };
            let ghost before = g.topics@;
            proof {
                assert(topic.queues() == e[i as int].1);
            }
            g.topics.push(topic);
            proof {
                assert(topic_entries(g.topics@) =~= topic_entries(before).push(e[i as int]));
                lemma_assoc_push(topic_entries(before), e[i as int].0, e[i as int].1);
                assert(topic_entries(g.topics@) =~= e.subrange(0, i + 1));
                assert forall|k: int| 0 <= k < g.topics@.len() implies (#[trigger] g.topics@[k]).wf() by {
                    if k < before.len() {
                        assert(g.topics@[k] == before[k]);
                    }
                }
                assert forall|k: int| 0 <= k < i + 1 implies (#[trigger] g.topics@[k]).entries() == queue_entries(v@[k].1@) by {
                    if k < before.len() {
                        assert(g.topics@[k] == before[k]);
                    }
                }
            }
            i = i + 1;
        }
        proof {
            assert(e =~= e.subrange(0, i as int));
            assert forall|k: int| 0 <= k < v@.len() implies keys_unique(queue_entries((#[trigger] v@[k]).1@)) by {
                assert(g.topics@[k].wf());
            }
        }
        Some(g)
    }
}

} // verus!
