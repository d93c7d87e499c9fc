//! Properties that relate several operations of the broker.
use vstd::prelude::*;
use crate::broker::{BrokerModel, Outcome, Snapshot, handled, checkpoint_of, restored};
use crate::protocol::{Command, command_of, scan, trimmed, keyword, field, open_at, close_at, topic_of};
use crate::registry::{TopicsModel, Lookup, subscribe_model, publish_model, take_result, take_model,
    requeue_model};

verus! {

/// Taking from a topic right after subscribing to it finds the queue empty,
/// unless the subscriber already had payloads queued there; in particular it
/// never finds the topic unknown or the subscriber unregistered.
pub proof fn law_subscribe_then_take(m: TopicsModel, t: Seq<char>, s: Seq<char>)
    requires
        !(m.contains_key(t) && m[t].contains_key(s) && m[t][s].len() > 0),
    ensures
        take_result(subscribe_model(m, t, s), t, s) == Lookup::Empty,
{
}

/// Two payloads published to a topic are taken by a subscriber whose queue
/// there was empty in the order in which they were published.
pub proof fn law_fifo(m: TopicsModel, t: Seq<char>, s: Seq<char>, p1: Seq<char>, p2: Seq<char>)
    requires
        m.contains_key(t),
        m[t].contains_key(s),
        m[t][s].len() == 0,
    ensures
        ({
            let m2 = publish_model(publish_model(m, t, p1), t, p2);
            &&& take_result(m2, t, s) == Lookup::Front(p1)
            &&& take_result(take_model(m2, t, s), t, s) == Lookup::Front(p2)
        }),
{
    let m2 = publish_model(publish_model(m, t, p1), t, p2);
    assert(m2[t][s] =~= seq![p1, p2]);
    assert(take_model(m2, t, s)[t][s] =~= seq![p2]);
}

/// Subscribing twice leaves the same registry as subscribing once.
pub proof fn law_subscribe_idempotent(m: TopicsModel, t: Seq<char>, s: Seq<char>)
    ensures
        subscribe_model(subscribe_model(m, t, s), t, s) == subscribe_model(m, t, s),
{
    let m1 = subscribe_model(m, t, s);
    assert(subscribe_model(m1, t, s) =~= m1);
}

/// A subscriber that waits on a topic, and is still registered there, gets
/// exactly one delivery when a payload is published to that topic. If that
/// delivery fails and is handed back, the subscriber's queue is again what
/// the publish left, with the delivered payload at its front, so the next
/// take offers it again.
pub proof fn law_at_least_once(
    pre: BrokerModel,
    post: BrokerModel,
    sender: Seq<char>,
    t: Seq<char>,
    p: Seq<char>,
    s: Seq<char>,
    out: Outcome,
)
    requires
        handled(pre, post, sender, Command::Put(t, p), out),
        pre.1.contains((t, s)),
        pre.0.contains_key(t),
        pre.0[t].contains_key(s),
    ensures
        ({
            let q = publish_model(pre.0, t, p)[t][s];
            let ds = out.deliveries@;
            exists|j: int|
                0 <= j < ds.len() && (#[trigger] ds[j]).subscriber@ == s && ds[j].topic@ == t
                    && ds[j].payload@ == q[0]
                    && (forall|i: int| 0 <= i < ds.len() && (#[trigger] ds[i]).subscriber@ == s ==> i == j)
                    && post.0[t][s] == q.drop_first()
                    && requeue_model(post.0, t, s, ds[j].payload@)[t][s] == q
                    && take_result(requeue_model(post.0, t, s, ds[j].payload@), t, s) == Lookup::Front(ds[j].payload@)
        }),
        !post.1.contains((t, s)),
{
    let m1 = publish_model(pre.0, t, p);
    let q = m1[t][s];
    let ds = out.deliveries@;
    assert(m1[t].contains_key(s));
    let j = choose|j: int| 0 <= j < ds.len() && (#[trigger] ds[j]).subscriber@ == s;
    assert(q.len() > 0);
    let r = requeue_model(post.0, t, s, ds[j].payload@);
    assert(r[t][s] =~= q);
}

/// Restoring a snapshot taken of a broker state gives back that state
/// exactly: every topic, every subscriber, every queue in order, and every
/// wait.
pub proof fn law_snapshot_round_trip(b: BrokerModel, s: Snapshot, r: Option<BrokerModel>)
    requires
        checkpoint_of(s, b),
        restored(s, r),
    ensures
        r == Some(b),
{
}

/// No position in `[i, j)` of `s` holds `c`, so scanning from `i` goes on
/// from `j`.
proof fn lemma_scan_skip(s: Seq<char>, c: char, i: nat, j: nat)
    requires
        i <= j <= s.len(),
        forall|k: int| i <= k < j ==> s[k] != c,
    ensures
        scan(s, c, i) == scan(s, c, j),
    decreases j - i,
{
    if i < j {
        lemma_scan_skip(s, c, i + 1, j);
    }
}

/// `kw`, a space, then `[<topic>]` and `rest`: the keyword is `kw` and the
/// topic is `t`, when `kw` has no space and `t` no `]`.
proof fn lemma_request_shape(kw: Seq<char>, t: Seq<char>, rest: Seq<char>)
    requires
        forall|k: int| 0 <= k < kw.len() ==> kw[k] != ' ',
        forall|k: int| 0 <= k < t.len() ==> t[k] != ']',
    ensures
        ({
            let s = kw + " ["@ + t + "]"@ + rest;
            let f = field(s);
            &&& keyword(s) == kw
            &&& f == "["@ + t + "]"@ + rest
            &&& open_at(f) == 0
            &&& close_at(f) == t.len() + 1
            &&& topic_of(f) == t
        }),
{
    reveal_strlit(" [");
    reveal_strlit("[");
    reveal_strlit("]");
    let s = kw + " ["@ + t + "]"@ + rest;
    lemma_scan_skip(s, ' ', 0, kw.len());
    assert(s[kw.len() as int] == ' ');
    assert(scan(s, ' ', kw.len()) == kw.len());
    assert(keyword(s) =~= kw);
    let f = field(s);
    assert(f =~= "["@ + t + "]"@ + rest);
    assert(f[0] == '[');
    assert(open_at(f) == 0);
    lemma_scan_skip(f, ']', 1, t.len() + 1);
    assert(f[t.len() + 1 as int] == ']');
    assert(scan(f, ']', (t.len() + 1) as nat) == t.len() + 1);
    assert(topic_of(f) =~= t);
}

proof fn lemma_sub_round_trip(t: Seq<char>)
    requires
        t.len() > 0,
        forall|k: int| 0 <= k < t.len() ==> t[k] != ']',
    ensures
        command_of("SUB ["@ + t + "]"@) == Command::Sub(t),
{
    reveal_strlit("SUB [");
    reveal_strlit(" [");
    reveal_strlit("SUB");
    reveal_strlit("ONLINE");
    let kw = "SUB"@;
    lemma_request_shape(kw, t, Seq::empty());
    assert("SUB ["@ + t + "]"@ =~= kw + " ["@ + t + "]"@ + Seq::empty());
}

proof fn lemma_unsub_round_trip(t: Seq<char>)
    requires
        t.len() > 0,
        forall|k: int| 0 <= k < t.len() ==> t[k] != ']',
    ensures
        command_of("UNSUB ["@ + t + "]"@) == Command::Unsub(t),
{
    reveal_strlit("UNSUB [");
    reveal_strlit(" [");
    reveal_strlit("UNSUB");
    reveal_strlit("SUB");
    reveal_strlit("ONLINE");
    let kw = "UNSUB"@;
    lemma_request_shape(kw, t, Seq::empty());
    assert("UNSUB ["@ + t + "]"@ =~= kw + " ["@ + t + "]"@ + Seq::empty());
}

proof fn lemma_get_round_trip(t: Seq<char>)
    requires
        t.len() > 0,
        forall|k: int| 0 <= k < t.len() ==> t[k] != ']',
    ensures
        command_of("GET ["@ + t + "]"@) == Command::Get(t),
{
    reveal_strlit("GET [");
    reveal_strlit(" [");
    reveal_strlit("GET");
    reveal_strlit("SUB");
    reveal_strlit("UNSUB");
    reveal_strlit("ONLINE");
    let kw = "GET"@;
    lemma_request_shape(kw, t, Seq::empty());
    assert("GET ["@ + t + "]"@ =~= kw + " ["@ + t + "]"@ + Seq::empty());
    assert(kw[0] != "SUB"@[0]);
}

proof fn lemma_put_round_trip(t: Seq<char>, v: Seq<char>)
    requires
        t.len() > 0,
        forall|k: int| 0 <= k < t.len() ==> t[k] != ']',
    ensures
        command_of("PUT ["@ + t + "] "@ + v) == Command::Put(t, trimmed(" "@ + v)),
{
    reveal_strlit("PUT [");
    reveal_strlit("] ");
    reveal_strlit(" [");
    reveal_strlit("]");
    reveal_strlit(" ");
    reveal_strlit("PUT");
    reveal_strlit("GET");
    reveal_strlit("SUB");
    reveal_strlit("UNSUB");
    reveal_strlit("ONLINE");
    let kw = "PUT"@;
    let rest = " "@ + v;
    lemma_request_shape(kw, t, rest);
    let s = "PUT ["@ + t + "] "@ + v;
    assert(s =~= kw + " ["@ + t + "]"@ + rest);
    assert(kw[0] != "SUB"@[0]);
    assert(kw[0] != "GET"@[0]);
    let f = field(s);
    assert(f.subrange(close_at(f) + 1 as int, f.len() as int) =~= rest);
}

/// A request formatted by the client for a non-empty topic without `]` is
/// parsed by the broker back into the same command and topic; a `PUT` keeps
/// the value, trimmed.
pub proof fn law_request_round_trip(t: Seq<char>, v: Seq<char>)
    requires
        t.len() > 0,
        forall|k: int| 0 <= k < t.len() ==> t[k] != ']',
    ensures
        command_of("SUB ["@ + t + "]"@) == Command::Sub(t),
        command_of("UNSUB ["@ + t + "]"@) == Command::Unsub(t),
        command_of("GET ["@ + t + "]"@) == Command::Get(t),
        command_of("PUT ["@ + t + "] "@ + v) == Command::Put(t, trimmed(" "@ + v)),
{
    lemma_sub_round_trip(t);
    lemma_unsub_round_trip(t);
    lemma_get_round_trip(t);
    lemma_put_round_trip(t, v);
}

} // verus!
