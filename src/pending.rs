//! The tracker of deferred GET requests: which subscriber waits on which topic.
use vstd::prelude::*;

verus! {

/// A (topic, subscriber) pair of waiting requests.
pub type WaitKey = (Seq<char>, Seq<char>);

/// The waits that are not on topic `t`.
pub open spec fn without_topic(w: Set<WaitKey>, t: Seq<char>) -> Set<WaitKey> {
    w.filter(|k: WaitKey| k.0 != t)
}

/// The waits that are not of subscriber `s`.
pub open spec fn without_subscriber(w: Set<WaitKey>, s: Seq<char>) -> Set<WaitKey> {
    w.filter(|k: WaitKey| k.1 != s)
}

/// The subscribers waiting on topic `t`.
pub open spec fn waiting_on(w: Set<WaitKey>, t: Seq<char>) -> Set<Seq<char>> {
    Set::new(|s: Seq<char>| w.contains((t, s)))
}

/// The pair that a (topic, subscriber) entry stands for.
pub open spec fn key_of(p: (String, String)) -> WaitKey {
    (p.0@, p.1@)
}

/// The pairs of a list of (topic, subscriber) pairs.
pub open spec fn wait_keys(v: Seq<(String, String)>) -> Set<WaitKey> {
    Set::new(|k: WaitKey| exists|i: int| 0 <= i < v.len() && #[trigger] key_of(v[i]) == k)
}

spec fn keys_in(v: Seq<(String, String)>, n: int) -> Set<WaitKey> {
    Set::new(|k: WaitKey| exists|i: int| 0 <= i < n && #[trigger] key_of(v[i]) == k)
}

/// The deferred GET requests.
pub struct PendingTracker {
    waits: Vec<(String, String)>,
}

impl View for PendingTracker {
    type V = Set<WaitKey>;

    closed spec fn view(&self) -> Set<WaitKey> {
        keys_in(self.waits@, self.waits@.len() as int)
    }
}

impl PendingTracker {
    /// No pair is recorded twice.
    pub closed spec fn wf(&self) -> bool {
        forall|i: int, j: int|
            0 <= i < self.waits@.len() && 0 <= j < self.waits@.len() && i != j ==> key_of(
                #[trigger] self.waits@[i],
            ) != key_of(#[trigger] self.waits@[j])
    }

    /// No request is waiting.
    pub fn new() -> (r: PendingTracker)
        ensures
            r.wf(),
            r@ == Set::<WaitKey>::empty(),
    {
        let r = PendingTracker { waits: Vec::new() };
        assert(r@ =~= Set::<WaitKey>::empty());
        r
    }

    /// Whether `s` waits on `t`.
    pub fn contains(&self, t: &String, s: &String) -> (r: bool)
        ensures
            r == self@.contains((t@, s@)),
    {
        let mut i: usize = 0;
        while i < self.waits.len()
            invariant
                i <= self.waits@.len(),
                forall|k: int| 0 <= k < i ==> key_of(#[trigger] self.waits@[k]) != (t@, s@),
            decreases self.waits@.len() - i,
        {
            if self.waits[i].0 == *t && self.waits[i].1 == *s {
                assert(key_of(self.waits@[i as int]) == (t@, s@));
                return true;
            }
            i = i + 1;
        }
        false
    }

    /// Records that `s` waits on `t`: its GET found an empty queue.
    pub fn add_pending_request(&mut self, t: &String, s: &String)
        requires
            old(self).wf(),
        ensures
            final(self).wf(),
            final(self)@ == old(self)@.insert((t@, s@)),
    {
        if self.contains(t, s) {
            assert(self@ =~= old(self)@.insert((t@, s@)));
        } else {
            let ghost old_v = self.waits@;
            self.waits.push((t.clone(), s.clone()));
            proof {
                assert forall|k: WaitKey| #[trigger] self@.contains(k) == old(self)@.insert((t@, s@)).contains(k) by {
                    if self@.contains(k) {
                        let i = choose|i: int| 0 <= i < self.waits@.len() && #[trigger] key_of(self.waits@[i]) == k;
                        if i < old_v.len() {
                            assert(self.waits@[i] == old_v[i]);
                        }
                    }
                    if old(self)@.contains(k) {
                        let i = choose|i: int| 0 <= i < old_v.len() && #[trigger] key_of(old_v[i]) == k;
                        assert(self.waits@[i] == old_v[i]);
                    }
                    if k == (t@, s@) {
                        assert(key_of(self.waits@[old_v.len() as int]) == k);
                    }
                }
                assert(self@ =~= old(self)@.insert((t@, s@)));
                assert forall|i: int, j: int|
                    0 <= i < self.waits@.len() && 0 <= j < self.waits@.len() && i != j implies key_of(
                        #[trigger] self.waits@[i],
                    ) != key_of(#[trigger] self.waits@[j]) by {
                    if i < old_v.len() {
                        assert(self.waits@[i] == old_v[i]);
                    }
                    if j < old_v.len() {
                        assert(self.waits@[j] == old_v[j]);
                    }
                }
            }
        }
    }

    /// Removes the wait of `s` on `t`, without delivering anything.
    pub fn clear(&mut self, t: &String, s: &String)
        requires
            old(self).wf(),
        ensures
            final(self).wf(),
            final(self)@ == old(self)@.remove((t@, s@)),
    {
        let _ = self.retain_unmatched(Some(t), Some(s));
        assert(self@ =~= old(self)@.remove((t@, s@)));
    }

    /// Removes every wait of `s`, on all topics.
    pub fn clear_subscriber(&mut self, s: &String)
        requires
            old(self).wf(),
        ensures
            final(self).wf(),
            final(self)@ == without_subscriber(old(self)@, s@),
    {
        let _ = self.retain_unmatched(None, Some(s));
        assert(self@ =~= without_subscriber(old(self)@, s@));
    }

    /// Removes every wait on `t` and returns the subscribers that waited,
    /// each once.
    pub fn take_waiting(&mut self, t: &String) -> (r: Vec<String>)
        requires
            old(self).wf(),
        ensures
            final(self).wf(),
            final(self)@ == without_topic(old(self)@, t@),
            forall|a: int, b: int|
                0 <= a < r@.len() && 0 <= b < r@.len() && a != b ==> (#[trigger] r@[a])@ != (#[trigger] r@[b])@,
            forall|a: int| 0 <= a < r@.len() ==> old(self)@.contains((t@, (#[trigger] r@[a])@)),
            forall|x: Seq<char>| #[trigger] old(self)@.contains((t@, x)) ==> exists|a: int| 0 <= a < r@.len() && (#[trigger] r@[a])@ == x,
    {
        let removed = self.retain_unmatched(Some(t), None);
        assert(self@ =~= without_topic(old(self)@, t@));
        let ghost hits = old(self)@.filter(|k: WaitKey| matches_pattern(k, Some(t@), None));
        let mut r: Vec<String> = Vec::new();
        let mut i: usize = 0;
        while i < removed.len()
            invariant
                i <= removed@.len(),
                r@.len() == i,
                forall|a: int| 0 <= a < i ==> (#[trigger] r@[a]) == removed@[a].1,
            decreases removed@.len() - i,
        {
            r.push(removed[i].1.clone());
            i = i + 1;
        }
        proof {
            assert forall|a: int| 0 <= a < removed@.len() implies old(self)@.contains(#[trigger] key_of(removed@[a]))
                && key_of(removed@[a]).0 == t@ by {
                assert(keys_in(removed@, removed@.len() as int).contains(key_of(removed@[a])));
            }
            assert forall|a: int| 0 <= a < r@.len() implies old(self)@.contains((t@, (#[trigger] r@[a])@)) by {
                assert(old(self)@.contains(key_of(removed@[a])));
                assert(key_of(removed@[a]) == (t@, r@[a]@));
            }
            assert forall|a: int, b: int|
                0 <= a < r@.len() && 0 <= b < r@.len() && a != b implies (#[trigger] r@[a])@ != (#[trigger] r@[b])@ by {
                assert(old(self)@.contains(key_of(removed@[a])));
                assert(old(self)@.contains(key_of(removed@[b])));
                assert(key_of(removed@[a]) != key_of(removed@[b]));
            }
            assert forall|x: Seq<char>| #[trigger] old(self)@.contains((t@, x)) implies exists|a: int| 0 <= a < r@.len() && (#[trigger] r@[a])@ == x by {
                assert(hits.contains((t@, x)));
                assert(keys_in(removed@, removed@.len() as int).contains((t@, x)));
                let a = choose|a: int| 0 <= a < removed@.len() && #[trigger] key_of(removed@[a]) == (t@, x);
                assert(r@[a]@ == x);
            }
        }
        r
    }

    /// The recorded waits as (topic, subscriber) pairs, each once.
    pub fn to_snapshot(&self) -> (r: Vec<(String, String)>)
        requires
            self.wf(),
        ensures
            wait_keys(r@) == self@,
            forall|a: int, b: int|
                0 <= a < r@.len() && 0 <= b < r@.len() && a != b ==> key_of(#[trigger] r@[a]) != key_of(#[trigger] r@[b]),
    {
        let mut r: Vec<(String, String)> = Vec::new();
        let mut i: usize = 0;
        while i < self.waits.len()
            invariant
                i <= self.waits@.len(),
                r@ == self.waits@.subrange(0, i as int),
            decreases self.waits@.len() - i,
        {
            r.push((self.waits[i].0.clone(), self.waits[i].1.clone()));
            proof {
                assert(r@ =~= self.waits@.subrange(0, i + 1));
            }
            i = i + 1;
        }
        assert(r@ =~= self.waits@);
        assert(wait_keys(r@) =~= self@);
        r
    }

    /// A tracker holding the given (topic, subscriber) pairs; a pair given
    /// twice is recorded once.
    pub fn from_snapshot(pairs: &Vec<(String, String)>) -> (r: PendingTracker)
        ensures
            r.wf(),
            r@ == wait_keys(pairs@),
    {
        let mut r = PendingTracker::new();
        let mut i: usize = 0;
        while i < pairs.len()
            invariant
                i <= pairs@.len(),
                r.wf(),
                r@ == keys_in(pairs@, i as int),
            decreases pairs@.len() - i,
        {
            r.add_pending_request(&pairs[i].0, &pairs[i].1);
            proof {
                assert forall|k: WaitKey| #[trigger] keys_in(pairs@, i + 1).contains(k) == keys_in(pairs@, i as int).insert(key_of(pairs@[i as int])).contains(k) by {
                    if keys_in(pairs@, i + 1).contains(k) {
                        let m = choose|m: int| 0 <= m < i + 1 && #[trigger] key_of(pairs@[m]) == k;
                        if m < i {
                            assert(keys_in(pairs@, i as int).contains(k));
                        }
                    }
                    if keys_in(pairs@, i as int).contains(k) {
                        let m = choose|m: int| 0 <= m < i && #[trigger] key_of(pairs@[m]) == k;
                        assert(keys_in(pairs@, i + 1).contains(k));
                    }
                }
                assert(r@ =~= keys_in(pairs@, i + 1));
            }
            i = i + 1;
        }
        assert(r@ =~= wait_keys(pairs@));
        r
    }

    /// Keeps the pairs that do not match the pattern and returns those that
    /// do.
    fn retain_unmatched(&mut self, t: Option<&String>, s: Option<&String>) -> (removed: Vec<(String, String)>)
        requires
            old(self).wf(),
        ensures
            final(self).wf(),
            final(self)@ == old(self)@.filter(|k: WaitKey| !matches_pattern(k, opt_view(t), opt_view(s))),
            forall|i: int, j: int|
                0 <= i < removed@.len() && 0 <= j < removed@.len() && i != j ==> key_of(
                    #[trigger] removed@[i],
                ) != key_of(#[trigger] removed@[j]),
            keys_in(removed@, removed@.len() as int) == old(self)@.filter(
                |k: WaitKey| matches_pattern(k, opt_view(t), opt_view(s)),
            ),
    {
        let ghost ot = opt_view(t);
        let ghost os = opt_view(s);
        let ghost old_v = self.waits@;
        let mut kept: Vec<(String, String)> = Vec::new();
        let mut removed: Vec<(String, String)> = Vec::new();
        let mut i: usize = 0;
        let n = self.waits.len();
        while i < n
            invariant
                n == self.waits@.len(),
                ot == opt_view(t),
                os == opt_view(s),
                self.waits@ == old_v,
                old(self).waits@ == old_v,
                old(self).wf(),
                i <= n,
                forall|a: int, b: int|
                    0 <= a < kept@.len() && 0 <= b < kept@.len() && a != b ==> key_of(
                        #[trigger] kept@[a],
                    ) != key_of(#[trigger] kept@[b]),
                forall|a: int, b: int|
                    0 <= a < removed@.len() && 0 <= b < removed@.len() && a != b ==> key_of(
                        #[trigger] removed@[a],
                    ) != key_of(#[trigger] removed@[b]),
                forall|a: int| 0 <= a < kept@.len() ==> exists|m: int| 0 <= m < i && #[trigger] key_of(old_v[m]) == key_of(#[trigger] kept@[a]),
                forall|a: int| 0 <= a < removed@.len() ==> exists|m: int| 0 <= m < i && #[trigger] key_of(old_v[m]) == key_of(#[trigger] removed@[a]),
                keys_in(kept@, kept@.len() as int) == keys_in(old_v, i as int).filter(|k: WaitKey| !matches_pattern(k, ot, os)),
                keys_in(removed@, removed@.len() as int) == keys_in(old_v, i as int).filter(|k: WaitKey| matches_pattern(k, ot, os)),
            decreases n - i,
        {
            let topic_hit = match t {
                Some(tt) => self.waits[i].0 == *tt,
                None => true,
            };
            let subscriber_hit = match s {
                Some(ss) => self.waits[i].1 == *ss,
                None => true,
            };
            let hit = topic_hit && subscriber_hit;
            let pair = (self.waits[i].0.clone(), self.waits[i].1.clone());
            assert(key_of(pair) == key_of(old_v[i as int]));
            assert(hit == matches_pattern(key_of(pair), ot, os));
            let ghost kept_before = kept@;
            let ghost removed_before = removed@;
            proof {
                assert forall|a: int| 0 <= a < kept_before.len() implies key_of(#[trigger] kept_before[a]) != key_of(pair) by {
                    let m = choose|m: int| 0 <= m < i && #[trigger] key_of(old_v[m]) == key_of(kept_before[a]);
                    assert(old(self).waits@[m] == old_v[m]);
                }
                assert forall|a: int| 0 <= a < removed_before.len() implies key_of(#[trigger] removed_before[a]) != key_of(pair) by {
                    let m = choose|m: int| 0 <= m < i && #[trigger] key_of(old_v[m]) == key_of(removed_before[a]);
                    assert(old(self).waits@[m] == old_v[m]);
                }
            }
            if hit {
                removed.push(pair);
            } else {
                kept.push(pair);
            }
            proof {
                let ni = i + 1;
                assert forall|k: WaitKey| #[trigger] keys_in(old_v, ni).contains(k) == (keys_in(old_v, i as int).contains(k) || k == key_of(pair)) by {
                    if keys_in(old_v, ni).contains(k) {
                        let m = choose|m: int| 0 <= m < ni && #[trigger] key_of(old_v[m]) == k;
                        if m < i {
                            assert(keys_in(old_v, i as int).contains(k));
                        }
                    }
                    if keys_in(old_v, i as int).contains(k) {
                        let m = choose|m: int| 0 <= m < i && #[trigger] key_of(old_v[m]) == k;
                        assert(keys_in(old_v, ni).contains(k));
                    }
                }
                lemma_keys_push(kept_before, if hit { kept_before } else { kept@ }, pair, hit);
                lemma_keys_push(removed_before, if hit { removed@ } else { removed_before }, pair, !hit);
                assert(keys_in(kept@, kept@.len() as int) =~= keys_in(old_v, ni).filter(|k: WaitKey| !matches_pattern(k, ot, os)));
                assert(keys_in(removed@, removed@.len() as int) =~= keys_in(old_v, ni).filter(|k: WaitKey| matches_pattern(k, ot, os)));
                assert forall|a: int| 0 <= a < kept@.len() implies exists|m: int| 0 <= m < ni && #[trigger] key_of(old_v[m]) == key_of(#[trigger] kept@[a]) by {
                    if a < kept_before.len() {
                        assert(kept@[a] == kept_before[a]);
                        let m = choose|m: int| 0 <= m < i && #[trigger] key_of(old_v[m]) == key_of(kept_before[a]);
                        assert(key_of(old_v[m]) == key_of(kept@[a]));
                    } else {
                        assert(key_of(old_v[i as int]) == key_of(kept@[a]));
                    }
                }
                assert forall|a: int| 0 <= a < removed@.len() implies exists|m: int| 0 <= m < ni && #[trigger] key_of(old_v[m]) == key_of(#[trigger] removed@[a]) by {
                    if a < removed_before.len() {
                        assert(removed@[a] == removed_before[a]);
                        let m = choose|m: int| 0 <= m < i && #[trigger] key_of(old_v[m]) == key_of(removed_before[a]);
                        assert(key_of(old_v[m]) == key_of(removed@[a]));
                    } else {
                        assert(key_of(old_v[i as int]) == key_of(removed@[a]));
                    }
                }
                assert forall|a: int, b: int|
                    0 <= a < kept@.len() && 0 <= b < kept@.len() && a != b implies key_of(
                        #[trigger] kept@[a],
                    ) != key_of(#[trigger] kept@[b]) by {
                    if a < kept_before.len() { assert(kept@[a] == kept_before[a]); }
                    if b < kept_before.len() { assert(kept@[b] == kept_before[b]); }
                }
                assert forall|a: int, b: int|
                    0 <= a < removed@.len() && 0 <= b < removed@.len() && a != b implies key_of(
                        #[trigger] removed@[a],
                    ) != key_of(#[trigger] removed@[b]) by {
                    if a < removed_before.len() { assert(removed@[a] == removed_before[a]); }
                    if b < removed_before.len() { assert(removed@[b] == removed_before[b]); }
                }
            }
            i = i + 1;
        }
        self.waits = kept;
        removed
    }
}

/// Whether a pair matches a pattern; an absent component matches anything.
pub open spec fn matches_pattern(k: WaitKey, t: Option<Seq<char>>, s: Option<Seq<char>>) -> bool {
    &&& (t matches Some(tt) ==> k.0 == tt)
    &&& (s matches Some(ss) ==> k.1 == ss)
}

pub open spec fn opt_view(o: Option<&String>) -> Option<Seq<char>> {
    match o {
        Some(x) => Some(x@),
        None => None,
    }
}

/// Pushing `p` onto `before` (unless `same`) adds its key to the keys.
proof fn lemma_keys_push(before: Seq<(String, String)>, after: Seq<(String, String)>, p: (String, String), same: bool)
    requires
        same ==> after == before,
        !same ==> after == before.push(p),
    ensures
        same ==> keys_in(after, after.len() as int) == keys_in(before, before.len() as int),
        !same ==> keys_in(after, after.len() as int) == keys_in(before, before.len() as int).insert(key_of(p)),
{
    if !same {
        assert forall|k: WaitKey| #[trigger] keys_in(after, after.len() as int).contains(k) == keys_in(before, before.len() as int).insert(key_of(p)).contains(k) by {
            if keys_in(after, after.len() as int).contains(k) {
                let m = choose|m: int| 0 <= m < after.len() && #[trigger] key_of(after[m]) == k;
                if m < before.len() {
                    assert(after[m] == before[m]);
                }
            }
            if keys_in(before, before.len() as int).contains(k) {
                let m = choose|m: int| 0 <= m < before.len() && #[trigger] key_of(before[m]) == k;
                assert(after[m] == before[m]);
            }
            if k == key_of(p) {
                assert(after[before.len() as int] == p);
            }
        }
        assert(keys_in(after, after.len() as int) =~= keys_in(before, before.len() as int).insert(key_of(p)));
    }
}

} // verus!
