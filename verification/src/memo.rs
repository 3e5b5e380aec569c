//! Lazy LRU over hashed keys. Dropping an entry only forces a recompute of
//! a pure function, so eviction is always sound.
//!
//! Lazy scheme: every touch pushes (tick, key) onto a queue and bumps the
//! key's current tick; `pop_lru` discards stale queue entries (tick
//! mismatch) until it finds a live minimum. Amortized O(1) per operation.
use vstd::prelude::*;
use std::collections::{HashMap, VecDeque};

verus! {

pub struct Lru {
    tick: u64,
    current: HashMap<u64, u64>,
    queue: VecDeque<(u64, u64)>,
}

impl Lru {
    /// The live keys, each with the stamp of its most recent touch.
    pub closed spec fn view(&self) -> Map<u64, u64> {
        self.current@
    }

    /// Number of touches so far (the stamp the latest touch received).
    pub closed spec fn clock(&self) -> u64 {
        self.tick
    }

    /// Internal consistency: stamps are positive and not in the future, the
    /// queue is ordered by stamp, and every live key's latest stamp is still
    /// queued.
    pub closed spec fn wf(&self) -> bool {
        let q = self.queue@;
        let cur = self.current@;
        &&& forall|k: u64| #[trigger] cur.contains_key(k) ==> 0 < cur[k] <= self.tick
        &&& forall|i: int, j: int| 0 <= i < j < q.len() ==> #[trigger] q[i].0 < #[trigger] q[j].0
        &&& forall|i: int| 0 <= i < q.len() ==> #[trigger] q[i].0 <= self.tick
        &&& forall|k: u64|
            #[trigger] cur.contains_key(k) ==> exists|i: int|
                0 <= i < q.len() && #[trigger] q[i] == (cur[k], k)
    }

    /// Every live stamp is at most the clock, so a fresh touch is the most
    /// recent one.
    pub proof fn lemma_stamps_bounded(&self)
        requires
            self.wf(),
        ensures
            forall|k: u64| #[trigger] self@.contains_key(k) ==> 0 < self@[k] <= self.clock(),
    {
    }

    pub fn new() -> (r: Lru)
        ensures
            r.wf(),
            r@ == Map::<u64, u64>::empty(),
            r.clock() == 0,
    {
        let r = Lru { tick: 0, current: HashMap::new(), queue: VecDeque::new() };
        assert(r.current@ =~= Map::<u64, u64>::empty());
        r
    }

    /// Mark `k` as used now.
    pub fn touch(&mut self, k: &u64)
        requires
            old(self).wf(),
            old(self).clock() < u64::MAX,
        ensures
            final(self).wf(),
            final(self).clock() == old(self).clock() + 1,
            final(self)@ == old(self)@.insert(*k, final(self).clock()),
            forall|j: u64|
                #[trigger] final(self)@.contains_key(j) ==> final(self)@[j] <= final(self)@[*k],
            forall|j: u64|
                #[trigger] final(self)@.contains_key(j) && j != *k ==> final(self)@[j]
                    < final(self)@[*k],
    {
        let ghost q0 = self.queue@;
        let ghost c0 = self.current@;
        self.tick = self.tick + 1;
        let t = self.tick;
        self.current.insert(*k, t);
        self.queue.push_back((t, *k));
        proof {
            let q = self.queue@;
            let cur = self.current@;
            assert(q == q0.push((t, *k)));
            assert forall|j: u64| #[trigger] cur.contains_key(j) implies exists|i: int|
                0 <= i < q.len() && #[trigger] q[i] == (cur[j], j) by {
                if j == *k {
                    assert(q[q.len() - 1] == (cur[j], j));
                } else {
                    assert(c0.contains_key(j));
                    let i = choose|i: int| 0 <= i < q0.len() && #[trigger] q0[i] == (c0[j], j);
                    assert(q[i] == (cur[j], j));
                }
            }
            assert forall|i: int, j: int| 0 <= i < j < q.len() implies #[trigger] q[i].0
                < #[trigger] q[j].0 by {
                if j == q.len() - 1 {
                    assert(q[i] == q0[i]);
                } else {
                    assert(q[i] == q0[i] && q[j] == q0[j]);
                }
            }
            assert forall|i: int| 0 <= i < q.len() implies #[trigger] q[i].0 <= self.tick by {
                if i < q0.len() {
                    assert(q[i] == q0[i]);
                }
            }
        }
    }

    /// Least-recently-used live key, removing it from tracking.
    pub fn pop_lru(&mut self) -> (r: Option<u64>)
        requires
            old(self).wf(),
        ensures
            final(self).wf(),
            final(self).clock() == old(self).clock(),
            match r {
                None => old(self)@.dom().is_empty() && final(self)@ == old(self)@,
                Some(k) => {
                    &&& old(self)@.contains_key(k)
                    &&& forall|j: u64| #[trigger]
                        old(self)@.contains_key(j) ==> old(self)@[k] <= old(self)@[j]
                    &&& final(self)@ == old(self)@.remove(k)
                },
            },
    {
        let ghost c0 = self.current@;
        loop
            invariant
                self.wf(),
                self.current@ == c0,
                self.tick == old(self).tick,
                c0 == old(self).current@,
            decreases self.queue@.len(),
        {
            let ghost q = self.queue@;
            match self.queue.pop_front() {
                None => {
                    proof {
                        assert forall|j: u64| !c0.contains_key(j) by {
                            if c0.contains_key(j) {
                                let i = choose|i: int|
                                    0 <= i < q.len() && #[trigger] q[i] == (c0[j], j);
                            }
                        }
                        assert(c0.dom() =~= Set::<u64>::empty());
                    }
                    return None;
                },
                Some(entry) => {
                    let (t, k) = entry;
                    let live = match self.current.get(&k) {
                        Some(c) => *c == t,
                        None => false,
                    };
                    let ghost rest = self.queue@;
                    proof {
                        assert(rest =~= q.subrange(1, q.len() as int));
                        assert forall|i: int, j: int| 0 <= i < j < rest.len() implies #[trigger] rest[i].0
                            < #[trigger] rest[j].0 by {
                            assert(rest[i] == q[i + 1] && rest[j] == q[j + 1]);
                        }
                        assert forall|i: int| 0 <= i < rest.len() implies #[trigger] rest[i].0
                            <= self.tick by {
                            assert(rest[i] == q[i + 1]);
                        }
                    }
                    if live {
                        self.current.remove(&k);
                        proof {
                            let cur = self.current@;
                            assert(cur == c0.remove(k));
                            assert forall|j: u64| #[trigger] c0.contains_key(j) implies c0[k]
                                <= c0[j] by {
                                let i = choose|i: int|
                                    0 <= i < q.len() && #[trigger] q[i] == (c0[j], j);
                                if i > 0 {
                                    assert(q[0].0 < q[i].0);
                                }
                            }
                            assert forall|j: u64| #[trigger] cur.contains_key(j) implies exists|i: int|
                                0 <= i < rest.len() && #[trigger] rest[i] == (cur[j], j) by {
                                let i = choose|i: int|
                                    0 <= i < q.len() && #[trigger] q[i] == (c0[j], j);
                                assert(i != 0);
                                assert(rest[i - 1] == (cur[j], j));
                            }
                            assert forall|j: u64| #[trigger] cur.contains_key(j) implies 0 < cur[j]
                                <= self.tick by {
                                assert(c0.contains_key(j));
                            }
                            assert(self.queue@ == rest);
                            assert(self.wf());
                        }
                        return Some(k);
                    }
                    proof {
                        let cur = self.current@;
                        assert forall|j: u64| #[trigger] cur.contains_key(j) implies exists|i: int|
                            0 <= i < rest.len() && #[trigger] rest[i] == (cur[j], j) by {
                            let i = choose|i: int|
                                0 <= i < q.len() && #[trigger] q[i] == (c0[j], j);
                            assert(i != 0);
                            assert(rest[i - 1] == (cur[j], j));
                        }
                    }
                },
            }
        }
    }
}

impl Default for Lru {
    fn default() -> (r: Lru)
        ensures
            r.wf(),
            r@ == Map::<u64, u64>::empty(),
            r.clock() == 0,
    {
        Lru::new()
    }
}


/// `after` is `before` with `k` touched: the effect `touch` states.
pub open spec fn touched(before: Map<u64, u64>, after: Map<u64, u64>, k: u64) -> bool {
    &&& after.contains_key(k)
    &&& after == before.insert(k, after[k])
    &&& forall|j: u64| #[trigger] after.contains_key(j) && j != k ==> after[j] < after[k]
}

/// `k` is a key that `pop_lru` may hand out: a live key with the least stamp.
pub open spec fn least_recent(m: Map<u64, u64>, k: u64) -> bool {
    &&& m.contains_key(k)
    &&& forall|j: u64| #[trigger] m.contains_key(j) ==> m[k] <= m[j]
}

/// The key touched last is evicted last: while another key is live, it is
/// not the least recently used one.
pub proof fn law_touched_key_evicted_last(before: Map<u64, u64>, after: Map<u64, u64>, k: u64, other: u64)
    requires
        touched(before, after, k),
        after.contains_key(other),
        other != k,
    ensures
        !least_recent(after, k),
{
    assert(after[other] < after[k]);
}

/// Keys leave in the order of their last touches: after touching `x` and
/// then `y`, `y` is not evicted while `x` is live.
pub proof fn law_eviction_follows_touch_order(
    m0: Map<u64, u64>,
    m1: Map<u64, u64>,
    m2: Map<u64, u64>,
    x: u64,
    y: u64,
)
    requires
        touched(m0, m1, x),
        touched(m1, m2, y),
        x != y,
    ensures
        m2.contains_key(x) && m2[x] < m2[y],
        !least_recent(m2, y),
{
    assert(m2.contains_key(x));
    assert(m2[x] < m2[y]);
}

} // verus!
