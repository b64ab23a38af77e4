//! Per-key popularity metrics and their collector.
use vstd::prelude::*;
use crate::store::bytes_equal;

verus! {

/// Cap on remembered request timestamps per key.
pub const REQUEST_QUEUE_CAP: usize = 1000;

/// Numeric snapshot of one key's metrics; rates, freshness and coverage
/// are in thousandths.
#[derive(Clone, Copy, Debug, PartialEq, Eq, Structural)]
pub struct MetricsSnapshot {
    /// Requests observed for the key.
    pub request_count: u64,
    /// Requests per hour, in thousandths.
    pub request_rate_milli: u64,
    /// Largest replica count observed.
    pub replication_count: u32,
    /// Freshness in thousandths, between 100 and 1000.
    pub freshness_milli: u32,
    /// Number of distinct requesting peers.
    pub audience_size: u32,
    /// Monotone social-engagement accumulator.
    pub social_engagements: u64,
    /// Seed coverage in thousandths, between 0 and 1000.
    pub seed_coverage_milli: u32,
    /// When the key was first observed, in seconds.
    pub first_seen: u64,
    /// When the key was last requested, in seconds.
    pub last_request: u64,
}

/// Freshness of content aged `age` seconds, in thousandths: full for the
/// first hour, linear decay through the first day, then a halving per
/// whole week of age with a floor of one tenth.
pub open spec fn freshness_of_age(age: u64) -> u32 {
    if age < 3600 {
        1000u32
    } else if age < 86400 {
        (1000 - (age as int) * 500 / 86400) as u32
    } else {
        let weeks = age / 604800;
        if weeks == 0 {
            500u32
        } else if weeks == 1 {
            250u32
        } else if weeks == 2 {
            125u32
        } else {
            100u32
        }
    }
}

/// Law: freshness never increases with age.
pub proof fn lemma_freshness_monotone(age1: u64, age2: u64)
    requires
        age1 <= age2,
    ensures
        freshness_of_age(age1) >= freshness_of_age(age2),
{
    if 3600 <= age1 && age1 < 86400 && 3600 <= age2 && age2 < 86400 {
        vstd::arithmetic::div_mod::lemma_div_is_ordered(
            (age1 as int) * 500,
            (age2 as int) * 500,
            86400,
        );
        vstd::arithmetic::div_mod::lemma_div_pos_is_pos((age1 as int) * 500, 86400);
        vstd::arithmetic::div_mod::lemma_div_is_ordered(
            (age2 as int) * 500,
            86399int * 500,
            86400,
        );
    } else {
        if age1 < 86400 && 3600 <= age1 {
            vstd::arithmetic::div_mod::lemma_div_pos_is_pos((age1 as int) * 500, 86400);
            vstd::arithmetic::div_mod::lemma_div_is_ordered(
                (age1 as int) * 500,
                86399int * 500,
                86400,
            );
        }
        if age2 < 86400 && 3600 <= age2 {
            vstd::arithmetic::div_mod::lemma_div_pos_is_pos((age2 as int) * 500, 86400);
        }
        if age1 >= 86400 && age2 >= 86400 {
            vstd::arithmetic::div_mod::lemma_div_is_ordered(
                age1 as int,
                age2 as int,
                604800,
            );
        }
    }
}

/// The request rate, in thousandths of requests per hour, read from the
/// timestamp queue `q`: the queue length per spanned second, scaled to an
/// hour; a queue without a positive span counts each entry as one per
/// hour.
pub open spec fn rate_of_queue(q: Seq<u64>) -> u64 {
    if q.len() > 1 {
        let first = q[0];
        let last = q[q.len() - 1];
        if last > first {
            ((q.len() as int) * 3600000 / (last - first) as int) as u64
        } else {
            (q.len() * 3600000) as u64
        }
    } else {
        (q.len() * 3600000) as u64
    }
}

/// One request folded in: `n` is `o` after a request at `now`,
/// optionally from the peer `node_id`: the count grows (saturating), the
/// bounded timestamp queue gains `now`, a new requester joins the
/// audience, the hourly rate is recomputed, and nothing else moves.
pub open spec fn spec_requested(
    o: PopularityMetrics,
    n: PopularityMetrics,
    node_id: Option<Seq<u8>>,
    now: u64,
) -> bool {
    &&& n.key@ == o.key@
    &&& n.created_at == o.created_at
    &&& n.snapshot.request_count == (if o.snapshot.request_count < u64::MAX {
        o.snapshot.request_count + 1
    } else {
        u64::MAX as int
    })
    &&& n.snapshot.last_request == now
    &&& n.request_timestamps@ == (if o.request_timestamps@.len() >= REQUEST_QUEUE_CAP {
        o.request_timestamps@.drop_first().push(now)
    } else {
        o.request_timestamps@.push(now)
    })
    &&& n.snapshot.request_rate_milli == rate_of_queue(n.request_timestamps@)
    &&& n.snapshot.replication_count == o.snapshot.replication_count
    &&& n.snapshot.social_engagements == o.snapshot.social_engagements
    &&& n.snapshot.first_seen == o.snapshot.first_seen
    &&& n.snapshot.seed_coverage_milli == o.snapshot.seed_coverage_milli
    &&& n.snapshot.freshness_milli == o.snapshot.freshness_milli
    &&& match node_id {
        Some(id) => if byte_vecs_have(o.requesting_nodes@, id) {
            n.requesting_nodes@ == o.requesting_nodes@ && n.snapshot.audience_size
                == o.snapshot.audience_size
        } else if o.requesting_nodes@.len() < u32::MAX {
            n.requesting_nodes@.len() == o.requesting_nodes@.len() + 1 && byte_vecs_have(
                n.requesting_nodes@,
                id,
            ) && n.snapshot.audience_size == n.requesting_nodes@.len()
        } else {
            n.requesting_nodes@ == o.requesting_nodes@ && n.snapshot.audience_size
                == o.snapshot.audience_size
        },
        None => n.requesting_nodes@ == o.requesting_nodes@ && n.snapshot.audience_size
            == o.snapshot.audience_size,
    }
}

/// Freshness recomputed: `n` is `o` with its freshness read from the age
/// either given or measured at `now`.
pub open spec fn spec_freshened(
    o: PopularityMetrics,
    n: PopularityMetrics,
    age_seconds: Option<u64>,
    now: u64,
) -> bool {
    n == (PopularityMetrics {
        snapshot: MetricsSnapshot {
            freshness_milli: freshness_of_age(
                spec_age(age_seconds, o.created_at, o.snapshot.first_seen, now),
            ),
            ..o.snapshot
        },
        ..o
    })
}

/// A replica count folded in: `n` is `o` with the count raised to
/// `count` when that is larger.
pub open spec fn spec_replicated(o: PopularityMetrics, n: PopularityMetrics, count: u32) -> bool {
    n == (PopularityMetrics {
        snapshot: MetricsSnapshot {
            replication_count: if count > o.snapshot.replication_count {
                count
            } else {
                o.snapshot.replication_count
            },
            ..o.snapshot
        },
        ..o
    })
}

/// Engagements folded in: `n` is `o` with `count` more engagements,
/// saturating.
pub open spec fn spec_engaged(o: PopularityMetrics, n: PopularityMetrics, count: u64) -> bool {
    n == (PopularityMetrics {
        snapshot: MetricsSnapshot {
            social_engagements: if o.snapshot.social_engagements + count <= u64::MAX {
                (o.snapshot.social_engagements + count) as u64
            } else {
                u64::MAX
            },
            ..o.snapshot
        },
        ..o
    })
}

/// A brand-new entry for `k` first observed at `now`.
pub open spec fn spec_fresh_entry(k: Seq<u8>, now: u64, m: PopularityMetrics) -> bool {
    &&& m.key@ == k
    &&& m.snapshot == (MetricsSnapshot {
        request_count: 0,
        request_rate_milli: 0,
        replication_count: 1,
        freshness_milli: 1000,
        audience_size: 0,
        social_engagements: 0,
        seed_coverage_milli: 0,
        first_seen: now,
        last_request: now,
    })
    &&& m.created_at is None
    &&& m.request_timestamps@ == Seq::<u64>::empty()
    &&& m.requesting_nodes@.len() == 0
}

/// The entry `n` differs from `o` at most in a raised replica count.
pub open spec fn spec_replication_raised_only(o: PopularityMetrics, n: PopularityMetrics) -> bool {
    &&& n == (PopularityMetrics {
        snapshot: MetricsSnapshot { replication_count: n.snapshot.replication_count, ..o.snapshot },
        ..o
    })
    &&& n.snapshot.replication_count >= o.snapshot.replication_count
}

/// Popularity metrics for one content key.
pub struct PopularityMetrics {
    /// The content key.
    pub key: Vec<u8>,
    /// The numeric metrics.
    pub snapshot: MetricsSnapshot,
    /// When the content itself was created, if known, in seconds.
    pub created_at: Option<u64>,
    /// Timestamps of recent requests, oldest first, at most the cap.
    pub request_timestamps: Vec<u64>,
    /// Identifiers of distinct requesting peers.
    pub requesting_nodes: Vec<Vec<u8>>,
}

/// No two identifiers in `s` are byte-equal.
pub open spec fn unique_byte_vecs(s: Seq<Vec<u8>>) -> bool {
    forall|i: int, j: int| 0 <= i < s.len() && 0 <= j < s.len() && i != j ==> s[i]@ != s[j]@
}

/// Some identifier in `s` is byte-equal to `id`.
pub open spec fn byte_vecs_have(s: Seq<Vec<u8>>, id: Seq<u8>) -> bool {
    exists|i: int| 0 <= i < s.len() && (#[trigger] s[i])@ == id
}

impl PopularityMetrics {
    /// Queue bounded, requesters distinct, and the audience size is the
    /// number of known requesters, except for an imported snapshot whose
    /// requester set has not been observed locally yet.
    pub open spec fn wf(self) -> bool {
        &&& self.request_timestamps@.len() <= REQUEST_QUEUE_CAP
        &&& unique_byte_vecs(self.requesting_nodes@)
        &&& (self.requesting_nodes@.len() == 0 || self.snapshot.audience_size
            == self.requesting_nodes@.len())
        &&& self.requesting_nodes@.len() <= u32::MAX
    }

    /// Fresh metrics for a key first observed at `now`.
    pub fn new(key: Vec<u8>, now: u64) -> (r: PopularityMetrics)
        ensures
            r.wf(),
            r.key@ == key@,
            r.snapshot == (MetricsSnapshot {
                request_count: 0,
                request_rate_milli: 0,
                replication_count: 1,
                freshness_milli: 1000,
                audience_size: 0,
                social_engagements: 0,
                seed_coverage_milli: 0,
                first_seen: now,
                last_request: now,
            }),
            r.created_at is None,
            r.request_timestamps@ =~= Seq::<u64>::empty(),
            r.requesting_nodes@ =~= Seq::<Vec<u8>>::empty(),
    {
        PopularityMetrics {
            key,
            snapshot: MetricsSnapshot {
                request_count: 0,
                request_rate_milli: 0,
                replication_count: 1,
                freshness_milli: 1000,
                audience_size: 0,
                social_engagements: 0,
                seed_coverage_milli: 0,
                first_seen: now,
                last_request: now,
            },
            created_at: None,
            request_timestamps: Vec::new(),
            requesting_nodes: Vec::new(),
        }
    }

    /// Record one request at `now`, optionally from peer `node_id`: the
    /// count and the bounded timestamp queue grow, a new requester joins
    /// the audience, and the hourly rate is recomputed from the queue.
    pub fn update_request(&mut self, node_id: Option<Vec<u8>>, now: u64)
        requires
            old(self).wf(),
        ensures
            final(self).wf(),
            spec_requested(
                *old(self),
                *final(self),
                match node_id {
                    Some(id) => Some(id@),
                    None => None,
                },
                now,
            ),
    {
        if self.snapshot.request_count < u64::MAX {
            self.snapshot.request_count = self.snapshot.request_count + 1;
        }
        self.snapshot.last_request = now;
        if self.request_timestamps.len() >= REQUEST_QUEUE_CAP {
            self.request_timestamps.remove(0);
            proof {
                assert(self.request_timestamps@ =~= old(self).request_timestamps@.drop_first());
            }
        }
        self.request_timestamps.push(now);
        match node_id {
            Some(id) => {
                if !self.has_requester(&id) {
                    if self.requesting_nodes.len() < u32::MAX as usize {
                        let ghost pre = self.requesting_nodes@;
                        self.requesting_nodes.push(id);
                        self.snapshot.audience_size = self.requesting_nodes.len() as u32;
                        proof {
                            assert(self.requesting_nodes@[pre.len() as int]@ == pre.push(id)[pre.len() as int]@);
                            assert forall|a: int, b: int|
                                0 <= a < self.requesting_nodes@.len() && 0 <= b
                                    < self.requesting_nodes@.len() && a != b
                                implies self.requesting_nodes@[a]@ != self.requesting_nodes@[b]@ by {
                                if a < pre.len() && b < pre.len() {
                                    assert(self.requesting_nodes@[a] == pre[a]);
                                    assert(self.requesting_nodes@[b] == pre[b]);
                                } else if a < pre.len() {
                                    assert(self.requesting_nodes@[a] == pre[a]);
                                    assert(!byte_vecs_have(pre, id@));
                                } else {
                                    assert(self.requesting_nodes@[b] == pre[b]);
                                    assert(!byte_vecs_have(pre, id@));
                                }
                            }
                        }
                    }
                } else {
                    proof {
                        assert(byte_vecs_have(self.requesting_nodes@, id@));
                    }
                }
            },
            None => {},
        }
        let qlen = self.request_timestamps.len();
        if qlen > 1 {
            let first = self.request_timestamps[0];
            let last = self.request_timestamps[qlen - 1];
            if last > first {
                proof {
                    vstd::arithmetic::div_mod::lemma_div_pos_is_pos(
                        (qlen as int) * 3600000,
                        (last - first) as int,
                    );
                    vstd::arithmetic::div_mod::lemma_div_is_ordered(
                        (qlen as int) * 3600000,
                        (u64::MAX as int),
                        (last - first) as int,
                    );
                }
                self.snapshot.request_rate_milli = ((qlen as u64) * 3600000) / (last - first);
            } else {
                self.snapshot.request_rate_milli = (qlen as u64) * 3600000;
            }
        } else {
            self.snapshot.request_rate_milli = (qlen as u64) * 3600000;
        }
    }

    fn has_requester(&self, id: &Vec<u8>) -> (r: bool)
        ensures
            r == byte_vecs_have(self.requesting_nodes@, id@),
    {
        let mut i: usize = 0;
        while i < self.requesting_nodes.len()
            invariant
                i <= self.requesting_nodes@.len(),
                forall|j: int| 0 <= j < i ==> (#[trigger] self.requesting_nodes@[j])@ != id@,
            decreases self.requesting_nodes@.len() - i,
        {
            if bytes_equal(&self.requesting_nodes[i], id) {
                return true;
            }
            i = i + 1;
        }
        false
    }

    /// Recompute freshness from the age either given or measured at `now`
    /// since creation or first sight.
    pub fn update_freshness(&mut self, age_seconds: Option<u64>, now: u64)
        requires
            old(self).wf(),
        ensures
            final(self).wf(),
            spec_freshened(*old(self), *final(self), age_seconds, now),
    {
        let age: u64 = match age_seconds {
            Some(a) => a,
            None => {
                let start = match self.created_at {
                    Some(c) => c,
                    None => self.snapshot.first_seen,
                };
                if now > start {
                    now - start
                } else {
                    0
                }
            },
        };
        let f: u32;
        if age < 3600 {
            f = 1000;
        } else if age < 86400 {
            proof {
                vstd::arithmetic::div_mod::lemma_div_pos_is_pos((age as int) * 500, 86400);
                vstd::arithmetic::div_mod::lemma_div_is_ordered(
                    (age as int) * 500,
                    86399int * 500,
                    86400,
                );
            }
            f = 1000 - (((age * 500) / 86400) as u32);
        } else {
            let weeks = age / 604800;
            if weeks == 0 {
                f = 500;
            } else if weeks == 1 {
                f = 250;
            } else if weeks == 2 {
                f = 125;
            } else {
                f = 100;
            }
        }
        self.snapshot.freshness_milli = f;
    }

    /// Record an observed replica count; the stored count only grows.
    pub fn update_replication(&mut self, count: u32)
        ensures
            spec_replicated(*old(self), *final(self), count),
            final(self).snapshot.replication_count >= old(self).snapshot.replication_count,
    {
        if count > self.snapshot.replication_count {
            self.snapshot.replication_count = count;
        }
    }

    /// Accumulate social engagements; the counter never decreases.
    pub fn update_social_engagement(&mut self, count: u64)
        ensures
            spec_engaged(*old(self), *final(self), count),
            final(self).snapshot.social_engagements >= old(self).snapshot.social_engagements,
    {
        if count <= u64::MAX - self.snapshot.social_engagements {
            self.snapshot.social_engagements = self.snapshot.social_engagements + count;
        } else {
            self.snapshot.social_engagements = u64::MAX;
        }
    }

    /// A copy of the numeric metrics.
    pub fn get_snapshot(&self) -> (r: MetricsSnapshot)
        ensures
            r == self.snapshot,
    {
        self.snapshot
    }
}

/// Some entry in `s` is for key `k`.
pub open spec fn collector_has(s: Seq<PopularityMetrics>, k: Seq<u8>) -> bool {
    exists|i: int| 0 <= i < s.len() && (#[trigger] s[i]).key@ == k
}

/// Keeps per-key popularity metrics, one entry per key.
pub struct MetricsCollector {
    /// The tracked metrics, one entry per key.
    pub metrics: Vec<PopularityMetrics>,
}

impl MetricsCollector {
    /// Entries are for distinct keys and each is well-formed.
    pub open spec fn wf(self) -> bool {
        &&& forall|i: int, j: int|
            0 <= i < self.metrics@.len() && 0 <= j < self.metrics@.len() && i != j
                ==> self.metrics@[i].key@ != self.metrics@[j].key@
        &&& forall|i: int| 0 <= i < self.metrics@.len() ==> (#[trigger] self.metrics@[i]).wf()
    }

    /// An empty collector.
    pub fn new() -> (r: MetricsCollector)
        ensures
            r.wf(),
            r.metrics@ =~= Seq::<PopularityMetrics>::empty(),
    {
        MetricsCollector { metrics: Vec::new() }
    }

    fn position_of(&self, key: &Vec<u8>) -> (r: Option<usize>)
        ensures
            match r {
                Some(i) => i < self.metrics@.len() && self.metrics@[i as int].key@ == key@,
                None => !collector_has(self.metrics@, key@),
            },
    {
        let mut i: usize = 0;
        while i < self.metrics.len()
            invariant
                i <= self.metrics@.len(),
                forall|j: int| 0 <= j < i ==> (#[trigger] self.metrics@[j]).key@ != key@,
            decreases self.metrics@.len() - i,
        {
            if bytes_equal(&self.metrics[i].key, key) {
                return Some(i);
            }
            i = i + 1;
        }
        None
    }

    /// Record a value lookup for `key` at `now`: its entry (created if
    /// absent) has one request folded in and its freshness recomputed;
    /// no other entry changes.
    pub fn record_find_value(&mut self, key: Vec<u8>, node_id: Option<Vec<u8>>, now: u64)
        requires
            old(self).wf(),
        ensures
            final(self).wf(),
            collector_has(final(self).metrics@, key@),
            collector_has(old(self).metrics@, key@) ==> exists|j: int|
                0 <= j < old(self).metrics@.len() && old(self).metrics@[j].key@ == key@
                    && final(self).metrics@ == old(self).metrics@.update(
                    j,
                    final(self).metrics@[j],
                ) && (exists|mid: PopularityMetrics|
                    spec_requested(
                        old(self).metrics@[j],
                        mid,
                        match node_id {
                            Some(id) => Some(id@),
                            None => None,
                        },
                        now,
                    ) && spec_freshened(mid, final(self).metrics@[j], None, now)),
            !collector_has(old(self).metrics@, key@) ==> final(self).metrics@.len() == old(self).metrics@.len() + 1 && final(self).metrics@ == old(self).metrics@.push(
                final(self).metrics@[old(self).metrics@.len() as int],
            ) && (exists|base: PopularityMetrics, mid: PopularityMetrics|
                spec_fresh_entry(key@, now, base) && spec_requested(
                    base,
                    mid,
                    match node_id {
                        Some(id) => Some(id@),
                        None => None,
                    },
                    now,
                ) && spec_freshened(
                    mid,
                    final(self).metrics@[old(self).metrics@.len() as int],
                    None,
                    now,
                )),
    {
        let ghost pre = self.metrics@;
        let ghost niv: Option<Seq<u8>> = match node_id {
            Some(ref id) => Some(id@),
            None => None,
        };
        match self.position_of(&key) {
            Some(i) => {
                let mut m = self.metrics.remove(i);
                let ghost entry0 = m;
                m.update_request(node_id, now);
                let ghost mid = m;
                m.update_freshness(None, now);
                self.metrics.insert(i, m);
                proof {
                    assert(self.metrics@ =~= pre.update(i as int, m));
                    assert(self.metrics@[i as int].key@ == key@);
                    assert(spec_requested(entry0, mid, niv, now));
                    assert(spec_freshened(mid, self.metrics@[i as int], None, now));
                    lemma_collector_update(pre, i as int, m);
                }
            },
            None => {
                let mut m = PopularityMetrics::new(key, now);
                let ghost base = m;
                m.update_request(node_id, now);
                let ghost mid = m;
                m.update_freshness(None, now);
                self.metrics.push(m);
                proof {
                    assert(self.metrics@[pre.len() as int].key@ == key@);
                    assert(spec_fresh_entry(self.metrics@[pre.len() as int].key@, now, base));
                    assert(spec_requested(base, mid, niv, now));
                    assert(spec_freshened(mid, self.metrics@[pre.len() as int], None, now));
                    lemma_collector_push(pre, m);
                }
            },
        }
    }

    /// Record a store of `key` observed on `replication_count` replicas:
    /// its entry's replica count only grows; no other entry changes.
    pub fn record_store(&mut self, key: Vec<u8>, replication_count: u32, now: u64)
        requires
            old(self).wf(),
        ensures
            final(self).wf(),
            collector_has(final(self).metrics@, key@),
            collector_has(old(self).metrics@, key@) ==> exists|j: int|
                0 <= j < old(self).metrics@.len() && old(self).metrics@[j].key@ == key@
                    && final(self).metrics@ == old(self).metrics@.update(
                    j,
                    final(self).metrics@[j],
                ) && final(self).metrics@[j].key@ == key@
                    && (exists|mid: PopularityMetrics|
                    spec_replicated(old(self).metrics@[j], mid, replication_count)
                        && spec_freshened(mid, final(self).metrics@[j], None, now))
                    && final(self).metrics@[j].snapshot.replication_count >= old(self).metrics@[j].snapshot.replication_count,
            !collector_has(old(self).metrics@, key@) ==> final(self).metrics@ == old(self).metrics@.push(final(self).metrics@[old(self).metrics@.len() as int]) && (exists|
                base: PopularityMetrics,
                mid: PopularityMetrics,
            |
                spec_fresh_entry(key@, now, base) && spec_replicated(base, mid, replication_count)
                    && spec_freshened(
                    mid,
                    final(self).metrics@[old(self).metrics@.len() as int],
                    None,
                    now,
                )),
    {
        let ghost pre = self.metrics@;
        match self.position_of(&key) {
            Some(i) => {
                let mut m = self.metrics.remove(i);
                let ghost entry0 = m;
                m.update_replication(replication_count);
                let ghost mid = m;
                m.update_freshness(None, now);
                self.metrics.insert(i, m);
                proof {
                    assert(self.metrics@ =~= pre.update(i as int, m));
                    assert(self.metrics@[i as int].key@ == key@);
                    assert(spec_replicated(entry0, mid, replication_count));
                    assert(spec_freshened(mid, self.metrics@[i as int], None, now));
                    lemma_collector_update(pre, i as int, m);
                }
            },
            None => {
                let mut m = PopularityMetrics::new(key, now);
                let ghost base = m;
                m.update_replication(replication_count);
                let ghost mid = m;
                m.update_freshness(None, now);
                self.metrics.push(m);
                proof {
                    assert(self.metrics@[pre.len() as int].key@ == key@);
                    assert(spec_fresh_entry(self.metrics@[pre.len() as int].key@, now, base));
                    assert(spec_replicated(base, mid, replication_count));
                    assert(spec_freshened(mid, self.metrics@[pre.len() as int], None, now));
                    lemma_collector_push(pre, m);
                }
            },
        }
    }

    /// Record `count` social engagements for `key`: its entry's counter
    /// only grows; no other entry changes.
    pub fn record_social_engagement(&mut self, key: Vec<u8>, count: u64, now: u64)
        requires
            old(self).wf(),
        ensures
            final(self).wf(),
            collector_has(final(self).metrics@, key@),
            collector_has(old(self).metrics@, key@) ==> exists|j: int|
                0 <= j < old(self).metrics@.len() && old(self).metrics@[j].key@ == key@
                    && final(self).metrics@ == old(self).metrics@.update(
                    j,
                    final(self).metrics@[j],
                ) && spec_engaged(old(self).metrics@[j], final(self).metrics@[j], count),
            !collector_has(old(self).metrics@, key@) ==> final(self).metrics@ == old(self).metrics@.push(final(self).metrics@[old(self).metrics@.len() as int]) && (exists|
                base: PopularityMetrics,
            |
                spec_fresh_entry(key@, now, base) && spec_engaged(
                    base,
                    final(self).metrics@[old(self).metrics@.len() as int],
                    count,
                )),
    {
        let ghost pre = self.metrics@;
        match self.position_of(&key) {
            Some(i) => {
                let mut m = self.metrics.remove(i);
                m.update_social_engagement(count);
                self.metrics.insert(i, m);
                proof {
                    assert(self.metrics@ =~= pre.update(i as int, m));
                    assert(self.metrics@[i as int].key@ == key@);
                    lemma_collector_update(pre, i as int, m);
                }
            },
            None => {
                let mut m = PopularityMetrics::new(key, now);
                let ghost base = m;
                m.update_social_engagement(count);
                self.metrics.push(m);
                proof {
                    assert(self.metrics@[pre.len() as int].key@ == key@);
                    assert(spec_fresh_entry(self.metrics@[pre.len() as int].key@, now, base));
                    assert(spec_engaged(base, self.metrics@[pre.len() as int], count));
                    lemma_collector_push(pre, m);
                }
            },
        }
    }

    /// Fold a peer-reported snapshot for `key` in: a known key may only
    /// have its replica count raised; an unknown key is adopted carrying
    /// the reported snapshot, with nothing observed locally yet.
    pub fn merge_reported(&mut self, key: Vec<u8>, reported: MetricsSnapshot)
        requires
            old(self).wf(),
        ensures
            final(self).wf(),
            collector_has(final(self).metrics@, key@),
            collector_has(old(self).metrics@, key@) ==> exists|j: int|
                0 <= j < old(self).metrics@.len() && old(self).metrics@[j].key@ == key@
                    && final(self).metrics@ == old(self).metrics@.update(
                    j,
                    final(self).metrics@[j],
                ) && final(self).metrics@[j].key@ == key@ && spec_replicated(
                    old(self).metrics@[j],
                    final(self).metrics@[j],
                    reported.replication_count,
                ),
            !collector_has(old(self).metrics@, key@) ==> final(self).metrics@ == old(self).metrics@.push(final(self).metrics@[old(self).metrics@.len() as int]) && ({
                let e = final(self).metrics@[old(self).metrics@.len() as int];
                &&& e.key@ == key@
                &&& e.snapshot == reported
                &&& e.created_at is None
                &&& e.request_timestamps@ == Seq::<u64>::empty()
                &&& e.requesting_nodes@.len() == 0
            }),
    {
        let ghost pre = self.metrics@;
        match self.position_of(&key) {
            Some(i) => {
                let mut m = self.metrics.remove(i);
                m.update_replication(reported.replication_count);
                self.metrics.insert(i, m);
                proof {
                    assert(self.metrics@ =~= pre.update(i as int, m));
                    assert(self.metrics@[i as int].key@ == key@);
                    lemma_collector_update(pre, i as int, m);
                }
            },
            None => {
                let m = PopularityMetrics {
                    key,
                    snapshot: reported,
                    created_at: None,
                    request_timestamps: Vec::new(),
                    requesting_nodes: Vec::new(),
                };
                self.metrics.push(m);
                proof {
                    assert(self.metrics@[pre.len() as int].key@ == key@);
                    lemma_collector_push(pre, m);
                }
            },
        }
    }

    fn position_of_old(&self, max_age: u64, now: u64) -> (r: Option<usize>)
        ensures
            match r {
                Some(i) => i < self.metrics@.len() && now > self.metrics@[i as int].snapshot.last_request + max_age,
                None => forall|j: int|
                    0 <= j < self.metrics@.len() ==> now <= (#[trigger] self.metrics@[j]).snapshot.last_request + max_age,
            },
    {
        let mut i: usize = 0;
        while i < self.metrics.len()
            invariant
                i <= self.metrics@.len(),
                forall|j: int|
                    0 <= j < i ==> now <= (#[trigger] self.metrics@[j]).snapshot.last_request
                        + max_age,
            decreases self.metrics@.len() - i,
        {
            let last = self.metrics[i].snapshot.last_request;
            if now > last && now - last > max_age {
                return Some(i);
            }
            i = i + 1;
        }
        None
    }

    /// Drop every entry whose last request lies more than `max_age_days`
    /// days before `now`; every other entry survives untouched. Returns
    /// how many entries were removed.
    pub fn cleanup_old_metrics(&mut self, max_age_days: u64, now: u64) -> (r: usize)
        requires
            old(self).wf(),
            max_age_days * 86400 <= u64::MAX,
        ensures
            final(self).wf(),
            forall|j: int|
                0 <= j < final(self).metrics@.len() ==> now <= (
                #[trigger] final(self).metrics@[j]).snapshot.last_request + max_age_days * 86400,
            forall|j: int|
                0 <= j < old(self).metrics@.len() && now <= (
                #[trigger] old(self).metrics@[j]).snapshot.last_request + max_age_days * 86400
                    ==> entry_kept(final(self).metrics@, old(self).metrics@[j]),
            forall|a: int|
                0 <= a < final(self).metrics@.len() ==> entry_kept(
                    old(self).metrics@,
                    #[trigger] final(self).metrics@[a],
                ),
            r == old(self).metrics@.len() - final(self).metrics@.len(),
    {
        let max_age = max_age_days * 86400;
        let orig_len = self.metrics.len();
        let ghost orig = self.metrics@;
        let mut removed: usize = 0;
        loop
            invariant
                self.wf(),
                max_age == max_age_days * 86400,
                removed + self.metrics@.len() == orig_len,
                orig_len == orig.len(),
                forall|a: int|
                    0 <= a < self.metrics@.len() ==> entry_kept(
                        orig,
                        #[trigger] self.metrics@[a],
                    ),
                forall|j: int|
                    0 <= j < orig.len() && now <= (#[trigger] orig[j]).snapshot.last_request
                        + max_age ==> entry_kept(self.metrics@, orig[j]),
            ensures
                self.wf(),
                removed + self.metrics@.len() == orig_len,
                forall|a: int|
                    0 <= a < self.metrics@.len() ==> entry_kept(
                        orig,
                        #[trigger] self.metrics@[a],
                    ),
                forall|j: int|
                    0 <= j < orig.len() && now <= (#[trigger] orig[j]).snapshot.last_request
                        + max_age ==> entry_kept(self.metrics@, orig[j]),
                forall|j: int|
                    0 <= j < self.metrics@.len() ==> now <= (
                    #[trigger] self.metrics@[j]).snapshot.last_request + max_age,
            decreases self.metrics@.len(),
        {
            match self.position_of_old(max_age, now) {
                Some(i) => {
                    let ghost pre = self.metrics@;
                    self.metrics.remove(i);
                    removed = removed + 1;
                    proof {
                        lemma_collector_remove(pre, i as int);
                        assert forall|a: int| 0 <= a < self.metrics@.len()
                            implies entry_kept(orig, #[trigger] self.metrics@[a]) by {
                            let pa: int = if a < i {
                                a
                            } else {
                                a + 1
                            };
                            assert(self.metrics@[a] == pre[pa]);
                        }
                        assert forall|j: int|
                            0 <= j < orig.len() && now <= (
                            #[trigger] orig[j]).snapshot.last_request + max_age
                            implies entry_kept(self.metrics@, orig[j]) by {
                            let a = choose|a: int|
                                0 <= a < pre.len() && #[trigger] pre[a] == orig[j];
                            assert(a != i);
                            let na: int = if a < i {
                                a
                            } else {
                                a - 1
                            };
                            assert(self.metrics@[na] == pre[a]);
                        }
                    }
                },
                None => {
                    break;
                },
            }
        }
        removed
    }

    /// The entry for `key`, if one exists.
    pub fn get_metrics(&self, key: &Vec<u8>) -> (r: Option<&PopularityMetrics>)
        ensures
            match r {
                Some(m) => collector_has(self.metrics@, key@) && m.key@ == key@ && exists|i: int|
                    0 <= i < self.metrics@.len() && *m == self.metrics@[i],
                None => !collector_has(self.metrics@, key@),
            },
    {
        match self.position_of(key) {
            Some(i) => {
                proof {
                    assert(self.metrics@[i as int].key@ == key@);
                }
                Some(&self.metrics[i])
            },
            None => None,
        }
    }

    /// All entries.
    pub fn get_all_metrics(&self) -> (r: &Vec<PopularityMetrics>)
        ensures
            r == &self.metrics,
    {
        &self.metrics
    }

    /// Recompute freshness for every entry at `now`; nothing else changes.
    pub fn update_all_freshness(&mut self, now: u64)
        requires
            old(self).wf(),
        ensures
            final(self).wf(),
            final(self).metrics@.len() == old(self).metrics@.len(),
            forall|i: int|
                0 <= i < final(self).metrics@.len() ==> final(self).metrics@[i]
                    == (PopularityMetrics {
                    snapshot: MetricsSnapshot {
                        freshness_milli: freshness_of_age(
                            spec_age(
                                None,
                                old(self).metrics@[i].created_at,
                                old(self).metrics@[i].snapshot.first_seen,
                                now,
                            ),
                        ),
                        ..(#[trigger] old(self).metrics@[i]).snapshot
                    },
                    ..old(self).metrics@[i]
                }),
    {
        let ghost pre = self.metrics@;
        let mut i: usize = 0;
        while i < self.metrics.len()
            invariant
                old(self).wf(),
                pre == old(self).metrics@,
                i <= self.metrics@.len(),
                self.metrics@.len() == pre.len(),
                forall|j: int| i <= j < pre.len() ==> self.metrics@[j] == pre[j],
                forall|j: int|
                    0 <= j < i ==> self.metrics@[j] == (PopularityMetrics {
                        snapshot: MetricsSnapshot {
                            freshness_milli: freshness_of_age(
                                spec_age(
                                    None,
                                    pre[j].created_at,
                                    pre[j].snapshot.first_seen,
                                    now,
                                ),
                            ),
                            ..(#[trigger] pre[j]).snapshot
                        },
                        ..pre[j]
                    }),
            decreases self.metrics@.len() - i,
        {
            let ghost mid = self.metrics@;
            let mut m = self.metrics.remove(i);
            proof {
                assert(m == pre[i as int]);
                assert(pre[i as int].wf());
            }
            m.update_freshness(None, now);
            self.metrics.insert(i, m);
            proof {
                assert(self.metrics@ =~= mid.update(i as int, m));
            }
            i = i + 1;
        }
        proof {
            let post = self.metrics@;
            assert forall|a: int, b: int|
                0 <= a < post.len() && 0 <= b < post.len() && a != b
                implies post[a].key@ != post[b].key@ by {
                assert(post[a].key@ == pre[a].key@);
                assert(post[b].key@ == pre[b].key@);
            }
            assert forall|a: int| 0 <= a < post.len() implies (#[trigger] post[a]).wf() by {
                assert(pre[a].wf());
                assert(post[a].request_timestamps@ == pre[a].request_timestamps@);
                assert(post[a].requesting_nodes@ == pre[a].requesting_nodes@);
                assert(post[a].snapshot.audience_size == pre[a].snapshot.audience_size);
            }
        }
    }
}

/// Replacing the entry at `i` by one for the same key keeps keys distinct
/// and entries well-formed.
proof fn lemma_collector_update(s: Seq<PopularityMetrics>, i: int, m: PopularityMetrics)
    requires
        0 <= i < s.len(),
        m.key@ == s[i].key@,
        m.wf(),
        forall|a: int, b: int|
            0 <= a < s.len() && 0 <= b < s.len() && a != b ==> s[a].key@ != s[b].key@,
        forall|a: int| 0 <= a < s.len() ==> (#[trigger] s[a]).wf(),
    ensures
        forall|a: int, b: int|
            0 <= a < s.update(i, m).len() && 0 <= b < s.update(i, m).len() && a != b ==> s.update(
                i,
                m,
            )[a].key@ != s.update(i, m)[b].key@,
        forall|a: int| 0 <= a < s.update(i, m).len() ==> (#[trigger] s.update(i, m)[a]).wf(),
{
    let s2 = s.update(i, m);
    assert forall|a: int, b: int|
        0 <= a < s2.len() && 0 <= b < s2.len() && a != b
        implies s2[a].key@ != s2[b].key@ by {
        assert(s2[a].key@ == s[a].key@);
        assert(s2[b].key@ == s[b].key@);
    }
    assert forall|a: int| 0 <= a < s2.len() implies (#[trigger] s2[a]).wf() by {
        if a != i {
            assert(s2[a] == s[a]);
        }
    }
}

/// Some entry of `s` is exactly `m`.
pub open spec fn entry_kept(s: Seq<PopularityMetrics>, m: PopularityMetrics) -> bool {
    exists|a: int| 0 <= a < s.len() && #[trigger] s[a] == m
}

/// Removing one entry keeps keys distinct and entries well-formed.
proof fn lemma_collector_remove(s: Seq<PopularityMetrics>, i: int)
    requires
        0 <= i < s.len(),
        forall|a: int, b: int|
            0 <= a < s.len() && 0 <= b < s.len() && a != b ==> s[a].key@ != s[b].key@,
        forall|a: int| 0 <= a < s.len() ==> (#[trigger] s[a]).wf(),
    ensures
        forall|a: int, b: int|
            0 <= a < s.remove(i).len() && 0 <= b < s.remove(i).len() && a != b ==> s.remove(
                i,
            )[a].key@ != s.remove(i)[b].key@,
        forall|a: int| 0 <= a < s.remove(i).len() ==> (#[trigger] s.remove(i)[a]).wf(),
{
    let s2 = s.remove(i);
    assert forall|a: int, b: int|
        0 <= a < s2.len() && 0 <= b < s2.len() && a != b
        implies s2[a].key@ != s2[b].key@ by {
        let pa: int = if a < i {
            a
        } else {
            a + 1
        };
        let pb: int = if b < i {
            b
        } else {
            b + 1
        };
        assert(s2[a] == s[pa] && s2[b] == s[pb]);
    }
    assert forall|a: int| 0 <= a < s2.len() implies (#[trigger] s2[a]).wf() by {
        let pa: int = if a < i {
            a
        } else {
            a + 1
        };
        assert(s2[a] == s[pa]);
    }
}

/// Appending an entry for a fresh key keeps keys distinct and entries
/// well-formed.
proof fn lemma_collector_push(s: Seq<PopularityMetrics>, m: PopularityMetrics)
    requires
        !collector_has(s, m.key@),
        m.wf(),
        forall|a: int, b: int|
            0 <= a < s.len() && 0 <= b < s.len() && a != b ==> s[a].key@ != s[b].key@,
        forall|a: int| 0 <= a < s.len() ==> (#[trigger] s[a]).wf(),
    ensures
        forall|a: int, b: int|
            0 <= a < s.push(m).len() && 0 <= b < s.push(m).len() && a != b ==> s.push(m)[a].key@
                != s.push(m)[b].key@,
        forall|a: int| 0 <= a < s.push(m).len() ==> (#[trigger] s.push(m)[a]).wf(),
{
    let s2 = s.push(m);
    assert forall|a: int, b: int|
        0 <= a < s2.len() && 0 <= b < s2.len() && a != b
        implies s2[a].key@ != s2[b].key@ by {
        if a < s.len() && b < s.len() {
            assert(s2[a] == s[a] && s2[b] == s[b]);
        } else if a < s.len() {
            assert(s2[a] == s[a] && s2[b] == m);
        } else {
            assert(s2[a] == m && s2[b] == s[b]);
        }
    }
    assert forall|a: int| 0 <= a < s2.len() implies (#[trigger] s2[a]).wf() by {
        if a < s.len() {
            assert(s2[a] == s[a]);
        } else {
            assert(s2[a] == m);
        }
    }
}

/// The age used for freshness: the explicit age when given, else the time
/// since creation (or first sight), never negative.
pub open spec fn spec_age(
    age_seconds: Option<u64>,
    created_at: Option<u64>,
    first_seen: u64,
    now: u64,
) -> u64 {
    match age_seconds {
        Some(a) => a,
        None => {
            let start = match created_at {
                Some(c) => c,
                None => first_seen,
            };
            if now > start {
                (now - start) as u64
            } else {
                0u64
            }
        },
    }
}

} // verus!
