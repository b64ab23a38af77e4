//! Sliding-window admission control, global and per-peer.
use vstd::prelude::*;
use crate::errors::{NetworkError, RhizomeError};
use crate::store::bytes_equal;

verus! {

/// Timestamps no older than the window survive a cleanup at `now`:
/// exactly those with `now - t <= window`.
pub open spec fn fresh_only(h: Seq<u64>, now: u64, window: u64) -> Seq<u64> {
    h.filter(|t: u64| now <= t + window)
}

/// Admission control turns a request from `id` away at `now`: the
/// surviving global window is at the global cap, or the sender's
/// surviving window is at the per-peer cap.
pub open spec fn admission_rejects(rl: RateLimiter, id: Option<Seq<u8>>, now: u64) -> bool {
    ||| fresh_only(rl.request_history@, now, rl.window_seconds).len() >= rl.max_requests
    ||| match id {
        Some(id) => fresh_only(times_of(rl.node_requests@, id), now, rl.window_seconds).len()
            >= rl.per_node_limit,
        None => false,
    }
}

/// Request history of one peer.
pub struct NodeHistory {
    /// The peer's identifier bytes.
    pub node_id: Vec<u8>,
    /// Accepted-request timestamps, oldest first.
    pub times: Vec<u64>,
}

/// Sliding-window rate limiter: a global cap and a per-peer cap, both
/// counted over the most recent `window_seconds`.
pub struct RateLimiter {
    /// Cap on requests from all peers together per window.
    pub max_requests: usize,
    /// Length of the sliding window, in seconds.
    pub window_seconds: u64,
    /// Cap on requests from one peer per window.
    pub per_node_limit: usize,
    /// Timestamps of globally accepted requests, oldest first.
    pub request_history: Vec<u64>,
    /// Per-peer accepted-request timestamps.
    pub node_requests: Vec<NodeHistory>,
}

/// Some peer history in `s` belongs to `id`.
pub open spec fn histories_have(s: Seq<NodeHistory>, id: Seq<u8>) -> bool {
    exists|i: int| 0 <= i < s.len() && (#[trigger] s[i]).node_id@ == id
}

/// Index of the history of `id`.
pub open spec fn history_index(s: Seq<NodeHistory>, id: Seq<u8>) -> int {
    choose|i: int| 0 <= i < s.len() && (#[trigger] s[i]).node_id@ == id
}

/// Timestamps recorded for peer `id`, empty when none are.
pub open spec fn times_of(s: Seq<NodeHistory>, id: Seq<u8>) -> Seq<u64> {
    if histories_have(s, id) {
        s[history_index(s, id)].times@
    } else {
        Seq::empty()
    }
}

impl RateLimiter {
    /// Histories belong to distinct peers.
    pub open spec fn wf(self) -> bool {
        forall|i: int, j: int|
            0 <= i < self.node_requests@.len() && 0 <= j < self.node_requests@.len() && i != j
                ==> self.node_requests@[i].node_id@ != self.node_requests@[j].node_id@
    }

    /// A limiter with empty histories.
    pub fn new(max_requests: usize, window_seconds: u64, per_node_limit: usize) -> (r:
        RateLimiter)
        ensures
            r.wf(),
            r.max_requests == max_requests,
            r.window_seconds == window_seconds,
            r.per_node_limit == per_node_limit,
            r.request_history@ =~= Seq::<u64>::empty(),
            r.node_requests@ =~= Seq::<NodeHistory>::empty(),
    {
        RateLimiter {
            max_requests,
            window_seconds,
            per_node_limit,
            request_history: Vec::new(),
            node_requests: Vec::new(),
        }
    }

    /// Admit or reject a request arriving at `now`, optionally from the
    /// peer `node_id`. Entries older than the window are dropped first;
    /// the request is rejected exactly when the surviving global history
    /// is at the global cap or the peer's surviving history is at the
    /// per-peer cap; an admitted request is recorded under `now`.
    pub fn check_rate_limit(&mut self, node_id: Option<&Vec<u8>>, now: u64) -> (r: Result<
        bool,
        RhizomeError,
    >)
        requires
            old(self).wf(),
        ensures
            final(self).wf(),
            final(self).max_requests == old(self).max_requests,
            final(self).window_seconds == old(self).window_seconds,
            final(self).per_node_limit == old(self).per_node_limit,
            ({
                let window = old(self).window_seconds;
                let survivors = fresh_only(old(self).request_history@, now, window);
                &&& (r is Err <==> admission_rejects(
                    *old(self),
                    match node_id {
                        Some(id) => Some(id@),
                        None => None,
                    },
                    now,
                ))
                &&& (r matches Err(e) ==> e == RhizomeError::Network(NetworkError::RateLimitError)
                    && final(self).request_history@ == survivors && (forall|other: Seq<u8>|
                    #[trigger] times_of(final(self).node_requests@, other) == fresh_only(
                        times_of(old(self).node_requests@, other),
                        now,
                        window,
                    )))
                &&& (r is Ok ==> final(self).request_history@ == survivors.push(now)
                    && (match node_id {
                        Some(id) => times_of(final(self).node_requests@, id@) == fresh_only(
                            times_of(old(self).node_requests@, id@),
                            now,
                            window,
                        ).push(now),
                        None => forall|other: Seq<u8>|
                            #[trigger] times_of(final(self).node_requests@, other) == fresh_only(
                                times_of(old(self).node_requests@, other),
                                now,
                                window,
                            ),
                    }))
            }),
    {
        self.cleanup_old_requests(now);
        let ghost survivors = self.request_history@;
        if self.request_history.len() >= self.max_requests {
            return Err(RhizomeError::Network(NetworkError::RateLimitError));
        }
        match node_id {
            Some(id) => {
                let ghost pre_nr = self.node_requests@;
                match self.position_of_history(id) {
                    Some(i) => {
                        proof {
                            lemma_history_at_index(pre_nr, i as int);
                        }
                        if self.node_requests[i].times.len() >= self.per_node_limit {
                            return Err(RhizomeError::Network(NetworkError::RateLimitError));
                        }
                        let mut h = self.node_requests.remove(i);
                        h.times.push(now);
                        self.node_requests.insert(i, h);
                        proof {
                            assert(self.node_requests@ =~= pre_nr.update(i as int, h));
                            lemma_history_update(pre_nr, i as int, h);
                        }
                    },
                    None => {
                        if self.per_node_limit == 0 {
                            return Err(RhizomeError::Network(NetworkError::RateLimitError));
                        }
                        let mut times: Vec<u64> = Vec::new();
                        times.push(now);
                        let h = NodeHistory { node_id: crate::routing::clone_bytes(id), times };
                        self.node_requests.push(h);
                        proof {
                            lemma_history_push(pre_nr, h);
                            assert(times_of(pre_nr, id@) =~= Seq::<u64>::empty());
                            assert(h.times@ =~= Seq::<u64>::empty().push(now));
                        }
                    },
                }
            },
            None => {},
        }
        self.request_history.push(now);
        Ok(true)
    }

    /// Drop every recorded timestamp older than the window before `now`,
    /// in the global history and in every peer history.
    fn cleanup_old_requests(&mut self, now: u64)
        requires
            old(self).wf(),
        ensures
            final(self).wf(),
            final(self).max_requests == old(self).max_requests,
            final(self).window_seconds == old(self).window_seconds,
            final(self).per_node_limit == old(self).per_node_limit,
            final(self).request_history@ == fresh_only(
                old(self).request_history@,
                now,
                old(self).window_seconds,
            ),
            forall|id: Seq<u8>|
                #[trigger] times_of(final(self).node_requests@, id) == fresh_only(
                    times_of(old(self).node_requests@, id),
                    now,
                    old(self).window_seconds,
                ),
    {
        let window = self.window_seconds;
        let fresh = filter_fresh(&self.request_history, now, window);
        self.request_history = fresh;
        let ghost pre = self.node_requests@;
        let mut cleaned: Vec<NodeHistory> = Vec::new();
        let mut i: usize = 0;
        while i < self.node_requests.len()
            invariant
                i <= self.node_requests@.len(),
                self.node_requests@ == pre,
                cleaned@.len() == i,
                forall|j: int|
                    0 <= j < i ==> (#[trigger] cleaned@[j]).node_id@ == pre[j].node_id@
                        && cleaned@[j].times@ == fresh_only(pre[j].times@, now, window),
            decreases self.node_requests@.len() - i,
        {
            let h = &self.node_requests[i];
            let times = filter_fresh(&h.times, now, window);
            cleaned.push(NodeHistory { node_id: crate::routing::clone_bytes(&h.node_id), times });
            i = i + 1;
        }
        self.node_requests = cleaned;
        proof {
            assert forall|id: Seq<u8>|
                #[trigger] times_of(self.node_requests@, id) == fresh_only(
                    times_of(pre, id),
                    now,
                    window,
                ) by {
                let post = self.node_requests@;
                if histories_have(pre, id) {
                    let j = history_index(pre, id);
                    assert(0 <= j < pre.len() && pre[j].node_id@ == id);
                    assert(post[j].node_id@ == id);
                    assert(histories_have(post, id));
                    let j2 = history_index(post, id);
                    assert(post[j2].node_id@ == id);
                    if j2 != j {
                        assert(pre[j2].node_id@ == id);
                    }
                } else {
                    if histories_have(post, id) {
                        let j2 = history_index(post, id);
                        assert(pre[j2].node_id@ == id);
                    }
                }
            }
            assert forall|a: int, b: int|
                0 <= a < self.node_requests@.len() && 0 <= b < self.node_requests@.len() && a != b
                implies self.node_requests@[a].node_id@ != self.node_requests@[b].node_id@ by {
                assert(self.node_requests@[a].node_id@ == pre[a].node_id@);
                assert(self.node_requests@[b].node_id@ == pre[b].node_id@);
            }
        }
    }

    fn position_of_history(&self, id: &Vec<u8>) -> (r: Option<usize>)
        ensures
            match r {
                Some(i) => i < self.node_requests@.len() && self.node_requests@[i as int].node_id@
                    == id@,
                None => !histories_have(self.node_requests@, id@),
            },
    {
        let mut i: usize = 0;
        while i < self.node_requests.len()
            invariant
                i <= self.node_requests@.len(),
                forall|j: int| 0 <= j < i ==> (#[trigger] self.node_requests@[j]).node_id@ != id@,
            decreases self.node_requests@.len() - i,
        {
            if bytes_equal(&self.node_requests[i].node_id, id) {
                return Some(i);
            }
            i = i + 1;
        }
        None
    }

    /// Number of surviving requests in the global window at `now`.
    pub fn get_stats(&mut self, now: u64) -> (r: (usize, usize, u64, usize))
        requires
            old(self).wf(),
        ensures
            final(self).wf(),
            r.0 == fresh_only(old(self).request_history@, now, old(self).window_seconds).len(),
            r.1 == old(self).max_requests,
            r.2 == old(self).window_seconds,
            r.3 == final(self).node_requests@.len(),
    {
        self.cleanup_old_requests(now);
        (self.request_history.len(), self.max_requests, self.window_seconds, self.node_requests.len())
    }
}

/// With distinct peers, the history at `i` is the one `times_of` reads.
proof fn lemma_history_at_index(s: Seq<NodeHistory>, i: int)
    requires
        0 <= i < s.len(),
        forall|a: int, b: int|
            0 <= a < s.len() && 0 <= b < s.len() && a != b ==> s[a].node_id@ != s[b].node_id@,
    ensures
        histories_have(s, s[i].node_id@),
        history_index(s, s[i].node_id@) == i,
        times_of(s, s[i].node_id@) == s[i].times@,
{
    let id = s[i].node_id@;
    assert(histories_have(s, id));
    let j = history_index(s, id);
    if j != i {
        assert(s[j].node_id@ == id);
    }
}

/// Replacing the history at `i`, keeping its peer, updates that peer's
/// timestamps and no other's.
proof fn lemma_history_update(s: Seq<NodeHistory>, i: int, h: NodeHistory)
    requires
        0 <= i < s.len(),
        h.node_id@ == s[i].node_id@,
        forall|a: int, b: int|
            0 <= a < s.len() && 0 <= b < s.len() && a != b ==> s[a].node_id@ != s[b].node_id@,
    ensures
        forall|a: int, b: int|
            0 <= a < s.update(i, h).len() && 0 <= b < s.update(i, h).len() && a != b
                ==> s.update(i, h)[a].node_id@ != s.update(i, h)[b].node_id@,
        times_of(s.update(i, h), h.node_id@) == h.times@,
{
    let s2 = s.update(i, h);
    assert forall|a: int, b: int|
        0 <= a < s2.len() && 0 <= b < s2.len() && a != b
        implies s2[a].node_id@ != s2[b].node_id@ by {
        assert(s2[a].node_id@ == s[a].node_id@);
        assert(s2[b].node_id@ == s[b].node_id@);
    }
    lemma_history_at_index(s2, i);
}

/// Appending a history for a new peer makes its timestamps readable and
/// keeps peers distinct.
proof fn lemma_history_push(s: Seq<NodeHistory>, h: NodeHistory)
    requires
        !histories_have(s, h.node_id@),
        forall|a: int, b: int|
            0 <= a < s.len() && 0 <= b < s.len() && a != b ==> s[a].node_id@ != s[b].node_id@,
    ensures
        forall|a: int, b: int|
            0 <= a < s.push(h).len() && 0 <= b < s.push(h).len() && a != b ==> s.push(h)[a].node_id@
                != s.push(h)[b].node_id@,
        times_of(s.push(h), h.node_id@) == h.times@,
{
    let s2 = s.push(h);
    assert forall|a: int, b: int|
        0 <= a < s2.len() && 0 <= b < s2.len() && a != b
        implies s2[a].node_id@ != s2[b].node_id@ by {
        if a < s.len() && b < s.len() {
            assert(s2[a] == s[a] && s2[b] == s[b]);
        } else if a < s.len() {
            assert(s2[a] == s[a] && s2[b] == h);
        } else {
            assert(s2[a] == h && s2[b] == s[b]);
        }
    }
    assert(s2[s.len() as int] == h);
    lemma_history_at_index(s2, s.len() as int);
}

/// Keep exactly the timestamps still inside the window at `now`.
fn filter_fresh(times: &Vec<u64>, now: u64, window: u64) -> (r: Vec<u64>)
    ensures
        r@ == fresh_only(times@, now, window),
{
    let mut out: Vec<u64> = Vec::new();
    let mut i: usize = 0;
    proof {
        assert(times@.take(0) =~= Seq::<u64>::empty());
        times@.take(0).lemma_filter_len(|t: u64| now <= t + window);
        assert(times@.take(0).filter(|t: u64| now <= t + window) =~= Seq::<u64>::empty());
    }
    while i < times.len()
        invariant
            i <= times@.len(),
            out@ == times@.take(i as int).filter(|t: u64| now <= t + window),
        decreases times@.len() - i,
    {
        let ghost pre = times@.take(i as int);
        let t = times[i];
        if t >= now || now - t <= window {
            out.push(t);
        }
        proof {
            assert(times@.take(i + 1) =~= pre.push(times@[i as int]));
            pre.lemma_filter_push(times@[i as int], |t: u64| now <= t + window);
        }
        i = i + 1;
    }
    proof {
        assert(times@.take(times@.len() as int) =~= times@);
    }
    out
}

/// Law: once a peer has the per-peer cap of surviving requests in the
/// window, the next request from it is rejected.
pub proof fn lemma_rate_limit_monotonic(rl: RateLimiter, id: Seq<u8>, now: u64)
    requires
        rl.wf(),
        fresh_only(times_of(rl.node_requests@, id), now, rl.window_seconds).len()
            >= rl.per_node_limit,
    ensures
        forall|r: Result<bool, RhizomeError>, post: RateLimiter|
            check_describes(rl, post, Some(id), now, r) ==> r is Err,
{
}

/// The admission decision `r` that `check_rate_limit` makes from `pre` at
/// `now`, written out as a relation.
pub open spec fn check_describes(
    pre: RateLimiter,
    post: RateLimiter,
    node_id: Option<Seq<u8>>,
    now: u64,
    r: Result<bool, RhizomeError>,
) -> bool {
    let survivors = fresh_only(pre.request_history@, now, pre.window_seconds);
    let rejected_globally = survivors.len() >= pre.max_requests;
    let rejected_for_node = match node_id {
        Some(id) => fresh_only(times_of(pre.node_requests@, id), now, pre.window_seconds).len()
            >= pre.per_node_limit,
        None => false,
    };
    (r is Err <==> rejected_globally || rejected_for_node) && (r is Ok
        ==> post.request_history@ == survivors.push(now))
}

} // verus!
