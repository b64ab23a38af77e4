//! Decides which items to copy to more peers; the copies themselves are
//! stores issued through the DHT engine by the caller.
use vstd::prelude::*;
use crate::ranking::RankedItem;
use crate::routing::clone_bytes;
use crate::store::{Storage, expired};

verus! {

/// Time-to-live, in seconds, for re-published popular items: thirty days.
pub const POPULAR_REPLICATION_TTL: u64 = 2592000;

/// Time-to-live, in seconds, for minimal re-publication: one day.
pub const MINIMAL_REPLICATION_TTL: u64 = 86400;

/// Chooses items for re-publication.
pub struct Replicator {
    /// Replicas every item should have.
    pub min_replication_factor: u32,
    /// Replicas a popular item should have.
    pub popular_replication_factor: u32,
}

/// The item is due for replication: popular enough and under-replicated.
pub open spec fn spec_needs_replication(
    item: RankedItem,
    threshold_milli: u32,
    target_factor: u32,
) -> bool {
    item@.score_milli >= threshold_milli && item@.metrics.replication_count < target_factor
}

impl Replicator {
    /// A replicator with the given replica targets.
    pub fn new(min_replication_factor: u32, popular_replication_factor: u32) -> (r: Replicator)
        ensures
            r.min_replication_factor == min_replication_factor,
            r.popular_replication_factor == popular_replication_factor,
    {
        Replicator { min_replication_factor, popular_replication_factor }
    }

    /// Whether `item` should be re-published: its score reaches the
    /// threshold and its observed replica count is below the popular
    /// target.
    pub fn needs_replication(&self, item: &RankedItem, threshold_milli: u32) -> (r: bool)
        ensures
            r == spec_needs_replication(*item, threshold_milli, self.popular_replication_factor),
    {
        item.score_milli >= threshold_milli && item.metrics.replication_count
            < self.popular_replication_factor
    }

    /// Exactly the ranked items due for re-publication, in rank order.
    pub fn replicate_popular_items(&self, ranked_items: &Vec<RankedItem>, threshold_milli: u32)
        -> (r: Vec<RankedItem>)
        ensures
            forall|i: int|
                0 <= i < r@.len() ==> spec_needs_replication(
                    #[trigger] r@[i],
                    threshold_milli,
                    self.popular_replication_factor,
                ),
            forall|i: int|
                0 <= i < r@.len() ==> chosen(ranked_items@, (#[trigger] r@[i])@),
            forall|j: int|
                0 <= j < ranked_items@.len() && spec_needs_replication(
                    #[trigger] ranked_items@[j],
                    threshold_milli,
                    self.popular_replication_factor,
                ) ==> chosen(r@, ranked_items@[j]@),
    {
        let mut out: Vec<RankedItem> = Vec::new();
        let mut i: usize = 0;
        while i < ranked_items.len()
            invariant
                i <= ranked_items@.len(),
                forall|a: int|
                    0 <= a < out@.len() ==> spec_needs_replication(
                        #[trigger] out@[a],
                        threshold_milli,
                        self.popular_replication_factor,
                    ),
                forall|a: int|
                    0 <= a < out@.len() ==> chosen(ranked_items@, (#[trigger] out@[a])@),
                forall|j: int|
                    0 <= j < i && spec_needs_replication(
                        #[trigger] ranked_items@[j],
                        threshold_milli,
                        self.popular_replication_factor,
                    ) ==> chosen(out@, ranked_items@[j]@),
            decreases ranked_items@.len() - i,
        {
            let item = &ranked_items[i];
            if self.needs_replication(item, threshold_milli) {
                let ghost pre = out@;
                let copy = RankedItem {
                    key: clone_bytes(&item.key),
                    score_milli: item.score_milli,
                    metrics: item.metrics,
                };
                proof {
                    assert(copy@ =~= ranked_items@[i as int]@);
                }
                out.push(copy);
                proof {
                    assert(out@[pre.len() as int]@ == ranked_items@[i as int]@);
                    assert forall|j: int|
                        0 <= j < i + 1 && spec_needs_replication(
                            #[trigger] ranked_items@[j],
                            threshold_milli,
                            self.popular_replication_factor,
                        ) implies chosen(out@, ranked_items@[j]@) by {
                        if j < i {
                            lemma_chosen_push(pre, copy, ranked_items@[j]@);
                        }
                    }
                    assert forall|a: int| 0 <= a < out@.len()
                        implies chosen(ranked_items@, (#[trigger] out@[a])@) by {
                        if a < pre.len() {
                            assert(out@[a] == pre[a]);
                        } else {
                            assert(ranked_items@[i as int]@ == out@[a]@);
                        }
                    }
                }
            } else {
                proof {
                    assert forall|j: int|
                        0 <= j < i + 1 && spec_needs_replication(
                            #[trigger] ranked_items@[j],
                            threshold_milli,
                            self.popular_replication_factor,
                        ) implies chosen(out@, ranked_items@[j]@) by {
                        if j == i {
                            assert(!spec_needs_replication(
                                ranked_items@[j],
                                threshold_milli,
                                self.popular_replication_factor,
                            ));
                        }
                    }
                }
            }
            i = i + 1;
        }
        out
    }
}

/// Some pair in `s` carries the key `k`.
pub open spec fn pair_key_present(s: Seq<(Vec<u8>, Vec<u8>)>, k: Seq<u8>) -> bool {
    exists|i: int| 0 <= i < s.len() && (#[trigger] s[i]).0@ == k
}

impl Replicator {
    /// The records to re-publish for minimal replication: every input
    /// key visible in the store at `now`, paired with its stored value;
    /// what the caller does with them is one store per pair, with the
    /// one-day time-to-live.
    pub fn ensure_minimal_replication(
        &self,
        keys: &Vec<Vec<u8>>,
        storage: &Storage,
        now: u64,
    ) -> (r: Vec<(Vec<u8>, Vec<u8>)>)
        requires
            storage.wf(),
        ensures
            forall|i: int|
                0 <= i < r@.len() ==> ({
                    let p = #[trigger] r@[i];
                    &&& storage@.dom().contains(p.0@)
                    &&& !expired(storage@[p.0@], now)
                    &&& p.1@ == storage@[p.0@].value
                }),
            forall|j: int|
                0 <= j < keys@.len() && storage@.dom().contains((#[trigger] keys@[j])@)
                    && !expired(storage@[keys@[j]@], now) ==> pair_key_present(r@, keys@[j]@),
    {
        let mut out: Vec<(Vec<u8>, Vec<u8>)> = Vec::new();
        let mut j: usize = 0;
        while j < keys.len()
            invariant
                storage.wf(),
                j <= keys@.len(),
                forall|i: int|
                    0 <= i < out@.len() ==> ({
                        let p = #[trigger] out@[i];
                        &&& storage@.dom().contains(p.0@)
                        &&& !expired(storage@[p.0@], now)
                        &&& p.1@ == storage@[p.0@].value
                    }),
                forall|a: int|
                    0 <= a < j && storage@.dom().contains((#[trigger] keys@[a])@) && !expired(
                        storage@[keys@[a]@],
                        now,
                    ) ==> pair_key_present(out@, keys@[a]@),
            decreases keys@.len() - j,
        {
            let key = &keys[j];
            match storage.lookup(key, now) {
                Some(value) => {
                    let ghost pre_out = out@;
                    out.push((clone_bytes(key), value));
                    proof {
                        assert(out@[pre_out.len() as int].0@ == keys@[j as int]@);
                        assert forall|a: int|
                            0 <= a < j + 1 && storage@.dom().contains((#[trigger] keys@[a])@)
                                && !expired(storage@[keys@[a]@], now)
                            implies pair_key_present(out@, keys@[a]@) by {
                            if a < j {
                                let w = choose|w: int|
                                    0 <= w < pre_out.len() && (#[trigger] pre_out[w]).0@
                                        == keys@[a]@;
                                assert(out@[w].0@ == keys@[a]@);
                            } else {
                                assert(out@[pre_out.len() as int].0@ == keys@[a]@);
                            }
                        }
                    }
                },
                None => {},
            }
            j = j + 1;
        }
        out
    }
}

/// Some element of `s` reads `v`.
pub open spec fn chosen(s: Seq<RankedItem>, v: crate::ranking::RankedView) -> bool {
    exists|i: int| 0 <= i < s.len() && (#[trigger] s[i])@ == v
}

proof fn lemma_chosen_push(s: Seq<RankedItem>, x: RankedItem, v: crate::ranking::RankedView)
    requires
        chosen(s, v),
    ensures
        chosen(s.push(x), v),
{
    let i = choose|i: int| 0 <= i < s.len() && (#[trigger] s[i])@ == v;
    assert(s.push(x)[i]@ == v);
}

} // verus!
