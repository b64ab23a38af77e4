//! Gossip of popularity items and seed-consensus aggregation. The
//! datagrams themselves travel outside this module; it prepares what is
//! sent and folds in what came back.
use vstd::prelude::*;
use vstd::multiset::Multiset;
use crate::metrics::{MetricsCollector, MetricsSnapshot, PopularityMetrics, collector_has,
    spec_replicated, spec_replication_raised_only};
use crate::ranking::{PopularityRanker, RankedItem, rank_le, represented, scored_from};
use crate::routing::clone_bytes;

verus! {

/// Most items kept in the consensus ranking.
pub const GLOBAL_RANKING_CAP: usize = 100;

/// Exchanges popularity data with neighbors and aggregates the seeds'
/// global ranking.
pub struct PopularityExchanger {
    /// The ranker used for local items.
    pub ranker: PopularityRanker,
    /// The cached consensus ranking, best first.
    pub global_ranking: Vec<RankedItem>,
    /// When the cached ranking was computed, in seconds.
    pub global_ranking_updated: u64,
}

impl PopularityExchanger {
    /// The cached ranking is ordered and bounded.
    pub open spec fn wf(self) -> bool {
        &&& self.global_ranking@.len() <= GLOBAL_RANKING_CAP
        &&& forall|i: int, j: int|
            0 <= i < j < self.global_ranking@.len() ==> rank_le(
                self.global_ranking@[i]@,
                self.global_ranking@[j]@,
            )
    }

    /// An exchanger with an empty consensus cache.
    pub fn new(ranker: PopularityRanker) -> (r: PopularityExchanger)
        ensures
            r.wf(),
            r.ranker == ranker,
            r.global_ranking@.len() == 0,
            r.global_ranking_updated == 0,
    {
        PopularityExchanger { ranker, global_ranking: Vec::new(), global_ranking_updated: 0 }
    }

    /// The local top `top_n` items, ready to be offered to neighbors, and
    /// the received items folded into the local metrics: a known key may
    /// only have its replica count raised, an unknown key is adopted
    /// carrying the peer-reported snapshot.
    pub fn exchange_top_items(
        &self,
        collector: &mut MetricsCollector,
        received: &Vec<RankedItem>,
        top_n: usize,
        now: u64,
    ) -> (r: Vec<RankedItem>)
        requires
            old(collector).wf(),
        ensures
            final(collector).wf(),
            r@.len() == (if top_n <= old(collector).metrics@.len() {
                top_n as int
            } else {
                old(collector).metrics@.len() as int
            }),
            forall|i: int, j: int| 0 <= i < j < r@.len() ==> rank_le(r@[i]@, r@[j]@),
            forall|i: int|
                0 <= i < r@.len() ==> scored_from(
                    old(collector).metrics@,
                    (#[trigger] r@[i])@,
                    now,
                ),
            top_n >= old(collector).metrics@.len() ==> forall|j: int|
                0 <= j < old(collector).metrics@.len() ==> represented(
                    r@,
                    #[trigger] old(collector).metrics@[j],
                    now,
                ),
            final(collector).metrics@.len() >= old(collector).metrics@.len(),
            forall|j: int|
                0 <= j < old(collector).metrics@.len() ==> spec_replication_raised_only(
                    #[trigger] old(collector).metrics@[j],
                    final(collector).metrics@[j],
                ),
            forall|i: int|
                0 <= i < received@.len() ==> collector_has(
                    final(collector).metrics@,
                    (#[trigger] received@[i])@.key,
                ),
            forall|a: int|
                old(collector).metrics@.len() <= a < final(collector).metrics@.len()
                    ==> adopted_from(received@, #[trigger] final(collector).metrics@[a]),
    {
        let offered = self.ranker.rank_items(collector.get_all_metrics(), Some(top_n), now);
        process_received_items(collector, received);
        offered
    }

    /// Fold the seeds' reported rankings and the local one into a median
    /// consensus: one entry per locally ranked key the collector tracks,
    /// scored with the median of every score collected for that key and
    /// carrying the tracked snapshot; ordered best first, cut to the cap
    /// (keys are only dropped at the cap), and cached.
    pub fn aggregate_global_ranking(
        &mut self,
        local_rankings: &Vec<RankedItem>,
        seed_reports: &Vec<RankedItem>,
        collector: &MetricsCollector,
        now: u64,
    ) -> (r: Vec<RankedItem>)
        requires
            old(self).wf(),
            collector.wf(),
        ensures
            final(self).wf(),
            final(self).global_ranking_updated == now,
            r@.len() <= GLOBAL_RANKING_CAP,
            forall|i: int, j: int| 0 <= i < j < r@.len() ==> rank_le(r@[i]@, r@[j]@),
            r@.len() == final(self).global_ranking@.len(),
            forall|i: int|
                0 <= i < r@.len() ==> (#[trigger] r@[i])@ == final(self).global_ranking@[i]@,
            forall|a: int|
                0 <= a < r@.len() ==> consensus_entry_ok(
                    local_rankings@,
                    seed_reports@,
                    collector.metrics@,
                    (#[trigger] r@[a])@,
                ),
            forall|a: int, b: int| 0 <= a < b < r@.len() ==> r@[a]@.key != r@[b]@.key,
            r@.len() < GLOBAL_RANKING_CAP ==> forall|j: int|
                0 <= j < local_rankings@.len() && collector_has(
                    collector.metrics@,
                    (#[trigger] local_rankings@[j])@.key,
                ) ==> items_have_key(r@, local_rankings@[j]@.key),
    {
        let mut consensus: Vec<RankedItem> = Vec::new();
        let mut i: usize = 0;
        while i < local_rankings.len()
            invariant
                collector.wf(),
                i <= local_rankings@.len(),
                forall|a: int|
                    0 <= a < consensus@.len() ==> consensus_entry_ok(
                        local_rankings@,
                        seed_reports@,
                        collector.metrics@,
                        (#[trigger] consensus@[a])@,
                    ),
                forall|a: int, b: int|
                    0 <= a < b < consensus@.len() ==> consensus@[a]@.key != consensus@[b]@.key,
                forall|j: int|
                    0 <= j < i && collector_has(
                        collector.metrics@,
                        (#[trigger] local_rankings@[j])@.key,
                    ) ==> items_have_key(consensus@, local_rankings@[j]@.key),
            decreases local_rankings@.len() - i,
        {
            let item = &local_rankings[i];
            if !result_has_key(&consensus, &item.key) {
                match collector.get_metrics(&item.key) {
                    Some(entry) => {
                        let snapshot = entry.get_snapshot();
                        proof {
                            assert(items_have_key(local_rankings@, item.key@)) by {
                                assert(local_rankings@[i as int]@.key == item.key@);
                            }
                            lemma_scores_nonempty(local_rankings@, item.key@);
                        }
                        let scores = collect_scores(local_rankings, seed_reports, &item.key);
                        let median = median_score(&scores);
                        let ghost pre = consensus@;
                        consensus.push(
                            RankedItem {
                                key: clone_bytes(&item.key),
                                score_milli: median,
                                metrics: snapshot,
                            },
                        );
                        proof {
                            let nv = consensus@[pre.len() as int]@;
                            assert(nv.key == item.key@);
                            assert(consensus_entry_ok(
                                local_rankings@,
                                seed_reports@,
                                collector.metrics@,
                                nv,
                            ));
                            assert forall|a: int| 0 <= a < consensus@.len()
                                implies consensus_entry_ok(
                                    local_rankings@,
                                    seed_reports@,
                                    collector.metrics@,
                                    (#[trigger] consensus@[a])@,
                                ) by {
                                if a < pre.len() {
                                    assert(consensus@[a] == pre[a]);
                                }
                            }
                            assert forall|a: int, b: int| 0 <= a < b < consensus@.len()
                                implies consensus@[a]@.key != consensus@[b]@.key by {
                                if b < pre.len() {
                                    assert(consensus@[a] == pre[a] && consensus@[b] == pre[b]);
                                } else {
                                    assert(consensus@[a] == pre[a]);
                                    assert(!items_have_key(pre, item.key@));
                                }
                            }
                            assert forall|j: int|
                                0 <= j < i + 1 && collector_has(
                                    collector.metrics@,
                                    (#[trigger] local_rankings@[j])@.key,
                                ) implies items_have_key(
                                consensus@,
                                local_rankings@[j]@.key,
                            ) by {
                                if j < i {
                                    let w = choose|w: int|
                                        0 <= w < pre.len() && (#[trigger] pre[w])@.key
                                            == local_rankings@[j]@.key;
                                    assert(consensus@[w]@.key == local_rankings@[j]@.key);
                                }
                            }
                        }
                    },
                    None => {},
                }
            } else {
                proof {
                    assert forall|j: int|
                        0 <= j < i + 1 && collector_has(
                            collector.metrics@,
                            (#[trigger] local_rankings@[j])@.key,
                        ) implies items_have_key(consensus@, local_rankings@[j]@.key) by {
                        if j == i {
                            assert(items_have_key(consensus@, item.key@));
                        }
                    }
                }
            }
            i = i + 1;
        }
        let ghost consensus_view = consensus@;
        let mut sorted = sort_consensus(
            consensus,
            Ghost(local_rankings@),
            Ghost(seed_reports@),
            Ghost(collector.metrics@),
        );
        let ghost sorted_full = sorted@;
        sorted.truncate(GLOBAL_RANKING_CAP);
        proof {
            broadcast use vstd::seq_lib::group_to_multiset_ensures;

            if GLOBAL_RANKING_CAP < sorted_full.len() {
                assert(sorted@ =~= sorted_full.take(GLOBAL_RANKING_CAP as int));
            } else {
                assert(sorted@ =~= sorted_full);
            }
            if sorted@.len() < GLOBAL_RANKING_CAP {
                assert(sorted@ == sorted_full);
                assert forall|j: int|
                    0 <= j < local_rankings@.len() && collector_has(
                        collector.metrics@,
                        (#[trigger] local_rankings@[j])@.key,
                    ) implies items_have_key(sorted@, local_rankings@[j]@.key) by {
                    let w = choose|w: int|
                        0 <= w < consensus_view.len() && (#[trigger] consensus_view[w])@.key
                            == local_rankings@[j]@.key;
                    let x = consensus_view[w];
                    assert(consensus_view.contains(x));
                    assert(consensus_view.to_multiset().count(x) > 0);
                    assert(sorted_full.to_multiset().count(x) > 0);
                    assert(sorted_full.contains(x));
                    let sx = choose|sx: int|
                        0 <= sx < sorted_full.len() && sorted_full[sx] == x;
                    assert(sorted@[sx]@.key == local_rankings@[j]@.key);
                }
            }
        }
        let mut cached: Vec<RankedItem> = Vec::new();
        let mut c: usize = 0;
        while c < sorted.len()
            invariant
                c <= sorted@.len(),
                cached@.len() == c,
                forall|a: int| 0 <= a < c ==> (#[trigger] cached@[a])@ == sorted@[a]@,
            decreases sorted@.len() - c,
        {
            cached.push(
                RankedItem {
                    key: clone_bytes(&sorted[c].key),
                    score_milli: sorted[c].score_milli,
                    metrics: sorted[c].metrics,
                },
            );
            proof {
                assert(cached@[c as int]@ =~= sorted@[c as int]@);
            }
            c = c + 1;
        }
        proof {
            if cached@.len() < GLOBAL_RANKING_CAP {
                assert forall|j: int|
                    0 <= j < local_rankings@.len() && collector_has(
                        collector.metrics@,
                        (#[trigger] local_rankings@[j])@.key,
                    ) implies items_have_key(cached@, local_rankings@[j]@.key) by {
                    let w = choose|w: int|
                        0 <= w < sorted@.len() && (#[trigger] sorted@[w])@.key
                            == local_rankings@[j]@.key;
                    assert(cached@[w]@.key == local_rankings@[j]@.key);
                }
            }
        }
        self.global_ranking = sorted;
        self.global_ranking_updated = now;
        cached
    }

    /// A copy of the cached consensus ranking.
    pub fn get_global_ranking_api(&self) -> (r: Vec<RankedItem>)
        ensures
            r@.len() == self.global_ranking@.len(),
            forall|i: int|
                0 <= i < r@.len() ==> (#[trigger] r@[i])@ == self.global_ranking@[i]@,
    {
        let mut out: Vec<RankedItem> = Vec::new();
        let mut i: usize = 0;
        while i < self.global_ranking.len()
            invariant
                i <= self.global_ranking@.len(),
                out@.len() == i,
                forall|a: int| 0 <= a < i ==> (#[trigger] out@[a])@ == self.global_ranking@[a]@,
            decreases self.global_ranking@.len() - i,
        {
            let item = &self.global_ranking[i];
            out.push(
                RankedItem {
                    key: clone_bytes(&item.key),
                    score_milli: item.score_milli,
                    metrics: item.metrics,
                },
            );
            proof {
                assert(out@[i as int]@ =~= self.global_ranking@[i as int]@);
            }
            i = i + 1;
        }
        out
    }
}

/// Some item in `s` carries the key `k`.
pub open spec fn items_have_key(s: Seq<RankedItem>, k: Seq<u8>) -> bool {
    exists|i: int| 0 <= i < s.len() && (#[trigger] s[i])@.key == k
}

/// The scores reported for key `k` by the items of `items`, in order.
pub open spec fn scores_for(items: Seq<RankedItem>, k: Seq<u8>) -> Seq<u32>
    decreases items.len(),
{
    if items.len() == 0 {
        Seq::empty()
    } else {
        let rest = scores_for(items.drop_first(), k);
        if items[0]@.key == k {
            seq![items[0].score_milli] + rest
        } else {
            rest
        }
    }
}

/// Every score collected for key `k`: the local reports first, then the
/// seeds' reports.
pub open spec fn all_scores_for(
    local: Seq<RankedItem>,
    reports: Seq<RankedItem>,
    k: Seq<u8>,
) -> Seq<u32> {
    scores_for(local, k) + scores_for(reports, k)
}

/// `m` is the median of `scores`: the middle element (the upper of the
/// two middles for an even count) of the scores in ascending order.
pub open spec fn spec_is_median(scores: Seq<u32>, m: u32) -> bool {
    exists|s: Seq<u32>|
        {
            &&& #[trigger] s.to_multiset() == scores.to_multiset()
            &&& s.len() == scores.len()
            &&& (forall|i: int, j: int| 0 <= i < j < s.len() ==> s[i] <= s[j])
            &&& m == s[s.len() as int / 2]
        }
}

/// The consensus view `v` is right for its key: the key is locally
/// ranked and tracked, the score is the median of every score collected
/// for it, and the metrics are the tracked entry's snapshot.
pub open spec fn consensus_entry_ok(
    local: Seq<RankedItem>,
    reports: Seq<RankedItem>,
    entries: Seq<PopularityMetrics>,
    v: crate::ranking::RankedView,
) -> bool {
    &&& items_have_key(local, v.key)
    &&& collector_has(entries, v.key)
    &&& spec_is_median(all_scores_for(local, reports, v.key), v.score_milli)
    &&& exists|ci: int|
        0 <= ci < entries.len() && (#[trigger] entries[ci]).key@ == v.key && v.metrics
            == entries[ci].snapshot
}

proof fn lemma_scores_for_take(items: Seq<RankedItem>, k: Seq<u8>, i: int)
    requires
        0 <= i < items.len(),
    ensures
        scores_for(items.take(i + 1), k) =~= scores_for(items.take(i), k) + (if items[i]@.key
            == k {
            seq![items[i].score_milli]
        } else {
            Seq::<u32>::empty()
        }),
    decreases i,
{
    if i == 0 {
        assert(items.take(0) =~= Seq::<RankedItem>::empty());
        assert(items.take(1) =~= seq![items[0]]);
        assert(items.take(1).drop_first() =~= Seq::<RankedItem>::empty());
    } else {
        lemma_scores_for_take(items.drop_first(), k, i - 1);
        assert(items.take(i + 1).drop_first() =~= items.drop_first().take(i));
        assert(items.take(i).drop_first() =~= items.drop_first().take(i - 1));
        assert(items.take(i + 1)[0] == items[0]);
        assert(items.take(i)[0] == items[0]);
    }
}

proof fn lemma_scores_nonempty(items: Seq<RankedItem>, k: Seq<u8>)
    requires
        items_have_key(items, k),
    ensures
        scores_for(items, k).len() >= 1,
    decreases items.len(),
{
    if items.len() > 0 && items[0]@.key != k {
        assert(items_have_key(items.drop_first(), k)) by {
            let i = choose|i: int| 0 <= i < items.len() && (#[trigger] items[i])@.key == k;
            assert(items.drop_first()[i - 1]@.key == k);
        }
        lemma_scores_nonempty(items.drop_first(), k);
    }
}

/// Every score reported for key `k`, local reports first.
fn collect_scores(local: &Vec<RankedItem>, reports: &Vec<RankedItem>, key: &Vec<u8>) -> (r: Vec<
    u32,
>)
    ensures
        r@ == all_scores_for(local@, reports@, key@),
{
    let mut out: Vec<u32> = Vec::new();
    proof {
        assert(local@.take(0) =~= Seq::<RankedItem>::empty());
        assert(out@ =~= scores_for(local@.take(0), key@));
    }
    let mut i: usize = 0;
    while i < local.len()
        invariant
            i <= local@.len(),
            out@ == scores_for(local@.take(i as int), key@),
        decreases local@.len() - i,
    {
        proof {
            lemma_scores_for_take(local@, key@, i as int);
        }
        if crate::store::bytes_equal(&local[i].key, key) {
            out.push(local[i].score_milli);
        }
        proof {
            assert(out@ =~= scores_for(local@.take(i + 1), key@));
        }
        i = i + 1;
    }
    proof {
        assert(local@.take(local@.len() as int) =~= local@);
        assert(reports@.take(0) =~= Seq::<RankedItem>::empty());
        assert(out@ =~= scores_for(local@, key@) + scores_for(reports@.take(0), key@));
    }
    let mut j: usize = 0;
    while j < reports.len()
        invariant
            j <= reports@.len(),
            out@ == scores_for(local@, key@) + scores_for(reports@.take(j as int), key@),
        decreases reports@.len() - j,
    {
        proof {
            lemma_scores_for_take(reports@, key@, j as int);
        }
        if crate::store::bytes_equal(&reports[j].key, key) {
            out.push(reports[j].score_milli);
        }
        proof {
            assert(out@ =~= scores_for(local@, key@) + scores_for(reports@.take(j + 1), key@));
        }
        j = j + 1;
    }
    proof {
        assert(reports@.take(reports@.len() as int) =~= reports@);
        assert(out@ =~= all_scores_for(local@, reports@, key@));
    }
    out
}

/// Whether the built consensus already holds an entry for `key`.
fn result_has_key(items: &Vec<RankedItem>, key: &Vec<u8>) -> (r: bool)
    ensures
        r == items_have_key(items@, key@),
{
    let mut i: usize = 0;
    while i < items.len()
        invariant
            i <= items@.len(),
            forall|j: int| 0 <= j < i ==> (#[trigger] items@[j])@.key != key@,
        decreases items@.len() - i,
    {
        if crate::store::bytes_equal(&items[i].key, key) {
            return true;
        }
        i = i + 1;
    }
    false
}

/// The entry `e` was adopted from one of the received items: no local
/// observations yet and that item's snapshot, with the replica count
/// possibly raised by later reports.
pub open spec fn adopted_from(items: Seq<RankedItem>, e: PopularityMetrics) -> bool {
    exists|i: int|
        0 <= i < items.len() && {
            let it = #[trigger] items[i];
            &&& e.key@ == it@.key
            &&& e.created_at is None
            &&& e.request_timestamps@ == Seq::<u64>::empty()
            &&& e.requesting_nodes@.len() == 0
            &&& e.snapshot == (MetricsSnapshot {
                replication_count: e.snapshot.replication_count,
                ..it.metrics
            })
            &&& e.snapshot.replication_count >= it.metrics.replication_count
        }
}

/// Fold received popularity items into the collector: a key already
/// known may only have its replica count raised; an unknown key is
/// adopted carrying the peer-reported snapshot, with nothing observed
/// locally yet.
pub fn process_received_items(collector: &mut MetricsCollector, items: &Vec<RankedItem>)
    requires
        old(collector).wf(),
    ensures
        final(collector).wf(),
        final(collector).metrics@.len() >= old(collector).metrics@.len(),
        forall|j: int|
            0 <= j < old(collector).metrics@.len() ==> spec_replication_raised_only(
                #[trigger] old(collector).metrics@[j],
                final(collector).metrics@[j],
            ),
        forall|i: int|
            0 <= i < items@.len() ==> collector_has(
                final(collector).metrics@,
                (#[trigger] items@[i])@.key,
            ),
        forall|a: int|
            old(collector).metrics@.len() <= a < final(collector).metrics@.len() ==> adopted_from(
                items@,
                #[trigger] final(collector).metrics@[a],
            ),
{
    let ghost old_len = collector.metrics@.len();
    let ghost orig = collector.metrics@;
    let mut i: usize = 0;
    while i < items.len()
        invariant
            collector.wf(),
            i <= items@.len(),
            collector.metrics@.len() >= old_len,
            old_len == orig.len(),
            forall|j: int|
                0 <= j < old_len ==> spec_replication_raised_only(
                    #[trigger] orig[j],
                    collector.metrics@[j],
                ),
            forall|j: int|
                0 <= j < i ==> collector_has(
                    collector.metrics@,
                    (#[trigger] items@[j])@.key,
                ),
            forall|a: int|
                old_len <= a < collector.metrics@.len() ==> adopted_from(
                    items@,
                    #[trigger] collector.metrics@[a],
                ),
        decreases items@.len() - i,
    {
        let item = &items[i];
        let ghost pre = collector.metrics@;
        collector.merge_reported(clone_bytes(&item.key), item.metrics);
        proof {
            let post = collector.metrics@;
            if collector_has(pre, item.key@) {
                let jj = choose|jj: int|
                    0 <= jj < pre.len() && pre[jj].key@ == item.key@ && post == pre.update(
                        jj,
                        post[jj],
                    ) && post[jj].key@ == item.key@ && spec_replicated(
                        pre[jj],
                        post[jj],
                        item.metrics.replication_count,
                    );
                assert(spec_replication_raised_only(pre[jj], post[jj]));
                assert forall|j: int| 0 <= j < old_len
                    implies spec_replication_raised_only(#[trigger] orig[j], post[j]) by {
                    if j != jj {
                        assert(post[j] == pre[j]);
                    }
                }
                assert forall|a: int| old_len <= a < post.len()
                    implies adopted_from(items@, #[trigger] post[a]) by {
                    if a != jj {
                        assert(post[a] == pre[a]);
                    } else {
                        let wi = choose|wi: int|
                            0 <= wi < items@.len() && {
                                let it = #[trigger] items@[wi];
                                &&& pre[jj].key@ == it@.key
                                &&& pre[jj].created_at is None
                                &&& pre[jj].request_timestamps@ == Seq::<u64>::empty()
                                &&& pre[jj].requesting_nodes@.len() == 0
                                &&& pre[jj].snapshot == (MetricsSnapshot {
                                    replication_count: pre[jj].snapshot.replication_count,
                                    ..it.metrics
                                })
                                &&& pre[jj].snapshot.replication_count
                                    >= it.metrics.replication_count
                            };
                        assert(post[a].snapshot == (MetricsSnapshot {
                            replication_count: post[a].snapshot.replication_count,
                            ..items@[wi].metrics
                        }));
                    }
                }
            } else {
                assert(post == pre.push(post[pre.len() as int]));
                assert forall|j: int| 0 <= j < old_len
                    implies spec_replication_raised_only(#[trigger] orig[j], post[j]) by {
                    assert(post[j] == pre[j]);
                }
                assert forall|a: int| old_len <= a < post.len()
                    implies adopted_from(items@, #[trigger] post[a]) by {
                    if a < pre.len() {
                        assert(post[a] == pre[a]);
                    } else {
                        assert(post[a].key@ == items@[i as int]@.key);
                        assert(post[a].snapshot == (MetricsSnapshot {
                            replication_count: post[a].snapshot.replication_count,
                            ..items@[i as int].metrics
                        }));
                    }
                }
            }
            assert forall|j: int| 0 <= j < i + 1
                implies collector_has(collector.metrics@, (#[trigger] items@[j])@.key) by {
                if j < i {
                    lemma_has_preserved(pre, collector.metrics@, items@[j]@.key);
                } else {
                    assert(collector_has(collector.metrics@, item.key@));
                }
            }
        }
        i = i + 1;
    }
}

/// A key present before a merge is still present after: the collector
/// only updates in place or appends.
proof fn lemma_has_preserved(pre: Seq<PopularityMetrics>, post: Seq<PopularityMetrics>, k: Seq<u8>)
    requires
        collector_has(pre, k),
        post == pre.push(post[pre.len() as int]) || exists|j: int|
            0 <= j < pre.len() && post == pre.update(j, post[j]) && post[j].key@ == pre[j].key@,
    ensures
        collector_has(post, k),
{
    let a = choose|a: int| 0 <= a < pre.len() && (#[trigger] pre[a]).key@ == k;
    if post == pre.push(post[pre.len() as int]) {
        assert(post[a] == pre[a]);
    } else {
        let j = choose|j: int|
            0 <= j < pre.len() && post == pre.update(j, post[j]) && post[j].key@ == pre[j].key@;
        if a == j {
            assert(post[j].key@ == k);
        } else {
            assert(post[a] == pre[a]);
        }
    }
}

/// The median of the scores: the middle element (upper of the two middles
/// for an even count) of the scores in ascending order.
pub fn median_score(scores: &Vec<u32>) -> (r: u32)
    requires
        scores@.len() >= 1,
    ensures
        spec_is_median(scores@, r),
        scores@.contains(r),
{
    broadcast use vstd::seq_lib::group_to_multiset_ensures;

    let ghost orig = scores@;
    let mut rest = clone_scores(scores);
    let mut sorted: Vec<u32> = Vec::new();
    while rest.len() > 0
        invariant
            sorted@.len() + rest@.len() == orig.len(),
            sorted@.to_multiset().add(rest@.to_multiset()) =~= orig.to_multiset(),
            forall|i: int, j: int| 0 <= i < j < sorted@.len() ==> sorted@[i] <= sorted@[j],
            forall|i: int, j: int|
                0 <= i < sorted@.len() && 0 <= j < rest@.len() ==> sorted@[i] <= rest@[j],
        decreases rest@.len(),
    {
        let mut best: usize = 0;
        let mut cand: usize = 1;
        while cand < rest.len()
            invariant
                rest@.len() > 0,
                best < cand,
                cand <= rest@.len(),
                forall|j: int| 0 <= j < cand ==> rest@[best as int] <= rest@[j],
            decreases rest@.len() - cand,
        {
            if rest[cand] < rest[best] {
                best = cand;
            }
            cand = cand + 1;
        }
        let ghost pre_rest = rest@;
        let ghost pre_sorted = sorted@;
        let m = rest.remove(best);
        sorted.push(m);
        proof {
            vstd::seq_lib::to_multiset_remove(pre_rest, best as int);
            vstd::seq_lib::to_multiset_build(pre_sorted, m);
            assert(pre_rest.contains(m));
            vstd::seq_lib::to_multiset_contains(pre_rest, m);
            assert(sorted@.to_multiset().add(rest@.to_multiset()) =~= orig.to_multiset());
            assert forall|i: int, j: int|
                0 <= i < sorted@.len() && 0 <= j < rest@.len()
                implies sorted@[i] <= rest@[j] by {
                let pj: int = if j < best {
                    j
                } else {
                    j + 1
                };
                assert(rest@[j] == pre_rest[pj]);
                if i < pre_sorted.len() {
                    assert(sorted@[i] == pre_sorted[i]);
                } else {
                    assert(sorted@[i] == m);
                }
            }
        }
    }
    proof {
        assert(rest@.to_multiset() =~= Multiset::<u32>::empty());
        assert(sorted@.to_multiset() =~= orig.to_multiset());
        vstd::seq_lib::to_multiset_len(sorted@);
        vstd::seq_lib::to_multiset_len(orig);
    }
    let r = sorted[sorted.len() / 2];
    proof {
        assert(sorted@.contains(r));
        vstd::seq_lib::to_multiset_contains(sorted@, r);
        vstd::seq_lib::to_multiset_contains(orig, r);
    }
    r
}

/// Copy a score vector.
fn clone_scores(v: &Vec<u32>) -> (r: Vec<u32>)
    ensures
        r@ == v@,
{
    let mut out: Vec<u32> = Vec::new();
    let mut i: usize = 0;
    while i < v.len()
        invariant
            i <= v@.len(),
            out@ == v@.subrange(0, i as int),
        decreases v@.len() - i,
    {
        out.push(v[i]);
        proof {
            assert(out@ =~= v@.subrange(0, i + 1));
        }
        i = i + 1;
    }
    proof {
        assert(out@ =~= v@);
    }
    out
}

/// Sort consensus items best first, keeping exactly the same items,
/// their per-key correctness and their key distinctness.
fn sort_consensus(
    v: Vec<RankedItem>,
    loc: Ghost<Seq<RankedItem>>,
    rep: Ghost<Seq<RankedItem>>,
    ents: Ghost<Seq<PopularityMetrics>>,
) -> (r: Vec<RankedItem>)
    requires
        forall|i: int|
            0 <= i < v@.len() ==> consensus_entry_ok(loc@, rep@, ents@, (#[trigger] v@[i])@),
        forall|a: int, b: int| 0 <= a < b < v@.len() ==> v@[a]@.key != v@[b]@.key,
    ensures
        r@.len() == v@.len(),
        r@.to_multiset() == v@.to_multiset(),
        forall|i: int, j: int| 0 <= i < j < r@.len() ==> rank_le(r@[i]@, r@[j]@),
        forall|i: int|
            0 <= i < r@.len() ==> consensus_entry_ok(loc@, rep@, ents@, (#[trigger] r@[i])@),
        forall|a: int, b: int| 0 <= a < b < r@.len() ==> r@[a]@.key != r@[b]@.key,
{
    broadcast use vstd::seq_lib::group_to_multiset_ensures;

    let ghost orig = v@;
    let mut rest = v;
    let mut out: Vec<RankedItem> = Vec::new();
    while rest.len() > 0
        invariant
            out@.len() + rest@.len() == orig.len(),
            out@.to_multiset().add(rest@.to_multiset()) =~= orig.to_multiset(),
            forall|i: int, j: int| 0 <= i < j < out@.len() ==> rank_le(out@[i]@, out@[j]@),
            forall|i: int, j: int|
                0 <= i < out@.len() && 0 <= j < rest@.len() ==> rank_le(out@[i]@, rest@[j]@),
            forall|i: int|
                0 <= i < out@.len() ==> consensus_entry_ok(
                    loc@,
                    rep@,
                    ents@,
                    (#[trigger] out@[i])@,
                ),
            forall|i: int|
                0 <= i < rest@.len() ==> consensus_entry_ok(
                    loc@,
                    rep@,
                    ents@,
                    (#[trigger] rest@[i])@,
                ),
            forall|a: int, b: int| 0 <= a < b < out@.len() ==> out@[a]@.key != out@[b]@.key,
            forall|a: int, b: int| 0 <= a < b < rest@.len() ==> rest@[a]@.key != rest@[b]@.key,
            forall|a: int, b: int|
                0 <= a < out@.len() && 0 <= b < rest@.len() ==> out@[a]@.key != rest@[b]@.key,
        decreases rest@.len(),
    {
        let mut best: usize = 0;
        let mut cand: usize = 1;
        proof {
            crate::ranking::lemma_rank_le_total(rest@[0]@, rest@[0]@);
        }
        while cand < rest.len()
            invariant
                rest@.len() > 0,
                best < cand,
                cand <= rest@.len(),
                forall|j: int|
                    0 <= j < cand ==> rank_le(rest@[best as int]@, rest@[j]@),
            decreases rest@.len() - cand,
        {
            if !crate::ranking::rank_le_items_pub(&rest[best], &rest[cand]) {
                proof {
                    crate::ranking::lemma_rank_le_total(rest@[best as int]@, rest@[cand as int]@);
                    assert forall|j: int| 0 <= j < cand + 1
                        implies rank_le(rest@[cand as int]@, rest@[j]@) by {
                        if j < cand {
                            crate::ranking::lemma_rank_le_trans(
                                rest@[cand as int]@,
                                rest@[best as int]@,
                                rest@[j]@,
                            );
                        } else {
                            crate::ranking::lemma_rank_le_total(
                                rest@[cand as int]@,
                                rest@[cand as int]@,
                            );
                        }
                    }
                }
                best = cand;
            }
            proof {
                crate::ranking::lemma_rank_le_total(rest@[cand as int]@, rest@[cand as int]@);
            }
            cand = cand + 1;
        }
        let ghost pre_rest = rest@;
        let ghost pre_out = out@;
        let m = rest.remove(best);
        out.push(m);
        proof {
            vstd::seq_lib::to_multiset_remove(pre_rest, best as int);
            vstd::seq_lib::to_multiset_build(pre_out, m);
            assert(pre_rest.contains(m));
            vstd::seq_lib::to_multiset_contains(pre_rest, m);
            assert(out@.to_multiset().add(rest@.to_multiset()) =~= orig.to_multiset());
            assert forall|i: int, j: int|
                0 <= i < out@.len() && 0 <= j < rest@.len()
                implies rank_le(out@[i]@, rest@[j]@) by {
                let pj: int = if j < best {
                    j
                } else {
                    j + 1
                };
                assert(rest@[j] == pre_rest[pj]);
                if i < pre_out.len() {
                    assert(out@[i] == pre_out[i]);
                } else {
                    assert(out@[i] == m);
                }
            }
            assert forall|j: int| 0 <= j < rest@.len()
                implies consensus_entry_ok(loc@, rep@, ents@, (#[trigger] rest@[j])@) by {
                let pj: int = if j < best {
                    j
                } else {
                    j + 1
                };
                assert(rest@[j] == pre_rest[pj]);
            }
            assert forall|i: int| 0 <= i < out@.len()
                implies consensus_entry_ok(loc@, rep@, ents@, (#[trigger] out@[i])@) by {
                if i < pre_out.len() {
                    assert(out@[i] == pre_out[i]);
                } else {
                    assert(out@[i] == m);
                    assert(m == pre_rest[best as int]);
                }
            }
            assert forall|a: int, b: int| 0 <= a < b < out@.len()
                implies out@[a]@.key != out@[b]@.key by {
                if b < pre_out.len() {
                    assert(out@[a] == pre_out[a] && out@[b] == pre_out[b]);
                } else {
                    assert(out@[a] == pre_out[a] && out@[b] == m && m == pre_rest[best as int]);
                }
            }
            assert forall|a: int, b: int| 0 <= a < b < rest@.len()
                implies rest@[a]@.key != rest@[b]@.key by {
                let pa: int = if a < best {
                    a
                } else {
                    a + 1
                };
                let pb: int = if b < best {
                    b
                } else {
                    b + 1
                };
                assert(rest@[a] == pre_rest[pa] && rest@[b] == pre_rest[pb]);
            }
            assert forall|a: int, b: int|
                0 <= a < out@.len() && 0 <= b < rest@.len()
                implies out@[a]@.key != rest@[b]@.key by {
                let pb: int = if b < best {
                    b
                } else {
                    b + 1
                };
                assert(rest@[b] == pre_rest[pb]);
                if a < pre_out.len() {
                    assert(out@[a] == pre_out[a]);
                } else {
                    assert(out@[a] == m && m == pre_rest[best as int]);
                }
            }
        }
    }
    proof {
        assert(rest@.to_multiset() =~= Multiset::<RankedItem>::empty());
        assert(out@.to_multiset() =~= orig.to_multiset());
    }
    out
}

} // verus!
