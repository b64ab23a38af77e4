//! Weighted, age-adaptive popularity scoring and ranking.
use vstd::prelude::*;
use vstd::multiset::Multiset;
use crate::id::{lex_le, lex_le_bytes, lemma_lex_le_total, lemma_lex_le_trans,
    lemma_lex_le_antisymmetric};
use crate::metrics::{MetricsSnapshot, PopularityMetrics};
use crate::routing::clone_bytes;

verus! {

/// Largest score, in thousandths: a score of ten.
pub const SCORE_CAP_MILLI: u32 = 10000;

/// Mathematical image of a ranked item.
#[verifier::ext_equal]
pub struct RankedView {
    pub key: Seq<u8>,
    pub score_milli: u32,
    pub metrics: MetricsSnapshot,
}

/// A scored content key with the metrics snapshot behind the score.
pub struct RankedItem {
    /// The content key.
    pub key: Vec<u8>,
    /// The popularity score, in thousandths, between zero and ten
    /// thousand.
    pub score_milli: u32,
    /// The metrics the score was computed from.
    pub metrics: MetricsSnapshot,
}

impl View for RankedItem {
    type V = RankedView;

    open spec fn view(&self) -> RankedView {
        RankedView { key: self.key@, score_milli: self.score_milli, metrics: self.metrics }
    }
}

/// Ranking order: higher score first, ties by key bytes ascending.
pub open spec fn rank_le(a: RankedView, b: RankedView) -> bool {
    b.score_milli < a.score_milli || (a.score_milli == b.score_milli && lex_le(a.key, b.key))
}

/// The ranking order relates every pair of items.
pub proof fn lemma_rank_le_total(a: RankedView, b: RankedView)
    ensures
        rank_le(a, b) || rank_le(b, a),
{
    lemma_lex_le_total(a.key, b.key);
}

/// The ranking order is transitive.
pub proof fn lemma_rank_le_trans(a: RankedView, b: RankedView, c: RankedView)
    requires
        rank_le(a, b),
        rank_le(b, c),
    ensures
        rank_le(a, c),
{
    if a.score_milli == b.score_milli && b.score_milli == c.score_milli {
        lemma_lex_le_trans(a.key, b.key, c.key);
    }
}

/// Items each at most the other share score and key.
pub proof fn lemma_rank_le_antisymmetric(a: RankedView, b: RankedView)
    requires
        rank_le(a, b),
        rank_le(b, a),
    ensures
        a.score_milli == b.score_milli,
        a.key =~= b.key,
{
    lemma_lex_le_antisymmetric(a.key, b.key);
}

/// A metric scaled into thousandths of its cap, itself capped at one.
pub open spec fn spec_norm(value: int, per_unit: int) -> int {
    if value * per_unit >= 1000 {
        1000
    } else {
        value * per_unit
    }
}

/// The weights, in thousandths, for a key first seen `age` seconds ago:
/// young content leans on freshness, adolescent content on social
/// engagement, and settled content on seed coverage.
pub open spec fn spec_weights(adaptive: bool, age: int) -> (int, int, int, int, int, int) {
    if !adaptive {
        (250, 200, 150, 100, 200, 100)
    } else if age < 86400 {
        (250, 200, 300, 100, 100, 50)
    } else if age < 604800 {
        (250, 200, 100, 100, 300, 50)
    } else {
        (250, 200, 50, 100, 150, 250)
    }
}

/// The score of `m`, in thousandths: the weighted sum of the normalized
/// request rate, replica count, freshness, audience, social engagement
/// and seed coverage, scaled to at most ten thousand.
pub open spec fn spec_score(m: MetricsSnapshot, adaptive: bool, now: u64) -> int {
    let age: int = if now > m.first_seen {
        now - m.first_seen
    } else {
        0
    };
    let (w_rate, w_repl, w_fresh, w_aud, w_social, w_seed) = spec_weights(adaptive, age);
    let n_rate = spec_norm(m.request_rate_milli as int / 100, 1);
    let n_repl = spec_norm(m.replication_count as int, 50);
    let n_fresh = spec_norm(m.freshness_milli as int, 1);
    let n_aud = spec_norm(m.audience_size as int, 20);
    let n_social = spec_norm(m.social_engagements as int, 10);
    let n_seed = spec_norm(m.seed_coverage_milli as int, 1);
    (n_rate * w_rate + n_repl * w_repl + n_fresh * w_fresh + n_aud * w_aud + n_social * w_social
        + n_seed * w_seed) / 100
}

/// Ranks content keys by demand.
pub struct PopularityRanker {
    /// Scores at or above this, in thousandths, count as popular.
    pub popularity_threshold_milli: u32,
    /// Scores at or above this, in thousandths, count as active.
    pub active_threshold_milli: u32,
}

/// Normalize one metric: `value * per_unit` thousandths, capped at 1000.
fn norm_u64(value: u64, per_unit: u64) -> (r: u64)
    requires
        per_unit >= 1,
        per_unit <= 1000,
    ensures
        r == spec_norm(value as int, per_unit as int),
        r <= 1000,
{
    if value >= 1000 {
        proof {
            assert((value as int) * (per_unit as int) >= 1000) by (nonlinear_arith)
                requires
                    value >= 1000,
                    per_unit >= 1,
            ;
        }
        1000
    } else {
        proof {
            assert((value as int) * (per_unit as int) <= 1000000) by (nonlinear_arith)
                requires
                    0 <= value < 1000,
                    0 <= per_unit <= 1000,
            ;
        }
        let p = value * per_unit;
        if p >= 1000 {
            1000
        } else {
            p
        }
    }
}

impl PopularityRanker {
    /// A ranker with the given thresholds, in thousandths of a score.
    pub fn new(popularity_threshold_milli: u32, active_threshold_milli: u32) -> (r:
        PopularityRanker)
        ensures
            r.popularity_threshold_milli == popularity_threshold_milli,
            r.active_threshold_milli == active_threshold_milli,
    {
        PopularityRanker { popularity_threshold_milli, active_threshold_milli }
    }

    /// The score of `m` at time `now`, in thousandths, at most ten
    /// thousand; `adaptive` weights shift with the key's age.
    pub fn calculate_score(&self, m: &MetricsSnapshot, adaptive: bool, now: u64) -> (r: u32)
        ensures
            r == spec_score(*m, adaptive, now),
            r <= SCORE_CAP_MILLI,
    {
        let age: u64 = if now > m.first_seen {
            now - m.first_seen
        } else {
            0
        };
        let w_rate: u64;
        let w_repl: u64;
        let w_fresh: u64;
        let w_aud: u64;
        let w_social: u64;
        let w_seed: u64;
        if !adaptive {
            w_rate = 250;
            w_repl = 200;
            w_fresh = 150;
            w_aud = 100;
            w_social = 200;
            w_seed = 100;
        } else if age < 86400 {
            w_rate = 250;
            w_repl = 200;
            w_fresh = 300;
            w_aud = 100;
            w_social = 100;
            w_seed = 50;
        } else if age < 604800 {
            w_rate = 250;
            w_repl = 200;
            w_fresh = 100;
            w_aud = 100;
            w_social = 300;
            w_seed = 50;
        } else {
            w_rate = 250;
            w_repl = 200;
            w_fresh = 50;
            w_aud = 100;
            w_social = 150;
            w_seed = 250;
        }
        let n_rate = norm_u64(m.request_rate_milli / 100, 1);
        let n_repl = norm_u64(m.replication_count as u64, 50);
        let n_fresh = norm_u64(m.freshness_milli as u64, 1);
        let n_aud = norm_u64(m.audience_size as u64, 20);
        let n_social = norm_u64(m.social_engagements, 10);
        let n_seed = norm_u64(m.seed_coverage_milli as u64, 1);
        let weighted = n_rate * w_rate + n_repl * w_repl + n_fresh * w_fresh + n_aud * w_aud
            + n_social * w_social + n_seed * w_seed;
        let score = weighted / 100;
        proof {
            vstd::arithmetic::div_mod::lemma_div_is_ordered(
                weighted as int,
                1000000int,
                100,
            );
            vstd::arithmetic::div_mod::lemma_div_pos_is_pos(weighted as int, 100);
        }
        score as u32
    }

    /// Score every entry and order the items best first: higher scores
    /// before lower, ties by key bytes ascending, cut to `limit`.
    pub fn rank_items(
        &self,
        metrics: &Vec<PopularityMetrics>,
        limit: Option<usize>,
        now: u64,
    ) -> (r: Vec<RankedItem>)
        ensures
            r@.len() == ({
                let full = metrics@.len();
                match limit {
                    Some(l) => if l <= full {
                        l as int
                    } else {
                        full as int
                    },
                    None => full as int,
                }
            }),
            forall|i: int, j: int| 0 <= i < j < r@.len() ==> rank_le(r@[i]@, r@[j]@),
            forall|i: int|
                0 <= i < r@.len() ==> scored_from(metrics@, (#[trigger] r@[i])@, now),
            r@.len() == metrics@.len() ==> forall|j: int|
                0 <= j < metrics@.len() ==> represented(r@, #[trigger] metrics@[j], now),
    {
        let mut items: Vec<RankedItem> = Vec::new();
        let mut i: usize = 0;
        while i < metrics.len()
            invariant
                i <= metrics@.len(),
                items@.len() == i,
                forall|j: int|
                    0 <= j < i ==> item_scores((#[trigger] items@[j])@, metrics@[j], now),
            decreases metrics@.len() - i,
        {
            let m = &metrics[i];
            let score = self.calculate_score(&m.snapshot, true, now);
            items.push(
                RankedItem { key: clone_bytes(&m.key), score_milli: score, metrics: m.get_snapshot() },
            );
            i = i + 1;
        }
        let ghost built = items@;
        let mut sorted = sort_ranked(items);
        let ghost sorted_full = sorted@;
        proof {
            broadcast use vstd::seq_lib::group_to_multiset_ensures;

        }
        match limit {
            Some(l) => {
                sorted.truncate(l);
                proof {
                    if l < sorted_full.len() {
                        assert(sorted@ =~= sorted_full.take(l as int));
                    } else {
                        assert(sorted@ =~= sorted_full);
                    }
                }
            },
            None => {},
        }
        proof {
            assert forall|i2: int| 0 <= i2 < sorted@.len()
                implies scored_from(metrics@, (#[trigger] sorted@[i2])@, now) by {
                let x = sorted@[i2];
                assert(sorted_full[i2] == x);
                assert(sorted_full.contains(x));
                assert(sorted_full.to_multiset().count(x) > 0);
                assert(built.to_multiset().count(x) > 0);
                assert(built.contains(x));
                let bj = choose|bj: int| 0 <= bj < built.len() && built[bj] == x;
                assert(item_scores(x@, metrics@[bj], now));
            }
            if sorted@.len() == metrics@.len() {
                assert forall|j: int| 0 <= j < metrics@.len()
                    implies represented(sorted@, #[trigger] metrics@[j], now) by {
                    let x = built[j];
                    assert(built.contains(x));
                    assert(built.to_multiset().count(x) > 0);
                    assert(sorted_full.to_multiset().count(x) > 0);
                    assert(sorted_full.contains(x));
                    let si = choose|si: int|
                        0 <= si < sorted_full.len() && sorted_full[si] == x;
                    assert(sorted@ == sorted_full);
                    assert(item_scores(sorted@[si]@, metrics@[j], now));
                }
            }
        }
        sorted
    }

    /// The ranked items whose score reaches the popularity threshold.
    pub fn get_popular_items(
        &self,
        metrics: &Vec<PopularityMetrics>,
        limit: usize,
        now: u64,
    ) -> (r: Vec<RankedItem>)
        ensures
            r@.len() <= limit,
            forall|i: int|
                0 <= i < r@.len() ==> (#[trigger] r@[i])@.score_milli
                    >= self.popularity_threshold_milli,
            forall|i: int, j: int| 0 <= i < j < r@.len() ==> rank_le(r@[i]@, r@[j]@),
            forall|i: int|
                0 <= i < r@.len() ==> scored_from(metrics@, (#[trigger] r@[i])@, now),
            forall|j: int|
                0 <= j < metrics@.len() && spec_score((#[trigger] metrics@[j]).snapshot, true, now)
                    >= self.popularity_threshold_milli && !represented(r@, metrics@[j], now) ==> r@.len()
                    == limit && (limit > 0 ==> rank_le(
                    r@[r@.len() - 1]@,
                    spec_item_view(metrics@[j], now),
                )),
    {
        let ranked = self.rank_items(metrics, None, now);
        let ghost ranked_view = ranked@;
        let filtered = self.filter_by_threshold(
            ranked,
            self.popularity_threshold_milli,
            limit,
            now,
            Ghost(metrics@),
        );
        proof {
            assert forall|j: int|
                0 <= j < metrics@.len() && spec_score((#[trigger] metrics@[j]).snapshot, true, now)
                    >= self.popularity_threshold_milli && !represented(filtered@, metrics@[j], now)
                implies filtered@.len() == limit && (limit > 0 ==> rank_le(
                filtered@[filtered@.len() - 1]@,
                spec_item_view(metrics@[j], now),
            )) by {
                let ri = choose|ri: int|
                    0 <= ri < ranked_view.len() && item_scores((#[trigger] ranked_view[ri])@, metrics@[j], now);
                assert(ranked_view[ri]@ =~= spec_item_view(metrics@[j], now));
                if chosen_view(filtered@, ranked_view[ri]@) {
                    let a = choose|a: int|
                        0 <= a < filtered@.len() && (#[trigger] filtered@[a])@ == ranked_view[ri]@;
                    assert(item_scores(filtered@[a]@, metrics@[j], now));
                }
            }
        }
        filtered
    }

    /// The ranked items whose score reaches the activity threshold.
    pub fn get_active_items(
        &self,
        metrics: &Vec<PopularityMetrics>,
        limit: usize,
        now: u64,
    ) -> (r: Vec<RankedItem>)
        ensures
            r@.len() <= limit,
            forall|i: int|
                0 <= i < r@.len() ==> (#[trigger] r@[i])@.score_milli
                    >= self.active_threshold_milli,
            forall|i: int, j: int| 0 <= i < j < r@.len() ==> rank_le(r@[i]@, r@[j]@),
            forall|i: int|
                0 <= i < r@.len() ==> scored_from(metrics@, (#[trigger] r@[i])@, now),
            forall|j: int|
                0 <= j < metrics@.len() && spec_score((#[trigger] metrics@[j]).snapshot, true, now)
                    >= self.active_threshold_milli && !represented(r@, metrics@[j], now) ==> r@.len()
                    == limit && (limit > 0 ==> rank_le(
                    r@[r@.len() - 1]@,
                    spec_item_view(metrics@[j], now),
                )),
    {
        let ranked = self.rank_items(metrics, None, now);
        let ghost ranked_view = ranked@;
        let filtered = self.filter_by_threshold(
            ranked,
            self.active_threshold_milli,
            limit,
            now,
            Ghost(metrics@),
        );
        proof {
            assert forall|j: int|
                0 <= j < metrics@.len() && spec_score((#[trigger] metrics@[j]).snapshot, true, now)
                    >= self.active_threshold_milli && !represented(filtered@, metrics@[j], now)
                implies filtered@.len() == limit && (limit > 0 ==> rank_le(
                filtered@[filtered@.len() - 1]@,
                spec_item_view(metrics@[j], now),
            )) by {
                let ri = choose|ri: int|
                    0 <= ri < ranked_view.len() && item_scores((#[trigger] ranked_view[ri])@, metrics@[j], now);
                assert(ranked_view[ri]@ =~= spec_item_view(metrics@[j], now));
                if chosen_view(filtered@, ranked_view[ri]@) {
                    let a = choose|a: int|
                        0 <= a < filtered@.len() && (#[trigger] filtered@[a])@ == ranked_view[ri]@;
                    assert(item_scores(filtered@[a]@, metrics@[j], now));
                }
            }
        }
        filtered
    }

    fn filter_by_threshold(
        &self,
        ranked: Vec<RankedItem>,
        threshold: u32,
        limit: usize,
        now: u64,
        source: Ghost<Seq<PopularityMetrics>>,
    ) -> (r: Vec<RankedItem>)
        requires
            forall|i: int, j: int| 0 <= i < j < ranked@.len() ==> rank_le(ranked@[i]@, ranked@[j]@),
            forall|i: int|
                0 <= i < ranked@.len() ==> scored_from(source@, (#[trigger] ranked@[i])@, now),
        ensures
            r@.len() <= limit,
            forall|i: int| 0 <= i < r@.len() ==> (#[trigger] r@[i])@.score_milli >= threshold,
            forall|i: int, j: int| 0 <= i < j < r@.len() ==> rank_le(r@[i]@, r@[j]@),
            forall|i: int|
                0 <= i < r@.len() ==> scored_from(source@, (#[trigger] r@[i])@, now),
            forall|ri: int|
                0 <= ri < ranked@.len() && (#[trigger] ranked@[ri])@.score_milli >= threshold
                    && !chosen_view(r@, ranked@[ri]@) ==> r@.len() == limit && (limit > 0
                    ==> rank_le(r@[r@.len() - 1]@, ranked@[ri]@)),
    {
        let mut out: Vec<RankedItem> = Vec::new();
        let mut i: usize = 0;
        while i < ranked.len() && out.len() < limit
            invariant
                i <= ranked@.len(),
                out@.len() <= i,
                out@.len() <= limit,
                forall|a: int, b: int|
                    0 <= a < b < ranked@.len() ==> rank_le(ranked@[a]@, ranked@[b]@),
                forall|a: int|
                    0 <= a < ranked@.len() ==> scored_from(source@, (#[trigger] ranked@[a])@, now),
                forall|a: int|
                    0 <= a < out@.len() ==> (#[trigger] out@[a])@.score_milli >= threshold,
                forall|a: int, b: int| 0 <= a < b < out@.len() ==> rank_le(out@[a]@, out@[b]@),
                forall|a: int|
                    0 <= a < out@.len() ==> exists|ri: int|
                        0 <= ri < i && (#[trigger] out@[a])@ == ranked@[ri]@,
                forall|ri: int|
                    0 <= ri < i && (#[trigger] ranked@[ri])@.score_milli >= threshold
                        ==> chosen_view(out@, ranked@[ri]@),
            decreases ranked@.len() - i,
        {
            if ranked[i].score_milli >= threshold {
                let ghost pre = out@;
                let item = RankedItem {
                    key: clone_bytes(&ranked[i].key),
                    score_milli: ranked[i].score_milli,
                    metrics: ranked[i].metrics,
                };
                proof {
                    assert(item@ =~= ranked@[i as int]@);
                }
                out.push(item);
                proof {
                    assert forall|a: int, b: int| 0 <= a < b < out@.len()
                        implies rank_le(out@[a]@, out@[b]@) by {
                        if b == out@.len() - 1 {
                            let ri = choose|ri: int|
                                0 <= ri < i && (#[trigger] pre[a])@ == ranked@[ri]@;
                            assert(out@[a] == pre[a]);
                            assert(rank_le(ranked@[ri]@, ranked@[i as int]@));
                        } else {
                            assert(out@[a] == pre[a] && out@[b] == pre[b]);
                        }
                    }
                    assert forall|a: int| 0 <= a < out@.len()
                        implies exists|ri: int|
                            0 <= ri < i + 1 && (#[trigger] out@[a])@ == ranked@[ri]@ by {
                        if a < pre.len() {
                            assert(out@[a] == pre[a]);
                            let ri = choose|ri: int|
                                0 <= ri < i && (#[trigger] pre[a])@ == ranked@[ri]@;
                            assert(out@[a]@ == ranked@[ri]@);
                        } else {
                            assert(out@[a]@ == ranked@[i as int]@);
                        }
                    }
                    assert forall|ri: int|
                        0 <= ri < i + 1 && (#[trigger] ranked@[ri])@.score_milli >= threshold
                        implies chosen_view(out@, ranked@[ri]@) by {
                        if ri < i {
                            let a = choose|a: int|
                                0 <= a < pre.len() && (#[trigger] pre[a])@ == ranked@[ri]@;
                            assert(out@[a]@ == ranked@[ri]@);
                        } else {
                            assert(out@[pre.len() as int]@ == ranked@[ri]@);
                        }
                    }
                }
            } else {
                proof {
                    assert forall|ri: int|
                        0 <= ri < i + 1 && (#[trigger] ranked@[ri])@.score_milli >= threshold
                        implies chosen_view(out@, ranked@[ri]@) by {
                        if ri == i {
                            assert(!(ranked@[ri]@.score_milli >= threshold));
                        }
                    }
                }
            }
            i = i + 1;
        }
        proof {
            assert forall|a: int| 0 <= a < out@.len()
                implies scored_from(source@, (#[trigger] out@[a])@, now) by {
                let ri = choose|ri: int|
                    0 <= ri < ranked@.len() && (#[trigger] out@[a])@ == ranked@[ri]@;
                assert(scored_from(source@, ranked@[ri]@, now));
            }
            assert forall|ri: int|
                0 <= ri < ranked@.len() && (#[trigger] ranked@[ri])@.score_milli >= threshold
                    && !chosen_view(out@, ranked@[ri]@)
                implies out@.len() == limit && (limit > 0 ==> rank_le(
                out@[out@.len() - 1]@,
                ranked@[ri]@,
            )) by {
                assert(!(ri < i));
                assert(out@.len() == limit);
                if limit > 0 {
                    let a0 = out@.len() - 1;
                    let ri0 = choose|ri0: int|
                        0 <= ri0 < i && (#[trigger] out@[a0])@ == ranked@[ri0]@;
                    assert(ri0 < ri);
                    assert(rank_le(ranked@[ri0]@, ranked@[ri]@));
                }
            }
        }
        out
    }
}

/// The ranked view `v` carries the key of `m` and its score at `now`,
/// with its metrics snapshot.
pub open spec fn item_scores(v: RankedView, m: PopularityMetrics, now: u64) -> bool {
    v.key == m.key@ && v.score_milli == spec_score(m.snapshot, true, now) && v.metrics
        == m.snapshot
}

/// The ranked view an entry presents at `now`.
pub open spec fn spec_item_view(m: PopularityMetrics, now: u64) -> RankedView {
    RankedView {
        key: m.key@,
        score_milli: spec_score(m.snapshot, true, now) as u32,
        metrics: m.snapshot,
    }
}

/// Some item of `s` reads exactly `v`.
pub open spec fn chosen_view(s: Seq<RankedItem>, v: RankedView) -> bool {
    exists|i: int| 0 <= i < s.len() && (#[trigger] s[i])@ == v
}

/// The view `v` scores some entry of `s` at `now`.
pub open spec fn scored_from(s: Seq<PopularityMetrics>, v: RankedView, now: u64) -> bool {
    exists|j: int| 0 <= j < s.len() && item_scores(v, #[trigger] s[j], now)
}

/// Some item of `r` scores the entry `m` at `now`.
pub open spec fn represented(r: Seq<RankedItem>, m: PopularityMetrics, now: u64) -> bool {
    exists|i: int| 0 <= i < r.len() && item_scores((#[trigger] r[i])@, m, now)
}

/// Sort items best first, keeping exactly the same items.
fn sort_ranked(v: Vec<RankedItem>) -> (r: Vec<RankedItem>)
    ensures
        r@.len() == v@.len(),
        r@.to_multiset() == v@.to_multiset(),
        forall|i: int, j: int| 0 <= i < j < r@.len() ==> rank_le(r@[i]@, r@[j]@),
{
    broadcast use vstd::seq_lib::group_to_multiset_ensures;

    let ghost orig = v@;
    let mut rest = v;
    let mut out: Vec<RankedItem> = Vec::new();
    while rest.len() > 0
        invariant
            out@.len() + rest@.len() == orig.len(),
            out@.to_multiset().add(rest@.to_multiset()) =~= orig.to_multiset(),
            forall|i: int, j: int| 0 <= i < j < out@.len() ==> rank_le(out@[i]@, out@[j]@),
            forall|i: int, j: int|
                0 <= i < out@.len() && 0 <= j < rest@.len() ==> rank_le(out@[i]@, rest@[j]@),
        decreases rest@.len(),
    {
        let mut best: usize = 0;
        let mut cand: usize = 1;
        proof {
            lemma_rank_le_total(rest@[0]@, rest@[0]@);
        }
        while cand < rest.len()
            invariant
                rest@.len() > 0,
                best < cand,
                cand <= rest@.len(),
                forall|j: int| 0 <= j < cand ==> rank_le(rest@[best as int]@, rest@[j]@),
            decreases rest@.len() - cand,
        {
            if !rank_le_items_pub(&rest[best], &rest[cand]) {
                proof {
                    lemma_rank_le_total(rest@[best as int]@, rest@[cand as int]@);
                    assert forall|j: int| 0 <= j < cand + 1
                        implies rank_le(rest@[cand as int]@, rest@[j]@) by {
                        if j < cand {
                            lemma_rank_le_trans(
                                rest@[cand as int]@,
                                rest@[best as int]@,
                                rest@[j]@,
                            );
                        } else {
                            lemma_rank_le_total(rest@[cand as int]@, rest@[cand as int]@);
                        }
                    }
                }
                best = cand;
            }
            proof {
                lemma_rank_le_total(rest@[cand as int]@, rest@[cand as int]@);
            }
            cand = cand + 1;
        }
        let ghost pre_rest = rest@;
        let ghost pre_out = out@;
        let m = rest.remove(best);
        out.push(m);
        proof {
            assert(pre_rest[best as int] == m);
            assert(rest@ == pre_rest.remove(best as int));
            vstd::seq_lib::to_multiset_remove(pre_rest, best as int);
            assert(out@ == pre_out.push(m));
            vstd::seq_lib::to_multiset_build(pre_out, m);
            assert(pre_rest.contains(m));
            vstd::seq_lib::to_multiset_contains(pre_rest, m);
            assert forall|i: int, j: int|
                0 <= i < out@.len() && 0 <= j < rest@.len()
                implies rank_le(out@[i]@, rest@[j]@) by {
                let pj: int = if j < best {
                    j
                } else {
                    j + 1
                };
                assert(rest@[j] == pre_rest[pj]);
                if i < pre_out.len() {
                    assert(out@[i] == pre_out[i]);
                } else {
                    assert(out@[i] == m);
                }
            }
        }
    }
    proof {
        assert(rest@.to_multiset() =~= Multiset::<RankedItem>::empty());
        assert(out@.to_multiset() =~= orig.to_multiset());
    }
    out
}

/// Compare two items in ranking order.
pub fn rank_le_items_pub(a: &RankedItem, b: &RankedItem) -> (r: bool)
    ensures
        r == rank_le(a@, b@),
{
    if b.score_milli < a.score_milli {
        true
    } else if a.score_milli == b.score_milli {
        lex_le_bytes(a.key.as_slice(), b.key.as_slice())
    } else {
        false
    }
}

/// No two views in `s` rank the same key.
pub open spec fn unique_ranked_keys(s: Seq<RankedView>) -> bool {
    forall|i: int, j: int| 0 <= i < s.len() && 0 <= j < s.len() && i != j ==> s[i].key != s[j].key
}

/// Law: ranking is deterministic: two orderings of the same items, each
/// sorted by the ranking order, with one key per item, are identical.
pub proof fn lemma_ranking_deterministic(v1: Seq<RankedView>, v2: Seq<RankedView>)
    requires
        forall|i: int, j: int| 0 <= i < j < v1.len() ==> rank_le(v1[i], v1[j]),
        forall|i: int, j: int| 0 <= i < j < v2.len() ==> rank_le(v2[i], v2[j]),
        v1.to_multiset() == v2.to_multiset(),
        unique_ranked_keys(v1),
    ensures
        v1 =~= v2,
    decreases v1.len(),
{
    broadcast use vstd::seq_lib::group_to_multiset_ensures;

    vstd::seq_lib::to_multiset_len(v1);
    vstd::seq_lib::to_multiset_len(v2);
    if v1.len() == 0 {
        assert(v2.len() == 0);
    } else {
        assert(v2.len() == v1.len());
        let h2 = v2[0];
        assert(v2.contains(h2));
        assert(v1.to_multiset().count(h2) > 0);
        assert(v1.contains(h2));
        let k1 = choose|k1: int| 0 <= k1 < v1.len() && v1[k1] == h2;
        let h1 = v1[0];
        assert(v2.to_multiset().count(h1) > 0);
        assert(v2.contains(h1));
        let k2 = choose|k2: int| 0 <= k2 < v2.len() && v2[k2] == h1;
        if k1 == 0 {
        } else {
            assert(rank_le(v1[0], v1[k1]));
        }
        if k2 == 0 {
        } else {
            assert(rank_le(v2[0], v2[k2]));
        }
        lemma_rank_le_total(h1, h2);
        if k1 != 0 && k2 != 0 {
            lemma_rank_le_antisymmetric(h1, h2);
            assert(v1[k1].key == v1[0].key);
            assert(k1 == 0);
        }
        assert(v1[0] == v2[0]);
        let t1 = v1.drop_first();
        let t2 = v2.drop_first();
        assert(t1.to_multiset() =~= v1.to_multiset().remove(v1[0])) by {
            assert(v1.remove(0) =~= t1);
            vstd::seq_lib::to_multiset_remove(v1, 0);
        }
        assert(t2.to_multiset() =~= v2.to_multiset().remove(v2[0])) by {
            assert(v2.remove(0) =~= t2);
            vstd::seq_lib::to_multiset_remove(v2, 0);
        }
        assert forall|i: int, j: int| 0 <= i < j < t1.len() implies rank_le(t1[i], t1[j]) by {
            assert(t1[i] == v1[i + 1] && t1[j] == v1[j + 1]);
        }
        assert forall|i: int, j: int| 0 <= i < j < t2.len() implies rank_le(t2[i], t2[j]) by {
            assert(t2[i] == v2[i + 1] && t2[j] == v2[j + 1]);
        }
        assert(unique_ranked_keys(t1)) by {
            assert forall|i: int, j: int|
                0 <= i < t1.len() && 0 <= j < t1.len() && i != j
                implies t1[i].key != t1[j].key by {
                assert(t1[i] == v1[i + 1] && t1[j] == v1[j + 1]);
            }
        }
        lemma_ranking_deterministic(t1, t2);
        assert forall|i: int| 0 <= i < v1.len() implies v1[i] == v2[i] by {
            if i > 0 {
                assert(t1[i - 1] == v1[i] && t2[i - 1] == v2[i]);
                assert(t1 =~= t2);
            }
        }
    }
}

} // verus!
