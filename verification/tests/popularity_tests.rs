use rhizome::exchanger::{PopularityExchanger, median_score, process_received_items};
use rhizome::metrics::{MetricsCollector, MetricsSnapshot, PopularityMetrics};
use rhizome::ranking::{PopularityRanker, RankedItem};
use rhizome::replicator::Replicator;

fn quiet_metrics(first_seen: u64) -> MetricsSnapshot {
    MetricsSnapshot {
        request_count: 0,
        request_rate_milli: 0,
        replication_count: 0,
        freshness_milli: 0,
        audience_size: 0,
        social_engagements: 0,
        seed_coverage_milli: 0,
        first_seen,
        last_request: first_seen,
    }
}

#[test]
fn replication_count_never_decreases() {
    let mut m = PopularityMetrics::new(b"k".to_vec(), 0);
    assert_eq!(m.snapshot.replication_count, 1);
    m.update_replication(5);
    assert_eq!(m.snapshot.replication_count, 5);
    m.update_replication(3);
    assert_eq!(m.snapshot.replication_count, 5);
    m.update_replication(9);
    assert_eq!(m.snapshot.replication_count, 9);
}

#[test]
fn one_timestamp_rates_one_request_per_hour() {
    // A queue without a positive span counts each entry as one per hour.
    let mut m = PopularityMetrics::new(b"k".to_vec(), 50);
    m.update_request(None, 50);
    assert_eq!(m.snapshot.request_count, 1);
    assert_eq!(m.snapshot.request_rate_milli, 3_600_000);
    // Two entries at the same instant still have no span: two per hour.
    m.update_request(None, 50);
    assert_eq!(m.snapshot.request_rate_milli, 7_200_000);
}

#[test]
fn request_updates_count_queue_and_audience() {
    let mut m = PopularityMetrics::new(b"k".to_vec(), 100);
    m.update_request(Some(b"peer-a".to_vec()), 100);
    m.update_request(Some(b"peer-a".to_vec()), 200);
    m.update_request(Some(b"peer-b".to_vec()), 300);
    assert_eq!(m.snapshot.request_count, 3);
    assert_eq!(m.snapshot.audience_size, 2);
    assert_eq!(m.snapshot.last_request, 300);
    assert_eq!(m.request_timestamps, vec![100, 200, 300]);
    // Three requests over two hundred seconds: 3 / 200 * 3600 = 54 per
    // hour, in thousandths.
    assert_eq!(m.snapshot.request_rate_milli, 54000);
}

#[test]
fn freshness_decays_with_age() {
    let mut m = PopularityMetrics::new(b"k".to_vec(), 0);
    m.update_freshness(Some(100), 0);
    assert_eq!(m.snapshot.freshness_milli, 1000);
    // In the first-day band the decay is linear: 1000 - 43200*500/86400.
    m.update_freshness(Some(43200), 0);
    assert_eq!(m.snapshot.freshness_milli, 750);
    // A day old but under a week: half.
    m.update_freshness(Some(90000), 0);
    assert_eq!(m.snapshot.freshness_milli, 500);
    // One whole week: a quarter; three or more weeks: the floor.
    m.update_freshness(Some(604800), 0);
    assert_eq!(m.snapshot.freshness_milli, 250);
    m.update_freshness(Some(3 * 604800), 0);
    assert_eq!(m.snapshot.freshness_milli, 100);
}

#[test]
fn score_formula_is_exact() {
    let ranker = PopularityRanker::new(7000, 5000);
    let mut m = quiet_metrics(0);
    m.request_rate_milli = 50_000;  // norm 500
    m.replication_count = 10;       // norm 500
    m.freshness_milli = 1000;       // norm 1000
    m.audience_size = 25;           // norm 500
    m.social_engagements = 50;      // norm 500
    m.seed_coverage_milli = 400;    // norm 400
    // Young key (age 0): weights 250/200/300/100/100/50.
    // Weighted: 500*250 + 500*200 + 1000*300 + 500*100 + 500*100 + 400*50
    //         = 125000+100000+300000+50000+50000+20000 = 645000; /100 = 6450.
    let score = ranker.calculate_score(&m, true, 0);
    assert_eq!(score, 6450);
}

#[test]
fn score_is_capped_at_ten() {
    let ranker = PopularityRanker::new(7000, 5000);
    let mut m = quiet_metrics(0);
    m.request_rate_milli = u64::MAX / 2;
    m.replication_count = u32::MAX;
    m.freshness_milli = 1000;
    m.audience_size = u32::MAX;
    m.social_engagements = u64::MAX;
    m.seed_coverage_milli = 1000;
    assert_eq!(ranker.calculate_score(&m, true, 0), 10000);
}

#[test]
fn ranking_orders_by_score_then_key() {
    let ranker = PopularityRanker::new(7000, 5000);
    let mut collector = MetricsCollector::new();
    collector.record_social_engagement(b"bbb".to_vec(), 40, 0);
    collector.record_social_engagement(b"aaa".to_vec(), 40, 0);
    collector.record_social_engagement(b"zzz".to_vec(), 90, 0);
    let ranked = ranker.rank_items(collector.get_all_metrics(), None, 0);
    assert_eq!(ranked.len(), 3);
    // The high scorer first; the tie broken by key bytes ascending.
    assert_eq!(ranked[0].key, b"zzz".to_vec());
    assert_eq!(ranked[1].key, b"aaa".to_vec());
    assert_eq!(ranked[2].key, b"bbb".to_vec());
    // A rerun over the same metrics gives the identical order.
    let again = ranker.rank_items(collector.get_all_metrics(), None, 0);
    for (a, b) in ranked.iter().zip(again.iter()) {
        assert_eq!(a.key, b.key);
        assert_eq!(a.score_milli, b.score_milli);
    }
    // A limit keeps the best.
    let top = ranker.rank_items(collector.get_all_metrics(), Some(1), 0);
    assert_eq!(top.len(), 1);
    assert_eq!(top[0].key, b"zzz".to_vec());
}

#[test]
fn thresholds_filter_popular_and_active_completely() {
    // A fresh key scores 3100 (replication one, full freshness); a
    // thousand engagements add the full social weight for 4100.
    let ranker = PopularityRanker::new(4000, 3000);
    let mut collector = MetricsCollector::new();
    collector.record_social_engagement(b"hot".to_vec(), 1000, 0);
    collector.record_social_engagement(b"cold".to_vec(), 0, 0);
    let popular = ranker.get_popular_items(collector.get_all_metrics(), 10, 0);
    // The hot key must actually be returned, not just nothing wrong.
    assert_eq!(popular.len(), 1);
    assert_eq!(popular[0].key, b"hot".to_vec());
    assert_eq!(popular[0].score_milli, 4100);
    let active = ranker.get_active_items(collector.get_all_metrics(), 10, 0);
    assert_eq!(active.len(), 2);
    assert!(active.iter().all(|i| i.score_milli >= 3000));
    // A zero limit returns nothing even when items qualify.
    assert!(ranker.get_popular_items(collector.get_all_metrics(), 0, 0).is_empty());
}

#[test]
fn median_of_three_seed_scores() {
    assert_eq!(median_score(&vec![3000, 7000, 5000]), 5000);
    assert_eq!(median_score(&vec![1000]), 1000);
    // Even count: the upper of the two middles.
    assert_eq!(median_score(&vec![1000, 2000, 3000, 4000]), 3000);
}

#[test]
fn adopted_items_carry_the_reported_snapshot() {
    let mut collector = MetricsCollector::new();
    let reported = MetricsSnapshot {
        request_count: 9,
        request_rate_milli: 1234,
        replication_count: 3,
        freshness_milli: 700,
        audience_size: 8,
        social_engagements: 4,
        seed_coverage_milli: 200,
        first_seen: 77,
        last_request: 88,
    };
    let items = vec![RankedItem { key: b"new".to_vec(), score_milli: 5000, metrics: reported }];
    process_received_items(&mut collector, &items);
    let adopted = collector.get_metrics(&b"new".to_vec()).unwrap();
    assert_eq!(adopted.snapshot, reported);
    assert!(adopted.request_timestamps.is_empty());
    assert!(adopted.requesting_nodes.is_empty());
}

#[test]
fn received_items_only_raise_replication_of_known_keys() {
    let mut collector = MetricsCollector::new();
    collector.record_store(b"known".to_vec(), 4, 0);
    let items = vec![
        RankedItem {
            key: b"known".to_vec(),
            score_milli: 9000,
            metrics: MetricsSnapshot { replication_count: 9, ..quiet_metrics(0) },
        },
        RankedItem {
            key: b"fresh".to_vec(),
            score_milli: 8000,
            metrics: MetricsSnapshot { replication_count: 2, ..quiet_metrics(0) },
        },
    ];
    process_received_items(&mut collector, &items);
    let known = collector.get_metrics(&b"known".to_vec()).unwrap();
    assert_eq!(known.snapshot.replication_count, 9);
    // A lower claim later changes nothing.
    let lower = vec![RankedItem {
        key: b"known".to_vec(),
        score_milli: 100,
        metrics: MetricsSnapshot { replication_count: 1, ..quiet_metrics(0) },
    }];
    process_received_items(&mut collector, &lower);
    assert_eq!(collector.get_metrics(&b"known".to_vec()).unwrap().snapshot.replication_count, 9);
    // The unknown key was adopted.
    assert!(collector.get_metrics(&b"fresh".to_vec()).is_some());
}

#[test]
fn consensus_aggregates_per_key_with_collector_metrics() {
    // Three local reports of the same key aggregate into one entry whose
    // score is the median and whose metrics are the collector's.
    let ranker = PopularityRanker::new(7000, 5000);
    let mut exchanger = PopularityExchanger::new(ranker);
    let mut collector = MetricsCollector::new();
    collector.record_store(b"k".to_vec(), 4, 0);
    let kept_snapshot = collector.get_metrics(&b"k".to_vec()).unwrap().snapshot;
    let local = vec![
        RankedItem { key: b"k".to_vec(), score_milli: 3000, metrics: quiet_metrics(0) },
        RankedItem { key: b"k".to_vec(), score_milli: 7000, metrics: quiet_metrics(0) },
        RankedItem { key: b"k".to_vec(), score_milli: 5000, metrics: quiet_metrics(0) },
    ];
    let consensus = exchanger.aggregate_global_ranking(&local, &vec![], &collector, 9);
    assert_eq!(consensus.len(), 1);
    assert_eq!(consensus[0].key, b"k".to_vec());
    assert_eq!(consensus[0].score_milli, 5000);
    assert_eq!(consensus[0].metrics, kept_snapshot);
}

#[test]
fn consensus_takes_the_median_and_caches_it() {
    let ranker = PopularityRanker::new(7000, 5000);
    let mut exchanger = PopularityExchanger::new(ranker);
    let mut collector = MetricsCollector::new();
    collector.record_store(b"k".to_vec(), 1, 0);
    let local = vec![RankedItem {
        key: b"k".to_vec(),
        score_milli: 3000,
        metrics: quiet_metrics(0),
    }];
    let reports = vec![
        RankedItem { key: b"k".to_vec(), score_milli: 7000, metrics: quiet_metrics(0) },
        RankedItem { key: b"k".to_vec(), score_milli: 5000, metrics: quiet_metrics(0) },
    ];
    let consensus = exchanger.aggregate_global_ranking(&local, &reports, &collector, 42);
    assert_eq!(consensus.len(), 1);
    assert_eq!(consensus[0].score_milli, 5000);
    assert_eq!(exchanger.global_ranking_updated, 42);
    let served = exchanger.get_global_ranking_api();
    assert_eq!(served.len(), 1);
    assert_eq!(served[0].score_milli, 5000);
}

#[test]
fn replicator_picks_popular_underreplicated_items() {
    let replicator = Replicator::new(5, 10);
    let items = vec![
        RankedItem {
            key: b"wanted".to_vec(),
            score_milli: 8000,
            metrics: MetricsSnapshot { replication_count: 3, ..quiet_metrics(0) },
        },
        RankedItem {
            key: b"already-copied".to_vec(),
            score_milli: 9000,
            metrics: MetricsSnapshot { replication_count: 10, ..quiet_metrics(0) },
        },
        RankedItem {
            key: b"unpopular".to_vec(),
            score_milli: 1000,
            metrics: MetricsSnapshot { replication_count: 0, ..quiet_metrics(0) },
        },
    ];
    let chosen = replicator.replicate_popular_items(&items, 7000);
    assert_eq!(chosen.len(), 1);
    assert_eq!(chosen[0].key, b"wanted".to_vec());
}

#[test]
fn cleanup_old_metrics_drops_only_idle_entries() {
    let mut collector = MetricsCollector::new();
    let day: u64 = 86400;
    collector.record_find_value(b"fresh".to_vec(), None, 40 * day);
    collector.record_find_value(b"stale".to_vec(), None, 0);
    // At day forty, with a thirty-day horizon, only the idle entry goes.
    let removed = collector.cleanup_old_metrics(30, 40 * day);
    assert_eq!(removed, 1);
    assert!(collector.get_metrics(&b"fresh".to_vec()).is_some());
    assert!(collector.get_metrics(&b"stale".to_vec()).is_none());
    // A second sweep at the same instant removes nothing.
    assert_eq!(collector.cleanup_old_metrics(30, 40 * day), 0);
}

#[test]
fn minimal_replication_selects_visible_records() {
    let replicator = Replicator::new(5, 10);
    let mut storage = rhizome::store::Storage::new(1024);
    storage.put(b"kept".to_vec(), b"v1".to_vec(), 100, 0).unwrap();
    storage.put(b"gone".to_vec(), b"v2".to_vec(), 10, 0).unwrap();
    let keys = vec![b"kept".to_vec(), b"gone".to_vec(), b"missing".to_vec()];
    // At time fifty only the long-lived record is still visible.
    let due = replicator.ensure_minimal_replication(&keys, &storage, 50);
    assert_eq!(due.len(), 1);
    assert_eq!(due[0].0, b"kept".to_vec());
    assert_eq!(due[0].1, b"v1".to_vec());
}
