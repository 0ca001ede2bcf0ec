use newsrank::algs::quality_news::repository::{
    check_items_exist, check_sampling_initialized, get_latest_sample_interval, get_stats,
};
use newsrank::algs::quality_news::{compute_sample, get_ranking, record_sample};
use newsrank::error::AppError;
use newsrank::frac::Frac;
use newsrank::model::{Item, QnStats, VoteEvent};
use newsrank::store::Store;

fn item(item_id: i32, created_at: i64) -> Item {
    Item { item_id, parent_id: None, author_id: format!("author-{}", item_id), created_at }
}

fn upvote(vote_event_id: i32, item_id: i32, created_at: i64) -> VoteEvent {
    VoteEvent {
        vote_event_id,
        item_id,
        user_id: format!("user-{}", vote_event_id),
        vote: 1,
        rank: None,
        page: None,
        created_at,
    }
}

/// The quality-news scorer: age-decayed upvote rate estimate.
fn qn_score(s: &QnStats) -> f32 {
    let age_hours = (s.sample_time - s.submission_time) as f32 / 3_600_000.0;
    let age = if age_hours < 0.0 { 0.0 } else { age_hours };
    let expected = s.expected_upvotes.num as f32 / s.expected_upvotes.den as f32;
    let rate = if expected > 0.0 { s.upvotes as f32 / expected } else { 1.0 };
    (age * rate).powf(0.8) / (age + 2.0).powf(1.8)
}

/// Order-preserving key: the bit pattern of a finite non-negative float
/// orders like the float itself.
fn score_key(score: f32) -> u64 {
    score.to_bits() as u64
}

fn qn_keys(stats: &[QnStats]) -> Vec<u64> {
    stats.iter().map(|s| score_key(qn_score(s))).collect()
}

fn tick(store: &mut Store, now: i64) {
    let stats = compute_sample(store, now).expect("compute_sample failed");
    let keys = qn_keys(&stats);
    record_sample(store, now, &keys).expect("record_sample failed");
}

fn stats_row_for(store: &Store, item_id: i32, interval_id: i32) -> newsrank::model::StatsRow {
    *store
        .stats
        .iter()
        .find(|r| r.item_id == item_id && r.interval_id == interval_id)
        .expect("missing stats row")
}

fn scenario_store(pool_size: usize) -> Store {
    let mut s = Store::new(pool_size);
    s.register_item(item(1, 0)).unwrap();
    s.register_item(item(2, 1000)).unwrap();
    tick(&mut s, 2000);
    s.register_vote_event(upvote(10, 1, 3000)).unwrap();
    s.register_vote_event(upvote(11, 1, 4000)).unwrap();
    s.register_vote_event(upvote(12, 2, 5000)).unwrap();
    tick(&mut s, 6000);
    s
}

#[test]
fn bootstrap_creates_first_interval() {
    let mut s = Store::new(1500);
    assert!(!check_items_exist(&s));
    s.register_item(item(1, 0)).unwrap();
    s.register_item(item(2, 1000)).unwrap();
    assert!(check_items_exist(&s));
    assert!(!check_sampling_initialized(&s));

    tick(&mut s, 2000);

    assert!(check_sampling_initialized(&s));
    assert_eq!(s.intervals.len(), 1);
    assert_eq!(s.intervals[0].interval_id, 1);
    assert_eq!(s.intervals[0].start_time, 2000);
    assert_eq!(s.ranks.len(), 2);
    assert_eq!(s.stats.len(), 2);
    for r in &s.stats {
        assert_eq!(r.interval_id, 1);
        assert_eq!(r.upvotes, 0);
        assert_eq!(r.expected_upvotes, Frac { num: 0, den: 1 });
        assert_eq!(r.upvote_share, Frac { num: 0, den: 1 });
        assert_eq!(r.expected_upvote_share, Frac { num: 1, den: 2 });
    }
}

#[test]
fn first_interval_accumulates_votes() {
    let s = scenario_store(1500);

    // interval 1 closed at t = 6000 with sitewide = 3
    let r1 = stats_row_for(&s, 1, 1);
    assert_eq!(r1.upvotes, 2);
    assert_eq!(r1.upvote_share, Frac { num: 2, den: 3 });
    let r2 = stats_row_for(&s, 2, 1);
    assert_eq!(r2.upvotes, 1);
    assert_eq!(r2.upvote_share, Frac { num: 1, den: 3 });

    // cumulative expected upvotes: 0 + 3 * (1/2) = 3/2 for both items
    assert_eq!(r1.expected_upvotes.num * 2, 3 * r1.expected_upvotes.den);
    assert_eq!(r2.expected_upvotes.num * 2, 3 * r2.expected_upvotes.den);

    // interval 2 opened at 6000
    assert_eq!(s.intervals.len(), 2);
    let latest = get_latest_sample_interval(&s).unwrap();
    assert_eq!(latest.interval_id, 2);
    assert_eq!(latest.start_time, 6000);
}

#[test]
fn scorer_inputs_after_first_interval() {
    let s = scenario_store(1500);
    let stats = get_stats(&s);
    assert_eq!(stats.len(), 2);
    let s1 = stats.iter().find(|x| x.item_id == 1).unwrap();
    assert_eq!(s1.sample_time, 6000);
    assert_eq!(s1.submission_time, 0);
    assert_eq!(s1.upvotes, 2);
    // cumulative expected upvotes equal 3/2 exactly
    assert_eq!(s1.expected_upvotes.num * 2, 3 * s1.expected_upvotes.den);
    // the float score from these inputs is finite and positive
    let score = qn_score(s1);
    assert!(score.is_finite());
    assert!(score > 0.0);
    // age_hours = 6000 ms, rate = 2 / (3/2) = 4/3
    let age = 6000.0f32 / 3_600_000.0;
    let expected_score = (age * (4.0 / 3.0f32)).powf(0.8) / (age + 2.0f32).powf(1.8);
    assert_eq!(score, expected_score);
}

#[test]
fn pool_eviction_drops_oldest_from_new_interval() {
    let mut s = scenario_store(2);
    s.register_item(item(3, 7000)).unwrap();
    tick(&mut s, 8000);

    assert_eq!(s.intervals.len(), 3);
    let third: Vec<i32> =
        s.ranks.iter().filter(|r| r.interval_id == 3).map(|r| r.item_id).collect();
    assert_eq!(third.len(), 2);
    assert!(third.contains(&2));
    assert!(third.contains(&3));
    assert!(!third.contains(&1));

    // the evicted item's historical stats remain
    let old = stats_row_for(&s, 1, 1);
    assert_eq!(old.upvotes, 2);
}

#[test]
fn idempotent_read_between_ticks() {
    let s = scenario_store(1500);
    let stats1 = get_stats(&s);
    let keys1 = qn_keys(&stats1);
    let r1 = get_ranking(&stats1, &keys1);
    let stats2 = get_stats(&s);
    let keys2 = qn_keys(&stats2);
    let r2 = get_ranking(&stats2, &keys2);
    assert_eq!(stats1, stats2);
    assert_eq!(keys1, keys2);
    assert_eq!(r1, r2);
    // ranks are dense and ascending
    for (i, it) in r1.iter().enumerate() {
        assert_eq!(it.rank, i as i32 + 1);
    }
}

#[test]
fn failed_tick_rolls_back() {
    let mut s = scenario_store(1500);
    let intervals_before = s.intervals.clone();
    let stats_before = s.stats.clone();
    let ranks_before = s.ranks.clone();

    // wrong number of score keys: the tick must reject and change nothing
    let bad_keys: Vec<u64> = vec![1];
    let r = record_sample(&mut s, 7000, &bad_keys);
    assert_eq!(r, Err(AppError::InvariantViolation));
    assert_eq!(s.intervals, intervals_before);
    assert_eq!(s.stats, stats_before);
    assert_eq!(s.ranks, ranks_before);

    // a tick stamped no later than the open interval is rejected whole
    let stats = compute_sample(&s, 9000).unwrap();
    let keys = qn_keys(&stats);
    let r2 = record_sample(&mut s, 6000, &keys);
    assert_eq!(r2, Err(AppError::InvariantViolation));
    assert_eq!(s.intervals, intervals_before);
    assert_eq!(s.stats, stats_before);
    assert_eq!(s.ranks, ranks_before);

    // the next tick proceeds as if the failed one never ran
    tick(&mut s, 7000);
    assert_eq!(s.intervals.len(), 3);
    assert_eq!(s.intervals[2].start_time, 7000);
}

#[test]
fn empty_pool_tick_is_noop() {
    let mut s = Store::new(1500);
    // only a comment exists: the pool is empty and the tick succeeds idly
    s.register_item(Item {
        item_id: 9,
        parent_id: Some(1),
        author_id: "c".to_string(),
        created_at: 5,
    })
    .unwrap();
    let stats = compute_sample(&s, 100).unwrap();
    assert!(stats.is_empty());
    let keys = qn_keys(&stats);
    record_sample(&mut s, 100, &keys).unwrap();
    assert_eq!(s.intervals.len(), 0);
    assert_eq!(s.stats.len(), 0);
    assert_eq!(s.ranks.len(), 0);
}

#[test]
fn no_closed_interval_reads_empty() {
    let mut s = Store::new(1500);
    assert!(get_stats(&s).is_empty());
    assert_eq!(get_latest_sample_interval(&s), Err(AppError::NotFound));
    s.register_item(item(1, 0)).unwrap();
    tick(&mut s, 100);
    // interval 1 is open, not closed: the quality-news page is still empty
    assert!(get_stats(&s).is_empty());
}

#[test]
fn replayed_log_reproduces_state() {
    let a = scenario_store(1500);
    // ingest the same events in a different order
    let mut b = Store::new(1500);
    b.register_item(item(2, 1000)).unwrap();
    b.register_item(item(1, 0)).unwrap();
    tick(&mut b, 2000);
    b.register_vote_event(upvote(12, 2, 5000)).unwrap();
    b.register_vote_event(upvote(10, 1, 3000)).unwrap();
    b.register_vote_event(upvote(11, 1, 4000)).unwrap();
    tick(&mut b, 6000);
    assert_eq!(a.get_current_upvote_count(1, 6000), b.get_current_upvote_count(1, 6000));
    assert_eq!(a.get_current_upvote_count(2, 6000), b.get_current_upvote_count(2, 6000));
    assert_eq!(stats_row_for(&a, 1, 1), stats_row_for(&b, 1, 1));
    assert_eq!(stats_row_for(&a, 2, 1), stats_row_for(&b, 2, 1));
}

#[test]
fn interval_deltas_partition_the_vote_log() {
    let mut s = scenario_store(1500);
    s.register_vote_event(upvote(13, 2, 6500)).unwrap();
    tick(&mut s, 7000);

    // intervals 1 and 2 are closed; their per-item deltas partition the
    // positive vote events that fell inside them
    let r11 = stats_row_for(&s, 1, 1).upvotes as i64;
    let r12 = stats_row_for(&s, 1, 2).upvotes as i64;
    let r21 = stats_row_for(&s, 2, 1).upvotes as i64;
    let r22 = stats_row_for(&s, 2, 2).upvotes as i64;
    // cumulative counts never decrease
    assert!(r12 >= r11);
    assert!(r22 >= r21);
    // item 1: 2 events in interval 1, none in interval 2
    assert_eq!(r11, 2);
    assert_eq!(r12 - r11, 0);
    // item 2: 1 event in interval 1, 1 more in interval 2
    assert_eq!(r21, 1);
    assert_eq!(r22 - r21, 1);
    // the summed deltas equal the positive events since the bootstrap
    assert_eq!(r12 + r22, 4);
}
