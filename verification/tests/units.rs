use newsrank::algs::quality_news::repository::{
    get_expected_upvote_share, get_interval_rank_count, get_sitewide_upvotes_in_interval,
    insert_sample_interval,
};
use newsrank::algs::quality_news::{calc_expected_upvote_shares, calc_ranks};
use newsrank::algs::{hacker_news, newest};
use newsrank::error::AppError;
use newsrank::frac::Frac;
use newsrank::MAX_POOL_SIZE;
use newsrank::model::{Item, QnSample, QnStats, RankingPage, VoteEvent};
use newsrank::store::Store;
use newsrank::util::now_millis;

fn item(item_id: i32, created_at: i64) -> Item {
    Item { item_id, parent_id: None, author_id: format!("author-{}", item_id), created_at }
}

fn vote(vote_event_id: i32, item_id: i32, v: i32, created_at: i64) -> VoteEvent {
    VoteEvent {
        vote_event_id,
        item_id,
        user_id: format!("user-{}", vote_event_id),
        vote: v,
        rank: None,
        page: None,
        created_at,
    }
}

#[test]
fn duplicate_item_is_rejected() {
    let mut s = Store::new(10);
    s.register_item(item(1, 0)).unwrap();
    let r = s.register_item(item(1, 99));
    assert_eq!(r, Err(AppError::DuplicateKey));
    assert_eq!(s.items.len(), 1);
    assert_eq!(s.items[0].created_at, 0);
}

#[test]
fn duplicate_vote_event_is_rejected() {
    let mut s = Store::new(10);
    s.register_item(item(1, 0)).unwrap();
    s.register_vote_event(vote(5, 1, 1, 10)).unwrap();
    let r = s.register_vote_event(vote(5, 1, -1, 20));
    assert_eq!(r, Err(AppError::DuplicateKey));
    assert_eq!(s.votes.len(), 1);
    assert_eq!(s.votes[0].vote, 1);
}

#[test]
fn pool_is_newest_first_and_capped() {
    let mut s = Store::new(2);
    s.register_item(item(1, 100)).unwrap();
    s.register_item(item(2, 300)).unwrap();
    s.register_item(item(3, 200)).unwrap();
    // a comment and a future item are not candidates
    s.register_item(Item {
        item_id: 4,
        parent_id: Some(1),
        author_id: "c".to_string(),
        created_at: 250,
    })
    .unwrap();
    s.register_item(item(5, 999)).unwrap();

    let pool = s.pool_at(400);
    assert_eq!(pool.len(), 2);
    assert_eq!(pool[0].item_id, 2);
    assert_eq!(pool[0].created_at, 300);
    assert_eq!(pool[1].item_id, 3);
}

#[test]
fn pool_ties_break_by_item_id() {
    let mut s = Store::new(10);
    s.register_item(item(7, 100)).unwrap();
    s.register_item(item(3, 100)).unwrap();
    s.register_item(item(5, 100)).unwrap();
    let pool = s.pool_at(100);
    let ids: Vec<i32> = pool.iter().map(|p| p.item_id).collect();
    assert_eq!(ids, vec![3, 5, 7]);
}

#[test]
fn upvote_counting_ignores_other_votes() {
    let mut s = Store::new(10);
    s.register_item(item(1, 0)).unwrap();
    s.register_vote_event(vote(1, 1, 1, 10)).unwrap();
    s.register_vote_event(vote(2, 1, -1, 20)).unwrap();
    s.register_vote_event(vote(3, 1, 0, 30)).unwrap();
    s.register_vote_event(vote(4, 1, 1, 40)).unwrap();
    assert_eq!(s.get_current_upvote_count(1, 100), 2);
    assert_eq!(s.get_current_upvote_count(1, 15), 1);
    assert_eq!(s.get_current_upvote_count(2, 100), 0);
}

#[test]
fn sitewide_window_is_half_open_and_pool_restricted() {
    let mut s = Store::new(1);
    s.register_item(item(1, 0)).unwrap();
    s.register_item(item(2, 50)).unwrap();
    // pool at t=100 holds only item 2 (pool size 1, newest first)
    s.register_vote_event(vote(1, 2, 1, 10)).unwrap();
    s.register_vote_event(vote(2, 2, 1, 60)).unwrap();
    s.register_vote_event(vote(3, 2, 1, 100)).unwrap();
    s.register_vote_event(vote(4, 1, 1, 70)).unwrap();
    // window (10, 100]: events at 60 and 100 on item 2; the one at 10 is
    // excluded by the open lower bound, item 1 is outside the pool
    assert_eq!(get_sitewide_upvotes_in_interval(&s, 100, 10), 2);
}

#[test]
fn uniform_share_is_one_over_pool() {
    assert_eq!(get_expected_upvote_share(4), Frac { num: 1, den: 4 });
    assert_eq!(get_expected_upvote_share(1), Frac { num: 1, den: 1 });
}

#[test]
fn frac_addition_is_exact() {
    let a = Frac { num: 1, den: 2 };
    let b = Frac { num: 1, den: 3 };
    assert_eq!(a.add(b), Some(Frac { num: 5, den: 6 }));
    // a common denominator is reused
    assert_eq!(a.add(Frac { num: 3, den: 2 }), Some(Frac { num: 4, den: 2 }));
    // a sum that cannot fit is refused
    assert_eq!(Frac { num: u64::MAX, den: 1 }.add(Frac { num: 1, den: 1 }), None);
}

#[test]
fn overflowing_expected_upvotes_is_transient() {
    let sample = QnSample {
        item_id: 1,
        interval_id: 1,
        sample_time: 10,
        submission_time: 0,
        rank_top: Some(1),
        rank_new: Some(1),
        upvotes: 1,
        upvote_share: Frac { num: 1, den: 1 },
        expected_upvotes_prev: Frac { num: u64::MAX, den: 1 },
    };
    let r = calc_expected_upvote_shares(&vec![sample], 1, 1);
    assert_eq!(r, Err(AppError::Transient));
}

#[test]
fn calc_ranks_yields_dense_permutations() {
    let stats = vec![
        QnStats {
            item_id: 1,
            submission_time: 0,
            sample_time: 100,
            upvotes: 5,
            expected_upvotes: Frac { num: 1, den: 1 },
        },
        QnStats {
            item_id: 2,
            submission_time: 50,
            sample_time: 100,
            upvotes: 1,
            expected_upvotes: Frac { num: 1, den: 1 },
        },
        QnStats {
            item_id: 3,
            submission_time: 20,
            sample_time: 100,
            upvotes: 3,
            expected_upvotes: Frac { num: 1, den: 1 },
        },
    ];
    let keys: Vec<u64> = vec![50, 10, 30];
    let ranked = calc_ranks(&stats, &keys);
    assert_eq!(ranked.len(), 3);
    // aligned with the input
    assert_eq!(ranked[0].item_id, 1);
    assert_eq!(ranked[1].item_id, 2);
    assert_eq!(ranked[2].item_id, 3);
    // rank_top orders by key descending
    assert_eq!(ranked[0].rank_top, 1);
    assert_eq!(ranked[2].rank_top, 2);
    assert_eq!(ranked[1].rank_top, 3);
    // rank_new orders by submission time descending
    assert_eq!(ranked[1].rank_new, 1);
    assert_eq!(ranked[2].rank_new, 2);
    assert_eq!(ranked[0].rank_new, 3);
    // each column is a permutation of 1..=3
    let mut tops: Vec<i32> = ranked.iter().map(|r| r.rank_top).collect();
    let mut news: Vec<i32> = ranked.iter().map(|r| r.rank_new).collect();
    tops.sort();
    news.sort();
    assert_eq!(tops, vec![1, 2, 3]);
    assert_eq!(news, vec![1, 2, 3]);
}

#[test]
fn calc_ranks_breaks_key_ties_by_submission_then_id() {
    let mk = |item_id: i32, submission_time: i64| QnStats {
        item_id,
        submission_time,
        sample_time: 100,
        upvotes: 0,
        expected_upvotes: Frac { num: 0, den: 1 },
    };
    let stats = vec![mk(4, 10), mk(2, 30), mk(9, 30)];
    let keys: Vec<u64> = vec![7, 7, 7];
    let ranked = calc_ranks(&stats, &keys);
    // newer submission wins the tie, then the smaller id
    assert_eq!(ranked[1].rank_top, 1);  // item 2, t=30
    assert_eq!(ranked[2].rank_top, 2);  // item 9, t=30
    assert_eq!(ranked[0].rank_top, 3);  // item 4, t=10
}

#[test]
fn newest_ranking_is_submission_order() {
    let mut s = Store::new(10);
    s.register_item(item(1, 100)).unwrap();
    s.register_item(item(2, 300)).unwrap();
    s.register_item(item(3, 200)).unwrap();
    let r = newest::get_ranking(&s, 400);
    let ids: Vec<i32> = r.iter().map(|x| x.item_id).collect();
    assert_eq!(ids, vec![2, 3, 1]);
    for (i, x) in r.iter().enumerate() {
        assert_eq!(x.rank, i as i32 + 1);
        assert_eq!(x.page, RankingPage::Newest);
    }
}

#[test]
fn hacker_news_ranking_orders_by_key() {
    let mut s = Store::new(10);
    s.register_item(item(1, 0)).unwrap();
    s.register_item(item(2, 10)).unwrap();
    s.register_vote_event(vote(1, 1, 1, 20)).unwrap();
    s.register_vote_event(vote(2, 1, 1, 30)).unwrap();
    s.register_vote_event(vote(3, 2, 1, 40)).unwrap();
    let stats = hacker_news::get_stats(&s, 100);
    assert_eq!(stats.len(), 2);
    let by_id =
        |id: i32| stats.iter().find(|x| x.item_id == id).expect("missing hn stat").upvotes;
    assert_eq!(by_id(1), 2);
    assert_eq!(by_id(2), 1);
    // score each stat: more upvotes at equal age ranks first
    let keys: Vec<u64> = stats
        .iter()
        .map(|x| {
            let age_hours = (x.sample_time - x.submission_time) as f32 / 3_600_000.0;
            let score = (x.upvotes as f32).powf(0.8) / (age_hours + 2.0).powf(1.8);
            score.to_bits() as u64
        })
        .collect();
    let r = hacker_news::get_ranking(&stats, &keys);
    assert_eq!(r[0].item_id, 1);
    assert_eq!(r[0].rank, 1);
    assert_eq!(r[1].item_id, 2);
    assert_eq!(r[1].rank, 2);
    assert_eq!(r[0].page, RankingPage::HackerNews);
}

#[test]
fn interval_insertion_is_monotone() {
    let mut s = Store::new(10);
    let iv1 = insert_sample_interval(&mut s, 100).unwrap();
    assert_eq!(iv1.interval_id, 1);
    assert_eq!(iv1.start_time, 100);
    let r = insert_sample_interval(&mut s, 100);
    assert_eq!(r, Err(AppError::InvariantViolation));
    let iv2 = insert_sample_interval(&mut s, 101).unwrap();
    assert_eq!(iv2.interval_id, 2);
    assert_eq!(get_interval_rank_count(&s, 1), 0);
}

#[test]
fn page_labels_and_error_messages() {
    assert_eq!(RankingPage::Newest.label(), "newest");
    assert_eq!(RankingPage::QualityNews.label(), "quality_news");
    assert_eq!(RankingPage::HackerNews.label(), "hacker_news");
    assert_eq!(AppError::DuplicateKey.message(), "already exists");
    assert_eq!(AppError::NotFound.message(), "not found");
    assert_eq!(AppError::InvariantViolation.message(), "invariant violation");
    assert_eq!(AppError::Transient.message(), "transient store error");
}

#[test]
fn clock_and_pool_limit() {
    assert!(now_millis() >= 0);
    assert_eq!(MAX_POOL_SIZE, 1500);
}
