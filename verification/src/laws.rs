use crate::algs::quality_news::{
    bootstrap_post, closing_n_ranked, closing_row, last_interval, pool_rank_entries, pred_share,
    rank_rows_for, running_post, stats_entries,
};
use crate::algs::quality_news::repository::{rank_row_of, sample_of};
use crate::model::{PoolItem, QnSampleInterval, QnStats, RankRow, RankingPage, ScoredItem, StatsRow, VoteEvent};
use crate::ranking::{
    cnt, distinct_ids, is_ranking, lemma_cnt_bound, lemma_cnt_inj, lemma_cnt_onto,
    lemma_orders_total, lemma_ranking_unique, new_order, top_order, RankEntry,
};
use crate::frac::Frac;
use crate::store::{
    interval_rank_count, item_window_upvotes, pool_ids, pool_of, upvote_count, wf, StoreModel,
};
use crate::MAX_POOL_SIZE;
use vstd::prelude::*;

verus! {

/// Pool bound: no interval ever holds more rank assignments than the pool
/// limit, and the pool limit never exceeds 1500.
pub proof fn lemma_pool_bound(m: StoreModel, interval_id: int)
    requires
        wf(m),
        1 <= interval_id <= m.intervals.len(),
    ensures
        interval_rank_count(m.ranks, interval_id) <= m.pool_size <= MAX_POOL_SIZE,
{
}

/// Rank density: over entries with distinct ids, each rank column
/// (`1 + cnt` under its order) is a permutation of `1 ..= len` — every rank
/// lies in that range, distinct entries get distinct ranks, and every rank
/// in the range is taken.
pub proof fn lemma_rank_density(entries: Seq<RankEntry>, p: int)
    requires
        distinct_ids(entries),
        0 <= p < entries.len(),
    ensures
        forall|j: int|
            0 <= j < entries.len() ==> 1 <= 1 + #[trigger] cnt(top_order(), entries, j)
                <= entries.len(),
        forall|j: int|
            0 <= j < entries.len() ==> 1 <= 1 + #[trigger] cnt(new_order(), entries, j)
                <= entries.len(),
        forall|a: int, b: int|
            0 <= a < entries.len() && 0 <= b < entries.len() && a != b ==> #[trigger] cnt(
                top_order(),
                entries,
                a,
            ) != #[trigger] cnt(top_order(), entries, b),
        forall|a: int, b: int|
            0 <= a < entries.len() && 0 <= b < entries.len() && a != b ==> #[trigger] cnt(
                new_order(),
                entries,
                a,
            ) != #[trigger] cnt(new_order(), entries, b),
        exists|j: int| 0 <= j < entries.len() && #[trigger] cnt(top_order(), entries, j) == p,
        exists|j: int| 0 <= j < entries.len() && #[trigger] cnt(new_order(), entries, j) == p,
{
    lemma_orders_total(entries);
    assert forall|j: int| 0 <= j < entries.len() implies 1 <= 1 + #[trigger] cnt(
        top_order(),
        entries,
        j,
    ) <= entries.len() by {
        lemma_cnt_bound(top_order(), entries, j);
    }
    assert forall|j: int| 0 <= j < entries.len() implies 1 <= 1 + #[trigger] cnt(
        new_order(),
        entries,
        j,
    ) <= entries.len() by {
        lemma_cnt_bound(new_order(), entries, j);
    }
    assert forall|a: int, b: int|
        0 <= a < entries.len() && 0 <= b < entries.len() && a != b implies #[trigger] cnt(
        top_order(),
        entries,
        a,
    ) != #[trigger] cnt(top_order(), entries, b) by {
        lemma_cnt_inj(top_order(), entries);
        assert(entries[a].item_id != entries[b].item_id);
        assert(entries[a] != entries[b]);
    }
    assert forall|a: int, b: int|
        0 <= a < entries.len() && 0 <= b < entries.len() && a != b implies #[trigger] cnt(
        new_order(),
        entries,
        a,
    ) != #[trigger] cnt(new_order(), entries, b) by {
        lemma_cnt_inj(new_order(), entries);
        assert(entries[a].item_id != entries[b].item_id);
        assert(entries[a] != entries[b]);
    }
    lemma_cnt_onto(top_order(), entries, p);
    lemma_cnt_onto(new_order(), entries, p);
}

/// Monotone intervals: the interval id strictly increases with the start
/// time, in both directions.
pub proof fn lemma_monotone_intervals(m: StoreModel, j: int, l: int)
    requires
        wf(m),
        0 <= j < m.intervals.len(),
        0 <= l < m.intervals.len(),
        j < l,
    ensures
        m.intervals[j].interval_id < m.intervals[l].interval_id,
        m.intervals[j].start_time < m.intervals[l].start_time,
{
}

/// Idempotent read: two quality-news listings computed from the same stats
/// and the same score keys are identical.
pub proof fn lemma_idempotent_read(
    stats: Seq<QnStats>,
    keys: Seq<u64>,
    r1: Seq<ScoredItem>,
    r2: Seq<ScoredItem>,
)
    requires
        keys.len() == stats.len(),
        forall|i: int, j: int|
            0 <= i < stats.len() && 0 <= j < stats.len() && i != j ==> (
            #[trigger] stats[i]).item_id != (#[trigger] stats[j]).item_id,
        is_ranking(stats_entries(stats, keys), RankingPage::QualityNews, r1),
        is_ranking(stats_entries(stats, keys), RankingPage::QualityNews, r2),
    ensures
        r1 == r2,
{
    let entries = stats_entries(stats, keys);
    assert forall|i: int, j: int|
        0 <= i < entries.len() && 0 <= j < entries.len() && i != j implies entries[i].item_id
        != entries[j].item_id by {
        assert(stats[i].item_id != stats[j].item_id);
    }
    lemma_ranking_unique(entries, RankingPage::QualityNews, r1, r2);
}

/// `a` orders strictly before `b` as vote events: earlier creation time,
/// ties broken by the unique event id.
pub open spec fn vote_key_less(a: VoteEvent, b: VoteEvent) -> bool {
    a.created_at < b.created_at || (a.created_at == b.created_at && a.vote_event_id
        < b.vote_event_id)
}

/// `e` concerns the pair `(item_id, user_id)`.
pub open spec fn vote_relevant(e: VoteEvent, item_id: int, user_id: String) -> bool {
    e.item_id == item_id && e.user_id == user_id
}

/// `e` is the current (derived) vote of `(item_id, user_id)` in `votes`:
/// the latest relevant event, with ties broken by event id.
pub open spec fn is_current_vote(
    votes: Seq<VoteEvent>,
    item_id: int,
    user_id: String,
    e: VoteEvent,
) -> bool {
    &&& votes.contains(e)
    &&& vote_relevant(e, item_id, user_id)
    &&& forall|i: int|
        0 <= i < votes.len() && vote_relevant(#[trigger] votes[i], item_id, user_id) && votes[i]
            != e ==> vote_key_less(votes[i], e)
}

/// The derived vote of a pair is unique.
pub proof fn lemma_current_vote_unique(
    votes: Seq<VoteEvent>,
    item_id: int,
    user_id: String,
    e1: VoteEvent,
    e2: VoteEvent,
)
    requires
        is_current_vote(votes, item_id, user_id, e1),
        is_current_vote(votes, item_id, user_id, e2),
    ensures
        e1 == e2,
{
    if e1 != e2 {
        let i1 = choose|i: int| 0 <= i < votes.len() && votes[i] == e1;
        let i2 = choose|i: int| 0 <= i < votes.len() && votes[i] == e2;
        assert(vote_key_less(e1, e2));
        assert(vote_key_less(e2, e1));
    }
}

/// Replaying the event log reproduces the identical derived vote set: any
/// two logs holding the same set of events, in whatever order they were
/// ingested, derive the same current vote for every `(item, user)` pair.
pub proof fn lemma_replay_reproduces_votes(
    v1: Seq<VoteEvent>,
    v2: Seq<VoteEvent>,
    item_id: int,
    user_id: String,
    e: VoteEvent,
)
    requires
        v1.to_set() == v2.to_set(),
        is_current_vote(v1, item_id, user_id, e),
    ensures
        is_current_vote(v2, item_id, user_id, e),
{
    assert(v1.to_set().contains(e));
    assert(v2.to_set().contains(e));
    assert forall|i: int|
        0 <= i < v2.len() && vote_relevant(#[trigger] v2[i], item_id, user_id) && v2[i]
            != e implies vote_key_less(v2[i], e) by {
        assert(v2.to_set().contains(v2[i]));
        assert(v1.to_set().contains(v2[i]));
        assert(v1.contains(v2[i]));
        let j = choose|j: int| 0 <= j < v1.len() && v1[j] == v2[i];
        assert(vote_key_less(v1[j], e));
    }
}

/// Share bounds, pointwise: the estimator's expected upvote share is a
/// well-formed fraction between 0 and 1.
pub proof fn lemma_share_bounds(smp: crate::model::QnSample, n_ranked: int)
    requires
        smp.rank_top is Some ==> 1 <= n_ranked <= u64::MAX,
    ensures
        pred_share(smp, n_ranked).wf(),
        pred_share(smp, n_ranked).le(Frac { num: 1, den: 1 }),
        Frac::spec_zero().le(pred_share(smp, n_ranked)),
{
}

/// A matching row exists exactly when `rank_row_of` finds one.
proof fn lemma_rank_row_exists(ranks: Seq<RankRow>, item_id: int, interval_id: int)
    requires
        exists|l: int|
            0 <= l < ranks.len() && (#[trigger] ranks[l]).item_id == item_id
                && ranks[l].interval_id == interval_id,
    ensures
        rank_row_of(ranks, item_id, interval_id) is Some,
    decreases ranks.len(),
{
    if ranks.len() > 0 {
        if ranks.last().item_id == item_id && ranks.last().interval_id == interval_id {
        } else {
            let l = choose|l: int|
                0 <= l < ranks.len() && (#[trigger] ranks[l]).item_id == item_id
                    && ranks[l].interval_id == interval_id;
            assert(l < ranks.len() - 1);
            assert(ranks.drop_last()[l] == ranks[l]);
            lemma_rank_row_exists(ranks.drop_last(), item_id, interval_id);
        }
    }
}

/// The stats row of one item in one interval, if any (unique under `wf`).
pub open spec fn stat_row_of(stats: Seq<StatsRow>, item_id: int, interval_id: int) -> Option<
    StatsRow,
>
    decreases stats.len(),
{
    if stats.len() == 0 {
        None
    } else if stats.last().item_id == item_id && stats.last().interval_id == interval_id {
        Some(stats.last())
    } else {
        stat_row_of(stats.drop_last(), item_id, interval_id)
    }
}

/// A matching row exists exactly when `stat_row_of` finds one.
proof fn lemma_stat_row_exists(stats: Seq<StatsRow>, item_id: int, interval_id: int)
    requires
        exists|l: int|
            0 <= l < stats.len() && (#[trigger] stats[l]).item_id == item_id
                && stats[l].interval_id == interval_id,
    ensures
        stat_row_of(stats, item_id, interval_id) is Some,
    decreases stats.len(),
{
    if stats.len() > 0 {
        if stats.last().item_id == item_id && stats.last().interval_id == interval_id {
        } else {
            let l = choose|l: int|
                0 <= l < stats.len() && (#[trigger] stats[l]).item_id == item_id
                    && stats[l].interval_id == interval_id;
            assert(l < stats.len() - 1);
            assert(stats.drop_last()[l] == stats[l]);
            lemma_stat_row_exists(stats.drop_last(), item_id, interval_id);
        }
    }
}

/// Distinct item ids that each hold a rank row in one interval never
/// outnumber that interval's rank rows.
proof fn lemma_distinct_ranked_bound(ranks: Seq<RankRow>, ids: Seq<int>, interval_id: int)
    requires
        forall|a: int, b: int|
            0 <= a < ids.len() && 0 <= b < ids.len() && a != b ==> ids[a] != ids[b],
        forall|j: int|
            0 <= j < ids.len() ==> rank_row_of(ranks, #[trigger] ids[j], interval_id) is Some,
    ensures
        ids.len() <= interval_rank_count(ranks, interval_id),
    decreases ranks.len(),
{
    if ranks.len() == 0 {
        if ids.len() > 0 {
            assert(rank_row_of(ranks, ids[0], interval_id) is Some);
        }
    } else {
        let last = ranks.last();
        if last.interval_id == interval_id && (exists|j: int|
            0 <= j < ids.len() && ids[j] == last.item_id) {
            let j = choose|j: int| 0 <= j < ids.len() && #[trigger] ids[j] == last.item_id;
            let rest = ids.remove(j);
            assert forall|a: int, b: int|
                0 <= a < rest.len() && 0 <= b < rest.len() && a != b implies rest[a]
                != rest[b] by {}
            assert forall|l: int| 0 <= l < rest.len() implies rank_row_of(
                ranks.drop_last(),
                #[trigger] rest[l],
                interval_id,
            ) is Some by {
                let orig: int = if l < j {
                    l
                } else {
                    l + 1
                };
                assert(rest[l] == ids[orig]);
                assert(ids[orig] != ids[j]);
                assert(rank_row_of(ranks, ids[orig], interval_id) is Some);
            }
            lemma_distinct_ranked_bound(ranks.drop_last(), rest, interval_id);
        } else {
            assert forall|l: int| 0 <= l < ids.len() implies rank_row_of(
                ranks.drop_last(),
                #[trigger] ids[l],
                interval_id,
            ) is Some by {
                if last.item_id == ids[l] && last.interval_id == interval_id {
                    assert(exists|j: int| 0 <= j < ids.len() && #[trigger] ids[j] == last.item_id);
                }
            }
            lemma_distinct_ranked_bound(ranks.drop_last(), ids, interval_id);
        }
    }
}

/// How many of the first `k` pool members held a rank in the closing
/// interval.  Each such member's expected share is `1 / closing_n_ranked`
/// and every other member's is 0, so this numerator over the common
/// denominator `closing_n_ranked` is the pool's total expected share.
pub open spec fn count_ranked(m: StoreModel, now: i64, pl: Seq<PoolItem>, k: int) -> int
    decreases k,
{
    if k <= 0 {
        0
    } else {
        count_ranked(m, now, pl, k - 1) + if sample_of(
            m,
            last_interval(m),
            now,
            pl[k - 1],
        ).rank_top is Some {
            1int
        } else {
            0int
        }
    }
}

/// The item ids of those first `k` pool members that held a rank.
spec fn ranked_ids(m: StoreModel, now: i64, pl: Seq<PoolItem>, k: int) -> Seq<int>
    decreases k,
{
    if k <= 0 {
        Seq::empty()
    } else {
        ranked_ids(m, now, pl, k - 1) + if sample_of(
            m,
            last_interval(m),
            now,
            pl[k - 1],
        ).rank_top is Some {
            seq![pl[k - 1].item_id as int]
        } else {
            Seq::empty()
        }
    }
}

/// `v` is the id of a ranked pool member among the first `k`.
spec fn ranked_src(m: StoreModel, now: i64, pl: Seq<PoolItem>, k: int, v: int) -> bool {
    exists|j: int|
        0 <= j < k && 0 <= j < pl.len() && (#[trigger] pl[j]).item_id as int == v && sample_of(
            m,
            last_interval(m),
            now,
            pl[j],
        ).rank_top is Some
}

/// Every ranked id comes from a pool slot below `k`, and there are
/// `count_ranked` of them.
proof fn lemma_ranked_ids_facts(m: StoreModel, now: i64, pl: Seq<PoolItem>, k: int)
    requires
        0 <= k <= pl.len(),
    ensures
        ranked_ids(m, now, pl, k).len() == count_ranked(m, now, pl, k),
        forall|l: int|
            0 <= l < ranked_ids(m, now, pl, k).len() ==> #[trigger] ranked_src(
                m,
                now,
                pl,
                k,
                ranked_ids(m, now, pl, k)[l],
            ),
    decreases k,
{
    if k > 0 {
        lemma_ranked_ids_facts(m, now, pl, k - 1);
        let prev = ranked_ids(m, now, pl, k - 1);
        assert forall|l: int| 0 <= l < ranked_ids(m, now, pl, k).len() implies #[trigger] ranked_src(
            m,
            now,
            pl,
            k,
            ranked_ids(m, now, pl, k)[l],
        ) by {
            let cur = ranked_ids(m, now, pl, k);
            if l < prev.len() {
                assert(cur[l] == prev[l]);
                assert(ranked_src(m, now, pl, k - 1, prev[l]));
                let j = choose|j: int|
                    0 <= j < k - 1 && 0 <= j < pl.len() && (#[trigger] pl[j]).item_id as int
                        == prev[l] && sample_of(m, last_interval(m), now, pl[j]).rank_top is Some;
                assert(0 <= j < k && 0 <= j < pl.len() && pl[j].item_id as int == cur[l]
                    && sample_of(m, last_interval(m), now, pl[j]).rank_top is Some);
            } else {
                assert(sample_of(m, last_interval(m), now, pl[k - 1]).rank_top is Some);
                assert(cur[l] == pl[k - 1].item_id as int);
                assert(0 <= k - 1 < k && 0 <= k - 1 < pl.len() && pl[k - 1].item_id as int
                    == cur[l] && sample_of(m, last_interval(m), now, pl[k - 1]).rank_top is Some);
            }
        }
    }
}

/// Share sum bound: over any pool with distinct ids, at most
/// `closing_n_ranked` members held a rank in the closing interval, so the
/// expected upvote shares (each `1 / closing_n_ranked` or 0) sum to at
/// most 1.
pub proof fn lemma_share_sum_bound(m: StoreModel, now: i64, pl: Seq<PoolItem>)
    requires
        wf(m),
        m.intervals.len() > 0,
        forall|a: int, b: int|
            0 <= a < pl.len() && 0 <= b < pl.len() && a != b ==> (#[trigger] pl[a]).item_id != (
            #[trigger] pl[b]).item_id,
    ensures
        0 <= count_ranked(m, now, pl, pl.len() as int) <= closing_n_ranked(m),
{
    let n = pl.len() as int;
    let ids = ranked_ids(m, now, pl, n);
    lemma_ranked_ids_facts(m, now, pl, n);
    lemma_count_ranked_nonneg(m, now, pl, n);
    assert forall|a: int, b: int|
        0 <= a < ids.len() && 0 <= b < ids.len() && a != b implies ids[a] != ids[b] by {
        lemma_ranked_ids_inj(m, now, pl, n, a, b);
    }
    assert forall|l: int| 0 <= l < ids.len() implies rank_row_of(
        m.ranks,
        #[trigger] ids[l],
        m.intervals.len() as int,
    ) is Some by {
        assert(ranked_src(m, now, pl, n, ids[l]));
        let j = choose|j: int|
            0 <= j < n && 0 <= j < pl.len() && (#[trigger] pl[j]).item_id as int == ids[l]
                && sample_of(m, last_interval(m), now, pl[j]).rank_top is Some;
        assert(last_interval(m).interval_id as int == m.intervals.len());
    }
    lemma_distinct_ranked_bound(m.ranks, ids, m.intervals.len() as int);
}

proof fn lemma_count_ranked_nonneg(m: StoreModel, now: i64, pl: Seq<PoolItem>, k: int)
    ensures
        0 <= count_ranked(m, now, pl, k) <= ranked_ids(m, now, pl, k).len(),
        count_ranked(m, now, pl, k) == ranked_ids(m, now, pl, k).len(),
    decreases k,
{
    if k > 0 {
        lemma_count_ranked_nonneg(m, now, pl, k - 1);
    }
}

/// Two positions of the ranked-id sequence come from two distinct pool
/// slots when the pool ids are distinct.
proof fn lemma_ranked_ids_inj(m: StoreModel, now: i64, pl: Seq<PoolItem>, k: int, a: int, b: int)
    requires
        0 <= k <= pl.len(),
        forall|x: int, y: int|
            0 <= x < pl.len() && 0 <= y < pl.len() && x != y ==> (#[trigger] pl[x]).item_id != (
            #[trigger] pl[y]).item_id,
        0 <= a < ranked_ids(m, now, pl, k).len(),
        0 <= b < ranked_ids(m, now, pl, k).len(),
        a != b,
    ensures
        ranked_ids(m, now, pl, k)[a] != ranked_ids(m, now, pl, k)[b],
    decreases k,
{
    let cur = ranked_ids(m, now, pl, k);
    let prev = ranked_ids(m, now, pl, k - 1);
    lemma_ranked_ids_facts(m, now, pl, k);
    if k > 0 {
        lemma_ranked_ids_facts(m, now, pl, k - 1);
        if a < prev.len() && b < prev.len() {
            lemma_ranked_ids_inj(m, now, pl, k - 1, a, b);
            assert(cur[a] == prev[a] && cur[b] == prev[b]);
        } else if a < prev.len() {
            // b is the freshly appended slot k-1
            assert(cur[b] == pl[k - 1].item_id as int);
            assert(ranked_src(m, now, pl, k - 1, prev[a]));
            let j = choose|j: int|
                0 <= j < k - 1 && 0 <= j < pl.len() && (#[trigger] pl[j]).item_id as int == prev[a]
                    && sample_of(m, last_interval(m), now, pl[j]).rank_top is Some;
            assert(cur[a] == prev[a]);
            assert(pl[j].item_id != pl[k - 1].item_id);
        } else {
            assert(cur[a] == pl[k - 1].item_id as int);
            assert(b < prev.len());
            assert(ranked_src(m, now, pl, k - 1, prev[b]));
            let j = choose|j: int|
                0 <= j < k - 1 && 0 <= j < pl.len() && (#[trigger] pl[j]).item_id as int == prev[b]
                    && sample_of(m, last_interval(m), now, pl[j]).rank_top is Some;
            assert(cur[b] == prev[b]);
            assert(pl[j].item_id != pl[k - 1].item_id);
        }
    }
}

/// The start time of interval `k` (1-based id).
pub open spec fn interval_start(m: StoreModel, k: int) -> int {
    m.intervals[k - 1].start_time as int
}

/// Interval `k`'s stats row for `item_id` exists and records the
/// cumulative upvote count at the interval's close (the start of `k + 1`),
/// as every sampler tick writes it.
pub open spec fn row_tracks_count(m: StoreModel, item_id: int, k: int) -> bool {
    &&& stat_row_of(m.stats, item_id, k) is Some
    &&& stat_row_of(m.stats, item_id, k)->0.upvotes as int == upvote_count(
        m.votes,
        item_id,
        interval_start(m, k + 1),
    )
}

/// The sum over intervals `a + 1 ..= k` of that interval's new upvotes for
/// `item_id`: the difference between consecutive stats rows' cumulative
/// counts.
pub open spec fn delta_sum(m: StoreModel, item_id: int, a: int, k: int) -> int
    decreases k - a,
{
    if k <= a {
        0
    } else {
        delta_sum(m, item_id, a, k - 1) + (stat_row_of(m.stats, item_id, k)->0.upvotes as int
            - stat_row_of(m.stats, item_id, k - 1)->0.upvotes as int)
    }
}

/// Counting a window from a point to itself gives nothing.
proof fn lemma_item_window_empty(votes: Seq<VoteEvent>, item_id: int, t: int)
    ensures
        item_window_upvotes(votes, item_id, t, t) == 0,
    decreases votes.len(),
{
    if votes.len() > 0 {
        lemma_item_window_empty(votes.drop_last(), item_id, t);
    }
}

/// Cumulative counts difference equals the window count.
proof fn lemma_count_window(votes: Seq<VoteEvent>, item_id: int, t0: int, t1: int)
    requires
        t0 <= t1,
    ensures
        upvote_count(votes, item_id, t1) - upvote_count(votes, item_id, t0)
            == item_window_upvotes(votes, item_id, t0, t1),
    decreases votes.len(),
{
    if votes.len() > 0 {
        lemma_count_window(votes.drop_last(), item_id, t0, t1);
    }
}

/// Adjacent windows add up.
proof fn lemma_item_window_split(votes: Seq<VoteEvent>, item_id: int, t0: int, t1: int, t2: int)
    requires
        t0 <= t1 <= t2,
    ensures
        item_window_upvotes(votes, item_id, t0, t2) == item_window_upvotes(
            votes,
            item_id,
            t0,
            t1,
        ) + item_window_upvotes(votes, item_id, t1, t2),
    decreases votes.len(),
{
    if votes.len() > 0 {
        lemma_item_window_split(votes.drop_last(), item_id, t0, t1, t2);
    }
}

/// Upvote partition: for an item whose stats rows track intervals
/// `a ..= b` (every sampler tick writes rows that do), the per-interval
/// new upvotes summed over `a + 1 ..= b` equal the number of positive vote
/// events on the item inside those intervals, that is, in the window from
/// the close of `a` to the close of `b`.
pub proof fn lemma_upvote_partition(m: StoreModel, item_id: int, a: int, b: int)
    requires
        wf(m),
        1 <= a <= b,
        b + 1 <= m.intervals.len(),
        forall|k: int| a <= k <= b ==> #[trigger] row_tracks_count(m, item_id, k),
    ensures
        delta_sum(m, item_id, a, b) == item_window_upvotes(
            m.votes,
            item_id,
            interval_start(m, a + 1),
            interval_start(m, b + 1),
        ),
    decreases b - a,
{
    if b == a {
        lemma_item_window_empty(m.votes, item_id, interval_start(m, a + 1));
    } else {
        lemma_upvote_partition(m, item_id, a, b - 1);
        assert(row_tracks_count(m, item_id, b));
        assert(row_tracks_count(m, item_id, b - 1));
        assert(interval_start(m, b) <= interval_start(m, b + 1)) by {
            assert(m.intervals[b - 1].start_time < m.intervals[b].start_time);
        }
        assert(interval_start(m, a + 1) <= interval_start(m, b)) by {
            if a + 1 < b {
                assert(m.intervals[a].start_time < m.intervals[b - 1].start_time);
            }
        }
        lemma_count_window(
            m.votes,
            item_id,
            interval_start(m, b),
            interval_start(m, b + 1),
        );
        lemma_item_window_split(
            m.votes,
            item_id,
            interval_start(m, a + 1),
            interval_start(m, b),
            interval_start(m, b + 1),
        );
    }
}

/// Interval coverage: consider the interval that one tick opens and the
/// next tick closes.  Every item in the pool when it opened received a
/// rank assignment for it, and every such item still in the pool when it
/// closed received a stats sample for it.  (An item displaced from the
/// pool between the two ticks keeps its rank assignment but gets no
/// closing sample.)
pub proof fn lemma_interval_coverage(
    m0: StoreModel,
    m1: StoreModel,
    m2: StoreModel,
    t1: i64,
    t2: i64,
    pl1: Seq<PoolItem>,
    pl2: Seq<PoolItem>,
    keys1: Seq<u64>,
    keys2: Seq<u64>,
    id: i32,
)
    requires
        wf(m0),
        wf(m1),
        pool_of(m0, t1 as int, pl1),
        pool_of(m1, t2 as int, pl2),
        m0.intervals.len() == 0 ==> bootstrap_post(m0, m1, t1, pl1, keys1),
        m0.intervals.len() > 0 ==> running_post(m0, m1, t1, pl1, keys1),
        running_post(m1, m2, t2, pl2, keys2),
        pool_ids(m0, t1 as int).contains(id as int),
    ensures
        rank_row_of(m2.ranks, id as int, m1.intervals.len() as int) is Some,
        pool_ids(m1, t2 as int).contains(id as int) ==> stat_row_of(
            m2.stats,
            id as int,
            m1.intervals.len() as int,
        ) is Some,
{
    let kk = m1.intervals.len() as int;
    crate::store::lemma_pool_props(m0, t1 as int, pl1);
    crate::store::lemma_pool_props(m1, t2 as int, pl2);
    let p1 = choose|p: int| 0 <= p < pl1.len() && (#[trigger] pl1[p]).item_id == id;
    // the rank rows the first tick appended cover the pool at t1
    let rows1 = crate::algs::quality_news::rank_rows_for(pl1, keys1, kk as i32);
    assert(m1.ranks == m0.ranks + rows1);
    assert(rows1[p1].item_id == id && rows1[p1].interval_id as int == kk);
    let li = m0.ranks.len() + p1;
    assert(m1.ranks[li] == rows1[p1]);
    // those rows persist through the second tick
    assert(m2.ranks == m1.ranks + crate::algs::quality_news::rank_rows_for(
        pl2,
        keys2,
        (m1.intervals.len() + 1) as i32,
    ));
    assert(m2.ranks[li] == m1.ranks[li]);
    lemma_rank_row_exists(m2.ranks, id as int, kk);
    if pool_ids(m1, t2 as int).contains(id as int) {
        let p2 = choose|p: int| 0 <= p < pl2.len() && (#[trigger] pl2[p]).item_id == id;
        assert(exists|l: int|
            0 <= l < m2.stats.len() && #[trigger] m2.stats[l] == closing_row(
                m1,
                t2,
                pl2[p2],
            ));
        let lw = choose|l: int|
            0 <= l < m2.stats.len() && #[trigger] m2.stats[l] == closing_row(m1, t2, pl2[p2]);
        assert(closing_row(m1, t2, pl2[p2]).item_id == id);
        assert(closing_row(m1, t2, pl2[p2]).interval_id as int == kk) by {
            assert(last_interval(m1).interval_id as int == m1.intervals.len());
        }
        lemma_stat_row_exists(m2.stats, id as int, kk);
    }
}

/// The row a tick writes when it closes the latest interval records the
/// cumulative upvote count at the close: repeated ticks therefore keep the
/// stats history in the shape `lemma_upvote_partition` requires.
pub proof fn lemma_closing_row_tracks(m: StoreModel, now: i64, p: PoolItem)
    requires
        m.intervals.len() > 0,
        m.votes.len() <= usize::MAX,
    ensures
        closing_row(m, now, p).item_id == p.item_id,
        closing_row(m, now, p).interval_id == last_interval(m).interval_id,
        closing_row(m, now, p).upvotes as int == upvote_count(
            m.votes,
            p.item_id as int,
            now as int,
        ),
{
    crate::store::lemma_upvote_count_bounds(m.votes, p.item_id as int, now as int);
}

/// Rank density of a tick's persisted rows: over the pool it ranked, each
/// column of the appended rank-history rows is a dense permutation of
/// `1 ..= pool size` — in range, injective, and (witnessed per position
/// `p`) surjective.
pub proof fn lemma_recorded_rank_density(
    pl: Seq<PoolItem>,
    keys: Seq<u64>,
    interval_id: i32,
    p: int,
)
    requires
        keys.len() == pl.len(),
        0 < pl.len() <= 0x7fff_fffe,
        0 <= p < pl.len(),
        forall|a: int, b: int|
            0 <= a < pl.len() && 0 <= b < pl.len() && a != b ==> (#[trigger] pl[a]).item_id != (
            #[trigger] pl[b]).item_id,
    ensures
        forall|j: int|
            0 <= j < pl.len() ==> 1 <= (#[trigger] rank_rows_for(pl, keys, interval_id)[j]).rank_top
                <= pl.len() && 1 <= rank_rows_for(pl, keys, interval_id)[j].rank_new <= pl.len(),
        forall|a: int, b: int|
            0 <= a < pl.len() && 0 <= b < pl.len() && a != b ==> (#[trigger] rank_rows_for(
                pl,
                keys,
                interval_id,
            )[a]).rank_top != (#[trigger] rank_rows_for(pl, keys, interval_id)[b]).rank_top
                && rank_rows_for(pl, keys, interval_id)[a].rank_new != rank_rows_for(
                pl,
                keys,
                interval_id,
            )[b].rank_new,
        exists|j: int|
            0 <= j < pl.len() && (#[trigger] rank_rows_for(pl, keys, interval_id)[j]).rank_top == p
                + 1,
        exists|j: int|
            0 <= j < pl.len() && (#[trigger] rank_rows_for(pl, keys, interval_id)[j]).rank_new == p
                + 1,
{
    let entries = pool_rank_entries(pl, keys);
    assert forall|a: int, b: int|
        0 <= a < entries.len() && 0 <= b < entries.len() && a != b implies entries[a].item_id
        != entries[b].item_id by {
        assert(pl[a].item_id != pl[b].item_id);
    }
    lemma_rank_density(entries, p);
    let rows = rank_rows_for(pl, keys, interval_id);
    assert forall|j: int| 0 <= j < pl.len() implies 1 <= (#[trigger] rows[j]).rank_top <= pl.len()
        && 1 <= rows[j].rank_new <= pl.len() by {
        assert(1 <= 1 + cnt(top_order(), entries, j) <= entries.len());
        assert(1 <= 1 + cnt(new_order(), entries, j) <= entries.len());
    }
    assert forall|a: int, b: int|
        0 <= a < pl.len() && 0 <= b < pl.len() && a != b implies (#[trigger] rows[a]).rank_top != (
    #[trigger] rows[b]).rank_top && rows[a].rank_new != rows[b].rank_new by {
        assert(cnt(top_order(), entries, a) != cnt(top_order(), entries, b));
        assert(cnt(new_order(), entries, a) != cnt(new_order(), entries, b));
        assert(1 <= 1 + cnt(top_order(), entries, a) <= entries.len());
        assert(1 <= 1 + cnt(top_order(), entries, b) <= entries.len());
        assert(1 <= 1 + cnt(new_order(), entries, a) <= entries.len());
        assert(1 <= 1 + cnt(new_order(), entries, b) <= entries.len());
    }
    let jt = choose|j: int|
        0 <= j < entries.len() && #[trigger] cnt(top_order(), entries, j) == p;
    assert(rows[jt].rank_top == p + 1) by {
        assert(1 <= 1 + cnt(top_order(), entries, jt) <= entries.len());
    }
    let jn = choose|j: int|
        0 <= j < entries.len() && #[trigger] cnt(new_order(), entries, j) == p;
    assert(rows[jn].rank_new == p + 1) by {
        assert(1 <= 1 + cnt(new_order(), entries, jn) <= entries.len());
    }
}

/// Cumulative counts never shrink as time moves forward.
proof fn lemma_count_monotone(votes: Seq<VoteEvent>, item_id: int, t0: int, t1: int)
    requires
        t0 <= t1,
    ensures
        upvote_count(votes, item_id, t0) <= upvote_count(votes, item_id, t1),
    decreases votes.len(),
{
    if votes.len() > 0 {
        lemma_count_monotone(votes.drop_last(), item_id, t0, t1);
    }
}

/// Monotone cumulative upvotes: across two consecutive tracked stats rows
/// of an item, the recorded cumulative count never decreases, so the
/// per-interval new upvotes need no clamping.
pub proof fn lemma_cumulative_upvotes_monotone(m: StoreModel, item_id: int, k: int)
    requires
        wf(m),
        2 <= k,
        k + 1 <= m.intervals.len(),
        row_tracks_count(m, item_id, k - 1),
        row_tracks_count(m, item_id, k),
    ensures
        stat_row_of(m.stats, item_id, k - 1)->0.upvotes <= stat_row_of(
            m.stats,
            item_id,
            k,
        )->0.upvotes,
{
    assert(interval_start(m, k) <= interval_start(m, k + 1)) by {
        assert(m.intervals[k - 1].start_time < m.intervals[k].start_time);
    }
    lemma_count_monotone(m.votes, item_id, interval_start(m, k), interval_start(m, k + 1));
}

} // verus!
