use crate::error::AppError;
use crate::frac::Frac;
use crate::model::{Item, ItemWithRanks, PoolItem, QnSample, QnSampleInterval, QnSampleWithPrediction, QnStats, RankRow, StatsRow};
use crate::store::{
    interval_rank_count, intervals_wf, items_distinct, pool_ids, pool_of, ranks_wf, stats_wf,
    upvote_count, votes_distinct, wf, window_upvotes, Store, StoreModel,
};
use vstd::prelude::*;

verus! {

/// The flat stats-history row that a predicted sample is persisted as.
pub open spec fn to_stats_row(p: QnSampleWithPrediction) -> StatsRow {
    StatsRow {
        item_id: p.sample.item_id,
        interval_id: p.sample.interval_id,
        upvotes: p.sample.upvotes,
        upvote_share: p.sample.upvote_share,
        expected_upvote_share: p.expected_upvote_share,
        expected_upvotes: p.expected_upvotes,
    }
}

/// The most recently written stats row for `item_id`, if any.
pub open spec fn latest_stat(stats: Seq<StatsRow>, item_id: int) -> Option<StatsRow>
    decreases stats.len(),
{
    if stats.len() == 0 {
        None
    } else if stats.last().item_id == item_id {
        Some(stats.last())
    } else {
        latest_stat(stats.drop_last(), item_id)
    }
}

/// Cumulative upvotes of the most recent stats sample, 0 if none.
pub open spec fn prev_upvotes(m: StoreModel, item_id: int) -> int {
    match latest_stat(m.stats, item_id) {
        Some(row) => row.upvotes as int,
        None => 0,
    }
}

/// Cumulative expected upvotes of the most recent stats sample, 0 if none.
pub open spec fn prev_expected(m: StoreModel, item_id: int) -> Frac {
    match latest_stat(m.stats, item_id) {
        Some(row) => row.expected_upvotes,
        None => Frac::spec_zero(),
    }
}

/// The rank row of `item_id` for `interval_id`, if any (unique under `wf`).
pub open spec fn rank_row_of(ranks: Seq<RankRow>, item_id: int, interval_id: int) -> Option<RankRow>
    decreases ranks.len(),
{
    if ranks.len() == 0 {
        None
    } else if ranks.last().item_id == item_id && ranks.last().interval_id == interval_id {
        Some(ranks.last())
    } else {
        rank_row_of(ranks.drop_last(), item_id, interval_id)
    }
}

/// Opens the next sampling interval.  Succeeds exactly when `start_time` is
/// later than every existing interval start and there is id headroom; the
/// new interval gets the next dense id.
pub fn insert_sample_interval(s: &mut Store, start_time: i64) -> (r: Result<
    QnSampleInterval,
    AppError,
>)
    requires
        wf(old(s)@),
    ensures
        wf(final(s)@),
        r is Ok <==> ((old(s)@.intervals.len() == 0 || old(s)@.intervals[old(
            s,
        )@.intervals.len() - 1].start_time < start_time) && old(s)@.intervals.len() < 0x7fff_ffff),
        r is Err ==> final(s)@ == old(s)@,
        r is Err ==> (r->Err_0 == AppError::InvariantViolation || r->Err_0 == AppError::Transient),
        r is Ok ==> r->Ok_0 == (QnSampleInterval {
            interval_id: (old(s)@.intervals.len() + 1) as i32,
            start_time,
        }),
        r is Ok ==> final(s)@ == (StoreModel {
            intervals: old(s)@.intervals.push(r->Ok_0),
            ..old(s)@
        }),
{
    if s.intervals.len() >= 0x7fff_ffff {
        return Err(AppError::Transient);
    }
    if s.intervals.len() > 0 {
        let last = s.intervals[s.intervals.len() - 1];
        if last.start_time >= start_time {
            return Err(AppError::InvariantViolation);
        }
    }
    let iv = QnSampleInterval {
        interval_id: (s.intervals.len() + 1) as i32,
        start_time,
    };
    proof {
        let m = s@;
        assert forall|j: int, l: int|
            0 <= j < l < m.intervals.push(iv).len() implies (
        #[trigger] m.intervals.push(iv)[j]).start_time < (
        #[trigger] m.intervals.push(iv)[l]).start_time by {
            if l < m.intervals.len() {
            } else {
                if j < m.intervals.len() - 1 {
                    assert(m.intervals[j].start_time < m.intervals[m.intervals.len()
                        - 1].start_time);
                }
            }
        }
        lemma_rank_count_absent(m.ranks, m.intervals.len() as int + 1);
    }
    s.intervals.push(iv);
    Ok(iv)
}

/// No rank rows for an interval id that no row carries.
pub proof fn lemma_rank_count_absent(ranks: Seq<RankRow>, interval_id: int)
    requires
        forall|i: int| 0 <= i < ranks.len() ==> (#[trigger] ranks[i]).interval_id != interval_id,
    ensures
        interval_rank_count(ranks, interval_id) == 0,
    decreases ranks.len(),
{
    if ranks.len() > 0 {
        lemma_rank_count_absent(ranks.drop_last(), interval_id);
    }
}

/// The latest interval, or `NotFound` when sampling never initialized.
pub fn get_latest_sample_interval(s: &Store) -> (r: Result<QnSampleInterval, AppError>)
    ensures
        r is Ok <==> s@.intervals.len() > 0,
        r is Ok ==> r->Ok_0 == s@.intervals[s@.intervals.len() - 1],
        r is Err ==> r->Err_0 == AppError::NotFound,
{
    if s.intervals.len() == 0 {
        Err(AppError::NotFound)
    } else {
        Ok(s.intervals[s.intervals.len() - 1])
    }
}

/// Whether the pool vector holds `item_id`.
pub fn pool_contains(pool: &Vec<PoolItem>, item_id: i32) -> (r: bool)
    ensures
        r <==> (exists|p: int| 0 <= p < pool@.len() && (#[trigger] pool@[p]).item_id == item_id),
{
    let mut i: usize = 0;
    while i < pool.len()
        invariant
            i <= pool@.len(),
            forall|p: int| 0 <= p < i ==> (#[trigger] pool@[p]).item_id != item_id,
        decreases pool@.len() - i,
    {
        if pool[i].item_id == item_id {
            return true;
        }
        i = i + 1;
    }
    false
}

/// Count of positive vote events on pool members (pool taken at
/// `sample_time`) in the window `(previous_sample_time, sample_time]`.
pub fn get_sitewide_upvotes_in_interval(
    s: &Store,
    sample_time: i64,
    previous_sample_time: i64,
) -> (c: usize)
    requires
        wf(s@),
    ensures
        c == window_upvotes(
            s@.votes,
            pool_ids(s@, sample_time as int),
            previous_sample_time as int,
            sample_time as int,
        ),
{
    let pool = s.pool_at(sample_time);
    proof {
        crate::store::lemma_pool_props(s@, sample_time as int, pool@);
    }
    let ghost pids = pool_ids(s@, sample_time as int);
    let mut c: usize = 0;
    let mut i: usize = 0;
    while i < s.votes.len()
        invariant
            wf(s@),
            i <= s@.votes.len(),
            c <= i,
            forall|id: i32|
                #[trigger] pids.contains(id as int) <==> (exists|p: int|
                    0 <= p < pool@.len() && (#[trigger] pool@[p]).item_id == id),
            c == window_upvotes(
                s@.votes.take(i as int),
                pids,
                previous_sample_time as int,
                sample_time as int,
            ),
        decreases s@.votes.len() - i,
    {
        let v = &s.votes[i];
        proof {
            assert(s@.votes.take(i + 1).drop_last() =~= s@.votes.take(i as int));
        }
        if v.vote == 1 && previous_sample_time < v.created_at && v.created_at <= sample_time {
            if pool_contains(&pool, v.item_id) {
                c = c + 1;
            }
        }
        i = i + 1;
    }
    proof {
        assert(s@.votes.take(s@.votes.len() as int) =~= s@.votes);
    }
    c
}

/// The uniform expected-upvote-share prior: `1 / n_items` for every pool
/// member.
pub fn get_expected_upvote_share(n_items: i32) -> (r: Frac)
    requires
        n_items >= 1,
    ensures
        r == (Frac { num: 1, den: n_items as u64 }),
        r.wf(),
{
    Frac::new(1, n_items as u64)
}

/// The rank-history rows that persisting `ranked` for `iv` appends.
pub open spec fn rank_rows_from(ranked: Seq<ItemWithRanks>, iv: QnSampleInterval) -> Seq<RankRow> {
    Seq::new(
        ranked.len(),
        |j: int|
            RankRow {
                item_id: ranked[j].item_id,
                interval_id: iv.interval_id,
                rank_top: ranked[j].rank_top,
                rank_new: ranked[j].rank_new,
            },
    )
}

/// Rank count of a concatenation splits over the parts.
pub proof fn lemma_rank_count_concat(a: Seq<RankRow>, b: Seq<RankRow>, interval_id: int)
    ensures
        interval_rank_count(a + b, interval_id) == interval_rank_count(a, interval_id) + interval_rank_count(b, interval_id),
    decreases b.len(),
{
    if b.len() == 0 {
        assert(a + b =~= a);
    } else {
        lemma_rank_count_concat(a, b.drop_last(), interval_id);
        assert((a + b).drop_last() =~= a + b.drop_last());
        assert((a + b).last() == b.last());
    }
}

/// Rows that all carry one interval id count fully for it and not at all
/// for any other.
pub proof fn lemma_rank_count_uniform(rows: Seq<RankRow>, iv_id: int, interval_id: int)
    requires
        forall|i: int| 0 <= i < rows.len() ==> (#[trigger] rows[i]).interval_id == iv_id,
    ensures
        interval_rank_count(rows, interval_id) == if interval_id == iv_id {
            rows.len() as int
        } else {
            0int
        },
    decreases rows.len(),
{
    if rows.len() > 0 {
        assert(forall|i: int|
            0 <= i < rows.drop_last().len() ==> (#[trigger] rows.drop_last()[i]).interval_id
                == iv_id);
        lemma_rank_count_uniform(rows.drop_last(), iv_id, interval_id);
    }
}

/// Persists the rank assignments of one interval.  The caller supplies a
/// freshly opened interval with no rank rows yet, distinct item ids, and
/// 1-based ranks; the rows are appended in order.
pub fn insert_rank_observations(
    s: &mut Store,
    ranked_items: &Vec<ItemWithRanks>,
    sample_interval: &QnSampleInterval,
) -> (r: Result<(), AppError>)
    requires
        wf(old(s)@),
        1 <= sample_interval.interval_id as int <= old(s)@.intervals.len(),
        forall|i: int|
            0 <= i < old(s)@.ranks.len() ==> (#[trigger] old(s)@.ranks[i]).interval_id
                != sample_interval.interval_id,
        forall|i: int, j: int|
            0 <= i < ranked_items@.len() && 0 <= j < ranked_items@.len() && i != j ==> (
            #[trigger] ranked_items@[i]).item_id != (#[trigger] ranked_items@[j]).item_id,
        ranked_items@.len() <= old(s)@.pool_size,
        forall|j: int|
            0 <= j < ranked_items@.len() ==> (#[trigger] ranked_items@[j]).rank_top >= 1
                && ranked_items@[j].rank_new >= 1,
    ensures
        wf(final(s)@),
        r is Ok,
        final(s)@ == (StoreModel {
            ranks: old(s)@.ranks + rank_rows_from(ranked_items@, *sample_interval),
            ..old(s)@
        }),
{
    let ghost rows = rank_rows_from(ranked_items@, *sample_interval);
    let mut i: usize = 0;
    while i < ranked_items.len()
        invariant
            i <= ranked_items@.len(),
            s@.ranks == old(s)@.ranks + rank_rows_from(ranked_items@, *sample_interval).take(
                i as int,
            ),
            s@.items == old(s)@.items,
            s@.votes == old(s)@.votes,
            s@.intervals == old(s)@.intervals,
            s@.stats == old(s)@.stats,
            s@.pool_size == old(s)@.pool_size,
        decreases ranked_items@.len() - i,
    {
        let it = &ranked_items[i];
        s.ranks.push(
            RankRow {
                item_id: it.item_id,
                interval_id: sample_interval.interval_id,
                rank_top: it.rank_top,
                rank_new: it.rank_new,
            },
        );
        proof {
            assert(s@.ranks =~= old(s)@.ranks + rank_rows_from(
                ranked_items@,
                *sample_interval,
            ).take(i + 1));
        }
        i = i + 1;
    }
    proof {
        assert(rows.take(rows.len() as int) =~= rows);
        let m = s@;
        let oldm = old(s)@;
        assert(m.ranks == oldm.ranks + rows);
        // bounds and 1-based ranks of every row
        assert forall|l: int| 0 <= l < m.ranks.len() implies {
            &&& 1 <= (#[trigger] m.ranks[l]).interval_id <= m.intervals.len()
            &&& m.ranks[l].rank_top >= 1
            &&& m.ranks[l].rank_new >= 1
        } by {
            if l < oldm.ranks.len() {
                assert(m.ranks[l] == oldm.ranks[l]);
            } else {
                assert(m.ranks[l] == rows[l - oldm.ranks.len()]);
            }
        }
        // key uniqueness
        assert forall|a: int, b: int|
            0 <= a < m.ranks.len() && 0 <= b < m.ranks.len() && a != b implies !((
        #[trigger] m.ranks[a]).item_id == (#[trigger] m.ranks[b]).item_id && m.ranks[a].interval_id
            == m.ranks[b].interval_id) by {
            let na = oldm.ranks.len() as int;
            if a < na && b < na {
            } else if a < na && b >= na {
                assert(m.ranks[a] == oldm.ranks[a]);
                assert(m.ranks[b] == rows[b - na]);
                assert(oldm.ranks[a].interval_id != sample_interval.interval_id);
            } else if a >= na && b < na {
                assert(m.ranks[a] == rows[a - na]);
                assert(m.ranks[b] == oldm.ranks[b]);
                assert(oldm.ranks[b].interval_id != sample_interval.interval_id);
            } else {
                assert(m.ranks[a] == rows[a - na]);
                assert(m.ranks[b] == rows[b - na]);
            }
        }
        // per-interval counts stay bounded
        assert forall|iv: int| 1 <= iv <= m.intervals.len() implies #[trigger] interval_rank_count(
            m.ranks,
            iv,
        ) <= m.pool_size by {
            lemma_rank_count_concat(oldm.ranks, rows, iv);
            assert(forall|l: int|
                0 <= l < rows.len() ==> (#[trigger] rows[l]).interval_id
                    == sample_interval.interval_id);
            lemma_rank_count_uniform(rows, sample_interval.interval_id as int, iv);
            if iv == sample_interval.interval_id as int {
                lemma_rank_count_absent(oldm.ranks, iv);
            }
        }
    }
    Ok(())
}

/// Key match for a stats row.
pub open spec fn stats_key_match(row: StatsRow, item_id: int, interval_id: int) -> bool {
    row.item_id == item_id && row.interval_id == interval_id
}

/// Writes one stats-history row, replacing the row with the same
/// `(item_id, interval_id)` key in place if one exists, appending otherwise.
pub fn insert_sample(s: &mut Store, stats: &QnSampleWithPrediction) -> (r: Result<(), AppError>)
    requires
        wf(old(s)@),
        1 <= stats.sample.interval_id as int <= old(s)@.intervals.len(),
        stats.sample.upvote_share.wf(),
        stats.expected_upvote_share.wf(),
        stats.expected_upvotes.wf(),
    ensures
        wf(final(s)@),
        r is Ok,
        final(s)@.items == old(s)@.items,
        final(s)@.votes == old(s)@.votes,
        final(s)@.intervals == old(s)@.intervals,
        final(s)@.ranks == old(s)@.ranks,
        final(s)@.pool_size == old(s)@.pool_size,
        old(s)@.stats.len() <= final(s)@.stats.len() <= old(s)@.stats.len() + 1,
        (final(s)@.stats.len() == old(s)@.stats.len() <==> (exists|l: int|
            0 <= l < old(s)@.stats.len() && stats_key_match(
                #[trigger] old(s)@.stats[l],
                stats.sample.item_id as int,
                stats.sample.interval_id as int,
            ))),
        forall|l: int|
            0 <= l < old(s)@.stats.len() && stats_key_match(
                #[trigger] old(s)@.stats[l],
                stats.sample.item_id as int,
                stats.sample.interval_id as int,
            ) ==> final(s)@.stats[l] == to_stats_row(*stats),
        forall|l: int|
            0 <= l < old(s)@.stats.len() && !stats_key_match(
                #[trigger] old(s)@.stats[l],
                stats.sample.item_id as int,
                stats.sample.interval_id as int,
            ) ==> final(s)@.stats[l] == old(s)@.stats[l],
        forall|l: int|
            old(s)@.stats.len() <= l < final(s)@.stats.len() ==> #[trigger] final(s)@.stats[l]
                == to_stats_row(*stats),
        exists|l: int|
            0 <= l < final(s)@.stats.len() && #[trigger] final(s)@.stats[l] == to_stats_row(
                *stats,
            ),
{
    let row = StatsRow {
        item_id: stats.sample.item_id,
        interval_id: stats.sample.interval_id,
        upvotes: stats.sample.upvotes,
        upvote_share: stats.sample.upvote_share,
        expected_upvote_share: stats.expected_upvote_share,
        expected_upvotes: stats.expected_upvotes,
    };
    let mut i: usize = 0;
    while i < s.stats.len()
        invariant
            wf(old(s)@),
            1 <= row.interval_id as int <= old(s)@.intervals.len(),
            row.upvote_share.wf(),
            row.expected_upvote_share.wf(),
            row.expected_upvotes.wf(),
            s@ == old(s)@,
            row == to_stats_row(*stats),
            i <= s@.stats.len(),
            forall|l: int|
                0 <= l < i ==> !stats_key_match(
                    #[trigger] s@.stats[l],
                    row.item_id as int,
                    row.interval_id as int,
                ),
        decreases s@.stats.len() - i,
    {
        if s.stats[i].item_id == row.item_id && s.stats[i].interval_id == row.interval_id {
            let ghost oldm = s@;
            s.stats[i] = row;
            proof {
                let m = s@;
                assert(m.stats =~= oldm.stats.update(i as int, row));
                assert forall|l: int| 0 <= l < m.stats.len() implies {
                    &&& 1 <= (#[trigger] m.stats[l]).interval_id <= m.intervals.len()
                    &&& m.stats[l].upvote_share.wf()
                    &&& m.stats[l].expected_upvote_share.wf()
                    &&& m.stats[l].expected_upvotes.wf()
                } by {
                    if l != i as int {
                        assert(m.stats[l] == oldm.stats[l]);
                    }
                }
                assert forall|a: int, b: int|
                    0 <= a < m.stats.len() && 0 <= b < m.stats.len() && a != b implies !((
                #[trigger] m.stats[a]).item_id == (#[trigger] m.stats[b]).item_id
                    && m.stats[a].interval_id == m.stats[b].interval_id) by {
                    if a == i as int {
                        assert(m.stats[a].item_id == oldm.stats[a].item_id);
                        assert(m.stats[a].interval_id == oldm.stats[a].interval_id);
                        assert(m.stats[b] == oldm.stats[b]);
                    } else if b == i as int {
                        assert(m.stats[b].item_id == oldm.stats[b].item_id);
                        assert(m.stats[b].interval_id == oldm.stats[b].interval_id);
                        assert(m.stats[a] == oldm.stats[a]);
                    } else {
                        assert(m.stats[a] == oldm.stats[a]);
                        assert(m.stats[b] == oldm.stats[b]);
                    }
                }
                assert(stats_key_match(
                    old(s)@.stats[i as int],
                    row.item_id as int,
                    row.interval_id as int,
                ));
                assert(m.stats[i as int] == row);
                assert(row == to_stats_row(*stats));
                assert(items_distinct(m.items));
                assert(votes_distinct(m.votes));
                assert(intervals_wf(m.intervals));
                assert(m.ranks == old(s)@.ranks && m.intervals == old(s)@.intervals
                    && m.pool_size == old(s)@.pool_size);
                assert forall|iv: int|
                    1 <= iv <= m.intervals.len() implies #[trigger] interval_rank_count(
                    m.ranks,
                    iv,
                ) <= m.pool_size by {
                    assert(interval_rank_count(old(s)@.ranks, iv) <= old(s)@.pool_size);
                }
                assert(ranks_wf(m));
                assert(stats_wf(m));
            }
            return Ok(());
        }
        i = i + 1;
    }
    let ghost oldm = s@;
    s.stats.push(row);
    proof {
        let m = s@;
        assert(m.stats =~= oldm.stats.push(row));
        assert forall|l: int| 0 <= l < m.stats.len() implies {
            &&& 1 <= (#[trigger] m.stats[l]).interval_id <= m.intervals.len()
            &&& m.stats[l].upvote_share.wf()
            &&& m.stats[l].expected_upvote_share.wf()
            &&& m.stats[l].expected_upvotes.wf()
        } by {
            if l < oldm.stats.len() {
                assert(m.stats[l] == oldm.stats[l]);
            } else {
                assert(m.stats[l] == row);
            }
        }
        assert forall|a: int, b: int|
            0 <= a < m.stats.len() && 0 <= b < m.stats.len() && a != b implies !((
        #[trigger] m.stats[a]).item_id == (#[trigger] m.stats[b]).item_id && m.stats[a].interval_id
            == m.stats[b].interval_id) by {
            let n = oldm.stats.len() as int;
            if a < n && b < n {
                assert(m.stats[a] == oldm.stats[a]);
                assert(m.stats[b] == oldm.stats[b]);
            } else if a < n && b >= n {
                assert(m.stats[b] == row);
                assert(!stats_key_match(oldm.stats[a], row.item_id as int, row.interval_id as int));
            } else if a >= n && b < n {
                assert(m.stats[a] == row);
                assert(!stats_key_match(oldm.stats[b], row.item_id as int, row.interval_id as int));
            }
        }
        assert(m.stats[oldm.stats.len() as int] == row);
        assert(row == to_stats_row(*stats));
        assert(items_distinct(m.items));
        assert(votes_distinct(m.votes));
        assert(intervals_wf(m.intervals));
        assert(m.ranks == old(s)@.ranks && m.intervals == old(s)@.intervals
            && m.pool_size == old(s)@.pool_size);
        assert forall|iv: int|
            1 <= iv <= m.intervals.len() implies #[trigger] interval_rank_count(
            m.ranks,
            iv,
        ) <= m.pool_size by {
            assert(interval_rank_count(old(s)@.ranks, iv) <= old(s)@.pool_size);
        }
        assert(ranks_wf(m));
        assert(stats_wf(m));
    }
    Ok(())
}

/// Whether any item exists yet.
pub fn check_items_exist(s: &Store) -> (r: bool)
    ensures
        r <==> s@.items.len() > 0,
{
    s.items.len() > 0
}

/// Whether sampling was initialized, that is, any interval exists.
pub fn check_sampling_initialized(s: &Store) -> (r: bool)
    ensures
        r <==> s@.intervals.len() > 0,
{
    s.intervals.len() > 0
}

/// The most recently written stats row for `item_id`, if any.
pub fn get_latest_stat(s: &Store, item_id: i32) -> (r: Option<StatsRow>)
    ensures
        r == latest_stat(s@.stats, item_id as int),
{
    let mut i: usize = s.stats.len();
    proof {
        assert(s@.stats.take(s@.stats.len() as int) =~= s@.stats);
    }
    while i > 0
        invariant
            i <= s@.stats.len(),
            latest_stat(s@.stats, item_id as int) == latest_stat(
                s@.stats.take(i as int),
                item_id as int,
            ),
        decreases i,
    {
        let row = s.stats[i - 1];
        proof {
            assert(s@.stats.take(i as int).drop_last() =~= s@.stats.take(i - 1));
            assert(s@.stats.take(i as int).last() == s@.stats[i - 1]);
        }
        if row.item_id == item_id {
            return Some(row);
        }
        i = i - 1;
    }
    None
}

/// The rank row of `item_id` in `interval_id`, if any.
pub fn get_rank_row(s: &Store, item_id: i32, interval_id: i32) -> (r: Option<RankRow>)
    ensures
        r == rank_row_of(s@.ranks, item_id as int, interval_id as int),
{
    let mut i: usize = s.ranks.len();
    proof {
        assert(s@.ranks.take(s@.ranks.len() as int) =~= s@.ranks);
    }
    while i > 0
        invariant
            i <= s@.ranks.len(),
            rank_row_of(s@.ranks, item_id as int, interval_id as int) == rank_row_of(
                s@.ranks.take(i as int),
                item_id as int,
                interval_id as int,
            ),
        decreases i,
    {
        let row = s.ranks[i - 1];
        proof {
            assert(s@.ranks.take(i as int).drop_last() =~= s@.ranks.take(i - 1));
            assert(s@.ranks.take(i as int).last() == s@.ranks[i - 1]);
        }
        if row.item_id == item_id && row.interval_id == interval_id {
            return Some(row);
        }
        i = i - 1;
    }
    None
}

/// The interval-local sample of pool member `p` for interval `iv` sampled
/// at `t`: cumulative upvotes at `t`, the interval's upvote share, the
/// ranks the item held in `iv`, and the carried-over expected upvotes.
pub open spec fn sample_of(m: StoreModel, iv: QnSampleInterval, t: i64, p: PoolItem) -> QnSample {
    let cur = upvote_count(m.votes, p.item_id as int, t as int);
    let prev = prev_upvotes(m, p.item_id as int);
    let delta = if cur >= prev {
        cur - prev
    } else {
        0
    };
    let sw = window_upvotes(m.votes, pool_ids(m, t as int), iv.start_time as int, t as int);
    let rr = rank_row_of(m.ranks, p.item_id as int, iv.interval_id as int);
    QnSample {
        item_id: p.item_id,
        interval_id: iv.interval_id,
        sample_time: t,
        submission_time: p.created_at,
        rank_top: match rr {
            Some(row) => Some(row.rank_top),
            None => None,
        },
        rank_new: match rr {
            Some(row) => Some(row.rank_new),
            None => None,
        },
        upvotes: cur as usize,
        upvote_share: if sw > 0 {
            Frac { num: delta as u64, den: sw as u64 }
        } else {
            Frac::spec_zero()
        },
        expected_upvotes_prev: prev_expected(m, p.item_id as int),
    }
}

/// Samples every pool member (pool taken at `sample_time`) for `interval`.
pub fn get_sample_in_interval(
    s: &Store,
    interval: &QnSampleInterval,
    sample_time: i64,
) -> (r: Vec<QnSample>)
    requires
        wf(s@),
    ensures
        exists|pl: Seq<PoolItem>|
            {
                &&& #[trigger] pool_of(s@, sample_time as int, pl)
                &&& r@.len() == pl.len()
                &&& forall|j: int|
                    0 <= j < pl.len() ==> r@[j] == sample_of(s@, *interval, sample_time, pl[j])
            },
{
    let pool = s.pool_at(sample_time);
    let ghost pids = pool_ids(s@, sample_time as int);
    let sw = get_sitewide_upvotes_in_interval(s, sample_time, interval.start_time);
    let mut r: Vec<QnSample> = Vec::new();
    let mut j: usize = 0;
    while j < pool.len()
        invariant
            wf(s@),
            j <= pool@.len(),
            r@.len() == j,
            sw == window_upvotes(
                s@.votes,
                pool_ids(s@, sample_time as int),
                interval.start_time as int,
                sample_time as int,
            ),
            forall|l: int|
                0 <= l < j ==> r@[l] == sample_of(s@, *interval, sample_time, pool@[l]),
        decreases pool@.len() - j,
    {
        let p = pool[j];
        let cur = s.get_current_upvote_count(p.item_id, sample_time);
        let prev_row = get_latest_stat(s, p.item_id);
        let prev: usize = match prev_row {
            Some(row) => row.upvotes,
            None => 0,
        };
        let prev_exp: Frac = match prev_row {
            Some(row) => row.expected_upvotes,
            None => Frac::zero(),
        };
        let delta: usize = if cur >= prev {
            cur - prev
        } else {
            0
        };
        let rr = get_rank_row(s, p.item_id, interval.interval_id);
        let share: Frac = if sw > 0 {
            Frac::new(delta as u64, sw as u64)
        } else {
            Frac::zero()
        };
        let sample = QnSample {
            item_id: p.item_id,
            interval_id: interval.interval_id,
            sample_time,
            submission_time: p.created_at,
            rank_top: match rr {
                Some(row) => Some(row.rank_top),
                None => None,
            },
            rank_new: match rr {
                Some(row) => Some(row.rank_new),
                None => None,
            },
            upvotes: cur,
            upvote_share: share,
            expected_upvotes_prev: prev_exp,
        };
        r.push(sample);
        j = j + 1;
    }
    proof {
        assert(pool_of(s@, sample_time as int, pool@));
    }
    r
}

/// The stats-history rows of one interval, in insertion order.
pub open spec fn stats_rows_for(stats: Seq<StatsRow>, interval_id: int) -> Seq<StatsRow>
    decreases stats.len(),
{
    if stats.len() == 0 {
        Seq::empty()
    } else {
        stats_rows_for(stats.drop_last(), interval_id) + if stats.last().interval_id
            == interval_id {
            seq![stats.last()]
        } else {
            Seq::empty()
        }
    }
}

/// Submission time of `item_id`, 0 when the item is unknown.
pub open spec fn item_created(items: Seq<Item>, item_id: int) -> i64
    decreases items.len(),
{
    if items.len() == 0 {
        0
    } else if items.last().item_id == item_id {
        items.last().created_at
    } else {
        item_created(items.drop_last(), item_id)
    }
}

/// The scorer-facing stat a persisted row denotes on the read path.
pub open spec fn read_stat_of(m: StoreModel, t: i64, row: StatsRow) -> QnStats {
    QnStats {
        item_id: row.item_id,
        submission_time: item_created(m.items, row.item_id as int),
        sample_time: t,
        upvotes: row.upvotes,
        expected_upvotes: row.expected_upvotes,
    }
}

/// What the quality-news read path serves: the stats of the latest closed
/// interval, stamped with that interval's close time.  Empty while no
/// interval has closed.
pub open spec fn qn_read_stats(m: StoreModel) -> Seq<QnStats> {
    if m.intervals.len() < 2 {
        Seq::empty()
    } else {
        let t = m.intervals[m.intervals.len() - 1].start_time;
        stats_rows_for(m.stats, m.intervals.len() - 1).map_values(
            |row: StatsRow| read_stat_of(m, t, row),
        )
    }
}

/// Submission time lookup.
fn find_item_created(s: &Store, item_id: i32) -> (r: i64)
    ensures
        r == item_created(s@.items, item_id as int),
{
    let mut i: usize = s.items.len();
    proof {
        assert(s@.items.take(s@.items.len() as int) =~= s@.items);
    }
    while i > 0
        invariant
            i <= s@.items.len(),
            item_created(s@.items, item_id as int) == item_created(
                s@.items.take(i as int),
                item_id as int,
            ),
        decreases i,
    {
        proof {
            assert(s@.items.take(i as int).drop_last() =~= s@.items.take(i - 1));
            assert(s@.items.take(i as int).last() == s@.items[i - 1]);
        }
        if s.items[i - 1].item_id == item_id {
            return s.items[i - 1].created_at;
        }
        i = i - 1;
    }
    0
}

/// Reads the stats served on the quality-news page: one `QnStats` per row
/// of the latest closed interval, in row order (see `qn_read_stats`).
pub fn get_stats(s: &Store) -> (r: Vec<QnStats>)
    requires
        wf(s@),
    ensures
        r@ == qn_read_stats(s@),
{
    let mut r: Vec<QnStats> = Vec::new();
    if s.intervals.len() < 2 {
        return r;
    }
    let t = s.intervals[s.intervals.len() - 1].start_time;
    let ghost closed = s@.intervals.len() - 1;
    let mut i: usize = 0;
    while i < s.stats.len()
        invariant
            wf(s@),
            s@.intervals.len() >= 2,
            t == s@.intervals[s@.intervals.len() - 1].start_time,
            closed == s@.intervals.len() - 1,
            i <= s@.stats.len(),
            r@ == stats_rows_for(s@.stats.take(i as int), closed).map_values(
                |row: StatsRow| read_stat_of(s@, t, row),
            ),
        decreases s@.stats.len() - i,
    {
        let row = s.stats[i];
        proof {
            assert(s@.stats.take(i + 1).drop_last() =~= s@.stats.take(i as int));
            assert(s@.stats.take(i + 1).last() == s@.stats[i as int]);
        }
        if (row.interval_id as usize) == s.intervals.len() - 1 && row.interval_id >= 1 {
            let created = find_item_created(s, row.item_id);
            r.push(
                QnStats {
                    item_id: row.item_id,
                    submission_time: created,
                    sample_time: t,
                    upvotes: row.upvotes,
                    expected_upvotes: row.expected_upvotes,
                },
            );
        }
        proof {
            assert(r@ =~= stats_rows_for(s@.stats.take(i + 1), closed).map_values(
                |row: StatsRow| read_stat_of(s@, t, row),
            ));
        }
        i = i + 1;
    }
    proof {
        assert(s@.stats.take(s@.stats.len() as int) =~= s@.stats);
    }
    r
}

/// A rank row found by `rank_row_of` carries the searched key and counts
/// toward its interval.
pub proof fn lemma_rank_row_in_count(ranks: Seq<RankRow>, item_id: int, interval_id: int)
    requires
        rank_row_of(ranks, item_id, interval_id) is Some,
    ensures
        interval_rank_count(ranks, interval_id) >= 1,
        rank_row_of(ranks, item_id, interval_id)->0.item_id == item_id,
        rank_row_of(ranks, item_id, interval_id)->0.interval_id == interval_id,
    decreases ranks.len(),
{
    if ranks.len() > 0 {
        if ranks.last().item_id == item_id && ranks.last().interval_id == interval_id {
            lemma_rank_count_nonneg(ranks.drop_last(), interval_id);
        } else {
            lemma_rank_row_in_count(ranks.drop_last(), item_id, interval_id);
        }
    }
}

/// Rank counts are never negative.
pub proof fn lemma_rank_count_nonneg(ranks: Seq<RankRow>, interval_id: int)
    ensures
        interval_rank_count(ranks, interval_id) >= 0,
    decreases ranks.len(),
{
    if ranks.len() > 0 {
        lemma_rank_count_nonneg(ranks.drop_last(), interval_id);
    }
}

/// A row `latest_stat` returns is one of the rows.
pub proof fn lemma_latest_stat_in(stats: Seq<StatsRow>, item_id: int)
    requires
        latest_stat(stats, item_id) is Some,
    ensures
        exists|l: int|
            0 <= l < stats.len() && #[trigger] stats[l] == latest_stat(stats, item_id)->0,
    decreases stats.len(),
{
    if stats.len() > 0 {
        if stats.last().item_id == item_id {
            assert(stats[stats.len() - 1] == latest_stat(stats, item_id)->0);
        } else {
            lemma_latest_stat_in(stats.drop_last(), item_id);
            let l = choose|l: int|
                0 <= l < stats.drop_last().len() && #[trigger] stats.drop_last()[l] == latest_stat(
                    stats.drop_last(),
                    item_id,
                )->0;
            assert(stats[l] == stats.drop_last()[l]);
        }
    }
}

/// Number of rank rows recorded for `interval_id`.
pub fn get_interval_rank_count(s: &Store, interval_id: i32) -> (c: usize)
    ensures
        c == interval_rank_count(s@.ranks, interval_id as int),
{
    let mut c: usize = 0;
    let mut i: usize = 0;
    while i < s.ranks.len()
        invariant
            i <= s@.ranks.len(),
            c <= i,
            c == interval_rank_count(s@.ranks.take(i as int), interval_id as int),
        decreases s@.ranks.len() - i,
    {
        proof {
            assert(s@.ranks.take(i + 1).drop_last() =~= s@.ranks.take(i as int));
            assert(s@.ranks.take(i + 1).last() == s@.ranks[i as int]);
        }
        if s.ranks[i].interval_id == interval_id {
            c = c + 1;
        }
        i = i + 1;
    }
    proof {
        assert(s@.ranks.take(s@.ranks.len() as int) =~= s@.ranks);
    }
    c
}

} // verus!
