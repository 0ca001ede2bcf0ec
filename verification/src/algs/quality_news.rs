use crate::error::AppError;
use crate::frac::Frac;
use crate::model::{
    ItemWithRanks, PoolItem, QnSample, QnSampleInterval, QnSampleWithPrediction, QnStats,
    RankRow, RankingPage, ScoredItem, StatsRow,
};
use crate::ranking::{calc_ranks_of, cnt, is_ranking, new_order, ranked_list, top_order, RankEntry};
use crate::store::{pool_ids, pool_of, upvote_count, wf, window_upvotes, Store, StoreModel};
use crate::store::{cand_entries, interval_rank_count};
use repository::{
    get_interval_rank_count, get_latest_sample_interval, get_sample_in_interval,
    get_sitewide_upvotes_in_interval, insert_rank_observations, insert_sample,
    insert_sample_interval, latest_stat, lemma_latest_stat_in, lemma_rank_row_in_count,
    sample_of, to_stats_row,
};
use vstd::prelude::*;

pub mod repository;

verus! {

/// The estimator's share for one sample: the uniform prior `1 / n_ranked`
/// for items that held a rank in the closing interval, 0 for items that
/// entered the pool during it.
pub open spec fn pred_share(s: QnSample, n_ranked: int) -> Frac {
    if s.rank_top is Some {
        Frac { num: 1, den: n_ranked as u64 }
    } else {
        Frac::spec_zero()
    }
}

/// The expected upvotes the closing interval contributes:
/// `expected_upvote_share * sitewide`.
pub open spec fn pred_contrib(s: QnSample, sitewide: int, n_ranked: int) -> Frac {
    if s.rank_top is Some {
        Frac { num: sitewide as u64, den: n_ranked as u64 }
    } else {
        Frac::spec_zero()
    }
}

/// A sample with the estimator applied: the share, and the cumulative
/// expected upvotes grown by this interval's contribution.
pub open spec fn pred_of(s: QnSample, sitewide: int, n_ranked: int) -> QnSampleWithPrediction {
    QnSampleWithPrediction {
        sample: s,
        expected_upvotes: Frac::spec_add(s.expected_upvotes_prev, pred_contrib(s, sitewide, n_ranked)),
        expected_upvote_share: pred_share(s, n_ranked),
    }
}

/// Applies the uniform expected-share estimator to every sample.
/// `n_ranked` is the number of rank assignments of the closing interval.
/// Fails with `Transient` exactly when some cumulative sum would not fit.
pub fn calc_expected_upvote_shares(
    stats: &Vec<QnSample>,
    sitewide_upvotes: usize,
    n_ranked: usize,
) -> (r: Result<Vec<QnSampleWithPrediction>, AppError>)
    requires
        forall|j: int|
            0 <= j < stats@.len() ==> (#[trigger] stats@[j]).upvote_share.wf()
                && stats@[j].expected_upvotes_prev.wf(),
        forall|j: int| 0 <= j < stats@.len() && (#[trigger] stats@[j]).rank_top is Some ==> n_ranked
            >= 1,
    ensures
        r is Err ==> r->Err_0 == AppError::Transient,
        r is Err ==> (exists|j: int|
            0 <= j < stats@.len() && !Frac::spec_add_ok(
                (#[trigger] stats@[j]).expected_upvotes_prev,
                pred_contrib(stats@[j], sitewide_upvotes as int, n_ranked as int),
            )),
        (forall|j: int|
            0 <= j < stats@.len() ==> Frac::spec_add_ok(
                (#[trigger] stats@[j]).expected_upvotes_prev,
                pred_contrib(stats@[j], sitewide_upvotes as int, n_ranked as int),
            )) ==> r is Ok,
        r is Ok ==> r->Ok_0@.len() == stats@.len(),
        r is Ok ==> forall|j: int|
            0 <= j < stats@.len() ==> #[trigger] r->Ok_0@[j] == pred_of(
                stats@[j],
                sitewide_upvotes as int,
                n_ranked as int,
            ) && r->Ok_0@[j].expected_upvotes.wf() && r->Ok_0@[j].expected_upvote_share.wf(),
{
    let mut out: Vec<QnSampleWithPrediction> = Vec::new();
    let mut j: usize = 0;
    while j < stats.len()
        invariant
            j <= stats@.len(),
            out@.len() == j,
            forall|l: int|
                0 <= l < stats@.len() ==> (#[trigger] stats@[l]).upvote_share.wf()
                    && stats@[l].expected_upvotes_prev.wf(),
            forall|l: int|
                0 <= l < stats@.len() && (#[trigger] stats@[l]).rank_top is Some ==> n_ranked >= 1,
            forall|l: int|
                0 <= l < j ==> Frac::spec_add_ok(
                    (#[trigger] stats@[l]).expected_upvotes_prev,
                    pred_contrib(stats@[l], sitewide_upvotes as int, n_ranked as int),
                ),
            forall|l: int|
                0 <= l < j ==> #[trigger] out@[l] == pred_of(
                    stats@[l],
                    sitewide_upvotes as int,
                    n_ranked as int,
                ) && out@[l].expected_upvotes.wf() && out@[l].expected_upvote_share.wf(),
        decreases stats@.len() - j,
    {
        let s = stats[j];
        let ranked = match s.rank_top {
            Some(_) => true,
            None => false,
        };
        let share: Frac = if ranked {
            Frac::new(1, n_ranked as u64)
        } else {
            Frac::zero()
        };
        let grown: Frac = if ranked {
            Frac::new(sitewide_upvotes as u64, n_ranked as u64)
        } else {
            Frac::zero()
        };
        let expected = match s.expected_upvotes_prev.add(grown) {
            Some(v) => v,
            None => {
                return Err(AppError::Transient);
            },
        };
        out.push(
            QnSampleWithPrediction {
                sample: s,
                expected_upvotes: expected,
                expected_upvote_share: share,
            },
        );
        j = j + 1;
    }
    Ok(out)
}

/// The rank entries that order freshly computed stats: the caller supplies
/// one order-preserving score key per stat.
pub open spec fn stats_entries(stats: Seq<QnStats>, keys: Seq<u64>) -> Seq<RankEntry> {
    Seq::new(
        stats.len(),
        |j: int|
            RankEntry {
                item_id: stats[j].item_id,
                submission_time: stats[j].submission_time,
                key: keys[j],
            },
    )
}

/// Both rank columns for the next interval, aligned with `stats`:
/// `rank_top` orders by score key descending (ties by submission time
/// descending, then item id ascending); `rank_new` orders by submission
/// time descending (ties by item id ascending).  Each column is a dense
/// permutation of `1 ..= len`.
pub fn calc_ranks(stats: &Vec<QnStats>, keys: &Vec<u64>) -> (r: Vec<ItemWithRanks>)
    requires
        keys@.len() == stats@.len(),
        stats@.len() <= 0x7fff_fffe,
        forall|i: int, j: int|
            0 <= i < stats@.len() && 0 <= j < stats@.len() && i != j ==> (
            #[trigger] stats@[i]).item_id != (#[trigger] stats@[j]).item_id,
    ensures
        r@.len() == stats@.len(),
        forall|j: int|
            0 <= j < stats@.len() ==> {
                &&& (#[trigger] r@[j]).item_id == stats@[j].item_id
                &&& r@[j].rank_top == 1 + cnt(top_order(), stats_entries(stats@, keys@), j)
                &&& r@[j].rank_new == 1 + cnt(new_order(), stats_entries(stats@, keys@), j)
            },
{
    let mut entries: Vec<RankEntry> = Vec::new();
    let mut j: usize = 0;
    while j < stats.len()
        invariant
            keys@.len() == stats@.len(),
            j <= stats@.len(),
            entries@.len() == j,
            forall|l: int| 0 <= l < j ==> entries@[l] == stats_entries(stats@, keys@)[l],
        decreases stats@.len() - j,
    {
        entries.push(
            RankEntry {
                item_id: stats[j].item_id,
                submission_time: stats[j].submission_time,
                key: keys[j],
            },
        );
        j = j + 1;
    }
    proof {
        assert(entries@ =~= stats_entries(stats@, keys@));
    }
    calc_ranks_of(&entries)
}

/// The quality-news listing of `stats`: ordered by score key descending
/// (ties by submission time descending, then item id ascending), with dense
/// 1-based ranks.  `keys[j]` must order like the score of `stats[j]`.
pub fn get_ranking(stats: &Vec<QnStats>, keys: &Vec<u64>) -> (r: Vec<ScoredItem>)
    requires
        keys@.len() == stats@.len(),
        stats@.len() <= 0x7fff_fffe,
        forall|i: int, j: int|
            0 <= i < stats@.len() && 0 <= j < stats@.len() && i != j ==> (
            #[trigger] stats@[i]).item_id != (#[trigger] stats@[j]).item_id,
    ensures
        is_ranking(stats_entries(stats@, keys@), RankingPage::QualityNews, r@),
{
    let mut entries: Vec<RankEntry> = Vec::new();
    let mut j: usize = 0;
    while j < stats.len()
        invariant
            keys@.len() == stats@.len(),
            j <= stats@.len(),
            entries@.len() == j,
            forall|l: int| 0 <= l < j ==> entries@[l] == stats_entries(stats@, keys@)[l],
        decreases stats@.len() - j,
    {
        entries.push(
            RankEntry {
                item_id: stats[j].item_id,
                submission_time: stats[j].submission_time,
                key: keys[j],
            },
        );
        j = j + 1;
    }
    proof {
        assert(entries@ =~= stats_entries(stats@, keys@));
    }
    ranked_list(&entries, RankingPage::QualityNews)
}

/// The latest interval (callers establish that one exists).
pub open spec fn last_interval(m: StoreModel) -> QnSampleInterval {
    m.intervals[m.intervals.len() - 1]
}

/// Sitewide upvotes of the closing interval: positive vote events on pool
/// members in `(latest start, now]`.
pub open spec fn closing_sitewide(m: StoreModel, now: i64) -> int {
    window_upvotes(
        m.votes,
        pool_ids(m, now as int),
        last_interval(m).start_time as int,
        now as int,
    )
}

/// Number of rank assignments of the closing (latest) interval.
pub open spec fn closing_n_ranked(m: StoreModel) -> int {
    interval_rank_count(m.ranks, m.intervals.len() as int)
}

/// The predicted sample the closing interval stores for pool member `p`.
pub open spec fn closing_pred(m: StoreModel, now: i64, p: PoolItem) -> QnSampleWithPrediction {
    pred_of(
        sample_of(m, last_interval(m), now, p),
        closing_sitewide(m, now),
        closing_n_ranked(m),
    )
}

/// The stats-history row the closing interval stores for pool member `p`.
pub open spec fn closing_row(m: StoreModel, now: i64, p: PoolItem) -> StatsRow {
    to_stats_row(closing_pred(m, now, p))
}

/// The initial stats row of pool member `p` at bootstrap: current upvotes,
/// zero shares seen, the uniform prior share, zero expected upvotes.
pub open spec fn boot_row(m: StoreModel, now: i64, n_pool: int, p: PoolItem) -> StatsRow {
    StatsRow {
        item_id: p.item_id,
        interval_id: 1,
        upvotes: upvote_count(m.votes, p.item_id as int, now as int) as usize,
        upvote_share: Frac::spec_zero(),
        expected_upvote_share: Frac { num: 1, den: n_pool as u64 },
        expected_upvotes: Frac::spec_zero(),
    }
}

/// The stats handed to the scorer for the interval the tick closes (or, at
/// bootstrap, for the initial pool): cumulative upvotes at `now` and the
/// cumulative expected upvotes after the tick.
pub open spec fn fresh_stat(m: StoreModel, now: i64, p: PoolItem) -> QnStats {
    QnStats {
        item_id: p.item_id,
        submission_time: p.created_at,
        sample_time: now,
        upvotes: upvote_count(m.votes, p.item_id as int, now as int) as usize,
        expected_upvotes: if m.intervals.len() == 0 {
            Frac::spec_zero()
        } else {
            closing_pred(m, now, p).expected_upvotes
        },
    }
}

/// The rank entries of the next interval: pool member `j` with score key
/// `keys[j]`.
pub open spec fn pool_rank_entries(pl: Seq<PoolItem>, keys: Seq<u64>) -> Seq<RankEntry> {
    Seq::new(
        pl.len(),
        |j: int|
            RankEntry { item_id: pl[j].item_id, submission_time: pl[j].created_at, key: keys[j] },
    )
}

/// The rank-history rows a tick appends for interval `interval_id`.
pub open spec fn rank_rows_for(pl: Seq<PoolItem>, keys: Seq<u64>, interval_id: i32) -> Seq<
    RankRow,
> {
    Seq::new(
        pl.len(),
        |j: int|
            RankRow {
                item_id: pl[j].item_id,
                interval_id,
                rank_top: (1 + cnt(top_order(), pool_rank_entries(pl, keys), j)) as i32,
                rank_new: (1 + cnt(new_order(), pool_rank_entries(pl, keys), j)) as i32,
            },
    )
}

/// Some pool member has this id.
pub open spec fn pool_has_id(pl: Seq<PoolItem>, id: int) -> bool {
    exists|j: int| 0 <= j < pl.len() && (#[trigger] pl[j]).item_id == id
}

/// `row` is the closing row of some pool member.
pub open spec fn row_is_closing(m: StoreModel, now: i64, pl: Seq<PoolItem>, row: StatsRow) -> bool {
    exists|j: int| 0 <= j < pl.len() && row == #[trigger] closing_row(m, now, pl[j])
}

/// Every cumulative expected-upvote sum of the tick fits in the machine
/// words.
pub open spec fn tick_adds_ok(m: StoreModel, now: i64, pl: Seq<PoolItem>) -> bool {
    forall|j: int|
        0 <= j < pl.len() ==> Frac::spec_add_ok(
            (#[trigger] sample_of(m, last_interval(m), now, pl[j])).expected_upvotes_prev,
            pred_contrib(
                sample_of(m, last_interval(m), now, pl[j]),
                closing_sitewide(m, now),
                closing_n_ranked(m),
            ),
        )
}

/// What a successful bootstrap tick does: interval 1 opens at `now`, the
/// pool's baseline stats rows are appended, and the pool's rank rows for
/// interval 1 are appended.
pub open spec fn bootstrap_post(
    oldm: StoreModel,
    newm: StoreModel,
    now: i64,
    pl: Seq<PoolItem>,
    keys: Seq<u64>,
) -> bool {
    &&& newm.items == oldm.items
    &&& newm.votes == oldm.votes
    &&& newm.pool_size == oldm.pool_size
    &&& newm.intervals == oldm.intervals.push(
        QnSampleInterval { interval_id: 1, start_time: now },
    )
    &&& newm.stats == oldm.stats + Seq::new(
        pl.len(),
        |j: int| boot_row(oldm, now, pl.len() as int, pl[j]),
    )
    &&& newm.ranks == oldm.ranks + rank_rows_for(pl, keys, 1)
}

/// What a successful running tick does: the latest interval closes with one
/// stats row per pool member (replacing that key if present, appending
/// otherwise), interval `len + 1` opens at `now`, and the pool's rank rows
/// for it are appended.
pub open spec fn running_post(
    oldm: StoreModel,
    newm: StoreModel,
    now: i64,
    pl: Seq<PoolItem>,
    keys: Seq<u64>,
) -> bool {
    let lid = oldm.intervals.len() as int;
    &&& newm.items == oldm.items
    &&& newm.votes == oldm.votes
    &&& newm.pool_size == oldm.pool_size
    &&& (now as int) > last_interval(oldm).start_time as int
    &&& newm.intervals == oldm.intervals.push(
        QnSampleInterval { interval_id: (lid + 1) as i32, start_time: now },
    )
    &&& newm.ranks == oldm.ranks + rank_rows_for(pl, keys, (lid + 1) as i32)
    &&& newm.stats.len() >= oldm.stats.len()
    &&& forall|l: int, j: int|
        0 <= l < oldm.stats.len() && 0 <= j < pl.len() && (
        #[trigger] oldm.stats[l]).interval_id as int == lid && oldm.stats[l].item_id == (
        #[trigger] pl[j]).item_id ==> newm.stats[l] == closing_row(oldm, now, pl[j])
    &&& forall|l: int|
        0 <= l < oldm.stats.len() && !((#[trigger] oldm.stats[l]).interval_id as int == lid
            && pool_has_id(pl, oldm.stats[l].item_id as int)) ==> newm.stats[l] == oldm.stats[l]
    &&& forall|l: int|
        oldm.stats.len() <= l < newm.stats.len() ==> row_is_closing(
            oldm,
            now,
            pl,
            #[trigger] newm.stats[l],
        )
    &&& forall|j: int|
        0 <= j < pl.len() ==> (exists|l: int|
            0 <= l < newm.stats.len() && #[trigger] newm.stats[l] == closing_row(
                oldm,
                now,
                #[trigger] pl[j],
            ))
}

/// Some pool member among the first `k` has this id.
pub open spec fn pool_has_id_upto(pl: Seq<PoolItem>, k: int, id: int) -> bool {
    exists|j: int| 0 <= j < k && 0 <= j < pl.len() && (#[trigger] pl[j]).item_id == id
}

/// The samples of the closing interval are well formed and carry the pool
/// member's id and the closing interval's id.
proof fn lemma_sample_facts(m: StoreModel, now: i64, pl: Seq<PoolItem>)
    requires
        wf(m),
        m.intervals.len() > 0,
        m.votes.len() <= u64::MAX,
    ensures
        forall|j: int|
            0 <= j < pl.len() ==> {
                let smp = #[trigger] sample_of(m, last_interval(m), now, pl[j]);
                &&& smp.item_id == pl[j].item_id
                &&& smp.interval_id == last_interval(m).interval_id
                &&& smp.upvote_share.wf()
                &&& smp.expected_upvotes_prev.wf()
                &&& (smp.rank_top is Some ==> closing_n_ranked(m) >= 1)
            },
{
    assert forall|j: int| 0 <= j < pl.len() implies {
        let smp = #[trigger] sample_of(m, last_interval(m), now, pl[j]);
        &&& smp.item_id == pl[j].item_id
        &&& smp.interval_id == last_interval(m).interval_id
        &&& smp.upvote_share.wf()
        &&& smp.expected_upvotes_prev.wf()
        &&& (smp.rank_top is Some ==> closing_n_ranked(m) >= 1)
    } by {
        let smp = sample_of(m, last_interval(m), now, pl[j]);
        crate::store::lemma_window_upvotes_bounds(
            m.votes,
            pool_ids(m, now as int),
            last_interval(m).start_time as int,
            now as int,
        );
        crate::store::lemma_upvote_count_bounds(m.votes, pl[j].item_id as int, now as int);
        if latest_stat(m.stats, pl[j].item_id as int) is Some {
            lemma_latest_stat_in(m.stats, pl[j].item_id as int);
        }
        if smp.rank_top is Some {
            lemma_rank_row_in_count(
                m.ranks,
                pl[j].item_id as int,
                last_interval(m).interval_id as int,
            );
            assert(last_interval(m).interval_id == m.intervals.len() as i32);
        }
    }
}

/// The stats a tick at `now` would hand to the scorer, without changing the
/// store: the bootstrap baseline when sampling is uninitialized, the
/// closing interval's fresh stats otherwise.  The caller scores these and
/// hands one key per stat to `record_sample`.
pub fn compute_sample(s: &Store, now: i64) -> (r: Result<Vec<QnStats>, AppError>)
    requires
        wf(s@),
    ensures
        r is Ok ==> (exists|pl: Seq<PoolItem>|
            {
                &&& #[trigger] pool_of(s@, now as int, pl)
                &&& r->Ok_0@.len() == pl.len()
                &&& forall|j: int| 0 <= j < pl.len() ==> r->Ok_0@[j] == fresh_stat(s@, now, pl[j])
            }),
        r is Err ==> (r->Err_0 == AppError::InvariantViolation || r->Err_0 == AppError::Transient),
        r is Err ==> s@.intervals.len() > 0,
        s@.intervals.len() > 0 && now as int <= last_interval(s@).start_time as int ==> r is Err
            && r->Err_0 == AppError::InvariantViolation,
        (s@.intervals.len() == 0 || (now as int > last_interval(s@).start_time as int && (exists|
            pl: Seq<PoolItem>,
        |
            #[trigger] pool_of(s@, now as int, pl) && tick_adds_ok(s@, now, pl)))) ==> r is Ok,
{
    if s.intervals.len() == 0 {
        let pool = s.pool_at(now);
        let mut out: Vec<QnStats> = Vec::new();
        let mut j: usize = 0;
        while j < pool.len()
            invariant
                wf(s@),
                s@.intervals.len() == 0,
                j <= pool@.len(),
                out@.len() == j,
                forall|l: int| 0 <= l < j ==> out@[l] == fresh_stat(s@, now, pool@[l]),
            decreases pool@.len() - j,
        {
            let cur = s.get_current_upvote_count(pool[j].item_id, now);
            out.push(
                QnStats {
                    item_id: pool[j].item_id,
                    submission_time: pool[j].created_at,
                    sample_time: now,
                    upvotes: cur,
                    expected_upvotes: Frac::zero(),
                },
            );
            j = j + 1;
        }
        Ok(out)
    } else {
        let interval = match get_latest_sample_interval(s) {
            Ok(iv) => iv,
            Err(_) => {
                return Err(AppError::InvariantViolation);
            },
        };
        if now <= interval.start_time {
            return Err(AppError::InvariantViolation);
        }
        let sw = get_sitewide_upvotes_in_interval(s, now, interval.start_time);
        let samples = get_sample_in_interval(s, &interval, now);
        let n_ranked = get_interval_rank_count(s, interval.interval_id);
        let ghost pl = choose|pl: Seq<PoolItem>|
            {
                &&& #[trigger] pool_of(s@, now as int, pl)
                &&& samples@.len() == pl.len()
                &&& forall|j: int|
                    0 <= j < pl.len() ==> samples@[j] == sample_of(s@, interval, now, pl[j])
            };
        let votes_len = s.votes.len();
        proof {
            assert(s@.votes.len() == votes_len);
            assert(interval == last_interval(s@));
            assert(interval.interval_id as int == s@.intervals.len());
            lemma_sample_facts(s@, now, pl);
            assert(sw == closing_sitewide(s@, now));
            assert(n_ranked == closing_n_ranked(s@));
        }
        let preds = match calc_expected_upvote_shares(&samples, sw, n_ranked) {
            Ok(p) => p,
            Err(e) => {
                proof {
                    assert forall|plx: Seq<PoolItem>|
                        #[trigger] pool_of(s@, now as int, plx) implies !tick_adds_ok(
                        s@,
                        now,
                        plx,
                    ) by {
                        crate::store::lemma_pool_unique(s@, now as int, plx, pl);
                    }
                }
                return Err(e);
            },
        };
        let mut out: Vec<QnStats> = Vec::new();
        let mut j: usize = 0;
        while j < preds.len()
            invariant
                wf(s@),
                s@.intervals.len() > 0,
                pool_of(s@, now as int, pl),
                preds@.len() == pl.len(),
                forall|l: int|
                    0 <= l < pl.len() ==> #[trigger] preds@[l] == closing_pred(s@, now, pl[l]),
                j <= preds@.len(),
                out@.len() == j,
                forall|l: int| 0 <= l < j ==> out@[l] == fresh_stat(s@, now, pl[l]),
            decreases preds@.len() - j,
        {
            let pr = preds[j];
            out.push(
                QnStats {
                    item_id: pr.sample.item_id,
                    submission_time: pr.sample.submission_time,
                    sample_time: now,
                    upvotes: pr.sample.upvotes,
                    expected_upvotes: pr.expected_upvotes,
                },
            );
            proof {
                assert(pr == closing_pred(s@, now, pl[j as int]));
                assert(pr.sample == sample_of(s@, last_interval(s@), now, pl[j as int]));
                assert(out@[j as int] == fresh_stat(s@, now, pl[j as int]));
            }
            j = j + 1;
        }
        Ok(out)
    }
}

/// One sampler tick against the store, atomically: a no-op on an empty
/// pool; at bootstrap it opens interval 1 with baseline stats and initial
/// ranks; otherwise it closes the latest interval with one stats row per
/// pool member and opens the next interval with fresh ranks.  `keys[j]`
/// must order like the score of the `j`-th stat that `compute_sample`
/// returned for the same store and `now`.  On any error the store is
/// unchanged and the next tick starts from the last committed state.
pub fn record_sample(s: &mut Store, now: i64, keys: &Vec<u64>) -> (r: Result<(), AppError>)
    requires
        wf(old(s)@),
    ensures
        wf(final(s)@),
        final(s)@.items == old(s)@.items,
        final(s)@.votes == old(s)@.votes,
        final(s)@.pool_size == old(s)@.pool_size,
        r is Err ==> final(s)@ == old(s)@,
        r is Err ==> (r->Err_0 == AppError::InvariantViolation || r->Err_0 == AppError::Transient),
        cand_entries(old(s)@.items, now as int).len() == 0 ==> (r is Ok && final(s)@ == old(s)@),
        r is Ok && cand_entries(old(s)@.items, now as int).len() > 0 ==> (exists|
            pl: Seq<PoolItem>,
        |
            {
                &&& #[trigger] pool_of(old(s)@, now as int, pl)
                &&& keys@.len() == pl.len()
                &&& (if old(s)@.intervals.len() == 0 {
                    bootstrap_post(old(s)@, final(s)@, now, pl, keys@)
                } else {
                    running_post(old(s)@, final(s)@, now, pl, keys@)
                })
            }),
        (exists|pl: Seq<PoolItem>|
            {
                &&& #[trigger] pool_of(old(s)@, now as int, pl)
                &&& pl.len() > 0
                &&& keys@.len() == pl.len()
                &&& (old(s)@.intervals.len() == 0 || (now as int > last_interval(
                    old(s)@,
                ).start_time as int && old(s)@.intervals.len() < 0x7fff_ffff && tick_adds_ok(
                    old(s)@,
                    now,
                    pl,
                )))
            }) ==> r is Ok,
{
    let ghost oldm = s@;
    let pool = s.pool_at(now);
    proof {
        crate::store::lemma_pool_props(s@, now as int, pool@);
    }
    if pool.len() == 0 {
        proof {
            assert(crate::store::imin(
                oldm.pool_size,
                cand_entries(oldm.items, now as int).len() as int,
            ) == 0);
        }
        return Ok(());
    }
    if keys.len() != pool.len() {
        proof {
            assert forall|pl: Seq<PoolItem>|
                #[trigger] pool_of(oldm, now as int, pl) implies pl.len()
                == pool@.len() by {
                crate::store::lemma_pool_unique(oldm, now as int, pl, pool@);
            }
        }
        return Err(AppError::InvariantViolation);
    }
    let n = pool.len();
    let votes_len = s.votes.len();
    if s.intervals.len() == 0 {
        proof {
            assert(s@.stats.len() == 0) by {
                if s@.stats.len() > 0 {
                    assert(1 <= s@.stats[0].interval_id as int <= s@.intervals.len());
                }
            }
            assert(s@.ranks.len() == 0) by {
                if s@.ranks.len() > 0 {
                    assert(1 <= s@.ranks[0].interval_id as int <= s@.intervals.len());
                }
            }
        }
        let share = Frac::new(1, n as u64);
        let mut boot: Vec<QnSampleWithPrediction> = Vec::new();
        let mut fresh: Vec<QnStats> = Vec::new();
        let mut j: usize = 0;
        while j < n
            invariant
                wf(s@),
                s@ == oldm,
                s@.intervals.len() == 0,
                pool_of(s@, now as int, pool@),
                pool@.len() == n,
                1 <= n <= s@.pool_size,
                share == (Frac { num: 1, den: n as u64 }),
                j <= n,
                boot@.len() == j,
                fresh@.len() == j,
                forall|l: int|
                    0 <= l < j ==> {
                        &&& to_stats_row(#[trigger] boot@[l]) == boot_row(
                            oldm,
                            now,
                            n as int,
                            pool@[l],
                        )
                        &&& boot@[l].sample.interval_id == 1
                        &&& boot@[l].sample.item_id == pool@[l].item_id
                        &&& boot@[l].sample.upvote_share.wf()
                        &&& boot@[l].expected_upvote_share.wf()
                        &&& boot@[l].expected_upvotes.wf()
                    },
                forall|l: int| 0 <= l < j ==> #[trigger] fresh@[l] == fresh_stat(oldm, now, pool@[l]),
            decreases n - j,
        {
            let cur = s.get_current_upvote_count(pool[j].item_id, now);
            let sample = QnSample {
                item_id: pool[j].item_id,
                interval_id: 1,
                sample_time: now,
                submission_time: pool[j].created_at,
                rank_top: None,
                rank_new: None,
                upvotes: cur,
                upvote_share: Frac::zero(),
                expected_upvotes_prev: Frac::zero(),
            };
            boot.push(
                QnSampleWithPrediction {
                    sample,
                    expected_upvotes: Frac::zero(),
                    expected_upvote_share: share,
                },
            );
            fresh.push(
                QnStats {
                    item_id: pool[j].item_id,
                    submission_time: pool[j].created_at,
                    sample_time: now,
                    upvotes: cur,
                    expected_upvotes: Frac::zero(),
                },
            );
            j = j + 1;
        }
        proof {
            assert forall|a: int, b: int|
                0 <= a < fresh@.len() && 0 <= b < fresh@.len() && a != b implies (
            #[trigger] fresh@[a]).item_id != (#[trigger] fresh@[b]).item_id by {
                assert(fresh@[a].item_id == pool@[a].item_id);
                assert(fresh@[b].item_id == pool@[b].item_id);
            }
        }
        let ranked = calc_ranks(&fresh, keys);
        let ghost entries = stats_entries(fresh@, keys@);
        proof {
            assert(entries =~= pool_rank_entries(pool@, keys@));
            assert forall|a: int, b: int|
                0 <= a < entries.len() && 0 <= b < entries.len() && a != b implies entries[a].item_id
                != entries[b].item_id by {}
            crate::ranking::lemma_orders_total(entries);
            assert forall|l: int| 0 <= l < ranked@.len() implies (#[trigger] ranked@[l]).rank_top
                >= 1 && ranked@[l].rank_new >= 1 by {
                crate::ranking::lemma_cnt_bound(crate::ranking::top_order(), entries, l);
                crate::ranking::lemma_cnt_bound(crate::ranking::new_order(), entries, l);
            }
        }
        let iv = match insert_sample_interval(s, now) {
            Ok(iv) => iv,
            Err(_) => {
                proof {
                    assert(false);
                }
                return Err(AppError::Transient);
            },
        };
        let mut j2: usize = 0;
        while j2 < n
            invariant
                wf(s@),
                s@.items == oldm.items,
                s@.votes == oldm.votes,
                s@.pool_size == oldm.pool_size,
                s@.ranks == oldm.ranks,
                s@.intervals == oldm.intervals.push(
                    QnSampleInterval { interval_id: 1, start_time: now },
                ),
                oldm.stats.len() == 0,
                oldm.intervals.len() == 0,
                s@.intervals.len() == 1,
                boot@.len() == n,
                pool@.len() == n,
                1 <= n <= oldm.pool_size,
                forall|p: int, q: int|
                    0 <= p < n && 0 <= q < n && p != q ==> (#[trigger] pool@[p]).item_id != (
                    #[trigger] pool@[q]).item_id,
                forall|l: int|
                    0 <= l < n ==> {
                        &&& to_stats_row(#[trigger] boot@[l]) == boot_row(
                            oldm,
                            now,
                            n as int,
                            pool@[l],
                        )
                        &&& boot@[l].sample.interval_id == 1
                        &&& boot@[l].sample.item_id == pool@[l].item_id
                        &&& boot@[l].sample.upvote_share.wf()
                        &&& boot@[l].expected_upvote_share.wf()
                        &&& boot@[l].expected_upvotes.wf()
                    },
                j2 <= n,
                s@.stats == Seq::new(
                    j2 as nat,
                    |l: int| boot_row(oldm, now, n as int, pool@[l]),
                ),
            decreases n - j2,
        {
            let ghost pre = s@;
            proof {
                assert forall|l: int|
                    0 <= l < pre.stats.len() implies !repository::stats_key_match(
                    #[trigger] pre.stats[l],
                    boot@[j2 as int].sample.item_id as int,
                    boot@[j2 as int].sample.interval_id as int,
                ) by {
                    assert(pre.stats[l] == boot_row(oldm, now, n as int, pool@[l]));
                    assert(pre.stats[l].item_id == pool@[l].item_id);
                    assert(pool@[l].item_id != pool@[j2 as int].item_id);
                }
            }
            let _ = insert_sample(s, &boot[j2]);
            proof {
                assert(s@.stats.len() == pre.stats.len() + 1);
                assert(s@.stats =~= Seq::new(
                    (j2 + 1) as nat,
                    |l: int| boot_row(oldm, now, n as int, pool@[l]),
                )) by {
                    assert forall|l: int| 0 <= l < j2 + 1 implies s@.stats[l] == boot_row(
                        oldm,
                        now,
                        n as int,
                        pool@[l],
                    ) by {
                        if l < j2 as int {
                            assert(s@.stats[l] == pre.stats[l]);
                        } else {
                            assert(s@.stats[l] == to_stats_row(boot@[j2 as int]));
                        }
                    }
                }
            }
            j2 = j2 + 1;
        }
        let _ = insert_rank_observations(s, &ranked, &iv);
        proof {
            let newm = s@;
            assert(newm.stats =~= oldm.stats + Seq::new(
                pool@.len(),
                |l: int| boot_row(oldm, now, pool@.len() as int, pool@[l]),
            ));
            assert forall|l: int| 0 <= l < n implies repository::rank_rows_from(ranked@, iv)[l]
                == rank_rows_for(pool@, keys@, 1)[l] by {
                crate::ranking::lemma_cnt_bound(crate::ranking::top_order(), entries, l);
                crate::ranking::lemma_cnt_bound(crate::ranking::new_order(), entries, l);
            }
            assert(repository::rank_rows_from(ranked@, iv) =~= rank_rows_for(pool@, keys@, 1));
            assert(bootstrap_post(oldm, newm, now, pool@, keys@));
        }
        Ok(())
    } else {
        let interval = match get_latest_sample_interval(s) {
            Ok(iv) => iv,
            Err(_) => {
                proof {
                    assert(false);
                }
                return Err(AppError::Transient);
            },
        };
        if now <= interval.start_time {
            proof {
                assert forall|pl: Seq<PoolItem>|
                    #[trigger] pool_of(oldm, now as int, pl) implies pl.len() == pool@.len()
                    && !(now as int > last_interval(oldm).start_time as int) by {
                    crate::store::lemma_pool_unique(oldm, now as int, pl, pool@);
                }
            }
            return Err(AppError::InvariantViolation);
        }
        if s.intervals.len() >= 0x7fff_ffff {
            return Err(AppError::Transient);
        }
        let sw = get_sitewide_upvotes_in_interval(s, now, interval.start_time);
        let samples = get_sample_in_interval(s, &interval, now);
        let n_ranked = get_interval_rank_count(s, interval.interval_id);
        let ghost plw = choose|pl: Seq<PoolItem>|
            {
                &&& #[trigger] pool_of(s@, now as int, pl)
                &&& samples@.len() == pl.len()
                &&& forall|j: int|
                    0 <= j < pl.len() ==> samples@[j] == sample_of(s@, interval, now, pl[j])
            };
        proof {
            crate::store::lemma_pool_unique(oldm, now as int, plw, pool@);
            assert(interval == last_interval(oldm));
            assert(interval.interval_id as int == oldm.intervals.len());
            assert(oldm.votes.len() == votes_len);
            lemma_sample_facts(oldm, now, pool@);
            assert(sw == closing_sitewide(oldm, now));
            assert(n_ranked == closing_n_ranked(oldm));
        }
        let preds = match calc_expected_upvote_shares(&samples, sw, n_ranked) {
            Ok(p) => p,
            Err(e) => {
                proof {
                    assert forall|pl: Seq<PoolItem>|
                        #[trigger] pool_of(oldm, now as int, pl) implies !tick_adds_ok(
                        oldm,
                        now,
                        pl,
                    ) by {
                        crate::store::lemma_pool_unique(oldm, now as int, pl, pool@);
                    }
                }
                return Err(e);
            },
        };
        let ghost lid = oldm.intervals.len() as int;
        proof {
            assert forall|l: int| 0 <= l < n implies {
                &&& #[trigger] preds@[l] == closing_pred(oldm, now, pool@[l])
                &&& to_stats_row(preds@[l]) == closing_row(oldm, now, pool@[l])
                &&& preds@[l].sample.item_id == pool@[l].item_id
                &&& preds@[l].sample.interval_id as int == lid
                &&& preds@[l].sample.upvote_share.wf()
                &&& preds@[l].expected_upvote_share.wf()
                &&& preds@[l].expected_upvotes.wf()
            } by {
                assert(samples@[l] == sample_of(oldm, last_interval(oldm), now, pool@[l]));
            }
        }
        let mut fresh: Vec<QnStats> = Vec::new();
        let mut jf: usize = 0;
        while jf < n
            invariant
                preds@.len() == n,
                pool@.len() == n,
                forall|l: int|
                    0 <= l < n ==> #[trigger] preds@[l] == closing_pred(oldm, now, pool@[l]),
                oldm.intervals.len() > 0,
                jf <= n,
                fresh@.len() == jf,
                forall|l: int| 0 <= l < jf ==> #[trigger] fresh@[l] == fresh_stat(oldm, now, pool@[l]),
            decreases n - jf,
        {
            let pr = preds[jf];
            fresh.push(
                QnStats {
                    item_id: pr.sample.item_id,
                    submission_time: pr.sample.submission_time,
                    sample_time: now,
                    upvotes: pr.sample.upvotes,
                    expected_upvotes: pr.expected_upvotes,
                },
            );
            proof {
                assert(pr == closing_pred(oldm, now, pool@[jf as int]));
                assert(pr.sample == sample_of(oldm, last_interval(oldm), now, pool@[jf as int]));
                assert(fresh@[jf as int] == fresh_stat(oldm, now, pool@[jf as int]));
            }
            jf = jf + 1;
        }
        proof {
            assert forall|a: int, b: int|
                0 <= a < fresh@.len() && 0 <= b < fresh@.len() && a != b implies (
            #[trigger] fresh@[a]).item_id != (#[trigger] fresh@[b]).item_id by {
                assert(fresh@[a] == fresh_stat(oldm, now, pool@[a]));
                assert(fresh@[b] == fresh_stat(oldm, now, pool@[b]));
            }
        }
        let ranked = calc_ranks(&fresh, keys);
        let ghost entries = stats_entries(fresh@, keys@);
        proof {
            assert forall|l: int| 0 <= l < n implies entries[l] == pool_rank_entries(
                pool@,
                keys@,
            )[l] by {
                assert(fresh@[l] == fresh_stat(oldm, now, pool@[l]));
            }
            assert(entries =~= pool_rank_entries(pool@, keys@));
            crate::ranking::lemma_orders_total(entries);
            assert forall|l: int| 0 <= l < ranked@.len() implies (#[trigger] ranked@[l]).rank_top
                >= 1 && ranked@[l].rank_new >= 1 by {
                crate::ranking::lemma_cnt_bound(crate::ranking::top_order(), entries, l);
                crate::ranking::lemma_cnt_bound(crate::ranking::new_order(), entries, l);
            }
        }
        // phase two: persist the closing rows, open the next interval, and
        // record its ranks
        let mut k: usize = 0;
        while k < n
            invariant
                wf(s@),
                s@.items == oldm.items,
                s@.votes == oldm.votes,
                s@.pool_size == oldm.pool_size,
                s@.ranks == oldm.ranks,
                s@.intervals == oldm.intervals,
                lid == oldm.intervals.len() as int,
                1 <= lid,
                preds@.len() == n,
                pool@.len() == n,
                1 <= n,
                forall|p: int, q: int|
                    0 <= p < n && 0 <= q < n && p != q ==> (#[trigger] pool@[p]).item_id != (
                    #[trigger] pool@[q]).item_id,
                forall|l: int|
                    0 <= l < n ==> {
                        &&& to_stats_row(#[trigger] preds@[l]) == closing_row(oldm, now, pool@[l])
                        &&& preds@[l].sample.item_id == pool@[l].item_id
                        &&& preds@[l].sample.interval_id as int == lid
                        &&& preds@[l].sample.upvote_share.wf()
                        &&& preds@[l].expected_upvote_share.wf()
                        &&& preds@[l].expected_upvotes.wf()
                        &&& closing_row(oldm, now, pool@[l]).item_id == pool@[l].item_id
                        &&& closing_row(oldm, now, pool@[l]).interval_id as int == lid
                    },
                k <= n,
                s@.stats.len() >= oldm.stats.len(),
                forall|l: int, j3: int|
                    0 <= l < oldm.stats.len() && 0 <= j3 < k && (
                    #[trigger] oldm.stats[l]).interval_id as int == lid && oldm.stats[l].item_id
                        == (#[trigger] pool@[j3]).item_id ==> s@.stats[l] == closing_row(
                        oldm,
                        now,
                        pool@[j3],
                    ),
                forall|l: int|
                    0 <= l < oldm.stats.len() && !((#[trigger] oldm.stats[l]).interval_id as int
                        == lid && pool_has_id_upto(pool@, k as int, oldm.stats[l].item_id as int))
                        ==> s@.stats[l] == oldm.stats[l],
                forall|l: int|
                    oldm.stats.len() <= l < s@.stats.len() ==> (exists|j3: int|
                        0 <= j3 < k && #[trigger] s@.stats[l] == closing_row(oldm, now, pool@[j3])),
                forall|j3: int|
                    0 <= j3 < k ==> (exists|l: int|
                        0 <= l < s@.stats.len() && #[trigger] s@.stats[l] == closing_row(
                            oldm,
                            now,
                            #[trigger] pool@[j3],
                        )),
            decreases n - k,
        {
            let ghost pre = s@;
            let _ = insert_sample(s, &preds[k]);
            proof {
                let rowk = to_stats_row(preds@[k as int]);
                assert(rowk == closing_row(oldm, now, pool@[k as int]));
                assert(rowk.item_id == pool@[k as int].item_id);
                assert(rowk.interval_id as int == lid);
                // old positions
                assert forall|l: int, j3: int|
                    0 <= l < oldm.stats.len() && 0 <= j3 < k + 1 && (
                #[trigger] oldm.stats[l]).interval_id as int == lid && oldm.stats[l].item_id == (
                #[trigger] pool@[j3]).item_id implies s@.stats[l] == closing_row(
                    oldm,
                    now,
                    pool@[j3],
                ) by {
                    if j3 < k as int {
                        assert(pre.stats[l] == closing_row(oldm, now, pool@[j3]));
                        assert(!repository::stats_key_match(
                            pre.stats[l],
                            rowk.item_id as int,
                            rowk.interval_id as int,
                        ));
                        assert(s@.stats[l] == pre.stats[l]);
                    } else {
                        assert(!pool_has_id_upto(pool@, k as int, oldm.stats[l].item_id as int));
                        assert(pre.stats[l] == oldm.stats[l]);
                        assert(repository::stats_key_match(
                            pre.stats[l],
                            rowk.item_id as int,
                            rowk.interval_id as int,
                        ));
                        assert(s@.stats[l] == rowk);
                    }
                }
                // untouched rows
                assert forall|l: int|
                    0 <= l < oldm.stats.len() && !((
                #[trigger] oldm.stats[l]).interval_id as int == lid && pool_has_id_upto(
                    pool@,
                    k + 1,
                    oldm.stats[l].item_id as int,
                )) implies s@.stats[l] == oldm.stats[l] by {
                    assert(!pool_has_id_upto(pool@, k as int, oldm.stats[l].item_id as int) || !((
                    oldm.stats[l]).interval_id as int == lid)) by {
                        if pool_has_id_upto(pool@, k as int, oldm.stats[l].item_id as int) {
                            let jw = choose|j3: int|
                                0 <= j3 < k as int && 0 <= j3 < pool@.len() && (
                                #[trigger] pool@[j3]).item_id == oldm.stats[l].item_id as int;
                            assert(pool_has_id_upto(pool@, k + 1, oldm.stats[l].item_id as int));
                        }
                    }
                    assert(pre.stats[l] == oldm.stats[l]);
                    assert(!repository::stats_key_match(
                        pre.stats[l],
                        rowk.item_id as int,
                        rowk.interval_id as int,
                    )) by {
                        if pre.stats[l].item_id == rowk.item_id && pre.stats[l].interval_id
                            == rowk.interval_id {
                            assert(pool@[k as int].item_id == oldm.stats[l].item_id);
                            assert(pool_has_id_upto(pool@, k + 1, oldm.stats[l].item_id as int));
                        }
                    }
                    assert(s@.stats[l] == pre.stats[l]);
                }
                // appended region
                assert forall|l: int|
                    oldm.stats.len() <= l < s@.stats.len() implies (exists|j3: int|
                        0 <= j3 < k + 1 && #[trigger] s@.stats[l] == closing_row(
                            oldm,
                            now,
                            pool@[j3],
                        )) by {
                    if l < pre.stats.len() {
                        let jw = choose|j3: int|
                            0 <= j3 < k as int && #[trigger] pre.stats[l] == closing_row(
                                oldm,
                                now,
                                pool@[j3],
                            );
                        assert(pre.stats[l].item_id == pool@[jw].item_id);
                        assert(!repository::stats_key_match(
                            pre.stats[l],
                            rowk.item_id as int,
                            rowk.interval_id as int,
                        ));
                        assert(s@.stats[l] == pre.stats[l]);
                        assert(s@.stats[l] == closing_row(oldm, now, pool@[jw]));
                    } else {
                        assert(s@.stats[l] == rowk);
                        assert(s@.stats[l] == closing_row(oldm, now, pool@[k as int]));
                    }
                }
                // coverage
                assert forall|j3: int| 0 <= j3 < k + 1 implies (exists|l: int|
                    0 <= l < s@.stats.len() && #[trigger] s@.stats[l] == closing_row(
                        oldm,
                        now,
                        #[trigger] pool@[j3],
                    )) by {
                    if j3 < k as int {
                        let lw = choose|l: int|
                            0 <= l < pre.stats.len() && #[trigger] pre.stats[l] == closing_row(
                                oldm,
                                now,
                                pool@[j3],
                            );
                        assert(pre.stats[lw].item_id == pool@[j3].item_id);
                        assert(!repository::stats_key_match(
                            pre.stats[lw],
                            rowk.item_id as int,
                            rowk.interval_id as int,
                        ));
                        assert(s@.stats[lw] == pre.stats[lw]);
                    } else {
                        let lw = choose|l: int|
                            0 <= l < s@.stats.len() && #[trigger] s@.stats[l] == to_stats_row(
                                preds@[k as int],
                            );
                        assert(s@.stats[lw] == closing_row(oldm, now, pool@[j3]));
                    }
                }
            }
            k = k + 1;
        }
        let ghost upserted = s@.stats;
        let iv2 = match insert_sample_interval(s, now) {
            Ok(iv) => iv,
            Err(_) => {
                proof {
                    assert(false);
                }
                return Err(AppError::Transient);
            },
        };
        proof {
            assert(iv2 == (QnSampleInterval {
                interval_id: (lid + 1) as i32,
                start_time: now,
            }));
            assert forall|i: int| 0 <= i < s@.ranks.len() implies (
            #[trigger] s@.ranks[i]).interval_id != iv2.interval_id by {
                assert(s@.ranks[i] == oldm.ranks[i]);
                assert(1 <= oldm.ranks[i].interval_id as int <= lid);
            }
        }
        let _ = insert_rank_observations(s, &ranked, &iv2);
        proof {
            let newm = s@;
            assert forall|l: int| 0 <= l < n implies repository::rank_rows_from(ranked@, iv2)[l]
                == rank_rows_for(pool@, keys@, (lid + 1) as i32)[l] by {
                crate::ranking::lemma_cnt_bound(crate::ranking::top_order(), entries, l);
                crate::ranking::lemma_cnt_bound(crate::ranking::new_order(), entries, l);
            }
            assert(repository::rank_rows_from(ranked@, iv2) =~= rank_rows_for(
                pool@,
                keys@,
                (lid + 1) as i32,
            ));
            assert(newm.stats == upserted);
            assert forall|l: int|
                0 <= l < oldm.stats.len() && !((#[trigger] oldm.stats[l]).interval_id as int == lid
                    && pool_has_id(pool@, oldm.stats[l].item_id as int)) implies newm.stats[l]
                == oldm.stats[l] by {
                assert(!pool_has_id_upto(pool@, n as int, oldm.stats[l].item_id as int) || !(
                oldm.stats[l].interval_id as int == lid)) by {
                    if pool_has_id_upto(pool@, n as int, oldm.stats[l].item_id as int) {
                        let jw = choose|j3: int|
                            0 <= j3 < n as int && 0 <= j3 < pool@.len() && (
                            #[trigger] pool@[j3]).item_id == oldm.stats[l].item_id as int;
                        assert(pool_has_id(pool@, oldm.stats[l].item_id as int));
                    }
                }
            }
            assert forall|l: int|
                oldm.stats.len() <= l < newm.stats.len() implies row_is_closing(
                oldm,
                now,
                pool@,
                #[trigger] newm.stats[l],
            ) by {
                let jw = choose|j3: int|
                    0 <= j3 < n as int && #[trigger] upserted[l] == closing_row(
                        oldm,
                        now,
                        pool@[j3],
                    );
                assert(newm.stats[l] == closing_row(oldm, now, pool@[jw]));
            }
            assert(running_post(oldm, newm, now, pool@, keys@));
        }
        Ok(())
    }
}

} // verus!
