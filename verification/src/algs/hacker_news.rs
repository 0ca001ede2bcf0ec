use crate::model::{HnStats, PoolItem, RankingPage, ScoredItem};
use crate::ranking::{is_ranking, ranked_list, RankEntry};
use crate::store::{pool_of, upvote_count, wf, Store};
use vstd::prelude::*;

verus! {

/// The snapshot stat of one pool member at `sample_time`.
pub open spec fn hn_stat_of(m: crate::store::StoreModel, sample_time: i64, p: PoolItem) -> HnStats {
    HnStats {
        item_id: p.item_id,
        sample_time,
        submission_time: p.created_at,
        upvotes: upvote_count(m.votes, p.item_id as int, sample_time as int) as usize,
    }
}

/// Snapshot stats over the item pool at `sample_time`: cumulative upvote
/// counts per pool member, in pool order.
pub fn get_stats(s: &Store, sample_time: i64) -> (r: Vec<HnStats>)
    requires
        wf(s@),
    ensures
        exists|pl: Seq<PoolItem>|
            {
                &&& #[trigger] pool_of(s@, sample_time as int, pl)
                &&& r@.len() == pl.len()
                &&& forall|j: int| 0 <= j < pl.len() ==> r@[j] == hn_stat_of(s@, sample_time, pl[j])
            },
{
    let pool = s.pool_at(sample_time);
    let mut r: Vec<HnStats> = Vec::new();
    let mut j: usize = 0;
    while j < pool.len()
        invariant
            wf(s@),
            j <= pool@.len(),
            r@.len() == j,
            forall|q: int| 0 <= q < j ==> r@[q] == hn_stat_of(s@, sample_time, pool@[q]),
        decreases pool@.len() - j,
    {
        let upvotes = s.get_current_upvote_count(pool[j].item_id, sample_time);
        r.push(
            HnStats {
                item_id: pool[j].item_id,
                sample_time,
                submission_time: pool[j].created_at,
                upvotes,
            },
        );
        j = j + 1;
    }
    r
}

/// The rank entries that the popularity listing orders: one per stat, with
/// the caller's order-preserving score key.
pub open spec fn hn_entries(stats: Seq<HnStats>, keys: Seq<u64>) -> Seq<RankEntry> {
    Seq::new(
        stats.len(),
        |j: int|
            RankEntry {
                item_id: stats[j].item_id,
                submission_time: stats[j].submission_time,
                key: keys[j],
            },
    )
}

/// The Hacker-News-style listing: stats ordered by score key descending
/// (ties by submission time descending, then item id ascending), with dense
/// 1-based ranks.  `keys[j]` must order like the score of `stats[j]`.
pub fn get_ranking(stats: &Vec<HnStats>, keys: &Vec<u64>) -> (r: Vec<ScoredItem>)
    requires
        keys@.len() == stats@.len(),
        stats@.len() <= 0x7fff_fffe,
        forall|i: int, j: int|
            0 <= i < stats@.len() && 0 <= j < stats@.len() && i != j ==> (
            #[trigger] stats@[i]).item_id != (#[trigger] stats@[j]).item_id,
    ensures
        is_ranking(hn_entries(stats@, keys@), RankingPage::HackerNews, r@),
{
    let mut entries: Vec<RankEntry> = Vec::new();
    let mut j: usize = 0;
    while j < stats.len()
        invariant
            keys@.len() == stats@.len(),
            j <= stats@.len(),
            entries@.len() == j,
            forall|l: int| 0 <= l < j ==> entries@[l] == hn_entries(stats@, keys@)[l],
        decreases stats@.len() - j,
    {
        entries.push(
            RankEntry {
                item_id: stats[j].item_id,
                submission_time: stats[j].submission_time,
                key: keys[j],
            },
        );
        j = j + 1;
    }
    proof {
        assert(entries@ =~= hn_entries(stats@, keys@));
    }
    ranked_list(&entries, RankingPage::HackerNews)
}

} // verus!
