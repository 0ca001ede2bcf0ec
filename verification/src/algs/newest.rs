use crate::model::{PoolItem, RankingPage, ScoredItem};
use crate::store::{pool_of, wf, Store};
use vstd::prelude::*;

verus! {

/// The newest-page listing: the item pool at `sample_time`, which is already
/// ordered by submission time descending (ties by ascending item id), with
/// dense 1-based ranks.
pub fn get_ranking(s: &Store, sample_time: i64) -> (r: Vec<ScoredItem>)
    requires
        wf(s@),
    ensures
        exists|pl: Seq<PoolItem>|
            {
                &&& #[trigger] pool_of(s@, sample_time as int, pl)
                &&& r@.len() == pl.len()
                &&& forall|p: int|
                    0 <= p < pl.len() ==> r@[p] == (ScoredItem {
                        item_id: pl[p].item_id,
                        rank: (p + 1) as i32,
                        page: RankingPage::Newest,
                    })
            },
{
    let pool = s.pool_at(sample_time);
    let mut r: Vec<ScoredItem> = Vec::new();
    let mut p: usize = 0;
    while p < pool.len()
        invariant
            pool@.len() <= s@.pool_size <= crate::MAX_POOL_SIZE,
            p <= pool@.len(),
            r@.len() == p,
            forall|q: int|
                0 <= q < p ==> r@[q] == (ScoredItem {
                    item_id: pool@[q].item_id,
                    rank: (q + 1) as i32,
                    page: RankingPage::Newest,
                }),
        decreases pool@.len() - p,
    {
        r.push(
            ScoredItem {
                item_id: pool[p].item_id,
                rank: (p + 1) as i32,
                page: RankingPage::Newest,
            },
        );
        p = p + 1;
    }
    r
}

} // verus!
