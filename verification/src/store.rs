use crate::error::AppError;
use crate::model::{Item, PoolItem, QnSampleInterval, RankRow, StatsRow, VoteEvent};
use crate::ranking::{cnt, distinct_ids, sort_by_top, top_order, RankEntry};
use crate::MAX_POOL_SIZE;
use vstd::prelude::*;

verus! {

pub open spec fn imin(a: int, b: int) -> int {
    if a <= b {
        a
    } else {
        b
    }
}

/// What pool selection reads from an item.
pub open spec fn item_entry(it: Item) -> RankEntry {
    RankEntry { item_id: it.item_id, submission_time: it.created_at, key: 0 }
}

pub open spec fn to_pool(e: RankEntry) -> PoolItem {
    PoolItem { item_id: e.item_id, created_at: e.submission_time }
}

/// An item is a pool candidate at time `t` when it is top-level and was
/// submitted no later than `t`.
pub open spec fn is_candidate(it: Item, t: int) -> bool {
    it.parent_id is None && it.created_at <= t
}

/// The pool candidates drawn from `items`, in insertion order.
pub open spec fn cand_entries(items: Seq<Item>, t: int) -> Seq<RankEntry>
    decreases items.len(),
{
    if items.len() == 0 {
        Seq::empty()
    } else {
        cand_entries(items.drop_last(), t) + if is_candidate(items.last(), t) {
            seq![item_entry(items.last())]
        } else {
            Seq::empty()
        }
    }
}

/// Number of positive vote events on `item_id` with `created_at <= t`.
pub open spec fn upvote_count(votes: Seq<VoteEvent>, item_id: int, t: int) -> int
    decreases votes.len(),
{
    if votes.len() == 0 {
        0
    } else {
        upvote_count(votes.drop_last(), item_id, t) + if votes.last().vote == 1
            && votes.last().item_id == item_id && votes.last().created_at <= t {
            1int
        } else {
            0int
        }
    }
}

/// Number of positive vote events on pool members in the half-open time
/// window `(t0, t1]`.
pub open spec fn window_upvotes(votes: Seq<VoteEvent>, pool: Set<int>, t0: int, t1: int) -> int
    decreases votes.len(),
{
    if votes.len() == 0 {
        0
    } else {
        window_upvotes(votes.drop_last(), pool, t0, t1) + if votes.last().vote == 1
            && pool.contains(votes.last().item_id as int) && t0 < votes.last().created_at
            && votes.last().created_at <= t1 {
            1int
        } else {
            0int
        }
    }
}

/// Positive vote events on `item_id` in the half-open window `(t0, t1]`.
pub open spec fn item_window_upvotes(votes: Seq<VoteEvent>, item_id: int, t0: int, t1: int) -> int
    decreases votes.len(),
{
    if votes.len() == 0 {
        0
    } else {
        item_window_upvotes(votes.drop_last(), item_id, t0, t1) + if votes.last().vote == 1
            && votes.last().item_id == item_id && t0 < votes.last().created_at
            && votes.last().created_at <= t1 {
            1int
        } else {
            0int
        }
    }
}

/// The mathematical state of the store: one sequence per table.
pub ghost struct StoreModel {
    pub items: Seq<Item>,
    pub votes: Seq<VoteEvent>,
    pub intervals: Seq<QnSampleInterval>,
    pub ranks: Seq<RankRow>,
    pub stats: Seq<StatsRow>,
    pub pool_size: int,
}

pub open spec fn items_distinct(items: Seq<Item>) -> bool {
    forall|i: int, j: int|
        0 <= i < items.len() && 0 <= j < items.len() && i != j ==> (#[trigger] items[i]).item_id
            != (#[trigger] items[j]).item_id
}

pub open spec fn votes_distinct(votes: Seq<VoteEvent>) -> bool {
    forall|i: int, j: int|
        0 <= i < votes.len() && 0 <= j < votes.len() && i != j ==> (
        #[trigger] votes[i]).vote_event_id != (#[trigger] votes[j]).vote_event_id
}

/// Interval ids are dense starting at 1, and start times strictly increase
/// with the id.
pub open spec fn intervals_wf(ivs: Seq<QnSampleInterval>) -> bool {
    &&& forall|j: int| 0 <= j < ivs.len() ==> (#[trigger] ivs[j]).interval_id == j + 1
    &&& forall|j: int, l: int|
        0 <= j < l < ivs.len() ==> (#[trigger] ivs[j]).start_time < (#[trigger] ivs[l]).start_time
}

/// Number of rank rows recorded for `interval_id`.
pub open spec fn interval_rank_count(ranks: Seq<RankRow>, interval_id: int) -> int
    decreases ranks.len(),
{
    if ranks.len() == 0 {
        0
    } else {
        interval_rank_count(ranks.drop_last(), interval_id) + if ranks.last().interval_id
            == interval_id {
            1int
        } else {
            0int
        }
    }
}

pub open spec fn ranks_wf(m: StoreModel) -> bool {
    &&& forall|i: int|
        0 <= i < m.ranks.len() ==> {
            &&& 1 <= (#[trigger] m.ranks[i]).interval_id <= m.intervals.len()
            &&& m.ranks[i].rank_top >= 1
            &&& m.ranks[i].rank_new >= 1
        }
    &&& forall|i: int, j: int|
        0 <= i < m.ranks.len() && 0 <= j < m.ranks.len() && i != j ==> !((
        #[trigger] m.ranks[i]).item_id == (#[trigger] m.ranks[j]).item_id && m.ranks[i].interval_id
            == m.ranks[j].interval_id)
    &&& forall|iv: int|
        1 <= iv <= m.intervals.len() ==> #[trigger] interval_rank_count(m.ranks, iv)
            <= m.pool_size
}

pub open spec fn stats_wf(m: StoreModel) -> bool {
    &&& forall|i: int|
        0 <= i < m.stats.len() ==> {
            &&& 1 <= (#[trigger] m.stats[i]).interval_id <= m.intervals.len()
            &&& m.stats[i].upvote_share.wf()
            &&& m.stats[i].expected_upvote_share.wf()
            &&& m.stats[i].expected_upvotes.wf()
        }
    &&& forall|i: int, j: int|
        0 <= i < m.stats.len() && 0 <= j < m.stats.len() && i != j ==> !((
        #[trigger] m.stats[i]).item_id == (#[trigger] m.stats[j]).item_id && m.stats[i].interval_id
            == m.stats[j].interval_id)
}

/// Well-formedness of the whole store: key uniqueness, dense monotone
/// intervals, bounded per-interval rank counts, well-formed fractions.
pub open spec fn wf(m: StoreModel) -> bool {
    &&& 1 <= m.pool_size <= MAX_POOL_SIZE
    &&& items_distinct(m.items)
    &&& votes_distinct(m.votes)
    &&& intervals_wf(m.intervals)
    &&& ranks_wf(m)
    &&& stats_wf(m)
}

/// `r` is the item pool at time `t`: the up-to-`pool_size` most recently
/// submitted top-level items, ordered by submission time descending with
/// ties broken by ascending item id.
pub open spec fn pool_of(m: StoreModel, t: int, r: Seq<PoolItem>) -> bool {
    let c = cand_entries(m.items, t);
    &&& r.len() == imin(m.pool_size, c.len() as int)
    &&& forall|j: int|
        0 <= j < c.len() && #[trigger] cnt(top_order(), c, j) < r.len() ==> r[cnt(
            top_order(),
            c,
            j,
        )] == to_pool(c[j])
}

/// The ids of the pool members at time `t`.
pub open spec fn pool_ids(m: StoreModel, t: int) -> Set<int> {
    let c = cand_entries(m.items, t);
    Set::new(
        |id: int|
            exists|j: int|
                0 <= j < c.len() && (#[trigger] c[j]).item_id == id && cnt(top_order(), c, j)
                    < imin(m.pool_size, c.len() as int),
    )
}

/// The in-memory transactional store: items, the vote event log, sampling
/// intervals, rank history and stats history.
pub struct Store {
    pub items: Vec<Item>,
    pub votes: Vec<VoteEvent>,
    pub intervals: Vec<QnSampleInterval>,
    pub ranks: Vec<RankRow>,
    pub stats: Vec<StatsRow>,
    pub pool_size: usize,
}

impl View for Store {
    type V = StoreModel;

    open spec fn view(&self) -> StoreModel {
        StoreModel {
            items: self.items@,
            votes: self.votes@,
            intervals: self.intervals@,
            ranks: self.ranks@,
            stats: self.stats@,
            pool_size: self.pool_size as int,
        }
    }
}

impl Store {
    /// An empty store whose pool holds at most `pool_size` items.
    pub fn new(pool_size: usize) -> (s: Store)
        requires
            1 <= pool_size <= MAX_POOL_SIZE,
        ensures
            wf(s@),
            s@.items.len() == 0,
            s@.votes.len() == 0,
            s@.intervals.len() == 0,
            s@.ranks.len() == 0,
            s@.stats.len() == 0,
            s@.pool_size == pool_size,
    {
        Store {
            items: Vec::new(),
            votes: Vec::new(),
            intervals: Vec::new(),
            ranks: Vec::new(),
            stats: Vec::new(),
            pool_size,
        }
    }

    /// Whether an item with this id exists.
    pub fn contains_item(&self, item_id: i32) -> (r: bool)
        ensures
            r <==> (exists|i: int|
                0 <= i < self@.items.len() && (#[trigger] self@.items[i]).item_id == item_id),
    {
        let mut i: usize = 0;
        while i < self.items.len()
            invariant
                i <= self@.items.len(),
                forall|l: int| 0 <= l < i ==> (#[trigger] self@.items[l]).item_id != item_id,
            decreases self@.items.len() - i,
        {
            if self.items[i].item_id == item_id {
                return true;
            }
            i = i + 1;
        }
        false
    }

    /// Whether a vote event with this id exists.
    pub fn contains_vote_event(&self, vote_event_id: i32) -> (r: bool)
        ensures
            r <==> (exists|i: int|
                0 <= i < self@.votes.len() && (#[trigger] self@.votes[i]).vote_event_id
                    == vote_event_id),
    {
        let mut i: usize = 0;
        while i < self.votes.len()
            invariant
                i <= self@.votes.len(),
                forall|l: int|
                    0 <= l < i ==> (#[trigger] self@.votes[l]).vote_event_id != vote_event_id,
            decreases self@.votes.len() - i,
        {
            if self.votes[i].vote_event_id == vote_event_id {
                return true;
            }
            i = i + 1;
        }
        false
    }

    /// Appends an item.  Fails with `DuplicateKey` exactly when an item
    /// with the same id already exists; the store is unchanged then.
    pub fn register_item(&mut self, item: Item) -> (r: Result<(), AppError>)
        requires
            wf(old(self)@),
        ensures
            wf(final(self)@),
            r is Err <==> (exists|i: int|
                0 <= i < old(self)@.items.len() && (#[trigger] old(self)@.items[i]).item_id
                    == item.item_id),
            r is Err ==> r->Err_0 == AppError::DuplicateKey && final(self)@ == old(self)@,
            r is Ok ==> final(self)@ == (StoreModel {
                items: old(self)@.items.push(item),
                ..old(self)@
            }),
    {
        if self.contains_item(item.item_id) {
            return Err(AppError::DuplicateKey);
        }
        self.items.push(item);
        Ok(())
    }

    /// Appends a vote event.  Fails with `DuplicateKey` exactly when an
    /// event with the same id already exists; the store is unchanged then.
    pub fn register_vote_event(&mut self, ev: VoteEvent) -> (r: Result<(), AppError>)
        requires
            wf(old(self)@),
        ensures
            wf(final(self)@),
            r is Err <==> (exists|i: int|
                0 <= i < old(self)@.votes.len() && (#[trigger] old(self)@.votes[i]).vote_event_id
                    == ev.vote_event_id),
            r is Err ==> r->Err_0 == AppError::DuplicateKey && final(self)@ == old(self)@,
            r is Ok ==> final(self)@ == (StoreModel {
                votes: old(self)@.votes.push(ev),
                ..old(self)@
            }),
    {
        if self.contains_vote_event(ev.vote_event_id) {
            return Err(AppError::DuplicateKey);
        }
        self.votes.push(ev);
        Ok(())
    }

    /// Cumulative count of positive vote events on `item_id` up to `t`.
    pub fn get_current_upvote_count(&self, item_id: i32, t: i64) -> (c: usize)
        ensures
            c == upvote_count(self@.votes, item_id as int, t as int),
    {
        let mut c: usize = 0;
        let mut i: usize = 0;
        while i < self.votes.len()
            invariant
                i <= self@.votes.len(),
                c <= i,
                c == upvote_count(self@.votes.take(i as int), item_id as int, t as int),
            decreases self@.votes.len() - i,
        {
            let v = &self.votes[i];
            proof {
                assert(self@.votes.take(i + 1).drop_last() =~= self@.votes.take(i as int));
            }
            if v.vote == 1 && v.item_id == item_id && v.created_at <= t {
                c = c + 1;
            }
            i = i + 1;
        }
        proof {
            assert(self@.votes.take(self@.votes.len() as int) =~= self@.votes);
        }
        c
    }

    /// The item pool at time `t` (see `pool_of`).
    pub fn pool_at(&self, t: i64) -> (r: Vec<PoolItem>)
        requires
            wf(self@),
        ensures
            pool_of(self@, t as int, r@),
            r@.len() <= self@.pool_size,
    {
        let ghost cspec = cand_entries(self@.items, t as int);
        let mut c: Vec<RankEntry> = Vec::new();
        let mut i: usize = 0;
        while i < self.items.len()
            invariant
                wf(self@),
                i <= self@.items.len(),
                c@ == cand_entries(self@.items.take(i as int), t as int),
            decreases self@.items.len() - i,
        {
            let it = &self.items[i];
            proof {
                assert(self@.items.take(i + 1).drop_last() =~= self@.items.take(i as int));
            }
            let top_level = match it.parent_id {
                Some(_) => false,
                None => true,
            };
            if top_level && it.created_at <= t {
                c.push(RankEntry { item_id: it.item_id, submission_time: it.created_at, key: 0 });
                proof {
                    assert(c@ =~= cand_entries(self@.items.take(i as int), t as int) + seq![
                        item_entry(self@.items[i as int]),
                    ]);
                }
            } else {
                proof {
                    assert(c@ =~= cand_entries(self@.items.take(i as int), t as int)
                        + Seq::<RankEntry>::empty());
                }
            }
            i = i + 1;
        }
        proof {
            assert(self@.items.take(self@.items.len() as int) =~= self@.items);
            assert(c@ == cspec);
            lemma_cand_entries_distinct(self@.items, t as int);
        }
        let sorted = sort_by_top(&c);
        let n = if self.pool_size <= sorted.len() {
            self.pool_size
        } else {
            sorted.len()
        };
        let mut r: Vec<PoolItem> = Vec::new();
        let mut p: usize = 0;
        while p < n
            invariant
                n <= sorted@.len(),
                p <= n,
                r@.len() == p,
                forall|q: int| 0 <= q < p ==> r@[q] == to_pool(sorted@[q]),
            decreases n - p,
        {
            let e = sorted[p];
            r.push(PoolItem { item_id: e.item_id, created_at: e.submission_time });
            p = p + 1;
        }
        proof {
            assert forall|j: int|
                0 <= j < cspec.len() && #[trigger] cnt(top_order(), cspec, j)
                    < r@.len() implies r@[cnt(top_order(), cspec, j)] == to_pool(cspec[j]) by {
                assert(sorted@[cnt(top_order(), cspec, j)] == cspec[j]);
            }
        }
        r
    }
}

/// `e` is the projection of some candidate item.
pub open spec fn entry_sourced(items: Seq<Item>, t: int, e: RankEntry) -> bool {
    exists|i: int|
        0 <= i < items.len() && is_candidate(#[trigger] items[i], t) && item_entry(items[i]) == e
}

/// Every candidate entry comes from some item, with its fields.
pub proof fn lemma_cand_entries_from_items(items: Seq<Item>, t: int)
    ensures
        forall|j: int|
            0 <= j < cand_entries(items, t).len() ==> #[trigger] entry_sourced(
                items,
                t,
                cand_entries(items, t)[j],
            ),
    decreases items.len(),
{
    if items.len() > 0 {
        lemma_cand_entries_from_items(items.drop_last(), t);
        let c = cand_entries(items, t);
        let cp = cand_entries(items.drop_last(), t);
        assert forall|j: int| 0 <= j < c.len() implies #[trigger] entry_sourced(
            items,
            t,
            c[j],
        ) by {
            if j < cp.len() {
                assert(entry_sourced(items.drop_last(), t, cp[j]));
                let i = choose|i: int|
                    0 <= i < items.drop_last().len() && is_candidate(
                        #[trigger] items.drop_last()[i],
                        t,
                    ) && item_entry(items.drop_last()[i]) == cp[j];
                assert(items[i] == items.drop_last()[i]);
                assert(c[j] == cp[j]);
                assert(is_candidate(items[i], t) && item_entry(items[i]) == c[j]);
            } else {
                let last = items.len() - 1;
                assert(is_candidate(items[last], t));
                assert(c[j] == item_entry(items[last]));
            }
        }
    }
}

/// Candidate entries of items with pairwise distinct ids have pairwise
/// distinct ids themselves.
pub proof fn lemma_cand_entries_distinct(items: Seq<Item>, t: int)
    requires
        items_distinct(items),
    ensures
        distinct_ids(cand_entries(items, t)),
    decreases items.len(),
{
    if items.len() > 0 {
        assert(items_distinct(items.drop_last()));
        lemma_cand_entries_distinct(items.drop_last(), t);
        lemma_cand_entries_from_items(items.drop_last(), t);
        let c = cand_entries(items, t);
        let cp = cand_entries(items.drop_last(), t);
        let last = items.len() - 1;
        assert forall|i: int, j: int|
            0 <= i < c.len() && 0 <= j < c.len() && i != j implies c[i].item_id != c[j].item_id by {
            if i < cp.len() && j < cp.len() {
                assert(c[i] == cp[i] && c[j] == cp[j]);
            } else if i < cp.len() && j >= cp.len() {
                assert(c[j] == item_entry(items[last]));
                assert(c[i] == cp[i]);
                assert(entry_sourced(items.drop_last(), t, cp[i]));
                let wi = choose|w: int|
                    0 <= w < items.drop_last().len() && is_candidate(
                        #[trigger] items.drop_last()[w],
                        t,
                    ) && item_entry(items.drop_last()[w]) == cp[i];
                assert(items[wi] == items.drop_last()[wi]);
                assert(items[wi].item_id != items[last].item_id);
            } else if i >= cp.len() && j < cp.len() {
                assert(c[i] == item_entry(items[last]));
                assert(c[j] == cp[j]);
                assert(entry_sourced(items.drop_last(), t, cp[j]));
                let wj = choose|w: int|
                    0 <= w < items.drop_last().len() && is_candidate(
                        #[trigger] items.drop_last()[w],
                        t,
                    ) && item_entry(items.drop_last()[w]) == cp[j];
                assert(items[wj] == items.drop_last()[wj]);
                assert(items[wj].item_id != items[last].item_id);
            }
        }
    }
}

/// Slot `p` of pool `r` is the candidate whose 0-based pool rank is `p`.
pub open spec fn pool_slot_sourced(m: StoreModel, t: int, r: Seq<PoolItem>, p: int) -> bool {
    exists|j: int|
        0 <= j < cand_entries(m.items, t).len() && #[trigger] cnt(
            top_order(),
            cand_entries(m.items, t),
            j,
        ) == p && r[p] == to_pool(cand_entries(m.items, t)[j])
}

/// Properties of any pool result: bounded size, distinct ids, every slot
/// sourced from a candidate, ordering, and the id-set characterization.
pub proof fn lemma_pool_props(m: StoreModel, t: int, r: Seq<PoolItem>)
    requires
        wf(m),
        pool_of(m, t, r),
    ensures
        r.len() <= m.pool_size,
        forall|p: int| 0 <= p < r.len() ==> #[trigger] pool_slot_sourced(m, t, r, p),
        forall|p: int, q: int|
            0 <= p < r.len() && 0 <= q < r.len() && p != q ==> (#[trigger] r[p]).item_id != (
            #[trigger] r[q]).item_id,
        forall|id: i32|
            #[trigger] pool_ids(m, t).contains(id as int) <==> (exists|p: int|
                0 <= p < r.len() && (#[trigger] r[p]).item_id == id),
{
    let c = cand_entries(m.items, t);
    lemma_cand_entries_distinct(m.items, t);
    crate::ranking::lemma_orders_total(c);
    assert forall|p: int| 0 <= p < r.len() implies #[trigger] pool_slot_sourced(m, t, r, p) by {
        crate::ranking::lemma_cnt_onto(top_order(), c, p);
        let j = choose|j: int| 0 <= j < c.len() && #[trigger] cnt(top_order(), c, j) == p;
        assert(r[p] == to_pool(c[j]));
        assert(0 <= j < cand_entries(m.items, t).len() && cnt(top_order(), cand_entries(m.items, t), j) == p
            && r[p] == to_pool(cand_entries(m.items, t)[j]));
    }
    assert forall|p: int, q: int|
        0 <= p < r.len() && 0 <= q < r.len() && p != q implies (#[trigger] r[p]).item_id != (
    #[trigger] r[q]).item_id by {
        crate::ranking::lemma_cnt_onto(top_order(), c, p);
        crate::ranking::lemma_cnt_onto(top_order(), c, q);
        let jp = choose|j: int| 0 <= j < c.len() && #[trigger] cnt(top_order(), c, j) == p;
        let jq = choose|j: int| 0 <= j < c.len() && #[trigger] cnt(top_order(), c, j) == q;
        assert(r[p] == to_pool(c[jp]));
        assert(r[q] == to_pool(c[jq]));
        assert(jp != jq);
        assert(c[jp].item_id != c[jq].item_id);
    }
    assert forall|id: i32| #[trigger] pool_ids(m, t).contains(id as int) <==> (exists|p: int|
        0 <= p < r.len() && (#[trigger] r[p]).item_id == id) by {
        if pool_ids(m, t).contains(id as int) {
            let j = choose|j: int|
                0 <= j < c.len() && (#[trigger] c[j]).item_id == id as int && cnt(top_order(), c, j)
                    < imin(m.pool_size, c.len() as int);
            crate::ranking::lemma_cnt_bound(top_order(), c, j);
            assert(r[cnt(top_order(), c, j)] == to_pool(c[j]));
            assert(r[cnt(top_order(), c, j)].item_id == id);
        }
        if exists|p: int| 0 <= p < r.len() && (#[trigger] r[p]).item_id == id {
            let p = choose|p: int| 0 <= p < r.len() && (#[trigger] r[p]).item_id == id;
            crate::ranking::lemma_cnt_onto(top_order(), c, p);
            let j = choose|j: int| 0 <= j < c.len() && #[trigger] cnt(top_order(), c, j) == p;
            assert(r[p] == to_pool(c[j]));
            assert(c[j].item_id == id as int);
            assert(pool_ids(m, t).contains(id as int));
        }
    }
}

/// The pool at a time is unique: two sequences both satisfying `pool_of`
/// are equal.
pub proof fn lemma_pool_unique(m: StoreModel, t: int, r1: Seq<PoolItem>, r2: Seq<PoolItem>)
    requires
        wf(m),
        pool_of(m, t, r1),
        pool_of(m, t, r2),
    ensures
        r1 == r2,
{
    let c = cand_entries(m.items, t);
    lemma_cand_entries_distinct(m.items, t);
    crate::ranking::lemma_orders_total(c);
    assert forall|p: int| 0 <= p < r1.len() implies r1[p] == r2[p] by {
        crate::ranking::lemma_cnt_onto(top_order(), c, p);
        let j = choose|j: int| 0 <= j < c.len() && #[trigger] cnt(top_order(), c, j) == p;
        assert(r1[p] == to_pool(c[j]));
        assert(r2[p] == to_pool(c[j]));
    }
    assert(r1 =~= r2);
}

/// Counting lemmas: every vote count is between 0 and the log length.
pub proof fn lemma_upvote_count_bounds(votes: Seq<VoteEvent>, item_id: int, t: int)
    ensures
        0 <= upvote_count(votes, item_id, t) <= votes.len(),
    decreases votes.len(),
{
    if votes.len() > 0 {
        lemma_upvote_count_bounds(votes.drop_last(), item_id, t);
    }
}

/// Window counts are between 0 and the log length.
pub proof fn lemma_window_upvotes_bounds(votes: Seq<VoteEvent>, pool: Set<int>, t0: int, t1: int)
    ensures
        0 <= window_upvotes(votes, pool, t0, t1) <= votes.len(),
    decreases votes.len(),
{
    if votes.len() > 0 {
        lemma_window_upvotes_bounds(votes.drop_last(), pool, t0, t1);
    }
}

} // verus!
