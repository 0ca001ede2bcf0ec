use crate::frac::Frac;
use vstd::prelude::*;

verus! {

/// Which ranking page a scored item belongs to.
#[derive(Clone, Copy, Debug, PartialEq, Eq, Structural)]
pub enum RankingPage {
    Newest,
    QualityNews,
    HackerNews,
}

impl RankingPage {
    /// The lower-case label used on the JSON surface.
    pub fn label(&self) -> (r: &'static str)
        ensures
            self is Newest ==> r@ == "newest"@,
            self is QualityNews ==> r@ == "quality_news"@,
            self is HackerNews ==> r@ == "hacker_news"@,
    {
        match self {
            RankingPage::Newest => "newest",
            RankingPage::QualityNews => "quality_news",
            RankingPage::HackerNews => "hacker_news",
        }
    }
}

/// A user submission.  Top-level items (no parent) are rankable.
#[derive(Clone, Debug)]
pub struct Item {
    pub item_id: i32,
    pub parent_id: Option<i32>,
    pub author_id: String,
    pub created_at: i64,
}

/// A single voting action, append-only.  `vote` is -1, 0 or +1.
#[derive(Clone, Debug)]
pub struct VoteEvent {
    pub vote_event_id: i32,
    pub item_id: i32,
    pub user_id: String,
    pub vote: i32,
    pub rank: Option<i32>,
    pub page: Option<RankingPage>,
    pub created_at: i64,
}

/// An entry of a ranking page: dense 1-based rank on that page.
#[derive(Clone, Copy, Debug, PartialEq, Eq, Structural)]
pub struct ScoredItem {
    pub item_id: i32,
    pub rank: i32,
    pub page: RankingPage,
}

/// A value observed at a sampling instant.
pub struct Observation<T> {
    pub sample_time: i64,
    pub data: T,
}

/// Snapshot row used by the Hacker-News-style ranking.
#[derive(Clone, Copy, Debug, PartialEq, Eq, Structural)]
pub struct HnStats {
    pub item_id: i32,
    pub sample_time: i64,
    pub submission_time: i64,
    pub upvotes: usize,
}

/// One half-open sampling window `(start_time, next start]`; ids are dense
/// and start at 1.
#[derive(Clone, Copy, Debug, PartialEq, Eq, Structural)]
pub struct QnSampleInterval {
    pub interval_id: i32,
    pub start_time: i64,
}

/// Quality-news statistics for one item, as needed by the scorer:
/// cumulative upvotes and cumulative expected upvotes at `sample_time`.
#[derive(Clone, Copy, Debug, PartialEq, Eq, Structural)]
pub struct QnStats {
    pub item_id: i32,
    pub submission_time: i64,
    pub sample_time: i64,
    pub upvotes: usize,
    pub expected_upvotes: Frac,
}

/// Interval-local sample for one item, before the estimator ran.
/// `upvotes` is the cumulative count at `sample_time`; `upvote_share` is the
/// item's share of the interval's sitewide upvotes;
/// `expected_upvotes_prev` carries the cumulative expected upvotes of the
/// item's most recent earlier sample (zero if none).
#[derive(Clone, Copy, Debug, PartialEq, Eq, Structural)]
pub struct QnSample {
    pub item_id: i32,
    pub interval_id: i32,
    pub sample_time: i64,
    pub submission_time: i64,
    pub rank_top: Option<i32>,
    pub rank_new: Option<i32>,
    pub upvotes: usize,
    pub upvote_share: Frac,
    pub expected_upvotes_prev: Frac,
}

/// A sample together with the estimator's output for it.
#[derive(Clone, Copy, Debug, PartialEq, Eq, Structural)]
pub struct QnSampleWithPrediction {
    pub sample: QnSample,
    pub expected_upvotes: Frac,
    pub expected_upvote_share: Frac,
}

/// Both rank assignments of one item for one interval.
#[derive(Clone, Copy, Debug, PartialEq, Eq, Structural)]
pub struct ItemWithRanks {
    pub item_id: i32,
    pub rank_top: i32,
    pub rank_new: i32,
}

/// A persisted row of the rank history: `ItemWithRanks` keyed by interval.
#[derive(Clone, Copy, Debug, PartialEq, Eq, Structural)]
pub struct RankRow {
    pub item_id: i32,
    pub interval_id: i32,
    pub rank_top: i32,
    pub rank_new: i32,
}

/// A persisted row of the stats history, written when an interval closes.
/// `upvotes` and `expected_upvotes` are cumulative; the two shares are
/// interval-local.
#[derive(Clone, Copy, Debug, PartialEq, Eq, Structural)]
pub struct StatsRow {
    pub item_id: i32,
    pub interval_id: i32,
    pub upvotes: usize,
    pub upvote_share: Frac,
    pub expected_upvote_share: Frac,
    pub expected_upvotes: Frac,
}

/// A member of the item pool: what pool selection reads from an `Item`.
#[derive(Clone, Copy, Debug, PartialEq, Eq, Structural)]
pub struct PoolItem {
    pub item_id: i32,
    pub created_at: i64,
}

} // verus!
