use crate::model::{ItemWithRanks, RankingPage, ScoredItem};
use vstd::prelude::*;

verus! {

/// What rank computation reads from one candidate: its id, its submission
/// time, and an order-preserving score key (larger key = better score).
#[derive(Clone, Copy, Debug, PartialEq, Eq, Structural)]
pub struct RankEntry {
    pub item_id: i32,
    pub submission_time: i64,
    pub key: u64,
}

/// Strict order of the popularity column: score key descending, then
/// submission time descending, then item id ascending.
pub open spec fn lt_top(a: RankEntry, b: RankEntry) -> bool {
    ||| a.key > b.key
    ||| (a.key == b.key && a.submission_time > b.submission_time)
    ||| (a.key == b.key && a.submission_time == b.submission_time && a.item_id < b.item_id)
}

/// Strict order of the newest column: submission time descending, then
/// item id ascending.
pub open spec fn lt_new(a: RankEntry, b: RankEntry) -> bool {
    ||| a.submission_time > b.submission_time
    ||| (a.submission_time == b.submission_time && a.item_id < b.item_id)
}

pub open spec fn top_order() -> spec_fn(RankEntry, RankEntry) -> bool {
    |a: RankEntry, b: RankEntry| lt_top(a, b)
}

pub open spec fn new_order() -> spec_fn(RankEntry, RankEntry) -> bool {
    |a: RankEntry, b: RankEntry| lt_new(a, b)
}

/// No two entries share an item id.
pub open spec fn distinct_ids(s: Seq<RankEntry>) -> bool {
    forall|i: int, j: int|
        0 <= i < s.len() && 0 <= j < s.len() && i != j ==> s[i].item_id != s[j].item_id
}

/// `lt` is a strict total order on the entries of `s`.
pub open spec fn strict_total(lt: spec_fn(RankEntry, RankEntry) -> bool, s: Seq<RankEntry>) -> bool {
    &&& forall|i: int, j: int|
        0 <= i < s.len() && 0 <= j < s.len() && s[i] != s[j] ==> (#[trigger] lt(s[i], s[j]) <==> !lt(
            s[j],
            s[i],
        ))
    &&& forall|i: int| 0 <= i < s.len() ==> !(#[trigger] lt(s[i], s[i]))
    &&& forall|i: int, j: int, k: int|
        0 <= i < s.len() && 0 <= j < s.len() && 0 <= k < s.len() && #[trigger] lt(s[i], s[j])
            && #[trigger] lt(s[j], s[k]) ==> lt(s[i], s[k])
}

/// How many of the first `upto` entries of `s` order strictly before `s[j]`.
pub open spec fn cnt_upto(
    lt: spec_fn(RankEntry, RankEntry) -> bool,
    s: Seq<RankEntry>,
    j: int,
    upto: int,
) -> int
    decreases upto,
{
    if upto <= 0 {
        0
    } else {
        cnt_upto(lt, s, j, upto - 1) + if lt(s[upto - 1], s[j]) {
            1int
        } else {
            0int
        }
    }
}

/// How many entries of `s` order strictly before `s[j]`; the 0-based rank
/// of `s[j]` under `lt`.
pub open spec fn cnt(lt: spec_fn(RankEntry, RankEntry) -> bool, s: Seq<RankEntry>, j: int) -> int {
    cnt_upto(lt, s, j, s.len() as int)
}

/// Entries ordered before `s[a]` are also ordered before `s[b]` when
/// `lt(s[a], s[b])`, and `s[a]` itself joins them.
proof fn lemma_cnt_upto_mono(
    lt: spec_fn(RankEntry, RankEntry) -> bool,
    s: Seq<RankEntry>,
    a: int,
    b: int,
    upto: int,
)
    requires
        strict_total(lt, s),
        0 <= a < s.len(),
        0 <= b < s.len(),
        lt(s[a], s[b]),
        0 <= upto <= s.len(),
    ensures
        cnt_upto(lt, s, a, upto) + (if upto > a {
            1int
        } else {
            0int
        }) <= cnt_upto(lt, s, b, upto),
    decreases upto,
{
    if upto > 0 {
        lemma_cnt_upto_mono(lt, s, a, b, upto - 1);
        let l = upto - 1;
        if l == a {
            assert(!lt(s[a], s[a]));
        } else {
            if lt(s[l], s[a]) {
                assert(lt(s[l], s[b]));
            }
        }
    }
}

/// Strict monotonicity: a strictly smaller entry has a strictly smaller rank.
pub proof fn lemma_cnt_mono(
    lt: spec_fn(RankEntry, RankEntry) -> bool,
    s: Seq<RankEntry>,
    a: int,
    b: int,
)
    requires
        strict_total(lt, s),
        0 <= a < s.len(),
        0 <= b < s.len(),
        lt(s[a], s[b]),
    ensures
        cnt(lt, s, a) < cnt(lt, s, b),
{
    lemma_cnt_upto_mono(lt, s, a, b, s.len() as int);
}

/// Ranks stay within `[0, upto)`, and never count the entry itself.
proof fn lemma_cnt_upto_bound(
    lt: spec_fn(RankEntry, RankEntry) -> bool,
    s: Seq<RankEntry>,
    j: int,
    upto: int,
)
    requires
        strict_total(lt, s),
        0 <= j < s.len(),
        0 <= upto <= s.len(),
    ensures
        0 <= cnt_upto(lt, s, j, upto) <= upto - (if upto > j {
            1int
        } else {
            0int
        }),
    decreases upto,
{
    if upto > 0 {
        lemma_cnt_upto_bound(lt, s, j, upto - 1);
        if upto - 1 == j {
            assert(!lt(s[j], s[j]));
        }
    }
}

/// The 0-based rank lies in `[0, len)`.
pub proof fn lemma_cnt_bound(lt: spec_fn(RankEntry, RankEntry) -> bool, s: Seq<RankEntry>, j: int)
    requires
        strict_total(lt, s),
        0 <= j < s.len(),
    ensures
        0 <= cnt(lt, s, j) < s.len(),
    decreases s.len(),
{
    lemma_cnt_upto_bound(lt, s, j, s.len() as int);
}

/// Distinct entries receive distinct ranks.
pub proof fn lemma_cnt_inj(lt: spec_fn(RankEntry, RankEntry) -> bool, s: Seq<RankEntry>)
    requires
        strict_total(lt, s),
    ensures
        forall|a: int, b: int|
            0 <= a < s.len() && 0 <= b < s.len() && s[a] != s[b] ==> #[trigger] cnt(lt, s, a)
                != #[trigger] cnt(lt, s, b),
{
    assert forall|a: int, b: int|
        0 <= a < s.len() && 0 <= b < s.len() && s[a] != s[b] implies #[trigger] cnt(lt, s, a)
        != #[trigger] cnt(lt, s, b) by {
        if lt(s[a], s[b]) {
            lemma_cnt_mono(lt, s, a, b);
        } else {
            assert(lt(s[b], s[a]));
            lemma_cnt_mono(lt, s, b, a);
        }
    }
}

/// Among the first `i` entries there is a selected minimum under `lt`;
/// returns its index.
proof fn lemma_min_sat(
    lt: spec_fn(RankEntry, RankEntry) -> bool,
    s: Seq<RankEntry>,
    sel: spec_fn(int) -> bool,
    i: int,
) -> (j: int)
    requires
        strict_total(lt, s),
        distinct_ids(s),
        0 <= i <= s.len(),
        exists|l: int| 0 <= l < i && #[trigger] sel(l),
    ensures
        0 <= j < i,
        sel(j),
        forall|l: int| 0 <= l < i && #[trigger] sel(l) ==> !lt(s[l], s[j]),
    decreases i,
{
    let last = i - 1;
    if exists|l: int| 0 <= l < i - 1 && #[trigger] sel(l) {
        let m = lemma_min_sat(lt, s, sel, i - 1);
        if sel(last) && lt(s[last], s[m]) {
            assert forall|l: int| 0 <= l < i && #[trigger] sel(l) implies !lt(s[l], s[last]) by {
                if l < i - 1 && lt(s[l], s[last]) {
                    assert(lt(s[l], s[m]));
                }
            }
            last
        } else {
            assert forall|l: int| 0 <= l < i && #[trigger] sel(l) implies !lt(s[l], s[m]) by {}
            m
        }
    } else {
        let w = choose|l: int| 0 <= l < i && #[trigger] sel(l);
        assert(w == last);
        assert forall|l: int| 0 <= l < i && #[trigger] sel(l) implies !lt(s[l], s[last]) by {
            assert(l == last);
            assert(!lt(s[last], s[last]));
        }
        last
    }
}

/// An entry nothing orders before has rank 0 up to `upto`.
proof fn lemma_cnt_upto_zero(
    lt: spec_fn(RankEntry, RankEntry) -> bool,
    s: Seq<RankEntry>,
    j: int,
    upto: int,
)
    requires
        0 <= upto <= s.len(),
        forall|l: int| 0 <= l < s.len() ==> !lt(s[l], s[j]),
    ensures
        cnt_upto(lt, s, j, upto) == 0,
    decreases upto,
{
    if upto > 0 {
        lemma_cnt_upto_zero(lt, s, j, upto - 1);
    }
}

/// If what orders before `b` is exactly what orders before `a` plus the
/// index `extra` itself, then `b`'s rank is `a`'s plus one.
proof fn lemma_cnt_upto_succ(
    lt: spec_fn(RankEntry, RankEntry) -> bool,
    s: Seq<RankEntry>,
    a: int,
    b: int,
    extra: int,
    upto: int,
)
    requires
        0 <= extra < s.len(),
        0 <= upto <= s.len(),
        forall|l: int|
            0 <= l < s.len() ==> (#[trigger] lt(s[l], s[b]) <==> (lt(s[l], s[a]) || l == extra)),
        !lt(s[extra], s[a]),
    ensures
        cnt_upto(lt, s, b, upto) == cnt_upto(lt, s, a, upto) + (if upto > extra {
            1int
        } else {
            0int
        }),
    decreases upto,
{
    if upto > 0 {
        lemma_cnt_upto_succ(lt, s, a, b, extra, upto - 1);
    }
}

/// Both strict directions partition each pair: rank counts of `j` from
/// below and above sum to `len - 1`.
proof fn lemma_cnt_partition(
    lt: spec_fn(RankEntry, RankEntry) -> bool,
    gt: spec_fn(RankEntry, RankEntry) -> bool,
    s: Seq<RankEntry>,
    j: int,
    upto: int,
)
    requires
        strict_total(lt, s),
        distinct_ids(s),
        0 <= j < s.len(),
        0 <= upto <= s.len(),
        forall|a: RankEntry, b: RankEntry| #[trigger] gt(a, b) == lt(b, a),
    ensures
        cnt_upto(lt, s, j, upto) + cnt_upto(gt, s, j, upto) == upto - (if upto > j {
            1int
        } else {
            0int
        }),
    decreases upto,
{
    if upto > 0 {
        lemma_cnt_partition(lt, gt, s, j, upto - 1);
        let l = upto - 1;
        assert(gt(s[l], s[j]) == lt(s[j], s[l]));
        if l == j {
            assert(!lt(s[j], s[j]));
        } else {
            assert(s[l].item_id != s[j].item_id);
            assert(s[l] != s[j]);
            assert(lt(s[l], s[j]) <==> !lt(s[j], s[l]));
        }
    }
}

/// Every rank position below `len` is taken by some entry (pigeonhole):
/// together with injectivity, ranks form a permutation of `0 .. len`.
pub proof fn lemma_cnt_onto(
    lt: spec_fn(RankEntry, RankEntry) -> bool,
    s: Seq<RankEntry>,
    p: int,
)
    requires
        strict_total(lt, s),
        distinct_ids(s),
        0 <= p < s.len(),
    ensures
        exists|j: int| 0 <= j < s.len() && #[trigger] cnt(lt, s, j) == p,
    decreases p,
{
    let n = s.len() as int;
    if p == 0 {
        let truesel = |l: int| true;
        assert(truesel(0));
        let m = lemma_min_sat(lt, s, truesel, n);
        assert forall|l: int| 0 <= l < s.len() implies !lt(s[l], s[m]) by {
            assert(truesel(l));
        }
        lemma_cnt_upto_zero(lt, s, m, n);
        assert(cnt(lt, s, m) == 0);
    } else {
        lemma_cnt_onto(lt, s, p - 1);
        let j = choose|j: int| 0 <= j < n && #[trigger] cnt(lt, s, j) == p - 1;
        let gt = |a: RankEntry, b: RankEntry| lt(b, a);
        lemma_cnt_partition(lt, gt, s, j, n);
        // p - 1 + greater == n - 1, and p < n, so at least one greater exists
        assert(cnt_upto(gt, s, j, n) == n - 1 - (p - 1));
        let grsel = |l: int| 0 <= l < n && lt(s[j], s[l]);
        assert(exists|l: int| 0 <= l < n && #[trigger] grsel(l)) by {
            lemma_cnt_nonzero_witness(gt, s, j, n);
            let w = choose|l: int| 0 <= l < n && #[trigger] gt(s[l], s[j]);
            assert(grsel(w));
        }
        let m = lemma_min_sat(lt, s, grsel, n);
        // what orders before s[m] is exactly what orders before s[j], plus j
        assert forall|l: int| 0 <= l < s.len() implies (#[trigger] lt(s[l], s[m]) <==> (lt(
            s[l],
            s[j],
        ) || l == j)) by {
            if lt(s[l], s[j]) {
                assert(lt(s[j], s[m]));
                assert(lt(s[l], s[m]));
            }
            if l == j {
                assert(lt(s[j], s[m]));
            }
            if lt(s[l], s[m]) && l != j {
                // l is not above j, else it would beat the minimality of m
                if lt(s[j], s[l]) {
                    assert(grsel(l));
                    assert(!lt(s[l], s[m]));
                } else {
                    if l != j {
                        assert(s[l].item_id != s[j].item_id);
                        assert(s[l] != s[j]);
                        assert(lt(s[l], s[j]) <==> !lt(s[j], s[l]));
                    }
                }
            }
        }
        assert(!lt(s[j], s[j]));
        lemma_cnt_upto_succ(lt, s, j, m, j, n);
        assert(cnt(lt, s, m) == p);
    }
}

/// A count that is positive has a witness.
proof fn lemma_cnt_nonzero_witness(
    lt: spec_fn(RankEntry, RankEntry) -> bool,
    s: Seq<RankEntry>,
    j: int,
    upto: int,
)
    requires
        0 <= upto <= s.len(),
        cnt_upto(lt, s, j, upto) > 0,
    ensures
        exists|l: int| 0 <= l < upto && #[trigger] lt(s[l], s[j]),
    decreases upto,
{
    if upto > 0 {
        if lt(s[upto - 1], s[j]) {
        } else {
            lemma_cnt_nonzero_witness(lt, s, j, upto - 1);
        }
    }
}

/// Entries with pairwise distinct item ids are totally ordered by both
/// rank orders.
pub proof fn lemma_orders_total(s: Seq<RankEntry>)
    requires
        distinct_ids(s),
    ensures
        strict_total(top_order(), s),
        strict_total(new_order(), s),
{
}

/// Exec comparison for the popularity order.
fn top_before(a: &RankEntry, b: &RankEntry) -> (r: bool)
    ensures
        r == lt_top(*a, *b),
{
    if a.key > b.key {
        true
    } else if a.key == b.key && a.submission_time > b.submission_time {
        true
    } else if a.key == b.key && a.submission_time == b.submission_time && a.item_id < b.item_id {
        true
    } else {
        false
    }
}

/// Exec comparison for the newest order.
fn new_before(a: &RankEntry, b: &RankEntry) -> (r: bool)
    ensures
        r == lt_new(*a, *b),
{
    if a.submission_time > b.submission_time {
        true
    } else if a.submission_time == b.submission_time && a.item_id < b.item_id {
        true
    } else {
        false
    }
}

/// 0-based popularity rank of `s[j]`.
fn count_top(s: &Vec<RankEntry>, j: usize) -> (c: usize)
    requires
        j < s@.len(),
    ensures
        c == cnt(top_order(), s@, j as int),
{
    let mut c: usize = 0;
    let mut i: usize = 0;
    while i < s.len()
        invariant
            j < s@.len(),
            i <= s@.len(),
            c <= i,
            c == cnt_upto(top_order(), s@, j as int, i as int),
        decreases s@.len() - i,
    {
        if top_before(&s[i], &s[j]) {
            c = c + 1;
        }
        i = i + 1;
    }
    c
}

/// 0-based newest rank of `s[j]`.
fn count_new(s: &Vec<RankEntry>, j: usize) -> (c: usize)
    requires
        j < s@.len(),
    ensures
        c == cnt(new_order(), s@, j as int),
{
    let mut c: usize = 0;
    let mut i: usize = 0;
    while i < s.len()
        invariant
            j < s@.len(),
            i <= s@.len(),
            c <= i,
            c == cnt_upto(new_order(), s@, j as int, i as int),
        decreases s@.len() - i,
    {
        if new_before(&s[i], &s[j]) {
            c = c + 1;
        }
        i = i + 1;
    }
    c
}

/// Both 1-based ranks of every entry, aligned with the input: entry `j`
/// receives `rank_top = 1 + |entries strictly better by score|` and
/// `rank_new = 1 + |entries strictly newer|`.  Ranks are dense: over all
/// entries each column is a permutation of `1 ..= len` (see
/// `lemma_cnt_inj` and `lemma_cnt_onto`).
pub fn calc_ranks_of(s: &Vec<RankEntry>) -> (r: Vec<ItemWithRanks>)
    requires
        distinct_ids(s@),
        s@.len() <= 0x7fff_fffe,
    ensures
        r@.len() == s@.len(),
        forall|j: int|
            0 <= j < s@.len() ==> {
                &&& (#[trigger] r@[j]).item_id == s@[j].item_id
                &&& r@[j].rank_top == 1 + cnt(top_order(), s@, j)
                &&& r@[j].rank_new == 1 + cnt(new_order(), s@, j)
            },
{
    let mut r: Vec<ItemWithRanks> = Vec::new();
    let mut j: usize = 0;
    while j < s.len()
        invariant
            distinct_ids(s@),
            s@.len() <= 0x7fff_fffe,
            j <= s@.len(),
            r@.len() == j,
            forall|l: int|
                0 <= l < j ==> {
                    &&& (#[trigger] r@[l]).item_id == s@[l].item_id
                    &&& r@[l].rank_top == 1 + cnt(top_order(), s@, l)
                    &&& r@[l].rank_new == 1 + cnt(new_order(), s@, l)
                },
        decreases s@.len() - j,
    {
        let ct = count_top(s, j);
        let cn = count_new(s, j);
        proof {
            lemma_orders_total(s@);
            lemma_cnt_bound(top_order(), s@, j as int);
            lemma_cnt_bound(new_order(), s@, j as int);
        }
        r.push(
            ItemWithRanks {
                item_id: s[j].item_id,
                rank_top: (ct + 1) as i32,
                rank_new: (cn + 1) as i32,
            },
        );
        j = j + 1;
    }
    r
}

/// `r` lists the entries of `s` in popularity order: the entry with
/// 0-based rank `p` stands at position `p`.
pub open spec fn is_sorted_by_top(s: Seq<RankEntry>, r: Seq<RankEntry>) -> bool {
    &&& r.len() == s.len()
    &&& forall|j: int|
        0 <= j < s.len() ==> 0 <= #[trigger] cnt(top_order(), s, j) < s.len() && r[cnt(
            top_order(),
            s,
            j,
        )] == s[j]
}

/// Lists the entries in popularity order (score key descending, ties by
/// submission time descending then item id ascending).
pub fn sort_by_top(s: &Vec<RankEntry>) -> (r: Vec<RankEntry>)
    requires
        distinct_ids(s@),
    ensures
        is_sorted_by_top(s@, r@),
        forall|p: int, q: int| 0 <= p < q < r@.len() ==> lt_top(#[trigger] r@[p], #[trigger] r@[q]),
{
    proof {
        lemma_orders_total(s@);
    }
    let n = s.len();
    let mut r: Vec<RankEntry> = Vec::new();
    let mut p: usize = 0;
    while p < n
        invariant
            distinct_ids(s@),
            strict_total(top_order(), s@),
            n == s@.len(),
            p <= n,
            r@.len() == p,
            forall|j: int|
                0 <= j < s@.len() && 0 <= #[trigger] cnt(top_order(), s@, j) < p ==> r@[cnt(
                    top_order(),
                    s@,
                    j,
                )] == s@[j],
        decreases n - p,
    {
        proof {
            lemma_cnt_onto(top_order(), s@, p as int);
        }
        let mut j: usize = 0;
        let mut found: bool = false;
        while j < n && !found
            invariant
                n == s@.len(),
                j <= n,
                exists|l: int| 0 <= l < s@.len() && #[trigger] cnt(top_order(), s@, l) == p,
                !found ==> forall|l: int|
                    0 <= l < j ==> #[trigger] cnt(top_order(), s@, l) != p,
                found ==> j < n && cnt(top_order(), s@, j as int) == p,
            decreases n - j + (if found {
                0int
            } else {
                1int
            }),
        {
            let c = count_top(s, j);
            if c == p {
                found = true;
            } else {
                j = j + 1;
            }
        }
        assert(found);
        let e = s[j];
        r.push(e);
        proof {
            assert forall|l: int|
                0 <= l < s@.len() && #[trigger] cnt(top_order(), s@, l) < p + 1 implies r@[cnt(
                top_order(),
                s@,
                l,
            )] == s@[l] by {
                lemma_cnt_bound(top_order(), s@, l);
                if cnt(top_order(), s@, l) == p {
                    lemma_cnt_inj(top_order(), s@);
                    if l != j as int {
                        assert(s@[l].item_id != s@[j as int].item_id);
                        assert(cnt(top_order(), s@, l) != cnt(top_order(), s@, j as int));
                    }
                    assert(s@[l] == s@[j as int]);
                }
            }
        }
        p = p + 1;
    }
    proof {
        assert forall|j: int| 0 <= j < s@.len() implies 0 <= #[trigger] cnt(top_order(), s@, j)
            < s@.len() && r@[cnt(top_order(), s@, j)] == s@[j] by {
            lemma_cnt_bound(top_order(), s@, j);
        }
        assert forall|pp: int, q: int| 0 <= pp < q < r@.len() implies lt_top(
            #[trigger] r@[pp],
            #[trigger] r@[q],
        ) by {
            lemma_cnt_onto(top_order(), s@, pp);
            lemma_cnt_onto(top_order(), s@, q);
            let jp = choose|l: int| 0 <= l < s@.len() && #[trigger] cnt(top_order(), s@, l) == pp;
            let jq = choose|l: int| 0 <= l < s@.len() && #[trigger] cnt(top_order(), s@, l) == q;
            assert(r@[pp] == s@[jp]);
            assert(r@[q] == s@[jq]);
            if jp != jq {
                assert(s@[jp].item_id != s@[jq].item_id);
                assert(s@[jp] != s@[jq]);
                if lt_top(s@[jq], s@[jp]) {
                    lemma_cnt_mono(top_order(), s@, jq, jp);
                }
            }
        }
    }
    r
}

/// The popularity-ordered listing of a fixed input is unique: two outputs
/// that both satisfy `is_sorted_by_top` are equal.
pub proof fn lemma_sorted_by_top_unique(s: Seq<RankEntry>, r1: Seq<RankEntry>, r2: Seq<RankEntry>)
    requires
        distinct_ids(s),
        is_sorted_by_top(s, r1),
        is_sorted_by_top(s, r2),
    ensures
        r1 == r2,
{
    lemma_orders_total(s);
    assert forall|p: int| 0 <= p < r1.len() implies r1[p] == r2[p] by {
        lemma_cnt_onto(top_order(), s, p);
        let j = choose|l: int| 0 <= l < s.len() && #[trigger] cnt(top_order(), s, l) == p;
        assert(r1[p] == s[j]);
        assert(r2[p] == s[j]);
    }
    assert(r1 =~= r2);
}

/// `r` is the scored listing of `entries` for `page`: ordered by the
/// popularity order, with dense 1-based ranks.
pub open spec fn is_ranking(entries: Seq<RankEntry>, page: RankingPage, r: Seq<ScoredItem>) -> bool {
    &&& r.len() == entries.len()
    &&& forall|p: int| 0 <= p < r.len() ==> (#[trigger] r[p]).rank == p + 1 && r[p].page == page
    &&& forall|j: int|
        0 <= j < entries.len() ==> 0 <= #[trigger] cnt(top_order(), entries, j) < entries.len()
            && r[cnt(top_order(), entries, j)].item_id == entries[j].item_id
}

/// The scored listing of `entries` for `page` (see `is_ranking`).
pub fn ranked_list(entries: &Vec<RankEntry>, page: RankingPage) -> (r: Vec<ScoredItem>)
    requires
        distinct_ids(entries@),
        entries@.len() <= 0x7fff_fffe,
    ensures
        is_ranking(entries@, page, r@),
{
    let sorted = sort_by_top(entries);
    let mut r: Vec<ScoredItem> = Vec::new();
    let mut p: usize = 0;
    while p < sorted.len()
        invariant
            is_sorted_by_top(entries@, sorted@),
            sorted@.len() == entries@.len(),
            entries@.len() <= 0x7fff_fffe,
            p <= sorted@.len(),
            r@.len() == p,
            forall|q: int|
                0 <= q < p ==> (#[trigger] r@[q]).rank == q + 1 && r@[q].page == page
                    && r@[q].item_id == sorted@[q].item_id,
        decreases sorted@.len() - p,
    {
        r.push(ScoredItem { item_id: sorted[p].item_id, rank: (p + 1) as i32, page });
        p = p + 1;
    }
    proof {
        assert forall|j: int| 0 <= j < entries@.len() implies 0 <= #[trigger] cnt(
            top_order(),
            entries@,
            j,
        ) < entries@.len() && r@[cnt(top_order(), entries@, j)].item_id == entries@[j].item_id by {
            assert(sorted@[cnt(top_order(), entries@, j)] == entries@[j]);
        }
    }
    r
}

/// The scored listing of a fixed input is unique (idempotent reads).
pub proof fn lemma_ranking_unique(
    entries: Seq<RankEntry>,
    page: RankingPage,
    r1: Seq<ScoredItem>,
    r2: Seq<ScoredItem>,
)
    requires
        distinct_ids(entries),
        is_ranking(entries, page, r1),
        is_ranking(entries, page, r2),
    ensures
        r1 == r2,
{
    lemma_orders_total(entries);
    assert forall|p: int| 0 <= p < r1.len() implies r1[p] == r2[p] by {
        lemma_cnt_onto(top_order(), entries, p);
        let j = choose|l: int| 0 <= l < entries.len() && #[trigger] cnt(top_order(), entries, l)
            == p;
        assert(r1[p].item_id == entries[j].item_id);
        assert(r2[p].item_id == entries[j].item_id);
    }
    assert(r1 =~= r2);
}

} // verus!
