//! Row-level logic over readings queried back from the lake: collapsing the
//! duplicates that incremental syncs leave behind.
use vstd::prelude::*;
use vstd::seq_lib::*;

use crate::text::{
    lemma_text_lt_irreflexive, lemma_text_lt_total, lemma_text_lt_transitive, text_equal,
    text_less, text_lt,
};

verus! {

broadcast use group_to_multiset_ensures;

/// The fields of a reading that de-duplication looks at.
#[derive(Debug, Clone)]
pub struct RowKey {
    pub site_no: String,
    pub param_cd: String,
    pub datetime: String,
    pub last_modified: String,
}

pub struct RowKeyView {
    pub site_no: Seq<char>,
    pub param_cd: Seq<char>,
    pub datetime: Seq<char>,
    pub last_modified: Seq<char>,
}

impl View for RowKey {
    type V = RowKeyView;

    open spec fn view(&self) -> RowKeyView {
        RowKeyView {
            site_no: self.site_no@,
            param_cd: self.param_cd@,
            datetime: self.datetime@,
            last_modified: self.last_modified@,
        }
    }
}

pub open spec fn row_views(rows: Seq<RowKey>) -> Seq<RowKeyView> {
    rows.map_values(|r: RowKey| r@)
}

/// Two readings of the same site, parameter and timestamp.
pub open spec fn same_reading(a: RowKeyView, b: RowKeyView) -> bool {
    a.site_no == b.site_no && a.param_cd == b.param_cd && a.datetime == b.datetime
}

/// Row `i` is the one kept for its reading among the first `n` rows: no
/// earlier duplicate has a `last_modified` at least as late, and no later
/// one (before `n`) a strictly later one.
pub open spec fn kept_among(rows: Seq<RowKeyView>, n: int, i: int) -> bool {
    &&& 0 <= i < n <= rows.len()
    &&& forall|j: int|
        0 <= j < i && same_reading(#[trigger] rows[j], rows[i]) ==> text_lt(
            rows[j].last_modified,
            rows[i].last_modified,
        )
    &&& forall|j: int|
        i < j < n && same_reading(#[trigger] rows[j], rows[i]) ==> !text_lt(
            rows[i].last_modified,
            rows[j].last_modified,
        )
}

/// Row `i` is the one kept for its reading: the first with the greatest
/// `last_modified`.
pub open spec fn kept(rows: Seq<RowKeyView>, i: int) -> bool {
    kept_among(rows, rows.len() as int, i)
}

/// Some entry of `best` is a reading equal to row `j`.
pub open spec fn covered(v: Seq<RowKeyView>, best: Seq<usize>, j: int) -> bool {
    exists|k: int| 0 <= k < best.len() && same_reading(v[#[trigger] best[k] as int], v[j])
}

/// Output order: by site, then timestamp (bytewise, as `str` compares).
pub open spec fn site_time_lt(a: RowKeyView, b: RowKeyView) -> bool {
    text_lt(a.site_no, b.site_no) || (a.site_no == b.site_no && text_lt(a.datetime, b.datetime))
}

fn site_time_less(a: &RowKey, b: &RowKey) -> (r: bool)
    ensures
        r == site_time_lt(a@, b@),
{
    text_less(a.site_no.as_str(), b.site_no.as_str()) || (text_equal(
        a.site_no.as_str(),
        b.site_no.as_str(),
    ) && text_less(a.datetime.as_str(), b.datetime.as_str()))
}

fn same_reading_exec(a: &RowKey, b: &RowKey) -> (r: bool)
    ensures
        r == same_reading(a@, b@),
{
    text_equal(a.site_no.as_str(), b.site_no.as_str()) && text_equal(
        a.param_cd.as_str(),
        b.param_cd.as_str(),
    ) && text_equal(a.datetime.as_str(), b.datetime.as_str())
}

proof fn lemma_site_time_lt_transitive(a: RowKeyView, b: RowKeyView, c: RowKeyView)
    requires
        site_time_lt(a, b),
        site_time_lt(b, c),
    ensures
        site_time_lt(a, c),
{
    if text_lt(a.site_no, b.site_no) && text_lt(b.site_no, c.site_no) {
        lemma_text_lt_transitive(a.site_no, b.site_no, c.site_no);
    }
    lemma_text_lt_irreflexive(a.site_no);
    lemma_text_lt_irreflexive(b.site_no);
    if a.site_no == b.site_no && b.site_no == c.site_no {
        lemma_text_lt_transitive(a.datetime, b.datetime, c.datetime);
    }
}

proof fn lemma_site_time_lt_irreflexive(a: RowKeyView)
    ensures
        !site_time_lt(a, a),
{
    lemma_text_lt_irreflexive(a.site_no);
    lemma_text_lt_irreflexive(a.datetime);
}

/// `r` is a de-duplication of `v`: exactly the kept rows, each once,
/// ordered by (site_no, datetime).
pub open spec fn dedup_of(v: Seq<RowKeyView>, r: Seq<usize>) -> bool {
    &&& forall|k: int| 0 <= k < r.len() ==> kept(v, #[trigger] r[k] as int)
    &&& forall|i: int| kept(v, i) ==> r.contains(i as usize)
    &&& forall|a: int, b: int| 0 <= a < b < r.len() ==> r[a] != r[b]
    &&& forall|a: int, b: int|
        0 <= a < b < r.len() ==> !site_time_lt(v[#[trigger] r[b] as int], v[#[trigger] r[a] as int])
}

/// The rows of `v` at the indices `r`, in that order.
pub open spec fn picked(v: Seq<RowKeyView>, r: Seq<usize>) -> Seq<RowKeyView> {
    r.map_values(|k: usize| v[k as int])
}

/// Collapses readings sharing (site_no, param_cd, datetime) to one each,
/// keeping the row with the greatest `last_modified` (the first such row on
/// a tie). Returns the kept rows' indices, ordered by (site_no, datetime);
/// the order among kept rows that agree on both is not specified.
pub fn dedup_keep_latest(rows: &Vec<RowKey>) -> (r: Vec<usize>)
    ensures
        dedup_of(row_views(rows@), r@),
{
    let ghost v = row_views(rows@);
    // One current best row per distinct reading, in first-appearance order.
    let mut best: Vec<usize> = Vec::new();
    let mut i: usize = 0;
    while i < rows.len()
        invariant
            v == row_views(rows@),
            i <= rows@.len(),
            forall|k: int| 0 <= k < best@.len() ==> kept_among(v, i as int, #[trigger] best@[k] as int),
            forall|j: int| 0 <= j < i ==> #[trigger] covered(v, best@, j),
            forall|a: int, b: int|
                0 <= a < b < best@.len() ==> !same_reading(v[#[trigger] best@[a] as int], v[#[trigger] best@[b] as int]),
        decreases rows@.len() - i,
    {
        let row = &rows[i];
        let mut p: usize = 0;
        while p < best.len() && !same_reading_exec(&rows[best[p]], row)
            invariant
                v == row_views(rows@),
                i < rows@.len(),
                p <= best@.len(),
                row@ == v[i as int],
                forall|k: int| 0 <= k < best@.len() ==> kept_among(v, i as int, #[trigger] best@[k] as int),
                forall|k: int| 0 <= k < p ==> !same_reading(v[#[trigger] best@[k] as int], v[i as int]),
            decreases best@.len() - p,
        {
            p = p + 1;
        }
        let ghost old_best = best@;
        if p < best.len() {
            let cur = best[p];
            if text_less(rows[cur].last_modified.as_str(), row.last_modified.as_str()) {
                best.set(p, i);
            }
        } else {
            best.push(i);
        }
        proof {
            assert forall|k: int| 0 <= k < best@.len() implies kept_among(v, i + 1, #[trigger] best@[k] as int) by {
                let bk = best@[k] as int;
                if k == p as int && bk == i as int {
                    if p < old_best.len() {
                        let cur = old_best[p as int] as int;
                        assert(kept_among(v, i as int, cur));
                        assert forall|j: int| 0 <= j < i && same_reading(#[trigger] v[j], v[i as int]) implies text_lt(v[j].last_modified, v[i as int].last_modified) by {
                            if j < cur {
                                lemma_text_lt_transitive(v[j].last_modified, v[cur].last_modified, v[i as int].last_modified);
                            } else if j > cur {
                                lemma_text_lt_total(v[j].last_modified, v[cur].last_modified);
                                if text_lt(v[cur].last_modified, v[j].last_modified) {
                                } else if v[j].last_modified == v[cur].last_modified {
                                } else {
                                    lemma_text_lt_transitive(v[j].last_modified, v[cur].last_modified, v[i as int].last_modified);
                                }
                            }
                        }
                    } else {
                        assert forall|j: int| 0 <= j < i && same_reading(#[trigger] v[j], v[i as int]) implies text_lt(v[j].last_modified, v[i as int].last_modified) by {
                            assert(covered(v, old_best, j));
                            let kk = choose|kk: int| 0 <= kk < old_best.len() && same_reading(v[old_best[kk] as int], v[j]);
                            assert(!same_reading(v[old_best[kk] as int], v[i as int]));
                        }
                    }
                } else {
                    assert(old_best[k] == best@[k]);
                    assert(kept_among(v, i as int, bk));
                    if same_reading(v[i as int], v[bk]) {
                        assert(k == p);
                        if text_lt(v[bk].last_modified, v[i as int].last_modified) {
                            assert(best@[k] == i);
                        }
                    }
                }
            }
            assert forall|j: int| 0 <= j < i + 1 implies #[trigger] covered(v, best@, j) by {
                if j == i {
                    assert(same_reading(v[best@[p as int] as int], v[j]));
                } else {
                    assert(covered(v, old_best, j));
                    let kk = choose|kk: int| 0 <= kk < old_best.len() && same_reading(v[old_best[kk] as int], v[j]);
                    if kk == p {
                        assert(same_reading(v[best@[kk] as int], v[j]));
                    } else {
                        assert(best@[kk] == old_best[kk]);
                    }
                }
            }
            assert forall|a: int, b: int| 0 <= a < b < best@.len() implies !same_reading(v[#[trigger] best@[a] as int], v[#[trigger] best@[b] as int]) by {
                if a != p && b != p {
                    assert(best@[a] == old_best[a] && best@[b] == old_best[b]);
                } else if a == p {
                    assert(best@[b] == old_best[b]);
                    assert(same_reading(v[best@[a] as int], v[i as int]));
                    if p < old_best.len() {
                        assert(same_reading(v[old_best[a] as int], v[i as int]));
                    }
                } else {
                    assert(best@[a] == old_best[a]);
                    assert(same_reading(v[best@[b] as int], v[i as int]));
                    if p < old_best.len() {
                        assert(same_reading(v[old_best[b] as int], v[i as int]));
                    }
                }
            }
        }
        i = i + 1;
    }
    // Order the kept rows by (site_no, datetime), stably.
    let mut sorted: Vec<usize> = Vec::new();
    let mut m: usize = 0;
    while m < best.len()
        invariant
            v == row_views(rows@),
            m <= best@.len(),
            forall|k: int| 0 <= k < best@.len() ==> kept(v, #[trigger] best@[k] as int),
            sorted@.to_multiset() == best@.take(m as int).to_multiset(),
            forall|j: int| 0 <= j < sorted@.len() ==> #[trigger] sorted@[j] < rows@.len(),
            forall|a: int, b: int| 0 <= a < b < sorted@.len() ==> !site_time_lt(v[#[trigger] sorted@[b] as int], v[#[trigger] sorted@[a] as int]),
        decreases best@.len() - m,
    {
        let e = best[m];
        assert(kept(v, e as int));
        let mut k: usize = 0;
        while k < sorted.len() && !site_time_less(&rows[e], &rows[sorted[k]])
            invariant
                v == row_views(rows@),
                k <= sorted@.len(),
                e < rows@.len(),
                sorted@.to_multiset() == best@.take(m as int).to_multiset(),
                forall|j: int| 0 <= j < sorted@.len() ==> #[trigger] sorted@[j] < rows@.len(),
                forall|a: int, b: int| 0 <= a < b < sorted@.len() ==> !site_time_lt(v[#[trigger] sorted@[b] as int], v[#[trigger] sorted@[a] as int]),
                forall|j: int| 0 <= j < k ==> !site_time_lt(v[e as int], v[#[trigger] sorted@[j] as int]),
            decreases sorted@.len() - k,
        {
            k = k + 1;
        }
        let ghost old_sorted = sorted@;
        sorted.insert(k, e);
        proof {
            assert(best@.take(m + 1) =~= best@.take(m as int).push(e));
            assert forall|a: int, b: int| 0 <= a < b < sorted@.len() implies !site_time_lt(v[#[trigger] sorted@[b] as int], v[#[trigger] sorted@[a] as int]) by {
                if b < k {
                    assert(sorted@[a] == old_sorted[a] && sorted@[b] == old_sorted[b]);
                } else if a > k {
                    assert(sorted@[a] == old_sorted[a - 1] && sorted@[b] == old_sorted[b - 1]);
                } else if a == k {
                    // e before old_sorted[b - 1], which is not below old_sorted[k]
                    assert(sorted@[b] == old_sorted[b - 1]);
                    let x = v[old_sorted[b - 1] as int];
                    if site_time_lt(x, v[e as int]) {
                        assert(site_time_lt(v[e as int], v[old_sorted[k as int] as int]));
                        lemma_site_time_lt_transitive(x, v[e as int], v[old_sorted[k as int] as int]);
                        if b - 1 > k {
                            assert(!site_time_lt(v[old_sorted[b - 1] as int], v[old_sorted[k as int] as int]));
                        } else {
                            lemma_site_time_lt_irreflexive(x);
                        }
                    }
                } else if b == k {
                    assert(sorted@[a] == old_sorted[a]);
                    assert(sorted@[b] == e);
                } else {
                    assert(sorted@[a] == old_sorted[a] && sorted@[b] == old_sorted[b - 1]);
                }
            }
            assert forall|j: int| 0 <= j < sorted@.len() implies #[trigger] sorted@[j] < rows@.len() by {
                if j < k {
                    assert(sorted@[j] == old_sorted[j]);
                } else if j > k {
                    assert(sorted@[j] == old_sorted[j - 1]);
                }
            }
        }
        m = m + 1;
    }
    proof {
        assert(best@.take(best@.len() as int) =~= best@);
        assert forall|k: int| 0 <= k < sorted@.len() implies kept(v, #[trigger] sorted@[k] as int) by {
            let x = sorted@[k];
            assert(sorted@.to_multiset().count(x) > 0);
            assert(best@.contains(x));
        }
        assert forall|i: int| kept(v, i) implies sorted@.contains(i as usize) by {
            assert(covered(v, best@, i));
            let kk = choose|kk: int| 0 <= kk < best@.len() && same_reading(v[#[trigger] best@[kk] as int], v[i]);
            let b = best@[kk] as int;
            // both i and b are kept rows of the same reading, so they coincide
            if b < i {
                assert(text_lt(v[b].last_modified, v[i].last_modified));
                assert(!text_lt(v[b].last_modified, v[i].last_modified));
            } else if b > i {
                assert(text_lt(v[i].last_modified, v[b].last_modified));
            }
            assert(best@.to_multiset().count(i as usize) > 0);
            assert(sorted@.to_multiset().count(i as usize) > 0);
        }
        assert forall|a: int, b: int| 0 <= a < b < sorted@.len() implies sorted@[a] != sorted@[b] by {
            if sorted@[a] == sorted@[b] {
                let x = sorted@[a];
                assert(sorted@.to_multiset().count(x) >= 2) by {
                    assert(sorted@ =~= sorted@.take(b).push(x) + sorted@.skip(b + 1));
                    assert(sorted@.take(b).contains(x)) by {
                        assert(sorted@.take(b)[a] == x);
                    }
                    lemma_multiset_commutative(sorted@.take(b).push(x), sorted@.skip(b + 1));
                }
                assert(best@.to_multiset().count(x) >= 2);
                lemma_distinct_count(best@, x, v);
            }
        }
    }
    sorted
}

/// In a list whose entries are pairwise distinct readings, no index occurs
/// twice.
proof fn lemma_distinct_count(best: Seq<usize>, x: usize, v: Seq<RowKeyView>)
    requires
        forall|a: int, b: int|
            0 <= a < b < best.len() ==> !same_reading(v[#[trigger] best[a] as int], v[#[trigger] best[b] as int]),
    ensures
        best.to_multiset().count(x) <= 1,
    decreases best.len(),
{
    if best.len() > 0 {
        let init = best.drop_last();
        assert forall|a: int, b: int| 0 <= a < b < init.len() implies !same_reading(v[#[trigger] init[a] as int], v[#[trigger] init[b] as int]) by {
            assert(init[a] == best[a] && init[b] == best[b]);
        }
        lemma_distinct_count(init, x, v);
        assert(init.push(best.last()) =~= best);
        if best.last() == x && init.to_multiset().count(x) > 0 {
            assert(init.contains(x));
            let a = choose|a: int| 0 <= a < init.len() && init[a] == x;
            assert(best[a] == x);
            assert(!same_reading(v[best[a] as int], v[best[best.len() - 1] as int]));
        }
    }
}

/// Two kept rows are never readings of the same (site, parameter, time).
proof fn lemma_kept_distinct(v: Seq<RowKeyView>, p: int, q: int)
    requires
        kept(v, p),
        kept(v, q),
        p < q,
    ensures
        !same_reading(v[p], v[q]),
{
    if same_reading(v[p], v[q]) {
        assert(same_reading(v[q], v[p]));
        assert(text_lt(v[p].last_modified, v[q].last_modified));
        assert(!text_lt(v[p].last_modified, v[q].last_modified));
    }
}

/// De-duplicating an already de-duplicated result changes nothing: every
/// row of it is kept, so a second pass returns each of its rows, each once
/// (the result's entries are distinct), and nothing else.
pub proof fn dedup_idempotent(v: Seq<RowKeyView>, r: Seq<usize>, r2: Seq<usize>)
    requires
        dedup_of(v, r),
        dedup_of(picked(v, r), r2),
    ensures
        forall|i: int| 0 <= i < r.len() ==> kept(picked(v, r), i),
        forall|i: usize| (i as int) < r.len() ==> #[trigger] r2.contains(i),
        forall|k: int| 0 <= k < r2.len() ==> r2[k] < r.len(),
{
    let w = picked(v, r);
    assert forall|i: int, j: int| 0 <= i < r.len() && 0 <= j < r.len() && i != j implies !same_reading(
        #[trigger] w[i],
        #[trigger] w[j],
    ) by {
        assert(kept(v, r[i] as int));
        assert(kept(v, r[j] as int));
        assert(r[i] != r[j]) by {
            if i < j {
                assert(r[i] != r[j]);
            } else {
                assert(r[j] != r[i]);
            }
        }
        if r[i] < r[j] {
            lemma_kept_distinct(v, r[i] as int, r[j] as int);
        } else {
            lemma_kept_distinct(v, r[j] as int, r[i] as int);
        }
    }
    assert forall|i: int| 0 <= i < r.len() implies kept(w, i) by {
        assert forall|j: int| 0 <= j < i && same_reading(#[trigger] w[j], w[i]) implies text_lt(
            w[j].last_modified,
            w[i].last_modified,
        ) by {
            assert(!same_reading(w[j], w[i]));
        }
        assert forall|j: int| i < j < r.len() && same_reading(#[trigger] w[j], w[i]) implies !text_lt(
            w[i].last_modified,
            w[j].last_modified,
        ) by {
            assert(!same_reading(w[j], w[i]));
        }
    }
    assert forall|k: int| 0 <= k < r2.len() implies r2[k] < r.len() by {
        assert(kept(w, r2[k] as int));
    }
    assert forall|x: usize| (x as int) < r.len() implies #[trigger] r2.contains(x) by {
        assert(kept(w, x as int));
    }
}

/// De-duplicated rows come out ordered by site, then by timestamp, each
/// compared as whole texts bytewise: a later row never has a smaller site,
/// and within one site never an earlier timestamp.
pub proof fn dedup_sorted_by_site_then_time(v: Seq<RowKeyView>, r: Seq<usize>)
    requires
        dedup_of(v, r),
    ensures
        forall|a: int, b: int|
            0 <= a < b < r.len() ==> !text_lt(v[#[trigger] r[b] as int].site_no, v[#[trigger] r[a] as int].site_no),
        forall|a: int, b: int|
            0 <= a < b < r.len() && v[#[trigger] r[a] as int].site_no == v[#[trigger] r[b] as int].site_no
                ==> !text_lt(v[r[b] as int].datetime, v[r[a] as int].datetime),
{
    assert forall|a: int, b: int| 0 <= a < b < r.len() implies !text_lt(
        v[#[trigger] r[b] as int].site_no,
        v[#[trigger] r[a] as int].site_no,
    ) by {
        assert(!site_time_lt(v[r[b] as int], v[r[a] as int]));
    }
    assert forall|a: int, b: int|
        0 <= a < b < r.len() && v[#[trigger] r[a] as int].site_no == v[#[trigger] r[b] as int].site_no implies !text_lt(
        v[r[b] as int].datetime,
        v[r[a] as int].datetime,
    ) by {
        assert(!site_time_lt(v[r[b] as int], v[r[a] as int]));
    }
}

/// Extending the prefix by row `n` keeps row `i` kept unless row `n` is a
/// strictly later revision of the same reading.
proof fn lemma_kept_extend(v: Seq<RowKeyView>, n: int, i: int)
    requires
        kept_among(v, n, i),
        n < v.len(),
        !(same_reading(v[n], v[i]) && text_lt(v[i].last_modified, v[n].last_modified)),
    ensures
        kept_among(v, n + 1, i),
{
}

/// Row `n` is kept among the first `n + 1` rows when it is a strictly later
/// revision of the reading whose kept row among the first `n` is `i`.
proof fn lemma_kept_newcomer(v: Seq<RowKeyView>, n: int, i: int)
    requires
        kept_among(v, n, i),
        n < v.len(),
        same_reading(v[n], v[i]),
        text_lt(v[i].last_modified, v[n].last_modified),
    ensures
        kept_among(v, n + 1, n),
{
    assert forall|j: int| 0 <= j < n && same_reading(#[trigger] v[j], v[n]) implies text_lt(
        v[j].last_modified,
        v[n].last_modified,
    ) by {
        if j < i {
            lemma_text_lt_transitive(v[j].last_modified, v[i].last_modified, v[n].last_modified);
        } else if j > i {
            lemma_text_lt_total(v[i].last_modified, v[j].last_modified);
            if text_lt(v[j].last_modified, v[i].last_modified) {
                lemma_text_lt_transitive(v[j].last_modified, v[i].last_modified, v[n].last_modified);
            }
        }
    }
}

/// Among the first `n` rows every reading has a kept row.
proof fn lemma_kept_exists(v: Seq<RowKeyView>, n: int, j: int)
    requires
        0 <= j < n <= v.len(),
    ensures
        exists|i: int| #[trigger] kept_among(v, n, i) && same_reading(v[i], v[j]),
    decreases n,
{
    let m = n - 1;
    if j < m {
        lemma_kept_exists(v, m, j);
        let i = choose|i: int| #[trigger] kept_among(v, m, i) && same_reading(v[i], v[j]);
        if same_reading(v[m], v[i]) && text_lt(v[i].last_modified, v[m].last_modified) {
            lemma_kept_newcomer(v, m, i);
            assert(kept_among(v, n, m) && same_reading(v[m], v[j]));
        } else {
            lemma_kept_extend(v, m, i);
            assert(kept_among(v, n, i));
        }
    } else {
        if exists|k: int| 0 <= k < m && same_reading(#[trigger] v[k], v[m]) {
            let k = choose|k: int| 0 <= k < m && same_reading(#[trigger] v[k], v[m]);
            lemma_kept_exists(v, m, k);
            let i = choose|i: int| #[trigger] kept_among(v, m, i) && same_reading(v[i], v[k]);
            if text_lt(v[i].last_modified, v[m].last_modified) {
                lemma_kept_newcomer(v, m, i);
                lemma_text_lt_irreflexive(v[m].last_modified);
                assert(kept_among(v, n, m) && same_reading(v[m], v[j]));
            } else {
                lemma_kept_extend(v, m, i);
                assert(kept_among(v, n, i));
            }
        } else {
            assert(kept_among(v, n, m));
        }
    }
}

/// Some entry of `r` is a row of `v` with the site, parameter and timestamp
/// of `x`.
pub open spec fn has_row_of_reading(v: Seq<RowKeyView>, r: Seq<usize>, x: RowKeyView) -> bool {
    exists|k: int|
        0 <= k < r.len() && #[trigger] v[r[k] as int].site_no == x.site_no && v[r[k] as int].param_cd
            == x.param_cd && v[r[k] as int].datetime == x.datetime
}

/// De-duplication keeps, for every reading (site, parameter, timestamp), one
/// row, and that row has the latest `last_modified` of the reading's rows,
/// compared bytewise; no two kept rows are the same reading. (`v` holds the
/// rows of a `Vec`, so its length fits a `usize`.)
pub proof fn dedup_keeps_one_latest_row_per_reading(v: Seq<RowKeyView>, r: Seq<usize>)
    requires
        dedup_of(v, r),
        v.len() <= usize::MAX,
    ensures
        forall|j: int| 0 <= j < v.len() ==> #[trigger] has_row_of_reading(v, r, v[j]),
        forall|k: int, j: int|
            0 <= k < r.len() && 0 <= j < v.len() && #[trigger] v[r[k] as int].site_no == #[trigger] v[j].site_no
                && v[r[k] as int].param_cd == v[j].param_cd && v[r[k] as int].datetime == v[j].datetime
                ==> !text_lt(v[r[k] as int].last_modified, v[j].last_modified),
        forall|a: int, b: int|
            0 <= a < b < r.len() ==> !(v[#[trigger] r[a] as int].site_no == v[#[trigger] r[b] as int].site_no
                && v[r[a] as int].param_cd == v[r[b] as int].param_cd && v[r[a] as int].datetime
                == v[r[b] as int].datetime),
{
    assert forall|j: int| 0 <= j < v.len() implies #[trigger] has_row_of_reading(v, r, v[j]) by {
        lemma_kept_exists(v, v.len() as int, j);
        let i = choose|i: int| #[trigger] kept_among(v, v.len() as int, i) && same_reading(v[i], v[j]);
        assert(kept(v, i));
        assert(r.contains(i as usize));
        let k = choose|k: int| 0 <= k < r.len() && r[k] == i as usize;
        assert(r[k] as int == i);
        assert(v[r[k] as int].site_no == v[j].site_no);
    }
    assert forall|k: int, j: int|
        0 <= k < r.len() && 0 <= j < v.len() && #[trigger] v[r[k] as int].site_no == #[trigger] v[j].site_no
            && v[r[k] as int].param_cd == v[j].param_cd && v[r[k] as int].datetime == v[j].datetime implies !text_lt(
        v[r[k] as int].last_modified,
        v[j].last_modified,
    ) by {
        let i = r[k] as int;
        assert(kept(v, i));
        assert(same_reading(v[j], v[i]));
        if j < i {
            assert(text_lt(v[j].last_modified, v[i].last_modified));
            if text_lt(v[i].last_modified, v[j].last_modified) {
                lemma_text_lt_transitive(v[i].last_modified, v[j].last_modified, v[i].last_modified);
                lemma_text_lt_irreflexive(v[i].last_modified);
            }
        } else if j == i {
            lemma_text_lt_irreflexive(v[i].last_modified);
        }
    }
    assert forall|a: int, b: int| 0 <= a < b < r.len() implies !(v[#[trigger] r[a] as int].site_no
        == v[#[trigger] r[b] as int].site_no && v[r[a] as int].param_cd == v[r[b] as int].param_cd
        && v[r[a] as int].datetime == v[r[b] as int].datetime) by {
        assert(kept(v, r[a] as int));
        assert(kept(v, r[b] as int));
        if r[a] < r[b] {
            lemma_kept_distinct(v, r[a] as int, r[b] as int);
        } else {
            lemma_kept_distinct(v, r[b] as int, r[a] as int);
        }
    }
}

} // verus!
