//! A stable insertion sort, stated once as a spec function, with the facts
//! about it that the library's orderings rely on.
use vstd::prelude::*;
use vstd::multiset::Multiset;
use vstd::seq_lib::*;

verus! {

broadcast use group_to_multiset_ensures;

/// Inserts `e` before the first element that is strictly greater than it,
/// so that it lands after every element it ties with.
pub open spec fn insert_sorted<T>(s: Seq<T>, e: T, lt: spec_fn(T, T) -> bool) -> Seq<T>
    decreases s.len(),
{
    if s.len() == 0 {
        seq![e]
    } else if lt(e, s[0]) {
        seq![e] + s
    } else {
        seq![s[0]] + insert_sorted(s.drop_first(), e, lt)
    }
}

/// Stable sort by `lt`: elements that tie keep their original order
/// (what `slice::sort_by` and `sort_by_key` produce).
pub open spec fn stable_sort<T>(s: Seq<T>, lt: spec_fn(T, T) -> bool) -> Seq<T>
    decreases s.len(),
{
    if s.len() == 0 {
        s
    } else {
        insert_sorted(stable_sort(s.drop_last(), lt), s.last(), lt)
    }
}

pub open spec fn is_strict_order<T>(lt: spec_fn(T, T) -> bool) -> bool {
    &&& forall|a: T| !(#[trigger] lt(a, a))
    &&& forall|a: T, b: T, c: T| #[trigger] lt(a, b) && #[trigger] lt(b, c) ==> lt(a, c)
}

/// The insertion point is the first position whose element is greater.
pub proof fn lemma_insert_at<T>(s: Seq<T>, e: T, lt: spec_fn(T, T) -> bool, k: int)
    requires
        0 <= k <= s.len(),
        forall|j: int| 0 <= j < k ==> !lt(e, #[trigger] s[j]),
        k == s.len() || lt(e, s[k]),
    ensures
        insert_sorted(s, e, lt) == s.insert(k, e),
    decreases k,
{
    if s.len() == 0 {
        assert(s.insert(k, e) =~= seq![e]);
    } else if k == 0 {
        assert(s.insert(k, e) =~= seq![e] + s);
    } else {
        assert(!lt(e, s[0]));
        let t = s.drop_first();
        assert forall|j: int| 0 <= j < k - 1 implies !lt(e, #[trigger] t[j]) by {
            assert(t[j] == s[j + 1]);
        }
        lemma_insert_at(t, e, lt, k - 1);
        assert(seq![s[0]] + t.insert(k - 1, e) =~= s.insert(k, e));
    }
}

pub proof fn lemma_insert_multiset<T>(s: Seq<T>, e: T, lt: spec_fn(T, T) -> bool)
    ensures
        insert_sorted(s, e, lt).to_multiset() == s.to_multiset().insert(e),
    decreases s.len(),
{
    if s.len() == 0 {
        assert(seq![e] =~= s.push(e));
    } else if lt(e, s[0]) {
        lemma_multiset_commutative(seq![e], s);
        assert(seq![e] =~= Seq::<T>::empty().push(e));
        assert(Seq::<T>::empty().to_multiset() =~= Multiset::empty());
    } else {
        let t = s.drop_first();
        lemma_insert_multiset(t, e, lt);
        lemma_multiset_commutative(seq![s[0]], insert_sorted(t, e, lt));
        lemma_multiset_commutative(seq![s[0]], t);
        assert(seq![s[0]] + t =~= s);
    }
}

pub proof fn lemma_sort_multiset<T>(s: Seq<T>, lt: spec_fn(T, T) -> bool)
    ensures
        stable_sort(s, lt).to_multiset() == s.to_multiset(),
    decreases s.len(),
{
    if s.len() > 0 {
        lemma_sort_multiset(s.drop_last(), lt);
        lemma_insert_multiset(stable_sort(s.drop_last(), lt), s.last(), lt);
        assert(s.drop_last().push(s.last()) =~= s);
    }
}

pub proof fn lemma_sort_len<T>(s: Seq<T>, lt: spec_fn(T, T) -> bool)
    ensures
        stable_sort(s, lt).len() == s.len(),
{
    lemma_sort_multiset(s, lt);
    assert(stable_sort(s, lt).to_multiset().len() == stable_sort(s, lt).len());
    assert(s.to_multiset().len() == s.len());
}

/// No element is strictly below an earlier one.
pub open spec fn sorted_by<T>(s: Seq<T>, lt: spec_fn(T, T) -> bool) -> bool {
    forall|i: int, j: int| 0 <= i < j < s.len() ==> !lt(#[trigger] s[j], #[trigger] s[i])
}

proof fn lemma_insert_sorted_by<T>(s: Seq<T>, e: T, lt: spec_fn(T, T) -> bool)
    requires
        is_strict_order(lt),
        sorted_by(s, lt),
    ensures
        sorted_by(insert_sorted(s, e, lt), lt),
    decreases s.len(),
{
    if s.len() == 0 {
    } else if lt(e, s[0]) {
        let r = seq![e] + s;
        assert forall|i: int, j: int| 0 <= i < j < r.len() implies !lt(#[trigger] r[j], #[trigger] r[i]) by {
            if i == 0 {
                assert(r[j] == s[j - 1]);
                if j > 1 {
                    assert(!lt(s[j - 1], s[0]));
                }
            } else {
                assert(r[i] == s[i - 1] && r[j] == s[j - 1]);
            }
        }
    } else {
        let t = s.drop_first();
        assert forall|i: int, j: int| 0 <= i < j < t.len() implies !lt(#[trigger] t[j], #[trigger] t[i]) by {
            assert(t[i] == s[i + 1] && t[j] == s[j + 1]);
        }
        lemma_insert_sorted_by(t, e, lt);
        let rest = insert_sorted(t, e, lt);
        lemma_insert_multiset(t, e, lt);
        let r = seq![s[0]] + rest;
        assert forall|i: int, j: int| 0 <= i < j < r.len() implies !lt(#[trigger] r[j], #[trigger] r[i]) by {
            if i == 0 {
                let x = rest[j - 1];
                assert(rest.to_multiset().count(x) > 0);
                assert(t.to_multiset().insert(e).count(x) > 0);
                if x != e {
                    assert(t.to_multiset().count(x) > 0);
                    assert(t.contains(x));
                    let m = choose|m: int| 0 <= m < t.len() && t[m] == x;
                    assert(s[m + 1] == x);
                }
            } else {
                assert(r[i] == rest[i - 1] && r[j] == rest[j - 1]);
            }
        }
    }
}

/// A stable sort by a strict order leaves no element below an earlier one.
pub proof fn lemma_sort_sorted_by<T>(s: Seq<T>, lt: spec_fn(T, T) -> bool)
    requires
        is_strict_order(lt),
    ensures
        sorted_by(stable_sort(s, lt), lt),
    decreases s.len(),
{
    if s.len() > 0 {
        lemma_sort_sorted_by(s.drop_last(), lt);
        lemma_insert_sorted_by(stable_sort(s.drop_last(), lt), s.last(), lt);
    }
}

/// Any two elements are equal or comparable: elements that tie under `lt`
/// are the same value.
pub open spec fn comparable_or_equal<T>(s: Seq<T>, lt: spec_fn(T, T) -> bool) -> bool {
    forall|i: int, j: int|
        0 <= i < s.len() && 0 <= j < s.len() ==> #[trigger] s[i] == #[trigger] s[j] || lt(s[i], s[j])
            || lt(s[j], s[i])
}

/// Two sorted sequences with the same elements are equal when no two
/// different elements tie.
pub proof fn lemma_sorted_unique<T>(a: Seq<T>, b: Seq<T>, lt: spec_fn(T, T) -> bool)
    requires
        is_strict_order(lt),
        sorted_by(a, lt),
        sorted_by(b, lt),
        comparable_or_equal(a, lt),
        a.to_multiset() == b.to_multiset(),
    ensures
        a == b,
    decreases a.len(),
{
    assert(a.to_multiset().len() == a.len());
    assert(b.to_multiset().len() == b.len());
    if a.len() == 0 {
        assert(b.len() == 0);
        assert(a =~= b);
    } else {
        assert(b.len() == a.len());
        assert(a.to_multiset().count(a[0]) > 0);
        assert(b.contains(a[0]));
        let k = choose|k: int| 0 <= k < b.len() && b[k] == a[0];
        assert(b.to_multiset().count(b[0]) > 0);
        assert(a.contains(b[0]));
        let m = choose|m: int| 0 <= m < a.len() && a[m] == b[0];
        if k > 0 {
            assert(!lt(b[k], b[0]));
        }
        if m > 0 {
            assert(!lt(a[m], a[0]));
        }
        assert(a[0] == a[m] || lt(a[0], a[m]) || lt(a[m], a[0]));
        assert(a[0] == b[0]);
        assert(a.remove(0) =~= a.drop_first());
        assert(b.remove(0) =~= b.drop_first());
        let ad = a.drop_first();
        let bd = b.drop_first();
        assert forall|i: int, j: int| 0 <= i < j < ad.len() implies !lt(#[trigger] ad[j], #[trigger] ad[i]) by {
            assert(ad[i] == a[i + 1] && ad[j] == a[j + 1]);
        }
        assert forall|i: int, j: int| 0 <= i < j < bd.len() implies !lt(#[trigger] bd[j], #[trigger] bd[i]) by {
            assert(bd[i] == b[i + 1] && bd[j] == b[j + 1]);
        }
        assert forall|i: int, j: int| 0 <= i < ad.len() && 0 <= j < ad.len() implies #[trigger] ad[i]
            == #[trigger] ad[j] || lt(ad[i], ad[j]) || lt(ad[j], ad[i]) by {
            assert(ad[i] == a[i + 1] && ad[j] == a[j + 1]);
        }
        lemma_sorted_unique(ad, bd, lt);
        assert forall|i: int| 0 <= i < a.len() implies a[i] == b[i] by {
            if i > 0 {
                assert(a[i] == ad[i - 1] && b[i] == bd[i - 1]);
            }
        }
        assert(a =~= b);
    }
}

/// `f` does not change how elements compare.
pub open spec fn preserves_order<T>(f: spec_fn(T) -> T, lt: spec_fn(T, T) -> bool) -> bool {
    forall|x: T, y: T| #[trigger] lt(f(x), f(y)) == lt(x, y)
}

proof fn lemma_insert_map<T>(s: Seq<T>, e: T, lt: spec_fn(T, T) -> bool, f: spec_fn(T) -> T)
    requires
        preserves_order(f, lt),
    ensures
        insert_sorted(s.map_values(f), f(e), lt) == insert_sorted(s, e, lt).map_values(f),
    decreases s.len(),
{
    let fs = s.map_values(f);
    if s.len() == 0 {
        assert(seq![f(e)] =~= seq![e].map_values(f));
    } else {
        assert(fs[0] == f(s[0]));
        assert(lt(f(e), f(s[0])) == lt(e, s[0]));
        if lt(e, s[0]) {
            assert(seq![f(e)] + fs =~= (seq![e] + s).map_values(f));
        } else {
            lemma_insert_map(s.drop_first(), e, lt, f);
            assert(fs.drop_first() =~= s.drop_first().map_values(f));
            assert(seq![fs[0]] + insert_sorted(fs.drop_first(), f(e), lt) =~= (seq![s[0]]
                + insert_sorted(s.drop_first(), e, lt)).map_values(f));
        }
    }
}

/// Sorting commutes with a map that does not change how elements compare.
pub proof fn lemma_sort_map<T>(s: Seq<T>, lt: spec_fn(T, T) -> bool, f: spec_fn(T) -> T)
    requires
        preserves_order(f, lt),
    ensures
        stable_sort(s.map_values(f), lt) == stable_sort(s, lt).map_values(f),
    decreases s.len(),
{
    let fs = s.map_values(f);
    if s.len() == 0 {
        assert(fs =~= stable_sort(s, lt).map_values(f));
    } else {
        lemma_sort_map(s.drop_last(), lt, f);
        assert(fs.drop_last() =~= s.drop_last().map_values(f));
        assert(fs.last() == f(s.last()));
        lemma_insert_map(stable_sort(s.drop_last(), lt), s.last(), lt, f);
    }
}

/// Mapping two sequences with the same elements gives sequences with the
/// same elements.
pub proof fn lemma_map_multiset<T>(a: Seq<T>, b: Seq<T>, f: spec_fn(T) -> T)
    requires
        a.to_multiset() == b.to_multiset(),
    ensures
        a.map_values(f).to_multiset() == b.map_values(f).to_multiset(),
    decreases a.len(),
{
    assert(a.to_multiset().len() == a.len());
    assert(b.to_multiset().len() == b.len());
    if a.len() == 0 {
        assert(a.map_values(f) =~= b.map_values(f));
    } else {
        let x = a.last();
        let ad = a.drop_last();
        assert(ad.push(x) =~= a);
        assert(a.to_multiset().count(x) > 0);
        assert(b.contains(x));
        let k = choose|k: int| 0 <= k < b.len() && b[k] == x;
        let bd = b.remove(k);
        assert(bd.to_multiset() == b.to_multiset().remove(x));
        assert(ad.to_multiset() == a.to_multiset().remove(x));
        lemma_map_multiset(ad, bd, f);
        let fa = a.map_values(f);
        let fb = b.map_values(f);
        assert(ad.map_values(f).push(f(x)) =~= fa);
        assert(fb.remove(k) =~= bd.map_values(f));
        assert(fb[k] == f(x));
        assert(fb.remove(k).to_multiset() == fb.to_multiset().remove(f(x)));
        assert(fb.to_multiset().count(f(x)) > 0);
        assert(fa.to_multiset() =~= fb.to_multiset());
    }
}

} // verus!
