//! Publishing dataset versions: version directories `v<n>-<hash8>`, the
//! provenance recorded for a version, and what the viewer shows of them.
use vstd::prelude::*;
use vstd::string::*;
use vstd::utf8::encode_utf8;

use crate::manifest::{Manifest, SourceQuery, UpstreamState};
use crate::sort::{is_strict_order, lemma_insert_at, lemma_sort_sorted_by, stable_sort};
use crate::text::{
    byte_cut_ok, byte_prefix, byte_prefix_of, decimal, decimal_text, first_chars, join_text,
    join_with, lemma_encode_concat, lemma_text_lt_irreflexive, lemma_text_lt_total, lemma_text_lt_transitive, owned,
    parse_usize, parsed_usize, take_chars, text_equal, text_less, text_lt,
};
use crate::types::{FilterState, ManifestSummary, VerifyReport};
use crate::usgs::{trim_text, trimmed};

verus! {

pub open spec fn string_views(v: Seq<String>) -> Seq<Seq<char>> {
    v.map_values(|s: String| s@)
}

/// Why a publish request is refused.
#[derive(Debug, PartialEq, Eq, Structural)]
pub enum PublishError {
    NameRequired,
    NoRows,
}

impl PublishError {
    /// The message shown for this refusal.
    pub fn message(&self) -> (r: String)
        ensures
            *self == PublishError::NameRequired ==> r@ == "dataset name is required"@,
            *self == PublishError::NoRows ==> r@ == "no rows matched this filter; nothing to publish"@,
    {
        match self {
            PublishError::NameRequired => owned("dataset name is required"),
            PublishError::NoRows => owned("no rows matched this filter; nothing to publish"),
        }
    }
}

/// Checks a publish request: the dataset name, trimmed, must not be empty,
/// and the filter must have matched some rows. Returns the trimmed name.
pub fn check_publish(dataset_name: &str, row_count: usize) -> (r: Result<String, PublishError>)
    ensures
        trimmed(dataset_name@).len() == 0 ==> r == Err::<String, PublishError>(PublishError::NameRequired),
        trimmed(dataset_name@).len() > 0 && row_count == 0 ==> r == Err::<String, PublishError>(PublishError::NoRows),
        trimmed(dataset_name@).len() > 0 && row_count > 0 ==> (r matches Ok(n) && n@ == trimmed(dataset_name@)),
{
    let name = trim_text(dataset_name);
    if name.is_empty() {
        return Err(PublishError::NameRequired);
    }
    if row_count == 0 {
        return Err(PublishError::NoRows);
    }
    Ok(owned(name))
}

/// The text of `t` before the first `c` (all of it if there is none).
pub open spec fn before_first(t: Seq<char>, c: char) -> Seq<char>
    decreases t.len(),
{
    if t.len() == 0 {
        t
    } else if t[0] == c {
        Seq::<char>::empty()
    } else {
        seq![t[0]] + before_first(t.drop_first(), c)
    }
}

proof fn lemma_before_first(t: Seq<char>, c: char, k: int)
    requires
        0 <= k < t.len(),
        t[k] == c,
        forall|j: int| 0 <= j < k ==> #[trigger] t[j] != c,
    ensures
        before_first(t, c) == t.take(k),
    decreases k,
{
    if k == 0 {
        assert(t.take(0) =~= Seq::<char>::empty());
    } else {
        let d = t.drop_first();
        assert forall|j: int| 0 <= j < k - 1 implies #[trigger] d[j] != c by {
            assert(d[j] == t[j + 1]);
        }
        lemma_before_first(d, c, k - 1);
        assert(seq![t[0]] + d.take(k - 1) =~= t.take(k));
    }
}

/// The dataset whose versions are listed for the name typed in the publish
/// panel: the trimmed name, or none for a blank name (which lists no
/// versions).
pub fn versions_dataset(name: &str) -> (r: Option<String>)
    ensures
        trimmed(name@).len() == 0 <==> r is None,
        r matches Some(n) ==> n@ == trimmed(name@),
{
    let t = trim_text(name);
    if t.is_empty() {
        None
    } else {
        Some(owned(t))
    }
}

/// A character of the lowercase hexadecimal `content_hash` prefix.
pub open spec fn is_hash_char(c: char) -> bool {
    ('0' <= c && c <= '9') || ('a' <= c && c <= 'f')
}

/// `t` is the eight-character `content_hash` prefix of a version directory.
pub open spec fn is_hash8(t: Seq<char>) -> bool {
    t.len() == 8 && forall|i: int| 0 <= i < 8 ==> is_hash_char(#[trigger] t[i])
}

/// The version number of a version directory `v<n>-<hash8>`: `n` must parse
/// as a number and the part after the first `-` must be eight lowercase hex
/// digits (so a `v<n>-pending` directory left by a failed publish is not a
/// version).
pub open spec fn version_number(name: Seq<char>) -> Option<nat> {
    let rest = name.drop_first();
    let n_part = before_first(rest, '-');
    if name.len() > 0 && name[0] == 'v' && rest.contains('-') && is_hash8(rest.skip(n_part.len() + 1int)) {
        parsed_usize(n_part)
    } else {
        None
    }
}

fn is_hash_char_exec(c: char) -> (r: bool)
    ensures
        r == is_hash_char(c),
{
    ('0' <= c && c <= '9') || ('a' <= c && c <= 'f')
}

/// Parses the version number out of a `v<n>-<hash8>` directory name; any
/// other name gives `None`.
pub fn parse_version_number(dir_name: &str) -> (r: Option<usize>)
    ensures
        match version_number(dir_name@) {
            Some(n) => r == Some(n as usize),
            None => r is None,
        },
{
    let n = dir_name.unicode_len();
    if n == 0 || dir_name.get_char(0) != 'v' {
        return None;
    }
    let ghost rest = dir_name@.drop_first();
    let mut k: usize = 1;
    while k < n && dir_name.get_char(k) != '-'
        invariant
            n == dir_name@.len(),
            1 <= k <= n,
            rest == dir_name@.drop_first(),
            forall|j: int| 0 <= j < k - 1 ==> #[trigger] rest[j] != '-',
        decreases n - k,
    {
        assert(rest[k - 1] == dir_name@[k as int]);
        k = k + 1;
    }
    if k == n {
        proof {
            if rest.contains('-') {
                let j = choose|j: int| 0 <= j < rest.len() && rest[j] == '-';
                assert(rest[j] != '-');
            }
        }
        return None;
    }
    proof {
        assert(rest[k - 1] == '-');
        assert(rest.contains('-'));
        lemma_before_first(rest, '-', k - 1);
    }
    let ghost hash = rest.skip(k as int);
    assert(before_first(rest, '-').len() + 1 == k);
    if n - (k + 1) != 8 {
        assert(hash.len() != 8);
        return None;
    }
    let mut h: usize = k + 1;
    while h < n
        invariant
            n == dir_name@.len(),
            k + 1 <= h <= n,
            n - (k + 1) == 8,
            hash == rest.skip(k as int),
            rest == dir_name@.drop_first(),
            before_first(rest, '-').len() + 1 == k,
            forall|j: int| 0 <= j < h - (k + 1) ==> is_hash_char(#[trigger] hash[j]),
        decreases n - h,
    {
        assert(hash[h - (k + 1)] == dir_name@[h as int]);
        if !is_hash_char_exec(dir_name.get_char(h)) {
            assert(!is_hash_char(hash[h - (k + 1)]));
            assert(!is_hash8(hash));
            assert(rest.skip(before_first(rest, '-').len() + 1int) == hash);
            return None;
        }
        h = h + 1;
    }
    assert(is_hash8(hash));
    let digits = dir_name.substring_char(1, k);
    assert(digits@ =~= rest.take(k - 1));
    parse_usize(digits)
}

/// Versions listed by `(number, position)`, each directory name that parses
/// as a version in listing order.
pub open spec fn numbered_versions(names: Seq<Seq<char>>) -> Seq<(usize, usize)>
    decreases names.len(),
{
    if names.len() == 0 {
        Seq::<(usize, usize)>::empty()
    } else {
        let rest = numbered_versions(names.drop_last());
        match version_number(names.last()) {
            Some(n) => rest.push((n as usize, (names.len() - 1) as usize)),
            None => rest,
        }
    }
}

pub open spec fn by_version() -> spec_fn((usize, usize), (usize, usize)) -> bool {
    |a: (usize, usize), b: (usize, usize)| a.0 < b.0
}

/// The version directories among `names` as `(number, position in names)`,
/// oldest first (stably: equal numbers keep their listing order). Oldest to
/// newest is also parent-to-child order of the `parent_hash` chain.
pub fn order_versions(names: &Vec<String>) -> (r: Vec<(usize, usize)>)
    ensures
        r@ == stable_sort(numbered_versions(string_views(names@)), by_version()),
        forall|a: int, b: int| 0 <= a < b < r@.len() ==> (#[trigger] r@[a]).0 <= (#[trigger] r@[b]).0,
{
    let ghost views = string_views(names@);
    let mut sorted: Vec<(usize, usize)> = Vec::new();
    let mut i: usize = 0;
    assert(views.take(0) =~= Seq::<Seq<char>>::empty());
    while i < names.len()
        invariant
            i <= names@.len(),
            views == string_views(names@),
            sorted@ == stable_sort(numbered_versions(views.take(i as int)), by_version()),
        decreases names@.len() - i,
    {
        assert(views.take(i + 1).drop_last() =~= views.take(i as int));
        assert(views.take(i + 1).last() == names@[i as int]@);
        let ghost next = numbered_versions(views.take(i + 1));
        match parse_version_number(names[i].as_str()) {
            Some(n) => {
                assert(next.drop_last() =~= numbered_versions(views.take(i as int)));
                assert(next.last() == (n, i));
                let e = (n, i);
                let ghost prev = sorted@;
                let mut k: usize = 0;
                while k < sorted.len() && !(n < sorted[k].0)
                    invariant
                        k <= sorted@.len(),
                        prev == sorted@,
                        e == (n, i),
                        forall|j: int| 0 <= j < k ==> !by_version()(e, #[trigger] prev[j]),
                    decreases sorted@.len() - k,
                {
                    k = k + 1;
                }
                proof {
                    lemma_insert_at(prev, e, by_version(), k as int);
                }
                sorted.insert(k, e);
            },
            None => {
                assert(next =~= numbered_versions(views.take(i as int)));
            },
        }
        i = i + 1;
    }
    assert(views.take(names@.len() as int) =~= views);
    proof {
        assert(is_strict_order(by_version()));
        lemma_sort_sorted_by(numbered_versions(views), by_version());
        assert forall|a: int, b: int| 0 <= a < b < sorted@.len() implies (#[trigger] sorted@[a]).0 <= (#[trigger] sorted@[b]).0 by {
            assert(!by_version()(sorted@[b], sorted@[a]));
        }
    }
    sorted
}

/// The number of the next version: one past the newest, or 1 for the first.
pub fn next_version(versions: &Vec<(usize, usize)>) -> (r: usize)
    requires
        versions@.len() > 0 ==> versions@.last().0 < usize::MAX,
    ensures
        versions@.len() == 0 ==> r == 1,
        versions@.len() > 0 ==> r == versions@.last().0 + 1,
{
    if versions.len() == 0 {
        1
    } else {
        versions[versions.len() - 1].0 + 1
    }
}

/// Name of the directory a version is written to before its hash is known.
pub fn pending_dir_name(version: usize) -> (r: String)
    ensures
        r@ == "v"@ + decimal(version as nat) + "-pending"@,
{
    let mut r = owned("v");
    let n = decimal_text(version);
    r.append(n.as_str());
    r.append("-pending");
    r
}

/// Final name of a version's directory: `v<n>-` and the first 8 bytes of
/// its data file's hash.
pub fn version_dir_name(version: usize, file_hash: &str) -> (r: String)
    requires
        byte_cut_ok(file_hash@, 8),
    ensures
        encode_utf8(r@) == encode_utf8("v"@ + decimal(version as nat) + "-"@) + byte_prefix(file_hash@, 8),
{
    let mut r = owned("v");
    let n = decimal_text(version);
    r.append(n.as_str());
    r.append("-");
    let prefix = byte_prefix_of(file_hash, 8);
    let ghost head = r@;
    r.append(prefix);
    proof {
        lemma_encode_concat(head, prefix@);
    }
    r
}

/// `values` has no text twice and is in increasing order.
pub open spec fn increasing(values: Seq<Seq<char>>) -> bool {
    forall|a: int, b: int| 0 <= a < b < values.len() ==> text_lt(#[trigger] values[a], #[trigger] values[b])
}

proof fn lemma_insert_increasing(s: Seq<Seq<char>>, k: int, x: Seq<char>)
    requires
        increasing(s),
        0 <= k <= s.len(),
        forall|j: int| 0 <= j < k ==> text_lt(#[trigger] s[j], x),
        k < s.len() ==> text_lt(x, s[k]),
    ensures
        increasing(s.insert(k, x)),
{
    let t = s.insert(k, x);
    assert forall|a: int, b: int| 0 <= a < b < t.len() implies text_lt(#[trigger] t[a], #[trigger] t[b]) by {
        if b < k {
            assert(t[a] == s[a] && t[b] == s[b]);
        } else if a > k {
            assert(t[a] == s[a - 1] && t[b] == s[b - 1]);
        } else if a == k {
            assert(t[b] == s[b - 1]);
            if b - 1 > k {
                lemma_text_lt_transitive(x, s[k], s[b - 1]);
            }
        } else if b == k {
            assert(t[a] == s[a]);
        } else {
            assert(t[a] == s[a] && t[b] == s[b - 1]);
        }
    }
}

/// The distinct texts of `values`, in increasing order (a sorted set).
pub fn distinct_sorted(values: &Vec<String>) -> (r: Vec<String>)
    ensures
        increasing(string_views(r@)),
        forall|x: Seq<char>| string_views(r@).contains(x) <==> string_views(values@).contains(x),
{
    let ghost vv = string_views(values@);
    let mut r: Vec<String> = Vec::new();
    let mut i: usize = 0;
    while i < values.len()
        invariant
            i <= values@.len(),
            vv == string_views(values@),
            increasing(string_views(r@)),
            forall|x: Seq<char>| string_views(r@).contains(x) <==> vv.take(i as int).contains(x),
        decreases values@.len() - i,
    {
        let v = &values[i];
        let ghost rv = string_views(r@);
        let mut k: usize = 0;
        while k < r.len() && text_less(r[k].as_str(), v.as_str())
            invariant
                k <= r@.len(),
                rv == string_views(r@),
                forall|j: int| 0 <= j < k ==> text_lt(#[trigger] rv[j], v@),
            decreases r@.len() - k,
        {
            k = k + 1;
        }
        proof {
            assert(vv.take(i + 1) =~= vv.take(i as int).push(v@));
        }
        if k < r.len() && text_equal(r[k].as_str(), v.as_str()) {
            proof {
                assert forall|x: Seq<char>| rv.contains(x) <==> vv.take(i + 1).contains(x) by {
                    if x == v@ {
                        assert(rv[k as int] == x);
                    }
                    if vv.take(i + 1).contains(x) && x != v@ {
                        let j = choose|j: int| 0 <= j < i + 1 && #[trigger] vv.take(i + 1)[j] == x;
                        assert(vv.take(i as int)[j] == x);
                    }
                }
            }
        } else {
            proof {
                if k < rv.len() {
                    lemma_text_lt_total(rv[k as int], v@);
                }
                lemma_insert_increasing(rv, k as int, v@);
            }
            r.insert(k, v.clone());
            proof {
                assert(string_views(r@) =~= rv.insert(k as int, v@));
                assert forall|x: Seq<char>| string_views(r@).contains(x) <==> vv.take(i + 1).contains(x) by {
                    let nr = string_views(r@);
                    assert(vv.take(i + 1)[i as int] == v@);
                    if nr.contains(x) {
                        let j = choose|j: int| 0 <= j < nr.len() && nr[j] == x;
                        if j < k {
                            assert(rv[j] == x);
                            assert(rv.contains(x));
                            let q = choose|q: int| 0 <= q < i && #[trigger] vv.take(i as int)[q] == x;
                            assert(vv.take(i + 1)[q] == x);
                        } else if j > k {
                            assert(rv[j - 1] == x);
                            assert(rv.contains(x));
                            let q = choose|q: int| 0 <= q < i && #[trigger] vv.take(i as int)[q] == x;
                            assert(vv.take(i + 1)[q] == x);
                        } else {
                            assert(x == v@);
                        }
                    }
                    if vv.take(i + 1).contains(x) {
                        if x == v@ {
                            assert(nr[k as int] == x);
                        } else {
                            let j = choose|j: int| 0 <= j < i + 1 && #[trigger] vv.take(i + 1)[j] == x;
                            assert(vv.take(i as int)[j] == x);
                            assert(rv.contains(x));
                            let q = choose|q: int| 0 <= q < rv.len() && rv[q] == x;
                            if q < k {
                                assert(nr[q] == x);
                            } else {
                                assert(nr[q + 1] == x);
                            }
                        }
                    }
                }
            }
        }
        i = i + 1;
    }
    assert(vv.take(values@.len() as int) =~= vv);
    r
}

/// How many times `x` occurs in `s`.
pub open spec fn occurrences(s: Seq<Seq<char>>, x: Seq<char>) -> nat
    decreases s.len(),
{
    if s.len() == 0 {
        0
    } else {
        occurrences(s.drop_last(), x) + if s.last() == x {
            1nat
        } else {
            0nat
        }
    }
}

proof fn lemma_occurrences_bound(s: Seq<Seq<char>>, x: Seq<char>)
    ensures
        occurrences(s, x) <= s.len(),
        occurrences(s, x) > 0 <==> s.contains(x),
    decreases s.len(),
{
    if s.len() > 0 {
        lemma_occurrences_bound(s.drop_last(), x);
        if s.drop_last().contains(x) {
            let j = choose|j: int| 0 <= j < s.drop_last().len() && s.drop_last()[j] == x;
            assert(s[j] == x);
        }
        if s.contains(x) && s.last() != x {
            let j = choose|j: int| 0 <= j < s.len() && s[j] == x;
            assert(s.drop_last()[j] == x);
        }
    }
}

pub open spec fn count_keys(v: Seq<(String, usize)>) -> Seq<Seq<char>> {
    v.map_values(|p: (String, usize)| p.0@)
}

/// Per distinct text of `statuses`, in increasing order, how many times it
/// occurs.
pub fn approval_counts(statuses: &Vec<String>) -> (r: Vec<(String, usize)>)
    ensures
        increasing(count_keys(r@)),
        forall|x: Seq<char>| count_keys(r@).contains(x) <==> string_views(statuses@).contains(x),
        forall|j: int| 0 <= j < r@.len() ==> #[trigger] r@[j].1 == occurrences(string_views(statuses@), r@[j].0@),
{
    let ghost vv = string_views(statuses@);
    let mut r: Vec<(String, usize)> = Vec::new();
    let mut i: usize = 0;
    while i < statuses.len()
        invariant
            i <= statuses@.len(),
            vv == string_views(statuses@),
            increasing(count_keys(r@)),
            forall|x: Seq<char>| count_keys(r@).contains(x) <==> vv.take(i as int).contains(x),
            forall|j: int| 0 <= j < r@.len() ==> #[trigger] r@[j].1 == occurrences(vv.take(i as int), r@[j].0@),
        decreases statuses@.len() - i,
    {
        let v = &statuses[i];
        let ghost keys = count_keys(r@);
        let ghost old_r = r@;
        let ghost pre = vv.take(i as int);
        let ghost post = vv.take(i + 1);
        proof {
            assert(post.drop_last() =~= pre);
            assert(post.last() == v@);
            assert(post =~= pre.push(v@));
        }
        let mut k: usize = 0;
        while k < r.len() && text_less(r[k].0.as_str(), v.as_str())
            invariant
                k <= r@.len(),
                keys == count_keys(r@),
                forall|j: int| 0 <= j < k ==> text_lt(#[trigger] keys[j], v@),
            decreases r@.len() - k,
        {
            k = k + 1;
        }
        if k < r.len() && text_equal(r[k].0.as_str(), v.as_str()) {
            let (key, c) = r.remove(k);
            proof {
                lemma_occurrences_bound(pre, v@);
                assert(c == occurrences(pre, v@));
            }
            r.insert(k, (key, c + 1));
            proof {
                assert(r@ =~= old_r.update(k as int, (key, (c + 1) as usize)));
                assert(count_keys(r@) =~= keys);
                assert forall|x: Seq<char>| count_keys(r@).contains(x) <==> post.contains(x) by {
                    if x == v@ {
                        assert(keys[k as int] == x);
                    }
                    if post.contains(x) && x != v@ {
                        let j = choose|j: int| 0 <= j < post.len() && post[j] == x;
                        assert(pre[j] == x);
                    }
                }
                assert forall|j: int| 0 <= j < r@.len() implies #[trigger] r@[j].1 == occurrences(post, r@[j].0@) by {
                    if j != k {
                        assert(r@[j] == old_r[j]);
                        assert(text_lt(keys[j], keys[k as int]) || text_lt(keys[k as int], keys[j]));
                        lemma_text_lt_irreflexive(keys[j]);
                    }
                }
            }
        } else {
            proof {
                if k < keys.len() {
                    lemma_text_lt_total(keys[k as int], v@);
                }
                lemma_insert_increasing(keys, k as int, v@);
                assert(!pre.contains(v@)) by {
                    if pre.contains(v@) {
                        assert(keys.contains(v@));
                        let q = choose|q: int| 0 <= q < keys.len() && keys[q] == v@;
                        if q < k {
                            lemma_text_lt_irreflexive(v@);
                        } else if q > k {
                            lemma_text_lt_total(keys[k as int], v@);
                            assert(text_lt(keys[k as int], keys[q]));
                            lemma_text_lt_transitive(v@, keys[k as int], keys[q]);
                            lemma_text_lt_irreflexive(v@);
                        }
                    }
                }
                lemma_occurrences_bound(pre, v@);
            }
            r.insert(k, (v.clone(), 1));
            proof {
                assert(count_keys(r@) =~= keys.insert(k as int, v@));
                assert forall|x: Seq<char>| count_keys(r@).contains(x) <==> post.contains(x) by {
                    let nk = count_keys(r@);
                    assert(post[i as int] == v@);
                    if nk.contains(x) {
                        let j = choose|j: int| 0 <= j < nk.len() && nk[j] == x;
                        if j < k {
                            assert(keys[j] == x);
                            assert(keys.contains(x));
                            let q = choose|q: int| 0 <= q < pre.len() && #[trigger] pre[q] == x;
                            assert(post[q] == x);
                        } else if j > k {
                            assert(keys[j - 1] == x);
                            assert(keys.contains(x));
                            let q = choose|q: int| 0 <= q < pre.len() && #[trigger] pre[q] == x;
                            assert(post[q] == x);
                        } else {
                            assert(x == v@);
                        }
                    }
                    if post.contains(x) {
                        if x == v@ {
                            assert(nk[k as int] == x);
                        } else {
                            let j = choose|j: int| 0 <= j < post.len() && post[j] == x;
                            assert(pre[j] == x);
                            assert(keys.contains(x));
                            let q = choose|q: int| 0 <= q < keys.len() && keys[q] == x;
                            if q < k {
                                assert(nk[q] == x);
                            } else {
                                assert(nk[q + 1] == x);
                            }
                        }
                    }
                }
                assert forall|j: int| 0 <= j < r@.len() implies #[trigger] r@[j].1 == occurrences(post, r@[j].0@) by {
                    if j < k {
                        assert(r@[j] == old_r[j]);
                        lemma_text_lt_irreflexive(v@);
                        assert(keys[j] != v@);
                    } else if j > k {
                        assert(r@[j] == old_r[j - 1]);
                        if keys[j - 1] == v@ {
                            assert(keys.contains(v@));
                        }
                    }
                }
            }
        }
        i = i + 1;
    }
    assert(vv.take(statuses@.len() as int) =~= vv);
    r
}

/// What a published version's provenance records of its source: the
/// distinct services (joined with commas) and sites actually present in the
/// published rows, the filter's parameter code, and its date bounds (empty
/// when open).
pub fn publication_source(filter: &FilterState, sites: &Vec<String>, services: &Vec<String>) -> (r: SourceQuery)
    ensures
        ({
            let ds = distinct_sorted_of(string_views(services@));
            r.collection@ == join_with(ds, ","@)
        }),
        increasing(string_views(r.sites@)),
        forall|x: Seq<char>| string_views(r.sites@).contains(x) <==> string_views(sites@).contains(x),
        r.param_cd@ == filter.param_cd@,
        r.start@ == opt_text(filter.start),
        r.end@ == opt_text(filter.end),
{
    let distinct_services = distinct_sorted(services);
    proof {
        lemma_distinct_sorted_unique(string_views(distinct_services@), string_views(services@));
    }
    let collection = join_text(&distinct_services, ",");
    let distinct_sites = distinct_sorted(sites);
    SourceQuery {
        collection,
        sites: distinct_sites,
        param_cd: filter.param_cd.clone(),
        start: text_or_default(&filter.start),
        end: text_or_default(&filter.end),
    }
}

pub open spec fn opt_text(o: Option<String>) -> Seq<char> {
    match o {
        Some(s) => s@,
        None => Seq::<char>::empty(),
    }
}

fn text_or_default(o: &Option<String>) -> (r: String)
    ensures
        r@ == opt_text(*o),
{
    match o {
        Some(s) => s.clone(),
        None => String::new(),
    }
}

/// The increasing sequence of the distinct texts of `s`.
pub open spec fn distinct_sorted_of(s: Seq<Seq<char>>) -> Seq<Seq<char>> {
    choose|d: Seq<Seq<char>>| increasing(d) && forall|x: Seq<char>| d.contains(x) <==> s.contains(x)
}

/// There is exactly one increasing sequence of the distinct texts of `s`.
proof fn lemma_distinct_sorted_unique(d: Seq<Seq<char>>, s: Seq<Seq<char>>)
    requires
        increasing(d),
        forall|x: Seq<char>| d.contains(x) <==> s.contains(x),
    ensures
        d == distinct_sorted_of(s),
{
    let e = distinct_sorted_of(s);
    assert(increasing(e) && forall|x: Seq<char>| e.contains(x) <==> s.contains(x));
    lemma_increasing_same_elements(d, e);
}

proof fn lemma_increasing_same_elements(a: Seq<Seq<char>>, b: Seq<Seq<char>>)
    requires
        increasing(a),
        increasing(b),
        forall|x: Seq<char>| a.contains(x) <==> b.contains(x),
    ensures
        a == b,
    decreases a.len() + b.len(),
{
    if a.len() == 0 {
        if b.len() > 0 {
            assert(b.contains(b[0]));
        }
        assert(a =~= b);
    } else if b.len() == 0 {
        assert(a.contains(a[0]));
    } else {
        assert(a.contains(a[0]));
        let k = choose|k: int| 0 <= k < b.len() && b[k] == a[0];
        assert(b.contains(b[0]));
        let m = choose|m: int| 0 <= m < a.len() && a[m] == b[0];
        if k > 0 && m > 0 {
            assert(text_lt(b[0], b[k]));
            assert(text_lt(a[0], a[m]));
            lemma_text_lt_transitive(a[0], b[0], a[0]);
            lemma_text_lt_irreflexive(a[0]);
        }
        assert(a[0] == b[0]);
        let ad = a.drop_first();
        let bd = b.drop_first();
        assert forall|x: Seq<char>| ad.contains(x) <==> bd.contains(x) by {
            if ad.contains(x) {
                let j = choose|j: int| 0 <= j < ad.len() && ad[j] == x;
                assert(a[j + 1] == x);
                assert(text_lt(a[0], x));
                lemma_text_lt_irreflexive(x);
                assert(b.contains(x));
                let q = choose|q: int| 0 <= q < b.len() && b[q] == x;
                assert(q != 0);
                assert(bd[q - 1] == x);
            }
            if bd.contains(x) {
                let j = choose|j: int| 0 <= j < bd.len() && bd[j] == x;
                assert(b[j + 1] == x);
                assert(text_lt(b[0], x));
                lemma_text_lt_irreflexive(x);
                assert(a.contains(x));
                let q = choose|q: int| 0 <= q < a.len() && a[q] == x;
                assert(q != 0);
                assert(ad[q - 1] == x);
            }
        }
        assert forall|p: int, q: int| 0 <= p < q < ad.len() implies text_lt(#[trigger] ad[p], #[trigger] ad[q]) by {
            assert(ad[p] == a[p + 1] && ad[q] == a[q + 1]);
        }
        assert forall|p: int, q: int| 0 <= p < q < bd.len() implies text_lt(#[trigger] bd[p], #[trigger] bd[q]) by {
            assert(bd[p] == b[p + 1] && bd[q] == b[q + 1]);
        }
        lemma_increasing_same_elements(ad, bd);
        assert(a =~= b) by {
            assert forall|i: int| 0 <= i < a.len() implies a[i] == b[i] by {
                if i > 0 {
                    assert(a[i] == ad[i - 1] && b[i] == bd[i - 1]);
                }
            }
        }
    }
}

/// USGS's revision state at publish time: the latest `last_modified` of the
/// published rows (empty when there are none) and how many rows carry each
/// approval status.
pub fn publication_upstream(statuses: &Vec<String>, last_modified: &Vec<String>) -> (r: UpstreamState)
    ensures
        last_modified@.len() == 0 ==> r.max_last_modified@.len() == 0,
        last_modified@.len() > 0 ==> (exists|i: int| 0 <= i < last_modified@.len() && r.max_last_modified@ == #[trigger] last_modified@[i]@)
            && forall|j: int| 0 <= j < last_modified@.len() ==> !text_lt(r.max_last_modified@, #[trigger] last_modified@[j]@),
        increasing(count_keys(r.approval_status_counts@)),
        forall|x: Seq<char>| count_keys(r.approval_status_counts@).contains(x) <==> string_views(statuses@).contains(x),
        forall|j: int| 0 <= j < r.approval_status_counts@.len() ==> #[trigger] r.approval_status_counts@[j].1 == occurrences(string_views(statuses@), r.approval_status_counts@[j].0@),
{
    let latest = crate::lake::latest_text(last_modified);
    let max_last_modified = match latest {
        Some(m) => m,
        None => String::new(),
    };
    UpstreamState { max_last_modified, approval_status_counts: approval_counts(statuses) }
}

fn clone_strings(v: &Vec<String>) -> (r: Vec<String>)
    ensures
        r@ == v@,
{
    let mut r: Vec<String> = Vec::new();
    let mut i: usize = 0;
    while i < v.len()
        invariant
            i <= v@.len(),
            r@ == v@.take(i as int),
        decreases v@.len() - i,
    {
        r.push(v[i].clone());
        assert(r@ =~= v@.take(i + 1));
        i = i + 1;
    }
    assert(v@.take(v@.len() as int) =~= v@);
    r
}

fn clone_counts(v: &Vec<(String, usize)>) -> (r: Vec<(String, usize)>)
    ensures
        r@ == v@,
{
    let mut r: Vec<(String, usize)> = Vec::new();
    let mut i: usize = 0;
    while i < v.len()
        invariant
            i <= v@.len(),
            r@ == v@.take(i as int),
        decreases v@.len() - i,
    {
        let (k, c) = &v[i];
        r.push((k.clone(), *c));
        assert(r@ =~= v@.take(i + 1));
        i = i + 1;
    }
    assert(v@.take(v@.len() as int) =~= v@);
    r
}

fn clone_opt(o: &Option<String>) -> (r: Option<String>)
    ensures
        r == *o,
{
    match o {
        Some(s) => Some(s.clone()),
        None => None,
    }
}

/// The history-list entry of a version: its directory name and its
/// manifest's provenance.
pub fn to_summary(dir_name: String, m: &Manifest) -> (r: ManifestSummary)
    ensures
        r.dir_name == dir_name,
        r.content_hash == m.content_hash,
        r.parent_hash == m.parent_hash,
        r.created_at == m.created_at,
        r.row_count == m.row_count,
        r.sites@ == m.source.sites@,
        r.param_cd == m.source.param_cd,
        r.start == m.source.start,
        r.end == m.source.end,
        r.max_last_modified == m.upstream_state.max_last_modified,
        r.approval_status_counts@ == m.upstream_state.approval_status_counts@,
{
    ManifestSummary {
        dir_name,
        content_hash: m.content_hash.clone(),
        parent_hash: clone_opt(&m.parent_hash),
        created_at: m.created_at.clone(),
        row_count: m.row_count,
        sites: clone_strings(&m.source.sites),
        param_cd: m.source.param_cd.clone(),
        start: m.source.start.clone(),
        end: m.source.end.clone(),
        max_last_modified: m.upstream_state.max_last_modified.clone(),
        approval_status_counts: clone_counts(&m.upstream_state.approval_status_counts),
    }
}

/// The viewer's form of a verification report.
pub fn view_report(report: crate::manifest::VerifyReport) -> (r: VerifyReport)
    ensures
        r.ok == report.ok,
        r.expected_hash == report.expected_hash,
        r.actual_hash == report.actual_hash,
        r.mismatched_files == report.mismatched_files,
{
    VerifyReport {
        ok: report.ok,
        expected_hash: report.expected_hash,
        actual_hash: report.actual_hash,
        mismatched_files: report.mismatched_files,
    }
}

/// The first 12 characters of a hash, for display.
pub fn short_hash(hash: &str) -> (r: String)
    ensures
        r@ == take_chars(hash@, 12),
{
    first_chars(hash, 12)
}

/// How the history list shows a version's parent.
pub fn parent_label(parent_hash: &Option<String>) -> (r: String)
    ensures
        match parent_hash {
            Some(h) => r@ == take_chars(h@, 12),
            None => r@ == "(none -- first version)"@,
        },
{
    match parent_hash {
        Some(h) => short_hash(h.as_str()),
        None => owned("(none -- first version)"),
    }
}

/// The line shown after verifying a version.
pub fn verify_outcome_message(report: &VerifyReport) -> (r: String)
    ensures
        report.ok ==> r@ == "OK -- hash "@ + take_chars(report.actual_hash@, 12) + " matches"@,
        !report.ok ==> r@ == "MISMATCH -- expected "@ + take_chars(report.expected_hash@, 12) + " got "@
            + take_chars(report.actual_hash@, 12) + " (files: "@ + join_with(
            string_views(report.mismatched_files@),
            ", "@,
        ) + ")"@,
{
    if report.ok {
        let mut r = owned("OK -- hash ");
        let h = short_hash(report.actual_hash.as_str());
        r.append(h.as_str());
        r.append(" matches");
        r
    } else {
        let mut r = owned("MISMATCH -- expected ");
        let e = short_hash(report.expected_hash.as_str());
        r.append(e.as_str());
        r.append(" got ");
        let a = short_hash(report.actual_hash.as_str());
        r.append(a.as_str());
        r.append(" (files: ");
        let files = join_text(&report.mismatched_files, ", ");
        r.append(files.as_str());
        r.append(")");
        r
    }
}

/// The status line after a successful publish.
pub open spec fn published_text(summary: ManifestSummary) -> Seq<char> {
    "published "@ + summary.dir_name@ + " as "@ + decimal(summary.row_count as nat)
        + " rows, content_hash "@ + take_chars(summary.content_hash@, 12)
}

/// The status line after a successful publish.
pub fn publish_status_message(summary: &ManifestSummary) -> (r: String)
    ensures
        r@ == published_text(*summary),
{
    let mut r = owned("published ");
    r.append(summary.dir_name.as_str());
    r.append(" as ");
    let n = decimal_text(summary.row_count);
    r.append(n.as_str());
    r.append(" rows, content_hash ");
    let h = short_hash(summary.content_hash.as_str());
    r.append(h.as_str());
    r
}

/// The publish panel after a publish attempt: its status line, and the
/// counter whose change reloads the version list. A success reports the new
/// version and reloads the list; a failure reports the error and leaves the
/// list as it is.
pub fn publish_outcome(outcome: &Result<ManifestSummary, String>, refresh_tick: u32) -> (r: (String, u32))
    requires
        outcome is Ok ==> refresh_tick < u32::MAX,
    ensures
        match outcome {
            Ok(summary) => r.0@ == published_text(*summary) && r.1 == refresh_tick + 1,
            Err(e) => r.0@ == "publish failed: "@ + e@ && r.1 == refresh_tick,
        },
{
    match outcome {
        Ok(summary) => (publish_status_message(summary), refresh_tick + 1),
        Err(e) => {
            let mut m = owned("publish failed: ");
            m.append(e.as_str());
            (m, refresh_tick)
        },
    }
}

/// Selects `site` if it is not selected, and deselects its first
/// occurrence otherwise.
pub fn toggle_site(sites: &mut Vec<String>, site: String)
    ensures
        match first_position(string_views(old(sites)@), site@) {
            Some(p) => final(sites)@ == old(sites)@.remove(p),
            None => final(sites)@ == old(sites)@.push(site),
        },
{
    let mut p: usize = 0;
    while p < sites.len() && !text_equal(sites[p].as_str(), site.as_str())
        invariant
            p <= sites@.len(),
            sites@ == old(sites)@,
            forall|j: int| 0 <= j < p ==> #[trigger] sites@[j]@ != site@,
        decreases sites@.len() - p,
    {
        p = p + 1;
    }
    proof {
        lemma_first_position(string_views(sites@), site@, p as int);
    }
    if p < sites.len() {
        sites.remove(p);
    } else {
        sites.push(site);
    }
}

/// Index of the first occurrence of `x` in `s`.
pub open spec fn first_position(s: Seq<Seq<char>>, x: Seq<char>) -> Option<int>
    decreases s.len(),
{
    if s.len() == 0 {
        None
    } else if s[0] == x {
        Some(0)
    } else {
        match first_position(s.drop_first(), x) {
            Some(p) => Some(p + 1),
            None => None,
        }
    }
}

proof fn lemma_first_position(s: Seq<Seq<char>>, x: Seq<char>, p: int)
    requires
        0 <= p <= s.len(),
        forall|j: int| 0 <= j < p ==> #[trigger] s[j] != x,
        p < s.len() ==> s[p] == x,
    ensures
        first_position(s, x) == if p < s.len() {
            Some(p)
        } else {
            None::<int>
        },
    decreases p,
{
    if s.len() > 0 && p > 0 {
        let d = s.drop_first();
        assert forall|j: int| 0 <= j < p - 1 implies #[trigger] d[j] != x by {
            assert(d[j] == s[j + 1]);
        }
        lemma_first_position(d, x, p - 1);
    }
}

/// The filter the panel applies: its selected sites and parameter code,
/// with an empty start or end date meaning no bound.
pub fn applied_filter(sites: Vec<String>, param_cd: String, start: String, end: String) -> (r: FilterState)
    ensures
        r.sites == sites,
        r.param_cd == param_cd,
        start@.len() == 0 ==> r.start is None,
        start@.len() > 0 ==> r.start == Some(start),
        end@.len() == 0 ==> r.end is None,
        end@.len() > 0 ==> r.end == Some(end),
{
    let s = if start.as_str().is_empty() {
        None
    } else {
        Some(start)
    };
    let e = if end.as_str().is_empty() {
        None
    } else {
        Some(end)
    };
    FilterState { sites, param_cd, start: s, end: e }
}

/// A reading passes the filter: its parameter code matches, its site is
/// selected (or none is), and its timestamp lies within the non-empty
/// bounds (bytewise, inclusive).
pub open spec fn filter_accepts(f: FilterState, site_no: Seq<char>, param_cd: Seq<char>, datetime: Seq<char>) -> bool {
    &&& param_cd == f.param_cd@
    &&& f.sites@.len() == 0 || string_views(f.sites@).contains(site_no)
    &&& match f.start {
        Some(s) => s@.len() == 0 || !text_lt(datetime, s@),
        None => true,
    }
    &&& match f.end {
        Some(e) => e@.len() == 0 || !text_lt(e@, datetime),
        None => true,
    }
}

/// Whether a reading passes the filter.
pub fn filter_matches(f: &FilterState, site_no: &str, param_cd: &str, datetime: &str) -> (r: bool)
    ensures
        r == filter_accepts(*f, site_no@, param_cd@, datetime@),
{
    if !text_equal(param_cd, f.param_cd.as_str()) {
        return false;
    }
    if f.sites.len() > 0 {
        let mut k: usize = 0;
        while k < f.sites.len() && !text_equal(f.sites[k].as_str(), site_no)
            invariant
                k <= f.sites@.len(),
                forall|j: int| 0 <= j < k ==> #[trigger] f.sites@[j]@ != site_no@,
            decreases f.sites@.len() - k,
        {
            k = k + 1;
        }
        if k == f.sites.len() {
            proof {
                if string_views(f.sites@).contains(site_no@) {
                    let j = choose|j: int| 0 <= j < f.sites@.len() && string_views(f.sites@)[j] == site_no@;
                    assert(f.sites@[j]@ != site_no@);
                }
            }
            return false;
        }
        assert(string_views(f.sites@)[k as int] == site_no@);
    }
    match &f.start {
        Some(s) => {
            if !s.as_str().is_empty() && text_less(datetime, s.as_str()) {
                return false;
            }
        },
        None => {},
    }
    match &f.end {
        Some(e) => {
            if !e.as_str().is_empty() && text_less(e.as_str(), datetime) {
                return false;
            }
        },
        None => {},
    }
    true
}

/// Toggling a site that is not selected and then toggling it again
/// restores the selection.
pub proof fn toggle_twice_restores(sites: Seq<String>, site: String)
    requires
        !string_views(sites).contains(site@),
    ensures
        first_position(string_views(sites), site@) is None,
        first_position(string_views(sites.push(site)), site@) == Some(sites.len() as int),
        sites.push(site).remove(sites.len() as int) == sites,
{
    let v = string_views(sites);
    let w = string_views(sites.push(site));
    assert forall|j: int| 0 <= j < v.len() implies #[trigger] v[j] != site@ by {
        if v[j] == site@ {
            assert(v.contains(site@));
        }
    }
    lemma_first_position(v, site@, v.len() as int);
    assert forall|j: int| 0 <= j < sites.len() implies #[trigger] w[j] != site@ by {
        assert(w[j] == v[j]);
    }
    lemma_first_position(w, site@, sites.len() as int);
    assert(sites.push(site).remove(sites.len() as int) =~= sites);
}

/// Which readings the filter passes: those of its parameter code, of a
/// selected site (every site when none is selected), dated on or after the
/// start and on or before the end, comparing whole texts bytewise. Both
/// bounds are inclusive, and a missing or empty bound leaves that side open.
pub proof fn filter_selects_inclusive_window(f: FilterState, site: Seq<char>, param: Seq<char>, datetime: Seq<char>)
    ensures
        param != f.param_cd@ ==> !filter_accepts(f, site, param, datetime),
        f.sites@.len() > 0 && !string_views(f.sites@).contains(site) ==> !filter_accepts(
            f,
            site,
            param,
            datetime,
        ),
        param == f.param_cd@ && (f.sites@.len() == 0 || string_views(f.sites@).contains(site)) ==> (
        filter_accepts(f, site, param, datetime) <==> (
            (f.start matches Some(s) ==> (s@.len() > 0 ==> !text_lt(datetime, s@)))
            && (f.end matches Some(e) ==> (e@.len() > 0 ==> !text_lt(e@, datetime)))
        )),
{
}

/// A reading dated exactly at a bound passes: at the start when there is
/// no end, at the end when there is no start, and at either when both
/// bounds are the same date.
pub proof fn reading_at_a_bound_passes(f: FilterState, site: Seq<char>, param: Seq<char>)
    requires
        param == f.param_cd@,
        f.sites@.len() == 0 || string_views(f.sites@).contains(site),
    ensures
        f.start matches Some(s) ==> (f.end is None ==> filter_accepts(f, site, param, s@)),
        f.end matches Some(e) ==> (f.start is None ==> filter_accepts(f, site, param, e@)),
        f.start matches Some(s) ==> (f.end matches Some(e) ==> (s@ == e@ ==> filter_accepts(f, site, param, s@))),
{
    if let Some(s) = f.start {
        lemma_text_lt_irreflexive(s@);
    }
    if let Some(e) = f.end {
        lemma_text_lt_irreflexive(e@);
    }
}

} // verus!
