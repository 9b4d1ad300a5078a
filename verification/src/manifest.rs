//! Content-addressed, linearly-versioned dataset manifests.
//!
//! A dataset version's `content_hash` is a SHA-256 over the
//! `path:sha256\n` lines of its files, taken in path order; its
//! `parent_hash` is the previous version's `content_hash`, forming a
//! hash-linked chain. Verifying a copy means recomputing the per-file hashes
//! and comparing.
use vstd::prelude::*;
use vstd::string::*;
use vstd::utf8::*;

use crate::digest::{hash_bytes, hex_lower, sha256_of};
use crate::sort::{
    is_strict_order, lemma_insert_at, lemma_map_multiset, lemma_sort_map, lemma_sort_multiset,
    lemma_sort_sorted_by, lemma_sorted_unique, stable_sort,
};
use vstd::seq_lib::group_to_multiset_ensures;
use crate::text::{
    all_digits, append_bytes, lemma_text_lt_irreflexive, lemma_text_lt_total, lemma_text_lt_transitive, owned,
    text_less, text_lt,
};

verus! {

/// One data file of a dataset version.
#[derive(Debug, Clone)]
pub struct FileEntry {
    pub path: String,
    pub sha256: String,
    pub row_count: usize,
}

/// The query a dataset version was produced from.
#[derive(Debug, Clone)]
pub struct SourceQuery {
    pub collection: String,
    pub sites: Vec<String>,
    pub param_cd: String,
    pub start: String,
    pub end: String,
}

/// USGS's own revision state at publish time. `approval_status_counts`
/// holds one `(status, count)` pair per status, in increasing status order.
#[derive(Debug, Clone)]
pub struct UpstreamState {
    pub max_last_modified: String,
    pub approval_status_counts: Vec<(String, usize)>,
}

/// A dataset version's manifest. `created_at` is an RFC 3339 timestamp.
#[derive(Debug, Clone)]
pub struct Manifest {
    pub content_hash: String,
    pub parent_hash: Option<String>,
    pub created_at: String,
    pub generator: String,
    pub source: SourceQuery,
    pub upstream_state: UpstreamState,
    pub row_count: usize,
    pub files: Vec<FileEntry>,
}

/// Outcome of comparing recomputed file hashes with a manifest.
#[derive(Debug, Clone)]
pub struct VerifyReport {
    pub ok: bool,
    pub expected_hash: String,
    pub actual_hash: String,
    pub mismatched_files: Vec<String>,
}

/// The mathematical content of a [`FileEntry`].
pub struct EntryView {
    pub path: Seq<char>,
    pub sha256: Seq<char>,
    pub row_count: nat,
}

impl View for FileEntry {
    type V = EntryView;

    open spec fn view(&self) -> EntryView {
        EntryView { path: self.path@, sha256: self.sha256@, row_count: self.row_count as nat }
    }
}

pub open spec fn entry_views(files: Seq<FileEntry>) -> Seq<EntryView> {
    files.map_values(|e: FileEntry| e@)
}

/// Entries ordered by path, bytewise (the order of `String::cmp`).
pub open spec fn by_path() -> spec_fn(EntryView, EntryView) -> bool {
    |a: EntryView, b: EntryView| text_lt(a.path, b.path)
}

/// The `path:sha256\n` line an entry contributes to the content hash.
pub open spec fn entry_line(e: EntryView) -> Seq<u8> {
    encode_utf8(e.path) + seq![58u8] + encode_utf8(e.sha256) + seq![10u8]
}

/// The lines of `entries`, in the given order.
pub open spec fn content_message(entries: Seq<EntryView>) -> Seq<u8>
    decreases entries.len(),
{
    if entries.len() == 0 {
        Seq::<u8>::empty()
    } else {
        content_message(entries.drop_last()) + entry_line(entries.last())
    }
}

/// The content hash of a set of files: lowercase hex SHA-256 of their
/// lines, taken in path order (ties keep their given order).
pub open spec fn content_hash_of(files: Seq<EntryView>) -> Seq<char> {
    hex_lower(sha256_of(content_message(stable_sort(files, by_path()))))
}

fn copy_entry(e: &FileEntry) -> (r: FileEntry)
    ensures
        r@ == e@,
{
    FileEntry { path: e.path.clone(), sha256: e.sha256.clone(), row_count: e.row_count }
}

/// The entries of `files`, stably sorted by path.
fn sorted_by_path(files: &[FileEntry]) -> (r: Vec<FileEntry>)
    ensures
        entry_views(r@) == stable_sort(entry_views(files@), by_path()),
{
    let mut sorted: Vec<FileEntry> = Vec::new();
    let mut i: usize = 0;
    assert(entry_views(files@).take(0) =~= Seq::<EntryView>::empty());
    assert(entry_views(sorted@) =~= Seq::<EntryView>::empty());
    while i < files.len()
        invariant
            i <= files@.len(),
            entry_views(sorted@) == stable_sort(entry_views(files@).take(i as int), by_path()),
        decreases files@.len() - i,
    {
        let e = copy_entry(&files[i]);
        let ghost prev = entry_views(sorted@);
        let mut k: usize = 0;
        while k < sorted.len() && !text_less(e.path.as_str(), sorted[k].path.as_str())
            invariant
                i < files@.len(),
                k <= sorted@.len(),
                prev == entry_views(sorted@),
                e@ == files@[i as int]@,
                forall|j: int| 0 <= j < k ==> !by_path()(e@, #[trigger] prev[j]),
            decreases sorted@.len() - k,
        {
            k = k + 1;
        }
        proof {
            let ghost done = entry_views(files@).take(i as int);
            assert(entry_views(files@).take(i + 1).drop_last() =~= done);
            assert(entry_views(files@).take(i + 1).last() == e@);
            lemma_insert_at(prev, e@, by_path(), k as int);
        }
        sorted.insert(k, e);
        assert(entry_views(sorted@) =~= prev.insert(k as int, e@));
        i = i + 1;
    }
    assert(entry_views(files@).take(files@.len() as int) =~= entry_views(files@));
    sorted
}

/// A single top-level hash over a set of files: sorts them by path (so the
/// order they are listed in never matters when paths are distinct), then
/// hashes the concatenated `path:sha256\n` lines.
pub fn compute_content_hash(files: &[FileEntry]) -> (r: String)
    ensures
        r@ == content_hash_of(entry_views(files@)),
        r@.len() == 64,
{
    let sorted = sorted_by_path(files);
    let ghost views = entry_views(sorted@);
    let mut message: Vec<u8> = Vec::new();
    let mut j: usize = 0;
    assert(views.take(0) =~= Seq::<EntryView>::empty());
    while j < sorted.len()
        invariant
            j <= sorted@.len(),
            views == entry_views(sorted@),
            message@ == content_message(views.take(j as int)),
        decreases sorted@.len() - j,
    {
        let e = &sorted[j];
        assert(views.take(j + 1).drop_last() =~= views.take(j as int));
        assert(views.take(j + 1).last() == e@);
        append_bytes(&mut message, e.path.as_str().as_bytes());
        message.push(58u8);
        append_bytes(&mut message, e.sha256.as_str().as_bytes());
        message.push(10u8);
        assert(message@ =~= content_message(views.take(j as int)) + entry_line(e@));
        j = j + 1;
    }
    assert(views.take(sorted@.len() as int) =~= views);
    hash_bytes(message.as_slice())
}

/// Sum of the entries' row counts.
pub open spec fn total_rows(files: Seq<EntryView>) -> nat
    decreases files.len(),
{
    if files.len() == 0 {
        0
    } else {
        total_rows(files.drop_last()) + files.last().row_count
    }
}

/// The parent link a new version gets from its predecessor (if any).
pub open spec fn parent_link(parent: Option<&Manifest>) -> Option<Seq<char>> {
    match parent {
        Some(p) => Some(p.content_hash@),
        None => None,
    }
}

pub open spec fn opt_view(o: Option<String>) -> Option<Seq<char>> {
    match o {
        Some(s) => Some(s@),
        None => None,
    }
}

/// The year of an RFC 3339 timestamp as chrono writes it: four digits, or
/// a sign and at least four digits outside the years 0 to 9999.
pub open spec fn is_rfc3339_year(y: Seq<char>) -> bool {
    ||| y.len() == 4 && all_digits(y)
    ||| y.len() >= 5 && (y[0] == '+' || y[0] == '-') && all_digits(y.drop_first())
}

/// Two digits.
pub open spec fn is_two_digits(t: Seq<char>) -> bool {
    t.len() == 2 && all_digits(t)
}

/// Fractional seconds as chrono writes them: none, or a point and three,
/// six or nine digits.
pub open spec fn is_rfc3339_fraction(f: Seq<char>) -> bool {
    ||| f.len() == 0
    ||| (f.len() == 4 || f.len() == 7 || f.len() == 10) && f[0] == '.' && all_digits(f.drop_first())
}

/// `s` is an RFC 3339 UTC timestamp of the form
/// `<year>-MM-DDThh:mm:ss[.fraction]+00:00`, with `T` at position `k`.
pub open spec fn is_rfc3339_utc_at(s: Seq<char>, k: int) -> bool {
    &&& 10 <= k && k + 15 <= s.len()
    &&& s[k] == 'T'
    &&& is_rfc3339_year(s.take(k - 6))
    &&& s[k - 6] == '-' && is_two_digits(s.subrange(k - 5, k - 3))
    &&& s[k - 3] == '-' && is_two_digits(s.subrange(k - 2, k))
    &&& is_two_digits(s.subrange(k + 1, k + 3)) && s[k + 3] == ':'
    &&& is_two_digits(s.subrange(k + 4, k + 6)) && s[k + 6] == ':'
    &&& is_two_digits(s.subrange(k + 7, k + 9))
    &&& is_rfc3339_fraction(s.subrange(k + 9, s.len() - 6))
    &&& s.skip(s.len() - 6) == "+00:00"@
}

/// `s` is an RFC 3339 timestamp in UTC, as `DateTime<Utc>::to_rfc3339`
/// writes one.
pub open spec fn is_rfc3339_utc(s: Seq<char>) -> bool {
    exists|k: int| #[trigger] is_rfc3339_utc_at(s, k)
}

/// The current time in RFC 3339 form, read from the system clock through
/// `chrono::Utc::now` and `DateTime::to_rfc3339`. Trusted: the text has the
/// shape chrono writes for a UTC time (date, `T`, time, optional fraction,
/// `+00:00`); which time it is depends on the clock and is not stated.
#[verifier::external_body]
fn now_rfc3339() -> (r: String)
    ensures
        is_rfc3339_utc(r@),
{
    chrono::Utc::now().to_rfc3339()
}

fn sum_rows(files: &Vec<FileEntry>) -> (r: usize)
    requires
        total_rows(entry_views(files@)) <= usize::MAX,
    ensures
        r == total_rows(entry_views(files@)),
{
    let ghost views = entry_views(files@);
    let mut total: usize = 0;
    let mut i: usize = 0;
    assert(views.take(0) =~= Seq::<EntryView>::empty());
    while i < files.len()
        invariant
            i <= files@.len(),
            views == entry_views(files@),
            total_rows(views) <= usize::MAX,
            total == total_rows(views.take(i as int)),
        decreases files@.len() - i,
    {
        assert(views.take(i + 1).drop_last() =~= views.take(i as int));
        proof {
            lemma_total_rows_prefix(views, i + 1);
        }
        total = total + files[i].row_count;
        i = i + 1;
    }
    assert(views.take(files@.len() as int) =~= views);
    total
}

proof fn lemma_total_rows_prefix(files: Seq<EntryView>, n: int)
    requires
        0 <= n <= files.len(),
    ensures
        total_rows(files.take(n)) <= total_rows(files),
    decreases files.len(),
{
    if n < files.len() {
        assert(files.drop_last().take(n) =~= files.take(n));
        lemma_total_rows_prefix(files.drop_last(), n);
    } else {
        assert(files.take(n) =~= files);
    }
}

/// Assembles a manifest with a given creation time: the content hash of
/// `files`, the parent's content hash as `parent_hash`, and the total row
/// count.
pub fn build_manifest_at(
    files: Vec<FileEntry>,
    source: SourceQuery,
    upstream_state: UpstreamState,
    parent: Option<&Manifest>,
    generator: &str,
    created_at: String,
) -> (m: Manifest)
    requires
        total_rows(entry_views(files@)) <= usize::MAX,
    ensures
        m.content_hash@ == content_hash_of(entry_views(files@)),
        m.content_hash@.len() == 64,
        opt_view(m.parent_hash) == parent_link(parent),
        m.created_at == created_at,
        m.generator@ == generator@,
        m.source == source,
        m.upstream_state == upstream_state,
        m.row_count == total_rows(entry_views(files@)),
        m.files == files,
{
    let content_hash = compute_content_hash(files.as_slice());
    let row_count = sum_rows(&files);
    let parent_hash = match parent {
        Some(p) => Some(p.content_hash.clone()),
        None => None,
    };
    Manifest {
        content_hash,
        parent_hash,
        created_at,
        generator: owned(generator),
        source,
        upstream_state,
        row_count,
        files,
    }
}

/// Assembles a new manifest stamped with the current time (UTC, RFC 3339).
pub fn build_manifest(
    files: Vec<FileEntry>,
    source: SourceQuery,
    upstream_state: UpstreamState,
    parent: Option<&Manifest>,
    generator: &str,
) -> (m: Manifest)
    requires
        total_rows(entry_views(files@)) <= usize::MAX,
    ensures
        m.content_hash@ == content_hash_of(entry_views(files@)),
        m.content_hash@.len() == 64,
        opt_view(m.parent_hash) == parent_link(parent),
        is_rfc3339_utc(m.created_at@),
        m.generator@ == generator@,
        m.source == source,
        m.upstream_state == upstream_state,
        m.row_count == total_rows(entry_views(files@)),
        m.files == files,
{
    let created_at = now_rfc3339();
    build_manifest_at(files, source, upstream_state, parent, generator, created_at)
}

/// Whether a file whose recomputed hash is `actual` counts as mismatched:
/// missing (empty hash) or different from the declared one.
pub open spec fn entry_mismatch(e: EntryView, actual: Seq<char>) -> bool {
    actual.len() == 0 || actual != e.sha256
}

/// Paths of the mismatched files, in manifest order.
pub open spec fn mismatched_paths(files: Seq<EntryView>, actual: Seq<Seq<char>>) -> Seq<Seq<char>>
    decreases files.len(),
{
    if files.len() == 0 {
        Seq::<Seq<char>>::empty()
    } else {
        let rest = mismatched_paths(files.drop_last(), actual.drop_last());
        if entry_mismatch(files.last(), actual[files.len() - 1]) {
            rest.push(files.last().path)
        } else {
            rest
        }
    }
}

/// The entries with their recomputed hashes in place of the declared ones.
pub open spec fn with_hashes(files: Seq<EntryView>, actual: Seq<Seq<char>>) -> Seq<EntryView> {
    Seq::new(
        files.len(),
        |i: int| EntryView { path: files[i].path, sha256: actual[i], row_count: files[i].row_count },
    )
}

pub open spec fn string_views(v: Seq<String>) -> Seq<Seq<char>> {
    v.map_values(|s: String| s@)
}

/// Compares recomputed per-file hashes (`actual_hashes[i]` for
/// `manifest.files[i]`, empty when the file is missing) against what the
/// manifest declares, and recomputes the content hash from them.
pub fn verify_manifest(manifest: &Manifest, actual_hashes: &Vec<String>) -> (r: VerifyReport)
    requires
        actual_hashes@.len() == manifest.files@.len(),
    ensures
        string_views(r.mismatched_files@) == mismatched_paths(
            entry_views(manifest.files@),
            string_views(actual_hashes@),
        ),
        r.ok == (r.mismatched_files@.len() == 0),
        r.expected_hash@ == manifest.content_hash@,
        r.actual_hash@ == content_hash_of(
            with_hashes(entry_views(manifest.files@), string_views(actual_hashes@)),
        ),
        r.actual_hash@.len() == 64,
{
    let ghost files = entry_views(manifest.files@);
    let ghost actual = string_views(actual_hashes@);
    let mut mismatched: Vec<String> = Vec::new();
    let mut actual_files: Vec<FileEntry> = Vec::new();
    let mut i: usize = 0;
    assert(files.take(0) =~= Seq::<EntryView>::empty());
    while i < manifest.files.len()
        invariant
            i <= files.len(),
            files == entry_views(manifest.files@),
            actual == string_views(actual_hashes@),
            actual.len() == files.len(),
            string_views(mismatched@) == mismatched_paths(
                files.take(i as int),
                actual.take(i as int),
            ),
            entry_views(actual_files@) == with_hashes(files, actual).take(i as int),
        decreases files.len() - i,
    {
        let entry = &manifest.files[i];
        let actual_hash = &actual_hashes[i];
        assert(files.take(i + 1).drop_last() =~= files.take(i as int));
        assert(actual.take(i + 1).drop_last() =~= actual.take(i as int));
        assert(files.take(i + 1).last() == entry@);
        assert(actual[i as int] == actual_hash@);
        assert(files[i as int] == entry@);
        let empty = actual_hash.as_str().is_empty();
        if empty || !(*actual_hash == entry.sha256) {
            let ghost before = string_views(mismatched@);
            mismatched.push(entry.path.clone());
            assert(string_views(mismatched@) =~= before.push(entry.path@));
        }
        let ghost before_files = entry_views(actual_files@);
        let fresh = FileEntry {
            path: entry.path.clone(),
            sha256: actual_hash.clone(),
            row_count: entry.row_count,
        };
        assert(fresh@ == with_hashes(files, actual)[i as int]);
        actual_files.push(fresh);
        assert(entry_views(actual_files@) =~= before_files.push(fresh@));
        assert(with_hashes(files, actual).take(i + 1) =~= with_hashes(files, actual).take(
            i as int,
        ).push(fresh@));
        i = i + 1;
    }
    assert(files.take(files.len() as int) =~= files);
    assert(actual.take(files.len() as int) =~= actual);
    assert(with_hashes(files, actual).take(files.len() as int) =~= with_hashes(files, actual));
    let actual_hash = compute_content_hash(actual_files.as_slice());
    let ok = mismatched.len() == 0;
    VerifyReport {
        ok,
        expected_hash: manifest.content_hash.clone(),
        actual_hash,
        mismatched_files: mismatched,
    }
}

/// Entries that share a path declare the same file hash.
pub open spec fn consistent_hashes(files: Seq<EntryView>) -> bool {
    forall|i: int, j: int|
        0 <= i < files.len() && 0 <= j < files.len() && #[trigger] files[i].path == #[trigger] files[j].path
            ==> files[i].sha256 == files[j].sha256
}

/// What of an entry reaches the content hash: its path and file hash.
pub open spec fn hashed_part(e: EntryView) -> EntryView {
    EntryView { path: e.path, sha256: e.sha256, row_count: 0 }
}

pub open spec fn hashed_parts() -> spec_fn(EntryView) -> EntryView {
    |e: EntryView| hashed_part(e)
}

proof fn lemma_message_hashed_parts(s: Seq<EntryView>)
    ensures
        content_message(s) == content_message(s.map_values(hashed_parts())),
    decreases s.len(),
{
    if s.len() > 0 {
        lemma_message_hashed_parts(s.drop_last());
        assert(s.map_values(hashed_parts()).drop_last() =~= s.drop_last().map_values(hashed_parts()));
    }
}

proof fn lemma_by_path_strict_order()
    ensures
        is_strict_order(by_path()),
{
    assert forall|a: EntryView| !(#[trigger] by_path()(a, a)) by {
        lemma_text_lt_irreflexive(a.path);
    }
    assert forall|a: EntryView, b: EntryView, c: EntryView|
        #[trigger] by_path()(a, b) && #[trigger] by_path()(b, c) implies by_path()(a, c) by {
        lemma_text_lt_transitive(a.path, b.path, c.path);
    }
}

/// The content hash does not depend on the order in which files are listed:
/// any reordering hashes the same, as long as entries that share a path
/// declare the same file hash (row counts play no part).
pub proof fn content_hash_order_independent(a: Seq<EntryView>, b: Seq<EntryView>)
    requires
        a.to_multiset() == b.to_multiset(),
        consistent_hashes(a),
    ensures
        content_hash_of(a) == content_hash_of(b),
{
    broadcast use group_to_multiset_ensures;

    let f = hashed_parts();
    let lt = by_path();
    lemma_by_path_strict_order();
    assert forall|x: EntryView, y: EntryView| #[trigger] lt(f(x), f(y)) == lt(x, y) by {}
    lemma_sort_map(a, lt, f);
    lemma_sort_map(b, lt, f);
    lemma_message_hashed_parts(stable_sort(a, lt));
    lemma_message_hashed_parts(stable_sort(b, lt));
    let pa = a.map_values(f);
    let pb = b.map_values(f);
    lemma_map_multiset(a, b, f);
    let sa = stable_sort(pa, lt);
    let sb = stable_sort(pb, lt);
    lemma_sort_sorted_by(pa, lt);
    lemma_sort_sorted_by(pb, lt);
    lemma_sort_multiset(pa, lt);
    lemma_sort_multiset(pb, lt);
    assert forall|i: int, j: int| 0 <= i < sa.len() && 0 <= j < sa.len() implies #[trigger] sa[i]
        == #[trigger] sa[j] || lt(sa[i], sa[j]) || lt(sa[j], sa[i]) by {
        assert(sa.to_multiset().count(sa[i]) > 0);
        assert(sa.to_multiset().count(sa[j]) > 0);
        assert(pa.contains(sa[i]));
        assert(pa.contains(sa[j]));
        let m = choose|m: int| 0 <= m < pa.len() && pa[m] == sa[i];
        let n = choose|n: int| 0 <= n < pa.len() && pa[n] == sa[j];
        assert(pa[m] == hashed_part(a[m]));
        assert(pa[n] == hashed_part(a[n]));
        lemma_text_lt_total(sa[i].path, sa[j].path);
        if sa[i].path == sa[j].path {
            assert(a[m].path == a[n].path);
            assert(a[m].sha256 == a[n].sha256);
        }
    }
    lemma_sorted_unique(sa, sb, lt);
}

/// Files whose recomputed hashes equal the (non-empty) declared ones verify
/// clean: nothing is reported as mismatched, and the recomputed content hash
/// is the declared content hash.
pub proof fn untouched_files_verify_clean(files: Seq<EntryView>, actual: Seq<Seq<char>>)
    requires
        actual.len() == files.len(),
        forall|i: int| 0 <= i < files.len() ==> #[trigger] actual[i] == files[i].sha256,
        forall|i: int| 0 <= i < files.len() ==> (#[trigger] files[i]).sha256.len() > 0,
    ensures
        mismatched_paths(files, actual).len() == 0,
        content_hash_of(with_hashes(files, actual)) == content_hash_of(files),
    decreases files.len(),
{
    if files.len() > 0 {
        let n = files.len() - 1;
        assert(actual[n] == files[n].sha256);
        assert(files[n].sha256.len() > 0);
        untouched_files_verify_clean(files.drop_last(), actual.drop_last());
    }
    assert(with_hashes(files, actual) =~= files);
}

/// A file whose recomputed hash differs from the declared one is reported
/// by path.
pub proof fn changed_file_is_reported(files: Seq<EntryView>, actual: Seq<Seq<char>>, i: int)
    requires
        actual.len() == files.len(),
        0 <= i < files.len(),
        actual[i] != files[i].sha256,
    ensures
        mismatched_paths(files, actual).contains(files[i].path),
        mismatched_paths(files, actual).len() > 0,
    decreases files.len(),
{
    let n = files.len() - 1;
    let rest = mismatched_paths(files.drop_last(), actual.drop_last());
    if i == n {
        assert(mismatched_paths(files, actual) == rest.push(files[i].path));
        assert(mismatched_paths(files, actual)[rest.len() as int] == files[i].path);
    } else {
        assert(files.drop_last()[i] == files[i]);
        assert(actual.drop_last()[i] == actual[i]);
        changed_file_is_reported(files.drop_last(), actual.drop_last(), i);
        let j = choose|j: int| 0 <= j < rest.len() && rest[j] == files[i].path;
        if entry_mismatch(files.last(), actual[n]) {
            assert(mismatched_paths(files, actual)[j] == files[i].path);
        }
    }
}

/// The content hash is the SHA-256 of the entries' `path:sha256` lines in
/// bytewise path order: for any arrangement `s` of the same entries whose
/// paths never decrease bytewise, the content hash is the lowercase hex
/// SHA-256 of the lines of `s`, one after another. (Entries that share a
/// path must declare the same hash; otherwise their order decides.)
pub proof fn content_hash_is_of_path_ordered_lines(files: Seq<EntryView>, s: Seq<EntryView>)
    requires
        s.to_multiset() == files.to_multiset(),
        consistent_hashes(files),
        forall|i: int, j: int| 0 <= i < j < s.len() ==> !text_lt(#[trigger] s[j].path, #[trigger] s[i].path),
    ensures
        content_hash_of(files) == hex_lower(sha256_of(content_message(s))),
{
    broadcast use group_to_multiset_ensures;

    let f = hashed_parts();
    let lt = by_path();
    lemma_by_path_strict_order();
    assert forall|x: EntryView, y: EntryView| #[trigger] lt(f(x), f(y)) == lt(x, y) by {}
    let sorted = stable_sort(files, lt);
    lemma_sort_map(files, lt, f);
    lemma_message_hashed_parts(sorted);
    lemma_message_hashed_parts(s);
    lemma_sort_multiset(files, lt);
    let pf = files.map_values(f);
    let ps = s.map_values(f);
    let sa = stable_sort(pf, lt);
    lemma_sort_sorted_by(pf, lt);
    lemma_sort_multiset(pf, lt);
    lemma_map_multiset(files, s, f);
    assert forall|i: int, j: int| 0 <= i < j < ps.len() implies !lt(#[trigger] ps[j], #[trigger] ps[i]) by {
        assert(ps[i] == f(s[i]) && ps[j] == f(s[j]));
    }
    assert forall|i: int, j: int| 0 <= i < sa.len() && 0 <= j < sa.len() implies #[trigger] sa[i]
        == #[trigger] sa[j] || lt(sa[i], sa[j]) || lt(sa[j], sa[i]) by {
        assert(sa.to_multiset().count(sa[i]) > 0);
        assert(sa.to_multiset().count(sa[j]) > 0);
        assert(pf.contains(sa[i]));
        assert(pf.contains(sa[j]));
        let m = choose|m: int| 0 <= m < pf.len() && pf[m] == sa[i];
        let n = choose|n: int| 0 <= n < pf.len() && pf[n] == sa[j];
        assert(pf[m] == hashed_part(files[m]));
        assert(pf[n] == hashed_part(files[n]));
        lemma_text_lt_total(sa[i].path, sa[j].path);
        if sa[i].path == sa[j].path {
            assert(files[m].path == files[n].path);
            assert(files[m].sha256 == files[n].sha256);
        }
    }
    lemma_sorted_unique(sa, ps, lt);
}

/// A path is reported exactly when some file at that path is missing (its
/// recomputed hash is empty) or was recomputed with a different hash than
/// it declares; the other files' hashes play no part.
pub proof fn reported_exactly_the_mismatched_files(files: Seq<EntryView>, actual: Seq<Seq<char>>, p: Seq<char>)
    requires
        actual.len() == files.len(),
    ensures
        mismatched_paths(files, actual).contains(p) <==> exists|i: int|
            0 <= i < files.len() && #[trigger] files[i].path == p && (actual[i].len() == 0
                || actual[i] != files[i].sha256),
    decreases files.len(),
{
    if files.len() == 0 {
        assert(!mismatched_paths(files, actual).contains(p));
    } else {
        let n = files.len() - 1;
        let fd = files.drop_last();
        let ad = actual.drop_last();
        reported_exactly_the_mismatched_files(fd, ad, p);
        let rest = mismatched_paths(fd, ad);
        let bad = actual[n].len() == 0 || actual[n] != files[n].sha256;
        if bad {
            assert(mismatched_paths(files, actual) == rest.push(files[n].path));
        } else {
            assert(mismatched_paths(files, actual) == rest);
        }
        if mismatched_paths(files, actual).contains(p) {
            let k = choose|k: int| 0 <= k < mismatched_paths(files, actual).len() && mismatched_paths(files, actual)[k] == p;
            if k < rest.len() {
                assert(rest[k] == p);
                assert(rest.contains(p));
                let i = choose|i: int|
                    0 <= i < fd.len() && #[trigger] fd[i].path == p && (ad[i].len() == 0 || ad[i] != fd[i].sha256);
                assert(files[i] == fd[i] && actual[i] == ad[i]);
            } else {
                assert(files[n].path == p);
            }
        }
        if exists|i: int|
            0 <= i < files.len() && #[trigger] files[i].path == p && (actual[i].len() == 0 || actual[i]
                != files[i].sha256) {
            let i = choose|i: int|
                0 <= i < files.len() && #[trigger] files[i].path == p && (actual[i].len() == 0 || actual[i]
                    != files[i].sha256);
            if i < n {
                assert(fd[i] == files[i] && ad[i] == actual[i]);
                assert(rest.contains(p));
                let k = choose|k: int| 0 <= k < rest.len() && rest[k] == p;
                assert(mismatched_paths(files, actual)[k] == p);
            } else {
                assert(mismatched_paths(files, actual)[rest.len() as int] == p);
            }
        }
    }
}

/// A file recomputed with the non-empty hash it declares is never reported,
/// whatever the other files' hashes, when no other file shares its path.
pub proof fn intact_file_is_not_reported(files: Seq<EntryView>, actual: Seq<Seq<char>>, i: int)
    requires
        actual.len() == files.len(),
        0 <= i < files.len(),
        actual[i].len() > 0,
        actual[i] == files[i].sha256,
        forall|j: int| 0 <= j < files.len() && j != i ==> #[trigger] files[j].path != files[i].path,
    ensures
        !mismatched_paths(files, actual).contains(files[i].path),
{
    reported_exactly_the_mismatched_files(files, actual, files[i].path);
}

/// Two files hash as their `path:sha256` lines, newline-terminated, with
/// the bytewise smaller path first, whichever order they are listed in.
pub proof fn two_files_hash_in_path_order(p: EntryView, q: EntryView)
    requires
        text_lt(p.path, q.path),
    ensures
        content_hash_of(seq![p, q]) == hex_lower(sha256_of(
            encode_utf8(p.path) + seq![58u8] + encode_utf8(p.sha256) + seq![10u8] + encode_utf8(q.path)
                + seq![58u8] + encode_utf8(q.sha256) + seq![10u8],
        )),
        content_hash_of(seq![q, p]) == content_hash_of(seq![p, q]),
{
    lemma_text_lt_irreflexive(p.path);
    let s = seq![p, q];
    let t = seq![q, p];
    assert(t.to_multiset() =~= s.to_multiset()) by {
        broadcast use group_to_multiset_ensures;

        assert(s =~= seq![p].push(q));
        assert(t =~= seq![q].push(p));
        assert(seq![p] =~= Seq::<EntryView>::empty().push(p));
        assert(seq![q] =~= Seq::<EntryView>::empty().push(q));
    }
    assert forall|i: int, j: int| 0 <= i < s.len() && 0 <= j < s.len() && #[trigger] s[i].path
        == #[trigger] s[j].path implies s[i].sha256 == s[j].sha256 by {
        if i != j {
            assert(p.path != q.path);
        }
    }
    if text_lt(q.path, p.path) {
        lemma_text_lt_transitive(p.path, q.path, p.path);
    }
    assert forall|i: int, j: int| 0 <= i < j < s.len() implies !text_lt(#[trigger] s[j].path, #[trigger] s[i].path) by {
        assert(i == 0 && j == 1);
    }
    content_hash_is_of_path_ordered_lines(s, s);
    content_hash_is_of_path_ordered_lines(t, s);
    assert(s.drop_last() =~= seq![p]);
    assert(seq![p].drop_last() =~= Seq::<EntryView>::empty());
    assert(content_message(Seq::<EntryView>::empty()) == Seq::<u8>::empty());
    assert(seq![p].last() == p);
    assert(s.last() == q);
    assert(content_message(seq![p]) =~= Seq::<u8>::empty() + entry_line(p));
    assert(content_message(seq![p]) =~= entry_line(p));
    assert(content_message(s) =~= encode_utf8(p.path) + seq![58u8] + encode_utf8(p.sha256) + seq![10u8]
        + encode_utf8(q.path) + seq![58u8] + encode_utf8(q.sha256) + seq![10u8]);
}

/// A verification passes exactly when every file was recomputed with a
/// non-empty hash equal to the one it declares.
pub proof fn verify_passes_exactly_when_all_files_intact(files: Seq<EntryView>, actual: Seq<Seq<char>>)
    requires
        actual.len() == files.len(),
    ensures
        mismatched_paths(files, actual).len() == 0 <==> forall|i: int|
            0 <= i < files.len() ==> #[trigger] actual[i].len() > 0 && actual[i] == files[i].sha256,
{
    if mismatched_paths(files, actual).len() == 0 {
        assert forall|i: int| 0 <= i < files.len() implies #[trigger] actual[i].len() > 0 && actual[i]
            == files[i].sha256 by {
            reported_exactly_the_mismatched_files(files, actual, files[i].path);
            if !(actual[i].len() > 0 && actual[i] == files[i].sha256) {
                assert(files[i].path == files[i].path);
                assert(!mismatched_paths(files, actual).contains(files[i].path));
            }
        }
    } else {
        let p = mismatched_paths(files, actual)[0];
        assert(mismatched_paths(files, actual).contains(p));
        reported_exactly_the_mismatched_files(files, actual, p);
        let i = choose|i: int|
            0 <= i < files.len() && #[trigger] files[i].path == p && (actual[i].len() == 0 || actual[i]
                != files[i].sha256);
        assert(!(actual[i].len() > 0 && actual[i] == files[i].sha256));
    }
}

/// A new version's `parent_hash` is its predecessor's content hash, and a
/// first version has none: the chain links each version to the one before.
pub proof fn new_version_links_to_parent(parent: Option<&Manifest>, parent_hash: Option<String>)
    requires
        opt_view(parent_hash) == parent_link(parent),
    ensures
        parent matches Some(p) ==> (parent_hash matches Some(h) && h@ == p.content_hash@),
        parent is None ==> parent_hash is None,
{
}

/// The row total adds up the files' row counts: the total of two lists of
/// files put together is the sum of their totals, and one file counts its
/// own rows.
pub proof fn row_total_adds_up(a: Seq<EntryView>, b: Seq<EntryView>, e: EntryView)
    ensures
        total_rows(a + b) == total_rows(a) + total_rows(b),
        total_rows(seq![e]) == e.row_count,
        total_rows(Seq::<EntryView>::empty()) == 0,
    decreases b.len(),
{
    assert(seq![e].drop_last() =~= Seq::<EntryView>::empty());
    assert(total_rows(Seq::<EntryView>::empty()) == 0);
    assert(seq![e].last() == e);
    if b.len() == 0 {
        assert(a + b =~= a);
    } else {
        row_total_adds_up(a, b.drop_last(), e);
        assert((a + b).drop_last() =~= a + b.drop_last());
        assert((a + b).last() == b.last());
    }
}

} // verus!
