use headwater::digest::hash_bytes;
use headwater::manifest::{
    build_manifest, build_manifest_at, compute_content_hash, verify_manifest, FileEntry, Manifest,
    SourceQuery, UpstreamState,
};

fn entry(path: &str, sha256: &str, row_count: usize) -> FileEntry {
    FileEntry { path: path.to_string(), sha256: sha256.to_string(), row_count }
}

fn source(collection: &str, sites: Vec<String>, param_cd: &str, start: &str, end: &str) -> SourceQuery {
    SourceQuery {
        collection: collection.to_string(),
        sites,
        param_cd: param_cd.to_string(),
        start: start.to_string(),
        end: end.to_string(),
    }
}

fn upstream(max_last_modified: &str) -> UpstreamState {
    UpstreamState { max_last_modified: max_last_modified.to_string(), approval_status_counts: Vec::new() }
}

#[test]
fn hash_is_stable_and_order_independent() {
    let a = entry("b.parquet", "hash-b", 1);
    let b = entry("a.parquet", "hash-a", 1);

    let hash1 = compute_content_hash(&[a.clone(), b.clone()]);
    let hash2 = compute_content_hash(&[b, a]);
    assert_eq!(hash1, hash2, "file order must not affect the content hash");
}

#[test]
fn content_hash_is_sha256_of_sorted_lines() {
    let files = [entry("b.parquet", "hash-b", 1), entry("a.parquet", "hash-a", 7)];
    let expected = hash_bytes(b"a.parquet:hash-a\nb.parquet:hash-b\n");
    assert_eq!(compute_content_hash(&files), expected);
}

#[test]
fn content_hash_of_no_files_is_sha256_of_nothing() {
    assert_eq!(
        compute_content_hash(&[]),
        "e3b0c44298fc1c149afbf4c8996fb92427ae41e4649b934ca495991b7852b855"
    );
}

#[test]
fn content_hash_ignores_row_counts() {
    let h1 = compute_content_hash(&[entry("x", "1", 1)]);
    let h2 = compute_content_hash(&[entry("x", "1", 99)]);
    assert_eq!(h1, h2);
}

#[test]
fn content_hash_changes_with_a_file_hash() {
    let h1 = compute_content_hash(&[entry("x", "1", 1)]);
    let h2 = compute_content_hash(&[entry("x", "2", 1)]);
    assert_ne!(h1, h2);
}

#[test]
fn build_manifest_chains_parent_hash_to_content_hash() {
    let files = vec![entry("data.parquet", "abc", 10)];
    let source = source("daily", vec!["USGS-1".to_string()], "00060", "2024-01-01", "2024-01-31");
    let upstream = upstream("2025-01-01T00:00:00Z");

    let v1 = build_manifest(files.clone(), source.clone(), upstream.clone(), None, "test");
    assert!(v1.parent_hash.is_none());

    let v2 = build_manifest(files, source, upstream, Some(&v1), "test");
    assert_eq!(v2.parent_hash, Some(v1.content_hash));
}

#[test]
fn build_manifest_sums_rows_and_keeps_inputs() {
    let files = vec![entry("a", "1", 10), entry("b", "2", 32)];
    let m: Manifest = build_manifest_at(
        files.clone(),
        source("daily", vec![], "00060", "", ""),
        upstream(""),
        None,
        "gen/1",
        "2025-01-01T00:00:00+00:00".to_string(),
    );
    assert_eq!(m.row_count, 42);
    assert_eq!(m.generator, "gen/1");
    assert_eq!(m.created_at, "2025-01-01T00:00:00+00:00");
    assert_eq!(m.files.len(), 2);
    assert_eq!(m.content_hash, compute_content_hash(&files));
}

#[test]
fn verify_detects_corruption_and_passes_on_untouched_files() {
    let real_hash = hash_bytes(b"hello world");

    let e = entry("data.bin", &real_hash, 5);
    let manifest = build_manifest(
        vec![e],
        source("x", vec![], "x", "", ""),
        upstream(""),
        None,
        "test",
    );

    let report = verify_manifest(&manifest, &vec![hash_bytes(b"hello world")]);
    assert!(report.ok, "unmodified file should verify clean");
    assert_eq!(report.actual_hash, report.expected_hash);

    // Corrupt the file and verify again.
    let report2 = verify_manifest(&manifest, &vec![hash_bytes(b"corrupted!!")]);
    assert!(!report2.ok);
    assert_eq!(report2.mismatched_files, vec!["data.bin".to_string()]);
}

#[test]
fn a_missing_file_counts_as_mismatch() {
    let manifest = build_manifest(
        vec![entry("a", "h1", 1), entry("b", "h2", 1)],
        source("x", vec![], "x", "", ""),
        upstream(""),
        None,
        "test",
    );
    let report = verify_manifest(&manifest, &vec!["h1".to_string(), String::new()]);
    assert!(!report.ok);
    assert_eq!(report.mismatched_files, vec!["b".to_string()]);
    assert_ne!(report.actual_hash, report.expected_hash);
}

#[test]
fn sha256_hex_of_hello_world() {
    assert_eq!(
        hash_bytes(b"hello world"),
        "b94d27b9934d3e08a52e52d7da7dabfac484efe37a5380ee9088f7ace2efcde9"
    );
}

#[test]
fn content_hashes_are_64_hex_characters() {
    assert_eq!(
        compute_content_hash(&[]),
        "e3b0c44298fc1c149afbf4c8996fb92427ae41e4649b934ca495991b7852b855"
    );
    assert_eq!(hash_bytes(b"hello world").len(), 64);
    assert_eq!(compute_content_hash(&[entry("a", "x", 1)]).len(), 64);
}

#[test]
fn order_does_not_matter_when_a_path_repeats_with_its_hash() {
    let files = vec![entry("b", "2", 1), entry("a", "1", 3), entry("b", "2", 7)];
    let reordered = vec![entry("b", "2", 7), entry("b", "2", 1), entry("a", "1", 3)];
    assert_eq!(compute_content_hash(&files), compute_content_hash(&reordered));
}

#[test]
fn new_manifests_are_stamped_in_utc_rfc3339() {
    let files = vec![entry("data.parquet", "abc", 10)];
    let source = source("daily", vec!["USGS-1".to_string()], "00060", "2024-01-01", "2024-01-31");
    let m = build_manifest(files, source, upstream("x"), None, "test");
    assert!(m.created_at.ends_with("+00:00"));
    assert_eq!(&m.created_at[4..5], "-");
    assert_eq!(&m.created_at[10..11], "T");
}
