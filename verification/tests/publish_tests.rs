use headwater::manifest::{build_manifest_at, verify_manifest, FileEntry, SourceQuery, UpstreamState};
use headwater::publish::{
    applied_filter, approval_counts, check_publish, distinct_sorted, filter_matches, next_version,
    order_versions, parent_label, parse_version_number, pending_dir_name, publication_source,
    publication_upstream, publish_outcome, publish_status_message, short_hash, to_summary, toggle_site,
    verify_outcome_message, version_dir_name, versions_dataset, view_report, PublishError,
};
use headwater::types::{FilterState, VerifyReport};

fn strings(v: &[&str]) -> Vec<String> {
    v.iter().map(|s| s.to_string()).collect()
}

#[test]
fn publish_needs_a_name_and_rows() {
    assert_eq!(check_publish("  ", 5), Err(PublishError::NameRequired));
    assert_eq!(check_publish("maumee", 0), Err(PublishError::NoRows));
    assert_eq!(check_publish(" maumee ", 5), Ok("maumee".to_string()));
    assert_eq!(PublishError::NameRequired.message(), "dataset name is required");
    assert_eq!(PublishError::NoRows.message(), "no rows matched this filter; nothing to publish");
}

#[test]
fn version_numbers_parse_from_directory_names() {
    assert_eq!(parse_version_number("v12-abcdef01"), Some(12));
    assert_eq!(parse_version_number("v3-pending"), None);
    assert_eq!(parse_version_number("v+4-0a1b2c3d"), Some(4));
    assert_eq!(parse_version_number("v4-0A1B2C3D"), None);
    assert_eq!(parse_version_number("v4-0a1b2c3"), None);
    assert_eq!(parse_version_number("v4-0a1b2c3d4"), None);
    assert_eq!(parse_version_number("v-x"), None);
    assert_eq!(parse_version_number("v12"), None);
    assert_eq!(parse_version_number("x12-ab"), None);
    assert_eq!(parse_version_number("v1a-ab"), None);
    assert_eq!(parse_version_number("v99999999999999999999999-abcdef01"), None);
    assert_eq!(parse_version_number(""), None);
}

#[test]
fn versions_are_ordered_oldest_first() {
    let names = strings(&["v10-aaaaaaaa", "notes", "v2-bbbbbbbb", "v2-cccccccc", "v1-dddddddd"]);
    assert_eq!(order_versions(&names), vec![(1, 4), (2, 2), (2, 3), (10, 0)]);
    assert_eq!(next_version(&order_versions(&names)), 11);
    assert_eq!(next_version(&Vec::new()), 1);
}

#[test]
fn pending_directories_are_not_versions() {
    let names = strings(&["v1-abcd1234", "v2-pending", "notes.txt"]);
    assert_eq!(order_versions(&names), vec![(1, 0)]);
    assert_eq!(next_version(&order_versions(&names)), 2);
}

#[test]
fn version_directory_names() {
    assert_eq!(pending_dir_name(3), "v3-pending");
    assert_eq!(version_dir_name(3, "0123456789abcdef"), "v3-01234567");
    assert_eq!(version_dir_name(1, "abc"), "v1-abc");
}

#[test]
fn distinct_sites_are_sorted() {
    assert_eq!(distinct_sorted(&strings(&["b", "a", "b", "c", "a"])), strings(&["a", "b", "c"]));
    assert!(distinct_sorted(&Vec::new()).is_empty());
}

#[test]
fn approval_statuses_are_counted() {
    let counts = approval_counts(&strings(&["Provisional", "Approved", "Provisional"]));
    assert_eq!(counts, vec![("Approved".to_string(), 1), ("Provisional".to_string(), 2)]);
}

#[test]
fn provenance_reflects_the_published_rows() {
    let filter = FilterState {
        sites: vec![],
        param_cd: "00060".to_string(),
        start: Some("2024-01-01".to_string()),
        end: None,
    };
    let source = publication_source(
        &filter,
        &strings(&["USGS-2", "USGS-1", "USGS-2"]),
        &strings(&["daily", "continuous", "daily"]),
    );
    assert_eq!(source.collection, "continuous,daily");
    assert_eq!(source.sites, strings(&["USGS-1", "USGS-2"]));
    assert_eq!(source.param_cd, "00060");
    assert_eq!(source.start, "2024-01-01");
    assert_eq!(source.end, "");

    let up = publication_upstream(
        &strings(&["Approved", "Approved"]),
        &strings(&["2025-01-01", "2025-06-01", "2025-03-01"]),
    );
    assert_eq!(up.max_last_modified, "2025-06-01");
    assert_eq!(up.approval_status_counts, vec![("Approved".to_string(), 2)]);
    assert_eq!(publication_upstream(&Vec::new(), &Vec::new()).max_last_modified, "");
}

#[test]
fn summaries_and_messages() {
    let m = build_manifest_at(
        vec![FileEntry { path: "data.parquet".to_string(), sha256: "abc".to_string(), row_count: 3 }],
        SourceQuery {
            collection: "daily".to_string(),
            sites: strings(&["USGS-1"]),
            param_cd: "00060".to_string(),
            start: "a".to_string(),
            end: "b".to_string(),
        },
        UpstreamState { max_last_modified: "z".to_string(), approval_status_counts: vec![] },
        None,
        "streamview/0.1.0",
        "2025-01-01T00:00:00+00:00".to_string(),
    );
    let s = to_summary("v1-abcdef01".to_string(), &m);
    assert_eq!(s.dir_name, "v1-abcdef01");
    assert_eq!(s.row_count, 3);
    assert_eq!(s.sites, strings(&["USGS-1"]));
    assert_eq!(s.content_hash, m.content_hash);
    let msg = publish_status_message(&s);
    assert_eq!(msg, format!("published v1-abcdef01 as 3 rows, content_hash {}", &m.content_hash[..12]));
    let (status, tick) = publish_outcome(&Ok(s.clone()), 4);
    assert_eq!(status, msg);
    assert_eq!(tick, 5);

    let report = view_report(verify_manifest(&m, &vec!["abc".to_string()]));
    assert!(report.ok);
    assert_eq!(
        verify_outcome_message(&report),
        format!("OK -- hash {} matches", &m.content_hash[..12])
    );
}

#[test]
fn mismatch_message_lists_files() {
    let report = VerifyReport {
        ok: false,
        expected_hash: "0123456789abcdefXX".to_string(),
        actual_hash: "fedcba9876543210YY".to_string(),
        mismatched_files: strings(&["a", "b"]),
    };
    assert_eq!(
        verify_outcome_message(&report),
        "MISMATCH -- expected 0123456789ab got fedcba987654 (files: a, b)"
    );
}

#[test]
fn short_hashes_and_parent_labels() {
    assert_eq!(short_hash("0123456789abcdef"), "0123456789ab");
    assert_eq!(short_hash("abc"), "abc");
    assert_eq!(parent_label(&None), "(none -- first version)");
    assert_eq!(parent_label(&Some("0123456789abcdef".to_string())), "0123456789ab");
}

#[test]
fn toggling_a_site_adds_or_removes_it() {
    let mut sites = strings(&["a", "b"]);
    toggle_site(&mut sites, "c".to_string());
    assert_eq!(sites, strings(&["a", "b", "c"]));
    toggle_site(&mut sites, "a".to_string());
    assert_eq!(sites, strings(&["b", "c"]));
}

#[test]
fn applied_filter_treats_empty_dates_as_open() {
    let f = applied_filter(strings(&["a"]), "00060".to_string(), String::new(), "2024-12-31".to_string());
    assert_eq!(f.start, None);
    assert_eq!(f.end, Some("2024-12-31".to_string()));
    let d = FilterState::default();
    assert!(d.sites.is_empty());
    assert_eq!(d.param_cd, "00060");
}

#[test]
fn filter_selects_parameter_sites_and_dates() {
    let f = FilterState {
        sites: strings(&["USGS-1"]),
        param_cd: "00060".to_string(),
        start: Some("2024-01-01".to_string()),
        end: Some("2024-01-31".to_string()),
    };
    assert!(filter_matches(&f, "USGS-1", "00060", "2024-01-15"));
    assert!(filter_matches(&f, "USGS-1", "00060", "2024-01-01"));
    assert!(!filter_matches(&f, "USGS-2", "00060", "2024-01-15"));
    assert!(!filter_matches(&f, "USGS-1", "00065", "2024-01-15"));
    assert!(!filter_matches(&f, "USGS-1", "00060", "2024-02-01"));
    let open = FilterState { sites: vec![], param_cd: "00060".to_string(), start: Some(String::new()), end: None };
    assert!(filter_matches(&open, "any", "00060", "1900-01-01"));
}

#[test]
fn toggling_an_unselected_site_twice_restores_the_selection() {
    let mut sites = strings(&["a", "b"]);
    toggle_site(&mut sites, "c".to_string());
    toggle_site(&mut sites, "c".to_string());
    assert_eq!(sites, strings(&["a", "b"]));
}

#[test]
fn publish_outcomes_set_the_status_and_reload_on_success() {
    let (status, tick) = publish_outcome(&Err("disk full".to_string()), 4);
    assert_eq!(status, "publish failed: disk full");
    assert_eq!(tick, 4);
}

#[test]
fn white_space_only_names_are_refused() {
    assert_eq!(check_publish("\u{a0}\t\u{3000}", 5), Err(PublishError::NameRequired));
}

#[test]
fn blank_names_list_no_versions() {
    assert_eq!(versions_dataset(" \t "), None);
    assert_eq!(versions_dataset(""), None);
    assert_eq!(versions_dataset(" maumee "), Some("maumee".to_string()));
}
