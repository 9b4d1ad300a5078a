use headwater::usgs::{
    collection_items_url, collection_query, continuous_ranges, daily_range, day_ranges,
    group_site_metadata, metadata_query, next_page_link, normalize_site_id, normalize_sites,
    qualifier_as_string, require_readings, series_line, site_location, DateRangeError, Link, MetadataError,
    MetadataRow, QualifierValue, TimeSeriesInfo,
};

#[test]
fn site_ids_get_the_usgs_prefix() {
    assert_eq!(normalize_site_id("01646500"), "USGS-01646500");
    assert_eq!(normalize_site_id("  03339000 "), "USGS-03339000");
    assert_eq!(normalize_site_id("USGS-01646500"), "USGS-01646500");
    assert_eq!(normalize_site_id("AZ014-123"), "AZ014-123");
}

#[test]
fn site_lists_are_normalized_entry_by_entry() {
    assert_eq!(normalize_sites("01646500, 03339000"), "USGS-01646500,USGS-03339000");
    assert_eq!(normalize_sites("USGS-1"), "USGS-1");
    assert_eq!(normalize_sites(""), "USGS-");
}

#[test]
fn next_link_is_the_first_next() {
    let links = vec![
        Link { rel: "self".to_string(), href: "a".to_string() },
        Link { rel: "next".to_string(), href: "b".to_string() },
        Link { rel: "next".to_string(), href: "c".to_string() },
    ];
    assert_eq!(next_page_link(&links), Some("b".to_string()));
    assert_eq!(next_page_link(&links[..1].to_vec()), None);
}

#[test]
fn qualifiers_of_both_shapes() {
    assert_eq!(qualifier_as_string(QualifierValue::Single(None)), None);
    assert_eq!(
        qualifier_as_string(QualifierValue::Single(Some("e".to_string()))),
        Some("e".to_string())
    );
    assert_eq!(qualifier_as_string(QualifierValue::Many(vec![])), None);
    assert_eq!(
        qualifier_as_string(QualifierValue::Many(vec!["ESTIMATED".to_string(), "ICE".to_string()])),
        Some("ESTIMATED,ICE".to_string())
    );
}

#[test]
fn request_urls_and_queries() {
    assert_eq!(
        collection_items_url("daily"),
        "https://api.waterdata.usgs.gov/ogcapi/v1/collections/daily/items"
    );
    let q = collection_query("1,2", "00060", "2024-01-01/2024-01-31");
    let q: Vec<(&str, &str)> = q.iter().map(|(k, v)| (k.as_str(), v.as_str())).collect();
    assert_eq!(
        q,
        vec![
            ("monitoring_location_id", "USGS-1,USGS-2"),
            ("parameter_code", "00060"),
            ("datetime", "2024-01-01/2024-01-31"),
            ("f", "json"),
            ("limit", "2000"),
        ]
    );
    let m = metadata_query("1", Some("00065"));
    assert_eq!(m.len(), 4);
    assert_eq!(m[3], ("parameter_code".to_string(), "00065".to_string()));
    assert_eq!(metadata_query("1", None).len(), 3);
    assert_eq!(daily_range("2024-01-01", "2024-12-31"), "2024-01-01/2024-12-31");
}

#[test]
fn short_continuous_range_is_one_window() {
    let r = continuous_ranges("2024-01-01", "2024-01-31").unwrap();
    assert_eq!(r, vec!["2024-01-01T00:00:00Z/2024-01-31T23:59:59Z".to_string()]);
}

#[test]
fn long_continuous_range_is_split_into_three_year_windows() {
    let r = continuous_ranges("2020-01-01", "2024-01-01").unwrap();
    assert_eq!(
        r,
        vec![
            "2020-01-01T00:00:00Z/2022-12-30T23:59:59Z".to_string(),
            "2022-12-31T00:00:00Z/2024-01-01T23:59:59Z".to_string(),
        ]
    );
}

#[test]
fn single_day_range() {
    let r = continuous_ranges("2024-02-29", "2024-02-29").unwrap();
    assert_eq!(r, vec!["2024-02-29T00:00:00Z/2024-02-29T23:59:59Z".to_string()]);
}

#[test]
fn continuous_range_errors() {
    assert!(matches!(continuous_ranges("2024-13-01", "2024-01-01"), Err(DateRangeError::InvalidStart(_))));
    assert!(matches!(continuous_ranges("2024-01-01", "nope"), Err(DateRangeError::InvalidEnd(_))));
    assert!(matches!(continuous_ranges("2024-02-01", "2024-01-01"), Err(DateRangeError::EndBeforeStart)));
    // The last representable date has no following day.
    assert!(matches!(day_ranges(95745399, 95745399), Err(DateRangeError::OutOfRange)));
    assert!(day_ranges(95745399 - 1200, 95745399 - 1200).is_ok());
}

fn meta_row(site: &str, name: Option<&str>, code: Option<&str>, pname: Option<&str>) -> MetadataRow {
    MetadataRow {
        monitoring_location_id: site.to_string(),
        monitoring_location_name: name.map(|s| s.to_string()),
        state_name: Some("Ohio".to_string()),
        county_name: None,
        hydrologic_unit_code: None,
        parameter_code: code.map(|s| s.to_string()),
        parameter_name: pname.map(|s| s.to_string()),
        statistic_id: Some("00003".to_string()),
        begin: None,
        end: None,
        primary: None,
    }
}

#[test]
fn metadata_rows_group_by_site_in_first_appearance_order() {
    let rows = vec![
        meta_row("USGS-2", Some("Two"), Some("00060"), Some("Discharge")),
        meta_row("USGS-1", None, Some("00060"), Some("Discharge")),
        meta_row("USGS-2", Some("Other"), Some("00065"), Some("Gage height")),
        meta_row("USGS-2", Some("Two"), Some("00010"), None),
    ];
    let groups = group_site_metadata(&rows).unwrap();
    assert_eq!(groups.len(), 2);
    assert_eq!(groups[0].site_no, "USGS-2");
    assert_eq!(groups[0].name, "Two");
    assert_eq!(groups[0].first_row, 0);
    let codes: Vec<&str> = groups[0].series.iter().map(|s| s.parameter_code.as_str()).collect();
    assert_eq!(codes, ["00060", "00065"]);
    assert_eq!(groups[1].site_no, "USGS-1");
    assert_eq!(groups[1].name, "");
    assert_eq!(groups[1].first_row, 1);
    assert_eq!(groups[1].series.len(), 1);
}

#[test]
fn no_metadata_rows_is_an_error() {
    assert_eq!(group_site_metadata(&Vec::new()).unwrap_err(), MetadataError::NoMetadata);
}

#[test]
fn windows_reach_the_last_and_first_representable_dates() {
    // 95745399 is +262142-12-31, the last date; -95746129 is -262143-01-01.
    let last = day_ranges(95745399 - 1094, 95745399 - 1).unwrap();
    assert_eq!(last.len(), 1);
    assert!(last[0].ends_with("/+262142-12-30T23:59:59Z"), "{}", last[0]);
    let first = day_ranges(-95746129, -95746129).unwrap();
    assert_eq!(first, vec!["-262143-01-01T00:00:00Z/-262143-01-01T23:59:59Z".to_string()]);
}

#[test]
fn day_ranges_windows_are_at_most_1095_days() {
    // 2024-01-01 is day 738886.
    let r = day_ranges(738886, 738886 + 1095).unwrap();
    assert_eq!(
        r,
        vec![
            "2024-01-01T00:00:00Z/2026-12-30T23:59:59Z".to_string(),
            "2026-12-31T00:00:00Z/2026-12-31T23:59:59Z".to_string(),
        ]
    );
}

#[test]
fn site_listing_lines() {
    assert_eq!(site_location(&Some("Lucas".to_string()), &Some("Ohio".to_string())), "Lucas, Ohio");
    assert_eq!(site_location(&None, &Some("Ohio".to_string())), "Ohio");
    assert_eq!(site_location(&None, &None), "");
    let s = TimeSeriesInfo {
        parameter_code: "00060".to_string(),
        parameter_name: "Discharge".to_string(),
        statistic_id: None,
        begin: Some("1921-10-01T00:00:00+00:00".to_string()),
        end: None,
        primary: Some("Primary".to_string()),
    };
    assert_eq!(series_line(&s), "  Discharge (00060)  stat -  1921-10-01 .. ?  [Primary]");
}

#[test]
fn trimming_removes_unicode_white_space() {
    assert_eq!(normalize_site_id("\u{3000}01646500\t\u{a0}"), "USGS-01646500");
    assert_eq!(normalize_site_id("\u{2028} USGS-1 \u{85}"), "USGS-1");
}

#[test]
fn date_range_refusals_have_messages() {
    let e = continuous_ranges("2024-02-01", "2024-01-01").unwrap_err();
    assert_eq!(e.message("2024-02-01", "2024-01-01"), "end date 2024-01-01 is before start date 2024-02-01");
    let e = continuous_ranges("2024-13-01", "2024-01-01").unwrap_err();
    assert!(matches!(e, DateRangeError::InvalidStart(_)));
    assert_eq!(e.message("2024-13-01", "2024-01-01"), "invalid start date '2024-13-01'");
    let e = continuous_ranges("2024-01-01", "soon").unwrap_err();
    assert!(matches!(e, DateRangeError::InvalidEnd(_)));
    assert_eq!(e.message("2024-01-01", "soon"), "invalid end date 'soon'");
}

#[test]
fn empty_metadata_names_the_requested_sites() {
    assert_eq!(
        MetadataError::NoMetadata.message("01646500, 03339000"),
        "no metadata found for site(s) 01646500, 03339000"
    );
}

#[test]
fn fetches_without_readings_are_refused() {
    let none: Vec<u8> = Vec::new();
    assert_eq!(
        require_readings(none, "01646500", "00060", "2024-01-01", "2024-01-31"),
        Err("no data returned for site(s) 01646500 (param 00060) in range 2024-01-01..2024-01-31".to_string())
    );
    assert_eq!(require_readings(vec![1u8, 2], "01646500", "00060", "2024-01-01", "2024-01-31"), Ok(vec![1u8, 2]));
}
