use headwater::cli::{
    date_only, parse_date, resume_start, run_fetch, single_file_range, Cli, FetchError, FetchMode,
    Service,
};

fn cli(output: Option<&str>, output_dir: Option<&str>, incremental: bool) -> Cli {
    Cli {
        sites: "01646500".to_string(),
        service: Service::Daily,
        param: "00060".to_string(),
        start: Some("2024-01-01".to_string()),
        end: None,
        output: output.map(|s| s.to_string()),
        output_dir: output_dir.map(|s| s.to_string()),
        incremental,
        api_key: None,
    }
}

#[test]
fn fetch_needs_an_output() {
    let r = run_fetch(&cli(None, None, false));
    assert!(matches!(r, Err(FetchError::OutputRequired)));
    assert_eq!(r.unwrap_err().message(), "one of --output or --output-dir is required");
}

#[test]
fn incremental_needs_an_output_dir() {
    let r = run_fetch(&cli(Some("out.parquet"), None, true));
    assert!(matches!(r, Err(FetchError::IncrementalNeedsOutputDir)));
    assert_eq!(r.unwrap_err().message(), "--incremental requires --output-dir");
}

#[test]
fn output_dir_selects_the_lake() {
    assert_eq!(run_fetch(&cli(None, Some("lake"), true)).unwrap(), FetchMode::Lake);
    assert_eq!(run_fetch(&cli(Some("f"), Some("lake"), false)).unwrap(), FetchMode::Lake);
    assert_eq!(run_fetch(&cli(Some("f"), None, false)).unwrap(), FetchMode::SingleFile);
}

#[test]
fn single_file_mode_needs_both_dates() {
    let c = cli(Some("f"), None, false);
    assert!(matches!(single_file_range(&c), Err(FetchError::EndRequiredSingleFile)));
    let mut c2 = c.clone();
    c2.start = None;
    assert!(matches!(single_file_range(&c2), Err(FetchError::StartRequiredSingleFile)));
    let mut c3 = c.clone();
    c3.end = Some("2024-02-01".to_string());
    let (s, e) = single_file_range(&c3).unwrap();
    assert_eq!((s.as_str(), e.as_str()), ("2024-01-01", "2024-02-01"));
}

#[test]
fn incremental_resumes_at_the_day_of_the_latest_reading() {
    let r = resume_start("01646500", true, Some("2024-05-06T07:15:00+00:00"), Some("2020-01-01"));
    assert_eq!(r.unwrap(), "2024-05-06");
}

#[test]
fn incremental_without_data_falls_back_to_start() {
    assert_eq!(resume_start("x", true, None, Some("2020-01-01")).unwrap(), "2020-01-01");
    let e = resume_start("01646500", true, None, None).unwrap_err();
    assert_eq!(
        e.message(),
        "no existing data for site 01646500; provide --start for its initial sync"
    );
}

#[test]
fn full_sync_needs_start() {
    assert_eq!(resume_start("x", false, None, Some("2020-01-01")).unwrap(), "2020-01-01");
    assert!(matches!(resume_start("x", false, None, None), Err(FetchError::StartRequired)));
}

#[test]
fn date_only_keeps_ten_bytes() {
    assert_eq!(date_only("2024-05-06T07:15:00Z"), "2024-05-06");
    assert_eq!(date_only("2024"), "2024");
}

#[test]
fn parse_date_accepts_iso_dates() {
    assert_eq!(parse_date("2024-02-29").unwrap(), "2024-02-29");
}

#[test]
fn parse_date_rejects_impossible_dates() {
    let e = parse_date("2023-02-29").unwrap_err();
    assert!(e.starts_with("invalid date '2023-02-29': expected YYYY-MM-DD ("), "{e}");
    assert!(e.ends_with(')'));
    assert!(parse_date("yesterday").is_err());
}
