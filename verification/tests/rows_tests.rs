use headwater::rows::{dedup_keep_latest, RowKey};

fn row(site: &str, datetime: &str, value: f64, last_modified: &str) -> (RowKey, f64) {
    (
        RowKey {
            site_no: site.to_string(),
            param_cd: "00060".to_string(),
            datetime: datetime.to_string(),
            last_modified: last_modified.to_string(),
        },
        value,
    )
}

#[test]
fn dedup_keeps_the_row_with_max_last_modified() {
    let rows = vec![
        row("USGS-1", "2024-03-31", 100.0, "2025-01-01T00:00:00+00:00"),
        row("USGS-1", "2024-03-31", 999.0, "2025-06-01T00:00:00+00:00"),
        row("USGS-1", "2024-04-01", 50.0, "2025-01-01T00:00:00+00:00"),
    ];
    let keys: Vec<RowKey> = rows.iter().map(|(k, _)| k.clone()).collect();

    let deduped = dedup_keep_latest(&keys);

    assert_eq!(deduped.len(), 2);
    let march_31 = deduped.iter().find(|&&i| rows[i].0.datetime == "2024-03-31").unwrap();
    assert_eq!(rows[*march_31].1, 999.0);
}

#[test]
fn dedup_keeps_the_first_of_equal_last_modified() {
    let rows = vec![
        row("USGS-1", "2024-03-31", 1.0, "2025-01-01"),
        row("USGS-1", "2024-03-31", 2.0, "2025-01-01"),
    ];
    let keys: Vec<RowKey> = rows.iter().map(|(k, _)| k.clone()).collect();
    assert_eq!(dedup_keep_latest(&keys), vec![0]);
}

#[test]
fn dedup_orders_by_site_then_datetime() {
    let rows = vec![
        row("USGS-2", "2024-01-02", 1.0, "a"),
        row("USGS-1", "2024-01-03", 2.0, "a"),
        row("USGS-1", "2024-01-01", 3.0, "a"),
        row("USGS-2", "2024-01-01", 4.0, "a"),
    ];
    let keys: Vec<RowKey> = rows.iter().map(|(k, _)| k.clone()).collect();
    assert_eq!(dedup_keep_latest(&keys), vec![2, 1, 3, 0]);
}

#[test]
fn dedup_keeps_distinct_parameters_apart() {
    let mut a = row("USGS-1", "2024-01-01", 1.0, "x").0;
    let b = a.clone();
    a.param_cd = "00065".to_string();
    let mut kept = dedup_keep_latest(&vec![a, b]);
    kept.sort();
    assert_eq!(kept, vec![0, 1]);
}

#[test]
fn dedup_of_nothing_is_nothing() {
    assert!(dedup_keep_latest(&Vec::new()).is_empty());
}

#[test]
fn dedup_twice_keeps_everything_the_first_pass_kept() {
    let rows: Vec<RowKey> = vec![
        row("a", "t1", 1.0, "m1").0,
        row("a", "t1", 2.0, "m2").0,
        row("b", "t1", 3.0, "m1").0,
        row("a", "t0", 4.0, "m1").0,
    ];
    let first = dedup_keep_latest(&rows);
    let picked: Vec<RowKey> = first.iter().map(|&i| rows[i].clone()).collect();
    let mut second = dedup_keep_latest(&picked);
    second.sort();
    assert_eq!(second, (0..picked.len()).collect::<Vec<_>>());
}
