use headwater::chart::chart_series;
use headwater::cli::Service;
use headwater::lake::{
    file_schema_for_listing, latest_text, partition_dir, partition_value, partition_groups, schema,
    service_dir_name, year_dir, year_of, ColumnType, ReadingKey, PARTITION_COLUMNS,
};

#[test]
fn file_schema_omits_partition_columns() {
    let schema = file_schema_for_listing();
    let has = |name: &str| schema.iter().any(|c| c.name == name);
    assert!(!has("site_no"));
    assert!(!has("param_cd"));
    // Everything else from schema() should survive.
    for name in ["datetime", "value", "qualifiers", "latitude", "longitude", "approval_status", "last_modified"] {
        assert!(has(name), "missing column {name}");
    }
}

#[test]
fn partition_columns_match_directory_layout() {
    let names: Vec<&str> = PARTITION_COLUMNS.iter().map(|name| *name).collect();
    assert_eq!(names, ["site_no", "param_cd", "service", "year"]);
}

#[test]
fn schema_lists_nine_columns_in_file_order() {
    let cols = schema();
    let names: Vec<&str> = cols.iter().map(|c| c.name.as_str()).collect();
    assert_eq!(
        names,
        ["site_no", "param_cd", "datetime", "value", "qualifiers", "latitude", "longitude", "approval_status", "last_modified"]
    );
    assert_eq!(cols[3].data_type, ColumnType::Float64);
    assert!(cols[4].nullable);
    assert!(!cols[0].nullable);
}

#[test]
fn partition_dir_names_each_level() {
    let dir = partition_dir("USGS-01646500", "00060", Service::Daily);
    assert_eq!(dir, vec!["site_no=USGS-01646500", "param_cd=00060", "service=daily"]);
    assert_eq!(year_dir("2024"), "year=2024");
    assert_eq!(service_dir_name(Service::Continuous), "continuous");
}

#[test]
fn year_of_takes_four_bytes() {
    assert_eq!(year_of("2024-03-31T00:00:00Z"), "2024");
    assert_eq!(year_of("202"), "202");
    assert_eq!(year_of(""), "");
}

fn key(site: &str, datetime: &str) -> ReadingKey {
    ReadingKey { site_no: site.to_string(), datetime: datetime.to_string() }
}

#[test]
fn readings_split_by_site_and_year_in_order() {
    let readings = vec![
        key("USGS-2", "2024-01-01"),
        key("USGS-1", "2025-01-01"),
        key("USGS-1", "2024-06-01"),
        key("USGS-2", "2024-02-01"),
        key("USGS-1", "2024-07-01"),
    ];
    let groups = partition_groups(&readings);
    let summary: Vec<(String, String, Vec<usize>)> =
        groups.iter().map(|g| (g.site_no.clone(), g.year.clone(), g.rows.clone())).collect();
    assert_eq!(
        summary,
        vec![
            ("USGS-1".to_string(), "2024".to_string(), vec![2, 4]),
            ("USGS-1".to_string(), "2025".to_string(), vec![1]),
            ("USGS-2".to_string(), "2024".to_string(), vec![0, 3]),
        ]
    );
    let total: usize = groups.iter().map(|g| g.rows.len()).sum();
    assert_eq!(total, readings.len());
}

#[test]
fn no_readings_no_groups() {
    assert!(partition_groups(&Vec::new()).is_empty());
}

#[test]
fn latest_text_is_the_greatest_timestamp() {
    let values = vec![
        "2024-01-01T00:00:00Z".to_string(),
        "2024-03-01T00:00:00Z".to_string(),
        "2024-02-01T00:00:00Z".to_string(),
    ];
    assert_eq!(latest_text(&values), Some("2024-03-01T00:00:00Z".to_string()));
    assert_eq!(latest_text(&Vec::new()), None);
}

#[test]
fn partition_segments_read_back() {
    assert_eq!(partition_value(&year_dir("2024"), "year"), Some("2024".to_string()));
    assert_eq!(partition_value("service=daily", "service"), Some("daily".to_string()));
    assert_eq!(partition_value("service=daily", "site_no"), None);
    assert_eq!(partition_value("year", "year"), None);
    assert_eq!(partition_value("year=", "year"), Some(String::new()));
}

#[test]
fn chart_series_groups_and_orders_by_day() {
    let rows = vec![
        key("USGS-2", "2024-01-03"),
        key("USGS-1", "2024-01-02T10:00:00+00:00"),
        key("USGS-1", "not a date"),
        key("USGS-1", "2024-01-01"),
        key("USGS-3", "bad"),
    ];
    let series = chart_series(&rows);
    assert_eq!(series.len(), 2);
    assert_eq!(series[0].site_no, "USGS-1");
    let rows_1: Vec<usize> = series[0].points.iter().map(|p| p.1).collect();
    assert_eq!(rows_1, vec![3, 1]);
    assert_eq!(series[0].points[1].0 - series[0].points[0].0, 1);
    assert_eq!(series[1].site_no, "USGS-2");
}

#[test]
fn partition_groups_are_never_empty() {
    assert!(partition_groups(&Vec::new()).is_empty());
    let keys = vec![
        ReadingKey { site_no: "USGS-2".to_string(), datetime: "2024-01-01T00:00:00Z".to_string() },
        ReadingKey { site_no: "USGS-1".to_string(), datetime: "2023-05-01T00:00:00Z".to_string() },
        ReadingKey { site_no: "USGS-2".to_string(), datetime: "2024-02-01T00:00:00Z".to_string() },
    ];
    let groups = partition_groups(&keys);
    assert_eq!(groups.len(), 2);
    assert!(groups.iter().all(|g| !g.rows.is_empty()));
    assert_eq!(groups[0].rows, vec![1]);
    assert_eq!(groups[1].rows, vec![0, 2]);
}
