use flate2::write::GzEncoder;
use flate2::Compression;
use netmon_core::alerts;
use netmon_core::alerts::{AlertLog, AnomalyDetector, Severity};
use netmon_core::autostart;
use netmon_core::geoip;
use netmon_core::geoip::{AsnRecord, CityRecord, DatabaseFile, DatabaseStatus, FetchStep, GeoLocation, IpAddress, Peer};
use netmon_core::history;
use netmon_core::history::GraphQuery;
use netmon_core::monitor;
use netmon_core::monitor::{Monitor, Spike};
use netmon_core::paths;
use netmon_core::reports;
use netmon_core::reports::{CsvRow, ReportEntry, ReportPeriod};
use netmon_core::settings;
use netmon_core::settings::{AppSettings, CloseStep};
use std::io::Write;

/// The statistic that a baseline is compared by: the mean and the standard deviation.
fn observe(d: &mut AnomalyDetector<f64>, value: f64) -> Option<(f64, f64)> {
    let mut found = None;
    if d.is_warm() {
        let n = d.window().len() as f64;
        let mean = d.window().iter().sum::<f64>() / n;
        let variance = d.window().iter().map(|v| (v - mean).powi(2)).sum::<f64>() / n;
        let stddev = variance.sqrt();
        if stddev > 1e-6 && value > mean + 3.5 * stddev {
            found = Some((mean, value));
        }
    }
    if d.observe(value, found.is_some()) {
        found
    } else {
        None
    }
}

#[test]
fn no_trigger_below_min_samples() {
    let mut d = AnomalyDetector::new();
    for _ in 0..29 {
        assert!(observe(&mut d, 1_000_000.0).is_none());
    }
}

#[test]
fn no_trigger_on_flat_baseline() {
    let mut d = AnomalyDetector::new();
    for _ in 0..100 {
        assert!(observe(&mut d, 1000.0).is_none());
    }
}

#[test]
fn triggers_on_a_real_spike() {
    let mut d = AnomalyDetector::new();
    for v in deterministic_jitter(1000.0, 20.0).take(60) {
        observe(&mut d, v);
    }
    let result = observe(&mut d, 1_000_000.0);
    assert!(result.is_some());
    let (mean, value) = result.unwrap();
    assert!(mean < 1100.0);
    assert_eq!(value, 1_000_000.0);
}

#[test]
fn cooldown_suppresses_repeat_triggers() {
    let mut d = AnomalyDetector::new();
    for v in deterministic_jitter(1000.0, 20.0).take(60) {
        observe(&mut d, v);
    }
    assert!(observe(&mut d, 1_000_000.0).is_some());
    assert!(observe(&mut d, 1_000_000.0).is_none(), "should be suppressed by cooldown");
}

// A fixed-seed generator, so that the baseline is not perfectly flat and the test reproducible.
fn deterministic_jitter(base: f64, amplitude: f64) -> impl Iterator<Item = f64> {
    let mut state: u64 = 42;
    std::iter::from_fn(move || {
        state = state.wrapping_mul(6364136223846793005).wrapping_add(1);
        let frac = (state >> 40) as f64 / (1u64 << 24) as f64;
        Some(base + frac * amplitude)
    })
}

#[test]
fn a_cooldown_lasts_for_its_samples_and_no_longer() {
    let mut d: AnomalyDetector<u32> = AnomalyDetector::new();
    for i in 0..30 {
        assert!(!d.observe(i, true));
    }
    assert!(d.observe(30, true));
    for i in 0..30 {
        assert!(!d.observe(31 + i, true));
    }
    assert!(d.observe(61, true));
    assert!(!d.observe(62, false));
}

#[test]
fn the_last_sample_of_a_cooldown_still_waits() {
    let mut d = AnomalyDetector::new();
    for _ in 0..15 {
        observe(&mut d, 1000.0);
        observe(&mut d, 1020.0);
    }
    assert!(observe(&mut d, 1_000_000.0).is_some());
    for _ in 0..29 {
        assert!(observe(&mut d, 1000.0).is_none());
    }
    assert!(observe(&mut d, 1_000_000_000.0).is_none());
    assert!(observe(&mut d, 1_000_000_000_000.0).is_some());
}

#[test]
fn a_baseline_is_made_of_the_latest_samples() {
    let mut d: AnomalyDetector<u32> = AnomalyDetector::new();
    for i in 0..300 {
        d.observe(i, false);
    }
    let held: Vec<u32> = d.window().iter().copied().collect();
    assert_eq!(held, (180..300).collect::<Vec<u32>>());
}

#[test]
fn severities_have_labels() {
    assert_eq!(Severity::Warning.label(), "Warning");
    assert_eq!(Severity::Critical.label(), "Critical");
}

#[test]
fn alerts_are_numbered_and_the_oldest_are_dropped() {
    let mut log = AlertLog::new();
    for i in 0..205 {
        log.raise(Severity::Warning, format!("m{i}"), "t".to_string());
    }
    let rows = log.rows();
    assert_eq!(rows.len(), 200);
    assert_eq!((rows[0].id, rows[0].message.as_str(), rows[0].read), (204, "m204", false));
    assert_eq!(rows[199].id, 5);
    assert!(rows.windows(2).all(|w| w[0].id > w[1].id));
    assert_eq!(log.next_id(), 205);
    log.mark_all_read();
    let read = log.rows();
    assert!(read.iter().all(|r| r.read));
    assert_eq!(read[0].message, "m204");
    assert_eq!(alerts::spike_message("1 MB/s", "2 KB/s"), "Traffic spike: 1 MB/s vs a recent baseline of 2 KB/s");
}

#[test]
fn old_readings_are_dropped_about_once_an_hour() {
    let mut m = Monitor::new();
    let due: Vec<u64> = (1..=3600).filter(|_| m.begin_tick()).collect();
    assert_eq!(due, vec![1800, 3600]);
    assert_eq!(m.tick(), 3600);
    assert_eq!(monitor::PRUNE_EVERY_TICKS * monitor::UPDATE_MS, 3_600_000);
}

#[test]
fn a_spike_raises_an_alert_only_while_detection_is_on() {
    let mut m = Monitor::new();
    let spike = Some(Spike { critical: true, value: "9".to_string(), mean: "1".to_string() });
    assert!(m.detection_enabled());
    let n = m.on_spike(&spike, "12:00".to_string(), true).unwrap();
    assert_eq!(n.title, "Network Monitor — Critical");
    assert_eq!(n.body, "Traffic spike: 9 vs a recent baseline of 1");
    assert_eq!(m.alert_rows().len(), 1);
    assert_eq!(m.alert_rows()[0].severity, "Critical");
    assert_eq!(m.alert_rows()[0].time, "12:00");
    m.set_detection(false);
    assert!(m.on_spike(&spike, "12:01".to_string(), true).is_none());
    assert_eq!(m.alert_rows().len(), 1);
    m.set_detection(true);
    let mild = Some(Spike { critical: false, value: "3".to_string(), mean: "1".to_string() });
    assert!(m.on_spike(&mild, "12:02".to_string(), false).is_none());
    assert_eq!(m.alert_rows()[0].severity, "Warning");
    assert!(m.on_spike(&None, "12:03".to_string(), true).is_none());
    assert_eq!(m.next_alert_id(), 2);
    m.mark_all_alerts_read();
    assert!(m.alert_rows().iter().all(|r| r.read));
    m.record(7, "12:04".to_string());
    assert_eq!((m.connections_count(), m.last_updated()), (7, "12:04"));
    assert_eq!(monitor::tray_title("1 KB/s", "2 KB/s"), "↓ 1 KB/s ↑ 2 KB/s");
}

#[test]
fn prune_clamps_a_non_positive_keep_days_to_avoid_wiping_everything() {
    assert_eq!(history::retention_days(0), 1);
    assert_eq!(history::retention_days(-5), 1);
    assert_eq!(history::retention_days(1), 1);
    assert_eq!(history::retention_days(30), 30);
    assert_eq!(history::DEFAULT_RETENTION_DAYS, 30);
}

#[test]
fn long_spans_are_put_into_buckets() {
    assert_eq!(history::graph_query(3600, None, 720), GraphQuery::Raw);
    assert_eq!(history::graph_query(-5, None, 0), GraphQuery::Raw);
    assert_eq!(history::graph_query(7200, None, 120), GraphQuery::Buckets(60));
    assert_eq!(history::graph_query(3601, None, 100_000), GraphQuery::Buckets(1));
    assert_eq!(history::graph_query(3601, None, -1), GraphQuery::Buckets(1));
    assert_eq!(history::graph_query(60, Some(300), 720), GraphQuery::Buckets(300));
    assert_eq!(history::graph_query(60, Some(0), 720), GraphQuery::Buckets(1));
}

#[test]
fn bins_hold_what_was_averaged_for_them() {
    let rows = vec![(3, (200, 20)), (0, (40, 4)), (-1, (1, 1)), (4, (2, 2))];
    assert_eq!(history::fill_bins(&rows, 4, (0, 0)), vec![(40, 4), (0, 0), (0, 0), (200, 20)]);
    assert_eq!(history::fill_bins(&rows, 0, (0, 0)), vec![]);
    assert_eq!(history::fill_bins(&rows, -3, (0, 0)), vec![]);
    let latency = vec![(0, Some(8)), (3, Some(30))];
    assert_eq!(history::fill_bins(&latency, 4, None), vec![Some(8), None, None, Some(30)]);
}

#[test]
fn charts_have_at_least_a_bin_and_a_minute() {
    assert_eq!(history::chart_bins(300), 288);
    assert_eq!(history::chart_bins(0), 86400);
    assert_eq!(history::chart_bins(-7), 86400);
    assert_eq!(history::chart_bins(100_000), 1);
    assert_eq!(history::chart_seconds(15), Some(900));
    assert_eq!(history::chart_seconds(-3), Some(60));
    assert_eq!(history::chart_seconds(i64::MAX), None);
    assert_eq!(history::history_path(b"/d"), b"/d/network_history.db".to_vec());
}

#[test]
fn periods_have_labels_names_and_sizes() {
    for (p, label, name, seconds, bucket) in [
        (ReportPeriod::Last24h, "Last 24 hours", "24h", 86_400, 300),
        (ReportPeriod::Last7d, "Last 7 days", "7d", 604_800, 1800),
        (ReportPeriod::Last30d, "Last 30 days", "30d", 2_592_000, 7200),
    ] {
        assert_eq!(p.label(), label);
        assert_eq!(p.name(), name);
        assert_eq!(p.seconds(), seconds);
        assert_eq!(p.bucket_seconds(), bucket);
        assert_eq!(reports::parse_period(name), Ok(p));
        let file = reports::report_file_name(p, "20260818-220600");
        assert_eq!(file, format!("network-report-{name}-20260818-220600.csv"));
        assert_eq!(reports::report_period_label(&file), label);
    }
    assert_eq!(reports::parse_period("1y"), Err("unknown report period: 1y".to_string()));
    assert_eq!(reports::report_period_label("other.csv"), "—");
    assert_eq!(reports::reports_dir(b"/d"), b"/d/reports".to_vec());
}

#[test]
fn generate_csv_report_writes_a_header_even_with_no_history() {
    let contents = reports::csv_text(&Vec::new());
    assert_eq!(contents.trim(), "timestamp,download_bytes_per_sec,upload_bytes_per_sec,latency_ms");
}

#[test]
fn a_report_has_a_line_for_each_row() {
    let rows = vec![
        CsvRow {
            timestamp: "2026-08-18 22:05:00".to_string(),
            download_rate: Some("1.5".to_string()),
            upload_rate: Some("2".to_string()),
            latency_ms: None,
        },
        CsvRow { timestamp: "t".to_string(), download_rate: None, upload_rate: None, latency_ms: Some("9".to_string()) },
    ];
    assert_eq!(
        reports::csv_text(&rows),
        "timestamp,download_bytes_per_sec,upload_bytes_per_sec,latency_ms\n2026-08-18 22:05:00,1.5,2,\nt,,,9\n"
    );
}

#[test]
fn a_report_that_was_made_is_listed_and_may_be_deleted() {
    let dir = reports::reports_dir(b"/d");
    for p in [ReportPeriod::Last24h, ReportPeriod::Last7d, ReportPeriod::Last30d] {
        let name = reports::report_file_name(p, "20260818-220600");
        assert!(reports::has_csv_extension(name.as_bytes()));
        assert_eq!(reports::check_deletion(&dir, &paths::join(&dir, &name)), Ok(()));
        assert_eq!(reports::report_period_label(&name), p.label());
    }
}

fn entry(name: &str, modified: Option<i128>) -> ReportEntry {
    ReportEntry {
        file_name: name.as_bytes().to_vec(),
        name: name.to_string(),
        path: format!("/r/{name}"),
        size_bytes: 1,
        modified,
    }
}

#[test]
fn list_reports_ignores_non_csv_files_and_sorts_newest_first() {
    let found = vec![
        entry("old.csv", Some(5)),
        entry("not-a-report.txt", Some(99)),
        entry("undated.csv", None),
        entry("new.csv", Some(7)),
        entry(".csv", Some(50)),
        entry("csv", Some(50)),
        entry("a.csv.gz", Some(50)),
        entry("before.1970.csv", Some(-4)),
    ];
    let names: Vec<String> = reports::list_reports(found).into_iter().map(|r| r.name).collect();
    assert_eq!(names, vec!["new.csv", "old.csv", "before.1970.csv", "undated.csv"]);
}

#[test]
fn endings_are_those_that_std_finds() {
    for name in ["a.csv", ".csv", "a.b.csv", "a.CSV", "csv", "a.", "a.csv.", "..csv", "x.tsv"] {
        let std_says = std::path::Path::new(name).extension().and_then(|e| e.to_str()) == Some("csv");
        assert_eq!(reports::has_csv_extension(name.as_bytes()), std_says, "{name}");
    }
}

#[test]
fn delete_report_refuses_a_path_outside_reports_dir() {
    let refused = Err("refusing to delete a path outside the reports directory".to_string());
    assert_eq!(reports::check_deletion(b"/d/reports", b"/tmp/x.txt"), refused);
    assert_eq!(reports::check_deletion(b"/d/reports", b"/d/reports/sub/x.csv"), refused);
    assert_eq!(reports::check_deletion(b"/d/reports", b"/d/reports2/x.csv"), refused);
    assert_eq!(reports::check_deletion(b"/d/reports", b"/d/reports"), refused);
    assert_eq!(reports::check_deletion(b"/d/reports", b"/"), refused);
}

#[test]
fn delete_report_removes_a_real_report_inside_reports_dir() {
    assert_eq!(reports::check_deletion(b"/d/reports", b"/d/reports/x.csv"), Ok(()));
    assert_eq!(reports::check_deletion(b"/", b"/x.csv"), Ok(()));
}

fn v4(a: u8, b: u8, c: u8, d: u8) -> IpAddress {
    IpAddress::V4([a, b, c, d])
}

#[test]
fn private_and_loopback_addresses_are_not_public() {
    assert!(!geoip::is_public(&v4(192, 168, 1, 5)));
    assert!(!geoip::is_public(&v4(10, 0, 0, 1)));
    assert!(!geoip::is_public(&v4(127, 0, 0, 1)));
    assert!(!geoip::is_public(&v4(169, 254, 1, 1)));
    assert!(geoip::is_public(&v4(8, 8, 8, 8)));
    assert!(geoip::is_public(&v4(140, 82, 112, 3)));
}

fn v6(first: u16) -> IpAddress {
    IpAddress::V6([first, 0, 0, 0, 0, 0, 0, 1])
}

#[test]
fn addresses_at_the_edges_of_their_ranges() {
    assert!(geoip::is_public(&v4(172, 15, 0, 0)));
    assert!(!geoip::is_public(&v4(172, 16, 0, 0)));
    assert!(!geoip::is_public(&v4(172, 31, 255, 255)));
    assert!(geoip::is_public(&v4(172, 32, 0, 0)));
    assert!(geoip::is_public(&v4(223, 255, 255, 255)));
    assert!(!geoip::is_public(&v4(224, 0, 0, 1)));
    assert!(!geoip::is_public(&v4(239, 255, 255, 255)));
    assert!(geoip::is_public(&v4(240, 0, 0, 1)));
    assert!(!geoip::is_public(&v4(0, 0, 0, 0)));
    assert!(geoip::is_public(&v4(0, 0, 0, 1)));
    assert!(geoip::is_public(&v4(192, 167, 0, 1)));
    assert!(geoip::is_public(&v4(169, 253, 0, 1)));
    assert!(!geoip::is_public(&IpAddress::V6([0, 0, 0, 0, 0, 0, 0, 1])));
    assert!(!geoip::is_public(&IpAddress::V6([0; 8])));
    assert!(!geoip::is_public(&IpAddress::V6([0xff02, 0, 0, 0, 0, 0, 0, 1])));
    assert!(!geoip::is_public(&v6(0xfe80)));
    assert!(!geoip::is_public(&v6(0xfebf)));
    assert!(geoip::is_public(&v6(0xfec0)));
    assert!(geoip::is_public(&v6(0xfe7f)));
    assert!(!geoip::is_public(&v6(0xfc00)));
    assert!(!geoip::is_public(&v6(0xfdff)));
    assert!(geoip::is_public(&v6(0xfe00)));
    assert!(geoip::is_public(&v6(0xfbff)));
    assert!(geoip::is_public(&IpAddress::V6([0x2606, 0x4700, 0, 0, 0, 0, 0x6810, 0x85e5])));
    assert!(geoip::is_public(&IpAddress::V6([0, 0, 0, 0, 0, 0, 0, 2])));
    let mapped = |g: u16, h: u16| IpAddress::V6([0, 0, 0, 0, 0, 0xffff, g, h]);
    assert!(!geoip::is_public(&mapped(0x0a00, 0x0001)));
    assert!(!geoip::is_public(&mapped(0x7f00, 0x0001)));
    assert!(!geoip::is_public(&mapped(0xac1f, 0xffff)));
    assert!(!geoip::is_public(&mapped(0, 0)));
    assert!(geoip::is_public(&mapped(0xac20, 0)));
    assert!(geoip::is_public(&mapped(0x0808, 0x0808)));
    assert!(geoip::is_public(&IpAddress::V6([0, 0, 0, 0, 0, 0xfffe, 0x0a00, 1])));
    assert!(geoip::is_public(&IpAddress::V6([1, 0, 0, 0, 0, 0xffff, 0x0a00, 1])));
}

fn city(latitude: Option<f64>, longitude: Option<f64>) -> Option<CityRecord<f64>> {
    Some(CityRecord { city: Some("Bonn".to_string()), country: None, latitude, longitude })
}

fn asn() -> Option<AsnRecord> {
    Some(AsnRecord { number: Some(15169), organization: Some("Google LLC".to_string()) })
}

#[test]
fn lookup_without_a_database_returns_none_not_a_panic() {
    let none: Option<GeoLocation<f64>> = geoip::locate(&v4(8, 8, 8, 8), None, None);
    assert!(none.is_none());
    let none: Option<GeoLocation<f64>> = geoip::locate(&v4(8, 8, 8, 8), None, asn());
    assert!(none.is_none());
}

#[test]
fn a_local_address_has_no_location_whatever_is_recorded() {
    for ip in [v4(10, 0, 0, 1), v4(127, 0, 0, 1), v4(169, 254, 1, 1), v6(0xfe80), v6(0xfd00)] {
        assert!(geoip::locate(&ip, city(Some(50.7), Some(7.1)), asn()).is_none());
    }
    assert!(geoip::locate(&v6(0x2606), city(Some(50.7), Some(7.1)), asn()).is_some());
}

#[test]
fn a_location_takes_both_coordinates() {
    assert!(geoip::locate(&v4(8, 8, 8, 8), city(Some(1.5), None), asn()).is_none());
    assert!(geoip::locate(&v4(8, 8, 8, 8), city(None, Some(1.5)), asn()).is_none());
    let l = geoip::locate(&v4(8, 8, 8, 8), city(Some(50.7), Some(7.1)), None).unwrap();
    assert_eq!((l.lat, l.lon, l.asn), (50.7, 7.1, None));
    assert_eq!(l.city.as_deref(), Some("Bonn"));
    let l = geoip::locate(&v4(8, 8, 8, 8), city(Some(50.7), Some(7.1)), asn()).unwrap();
    let row = geoip::geo_row(&Peer { ip: "8.8.8.8".to_string(), process: "—".to_string() }, &l);
    assert_eq!((row.ip.as_str(), row.city.as_str(), row.country.as_str()), ("8.8.8.8", "Bonn", "—"));
    assert_eq!(row.registrant, "AS15169 · Google LLC");
    assert_eq!((row.lat, row.lon), (50.7, 7.1));
}

#[test]
fn a_registrant_is_shown_as_far_as_it_is_known() {
    let org = Some("Org".to_string());
    assert_eq!(geoip::registrant(Some(1), &org), "AS1 · Org");
    assert_eq!(geoip::registrant(None, &org), "Org");
    assert_eq!(geoip::registrant(Some(1), &None), "AS1");
    assert_eq!(geoip::registrant(None, &None), "—");
}

#[test]
fn db_url_uses_zero_padded_month() {
    assert_eq!(
        geoip::db_url_for("city-lite", 2026, 1),
        "https://download.db-ip.com/free/dbip-city-lite-2026-01.mmdb.gz"
    );
    assert_eq!(
        geoip::db_url_for("asn-lite", 2026, 12),
        "https://download.db-ip.com/free/dbip-asn-lite-2026-12.mmdb.gz"
    );
}

#[test]
fn the_edition_to_fall_back_on_is_that_of_the_month_before() {
    assert_eq!(geoip::last_edition(2026, 1), (2025, 12));
    assert_eq!(geoip::last_edition(2026, 8), (2026, 7));
}

#[test]
fn databases_are_kept_with_the_data() {
    assert_eq!(geoip::database_path(b"/d"), b"/d/dbip-city-lite.mmdb".to_vec());
    assert_eq!(geoip::asn_database_path(b"/d"), b"/d/dbip-asn-lite.mmdb".to_vec());
    assert_eq!(geoip::database_status(DatabaseFile::Absent), DatabaseStatus { present: false, age_days: None });
    assert_eq!(
        geoip::database_status(DatabaseFile::Written(86400 * 3 - 1)),
        DatabaseStatus { present: true, age_days: Some(2) }
    );
    assert_eq!(geoip::database_status(DatabaseFile::Ahead), DatabaseStatus { present: true, age_days: Some(0) });
}

#[test]
fn last_month_is_asked_for_only_if_this_month_fails() {
    assert_eq!(geoip::second_request("city-lite", 2026, 1, false), None);
    assert_eq!(
        geoip::second_request("city-lite", 2026, 1, true).unwrap(),
        "https://download.db-ip.com/free/dbip-city-lite-2025-12.mmdb.gz"
    );
    assert_eq!(
        geoip::second_request("asn-lite", 2026, 8, true).unwrap(),
        "https://download.db-ip.com/free/dbip-asn-lite-2026-07.mmdb.gz"
    );
}

#[test]
fn only_a_database_that_opens_is_installed() {
    let bad = |s: &str| Err::<(), String>(s.to_string());
    assert_eq!(geoip::installable(Ok(vec![1, 2]), &Ok(())), Ok(vec![1, 2]));
    assert_eq!(geoip::installable(Ok(vec![1, 2]), &bad("x")), Err("invalid database: x".to_string()));
    assert_eq!(geoip::installable(Err("y".to_string()), &Ok(())), Err("gunzip failed: y".to_string()));
    assert_eq!(geoip::installable(Err("y".to_string()), &bad("x")), Err("gunzip failed: y".to_string()));
}

#[test]
fn a_download_is_unpacked() {
    let mut encoder = GzEncoder::new(Vec::new(), Compression::default());
    encoder.write_all(b"contents of a database").unwrap();
    let gz = encoder.finish().unwrap();
    assert_eq!(geoip::unpack_database(&gz), Ok(b"contents of a database".to_vec()));
    let cut = geoip::unpack_database(&gz[..gz.len() / 2]).unwrap_err();
    assert!(cut.starts_with("gunzip failed: "));
    assert!(geoip::unpack_database(b"plain").unwrap_err().starts_with("gunzip failed: "));
    assert_eq!(geoip::unpack_result(Ok(vec![1])), Ok(vec![1]));
    assert_eq!(geoip::unpack_result(Err("e".to_string())), Err("gunzip failed: e".to_string()));
    assert_eq!(geoip::fetch_error(FetchStep::Download, "e"), "download failed: e");
    assert_eq!(geoip::fetch_error(FetchStep::Read, "e"), "read failed: e");
    assert_eq!(geoip::fetch_error(FetchStep::Open, "e"), "invalid database: e");
}

/// Whether an entry is found among some files.
fn found(xdg: &Option<Vec<u8>>, home: &Option<Vec<u8>>, files: &[(Vec<u8>, String)]) -> Option<bool> {
    autostart::autostart_path(xdg, home).map(|p| files.iter().any(|f| f.0 == p))
}

fn enable(xdg: &Option<Vec<u8>>, home: &Option<Vec<u8>>, files: &mut Vec<(Vec<u8>, String)>) {
    let plan = autostart::enable_plan(xdg, home, &Ok("/usr/bin/network-monitor".to_string())).unwrap();
    files.retain(|f| f.0 != plan.path);
    files.push((plan.path, plan.contents));
}

fn disable(xdg: &Option<Vec<u8>>, home: &Option<Vec<u8>>, files: &mut Vec<(Vec<u8>, String)>) {
    if let Some(path) = autostart::disable_plan(xdg, home, found(xdg, home, files)) {
        files.retain(|f| f.0 != path);
    }
}

#[test]
fn enable_then_disable_round_trips_the_autostart_entry() {
    let (xdg, home) = (Some(b"/tmp/config".to_vec()), None);
    let mut files = vec![(b"/tmp/config/autostart/other.desktop".to_vec(), String::new())];
    let is_enabled = |files: &[(Vec<u8>, String)]| autostart::is_enabled(found(&xdg, &home, files));
    assert!(!is_enabled(&files), "shouldn't be enabled before enable() is ever called");

    enable(&xdg, &home, &mut files);
    assert!(is_enabled(&files));
    let contents =
        files.iter().find(|f| f.0 == b"/tmp/config/autostart/network-monitor.desktop".to_vec()).unwrap().1.clone();
    assert!(contents.contains("Type=Application"));
    assert!(contents.contains("Exec="));
    enable(&xdg, &home, &mut files);
    assert!(is_enabled(&files));

    disable(&xdg, &home, &mut files);
    assert!(!is_enabled(&files));
    disable(&xdg, &home, &mut files);
    assert!(!is_enabled(&files));
    assert_eq!(files.len(), 1);
}

#[test]
fn only_an_entry_that_is_there_is_removed() {
    let xdg = Some(b"/c".to_vec());
    let path = b"/c/autostart/network-monitor.desktop".to_vec();
    assert_eq!(autostart::disable_plan(&xdg, &None, Some(true)), Some(path));
    assert_eq!(autostart::disable_plan(&xdg, &None, Some(false)), None);
    assert_eq!(autostart::disable_plan(&None, &None, None), None);
}

#[test]
fn the_autostart_entry_is_written_where_it_is_looked_for() {
    let xdg = Some(b"/c".to_vec());
    let home = Some(b"/home/u".to_vec());
    let exe: Result<String, String> = Ok("/usr/bin/network-monitor".to_string());
    let plan = autostart::enable_plan(&xdg, &home, &exe).unwrap();
    assert_eq!(plan.dir, b"/c/autostart".to_vec());
    assert_eq!(Some(plan.path), autostart::autostart_path(&xdg, &home));
    assert_eq!(
        plan.contents,
        "[Desktop Entry]\nType=Application\nName=Network Monitor\nComment=Live network bandwidth, connections and history\nExec=/usr/bin/network-monitor\nTerminal=false\nCategories=Utility;\nX-GNOME-Autostart-enabled=true\n"
    );
    assert_eq!(
        autostart::autostart_path(&None, &home),
        Some(b"/home/u/.config/autostart/network-monitor.desktop".to_vec())
    );
    assert_eq!(autostart::autostart_path(&None, &None), None);
    assert_eq!(
        autostart::enable_plan(&None, &None, &exe).err(),
        Some("couldn't determine XDG config directory".to_string())
    );
    assert_eq!(autostart::enable_plan(&xdg, &None, &Err("gone".to_string())).err(), Some("gone".to_string()));
    assert!(autostart::is_enabled(Some(true)));
    assert!(!autostart::is_enabled(Some(false)));
    assert!(!autostart::is_enabled(None));
}

#[test]
fn settings_start_from_their_defaults() {
    let s = AppSettings::default();
    assert_eq!(s.language, "English");
    assert_eq!((s.refresh_interval_sec, s.bandwidth_cap_gb, s.history_retention_days), (2, 500, 30));
    assert_eq!((s.notif_desktop, s.notif_sound, s.notif_tray), (true, false, true));
    assert_eq!((s.bandwidth_cap_enabled, s.has_shown_tray_hint), (false, false));
    assert_eq!(settings::settings_path(b"/d"), b"/d/settings.json".to_vec());
    assert_eq!(settings::month_start(2026, 8), "2026-08-01T00:00:00.000000");
    assert_eq!(settings::month_start(987, 12), "0987-12-01T00:00:00.000000");
    assert_eq!(settings::username(None), "—");
    assert_eq!(settings::username(Some("ada".to_string())), "ada");
}

#[test]
fn closing_the_window_goes_to_the_tray_if_there_is_one() {
    assert_eq!(settings::close_step(false, false), CloseStep::Quit);
    assert_eq!(settings::close_step(false, true), CloseStep::Quit);
    assert_eq!(settings::close_step(true, true), CloseStep::Hide);
    assert_eq!(settings::close_step(true, false), CloseStep::HideWithHint);
}
