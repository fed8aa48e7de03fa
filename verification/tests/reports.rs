use std::path::Path;

use battery_core::history::GraphRow;
use battery_core::path::{join, leads_to, lies_in};
use battery_core::reports::{
    report_on, report_path, requested_period, FileInfo, FoundFile, HEADER,
};
use battery_core::{
    delete_report, generate_csv_report, list_reports, reports_dir, Double, ReportPeriod,
};

fn d(x: f64) -> Double {
    Double::from_bits(x.to_bits())
}

#[test]
fn report_period_round_trips_through_str() {
    for p in [ReportPeriod::Last24h, ReportPeriod::Last7d, ReportPeriod::Last30d] {
        assert_eq!(ReportPeriod::from_str(p.slug()), Some(p));
    }
    assert_eq!(ReportPeriod::from_str("bogus"), None);
}

#[test]
fn periods() {
    assert_eq!(ReportPeriod::Last24h.label(), "Last 24 hours");
    assert_eq!(ReportPeriod::Last7d.label(), "Last 7 days");
    assert_eq!(ReportPeriod::Last30d.label(), "Last 30 days");
    assert_eq!(ReportPeriod::Last24h.seconds(), 86400);
    assert_eq!(ReportPeriod::Last7d.seconds(), 604800);
    assert_eq!(ReportPeriod::Last30d.seconds(), 2592000);
    assert_eq!(requested_period("7d"), Ok(ReportPeriod::Last7d));
    assert_eq!(requested_period("1y"), Err("unknown period: 1y".to_string()));
}

#[test]
fn generate_csv_report_writes_a_header_even_with_no_history() {
    let contents = generate_csv_report(Some(&vec![]), 0, "now");
    assert_eq!(
        contents.trim(),
        "timestamp,status,capacity_percent,voltage_v,current_ma,power_w,temperature_c"
    );
    assert_eq!(contents, HEADER);
    assert_eq!(generate_csv_report(None, 0, "now"), HEADER);
}

#[test]
fn report_lines() {
    let rows = vec![
        GraphRow {
            timestamp: "2024-01-01T00:00:00".to_string(),
            voltage: Some(d(12.345)),
            current_a: Some(d(0.5)),
            power_w: Some(d(6.0)),
            temperature_c: None,
            capacity: Some(d(99.9)),
            status: "Charging".to_string(),
        },
        GraphRow {
            timestamp: "2024-01-01T00:00:01".to_string(),
            voltage: Some(d(1e-7)),
            current_a: Some(d(-0.1)),
            power_w: Some(d(1e21)),
            temperature_c: Some(d(0.1 + 0.2)),
            capacity: None,
            status: "Full".to_string(),
        },
    ];
    let text = generate_csv_report(Some(&rows), 0, "now");
    let expected = format!(
        "{HEADER}2024-01-01T00:00:00,Charging,{},{},{},{},{}\n2024-01-01T00:00:01,Full,{},{},{},{},{}\n",
        99.9f64,
        12.345f64,
        0.5f64 * 1000.0,
        6.0f64,
        0.0f64,
        99.9f64,
        1e-7f64,
        -0.1f64 * 1000.0,
        1e21f64,
        0.1f64 + 0.2f64
    );
    assert_eq!(text, expected);
}

fn plain_row(timestamp: &str) -> GraphRow {
    GraphRow {
        timestamp: timestamp.to_string(),
        voltage: Some(d(12.0)),
        current_a: Some(d(0.5)),
        power_w: Some(d(6.0)),
        temperature_c: Some(d(25.0)),
        capacity: Some(d(50.0)),
        status: "Discharging".to_string(),
    }
}

#[test]
fn report_lines_show_the_time_that_was_recorded() {
    let rows = vec![
        plain_row("bad"),
        plain_row("2026-01-15T11:00:00"),
        plain_row("worse"),
        plain_row("2026-01-15T11:00:10"),
    ];
    let report = generate_csv_report(Some(&rows), 7, "2026-01-15T12:00:00");
    let lines: Vec<&str> = report.lines().collect();
    assert_eq!(
        lines[1..],
        [
            "2026-01-15T12:00:00,Discharging,50,12,500,6,25",
            "2026-01-15T11:00:00,Discharging,50,12,500,6,25",
            "2026-01-15T11:00:00,Discharging,50,12,500,6,25",
            "2026-01-15T11:00:10,Discharging,50,12,500,6,25",
        ]
    );
    // The times as they were read decide which of the texts are shown.
    let read = report_on(&rows, &vec![Some(1), None, None, Some(2)], 7, "now");
    let first: Vec<&str> = read.lines().skip(1).map(|l| l.split(',').next().unwrap()).collect();
    assert_eq!(first, vec!["bad", "bad", "bad", "2026-01-15T11:00:10"]);
}

#[test]
fn delete_report_refuses_a_path_outside_reports_dir() {
    let dir: Result<Vec<u8>, String> = Ok(b"/home/u/share/battery-monitor/reports".to_vec());
    let outside: Result<Vec<u8>, String> = Ok(b"/tmp/outside.txt".to_vec());
    let result = delete_report(dir, outside);
    assert!(result.is_err());
    assert_eq!(
        result,
        Err("refusing to delete a path outside the reports directory".to_string())
    );
}

#[test]
fn delete_report_takes_only_what_lies_in_the_directory() {
    let delete = |target: &[u8]| delete_report(Ok(b"/r/reports".to_vec()), Ok(target.to_vec()));
    assert_eq!(delete(b"/r/reports/a.csv"), Ok(b"/r/reports/a.csv".to_vec()));
    assert!(delete(b"/r/reports").is_err());
    assert!(delete(b"/r/reports/deep/a.csv").is_err());
    assert!(delete(b"/r/reports2/a.csv").is_err());
    assert!(delete(b"/").is_err());
    assert_eq!(
        delete_report(Err("no dir".to_string()), Err("no file".to_string())),
        Err("no dir".to_string())
    );
    assert_eq!(
        delete_report(Ok(b"/r".to_vec()), Err("no file".to_string())),
        Err("no file".to_string())
    );
}

fn file(name: &str, modified: Option<i128>) -> FoundFile {
    FoundFile { name: name.as_bytes().to_vec(), info: Some(FileInfo { size: 5, modified }) }
}

#[test]
fn list_reports_ignores_non_csv_files() {
    let with = vec![file("a.csv", Some(1)), file("not-a-report.txt", Some(2))];
    let without = vec![file("a.csv", Some(1))];
    let before = list_reports(b"/r", &with).len();
    let after = list_reports(b"/r", &without).len();
    assert_eq!(before, after); // the other file was never counted
}

#[test]
fn list_reports_newest_first() {
    let files = vec![
        file("old.csv", Some(1)),
        file("unknown.csv", None),
        file("new.csv", Some(30)),
        file(".csv", Some(99)),
        file("csv", Some(99)),
        file("x.CSV", Some(99)),
        FoundFile { name: b"broken.csv".to_vec(), info: None },
        file("same.csv", Some(1)),
        FoundFile {
            name: b"odd\xff.csv".to_vec(),
            info: Some(FileInfo { size: 7, modified: Some(20) }),
        },
    ];
    let list = list_reports(b"/r", &files);
    let names: Vec<&str> = list.iter().map(|e| e.name.as_str()).collect();
    assert_eq!(names, vec!["new.csv", "odd\u{fffd}.csv", "old.csv", "same.csv", "unknown.csv"]);
    assert_eq!(list[1].path, b"/r/odd\xff.csv".to_vec());
    assert_eq!(list[1].size_bytes, 7);
    assert_eq!(list[1].modified, Some(20));
    assert_eq!(list[1].clone(), list[1]);
}

#[test]
fn report_paths() {
    let dir = reports_dir(&Some(b"/data".to_vec()));
    assert_eq!(dir, b"/data/battery-monitor/reports".to_vec());
    assert_eq!(
        report_path(&dir, ReportPeriod::Last7d, "20240101-101112"),
        b"/data/battery-monitor/reports/battery-report-7d-20240101-101112.csv".to_vec()
    );
}

#[test]
fn paths_join_as_the_system_joins_them() {
    for (a, b) in
        [("/a", "b"), ("/a/", "b"), ("", "b"), ("/a", "/b"), ("a", ""), ("", ""), ("/", "x/y")]
    {
        let native = Path::new(a).join(b).to_str().unwrap().as_bytes().to_vec();
        assert_eq!(join(a.as_bytes(), b.as_bytes()), native);
    }
}

#[test]
fn paths_compare_as_the_system_compares_them() {
    let paths = [
        "", "/", ".", "./", "a", "./a", "a/", "a/.", "/a", "//a", "/a/.", "/./a", "a/b", "a//b",
        "a/./b", "./a/b", "/a/b", "/a/b/", "..", "a/..", "../a", "/a/./b/.", ".a", "a.",
    ];
    for a in paths {
        for b in paths {
            let same = Path::new(a) == Path::new(b);
            assert_eq!(leads_to(a.as_bytes(), b.as_bytes()), same, "{a} {b}");
            let child = Path::new(a).parent() == Some(Path::new(b));
            assert_eq!(lies_in(a.as_bytes(), b.as_bytes()), child, "{a} in {b}");
        }
    }
}
