use std::collections::HashSet;

use battery_core::format::IntervalBin;
use battery_core::history::{
    default_db_path, ffill, fill_times, get_graph_data, get_interval_capacity, graph_series,
    hourly_drain_intensity, month_label, monthly_health_trend, save, BinRow, GraphData, GraphQuery,
    GraphRow, DEFAULT_RETENTION_DAYS, TS_FMT,
};
use battery_core::statements;
use battery_core::{Double, Reading};
use chrono::{Datelike, Duration, Local, TimeZone};
use rusqlite::Connection;

fn d(x: f64) -> Double {
    Double::from_bits(x.to_bits())
}

fn f(x: Double) -> f64 {
    f64::from_bits(x.to_bits())
}

fn fs(v: &[Double]) -> Vec<f64> {
    v.iter().map(|x| f(*x)).collect()
}

/// A database in memory, driven by the library's statements.
struct Db {
    conn: Connection,
}

type Row = (
    String,
    Option<f64>,
    Option<f64>,
    Option<f64>,
    Option<f64>,
    Option<f64>,
    String,
);

impl Db {
    fn open_in_memory() -> Db {
        let conn = Connection::open_in_memory().unwrap();
        conn.execute_batch(statements::CREATE_TABLES).unwrap();
        Db { conn }
    }

    fn cutoff(seconds: i64) -> String {
        (Local::now() - Duration::seconds(seconds)).format(TS_FMT).to_string()
    }

    fn get_graph_data(&self, seconds: i64, max_points: i64) -> GraphData {
        let cutoff = Db::cutoff(seconds);
        let count: i64 = self
            .conn
            .query_row(statements::COUNT_SINCE, [cutoff.clone()], |row| row.get(0))
            .unwrap();
        let query = GraphQuery::new(count, seconds, max_points);
        let mut stmt = self.conn.prepare(query.statement()).unwrap();
        let read = |row: &rusqlite::Row| -> rusqlite::Result<Row> {
            Ok((
                row.get(0)?,
                row.get(1)?,
                row.get(2)?,
                row.get(3)?,
                row.get(4)?,
                row.get(5)?,
                row.get(6)?,
            ))
        };
        let rows: Vec<Row> = match query {
            GraphQuery::Rows => stmt.query_map([cutoff], read).unwrap().map(|r| r.unwrap()).collect(),
            GraphQuery::Spans(s) => {
                stmt.query_map((cutoff, f(s)), read).unwrap().map(|r| r.unwrap()).collect()
            }
        };
        let rows: Vec<GraphRow> = rows
            .into_iter()
            .map(|r| GraphRow {
                timestamp: r.0,
                voltage: r.1.map(d),
                current_a: r.2.map(d),
                power_w: r.3.map(d),
                temperature_c: r.4.map(d),
                capacity: r.5.map(d),
                status: r.6,
            })
            .collect();
        get_graph_data(Some(&rows), Local::now().timestamp())
    }

    fn get_interval_capacity(&self, interval_minutes: i64) -> Vec<IntervalBin> {
        let start = Local::now() - Duration::hours(24);
        let mut stmt = self.conn.prepare(statements::BINS_SINCE).unwrap();
        let rows: Vec<BinRow> = stmt
            .query_map((start.format(TS_FMT).to_string(), interval_minutes * 60), |row| {
                Ok(BinRow {
                    bin: row.get(0)?,
                    capacity: d(row.get(1)?),
                    status: row.get(2)?,
                    votes: row.get(3)?,
                })
            })
            .unwrap()
            .map(|r| r.unwrap())
            .collect();
        get_interval_capacity(Some(&rows), interval_minutes, start.timestamp())
    }

    fn average(&self, statement: &str, seconds: i64) -> Option<f64> {
        self.conn
            .query_row(statement, [Db::cutoff(seconds)], |row| row.get(0))
            .ok()
            .flatten()
    }

    fn hourly(&self) -> [Option<Double>; 24] {
        let mut stmt = self.conn.prepare(statements::DRAIN_BY_HOUR).unwrap();
        let rows: Vec<(i64, Double)> = stmt
            .query_map([], |row| Ok((row.get(0)?, d(row.get(1)?))))
            .unwrap()
            .map(|r| r.unwrap())
            .collect();
        hourly_drain_intensity(Some(&rows))
    }

    fn save(&self, r: &Reading) {
        let now = Local::now();
        let ts = now.format(TS_FMT).to_string();
        let month = now.format("%Y-%m").to_string();
        let (row, snapshot) = save(r, &ts, &month);
        self.conn
            .execute(
                statements::INSERT_READING,
                (
                    row.timestamp,
                    row.status,
                    row.capacity.map(f),
                    row.voltage.map(f),
                    row.current_a.map(f),
                    row.power_w.map(f),
                    row.temperature_c.map(f),
                    row.charge_now_ah.map(f),
                ),
            )
            .unwrap();
        if let Some(s) = snapshot {
            self.conn
                .execute(statements::SET_SNAPSHOT, (s.month, s.timestamp, f(s.health_percent)))
                .unwrap();
        }
    }

    fn trend(&self, months: i64) -> Vec<(String, Option<Double>)> {
        let mut stmt = self.conn.prepare(statements::SNAPSHOTS).unwrap();
        let snapshots: Vec<(String, Double)> = stmt
            .query_map([], |row| Ok((row.get(0)?, d(row.get(1)?))))
            .unwrap()
            .map(|r| r.unwrap())
            .collect();
        let now = Local::now();
        monthly_health_trend(&snapshots, months, now.year(), now.month())
    }

    fn count(&self) -> i64 {
        self.conn.query_row(statements::COUNT_ALL, [], |row| row.get(0)).unwrap()
    }
}

fn insert(
    db: &Db,
    ts: &str,
    status: &str,
    capacity: Option<f64>,
    voltage: f64,
    current_a: f64,
    power_w: f64,
    temp: f64,
) {
    let none: Option<f64> = None;
    db.conn
        .execute(
            statements::INSERT_READING,
            (ts, status, capacity, voltage, current_a, power_w, temp, none),
        )
        .unwrap();
}

fn ts_at(base: chrono::DateTime<Local>, minutes: i64) -> String {
    (base + Duration::minutes(minutes)).format(TS_FMT).to_string()
}

#[test]
fn small_range_is_raw_passthrough() {
    let db = Db::open_in_memory();
    let base = Local::now() - Duration::minutes(5);
    for i in 0..5 {
        insert(&db, &ts_at(base, i), "Discharging", Some(50.0), 12.0 + i as f64 * 0.1, 0.5, 6.0, 25.0);
    }
    let data = db.get_graph_data(600, 720);
    assert_eq!(data.timestamps.len(), 5);
    assert_eq!(fs(&data.voltage), vec![12.0, 12.1, 12.2, 12.3, 12.4]);
}

#[test]
fn null_reading_forward_fills_instead_of_zero_spike() {
    let db = Db::open_in_memory();
    let base = Local::now() - Duration::minutes(5);
    let readings = [Some(12.0), Some(12.1), None, Some(12.3), Some(12.4)];
    for (i, v) in readings.iter().enumerate() {
        insert(&db, &ts_at(base, i as i64), "Discharging", Some(50.0), v.unwrap_or(0.0), 0.5, 6.0, 25.0);
    }
    db.conn
        .execute("UPDATE readings SET voltage = NULL WHERE timestamp = ?1", [ts_at(base, 2)])
        .unwrap();

    let data = db.get_graph_data(600, 720);
    assert_eq!(fs(&data.voltage), vec![12.0, 12.1, 12.1, 12.3, 12.4]);
}

#[test]
fn malformed_timestamp_does_not_corrupt_whole_batch() {
    let db = Db::open_in_memory();
    let base = Local::now() - Duration::minutes(5);
    for i in [0, 1] {
        insert(&db, &ts_at(base, i), "Discharging", Some(50.0), 12.0, 0.5, 6.0, 25.0);
    }
    insert(&db, "not-a-real-timestamp", "Discharging", Some(50.0), 12.0, 0.5, 6.0, 25.0);
    for i in [3, 4] {
        insert(&db, &ts_at(base, i), "Discharging", Some(50.0), 12.0, 0.5, 6.0, 25.0);
    }

    let data = db.get_graph_data(600, 720);
    assert_eq!(data.timestamps.len(), 5);
    let unique: HashSet<_> = data.timestamps.iter().map(|t| t.to_bits()).collect();
    assert!(unique.len() >= 4); // not all of them the present time
}

#[test]
fn large_range_buckets_in_sql_and_bounds_output() {
    let db = Db::open_in_memory();
    let base = Local::now() - Duration::hours(2);
    let n_rows = 5000;
    let span = 2 * 3600;
    for i in 0..n_rows {
        let t = base + Duration::seconds((span * i) / n_rows);
        let status = if i < n_rows - 5 { "Charging" } else { "Full" };
        insert(&db, &t.format(TS_FMT).to_string(), status, Some((i % 100) as f64), 12.0, 0.5, 6.0, 25.0);
    }

    let data = db.get_graph_data(span, 100);
    assert!(data.timestamps.len() <= 102);
    assert!(data.timestamps.len() < (n_rows / 10) as usize);
    assert!((f(data.power[0]) - 6.0).abs() < 0.01);
    assert_eq!(data.status.last().unwrap(), "Full");
}

#[test]
fn offline_gap_produces_no_synthetic_points() {
    let db = Db::open_in_memory();
    let now = Local::now();
    let window_start = now - Duration::hours(4);
    for i in 0..200 {
        insert(&db, &(window_start + Duration::seconds(i * 9)).format(TS_FMT).to_string(), "Discharging", Some(80.0), 12.0, 0.5, 6.0, 25.0);
    }
    let resume = now - Duration::minutes(30);
    for i in 0..200 {
        insert(&db, &(resume + Duration::seconds(i * 9)).format(TS_FMT).to_string(), "Discharging", Some(40.0), 12.0, 0.5, 6.0, 25.0);
    }

    let data = db.get_graph_data(4 * 3600, 200);
    let times = fs(&data.timestamps);
    let gaps: Vec<f64> = (1..times.len()).map(|i| times[i] - times[i - 1]).collect();
    assert!(gaps.iter().cloned().fold(0.0, f64::max) > 3.0 * 3600.0 - 300.0);
    let seen: HashSet<_> = fs(&data.capacity).iter().map(|v| (v * 10.0).round() as i64).collect();
    assert!(seen.iter().all(|v| *v == 800 || *v == 400));
}

#[test]
fn disabled_db_returns_empty_shape_without_raising() {
    let data = get_graph_data(None, 0);
    assert!(data.timestamps.is_empty());
    assert!(data.voltage.is_empty());
    let (row, snapshot) = save(
        &Reading {
            status: "Discharging".into(),
            capacity: Some(d(1.0)),
            voltage: Some(d(1.0)),
            design_voltage: None,
            current_a: Some(d(1.0)),
            charging_current: d(0.0),
            discharging_current: d(1.0),
            power: Some(d(1.0)),
            temperature: Some(d(1.0)),
            charge_now: Some(d(1.0)),
            charge_full: None,
            design_capacity: None,
            energy_now: None,
            energy_full: None,
            energy_design: None,
            health: None,
            health_status: "Unknown".into(),
            cycle: None,
            charge_limit: None,
            time_remaining_str: String::new(),
            short_time_str: String::new(),
            manufacturer: String::new(),
            model: String::new(),
            technology: String::new(),
        },
        "2024-01-01T00:00:00",
        "2024-01",
    );
    assert_eq!(row.status, "Discharging");
    assert_eq!(snapshot, None);
}

#[test]
fn genuine_zero_capacity_is_not_treated_as_missing() {
    let db = Db::open_in_memory();
    let now_ref = Local::now();
    let start_ref = now_ref - Duration::hours(24);
    let insert_at = |minutes: i64, status: &str, capacity: f64| {
        insert(&db, &(start_ref + Duration::minutes(minutes)).format(TS_FMT).to_string(), status, Some(capacity), 12.0, 0.1, 1.0, 25.0);
    };
    insert_at(90, "Discharging", 50.0); // bin 1
    insert_at(210, "Discharging", 0.0); // bin 3: the battery is empty
    insert_at(330, "Charging", 75.0); // bin 5

    let history = db.get_interval_capacity(60);
    assert_eq!(history.len(), 24);
    assert_eq!(f(history[0].capacity), 50.0); // from the first that is known
    assert_eq!(f(history[2].capacity), 50.0); // from before
    assert_eq!(f(history[3].capacity), 0.0); // a zero that was read
    assert_eq!(history[3].status, "Discharging");
    assert_eq!(f(history[4].capacity), 0.0);
    assert_eq!(f(history[5].capacity), 75.0);
    assert_eq!(f(history[23].capacity), 75.0);
}

#[test]
fn all_empty_bins_default_to_zero() {
    let db = Db::open_in_memory();
    let history = db.get_interval_capacity(60);
    assert!(history.iter().all(|h| f(h.capacity) == 0.0));
    assert!(history.iter().all(|h| h.status == "Unknown"));
}

#[test]
fn avg_power_since_averages_recent_readings_only() {
    let db = Db::open_in_memory();
    let now = Local::now();
    insert(&db, &(now - Duration::minutes(3)).format(TS_FMT).to_string(), "Discharging", Some(50.0), 12.0, 1.0, 10.0, 25.0);
    insert(&db, &(now - Duration::minutes(2)).format(TS_FMT).to_string(), "Discharging", Some(50.0), 12.0, 1.0, 20.0, 25.0);
    // Longer ago than the five minutes.
    insert(&db, &(now - Duration::hours(2)).format(TS_FMT).to_string(), "Discharging", Some(50.0), 12.0, 1.0, 1000.0, 25.0);

    let avg = db.average(statements::MEAN_POWER_SINCE, 300).unwrap();
    assert!((avg - 15.0).abs() < 0.01);
}

#[test]
fn avg_power_since_returns_none_without_data() {
    let db = Db::open_in_memory();
    assert_eq!(db.average(statements::MEAN_POWER_SINCE, 300), None);
}

#[test]
fn avg_discharge_power_since_only_counts_discharging_readings() {
    let db = Db::open_in_memory();
    let now = Local::now();
    insert(&db, &(now - Duration::minutes(3)).format(TS_FMT).to_string(), "Discharging", Some(50.0), 12.0, 1.0, 10.0, 25.0);
    insert(&db, &(now - Duration::minutes(2)).format(TS_FMT).to_string(), "Discharging", Some(50.0), 12.0, 1.0, 20.0, 25.0);
    insert(&db, &(now - Duration::minutes(1)).format(TS_FMT).to_string(), "Charging", Some(60.0), 12.0, 1.0, 45.0, 25.0);

    let avg = db.average(statements::MEAN_DISCHARGE_SINCE, 300).unwrap();
    assert!((avg - 15.0).abs() < 0.01);
}

#[test]
fn avg_discharge_power_since_returns_none_when_only_charging_history_exists() {
    let db = Db::open_in_memory();
    let now = Local::now();
    insert(&db, &now.format(TS_FMT).to_string(), "Charging", Some(60.0), 12.0, 1.0, 45.0, 25.0);
    assert_eq!(db.average(statements::MEAN_DISCHARGE_SINCE, 300), None);
}

#[test]
fn hourly_drain_intensity_only_counts_discharging_and_leaves_other_hours_none() {
    let db = Db::open_in_memory();
    insert(&db, "2024-01-01T05:00:00", "Discharging", Some(80.0), 12.0, 1.0, 8.0, 25.0);
    insert(&db, "2024-01-01T05:30:00", "Discharging", Some(78.0), 12.0, 1.0, 12.0, 25.0);
    insert(&db, "2024-01-01T10:00:00", "Charging", Some(90.0), 12.0, 1.0, 30.0, 25.0);

    let hourly = db.hourly();
    assert!((f(hourly[5].unwrap()) - 10.0).abs() < 0.01);
    assert_eq!(hourly[10], None);
    assert_eq!(hourly[0], None);
}

#[test]
fn hourly_drain_intensity_all_none_without_data() {
    let db = Db::open_in_memory();
    assert!(db.hourly().iter().all(|h| h.is_none()));
}

#[test]
fn month_label_walks_the_year_boundary() {
    let now = Local.with_ymd_and_hms(2026, 1, 15, 12, 0, 0).unwrap();
    assert_eq!(month_label(now.year(), now.month(), 0), "2026-01");
    assert_eq!(month_label(now.year(), now.month(), 1), "2025-12");
    assert_eq!(month_label(now.year(), now.month(), 13), "2024-12");
}

#[test]
fn monthly_health_trend_only_has_the_current_month_after_one_save() {
    let db = Db::open_in_memory();
    db.save(&Reading { health: Some(d(87.5)), ..Reading::default() });

    let trend = db.trend(3);
    assert_eq!(trend.len(), 3);
    let this_month = Local::now().format("%Y-%m").to_string();
    assert_eq!(trend.last().unwrap().0, this_month);
    assert_eq!(trend.last().unwrap().1, Some(d(87.5)));
    // The two months before have no snapshot.
    assert_eq!(trend[0].1, None);
    assert_eq!(trend[1].1, None);
}

#[test]
fn monthly_health_trend_upserts_within_the_same_month() {
    let db = Db::open_in_memory();
    db.save(&Reading { health: Some(d(80.0)), ..Reading::default() });
    db.save(&Reading { health: Some(d(79.0)), ..Reading::default() });

    let this_month = Local::now().format("%Y-%m").to_string();
    let trend = db.trend(1);
    assert_eq!(trend, vec![(this_month, Some(d(79.0)))]);
}

#[test]
fn monthly_health_trend_skips_readings_without_a_health_figure() {
    let db = Db::open_in_memory();
    db.save(&Reading { health: None, ..Reading::default() });

    let this_month = Local::now().format("%Y-%m").to_string();
    let trend = db.trend(1);
    assert_eq!(trend, vec![(this_month, None)]);
}

#[test]
fn saved_readings_are_charted_and_deleted() {
    let db = Db::open_in_memory();
    let r = Reading {
        status: "Charging".to_string(),
        capacity: Some(d(66.6)),
        voltage: Some(d(12.34)),
        current_a: Some(d(1.5)),
        power: Some(d(18.51)),
        temperature: Some(d(31.4)),
        ..Reading::default()
    };
    db.save(&r);
    let data = db.get_graph_data(600, 720);
    assert_eq!(fs(&data.capacity), vec![66.6]);
    assert_eq!(fs(&data.voltage), vec![12.34]);
    assert_eq!(fs(&data.current_ma), vec![1500.0]);
    assert_eq!(fs(&data.power), vec![18.51]);
    assert_eq!(fs(&data.temperature), vec![31.4]);
    assert_eq!(data.status, vec!["Charging"]);
    assert_eq!(data.clone().status, data.status);
    assert_eq!(fs(&data.clone().voltage), vec![12.34]);
    assert_eq!(db.count(), 1);
    db.conn.execute(statements::DELETE_BEFORE, [Db::cutoff(60)]).unwrap();
    assert_eq!(db.count(), 1);
    db.conn.execute(statements::DELETE_BEFORE, ["9999"]).unwrap();
    assert_eq!(db.count(), 0);
    db.save(&r);
    db.conn.execute(statements::DELETE_ALL, []).unwrap();
    assert_eq!(db.count(), 0);
}

fn row(timestamp: &str, voltage: Option<f64>) -> GraphRow {
    GraphRow {
        timestamp: timestamp.to_string(),
        voltage: voltage.map(d),
        current_a: None,
        power_w: None,
        temperature_c: None,
        capacity: None,
        status: String::new(),
    }
}

#[test]
fn times_are_read_and_filled() {
    let rows = vec![
        row("?", None),
        row("1970-01-02T00:00:01", Some(1.0)),
        row("1970-13-02T00:00:01", None),
        row("1969-12-31T23:59:59", Some(2.0)),
    ];
    let data = get_graph_data(Some(&rows), 77);
    assert_eq!(fs(&data.timestamps), vec![77.0, 86401.0, 86401.0, -1.0]);
    assert_eq!(fs(&data.voltage), vec![0.0, 1.0, 1.0, 2.0]);
    let data = graph_series(&rows, &vec![Some(5), None, Some(6), None], 1);
    assert_eq!(fs(&data.timestamps), vec![5.0, 5.0, 6.0, 6.0]);
}

#[test]
fn filling_keeps_zeros() {
    let raw = vec![None, Some(d(3.5)), None, Some(d(0.0)), None];
    assert_eq!(fs(&ffill(&raw, d(1000.0))), vec![0.0, 3500.0, 3500.0, 0.0, 0.0]);
    assert_eq!(fs(&fill_times(&vec![None, Some(-3), None], 9)), vec![9.0, -3.0, -3.0]);
}

#[test]
fn spans_are_a_second_at_least() {
    assert_eq!(GraphQuery::new(720, 600, 720), GraphQuery::Rows);
    assert_eq!(GraphQuery::new(721, 600, 720), GraphQuery::Spans(d(1.0)));
    assert_eq!(GraphQuery::new(5000, 7200, 100), GraphQuery::Spans(d(72.0)));
    assert_eq!(GraphQuery::new(5000, 100, 3), GraphQuery::Spans(d(100.0 / 3.0)));
    assert_eq!(GraphQuery::new(1, 100, 0), GraphQuery::Spans(d(f64::INFINITY)));
    assert_eq!(GraphQuery::new(1, 0, 0), GraphQuery::Spans(d(1.0)));
    assert_eq!(GraphQuery::new(1, 100, -5), GraphQuery::Spans(d(1.0)));
}

fn bin_row(bin: i64, capacity: f64, status: &str, votes: i64) -> BinRow {
    BinRow { bin, capacity: d(capacity), status: status.to_string(), votes }
}

#[test]
fn bins_vote_and_lie_in_the_day() {
    let rows = vec![
        bin_row(-1, 99.0, "Odd", 9),
        bin_row(1, 10.0, "Full", 1),
        bin_row(1, 10.0, "Charging", 2),
        bin_row(1, 10.0, "Discharging", 1),
        bin_row(2, 20.0, "Discharging", 2),
        bin_row(2, 20.0, "Charging", 1),
        bin_row(3, 30.0, "Charging", 2),
        bin_row(3, 30.0, "Full", 2),
        bin_row(3, 30.0, "Discharging", 2),
        bin_row(3, 30.0, "Odd", 1),
        bin_row(4, 40.0, "Odd", 1),
    ];
    let bins = get_interval_capacity(Some(&rows), 360, 1000);
    assert_eq!(bins.len(), 4);
    let shown: Vec<(f64, &str, i64)> =
        bins.iter().map(|b| (f(b.capacity), b.status.as_str(), b.timestamp)).collect();
    assert_eq!(
        shown,
        vec![
            (10.0, "Charging", 1000),
            (10.0, "Charging", 1000 + 21600),
            (20.0, "Discharging", 1000 + 2 * 21600),
            (30.0, "Discharging", 1000 + 3 * 21600),
        ]
    );
    assert!(get_interval_capacity(Some(&rows), 0, 0).is_empty());
    assert!(get_interval_capacity(Some(&rows), -5, 0).is_empty());
    assert!(get_interval_capacity(Some(&rows), 1441, 0).is_empty());
    assert!(get_interval_capacity(Some(&rows), i64::MAX, 0).is_empty());
    assert!(get_interval_capacity(None, 60, 0).is_empty());
    assert_eq!(get_interval_capacity(Some(&rows), 1, 0).len(), 1440);
    assert_eq!(get_interval_capacity(Some(&rows), 7, 0).len(), 205);
}

#[test]
fn tied_votes() {
    let shown = |rows: Vec<BinRow>| -> String {
        get_interval_capacity(Some(&rows), 1440, 0)[0].status.clone()
    };
    let row = |status: &str, votes: i64| bin_row(0, 50.0, status, votes);
    assert_eq!(shown(vec![row("Charging", 1), row("Full", 1)]), "Charging");
    assert_eq!(shown(vec![row("Full", 1), row("Charging", 1)]), "Charging");
    assert_eq!(shown(vec![row("Discharging", 2), row("Charging", 1), row("Full", 2)]), "Discharging");
    assert_eq!(shown(vec![row("Charging", 1), row("Discharging", 1), row("Full", 1)]), "Full");
    assert_eq!(shown(vec![row("Discharging", 1), row("Charging", 1)]), "Charging");
    assert_eq!(shown(vec![row("Full", 2), row("Unknown", 2), row("Charging", 1)]), "Unknown");
    assert_eq!(shown(vec![row("Charging", 1), row("Full", 3)]), "Full");
}

#[test]
fn spans_are_few() {
    for (seconds, max_points) in [(0, 1), (1, 1), (100, 3), (604800, 720), (2592000, 2000), (7, 9)] {
        match GraphQuery::new(max_points + 1, seconds, max_points) {
            GraphQuery::Rows => panic!("there are more readings than points"),
            GraphQuery::Spans(w) => {
                for t in [0, seconds / 2, seconds] {
                    assert!((t as f64 / f(w)) as i64 <= max_points + 1);
                }
            }
        }
    }
}

#[test]
fn bins_show_the_status_with_the_most_votes() {
    let db = Db::open_in_memory();
    let start = Local::now() - Duration::hours(24);
    let insert_at = |minutes: i64, status: &str, capacity: f64| {
        let ts = (start + Duration::minutes(minutes)).format(TS_FMT).to_string();
        insert(&db, &ts, status, Some(capacity), 12.0, 0.1, 1.0, 25.0);
    };
    insert_at(70, "Full", 80.0);
    insert_at(80, "Full", 81.0);
    insert_at(90, "Charging", 85.0);
    // Where two have as many, the one that was read last.
    insert_at(130, "Discharging", 70.0);
    insert_at(140, "Charging", 72.0);
    insert_at(190, "Charging", 72.0);
    insert_at(200, "Discharging", 70.0);
    // Charging counts before what is neither charging nor discharging.
    insert_at(250, "Charging", 60.0);
    insert_at(260, "Full", 60.0);
    let h = db.get_interval_capacity(60);
    assert_eq!(h[1].status, "Full");
    assert_eq!(f(h[1].capacity), 82.0);
    assert_eq!(h[2].status, "Charging");
    assert_eq!(f(h[2].capacity), 71.0);
    assert_eq!(h[3].status, "Discharging");
    assert_eq!(f(h[3].capacity), 71.0);
    assert_eq!(h[0].status, "Full");
    assert_eq!(h[4].status, "Charging");
    assert_eq!(h[23].status, "Charging");
}

#[test]
fn charts_stay_in_order_and_in_range() {
    let row = |timestamp: &str, capacity: Option<f64>| GraphRow {
        timestamp: timestamp.to_string(),
        voltage: None,
        current_a: None,
        power_w: None,
        temperature_c: None,
        capacity: capacity.map(d),
        status: "Full".to_string(),
    };
    let rows = vec![
        row("2024-01-01T00:00:00", Some(50.0)),
        row("2024-01-01T00:00:00", None),
        row("2024-01-01T00:00:05", Some(70.5)),
    ];
    let data = get_graph_data(Some(&rows), 0);
    assert_eq!(fs(&data.timestamps), vec![1704067200.0, 1704067200.0, 1704067205.0]);
    assert_eq!(fs(&data.capacity), vec![50.0, 50.0, 70.5]);
}

#[test]
fn hours_outside_the_day_are_ignored() {
    let rows = vec![(24, d(1.0)), (-1, d(2.0)), (23, d(3.0)), (0, d(4.0))];
    let hourly = hourly_drain_intensity(Some(&rows));
    assert_eq!(hourly[23], Some(d(3.0)));
    assert_eq!(hourly[0], Some(d(4.0)));
    assert_eq!(hourly.iter().filter(|h| h.is_some()).count(), 2);
    assert!(hourly_drain_intensity(None).iter().all(|h| h.is_none()));
}

#[test]
fn months_far_away() {
    assert_eq!(month_label(2024, 12, -1), "2025-01");
    assert_eq!(month_label(0, 1, 1), "-001-12");
    assert_eq!(month_label(12345, 6, 0), "12345-06");
    let trend = monthly_health_trend(&vec![("2023-12".to_string(), d(91.0))], 3, 2024, 2);
    let expected =
        vec![("2023-12".to_string(), Some(d(91.0))), ("2024-01".to_string(), None), ("2024-02".to_string(), None)];
    assert_eq!(trend, expected);
    assert!(monthly_health_trend(&vec![], 0, 2024, 2).is_empty());
    assert!(monthly_health_trend(&vec![], -4, 2024, 2).is_empty());
}

#[test]
fn database_path() {
    assert_eq!(
        default_db_path(&Some(b"/home/u/.local/share".to_vec())),
        b"/home/u/.local/share/battery-monitor/battery_history.db".to_vec()
    );
    assert_eq!(default_db_path(&None), b"./battery-monitor/battery_history.db".to_vec());
    assert_eq!(DEFAULT_RETENTION_DAYS, 35);
    assert!(GraphData::default().status.is_empty());
}
