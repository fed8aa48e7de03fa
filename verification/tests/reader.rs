use std::collections::BTreeMap;

use battery_core::reader::Name;
use battery_core::rank::{rank, Ranked};
use battery_core::sysfs::SupplyFiles;
use battery_core::{find_battery_paths, BatteryReader, Double, Reading};

fn f(x: Double) -> f64 {
    f64::from_bits(x.to_bits())
}

fn d(x: f64) -> Double {
    Double::from_bits(x.to_bits())
}

fn base_fields() -> BTreeMap<&'static str, String> {
    let mut m = BTreeMap::new();
    m.insert("voltage_now", "12000000".to_string());
    m.insert("voltage_min_design", "11000000".to_string());
    m.insert("charge_now", "2500000".to_string());
    m.insert("charge_full", "5000000".to_string());
    m.insert("charge_full_design", "5500000".to_string());
    m.insert("cycle_count", "42".to_string());
    m.insert("manufacturer", "Acme".to_string());
    m.insert("model_name", "X1".to_string());
    m.insert("technology", "Li-ion".to_string());
    m
}

fn supply(fields: &BTreeMap<&'static str, String>) -> SupplyFiles {
    SupplyFiles {
        entries: fields.iter().map(|(k, v)| (k.to_string(), v.clone())).collect(),
    }
}

fn read_all(fields: &BTreeMap<&'static str, String>) -> Reading {
    BatteryReader::new(Some(b"/sys/class/power_supply/BAT0".to_vec())).get(&supply(fields))
}

fn reading_with(overrides: &[(&'static str, &str)]) -> Reading {
    reading_without(&[], overrides)
}

fn reading_without(remove: &[&'static str], overrides: &[(&'static str, &str)]) -> Reading {
    let mut fields = base_fields();
    for k in remove {
        fields.remove(k);
    }
    for (k, v) in overrides {
        fields.insert(k, v.to_string());
    }
    read_all(&fields)
}

#[test]
fn no_battery_returns_placeholder() {
    let data = BatteryReader::new(None).get(&supply(&BTreeMap::new()));
    assert_eq!(data.status, "No Battery");
    assert_eq!(data.capacity, None);
    assert_eq!(data.time_remaining_str, "No battery detected");
}

#[test]
fn discharging_computes_remaining_time() {
    let data = reading_with(&[
        ("status", "Discharging"),
        ("capacity", "50"),
        ("current_now", "1000000"),
    ]);
    assert!(data.time_remaining_str.contains("remaining"));
    assert!((f(data.discharging_current) - 1.0).abs() < 1e-9);
    assert_eq!(f(data.charging_current), 0.0);
}

#[test]
fn charging_computes_time_until_full() {
    let data = reading_with(&[
        ("status", "Charging"),
        ("capacity", "50"),
        ("current_now", "1000000"),
    ]);
    assert!(data.time_remaining_str.contains("until full"));
    assert!((f(data.charging_current) - 1.0).abs() < 1e-9);
}

#[test]
fn full_status_reports_fully_charged() {
    let data = reading_with(&[("status", "Full"), ("capacity", "100"), ("current_now", "0")]);
    assert_eq!(data.time_remaining_str, "Fully Charged");
    assert_eq!(data.short_time_str, "Full");
}

#[test]
fn full_with_residual_current_still_reports_fully_charged() {
    let data = reading_with(&[("status", "Full"), ("capacity", "100"), ("current_now", "50000")]);
    assert_eq!(data.time_remaining_str, "Fully Charged");
}

#[test]
fn not_charging_with_limit_reports_the_limit() {
    let data = reading_with(&[
        ("status", "Not charging"),
        ("capacity", "80"),
        ("current_now", "0"),
        ("charge_control_end_threshold", "80"),
    ]);
    assert_eq!(data.time_remaining_str, "Charge limit reached (80%)");
    assert_eq!(data.short_time_str, "Limit 80%");
}

#[test]
fn not_charging_without_limit_reports_generic_idle() {
    let data =
        reading_with(&[("status", "Not charging"), ("capacity", "100"), ("current_now", "0")]);
    assert_eq!(data.time_remaining_str, "Plugged in, not charging");
    assert_eq!(data.short_time_str, "Idle");
}

#[test]
fn health_uses_ah_ratio_when_available() {
    let data = reading_with(&[("charge_full", "4400000"), ("charge_full_design", "5500000")]);
    assert!((f(data.health.unwrap()) - 80.0).abs() < 1e-6);
    assert_eq!(data.health_status, "Good");
}

#[test]
fn health_falls_back_to_wh_ratio_without_charge_nodes() {
    let data = reading_without(
        &["charge_full", "charge_full_design"],
        &[("energy_full", "44000000"), ("energy_full_design", "55000000")],
    );
    assert!((f(data.health.unwrap()) - 80.0).abs() < 1e-6);
}

#[test]
fn missing_voltage_does_not_fabricate_energy() {
    let data = reading_without(
        &["voltage_now", "voltage_min_design"],
        &[("status", "Discharging"), ("capacity", "50"), ("current_now", "1000000")],
    );
    assert_eq!(data.voltage, None);
    assert_eq!(data.energy_now, None);
}

#[test]
fn missing_sysfs_file_reads_as_none_not_error() {
    let mut fields = BTreeMap::new();
    fields.insert("status", "Discharging".to_string());
    let data = read_all(&fields);
    assert_eq!(data.capacity, None);
}

#[test]
fn a_whole_reading() {
    let data = reading_with(&[
        ("status", "Discharging\n"),
        ("capacity", " 50 \n"),
        ("current_now", "1234567"),
        ("temp", "314"),
    ]);
    let v = 12000000.0 / 1_000_000.0;
    let c = 1234567.0 / 1_000_000.0;
    let now = (2500000.0 / 1_000_000.0) * (11000000.0 / 1_000_000.0);
    let hours: f64 = now / (v * c);
    assert_eq!(data.status, "Discharging");
    assert_eq!(data.capacity, Some(d(50.0)));
    assert_eq!(data.voltage, Some(d(v)));
    assert_eq!(data.design_voltage, Some(d(11.0)));
    assert_eq!(data.current_a, Some(d(c)));
    assert_eq!(data.discharging_current, d(c));
    assert_eq!(data.charging_current, d(0.0));
    assert_eq!(data.power, Some(d(v * c)));
    assert_eq!(data.temperature, Some(d(314.0 / 10.0)));
    assert_eq!(data.charge_now, Some(d(2.5)));
    assert_eq!(data.charge_full, Some(d(5.0)));
    assert_eq!(data.design_capacity, Some(d(5.5)));
    assert_eq!(data.energy_now, Some(d(now)));
    assert_eq!(data.energy_full, Some(d(5.0 * 11.0)));
    assert_eq!(data.energy_design, Some(d(5.5 * 11.0)));
    assert_eq!(data.health, Some(d(5.0 / 5.5 * 100.0)));
    assert_eq!(data.health_status, "Good");
    assert_eq!(data.cycle, Some(d(42.0)));
    assert_eq!(data.charge_limit, None);
    let time = format!("{}h {}m", hours as i64, (hours.fract() * 60.0) as i64);
    assert_eq!(data.short_time_str, time);
    assert_eq!(data.time_remaining_str, format!("{time} remaining"));
    assert_eq!(data.manufacturer, "Acme");
    assert_eq!(data.model, "X1");
    assert_eq!(data.technology, "Li-ion");
    assert_eq!(data.clone(), data);
}

#[test]
fn charging_time_counts_what_is_missing() {
    let data = reading_with(&[("status", "Charging"), ("current_now", "2000000")]);
    // 55 Wh less 27.5 Wh, at 24 W.
    assert_eq!(data.time_remaining_str, "1h 8m until full");
    // More than full is nothing missing.
    let over = reading_with(&[
        ("status", "Charging"),
        ("current_now", "2000000"),
        ("charge_now", "6000000"),
    ]);
    assert_eq!(over.time_remaining_str, "0h 0m until full");
}

#[test]
fn hardly_any_power_gives_no_estimate() {
    let data = reading_with(&[("status", "Discharging"), ("current_now", "800")]);
    assert_eq!(data.time_remaining_str, "Calculating...");
    assert_eq!(data.short_time_str, "—");
    let unknown = reading_with(&[("status", "Unknown"), ("current_now", "1000000")]);
    assert_eq!(unknown.time_remaining_str, "Calculating...");
}

#[test]
fn health_words_by_threshold() {
    let word = |full: &str| {
        reading_with(&[("charge_full", full), ("charge_full_design", "1000000")]).health_status
    };
    assert_eq!(word("800000"), "Good");
    assert_eq!(word("799999"), "Fair");
    assert_eq!(word("600000"), "Fair");
    assert_eq!(word("599999"), "Poor");
    assert_eq!(word("400000"), "Poor");
    assert_eq!(word("399999"), "Critical");
    assert_eq!(reading_with(&[("charge_full_design", "0")]).health_status, "Unknown");
    assert_eq!(reading_with(&[("charge_full_design", "0")]).health, None);
}

#[test]
fn numbers_that_are_none_read_as_missing() {
    let data = reading_with(&[("capacity", "fifty"), ("temp", "")]);
    assert_eq!(data.capacity, None);
    assert_eq!(data.temperature, None);
    let mut fields = BTreeMap::new();
    fields.insert("capacity", "1e2".to_string());
    let data = read_all(&fields);
    assert_eq!(data.capacity, Some(d(100.0)));
    assert_eq!(data.status, "Unknown");
    assert_eq!(data.manufacturer, "Unknown");
    assert_eq!(data.model, "Unknown");
    assert_eq!(data.technology, "Unknown");
}

#[test]
fn native_energy_goes_before_derived() {
    let data = reading_with(&[("energy_now", "30000000")]);
    assert_eq!(data.energy_now, Some(d(30.0)));
}

#[test]
fn the_files_to_read() {
    let files = BatteryReader::new(Some(b"/sys/class/power_supply/BAT1".to_vec())).files();
    assert_eq!(files.len(), 17);
    assert_eq!(files[0].0, "status");
    assert_eq!(files[0].1, b"/sys/class/power_supply/BAT1/status".to_vec());
    assert!(files.iter().any(|x| x.0 == "charge_control_end_threshold"));
    assert!(BatteryReader::new(None).files().is_empty());
}

#[test]
fn batteries_are_found_in_order() {
    let names: Vec<String> =
        ["BAT1", "AC", "BATX", "BAT0", "hidpp_battery_7", "BAT", "BAT10"].map(String::from).to_vec();
    let paths: Vec<String> = find_battery_paths(&names)
        .into_iter()
        .map(|p| String::from_utf8(p).unwrap())
        .collect();
    assert_eq!(
        paths,
        vec![
            "/sys/class/power_supply/BAT",
            "/sys/class/power_supply/BAT0",
            "/sys/class/power_supply/BAT1",
            "/sys/class/power_supply/BAT10",
            "/sys/class/power_supply/BATX",
        ]
    );
    assert!(find_battery_paths(&vec![]).is_empty());
}

#[test]
fn names_rank_as_strings_do() {
    let words = ["b", "a", "", "ab", "é", "z", "zz", "Z", "a", "\u{10000}", "\u{ffff}"];
    let names: Vec<Name> = words.iter().map(|w| Name { chars: w.chars().collect() }).collect();
    let ranked: Vec<String> = rank(names).into_iter().map(|n| n.chars.into_iter().collect()).collect();
    let mut sorted: Vec<String> = words.iter().map(|w| w.to_string()).collect();
    sorted.sort();
    assert_eq!(ranked, sorted);
    let one = Name { chars: vec!['a'] };
    let two = Name { chars: vec!['b'] };
    assert!(one.precedes(&two));
    assert!(!two.precedes(&one));
    assert!(!one.precedes(&one));
}

#[test]
fn other_files_make_no_difference() {
    let plain = reading_with(&[("status", "Discharging"), ("current_now", "1500000")]);
    let more = reading_with(&[
        ("status", "Discharging"),
        ("current_now", "1500000"),
        ("uevent", "POWER_SUPPLY_STATUS=Full"),
        ("power_now", "7"),
    ]);
    assert_eq!(plain, more);
}

#[test]
fn the_first_of_two_entries_counts() {
    let files = SupplyFiles {
        entries: vec![
            ("capacity".to_string(), "1".to_string()),
            ("capacity".to_string(), "2".to_string()),
        ],
    };
    assert_eq!(files.num("capacity"), Some(d(1.0)));
    assert_eq!(files.read("other"), None);
}
