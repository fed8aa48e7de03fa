use battery_core::dashboard::{device_rows, fmt_opt, mean_power_text, to_snapshot};
use battery_core::settings::{
    close_window, prune_is_due, settings_path, AppSettings, CloseAction, UPDATE_MS,
};
use battery_core::sysfs::SupplyFiles;
use battery_core::{BatteryReader, Double, PeripheralDevice, Reading};

fn d(x: f64) -> Double {
    Double::from_bits(x.to_bits())
}

#[test]
fn numbers_with_units() {
    assert_eq!(fmt_opt(Some(d(12.345)), " V", 2), format!("{:.2} V", 12.345));
    assert_eq!(fmt_opt(None, " V", 2), "—");
    assert_eq!(mean_power_text(Some(d(7.25))), "7.2 W");
    assert_eq!(mean_power_text(None), "—");
}

#[test]
fn snapshot_of_a_reading() {
    let r = Reading {
        status: "Charging".to_string(),
        capacity: Some(d(55.5)),
        voltage: Some(d(12.0)),
        design_voltage: Some(d(11.1)),
        current_a: Some(d(1.234)),
        power: Some(d(14.808)),
        temperature: Some(d(31.25)),
        health: Some(d(90.9)),
        health_status: "Good".to_string(),
        cycle: Some(d(42.0)),
        charge_limit: Some(d(80.0)),
        energy_design: Some(d(60.5)),
        energy_full: Some(d(55.0)),
        energy_now: Some(d(27.5)),
        design_capacity: Some(d(5.5)),
        charge_full: Some(d(5.0)),
        charge_now: Some(d(2.5)),
        time_remaining_str: "soon".to_string(),
        manufacturer: "Acme".to_string(),
        model: "X1".to_string(),
        technology: "Li-ion".to_string(),
        ..Reading::default()
    };
    let s = to_snapshot(&r, "12:34:56");
    assert_eq!(s.status, "Charging");
    assert_eq!(s.capacity_percent, Some(d(55.5)));
    assert_eq!(s.voltage, "12.00 V");
    assert_eq!(s.design_voltage, "11.10 V");
    assert_eq!(s.current_a, "1.23 A");
    assert_eq!(s.power_w, "14.8 W");
    assert_eq!(s.temperature_c, "31.2°C");
    assert_eq!(s.health_percent, "91%");
    assert_eq!(s.health_status, "Good");
    assert_eq!(s.cycle_count, "42");
    assert_eq!(s.charge_limit, "80%");
    assert_eq!(s.design_capacity_wh, "60.5 Wh");
    assert_eq!(s.full_capacity_wh, "55.0 Wh");
    assert_eq!(s.current_capacity_wh, "27.5 Wh");
    assert_eq!(s.design_capacity_ah, "5.50 Ah");
    assert_eq!(s.full_capacity_ah, "5.00 Ah");
    assert_eq!(s.current_capacity_ah, "2.50 Ah");
    assert_eq!(s.time_remaining, "soon");
    assert_eq!(s.manufacturer, "Acme");
    assert_eq!(s.model, "X1");
    assert_eq!(s.technology, "Li-ion");
    assert_eq!(s.last_updated, "12:34:56");
    assert!(s.has_battery);
}

#[test]
fn snapshot_without_a_battery() {
    let none = BatteryReader::new(None).get(&SupplyFiles { entries: vec![] });
    let s = to_snapshot(&none, "");
    assert!(!s.has_battery);
    assert_eq!(s.voltage, "—");
    assert_eq!(s.cycle_count, "—");
    assert_eq!(s.charge_limit, "Not set");
}

#[test]
fn devices_start_with_the_laptop() {
    let mouse = PeripheralDevice {
        name: "Mouse".to_string(),
        manufacturer: None,
        status: "Low".to_string(),
        capacity_percent: None,
    };
    let mut r = Reading {
        status: "Full".to_string(),
        model: "Unknown".to_string(),
        manufacturer: "Acme".to_string(),
        capacity: Some(d(100.0)),
        ..Reading::default()
    };
    let rows = device_rows(&r, &vec![mouse.clone()]);
    assert_eq!(rows.len(), 2);
    assert_eq!(rows[0].name, "Internal Battery");
    assert_eq!(rows[0].manufacturer, "Acme");
    assert_eq!(rows[0].capacity_percent, Some(d(100.0)));
    assert_eq!(rows[1].name, "Mouse");
    assert_eq!(rows[1].manufacturer, "Unknown");
    assert_eq!(rows[1].status, "Low");
    r.model = "X1".to_string();
    assert_eq!(device_rows(&r, &vec![])[0].name, "X1");
    r.status = "No Battery".to_string();
    assert_eq!(device_rows(&r, &vec![mouse]).len(), 1);
}

#[test]
fn default_settings() {
    let s = AppSettings::default();
    assert_eq!(s.capacity_unit, "Wh");
    assert_eq!(s.refresh_interval_secs, 1);
    assert!(s.notif_desktop && s.notif_tray && !s.has_shown_tray_hint);
    assert_eq!(s.history_retention_days, 35);
    assert_eq!(
        settings_path(&Some(b"/data".to_vec())),
        b"/data/battery-monitor/settings.json".to_vec()
    );
}

#[test]
fn old_readings_are_deleted_hourly() {
    let due: Vec<u64> = (1..=7200).filter(|t| prune_is_due(*t)).collect();
    assert_eq!(due, vec![3_600_000 / UPDATE_MS, 2 * 3_600_000 / UPDATE_MS]);
}

#[test]
fn the_tray_hint_is_shown_once() {
    let (action, settings) = close_window(true, AppSettings::default());
    assert_eq!(action, CloseAction::HideWithHint);
    assert!(settings.has_shown_tray_hint);
    let (action, settings) = close_window(true, settings);
    assert_eq!(action, CloseAction::Hide);
    assert!(settings.has_shown_tray_hint);
    let (action, settings) = close_window(false, AppSettings::default());
    assert_eq!(action, CloseAction::Quit);
    assert!(!settings.has_shown_tray_hint);
}
