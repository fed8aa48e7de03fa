use battery_core::alerts::{
    initial_thresholds, notifications, set_alert_thresholds, AlertLog, ALERTS_KEPT,
};
use battery_core::{BatteryAlertDetector, Double, Reading, Severity};

fn d(x: f64) -> Double {
    Double::from_bits(x.to_bits())
}

fn detector() -> BatteryAlertDetector {
    BatteryAlertDetector::new(d(20.0), d(5.0))
}

fn reading(status: &str, capacity: f64) -> Reading {
    Reading { status: status.to_string(), capacity: Some(d(capacity)), ..Reading::default() }
}

#[test]
fn low_battery_fires_once_per_crossing() {
    let mut det = detector();
    assert!(det.observe(&reading("Discharging", 50.0)).is_empty());
    let alerts = det.observe(&reading("Discharging", 19.0));
    assert_eq!(alerts.len(), 1);
    assert_eq!(alerts[0].0, Severity::Warning);
    // Still below the threshold on the next tick: no second alert.
    assert!(det.observe(&reading("Discharging", 18.0)).is_empty());
}

#[test]
fn low_battery_rearms_after_recovering_above_threshold() {
    let mut det = detector();
    det.observe(&reading("Discharging", 19.0));
    assert!(det.observe(&reading("Charging", 25.0)).is_empty());
    let alerts = det.observe(&reading("Discharging", 19.0));
    assert_eq!(alerts.len(), 1);
}

#[test]
fn critical_takes_priority_and_suppresses_low_on_the_same_tick() {
    let mut det = detector();
    det.observe(&reading("Discharging", 50.0));
    let alerts = det.observe(&reading("Discharging", 4.0));
    assert_eq!(alerts.len(), 1);
    assert_eq!(alerts[0].0, Severity::Critical);
}

#[test]
fn charging_never_triggers_low_battery() {
    let mut det = detector();
    assert!(det.observe(&reading("Charging", 4.0)).is_empty());
}

#[test]
fn temperature_warning_and_critical_tiers() {
    let mut det = detector();
    let mut r = reading("Discharging", 80.0);
    r.temperature = Some(d(50.0));
    let alerts = det.observe(&r);
    assert_eq!(alerts.len(), 1);
    assert_eq!(alerts[0].0, Severity::Warning);

    r.temperature = Some(d(30.0)); // cools down and arms again
    det.observe(&r);
    r.temperature = Some(d(60.0));
    let alerts = det.observe(&r);
    assert_eq!(alerts.len(), 1);
    assert_eq!(alerts[0].0, Severity::Critical);
}

#[test]
fn power_spike_detected_against_a_warm_baseline() {
    let mut det = detector();
    let mut r = reading("Discharging", 80.0);
    r.power = Some(d(10.0));
    for _ in 0..30 {
        det.observe(&r); // lets the average settle near ten watts
    }
    r.power = Some(d(40.0)); // four times the baseline
    let alerts = det.observe(&r);
    assert_eq!(alerts.len(), 1);
    assert_eq!(alerts[0].0, Severity::Warning);
}

#[test]
fn no_spike_alert_from_a_near_zero_idle_baseline() {
    let mut det = detector();
    let mut r = reading("Full", 100.0);
    r.power = Some(d(0.05));
    for _ in 0..10 {
        det.observe(&r);
    }
    r.power = Some(d(2.0)); // forty times as much, but next to nothing
    assert!(det.observe(&r).is_empty());
}

#[test]
fn missing_fields_are_silently_skipped_not_fabricated() {
    let mut det = detector();
    let r = Reading::default();
    assert!(det.observe(&r).is_empty());
}

#[test]
fn alert_messages_name_the_values() {
    let mut det = detector();
    assert_eq!(
        det.observe(&reading("Discharging", 19.4))[0].1,
        "Low battery: 19% remaining (threshold 20%)"
    );
    assert_eq!(
        det.observe(&reading("Discharging", 4.5))[0].1,
        "Critical battery: 4% remaining (threshold 5%)"
    );
    let mut r = reading("Full", 100.0);
    r.temperature = Some(d(45.0));
    assert_eq!(det.observe(&r)[0].1, "Elevated battery temperature: 45.0°C");
    r.temperature = Some(d(44.9));
    assert!(det.observe(&r).is_empty());
    r.temperature = Some(d(55.04));
    assert_eq!(det.observe(&r)[0].1, "High battery temperature: 55.0°C");
    r.temperature = None;
    r.power = Some(d(10.0));
    assert!(det.observe(&r).is_empty());
    r.power = Some(d(25.1));
    assert_eq!(
        det.observe(&r)[0].1,
        "Power draw spike: 25.1 W vs a recent baseline of 10.0 W"
    );
}

#[test]
fn critical_is_reported_after_low_and_low_not_again() {
    let mut det = detector();
    assert_eq!(det.observe(&reading("Discharging", 15.0)).len(), 1);
    assert_eq!(det.observe(&reading("Discharging", 5.0)).len(), 1);
    assert!(det.observe(&reading("Discharging", 4.0)).is_empty());
    // An unknown charge arms nothing.
    assert!(det.observe(&Reading::default()).is_empty());
    assert!(det.observe(&reading("Discharging", 4.0)).is_empty());
    assert!(det.observe(&reading("Discharging", 15.0)).is_empty());
    assert!(det.observe(&Reading::default()).is_empty());
    assert!(det.observe(&reading("Discharging", 15.0)).is_empty());
}

#[test]
fn every_crossing_into_critical_is_reported() {
    let mut det = detector();
    assert!(det.observe(&reading("Discharging", 50.0)).is_empty());
    let alerts = det.observe(&reading("Discharging", 4.0));
    assert_eq!(alerts.len(), 1);
    assert_eq!(alerts[0].0, Severity::Critical);
    assert!(det.observe(&reading("Discharging", 10.0)).is_empty());
    let alerts = det.observe(&reading("Discharging", 4.0));
    assert_eq!(alerts.len(), 1);
    assert_eq!(alerts[0].0, Severity::Critical);
    assert!(det.observe(&reading("Discharging", 3.0)).is_empty());
    // With an unknown charge in between as well.
    assert!(det.observe(&reading("Discharging", 10.0)).is_empty());
    assert!(det.observe(&Reading::default()).is_empty());
    assert_eq!(det.observe(&reading("Discharging", 4.0)).len(), 1);
}

#[test]
fn heat_is_reported_once_even_when_it_gets_worse() {
    let mut det = detector();
    let mut r = Reading::default();
    r.temperature = Some(d(46.0));
    assert_eq!(det.observe(&r).len(), 1);
    r.temperature = Some(d(70.0));
    assert!(det.observe(&r).is_empty());
}

#[test]
fn spike_is_reported_once_until_the_power_settles() {
    let mut det = detector();
    let mut r = Reading::default();
    r.power = Some(d(10.0));
    det.observe(&r);
    r.power = Some(d(40.0));
    assert_eq!(det.observe(&r).len(), 1);
    r.power = Some(d(100.0));
    assert!(det.observe(&r).is_empty());
    r.power = Some(d(5.0));
    assert!(det.observe(&r).is_empty());
    r.power = Some(d(200.0));
    assert_eq!(det.observe(&r).len(), 1);
}

#[test]
fn baseline_moves_as_native_arithmetic_does() {
    let mut det = detector();
    let mut r = Reading::default();
    let powers = [10.0, 11.3, 9.7, 12.01, 8.88, 24.0, 10.0, 10.1, 33.3, 7.0];
    let mut ema: Option<f64> = None;
    let mut armed = true;
    for p in powers {
        r.power = Some(d(p));
        let alerts = det.observe(&r);
        let mut expected: Vec<String> = Vec::new();
        match ema {
            None => ema = Some(p),
            Some(e) => {
                if e > 0.5 {
                    if p > e * 2.5 && armed {
                        expected.push(format!(
                            "Power draw spike: {p:.1} W vs a recent baseline of {e:.1} W"
                        ));
                        armed = false;
                    } else if p < e * 1.3 {
                        armed = true;
                    }
                } else {
                    armed = true;
                }
                ema = Some(e * (1.0 - 0.1) + p * 0.1);
            }
        }
        let messages: Vec<String> = alerts.into_iter().map(|a| a.1).collect();
        assert_eq!(messages, expected);
    }
}

#[test]
fn thresholds_change_only_when_critical_is_below_low() {
    let mut det = detector();
    assert_eq!(
        set_alert_thresholds(&mut det, d(10.0), d(10.0)),
        Err("critical threshold must be less than low threshold".to_string())
    );
    assert!(det.observe(&reading("Discharging", 25.0)).is_empty());
    assert_eq!(set_alert_thresholds(&mut det, d(30.0), d(10.0)), Ok(()));
    assert_eq!(det.observe(&reading("Discharging", 25.0)).len(), 1);
}

#[test]
fn initial_thresholds_fall_back_to_defaults() {
    assert_eq!(initial_thresholds(None, None), (d(20.0), d(5.0)));
    assert_eq!(initial_thresholds(Some(d(33.0)), None), (d(33.0), d(5.0)));
    assert_eq!(initial_thresholds(None, Some(d(7.0))), (d(20.0), d(7.0)));
}

#[test]
fn severity_labels_and_titles() {
    assert_eq!(Severity::Warning.label(), "Warning");
    assert_eq!(Severity::Critical.label(), "Critical");
    let alerts = vec![
        (Severity::Critical, "hot".to_string()),
        (Severity::Warning, "low".to_string()),
    ];
    assert_eq!(
        notifications(&alerts, true),
        vec![
            ("Battery Monitor — Critical".to_string(), "hot".to_string()),
            ("Battery Monitor — Warning".to_string(), "low".to_string()),
        ]
    );
    assert!(notifications(&alerts, false).is_empty());
}

fn warning(text: &str) -> (Severity, String) {
    (Severity::Warning, text.to_string())
}

#[test]
fn alert_list_is_newest_first_and_numbered() {
    let mut log = AlertLog::new();
    assert!(log.items().is_empty());
    log.record(&vec![warning("a"), warning("b")], &vec!["1".to_string(), "2".to_string()]);
    log.record(&vec![warning("c")], &vec!["3".to_string()]);
    let shown: Vec<(u64, String, String, bool)> =
        log.items().iter().map(|a| (a.id, a.message.clone(), a.time.clone(), a.read)).collect();
    assert_eq!(
        shown,
        vec![
            (2, "c".to_string(), "3".to_string(), false),
            (1, "b".to_string(), "2".to_string(), false),
            (0, "a".to_string(), "1".to_string(), false),
        ]
    );
}

#[test]
fn alert_list_keeps_the_latest() {
    let mut log = AlertLog::default();
    for i in 0..250 {
        log.record(&vec![warning(&format!("{i}"))], &vec![String::new()]);
    }
    assert_eq!(log.items().len(), ALERTS_KEPT);
    assert_eq!(log.items()[0].message, "249");
    assert_eq!(log.items()[199].message, "50");
    assert_eq!(log.items()[199].id, 50);
}

#[test]
fn alerts_are_marked_as_read_one_or_all() {
    let mut log = AlertLog::new();
    let times: Vec<String> = vec![String::new(), String::new(), String::new()];
    log.record(&vec![warning("a"), warning("b"), warning("c")], &times);
    log.mark_read(1);
    let read: Vec<bool> = log.items().iter().map(|a| a.read).collect();
    assert_eq!(read, vec![false, true, false]);
    log.mark_read(77);
    let read: Vec<bool> = log.items().iter().map(|a| a.read).collect();
    assert_eq!(read, vec![false, true, false]);
    log.mark_all_read();
    assert_eq!(log.items()[0].clone(), log.items()[0]);
    assert!(log.items().iter().all(|a| a.read));
}
