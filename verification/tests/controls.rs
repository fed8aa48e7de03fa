use battery_core::autostart::{autostart_path, disable, enable, is_enabled};
use battery_core::battery_saver::{
    auto_battery_saver_enabled, get_arguments, parse_gsettings_bool, parse_upower_conf,
    set_arguments, set_auto_battery_saver, upower_low_critical_thresholds,
};
use battery_core::charging::{
    end_path, read_charge_thresholds, set_charge_thresholds, start_path, thresholds_written,
};
use battery_core::command::Finished;
use battery_core::path::Looked;
use battery_core::power_profile::{active_profile, list_profiles, parse_profile_list, set_profile};
use battery_core::rapl::{
    energy_delta_uj, energy_path, package_power_watts, rapl_available, read_package_power_watts,
    read_sample, script, Sample,
};
use battery_core::sysfs::SupplyFiles;
use battery_core::Double;

fn d(x: f64) -> Double {
    Double::from_bits(x.to_bits())
}

fn finished(success: bool, stdout: &[u8]) -> Finished {
    Finished { success, stdout: stdout.to_vec() }
}

fn err(s: &str) -> Result<(), String> {
    Err(s.to_string())
}

#[test]
fn parses_gsettings_booleans() {
    assert_eq!(parse_gsettings_bool("true\n"), Some(true));
    assert_eq!(parse_gsettings_bool("false\n"), Some(false));
    assert_eq!(parse_gsettings_bool("garbage"), None);
}

#[test]
fn parses_real_upower_conf_fragment() {
    let sample = "\
[UPower]
UsePercentageForPolicy=true
# comment line, ignored, must not shadow the real value below
#PercentageLow=10
PercentageLow=20
PercentageCritical=5
PercentageAction=2
";
    assert_eq!(parse_upower_conf(sample), (Some(d(20.0)), Some(d(5.0))));
}

#[test]
fn missing_keys_yield_none() {
    assert_eq!(parse_upower_conf("[UPower]\n"), (None, None));
}

#[test]
fn the_last_setting_counts() {
    assert_eq!(
        parse_upower_conf("PercentageLow=1\r\n  PercentageLow= 2.5 \nPercentageCritical=x"),
        (Some(d(2.5)), None)
    );
    assert_eq!(parse_upower_conf("PercentageLow=1\nPercentageLow=\n"), (None, None));
    assert_eq!(parse_upower_conf("PercentageLow=1\n# PercentageLow=7"), (Some(d(1.0)), None));
    assert_eq!(upower_low_critical_thresholds(None), (None, None));
    assert_eq!(
        upower_low_critical_thresholds(Some("PercentageCritical=3")),
        (None, Some(d(3.0)))
    );
}

#[test]
fn battery_saver_answers() {
    assert_eq!(auto_battery_saver_enabled(&None), None);
    assert_eq!(auto_battery_saver_enabled(&Some(finished(false, b"true"))), None);
    assert_eq!(auto_battery_saver_enabled(&Some(finished(true, b"true\n"))), Some(true));
    assert_eq!(auto_battery_saver_enabled(&Some(finished(true, b" false"))), Some(false));
    assert_eq!(auto_battery_saver_enabled(&Some(finished(true, b"\xfftrue"))), None);
    assert_eq!(set_auto_battery_saver(Ok(true)), Ok(()));
    assert_eq!(set_auto_battery_saver(Ok(false)), err("gsettings set failed"));
    assert_eq!(
        set_auto_battery_saver(Err("gone".to_string())),
        err("failed to run gsettings: gone")
    );
    assert_eq!(
        get_arguments(),
        vec![
            "get",
            "org.gnome.settings-daemon.plugins.power",
            "power-saver-profile-on-low-battery"
        ]
    );
    assert_eq!(set_arguments(true)[0], "set");
    assert_eq!(set_arguments(true)[3], "true");
    assert_eq!(set_arguments(false)[3], "false");
}

#[test]
fn parses_real_powerprofilesctl_list_output() {
    let sample = "  performance:\n    Driver:     intel_pstate\n    Degraded:   no\n\n  balanced:\n    Driver:     intel_pstate\n\n* power-saver:\n    Driver:     intel_pstate\n";
    let profiles = parse_profile_list(sample);
    assert_eq!(profiles, vec!["performance", "balanced", "power-saver"]);
}

#[test]
fn empty_output_yields_no_profiles() {
    assert!(parse_profile_list("").is_empty());
}

#[test]
fn profile_answers() {
    assert!(list_profiles(&None).is_empty());
    assert!(list_profiles(&Some(finished(false, b"* a:\n"))).is_empty());
    assert_eq!(list_profiles(&Some(finished(true, b"* a:\n  b :\nc:\n"))), vec!["a", "b"]);
    assert_eq!(active_profile(&None), None);
    assert_eq!(active_profile(&Some(finished(true, b"  \n"))), None);
    assert_eq!(active_profile(&Some(finished(false, b"balanced\n"))), None);
    assert_eq!(active_profile(&Some(finished(true, b"balanced\n"))), Some("balanced".to_string()));
    assert_eq!(set_profile("balanced", Ok(true)), Ok(()));
    assert_eq!(set_profile("odd", Ok(false)), err("powerprofilesctl set odd failed"));
    assert_eq!(
        set_profile("odd", Err("no".to_string())),
        err("failed to run powerprofilesctl: no")
    );
}

fn threshold_files(entries: &[(&str, &str)]) -> SupplyFiles {
    SupplyFiles {
        entries: entries.iter().map(|(k, v)| (k.to_string(), v.to_string())).collect(),
    }
}

#[test]
fn unsupported_when_battery_path_is_none() {
    let t = read_charge_thresholds(None);
    assert!(!t.supported);
    assert_eq!(t.start, None);
    assert_eq!(t.end, None);
}

#[test]
fn unsupported_when_no_threshold_files_exist() {
    let t = read_charge_thresholds(Some(&threshold_files(&[])));
    assert!(!t.supported);
}

#[test]
fn supported_and_parsed_when_files_exist() {
    let t = read_charge_thresholds(Some(&threshold_files(&[
        ("charge_control_start_threshold", "40"),
        ("charge_control_end_threshold", "80"),
    ])));
    assert!(t.supported);
    assert_eq!(t.start, Some(d(40.0)));
    assert_eq!(t.end, Some(d(80.0)));
}

#[test]
fn rejects_start_greater_than_or_equal_to_end() {
    let dir = b"/tmp/battery";
    assert!(set_charge_thresholds(dir, 80, 40).is_err());
    assert!(set_charge_thresholds(dir, 50, 50).is_err());
    assert_eq!(
        set_charge_thresholds(dir, 50, 50),
        Err("start threshold must be less than end threshold".to_string())
    );
}

#[test]
fn a_threshold_without_a_number_is_still_supported() {
    let t = read_charge_thresholds(Some(&threshold_files(&[(
        "charge_control_end_threshold",
        "none",
    )])));
    assert!(t.supported);
    assert_eq!(t.end, None);
}

#[test]
fn threshold_script_and_result() {
    assert_eq!(start_path(b"/b"), b"/b/charge_control_start_threshold".to_vec());
    assert_eq!(end_path(b"/b/"), b"/b/charge_control_end_threshold".to_vec());
    assert_eq!(
        set_charge_thresholds(b"/b\xff", 0, 100),
        Ok("echo 0 > /b\u{fffd}/charge_control_start_threshold && echo 100 > /b\u{fffd}/charge_control_end_threshold".to_string())
    );
    assert_eq!(thresholds_written(Ok(true)), Ok(()));
    assert_eq!(
        thresholds_written(Ok(false)),
        err("writing charge thresholds failed (cancelled, or rejected by the driver)")
    );
    assert_eq!(thresholds_written(Err("x".to_string())), err("failed to run pkexec: x"));
}

#[test]
fn energy_delta_normal_increase() {
    assert_eq!(energy_delta_uj(1_000, 3_000, 1_000_000), 2_000);
}

#[test]
fn energy_delta_handles_counter_wraparound() {
    // 1_000 left to the end of the range, then 500 more from zero on.
    assert_eq!(energy_delta_uj(999_000, 500, 1_000_000), 1_500);
}

#[test]
fn package_power_from_samples() {
    let run = |s: &[u8]| -> Result<Finished, String> { Ok(finished(true, s)) };
    assert_eq!(
        read_package_power_watts(true, &run(b"1000000 9000000 16500000\n")),
        Ok(d(15.5))
    );
    assert_eq!(
        read_package_power_watts(true, &run(b"8000000 9000000 500000 extra")),
        Ok(d(1500000.0 / 1_000_000.0))
    );
    assert_eq!(
        read_package_power_watts(false, &run(b"1 2 3")),
        Err("No Intel RAPL package-power zone on this system".to_string())
    );
    assert_eq!(
        read_package_power_watts(true, &Err("no".to_string())),
        Err("failed to run pkexec: no".to_string())
    );
    assert_eq!(
        read_package_power_watts(true, &Ok(finished(false, b"1 2 3"))),
        Err("RAPL read failed (cancelled, or rejected by polkit)".to_string())
    );
    for bad in [&b"1 2"[..], b"", b"1 x 3", b"1 2 -3", b"18446744073709551616 1 1"] {
        assert_eq!(
            read_package_power_watts(true, &run(bad)),
            Err("unexpected RAPL output".to_string())
        );
    }
}

#[test]
fn incoherent_samples_give_no_power() {
    let run: Result<Finished, String> = Ok(finished(true, b"10 2 3"));
    assert_eq!(package_power_watts(true, &run), None);
    let run: Result<Finished, String> = Ok(finished(true, b"+10 20 3"));
    assert_eq!(package_power_watts(true, &run), Some(Ok(d(13.0 / 1_000_000.0))));
    assert_eq!(read_sample(true, &run), Ok(Sample { before: 10, max_range: 20, after: 3 }));
    let huge = Sample { before: u64::MAX, max_range: u64::MAX, after: 1 };
    assert!(!huge.is_coherent());
    assert!(Sample { before: 1, max_range: 0, after: u64::MAX }.is_coherent());
}

#[test]
fn rapl_zone_and_script() {
    let there = Looked { path: energy_path(), there: true };
    assert!(rapl_available(&there));
    assert!(!rapl_available(&Looked { path: energy_path(), there: false }));
    assert!(!rapl_available(&Looked { path: b"/elsewhere".to_vec(), there: true }));
    assert_eq!(energy_path(), b"/sys/class/powercap/intel-rapl:0/energy_uj".to_vec());
    assert_eq!(
        script(),
        "a=$(cat /sys/class/powercap/intel-rapl:0/energy_uj) && m=$(cat /sys/class/powercap/intel-rapl:0/max_energy_range_uj) && sleep 1 && b=$(cat /sys/class/powercap/intel-rapl:0/energy_uj) && echo \"$a $m $b\""
    );
}

#[test]
fn autostart_entry() {
    let home = Some(b"/home/u".to_vec());
    let entry = autostart_path(&None, &home);
    assert_eq!(entry, Some(b"/home/u/.config/autostart/battery-monitor.desktop".to_vec()));
    assert_eq!(
        autostart_path(&Some(b"/cfg".to_vec()), &home),
        Some(b"/cfg/autostart/battery-monitor.desktop".to_vec())
    );
    assert_eq!(autostart_path(&None, &None), None);

    let there = Looked { path: entry.clone().unwrap(), there: true };
    let gone = Looked { path: entry.clone().unwrap(), there: false };
    assert!(is_enabled(&entry, &there));
    assert!(!is_enabled(&entry, &gone));
    assert!(!is_enabled(&None, &there));
    assert_eq!(disable(entry.clone(), &there), entry);
    assert_eq!(disable(entry.clone(), &gone), None);
    assert_eq!(disable(None, &there), None);

    let (path, contents) = enable(entry.clone(), b"/usr/bin/battery\xff").unwrap();
    assert_eq!(Some(path), entry);
    assert_eq!(
        contents,
        "[Desktop Entry]\n\
         Type=Application\n\
         Name=Battery Monitor\n\
         Comment=Battery health, telemetry, and power-usage dashboard\n\
         Exec=/usr/bin/battery\u{fffd}\n\
         Terminal=false\n\
         Categories=Utility;\n\
         X-GNOME-Autostart-enabled=true\n"
    );
    assert_eq!(enable(None, b"x"), Err("couldn't determine XDG config directory".to_string()));
}
