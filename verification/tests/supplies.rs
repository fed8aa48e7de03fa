use battery_core::devices::{device_nodes, Supply};
use battery_core::sysfs::SupplyFiles;
use battery_core::usbpd::source_nodes;
use battery_core::{read_active_usb_pd, read_peripheral_devices, Double};

fn d(x: f64) -> Double {
    Double::from_bits(x.to_bits())
}

fn files(fields: &[(&str, &str)]) -> SupplyFiles {
    SupplyFiles { entries: fields.iter().map(|(k, v)| (k.to_string(), v.to_string())).collect() }
}

fn supply(name: &str, fields: &[(&str, &str)]) -> Supply {
    Supply {
        path: format!("/sys/class/power_supply/{name}").into_bytes(),
        name: Some(name.to_string()),
        files: files(fields),
    }
}

#[test]
fn finds_a_battery_type_peripheral_with_no_numeric_capacity() {
    let found = read_peripheral_devices(
        &vec![supply(
            "hidpp_battery_7",
            &[
                ("type", "Battery"),
                ("model_name", "Wireless Mouse MX Master 3"),
                ("manufacturer", "Logitech"),
                ("status", "Charging"),
                ("capacity_level", "Unknown"),
            ],
        )],
        &vec![],
    );
    assert_eq!(found.len(), 1);
    assert_eq!(found[0].name, "Wireless Mouse MX Master 3");
    assert_eq!(found[0].manufacturer.as_deref(), Some("Logitech"));
    assert_eq!(found[0].status, "Charging");
    assert_eq!(found[0].capacity_percent, None); // not made up from the level
}

#[test]
fn skips_non_battery_type_supplies() {
    let found =
        read_peripheral_devices(&vec![supply("AC", &[("type", "Mains"), ("online", "1")])], &vec![]);
    assert!(found.is_empty());
}

#[test]
fn excludes_the_given_paths() {
    let supplies = vec![
        supply(
            "BAT0",
            &[("type", "Battery"), ("model_name", "Internal"), ("status", "Full"), ("capacity", "100")],
        ),
        supply(
            "hidpp_battery_7",
            &[("type", "Battery"), ("model_name", "Mouse"), ("status", "Discharging")],
        ),
    ];
    let bat0 = supplies[0].path.clone();
    let all = read_peripheral_devices(&supplies, &vec![]);
    let filtered = read_peripheral_devices(&supplies, &vec![bat0]);
    assert_eq!(all.len(), 2);
    assert_eq!(filtered.len(), 1);
    assert_eq!(filtered[0].name, "Mouse");
    // A path that leads the same way leaves out the same supply.
    let odd = b"//sys/class/./power_supply//BAT0/".to_vec();
    assert_eq!(read_peripheral_devices(&supplies, &vec![odd]).len(), 1);
}

#[test]
fn reads_a_real_numeric_capacity_when_present() {
    let found = read_peripheral_devices(
        &vec![supply(
            "hid_headset",
            &[
                ("type", "Battery"),
                ("model_name", "Headset"),
                ("status", "Discharging"),
                ("capacity", "63"),
            ],
        )],
        &vec![],
    );
    assert_eq!(found[0].capacity_percent, Some(d(63.0)));
}

#[test]
fn devices_fall_back_to_what_is_there() {
    let mut bare = supply("hid_x", &[("type", " Battery\n"), ("capacity_level", "Low")]);
    let found = read_peripheral_devices(&vec![bare], &vec![]);
    assert_eq!(found[0].name, "hid_x");
    assert_eq!(found[0].manufacturer, None);
    assert_eq!(found[0].status, "Low");
    assert_eq!(found[0].clone(), found[0]);
    bare = supply("hid_x", &[("type", "Battery")]);
    bare.name = None;
    let found = read_peripheral_devices(&vec![bare], &vec![]);
    assert_eq!(found[0].name, "Unknown device");
    assert_eq!(found[0].status, "Unknown");
    assert!(read_peripheral_devices(&vec![supply("x", &[])], &vec![]).is_empty());
}

#[test]
fn finds_an_online_pd_source_and_scales_micro_units() {
    let found = read_active_usb_pd(&vec![files(&[
        ("online", "1"),
        ("usb_type", "PD"),
        ("voltage_now", "9000000"),
        ("current_now", "2000000"),
        ("current_max", "3000000"),
    ])])
    .unwrap();
    assert_eq!(found.usb_type, "PD");
    assert_eq!(found.voltage_v, Some(d(9.0)));
    assert_eq!(found.current_a, Some(d(2.0)));
    assert_eq!(found.max_current_a, Some(d(3.0)));
    assert_eq!(found.watts, Some(d(18.0))); // 9 V times 2 A
    assert_eq!(found.clone(), found);
}

#[test]
fn skips_an_offline_device() {
    let found = read_active_usb_pd(&vec![files(&[("online", "0"), ("usb_type", "PD")])]);
    assert!(found.is_none());
}

#[test]
fn skips_a_non_pd_online_source() {
    let found = read_active_usb_pd(&vec![files(&[("online", "1"), ("usb_type", "SDP")])]);
    assert!(found.is_none());
}

#[test]
fn missing_current_leaves_watts_unset_rather_than_fabricated() {
    let found = read_active_usb_pd(&vec![files(&[
        ("online", "1"),
        ("usb_type", "PD"),
        ("voltage_now", "9000000"),
    ])])
    .unwrap();
    assert_eq!(found.voltage_v, Some(d(9.0)));
    assert_eq!(found.current_a, None);
    assert_eq!(found.watts, None);
}

#[test]
fn the_first_active_source_counts() {
    let found = read_active_usb_pd(&vec![
        files(&[("usb_type", "PD")]),
        files(&[("online", "1")]),
        files(&[("online", "1\n"), ("usb_type", "C [PD] PD_PPS\n"), ("voltage_now", "5000000")]),
        files(&[("online", "1"), ("usb_type", "PD"), ("voltage_now", "9000000")]),
    ])
    .unwrap();
    assert_eq!(found.usb_type, "C [PD] PD_PPS");
    assert_eq!(found.voltage_v, Some(d(5.0)));
    assert!(read_active_usb_pd(&vec![]).is_none());
}

#[test]
fn the_files_that_are_asked_for() {
    assert_eq!(
        device_nodes(),
        vec!["type", "model_name", "manufacturer", "status", "capacity_level", "capacity"]
    );
    assert_eq!(
        source_nodes(),
        vec!["online", "usb_type", "voltage_now", "current_now", "current_max"]
    );
}
