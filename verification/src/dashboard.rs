//! What the dashboard shows.

use crate::decimal;
use crate::devices;
use crate::devices::PeripheralDevice;
use crate::double::Double;
use crate::reader;
use crate::reader::Reading;
use crate::sysfs;
use crate::text;
use vstd::prelude::*;

verus! {

/// A number with its unit, or a dash where it is not known.
pub open spec fn shown(v: Option<Double>, unit: Seq<char>, decimals: nat) -> Seq<char> {
    match v {
        Some(x) => decimal::fixed(x, decimals) + unit,
        None => "\u{2014}"@,
    }
}

/// A number with its unit, or a dash where it is not known.
pub fn fmt_opt(v: Option<Double>, unit: &str, decimals: u32) -> (r: String)
    ensures
        r@ == shown(v, unit@, decimals as nat),
{
    match v {
        Some(x) => {
            let mut out: Vec<char> = decimal::fixed_text(x, decimals);
            text::add(&mut out, unit);
            text::string_of(out.as_slice())
        },
        None => "\u{2014}".to_owned(),
    }
}

/// A mean power, or a dash where there is none.
pub fn mean_power_text(watts: Option<Double>) -> (r: String)
    ensures
        r@ == shown(watts, " W"@, 1),
{
    fmt_opt(watts, " W", 1)
}

/// A reading as the dashboard shows it.
#[derive(Debug, PartialEq)]
pub struct DashboardSnapshot {
    /// Status.
    pub status: String,
    /// Charge in percent.
    pub capacity_percent: Option<Double>,
    /// Voltage.
    pub voltage: String,
    /// Design voltage.
    pub design_voltage: String,
    /// Current.
    pub current_a: String,
    /// Power.
    pub power_w: String,
    /// Temperature.
    pub temperature_c: String,
    /// Health.
    pub health_percent: String,
    /// Health in one word.
    pub health_status: String,
    /// Number of charge cycles.
    pub cycle_count: String,
    /// Charge limit.
    pub charge_limit: String,
    /// Design energy.
    pub design_capacity_wh: String,
    /// Full energy.
    pub full_capacity_wh: String,
    /// Present energy.
    pub current_capacity_wh: String,
    /// Design charge.
    pub design_capacity_ah: String,
    /// Full charge.
    pub full_capacity_ah: String,
    /// Present charge.
    pub current_capacity_ah: String,
    /// Time left.
    pub time_remaining: String,
    /// Manufacturer.
    pub manufacturer: String,
    /// Model.
    pub model: String,
    /// Chemistry.
    pub technology: String,
    /// When the battery was last read.
    pub last_updated: String,
    /// Whether there is a battery.
    pub has_battery: bool,
}

/// A [`DashboardSnapshot`] by its texts.
pub struct SnapshotView {
    /// Status.
    pub status: Seq<char>,
    /// Charge in percent.
    pub capacity_percent: Option<Double>,
    /// Voltage.
    pub voltage: Seq<char>,
    /// Design voltage.
    pub design_voltage: Seq<char>,
    /// Current.
    pub current_a: Seq<char>,
    /// Power.
    pub power_w: Seq<char>,
    /// Temperature.
    pub temperature_c: Seq<char>,
    /// Health.
    pub health_percent: Seq<char>,
    /// Health in one word.
    pub health_status: Seq<char>,
    /// Number of charge cycles.
    pub cycle_count: Seq<char>,
    /// Charge limit.
    pub charge_limit: Seq<char>,
    /// Design energy.
    pub design_capacity_wh: Seq<char>,
    /// Full energy.
    pub full_capacity_wh: Seq<char>,
    /// Present energy.
    pub current_capacity_wh: Seq<char>,
    /// Design charge.
    pub design_capacity_ah: Seq<char>,
    /// Full charge.
    pub full_capacity_ah: Seq<char>,
    /// Present charge.
    pub current_capacity_ah: Seq<char>,
    /// Time left.
    pub time_remaining: Seq<char>,
    /// Manufacturer.
    pub manufacturer: Seq<char>,
    /// Model.
    pub model: Seq<char>,
    /// Chemistry.
    pub technology: Seq<char>,
    /// When the battery was last read.
    pub last_updated: Seq<char>,
    /// Whether there is a battery.
    pub has_battery: bool,
}

impl View for DashboardSnapshot {
    type V = SnapshotView;

    open spec fn view(&self) -> SnapshotView {
        SnapshotView {
            status: self.status@,
            capacity_percent: self.capacity_percent,
            voltage: self.voltage@,
            design_voltage: self.design_voltage@,
            current_a: self.current_a@,
            power_w: self.power_w@,
            temperature_c: self.temperature_c@,
            health_percent: self.health_percent@,
            health_status: self.health_status@,
            cycle_count: self.cycle_count@,
            charge_limit: self.charge_limit@,
            design_capacity_wh: self.design_capacity_wh@,
            full_capacity_wh: self.full_capacity_wh@,
            current_capacity_wh: self.current_capacity_wh@,
            design_capacity_ah: self.design_capacity_ah@,
            full_capacity_ah: self.full_capacity_ah@,
            current_capacity_ah: self.current_capacity_ah@,
            time_remaining: self.time_remaining@,
            manufacturer: self.manufacturer@,
            model: self.model@,
            technology: self.technology@,
            last_updated: self.last_updated@,
            has_battery: self.has_battery,
        }
    }
}

/// The charge limit, or that none is set.
pub open spec fn limit_shown(limit: Option<Double>) -> Seq<char> {
    match limit {
        Some(c) => decimal::fixed(c, 0) + "%"@,
        None => "Not set"@,
    }
}

/// What is shown of a reading.
pub open spec fn snapshot(r: reader::ReadingView, last_updated: Seq<char>) -> SnapshotView {
    SnapshotView {
        status: r.status,
        capacity_percent: r.capacity,
        voltage: shown(r.voltage, " V"@, 2),
        design_voltage: shown(r.design_voltage, " V"@, 2),
        current_a: shown(r.current_a, " A"@, 2),
        power_w: shown(r.power, " W"@, 1),
        temperature_c: shown(r.temperature, "\u{b0}C"@, 1),
        health_percent: shown(r.health, "%"@, 0),
        health_status: r.health_status,
        cycle_count: shown(r.cycle, seq![], 0),
        charge_limit: limit_shown(r.charge_limit),
        design_capacity_wh: shown(r.energy_design, " Wh"@, 1),
        full_capacity_wh: shown(r.energy_full, " Wh"@, 1),
        current_capacity_wh: shown(r.energy_now, " Wh"@, 1),
        design_capacity_ah: shown(r.design_capacity, " Ah"@, 2),
        full_capacity_ah: shown(r.charge_full, " Ah"@, 2),
        current_capacity_ah: shown(r.charge_now, " Ah"@, 2),
        time_remaining: r.time_remaining_str,
        manufacturer: r.manufacturer,
        model: r.model,
        technology: r.technology,
        last_updated,
        has_battery: r.status != "No Battery"@,
    }
}

/// What is shown of a reading that was taken at `last_updated`.
pub fn to_snapshot(r: &Reading, last_updated: &str) -> (out: DashboardSnapshot)
    ensures
        out@ == snapshot(r@, last_updated@),
{
    let cycle_count: String = match r.cycle {
        Some(c) => text::string_of(decimal::fixed_text(c, 0).as_slice()),
        None => "\u{2014}".to_owned(),
    };
    assert(cycle_count@ =~= shown(r.cycle, seq![], 0));
    let charge_limit: String = match r.charge_limit {
        Some(c) => fmt_opt(Some(c), "%", 0),
        None => "Not set".to_owned(),
    };
    DashboardSnapshot {
        status: r.status.clone(),
        capacity_percent: r.capacity,
        voltage: fmt_opt(r.voltage, " V", 2),
        design_voltage: fmt_opt(r.design_voltage, " V", 2),
        current_a: fmt_opt(r.current_a, " A", 2),
        power_w: fmt_opt(r.power, " W", 1),
        temperature_c: fmt_opt(r.temperature, "\u{b0}C", 1),
        health_percent: fmt_opt(r.health, "%", 0),
        health_status: r.health_status.clone(),
        cycle_count,
        charge_limit,
        design_capacity_wh: fmt_opt(r.energy_design, " Wh", 1),
        full_capacity_wh: fmt_opt(r.energy_full, " Wh", 1),
        current_capacity_wh: fmt_opt(r.energy_now, " Wh", 1),
        design_capacity_ah: fmt_opt(r.design_capacity, " Ah", 2),
        full_capacity_ah: fmt_opt(r.charge_full, " Ah", 2),
        current_capacity_ah: fmt_opt(r.charge_now, " Ah", 2),
        time_remaining: r.time_remaining_str.clone(),
        manufacturer: r.manufacturer.clone(),
        model: r.model.clone(),
        technology: r.technology.clone(),
        last_updated: last_updated.to_owned(),
        has_battery: !text::same(r.status.as_str(), "No Battery"),
    }
}

/// A device with a battery, as the list of devices shows it.
#[derive(Debug, PartialEq)]
pub struct DeviceRow {
    /// Name of the device.
    pub name: String,
    /// Its manufacturer.
    pub manufacturer: String,
    /// Status of its battery.
    pub status: String,
    /// Charge in percent.
    pub capacity_percent: Option<Double>,
}

/// A [`DeviceRow`] by its texts.
pub struct DeviceRowView {
    /// Name of the device.
    pub name: Seq<char>,
    /// Its manufacturer.
    pub manufacturer: Seq<char>,
    /// Status of its battery.
    pub status: Seq<char>,
    /// Charge in percent.
    pub capacity_percent: Option<Double>,
}

impl View for DeviceRow {
    type V = DeviceRowView;

    open spec fn view(&self) -> DeviceRowView {
        DeviceRowView {
            name: self.name@,
            manufacturer: self.manufacturer@,
            status: self.status@,
            capacity_percent: self.capacity_percent,
        }
    }
}

/// Rows by their views.
pub open spec fn row_views(v: Seq<DeviceRow>) -> Seq<DeviceRowView> {
    Seq::new(v.len(), |i: int| v[i]@)
}

/// The row of the laptop's own battery, where it has one.
pub open spec fn own_row(r: reader::ReadingView) -> Seq<DeviceRowView> {
    if r.status == "No Battery"@ {
        seq![]
    } else {
        seq![
            DeviceRowView {
                name: if r.model != "Unknown"@ {
                    r.model
                } else {
                    "Internal Battery"@
                },
                manufacturer: r.manufacturer,
                status: r.status,
                capacity_percent: r.capacity,
            },
        ]
    }
}

/// The row of another device.
pub open spec fn peripheral_row(d: devices::DeviceView) -> DeviceRowView {
    DeviceRowView {
        name: d.name,
        manufacturer: sysfs::text_or(d.manufacturer, "Unknown"@),
        status: d.status,
        capacity_percent: d.capacity_percent,
    }
}

/// The devices with a battery: the laptop itself, then the others.
pub fn device_rows(r: &Reading, peripherals: &Vec<PeripheralDevice>) -> (out: Vec<DeviceRow>)
    ensures
        row_views(out@) == own_row(r@) + Seq::new(
            peripherals@.len(),
            |i: int| peripheral_row(peripherals@[i]@),
        ),
{
    let mut out: Vec<DeviceRow> = Vec::new();
    if !text::same(r.status.as_str(), "No Battery") {
        let name: String = if text::same(r.model.as_str(), "Unknown") {
            "Internal Battery".to_owned()
        } else {
            r.model.clone()
        };
        let row: DeviceRow = DeviceRow {
            name,
            manufacturer: r.manufacturer.clone(),
            status: r.status.clone(),
            capacity_percent: r.capacity,
        };
        out.push(row);
        assert(row_views(out@) =~= seq![row@]);
    }
    assert(row_views(out@) =~= own_row(r@));
    let mut i: usize = 0;
    while i < peripherals.len()
        invariant
            i <= peripherals@.len(),
            row_views(out@) =~= own_row(r@) + Seq::new(
                i as nat,
                |k: int| peripheral_row(peripherals@[k]@),
            ),
        decreases peripherals@.len() - i,
    {
        let d: &PeripheralDevice = &peripherals[i];
        let manufacturer: Option<String> = match &d.manufacturer {
            Some(m) => Some(m.clone()),
            None => None,
        };
        let row: DeviceRow = DeviceRow {
            name: d.name.clone(),
            manufacturer: sysfs::or_text(manufacturer, "Unknown"),
            status: d.status.clone(),
            capacity_percent: d.capacity_percent,
        };
        let ghost before = row_views(out@);
        out.push(row);
        assert(row_views(out@) =~= before.push(row@));
        assert(row@ == peripheral_row(peripherals@[i as int]@));
        i = i + 1;
    }
    out
}

/// What is not known is shown as a dash, never as a number.
pub proof fn law_unknown_shows_as_a_dash(unit: Seq<char>, decimals: nat)
    ensures
        shown(None, unit, decimals) == "\u{2014}"@,
{
}

/// Each value of a reading is shown in its own place, with its unit: voltages, currents and
/// charges with two digits after the point, powers, energies and temperatures with one, and
/// percentages and cycles with none. What is not known is a dash.
pub proof fn law_values_are_shown_with_their_units(r: reader::ReadingView, time: Seq<char>)
    ensures
        ({
            let s = snapshot(r, time);
            let as_text = |v: Option<Double>, digits: nat, unit: Seq<char>|
                match v {
                    Some(x) => decimal::fixed(x, digits) + unit,
                    None => "\u{2014}"@,
                };
            &&& s.voltage == as_text(r.voltage, 2, " V"@)
            &&& s.design_voltage == as_text(r.design_voltage, 2, " V"@)
            &&& s.current_a == as_text(r.current_a, 2, " A"@)
            &&& s.power_w == as_text(r.power, 1, " W"@)
            &&& s.temperature_c == as_text(r.temperature, 1, "\u{b0}C"@)
            &&& s.health_percent == as_text(r.health, 0, "%"@)
            &&& s.cycle_count == as_text(r.cycle, 0, seq![])
            &&& s.design_capacity_wh == as_text(r.energy_design, 1, " Wh"@)
            &&& s.full_capacity_wh == as_text(r.energy_full, 1, " Wh"@)
            &&& s.current_capacity_wh == as_text(r.energy_now, 1, " Wh"@)
            &&& s.design_capacity_ah == as_text(r.design_capacity, 2, " Ah"@)
            &&& s.full_capacity_ah == as_text(r.charge_full, 2, " Ah"@)
            &&& s.current_capacity_ah == as_text(r.charge_now, 2, " Ah"@)
        }),
{
}

/// The texts of a reading and its charge are shown as they are; a charge limit in whole
/// percent, or that none is set; and there is a battery unless the status says otherwise.
pub proof fn law_texts_are_shown_as_they_are(r: reader::ReadingView, time: Seq<char>)
    ensures
        ({
            let s = snapshot(r, time);
            &&& s.status == r.status && s.health_status == r.health_status
            &&& s.time_remaining == r.time_remaining_str && s.last_updated == time
            &&& s.manufacturer == r.manufacturer && s.model == r.model && s.technology
                == r.technology
            &&& s.capacity_percent == r.capacity
            &&& r.charge_limit matches Some(c) ==> s.charge_limit == decimal::fixed(c, 0) + "%"@
            &&& r.charge_limit is None ==> s.charge_limit == "Not set"@
            &&& s.has_battery <==> r.status != "No Battery"@
        }),
{
}

/// The laptop's own battery, where there is one, is a device named by its model, or as an
/// internal battery where that is not known.
pub proof fn law_the_laptop_is_a_device(r: reader::ReadingView)
    ensures
        r.status == "No Battery"@ ==> own_row(r).len() == 0,
        r.status != "No Battery"@ ==> {
            let row = own_row(r)[0];
            &&& own_row(r).len() == 1
            &&& r.model == "Unknown"@ ==> row.name == "Internal Battery"@
            &&& r.model != "Unknown"@ ==> row.name == r.model
            &&& row.manufacturer == r.manufacturer
            &&& row.status == r.status
            &&& row.capacity_percent == r.capacity
        },
{
}

/// Another device is shown as it told of itself, its manufacturer as unknown where it told
/// none.
pub proof fn law_devices_are_shown_as_they_are(d: devices::DeviceView)
    ensures
        ({
            let row = peripheral_row(d);
            &&& row.name == d.name && row.status == d.status && row.capacity_percent
                == d.capacity_percent
            &&& d.manufacturer matches Some(m) ==> row.manufacturer == m
            &&& d.manufacturer is None ==> row.manufacturer == "Unknown"@
        }),
{
}

} // verus!
