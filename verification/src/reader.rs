//! Readings of the laptop's battery.

use crate::decimal;
use crate::double;
use crate::double::Double;
use crate::path;
use crate::rank;
use crate::rank::Ranked;
use crate::sysfs;
use crate::sysfs::SupplyFiles;
use crate::text;
use vstd::prelude::*;

verus! {

/// One reading of the battery. A value that is not known is missing; none is made
/// up.
#[derive(Debug, PartialEq)]
pub struct Reading {
    /// Status, as the kernel names it.
    pub status: String,
    /// Charge in percent.
    pub capacity: Option<Double>,
    /// Voltage in volts.
    pub voltage: Option<Double>,
    /// Design voltage in volts.
    pub design_voltage: Option<Double>,
    /// Current in amperes.
    pub current_a: Option<Double>,
    /// Current in amperes while charging, else zero.
    pub charging_current: Double,
    /// Current in amperes while discharging, else zero.
    pub discharging_current: Double,
    /// Power in watts.
    pub power: Option<Double>,
    /// Temperature in degrees Celsius.
    pub temperature: Option<Double>,
    /// Present charge in ampere hours.
    pub charge_now: Option<Double>,
    /// Full charge in ampere hours.
    pub charge_full: Option<Double>,
    /// Design charge in ampere hours.
    pub design_capacity: Option<Double>,
    /// Present energy in watt hours.
    pub energy_now: Option<Double>,
    /// Full energy in watt hours.
    pub energy_full: Option<Double>,
    /// Design energy in watt hours.
    pub energy_design: Option<Double>,
    /// Full charge in percent of the design charge.
    pub health: Option<Double>,
    /// Health in one word.
    pub health_status: String,
    /// Number of charge cycles.
    pub cycle: Option<Double>,
    /// Charge limit in percent.
    pub charge_limit: Option<Double>,
    /// Time left, in words.
    pub time_remaining_str: String,
    /// Time left, in short.
    pub short_time_str: String,
    /// Manufacturer.
    pub manufacturer: String,
    /// Model name.
    pub model: String,
    /// Chemistry.
    pub technology: String,
}

/// A [`Reading`] by its texts and numbers.
pub struct ReadingView {
    /// Status, as the kernel names it.
    pub status: Seq<char>,
    /// Charge in percent.
    pub capacity: Option<Double>,
    /// Voltage in volts.
    pub voltage: Option<Double>,
    /// Design voltage in volts.
    pub design_voltage: Option<Double>,
    /// Current in amperes.
    pub current_a: Option<Double>,
    /// Current in amperes while charging, else zero.
    pub charging_current: Double,
    /// Current in amperes while discharging, else zero.
    pub discharging_current: Double,
    /// Power in watts.
    pub power: Option<Double>,
    /// Temperature in degrees Celsius.
    pub temperature: Option<Double>,
    /// Present charge in ampere hours.
    pub charge_now: Option<Double>,
    /// Full charge in ampere hours.
    pub charge_full: Option<Double>,
    /// Design charge in ampere hours.
    pub design_capacity: Option<Double>,
    /// Present energy in watt hours.
    pub energy_now: Option<Double>,
    /// Full energy in watt hours.
    pub energy_full: Option<Double>,
    /// Design energy in watt hours.
    pub energy_design: Option<Double>,
    /// Full charge in percent of the design charge.
    pub health: Option<Double>,
    /// Health in one word.
    pub health_status: Seq<char>,
    /// Number of charge cycles.
    pub cycle: Option<Double>,
    /// Charge limit in percent.
    pub charge_limit: Option<Double>,
    /// Time left, in words.
    pub time_remaining_str: Seq<char>,
    /// Time left, in short.
    pub short_time_str: Seq<char>,
    /// Manufacturer.
    pub manufacturer: Seq<char>,
    /// Model name.
    pub model: Seq<char>,
    /// Chemistry.
    pub technology: Seq<char>,
}

impl View for Reading {
    type V = ReadingView;

    open spec fn view(&self) -> ReadingView {
        ReadingView {
            status: self.status@,
            capacity: self.capacity,
            voltage: self.voltage,
            design_voltage: self.design_voltage,
            current_a: self.current_a,
            charging_current: self.charging_current,
            discharging_current: self.discharging_current,
            power: self.power,
            temperature: self.temperature,
            charge_now: self.charge_now,
            charge_full: self.charge_full,
            design_capacity: self.design_capacity,
            energy_now: self.energy_now,
            energy_full: self.energy_full,
            energy_design: self.energy_design,
            health: self.health,
            health_status: self.health_status@,
            cycle: self.cycle,
            charge_limit: self.charge_limit,
            time_remaining_str: self.time_remaining_str@,
            short_time_str: self.short_time_str@,
            manufacturer: self.manufacturer@,
            model: self.model@,
            technology: self.technology@,
        }
    }
}

impl Clone for Reading {
    fn clone(&self) -> (r: Reading)
        ensures
            r@ == self@,
    {
        Reading {
            status: self.status.clone(),
            capacity: self.capacity,
            voltage: self.voltage,
            design_voltage: self.design_voltage,
            current_a: self.current_a,
            charging_current: self.charging_current,
            discharging_current: self.discharging_current,
            power: self.power,
            temperature: self.temperature,
            charge_now: self.charge_now,
            charge_full: self.charge_full,
            design_capacity: self.design_capacity,
            energy_now: self.energy_now,
            energy_full: self.energy_full,
            energy_design: self.energy_design,
            health: self.health,
            health_status: self.health_status.clone(),
            cycle: self.cycle,
            charge_limit: self.charge_limit,
            time_remaining_str: self.time_remaining_str.clone(),
            short_time_str: self.short_time_str.clone(),
            manufacturer: self.manufacturer.clone(),
            model: self.model.clone(),
            technology: self.technology.clone(),
        }
    }
}

/// A reading of which nothing is known.
pub open spec fn blank() -> ReadingView {
    ReadingView {
        status: seq![],
        capacity: None,
        voltage: None,
        design_voltage: None,
        current_a: None,
        charging_current: double::whole(0),
        discharging_current: double::whole(0),
        power: None,
        temperature: None,
        charge_now: None,
        charge_full: None,
        design_capacity: None,
        energy_now: None,
        energy_full: None,
        energy_design: None,
        health: None,
        health_status: seq![],
        cycle: None,
        charge_limit: None,
        time_remaining_str: seq![],
        short_time_str: seq![],
        manufacturer: seq![],
        model: seq![],
        technology: seq![],
    }
}

impl Default for Reading {
    fn default() -> (r: Reading)
        ensures
            r@ == blank(),
    {
        let zero: Double = Double::from_u64(0);
        Reading {
            status: String::new(),
            capacity: None,
            voltage: None,
            design_voltage: None,
            current_a: None,
            charging_current: zero,
            discharging_current: zero,
            power: None,
            temperature: None,
            charge_now: None,
            charge_full: None,
            design_capacity: None,
            energy_now: None,
            energy_full: None,
            energy_design: None,
            health: None,
            health_status: String::new(),
            cycle: None,
            charge_limit: None,
            time_remaining_str: String::new(),
            short_time_str: String::new(),
            manufacturer: String::new(),
            model: String::new(),
            technology: String::new(),
        }
    }
}

/// The reading of a machine without a battery.
pub open spec fn no_battery() -> ReadingView {
    ReadingView {
        status: "No Battery"@,
        health_status: "Unknown"@,
        time_remaining_str: "No battery detected"@,
        short_time_str: "\u{2014}"@,
        manufacturer: "\u{2014}"@,
        model: "\u{2014}"@,
        technology: "\u{2014}"@,
        ..blank()
    }
}

impl Reading {
    fn no_battery() -> (r: Reading)
        ensures
            r@ == no_battery(),
    {
        Reading {
            status: "No Battery".to_owned(),
            health_status: "Unknown".to_owned(),
            time_remaining_str: "No battery detected".to_owned(),
            short_time_str: "\u{2014}".to_owned(),
            manufacturer: "\u{2014}".to_owned(),
            model: "\u{2014}".to_owned(),
            technology: "\u{2014}".to_owned(),
            ..Reading::default()
        }
    }
}

/// Health in percent: the ratio of the full to the design charge, or, where either
/// is not known, the ratio of the energies. None where the design value is zero.
pub open spec fn health_of(
    charge_full: Option<Double>,
    charge_design: Option<Double>,
    energy_full: Option<Double>,
    energy_design: Option<Double>,
) -> Option<Double> {
    match (charge_full, charge_design) {
        (Some(full), Some(design)) => ratio_percent(full, design),
        _ => match (energy_full, energy_design) {
            (Some(full), Some(design)) => ratio_percent(full, design),
            _ => None,
        },
    }
}

/// `full` in percent of `design`.
pub open spec fn ratio_percent(full: Double, design: Double) -> Option<Double> {
    if design.equals(double::whole(0)) {
        None
    } else {
        Some(double::product(double::quotient(full, design), double::whole(100)))
    }
}

/// Health in one word.
pub open spec fn health_word(health: Option<Double>) -> Seq<char> {
    match health {
        None => "Unknown"@,
        Some(h) => if double::whole(80).at_most(h) {
            "Good"@
        } else if double::whole(60).at_most(h) {
            "Fair"@
        } else if double::whole(40).at_most(h) {
            "Poor"@
        } else {
            "Critical"@
        },
    }
}

/// A number of hours as hours and minutes.
pub open spec fn hours_minutes(hours: Double) -> Seq<char> {
    let minutes = double::product(double::fraction(hours), double::whole(60));
    decimal::integer(double::as_signed(hours) as int) + "h "@ + decimal::integer(
        double::as_signed(minutes) as int,
    ) + "m"@
}

/// `x`, or zero where `x` is less or no number.
pub open spec fn at_least_zero(x: Double) -> Double {
    if x.nan() || x.less(double::whole(0)) {
        double::whole(0)
    } else {
        x
    }
}

/// Whether a power is large enough for an estimate: more than a hundredth of a watt.
pub open spec fn measurable(power: Double) -> bool {
    decimal::decimal_number(1, 2).less(power)
}

/// The time left, in words and in short. The status decides what is told; power and
/// energy only make up the estimate.
pub open spec fn time_left(
    status: Seq<char>,
    power: Option<Double>,
    energy_now: Option<Double>,
    energy_full: Option<Double>,
    charge_limit: Option<Double>,
) -> (Seq<char>, Seq<char>) {
    let unknown = ("Calculating..."@, "\u{2014}"@);
    if status == "Discharging"@ {
        match (power, energy_now) {
            (Some(p), Some(now)) => if measurable(p) {
                let t = hours_minutes(double::quotient(now, p));
                (t + " remaining"@, t)
            } else {
                unknown
            },
            _ => unknown,
        }
    } else if status == "Charging"@ {
        match (power, energy_full, energy_now) {
            (Some(p), Some(full), Some(now)) => if measurable(p) {
                let missing = at_least_zero(double::difference(full, now));
                let t = hours_minutes(double::quotient(missing, p));
                (t + " until full"@, t)
            } else {
                unknown
            },
            _ => unknown,
        }
    } else if status == "Full"@ {
        ("Fully Charged"@, "Full"@)
    } else if status == "Not charging"@ {
        match charge_limit {
            Some(limit) => (
                "Charge limit reached ("@ + decimal::fixed(limit, 0) + "%)"@,
                "Limit "@ + decimal::fixed(limit, 0) + "%"@,
            ),
            None => ("Plugged in, not charging"@, "Idle"@),
        }
    } else {
        unknown
    }
}

/// `x` divided by ten.
pub open spec fn tenths(v: Option<Double>) -> Option<Double> {
    match v {
        Some(x) => Some(double::quotient(x, double::whole(10))),
        None => None,
    }
}

/// The current while the status is `wanted`, and otherwise zero.
pub open spec fn current_while(
    status: Seq<char>,
    wanted: Seq<char>,
    current: Option<Double>,
) -> Double {
    match current {
        Some(c) => if status == wanted {
            c
        } else {
            double::whole(0)
        },
        None => double::whole(0),
    }
}

/// The reading that the files of a battery make up.
pub open spec fn reading(f: SupplyFiles) -> ReadingView {
    let status = sysfs::text_or(f.text("status"@), "Unknown"@);
    let voltage = sysfs::millionths(f.number("voltage_now"@));
    let design_voltage = sysfs::millionths(f.number("voltage_min_design"@));
    let current_a = sysfs::millionths(f.number("current_now"@));
    let charge_now = sysfs::millionths(f.number("charge_now"@));
    let charge_full = sysfs::millionths(f.number("charge_full"@));
    let design_capacity = sysfs::millionths(f.number("charge_full_design"@));
    let known_voltage = sysfs::first_known(design_voltage, voltage);
    let energy_now = sysfs::first_known(
        sysfs::millionths(f.number("energy_now"@)),
        sysfs::both_times(charge_now, known_voltage),
    );
    let energy_full = sysfs::first_known(
        sysfs::millionths(f.number("energy_full"@)),
        sysfs::both_times(charge_full, known_voltage),
    );
    let energy_design = sysfs::first_known(
        sysfs::millionths(f.number("energy_full_design"@)),
        sysfs::both_times(design_capacity, known_voltage),
    );
    let power = sysfs::both_times(voltage, current_a);
    let health = health_of(charge_full, design_capacity, energy_full, energy_design);
    let charge_limit = f.number("charge_control_end_threshold"@);
    let (long, short) = time_left(status, power, energy_now, energy_full, charge_limit);
    ReadingView {
        status,
        capacity: f.number("capacity"@),
        voltage,
        design_voltage,
        current_a,
        charging_current: current_while(status, "Charging"@, current_a),
        discharging_current: current_while(status, "Discharging"@, current_a),
        power,
        temperature: tenths(f.number("temp"@)),
        charge_now,
        charge_full,
        design_capacity,
        energy_now,
        energy_full,
        energy_design,
        health,
        health_status: health_word(health),
        cycle: f.number("cycle_count"@),
        charge_limit,
        time_remaining_str: long,
        short_time_str: short,
        manufacturer: sysfs::text_or(f.text("manufacturer"@), "Unknown"@),
        model: sysfs::text_or(f.text("model_name"@), "Unknown"@),
        technology: sysfs::text_or(f.text("technology"@), "Unknown"@),
    }
}

fn percent_of(full: Double, design: Double) -> (r: Option<Double>)
    ensures
        r == ratio_percent(full, design),
{
    let zero: Double = Double::from_u64(0);
    if design.le(zero) && zero.le(design) {
        None
    } else {
        Some(full.over(design).times(Double::from_u64(100)))
    }
}

fn health_text(health: Option<Double>) -> (r: String)
    ensures
        r@ == health_word(health),
{
    match health {
        None => "Unknown".to_owned(),
        Some(h) => if Double::from_u64(80).le(h) {
            "Good".to_owned()
        } else if Double::from_u64(60).le(h) {
            "Fair".to_owned()
        } else if Double::from_u64(40).le(h) {
            "Poor".to_owned()
        } else {
            "Critical".to_owned()
        },
    }
}

fn hours_text(hours: Double) -> (r: Vec<char>)
    ensures
        r@ == hours_minutes(hours),
{
    let minutes: i64 = hours.fract().times(Double::from_u64(60)).to_i64();
    let mut out: Vec<char> = decimal::integer_text(hours.to_i64());
    text::add(&mut out, "h ");
    text::add_all(&mut out, decimal::integer_text(minutes));
    text::add(&mut out, "m");
    out
}

/// A text with another put behind it.
fn with_tail(s: &Vec<char>, tail: &str) -> (r: String)
    ensures
        r@ == s@ + tail@,
{
    let mut out: String = text::string_of(s.as_slice());
    out.append(tail);
    out
}

fn time_texts(
    status: &str,
    power: Option<Double>,
    energy_now: Option<Double>,
    energy_full: Option<Double>,
    charge_limit: Option<Double>,
) -> (r: (String, String))
    ensures
        (r.0@, r.1@) == time_left(status@, power, energy_now, energy_full, charge_limit),
{
    proof {
        reveal_strlit("Discharging");
        reveal_strlit("Charging");
        reveal_strlit("Full");
        reveal_strlit("Not charging");
    }
    if text::same(status, "Discharging") {
        if let (Some(p), Some(now)) = (power, energy_now) {
            if decimal::number(1, 2).lt(p) {
                let t: Vec<char> = hours_text(now.over(p));
                return (with_tail(&t, " remaining"), text::string_of(t.as_slice()));
            }
        }
    } else if text::same(status, "Charging") {
        if let (Some(p), Some(full), Some(now)) = (power, energy_full, energy_now) {
            if decimal::number(1, 2).lt(p) {
                let zero: Double = Double::from_u64(0);
                let gap: Double = full.minus(now);
                let missing: Double = if gap.is_nan() || gap.lt(zero) {
                    zero
                } else {
                    gap
                };
                let t: Vec<char> = hours_text(missing.over(p));
                return (with_tail(&t, " until full"), text::string_of(t.as_slice()));
            }
        }
    } else if text::same(status, "Full") {
        return ("Fully Charged".to_owned(), "Full".to_owned());
    } else if text::same(status, "Not charging") {
        return match charge_limit {
            Some(limit) => {
                let mut long: Vec<char> = text::characters("Charge limit reached (");
                text::add_all(&mut long, decimal::fixed_text(limit, 0));
                let mut short: Vec<char> = text::characters("Limit ");
                text::add_all(&mut short, decimal::fixed_text(limit, 0));
                (with_tail(&long, "%)"), with_tail(&short, "%"))
            },
            None => ("Plugged in, not charging".to_owned(), "Idle".to_owned()),
        };
    }
    ("Calculating...".to_owned(), "\u{2014}".to_owned())
}

/// The files that make up a reading.
pub open spec fn nodes() -> Seq<Seq<char>> {
    seq![
        "status"@,
        "capacity"@,
        "voltage_now"@,
        "voltage_min_design"@,
        "current_now"@,
        "temp"@,
        "charge_now"@,
        "charge_full"@,
        "charge_full_design"@,
        "cycle_count"@,
        "charge_control_end_threshold"@,
        "energy_now"@,
        "energy_full"@,
        "energy_full_design"@,
        "manufacturer"@,
        "model_name"@,
        "technology"@,
    ]
}

/// Names of files with the paths that they are read from.
pub open spec fn file_views(v: Seq<(String, Vec<u8>)>) -> Seq<(Seq<char>, Seq<u8>)> {
    Seq::new(v.len(), |i: int| (v[i].0@, v[i].1@))
}

/// The files under `dir` that make up a reading.
pub open spec fn node_files(dir: Seq<u8>) -> Seq<(Seq<char>, Seq<u8>)> {
    Seq::new(nodes().len(), |i: int| (nodes()[i], path::under(dir, nodes()[i])))
}

fn add_node(list: &mut Vec<(String, Vec<u8>)>, dir: &[u8], name: &str)
    ensures
        file_views(final(list)@) == file_views(old(list)@).push((name@, path::under(dir@, name@))),
{
    list.push((name.to_owned(), path::join_name(dir, name)));
    assert(file_views(list@) =~= file_views(old(list)@).push((name@, path::under(dir@, name@))));
}

/// Reads one battery, or none.
pub struct BatteryReader {
    path: Option<Vec<u8>>,
}

impl BatteryReader {
    /// The directory of the battery, where there is one.
    pub closed spec fn directory(self) -> Option<Seq<u8>> {
        match self.path {
            Some(p) => Some(p@),
            None => None,
        }
    }

    /// A reader of the battery in the directory `path`, or of no battery.
    pub fn new(path: Option<Vec<u8>>) -> (r: BatteryReader)
        ensures
            r.directory() == match path {
                Some(p) => Some(p@),
                None => None,
            },
    {
        BatteryReader { path }
    }

    /// The files to read for [`get`](BatteryReader::get), each by its name and its
    /// path. None where there is no battery.
    pub fn files(&self) -> (r: Vec<(String, Vec<u8>)>)
        ensures
            file_views(r@) == match self.directory() {
                Some(dir) => node_files(dir),
                None => seq![],
            },
    {
        let mut out: Vec<(String, Vec<u8>)> = Vec::new();
        assert(file_views(out@) =~= seq![]);
        if let Some(p) = &self.path {
            let dir: &[u8] = p.as_slice();
            add_node(&mut out, dir, "status");
            add_node(&mut out, dir, "capacity");
            add_node(&mut out, dir, "voltage_now");
            add_node(&mut out, dir, "voltage_min_design");
            add_node(&mut out, dir, "current_now");
            add_node(&mut out, dir, "temp");
            add_node(&mut out, dir, "charge_now");
            add_node(&mut out, dir, "charge_full");
            add_node(&mut out, dir, "charge_full_design");
            add_node(&mut out, dir, "cycle_count");
            add_node(&mut out, dir, "charge_control_end_threshold");
            add_node(&mut out, dir, "energy_now");
            add_node(&mut out, dir, "energy_full");
            add_node(&mut out, dir, "energy_full_design");
            add_node(&mut out, dir, "manufacturer");
            add_node(&mut out, dir, "model_name");
            add_node(&mut out, dir, "technology");
            assert(file_views(out@) =~= node_files(dir@));
        }
        out
    }

    /// The reading that the files in the battery's directory make up, or the one of
    /// a machine without a battery.
    pub fn get(&self, files: &SupplyFiles) -> (r: Reading)
        ensures
            r@ == match self.directory() {
                Some(_) => reading(*files),
                None => no_battery(),
            },
    {
        if self.path.is_none() {
            return Reading::no_battery();
        }
        let status: String = sysfs::or_text(files.read("status"), "Unknown");
        let voltage: Option<Double> = files.micro("voltage_now");
        let design_voltage: Option<Double> = files.micro("voltage_min_design");
        let current_a: Option<Double> = files.micro("current_now");
        let temperature: Option<Double> = match files.num("temp") {
            Some(t) => Some(t.over(Double::from_u64(10))),
            None => None,
        };
        let charge_now: Option<Double> = files.micro("charge_now");
        let charge_full: Option<Double> = files.micro("charge_full");
        let design_capacity: Option<Double> = files.micro("charge_full_design");
        let charge_limit: Option<Double> = files.num("charge_control_end_threshold");
        // Energy is only derived from a voltage that was read.
        let known_voltage: Option<Double> = sysfs::first_of(design_voltage, voltage);
        let energy_now: Option<Double> = sysfs::first_of(
            files.micro("energy_now"),
            sysfs::multiply(charge_now, known_voltage),
        );
        let energy_full: Option<Double> = sysfs::first_of(
            files.micro("energy_full"),
            sysfs::multiply(charge_full, known_voltage),
        );
        let energy_design: Option<Double> = sysfs::first_of(
            files.micro("energy_full_design"),
            sysfs::multiply(design_capacity, known_voltage),
        );
        let zero: Double = Double::from_u64(0);
        let current: Double = match current_a {
            Some(c) => c,
            None => zero,
        };
        let charging_current: Double = if text::same(status.as_str(), "Charging") {
            current
        } else {
            zero
        };
        let discharging_current: Double = if text::same(status.as_str(), "Discharging") {
            current
        } else {
            zero
        };
        let power: Option<Double> = sysfs::multiply(voltage, current_a);
        let health: Option<Double> = match (charge_full, design_capacity) {
            (Some(full), Some(design)) => percent_of(full, design),
            _ => match (energy_full, energy_design) {
                (Some(full), Some(design)) => percent_of(full, design),
                _ => None,
            },
        };
        let (time_remaining_str, short_time_str) = time_texts(
            status.as_str(),
            power,
            energy_now,
            energy_full,
            charge_limit,
        );
        Reading {
            status,
            capacity: files.num("capacity"),
            voltage,
            design_voltage,
            current_a,
            charging_current,
            discharging_current,
            power,
            temperature,
            charge_now,
            charge_full,
            design_capacity,
            energy_now,
            energy_full,
            energy_design,
            health,
            health_status: health_text(health),
            cycle: files.num("cycle_count"),
            charge_limit,
            time_remaining_str,
            short_time_str,
            manufacturer: sysfs::or_text(files.read("manufacturer"), "Unknown"),
            model: sysfs::or_text(files.read("model_name"), "Unknown"),
            technology: sysfs::or_text(files.read("technology"), "Unknown"),
        }
    }
}

/// A reading depends on the files in [`nodes`] alone.
#[verifier::spinoff_prover]
#[verifier::rlimit(60)]
pub proof fn law_reading_depends_on_nodes(f: SupplyFiles, g: SupplyFiles)
    requires
        forall|i: int|
            0 <= i < nodes().len() ==> sysfs::content(f.entries@, #[trigger] nodes()[i])
                == sysfs::content(g.entries@, nodes()[i]),
    ensures
        reading(f) == reading(g),
{
    assert forall|i: int| 0 <= i < nodes().len() implies f.text(#[trigger] nodes()[i]) == g.text(
        nodes()[i],
    ) && f.number(nodes()[i]) == g.number(nodes()[i]) by {
        assert(sysfs::content(f.entries@, nodes()[i]) == sysfs::content(g.entries@, nodes()[i]));
    }
    assert(nodes()[0] == "status"@);
    assert(nodes()[1] == "capacity"@);
    assert(nodes()[2] == "voltage_now"@);
    assert(nodes()[3] == "voltage_min_design"@);
    assert(nodes()[4] == "current_now"@);
    assert(nodes()[5] == "temp"@);
    assert(nodes()[6] == "charge_now"@);
    assert(nodes()[7] == "charge_full"@);
    assert(nodes()[8] == "charge_full_design"@);
    assert(nodes()[9] == "cycle_count"@);
    assert(nodes()[10] == "charge_control_end_threshold"@);
    assert(nodes()[11] == "energy_now"@);
    assert(nodes()[12] == "energy_full"@);
    assert(nodes()[13] == "energy_full_design"@);
    assert(nodes()[14] == "manufacturer"@);
    assert(nodes()[15] == "model_name"@);
    assert(nodes()[16] == "technology"@);
}

/// The files that make up a reading lie in the directory of the battery, each under its own
/// name, and there are no others.
pub proof fn law_files_lie_in_the_battery_directory(dir: Seq<u8>, i: int)
    ensures
        node_files(dir).len() == nodes().len(),
        0 <= i < nodes().len() ==> node_files(dir)[i].0 == nodes()[i] && node_files(dir)[i].1
            == path::under(dir, nodes()[i]),
{
}

/// No energy is made up: where no voltage was read and the battery does not tell an
/// energy itself, there is none. Without a voltage or a current there is no power.
pub proof fn law_nothing_is_made_up(f: SupplyFiles)
    ensures
        f.number("voltage_now"@) is None && f.number("voltage_min_design"@) is None ==> {
            &&& f.number("energy_now"@) is None ==> reading(f).energy_now is None
            &&& f.number("energy_full"@) is None ==> reading(f).energy_full is None
            &&& f.number("energy_full_design"@) is None ==> reading(f).energy_design is None
        },
        f.number("voltage_now"@) is None || f.number("current_now"@) is None ==> reading(
            f,
        ).power is None,
        f.number("capacity"@) is None ==> reading(f).capacity is None,
        f.number("temp"@) is None ==> reading(f).temperature is None,
{
}

/// The words for the status of a battery differ.
proof fn lemma_statuses_differ()
    ensures
        "Charging"@ != "Discharging"@,
        "Charging"@ != "Full"@,
        "Charging"@ != "Not charging"@,
        "Discharging"@ != "Full"@,
        "Discharging"@ != "Not charging"@,
        "Full"@ != "Not charging"@,
{
    reveal_strlit("Charging");
    reveal_strlit("Discharging");
    reveal_strlit("Full");
    reveal_strlit("Not charging");
    assert("Charging"@.len() == 8 && "Discharging"@.len() == 11 && "Full"@.len() == 4
        && "Not charging"@.len() == 12);
}

/// A number of hours is told as the whole hours in it and the whole minutes in the rest.
/// (Where the rest comes within half a minute of one more minute, rounding may make up
/// that one.)
pub proof fn law_hours_and_minutes(hours: Double, h: nat, m: nat)
    requires
        !hours.nan(),
        !hours.negative(),
        h < double::STEP,
        h * double::unit() <= hours.value() < (h + 1) * double::unit(),
        m < 60,
        m * double::unit() <= 60 * (hours.value() - h * double::unit()) < (m + 1)
            * double::unit(),
    ensures
        hours_minutes(hours) == decimal::decimal(h) + "h "@ + decimal::decimal(m) + "m"@ || (120
            * (hours.value() - h * double::unit()) > (2 * m + 1) * double::unit()
            && hours_minutes(hours) == decimal::decimal(h) + "h "@ + decimal::decimal(m + 1)
            + "m"@),
{
    let u = double::unit();
    let f = (hours.value() - h * u) as nat;
    lemma_whole_hours(hours, h);
    lemma_minutes_of(double::fraction(hours), f);
    lemma_whole_minutes(60 * f, m);
    let minutes = double::product(double::fraction(hours), double::whole(60));
    let told = double::whole_part(minutes);
    assert(told == double::units(double::nearest(60 * f, 1)) / u);
    assert(double::as_signed(hours) == h);
    assert(double::as_signed(minutes) == told);
    assert(f == hours.value() - h * u);
    if told != m {
        assert(told == m + 1 && 2 * (60 * f) > (2 * m + 1) * u);
    }
    assert(hours_minutes(hours) == decimal::decimal(h) + "h "@ + decimal::decimal(told) + "m"@);
}

proof fn lemma_whole_hours(hours: Double, h: nat)
    requires
        !hours.nan(),
        !hours.negative(),
        h < double::STEP,
        h * double::unit() <= hours.value() < (h + 1) * double::unit(),
    ensures
        double::whole_part(hours) == h,
        !double::fraction(hours).nan(),
        !double::fraction(hours).negative(),
        !double::fraction(hours).infinite(),
        double::units(double::fraction(hours).magnitude()) == hours.value() - h * double::unit(),
{
    let u = double::unit();
    let v = double::units(hours.magnitude());
    vstd::arithmetic::power2::lemma_pow2_pos(1074);
    lemma_quotient_is(v, u, h);
    double::law_fraction_is_exact(hours);
}

/// Where a number lies between two multiples that follow each other.
proof fn lemma_quotient_is(v: nat, u: nat, h: nat)
    requires
        u > 0,
        h * u <= v < (h + 1) * u,
    ensures
        v / u == h,
        v % u == v - h * u,
{
    assert((h + 1) * u == h * u + u) by (nonlinear_arith);
    assert(u * h == h * u) by (nonlinear_arith);
    vstd::arithmetic::div_mod::lemma_fundamental_div_mod_converse(
        v as int,
        u as int,
        h as int,
        v - h * u,
    );
}

proof fn lemma_minutes_of(rest: Double, f: nat)
    requires
        !rest.nan(),
        !rest.negative(),
        !rest.infinite(),
        double::units(rest.magnitude()) == f,
    ensures
        ({
            let minutes = double::product(rest, double::whole(60));
            &&& minutes.magnitude() == double::nearest(60 * f, 1)
            &&& !minutes.negative()
            &&& !minutes.nan()
        }),
{
    let u = double::unit();
    vstd::arithmetic::power2::lemma_pow2_pos(1074);
    double::law_whole_numbers_are_exact(60);
    assert(double::whole(60) == double::whole_signed(60));
    double::lemma_whole(60);
    let y = 60 * f;
    assert(f * (60 * u) == y * u) by (nonlinear_arith)
        requires
            y == 60 * f,
    ;
    assert(1 * u == u);
    double::lemma_nearest_of_multiples(y, 1, u);
    double::lemma_nearest_bound(y, 1);
}

proof fn lemma_whole_minutes(y: nat, m: nat)
    requires
        m < 60,
        m * double::unit() <= y < (m + 1) * double::unit(),
    ensures
        ({
            let told = double::units(double::nearest(y, 1)) / double::unit();
            told == m || (told == m + 1 && 2 * y > (2 * m + 1) * double::unit())
        }),
{
    let u = double::unit();
    vstd::arithmetic::power2::lemma_pow2_pos(1074);
    double::lemma_nearest_bound(y, 1);
    let r = double::nearest(y, 1);
    let z = double::units(r);
    // At least `m`.
    if m > 0 {
        let low = double::lemma_dyadic(m, 1074);
        assert(double::units(low) * 1 == double::units(low));
        double::lemma_nearest_at_least(y, 1, low);
        double::lemma_units_order(low, r);
    } else {
        assert(0 * u == 0);
    }
    assert(z >= m * u);
    // At most one more.
    let high = double::lemma_dyadic(m + 1, 1074);
    assert(double::units(high) * 1 == double::units(high));
    double::lemma_nearest_at_most(y, 1, high);
    double::lemma_units_order(r, high);
    assert(z <= (m + 1) * u);
    if z < (m + 1) * u {
        lemma_quotient_is(z, u, m);
    } else {
        assert((m + 1) * u < (m + 1 + 1) * u) by (nonlinear_arith)
            requires
                u > 0,
        ;
        lemma_quotient_is(z, u, m + 1);
        if 2 * y <= (2 * m + 1) * u {
            lemma_half_minute(y, m);
        }
    }
}

/// Up to half a minute more is not rounded to a whole one.
proof fn lemma_half_minute(y: nat, m: nat)
    requires
        m < 60,
        2 * y <= (2 * m + 1) * double::unit(),
    ensures
        double::units(double::nearest(y, 1)) < (m + 1) * double::unit(),
{
    let u = double::unit();
    let half = vstd::arithmetic::power2::pow2(1073);
    vstd::arithmetic::power2::lemma_pow2_unfold(1074);
    vstd::arithmetic::power2::lemma_pow2_pos(1073);
    let mid = double::lemma_dyadic(2 * m + 1, 1073);
    assert(double::units(mid) * 1 == double::units(mid));
    assert(2 * ((2 * m + 1) * half) == (2 * m + 1) * u) by (nonlinear_arith)
        requires
            u == 2 * half,
    ;
    double::lemma_nearest_bound(y, 1);
    double::lemma_nearest_at_most(y, 1, mid);
    double::lemma_units_order(double::nearest(y, 1), mid);
    assert((2 * m + 1) * half < (m + 1) * u) by (nonlinear_arith)
        requires
            u == 2 * half,
            half > 0,
    ;
}

/// While the battery charges with more than a hundredth of a watt, the time that is told
/// is that until it is full: the energy that it still lacks over the power, and none
/// where it lacks nothing. The charge limit makes no difference.
pub proof fn law_charging_tells_the_time_until_full(
    f: SupplyFiles,
    power: Double,
    now: Double,
    full: Double,
)
    requires
        f.text("status"@) == Some("Charging"@),
        reading(f).power == Some(power),
        reading(f).energy_now == Some(now),
        reading(f).energy_full == Some(full),
        decimal::decimal_number(1, 2).less(power),
    ensures
        ({
            let lacking = double::difference(full, now);
            let t = if lacking.nan() || lacking.value() < 0 {
                hours_minutes(double::quotient(double::whole(0), power))
            } else {
                hours_minutes(double::quotient(lacking, power))
            };
            &&& reading(f).time_remaining_str == t + " until full"@
            &&& reading(f).short_time_str == t
        }),
{
    lemma_statuses_differ();
    double::law_whole_numbers_are_exact(0);
    assert(double::whole(0) == double::whole_signed(0));
    assert(0 * double::unit() == 0);
}

/// While the battery discharges with more than a hundredth of a watt, the time that is
/// told is that until it is empty: its energy over the power. The charge limit and the
/// energy of a full battery make no difference.
pub proof fn law_discharging_tells_the_time_until_empty(f: SupplyFiles, power: Double, now: Double)
    requires
        f.text("status"@) == Some("Discharging"@),
        reading(f).power == Some(power),
        reading(f).energy_now == Some(now),
        decimal::decimal_number(1, 2).less(power),
    ensures
        reading(f).time_remaining_str == hours_minutes(double::quotient(now, power))
            + " remaining"@,
        reading(f).short_time_str == hours_minutes(double::quotient(now, power)),
{
    lemma_statuses_differ();
}

/// Without a power that can be measured, or without the energies that the time follows
/// from, no time is told.
pub proof fn law_no_time_is_made_up(f: SupplyFiles)
    requires
        f.text("status"@) == Some("Charging"@) || f.text("status"@) == Some("Discharging"@),
        reading(f).power is None || !decimal::decimal_number(1, 2).less(reading(f).power->0)
            || reading(f).energy_now is None || (f.text("status"@) == Some("Charging"@) && reading(
            f,
        ).energy_full is None),
    ensures
        reading(f).time_remaining_str == "Calculating..."@,
        reading(f).short_time_str == "\u{2014}"@,
{
    lemma_statuses_differ();
}

/// The charge limit is told of a battery that does not charge, and of no other.
pub proof fn law_limit_is_told_where_charging_stopped(f: SupplyFiles)
    requires
        f.text("status"@) == Some("Not charging"@),
    ensures
        f.number("charge_control_end_threshold"@) matches Some(limit) ==> {
            &&& reading(f).time_remaining_str == "Charge limit reached ("@ + decimal::fixed(limit, 0)
                + "%)"@
            &&& reading(f).short_time_str == "Limit "@ + decimal::fixed(limit, 0) + "%"@
        },
        f.number("charge_control_end_threshold"@) is None ==> {
            &&& reading(f).time_remaining_str == "Plugged in, not charging"@
            &&& reading(f).short_time_str == "Idle"@
        },
{
    lemma_statuses_differ();
}

/// Unless the battery does not charge, two batteries that differ in the charge limit
/// alone have the same time left.
pub proof fn law_limit_does_not_change_the_time(
    status: Seq<char>,
    power: Option<Double>,
    energy_now: Option<Double>,
    energy_full: Option<Double>,
    limit: Option<Double>,
    other: Option<Double>,
)
    requires
        status != "Not charging"@,
    ensures
        time_left(status, power, energy_now, energy_full, limit) == time_left(
            status,
            power,
            energy_now,
            energy_full,
            other,
        ),
{
}

/// Of a status that is none of the known ones no time is told.
pub proof fn law_other_statuses_have_no_time(f: SupplyFiles)
    requires
        reading(f).status != "Charging"@,
        reading(f).status != "Discharging"@,
        reading(f).status != "Full"@,
        reading(f).status != "Not charging"@,
    ensures
        reading(f).time_remaining_str == "Calculating..."@,
        reading(f).short_time_str == "\u{2014}"@,
{
}

/// Each value of a reading comes from the file of its own name: volts, amperes and
/// ampere hours from files that count millionths, degrees from one that counts tenths,
/// and the rest as it stands. What has no file, or one without a number, is not known.
pub proof fn law_values_come_from_their_files(f: SupplyFiles)
    ensures
        ({
            let r = reading(f);
            let micro = |name: Seq<char>|
                match f.number(name) {
                    Some(x) => Some(double::quotient(x, double::whole(1000000))),
                    None => None,
                };
            &&& r.voltage == micro("voltage_now"@)
            &&& r.design_voltage == micro("voltage_min_design"@)
            &&& r.current_a == micro("current_now"@)
            &&& r.charge_now == micro("charge_now"@)
            &&& r.charge_full == micro("charge_full"@)
            &&& r.design_capacity == micro("charge_full_design"@)
            &&& r.capacity == f.number("capacity"@)
            &&& r.cycle == f.number("cycle_count"@)
            &&& r.charge_limit == f.number("charge_control_end_threshold"@)
            &&& f.number("temp"@) is None ==> r.temperature is None
            &&& f.number("temp"@) matches Some(t) ==> r.temperature == Some(
                double::quotient(t, double::whole(10)),
            )
        }),
{
}

/// Each text of a reading is that of the file of its own name, and `Unknown` where it
/// could not be read.
pub proof fn law_texts_come_from_their_files(f: SupplyFiles)
    ensures
        f.text("status"@) matches Some(t) ==> reading(f).status == t,
        f.text("status"@) is None ==> reading(f).status == "Unknown"@,
        f.text("manufacturer"@) matches Some(t) ==> reading(f).manufacturer == t,
        f.text("manufacturer"@) is None ==> reading(f).manufacturer == "Unknown"@,
        f.text("model_name"@) matches Some(t) ==> reading(f).model == t,
        f.text("model_name"@) is None ==> reading(f).model == "Unknown"@,
        f.text("technology"@) matches Some(t) ==> reading(f).technology == t,
        f.text("technology"@) is None ==> reading(f).technology == "Unknown"@,
{
}

/// An energy that the battery tells is taken as it is told; one that it does not tell is
/// its charge times its voltage, the design voltage where that is known, and otherwise
/// the present one.
pub proof fn law_energy_is_told_or_follows(f: SupplyFiles)
    ensures
        ({
            let r = reading(f);
            &&& f.number("energy_now"@) matches Some(x) ==> r.energy_now == Some(
                double::quotient(x, double::whole(1000000)),
            )
            &&& f.number("energy_full"@) matches Some(x) ==> r.energy_full == Some(
                double::quotient(x, double::whole(1000000)),
            )
            &&& f.number("energy_full_design"@) matches Some(x) ==> r.energy_design == Some(
                double::quotient(x, double::whole(1000000)),
            )
            &&& r.design_voltage matches Some(v) ==> {
                &&& f.number("energy_now"@) is None ==> (r.charge_now matches Some(c)
                    ==> r.energy_now == Some(double::product(c, v)))
                &&& f.number("energy_full"@) is None ==> (r.charge_full matches Some(c)
                    ==> r.energy_full == Some(double::product(c, v)))
                &&& f.number("energy_full_design"@) is None ==> (r.design_capacity matches Some(c)
                    ==> r.energy_design == Some(double::product(c, v)))
            }
            &&& r.design_voltage is None ==> (r.voltage matches Some(v) ==> {
                &&& f.number("energy_now"@) is None ==> (r.charge_now matches Some(c)
                    ==> r.energy_now == Some(double::product(c, v)))
                &&& f.number("energy_full"@) is None ==> (r.charge_full matches Some(c)
                    ==> r.energy_full == Some(double::product(c, v)))
                &&& f.number("energy_full_design"@) is None ==> (r.design_capacity matches Some(c)
                    ==> r.energy_design == Some(double::product(c, v)))
            })
            &&& f.number("energy_now"@) is None && r.charge_now is None ==> r.energy_now is None
            &&& f.number("energy_full"@) is None && r.charge_full is None ==> r.energy_full is None
            &&& f.number("energy_full_design"@) is None && r.design_capacity is None
                ==> r.energy_design is None
        }),
{
}

/// The power is the present voltage times the current; the design voltage has no part in
/// it. The current counts as charging or discharging current by the status.
pub proof fn law_power_is_voltage_times_current(f: SupplyFiles)
    ensures
        ({
            let r = reading(f);
            &&& r.voltage is Some && r.current_a is Some ==> r.power == Some(
                double::product(r.voltage->0, r.current_a->0),
            )
            &&& r.current_a matches Some(c) ==> {
                &&& r.status == "Charging"@ ==> r.charging_current == c
                &&& r.status == "Discharging"@ ==> r.discharging_current == c
            }
            &&& r.status != "Charging"@ || r.current_a is None ==> r.charging_current
                == double::whole(0)
            &&& r.status != "Discharging"@ || r.current_a is None ==> r.discharging_current
                == double::whole(0)
        }),
{
}

/// The health is a hundred times the full charge over the design charge; where one of
/// them is not known, it is so for the energies. There is none without either pair, or
/// where the design value is zero.
pub proof fn law_health_compares_full_with_design(f: SupplyFiles)
    ensures
        ({
            let r = reading(f);
            let charges = r.charge_full is Some && r.design_capacity is Some;
            let energies = r.energy_full is Some && r.energy_design is Some;
            &&& charges && r.design_capacity->0.value() != 0 && !r.design_capacity->0.nan()
                ==> r.health == Some(
                double::product(
                    double::quotient(r.charge_full->0, r.design_capacity->0),
                    double::whole(100),
                ),
            )
            &&& charges && r.design_capacity->0.value() == 0 && !r.design_capacity->0.nan()
                ==> r.health is None
            &&& !charges && energies && r.energy_design->0.value() != 0
                && !r.energy_design->0.nan() ==> r.health == Some(
                double::product(
                    double::quotient(r.energy_full->0, r.energy_design->0),
                    double::whole(100),
                ),
            )
            &&& !charges && energies && r.energy_design->0.value() == 0
                && !r.energy_design->0.nan() ==> r.health is None
            &&& !charges && !energies ==> r.health is None
        }),
{
    double::law_whole_numbers_are_exact(0);
    assert(double::whole(0) == double::whole_signed(0));
    assert(0 * double::unit() == 0);
}

/// The health is good from 80 percent on, fair from 60, poor from 40, and critical
/// below; where it is not known, that is what is said.
pub proof fn law_health_words(f: SupplyFiles)
    ensures
        reading(f).health is None ==> reading(f).health_status == "Unknown"@,
        reading(f).health matches Some(h) ==> !h.nan() ==> {
            &&& 80 * double::unit() <= h.value() ==> reading(f).health_status == "Good"@
            &&& 60 * double::unit() <= h.value() < 80 * double::unit() ==> reading(f).health_status
                == "Fair"@
            &&& 40 * double::unit() <= h.value() < 60 * double::unit() ==> reading(f).health_status
                == "Poor"@
            &&& h.value() < 40 * double::unit() ==> reading(f).health_status == "Critical"@
        },
{
    double::law_whole_numbers_are_exact(80);
    double::law_whole_numbers_are_exact(60);
    double::law_whole_numbers_are_exact(40);
    assert(double::whole(80) == double::whole_signed(80));
    assert(double::whole(60) == double::whole_signed(60));
    assert(double::whole(40) == double::whole_signed(40));
    vstd::arithmetic::power2::lemma_pow2_pos(1074);
}

/// Without a battery the reading says so, and nothing else is known.
pub proof fn law_no_battery_is_said_so()
    ensures
        ({
            let r = no_battery();
            &&& r.status == "No Battery"@
            &&& r.time_remaining_str == "No battery detected"@
            &&& r.short_time_str == "\u{2014}"@
            &&& r.health_status == "Unknown"@
            &&& r.manufacturer == "\u{2014}"@ && r.model == "\u{2014}"@ && r.technology
                == "\u{2014}"@
            &&& r.capacity is None && r.voltage is None && r.design_voltage is None
            &&& r.current_a is None && r.power is None && r.temperature is None
            &&& r.charge_now is None && r.charge_full is None && r.design_capacity is None
            &&& r.energy_now is None && r.energy_full is None && r.energy_design is None
            &&& r.health is None && r.cycle is None && r.charge_limit is None
            &&& r.charging_current == double::whole(0) && r.discharging_current == double::whole(0)
        }),
{
}

/// A full battery is reported as full, whatever current still flows.
pub proof fn law_full_is_full(f: SupplyFiles)
    requires
        f.text("status"@) == Some("Full"@),
    ensures
        reading(f).time_remaining_str == "Fully Charged"@,
        reading(f).short_time_str == "Full"@,
{
    reveal_strlit("Discharging");
    reveal_strlit("Charging");
    reveal_strlit("Full");
    assert("Full"@.len() != "Charging"@.len() && "Full"@.len() != "Discharging"@.len());
}

/// The current is either charging or discharging current, never both.
pub proof fn law_current_flows_one_way(f: SupplyFiles)
    ensures
        reading(f).charging_current == double::whole(0) || reading(f).discharging_current
            == double::whole(0),
{
    reveal_strlit("Discharging");
    reveal_strlit("Charging");
    assert("Charging"@.len() != "Discharging"@.len());
}

/// Where the directories of power supplies are.
pub open spec fn supply_root() -> Seq<char> {
    "/sys/class/power_supply"@
}

/// Power supplies are found where the kernel shows them.
pub proof fn law_supplies_are_in_sysfs()
    ensures
        supply_root() == "/sys/class/power_supply"@,
{
}

/// Whether `a` comes before `b` in the order of their characters.
pub open spec fn name_before(a: Seq<char>, b: Seq<char>) -> bool
    decreases a.len(),
{
    if b.len() == 0 {
        false
    } else if a.len() == 0 {
        true
    } else if a[0] != b[0] {
        (a[0] as int) < (b[0] as int)
    } else {
        name_before(a.drop_first(), b.drop_first())
    }
}

/// A name in a directory.
pub struct Name {
    /// The characters of the name.
    pub chars: Vec<char>,
}

impl View for Name {
    type V = Seq<char>;

    open spec fn view(&self) -> Seq<char> {
        self.chars@
    }
}

proof fn lemma_name_order(a: Seq<char>, b: Seq<char>, c: Seq<char>)
    ensures
        !(name_before(a, b) && name_before(b, a)),
        name_before(a, b) ==> name_before(a, c) || name_before(c, b),
    decreases a.len(),
{
    if a.len() > 0 && b.len() > 0 {
        if a[0] == b[0] && c.len() > 0 {
            lemma_name_order(a.drop_first(), b.drop_first(), c.drop_first());
        } else if a[0] == b[0] {
            lemma_name_order(a.drop_first(), b.drop_first(), c);
        }
    }
}

impl Ranked for Name {
    open spec fn before(a: Seq<char>, b: Seq<char>) -> bool {
        name_before(a, b)
    }

    open spec fn placeable(a: Seq<char>) -> bool {
        true
    }

    fn precedes(&self, other: &Self) -> (r: bool) {
        let mut i: usize = 0;
        assert(self.chars@.skip(0) =~= self.chars@);
        assert(other.chars@.skip(0) =~= other.chars@);
        while i < self.chars.len() && i < other.chars.len() && self.chars[i] == other.chars[i]
            invariant
                i <= self.chars@.len(),
                i <= other.chars@.len(),
                name_before(self.chars@, other.chars@) == name_before(
                    self.chars@.skip(i as int),
                    other.chars@.skip(i as int),
                ),
            decreases self.chars@.len() - i,
        {
            assert(self.chars@.skip(i as int).drop_first() =~= self.chars@.skip(i + 1));
            assert(other.chars@.skip(i as int).drop_first() =~= other.chars@.skip(i + 1));
            i = i + 1;
        }
        if i >= other.chars.len() {
            false
        } else if i >= self.chars.len() {
            true
        } else {
            self.chars[i] < other.chars[i]
        }
    }

    proof fn lemma_order(a: Seq<char>, b: Seq<char>, c: Seq<char>) {
        lemma_name_order(a, b, c);
    }
}

/// One name comes before another where it is shorter and the other begins with it, or
/// where at the first place in which they differ its character has the lower code.
pub proof fn law_names_are_ordered_by_characters(a: Seq<char>, b: Seq<char>, k: int)
    requires
        0 <= k <= a.len(),
        k <= b.len(),
        forall|i: int| 0 <= i < k ==> a[i] == b[i],
        k < a.len() && k < b.len() ==> a[k] != b[k],
    ensures
        name_before(a, b) == (k < b.len() && (k == a.len() || (a[k] as int) < (b[k] as int))),
    decreases k,
{
    if k > 0 {
        let c = a.drop_first();
        let d = b.drop_first();
        assert(a[0] == b[0]);
        assert forall|i: int| 0 <= i < k - 1 implies c[i] == d[i] by {
            assert(c[i] == a[i + 1] && d[i] == b[i + 1]);
        }
        law_names_are_ordered_by_characters(c, d, k - 1);
    }
}

/// The names that begin as those of batteries do, in order.
pub open spec fn battery_names(names: Seq<Seq<char>>) -> Seq<Seq<char>> {
    rank::ranked::<Name>(names.filter(|n: Seq<char>| text::starts(n, "BAT"@)))
}

/// The batteries are the power supplies whose names begin with `BAT`, all of them and no
/// others, each as often as it occurs, and none stands behind one that it comes before.
pub proof fn law_batteries_are_named_so(names: Seq<Seq<char>>, name: Seq<char>, i: int, j: int)
    ensures
        battery_names(names).to_multiset().count(name) == (if name.len() >= 3 && name[0] == 'B'
            && name[1] == 'A' && name[2] == 'T' {
            names.to_multiset().count(name)
        } else {
            0
        }),
        0 <= i < j < battery_names(names).len() ==> !name_before(
            battery_names(names)[j],
            battery_names(names)[i],
        ),
{
    let starts = |n: Seq<char>| text::starts(n, "BAT"@);
    let found = names.filter(starts);
    rank::law_rank_keeps_items::<Name>(found);
    assert(rank::all_placeable::<Name>(found));
    rank::law_rank_orders::<Name>(found);
    lemma_filter_count(names, starts, name);
    reveal_strlit("BAT");
    assert("BAT"@.len() == 3 && "BAT"@[0] == 'B' && "BAT"@[1] == 'A' && "BAT"@[2] == 'T');
    if name.len() >= 3 {
        let head = name.take(3);
        assert(head[0] == name[0] && head[1] == name[1] && head[2] == name[2]);
        if name[0] == 'B' && name[1] == 'A' && name[2] == 'T' {
            assert(head =~= "BAT"@);
        }
    }
    if 0 <= i < j < battery_names(names).len() {
        let order = rank::ranked::<Name>(found);
        assert(!Name::before(order[j], order[i]));
    }
}

proof fn lemma_filter_count(
    names: Seq<Seq<char>>,
    pred: spec_fn(Seq<char>) -> bool,
    name: Seq<char>,
)
    ensures
        names.filter(pred).to_multiset().count(name) == (if pred(name) {
            names.to_multiset().count(name)
        } else {
            0
        }),
    decreases names.len(),
{
    broadcast use vstd::seq_lib::group_to_multiset_ensures;

    reveal(Seq::filter);
    if names.len() > 0 {
        let before = names.drop_last();
        lemma_filter_count(before, pred, name);
        assert(names =~= before.push(names.last()));
    } else {
        assert(names =~= seq![]);
    }
}

/// The directories of the batteries among the power supplies of these names, in the
/// order of their names.
pub fn find_battery_paths(names: &Vec<String>) -> (r: Vec<Vec<u8>>)
    ensures
        r@.len() == battery_names(text::texts(names@)).len(),
        forall|i: int|
            0 <= i < r@.len() ==> (#[trigger] r@[i])@ == path::under(
                path::bytes(supply_root()),
                battery_names(text::texts(names@))[i],
            ),
{
    let ghost all = text::texts(names@);
    let ghost is_battery = |n: Seq<char>| text::starts(n, "BAT"@);
    let mut found: Vec<Name> = Vec::new();
    let mut i: usize = 0;
    proof {
        reveal(Seq::filter);
        assert(rank::views(found@) =~= all.take(0).filter(is_battery));
    }
    while i < names.len()
        invariant
            i <= names@.len(),
            all == text::texts(names@),
            is_battery == (|n: Seq<char>| text::starts(n, "BAT"@)),
            rank::views(found@) == all.take(i as int).filter(is_battery),
        decreases names@.len() - i,
    {
        let chars: Vec<char> = text::characters(names[i].as_str());
        proof {
            reveal(Seq::filter);
            assert(all.take(i + 1).drop_last() =~= all.take(i as int));
            assert(all.take(i + 1).last() == chars@);
        }
        if text::starts_with(chars.as_slice(), "BAT") {
            let ghost before = rank::views(found@);
            let name: Name = Name { chars };
            found.push(name);
            assert(rank::views(found@) =~= before.push(name@));
        }
        i = i + 1;
    }
    assert(all.take(all.len() as int) =~= all);
    let order: Vec<Name> = rank::rank(found);
    let root: Vec<u8> = path::bytes_of("/sys/class/power_supply");
    let mut out: Vec<Vec<u8>> = Vec::new();
    let mut j: usize = 0;
    while j < order.len()
        invariant
            j <= order@.len(),
            root@ == path::bytes(supply_root()),
            out@.len() == j,
            forall|k: int|
                0 <= k < j ==> (#[trigger] out@[k])@ == path::under(
                    path::bytes(supply_root()),
                    rank::views(order@)[k],
                ),
        decreases order@.len() - j,
    {
        let name: String = text::string_of(order[j].chars.as_slice());
        out.push(path::join_name(root.as_slice(), name.as_str()));
        j = j + 1;
    }
    out
}

} // verus!
