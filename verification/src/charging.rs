//! The charge thresholds of the battery's firmware.

use crate::command;
use crate::decimal;
use crate::double::Double;
use crate::path;
use crate::sysfs;
use crate::sysfs::SupplyFiles;
use crate::text;
use vstd::prelude::*;

verus! {

/// The file that holds the charge at which charging starts.
pub const START_NODE: &'static str = "charge_control_start_threshold";

/// The file that holds the charge at which charging ends.
pub const END_NODE: &'static str = "charge_control_end_threshold";

/// The charge thresholds of a battery, in percent.
#[derive(Debug, Clone, Copy, PartialEq)]
pub struct ChargeThresholds {
    /// Whether the hardware has any.
    pub supported: bool,
    /// Where charging starts.
    pub start: Option<Double>,
    /// Where charging ends.
    pub end: Option<Double>,
}

/// Where the start threshold of a battery is.
pub fn start_path(battery_path: &[u8]) -> (r: Vec<u8>)
    ensures
        r@ == path::under(battery_path@, START_NODE@),
{
    path::join_name(battery_path, START_NODE)
}

/// Where the end threshold of a battery is.
pub fn end_path(battery_path: &[u8]) -> (r: Vec<u8>)
    ensures
        r@ == path::under(battery_path@, END_NODE@),
{
    path::join_name(battery_path, END_NODE)
}

/// The thresholds among the files of a battery, where there is a battery. They are
/// supported where one of the files is there, also where it holds no number.
pub fn read_charge_thresholds(battery: Option<&SupplyFiles>) -> (r: ChargeThresholds)
    ensures
        r == thresholds_in(
            match battery {
                Some(f) => Some(*f),
                None => None,
            },
        ),
        r == match battery {
            Some(f) => ChargeThresholds {
                supported: sysfs::content(f.entries@, START_NODE@) is Some || sysfs::content(
                    f.entries@,
                    END_NODE@,
                ) is Some,
                start: f.number(START_NODE@),
                end: f.number(END_NODE@),
            },
            None => ChargeThresholds { supported: false, start: None, end: None },
        },
{
    match battery {
        Some(f) => {
            let supported: bool = f.read(START_NODE).is_some() || f.read(END_NODE).is_some();
            ChargeThresholds { supported, start: f.num(START_NODE), end: f.num(END_NODE) }
        },
        None => ChargeThresholds { supported: false, start: None, end: None },
    }
}

/// What a shell runs to set the thresholds.
pub open spec fn threshold_script(battery_path: Seq<u8>, start: nat, end: nat) -> Seq<char> {
    "echo "@ + decimal::decimal(start) + " > "@ + text::lossy(
        path::under(battery_path, START_NODE@),
    ) + " && echo "@ + decimal::decimal(end) + " > "@ + text::lossy(
        path::under(battery_path, END_NODE@),
    )
}

/// Whether two thresholds can be set.
pub open spec fn thresholds_fit(start: int, end: int) -> bool {
    start < end
}

/// Thresholds can be set where charging ends above the charge at which it starts.
pub proof fn law_charging_ends_above_its_start(start: int, end: int)
    ensures
        thresholds_fit(start, end) <==> end - start > 0,
        !thresholds_fit(start, start),
{
}

/// The script to run as root, by `pkexec sh -c`, that sets the thresholds of a
/// battery; refused unless the start lies below the end.
pub fn set_charge_thresholds(battery_path: &[u8], start: u8, end: u8) -> (r: Result<
    String,
    String,
>)
    ensures
        r is Ok <==> thresholds_fit(start as int, end as int),
        match r {
            Ok(script) => start < end && script@ == threshold_script(
                battery_path@,
                start as nat,
                end as nat,
            ),
            Err(e) => start >= end && e@ == "start threshold must be less than end threshold"@,
        },
{
    if start >= end {
        return Err("start threshold must be less than end threshold".to_owned());
    }
    let mut out: Vec<char> = text::characters("echo ");
    text::add_all(&mut out, decimal::natural_text(start as u64));
    text::add(&mut out, " > ");
    text::add(&mut out, text::decode(start_path(battery_path).as_slice()).as_str());
    text::add(&mut out, " && echo ");
    text::add_all(&mut out, decimal::natural_text(end as u64));
    text::add(&mut out, " > ");
    text::add(&mut out, text::decode(end_path(battery_path).as_slice()).as_str());
    Ok(text::string_of(out.as_slice()))
}

/// The result of running the script of [`set_charge_thresholds`].
pub fn thresholds_written(status: Result<bool, String>) -> (r: Result<(), String>)
    ensures
        command::unit_view(r) == command::outcome_text(
            command::status_view(status),
            "pkexec"@,
            "writing charge thresholds failed (cancelled, or rejected by the driver)"@,
        ),
{
    command::outcome(
        status,
        "pkexec",
        "writing charge thresholds failed (cancelled, or rejected by the driver)",
    )
}

/// The script that sets the thresholds writes each to its own file in the directory of the
/// battery, the start first, and the end only where that succeeded.
pub proof fn law_each_threshold_goes_to_its_file(battery_path: Seq<u8>, start: nat, end: nat)
    ensures
        threshold_script(battery_path, start, end) == "echo "@ + decimal::decimal(start) + " > "@
            + text::lossy(path::under(battery_path, "charge_control_start_threshold"@))
            + " && echo "@ + decimal::decimal(end) + " > "@ + text::lossy(
            path::under(battery_path, "charge_control_end_threshold"@),
        ),
{
}

/// The thresholds among the files of a battery.
pub open spec fn thresholds_in(battery: Option<SupplyFiles>) -> ChargeThresholds {
    match battery {
        Some(f) => ChargeThresholds {
            supported: sysfs::content(f.entries@, START_NODE@) is Some || sysfs::content(
                f.entries@,
                END_NODE@,
            ) is Some,
            start: f.number(START_NODE@),
            end: f.number(END_NODE@),
        },
        None => ChargeThresholds { supported: false, start: None, end: None },
    }
}

/// Each threshold is the number in its own file. Thresholds are supported where one of the
/// two files is there, and without a battery there are none.
pub proof fn law_thresholds_are_read_from_their_files(f: SupplyFiles)
    ensures
        thresholds_in(Some(f)).start == f.number("charge_control_start_threshold"@),
        thresholds_in(Some(f)).end == f.number("charge_control_end_threshold"@),
        thresholds_in(Some(f)).supported <==> f.text("charge_control_start_threshold"@) is Some
            || f.text("charge_control_end_threshold"@) is Some,
        thresholds_in(None) == (ChargeThresholds { supported: false, start: None, end: None }),
{
}

} // verus!
