//! Other devices with a battery of their own, such as wireless mice.

use crate::double::Double;
use crate::path;
use crate::sysfs;
use crate::sysfs::SupplyFiles;
use crate::text;
use vstd::prelude::*;

verus! {

/// A device with a battery of its own.
#[derive(Debug, PartialEq)]
pub struct PeripheralDevice {
    /// Name of the device.
    pub name: String,
    /// Its manufacturer.
    pub manufacturer: Option<String>,
    /// Status of its battery.
    pub status: String,
    /// Charge in percent, where the device tells a number.
    pub capacity_percent: Option<Double>,
}

/// A [`PeripheralDevice`] by its texts.
pub struct DeviceView {
    /// Name of the device.
    pub name: Seq<char>,
    /// Its manufacturer.
    pub manufacturer: Option<Seq<char>>,
    /// Status of its battery.
    pub status: Seq<char>,
    /// Charge in percent.
    pub capacity_percent: Option<Double>,
}

impl View for PeripheralDevice {
    type V = DeviceView;

    open spec fn view(&self) -> DeviceView {
        DeviceView {
            name: self.name@,
            manufacturer: sysfs::text_view(self.manufacturer),
            status: self.status@,
            capacity_percent: self.capacity_percent,
        }
    }
}

impl Clone for PeripheralDevice {
    fn clone(&self) -> (r: PeripheralDevice)
        ensures
            r@ == self@,
    {
        PeripheralDevice {
            name: self.name.clone(),
            manufacturer: match &self.manufacturer {
                Some(m) => Some(m.clone()),
                None => None,
            },
            status: self.status.clone(),
            capacity_percent: self.capacity_percent,
        }
    }
}

/// A power supply: its directory, the name of that, and the files in it.
pub struct Supply {
    /// The directory.
    pub path: Vec<u8>,
    /// The name of the directory, where it is text.
    pub name: Option<String>,
    /// The files that could be read.
    pub files: SupplyFiles,
}

/// Whether one of the paths leads to `path`.
pub open spec fn listed(paths: Seq<Vec<u8>>, path: Seq<u8>) -> bool {
    exists|i: int| 0 <= i < paths.len() && path::alike((#[trigger] paths[i])@, path)
}

/// Whether a power supply is a battery that is not left out.
pub open spec fn is_peripheral(s: Supply, exclude: Seq<Vec<u8>>) -> bool {
    !listed(exclude, s.path@) && s.files.text("type"@) == Some("Battery"@)
}

/// The first text that is there.
pub open spec fn either(a: Option<Seq<char>>, b: Option<Seq<char>>) -> Option<Seq<char>> {
    match a {
        Some(s) => Some(s),
        None => b,
    }
}

/// What the files of a battery tell of its device. The charge is a number or not
/// known: it is not made up from a level such as "Low".
pub open spec fn device_info(s: Supply) -> DeviceView {
    let f = s.files;
    DeviceView {
        name: sysfs::text_or(
            either(f.text("model_name"@), sysfs::text_view(s.name)),
            "Unknown device"@,
        ),
        manufacturer: f.text("manufacturer"@),
        status: sysfs::text_or(either(f.text("status"@), f.text("capacity_level"@)), "Unknown"@),
        capacity_percent: f.number("capacity"@),
    }
}

/// The devices among the power supplies, in their order.
pub open spec fn peripherals(supplies: Seq<Supply>, exclude: Seq<Vec<u8>>) -> Seq<DeviceView>
    decreases supplies.len(),
{
    if supplies.len() == 0 {
        seq![]
    } else {
        let earlier = peripherals(supplies.drop_last(), exclude);
        if is_peripheral(supplies.last(), exclude) {
            earlier.push(device_info(supplies.last()))
        } else {
            earlier
        }
    }
}

/// Devices by their views.
pub open spec fn device_views(v: Seq<PeripheralDevice>) -> Seq<DeviceView> {
    Seq::new(v.len(), |i: int| v[i]@)
}

fn is_listed(paths: &Vec<Vec<u8>>, path: &[u8]) -> (r: bool)
    ensures
        r == listed(paths@, path@),
{
    let mut i: usize = 0;
    while i < paths.len()
        invariant
            i <= paths@.len(),
            forall|k: int| 0 <= k < i ==> !path::alike((#[trigger] paths@[k])@, path@),
        decreases paths@.len() - i,
    {
        if path::leads_to(paths[i].as_slice(), path) {
            return true;
        }
        i = i + 1;
    }
    false
}

fn read_device(s: &Supply) -> (r: PeripheralDevice)
    ensures
        r@ == device_info(*s),
{
    let name: Option<String> = match s.files.read("model_name") {
        Some(n) => Some(n),
        None => match &s.name {
            Some(n) => Some(n.clone()),
            None => None,
        },
    };
    let status: Option<String> = match s.files.read("status") {
        Some(n) => Some(n),
        None => s.files.read("capacity_level"),
    };
    PeripheralDevice {
        name: sysfs::or_text(name, "Unknown device"),
        manufacturer: s.files.read("manufacturer"),
        status: sysfs::or_text(status, "Unknown"),
        capacity_percent: s.files.num("capacity"),
    }
}

/// The devices with a battery of their own among the power supplies; those in
/// `exclude`, which are the laptop's own batteries, are left out.
pub fn read_peripheral_devices(supplies: &Vec<Supply>, exclude: &Vec<Vec<u8>>) -> (r: Vec<
    PeripheralDevice,
>)
    ensures
        device_views(r@) == peripherals(supplies@, exclude@),
{
    let mut out: Vec<PeripheralDevice> = Vec::new();
    let mut i: usize = 0;
    assert(device_views(out@) =~= peripherals(supplies@.take(0), exclude@));
    while i < supplies.len()
        invariant
            i <= supplies@.len(),
            device_views(out@) == peripherals(supplies@.take(i as int), exclude@),
        decreases supplies@.len() - i,
    {
        let s: &Supply = &supplies[i];
        proof {
            assert(supplies@.take(i + 1).drop_last() =~= supplies@.take(i as int));
            assert(supplies@.take(i + 1).last() == supplies@[i as int]);
        }
        if !is_listed(exclude, s.path.as_slice()) {
            let battery: bool = match s.files.read("type") {
                Some(t) => text::same(t.as_str(), "Battery"),
                None => false,
            };
            if battery {
                let device: PeripheralDevice = read_device(s);
                let ghost before = device_views(out@);
                out.push(device);
                assert(device_views(out@) =~= before.push(device@));
            }
        }
        i = i + 1;
    }
    assert(supplies@.take(supplies@.len() as int) =~= supplies@);
    out
}

/// A power supply that is left out makes no difference.
pub proof fn law_excluded_supplies_do_not_show(
    before: Seq<Supply>,
    s: Supply,
    after: Seq<Supply>,
    exclude: Seq<Vec<u8>>,
)
    requires
        listed(exclude, s.path@),
    ensures
        peripherals(before.push(s) + after, exclude) == peripherals(before + after, exclude),
    decreases after.len(),
{
    if after.len() == 0 {
        assert(before.push(s) + after =~= before.push(s));
        assert(before + after =~= before);
        assert(before.push(s).drop_last() =~= before);
    } else {
        law_excluded_supplies_do_not_show(before, s, after.drop_last(), exclude);
        let with = before.push(s) + after;
        let without = before + after;
        assert(with.drop_last() =~= before.push(s) + after.drop_last());
        assert(without.drop_last() =~= before + after.drop_last());
        assert(with.last() == after.last() && without.last() == after.last());
    }
}

/// The files of a power supply that tell of its device.
pub open spec fn nodes() -> Seq<Seq<char>> {
    seq!["type"@, "model_name"@, "manufacturer"@, "status"@, "capacity_level"@, "capacity"@]
}

/// The files of a power supply that tell of its device.
pub fn device_nodes() -> (r: Vec<String>)
    ensures
        text::texts(r@) == nodes(),
{
    let mut out: Vec<String> = Vec::new();
    out.push("type".to_owned());
    out.push("model_name".to_owned());
    out.push("manufacturer".to_owned());
    out.push("status".to_owned());
    out.push("capacity_level".to_owned());
    out.push("capacity".to_owned());
    assert(text::texts(out@) =~= nodes());
    out
}

/// What is told of a device depends on the files in [`nodes`] alone.
pub proof fn law_devices_depend_on_nodes(s: Supply, t: Supply, exclude: Seq<Vec<u8>>)
    requires
        s.path@ == t.path@,
        sysfs::text_view(s.name) == sysfs::text_view(t.name),
        forall|i: int|
            0 <= i < nodes().len() ==> sysfs::content(s.files.entries@, #[trigger] nodes()[i])
                == sysfs::content(t.files.entries@, nodes()[i]),
    ensures
        is_peripheral(s, exclude) == is_peripheral(t, exclude),
        device_info(s) == device_info(t),
{
    assert(nodes()[0] == "type"@);
    assert(nodes()[1] == "model_name"@);
    assert(nodes()[2] == "manufacturer"@);
    assert(nodes()[3] == "status"@);
    assert(nodes()[4] == "capacity_level"@);
    assert(nodes()[5] == "capacity"@);
}

/// The charge of a device is only told where its file holds a number; no level
/// stands in for it.
pub proof fn law_charge_is_not_made_up(s: Supply)
    ensures
        device_info(s).capacity_percent is Some <==> s.files.number("capacity"@) is Some,
{
}

/// The devices of power supplies that follow each other are those of the first ones,
/// followed by those of the others.
pub proof fn law_devices_add_up(front: Seq<Supply>, back: Seq<Supply>, exclude: Seq<Vec<u8>>)
    ensures
        peripherals(front + back, exclude) == peripherals(front, exclude) + peripherals(
            back,
            exclude,
        ),
    decreases back.len(),
{
    if back.len() == 0 {
        assert(front + back =~= front);
        assert(peripherals(front, exclude) + peripherals(back, exclude) =~= peripherals(
            front,
            exclude,
        ));
    } else {
        law_devices_add_up(front, back.drop_last(), exclude);
        assert((front + back).drop_last() =~= front + back.drop_last());
        assert((front + back).last() == back.last());
        assert(peripherals(front + back, exclude) =~= peripherals(front, exclude) + peripherals(
            back,
            exclude,
        ));
    }
}

/// A power supply is listed as a device where it is a battery and none of the paths that
/// are left out leads to it, and only there. It is named by its model, or else by its
/// directory; its status is what it tells, or else its level; and its charge is a number
/// that it tells.
pub proof fn law_batteries_are_listed(s: Supply, exclude: Seq<Vec<u8>>)
    ensures
        ({
            let found = peripherals(seq![s], exclude);
            let f = s.files;
            let left_out = exists|i: int|
                0 <= i < exclude.len() && path::alike((#[trigger] exclude[i])@, s.path@);
            &&& left_out || f.text("type"@) != Some("Battery"@) ==> found.len() == 0
            &&& !left_out && f.text("type"@) == Some("Battery"@) ==> {
                let d = found[0];
                &&& found.len() == 1
                &&& f.text("model_name"@) matches Some(t) ==> d.name == t
                &&& f.text("model_name"@) is None ==> (s.name matches Some(t) ==> d.name == t@)
                &&& f.text("model_name"@) is None && s.name is None ==> d.name == "Unknown device"@
                &&& d.manufacturer == f.text("manufacturer"@)
                &&& f.text("status"@) matches Some(t) ==> d.status == t
                &&& f.text("status"@) is None ==> (f.text("capacity_level"@) matches Some(t)
                    ==> d.status == t)
                &&& f.text("status"@) is None && f.text("capacity_level"@) is None ==> d.status
                    == "Unknown"@
                &&& d.capacity_percent == f.number("capacity"@)
            }
        }),
{
    reveal_with_fuel(peripherals, 2);
    assert(seq![s].drop_last() =~= seq![]);
}

} // verus!
