//! Power sources on USB-C.

use crate::double;
use crate::double::Double;
use crate::sysfs;
use crate::sysfs::SupplyFiles;
use crate::text;
use vstd::prelude::*;

verus! {

/// What was negotiated with a source of USB Power Delivery.
#[derive(Debug, PartialEq)]
pub struct UsbPdInfo {
    /// The kind of source, as the kernel names it.
    pub usb_type: String,
    /// Voltage in volts.
    pub voltage_v: Option<Double>,
    /// Current in amperes.
    pub current_a: Option<Double>,
    /// The largest current in amperes.
    pub max_current_a: Option<Double>,
    /// Power in watts.
    pub watts: Option<Double>,
}

/// A [`UsbPdInfo`] by its text.
pub struct UsbPdView {
    /// The kind of source.
    pub usb_type: Seq<char>,
    /// Voltage in volts.
    pub voltage_v: Option<Double>,
    /// Current in amperes.
    pub current_a: Option<Double>,
    /// The largest current in amperes.
    pub max_current_a: Option<Double>,
    /// Power in watts.
    pub watts: Option<Double>,
}

impl View for UsbPdInfo {
    type V = UsbPdView;

    open spec fn view(&self) -> UsbPdView {
        UsbPdView {
            usb_type: self.usb_type@,
            voltage_v: self.voltage_v,
            current_a: self.current_a,
            max_current_a: self.max_current_a,
            watts: self.watts,
        }
    }
}

impl Clone for UsbPdInfo {
    fn clone(&self) -> (r: UsbPdInfo)
        ensures
            r@ == self@,
    {
        UsbPdInfo {
            usb_type: self.usb_type.clone(),
            voltage_v: self.voltage_v,
            current_a: self.current_a,
            max_current_a: self.max_current_a,
            watts: self.watts,
        }
    }
}

/// Whether a power supply is a source of Power Delivery that is online.
pub open spec fn is_active(f: SupplyFiles) -> bool {
    f.text("online"@) == Some("1"@) && (f.text("usb_type"@) matches Some(t) && text::has(t, "PD"@))
}

/// What the files of a source tell. The power is only told where both voltage and
/// current are.
pub open spec fn source_info(f: SupplyFiles) -> UsbPdView {
    let voltage_v = sysfs::millionths(f.number("voltage_now"@));
    let current_a = sysfs::millionths(f.number("current_now"@));
    UsbPdView {
        usb_type: sysfs::text_or(f.text("usb_type"@), seq![]),
        voltage_v,
        current_a,
        max_current_a: sysfs::millionths(f.number("current_max"@)),
        watts: sysfs::both_times(voltage_v, current_a),
    }
}

/// The first of the power supplies that is an active source.
pub open spec fn active_source(supplies: Seq<SupplyFiles>) -> Option<UsbPdView>
    decreases supplies.len(),
{
    if supplies.len() == 0 {
        None
    } else if is_active(supplies[0]) {
        Some(source_info(supplies[0]))
    } else {
        active_source(supplies.drop_first())
    }
}

/// What the files of a power supply tell, where it is an active source.
fn read_source(f: &SupplyFiles) -> (r: Option<UsbPdInfo>)
    ensures
        is_active(*f) ==> (r matches Some(s) && s@ == source_info(*f)),
        !is_active(*f) ==> r is None,
{
    let online: bool = match f.read("online") {
        Some(s) => text::same(s.as_str(), "1"),
        None => false,
    };
    if !online {
        return None;
    }
    let usb_type: String = match f.read("usb_type") {
        Some(s) => s,
        None => {
            return None;
        },
    };
    if !text::contains(text::characters(usb_type.as_str()).as_slice(), "PD") {
        return None;
    }
    let voltage_v: Option<Double> = f.micro("voltage_now");
    let current_a: Option<Double> = f.micro("current_now");
    Some(
        UsbPdInfo {
            usb_type,
            voltage_v,
            current_a,
            max_current_a: f.micro("current_max"),
            watts: sysfs::multiply(voltage_v, current_a),
        },
    )
}

/// The first of the power supplies that is a source of Power Delivery and online.
pub fn read_active_usb_pd(supplies: &Vec<SupplyFiles>) -> (r: Option<UsbPdInfo>)
    ensures
        match active_source(supplies@) {
            Some(v) => r matches Some(s) && s@ == v,
            None => r is None,
        },
{
    let mut i: usize = 0;
    assert(supplies@.skip(0) =~= supplies@);
    while i < supplies.len()
        invariant
            i <= supplies@.len(),
            active_source(supplies@) == active_source(supplies@.skip(i as int)),
        decreases supplies@.len() - i,
    {
        let ghost rest = supplies@.skip(i as int);
        assert(rest[0] == supplies@[i as int]);
        if let Some(s) = read_source(&supplies[i]) {
            return Some(s);
        }
        assert(rest.drop_first() =~= supplies@.skip(i + 1));
        i = i + 1;
    }
    None
}

/// A source is one of the power supplies, and online; without such a power supply
/// there is none.
pub proof fn law_sources_are_real(supplies: Seq<SupplyFiles>)
    ensures
        match active_source(supplies) {
            Some(v) => exists|i: int|
                0 <= i < supplies.len() && is_active(#[trigger] supplies[i]) && v == source_info(
                    supplies[i],
                ),
            None => forall|i: int| 0 <= i < supplies.len() ==> !is_active(#[trigger] supplies[i]),
        },
    decreases supplies.len(),
{
    if supplies.len() > 0 && !is_active(supplies[0]) {
        let rest = supplies.drop_first();
        law_sources_are_real(rest);
        if active_source(rest) is Some {
            let v = active_source(rest)->0;
            let i = choose|i: int|
                0 <= i < rest.len() && is_active(#[trigger] rest[i]) && v == source_info(rest[i]);
            assert(supplies[i + 1] == rest[i]);
        } else {
            assert forall|i: int| 0 <= i < supplies.len() implies !is_active(
                #[trigger] supplies[i],
            ) by {
                if i > 0 {
                    assert(rest[i - 1] == supplies[i]);
                }
            }
        }
    }
}

/// The files of a power supply that tell of a source.
pub open spec fn nodes() -> Seq<Seq<char>> {
    seq!["online"@, "usb_type"@, "voltage_now"@, "current_now"@, "current_max"@]
}

/// The files of a power supply that tell of a source.
pub fn source_nodes() -> (r: Vec<String>)
    ensures
        text::texts(r@) == nodes(),
{
    let mut out: Vec<String> = Vec::new();
    out.push("online".to_owned());
    out.push("usb_type".to_owned());
    out.push("voltage_now".to_owned());
    out.push("current_now".to_owned());
    out.push("current_max".to_owned());
    assert(text::texts(out@) =~= nodes());
    out
}

/// What is told of a source depends on the files in [`nodes`] alone.
pub proof fn law_sources_depend_on_nodes(f: SupplyFiles, g: SupplyFiles)
    requires
        forall|i: int|
            0 <= i < nodes().len() ==> sysfs::content(f.entries@, #[trigger] nodes()[i])
                == sysfs::content(g.entries@, nodes()[i]),
    ensures
        is_active(f) == is_active(g),
        source_info(f) == source_info(g),
{
    assert(nodes()[0] == "online"@);
    assert(nodes()[1] == "usb_type"@);
    assert(nodes()[2] == "voltage_now"@);
    assert(nodes()[3] == "current_now"@);
    assert(nodes()[4] == "current_max"@);
}

/// The power of a source is only told where both voltage and current are.
pub proof fn law_watts_are_not_made_up(f: SupplyFiles)
    ensures
        source_info(f).watts is Some <==> f.number("voltage_now"@) is Some && f.number(
            "current_now"@,
        ) is Some,
{
}

/// The source that is told of is the first power supply that is online and of a kind with
/// `PD` in its name. What is told of it are that kind, its voltage, its current and its
/// largest current, from files that count millionths, and the power as voltage times
/// current.
pub proof fn law_the_first_active_source_is_told_of(supplies: Seq<SupplyFiles>, i: int)
    requires
        0 <= i < supplies.len(),
        supplies[i].text("online"@) == Some("1"@),
        supplies[i].text("usb_type"@) is Some,
        text::has(supplies[i].text("usb_type"@)->0, "PD"@),
        forall|k: int|
            0 <= k < i ==> (#[trigger] supplies[k]).text("online"@) != Some("1"@)
                || supplies[k].text("usb_type"@) is None || !text::has(
                supplies[k].text("usb_type"@)->0,
                "PD"@,
            ),
    ensures
        ({
            let f = supplies[i];
            let micro = |name: Seq<char>|
                match f.number(name) {
                    Some(x) => Some(double::quotient(x, double::whole(1000000))),
                    None => None,
                };
            let told = active_source(supplies)->0;
            &&& active_source(supplies) is Some
            &&& f.text("usb_type"@) == Some(told.usb_type)
            &&& told.voltage_v == micro("voltage_now"@)
            &&& told.current_a == micro("current_now"@)
            &&& told.max_current_a == micro("current_max"@)
            &&& told.voltage_v is Some && told.current_a is Some ==> told.watts == Some(
                double::product(told.voltage_v->0, told.current_a->0),
            )
            &&& told.voltage_v is None || told.current_a is None ==> told.watts is None
        }),
    decreases supplies.len(),
{
    if i > 0 {
        let rest = supplies.drop_first();
        assert(!is_active(supplies[0]));
        assert(rest[i - 1] == supplies[i]);
        assert forall|k: int| 0 <= k < i - 1 implies (#[trigger] rest[k]).text("online"@) != Some(
            "1"@,
        ) || rest[k].text("usb_type"@) is None || !text::has(
            rest[k].text("usb_type"@)->0,
            "PD"@,
        ) by {
            assert(rest[k] == supplies[k + 1]);
        }
        law_the_first_active_source_is_told_of(rest, i - 1);
    }
}

/// Without a power supply that is online and of a kind with `PD` in its name, no source is
/// told of.
pub proof fn law_no_source_is_made_up(supplies: Seq<SupplyFiles>)
    requires
        forall|k: int|
            0 <= k < supplies.len() ==> (#[trigger] supplies[k]).text("online"@) != Some("1"@)
                || supplies[k].text("usb_type"@) is None || !text::has(
                supplies[k].text("usb_type"@)->0,
                "PD"@,
            ),
    ensures
        active_source(supplies) is None,
{
    law_sources_are_real(supplies);
}

} // verus!
