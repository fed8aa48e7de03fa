//! Alerts on readings, and the list that keeps them.

use crate::decimal;
use crate::double;
use crate::double::Double;
use crate::reader;
use crate::reader::Reading;
use crate::text;
use vstd::prelude::*;

verus! {

/// How grave an alert is.
#[derive(Clone, Copy, Debug, PartialEq, Eq, Structural)]
pub enum Severity {
    /// Worth a look.
    Warning,
    /// Needs action.
    Critical,
}

impl Severity {
    /// The word for the severity.
    pub open spec fn name(self) -> Seq<char> {
        match self {
            Severity::Warning => "Warning"@,
            Severity::Critical => "Critical"@,
        }
    }

    /// The word for the severity.
    pub fn label(&self) -> (r: &'static str)
        ensures
            r@ == self.name(),
    {
        match self {
            Severity::Warning => "Warning",
            Severity::Critical => "Critical",
        }
    }
}

/// Watches readings and reports each crossing of a limit once: a battery that stays
/// low is reported when it gets low, not with every reading.
pub struct BatteryAlertDetector {
    low_threshold: Double,
    critical_threshold: Double,
    armed_low: bool,
    armed_critical: bool,
    armed_temp: bool,
    power_ema: Option<Double>,
    armed_spike: bool,
}

/// The state of a [`BatteryAlertDetector`].
pub struct Watch {
    /// Charge in percent at which the battery is low.
    pub low_threshold: Double,
    /// Charge in percent at which the battery is critical.
    pub critical_threshold: Double,
    /// Whether the next low charge is reported.
    pub armed_low: bool,
    /// Whether the next critical charge is reported.
    pub armed_critical: bool,
    /// Whether the next high temperature is reported.
    pub armed_temp: bool,
    /// The recent power, as a moving average.
    pub power_ema: Option<Double>,
    /// Whether the next spike is reported.
    pub armed_spike: bool,
}

/// An alert: how grave, and what it says.
pub type Notice = (Severity, Seq<char>);

/// Alerts by their texts.
pub open spec fn notices(s: Seq<(Severity, String)>) -> Seq<Notice> {
    Seq::new(s.len(), |i: int| (s[i].0, s[i].1@))
}

impl View for BatteryAlertDetector {
    type V = Watch;

    closed spec fn view(&self) -> Watch {
        Watch {
            low_threshold: self.low_threshold,
            critical_threshold: self.critical_threshold,
            armed_low: self.armed_low,
            armed_critical: self.armed_critical,
            armed_temp: self.armed_temp,
            power_ema: self.power_ema,
            armed_spike: self.armed_spike,
        }
    }
}

/// A detector that has seen nothing.
pub open spec fn fresh(low: Double, critical: Double) -> Watch {
    Watch {
        low_threshold: low,
        critical_threshold: critical,
        armed_low: true,
        armed_critical: true,
        armed_temp: true,
        power_ema: None,
        armed_spike: true,
    }
}

/// Where a charge lies.
pub enum Zone {
    /// The charge is not known.
    Unknown,
    /// At most the critical threshold, on battery power.
    Critical,
    /// At most the low threshold, on battery power.
    Low,
    /// Neither.
    Clear,
}

/// Where the charge of a reading lies.
pub open spec fn zone(w: Watch, r: reader::ReadingView) -> Zone {
    match r.capacity {
        None => Zone::Unknown,
        Some(cap) => {
            let discharging = r.status == "Discharging"@;
            if discharging && cap.at_most(w.critical_threshold) {
                Zone::Critical
            } else if discharging && cap.at_most(w.low_threshold) {
                Zone::Low
            } else {
                Zone::Clear
            }
        },
    }
}

/// What an alert on the charge says.
pub open spec fn charge_text(opening: Seq<char>, cap: Double, threshold: Double) -> Seq<char> {
    opening + decimal::fixed(cap, 0) + "% remaining (threshold "@ + decimal::fixed(threshold, 0)
        + "%)"@
}

/// The detector after the charge of a reading, and the alerts on it.
pub open spec fn capacity_step(w: Watch, r: reader::ReadingView) -> (Watch, Seq<Notice>) {
    match zone(w, r) {
        Zone::Unknown => (w, seq![]),
        Zone::Critical => if w.armed_critical {
            (
                Watch { armed_critical: false, armed_low: false, ..w },
                seq![
                    (
                        Severity::Critical,
                        charge_text("Critical battery: "@, r.capacity->0, w.critical_threshold),
                    ),
                ],
            )
        } else {
            (w, seq![])
        },
        Zone::Low => if w.armed_low {
            (
                Watch { armed_low: false, armed_critical: true, ..w },
                seq![
                    (
                        Severity::Warning,
                        charge_text("Low battery: "@, r.capacity->0, w.low_threshold),
                    ),
                ],
            )
        } else {
            (Watch { armed_critical: true, ..w }, seq![])
        },
        Zone::Clear => (Watch { armed_low: true, armed_critical: true, ..w }, seq![]),
    }
}

/// The temperature at which there is a warning, in degrees Celsius.
pub const TEMP_WARNING_C: u64 = 45;

/// The temperature that is critical, in degrees Celsius.
pub const TEMP_CRITICAL_C: u64 = 55;

/// Whether a reading is too warm.
pub open spec fn warm(r: reader::ReadingView) -> bool {
    r.temperature matches Some(t) && double::whole(TEMP_WARNING_C as nat).at_most(t)
}

/// The detector after the temperature of a reading, and the alerts on it.
pub open spec fn temperature_step(w: Watch, r: reader::ReadingView) -> (Watch, Seq<Notice>) {
    match r.temperature {
        None => (w, seq![]),
        Some(t) => {
            let shown = decimal::fixed(t, 1) + "\u{b0}C"@;
            let critical = double::whole(TEMP_CRITICAL_C as nat).at_most(t);
            if !critical && !double::whole(TEMP_WARNING_C as nat).at_most(t) {
                (Watch { armed_temp: true, ..w }, seq![])
            } else if !w.armed_temp {
                (w, seq![])
            } else if critical {
                (
                    Watch { armed_temp: false, ..w },
                    seq![(Severity::Critical, "High battery temperature: "@ + shown)],
                )
            } else {
                (
                    Watch { armed_temp: false, ..w },
                    seq![(Severity::Warning, "Elevated battery temperature: "@ + shown)],
                )
            }
        },
    }
}

/// Whether a baseline is large enough to compare with: more than half a watt.
pub open spec fn meaningful(baseline: Double) -> bool {
    decimal::decimal_number(5, 1).less(baseline)
}

/// Whether `power` is more than two and a half times the baseline.
pub open spec fn spikes(power: Double, baseline: Double) -> bool {
    double::product(baseline, decimal::decimal_number(25, 1)).less(power)
}

/// Whether `power` is near the baseline again.
pub open spec fn settled(power: Double, baseline: Double) -> bool {
    power.less(double::product(baseline, decimal::decimal_number(13, 1)))
}

/// The baseline moved a tenth of the way to `power`.
pub open spec fn moved(baseline: Double, power: Double) -> Double {
    let alpha = decimal::decimal_number(1, 1);
    double::sum(
        double::product(baseline, double::difference(double::whole(1), alpha)),
        double::product(power, alpha),
    )
}

/// The detector after the power of a reading, and the alerts on it.
pub open spec fn spike_step(w: Watch, r: reader::ReadingView) -> (Watch, Seq<Notice>) {
    match (r.power, w.power_ema) {
        (None, _) => (w, seq![]),
        (Some(power), None) => (Watch { power_ema: Some(power), ..w }, seq![]),
        (Some(power), Some(baseline)) => {
            let next = Watch { power_ema: Some(moved(baseline, power)), ..w };
            if !meaningful(baseline) {
                (Watch { armed_spike: true, ..next }, seq![])
            } else if spikes(power, baseline) && w.armed_spike {
                (
                    Watch { armed_spike: false, ..next },
                    seq![
                        (
                            Severity::Warning,
                            "Power draw spike: "@ + decimal::fixed(power, 1)
                                + " W vs a recent baseline of "@ + decimal::fixed(baseline, 1)
                                + " W"@,
                        ),
                    ],
                )
            } else if settled(power, baseline) {
                (Watch { armed_spike: true, ..next }, seq![])
            } else {
                (next, seq![])
            }
        },
    }
}

/// The detector after a reading, and the alerts on it.
pub open spec fn step(w: Watch, r: reader::ReadingView) -> (Watch, Seq<Notice>) {
    let (w1, a1) = capacity_step(w, r);
    let (w2, a2) = temperature_step(w1, r);
    let (w3, a3) = spike_step(w2, r);
    (w3, a1 + a2 + a3)
}

/// The detector after several readings.
pub open spec fn after(w: Watch, rs: Seq<reader::ReadingView>) -> Watch
    decreases rs.len(),
{
    if rs.len() == 0 {
        w
    } else {
        step(after(w, rs.drop_last()), rs.last()).0
    }
}

fn charge_message(opening: &str, cap: Double, threshold: Double) -> (r: String)
    ensures
        r@ == charge_text(opening@, cap, threshold),
{
    let mut out: Vec<char> = text::characters(opening);
    text::add_all(&mut out, decimal::fixed_text(cap, 0));
    text::add(&mut out, "% remaining (threshold ");
    text::add_all(&mut out, decimal::fixed_text(threshold, 0));
    text::add(&mut out, "%)");
    text::string_of(out.as_slice())
}

fn temperature_message(opening: &str, t: Double) -> (r: String)
    ensures
        r@ == opening@ + (decimal::fixed(t, 1) + "\u{b0}C"@),
{
    let mut out: Vec<char> = text::characters(opening);
    text::add_all(&mut out, decimal::fixed_text(t, 1));
    text::add(&mut out, "\u{b0}C");
    assert(out@ =~= opening@ + (decimal::fixed(t, 1) + "\u{b0}C"@));
    text::string_of(out.as_slice())
}

fn spike_message(power: Double, baseline: Double) -> (r: String)
    ensures
        r@ == "Power draw spike: "@ + decimal::fixed(power, 1) + " W vs a recent baseline of "@
            + decimal::fixed(baseline, 1) + " W"@,
{
    let mut out: Vec<char> = text::characters("Power draw spike: ");
    text::add_all(&mut out, decimal::fixed_text(power, 1));
    text::add(&mut out, " W vs a recent baseline of ");
    text::add_all(&mut out, decimal::fixed_text(baseline, 1));
    text::add(&mut out, " W");
    text::string_of(out.as_slice())
}

impl BatteryAlertDetector {
    /// A detector with these thresholds, in percent of charge.
    pub fn new(low_threshold: Double, critical_threshold: Double) -> (r: BatteryAlertDetector)
        ensures
            r@ == fresh(low_threshold, critical_threshold),
    {
        BatteryAlertDetector {
            low_threshold,
            critical_threshold,
            armed_low: true,
            armed_critical: true,
            armed_temp: true,
            power_ema: None,
            armed_spike: true,
        }
    }

    /// Changes the thresholds and nothing else.
    pub fn set_thresholds(&mut self, low: Double, critical: Double)
        ensures
            final(self)@ == (Watch {
                low_threshold: low,
                critical_threshold: critical,
                ..old(self)@
            }),
    {
        self.low_threshold = low;
        self.critical_threshold = critical;
    }

    /// Takes a reading in and returns the alerts on it: those on the charge, then
    /// those on the temperature, then those on the power.
    pub fn observe(&mut self, r: &Reading) -> (out: Vec<(Severity, String)>)
        ensures
            (final(self)@, notices(out@)) == step(old(self)@, r@),
    {
        let mut out: Vec<(Severity, String)> = Vec::new();
        self.observe_capacity(r, &mut out);
        self.observe_temperature(r, &mut out);
        self.observe_power_spike(r, &mut out);
        assert(notices(out@) =~= step(old(self)@, r@).1);
        out
    }

    fn observe_capacity(&mut self, r: &Reading, out: &mut Vec<(Severity, String)>)
        ensures
            final(self)@ == capacity_step(old(self)@, r@).0,
            notices(final(out)@) == notices(old(out)@) + capacity_step(old(self)@, r@).1,
    {
        assert(notices(out@) =~= notices(out@) + Seq::<Notice>::empty());
        let cap: Double = match r.capacity {
            Some(c) => c,
            None => {
                return;
            },
        };
        let discharging: bool = text::same(r.status.as_str(), "Discharging");
        if discharging && cap.le(self.critical_threshold) {
            if self.armed_critical {
                let m: String = charge_message("Critical battery: ", cap, self.critical_threshold);
                out.push((Severity::Critical, m));
                self.armed_critical = false;
                self.armed_low = false;
                assert(notices(out@) =~= notices(old(out)@) + capacity_step(old(self)@, r@).1);
            }
        } else if discharging && cap.le(self.low_threshold) {
            self.armed_critical = true;
            if self.armed_low {
                let m: String = charge_message("Low battery: ", cap, self.low_threshold);
                out.push((Severity::Warning, m));
                self.armed_low = false;
                assert(notices(out@) =~= notices(old(out)@) + capacity_step(old(self)@, r@).1);
            }
        } else {
            self.armed_low = true;
            self.armed_critical = true;
        }
    }

    fn observe_temperature(&mut self, r: &Reading, out: &mut Vec<(Severity, String)>)
        ensures
            final(self)@ == temperature_step(old(self)@, r@).0,
            notices(final(out)@) == notices(old(out)@) + temperature_step(old(self)@, r@).1,
    {
        assert(notices(out@) =~= notices(out@) + Seq::<Notice>::empty());
        let temp: Double = match r.temperature {
            Some(t) => t,
            None => {
                return;
            },
        };
        if Double::from_u64(TEMP_CRITICAL_C).le(temp) {
            if self.armed_temp {
                out.push((Severity::Critical, temperature_message("High battery temperature: ", temp)));
                self.armed_temp = false;
                assert(notices(out@) =~= notices(old(out)@) + temperature_step(old(self)@, r@).1);
            }
        } else if Double::from_u64(TEMP_WARNING_C).le(temp) {
            if self.armed_temp {
                out.push(
                    (Severity::Warning, temperature_message("Elevated battery temperature: ", temp)),
                );
                self.armed_temp = false;
                assert(notices(out@) =~= notices(old(out)@) + temperature_step(old(self)@, r@).1);
            }
        } else {
            self.armed_temp = true;
        }
    }

    fn observe_power_spike(&mut self, r: &Reading, out: &mut Vec<(Severity, String)>)
        ensures
            final(self)@ == spike_step(old(self)@, r@).0,
            notices(final(out)@) == notices(old(out)@) + spike_step(old(self)@, r@).1,
    {
        assert(notices(out@) =~= notices(out@) + Seq::<Notice>::empty());
        let power: Double = match r.power {
            Some(p) => p,
            None => {
                return;
            },
        };
        let ema: Double = match self.power_ema {
            Some(e) => e,
            None => {
                self.power_ema = Some(power);
                return;
            },
        };
        // Next to an idle baseline any draw would look like a spike.
        if decimal::number(5, 1).lt(ema) {
            if ema.times(decimal::number(25, 1)).lt(power) && self.armed_spike {
                out.push((Severity::Warning, spike_message(power, ema)));
                self.armed_spike = false;
                assert(notices(out@) =~= notices(old(out)@) + spike_step(old(self)@, r@).1);
            } else if power.lt(ema.times(decimal::number(13, 1))) {
                self.armed_spike = true;
            }
        } else {
            self.armed_spike = true;
        }
        let alpha: Double = decimal::number(1, 1);
        let kept: Double = ema.times(Double::from_u64(1).minus(alpha));
        self.power_ema = Some(kept.plus(power.times(alpha)));
    }
}

/// Whether a low charge is only reported where a critical one would be: what holds
/// of every detector.
pub open spec fn coherent(w: Watch) -> bool {
    w.armed_low ==> w.armed_critical
}

/// Whether the charge of a reading is low or critical.
pub open spec fn depleted(w: Watch, r: reader::ReadingView) -> bool {
    zone(w, r) is Low || zone(w, r) is Critical
}

/// A new detector is coherent, and stays so with every reading and every change of
/// the thresholds.
pub proof fn law_detectors_are_coherent(
    low: Double,
    critical: Double,
    w: Watch,
    r: reader::ReadingView,
)
    requires
        coherent(w),
    ensures
        coherent(fresh(low, critical)),
        coherent(step(w, r).0),
        coherent(Watch { low_threshold: low, critical_threshold: critical, ..w }),
{
}

/// A reading never changes the thresholds.
pub proof fn law_thresholds_stay(w: Watch, rs: Seq<reader::ReadingView>)
    ensures
        after(w, rs).low_threshold == w.low_threshold,
        after(w, rs).critical_threshold == w.critical_threshold,
    decreases rs.len(),
{
    if rs.len() > 0 {
        law_thresholds_stay(w, rs.drop_last());
    }
}

proof fn lemma_zone_depends_on_thresholds(w: Watch, v: Watch, r: reader::ReadingView)
    requires
        w.low_threshold == v.low_threshold,
        w.critical_threshold == v.critical_threshold,
    ensures
        zone(w, r) == zone(v, r),
{
}

/// While no reading has a charge that is known to be neither low nor critical, the
/// alert on a low charge stays disarmed once it is.
proof fn lemma_low_disarmed(w: Watch, rs: Seq<reader::ReadingView>, k: int)
    requires
        coherent(w),
        0 <= k < rs.len(),
        depleted(w, rs[k]),
        forall|i: int| 0 <= i < rs.len() ==> !(zone(w, #[trigger] rs[i]) is Clear),
    ensures
        !after(w, rs).armed_low,
    decreases rs.len(),
{
    let before = rs.drop_last();
    let r = rs.last();
    law_thresholds_stay(w, before);
    lemma_zone_depends_on_thresholds(w, after(w, before), r);
    lemma_after_coherent(w, before);
    assert(!(zone(w, rs[rs.len() - 1]) is Clear));
    if k < before.len() {
        assert forall|i: int| 0 <= i < before.len() implies !(zone(
            w,
            #[trigger] before[i],
        ) is Clear) by {
            assert(before[i] == rs[i]);
        }
        assert(before[k] == rs[k]);
        lemma_low_disarmed(w, before, k);
    }
}

/// While no reading has a charge that is known and not critical, the alert on a
/// critical charge stays disarmed once it is.
proof fn lemma_critical_disarmed(w: Watch, rs: Seq<reader::ReadingView>, k: int)
    requires
        0 <= k < rs.len(),
        zone(w, rs[k]) is Critical,
        forall|i: int|
            0 <= i < rs.len() ==> zone(w, #[trigger] rs[i]) is Critical || zone(w, rs[i]) is Unknown,
    ensures
        !after(w, rs).armed_critical,
    decreases rs.len(),
{
    let before = rs.drop_last();
    let r = rs.last();
    law_thresholds_stay(w, before);
    lemma_zone_depends_on_thresholds(w, after(w, before), r);
    assert(zone(w, rs[rs.len() - 1]) is Critical || zone(w, rs[rs.len() - 1]) is Unknown);
    if k < before.len() {
        assert forall|i: int| 0 <= i < before.len() implies zone(
            w,
            #[trigger] before[i],
        ) is Critical || zone(w, before[i]) is Unknown by {
            assert(before[i] == rs[i]);
        }
        assert(before[k] == rs[k]);
        lemma_critical_disarmed(w, before, k);
    }
}

proof fn lemma_after_coherent(w: Watch, rs: Seq<reader::ReadingView>)
    requires
        coherent(w),
    ensures
        coherent(after(w, rs)),
    decreases rs.len(),
{
    if rs.len() > 0 {
        lemma_after_coherent(w, rs.drop_last());
    }
}

/// A charge that has become low is reported once: after a low or critical charge, a
/// further low charge is not reported until a charge is known to be neither, however
/// many readings there were and whatever else they held.
pub proof fn law_low_charge_is_reported_once(
    w: Watch,
    rs: Seq<reader::ReadingView>,
    k: int,
    r: reader::ReadingView,
)
    requires
        coherent(w),
        0 <= k < rs.len(),
        depleted(w, rs[k]),
        forall|i: int| 0 <= i < rs.len() ==> !(zone(w, #[trigger] rs[i]) is Clear),
        zone(w, r) is Low,
    ensures
        capacity_step(after(w, rs), r).1.len() == 0,
{
    lemma_low_disarmed(w, rs, k);
    law_thresholds_stay(w, rs);
    lemma_zone_depends_on_thresholds(w, after(w, rs), r);
}

/// A charge that has become critical is reported once: after a critical charge, a
/// further one is not reported until a charge is known not to be critical.
pub proof fn law_critical_charge_is_reported_once(
    w: Watch,
    rs: Seq<reader::ReadingView>,
    k: int,
    r: reader::ReadingView,
)
    requires
        0 <= k < rs.len(),
        zone(w, rs[k]) is Critical,
        forall|i: int|
            0 <= i < rs.len() ==> zone(w, #[trigger] rs[i]) is Critical || zone(w, rs[i]) is Unknown,
        zone(w, r) is Critical,
    ensures
        capacity_step(after(w, rs), r).1.len() == 0,
{
    lemma_critical_disarmed(w, rs, k);
    law_thresholds_stay(w, rs);
    lemma_zone_depends_on_thresholds(w, after(w, rs), r);
}

/// A reading without a known charge arms and disarms nothing.
proof fn lemma_unknown_changes_nothing(w: Watch, rs: Seq<reader::ReadingView>)
    requires
        forall|i: int| 0 <= i < rs.len() ==> zone(w, #[trigger] rs[i]) is Unknown,
    ensures
        after(w, rs).armed_low == w.armed_low,
        after(w, rs).armed_critical == w.armed_critical,
    decreases rs.len(),
{
    if rs.len() > 0 {
        let before = rs.drop_last();
        assert forall|i: int| 0 <= i < before.len() implies zone(
            w,
            #[trigger] before[i],
        ) is Unknown by {
            assert(before[i] == rs[i]);
        }
        lemma_unknown_changes_nothing(w, before);
        law_thresholds_stay(w, before);
        lemma_zone_depends_on_thresholds(w, after(w, before), rs.last());
        assert(zone(w, rs[rs.len() - 1]) is Unknown);
    }
}

/// Every crossing is reported. Where the charge that was known last was not
/// critical, a critical one gives one critical alert; where it was neither low nor
/// critical, a low one gives one warning. Readings without a known charge in between
/// change nothing.
pub proof fn law_crossing_is_reported(
    w: Watch,
    last: reader::ReadingView,
    unknown: Seq<reader::ReadingView>,
    r: reader::ReadingView,
)
    requires
        forall|i: int| 0 <= i < unknown.len() ==> zone(w, #[trigger] unknown[i]) is Unknown,
    ensures
        (zone(w, last) is Clear || zone(w, last) is Low) && zone(w, r) is Critical
            ==> capacity_step(after(step(w, last).0, unknown), r).1 == seq![
            (
                Severity::Critical,
                charge_text("Critical battery: "@, r.capacity->0, w.critical_threshold),
            ),
        ],
        zone(w, last) is Clear && zone(w, r) is Low ==> capacity_step(
            after(step(w, last).0, unknown),
            r,
        ).1 == seq![
            (Severity::Warning, charge_text("Low battery: "@, r.capacity->0, w.low_threshold)),
        ],
{
    let v = step(w, last).0;
    assert forall|i: int| 0 <= i < unknown.len() implies zone(
        v,
        #[trigger] unknown[i],
    ) is Unknown by {
        lemma_zone_depends_on_thresholds(w, v, unknown[i]);
    }
    lemma_unknown_changes_nothing(v, unknown);
    law_thresholds_stay(v, unknown);
    lemma_zone_depends_on_thresholds(w, after(v, unknown), r);
}

/// Off battery power no charge is low, however little is left.
pub proof fn law_only_discharging_is_low(w: Watch, r: reader::ReadingView)
    requires
        r.status != "Discharging"@,
    ensures
        capacity_step(w, r).1.len() == 0,
        !depleted(w, r),
{
}

/// A high temperature is reported once: after one or more readings that are too
/// warm, a further one is not reported.
pub proof fn law_heat_is_reported_once(
    w: Watch,
    rs: Seq<reader::ReadingView>,
    r: reader::ReadingView,
)
    requires
        rs.len() > 0,
        forall|i: int| 0 <= i < rs.len() ==> warm(#[trigger] rs[i]),
        warm(r),
    ensures
        temperature_step(after(w, rs), r).1.len() == 0,
{
    lemma_heat_disarms(w, rs);
}

proof fn lemma_heat_disarms(w: Watch, rs: Seq<reader::ReadingView>)
    requires
        rs.len() > 0,
        forall|i: int| 0 <= i < rs.len() ==> warm(#[trigger] rs[i]),
    ensures
        !after(w, rs).armed_temp,
    decreases rs.len(),
{
    assert(warm(rs[rs.len() - 1]));
}

/// Next to an idle baseline no draw is a spike.
pub proof fn law_idle_baseline_gives_no_spike(w: Watch, r: reader::ReadingView)
    requires
        w.power_ema matches Some(b) ==> !meaningful(b),
    ensures
        spike_step(w, r).1.len() == 0,
{
}

/// A spike is reported once: its alert disarms the detector, a disarmed detector
/// reports no spike, and only a power that has settled, or an idle baseline, arms it
/// again.
pub proof fn law_spike_is_reported_once(w: Watch, r: reader::ReadingView)
    ensures
        spike_step(w, r).1.len() > 0 ==> w.armed_spike && !step(w, r).0.armed_spike,
        !w.armed_spike && step(w, r).0.armed_spike ==> (match (r.power, w.power_ema) {
            (Some(power), Some(baseline)) => settled(power, baseline) || !meaningful(baseline),
            _ => false,
        }),
{
}

/// Of what is not known nothing is reported, and it changes nothing.
pub proof fn law_unknown_is_skipped(w: Watch, r: reader::ReadingView)
    ensures
        r.capacity is None ==> capacity_step(w, r) == (w, Seq::<Notice>::empty()),
        r.temperature is None ==> temperature_step(w, r) == (w, Seq::<Notice>::empty()),
        r.power is None ==> spike_step(w, r) == (w, Seq::<Notice>::empty()),
        r.capacity is None && r.temperature is None && r.power is None ==> step(w, r) == (
            w,
            Seq::<Notice>::empty(),
        ),
{
    assert(Seq::<Notice>::empty() + Seq::<Notice>::empty() + Seq::<Notice>::empty() =~= Seq::<
        Notice,
    >::empty());
}

/// One reading gives at most one alert on each of charge, temperature and power; a
/// critical charge is not reported as low too.
pub proof fn law_one_alert_each(w: Watch, r: reader::ReadingView)
    ensures
        capacity_step(w, r).1.len() <= 1,
        temperature_step(w, r).1.len() <= 1,
        spike_step(w, r).1.len() <= 1,
        step(w, r).1.len() <= 3,
{
}

/// What is reported of a charge on battery power. At the detector's own critical
/// threshold or below it is one critical alert, if that is armed; above it, and at the
/// low threshold or below, one warning, if that is armed; and otherwise nothing. Each
/// alert names the charge and the threshold, in whole percent.
pub proof fn law_thresholds_decide_what_is_reported(
    w: Watch,
    r: reader::ReadingView,
    charge: Double,
)
    requires
        r.status == "Discharging"@,
        r.capacity == Some(charge),
    ensures
        charge.at_most(w.critical_threshold) && w.armed_critical ==> capacity_step(w, r).1 == seq![
            (
                Severity::Critical,
                "Critical battery: "@ + decimal::fixed(charge, 0) + "% remaining (threshold "@
                    + decimal::fixed(w.critical_threshold, 0) + "%)"@,
            ),
        ],
        !charge.at_most(w.critical_threshold) && charge.at_most(w.low_threshold) && w.armed_low
            ==> capacity_step(w, r).1 == seq![
            (
                Severity::Warning,
                "Low battery: "@ + decimal::fixed(charge, 0) + "% remaining (threshold "@
                    + decimal::fixed(w.low_threshold, 0) + "%)"@,
            ),
        ],
        charge.at_most(w.critical_threshold) && !w.armed_critical ==> capacity_step(w, r).1.len()
            == 0,
        !charge.at_most(w.critical_threshold) && charge.at_most(w.low_threshold) && !w.armed_low
            ==> capacity_step(w, r).1.len() == 0,
        !charge.at_most(w.critical_threshold) && !charge.at_most(w.low_threshold)
            ==> capacity_step(w, r).1.len() == 0,
{
}

/// What the charge of a reading arms and disarms. A critical charge disarms both
/// alerts, a low one arms the critical alert and disarms the other, and one that is
/// neither, or is not drawn from, arms both. Nothing but these two ever changes.
pub proof fn law_charge_arms_and_disarms(w: Watch, r: reader::ReadingView, charge: Double)
    requires
        coherent(w),
        r.capacity == Some(charge),
    ensures
        ({
            let next = capacity_step(w, r).0;
            let drawn = r.status == "Discharging"@;
            &&& drawn && charge.at_most(w.critical_threshold) ==> !next.armed_critical
                && !next.armed_low
            &&& drawn && !charge.at_most(w.critical_threshold) && charge.at_most(w.low_threshold)
                ==> next.armed_critical && !next.armed_low
            &&& !drawn || (!charge.at_most(w.critical_threshold) && !charge.at_most(
                w.low_threshold,
            )) ==> next.armed_critical && next.armed_low
            &&& next.low_threshold == w.low_threshold
            &&& next.critical_threshold == w.critical_threshold
            &&& next.armed_temp == w.armed_temp
            &&& next.armed_spike == w.armed_spike
            &&& next.power_ema == w.power_ema
        }),
{
}

/// What is reported of a temperature: from 55 degrees on a critical alert, from 45
/// degrees on a warning, if the alert is armed, and below that nothing. It is disarmed
/// while the battery is that warm and armed when it is not, and nothing else changes.
pub proof fn law_temperature_is_reported(w: Watch, r: reader::ReadingView, t: Double)
    requires
        r.temperature == Some(t),
        !t.nan(),
    ensures
        ({
            let next = temperature_step(w, r).0;
            let alerts = temperature_step(w, r).1;
            let hot = 55 * double::unit() <= t.value();
            let elevated = 45 * double::unit() <= t.value();
            &&& hot && w.armed_temp ==> alerts == seq![
                (
                    Severity::Critical,
                    "High battery temperature: "@ + (decimal::fixed(t, 1) + "\u{b0}C"@),
                ),
            ]
            &&& elevated && !hot && w.armed_temp ==> alerts == seq![
                (
                    Severity::Warning,
                    "Elevated battery temperature: "@ + (decimal::fixed(t, 1) + "\u{b0}C"@),
                ),
            ]
            &&& !elevated || !w.armed_temp ==> alerts.len() == 0
            &&& next == Watch { armed_temp: !elevated, ..w }
        }),
{
    double::law_whole_numbers_are_exact(55);
    double::law_whole_numbers_are_exact(45);
    assert(double::whole(55) == double::whole_signed(55));
    assert(double::whole(45) == double::whole_signed(45));
    vstd::arithmetic::power2::lemma_pow2_pos(1074);
}

/// What is reported of a power beside a baseline of more than half a watt: a warning
/// where the power is more than two and a half times the baseline and the alert is
/// armed, and otherwise nothing. The alert is disarmed by its warning; without one it is
/// armed where the power is below one point three times the baseline.
pub proof fn law_spikes_are_reported(
    w: Watch,
    r: reader::ReadingView,
    power: Double,
    baseline: Double,
)
    requires
        r.power == Some(power),
        w.power_ema == Some(baseline),
        decimal::decimal_number(5, 1).less(baseline),
    ensures
        ({
            let next = spike_step(w, r).0;
            let alerts = spike_step(w, r).1;
            let far = double::product(baseline, decimal::decimal_number(25, 1)).less(power);
            let near = power.less(double::product(baseline, decimal::decimal_number(13, 1)));
            &&& far && w.armed_spike ==> alerts == seq![
                (
                    Severity::Warning,
                    "Power draw spike: "@ + decimal::fixed(power, 1)
                        + " W vs a recent baseline of "@ + decimal::fixed(baseline, 1) + " W"@,
                ),
            ] && !next.armed_spike
            &&& !(far && w.armed_spike) ==> alerts.len() == 0 && next.armed_spike == (w.armed_spike
                || near)
        }),
{
}

/// The baseline is the first power that was read, and from then on nine tenths of
/// itself and one tenth of the power, whatever is reported. Beside a baseline of at most
/// half a watt nothing is reported, and the alert is armed. Nothing else changes.
pub proof fn law_baseline_follows_the_power(w: Watch, r: reader::ReadingView, power: Double)
    requires
        r.power == Some(power),
    ensures
        ({
            let next = spike_step(w, r).0;
            let tenth = decimal::decimal_number(1, 1);
            &&& w.power_ema is None ==> next == Watch { power_ema: Some(power), ..w }
                && spike_step(w, r).1.len() == 0
            &&& w.power_ema matches Some(b) ==> next.power_ema == Some(
                double::sum(
                    double::product(b, double::difference(double::whole(1), tenth)),
                    double::product(power, tenth),
                ),
            )
            &&& w.power_ema matches Some(b) ==> !decimal::decimal_number(5, 1).less(b)
                ==> spike_step(w, r).1.len() == 0 && next.armed_spike
            &&& next == Watch {
                power_ema: next.power_ema,
                armed_spike: next.armed_spike,
                ..w
            }
        }),
{
}

/// The alerts on a reading are those on the charge, then those on the temperature, then
/// those on the power, and none of the three depends on the other two.
pub proof fn law_alerts_come_in_order(w: Watch, r: reader::ReadingView)
    ensures
        step(w, r).1 == capacity_step(w, r).1 + temperature_step(w, r).1 + spike_step(w, r).1,
        step(w, r).0 == (Watch {
            low_threshold: w.low_threshold,
            critical_threshold: w.critical_threshold,
            armed_low: capacity_step(w, r).0.armed_low,
            armed_critical: capacity_step(w, r).0.armed_critical,
            armed_temp: temperature_step(w, r).0.armed_temp,
            power_ema: spike_step(w, r).0.power_ema,
            armed_spike: spike_step(w, r).0.armed_spike,
        }),
{
}

/// A new detector reports the first charge that is low or critical, the first high
/// temperature, and has no baseline yet; it has the thresholds that it was given.
pub proof fn law_new_detectors_are_armed(low: Double, critical: Double)
    ensures
        ({
            let w = fresh(low, critical);
            &&& w.low_threshold == low && w.critical_threshold == critical
            &&& w.armed_low && w.armed_critical && w.armed_temp && w.armed_spike
            &&& w.power_ema is None
        }),
{
}

/// The severities have different names.
pub proof fn law_severities_are_named(s: Severity)
    ensures
        s == Severity::Warning ==> s.name() == "Warning"@,
        s == Severity::Critical ==> s.name() == "Critical"@,
{
}

/// Whether two thresholds can be set.
pub open spec fn thresholds_fit(low: Double, critical: Double) -> bool {
    !low.at_most(critical)
}

/// Of two numbers those thresholds can be set of which the critical one is the lesser;
/// equal ones cannot.
pub proof fn law_critical_lies_below_low(low: Double, critical: Double)
    requires
        !low.nan(),
        !critical.nan(),
    ensures
        thresholds_fit(low, critical) <==> critical.value() < low.value(),
{
}

/// Sets the thresholds of a detector, where the critical one is not at least the low
/// one.
pub fn set_alert_thresholds(
    detector: &mut BatteryAlertDetector,
    low: Double,
    critical: Double,
) -> (r: Result<(), String>)
    ensures
        r is Ok <==> thresholds_fit(low, critical),
        match r {
            Ok(_) => !low.at_most(critical) && final(detector)@ == (Watch {
                low_threshold: low,
                critical_threshold: critical,
                ..old(detector)@
            }),
            Err(e) => low.at_most(critical) && final(detector)@ == old(detector)@ && e@
                == "critical threshold must be less than low threshold"@,
        },
{
    if low.le(critical) {
        return Err("critical threshold must be less than low threshold".to_owned());
    }
    detector.set_thresholds(low, critical);
    Ok(())
}

/// The low threshold where none is configured.
pub const DEFAULT_LOW_THRESHOLD: u64 = 20;

/// The critical threshold where none is configured.
pub const DEFAULT_CRITICAL_THRESHOLD: u64 = 5;

/// The thresholds to start with.
pub open spec fn starting_thresholds(low: Option<Double>, critical: Option<Double>) -> (
    Double,
    Double,
) {
    (
        match low {
            Some(x) => x,
            None => double::whole(DEFAULT_LOW_THRESHOLD as nat),
        },
        match critical {
            Some(x) => x,
            None => double::whole(DEFAULT_CRITICAL_THRESHOLD as nat),
        },
    )
}

/// A threshold that is configured is the one to start with; without one it is 20 percent
/// for a low charge and 5 percent for a critical one.
pub proof fn law_configured_thresholds_count(low: Option<Double>, critical: Option<Double>)
    ensures
        low matches Some(x) ==> starting_thresholds(low, critical).0 == x,
        critical matches Some(x) ==> starting_thresholds(low, critical).1 == x,
        low is None ==> starting_thresholds(low, critical).0 == double::whole(20),
        critical is None ==> starting_thresholds(low, critical).1 == double::whole(5),
{
}

/// The thresholds to start with: those configured, and where one is not, its
/// default.
pub fn initial_thresholds(low: Option<Double>, critical: Option<Double>) -> (r: (Double, Double))
    ensures
        r == starting_thresholds(low, critical),
        r.0 == match low {
            Some(x) => x,
            None => double::whole(DEFAULT_LOW_THRESHOLD as nat),
        },
        r.1 == match critical {
            Some(x) => x,
            None => double::whole(DEFAULT_CRITICAL_THRESHOLD as nat),
        },
{
    let first: Double = match low {
        Some(x) => x,
        None => Double::from_u64(DEFAULT_LOW_THRESHOLD),
    };
    let second: Double = match critical {
        Some(x) => x,
        None => Double::from_u64(DEFAULT_CRITICAL_THRESHOLD),
    };
    (first, second)
}

/// The title of the desktop notification of an alert.
fn notification_title(severity: Severity) -> (r: String)
    ensures
        r@ == "Battery Monitor \u{2014} "@ + severity.name(),
{
    let mut out: String = "Battery Monitor \u{2014} ".to_owned();
    out.append(severity.label());
    out
}

/// Desktop notifications by their texts.
pub open spec fn notification_views(v: Seq<(String, String)>) -> Seq<(Seq<char>, Seq<char>)> {
    Seq::new(v.len(), |i: int| (v[i].0@, v[i].1@))
}

/// The desktop notifications for alerts.
pub open spec fn notified(alerts: Seq<Notice>, wanted: bool) -> Seq<(Seq<char>, Seq<char>)> {
    if wanted {
        Seq::new(
            alerts.len(),
            |i: int| ("Battery Monitor \u{2014} "@ + alerts[i].0.name(), alerts[i].1),
        )
    } else {
        seq![]
    }
}

/// Where notifications are wanted there is one for each alert, in their order, with the
/// text of the alert and with its severity in the title; else there is none.
pub proof fn law_every_alert_is_notified(alerts: Seq<Notice>, wanted: bool, i: int)
    requires
        0 <= i < alerts.len(),
    ensures
        notified(alerts, true).len() == alerts.len(),
        notified(alerts, true)[i].1 == alerts[i].1,
        alerts[i].0 == Severity::Warning ==> notified(alerts, true)[i].0
            == "Battery Monitor \u{2014} "@ + "Warning"@,
        alerts[i].0 == Severity::Critical ==> notified(alerts, true)[i].0
            == "Battery Monitor \u{2014} "@ + "Critical"@,
        notified(alerts, false).len() == 0,
{
}

/// The desktop notifications for alerts, each by its title and its text: one for each
/// alert, or none where they are not wanted.
pub fn notifications(alerts: &Vec<(Severity, String)>, wanted: bool) -> (r: Vec<(String, String)>)
    ensures
        notification_views(r@) == notified(notices(alerts@), wanted),
        notification_views(r@) == if wanted {
            Seq::new(
                alerts@.len(),
                |i: int| ("Battery Monitor \u{2014} "@ + alerts@[i].0.name(), alerts@[i].1@),
            )
        } else {
            seq![]
        },
{
    let mut out: Vec<(String, String)> = Vec::new();
    let mut i: usize = 0;
    if !wanted {
        assert(notification_views(out@) =~= seq![]);
        return out;
    }
    while i < alerts.len()
        invariant
            i <= alerts@.len(),
            notification_views(out@) =~= Seq::new(
                i as nat,
                |k: int| ("Battery Monitor \u{2014} "@ + alerts@[k].0.name(), alerts@[k].1@),
            ),
        decreases alerts@.len() - i,
    {
        let title: String = notification_title(alerts[i].0);
        let body: String = alerts[i].1.clone();
        let ghost before = notification_views(out@);
        out.push((title, body));
        assert(notification_views(out@) =~= before.push((title@, body@)));
        i = i + 1;
    }
    assert(notification_views(out@) =~= notified(notices(alerts@), wanted));
    out
}

/// An alert in the list.
#[derive(Debug, PartialEq)]
pub struct AlertItem {
    /// Number of the alert; later alerts have greater numbers.
    pub id: u64,
    /// How grave it is.
    pub severity: Severity,
    /// What it says.
    pub message: String,
    /// When it came.
    pub time: String,
    /// Whether it was read.
    pub read: bool,
}

/// An [`AlertItem`] by its texts.
pub struct AlertRow {
    /// Number of the alert.
    pub id: int,
    /// How grave it is.
    pub severity: Severity,
    /// What it says.
    pub message: Seq<char>,
    /// When it came.
    pub time: Seq<char>,
    /// Whether it was read.
    pub read: bool,
}

impl View for AlertItem {
    type V = AlertRow;

    open spec fn view(&self) -> AlertRow {
        AlertRow {
            id: self.id as int,
            severity: self.severity,
            message: self.message@,
            time: self.time@,
            read: self.read,
        }
    }
}

impl Clone for AlertItem {
    fn clone(&self) -> (r: AlertItem)
        ensures
            r@ == self@,
    {
        AlertItem {
            id: self.id,
            severity: self.severity,
            message: self.message.clone(),
            time: self.time.clone(),
            read: self.read,
        }
    }
}

/// How many alerts the list keeps.
pub const ALERTS_KEPT: usize = 200;

/// The latest alerts, newest first.
#[derive(Debug)]
pub struct AlertLog {
    items: Vec<AlertItem>,
    next: u64,
}

/// Alerts of the list by their views.
pub open spec fn rows(items: Seq<AlertItem>) -> Seq<AlertRow> {
    Seq::new(items.len(), |i: int| items[i]@)
}

/// New alerts as rows, the last one first, numbered from `next` on.
pub open spec fn new_rows(alerts: Seq<Notice>, times: Seq<Seq<char>>, next: int) -> Seq<AlertRow> {
    Seq::new(
        alerts.len(),
        |i: int|
            {
                let k = alerts.len() - 1 - i;
                AlertRow {
                    id: next + k,
                    severity: alerts[k].0,
                    message: alerts[k].1,
                    time: times[k],
                    read: false,
                }
            },
    )
}

/// The first rows, as many as the list keeps.
pub open spec fn kept(s: Seq<AlertRow>) -> Seq<AlertRow> {
    if s.len() > ALERTS_KEPT {
        s.take(ALERTS_KEPT as int)
    } else {
        s
    }
}

/// The rows with the one of that number marked as read.
pub open spec fn with_read(s: Seq<AlertRow>, id: int) -> Seq<AlertRow> {
    Seq::new(
        s.len(),
        |i: int|
            if s[i].id == id {
                AlertRow { read: true, ..s[i] }
            } else {
                s[i]
            },
    )
}

/// The rows, all marked as read.
pub open spec fn all_read(s: Seq<AlertRow>) -> Seq<AlertRow> {
    Seq::new(s.len(), |i: int| AlertRow { read: true, ..s[i] })
}

/// Whether rows are numbered downwards from below `next`, and not too many.
pub open spec fn orderly(s: Seq<AlertRow>, next: int) -> bool {
    &&& s.len() <= ALERTS_KEPT
    &&& forall|i: int| 0 <= i < s.len() ==> 0 <= (#[trigger] s[i]).id < next
    &&& forall|i: int, j: int|
        #![trigger s[i], s[j]]
        0 <= i < j < s.len() ==> s[j].id < s[i].id
}

/// What the list holds after alerts were put into it.
pub open spec fn recorded(
    alerts: Seq<Notice>,
    times: Seq<Seq<char>>,
    next: int,
    before: Seq<AlertRow>,
) -> Seq<AlertRow> {
    kept(new_rows(alerts, times, next) + before)
}

/// The last of the alerts that were put into the list stands first, each before the one
/// that came before it, and behind them what was there. Each has its own severity, text
/// and time, the number behind that of the alert before it, and is not read. The list
/// has all of them up to 200, of which it drops the oldest.
pub proof fn law_newest_alerts_stand_first(
    alerts: Seq<Notice>,
    times: Seq<Seq<char>>,
    next: int,
    before: Seq<AlertRow>,
    i: int,
)
    requires
        times.len() == alerts.len(),
    ensures
        ({
            let list = recorded(alerts, times, next, before);
            let n = alerts.len();
            &&& list.len() == (if n + before.len() <= 200 {
                n + before.len()
            } else {
                200
            })
            &&& 0 <= i < n && i < list.len() ==> {
                let alert = alerts[n - 1 - i];
                &&& list[i].severity == alert.0
                &&& list[i].message == alert.1
                &&& list[i].time == times[n - 1 - i]
                &&& list[i].id == next + (n - 1 - i)
                &&& !list[i].read
            }
            &&& n <= i < list.len() ==> list[i] == before[i - n]
        }),
{
}

/// Marking an alert as read changes that one alone, and only whether it is read;
/// marking all changes each of them so.
pub proof fn law_marking_changes_what_is_read(s: Seq<AlertRow>, id: int, i: int)
    requires
        0 <= i < s.len(),
    ensures
        with_read(s, id).len() == s.len(),
        s[i].id != id ==> with_read(s, id)[i] == s[i],
        s[i].id == id ==> with_read(s, id)[i].read,
        with_read(s, id)[i] == (AlertRow { read: with_read(s, id)[i].read, ..s[i] }),
        all_read(s).len() == s.len(),
        all_read(s)[i].read,
        all_read(s)[i] == (AlertRow { read: true, ..s[i] }),
{
}

impl AlertLog {
    /// The alerts in the list.
    pub closed spec fn alerts(self) -> Seq<AlertRow> {
        rows(self.items@)
    }

    /// The number of the next alert.
    pub closed spec fn next_id(self) -> int {
        self.next as int
    }

    #[verifier::type_invariant]
    closed spec fn well_formed(self) -> bool {
        orderly(rows(self.items@), self.next as int)
    }

    /// An empty list.
    pub fn new() -> (r: AlertLog)
        ensures
            r.alerts() == Seq::<AlertRow>::empty(),
            r.next_id() == 0,
    {
        let r: AlertLog = AlertLog { items: Vec::new(), next: 0 };
        assert(rows(r.items@) =~= Seq::<AlertRow>::empty());
        r
    }

    /// The alerts, newest first. No two have the same number.
    pub fn items(&self) -> (r: &Vec<AlertItem>)
        ensures
            rows(r@) == self.alerts(),
            orderly(rows(r@), self.next_id()),
    {
        proof {
            use_type_invariant(&*self);
        }
        &self.items
    }

    /// Puts alerts into the list, one after the other, each with its time, and drops
    /// the oldest ones where there are too many.
    pub fn record(&mut self, alerts: &Vec<(Severity, String)>, times: &Vec<String>)
        requires
            times@.len() == alerts@.len(),
            old(self).next_id() + alerts@.len() <= u64::MAX,
        ensures
            final(self).alerts() == kept(
                new_rows(notices(alerts@), text::texts(times@), old(self).next_id())
                    + old(self).alerts(),
            ),
            final(self).alerts() == recorded(
                notices(alerts@),
                text::texts(times@),
                old(self).next_id(),
                old(self).alerts(),
            ),
            final(self).next_id() == old(self).next_id() + alerts@.len(),
    {
        proof {
            use_type_invariant(&*self);
        }
        let ghost before = rows(self.items@);
        let start: u64 = self.next;
        let mut list: Vec<AlertItem> = Vec::new();
        std::mem::swap(&mut list, &mut self.items);
        let mut i: usize = 0;
        assert(rows(list@) =~= new_rows(
            notices(alerts@.take(0)),
            text::texts(times@.take(0)),
            start as int,
        ) + before);
        while i < alerts.len()
            invariant
                i <= alerts@.len(),
                times@.len() == alerts@.len(),
                start + alerts@.len() <= u64::MAX,
                rows(list@) == new_rows(
                    notices(alerts@.take(i as int)),
                    text::texts(times@.take(i as int)),
                    start as int,
                ) + before,
            decreases alerts@.len() - i,
        {
            let item: AlertItem = AlertItem {
                id: start + i as u64,
                severity: alerts[i].0,
                message: alerts[i].1.clone(),
                time: times[i].clone(),
                read: false,
            };
            let ghost earlier = rows(list@);
            list.insert(0, item);
            assert(rows(list@) =~= seq![item@] + earlier);
            assert(rows(list@) =~= new_rows(
                notices(alerts@.take(i + 1)),
                text::texts(times@.take(i + 1)),
                start as int,
            ) + before);
            i = i + 1;
        }
        assert(alerts@.take(alerts@.len() as int) =~= alerts@);
        assert(times@.take(times@.len() as int) =~= times@);
        let ghost full = rows(list@);
        if list.len() > ALERTS_KEPT {
            list.truncate(ALERTS_KEPT);
        }
        assert(rows(list@) =~= kept(full));
        self.next = start + alerts.len() as u64;
        self.items = list;
    }

    /// Marks the alert of that number as read.
    pub fn mark_read(&mut self, id: u64)
        ensures
            final(self).alerts() == with_read(old(self).alerts(), id as int),
            final(self).next_id() == old(self).next_id(),
    {
        proof {
            use_type_invariant(&*self);
        }
        let ghost before = rows(self.items@);
        let mut list: Vec<AlertItem> = Vec::new();
        std::mem::swap(&mut list, &mut self.items);
        let mut i: usize = 0;
        while i < list.len() && list[i].id != id
            invariant
                i <= list@.len(),
                rows(list@) == before,
                forall|k: int| 0 <= k < i ==> (#[trigger] before[k]).id != id,
            decreases list@.len() - i,
        {
            assert(before[i as int] == list@[i as int]@);
            i = i + 1;
        }
        if i < list.len() {
            assert(before[i as int] == list@[i as int]@);
            list[i].read = true;
            assert forall|k: int| i < k < before.len() implies (#[trigger] before[k]).id != id by {
                assert(before[k].id < before[i as int].id);
            }
        }
        assert(rows(list@) =~= with_read(before, id as int));
        self.items = list;
    }

    /// Marks every alert as read.
    pub fn mark_all_read(&mut self)
        ensures
            final(self).alerts() == all_read(old(self).alerts()),
            final(self).next_id() == old(self).next_id(),
    {
        proof {
            use_type_invariant(&*self);
        }
        let ghost before = rows(self.items@);
        let mut list: Vec<AlertItem> = Vec::new();
        std::mem::swap(&mut list, &mut self.items);
        let mut i: usize = 0;
        while i < list.len()
            invariant
                i <= list@.len(),
                list@.len() == before.len(),
                forall|k: int|
                    0 <= k < before.len() ==> (#[trigger] list@[k])@ == (if k < i {
                        AlertRow { read: true, ..before[k] }
                    } else {
                        before[k]
                    }),
            decreases list@.len() - i,
        {
            assert(list@[i as int]@ == before[i as int]);
            list[i].read = true;
            i = i + 1;
        }
        assert(rows(list@) =~= all_read(before));
        self.items = list;
    }
}

impl Default for AlertLog {
    fn default() -> (r: AlertLog)
        ensures
            r.alerts() == Seq::<AlertRow>::empty(),
            r.next_id() == 0,
    {
        AlertLog::new()
    }
}

} // verus!
