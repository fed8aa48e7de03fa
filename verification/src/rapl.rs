//! The power of the processor package, by Intel's RAPL counter.

use crate::command::Finished;
use crate::decimal;
use crate::double;
use crate::double::Double;
use crate::path;
use crate::path::Looked;
use crate::text;
use vstd::prelude::*;

verus! {

/// The zone of the processor package.
pub const RAPL_PACKAGE_ZONE: &'static str = "/sys/class/powercap/intel-rapl:0";

/// How long a sample takes.
pub const SAMPLE_SECONDS: u64 = 1;

/// Where the energy counter is.
pub fn energy_path() -> (r: Vec<u8>)
    ensures
        r@ == path::under(path::bytes(RAPL_PACKAGE_ZONE@), "energy_uj"@),
{
    path::join_name(path::bytes_of(RAPL_PACKAGE_ZONE).as_slice(), "energy_uj")
}

/// Whether this machine has an energy counter: whether something is at
/// [`energy_path`]. It need not be readable.
pub fn rapl_available(looked: &Looked) -> (r: bool)
    ensures
        r == (looked.there && looked.path@ == path::under(
            path::bytes(RAPL_PACKAGE_ZONE@),
            "energy_uj"@,
        )),
{
    looked.there && path::same(looked.path.as_slice(), energy_path().as_slice())
}

/// How far a counter that wraps at `max_range` has come from `before` to `after`.
pub open spec fn energy_delta(before: int, after: int, max_range: int) -> int {
    if after < before {
        after + max_range - before
    } else {
        after - before
    }
}

/// How far the counter has come from `before` to `after`. It wraps at `max_range`:
/// where it shows less than before, it has gone through the end.
pub fn energy_delta_uj(before: u64, after: u64, max_range: u64) -> (r: u64)
    requires
        after < before ==> before <= after + max_range <= u64::MAX,
    ensures
        r == energy_delta(before as int, after as int, max_range as int),
{
    if after < before {
        after + max_range - before
    } else {
        after - before
    }
}

/// The counter is at `after` when it has come that far from `before`, whether it
/// wrapped or not, and it has not come further than once round.
pub proof fn law_delta_leads_from_before_to_after(before: int, after: int, max_range: int)
    requires
        0 <= before < max_range,
        0 <= after < max_range,
    ensures
        (before + energy_delta(before, after, max_range)) % max_range == after,
        0 <= energy_delta(before, after, max_range) < max_range,
{
    if after < before {
        vstd::arithmetic::div_mod::lemma_mod_add_multiples_vanish(after, max_range);
        assert((after + max_range) % max_range == after % max_range);
    }
    vstd::arithmetic::div_mod::lemma_small_mod(after as nat, max_range as nat);
}

/// The script to run as root, by `pkexec sh -c`, that reads the counter twice and
/// its range between.
pub open spec fn sample_script() -> Seq<char> {
    "a=$(cat "@ + RAPL_PACKAGE_ZONE@ + "/energy_uj) && m=$(cat "@ + RAPL_PACKAGE_ZONE@
        + "/max_energy_range_uj) && sleep "@ + decimal::decimal(SAMPLE_SECONDS as nat)
        + " && b=$(cat "@ + RAPL_PACKAGE_ZONE@ + "/energy_uj) && echo \"$a $m $b\""@
}

/// The script to run as root, by `pkexec sh -c`, that reads the counter twice and
/// its range between.
pub fn script() -> (r: String)
    ensures
        r@ == sample_script(),
{
    let mut out: Vec<char> = text::characters("a=$(cat ");
    text::add(&mut out, RAPL_PACKAGE_ZONE);
    text::add(&mut out, "/energy_uj) && m=$(cat ");
    text::add(&mut out, RAPL_PACKAGE_ZONE);
    text::add(&mut out, "/max_energy_range_uj) && sleep ");
    text::add_all(&mut out, decimal::natural_text(SAMPLE_SECONDS));
    text::add(&mut out, " && b=$(cat ");
    text::add(&mut out, RAPL_PACKAGE_ZONE);
    text::add(&mut out, "/energy_uj) && echo \"$a $m $b\"");
    text::string_of(out.as_slice())
}

/// Two readings of the counter.
#[derive(Debug, Clone, Copy, PartialEq, Eq, Structural)]
pub struct Sample {
    /// The counter at first, in microjoules.
    pub before: u64,
    /// Where the counter wraps.
    pub max_range: u64,
    /// The counter later.
    pub after: u64,
}

impl Sample {
    /// Whether the counter can have come from the first reading to the second.
    pub open spec fn coherent(self) -> bool {
        self.after < self.before ==> self.before <= self.after + self.max_range <= u64::MAX
    }

    /// Whether the counter can have come from the first reading to the second.
    pub fn is_coherent(&self) -> (r: bool)
        ensures
            r == self.coherent(),
    {
        if self.after < self.before {
            let way: u128 = self.after as u128 + self.max_range as u128;
            self.before as u128 <= way && way <= u64::MAX as u128
        } else {
            true
        }
    }

    /// The power over the sample, in watts.
    pub open spec fn power(self) -> Double {
        let delta = energy_delta(self.before as int, self.after as int, self.max_range as int);
        double::quotient(
            double::quotient(double::whole(delta as nat), double::whole(1_000_000)),
            double::whole(SAMPLE_SECONDS as nat),
        )
    }

    /// The power over the sample, in watts.
    pub fn watts(&self) -> (r: Double)
        requires
            self.coherent(),
        ensures
            r == self.power(),
    {
        let delta: u64 = energy_delta_uj(self.before, self.after, self.max_range);
        Double::from_u64(delta).over(Double::from_u64(1_000_000)).over(
            Double::from_u64(SAMPLE_SECONDS),
        )
    }
}

/// The sample in what the script wrote: its first three words, which are numbers.
pub open spec fn sample_in(s: Seq<char>) -> Option<Sample> {
    let words = text::words(s);
    if words.len() < 3 {
        None
    } else {
        match (
            decimal::parsed_natural(words[0]),
            decimal::parsed_natural(words[1]),
            decimal::parsed_natural(words[2]),
        ) {
            (Some(before), Some(max_range), Some(after)) => Some(
                Sample { before, max_range, after },
            ),
            _ => None,
        }
    }
}

/// A run by its error.
pub open spec fn run_view(run: Result<Finished, String>) -> Result<Finished, Seq<char>> {
    match run {
        Ok(f) => Ok(f),
        Err(e) => Err(e@),
    }
}

/// The sample that running the script gave, or why there is none.
pub open spec fn sample_of(
    available: bool,
    run: Result<Finished, Seq<char>>,
) -> Result<Sample, Seq<char>> {
    if !available {
        Err("No Intel RAPL package-power zone on this system"@)
    } else {
        match run {
            Err(e) => Err("failed to run pkexec: "@ + e),
            Ok(f) => if !f.success {
                Err("RAPL read failed (cancelled, or rejected by polkit)"@)
            } else {
                match sample_in(text::lossy(f.stdout@)) {
                    Some(s) => Ok(s),
                    None => Err("unexpected RAPL output"@),
                }
            },
        }
    }
}

/// The sample that running [`script`] gave, or why there is none.
pub fn read_sample(available: bool, run: &Result<Finished, String>) -> (r: Result<Sample, String>)
    ensures
        match sample_of(available, run_view(*run)) {
            Ok(s) => r == Ok::<Sample, String>(s),
            Err(e) => r matches Err(m) && m@ == e,
        },
{
    if !available {
        return Err("No Intel RAPL package-power zone on this system".to_owned());
    }
    let finished: &Finished = match run {
        Ok(f) => f,
        Err(e) => {
            let mut out: String = "failed to run pkexec: ".to_owned();
            out.append(e.as_str());
            return Err(out);
        },
    };
    if !finished.success {
        return Err("RAPL read failed (cancelled, or rejected by polkit)".to_owned());
    }
    let output: String = text::decode(finished.stdout.as_slice());
    let words: Vec<Vec<char>> = text::split_words(text::characters(output.as_str()).as_slice());
    let ghost all = text::words(output@);
    assert(text::views(words@) == all);
    if words.len() < 3 {
        return Err("unexpected RAPL output".to_owned());
    }
    assert(words@[0]@ == all[0] && words@[1]@ == all[1] && words@[2]@ == all[2]);
    match (
        decimal::parse_natural(words[0].as_slice()),
        decimal::parse_natural(words[1].as_slice()),
        decimal::parse_natural(words[2].as_slice()),
    ) {
        (Some(before), Some(max_range), Some(after)) => Ok(Sample { before, max_range, after }),
        _ => Err("unexpected RAPL output".to_owned()),
    }
}

/// The power of the processor package in watts, where running [`script`] gave a
/// sample, or why there is none. [`read_sample`] and [`Sample::is_coherent`] tell
/// whether a sample can be used.
pub fn read_package_power_watts(available: bool, run: &Result<Finished, String>) -> (r: Result<
    Double,
    String,
>)
    requires
        sample_of(available, run_view(*run)) matches Ok(s) ==> s.coherent(),
    ensures
        match sample_of(available, run_view(*run)) {
            Ok(s) => r == Ok::<Double, String>(s.power()),
            Err(e) => r matches Err(m) && m@ == e,
        },
{
    match read_sample(available, run) {
        Ok(s) => Ok(s.watts()),
        Err(e) => Err(e),
    }
}

/// As [`read_package_power_watts`], for any run: nothing where the sample is not
/// coherent.
pub fn package_power_watts(available: bool, run: &Result<Finished, String>) -> (r: Option<
    Result<Double, String>,
>)
    ensures
        match sample_of(available, run_view(*run)) {
            Ok(s) => if s.coherent() {
                r == Some(Ok::<Double, String>(s.power()))
            } else {
                r is None
            },
            Err(e) => r matches Some(Err(m)) && m@ == e,
        },
{
    if let Ok(s) = read_sample(available, run) {
        if !s.is_coherent() {
            return None;
        }
    }
    Some(read_package_power_watts(available, run))
}

/// The power is the energy that was used over the second that a sample takes: a counter
/// that has come `n` million microjoules further, with or without passing its end, stands
/// for `n` watts.
pub proof fn law_a_million_microjoules_a_second_are_a_watt(s: Sample, n: nat)
    requires
        n * 1000000 < 2 * double::STEP,
        s.before + n * 1000000 == s.after || (s.after < s.before && s.before + n * 1000000
            == s.after + s.max_range),
    ensures
        s.power() == double::quotient(double::whole(n), double::whole(1)),
{
    double::law_multiples_divide(n, 1000000);
}

/// A sample is the first three words of what the script wrote, which are the counter, its
/// range and the counter again. Fewer words, or others than numbers, are no sample.
pub proof fn law_samples_are_three_numbers(s: Seq<char>)
    ensures
        ({
            let w = text::words(s);
            let first = decimal::parsed_natural(w[0]);
            let second = decimal::parsed_natural(w[1]);
            let third = decimal::parsed_natural(w[2]);
            &&& w.len() < 3 ==> sample_in(s) is None
            &&& w.len() >= 3 && first is Some && second is Some && third is Some ==> {
                &&& sample_in(s) is Some
                &&& (sample_in(s)->0).before == first->0
                &&& (sample_in(s)->0).max_range == second->0
                &&& (sample_in(s)->0).after == third->0
            }
            &&& w.len() >= 3 && (first is None || second is None || third is None) ==> sample_in(
                s,
            ) is None
        }),
{
}

/// There is a sample where the machine has a counter and the script ran, succeeded and
/// wrote one, and otherwise the first of these that failed is told.
pub proof fn law_failed_samples_are_told(available: bool, run: Result<Finished, Seq<char>>)
    ensures
        !available ==> sample_of(available, run) == Err::<Sample, Seq<char>>(
            "No Intel RAPL package-power zone on this system"@,
        ),
        available ==> (run matches Err(e) ==> sample_of(available, run) == Err::<Sample, Seq<char>>(
            "failed to run pkexec: "@ + e,
        )),
        available ==> (run matches Ok(f) ==> !f.success ==> sample_of(available, run) == Err::<
            Sample,
            Seq<char>,
        >("RAPL read failed (cancelled, or rejected by polkit)"@)),
        available ==> (run matches Ok(f) ==> f.success ==> match sample_in(text::lossy(f.stdout@)) {
            Some(s) => sample_of(available, run) == Ok::<Sample, Seq<char>>(s),
            None => sample_of(available, run) == Err::<Sample, Seq<char>>(
                "unexpected RAPL output"@,
            ),
        }),
{
}

/// A sample can be used where the counter has not gone back, or where its range takes it
/// from the first reading through its end to the second.
pub proof fn law_samples_that_can_be_used(s: Sample)
    ensures
        s.before <= s.after ==> s.coherent(),
        s.after < s.before ==> (s.coherent() <==> s.before <= s.after + s.max_range
            <= u64::MAX),
{
}

/// The script reads the counter of the processor package, then its range, waits a second,
/// and reads the counter again.
pub proof fn law_the_script_reads_the_counter_twice()
    ensures
        sample_script() == "a=$(cat "@ + "/sys/class/powercap/intel-rapl:0"@
            + "/energy_uj) && m=$(cat "@ + "/sys/class/powercap/intel-rapl:0"@
            + "/max_energy_range_uj) && sleep "@ + decimal::decimal(1) + " && b=$(cat "@
            + "/sys/class/powercap/intel-rapl:0"@ + "/energy_uj) && echo \"$a $m $b\""@,
{
}

} // verus!
