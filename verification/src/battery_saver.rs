//! The desktop's automatic battery saver, and the thresholds of UPower.

use crate::command;
use crate::command::Finished;
use crate::decimal;
use crate::double::Double;
use crate::text;
use vstd::prelude::*;

verus! {

/// The settings schema of the battery saver.
pub const SCHEMA: &'static str = "org.gnome.settings-daemon.plugins.power";

/// The key of the battery saver in its schema.
pub const KEY: &'static str = "power-saver-profile-on-low-battery";

/// Where UPower keeps its configuration.
pub const UPOWER_CONF: &'static str = "/etc/UPower/UPower.conf";

/// A truth value by its name.
pub open spec fn truth(s: Seq<char>) -> Option<bool> {
    if s == "true"@ {
        Some(true)
    } else if s == "false"@ {
        Some(false)
    } else {
        None
    }
}

/// The truth value that `gsettings get` wrote.
pub fn parse_gsettings_bool(s: &str) -> (r: Option<bool>)
    ensures
        r == truth(text::trimmed(s@)),
{
    let word: Vec<char> = text::trim(text::characters(s).as_slice());
    proof {
        reveal_strlit("true");
        reveal_strlit("false");
    }
    if text::is(word.as_slice(), "true") {
        Some(true)
    } else if text::is(word.as_slice(), "false") {
        Some(false)
    } else {
        None
    }
}

/// The arguments for `gsettings` that ask for the battery saver.
pub fn get_arguments() -> (r: Vec<String>)
    ensures
        text::texts(r@) == seq!["get"@, SCHEMA@, KEY@],
{
    let mut out: Vec<String> = Vec::new();
    out.push("get".to_owned());
    out.push(SCHEMA.to_owned());
    out.push(KEY.to_owned());
    assert(text::texts(out@) =~= seq!["get"@, SCHEMA@, KEY@]);
    out
}

/// The arguments for `gsettings` that turn the battery saver on or off.
pub fn set_arguments(enabled: bool) -> (r: Vec<String>)
    ensures
        text::texts(r@) == seq![
            "set"@,
            SCHEMA@,
            KEY@,
            if enabled {
                "true"@
            } else {
                "false"@
            },
        ],
{
    let mut out: Vec<String> = Vec::new();
    out.push("set".to_owned());
    out.push(SCHEMA.to_owned());
    out.push(KEY.to_owned());
    out.push(
        if enabled {
            "true".to_owned()
        } else {
            "false".to_owned()
        },
    );
    assert(text::texts(out@) =~= seq![
        "set"@,
        SCHEMA@,
        KEY@,
        if enabled {
            "true"@
        } else {
            "false"@
        },
    ]);
    out
}

/// Whether the battery saver is on, as `gsettings` with [`get_arguments`] answered;
/// nothing where it did not answer with a truth value.
pub fn auto_battery_saver_enabled(run: &Option<Finished>) -> (r: Option<bool>)
    ensures
        r == match command::good_output(*run) {
            Some(s) => truth(text::trimmed(s)),
            None => None,
        },
{
    match command::output_text(run) {
        Some(s) => parse_gsettings_bool(text::string_of(s.as_slice()).as_str()),
        None => None,
    }
}

/// The result of `gsettings` with [`set_arguments`].
pub fn set_auto_battery_saver(status: Result<bool, String>) -> (r: Result<(), String>)
    ensures
        command::unit_view(r) == command::outcome_text(
            command::status_view(status),
            "gsettings"@,
            "gsettings set failed"@,
        ),
{
    command::outcome(status, "gsettings", "gsettings set failed")
}

/// The number behind `key` in the last line that starts with it.
pub open spec fn setting(lines: Seq<Seq<char>>, key: Seq<char>) -> Option<Double>
    decreases lines.len(),
{
    if lines.len() == 0 {
        None
    } else {
        let line = text::trimmed(lines.last());
        if text::starts(line, key) {
            decimal::parsed(text::trimmed(line.skip(key.len() as int)))
        } else {
            setting(lines.drop_last(), key)
        }
    }
}

fn find_setting(lines: &Vec<Vec<char>>, key: &str) -> (r: Option<Double>)
    ensures
        r == setting(text::views(lines@), key@),
{
    let ghost all = text::views(lines@);
    let mut n: usize = lines.len();
    assert(all.take(n as int) =~= all);
    while n > 0
        invariant
            n <= lines@.len(),
            all == text::views(lines@),
            setting(all, key@) == setting(all.take(n as int), key@),
        decreases n,
    {
        proof {
            assert(all.take(n as int).drop_last() =~= all.take(n - 1));
            assert(all.take(n as int).last() == lines@[n - 1]@);
        }
        n = n - 1;
        let line: Vec<char> = text::trim(lines[n].as_slice());
        if let Some(rest) = text::after_prefix(line.as_slice(), key) {
            return decimal::parse(text::trim(rest.as_slice()).as_slice());
        }
    }
    None
}

/// The thresholds in a UPower configuration, in percent: low and critical. A line
/// that is commented out sets nothing.
pub fn parse_upower_conf(s: &str) -> (r: (Option<Double>, Option<Double>))
    ensures
        r.0 == setting(text::lines(s@), "PercentageLow="@),
        r.1 == setting(text::lines(s@), "PercentageCritical="@),
{
    let lines: Vec<Vec<char>> = text::split_lines(text::characters(s).as_slice());
    (find_setting(&lines, "PercentageLow="), find_setting(&lines, "PercentageCritical="))
}

/// The thresholds that UPower is configured with; `conf` is what [`UPOWER_CONF`]
/// holds, where it could be read.
pub fn upower_low_critical_thresholds(conf: Option<&str>) -> (r: (Option<Double>, Option<Double>))
    ensures
        r == match conf {
            Some(s) => (
                setting(text::lines(s@), "PercentageLow="@),
                setting(text::lines(s@), "PercentageCritical="@),
            ),
            None => (None, None),
        },
{
    match conf {
        Some(s) => parse_upower_conf(s),
        None => (None, None),
    }
}

/// A line that begins with a number sign sets nothing, whatever follows.
pub proof fn law_comments_set_nothing(
    before: Seq<Seq<char>>,
    comment: Seq<char>,
    after: Seq<Seq<char>>,
    key: Seq<char>,
)
    requires
        text::trimmed(comment).len() > 0,
        text::trimmed(comment)[0] == '#',
        key.len() > 0,
        key[0] != '#',
    ensures
        setting(before.push(comment) + after, key) == setting(before + after, key),
    decreases after.len(),
{
    if after.len() == 0 {
        let line = text::trimmed(comment);
        assert(before.push(comment) + after =~= before.push(comment));
        assert(before + after =~= before);
        assert(before.push(comment).drop_last() =~= before);
        assert(before.push(comment).last() == comment);
        if text::starts(line, key) {
            assert(line.take(key.len() as int)[0] == line[0]);
        }
    } else {
        law_comments_set_nothing(before, comment, after.drop_last(), key);
        let with = before.push(comment) + after;
        let without = before + after;
        assert(with.drop_last() =~= before.push(comment) + after.drop_last());
        assert(without.drop_last() =~= before + after.drop_last());
        assert(with.last() == after.last() && without.last() == after.last());
    }
}

/// A truth value has one of two names, and nothing else is one.
pub proof fn law_truth_values_are_named(s: Seq<char>)
    ensures
        truth("true"@) == Some(true),
        truth("false"@) == Some(false),
        truth(s) is Some ==> s == "true"@ || s == "false"@,
{
    reveal_strlit("true");
    reveal_strlit("false");
    assert("true"@.len() != "false"@.len());
}

/// A setting is the number behind its key in the last line that begins with the key, white
/// space aside. Without such a line there is none.
pub proof fn law_the_last_line_sets(lines: Seq<Seq<char>>, key: Seq<char>, i: int)
    requires
        -1 <= i < lines.len(),
        i >= 0 ==> text::starts(text::trimmed(lines[i]), key),
        forall|k: int| i < k < lines.len() ==> !text::starts(text::trimmed(#[trigger] lines[k]), key),
    ensures
        i >= 0 ==> setting(lines, key) == decimal::parsed(
            text::trimmed(text::trimmed(lines[i]).skip(key.len() as int)),
        ),
        i == -1 ==> setting(lines, key) is None,
    decreases lines.len(),
{
    if lines.len() > 0 && i < lines.len() - 1 {
        let front = lines.drop_last();
        assert(!text::starts(text::trimmed(lines[lines.len() - 1]), key));
        assert forall|k: int| i < k < front.len() implies !text::starts(
            text::trimmed(#[trigger] front[k]),
            key,
        ) by {
            assert(front[k] == lines[k]);
        }
        if i >= 0 {
            assert(front[i] == lines[i]);
        }
        law_the_last_line_sets(front, key, i);
    }
}

/// The setting that turns the battery saver on, and where UPower is configured.
pub proof fn law_settings_have_their_names()
    ensures
        SCHEMA@ == "org.gnome.settings-daemon.plugins.power"@,
        KEY@ == "power-saver-profile-on-low-battery"@,
        UPOWER_CONF@ == "/etc/UPower/UPower.conf"@,
{
}

} // verus!
