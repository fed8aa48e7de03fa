//! Power profiles, as `powerprofilesctl` tells and sets them.

use crate::command;
use crate::command::Finished;
use crate::text;
use vstd::prelude::*;

verus! {

/// The profile that a line of `powerprofilesctl list` names: an indented or starred
/// line that ends in a colon.
pub open spec fn profile_name(line: Seq<char>) -> Option<Seq<char>> {
    let inner = text::trimmed(text::without_leading(line, '*'));
    if line.len() > 0 && (line[0] == ' ' || line[0] == '*') && text::ends(inner, ":"@) {
        Some(text::trimmed(inner.take(inner.len() - 1)))
    } else {
        None
    }
}

/// The profiles that the lines name.
pub open spec fn profile_names(lines: Seq<Seq<char>>) -> Seq<Seq<char>>
    decreases lines.len(),
{
    if lines.len() == 0 {
        seq![]
    } else {
        match profile_name(lines.last()) {
            Some(name) => profile_names(lines.drop_last()).push(name),
            None => profile_names(lines.drop_last()),
        }
    }
}

fn read_profile(line: &Vec<char>) -> (r: Option<String>)
    ensures
        match profile_name(line@) {
            Some(name) => r matches Some(s) && s@ == name,
            None => r is None,
        },
{
    if line.len() == 0 || (line[0] != ' ' && line[0] != '*') {
        return None;
    }
    let inner: Vec<char> = text::trim(text::skip_leading(line.as_slice(), '*').as_slice());
    proof {
        reveal_strlit(":");
    }
    match text::before_suffix(inner.as_slice(), ":") {
        Some(name) => Some(text::string_of(text::trim(name.as_slice()).as_slice())),
        None => None,
    }
}

/// The names of the profiles in the output of `powerprofilesctl list`.
pub fn parse_profile_list(s: &str) -> (r: Vec<String>)
    ensures
        text::texts(r@) == profile_names(text::lines(s@)),
{
    let lines: Vec<Vec<char>> = text::split_lines(text::characters(s).as_slice());
    let ghost all = text::views(lines@);
    let mut out: Vec<String> = Vec::new();
    let mut i: usize = 0;
    assert(text::texts(out@) =~= profile_names(all.take(0)));
    while i < lines.len()
        invariant
            i <= lines@.len(),
            all == text::views(lines@),
            text::texts(out@) == profile_names(all.take(i as int)),
        decreases lines@.len() - i,
    {
        proof {
            assert(all.take(i + 1).drop_last() =~= all.take(i as int));
            assert(all.take(i + 1).last() == lines@[i as int]@);
        }
        if let Some(name) = read_profile(&lines[i]) {
            let ghost before = text::texts(out@);
            out.push(name);
            assert(text::texts(out@) =~= before.push(name@));
        }
        i = i + 1;
    }
    assert(all.take(all.len() as int) =~= all);
    out
}

/// The profiles that `powerprofilesctl list` told; none where it did not answer.
pub fn list_profiles(run: &Option<Finished>) -> (r: Vec<String>)
    ensures
        text::texts(r@) == match command::good_output(*run) {
            Some(s) => profile_names(text::lines(s)),
            None => seq![],
        },
{
    match command::output_text(run) {
        Some(s) => parse_profile_list(text::string_of(s.as_slice()).as_str()),
        None => {
            let none: Vec<String> = Vec::new();
            assert(text::texts(none@) =~= seq![]);
            none
        },
    }
}

/// The profile that an output names.
pub open spec fn named_profile(output: Option<Seq<char>>) -> Option<Seq<char>> {
    match output {
        Some(s) => if text::trimmed(s).len() == 0 {
            None
        } else {
            Some(text::trimmed(s))
        },
        None => None,
    }
}

/// An output names the profile that it is, white space aside. White space alone names
/// none, and neither does an output that could not be had.
pub proof fn law_the_output_is_the_profile(s: Seq<char>)
    ensures
        text::trimmed(s).len() > 0 ==> named_profile(Some(s)) == Some(text::trimmed(s)),
        text::trimmed(s).len() == 0 ==> named_profile(Some(s)) is None,
        named_profile(None) is None,
{
}

/// The profile that `powerprofilesctl get` told; nothing where it named none.
pub fn active_profile(run: &Option<Finished>) -> (r: Option<String>)
    ensures
        (match r {
            Some(name) => Some(name@),
            None => None,
        }) == named_profile(command::good_output(*run)),
        match command::good_output(*run) {
            Some(s) => if text::trimmed(s).len() == 0 {
                r is None
            } else {
                r matches Some(name) && name@ == text::trimmed(s)
            },
            None => r is None,
        },
{
    match command::output_text(run) {
        Some(s) => {
            let name: Vec<char> = text::trim(s.as_slice());
            if name.len() == 0 {
                None
            } else {
                Some(text::string_of(name.as_slice()))
            }
        },
        None => None,
    }
}

/// The result of `powerprofilesctl set` with the profile `name`.
pub fn set_profile(name: &str, status: Result<bool, String>) -> (r: Result<(), String>)
    ensures
        command::unit_view(r) == command::outcome_text(
            command::status_view(status),
            "powerprofilesctl"@,
            "powerprofilesctl set "@ + name@ + " failed"@,
        ),
{
    let mut failure: Vec<char> = text::characters("powerprofilesctl set ");
    text::add(&mut failure, name);
    text::add(&mut failure, " failed");
    command::outcome(status, "powerprofilesctl", text::string_of(failure.as_slice()).as_str())
}

/// A line names a profile where it is indented or starred and ends in a colon, white space
/// aside: what stands between, without the stars in front and the colon. Other lines name
/// none.
pub proof fn law_profile_lines(line: Seq<char>)
    ensures
        ({
            let inner = text::trimmed(text::without_leading(line, '*'));
            let marked = line.len() > 0 && (line[0] == ' ' || line[0] == '*');
            let found = profile_names(seq![line]);
            &&& marked && inner.len() > 0 && inner.last() == ':' ==> found == seq![
                text::trimmed(inner.drop_last()),
            ]
            &&& !marked || inner.len() == 0 || inner.last() != ':' ==> found.len() == 0
        }),
{
    let inner = text::trimmed(text::without_leading(line, '*'));
    reveal_with_fuel(profile_names, 2);
    reveal_strlit(":");
    assert(":"@.len() == 1 && ":"@[0] == ':');
    assert(seq![line].drop_last() =~= seq![]);
    if inner.len() > 0 {
        let end = inner.skip(inner.len() - 1);
        assert(end.len() == 1 && end[0] == inner.last());
        if inner.last() == ':' {
            assert(end =~= ":"@);
        }
        assert(inner.take(inner.len() - 1) =~= inner.drop_last());
    }
    if profile_name(line) is Some {
        assert(profile_names(seq![line]) =~= seq![profile_name(line)->0]);
    }
}

/// The profiles of lines that follow each other are those of the first ones, followed by
/// those of the others.
pub proof fn law_profiles_add_up(front: Seq<Seq<char>>, back: Seq<Seq<char>>)
    ensures
        profile_names(front + back) == profile_names(front) + profile_names(back),
    decreases back.len(),
{
    if back.len() == 0 {
        assert(front + back =~= front);
        assert(profile_names(front) + profile_names(back) =~= profile_names(front));
    } else {
        law_profiles_add_up(front, back.drop_last());
        assert((front + back).drop_last() =~= front + back.drop_last());
        assert((front + back).last() == back.last());
        assert(profile_names(front + back) =~= profile_names(front) + profile_names(back));
    }
}

} // verus!
