//! Starting with the user's session.

use crate::history;
use crate::path;
use crate::path::Looked;
use crate::text;
use vstd::prelude::*;

verus! {

/// Where the autostart entry is: under the configuration directory, which is
/// `.config` in the home directory unless it is set otherwise.
pub open spec fn entry_path(config_home: Option<Seq<u8>>, home: Option<Seq<u8>>) -> Option<Seq<u8>> {
    let config = match config_home {
        Some(c) => Some(c),
        None => match home {
            Some(h) => Some(path::under(h, ".config"@)),
            None => None,
        },
    };
    match config {
        Some(c) => Some(
            path::under(path::under(c, "autostart"@), "battery-monitor.desktop"@),
        ),
        None => None,
    }
}

/// Where the autostart entry is. `config_home` is the value of `XDG_CONFIG_HOME`
/// where it is set, `home` the home directory where it is known.
pub fn autostart_path(config_home: &Option<Vec<u8>>, home: &Option<Vec<u8>>) -> (r: Option<Vec<u8>>)
    ensures
        history::path_view(r) == entry_path(
            history::path_view(*config_home),
            history::path_view(*home),
        ),
{
    let dir: Vec<u8> = match config_home {
        Some(c) => path::join_name(c.as_slice(), "autostart"),
        None => match home {
            Some(h) => path::join_name(
                path::join_name(h.as_slice(), ".config").as_slice(),
                "autostart",
            ),
            None => {
                return None;
            },
        },
    };
    Some(path::join_name(dir.as_slice(), "battery-monitor.desktop"))
}

/// Whether the program starts with the session: whether the entry is there.
pub fn is_enabled(entry: &Option<Vec<u8>>, looked: &Looked) -> (r: bool)
    ensures
        r == enabled(history::path_view(*entry), looked.path@, looked.there),
        r == (entry matches Some(p) && p@ == looked.path@ && looked.there),
{
    match entry {
        Some(p) => looked.there && path::same(p.as_slice(), looked.path.as_slice()),
        None => false,
    }
}

/// What the autostart entry for the program `exe` holds.
pub open spec fn entry_text(exe: Seq<u8>) -> Seq<char> {
    "[Desktop Entry]\nType=Application\nName=Battery Monitor\nComment=Battery health, telemetry, and power-usage dashboard\nExec="@
        + text::lossy(exe)
        + "\nTerminal=false\nCategories=Utility;\nX-GNOME-Autostart-enabled=true\n"@
}

/// The file to write so that the program `exe` starts with the session, and what to
/// write to it.
pub fn enable(entry: Option<Vec<u8>>, exe: &[u8]) -> (r: Result<(Vec<u8>, String), String>)
    ensures
        match r {
            Ok(f) => entry == Some(f.0) && f.1@ == entry_text(exe@),
            Err(e) => entry is None && e@ == "couldn't determine XDG config directory"@,
        },
{
    match entry {
        Some(p) => {
            let mut out: Vec<char> = text::characters(
                "[Desktop Entry]\nType=Application\nName=Battery Monitor\nComment=Battery health, telemetry, and power-usage dashboard\nExec=",
            );
            text::add(&mut out, text::decode(exe).as_str());
            text::add(
                &mut out,
                "\nTerminal=false\nCategories=Utility;\nX-GNOME-Autostart-enabled=true\n",
            );
            Ok((p, text::string_of(out.as_slice())))
        },
        None => Err("couldn't determine XDG config directory".to_owned()),
    }
}

/// The file to remove so that the program no longer starts with the session; none
/// where it does not.
pub fn disable(entry: Option<Vec<u8>>, looked: &Looked) -> (r: Option<Vec<u8>>)
    ensures
        r == (if entry matches Some(p) && p@ == looked.path@ && looked.there {
            entry
        } else {
            None
        }),
{
    if is_enabled(&entry, looked) {
        entry
    } else {
        None
    }
}

/// The autostart entry lies in the directory for such entries, under the configuration
/// directory where that is set, and otherwise under `.config` in the home directory.
/// Without either there is no place for it.
pub proof fn law_the_entry_has_its_place(config_home: Option<Seq<u8>>, home: Option<Seq<u8>>)
    ensures
        config_home matches Some(c) ==> entry_path(config_home, home) == Some(
            path::under(path::under(c, "autostart"@), "battery-monitor.desktop"@),
        ),
        config_home is None ==> (home matches Some(h) ==> entry_path(config_home, home) == Some(
            path::under(
                path::under(path::under(h, ".config"@), "autostart"@),
                "battery-monitor.desktop"@,
            ),
        )),
        config_home is None && home is None ==> entry_path(config_home, home) is None,
{
}

/// The autostart entry is that of a desktop program by the name of this one, which runs
/// the program that it was made for, without a terminal.
pub proof fn law_the_entry_runs_the_program(exe: Seq<u8>)
    ensures
        entry_text(exe)
            == "[Desktop Entry]\nType=Application\nName=Battery Monitor\nComment=Battery health, telemetry, and power-usage dashboard\nExec="@
            + text::lossy(exe)
            + "\nTerminal=false\nCategories=Utility;\nX-GNOME-Autostart-enabled=true\n"@,
{
}

/// Whether the entry is there, as was looked up.
pub open spec fn enabled(entry: Option<Seq<u8>>, looked_at: Seq<u8>, there: bool) -> bool {
    entry == Some(looked_at) && there
}

/// The program starts with the session where its entry is there; that something is at
/// another path tells nothing.
pub proof fn law_the_entry_itself_counts(entry: Seq<u8>, other: Seq<u8>)
    requires
        entry != other,
    ensures
        enabled(Some(entry), entry, true),
        !enabled(Some(entry), entry, false),
        !enabled(Some(entry), other, true),
        !enabled(None, other, true),
{
}

} // verus!
