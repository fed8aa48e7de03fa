//! The program's settings, and what they decide.

use crate::history;
use crate::path;
use vstd::prelude::*;

verus! {

/// The program's settings.
#[derive(Debug, PartialEq)]
pub struct AppSettings {
    /// The unit of capacities, `Wh` or `Ah`.
    pub capacity_unit: String,
    /// Seconds between two updates of the display.
    pub refresh_interval_secs: u32,
    /// Whether alerts are shown on the desktop.
    pub notif_desktop: bool,
    /// Whether there is a tray icon.
    pub notif_tray: bool,
    /// How many days readings are kept.
    pub history_retention_days: i64,
    /// Whether the user was told that the program goes on in the tray.
    pub has_shown_tray_hint: bool,
}

impl Default for AppSettings {
    fn default() -> (r: AppSettings)
        ensures
            r.capacity_unit@ == "Wh"@,
            r.refresh_interval_secs == 1,
            r.notif_desktop,
            r.notif_tray,
            r.history_retention_days == history::DEFAULT_RETENTION_DAYS,
            !r.has_shown_tray_hint,
    {
        AppSettings {
            capacity_unit: "Wh".to_owned(),
            refresh_interval_secs: 1,
            notif_desktop: true,
            notif_tray: true,
            history_retention_days: history::DEFAULT_RETENTION_DAYS,
            has_shown_tray_hint: false,
        }
    }
}

/// Where the settings are kept; `data_dir` is the user's data directory.
pub fn settings_path(data_dir: &Option<Vec<u8>>) -> (r: Vec<u8>)
    ensures
        r@ == path::under(history::app_dir(history::path_view(*data_dir)), "settings.json"@),
{
    path::join_name(history::app_directory(data_dir).as_slice(), "settings.json")
}

/// Milliseconds between two readings of the battery.
pub const UPDATE_MS: u64 = 1000;

/// How many readings lie between two times that old ones are deleted: about an hour.
pub const PRUNE_EVERY_TICKS: u64 = 3600;

/// Whether old readings are deleted after the reading of that number, counted from
/// one.
pub fn prune_is_due(tick: u64) -> (r: bool)
    ensures
        r == prune_due(tick as int),
        r == (tick as int % PRUNE_EVERY_TICKS as int == 0),
{
    tick % PRUNE_EVERY_TICKS == 0
}

/// What happens when the window is closed.
#[derive(Debug, Clone, Copy, PartialEq, Eq, Structural)]
pub enum CloseAction {
    /// The program ends.
    Quit,
    /// The window hides.
    Hide,
    /// The window hides, and the user is told that the program goes on.
    HideWithHint,
}

/// What happens when the window is closed: with a tray icon it hides, and the user is
/// told so unless that was done before.
pub open spec fn close_action(has_tray: bool, settings: AppSettings) -> CloseAction {
    if !has_tray {
        CloseAction::Quit
    } else if settings.has_shown_tray_hint {
        CloseAction::Hide
    } else {
        CloseAction::HideWithHint
    }
}

/// The settings after the window was closed.
pub open spec fn after_close(has_tray: bool, settings: AppSettings) -> AppSettings {
    if has_tray {
        AppSettings { has_shown_tray_hint: true, ..settings }
    } else {
        settings
    }
}

/// What happens when the window is closed, and which settings hold from then on.
pub fn close_window(has_tray: bool, settings: AppSettings) -> (r: (CloseAction, AppSettings))
    ensures
        r.0 == close_action(has_tray, settings),
        r.1 == after_close(has_tray, settings),
{
    if !has_tray {
        (CloseAction::Quit, settings)
    } else if settings.has_shown_tray_hint {
        (CloseAction::Hide, settings)
    } else {
        (CloseAction::HideWithHint, AppSettings { has_shown_tray_hint: true, ..settings })
    }
}

/// The hint is shown once for good: however often the window is closed after it was
/// closed to the tray, with or without a tray icon, the hint does not come again, and
/// nothing else in the settings changes.
pub proof fn law_tray_hint_is_shown_once(settings: AppSettings, closings: Seq<bool>)
    ensures
        ({
            let last = after_closings(after_close(true, settings), closings);
            &&& close_action(true, last) != CloseAction::HideWithHint
            &&& last == AppSettings { has_shown_tray_hint: true, ..settings }
        }),
    decreases closings.len(),
{
    if closings.len() > 0 {
        law_tray_hint_is_shown_once(settings, closings.drop_last());
    }
}

/// The settings after the window was closed several times, each time with a tray icon
/// or without.
pub open spec fn after_closings(settings: AppSettings, closings: Seq<bool>) -> AppSettings
    decreases closings.len(),
{
    if closings.len() == 0 {
        settings
    } else {
        after_close(closings.last(), after_closings(settings, closings.drop_last()))
    }
}

/// Closing the window ends the program without a tray icon, and hides it with one; the
/// user is told so the first time. Nothing but that it was told changes.
pub proof fn law_closing_hides_where_there_is_a_tray(settings: AppSettings)
    ensures
        close_action(false, settings) == CloseAction::Quit,
        close_action(true, settings) == CloseAction::HideWithHint
            <==> !settings.has_shown_tray_hint,
        close_action(true, settings) == CloseAction::Hide <==> settings.has_shown_tray_hint,
        after_close(false, settings) == settings,
        after_close(true, settings) == (AppSettings { has_shown_tray_hint: true, ..settings }),
{
}

/// Whether old readings are deleted after the reading of that number.
pub open spec fn prune_due(tick: int) -> bool {
    tick % (PRUNE_EVERY_TICKS as int) == 0
}

/// At a reading each second old readings are deleted once an hour: of 3600 readings that
/// follow each other exactly one is followed by it.
pub proof fn law_pruning_is_hourly(tick: int, i: int, j: int)
    requires
        tick >= 0,
        0 <= i < 3600,
        0 <= j < 3600,
    ensures
        prune_due(tick + (3600 - tick % 3600)),
        prune_due(tick) ==> prune_due(tick + 3600),
        prune_due(tick + i) && prune_due(tick + j) ==> i == j,
        UPDATE_MS * PRUNE_EVERY_TICKS == 3600 * 1000,
{
}

} // verus!
