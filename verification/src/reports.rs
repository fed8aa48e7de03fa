//! Reports: the recorded history as files of comma-separated values.

use crate::decimal;
use crate::double;
use crate::history;
use crate::history::GraphData;
use crate::history::GraphRow;
use crate::path;
use crate::rank;
use crate::rank::Ranked;
use crate::text;
use vstd::prelude::*;

verus! {

/// The time that a report covers.
#[derive(Debug, Clone, Copy, PartialEq, Eq, Structural)]
pub enum ReportPeriod {
    /// A day.
    Last24h,
    /// A week.
    Last7d,
    /// Thirty days.
    Last30d,
}

impl ReportPeriod {
    /// The period in words.
    pub open spec fn words(self) -> Seq<char> {
        match self {
            ReportPeriod::Last24h => "Last 24 hours"@,
            ReportPeriod::Last7d => "Last 7 days"@,
            ReportPeriod::Last30d => "Last 30 days"@,
        }
    }

    /// The period in short.
    pub open spec fn code(self) -> Seq<char> {
        match self {
            ReportPeriod::Last24h => "24h"@,
            ReportPeriod::Last7d => "7d"@,
            ReportPeriod::Last30d => "30d"@,
        }
    }

    /// The period that is `s` in short.
    pub open spec fn named(s: Seq<char>) -> Option<ReportPeriod> {
        if s == "24h"@ {
            Some(ReportPeriod::Last24h)
        } else if s == "7d"@ {
            Some(ReportPeriod::Last7d)
        } else if s == "30d"@ {
            Some(ReportPeriod::Last30d)
        } else {
            None
        }
    }

    /// How many days the period has.
    pub open spec fn days(self) -> int {
        match self {
            ReportPeriod::Last24h => 1,
            ReportPeriod::Last7d => 7,
            ReportPeriod::Last30d => 30,
        }
    }

    /// The period in words.
    pub fn label(&self) -> (r: &'static str)
        ensures
            r@ == self.words(),
    {
        match self {
            ReportPeriod::Last24h => "Last 24 hours",
            ReportPeriod::Last7d => "Last 7 days",
            ReportPeriod::Last30d => "Last 30 days",
        }
    }

    /// The period that is `s` in short.
    pub fn from_str(s: &str) -> (r: Option<ReportPeriod>)
        ensures
            r == ReportPeriod::named(s@),
    {
        if text::same(s, "24h") {
            Some(ReportPeriod::Last24h)
        } else if text::same(s, "7d") {
            Some(ReportPeriod::Last7d)
        } else if text::same(s, "30d") {
            Some(ReportPeriod::Last30d)
        } else {
            None
        }
    }

    /// How many seconds the period has.
    pub fn seconds(&self) -> (r: i64)
        ensures
            r == self.days() * 24 * 3600,
    {
        match self {
            ReportPeriod::Last24h => 24 * 3600,
            ReportPeriod::Last7d => 7 * 24 * 3600,
            ReportPeriod::Last30d => 30 * 24 * 3600,
        }
    }

    /// The period in short.
    pub fn slug(&self) -> (r: &'static str)
        ensures
            r@ == self.code(),
    {
        match self {
            ReportPeriod::Last24h => "24h",
            ReportPeriod::Last7d => "7d",
            ReportPeriod::Last30d => "30d",
        }
    }
}

/// A period in short names that period, and nothing else does.
pub proof fn law_period_round_trips(p: ReportPeriod, s: Seq<char>)
    ensures
        ReportPeriod::named(p.code()) == Some(p),
        ReportPeriod::named(s) == Some(p) ==> s == p.code(),
{
    reveal_strlit("24h");
    reveal_strlit("7d");
    reveal_strlit("30d");
    assert("24h"@[0] == '2' && "7d"@[0] == '7' && "30d"@[0] == '3');
}

/// The period that is `s` in short, or that it is not known.
pub fn requested_period(s: &str) -> (r: Result<ReportPeriod, String>)
    ensures
        match ReportPeriod::named(s@) {
            Some(p) => r == Ok::<ReportPeriod, String>(p),
            None => r matches Err(e) && e@ == "unknown period: "@ + s@,
        },
{
    match ReportPeriod::from_str(s) {
        Some(p) => Ok(p),
        None => {
            let mut out: String = "unknown period: ".to_owned();
            out.append(s);
            Err(out)
        },
    }
}

/// Where reports are kept; `data_dir` is the user's data directory.
pub fn reports_dir(data_dir: &Option<Vec<u8>>) -> (r: Vec<u8>)
    ensures
        r@ == path::under(history::app_dir(history::path_view(*data_dir)), "reports"@),
{
    path::join_name(history::app_directory(data_dir).as_slice(), "reports")
}

/// The name of the report over `period` that was made at `stamp`.
pub open spec fn report_name(period: ReportPeriod, stamp: Seq<char>) -> Seq<char> {
    "battery-report-"@ + period.code() + "-"@ + stamp + ".csv"@
}

/// Where the report over `period` that is made at `stamp` goes, under the directory
/// `dir`.
pub fn report_path(dir: &[u8], period: ReportPeriod, stamp: &str) -> (r: Vec<u8>)
    ensures
        r@ == path::under(dir@, report_name(period, stamp@)),
{
    let mut name: Vec<char> = text::characters("battery-report-");
    text::add(&mut name, period.slug());
    text::add(&mut name, "-");
    text::add(&mut name, stamp);
    text::add(&mut name, ".csv");
    path::join_name(dir, text::string_of(name.as_slice()).as_str())
}

/// About how many rows a report has.
pub const REPORT_POINTS: i64 = 2000;

/// The first line of a report.
pub const HEADER: &'static str = "timestamp,status,capacity_percent,voltage_v,current_ma,power_w,temperature_c\n";

/// The time on the line of the last of the first `n` rows, whose times were read as
/// `times`: as it was recorded, that of the last row before it where it could not be
/// read, or `now` where none could.
pub open spec fn recorded_time(
    rows: Seq<GraphRow>,
    times: Seq<Option<i64>>,
    now: Seq<char>,
    n: int,
) -> Seq<char>
    decreases n,
{
    if n <= 0 {
        now
    } else if times[n - 1] is Some {
        rows[n - 1].timestamp@
    } else {
        recorded_time(rows, times, now, n - 1)
    }
}

/// The times on the lines of a report.
pub open spec fn recorded_times(
    rows: Seq<GraphRow>,
    times: Seq<Option<i64>>,
    now: Seq<char>,
) -> Seq<Seq<char>> {
    Seq::new(rows.len(), |i: int| recorded_time(rows, times, now, i + 1))
}

/// What a line shows of the point `i` behind its time and its status.
pub open spec fn point_values(data: history::GraphView, i: int) -> Seq<char> {
    decimal::shortest(data.capacity[i]) + ","@ + decimal::shortest(data.voltage[i]) + ","@
        + decimal::shortest(data.current_ma[i]) + ","@ + decimal::shortest(data.power[i]) + ","@
        + decimal::shortest(data.temperature[i])
}

/// The line of the point `i`, whose time is `time`.
pub open spec fn report_line(data: history::GraphView, time: Seq<char>, i: int) -> Seq<char> {
    time + ","@ + data.status[i] + ","@ + point_values(data, i) + "\n"@
}

/// The header and the lines of the first `n` points.
pub open spec fn report_text(
    data: history::GraphView,
    times: Seq<Seq<char>>,
    n: nat,
) -> Seq<char>
    decreases n,
{
    if n == 0 {
        HEADER@
    } else {
        report_text(data, times, (n - 1) as nat) + report_line(data, times[n - 1], n - 1)
    }
}

/// The report on rows whose times were read as `times`, made at the time `now`, which
/// is `now_text` as a text.
pub open spec fn report_of(
    rows: Seq<GraphRow>,
    times: Seq<Option<i64>>,
    now: i64,
    now_text: Seq<char>,
) -> Seq<char> {
    report_text(
        history::graph_of(rows, times, now),
        recorded_times(rows, times, now_text),
        rows.len(),
    )
}

fn line_of(data: &GraphData, time: &str, i: usize) -> (r: Vec<char>)
    requires
        i < data@.status.len(),
        i < data@.capacity.len(),
        i < data@.voltage.len(),
        i < data@.current_ma.len(),
        i < data@.power.len(),
        i < data@.temperature.len(),
    ensures
        r@ == report_line(data@, time@, i as int),
{
    let mut values: Vec<char> = decimal::shortest_text(data.capacity[i]);
    text::add(&mut values, ",");
    text::add_all(&mut values, decimal::shortest_text(data.voltage[i]));
    text::add(&mut values, ",");
    text::add_all(&mut values, decimal::shortest_text(data.current_ma[i]));
    text::add(&mut values, ",");
    text::add_all(&mut values, decimal::shortest_text(data.power[i]));
    text::add(&mut values, ",");
    text::add_all(&mut values, decimal::shortest_text(data.temperature[i]));
    let mut line: Vec<char> = text::characters(time);
    text::add(&mut line, ",");
    text::add(&mut line, data.status[i].as_str());
    text::add(&mut line, ",");
    text::add_all(&mut line, values);
    text::add(&mut line, "\n");
    line
}

/// The report on rows whose times were read as `times`: a header, and a line for each
/// row.
pub fn report_on(
    rows: &Vec<GraphRow>,
    times: &Vec<Option<i64>>,
    now: i64,
    now_text: &str,
) -> (r: String)
    requires
        times@.len() == rows@.len(),
    ensures
        r@ == report_of(rows@, times@, now, now_text@),
{
    let data: GraphData = history::graph_series(rows, times, now);
    let mut out: Vec<char> = text::characters(HEADER);
    let mut time: String = now_text.to_owned();
    let mut i: usize = 0;
    while i < rows.len()
        invariant
            i <= rows@.len(),
            times@.len() == rows@.len(),
            data@ == history::graph_of(rows@, times@, now),
            time@ == recorded_time(rows@, times@, now_text@, i as int),
            out@ == report_text(data@, recorded_times(rows@, times@, now_text@), i as nat),
        decreases rows@.len() - i,
    {
        if times[i].is_some() {
            time = rows[i].timestamp.clone();
        }
        text::add_all(&mut out, line_of(&data, time.as_str(), i));
        i = i + 1;
    }
    text::string_of(out.as_slice())
}

/// The report on the rows that a [`history::GraphQuery`] gave: a header, and a line for
/// each row with the time as it was recorded. A time that cannot be read is replaced
/// by the last that can, or by `now_text`, the time `now` as a text. Only the header
/// where there are no rows to be had.
pub fn generate_csv_report(rows: Option<&Vec<GraphRow>>, now: i64, now_text: &str) -> (r: String)
    ensures
        r@ == match rows {
            Some(v) => report_of(v@, history::row_times(v@), now, now_text@),
            None => HEADER@,
        },
{
    match rows {
        Some(v) => report_on(v, &history::read_times(v), now, now_text),
        None => HEADER.to_owned(),
    }
}

/// Without history a report is its header.
pub proof fn law_empty_report_is_a_header(now: i64, now_text: Seq<char>)
    ensures
        report_of(seq![], seq![], now, now_text) == HEADER@,
{
}

/// A report has a line for each row, in their order: up to the row `i` it is the header
/// with the lines before, then the line of that row.
pub proof fn law_report_has_a_line_for_each_row(
    rows: Seq<GraphRow>,
    times: Seq<Option<i64>>,
    now: i64,
    now_text: Seq<char>,
    i: int,
)
    requires
        0 <= i < rows.len(),
    ensures
        ({
            let data = history::graph_of(rows, times, now);
            let shown = recorded_times(rows, times, now_text);
            (report_text(data, shown, i as nat) + report_line(data, shown[i], i)).is_prefix_of(
                report_of(rows, times, now, now_text),
            )
        }),
{
    let data = history::graph_of(rows, times, now);
    let shown = recorded_times(rows, times, now_text);
    lemma_report_grows(data, shown, (i + 1) as nat, rows.len());
}

proof fn lemma_report_grows(data: history::GraphView, times: Seq<Seq<char>>, k: nat, n: nat)
    requires
        k <= n,
    ensures
        report_text(data, times, k).is_prefix_of(report_text(data, times, n)),
    decreases n,
{
    if k < n {
        lemma_report_grows(data, times, k, (n - 1) as nat);
    }
}

/// The line of a row whose time can be read shows that time as it was recorded, and the
/// status of the row. One whose time cannot be read shows the time of the line before.
pub proof fn law_report_lines_show_recorded_times(
    rows: Seq<GraphRow>,
    times: Seq<Option<i64>>,
    now: i64,
    now_text: Seq<char>,
    i: int,
)
    requires
        0 <= i < rows.len(),
        times.len() == rows.len(),
    ensures
        ({
            let data = history::graph_of(rows, times, now);
            let shown = recorded_times(rows, times, now_text);
            &&& times[i] is Some ==> report_line(data, shown[i], i) == rows[i].timestamp@ + ","@
                + rows[i].status@ + ","@ + point_values(data, i) + "\n"@
            &&& times[i] is None && i > 0 ==> shown[i] == shown[i - 1]
            &&& times[i] is None && i == 0 ==> shown[i] == now_text
        }),
{
    let shown = recorded_times(rows, times, now_text);
    assert(shown[i] == recorded_time(rows, times, now_text, i + 1));
    assert(history::graph_of(rows, times, now).status[i] == rows[i].status@);
    if i > 0 {
        assert(shown[i - 1] == recorded_time(rows, times, now_text, i));
    } else {
        assert(recorded_time(rows, times, now_text, 0) == now_text);
    }
}

/// What is known of a file.
#[derive(Debug)]
pub struct FileInfo {
    /// Size in bytes.
    pub size: u64,
    /// When it was last changed, in nanoseconds since the epoch.
    pub modified: Option<i128>,
}

/// A file in the directory of reports.
#[derive(Debug)]
pub struct FoundFile {
    /// Its name.
    pub name: Vec<u8>,
    /// What is known of it, where that could be had.
    pub info: Option<FileInfo>,
}

/// A report.
#[derive(Debug, PartialEq)]
pub struct ReportEntry {
    /// Name of the file.
    pub name: String,
    /// Path of the file.
    pub path: Vec<u8>,
    /// Size in bytes.
    pub size_bytes: u64,
    /// When it was last changed, in nanoseconds since the epoch.
    pub modified: Option<i128>,
}

/// A [`ReportEntry`] by its text and bytes.
pub struct ReportView {
    /// Name of the file.
    pub name: Seq<char>,
    /// Path of the file.
    pub path: Seq<u8>,
    /// Size in bytes.
    pub size_bytes: u64,
    /// When it was last changed.
    pub modified: Option<i128>,
}

impl View for ReportEntry {
    type V = ReportView;

    open spec fn view(&self) -> ReportView {
        ReportView {
            name: self.name@,
            path: self.path@,
            size_bytes: self.size_bytes,
            modified: self.modified,
        }
    }
}

impl Clone for ReportEntry {
    fn clone(&self) -> (r: ReportEntry)
        ensures
            r@ == self@,
    {
        ReportEntry {
            name: self.name.clone(),
            path: self.path.clone(),
            size_bytes: self.size_bytes,
            modified: self.modified,
        }
    }
}

impl Ranked for ReportEntry {
    /// Newer reports come first, those of unknown age last.
    open spec fn before(a: ReportView, b: ReportView) -> bool {
        match (a.modified, b.modified) {
            (Some(x), Some(y)) => x > y,
            (Some(_), None) => true,
            (None, _) => false,
        }
    }

    open spec fn placeable(a: ReportView) -> bool {
        true
    }

    fn precedes(&self, other: &Self) -> (r: bool) {
        match (self.modified, other.modified) {
            (Some(x), Some(y)) => x > y,
            (Some(_), None) => true,
            (None, _) => false,
        }
    }

    proof fn lemma_order(a: ReportView, b: ReportView, c: ReportView) {
    }
}

/// Whether a file is named as a report: its name ends in `.csv`, with something
/// before that.
pub open spec fn is_csv(name: Seq<u8>) -> bool {
    name.len() > 4 && name.skip(name.len() - 4) == seq![0x2eu8, 0x63u8, 0x73u8, 0x76u8]
}

fn ends_in_csv(name: &[u8]) -> (r: bool)
    ensures
        r == is_csv(name@),
{
    let n: usize = name.len();
    if n <= 4 {
        return false;
    }
    let ghost end = name@.skip(name@.len() - 4);
    assert(end[0] == name@[n - 4] && end[1] == name@[n - 3] && end[2] == name@[n - 2] && end[3]
        == name@[n - 1]);
    let r: bool = name[n - 4] == 0x2e && name[n - 3] == 0x63 && name[n - 2] == 0x73 && name[n - 1]
        == 0x76;
    if r {
        assert(end =~= seq![0x2eu8, 0x63u8, 0x73u8, 0x76u8]);
    }
    r
}

/// The reports among the files of the directory `dir`.
pub open spec fn found_reports(dir: Seq<u8>, files: Seq<FoundFile>) -> Seq<ReportView>
    decreases files.len(),
{
    if files.len() == 0 {
        seq![]
    } else {
        let earlier = found_reports(dir, files.drop_last());
        let file = files.last();
        if is_csv(file.name@) && file.info is Some {
            earlier.push(
                ReportView {
                    name: text::lossy(file.name@),
                    path: path::joined(dir, file.name@),
                    size_bytes: (file.info->0).size,
                    modified: (file.info->0).modified,
                },
            )
        } else {
            earlier
        }
    }
}

/// The reports among the files of the directory `dir`, newest first. Other files,
/// and those of which nothing is known, are left out.
pub fn list_reports(dir: &[u8], files: &Vec<FoundFile>) -> (r: Vec<ReportEntry>)
    ensures
        rank::views(r@) == rank::ranked::<ReportEntry>(found_reports(dir@, files@)),
{
    let mut found: Vec<ReportEntry> = Vec::new();
    let mut i: usize = 0;
    assert(rank::views(found@) =~= found_reports(dir@, files@.take(0)));
    while i < files.len()
        invariant
            i <= files@.len(),
            rank::views(found@) == found_reports(dir@, files@.take(i as int)),
        decreases files@.len() - i,
    {
        let file: &FoundFile = &files[i];
        proof {
            assert(files@.take(i + 1).drop_last() =~= files@.take(i as int));
            assert(files@.take(i + 1).last() == files@[i as int]);
        }
        if ends_in_csv(file.name.as_slice()) {
            if let Some(info) = &file.info {
                let entry: ReportEntry = ReportEntry {
                    name: text::decode(file.name.as_slice()),
                    path: path::join(dir, file.name.as_slice()),
                    size_bytes: info.size,
                    modified: info.modified,
                };
                let ghost before = rank::views(found@);
                found.push(entry);
                assert(rank::views(found@) =~= before.push(entry@));
            }
        }
        i = i + 1;
    }
    assert(files@.take(files@.len() as int) =~= files@);
    rank::rank(found)
}

/// A list of reports is in order: no report is newer than one that stands before it.
pub proof fn law_reports_are_newest_first(dir: Seq<u8>, files: Seq<FoundFile>, i: int, j: int)
    requires
        0 <= i < j < rank::ranked::<ReportEntry>(found_reports(dir, files)).len(),
    ensures
        ({
            let list = rank::ranked::<ReportEntry>(found_reports(dir, files));
            list[j].modified matches Some(y) ==> (list[i].modified matches Some(x) && y <= x)
        }),
{
    let found = found_reports(dir, files);
    let list = rank::ranked::<ReportEntry>(found);
    assert(rank::all_placeable::<ReportEntry>(found));
    rank::law_rank_orders::<ReportEntry>(found);
    assert(!ReportEntry::before(list[j], list[i]));
}

/// A file that is not named as a report makes no difference to the list.
pub proof fn law_other_files_are_ignored(
    dir: Seq<u8>,
    before: Seq<FoundFile>,
    other: FoundFile,
    after: Seq<FoundFile>,
)
    requires
        !is_csv(other.name@),
    ensures
        found_reports(dir, before.push(other) + after) == found_reports(dir, before + after),
    decreases after.len(),
{
    if after.len() == 0 {
        assert(before.push(other) + after =~= before.push(other));
        assert(before + after =~= before);
        assert(before.push(other).drop_last() =~= before);
    } else {
        law_other_files_are_ignored(dir, before, other, after.drop_last());
        let with = before.push(other) + after;
        let without = before + after;
        assert(with.drop_last() =~= before.push(other) + after.drop_last());
        assert(without.drop_last() =~= before + after.drop_last());
        assert(with.last() == after.last() && without.last() == after.last());
    }
}

/// The file to delete for a report: `target`, where it lies in the directory of
/// reports `dir`. Both are given with all links resolved, or why that failed.
pub fn delete_report(dir: Result<Vec<u8>, String>, target: Result<Vec<u8>, String>) -> (r: Result<
    Vec<u8>,
    String,
>)
    ensures
        match (dir, target) {
            (Err(e), _) => r == Err::<Vec<u8>, String>(e),
            (Ok(_), Err(e)) => r == Err::<Vec<u8>, String>(e),
            (Ok(d), Ok(t)) => if path::inside(t@, d@) {
                r == Ok::<Vec<u8>, String>(t)
            } else {
                r matches Err(e) && e@
                    == "refusing to delete a path outside the reports directory"@
            },
        },
{
    let d: Vec<u8> = match dir {
        Ok(d) => d,
        Err(e) => {
            return Err(e);
        },
    };
    let t: Vec<u8> = match target {
        Ok(t) => t,
        Err(e) => {
            return Err(e);
        },
    };
    if path::lies_in(t.as_slice(), d.as_slice()) {
        Ok(t)
    } else {
        Err("refusing to delete a path outside the reports directory".to_owned())
    }
}

/// The periods, in words, in short, and by their days.
pub proof fn law_periods(p: ReportPeriod)
    ensures
        p == ReportPeriod::Last24h ==> p.words() == "Last 24 hours"@ && p.code() == "24h"@
            && p.days() == 1,
        p == ReportPeriod::Last7d ==> p.words() == "Last 7 days"@ && p.code() == "7d"@ && p.days()
            == 7,
        p == ReportPeriod::Last30d ==> p.words() == "Last 30 days"@ && p.code() == "30d"@
            && p.days() == 30,
{
}

/// A report is named by its period and the time at which it was made, and named as a file
/// of comma-separated values.
pub proof fn law_reports_are_named(p: ReportPeriod, stamp: Seq<char>)
    ensures
        p == ReportPeriod::Last24h ==> report_name(p, stamp) == "battery-report-"@ + "24h"@ + "-"@
            + stamp + ".csv"@,
        p == ReportPeriod::Last7d ==> report_name(p, stamp) == "battery-report-"@ + "7d"@ + "-"@
            + stamp + ".csv"@,
        p == ReportPeriod::Last30d ==> report_name(p, stamp) == "battery-report-"@ + "30d"@ + "-"@
            + stamp + ".csv"@,
{
}

/// The line of a row has the columns that the header names, in its order: the time, the
/// status, and the charge, the voltage, the current in thousandths of an ampere, the power
/// and the temperature, each number in the fewest digits that it can be read back from.
pub proof fn law_lines_have_the_columns_of_the_header(
    rows: Seq<GraphRow>,
    times: Seq<Option<i64>>,
    now: i64,
    time: Seq<char>,
    i: int,
)
    requires
        0 <= i < rows.len(),
        rows[i].capacity is Some && !rows[i].capacity->0.nan(),
        rows[i].voltage is Some && !rows[i].voltage->0.nan(),
        rows[i].current_a is Some,
        rows[i].power_w is Some && !rows[i].power_w->0.nan(),
        rows[i].temperature_c is Some && !rows[i].temperature_c->0.nan(),
    ensures
        HEADER@
            == "timestamp,status,capacity_percent,voltage_v,current_ma,power_w,temperature_c\n"@,
        report_line(history::graph_of(rows, times, now), time, i) == time + ","@ + rows[i].status@
            + ","@ + (decimal::shortest(rows[i].capacity->0) + ","@ + decimal::shortest(
            rows[i].voltage->0,
        ) + ","@ + decimal::shortest(
            double::product(rows[i].current_a->0, double::whole(1000)),
        ) + ","@ + decimal::shortest(rows[i].power_w->0) + ","@ + decimal::shortest(
            rows[i].temperature_c->0,
        )) + "\n"@,
{
    let one = double::whole(1);
    let n = rows.len();
    history::law_gaps_are_filled(Seq::new(n, |k: int| rows[k].voltage), one, i);
    history::law_gaps_are_filled(Seq::new(n, |k: int| rows[k].power_w), one, i);
    history::law_gaps_are_filled(Seq::new(n, |k: int| rows[k].temperature_c), one, i);
    history::law_gaps_are_filled(Seq::new(n, |k: int| rows[k].capacity), one, i);
    history::law_gaps_are_filled(Seq::new(n, |k: int| rows[k].current_a), double::whole(1000), i);
    history::law_scale_of_one_keeps_numbers(rows[i].voltage->0);
    history::law_scale_of_one_keeps_numbers(rows[i].power_w->0);
    history::law_scale_of_one_keeps_numbers(rows[i].temperature_c->0);
    history::law_scale_of_one_keeps_numbers(rows[i].capacity->0);
}

/// A file whose name ends in `.csv`, behind something else, and of which something is
/// known is a report with its own name, path, size and time; any other file is none.
pub proof fn law_csv_files_are_reports(dir: Seq<u8>, file: FoundFile)
    ensures
        ({
            let name = file.name@;
            let n = name.len();
            let csv = n > 4 && name[n - 4] == 0x2e && name[n - 3] == 0x63 && name[n - 2] == 0x73
                && name[n - 1] == 0x76;
            let found = found_reports(dir, seq![file]);
            &&& csv ==> (file.info matches Some(info) ==> {
                &&& found.len() == 1
                &&& found[0].name == text::lossy(name)
                &&& found[0].path == path::joined(dir, name)
                &&& found[0].size_bytes == info.size
                &&& found[0].modified == info.modified
            })
            &&& !csv || file.info is None ==> found.len() == 0
        }),
{
    let name = file.name@;
    reveal_with_fuel(found_reports, 2);
    assert(seq![file].drop_last() =~= seq![]);
    if name.len() > 4 {
        let end = name.skip(name.len() - 4);
        assert(end[0] == name[name.len() - 4] && end[1] == name[name.len() - 3] && end[2]
            == name[name.len() - 2] && end[3] == name[name.len() - 1]);
        if end[0] == 0x2e && end[1] == 0x63 && end[2] == 0x73 && end[3] == 0x76 {
            assert(end =~= seq![0x2eu8, 0x63u8, 0x73u8, 0x76u8]);
        }
    }
}

/// The reports among files that follow each other are those of the first ones, followed by
/// those of the others, and the list has all of them.
pub proof fn law_reports_add_up(dir: Seq<u8>, front: Seq<FoundFile>, back: Seq<FoundFile>)
    ensures
        found_reports(dir, front + back) == found_reports(dir, front) + found_reports(dir, back),
        rank::ranked::<ReportEntry>(found_reports(dir, front)).to_multiset() == found_reports(
            dir,
            front,
        ).to_multiset(),
    decreases back.len(),
{
    rank::law_rank_keeps_items::<ReportEntry>(found_reports(dir, front));
    if back.len() == 0 {
        assert(front + back =~= front);
        assert(found_reports(dir, front) + found_reports(dir, back) =~= found_reports(dir, front));
    } else {
        law_reports_add_up(dir, front, back.drop_last());
        assert((front + back).drop_last() =~= front + back.drop_last());
        assert((front + back).last() == back.last());
        assert(found_reports(dir, front + back) =~= found_reports(dir, front) + found_reports(
            dir,
            back,
        ));
    }
}

/// Reports whose times are known stand before those whose time is not; among the former a
/// later one stands before an earlier one.
pub proof fn law_later_reports_come_first(a: ReportView, b: ReportView)
    ensures
        a.modified is Some && b.modified is None ==> ReportEntry::before(a, b),
        a.modified is Some && b.modified is Some ==> (ReportEntry::before(a, b) <==> a.modified->0
            > b.modified->0),
        a.modified is None ==> !ReportEntry::before(a, b),
{
}

/// A report asks for about two thousand rows.
pub proof fn law_reports_have_two_thousand_rows()
    ensures
        REPORT_POINTS == 2000,
{
}

} // verus!
