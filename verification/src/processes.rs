//! Processes ranked by what they use.

use crate::command;
use crate::command::Finished;
use crate::decimal;
use crate::double;
use crate::double::Double;
use crate::html;
use crate::rank;
use crate::rank::Ranked;
use crate::text;
use vstd::prelude::*;

verus! {

/// A process in the list ordered by processor use.
#[derive(Debug, PartialEq)]
pub struct CpuProcess {
    /// Process id.
    pub pid: String,
    /// Command name.
    pub name: String,
    /// Share of the processor, with one digit after the point and a percent sign.
    pub cpu_percent: String,
    /// Share of the memory, with one digit after the point and a percent sign.
    pub mem_percent: String,
    /// Time since the start, as `ps` writes it.
    pub runtime: String,
}

/// A [`CpuProcess`] by its texts.
pub struct CpuRow {
    /// Process id.
    pub pid: Seq<char>,
    /// Command name.
    pub name: Seq<char>,
    /// Share of the processor.
    pub cpu_percent: Seq<char>,
    /// Share of the memory.
    pub mem_percent: Seq<char>,
    /// Time since the start.
    pub runtime: Seq<char>,
}

impl View for CpuProcess {
    type V = CpuRow;

    open spec fn view(&self) -> CpuRow {
        CpuRow {
            pid: self.pid@,
            name: self.name@,
            cpu_percent: self.cpu_percent@,
            mem_percent: self.mem_percent@,
            runtime: self.runtime@,
        }
    }
}

impl Clone for CpuProcess {
    fn clone(&self) -> (r: CpuProcess)
        ensures
            r@ == self@,
    {
        CpuProcess {
            pid: self.pid.clone(),
            name: self.name.clone(),
            cpu_percent: self.cpu_percent.clone(),
            mem_percent: self.mem_percent.clone(),
            runtime: self.runtime.clone(),
        }
    }
}

/// A list of processes by their texts.
pub open spec fn cpu_views(v: Seq<CpuProcess>) -> Seq<CpuRow> {
    v.map_values(|p: CpuProcess| p@)
}

/// A share as text: one digit after the point, and a percent sign.
pub open spec fn percent(x: Double) -> Seq<char> {
    decimal::fixed(x, 1) + "%"@
}

/// The process of one line of `ps`: five words, the third and fourth of them
/// numbers.
pub open spec fn cpu_row(line: Seq<char>) -> Option<CpuRow> {
    let w = text::words(line);
    if w.len() == 5 && decimal::parsed(w[2]) is Some && decimal::parsed(w[3]) is Some {
        Some(
            CpuRow {
                pid: w[0],
                name: w[1],
                cpu_percent: percent(decimal::parsed(w[2])->0),
                mem_percent: percent(decimal::parsed(w[3])->0),
                runtime: w[4],
            },
        )
    } else {
        None
    }
}

/// The processes of the first lines that have one, at most `limit` of them.
pub open spec fn cpu_rows(lines: Seq<Seq<char>>, limit: nat) -> Seq<CpuRow>
    decreases lines.len(),
{
    if limit == 0 || lines.len() == 0 {
        seq![]
    } else {
        match cpu_row(lines[0]) {
            Some(row) => seq![row] + cpu_rows(lines.drop_first(), (limit - 1) as nat),
            None => cpu_rows(lines.drop_first(), limit),
        }
    }
}

fn percent_text(x: Double) -> (r: String)
    ensures
        r@ == percent(x),
{
    let mut out: Vec<char> = decimal::fixed_text(x, 1);
    text::add(&mut out, "%");
    text::string_of(out.as_slice())
}

fn read_cpu_row(line: &[char]) -> (r: Option<CpuProcess>)
    ensures
        match cpu_row(line@) {
            Some(row) => r matches Some(p) && p@ == row,
            None => r is None,
        },
{
    let parts: Vec<Vec<char>> = text::split_words(line);
    let ghost w = text::words(line@);
    assert(w.len() == parts@.len());
    assert(forall|i: int| 0 <= i < parts@.len() ==> w[i] == #[trigger] parts@[i]@);
    if parts.len() != 5 {
        return None;
    }
    match (decimal::parse(parts[2].as_slice()), decimal::parse(parts[3].as_slice())) {
        (Some(cpu), Some(mem)) => Some(
            CpuProcess {
                pid: text::string_of(parts[0].as_slice()),
                name: text::string_of(parts[1].as_slice()),
                cpu_percent: percent_text(cpu),
                mem_percent: percent_text(mem),
                runtime: text::string_of(parts[4].as_slice()),
            },
        ),
        _ => None,
    }
}

/// The number of rows that a limit lets through: the list is cut behind the row
/// that reaches it.
pub open spec fn cpu_limit(limit: usize) -> nat {
    if limit == 0 {
        1
    } else {
        limit as nat
    }
}

/// The arguments for `ps` that list processes by falling processor use.
pub fn ps_arguments() -> (r: Vec<String>)
    ensures
        text::texts(r@) == seq![
            "-eo"@,
            "pid,comm,%cpu,%mem,etime"@,
            "--sort=-%cpu"@,
            "--no-headers"@,
        ],
{
    let mut out: Vec<String> = Vec::new();
    out.push("-eo".to_owned());
    out.push("pid,comm,%cpu,%mem,etime".to_owned());
    out.push("--sort=-%cpu".to_owned());
    out.push("--no-headers".to_owned());
    assert(text::texts(out@) =~= seq![
        "-eo"@,
        "pid,comm,%cpu,%mem,etime"@,
        "--sort=-%cpu"@,
        "--no-headers"@,
    ]);
    out
}

/// Ranks running processes by processor use, from the output of `ps` with
/// [`ps_arguments`]. No rows where `ps`
/// could not be run or failed; lines that do not have five words with two numbers
/// are skipped.
pub fn read_top_processes_by_cpu(run: &Option<Finished>, limit: usize) -> (r: Vec<CpuProcess>)
    ensures
        cpu_views(r@) == match command::good_output(*run) {
            Some(s) => cpu_rows(text::lines(s), cpu_limit(limit)),
            None => seq![],
        },
{
    let mut out: Vec<CpuProcess> = Vec::new();
    match command::output_text(run) {
        None => {
            assert(cpu_views(out@) =~= seq![]);
        },
        Some(s) => {
            let lines: Vec<Vec<char>> = text::split_lines(s.as_slice());
            let ghost all = text::lines(s@);
            assert(all.len() == lines@.len());
            assert(forall|i: int| 0 <= i < lines@.len() ==> all[i] == #[trigger] lines@[i]@);
            let ghost most = cpu_limit(limit);
            let mut i: usize = 0;
            assert(all.skip(0) =~= all);
            assert(cpu_views(out@) =~= seq![]);
            while i < lines.len()
                invariant
                    i <= lines.len(),
                    all.len() == lines@.len(),
                    forall|j: int| 0 <= j < lines@.len() ==> all[j] == #[trigger] lines@[j]@,
                    all == text::lines(s@),
                    command::good_output(*run) == Some(s@),
                    most == cpu_limit(limit),
                    out@.len() < most,
                    cpu_rows(all, most) == cpu_views(out@) + cpu_rows(
                        all.skip(i as int),
                        (most - out@.len()) as nat,
                    ),
                decreases lines.len() - i,
            {
                let ghost before = out@;
                let ghost tail = all.skip(i as int);
                assert(tail[0] == lines@[i as int]@);
                assert(tail.drop_first() =~= all.skip(i + 1));
                let row: Option<CpuProcess> = read_cpu_row(lines[i].as_slice());
                i = i + 1;
                if let Some(p) = row {
                    out.push(p);
                    proof {
                        let later = cpu_rows(all.skip(i as int), (most - out@.len()) as nat);
                        assert(cpu_views(out@) =~= cpu_views(before).push(p@));
                        assert(cpu_views(before) + (seq![p@] + later) =~= cpu_views(out@) + later);
                    }
                    if out.len() >= limit {
                        assert(cpu_views(out@) + seq![] =~= cpu_views(out@));
                        return out;
                    }
                }
            }
            assert(cpu_rows(all.skip(i as int), (most - out@.len()) as nat) =~= seq![]);
            assert(cpu_views(out@) + seq![] =~= cpu_views(out@));
        },
    }
    out
}

/// A row of PowerTop's report that names a process.
#[derive(Debug, PartialEq)]
pub struct PowerTopProcess {
    /// Process id, where the report gives one.
    pub pid: Option<String>,
    /// Description without the process id.
    pub name: String,
    /// Power impact, as the report writes it.
    pub impact: String,
    /// Category, as the report writes it.
    pub category: String,
}

/// A [`PowerTopProcess`] by its texts.
pub struct PowerTopRow {
    /// Process id.
    pub pid: Option<Seq<char>>,
    /// Description without the process id.
    pub name: Seq<char>,
    /// Power impact.
    pub impact: Seq<char>,
    /// Category.
    pub category: Seq<char>,
}

impl View for PowerTopProcess {
    type V = PowerTopRow;

    open spec fn view(&self) -> PowerTopRow {
        PowerTopRow {
            pid: match self.pid {
                Some(p) => Some(p@),
                None => None,
            },
            name: self.name@,
            impact: self.impact@,
            category: self.category@,
        }
    }
}

/// A list of rows by their texts.
pub open spec fn powertop_views(v: Seq<PowerTopProcess>) -> Seq<PowerTopRow> {
    v.map_values(|p: PowerTopProcess| p@)
}

/// Whether `c`, a character outside ASCII, is in the class `\d` of the `regex`
/// crate, the decimal digits of Unicode.
pub uninterp spec fn foreign_digit(c: char) -> bool;

/// Whether `c` is in the class `\d` of the `regex` crate.
pub open spec fn regex_digit(c: char) -> bool {
    if (c as u32) < 128 {
        decimal::is_digit(c)
    } else {
        foreign_digit(c)
    }
}

/// Whether `[PID `, `count` digits and `]` stand in `s` at `at`.
pub open spec fn pid_at(s: Seq<char>, at: int, count: int) -> bool {
    &&& 0 <= at
    &&& 0 < count
    &&& at + 5 + count < s.len()
    &&& s.subrange(at, at + 5) == "[PID "@
    &&& forall|i: int| at + 5 <= i < at + 5 + count ==> regex_digit(#[trigger] s[i])
    &&& s[at + 5 + count] == ']'
}

/// Whether the leftmost process id of `s` stands at `at` and has `count` digits.
pub open spec fn first_pid(s: Seq<char>, at: int, count: int) -> bool {
    &&& pid_at(s, at, count)
    &&& forall|i: int, n: int| i < at ==> !#[trigger] pid_at(s, i, n)
}

/// Calls `regex::Regex::captures` with the pattern `\[PID (\d+)\]`, and hands out
/// the text before the match, the digits, and the text behind the match. The match
/// is the leftmost one; the digits are those of the class `\d`, of which only the
/// ASCII part is stated here.
#[verifier::external_body]
fn capture_pid(description: &str) -> (r: Option<(String, String, String)>)
    ensures
        match r {
            None => forall|i: int, n: int| !#[trigger] pid_at(description@, i, n),
            Some((front, pid, back)) => {
                let at = front@.len() as int;
                let count = pid@.len() as int;
                &&& first_pid(description@, at, count)
                &&& front@ == description@.take(at)
                &&& pid@ == description@.subrange(at + 5, at + 5 + count)
                &&& back@ == description@.skip(at + 6 + count)
            },
        },
        r matches Some(m) ==> forall|i: int|
            0 <= i < m.1@.len() && #[trigger] m.1@[i] as u32 >= 128 ==> foreign_digit(m.1@[i]),
{
    let pattern = regex::Regex::new(r"\[PID (\d+)\]").unwrap();
    let found = pattern.captures(description)?;
    let whole = found.get(0).unwrap();
    let pid = found.get(1).unwrap();
    Some((
        description[..whole.start()].to_string(),
        pid.as_str().to_string(),
        description[whole.end()..].to_string(),
    ))
}

/// Whether `c` may stand in the number of an impact.
pub open spec fn number_char(c: char) -> bool {
    regex_digit(c) || c == '.'
}

/// Where the first number of `s` begins, or the length of `s`.
pub open spec fn number_start(s: Seq<char>) -> nat
    decreases s.len(),
{
    if s.len() == 0 || number_char(s[0]) {
        0
    } else {
        1 + number_start(s.drop_first())
    }
}

/// How many characters of a number `s` starts with.
pub open spec fn number_length(s: Seq<char>) -> nat
    decreases s.len(),
{
    if s.len() > 0 && number_char(s[0]) {
        1 + number_length(s.drop_first())
    } else {
        0
    }
}

/// The first number of an impact.
pub open spec fn impact_number(s: Seq<char>) -> Seq<char> {
    let rest = s.skip(number_start(s) as int);
    rest.take(number_length(rest) as int)
}

/// What follows the first number of an impact and the white space behind it.
pub open spec fn impact_tail(s: Seq<char>) -> Seq<char> {
    let rest = s.skip(number_start(s) as int);
    text::trimmed_start(rest.skip(number_length(rest) as int))
}

/// Whether an impact counts microseconds per second.
pub open spec fn in_micros(s: Seq<char>) -> bool {
    text::starts(impact_tail(s), "us/s"@) || text::starts(impact_tail(s), "\u{b5}s/s"@)
}

/// Calls `regex::Regex::captures` with the pattern `([\d.]+)\s*(ms/s|[u\u{b5}]s/s)?`,
/// and hands out the number and the unit. The number is the longest at the leftmost
/// place; the unit is there where one of the three follows it behind white space.
#[verifier::external_body]
fn capture_impact(impact: &str) -> (r: Option<(String, Option<String>)>)
    ensures
        match r {
            None => number_start(impact@) == impact@.len(),
            Some((number, unit)) => {
                &&& number_start(impact@) < impact@.len()
                &&& number@ == impact_number(impact@)
                &&& match unit {
                    Some(u) => u@ == impact_tail(impact@).take(4) && (in_micros(impact@)
                        || text::starts(impact_tail(impact@), "ms/s"@)),
                    None => !in_micros(impact@) && !text::starts(impact_tail(impact@), "ms/s"@),
                }
            },
        },
{
    let pattern = regex::Regex::new("([\\d.]+)\\s*(ms/s|[u\u{b5}]s/s)?").unwrap();
    let found = pattern.captures(impact)?;
    let number = found.get(1).unwrap().as_str().to_string();
    Some((number, found.get(2).map(|m| m.as_str().to_string())))
}

/// The number by which impacts are compared: milliseconds per second, and zero
/// where the text has no number.
pub open spec fn impact_key(s: Seq<char>) -> Double {
    if number_start(s) == s.len() {
        double::whole(0)
    } else {
        match decimal::parsed(impact_number(s)) {
            None => double::whole(0),
            Some(value) => if in_micros(s) {
                double::quotient(value, double::whole(1000))
            } else {
                value
            },
        }
    }
}

/// The number by which impacts are compared. PowerTop writes small values in
/// microseconds per second, so those are brought to milliseconds first.
pub fn impact_sort_key(impact: &str) -> (r: Double)
    ensures
        r == impact_key(impact@),
{
    match capture_impact(impact) {
        None => Double::from_u64(0),
        Some((number, unit)) => match decimal::parse(text::characters(number.as_str()).as_slice()) {
            None => Double::from_u64(0),
            Some(value) => {
                let micros: bool = match unit {
                    Some(u) => {
                        proof {
                            reveal_strlit("us/s");
                            reveal_strlit("ms/s");
                            reveal_strlit("\u{b5}s/s");
                            assert("ms/s"@[0] == 'm');
                            assert("us/s"@[0] == 'u');
                            assert("\u{b5}s/s"@[0] == '\u{b5}');
                        }
                        text::same(u.as_str(), "us/s") || text::same(u.as_str(), "\u{b5}s/s")
                    },
                    None => false,
                };
                if micros {
                    value.over(Double::from_u64(1000))
                } else {
                    value
                }
            },
        },
    }
}

/// The process id in a description, and the description without it.
pub open spec fn split_description(s: Seq<char>) -> (Option<Seq<char>>, Seq<char>) {
    if exists|at: int, count: int| first_pid(s, at, count) {
        let (at, count) = choose|at: int, count: int| first_pid(s, at, count);
        (
            Some(s.subrange(at + 5, at + 5 + count)),
            text::trimmed(s.take(at) + s.skip(at + 6 + count)),
        )
    } else {
        (None, s)
    }
}

proof fn lemma_first_pid_unique(s: Seq<char>, a: int, m: int, b: int, n: int)
    requires
        first_pid(s, a, m),
        first_pid(s, b, n),
    ensures
        a == b,
        m == n,
{
    assert(a == b) by {
        if a < b {
            assert(!pid_at(s, a, m));
        }
        if b < a {
            assert(!pid_at(s, b, n));
        }
    }
    if m < n {
        assert(regex_digit(s[a + 5 + m]));
    }
    if n < m {
        assert(regex_digit(s[a + 5 + n]));
    }
}

/// The category of a row: its last but one cell, where it has three.
pub open spec fn row_category(cells: Seq<Seq<char>>) -> Seq<char> {
    if cells.len() >= 3 {
        cells[cells.len() - 2]
    } else {
        seq![]
    }
}

/// The process of one row of the report: those of the category `Process` only.
pub open spec fn powertop_row(cells: Seq<Seq<char>>) -> Option<PowerTopRow> {
    if cells.len() >= 2 && text::unicode_lowercase(text::trimmed(row_category(cells)))
        == "process"@ {
        let (pid, name) = split_description(cells.last());
        Some(PowerTopRow { pid, name, impact: cells[0], category: row_category(cells) })
    } else {
        None
    }
}

/// The processes of the rows that have one.
pub open spec fn powertop_rows(rows: Seq<Seq<Seq<char>>>) -> Seq<PowerTopRow>
    decreases rows.len(),
{
    if rows.len() == 0 {
        seq![]
    } else {
        match powertop_row(rows[0]) {
            Some(row) => seq![row] + powertop_rows(rows.drop_first()),
            None => powertop_rows(rows.drop_first()),
        }
    }
}

/// A process with the number that it is ordered by.
pub struct Keyed {
    /// The number that the process is ordered by.
    pub key: Double,
    /// The process.
    pub process: PowerTopProcess,
}

impl View for Keyed {
    type V = (Double, PowerTopRow);

    open spec fn view(&self) -> (Double, PowerTopRow) {
        (self.key, self.process@)
    }
}

impl Ranked for Keyed {
    open spec fn before(a: (Double, PowerTopRow), b: (Double, PowerTopRow)) -> bool {
        b.0.less(a.0)
    }

    open spec fn placeable(a: (Double, PowerTopRow)) -> bool {
        !a.0.nan()
    }

    fn precedes(&self, other: &Self) -> (r: bool) {
        other.key.lt(self.key)
    }

    proof fn lemma_order(
        a: (Double, PowerTopRow),
        b: (Double, PowerTopRow),
        c: (Double, PowerTopRow),
    ) {
    }
}

/// Rows, each with its impact.
pub open spec fn keyed(rows: Seq<PowerTopRow>) -> Seq<(Double, PowerTopRow)> {
    Seq::new(rows.len(), |i: int| (impact_key(rows[i].impact), rows[i]))
}

/// The first `limit` of `rows` by falling impact, those of one impact as they
/// stood.
pub open spec fn by_impact(rows: Seq<PowerTopRow>, limit: nat) -> Seq<PowerTopRow> {
    let order = rank::ranked::<Keyed>(keyed(rows));
    let count = if limit < order.len() {
        limit
    } else {
        order.len()
    };
    Seq::new(count, |i: int| order[i].1)
}

/// The processes that a report names, by falling impact.
pub open spec fn report_processes(html: Seq<char>, limit: nat) -> Seq<PowerTopRow> {
    by_impact(powertop_rows(html::table_rows(html)), limit)
}

fn read_powertop_row(cells: &Vec<Vec<char>>) -> (r: Option<PowerTopProcess>)
    ensures
        match powertop_row(text::views(cells@)) {
            Some(row) => r matches Some(p) && p@ == row,
            None => r is None,
        },
{
    let n: usize = cells.len();
    let ghost all = text::views(cells@);
    if n < 2 {
        return None;
    }
    let category: String = if n >= 3 {
        text::string_of(cells[n - 2].as_slice())
    } else {
        String::new()
    };
    assert(category@ =~= row_category(all));
    let word: Vec<char> = text::trim(text::characters(category.as_str()).as_slice());
    let low: String = text::lower_case(text::string_of(word.as_slice()).as_str());
    if !text::same(low.as_str(), "process") {
        return None;
    }
    let description: String = text::string_of(cells[n - 1].as_slice());
    let impact: String = text::string_of(cells[0].as_slice());
    match capture_pid(description.as_str()) {
        Some((front, pid, back)) => {
            let mut whole: Vec<char> = text::characters(front.as_str());
            text::add(&mut whole, back.as_str());
            let name: String = text::string_of(text::trim(whole.as_slice()).as_slice());
            proof {
                let s = description@;
                let a = front@.len() as int;
                let m = pid@.len() as int;
                let (b, k) = choose|b: int, k: int| first_pid(s, b, k);
                lemma_first_pid_unique(s, a, m, b, k);
            }
            Some(PowerTopProcess { pid: Some(pid), name, impact, category })
        },
        None => {
            proof {
                if exists|b: int, k: int| first_pid(description@, b, k) {
                    let (b, k) = choose|b: int, k: int| first_pid(description@, b, k);
                    assert(!pid_at(description@, b, k));
                }
            }
            Some(PowerTopProcess { pid: None, name: description, impact, category })
        },
    }
}

impl Clone for PowerTopProcess {
    fn clone(&self) -> (r: PowerTopProcess)
        ensures
            r@ == self@,
    {
        PowerTopProcess {
            pid: match &self.pid {
                Some(p) => Some(p.clone()),
                None => None,
            },
            name: self.name.clone(),
            impact: self.impact.clone(),
            category: self.category.clone(),
        }
    }
}

/// The first `limit` of `rows` by falling impact.
fn order_by_impact(rows: &Vec<PowerTopProcess>, limit: usize) -> (r: Vec<PowerTopProcess>)
    ensures
        powertop_views(r@) == by_impact(powertop_views(rows@), limit as nat),
{
    let ghost all = powertop_views(rows@);
    let mut items: Vec<Keyed> = Vec::new();
    let mut i: usize = 0;
    while i < rows.len()
        invariant
            i <= rows.len(),
            all == powertop_views(rows@),
            rank::views(items@) =~= keyed(all).take(i as int),
        decreases rows.len() - i,
    {
        let key: Double = impact_sort_key(rows[i].impact.as_str());
        let item: Keyed = Keyed { key, process: rows[i].clone() };
        assert(item@ == keyed(all)[i as int]);
        let ghost before = rank::views(items@);
        items.push(item);
        assert(rank::views(items@) =~= before.push(item@));
        i = i + 1;
    }
    assert(rank::views(items@) =~= keyed(all));
    let order: Vec<Keyed> = rank::rank(items);
    let count: usize = if limit < order.len() {
        limit
    } else {
        order.len()
    };
    let mut out: Vec<PowerTopProcess> = Vec::new();
    let mut j: usize = 0;
    while j < count
        invariant
            j <= count <= order.len(),
            out@.len() == j,
            forall|k: int| 0 <= k < j ==> (#[trigger] out@[k])@ == rank::views(order@)[k].1,
        decreases count - j,
    {
        out.push(order[j].process.clone());
        j = j + 1;
    }
    assert(powertop_views(out@) =~= by_impact(all, limit as nat));
    out
}

/// Reads the table of software power consumers in a report that
/// `powertop --html` wrote: the rows of the category `Process`, by falling impact,
/// at most `limit` of them. No rows where the report could not be read.
pub fn parse_powertop_html(report: Option<&str>, limit: usize) -> (r: Vec<PowerTopProcess>)
    ensures
        powertop_views(r@) == match report {
            Some(s) => report_processes(s@, limit as nat),
            None => seq![],
        },
{
    let mut rows: Vec<PowerTopProcess> = Vec::new();
    match report {
        None => {
            assert(powertop_views(rows@) =~= seq![]);
            rows
        },
        Some(s) => {
            let raw: Vec<Vec<Vec<char>>> = html::extract_table_rows(
                text::characters(s).as_slice(),
            );
            let ghost all = html::table_rows(s@);
            let mut i: usize = 0;
            assert(all.skip(0) =~= all);
            assert(powertop_views(rows@) =~= seq![]);
            assert(all.len() == raw@.len());
            while i < raw.len()
                invariant
                    i <= raw.len(),
                    all == html::row_views(raw@),
                    powertop_rows(all) == powertop_views(rows@) + powertop_rows(
                        all.skip(i as int),
                    ),
                decreases raw.len() - i,
            {
                let ghost before = rows@;
                let ghost tail = all.skip(i as int);
                assert(tail[0] == text::views(raw@[i as int]@));
                assert(tail.drop_first() =~= all.skip(i + 1));
                let row: Option<PowerTopProcess> = read_powertop_row(&raw[i]);
                i = i + 1;
                if let Some(p) = row {
                    rows.push(p);
                    proof {
                        let later = powertop_rows(all.skip(i as int));
                        assert(powertop_views(rows@) =~= powertop_views(before).push(p@));
                        assert(powertop_views(before) + (seq![p@] + later) =~= powertop_views(
                            rows@,
                        ) + later);
                    }
                }
            }
            assert(powertop_rows(all.skip(i as int)) =~= seq![]);
            assert(powertop_views(rows@) + seq![] =~= powertop_views(rows@));
            order_by_impact(&rows, limit)
        },
    }
}

proof fn lemma_number_length(s: Seq<char>)
    ensures
        number_length(s) <= s.len(),
        forall|i: int| 0 <= i < number_length(s) ==> number_char(#[trigger] s[i]),
        s.len() > 0 && number_char(s[0]) ==> number_length(s) > 0,
    decreases s.len(),
{
    if s.len() > 0 && number_char(s[0]) {
        lemma_number_length(s.drop_first());
        assert forall|i: int| 0 <= i < number_length(s) implies number_char(#[trigger] s[i]) by {
            if i > 0 {
                assert(s[i] == s.drop_first()[i - 1]);
            }
        }
    }
}

proof fn lemma_number_start(s: Seq<char>)
    ensures
        number_start(s) <= s.len(),
        number_start(s) < s.len() ==> number_char(s[number_start(s) as int]),
    decreases s.len(),
{
    if s.len() > 0 && !number_char(s[0]) {
        lemma_number_start(s.drop_first());
    }
}

/// Every impact has a place in the order.
pub proof fn lemma_impact_key(s: Seq<char>)
    ensures
        !impact_key(s).nan(),
        !impact_key(s).negative(),
{
    double::lemma_whole(0);
    double::lemma_whole(1000);
    lemma_number_start(s);
    if number_start(s) < s.len() {
        let rest = s.skip(number_start(s) as int);
        lemma_number_length(rest);
        let t = impact_number(s);
        assert(rest[0] == s[number_start(s) as int]);
        assert forall|i: int| 0 <= i < t.len() implies number_char(#[trigger] t[i]) by {
            assert(t[i] == rest[i]);
        }
        assert(t.len() > 0);
        assert(number_char(t[0]));
        if let Some(v) = decimal::parsed(t) {
            reveal_strlit("inf");
            reveal_strlit("infinity");
            reveal_strlit("nan");
            let word = text::ascii_lowercase(t);
            assert(word[0] == text::ascii_lower(t[0]));
            assert("inf"@[0] == 'i');
            assert("infinity"@[0] == 'i');
            assert("nan"@[0] == 'n');
            let digits = decimal::digits_value(decimal::significand(t));
            decimal::lemma_nearest_decimal(digits, decimal::scale(t));
            double::lemma_quotient(v, double::whole(1000));
        }
    }
}

/// Whether a row is of the category `Process`.
pub open spec fn is_process(row: PowerTopRow) -> bool {
    text::unicode_lowercase(text::trimmed(row.category)) == "process"@
}

proof fn lemma_powertop_rows(rows: Seq<Seq<Seq<char>>>)
    ensures
        forall|i: int|
            0 <= i < powertop_rows(rows).len() ==> is_process(#[trigger] powertop_rows(rows)[i]),
    decreases rows.len(),
{
    if rows.len() > 0 {
        let later = powertop_rows(rows.drop_first());
        lemma_powertop_rows(rows.drop_first());
        if let Some(row) = powertop_row(rows[0]) {
            let r = powertop_rows(rows);
            assert forall|i: int| 0 <= i < r.len() implies is_process(#[trigger] r[i]) by {
                if i > 0 {
                    assert(r[i] == later[i - 1]);
                }
            }
        }
    }
}

/// What stands in the order is one of the rows, with its impact.
proof fn lemma_ordered_row(rows: Seq<PowerTopRow>, i: int)
    requires
        0 <= i < rows.len(),
    ensures
        rank::ranked::<Keyed>(keyed(rows)).len() == rows.len(),
        rows.contains(rank::ranked::<Keyed>(keyed(rows))[i].1),
        rank::ranked::<Keyed>(keyed(rows))[i].0 == impact_key(
            rank::ranked::<Keyed>(keyed(rows))[i].1.impact,
        ),
{
    broadcast use vstd::seq_lib::group_to_multiset_ensures;

    let all = keyed(rows);
    let order = rank::ranked::<Keyed>(all);
    rank::law_rank_keeps_items::<Keyed>(all);
    assert(order.contains(order[i]));
    assert(order.to_multiset().count(order[i]) > 0);
    assert(all.contains(order[i]));
    let k = choose|k: int| 0 <= k < all.len() && all[k] == order[i];
    assert(rows[k] == order[i].1);
}

/// The processes of a report are those of the category `Process`, in falling order
/// of impact, and no more than were asked for.
pub proof fn law_report_is_ranked(html: Seq<char>, limit: nat)
    ensures
        report_processes(html, limit).len() <= limit,
        forall|i: int|
            0 <= i < report_processes(html, limit).len() ==> is_process(
                #[trigger] report_processes(html, limit)[i],
            ),
        forall|i: int, j: int|
            #![trigger report_processes(html, limit)[i], report_processes(html, limit)[j]]
            0 <= i < j < report_processes(html, limit).len() ==> impact_key(
                report_processes(html, limit)[j].impact,
            ).at_most(impact_key(report_processes(html, limit)[i].impact)),
{
    let rows = powertop_rows(html::table_rows(html));
    let r = report_processes(html, limit);
    let all = keyed(rows);
    let order = rank::ranked::<Keyed>(all);
    lemma_powertop_rows(html::table_rows(html));
    assert(rank::all_placeable::<Keyed>(all)) by {
        assert forall|i: int| 0 <= i < all.len() implies Keyed::placeable(#[trigger] all[i]) by {
            lemma_impact_key(rows[i].impact);
        }
    }
    rank::law_rank_orders::<Keyed>(all);
    rank::law_rank_keeps_items::<Keyed>(all);
    assert forall|i: int| 0 <= i < r.len() implies is_process(#[trigger] r[i]) by {
        lemma_ordered_row(rows, i);
        let k = choose|k: int| 0 <= k < rows.len() && rows[k] == r[i];
        assert(is_process(rows[k]));
    }
    assert forall|i: int, j: int|
        #![trigger r[i], r[j]]
        0 <= i < j < r.len() implies impact_key(r[j].impact).at_most(impact_key(r[i].impact)) by {
        lemma_ordered_row(rows, i);
        lemma_ordered_row(rows, j);
        assert(!Keyed::before(order[j], order[i]));
        lemma_impact_key(r[i].impact);
        lemma_impact_key(r[j].impact);
    }
}

/// The list of all rows, each with its impact, is the order of the rows.
proof fn lemma_order_keyed(rows: Seq<PowerTopRow>)
    ensures
        by_impact(rows, rows.len()).len() == rows.len(),
        keyed(by_impact(rows, rows.len())) == rank::ranked::<Keyed>(keyed(rows)),
{
    let order = rank::ranked::<Keyed>(keyed(rows));
    rank::law_rank_keeps_items::<Keyed>(keyed(rows));
    let list = keyed(by_impact(rows, rows.len()));
    assert forall|i: int| 0 <= i < rows.len() implies list[i] == order[i] by {
        lemma_ordered_row(rows, i);
    }
    assert(list =~= order);
}

/// A row occurs as often as it does with its impact.
proof fn lemma_keyed_count(rows: Seq<PowerTopRow>, row: PowerTopRow)
    ensures
        keyed(rows).to_multiset().count((impact_key(row.impact), row)) == rows.to_multiset().count(
            row,
        ),
    decreases rows.len(),
{
    broadcast use vstd::seq_lib::group_to_multiset_ensures;

    if rows.len() > 0 {
        let before = rows.drop_last();
        let last = rows.last();
        lemma_keyed_count(before, row);
        assert(rows =~= before.push(last));
        assert(keyed(rows) =~= keyed(before).push((impact_key(last.impact), last)));
    } else {
        assert(rows =~= seq![]);
        assert(keyed(rows) =~= seq![]);
    }
}

/// Every process row of a report stands in the list once for each time that it stands
/// in the report, and nothing else does, unless a limit cuts the list.
pub proof fn law_report_lists_every_process(html: Seq<char>)
    ensures
        ({
            let rows = powertop_rows(html::table_rows(html));
            report_processes(html, rows.len()).to_multiset() == rows.to_multiset()
        }),
{
    let rows = powertop_rows(html::table_rows(html));
    let list = report_processes(html, rows.len());
    lemma_order_keyed(rows);
    rank::law_rank_keeps_items::<Keyed>(keyed(rows));
    assert forall|row: PowerTopRow|
        list.to_multiset().count(row) == #[trigger] rows.to_multiset().count(row) by {
        lemma_keyed_count(rows, row);
        lemma_keyed_count(list, row);
    }
    assert(list.to_multiset() =~= rows.to_multiset());
}

/// A limit takes the first processes of the list: as many as it allows, or all.
pub proof fn law_report_limit_takes_the_first(html: Seq<char>, limit: nat)
    ensures
        ({
            let count = powertop_rows(html::table_rows(html)).len();
            report_processes(html, limit) == report_processes(html, count).take(
                if limit < count {
                    limit as int
                } else {
                    count as int
                },
            )
        }),
{
    let rows = powertop_rows(html::table_rows(html));
    let count = rows.len();
    rank::law_rank_keeps_items::<Keyed>(keyed(rows));
    assert(report_processes(html, limit) =~= report_processes(html, count).take(
        if limit < count {
            limit as int
        } else {
            count as int
        },
    ));
}

/// Whether two rows have the same impact.
pub open spec fn same_impact(a: PowerTopRow, b: PowerTopRow) -> bool {
    impact_key(a.impact).equals(impact_key(b.impact))
}

proof fn lemma_keyed_filter(rows: Seq<PowerTopRow>, like: PowerTopRow)
    ensures
        keyed(rows).filter(
            |x: (Double, PowerTopRow)| rank::tied::<Keyed>(x, (impact_key(like.impact), like)),
        ) == keyed(rows.filter(|r: PowerTopRow| same_impact(r, like))),
    decreases rows.len(),
{
    let p = |x: (Double, PowerTopRow)| rank::tied::<Keyed>(x, (impact_key(like.impact), like));
    let q = |r: PowerTopRow| same_impact(r, like);
    reveal(Seq::filter);
    if rows.len() > 0 {
        let before = rows.drop_last();
        let last = rows.last();
        lemma_keyed_filter(before, like);
        lemma_impact_key(like.impact);
        lemma_impact_key(last.impact);
        assert(keyed(rows).drop_last() =~= keyed(before));
        assert(keyed(rows).last() == (impact_key(last.impact), last));
        assert(p(keyed(rows).last()) == q(last));
        let kept = before.filter(q);
        if q(last) {
            assert(keyed(kept.push(last)) =~= keyed(kept).push((impact_key(last.impact), last)));
        }
    } else {
        assert(keyed(rows).filter(p) =~= keyed(rows.filter(q)));
    }
}

/// Processes of the same impact stand in the order in which the report names them.
pub proof fn law_report_keeps_ties_in_order(html: Seq<char>, like: PowerTopRow)
    ensures
        ({
            let rows = powertop_rows(html::table_rows(html));
            report_processes(html, rows.len()).filter(|r: PowerTopRow| same_impact(r, like))
                == rows.filter(|r: PowerTopRow| same_impact(r, like))
        }),
{
    let rows = powertop_rows(html::table_rows(html));
    let list = report_processes(html, rows.len());
    let all = keyed(rows);
    assert(rank::all_placeable::<Keyed>(all)) by {
        assert forall|i: int| 0 <= i < all.len() implies Keyed::placeable(#[trigger] all[i]) by {
            lemma_impact_key(rows[i].impact);
        }
    }
    lemma_impact_key(like.impact);
    rank::law_rank_is_stable::<Keyed>(all, (impact_key(like.impact), like));
    lemma_order_keyed(rows);
    lemma_keyed_filter(rows, like);
    lemma_keyed_filter(list, like);
    let a = list.filter(|r: PowerTopRow| same_impact(r, like));
    let b = rows.filter(|r: PowerTopRow| same_impact(r, like));
    assert(keyed(a) == keyed(b));
    assert(a.len() == keyed(a).len() && b.len() == keyed(b).len());
    assert forall|i: int| 0 <= i < a.len() implies a[i] == b[i] by {
        assert(keyed(a)[i].1 == a[i] && keyed(b)[i].1 == b[i]);
    }
    assert(a =~= b);
}

/// Whether `row` is the process that the cells of a row name: the first cell is its
/// impact, the last but one its category, and the last one its name, with its process id
/// taken out where there is one.
pub open spec fn names_process(cells: Seq<Seq<char>>, row: PowerTopRow) -> bool {
    let n = cells.len();
    &&& n >= 3
    &&& text::unicode_lowercase(text::trimmed(cells[n - 2])) == "process"@
    &&& row.impact == cells[0]
    &&& row.category == cells[n - 2]
    &&& (row.pid, row.name) == split_description(cells[n - 1])
}

/// A row of three cells or more whose last but one cell is `Process`, in any case and
/// with white space around it, names one process, however many cells lie between: with
/// the first cell as its impact, and named by the last cell. Any other row names none.
pub proof fn law_process_rows_name_a_process(cells: Seq<Seq<char>>)
    ensures
        ({
            let n = cells.len();
            let found = powertop_rows(seq![cells]);
            &&& n >= 3 && text::unicode_lowercase(text::trimmed(cells[n - 2])) == "process"@ ==> {
                &&& found.len() == 1
                &&& found[0].impact == cells[0]
                &&& found[0].category == cells[n - 2]
                &&& found[0].pid == split_description(cells[n - 1]).0
                &&& found[0].name == split_description(cells[n - 1]).1
            }
            &&& n >= 3 && text::unicode_lowercase(text::trimmed(cells[n - 2])) != "process"@
                ==> found.len() == 0
        }),
{
    reveal_with_fuel(powertop_rows, 2);
    assert(seq![cells].drop_first() =~= seq![]);
}

/// The processes of rows that follow each other are those of the first ones, followed by
/// those of the others.
pub proof fn law_rows_add_up(front: Seq<Seq<Seq<char>>>, back: Seq<Seq<Seq<char>>>)
    ensures
        powertop_rows(front + back) == powertop_rows(front) + powertop_rows(back),
    decreases front.len(),
{
    if front.len() == 0 {
        assert(front + back =~= back);
        assert(powertop_rows(front) + powertop_rows(back) =~= powertop_rows(back));
    } else {
        law_rows_add_up(front.drop_first(), back);
        assert((front + back).drop_first() =~= front.drop_first() + back);
        assert((front + back)[0] == front[0]);
        assert(powertop_rows(front + back) =~= powertop_rows(front) + powertop_rows(back));
    }
}

/// Every process row of the table in a report is on the list, and every process on the
/// list has such a row.
pub proof fn law_the_list_is_that_of_the_table(html: Seq<char>, i: int, k: int)
    ensures
        ({
            let table = html::table_rows(html);
            let list = report_processes(html, powertop_rows(table).len());
            &&& 0 <= i < table.len() && table[i].len() >= 3 && text::unicode_lowercase(
                text::trimmed(table[i][table[i].len() - 2]),
            ) == "process"@ ==> exists|j: int|
                0 <= j < list.len() && names_process(table[i], #[trigger] list[j])
            &&& 0 <= k < list.len() && list[k].category.len() > 0 ==> exists|j: int|
                0 <= j < table.len() && names_process(#[trigger] table[j], list[k])
        }),
{
    broadcast use vstd::seq_lib::group_to_multiset_ensures;

    let table = html::table_rows(html);
    let rows = powertop_rows(table);
    let list = report_processes(html, rows.len());
    law_report_lists_every_process(html);
    if 0 <= i < table.len() && table[i].len() >= 3 && text::unicode_lowercase(
        text::trimmed(table[i][table[i].len() - 2]),
    ) == "process"@ {
        let m = lemma_row_of(table, i);
        assert(rows.contains(rows[m]));
        assert(rows.to_multiset().count(rows[m]) > 0);
        assert(list.contains(rows[m]));
        let j = choose|j: int| 0 <= j < list.len() && list[j] == rows[m];
        assert(names_process(table[i], list[j]));
    }
    if 0 <= k < list.len() && list[k].category.len() > 0 {
        assert(list.contains(list[k]));
        assert(list.to_multiset().count(list[k]) > 0);
        assert(rows.contains(list[k]));
        let m = choose|m: int| 0 <= m < rows.len() && rows[m] == list[k];
        let j = lemma_row_from(table, m);
        assert(names_process(table[j], list[k]));
    }
}

/// The place of the process of the row `i`.
proof fn lemma_row_of(table: Seq<Seq<Seq<char>>>, i: int) -> (m: int)
    requires
        0 <= i < table.len(),
        table[i].len() >= 3,
        text::unicode_lowercase(text::trimmed(table[i][table[i].len() - 2])) == "process"@,
    ensures
        0 <= m < powertop_rows(table).len(),
        names_process(table[i], powertop_rows(table)[m]),
    decreases table.len(),
{
    if i == 0 {
        0
    } else {
        let later = table.drop_first();
        assert(later[i - 1] == table[i]);
        let m = lemma_row_of(later, i - 1);
        if powertop_row(table[0]) is Some {
            assert(powertop_rows(table)[m + 1] == powertop_rows(later)[m]);
            m + 1
        } else {
            m
        }
    }
}

/// The row that names the process `m`, where that has a category.
proof fn lemma_row_from(table: Seq<Seq<Seq<char>>>, m: int) -> (j: int)
    requires
        0 <= m < powertop_rows(table).len(),
        powertop_rows(table)[m].category.len() > 0,
    ensures
        0 <= j < table.len(),
        names_process(table[j], powertop_rows(table)[m]),
    decreases table.len(),
{
    let later = table.drop_first();
    if powertop_row(table[0]) is Some {
        if m == 0 {
            0
        } else {
            assert(powertop_rows(table)[m] == powertop_rows(later)[m - 1]);
            let j = lemma_row_from(later, m - 1);
            assert(later[j] == table[j + 1]);
            j + 1
        }
    } else {
        let j = lemma_row_from(later, m);
        assert(later[j] == table[j + 1]);
        j + 1
    }
}

/// In a description that names a process id, `[PID ` with digits and a bracket behind it,
/// the digits of the first such place are the id, and the name is what stands around it.
/// A description without one is the name as it is.
pub proof fn law_process_ids_are_taken_out(s: Seq<char>, at: int, count: int)
    ensures
        first_pid(s, at, count) ==> {
            &&& split_description(s).0 == Some(s.subrange(at + 5, at + 5 + count))
            &&& split_description(s).1 == text::trimmed(s.take(at) + s.skip(at + 5 + count + 1))
        },
        (forall|i: int, n: int| !#[trigger] pid_at(s, i, n)) ==> split_description(s) == (
            None::<Seq<char>>,
            s,
        ),
        pid_at(s, at, count) ==> s.subrange(at, at + 5) == "[PID "@ && s[at + 5 + count] == ']'
            && count > 0,
{
    if first_pid(s, at, count) {
        let (b, n) = choose|b: int, n: int| first_pid(s, b, n);
        lemma_first_pid_unique(s, at, count, b, n);
    } else if forall|i: int, n: int| !#[trigger] pid_at(s, i, n) {
        if exists|b: int, n: int| first_pid(s, b, n) {
            let (b, n) = choose|b: int, n: int| first_pid(s, b, n);
            assert(!pid_at(s, b, n));
        }
    }
}

/// Whether `d` is made of digits and points, and not empty.
pub open spec fn plain_number(d: Seq<char>) -> bool {
    d.len() > 0 && forall|i: int|
        0 <= i < d.len() ==> decimal::is_digit(#[trigger] d[i]) || d[i] == '.'
}

/// What an impact is compared by: a number of milliseconds per second as it stands, one of
/// microseconds per second as a thousandth of that, and one without a unit as it stands.
pub proof fn law_impacts_are_brought_to_milliseconds(d: Seq<char>, value: Double)
    requires
        plain_number(d),
        decimal::parsed(d) == Some(value),
    ensures
        impact_key(d + " ms/s"@) == value,
        impact_key(d + " us/s"@) == double::quotient(value, double::whole(1000)),
        impact_key(d + " \u{b5}s/s"@) == double::quotient(value, double::whole(1000)),
        impact_key(d) == value,
{
    reveal_strlit(" ms/s");
    reveal_strlit(" us/s");
    reveal_strlit(" \u{b5}s/s");
    reveal_strlit("ms/s");
    reveal_strlit("us/s");
    reveal_strlit("\u{b5}s/s");
    lemma_impact_parts(d, " ms/s"@);
    lemma_impact_parts(d, " us/s"@);
    lemma_impact_parts(d, " \u{b5}s/s"@);
    lemma_impact_parts(d, seq![]);
    assert(d + seq![] =~= d);
    lemma_one_space(" ms/s"@);
    lemma_one_space(" us/s"@);
    lemma_one_space(" \u{b5}s/s"@);
    assert(" ms/s"@.drop_first() =~= "ms/s"@);
    assert(" us/s"@.drop_first() =~= "us/s"@);
    assert(" \u{b5}s/s"@.drop_first() =~= "\u{b5}s/s"@);
    assert("ms/s"@.take(4) =~= "ms/s"@ && "us/s"@.take(4) =~= "us/s"@ && "\u{b5}s/s"@.take(4)
        =~= "\u{b5}s/s"@);
    assert("ms/s"@[0] == 'm' && "us/s"@[0] == 'u' && "\u{b5}s/s"@[0] == '\u{b5}');
}

/// White space of one character is trimmed at the start.
proof fn lemma_one_space(s: Seq<char>)
    requires
        s.len() > 1,
        s[0] == ' ',
        !text::white_space(s[1]),
    ensures
        text::trimmed_start(s) == s.drop_first(),
{
    reveal_with_fuel(text::trimmed_start, 2);
    assert(s.drop_first()[0] == s[1]);
}

proof fn lemma_impact_parts(d: Seq<char>, tail: Seq<char>)
    requires
        plain_number(d),
        tail.len() > 0 ==> tail[0] == ' ',
    ensures
        number_start(d + tail) == 0,
        impact_number(d + tail) == d,
        impact_tail(d + tail) == text::trimmed_start(tail),
{
    let s = d + tail;
    assert(s[0] == d[0]);
    assert(s.skip(0) =~= s);
    lemma_plain_length(d, tail);
    assert(s.take(d.len() as int) =~= d);
    assert(s.skip(d.len() as int) =~= tail);
}

proof fn lemma_plain_length(d: Seq<char>, tail: Seq<char>)
    requires
        forall|i: int| 0 <= i < d.len() ==> decimal::is_digit(#[trigger] d[i]) || d[i] == '.',
        tail.len() > 0 ==> tail[0] == ' ',
    ensures
        number_length(d + tail) == d.len(),
    decreases d.len(),
{
    let s = d + tail;
    if d.len() > 0 {
        assert(s[0] == d[0]);
        assert(s.drop_first() =~= d.drop_first() + tail);
        assert forall|i: int| 0 <= i < d.drop_first().len() implies decimal::is_digit(
            #[trigger] d.drop_first()[i],
        ) || d.drop_first()[i] == '.' by {
            assert(d.drop_first()[i] == d[i + 1]);
        }
        lemma_plain_length(d.drop_first(), tail);
    } else {
        assert(s =~= tail);
    }
}

/// A line of `ps` names a process where it has five words and the third and the fourth are
/// numbers: the first is the process id, the second the name, the third and fourth are the
/// shares of processor and memory, and the last is the time that it runs.
pub proof fn law_ps_lines_name_a_process(line: Seq<char>)
    ensures
        ({
            let w = text::words(line);
            let found = cpu_rows(seq![line], 1);
            &&& w.len() == 5 && decimal::parsed(w[2]) is Some && decimal::parsed(w[3]) is Some ==> {
                &&& found.len() == 1
                &&& found[0].pid == w[0]
                &&& found[0].name == w[1]
                &&& found[0].cpu_percent == decimal::fixed(decimal::parsed(w[2])->0, 1) + "%"@
                &&& found[0].mem_percent == decimal::fixed(decimal::parsed(w[3])->0, 1) + "%"@
                &&& found[0].runtime == w[4]
            }
            &&& w.len() != 5 || decimal::parsed(w[2]) is None || decimal::parsed(w[3]) is None
                ==> found.len() == 0
        }),
{
    reveal_with_fuel(cpu_rows, 2);
    assert(seq![line].drop_first() =~= seq![]);
}

/// The processes of lines that follow each other stand in the order of the lines, and a
/// limit takes the first ones: as many as it allows, or all.
pub proof fn law_ps_lines_stay_in_order(
    front: Seq<Seq<char>>,
    back: Seq<Seq<char>>,
    limit: nat,
)
    ensures
        ({
            let n = front.len() + back.len();
            let all = cpu_rows(front, n) + cpu_rows(back, n);
            cpu_rows(front + back, limit) == all.take(
                if limit < all.len() {
                    limit as int
                } else {
                    all.len() as int
                },
            )
        }),
    decreases front.len() + back.len(),
{
    let n = front.len() + back.len();
    let all = cpu_rows(front, n) + cpu_rows(back, n);
    lemma_cpu_limit(front, n);
    lemma_cpu_limit(back, n);
    lemma_cpu_limit(front + back, limit);
    lemma_cpu_joined(front, back, n);
    lemma_cpu_limit(front + back, n);
    let whole = cpu_rows(front + back, n);
    assert(whole.take(whole.len() as int) =~= whole);
}

proof fn lemma_cpu_limit(lines: Seq<Seq<char>>, limit: nat)
    ensures
        cpu_rows(lines, lines.len()).len() <= lines.len(),
        forall|n: nat|
            n >= lines.len() ==> #[trigger] cpu_rows(lines, n) == cpu_rows(lines, lines.len()),
        cpu_rows(lines, limit) == cpu_rows(lines, lines.len()).take(
            if limit < cpu_rows(lines, lines.len()).len() {
                limit as int
            } else {
                cpu_rows(lines, lines.len()).len() as int
            },
        ),
    decreases lines.len(),
{
    let all = cpu_rows(lines, lines.len());
    if lines.len() == 0 {
        assert(cpu_rows(lines, limit) =~= all.take(0));
    } else {
        let later = lines.drop_first();
        let full = cpu_rows(later, later.len());
        lemma_cpu_limit(later, limit);
        if limit > 0 {
            lemma_cpu_limit(later, (limit - 1) as nat);
        }
        assert forall|n: nat| n >= lines.len() implies #[trigger] cpu_rows(lines, n) == all by {
            assert(cpu_rows(later, n) == full);
            assert(cpu_rows(later, (n - 1) as nat) == full);
            assert(cpu_rows(later, lines.len()) == full);
            assert(cpu_rows(later, (lines.len() - 1) as nat) == full);
        }
        assert(cpu_rows(later, lines.len()) == full);
        match cpu_row(lines[0]) {
            Some(row) => {
                assert(all == seq![row] + full);
                if limit > 0 {
                    let rest = cpu_rows(later, (limit - 1) as nat);
                    assert(cpu_rows(lines, limit) == seq![row] + rest);
                    assert(seq![row] + rest =~= all.take(
                        if limit < all.len() {
                            limit as int
                        } else {
                            all.len() as int
                        },
                    ));
                } else {
                    assert(cpu_rows(lines, limit) =~= all.take(0));
                }
            },
            None => {
                assert(all == full);
                if limit == 0 {
                    assert(cpu_rows(lines, limit) =~= all.take(0));
                }
            },
        }
    }
}

proof fn lemma_cpu_joined(front: Seq<Seq<char>>, back: Seq<Seq<char>>, n: nat)
    requires
        n >= front.len() + back.len(),
    ensures
        cpu_rows(front + back, n) == cpu_rows(front, n) + cpu_rows(back, n),
    decreases front.len(),
{
    if front.len() == 0 {
        assert(front + back =~= back);
        assert(cpu_rows(front, n) + cpu_rows(back, n) =~= cpu_rows(back, n));
    } else {
        let lines = front + back;
        let later = front.drop_first();
        assert(lines.drop_first() =~= later + back);
        assert(lines[0] == front[0]);
        lemma_cpu_limit(back, n);
        match cpu_row(front[0]) {
            Some(row) => {
                let m = (n - 1) as nat;
                lemma_cpu_joined(later, back, m);
                assert(cpu_rows(back, m) == cpu_rows(back, n));
                assert(cpu_rows(lines, n) =~= cpu_rows(front, n) + cpu_rows(back, n));
            },
            None => {
                lemma_cpu_joined(later, back, n);
            },
        }
    }
}

/// A limit on the list counts the rows, but lets one through where it is zero.
pub proof fn law_a_limit_counts_rows(limit: usize)
    ensures
        limit > 0 ==> cpu_limit(limit) == limit,
        limit == 0 ==> cpu_limit(limit) == 1,
{
}

/// The arguments for `pkexec` that make PowerTop write its report to `path` after
/// watching for `seconds`.
pub fn powertop_arguments(path: &[u8], seconds: u32) -> (r: Vec<String>)
    ensures
        r@.len() == 3,
        r@[0]@ == "powertop"@,
        r@[1]@ == "--html="@ + text::lossy(path@),
        r@[2]@ == "--time="@ + decimal::decimal(seconds as nat),
{
    let mut html: Vec<char> = text::characters("--html=");
    text::add(&mut html, text::decode(path).as_str());
    let mut time: Vec<char> = text::characters("--time=");
    text::add_all(&mut time, decimal::natural_text(seconds as u64));
    let mut out: Vec<String> = Vec::new();
    out.push("powertop".to_owned());
    out.push(text::string_of(html.as_slice()));
    out.push(text::string_of(time.as_slice()));
    out
}

/// The result of a PowerTop scan: the processes of the report, or why there is none.
pub fn run_powertop_scan(
    status: Result<bool, String>,
    report: Option<&str>,
    limit: usize,
) -> (r: Result<Vec<PowerTopProcess>, String>)
    ensures
        match command::outcome_text(
            command::status_view(status),
            "powertop"@,
            "powertop scan did not complete (cancelled or failed)"@,
        ) {
            Err(e) => r matches Err(m) && m@ == e,
            Ok(_) => r matches Ok(rows) && powertop_views(rows@) == match report {
                Some(s) => report_processes(s@, limit as nat),
                None => seq![],
            },
        },
{
    match command::outcome(
        status,
        "powertop",
        "powertop scan did not complete (cancelled or failed)",
    ) {
        Err(e) => Err(e),
        Ok(_) => Ok(parse_powertop_html(report, limit)),
    }
}

/// How an attempt to create a file went.
pub enum Creation {
    /// The file is new and open.
    Created,
    /// Something stands at its path already.
    Exists,
    /// Another error, with its text.
    Failed(String),
}

/// What to do after an attempt to create a temporary file.
pub enum TempStep {
    /// Use the file.
    Use,
    /// Try another name.
    Retry,
    /// Give up, with this message.
    Fail(String),
}

/// How many names are tried for a temporary file.
pub const TEMP_ATTEMPTS: u32 = 8;

/// What an attempt to create a file leads to.
pub enum TempChoice {
    /// The file is used.
    Use,
    /// Another name is tried.
    Retry,
    /// That is given up.
    Fail,
}

/// What follows attempt number `attempt`, counted from one.
pub open spec fn temp_choice(attempt: int, outcome: Creation) -> TempChoice {
    match outcome {
        Creation::Created => TempChoice::Use,
        Creation::Exists => if attempt < TEMP_ATTEMPTS {
            TempChoice::Retry
        } else {
            TempChoice::Fail
        },
        Creation::Failed(_) => TempChoice::Fail,
    }
}

/// A file is used where it was created, and only there. Where its path was taken another
/// name is tried, until eight were; any other error ends it at once.
pub proof fn law_only_new_files_are_used(attempt: int, outcome: Creation)
    ensures
        temp_choice(attempt, outcome) is Use <==> outcome is Created,
        outcome is Exists && attempt < 8 ==> temp_choice(attempt, outcome) is Retry,
        outcome is Exists && attempt >= 8 ==> temp_choice(attempt, outcome) is Fail,
        outcome is Failed ==> temp_choice(attempt, outcome) is Fail,
{
}

/// The next step after attempt number `attempt`, counted from one: a path that is
/// taken is never used, and another name is tried while attempts are left.
pub fn temp_step(attempt: u32, outcome: Creation) -> (r: TempStep)
    ensures
        r is Use <==> temp_choice(attempt as int, outcome) is Use,
        r is Retry <==> temp_choice(attempt as int, outcome) is Retry,
        r is Fail <==> temp_choice(attempt as int, outcome) is Fail,
        match outcome {
            Creation::Created => r is Use,
            Creation::Exists => if attempt < TEMP_ATTEMPTS {
                r is Retry
            } else {
                r matches TempStep::Fail(m) && m@ == "failed to allocate a unique temp path"@
            },
            Creation::Failed(e) => r matches TempStep::Fail(m) && m@
                == "failed to create temp file: "@ + e@,
        },
{
    match outcome {
        Creation::Created => TempStep::Use,
        Creation::Exists => if attempt < TEMP_ATTEMPTS {
            TempStep::Retry
        } else {
            TempStep::Fail("failed to allocate a unique temp path".to_owned())
        },
        Creation::Failed(e) => {
            let mut out: Vec<char> = text::characters("failed to create temp file: ");
            text::add(&mut out, e.as_str());
            TempStep::Fail(text::string_of(out.as_slice()))
        },
    }
}

/// A name for a temporary file that is hard to guess: the clock, the process id in
/// the upper half and an address, mixed and written in hexadecimal.
pub fn temp_file_name(prefix: &str, ext: &str, nanos: u128, process: u32, address: u128) -> (r:
    String)
    ensures
        r@ == prefix@ + "-"@ + decimal::hexadecimal(
            (nanos ^ ((process as u128) << 64u32) ^ address) as nat,
        ) + "."@ + ext@,
{
    let mixed: u128 = nanos ^ ((process as u128) << 64u32) ^ address;
    let mut out: Vec<char> = text::characters(prefix);
    text::add(&mut out, "-");
    text::add_all(&mut out, decimal::hexadecimal_text(mixed));
    text::add(&mut out, ".");
    text::add(&mut out, ext);
    text::string_of(out.as_slice())
}

} // verus!
