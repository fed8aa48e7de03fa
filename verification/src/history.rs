//! The history of readings: what is stored of them, and the charts made from it.

use crate::decimal;
use crate::double;
use crate::double::Double;
use crate::format::IntervalBin;
use crate::path;
use crate::reader;
use crate::reader::Reading;
use crate::statements;
use crate::steps;
use crate::text;
use vstd::prelude::*;

verus! {

/// How many days readings are kept where nothing else is configured.
pub const DEFAULT_RETENTION_DAYS: i64 = 35;

/// How times are written in the database.
pub const TS_FMT: &'static str = "%Y-%m-%dT%H:%M:%S";

/// The directory for the program's data, under the user's data directory, or under
/// the working directory where there is none.
pub open spec fn app_dir(data_dir: Option<Seq<u8>>) -> Seq<u8> {
    path::under(
        match data_dir {
            Some(d) => d,
            None => path::bytes("."@),
        },
        "battery-monitor"@,
    )
}

/// An optional path by its bytes.
pub open spec fn path_view(p: Option<Vec<u8>>) -> Option<Seq<u8>> {
    match p {
        Some(v) => Some(v@),
        None => None,
    }
}

/// The directory for the program's data.
pub(crate) fn app_directory(data_dir: &Option<Vec<u8>>) -> (r: Vec<u8>)
    ensures
        r@ == app_dir(path_view(*data_dir)),
{
    match data_dir {
        Some(d) => path::join_name(d.as_slice(), "battery-monitor"),
        None => path::join_name(path::bytes_of(".").as_slice(), "battery-monitor"),
    }
}

/// Where the history database is; `data_dir` is the user's data directory.
pub fn default_db_path(data_dir: &Option<Vec<u8>>) -> (r: Vec<u8>)
    ensures
        r@ == path::under(app_dir(path_view(*data_dir)), "battery_history.db"@),
{
    path::join_name(app_directory(data_dir).as_slice(), "battery_history.db")
}

/// What is stored of a reading.
#[derive(Debug, PartialEq)]
pub struct StoredReading {
    /// When the reading was taken.
    pub timestamp: String,
    /// Status.
    pub status: String,
    /// Charge in percent.
    pub capacity: Option<Double>,
    /// Voltage in volts.
    pub voltage: Option<Double>,
    /// Current in amperes.
    pub current_a: Option<Double>,
    /// Power in watts.
    pub power_w: Option<Double>,
    /// Temperature in degrees Celsius.
    pub temperature_c: Option<Double>,
    /// Present charge in ampere hours.
    pub charge_now_ah: Option<Double>,
}

/// The health of a month.
#[derive(Debug, PartialEq)]
pub struct HealthSnapshot {
    /// The month, as year and month.
    pub month: String,
    /// When the health was read.
    pub timestamp: String,
    /// Health in percent.
    pub health_percent: Double,
}

/// Whether `row` is what is stored of the reading `r` that was taken at `timestamp`.
pub open spec fn stores(row: StoredReading, r: reader::ReadingView, timestamp: Seq<char>) -> bool {
    &&& row.timestamp@ == timestamp
    &&& row.status@ == r.status
    &&& row.capacity == r.capacity
    &&& row.voltage == r.voltage
    &&& row.current_a == r.current_a
    &&& row.power_w == r.power
    &&& row.temperature_c == r.temperature
    &&& row.charge_now_ah == r.charge_now
}

/// What is stored of the health: the month, the time and the health in percent.
pub open spec fn health_stored(
    r: reader::ReadingView,
    timestamp: Seq<char>,
    month: Seq<char>,
) -> Option<(Seq<char>, Seq<char>, Double)> {
    match r.health {
        Some(h) => Some((month, timestamp, h)),
        None => None,
    }
}

/// The health of a month is stored where the reading knows it, with the time of the
/// reading, and otherwise nothing is.
pub proof fn law_known_health_is_stored(
    r: reader::ReadingView,
    timestamp: Seq<char>,
    month: Seq<char>,
)
    ensures
        r.health is Some <==> health_stored(r, timestamp, month) is Some,
        health_stored(r, timestamp, month) matches Some(s) ==> s.0 == month && s.1 == timestamp
            && Some(s.2) == r.health,
{
}

/// What to store of a reading that was taken at `timestamp`, in `month`: always a
/// row, and the health of the month where it is known.
pub fn save(r: &Reading, timestamp: &str, month: &str) -> (out: (
    StoredReading,
    Option<HealthSnapshot>,
))
    ensures
        stores(out.0, r@, timestamp@),
        (match out.1 {
            Some(s) => Some((s.month@, s.timestamp@, s.health_percent)),
            None => None,
        }) == health_stored(r@, timestamp@, month@),
        match r.health {
            Some(h) => out.1 matches Some(s) && s.month@ == month@ && s.timestamp@ == timestamp@
                && s.health_percent == h,
            None => out.1 is None,
        },
{
    let row: StoredReading = StoredReading {
        timestamp: timestamp.to_owned(),
        status: r.status.clone(),
        capacity: r.capacity,
        voltage: r.voltage,
        current_a: r.current_a,
        power_w: r.power,
        temperature_c: r.temperature,
        charge_now_ah: r.charge_now,
    };
    let snapshot: Option<HealthSnapshot> = match r.health {
        Some(h) => Some(
            HealthSnapshot {
                month: month.to_owned(),
                timestamp: timestamp.to_owned(),
                health_percent: h,
            },
        ),
        None => None,
    };
    (row, snapshot)
}

/// How the rows of a chart are asked for.
#[derive(Debug, PartialEq)]
pub enum GraphQuery {
    /// Each reading.
    Rows,
    /// The readings averaged over spans of that many seconds.
    Spans(Double),
}

/// How a chart of at most about `max_points` points over the last `seconds` is asked
/// for, of which there are `count` readings: each reading, or the means over as many
/// spans, none shorter than a second.
pub open spec fn chart_query(count: int, seconds: int, max_points: int) -> GraphQuery {
    if count <= max_points {
        GraphQuery::Rows
    } else {
        GraphQuery::Spans(
            steps::at_least_one(
                double::quotient(double::whole_signed(seconds), double::whole_signed(max_points)),
            ),
        )
    }
}

impl GraphQuery {
    /// How to ask for a chart of at most about `max_points` points over the last
    /// `seconds`, of which there are `count` readings.
    pub fn new(count: i64, seconds: i64, max_points: i64) -> (r: GraphQuery)
        ensures
            r == chart_query(count as int, seconds as int, max_points as int),
    {
        if count <= max_points {
            return GraphQuery::Rows;
        }
        let one: Double = Double::from_u64(1);
        let wide: Double = Double::from_i64(seconds).over(Double::from_i64(max_points));
        if wide.is_nan() || wide.lt(one) {
            GraphQuery::Spans(one)
        } else {
            GraphQuery::Spans(wide)
        }
    }

    /// The statement that asks for the rows; the first parameter is the time from
    /// which on, the second the span in seconds.
    pub fn statement(&self) -> (r: &'static str)
        ensures
            r@ == match self {
                GraphQuery::Rows => statements::ROWS_SINCE@,
                GraphQuery::Spans(_) => statements::SPANS_SINCE@,
            },
    {
        match self {
            GraphQuery::Rows => statements::ROWS_SINCE,
            GraphQuery::Spans(_) => statements::SPANS_SINCE,
        }
    }
}

/// At most about `max_points` rows make a chart. Where each reading is asked for, there
/// are no more. Where spans are, each second of the window falls into one whose number
/// is at most `max_points + 1`. (This holds of any number of readings up to 2^52, more
/// than a database holds.)
pub proof fn law_charts_have_few_points(count: int, seconds: int, max_points: int, t: int)
    requires
        0 <= count <= double::STEP,
        0 <= seconds <= i64::MAX,
        1 <= max_points,
        0 <= t <= seconds,
    ensures
        match chart_query(count, seconds, max_points) {
            GraphQuery::Rows => count <= max_points,
            GraphQuery::Spans(w) => steps::span_number(t as nat, w) <= max_points + 1,
        },
{
    if count > max_points {
        assert(double::whole_signed(seconds) == double::whole(seconds as nat));
        assert(double::whole_signed(max_points) == double::whole(max_points as nat));
        steps::law_spans_are_few(seconds as nat, max_points as nat, t as nat);
    }
}

/// A row of the history.
#[derive(Debug, PartialEq)]
pub struct GraphRow {
    /// When the reading was taken.
    pub timestamp: String,
    /// Voltage in volts.
    pub voltage: Option<Double>,
    /// Current in amperes.
    pub current_a: Option<Double>,
    /// Power in watts.
    pub power_w: Option<Double>,
    /// Temperature in degrees Celsius.
    pub temperature_c: Option<Double>,
    /// Charge in percent.
    pub capacity: Option<Double>,
    /// Status.
    pub status: String,
}

/// The series of a chart, all of one length.
#[derive(Debug)]
pub struct GraphData {
    /// Seconds since the epoch.
    pub timestamps: Vec<Double>,
    /// Voltage in volts.
    pub voltage: Vec<Double>,
    /// Current in milliamperes.
    pub current_ma: Vec<Double>,
    /// Power in watts.
    pub power: Vec<Double>,
    /// Temperature in degrees Celsius.
    pub temperature: Vec<Double>,
    /// Charge in percent.
    pub capacity: Vec<Double>,
    /// Status.
    pub status: Vec<String>,
}

/// A [`GraphData`] by its series.
#[verifier::ext_equal]
pub struct GraphView {
    /// Seconds since the epoch.
    pub timestamps: Seq<Double>,
    /// Voltage in volts.
    pub voltage: Seq<Double>,
    /// Current in milliamperes.
    pub current_ma: Seq<Double>,
    /// Power in watts.
    pub power: Seq<Double>,
    /// Temperature in degrees Celsius.
    pub temperature: Seq<Double>,
    /// Charge in percent.
    pub capacity: Seq<Double>,
    /// Status.
    pub status: Seq<Seq<char>>,
}

impl View for GraphData {
    type V = GraphView;

    open spec fn view(&self) -> GraphView {
        GraphView {
            timestamps: self.timestamps@,
            voltage: self.voltage@,
            current_ma: self.current_ma@,
            power: self.power@,
            temperature: self.temperature@,
            capacity: self.capacity@,
            status: text::texts(self.status@),
        }
    }
}

/// A chart without points.
pub open spec fn no_points() -> GraphView {
    GraphView {
        timestamps: seq![],
        voltage: seq![],
        current_ma: seq![],
        power: seq![],
        temperature: seq![],
        capacity: seq![],
        status: seq![],
    }
}

impl Default for GraphData {
    fn default() -> (r: GraphData)
        ensures
            r@ == no_points(),
    {
        let r: GraphData = GraphData {
            timestamps: Vec::new(),
            voltage: Vec::new(),
            current_ma: Vec::new(),
            power: Vec::new(),
            temperature: Vec::new(),
            capacity: Vec::new(),
            status: Vec::new(),
        };
        assert(r@ =~= no_points());
        r
    }
}

impl Clone for GraphData {
    fn clone(&self) -> (r: GraphData)
        ensures
            r@ == self@,
    {
        let mut status: Vec<String> = Vec::new();
        let mut i: usize = 0;
        while i < self.status.len()
            invariant
                i <= self.status@.len(),
                text::texts(status@) =~= text::texts(self.status@).take(i as int),
            decreases self.status@.len() - i,
        {
            let ghost before = text::texts(status@);
            status.push(self.status[i].clone());
            assert(text::texts(status@) =~= before.push(self.status@[i as int]@));
            i = i + 1;
        }
        let r: GraphData = GraphData {
            timestamps: self.timestamps.clone(),
            voltage: self.voltage.clone(),
            current_ma: self.current_ma.clone(),
            power: self.power.clone(),
            temperature: self.temperature.clone(),
            capacity: self.capacity.clone(),
            status,
        };
        assert(r@ =~= self@);
        r
    }
}

/// The last value that is known, scaled; zero where none is.
pub open spec fn last_known(values: Seq<Option<Double>>, scale: Double) -> Double
    decreases values.len(),
{
    if values.len() == 0 {
        double::whole(0)
    } else {
        match values.last() {
            Some(v) => double::product(v, scale),
            None => last_known(values.drop_last(), scale),
        }
    }
}

/// The values scaled, each one that is not known replaced by the last that is.
pub open spec fn filled(values: Seq<Option<Double>>, scale: Double) -> Seq<Double> {
    Seq::new(values.len(), |i: int| last_known(values.take(i + 1), scale))
}

/// The values scaled, each one that is not known replaced by the last that is.
pub fn ffill(raw: &Vec<Option<Double>>, scale: Double) -> (r: Vec<Double>)
    ensures
        r@ == filled(raw@, scale),
{
    let mut out: Vec<Double> = Vec::new();
    let mut last: Double = Double::from_u64(0);
    let mut i: usize = 0;
    while i < raw.len()
        invariant
            i <= raw@.len(),
            last == last_known(raw@.take(i as int), scale),
            out@ =~= filled(raw@, scale).take(i as int),
        decreases raw@.len() - i,
    {
        assert(raw@.take(i + 1).drop_last() =~= raw@.take(i as int));
        if let Some(v) = raw[i] {
            last = v.times(scale);
        }
        out.push(last);
        i = i + 1;
    }
    out
}

/// The last time that is known, or `start` where none is.
pub open spec fn last_time(times: Seq<Option<i64>>, start: i64) -> i64
    decreases times.len(),
{
    if times.len() == 0 {
        start
    } else {
        match times.last() {
            Some(t) => t,
            None => last_time(times.drop_last(), start),
        }
    }
}

/// The times, each one that is not known replaced by the last that is.
pub open spec fn filled_times(times: Seq<Option<i64>>, start: i64) -> Seq<Double> {
    Seq::new(
        times.len(),
        |i: int| double::whole_signed(last_time(times.take(i + 1), start) as int),
    )
}

/// The times, each one that is not known replaced by the last that is, or by
/// `start` where none is.
pub fn fill_times(times: &Vec<Option<i64>>, start: i64) -> (r: Vec<Double>)
    ensures
        r@ == filled_times(times@, start),
{
    let mut out: Vec<Double> = Vec::new();
    let mut last: i64 = start;
    let mut i: usize = 0;
    while i < times.len()
        invariant
            i <= times@.len(),
            last == last_time(times@.take(i as int), start),
            out@ =~= filled_times(times@, start).take(i as int),
        decreases times@.len() - i,
    {
        assert(times@.take(i + 1).drop_last() =~= times@.take(i as int));
        if let Some(t) = times[i] {
            last = t;
        }
        out.push(Double::from_i64(last));
        i = i + 1;
    }
    out
}

/// The seconds from the epoch to the time, taken as universal time, that `text`
/// gives in `format`; nothing where it gives none.
pub uninterp spec fn seconds_in(text: Seq<char>, format: Seq<char>) -> Option<i64>;

/// Calls `chrono::NaiveDateTime::parse_from_str`, and `timestamp` on the time that it
/// finds. What it finds depends on the two texts alone; that is all that is claimed.
#[verifier::external_body]
fn parse_seconds(text: &str, format: &str) -> (r: Option<i64>)
    ensures
        r == seconds_in(text@, format@),
{
    match chrono::NaiveDateTime::parse_from_str(text, format) {
        Ok(time) => Some(time.and_utc().timestamp()),
        Err(_) => None,
    }
}

/// The times of rows.
pub open spec fn row_times(rows: Seq<GraphRow>) -> Seq<Option<i64>> {
    Seq::new(rows.len(), |i: int| seconds_in(rows[i].timestamp@, TS_FMT@))
}

/// The chart of rows, with their times given.
pub open spec fn graph_of(rows: Seq<GraphRow>, times: Seq<Option<i64>>, now: i64) -> GraphView {
    let one = double::whole(1);
    GraphView {
        timestamps: filled_times(times, now),
        voltage: filled(Seq::new(rows.len(), |i: int| rows[i].voltage), one),
        current_ma: filled(Seq::new(rows.len(), |i: int| rows[i].current_a), double::whole(1000)),
        power: filled(Seq::new(rows.len(), |i: int| rows[i].power_w), one),
        temperature: filled(Seq::new(rows.len(), |i: int| rows[i].temperature_c), one),
        capacity: filled(Seq::new(rows.len(), |i: int| rows[i].capacity), one),
        status: Seq::new(rows.len(), |i: int| rows[i].status@),
    }
}

/// The chart of rows whose times were read as `times`.
pub fn graph_series(rows: &Vec<GraphRow>, times: &Vec<Option<i64>>, now: i64) -> (r: GraphData)
    ensures
        r@ == graph_of(rows@, times@, now),
{
    let mut voltage: Vec<Option<Double>> = Vec::new();
    let mut current: Vec<Option<Double>> = Vec::new();
    let mut power: Vec<Option<Double>> = Vec::new();
    let mut temperature: Vec<Option<Double>> = Vec::new();
    let mut capacity: Vec<Option<Double>> = Vec::new();
    let mut status: Vec<String> = Vec::new();
    let mut i: usize = 0;
    while i < rows.len()
        invariant
            i <= rows@.len(),
            voltage@ =~= Seq::new(i as nat, |k: int| rows@[k].voltage),
            current@ =~= Seq::new(i as nat, |k: int| rows@[k].current_a),
            power@ =~= Seq::new(i as nat, |k: int| rows@[k].power_w),
            temperature@ =~= Seq::new(i as nat, |k: int| rows@[k].temperature_c),
            capacity@ =~= Seq::new(i as nat, |k: int| rows@[k].capacity),
            text::texts(status@) =~= Seq::new(i as nat, |k: int| rows@[k].status@),
        decreases rows@.len() - i,
    {
        let row: &GraphRow = &rows[i];
        voltage.push(row.voltage);
        current.push(row.current_a);
        power.push(row.power_w);
        temperature.push(row.temperature_c);
        capacity.push(row.capacity);
        let ghost before = text::texts(status@);
        status.push(row.status.clone());
        assert(text::texts(status@) =~= before.push(rows@[i as int].status@));
        i = i + 1;
    }
    let one: Double = Double::from_u64(1);
    let r: GraphData = GraphData {
        timestamps: fill_times(times, now),
        voltage: ffill(&voltage, one),
        current_ma: ffill(&current, Double::from_u64(1000)),
        power: ffill(&power, one),
        temperature: ffill(&temperature, one),
        capacity: ffill(&capacity, one),
        status,
    };
    assert(r@ =~= graph_of(rows@, times@, now));
    r
}

/// Reads the times of rows.
pub(crate) fn read_times(rows: &Vec<GraphRow>) -> (r: Vec<Option<i64>>)
    ensures
        r@ == row_times(rows@),
{
    let mut times: Vec<Option<i64>> = Vec::new();
    let mut i: usize = 0;
    while i < rows.len()
        invariant
            i <= rows@.len(),
            times@ =~= row_times(rows@).take(i as int),
        decreases rows@.len() - i,
    {
        times.push(parse_seconds(rows[i].timestamp.as_str(), TS_FMT));
        i = i + 1;
    }
    assert(times@ =~= row_times(rows@));
    times
}

/// The chart of the rows that a [`GraphQuery`] gave, at the time `now`. A value that
/// is missing is taken from before, a time that cannot be read too. No points where
/// there are no rows to be had.
pub fn get_graph_data(rows: Option<&Vec<GraphRow>>, now: i64) -> (r: GraphData)
    ensures
        r@ == match rows {
            Some(v) => graph_of(v@, row_times(v@), now),
            None => no_points(),
        },
{
    match rows {
        Some(v) => graph_series(v, &read_times(v), now),
        None => GraphData::default(),
    }
}

/// A status of a bin of the charge. A bin with readings has a row for each status that
/// occurs in it, the one that was read last as the last.
#[derive(Debug, PartialEq)]
pub struct BinRow {
    /// Number of the bin, from zero.
    pub bin: i64,
    /// Mean charge of the bin in percent.
    pub capacity: Double,
    /// The status.
    pub status: String,
    /// How many readings of the bin have the status.
    pub votes: i64,
}

/// The minutes in a day.
pub const DAY_MINUTES: i64 = 1440;

/// How many bins of that many minutes a day has.
pub open spec fn bin_count(interval_minutes: int) -> nat {
    if interval_minutes <= 0 {
        0
    } else {
        (DAY_MINUTES as int / interval_minutes) as nat
    }
}

/// The row of the bin `k` with the most votes, the last of them where several have as
/// many; none where the bin has no readings.
pub open spec fn leading_row(rows: Seq<BinRow>, k: int) -> Option<BinRow>
    decreases rows.len(),
{
    if rows.len() == 0 {
        None
    } else {
        let row = rows.last();
        let earlier = leading_row(rows.drop_last(), k);
        if row.bin == k && (earlier is None || earlier->0.votes <= row.votes) {
            Some(row)
        } else {
            earlier
        }
    }
}

/// How many readings of the bin `k` have the status.
pub open spec fn votes_for(rows: Seq<BinRow>, k: int, status: Seq<char>) -> int
    decreases rows.len(),
{
    if rows.len() == 0 {
        0
    } else if rows.last().bin == k && rows.last().status@ == status && rows.last().votes > 0 {
        rows.last().votes as int
    } else {
        votes_for(rows.drop_last(), k, status)
    }
}

/// What the readings of the bin `k` tell, where it has any: the mean charge and the
/// status with the most votes. Where several have as many, charging counts before the
/// others if there is less discharging, and discharging if there is less charging;
/// otherwise the one that was read last.
pub open spec fn bin_reading(rows: Seq<BinRow>, k: int) -> Option<(Double, Seq<char>)> {
    match leading_row(rows, k) {
        Some(row) => {
            let charging = votes_for(rows, k, "Charging"@);
            let discharging = votes_for(rows, k, "Discharging"@);
            if charging == row.votes && charging > discharging {
                Some((row.capacity, "Charging"@))
            } else if discharging == row.votes && discharging > charging {
                Some((row.capacity, "Discharging"@))
            } else {
                Some((row.capacity, row.status@))
            }
        },
        None => None,
    }
}

/// The first bin reading from the bin `k` on; no charge and an unknown status where
/// there is none.
pub open spec fn first_reading(rows: Seq<BinRow>, k: int, bins: int) -> (Double, Seq<char>)
    decreases bins - k,
{
    if k >= bins {
        (double::whole(0), "Unknown"@)
    } else {
        match bin_reading(rows, k) {
            Some(x) => x,
            None => first_reading(rows, k + 1, bins),
        }
    }
}

/// What is shown for the bin `k`: its own readings, or those of the last bin before
/// it that has any, or those of the first bin of all that has any.
pub open spec fn bin_shown(rows: Seq<BinRow>, k: int, bins: int) -> (Double, Seq<char>)
    decreases k + 1,
{
    if k < 0 {
        first_reading(rows, 0, bins)
    } else {
        match bin_reading(rows, k) {
            Some(x) => x,
            None => bin_shown(rows, k - 1, bins),
        }
    }
}

/// The bins of the day that starts at `start`, in seconds since the epoch.
pub open spec fn day_bins(
    rows: Seq<BinRow>,
    interval_minutes: int,
    start: int,
) -> Seq<crate::format::BinView> {
    let bins = bin_count(interval_minutes);
    Seq::new(
        bins,
        |k: int|
            crate::format::BinView {
                capacity: bin_shown(rows, k, bins as int).0,
                status: bin_shown(rows, k, bins as int).1,
                timestamp: (start + k * (interval_minutes * 60)) as i64,
            },
    )
}

/// What a bin shows, by the view of its status.
pub open spec fn cell_view(c: Option<(Double, String)>) -> Option<(Double, Seq<char>)> {
    match c {
        Some((x, s)) => Some((x, s@)),
        None => None,
    }
}

/// The leading row of each bin, by its place.
fn leading_rows(rows: &Vec<BinRow>, bins: usize) -> (r: Vec<Option<usize>>)
    ensures
        r@.len() == bins,
        forall|k: int|
            0 <= k < bins ==> (match #[trigger] r@[k] {
                Some(i) => i < rows@.len() && leading_row(rows@, k) == Some(rows@[i as int]),
                None => leading_row(rows@, k) is None,
            }),
{
    let mut leaders: Vec<Option<usize>> = Vec::new();
    let mut k: usize = 0;
    while k < bins
        invariant
            k <= bins,
            leaders@.len() == k,
            forall|j: int| 0 <= j < k ==> #[trigger] leaders@[j] is None,
        decreases bins - k,
    {
        leaders.push(None);
        k = k + 1;
    }
    let mut i: usize = 0;
    while i < rows.len()
        invariant
            i <= rows@.len(),
            leaders@.len() == bins,
            forall|j: int|
                0 <= j < bins ==> (match #[trigger] leaders@[j] {
                    Some(at) => at < i && leading_row(rows@.take(i as int), j) == Some(
                        rows@[at as int],
                    ),
                    None => leading_row(rows@.take(i as int), j) is None,
                }),
        decreases rows@.len() - i,
    {
        let row: &BinRow = &rows[i];
        proof {
            assert(rows@.take(i + 1).drop_last() =~= rows@.take(i as int));
            assert(rows@.take(i + 1).last() == rows@[i as int]);
        }
        if row.bin >= 0 && (row.bin as u64) < bins as u64 {
            let bin: usize = row.bin as usize;
            let leads: bool = match leaders[bin] {
                Some(at) => rows[at].votes <= row.votes,
                None => true,
            };
            if leads {
                leaders.set(bin, Some(i));
            }
        }
        i = i + 1;
    }
    assert(rows@.take(rows@.len() as int) =~= rows@);
    leaders
}

/// The votes for a status in each bin.
fn count_votes(rows: &Vec<BinRow>, bins: usize, status: &str) -> (r: Vec<i64>)
    ensures
        r@.len() == bins,
        forall|k: int| 0 <= k < bins ==> #[trigger] r@[k] == votes_for(rows@, k, status@),
{
    let mut votes: Vec<i64> = Vec::new();
    let mut k: usize = 0;
    while k < bins
        invariant
            k <= bins,
            votes@.len() == k,
            forall|j: int| 0 <= j < k ==> #[trigger] votes@[j] == 0,
        decreases bins - k,
    {
        votes.push(0);
        k = k + 1;
    }
    let mut i: usize = 0;
    while i < rows.len()
        invariant
            i <= rows@.len(),
            votes@.len() == bins,
            forall|j: int|
                0 <= j < bins ==> #[trigger] votes@[j] == votes_for(
                    rows@.take(i as int),
                    j,
                    status@,
                ),
        decreases rows@.len() - i,
    {
        let row: &BinRow = &rows[i];
        proof {
            assert(rows@.take(i + 1).drop_last() =~= rows@.take(i as int));
            assert(rows@.take(i + 1).last() == rows@[i as int]);
        }
        if row.bin >= 0 && (row.bin as u64) < bins as u64 && row.votes > 0 && text::same(
            row.status.as_str(),
            status,
        ) {
            votes.set(row.bin as usize, row.votes);
        }
        i = i + 1;
    }
    assert(rows@.take(rows@.len() as int) =~= rows@);
    votes
}

/// The readings of each bin.
fn bin_cells(rows: &Vec<BinRow>, bins: usize) -> (r: Vec<Option<(Double, String)>>)
    ensures
        r@.len() == bins,
        forall|k: int| 0 <= k < bins ==> cell_view(#[trigger] r@[k]) == bin_reading(rows@, k),
{
    let leaders: Vec<Option<usize>> = leading_rows(rows, bins);
    let charging: Vec<i64> = count_votes(rows, bins, "Charging");
    let discharging: Vec<i64> = count_votes(rows, bins, "Discharging");
    let mut cells: Vec<Option<(Double, String)>> = Vec::new();
    let mut k: usize = 0;
    while k < bins
        invariant
            k <= bins,
            leaders@.len() == bins,
            charging@.len() == bins,
            discharging@.len() == bins,
            cells@.len() == k,
            forall|j: int|
                0 <= j < bins ==> (match #[trigger] leaders@[j] {
                    Some(i) => i < rows@.len() && leading_row(rows@, j) == Some(rows@[i as int]),
                    None => leading_row(rows@, j) is None,
                }),
            forall|j: int|
                0 <= j < bins ==> #[trigger] charging@[j] == votes_for(rows@, j, "Charging"@),
            forall|j: int|
                0 <= j < bins ==> #[trigger] discharging@[j] == votes_for(
                    rows@,
                    j,
                    "Discharging"@,
                ),
            forall|j: int| 0 <= j < k ==> cell_view(#[trigger] cells@[j]) == bin_reading(rows@, j),
        decreases bins - k,
    {
        let cell: Option<(Double, String)> = match leaders[k] {
            Some(i) => {
                let most: i64 = rows[i].votes;
                let status: String = if charging[k] == most && charging[k] > discharging[k] {
                    "Charging".to_owned()
                } else if discharging[k] == most && discharging[k] > charging[k] {
                    "Discharging".to_owned()
                } else {
                    rows[i].status.clone()
                };
                Some((rows[i].capacity, status))
            },
            None => None,
        };
        cells.push(cell);
        k = k + 1;
    }
    cells
}

/// The charge over the last day, in bins of `interval_minutes`. A bin without
/// readings shows what was last known, and before anything was known, what came
/// first. An interval that is not positive, or rows that could not be had, give no
/// bins. The day starts at `start_epoch`, in seconds since the epoch.
pub fn get_interval_capacity(
    rows: Option<&Vec<BinRow>>,
    interval_minutes: i64,
    start_epoch: i64,
) -> (r: Vec<IntervalBin>)
    requires
        bin_count(interval_minutes as int) > 0 ==> start_epoch + (bin_count(interval_minutes as int)
            - 1) * (interval_minutes * 60) <= i64::MAX,
    ensures
        crate::format::bin_views(r@) == match rows {
            Some(v) => day_bins(v@, interval_minutes as int, start_epoch as int),
            None => seq![],
        },
{
    let mut out: Vec<IntervalBin> = Vec::new();
    assert(crate::format::bin_views(out@) =~= seq![]);
    let list: &Vec<BinRow> = match rows {
        Some(v) => v,
        None => {
            return out;
        },
    };
    if interval_minutes <= 0 || interval_minutes > DAY_MINUTES {
        proof {
            if interval_minutes > DAY_MINUTES {
                assert(DAY_MINUTES as int / interval_minutes as int == 0) by (nonlinear_arith)
                    requires
                        interval_minutes > DAY_MINUTES,
                        DAY_MINUTES > 0,
                ;
            }
            assert(day_bins(list@, interval_minutes as int, start_epoch as int) =~= seq![]);
        }
        return out;
    }
    let bucket_seconds: i64 = interval_minutes * 60;
    let bins: usize = (DAY_MINUTES / interval_minutes) as usize;
    proof {
        assert(0 <= DAY_MINUTES as int / interval_minutes as int <= DAY_MINUTES) by (nonlinear_arith)
            requires
                1 <= interval_minutes <= DAY_MINUTES,
        ;
        assert(bins == bin_count(interval_minutes as int));
        assert((DAY_MINUTES as int / interval_minutes as int) * interval_minutes <= DAY_MINUTES)
            by (nonlinear_arith)
            requires
                interval_minutes >= 1,
        ;
        assert(bins * bucket_seconds <= 86400) by (nonlinear_arith)
            requires
                bins * interval_minutes <= DAY_MINUTES,
                bucket_seconds == interval_minutes * 60,
                DAY_MINUTES == 1440,
        ;
    }
    let cells: Vec<Option<(Double, String)>> = bin_cells(list, bins);
    let mut last_cap: Double = Double::from_u64(0);
    let mut last_stat: String = "Unknown".to_owned();
    let mut f: usize = bins;
    while f > 0
        invariant
            f <= bins,
            cells@.len() == bins,
            forall|k: int| 0 <= k < bins ==> cell_view(#[trigger] cells@[k]) == bin_reading(list@, k),
            (last_cap, last_stat@) == first_reading(list@, f as int, bins as int),
        decreases f,
    {
        f = f - 1;
        assert(cell_view(cells@[f as int]) == bin_reading(list@, f as int));
        if let Some(c) = &cells[f] {
            last_cap = c.0;
            last_stat = c.1.clone();
        }
    }
    let mut i: usize = 0;
    while i < bins
        invariant
            i <= bins,
            cells@.len() == bins,
            bins == bin_count(interval_minutes as int),
            bucket_seconds == interval_minutes * 60,
            bucket_seconds > 0,
            bins * bucket_seconds <= 86400,
            bins > 0 ==> start_epoch + (bins - 1) * bucket_seconds <= i64::MAX,
            forall|k: int| 0 <= k < bins ==> cell_view(#[trigger] cells@[k]) == bin_reading(list@, k),
            (last_cap, last_stat@) == bin_shown(list@, i - 1, bins as int),
            crate::format::bin_views(out@) =~= day_bins(
                list@,
                interval_minutes as int,
                start_epoch as int,
            ).take(i as int),
        decreases bins - i,
    {
        assert(cell_view(cells@[i as int]) == bin_reading(list@, i as int));
        if let Some(c) = &cells[i] {
            last_cap = c.0;
            last_stat = c.1.clone();
        }
        assert(0 <= i * bucket_seconds <= (bins - 1) * bucket_seconds) by (nonlinear_arith)
            requires
                0 <= i <= bins - 1,
                bucket_seconds > 0,
        ;
        assert((bins - 1) * bucket_seconds <= bins * bucket_seconds) by (nonlinear_arith)
            requires
                bucket_seconds > 0,
        ;
        let bin: IntervalBin = IntervalBin {
            capacity: last_cap,
            status: last_stat.clone(),
            timestamp: start_epoch + (i as i64) * bucket_seconds,
        };
        let ghost before = crate::format::bin_views(out@);
        out.push(bin);
        assert(crate::format::bin_views(out@) =~= before.push(bin@));
        i = i + 1;
    }
    out
}

/// Whether no row of the bin `k` has more than that many votes.
pub open spec fn outvoted_by_none(rows: Seq<BinRow>, k: int, votes: int) -> bool {
    forall|i: int| 0 <= i < rows.len() && #[trigger] rows[i].bin == k ==> rows[i].votes <= votes
}

/// Whether the row `j` is one of the bin `k` that none of its rows has more votes
/// than, and the last of those with as many.
pub open spec fn leads(rows: Seq<BinRow>, k: int, j: int) -> bool {
    &&& 0 <= j < rows.len()
    &&& rows[j].bin == k
    &&& forall|i: int|
        0 <= i < rows.len() && #[trigger] rows[i].bin == k ==> rows[i].votes < rows[j].votes || (
        rows[i].votes == rows[j].votes && i <= j)
}

/// Whether the readings of the bin `k` say which way the charge went: no status has
/// more votes than `status`, and `opposite` has fewer.
pub open spec fn directed(
    rows: Seq<BinRow>,
    k: int,
    status: Seq<char>,
    opposite: Seq<char>,
) -> bool {
    &&& votes_for(rows, k, status) > votes_for(rows, k, opposite)
    &&& outvoted_by_none(rows, k, votes_for(rows, k, status))
}

/// A bin shows the status with the most votes: it is that of a row of the bin, and no
/// row of the bin has more votes. Where several have as many, it is charging if there
/// is less discharging, discharging if there is less charging, and otherwise the one
/// that was read last.
pub proof fn law_bins_show_the_dominant_status(
    rows: Seq<BinRow>,
    interval_minutes: int,
    start: int,
    k: int,
    i: int,
)
    requires
        0 <= k < bin_count(interval_minutes),
        0 <= i < rows.len(),
        rows[i].bin == k,
    ensures
        exists|j: int|
            0 <= j < rows.len() && #[trigger] rows[j].bin == k && outvoted_by_none(
                rows,
                k,
                rows[j].votes as int,
            ) && day_bins(rows, interval_minutes, start)[k].status == rows[j].status@,
        directed(rows, k, "Charging"@, "Discharging"@) ==> day_bins(
            rows,
            interval_minutes,
            start,
        )[k].status == "Charging"@,
        directed(rows, k, "Discharging"@, "Charging"@) ==> day_bins(
            rows,
            interval_minutes,
            start,
        )[k].status == "Discharging"@,
        exists|j: int| #[trigger]
            leads(rows, k, j) && day_bins(rows, interval_minutes, start)[k].capacity
                == rows[j].capacity && (!directed(rows, k, "Charging"@, "Discharging"@)
                && !directed(rows, k, "Discharging"@, "Charging"@) ==> day_bins(
                rows,
                interval_minutes,
                start,
            )[k].status == rows[j].status@),
{
    lemma_some_row_leads(rows, k, i);
    let j = lemma_leading_row(rows, k);
    let charging = votes_for(rows, k, "Charging"@);
    let discharging = votes_for(rows, k, "Discharging"@);
    let most = rows[j].votes as int;
    law_bins_show_readings(rows, interval_minutes, start, k);
    assert(leads(rows, k, j));
    assert(outvoted_by_none(rows, k, most));
    lemma_votes_are_nonnegative(rows, k, "Charging"@);
    lemma_votes_are_nonnegative(rows, k, "Discharging"@);
    if charging > discharging {
        let m = lemma_votes_stand_in_a_row(rows, k, "Charging"@);
        assert(rows[m].bin == k);
        assert(outvoted_by_none(rows, k, charging) == (charging == most)) by {
            assert(rows[j].bin == k);
        }
    }
    if discharging > charging {
        let m = lemma_votes_stand_in_a_row(rows, k, "Discharging"@);
        assert(rows[m].bin == k);
        assert(outvoted_by_none(rows, k, discharging) == (discharging == most)) by {
            assert(rows[j].bin == k);
        }
    }
    assert(rows[j].bin == k);
}

proof fn lemma_votes_are_nonnegative(rows: Seq<BinRow>, k: int, status: Seq<char>)
    ensures
        votes_for(rows, k, status) >= 0,
    decreases rows.len(),
{
    if rows.len() > 0 {
        lemma_votes_are_nonnegative(rows.drop_last(), k, status);
    }
}

/// The place of the row with the votes for a status that has any.
proof fn lemma_votes_stand_in_a_row(rows: Seq<BinRow>, k: int, status: Seq<char>) -> (j: int)
    requires
        votes_for(rows, k, status) > 0,
    ensures
        0 <= j < rows.len(),
        rows[j].bin == k,
        rows[j].status@ == status,
        rows[j].votes == votes_for(rows, k, status),
    decreases rows.len(),
{
    let n = rows.len() - 1;
    if rows[n].bin == k && rows[n].status@ == status && rows[n].votes > 0 {
        n
    } else {
        let j = lemma_votes_stand_in_a_row(rows.drop_last(), k, status);
        assert(rows.drop_last()[j] == rows[j]);
        j
    }
}

proof fn lemma_some_row_leads(rows: Seq<BinRow>, k: int, i: int)
    requires
        0 <= i < rows.len(),
        rows[i].bin == k,
    ensures
        leading_row(rows, k) is Some,
    decreases rows.len(),
{
    if i < rows.len() - 1 {
        assert(rows.drop_last()[i] == rows[i]);
        lemma_some_row_leads(rows.drop_last(), k, i);
    }
}

/// The place of the leading row.
proof fn lemma_leading_row(rows: Seq<BinRow>, k: int) -> (j: int)
    requires
        leading_row(rows, k) is Some,
    ensures
        leads(rows, k, j),
        leading_row(rows, k) == Some(rows[j]),
    decreases rows.len(),
{
    let n = rows.len() - 1;
    let earlier = rows.drop_last();
    assert(forall|i: int| 0 <= i < n ==> earlier[i] == #[trigger] rows[i]);
    if leading_row(earlier, k) is None {
        assert forall|i: int| 0 <= i < n implies #[trigger] rows[i].bin != k by {
            if rows[i].bin == k {
                assert(earlier[i].bin == k);
                lemma_some_row_leads(earlier, k, i);
            }
        }
        n
    } else {
        let m = lemma_leading_row(earlier, k);
        let j = if rows[n].bin == k && rows[m].votes <= rows[n].votes {
            n
        } else {
            m
        };
        assert forall|i: int| 0 <= i < rows.len() && #[trigger] rows[i].bin == k implies rows[i].votes
            < rows[j].votes || (rows[i].votes == rows[j].votes && i <= j) by {
            if i < n {
                assert(earlier[i].bin == k);
            }
        }
        j
    }
}

/// A bin with readings shows them, a charge of zero like any other; a bin without
/// shows what the one before it shows.
pub proof fn law_bins_show_readings(rows: Seq<BinRow>, interval_minutes: int, start: int, k: int)
    requires
        0 <= k < bin_count(interval_minutes),
    ensures
        bin_reading(rows, k) matches Some(x) ==> day_bins(rows, interval_minutes, start)[k].capacity
            == x.0 && day_bins(rows, interval_minutes, start)[k].status == x.1,
        bin_reading(rows, k) is None && k > 0 ==> {
            &&& day_bins(rows, interval_minutes, start)[k].capacity == day_bins(
                rows,
                interval_minutes,
                start,
            )[k - 1].capacity
            &&& day_bins(rows, interval_minutes, start)[k].status == day_bins(
                rows,
                interval_minutes,
                start,
            )[k - 1].status
        },
{
}

/// The bins before the first reading show what it tells.
pub proof fn law_leading_bins_show_first_reading(
    rows: Seq<BinRow>,
    interval_minutes: int,
    start: int,
    first: int,
    k: int,
)
    requires
        0 <= k <= first < bin_count(interval_minutes),
        bin_reading(rows, first) is Some,
        forall|j: int| 0 <= j < first ==> #[trigger] bin_reading(rows, j) is None,
    ensures
        day_bins(rows, interval_minutes, start)[k].capacity == (bin_reading(rows, first)->0).0,
        day_bins(rows, interval_minutes, start)[k].status == (bin_reading(rows, first)->0).1,
{
    let bins = bin_count(interval_minutes) as int;
    lemma_first_reading(rows, 0, first, bins);
    if k < first {
        lemma_shown_before_first(rows, first, k, bins);
    }
}

proof fn lemma_first_reading(rows: Seq<BinRow>, k: int, first: int, bins: int)
    requires
        0 <= k <= first < bins,
        bin_reading(rows, first) is Some,
        forall|j: int| 0 <= j < first ==> #[trigger] bin_reading(rows, j) is None,
    ensures
        first_reading(rows, k, bins) == bin_reading(rows, first)->0,
    decreases first - k,
{
    if k < first {
        assert(bin_reading(rows, k) is None);
        lemma_first_reading(rows, k + 1, first, bins);
    }
}

proof fn lemma_shown_before_first(rows: Seq<BinRow>, first: int, k: int, bins: int)
    requires
        -1 <= k < first,
        forall|j: int| 0 <= j < first ==> #[trigger] bin_reading(rows, j) is None,
    ensures
        bin_shown(rows, k, bins) == first_reading(rows, 0, bins),
    decreases k + 1,
{
    if k >= 0 {
        assert(bin_reading(rows, k) is None);
        lemma_shown_before_first(rows, first, k - 1, bins);
    }
}

/// Without readings every bin shows no charge and an unknown status.
pub proof fn law_empty_day_is_blank(interval_minutes: int, start: int, k: int)
    requires
        0 <= k < bin_count(interval_minutes),
    ensures
        day_bins(seq![], interval_minutes, start)[k].capacity == double::whole(0),
        day_bins(seq![], interval_minutes, start)[k].status == "Unknown"@,
{
    let rows: Seq<BinRow> = seq![];
    let bins = bin_count(interval_minutes) as int;
    assert forall|j: int| 0 <= j < bins implies #[trigger] bin_reading(rows, j) is None by {
    }
    lemma_shown_before_first(rows, bins, k, bins);
    lemma_no_first_reading(rows, 0, bins);
}

proof fn lemma_no_first_reading(rows: Seq<BinRow>, k: int, bins: int)
    requires
        forall|j: int| k <= j < bins ==> #[trigger] bin_reading(rows, j) is None,
    ensures
        first_reading(rows, k, bins) == (double::whole(0), "Unknown"@),
    decreases bins - k,
{
    if k < bins {
        assert(bin_reading(rows, k) is None);
        lemma_no_first_reading(rows, k + 1, bins);
    }
}

/// The series of a chart have one entry for each row.
pub proof fn law_graph_has_a_point_for_each_row(rows: Seq<GraphRow>, now: i64)
    ensures
        graph_of(rows, row_times(rows), now).timestamps.len() == rows.len(),
        graph_of(rows, row_times(rows), now).voltage.len() == rows.len(),
        graph_of(rows, row_times(rows), now).current_ma.len() == rows.len(),
        graph_of(rows, row_times(rows), now).power.len() == rows.len(),
        graph_of(rows, row_times(rows), now).temperature.len() == rows.len(),
        graph_of(rows, row_times(rows), now).capacity.len() == rows.len(),
        graph_of(rows, row_times(rows), now).status.len() == rows.len(),
{
}

/// Whether all times are known and none is before an earlier one.
pub open spec fn in_order(times: Seq<Option<i64>>) -> bool {
    &&& forall|i: int| 0 <= i < times.len() ==> #[trigger] times[i] is Some
    &&& forall|i: int, j: int|
        0 <= i <= j < times.len() ==> #[trigger] times[i]->0 <= #[trigger] times[j]->0
}

/// The times of a chart of rows in order do not fall, and each is that of its row: to
/// the second, where the time has no more than 53 bits.
pub proof fn law_chart_times_do_not_fall(
    rows: Seq<GraphRow>,
    times: Seq<Option<i64>>,
    now: i64,
    i: int,
    j: int,
)
    requires
        in_order(times),
        0 <= i <= j < times.len(),
    ensures
        graph_of(rows, times, now).timestamps[i] == double::whole_signed(times[i]->0 as int),
        graph_of(rows, times, now).timestamps[i].at_most(graph_of(rows, times, now).timestamps[j]),
        -2 * double::STEP < times[i]->0 < 2 * double::STEP ==> graph_of(
            rows,
            times,
            now,
        ).timestamps[i].value() == times[i]->0 * double::unit(),
{
    assert(times.take(i + 1).last() == times[i]);
    assert(times.take(j + 1).last() == times[j]);
    double::law_whole_numbers_keep_order(times[i]->0 as int, times[j]->0 as int);
    if -2 * double::STEP < times[i]->0 < 2 * double::STEP {
        double::law_whole_numbers_are_exact(times[i]->0 as int);
    }
}

/// A chart of rows that are not older than `since` shows nothing that is older.
pub proof fn law_chart_stays_in_its_window(
    rows: Seq<GraphRow>,
    times: Seq<Option<i64>>,
    now: i64,
    since: i64,
    i: int,
)
    requires
        forall|k: int| 0 <= k < times.len() ==> (#[trigger] times[k] matches Some(t) && t >= since),
        0 <= i < times.len(),
    ensures
        double::whole_signed(since as int).at_most(graph_of(rows, times, now).timestamps[i]),
{
    assert(times[i] is Some);
    assert(times.take(i + 1).last() == times[i]);
    double::law_whole_numbers_keep_order(since as int, times[i]->0 as int);
}

/// The charges of a chart lie between the least and the greatest of its rows, where
/// that of the first row is known.
pub proof fn law_chart_charge_stays_in_range(
    rows: Seq<GraphRow>,
    times: Seq<Option<i64>>,
    now: i64,
    least: Double,
    greatest: Double,
    i: int,
)
    requires
        0 <= i < rows.len(),
        rows[0].capacity is Some,
        forall|k: int|
            0 <= k < rows.len() ==> (#[trigger] rows[k].capacity matches Some(c) ==> least.at_most(c)
                && c.at_most(greatest)),
    ensures
        least.at_most(graph_of(rows, times, now).capacity[i]),
        graph_of(rows, times, now).capacity[i].at_most(greatest),
{
    let values = Seq::new(rows.len(), |k: int| rows[k].capacity);
    lemma_last_known_in_range(values, least, greatest, i);
}

proof fn lemma_last_known_in_range(
    values: Seq<Option<Double>>,
    least: Double,
    greatest: Double,
    i: int,
)
    requires
        0 <= i < values.len(),
        values[0] is Some,
        forall|k: int|
            0 <= k < values.len() ==> (#[trigger] values[k] matches Some(c) ==> least.at_most(c)
                && c.at_most(greatest)),
    ensures
        least.at_most(last_known(values.take(i + 1), double::whole(1))),
        last_known(values.take(i + 1), double::whole(1)).at_most(greatest),
    decreases i,
{
    assert(values.take(i + 1).last() == values[i]);
    match values[i] {
        Some(c) => {
            double::lemma_product_with_one(c);
        },
        None => {
            lemma_last_known_in_range(values, least, greatest, i - 1);
            assert(values.take(i + 1).drop_last() =~= values.take(i));
        },
    }
}

/// A value that is known is shown, scaled; one that is not, as the one before it,
/// and not as zero, unless nothing was known yet.
pub proof fn law_gaps_are_filled(values: Seq<Option<Double>>, scale: Double, i: int)
    requires
        0 <= i < values.len(),
    ensures
        filled(values, scale)[i] == match values[i] {
            Some(v) => double::product(v, scale),
            None => if i == 0 {
                double::whole(0)
            } else {
                filled(values, scale)[i - 1]
            },
        },
{
    assert(values.take(i + 1).last() == values[i]);
    assert(values.take(i + 1).drop_last() =~= values.take(i));
    assert(last_known(values.take(i + 1), scale) == match values[i] {
        Some(v) => double::product(v, scale),
        None => last_known(values.take(i), scale),
    });
}

/// Scaled by one, a number that is shown is the number that was read.
pub proof fn law_scale_of_one_keeps_numbers(x: Double)
    requires
        !x.nan(),
    ensures
        double::product(x, double::whole(1)) == x,
{
    double::lemma_product_with_one(x);
}

/// Whether `g` is the row of the history that holds what was stored as `row`.
pub open spec fn selects(g: GraphRow, row: StoredReading) -> bool {
    &&& g.timestamp@ == row.timestamp@
    &&& g.voltage == row.voltage
    &&& g.current_a == row.current_a
    &&& g.power_w == row.power_w
    &&& g.temperature_c == row.temperature_c
    &&& g.capacity == row.capacity
    &&& g.status@ == row.status@
}

/// Whether a chart shows the value `v` as `shown`: exactly, where it is a number.
pub open spec fn shows(v: Option<Double>, shown: Double) -> bool {
    v matches Some(x) ==> !x.nan() ==> shown == x
}

/// What was saved of a reading is what a chart shows of it, once the rows of the
/// history are read back as they were stored: its time, its status, and each value
/// that was known, the current in thousandths.
pub proof fn law_saved_readings_are_charted(
    r: reader::ReadingView,
    timestamp: Seq<char>,
    row: StoredReading,
    rows: Seq<GraphRow>,
    now: i64,
    i: int,
)
    requires
        0 <= i < rows.len(),
        stores(row, r, timestamp),
        selects(rows[i], row),
    ensures
        ({
            let g = graph_of(rows, row_times(rows), now);
            &&& g.status[i] == r.status
            &&& shows(r.voltage, g.voltage[i])
            &&& shows(r.power, g.power[i])
            &&& shows(r.temperature, g.temperature[i])
            &&& shows(r.capacity, g.capacity[i])
            &&& r.current_a matches Some(x) ==> g.current_ma[i] == double::product(
                x,
                double::whole(1000),
            )
            &&& seconds_in(timestamp, TS_FMT@) matches Some(t) ==> g.timestamps[i]
                == double::whole_signed(t as int)
        }),
{
    let one = double::whole(1);
    let n = rows.len();
    law_gaps_are_filled(Seq::new(n, |k: int| rows[k].voltage), one, i);
    law_gaps_are_filled(Seq::new(n, |k: int| rows[k].power_w), one, i);
    law_gaps_are_filled(Seq::new(n, |k: int| rows[k].temperature_c), one, i);
    law_gaps_are_filled(Seq::new(n, |k: int| rows[k].capacity), one, i);
    law_gaps_are_filled(Seq::new(n, |k: int| rows[k].current_a), double::whole(1000), i);
    law_bad_time_keeps_the_last(row_times(rows), now, i);
    if let Some(x) = r.voltage {
        if !x.nan() {
            law_scale_of_one_keeps_numbers(x);
        }
    }
    if let Some(x) = r.power {
        if !x.nan() {
            law_scale_of_one_keeps_numbers(x);
        }
    }
    if let Some(x) = r.temperature {
        if !x.nan() {
            law_scale_of_one_keeps_numbers(x);
        }
    }
    if let Some(x) = r.capacity {
        if !x.nan() {
            law_scale_of_one_keeps_numbers(x);
        }
    }
}

/// A time that cannot be read is shown as the one before it; the others stay as they
/// are.
pub proof fn law_bad_time_keeps_the_last(times: Seq<Option<i64>>, now: i64, i: int)
    requires
        0 <= i < times.len(),
    ensures
        filled_times(times, now)[i] == match times[i] {
            Some(t) => double::whole_signed(t as int),
            None => if i == 0 {
                double::whole_signed(now as int)
            } else {
                filled_times(times, now)[i - 1]
            },
        },
{
    assert(times.take(i + 1).last() == times[i]);
    assert(times.take(i + 1).drop_last() =~= times.take(i));
    assert(last_time(times.take(i + 1), now) == match times[i] {
        Some(t) => t,
        None => last_time(times.take(i), now),
    });
}

/// The power of an hour, by the last row that gives it.
pub open spec fn hour_power(rows: Seq<(i64, Double)>, hour: int) -> Option<Double>
    decreases rows.len(),
{
    if rows.len() == 0 {
        None
    } else if rows.last().0 == hour {
        Some(rows.last().1)
    } else {
        hour_power(rows.drop_last(), hour)
    }
}

/// The mean power while discharging for each hour of the day; nothing for an hour
/// without readings. `rows` gives hours with their power, or none could be had.
pub fn hourly_drain_intensity(rows: Option<&Vec<(i64, Double)>>) -> (r: [Option<Double>; 24])
    ensures
        r@ == Seq::new(
            24,
            |h: int|
                match rows {
                    Some(v) => hour_power(v@, h),
                    None => None,
                },
        ),
{
    let mut out: [Option<Double>; 24] = [None; 24];
    assert(out@ =~= Seq::new(24, |h: int| None::<Double>));
    if let Some(list) = rows {
        let mut i: usize = 0;
        while i < list.len()
            invariant
                i <= list@.len(),
                out@ =~= Seq::new(24, |k: int| hour_power(list@.take(i as int), k)),
            decreases list@.len() - i,
        {
            proof {
                assert(list@.take(i + 1).drop_last() =~= list@.take(i as int));
                assert(list@.take(i + 1).last() == list@[i as int]);
            }
            let hour: i64 = list[i].0;
            if 0 <= hour && hour < 24 {
                out[hour as usize] = Some(list[i].1);
            }
            i = i + 1;
        }
        assert(list@.take(list@.len() as int) =~= list@);
    }
    out
}

/// The month `months_ago` months before the given one, as year and month.
pub open spec fn month_text(year: int, month: int, months_ago: int) -> Seq<char> {
    let total = year * 12 + (month - 1) - months_ago;
    decimal::padded(total / 12, 4) + "-"@ + decimal::padded(total % 12 + 1, 2)
}

/// The month `months_ago` months before the given one, as year and month.
pub fn month_label(year: i32, month: u32, months_ago: i64) -> (r: String)
    requires
        i64::MIN <= year * 12 + month - 1 - months_ago <= i64::MAX,
    ensures
        r@ == month_text(year as int, month as int, months_ago as int),
{
    let total: i128 = year as i128 * 12 + (month as i128 - 1) - months_ago as i128;
    let above: i128 = total + 0x1_8000_0000_0000_0000;
    let whole_years: i64 = (above / 12 - 0x2000_0000_0000_0000) as i64;
    let month_of_year: i64 = (above % 12 + 1) as i64;
    let mut out: Vec<char> = decimal::padded_text(whole_years, 4);
    text::add(&mut out, "-");
    text::add_all(&mut out, decimal::padded_text(month_of_year, 2));
    text::string_of(out.as_slice())
}

/// The health of a month, by the last snapshot that gives it.
pub open spec fn month_health(snapshots: Seq<(String, Double)>, month: Seq<char>) -> Option<Double>
    decreases snapshots.len(),
{
    if snapshots.len() == 0 {
        None
    } else if snapshots.last().0@ == month {
        Some(snapshots.last().1)
    } else {
        month_health(snapshots.drop_last(), month)
    }
}

/// Months with their health, by their texts.
pub open spec fn trend_views(s: Seq<(String, Option<Double>)>) -> Seq<(Seq<char>, Option<Double>)> {
    Seq::new(s.len(), |i: int| (s[i].0@, s[i].1))
}

/// The last `months` months up to the given one, each with its health.
pub open spec fn trend(
    snapshots: Seq<(String, Double)>,
    months: int,
    year: int,
    month: int,
) -> Seq<(Seq<char>, Option<Double>)> {
    let count = if months < 0 {
        0nat
    } else {
        months as nat
    };
    Seq::new(
        count,
        |i: int|
            {
                let label = month_text(year, month, count - 1 - i);
                (label, month_health(snapshots, label))
            },
    )
}

fn health_of_month(snapshots: &Vec<(String, Double)>, month: &str) -> (r: Option<Double>)
    ensures
        r == month_health(snapshots@, month@),
{
    let mut n: usize = snapshots.len();
    assert(snapshots@.take(n as int) =~= snapshots@);
    while n > 0
        invariant
            n <= snapshots@.len(),
            month_health(snapshots@, month@) == month_health(snapshots@.take(n as int), month@),
        decreases n,
    {
        proof {
            assert(snapshots@.take(n as int).drop_last() =~= snapshots@.take(n - 1));
            assert(snapshots@.take(n as int).last() == snapshots@[n - 1]);
        }
        n = n - 1;
        if text::same(snapshots[n].0.as_str(), month) {
            return Some(snapshots[n].1);
        }
    }
    None
}

/// The last `months` calendar months up to the given one, oldest first, each with
/// its health where a snapshot gives it.
pub fn monthly_health_trend(
    snapshots: &Vec<(String, Double)>,
    months: i64,
    year: i32,
    month: u32,
) -> (r: Vec<(String, Option<Double>)>)
    requires
        year * 12 + month - months >= i64::MIN,
    ensures
        trend_views(r@) == trend(snapshots@, months as int, year as int, month as int),
{
    let mut out: Vec<(String, Option<Double>)> = Vec::new();
    let mut left: i64 = months;
    assert(trend_views(out@) =~= trend(
        snapshots@,
        months as int,
        year as int,
        month as int,
    ).take(0));
    while left > 0
        invariant
            year * 12 + month - months >= i64::MIN,
            months >= 0 ==> 0 <= left <= months,
            months < 0 ==> left == months,
            trend_views(out@) == trend(
                snapshots@,
                months as int,
                year as int,
                month as int,
            ).take(
                if months < 0 {
                    0
                } else {
                    months - left
                },
            ),
        decreases left,
    {
        left = left - 1;
        let label: String = month_label(year, month, left);
        let health: Option<Double> = health_of_month(snapshots, label.as_str());
        let ghost before = trend_views(out@);
        let ghost all = trend(snapshots@, months as int, year as int, month as int);
        assert(all[months - left - 1] == (label@, health));
        out.push((label, health));
        assert(trend_views(out@) =~= before.push((label@, health)));
        assert(trend_views(out@) =~= all.take(months - left));
    }
    assert(trend(snapshots@, months as int, year as int, month as int) =~= trend(
        snapshots@,
        months as int,
        year as int,
        month as int,
    ).take(
        if months < 0 {
            0
        } else {
            months as int
        },
    ));
    out
}

/// The trend ends with the month itself, and holds as many months as asked for.
pub proof fn law_trend_ends_now(
    snapshots: Seq<(String, Double)>,
    months: int,
    year: int,
    month: int,
)
    requires
        months >= 1,
        1 <= month <= 12,
    ensures
        trend(snapshots, months, year, month).len() == months,
        trend(snapshots, months, year, month).last().0 == decimal::padded(year, 4) + "-"@
            + decimal::padded(month, 2),
{
    let total = year * 12 + (month - 1);
    assert(total / 12 == year && total % 12 == month - 1);
}

/// A year is twelve months, and before January comes December of the year before.
pub proof fn law_months_walk_the_years(year: int, month: int, months_ago: int)
    ensures
        month_text(year, month, months_ago + 12) == month_text(year - 1, month, months_ago),
        month_text(year, 1, months_ago + 1) == month_text(year - 1, 12, months_ago),
        month_text(year, month, months_ago + 1) == month_text(year, month - 1, months_ago),
{
    assert((year - 1) * 12 == year * 12 - 12);
}

/// An hour has a power exactly where a row gives it one.
pub proof fn law_hours_are_not_made_up(rows: Seq<(i64, Double)>, hour: int)
    ensures
        hour_power(rows, hour) is Some <==> exists|i: int|
            0 <= i < rows.len() && (#[trigger] rows[i]).0 == hour,
    decreases rows.len(),
{
    if rows.len() > 0 && rows.last().0 != hour {
        let front = rows.drop_last();
        law_hours_are_not_made_up(front, hour);
        if exists|i: int| 0 <= i < rows.len() && (#[trigger] rows[i]).0 == hour {
            let i = choose|i: int| 0 <= i < rows.len() && (#[trigger] rows[i]).0 == hour;
            assert(front[i] == rows[i]);
        }
        if exists|i: int| 0 <= i < front.len() && (#[trigger] front[i]).0 == hour {
            let i = choose|i: int| 0 <= i < front.len() && (#[trigger] front[i]).0 == hour;
            assert(rows[i] == front[i]);
        }
    } else if rows.len() > 0 {
        assert(rows[rows.len() - 1].0 == hour);
    }
}

/// A month has a health exactly where a snapshot gives it one.
pub proof fn law_months_are_not_made_up(snapshots: Seq<(String, Double)>, month: Seq<char>)
    ensures
        month_health(snapshots, month) is Some <==> exists|i: int|
            0 <= i < snapshots.len() && (#[trigger] snapshots[i]).0@ == month,
    decreases snapshots.len(),
{
    if snapshots.len() > 0 && snapshots.last().0@ != month {
        let front = snapshots.drop_last();
        law_months_are_not_made_up(front, month);
        if exists|i: int| 0 <= i < snapshots.len() && (#[trigger] snapshots[i]).0@ == month {
            let i = choose|i: int|
                0 <= i < snapshots.len() && (#[trigger] snapshots[i]).0@ == month;
            assert(front[i] == snapshots[i]);
        }
        if exists|i: int| 0 <= i < front.len() && (#[trigger] front[i]).0@ == month {
            let i = choose|i: int| 0 <= i < front.len() && (#[trigger] front[i]).0@ == month;
            assert(snapshots[i] == front[i]);
        }
    } else if snapshots.len() > 0 {
        assert(snapshots[snapshots.len() - 1].0@ == month);
    }
}

/// Whether no two snapshots are of the same month.
pub open spec fn one_for_each_month(snapshots: Seq<(String, Double)>) -> bool {
    forall|i: int, j: int|
        #![trigger snapshots[i], snapshots[j]]
        0 <= i < j < snapshots.len() ==> snapshots[i].0@ != snapshots[j].0@
}

proof fn lemma_month_health(snapshots: Seq<(String, Double)>, i: int)
    requires
        one_for_each_month(snapshots),
        0 <= i < snapshots.len(),
    ensures
        month_health(snapshots, snapshots[i].0@) == Some(snapshots[i].1),
    decreases snapshots.len(),
{
    let n = snapshots.len() - 1;
    if i < n {
        let front = snapshots.drop_last();
        assert(front[i] == snapshots[i]);
        assert(snapshots[i].0@ != snapshots[n].0@);
        assert forall|a: int, b: int|
            #![trigger front[a], front[b]]
            0 <= a < b < front.len() implies front[a].0@ != front[b].0@ by {
            assert(front[a] == snapshots[a] && front[b] == snapshots[b]);
        }
        lemma_month_health(front, i);
    }
}

/// Each month of the trend that has a snapshot shows the health of that snapshot, and
/// each that has none shows none.
pub proof fn law_months_show_their_own_snapshot(
    snapshots: Seq<(String, Double)>,
    months: int,
    year: int,
    month: int,
    e: int,
    i: int,
)
    requires
        one_for_each_month(snapshots),
        0 <= e < months,
        0 <= i < snapshots.len(),
    ensures
        trend(snapshots, months, year, month)[e].0 == snapshots[i].0@ ==> trend(
            snapshots,
            months,
            year,
            month,
        )[e].1 == Some(snapshots[i].1),
        (forall|k: int|
            0 <= k < snapshots.len() ==> (#[trigger] snapshots[k]).0@ != trend(
                snapshots,
                months,
                year,
                month,
            )[e].0) ==> trend(snapshots, months, year, month)[e].1 is None,
{
    lemma_month_health(snapshots, i);
    law_months_are_not_made_up(snapshots, trend(snapshots, months, year, month)[e].0);
}

/// The months of the trend follow each other, oldest first: the entry `e` is labelled
/// with the month that lies as many months back as entries follow it. The year has four
/// digits, the month two. There are as many entries as months were asked for, and none
/// where less than one was.
pub proof fn law_trend_months_follow_each_other(
    snapshots: Seq<(String, Double)>,
    months: int,
    year: int,
    month: int,
    e: int,
    y: int,
    m: int,
)
    requires
        0 <= e < months,
        1 <= m <= 12,
        y * 12 + m == year * 12 + month - (months - 1 - e),
    ensures
        trend(snapshots, months, year, month).len() == months,
        trend(snapshots, months, year, month)[e].0 == decimal::padded(y, 4) + "-"@
            + decimal::padded(m, 2),
        trend(snapshots, 0, year, month).len() == 0,
        trend(snapshots, -months, year, month).len() == 0,
{
    let total = year * 12 + (month - 1) - (months - 1 - e);
    assert(total == y * 12 + (m - 1));
    assert(total / 12 == y && total % 12 == m - 1);
}

/// An hour that one row gives shows the power of that row.
pub proof fn law_hours_show_their_own_row(rows: Seq<(i64, Double)>, i: int)
    requires
        0 <= i < rows.len(),
        forall|a: int, b: int|
            #![trigger rows[a], rows[b]]
            0 <= a < b < rows.len() ==> rows[a].0 != rows[b].0,
    ensures
        hour_power(rows, rows[i].0 as int) == Some(rows[i].1),
    decreases rows.len(),
{
    let n = rows.len() - 1;
    if i < n {
        let front = rows.drop_last();
        assert(front[i] == rows[i]);
        assert(rows[i].0 != rows[n].0);
        assert forall|a: int, b: int|
            #![trigger front[a], front[b]]
            0 <= a < b < front.len() implies front[a].0 != front[b].0 by {
            assert(front[a] == rows[a] && front[b] == rows[b]);
        }
        law_hours_show_their_own_row(front, i);
    }
}

/// A day has as many bins as whole intervals fit into its 1440 minutes, and none where the
/// interval is not positive. Each begins one interval behind the one before it, the first
/// with the day.
pub proof fn law_bins_divide_the_day(
    rows: Seq<BinRow>,
    interval_minutes: int,
    start: int,
    k: int,
)
    ensures
        interval_minutes <= 0 ==> day_bins(rows, interval_minutes, start).len() == 0,
        interval_minutes > 0 ==> {
            let n = day_bins(rows, interval_minutes, start).len();
            n * interval_minutes <= 1440 < (n + 1) * interval_minutes
        },
        0 <= k < day_bins(rows, interval_minutes, start).len() && i64::MIN <= start + k * (
        interval_minutes * 60) <= i64::MAX ==> day_bins(rows, interval_minutes, start)[k].timestamp
            == start + k * (interval_minutes * 60),
{
    if interval_minutes > 0 {
        let n = 1440int / interval_minutes;
        assert(n * interval_minutes <= 1440 < (n + 1) * interval_minutes && n >= 0)
            by (nonlinear_arith)
            requires
                interval_minutes > 0,
                n == 1440int / interval_minutes,
        ;
    }
}

/// Whether each status has one row at most in a bin.
pub open spec fn one_row_for_each_status(rows: Seq<BinRow>) -> bool {
    forall|i: int, j: int|
        #![trigger rows[i], rows[j]]
        0 <= i < j < rows.len() && rows[i].bin == rows[j].bin ==> rows[i].status@
            != rows[j].status@
}

proof fn lemma_votes_for(rows: Seq<BinRow>, i: int)
    requires
        one_row_for_each_status(rows),
        0 <= i < rows.len(),
        rows[i].votes > 0,
    ensures
        votes_for(rows, rows[i].bin as int, rows[i].status@) == rows[i].votes,
    decreases rows.len(),
{
    let n = rows.len() - 1;
    if i < n {
        let front = rows.drop_last();
        assert(front[i] == rows[i]);
        assert(rows[n].bin == rows[i].bin ==> rows[n].status@ != rows[i].status@);
        assert forall|a: int, b: int|
            #![trigger front[a], front[b]]
            0 <= a < b < front.len() && front[a].bin == front[b].bin implies front[a].status@
            != front[b].status@ by {
            assert(front[a] == rows[a] && front[b] == rows[b]);
        }
        lemma_votes_for(front, i);
    }
}

proof fn lemma_no_votes_for(rows: Seq<BinRow>, k: int, status: Seq<char>)
    requires
        forall|i: int|
            0 <= i < rows.len() ==> !((#[trigger] rows[i]).bin == k && rows[i].status@ == status),
    ensures
        votes_for(rows, k, status) == 0,
    decreases rows.len(),
{
    if rows.len() > 0 {
        let front = rows.drop_last();
        assert forall|i: int| 0 <= i < front.len() implies !((#[trigger] front[i]).bin == k
            && front[i].status@ == status) by {
            assert(front[i] == rows[i]);
        }
        assert(!(rows[rows.len() - 1].bin == k && rows[rows.len() - 1].status@ == status));
        lemma_no_votes_for(front, k, status);
    }
}

/// A bin in which no status has more votes than charging, and in which discharging has
/// fewer, charges; and so the other way round.
pub proof fn law_the_charge_has_a_direction(
    rows: Seq<BinRow>,
    interval_minutes: int,
    start: int,
    i: int,
    opposite: Seq<char>,
)
    requires
        one_row_for_each_status(rows),
        0 <= i < rows.len(),
        rows[i].votes > 0,
        0 <= rows[i].bin < bin_count(interval_minutes),
        (rows[i].status@ == "Charging"@ && opposite == "Discharging"@) || (rows[i].status@
            == "Discharging"@ && opposite == "Charging"@),
        forall|j: int|
            0 <= j < rows.len() && (#[trigger] rows[j]).bin == rows[i].bin ==> rows[j].votes
                <= rows[i].votes && (rows[j].status@ == opposite ==> 0 < rows[j].votes
                < rows[i].votes),
    ensures
        day_bins(rows, interval_minutes, start)[rows[i].bin as int].status == rows[i].status@,
{
    let k = rows[i].bin as int;
    lemma_votes_for(rows, i);
    if exists|j: int|
        0 <= j < rows.len() && (#[trigger] rows[j]).bin == k && rows[j].status@ == opposite {
        let j = choose|j: int|
            0 <= j < rows.len() && (#[trigger] rows[j]).bin == k && rows[j].status@ == opposite;
        lemma_votes_for(rows, j);
    } else {
        lemma_no_votes_for(rows, k, opposite);
    }
    assert(outvoted_by_none(rows, k, rows[i].votes as int));
    assert(directed(rows, k, rows[i].status@, opposite));
    law_bins_show_the_dominant_status(rows, interval_minutes, start, k, i);
}

/// A status that has more votes than every other in its bin is the one that the bin
/// shows.
pub proof fn law_the_majority_is_shown(
    rows: Seq<BinRow>,
    interval_minutes: int,
    start: int,
    i: int,
)
    requires
        0 <= i < rows.len(),
        0 <= rows[i].bin < bin_count(interval_minutes),
        forall|j: int|
            0 <= j < rows.len() && j != i && (#[trigger] rows[j]).bin == rows[i].bin
                ==> rows[j].votes < rows[i].votes,
    ensures
        day_bins(rows, interval_minutes, start)[rows[i].bin as int].status == rows[i].status@,
        day_bins(rows, interval_minutes, start)[rows[i].bin as int].capacity == rows[i].capacity,
{
    let k = rows[i].bin as int;
    law_bins_show_the_dominant_status(rows, interval_minutes, start, k, i);
    let j = choose|j: int|
        0 <= j < rows.len() && #[trigger] rows[j].bin == k && outvoted_by_none(
            rows,
            k,
            rows[j].votes as int,
        ) && day_bins(rows, interval_minutes, start)[k].status == rows[j].status@;
    assert(rows[i].bin == k);
    assert(j == i);
    lemma_some_row_leads(rows, k, i);
    let m = lemma_leading_row(rows, k);
    assert(m == i);
    law_bins_show_readings(rows, interval_minutes, start, k);
}

/// A chart asks for each reading where there are no more than points wanted, and
/// otherwise for spans as long as the window over the number of points, but no shorter
/// than a second.
pub proof fn law_spans_are_as_long_as_needed(count: int, seconds: int, max_points: int)
    ensures
        count <= max_points ==> chart_query(count, seconds, max_points) == GraphQuery::Rows,
        count > max_points ==> {
            let width = double::quotient(
                double::whole_signed(seconds),
                double::whole_signed(max_points),
            );
            chart_query(count, seconds, max_points) == GraphQuery::Spans(
                if !width.nan() && width.value() >= double::unit() {
                    width
                } else {
                    double::whole(1)
                },
            )
        },
{
    double::law_whole_numbers_are_exact(1);
    assert(double::whole(1) == double::whole_signed(1));
    assert(1 * double::unit() == double::unit());
}

/// Each value of a reading is stored under its own name, with the time that was given.
pub proof fn law_readings_are_stored_as_they_are(
    row: StoredReading,
    r: reader::ReadingView,
    timestamp: Seq<char>,
)
    requires
        stores(row, r, timestamp),
    ensures
        row.timestamp@ == timestamp && row.status@ == r.status,
        row.capacity == r.capacity && row.voltage == r.voltage && row.current_a == r.current_a,
        row.power_w == r.power && row.temperature_c == r.temperature,
        row.charge_now_ah == r.charge_now,
{
}

/// The program's data lies in a directory of its own, under the user's data directory or
/// the working directory.
pub proof fn law_data_has_its_own_directory(data_dir: Option<Seq<u8>>)
    ensures
        data_dir matches Some(d) ==> app_dir(data_dir) == path::under(d, "battery-monitor"@),
        data_dir is None ==> app_dir(data_dir) == path::under(
            path::bytes("."@),
            "battery-monitor"@,
        ),
{
}

/// How times are written, and how long readings are kept.
pub proof fn law_times_and_retention()
    ensures
        TS_FMT@ == "%Y-%m-%dT%H:%M:%S"@,
        DEFAULT_RETENTION_DAYS == 35,
{
}

} // verus!
