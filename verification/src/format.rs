//! What is shown of readings: labels, colours and chart data.

use crate::decimal;
use crate::double;
use crate::double::Double;
use crate::steps;
use crate::text;
use vstd::prelude::*;

verus! {

/// A power with its unit, behind a sign.
pub open spec fn signed_watts(sign: Seq<char>, power: Double) -> Seq<char> {
    sign + decimal::fixed(power, 1) + "W"@
}

/// The label beside the tray icon: the power with a sign while it is known and the
/// battery charges or discharges, `100%` for a full battery, and otherwise the
/// charge, or nothing where that is not known.
pub open spec fn tray_label(
    status: Seq<char>,
    power: Option<Double>,
    capacity: Option<Double>,
) -> Seq<char> {
    if status == "Charging"@ && power is Some {
        signed_watts("+"@, power->0)
    } else if status == "Discharging"@ && power is Some {
        signed_watts("-"@, power->0)
    } else if status == "Full"@ {
        "100%"@
    } else {
        match capacity {
            Some(c) => decimal::fixed(double::rounded(c), 0) + "%"@,
            None => seq![],
        }
    }
}

fn watts_text(sign: &str, power: Double) -> (r: String)
    ensures
        r@ == signed_watts(sign@, power),
{
    let mut out: Vec<char> = text::characters(sign);
    text::add_all(&mut out, decimal::fixed_text(power, 1));
    text::add(&mut out, "W");
    text::string_of(out.as_slice())
}

/// The label beside the tray icon.
pub fn format_tray_label(
    status: &str,
    power: Option<Double>,
    capacity: Option<Double>,
) -> (r: String)
    ensures
        r@ == tray_label(status@, power, capacity),
{
    if text::same(status, "Charging") {
        if let Some(p) = power {
            return watts_text("+", p);
        }
    }
    if text::same(status, "Discharging") {
        if let Some(p) = power {
            return watts_text("-", p);
        }
    }
    if text::same(status, "Full") {
        return "100%".to_owned();
    }
    if let Some(c) = capacity {
        let mut out: Vec<char> = decimal::fixed_text(c.round(), 0);
        text::add(&mut out, "%");
        return text::string_of(out.as_slice());
    }
    let empty: String = String::new();
    assert(empty@ =~= seq![]);
    empty
}

/// A colour by its parts of red, green and blue, in hundredths.
pub open spec fn hundredths(red: nat, green: nat, blue: nat) -> (Double, Double, Double) {
    (
        decimal::decimal_number(red, 2),
        decimal::decimal_number(green, 2),
        decimal::decimal_number(blue, 2),
    )
}

/// The colour of a status: red, green and blue, each from zero to one.
pub open spec fn status_color(status: Seq<char>) -> (Double, Double, Double) {
    if status == "Charging"@ {
        hundredths(18, 80, 44)
    } else if status == "Discharging"@ {
        hundredths(90, 22, 38)
    } else if status == "Full"@ {
        hundredths(22, 76, 62)
    } else {
        hundredths(60, 60, 60)
    }
}

fn color(red: u64, green: u64, blue: u64) -> (r: (Double, Double, Double))
    ensures
        r == hundredths(red as nat, green as nat, blue as nat),
{
    (decimal::number(red, 2), decimal::number(green, 2), decimal::number(blue, 2))
}

/// The colour of a status: red, green and blue, each from zero to one.
pub fn color_for_status(status: &str) -> (r: (Double, Double, Double))
    ensures
        r == status_color(status@),
{
    if text::same(status, "Charging") {
        color(18, 80, 44)
    } else if text::same(status, "Discharging") {
        color(90, 22, 38)
    } else if text::same(status, "Full") {
        color(22, 76, 62)
    } else {
        color(60, 60, 60)
    }
}

/// Whether more than `max_gap` lies between the sample `i` and the one before.
pub open spec fn gap_before(times: Seq<Double>, max_gap: Double, i: int) -> bool {
    0 < i < times.len() && max_gap.less(double::difference(times[i], times[i - 1]))
}

/// `points` cut wherever there is a gap before one of them.
pub open spec fn runs<T>(times: Seq<Double>, points: Seq<T>, max_gap: Double) -> Seq<Seq<T>>
    decreases points.len(),
{
    if points.len() == 0 {
        seq![]
    } else {
        extended(
            runs(times, points.drop_last(), max_gap),
            points.last(),
            points.len() == 1 || gap_before(times, max_gap, points.len() - 1),
        )
    }
}

/// Runs with one more point, in a run of its own or at the end of the last one.
pub open spec fn extended<T>(earlier: Seq<Seq<T>>, point: T, alone: bool) -> Seq<Seq<T>> {
    if alone {
        earlier.push(seq![point])
    } else {
        earlier.drop_last().push(earlier.last().push(point))
    }
}

/// Whether `b` is made of clones of the items of `a`.
pub open spec fn clones<T: Clone>(a: Seq<T>, b: Seq<T>) -> bool {
    &&& a.len() == b.len()
    &&& forall|i: int| 0 <= i < a.len() ==> cloned(a[i], #[trigger] b[i])
}

/// Runs are there as soon as there are points.
proof fn lemma_runs<T>(times: Seq<Double>, points: Seq<T>, max_gap: Double)
    ensures
        points.len() > 0 ==> runs(times, points, max_gap).len() > 0,
    decreases points.len(),
{
    if points.len() > 0 {
        lemma_runs(times, points.drop_last(), max_gap);
    }
}

/// Cuts `points` into runs wherever more than `max_gap` lies between two samples
/// that follow each other; `ts_list` holds their times.
pub fn split_on_gaps<T: Clone>(ts_list: &[Double], points: &[T], max_gap: Double) -> (r: Vec<
    Vec<T>,
>)
    ensures
        r@.len() == runs(ts_list@, points@, max_gap).len(),
        forall|i: int|
            0 <= i < r@.len() ==> clones(
                runs(ts_list@, points@, max_gap)[i],
                (#[trigger] r@[i])@,
            ),
{
    let mut chunks: Vec<Vec<T>> = Vec::new();
    let mut current: Vec<T> = Vec::new();
    let mut i: usize = 0;
    while i < points.len()
        invariant
            i <= points@.len(),
            (i == 0) == (current@.len() == 0),
            runs(ts_list@, points@.take(i as int), max_gap).len() == chunks@.len() + (if i == 0 {
                0int
            } else {
                1int
            }),
            i > 0 ==> clones(
                runs(ts_list@, points@.take(i as int), max_gap).last(),
                current@,
            ),
            forall|k: int|
                0 <= k < chunks@.len() ==> clones(
                    runs(ts_list@, points@.take(i as int), max_gap)[k],
                    (#[trigger] chunks@[k])@,
                ),
        decreases points@.len() - i,
    {
        let ghost earlier = runs(ts_list@, points@.take(i as int), max_gap);
        let ghost later = runs(ts_list@, points@.take(i + 1), max_gap);
        let ghost held = current@;
        proof {
            assert(points@.take(i + 1).drop_last() =~= points@.take(i as int));
            assert(points@.take(i + 1).last() == points@[i as int]);
        }
        if i > 0 && i < ts_list.len() && max_gap.lt(ts_list[i].minus(ts_list[i - 1])) {
            let mut full: Vec<T> = Vec::new();
            std::mem::swap(&mut full, &mut current);
            chunks.push(full);
            assert(later =~= earlier.push(seq![points@[i as int]]));
        }
        current.push(points[i].clone());
        assert(clones(later.last(), current@));
        i = i + 1;
    }
    assert(points@.take(points@.len() as int) =~= points@);
    if current.len() > 0 {
        chunks.push(current);
    }
    chunks
}

/// The runs put together again are the points, and no run is empty.
pub proof fn law_runs_hold_the_points<T>(times: Seq<Double>, points: Seq<T>, max_gap: Double)
    ensures
        runs(times, points, max_gap).flatten() == points,
        forall|i: int|
            0 <= i < runs(times, points, max_gap).len() ==> (#[trigger] runs(
                times,
                points,
                max_gap,
            )[i]).len() > 0,
    decreases points.len(),
{
    let r = runs(times, points, max_gap);
    if points.len() > 0 {
        let earlier = runs(times, points.drop_last(), max_gap);
        law_runs_hold_the_points(times, points.drop_last(), max_gap);
        lemma_runs(times, points.drop_last(), max_gap);
        if points.len() == 1 || gap_before(times, max_gap, points.len() - 1) {
            lemma_flatten_push(earlier, seq![points.last()]);
            assert(points.drop_last() + seq![points.last()] =~= points);
        } else {
            let front = earlier.drop_last();
            assert(earlier =~= front.push(earlier.last()));
            lemma_flatten_push(front, earlier.last());
            lemma_flatten_push(front, earlier.last().push(points.last()));
            assert(front.flatten() + earlier.last().push(points.last()) =~= (front.flatten()
                + earlier.last()).push(points.last()));
            assert(points.drop_last().push(points.last()) =~= points);
            assert(earlier[earlier.len() - 1].len() > 0);
        }
        assert forall|i: int| 0 <= i < r.len() implies (#[trigger] r[i]).len() > 0 by {
            if i < r.len() - 1 {
                assert(r[i] == earlier[i]);
            }
        }
    } else {
        assert(r.flatten() =~= points);
    }
}

proof fn lemma_flatten_push<T>(s: Seq<Seq<T>>, x: Seq<T>)
    ensures
        s.push(x).flatten() == s.flatten() + x,
    decreases s.len(),
{
    if s.len() == 0 {
        assert(s.push(x).drop_first() =~= seq![]);
        assert(s.push(x).flatten() =~= x + Seq::<Seq<T>>::empty().flatten());
        assert(s.flatten() =~= seq![]);
        assert(s.push(x).flatten() =~= s.flatten() + x);
    } else {
        assert(s.push(x).drop_first() =~= s.drop_first().push(x));
        lemma_flatten_push(s.drop_first(), x);
        assert(s.push(x).flatten() =~= s.flatten() + x);
    }
}

/// Other runs ahead make no difference to how a point is added.
proof fn lemma_extended_behind<T>(ahead: Seq<Seq<T>>, runs: Seq<Seq<T>>, point: T, alone: bool)
    requires
        alone || runs.len() > 0,
    ensures
        extended(ahead + runs, point, alone) == ahead + extended(runs, point, alone),
{
    let all = ahead + runs;
    if alone {
        assert(all.push(seq![point]) =~= ahead + runs.push(seq![point]));
    } else {
        assert(all.last() == runs.last());
        assert(all.drop_last() =~= ahead + runs.drop_last());
        assert(all.drop_last().push(runs.last().push(point)) =~= ahead + runs.drop_last().push(
            runs.last().push(point),
        ));
    }
}

/// Points are cut at every gap: a gap before the point `k` parts the runs before it
/// from those behind it.
pub proof fn law_gap_parts_runs<T>(times: Seq<Double>, points: Seq<T>, max_gap: Double, k: int)
    requires
        0 < k < points.len(),
        gap_before(times, max_gap, k),
    ensures
        runs(times, points, max_gap) == runs(times, points.take(k), max_gap) + runs(
            times.skip(k),
            points.skip(k),
            max_gap,
        ),
    decreases points.len(),
{
    let shorter = points.drop_last();
    let last = points.len() - 1;
    let front = runs(times, points.take(k), max_gap);
    let tail = runs(times.skip(k), points.skip(k).drop_last(), max_gap);
    let alone = gap_before(times, max_gap, last);
    assert(points.skip(k).last() == points.last());
    if last == k {
        assert(shorter =~= points.take(k));
        assert(points.skip(k).drop_last() =~= seq![]);
        assert(tail =~= seq![]);
        assert(front + tail =~= front);
    } else {
        law_gap_parts_runs(times, shorter, max_gap, k);
        assert(shorter.take(k) =~= points.take(k));
        assert(shorter.skip(k) =~= points.skip(k).drop_last());
        lemma_runs(times.skip(k), shorter.skip(k), max_gap);
        assert(gap_before(times.skip(k), max_gap, last - k) == alone);
    }
    assert(runs(times, shorter, max_gap) == front + tail);
    lemma_extended_behind(front, tail, points.last(), alone);
}

/// Without a gap there is one run.
pub proof fn law_no_gap_one_run<T>(times: Seq<Double>, points: Seq<T>, max_gap: Double)
    requires
        points.len() > 0,
        forall|i: int| 0 < i < points.len() ==> !#[trigger] gap_before(times, max_gap, i),
    ensures
        runs(times, points, max_gap) == seq![points],
    decreases points.len(),
{
    if points.len() > 1 {
        law_no_gap_one_run(times, points.drop_last(), max_gap);
        assert(points.drop_last().push(points.last()) =~= points);
        assert(!gap_before(times, max_gap, points.len() - 1));
    } else {
        assert(points =~= seq![points.last()]);
        assert(runs(times, points.drop_last(), max_gap) =~= seq![]);
    }
    assert(runs(times, points, max_gap) =~= seq![points]);
}

/// The charge over one interval of time.
#[derive(Debug, PartialEq)]
pub struct IntervalBin {
    /// Charge in percent.
    pub capacity: Double,
    /// Status.
    pub status: String,
    /// When the interval starts, in seconds since the epoch.
    pub timestamp: i64,
}

/// An [`IntervalBin`] by its status.
pub struct BinView {
    /// Charge in percent.
    pub capacity: Double,
    /// Status.
    pub status: Seq<char>,
    /// When the interval starts, in seconds since the epoch.
    pub timestamp: i64,
}

impl View for IntervalBin {
    type V = BinView;

    open spec fn view(&self) -> BinView {
        BinView { capacity: self.capacity, status: self.status@, timestamp: self.timestamp }
    }
}

impl Clone for IntervalBin {
    fn clone(&self) -> (r: IntervalBin)
        ensures
            r@ == self@,
    {
        IntervalBin {
            capacity: self.capacity,
            status: self.status.clone(),
            timestamp: self.timestamp,
        }
    }
}

/// Bins by their views.
pub open spec fn bin_views(s: Seq<IntervalBin>) -> Seq<BinView> {
    Seq::new(s.len(), |i: int| s[i]@)
}

/// The charges of the bins added up, from the first on.
pub open spec fn total(s: Seq<BinView>) -> Double
    decreases s.len(),
{
    if s.len() == 0 {
        double::whole(0)
    } else if s.len() == 1 {
        s[0].capacity
    } else {
        double::sum(total(s.drop_last()), s.last().capacity)
    }
}

/// How many of the bins have that status.
pub open spec fn count_of(s: Seq<BinView>, status: Seq<char>) -> nat
    decreases s.len(),
{
    if s.len() == 0 {
        0
    } else {
        count_of(s.drop_last(), status) + (if s.last().status == status {
            1nat
        } else {
            0nat
        })
    }
}

/// Which way the charge mostly went: charging or discharging, whichever more bins
/// have, and `last` where neither is ahead. Bins with another status have no say.
pub open spec fn direction(charging: nat, discharging: nat, last: Seq<char>) -> Seq<char> {
    if charging > discharging {
        "Charging"@
    } else if discharging > charging {
        "Discharging"@
    } else {
        last
    }
}

/// Bins that follow each other as one: the mean charge, the direction in which the
/// charge mostly went, or the last bin's status where there is none, and the time of
/// the last.
pub open spec fn merged(chunk: Seq<BinView>) -> BinView {
    BinView {
        capacity: double::quotient(total(chunk), double::whole(chunk.len())),
        status: direction(
            count_of(chunk, "Charging"@),
            count_of(chunk, "Discharging"@),
            chunk.last().status,
        ),
        timestamp: chunk.last().timestamp,
    }
}

/// Where the part `i` starts, of `n` bins in `parts` parts: where the step `i` begins,
/// but so that each part has a bin. The last part ends with the bins.
pub open spec fn part_start(n: nat, parts: nat, i: int) -> int
    decreases i,
{
    if i <= 0 {
        0
    } else if i >= parts {
        n as int
    } else {
        let least = part_start(n, parts, i - 1) + 1;
        let most = n - (parts - i);
        let at = steps::step_start(n, parts, i as nat);
        if at < least {
            least
        } else if at > most {
            most
        } else {
            at as int
        }
    }
}

/// The part `i` of the bins, of `parts` parts: up to where the next one starts.
pub open spec fn part(data: Seq<BinView>, parts: nat, i: int) -> Seq<BinView> {
    data.subrange(part_start(data.len(), parts, i), part_start(data.len(), parts, i + 1))
}

/// At most `max_bins` bins for `data`, each a part of it as one; as many as there are
/// where that is zero.
pub open spec fn aggregated(data: Seq<BinView>, max_bins: nat) -> Seq<BinView> {
    if data.len() <= max_bins || max_bins == 0 {
        data
    } else {
        Seq::new(max_bins, |i: int| merged(part(data, max_bins, i)))
    }
}

/// With more bins than parts, the parts that follow have a bin each.
proof fn lemma_part_start_bound(n: nat, parts: nat, i: int)
    requires
        0 < parts < n,
        0 <= i <= parts,
    ensures
        i <= part_start(n, parts, i) <= n - (parts - i),
    decreases i,
{
    if i > 0 {
        lemma_part_start_bound(n, parts, i - 1);
    }
}

/// With more bins than parts, each part lies within the bins and has one at least.
proof fn lemma_part_start(n: nat, parts: nat, i: int)
    requires
        0 < parts < n,
        0 <= i < parts,
    ensures
        0 <= part_start(n, parts, i) < part_start(n, parts, i + 1) <= n,
        part_start(n, parts, 0) == 0,
        part_start(n, parts, parts as int) == n,
{
    lemma_part_start_bound(n, parts, i);
    lemma_part_start_bound(n, parts, i + 1);
}

/// Where the part behind one that starts at `previous` starts.
fn next_start(n: usize, parts: usize, i: usize, previous: usize, step: Double) -> (r: usize)
    requires
        0 < i <= parts,
        parts < n,
        previous == part_start(n as nat, parts as nat, i - 1),
        step == steps::step(n as nat, parts as nat),
    ensures
        r == part_start(n as nat, parts as nat, i as int),
{
    proof {
        lemma_part_start_bound(n as nat, parts as nat, i - 1);
    }
    if i == parts {
        return n;
    }
    let least: usize = previous + 1;
    let most: usize = n - (parts - i);
    let at: usize = Double::from_u64(i as u64).times(step).to_usize();
    if at < least {
        least
    } else if at > most {
        most
    } else {
        at
    }
}

/// The bins from `a` to `b` as one.
fn merge(data: &[IntervalBin], a: usize, b: usize) -> (r: IntervalBin)
    requires
        a < b <= data@.len(),
    ensures
        r@ == merged(bin_views(data@).subrange(a as int, b as int)),
{
    let ghost views = bin_views(data@);
    let mut sum: Double = data[a].capacity;
    let mut charging: usize = 0;
    let mut discharging: usize = 0;
    let mut i: usize = a;
    assert(views.subrange(a as int, a as int) =~= seq![]);
    while i < b
        invariant
            a <= i <= b <= data@.len(),
            views == bin_views(data@),
            i == a ==> sum == data@[a as int].capacity,
            i > a ==> sum == total(views.subrange(a as int, i as int)),
            charging == count_of(views.subrange(a as int, i as int), "Charging"@),
            discharging == count_of(views.subrange(a as int, i as int), "Discharging"@),
            charging <= i - a,
            discharging <= i - a,
        decreases b - i,
    {
        let ghost longer = views.subrange(a as int, i + 1);
        assert(longer.drop_last() =~= views.subrange(a as int, i as int));
        assert(longer.last() == data@[i as int]@);
        if i > a {
            sum = sum.plus(data[i].capacity);
        } else {
            assert(longer.len() == 1);
        }
        if text::same(data[i].status.as_str(), "Charging") {
            charging = charging + 1;
        }
        if text::same(data[i].status.as_str(), "Discharging") {
            discharging = discharging + 1;
        }
        i = i + 1;
    }
    let ghost chunk = views.subrange(a as int, b as int);
    assert(chunk.last() == data@[b - 1]@);
    let status: String = if charging > discharging {
        "Charging".to_owned()
    } else if discharging > charging {
        "Discharging".to_owned()
    } else {
        data[b - 1].status.clone()
    };
    IntervalBin {
        capacity: sum.over(Double::from_u64((b - a) as u64)),
        status,
        timestamp: data[b - 1].timestamp,
    }
}

/// Joins bins that follow each other, so that there are at most `max_bins`. Bins
/// that are few enough, or a limit of zero, stay as they are.
pub fn aggregate_bins(data: &[IntervalBin], max_bins: usize) -> (r: Vec<IntervalBin>)
    ensures
        bin_views(r@) == aggregated(bin_views(data@), max_bins as nat),
{
    let n: usize = data.len();
    let ghost views = bin_views(data@);
    let mut out: Vec<IntervalBin> = Vec::new();
    if n <= max_bins || max_bins == 0 {
        let mut i: usize = 0;
        while i < n
            invariant
                i <= n == data@.len(),
                views == bin_views(data@),
                bin_views(out@) =~= views.take(i as int),
            decreases n - i,
        {
            let ghost before = bin_views(out@);
            out.push(data[i].clone());
            assert(bin_views(out@) =~= before.push(data@[i as int]@));
            i = i + 1;
        }
        assert(views.take(n as int) =~= views);
        return out;
    }
    let step: Double = Double::from_u64(n as u64).over(Double::from_u64(max_bins as u64));
    let mut k: usize = 0;
    let mut a: usize = 0;
    while k < max_bins
        invariant
            k <= max_bins,
            0 < max_bins < n,
            n == data@.len(),
            views == bin_views(data@),
            step == steps::step(n as nat, max_bins as nat),
            a == part_start(n as nat, max_bins as nat, k as int),
            bin_views(out@) =~= Seq::new(k as nat, |i: int| merged(part(views, max_bins as nat, i))),
        decreases max_bins - k,
    {
        proof {
            lemma_part_start(n as nat, max_bins as nat, k as int);
        }
        let b: usize = next_start(n, max_bins, k + 1, a, step);
        let ghost before = bin_views(out@);
        out.push(merge(data, a, b));
        assert(bin_views(out@) =~= before.push(merged(part(views, max_bins as nat, k as int))));
        a = b;
        k = k + 1;
    }
    out
}

/// There are as many bins as asked for where there were more, and bins that are few
/// enough, or for which no limit was given, stay as they are.
pub proof fn law_aggregation_is_bounded(data: Seq<BinView>, max_bins: nat)
    ensures
        max_bins > 0 ==> aggregated(data, max_bins).len() == (if data.len() < max_bins {
            data.len()
        } else {
            max_bins
        }),
        data.len() <= max_bins || max_bins == 0 ==> aggregated(data, max_bins) == data,
{
}

/// Joining bins a second time changes nothing.
pub proof fn law_aggregation_settles(data: Seq<BinView>, max_bins: nat)
    ensures
        aggregated(aggregated(data, max_bins), max_bins) == aggregated(data, max_bins),
{
}

/// The first `k` parts of the bins, joined in their order.
pub open spec fn joined(data: Seq<BinView>, parts: nat, k: nat) -> Seq<BinView>
    decreases k,
{
    if k == 0 {
        seq![]
    } else {
        joined(data, parts, (k - 1) as nat) + part(data, parts, k - 1)
    }
}

/// Every bin goes into the result once, in its order: where bins are joined, each
/// part has one bin or more, the parts in their order are exactly the bins there
/// were, and the last one shows the time of the newest.
pub proof fn law_aggregation_keeps_every_bin(data: Seq<BinView>, max_bins: nat)
    requires
        0 < max_bins < data.len(),
    ensures
        joined(data, max_bins, max_bins) == data,
        forall|i: int| 0 <= i < max_bins ==> #[trigger] part(data, max_bins, i).len() > 0,
        aggregated(data, max_bins).last().timestamp == data.last().timestamp,
{
    assert forall|i: int| 0 <= i < max_bins implies #[trigger] part(data, max_bins, i).len() > 0 by {
        lemma_part_start(data.len(), max_bins, i);
    }
    lemma_joined(data, max_bins, max_bins);
    lemma_part_start(data.len(), max_bins, max_bins - 1);
    assert(data.take(data.len() as int) =~= data);
    assert(part(data, max_bins, max_bins - 1).last() == data.last());
}

/// Bins are joined in steps of equal size: each part but the first starts at the whole
/// part of as many steps. (This holds of up to 2^51 bins, more than any memory holds.)
pub proof fn law_parts_are_equal_steps(n: nat, parts: nat, i: int)
    requires
        0 < parts < n,
        0 <= i < parts,
        n <= double::STEP / 2,
        n <= usize::MAX,
    ensures
        part_start(n, parts, i) == steps::step_start(n, parts, i as nat),
    decreases i,
{
    steps::law_steps_begin_apart(n, parts, i as nat);
    if i > 0 {
        law_parts_are_equal_steps(n, parts, i - 1);
        steps::law_steps_begin_apart(n, parts, (i - 1) as nat);
        lemma_steps_leave_room(n, parts, i as nat);
    }
}

proof fn lemma_steps_leave_room(n: nat, parts: nat, i: nat)
    requires
        i < parts < n,
        n <= double::STEP / 2,
        n <= usize::MAX,
    ensures
        steps::step_start(n, parts, i) <= n - (parts - i),
    decreases parts - i,
{
    steps::law_steps_begin_apart(n, parts, i);
    if i + 1 < parts {
        lemma_steps_leave_room(n, parts, i + 1);
    }
}

proof fn lemma_joined(data: Seq<BinView>, parts: nat, k: nat)
    requires
        0 < parts < data.len(),
        k <= parts,
    ensures
        joined(data, parts, k) == data.take(part_start(data.len(), parts, k as int)),
    decreases k,
{
    if k > 0 {
        lemma_part_start(data.len(), parts, k - 1);
        lemma_joined(data, parts, (k - 1) as nat);
        let a = part_start(data.len(), parts, k - 1);
        let b = part_start(data.len(), parts, k as int);
        assert(part(data, parts, k - 1) == data.subrange(a, b));
        assert(data.take(a) + data.subrange(a, b) =~= data.take(b));
    } else {
        lemma_part_start(data.len(), parts, 0);
        assert(data.take(0) =~= seq![]);
    }
}

proof fn lemma_count_of(s: Seq<BinView>, status: Seq<char>)
    ensures
        count_of(s, status) == s.filter(|b: BinView| b.status == status).len(),
    decreases s.len(),
{
    reveal(Seq::filter);
    if s.len() > 0 {
        lemma_count_of(s.drop_last(), status);
    }
}

/// Where bins are joined, the status of each result is the way that the charge went in
/// most of its bins: charging if more of them charge than discharge, discharging if more
/// discharge than charge, and that of the last bin if as many do either.
pub proof fn law_joined_bins_show_the_direction(data: Seq<BinView>, max_bins: nat, i: int)
    requires
        0 < max_bins < data.len(),
        0 <= i < max_bins,
    ensures
        ({
            let bins = part(data, max_bins, i);
            let up = bins.filter(|b: BinView| b.status == "Charging"@).len();
            let down = bins.filter(|b: BinView| b.status == "Discharging"@).len();
            let status = aggregated(data, max_bins)[i].status;
            &&& up > down ==> status == "Charging"@
            &&& down > up ==> status == "Discharging"@
            &&& up == down ==> status == bins.last().status
        }),
{
    lemma_count_of(part(data, max_bins, i), "Charging"@);
    lemma_count_of(part(data, max_bins, i), "Discharging"@);
}

/// Bins that all have one status are joined to a bin with that status.
pub proof fn law_bins_of_one_status_keep_it(
    data: Seq<BinView>,
    max_bins: nat,
    i: int,
    status: Seq<char>,
)
    requires
        0 < max_bins < data.len(),
        0 <= i < max_bins,
        forall|k: int|
            0 <= k < part(data, max_bins, i).len() ==> (#[trigger] part(data, max_bins, i)[k]).status
                == status,
    ensures
        aggregated(data, max_bins)[i].status == status,
{
    let bins = part(data, max_bins, i);
    lemma_part_start(data.len(), max_bins, i);
    assert(bins.len() > 0);
    lemma_count_of_one_status(bins, status, "Charging"@);
    lemma_count_of_one_status(bins, status, "Discharging"@);
    reveal_strlit("Charging");
    reveal_strlit("Discharging");
    assert("Charging"@.len() != "Discharging"@.len());
    assert(bins[bins.len() - 1].status == status);
}

proof fn lemma_count_of_one_status(s: Seq<BinView>, status: Seq<char>, other: Seq<char>)
    requires
        forall|k: int| 0 <= k < s.len() ==> (#[trigger] s[k]).status == status,
    ensures
        count_of(s, other) == (if other == status {
            s.len()
        } else {
            0
        }),
    decreases s.len(),
{
    if s.len() > 0 {
        let front = s.drop_last();
        assert forall|k: int| 0 <= k < front.len() implies (#[trigger] front[k]).status == status by {
            assert(front[k] == s[k]);
        }
        assert(s[s.len() - 1].status == status);
        lemma_count_of_one_status(front, status, other);
    }
}

/// Where bins are joined, each result has the time of the last of its bins and their
/// mean charge: their charges added up from the first on, over their number.
pub proof fn law_joined_bins_show_the_mean(data: Seq<BinView>, max_bins: nat, i: int)
    requires
        0 < max_bins < data.len(),
        0 <= i < max_bins,
    ensures
        ({
            let bins = part(data, max_bins, i);
            let sum = bins.drop_first().fold_left(
                bins[0].capacity,
                |s: Double, b: BinView| double::sum(s, b.capacity),
            );
            let result = aggregated(data, max_bins)[i];
            &&& result.capacity == double::quotient(sum, double::whole(bins.len()))
            &&& result.timestamp == bins.last().timestamp
        }),
{
    let bins = part(data, max_bins, i);
    lemma_part_start(data.len(), max_bins, i);
    lemma_total(bins);
}

proof fn lemma_total(s: Seq<BinView>)
    requires
        s.len() > 0,
    ensures
        total(s) == s.drop_first().fold_left(
            s[0].capacity,
            |t: Double, b: BinView| double::sum(t, b.capacity),
        ),
    decreases s.len(),
{
    let add = |t: Double, b: BinView| double::sum(t, b.capacity);
    let rest = s.drop_first();
    reveal(Seq::fold_left);
    if s.len() > 1 {
        lemma_total(s.drop_last());
        assert(s.drop_last().drop_first() =~= rest.drop_last());
        assert(rest.last() == s.last());
        assert(s.drop_last()[0] == s[0]);
    }
}

/// What the label beside the tray icon says: the power with a plus while the battery
/// charges and with a minus while it discharges, where it is known; a hundred percent for
/// a full battery; and otherwise the charge, rounded to whole percent, or nothing.
pub proof fn law_tray_label(status: Seq<char>, power: Option<Double>, capacity: Option<Double>)
    ensures
        ({
            let label = tray_label(status, power, capacity);
            &&& status == "Charging"@ ==> (power matches Some(p) ==> label == "+"@ + decimal::fixed(
                p,
                1,
            ) + "W"@)
            &&& status == "Discharging"@ ==> (power matches Some(p) ==> label == "-"@
                + decimal::fixed(p, 1) + "W"@)
            &&& status == "Full"@ ==> label == "100%"@
            &&& status != "Full"@ && (power is None || (status != "Charging"@ && status
                != "Discharging"@)) ==> {
                &&& capacity matches Some(c) ==> label == decimal::fixed(double::rounded(c), 0)
                    + "%"@
                &&& capacity is None ==> label.len() == 0
            }
        }),
{
    reveal_strlit("Charging");
    reveal_strlit("Discharging");
    reveal_strlit("Full");
    assert("Charging"@.len() == 8 && "Discharging"@.len() == 11 && "Full"@.len() == 4);
}

/// The colours of the statuses, in hundredths of red, green and blue.
pub proof fn law_status_colors(status: Seq<char>)
    ensures
        ({
            let part = |hundredths: nat| decimal::decimal_number(hundredths, 2);
            let color = status_color(status);
            &&& status == "Charging"@ ==> color == (part(18), part(80), part(44))
            &&& status == "Discharging"@ ==> color == (part(90), part(22), part(38))
            &&& status == "Full"@ ==> color == (part(22), part(76), part(62))
            &&& status != "Charging"@ && status != "Discharging"@ && status != "Full"@ ==> color == (
                part(60),
                part(60),
                part(60),
            )
        }),
{
    reveal_strlit("Charging");
    reveal_strlit("Discharging");
    reveal_strlit("Full");
    assert("Charging"@.len() == 8 && "Discharging"@.len() == 11 && "Full"@.len() == 4);
}

/// There is a gap before a point where more time than allowed has passed since the one
/// before it, and there is none where exactly as much has, or where a time is missing.
pub proof fn law_gaps_are_longer_than_allowed(times: Seq<Double>, max_gap: Double, i: int)
    ensures
        0 < i < times.len() ==> {
            let passed = double::difference(times[i], times[i - 1]);
            gap_before(times, max_gap, i) == (!passed.nan() && !max_gap.nan() && passed.value()
                > max_gap.value())
        },
        i <= 0 || i >= times.len() ==> !gap_before(times, max_gap, i),
{
}

/// The tray label is blank only where there is nothing to tell.
pub proof fn law_label_is_blank_without_data_only(
    status: Seq<char>,
    power: Option<Double>,
    capacity: Option<Double>,
)
    ensures
        tray_label(status, power, capacity).len() == 0 ==> capacity is None && status != "Full"@
            && (power is None || (status != "Charging"@ && status != "Discharging"@)),
{
    reveal_strlit("100%");
    reveal_strlit("%");
    reveal_strlit("W");
    assert("100%"@.len() == 4 && "%"@.len() == 1 && "W"@.len() == 1);
}

} // verus!
