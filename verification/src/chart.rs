//! What the viewer shows of the recorded traffic of a period: the per-bar totals
//! of the chart, the overall totals, and the labels and scale of the chart.
use vstd::prelude::*;
use crate::period::PeriodType;
use crate::units::{format_bytes, format_bytes_spec};

verus! {

/// One recorded row: the traffic of one program with one peer during one
/// recording interval starting at `timestamp`.
#[derive(Clone, Debug)]
pub struct Stat {
    pub timestamp: i64,
    pub exe: Option<String>,
    pub raddr: String,
    pub send: u64,
    pub recv: u64,
}

/// The traffic of one bar of the chart, starting at `timestamp`.
#[derive(Clone, Copy, Debug, Default)]
pub struct TimeStat {
    pub timestamp: i64,
    pub download: u64,
    pub upload: u64,
}

/// The traffic of one program (`None`: a program that could not be identified).
#[derive(Clone, Debug)]
pub struct AppStat {
    pub exe: Option<String>,
    pub download: u64,
    pub upload: u64,
}

/// Received bytes of the rows `a..b`.
pub open spec fn range_recv(rows: Seq<Stat>, a: int, b: int) -> nat
    decreases b - a,
{
    if b <= a {
        0
    } else {
        range_recv(rows, a, b - 1) + rows[b - 1].recv as nat
    }
}

/// Sent bytes of the rows `a..b`.
pub open spec fn range_send(rows: Seq<Stat>, a: int, b: int) -> nat
    decreases b - a,
{
    if b <= a {
        0
    } else {
        range_send(rows, a, b - 1) + rows[b - 1].send as nat
    }
}

/// Where the bar starting at `t` stops taking rows: the first row from `c` on whose
/// timestamp is at least `intvl` past `t`, or the end of the rows.
pub open spec fn run_end(rows: Seq<Stat>, c: int, t: int, intvl: int) -> int
    decreases rows.len() - c,
{
    if c < 0 || c >= rows.len() || rows[c].timestamp - t >= intvl {
        c
    } else {
        run_end(rows, c + 1, t, intvl)
    }
}

/// The bars from `t` up to `end`, taking rows from `c` on: each bar takes the rows
/// that follow, in order, as long as they fall before the bar's end.
pub open spec fn bars(rows: Seq<Stat>, c: int, t: int, end: int, intvl: int) -> Seq<TimeStat>
    decreases (if t < end { end - t } else { 0 }),
{
    if intvl <= 0 || t >= end {
        seq![]
    } else {
        let e = run_end(rows, c, t, intvl);
        seq![TimeStat { timestamp: t as i64, download: range_recv(rows, c, e) as u64, upload: range_send(rows, c, e) as u64 }]
            + bars(rows, e, t + intvl, end, intvl)
    }
}

/// How many rows the bars from `t` up to `end` take, starting from row `c`.
pub open spec fn taken(rows: Seq<Stat>, c: int, t: int, end: int, intvl: int) -> int
    decreases (if t < end { end - t } else { 0 }),
{
    if intvl <= 0 || t >= end {
        c
    } else {
        taken(rows, run_end(rows, c, t, intvl), t + intvl, end, intvl)
    }
}

/// Rows, period ends and bar length stay far from the limits of `i64`.
pub open spec fn in_time_range(t: int) -> bool {
    -0x2000_0000_0000_0000 <= t <= 0x2000_0000_0000_0000
}

proof fn lemma_range_split(rows: Seq<Stat>, a: int, m: int, b: int)
    requires
        a <= m <= b,
    ensures
        range_recv(rows, a, b) == range_recv(rows, a, m) + range_recv(rows, m, b),
        range_send(rows, a, b) == range_send(rows, a, m) + range_send(rows, m, b),
    decreases b - m,
{
    if m < b {
        lemma_range_split(rows, a, m, b - 1);
    }
}

proof fn lemma_run_end_bounds(rows: Seq<Stat>, c: int, t: int, intvl: int)
    requires
        0 <= c <= rows.len(),
    ensures
        c <= run_end(rows, c, t, intvl) <= rows.len(),
    decreases rows.len() - c,
{
    if c < rows.len() && rows[c].timestamp - t < intvl {
        lemma_run_end_bounds(rows, c + 1, t, intvl);
    }
}

proof fn lemma_taken_bounds(rows: Seq<Stat>, c: int, t: int, end: int, intvl: int)
    requires
        0 <= c <= rows.len(),
        intvl > 0,
    ensures
        c <= taken(rows, c, t, end, intvl) <= rows.len(),
    decreases (if t < end { end - t } else { 0 }),
{
    if t < end {
        lemma_run_end_bounds(rows, c, t, intvl);
        lemma_taken_bounds(rows, run_end(rows, c, t, intvl), t + intvl, end, intvl);
    }
}

fn in_bar(s: &Stat, t: i64, intvl: i64) -> (b: bool)
    requires
        in_time_range(s.timestamp as int),
        in_time_range(t as int),
    ensures
        b == (s.timestamp - t < intvl),
{
    s.timestamp - t < intvl
}

/// Groups recorded rows into the bars of a chart that starts at `start`, ends before
/// `end` and has bars of `intvl` seconds, and totals them. The rows are taken in order:
/// each bar takes the rows that follow as long as they fall before the bar's end.
/// Returns the bars and the total received and sent bytes of the rows taken.
pub fn bucket_by_time(rows: &[Stat], start: i64, end: i64, intvl: i64) -> (r: (Vec<TimeStat>, u64, u64))
    requires
        intvl > 0,
        in_time_range(start as int),
        in_time_range(end as int),
        in_time_range(intvl as int),
        forall|i: int| 0 <= i < rows@.len() ==> in_time_range(#[trigger] rows@[i].timestamp as int),
        range_recv(rows@, 0, rows@.len() as int) <= u64::MAX,
        range_send(rows@, 0, rows@.len() as int) <= u64::MAX,
    ensures
        r.0@ == bars(rows@, 0, start as int, end as int, intvl as int),
        r.1 == range_recv(rows@, 0, taken(rows@, 0, start as int, end as int, intvl as int)),
        r.2 == range_send(rows@, 0, taken(rows@, 0, start as int, end as int, intvl as int)),
{
    let ghost all = rows@;
    let ghost n = rows@.len() as int;
    let mut by_time: Vec<TimeStat> = Vec::new();
    let mut total_download: u64 = 0;
    let mut total_upload: u64 = 0;
    let mut c: usize = 0;
    let mut t: i64 = start;
    while t < end
        invariant
            intvl > 0,
            in_time_range(start as int),
            in_time_range(end as int),
            in_time_range(intvl as int),
            forall|i: int| 0 <= i < all.len() ==> in_time_range(#[trigger] all[i].timestamp as int),
            range_recv(all, 0, n) <= u64::MAX,
            range_send(all, 0, n) <= u64::MAX,
            all == rows@,
            n == all.len(),
            0 <= c <= n,
            start <= t,
            t < end ==> in_time_range(t as int),
            total_download == range_recv(all, 0, c as int),
            total_upload == range_send(all, 0, c as int),
            bars(all, 0, start as int, end as int, intvl as int) == by_time@ + bars(all, c as int, t as int, end as int, intvl as int),
            taken(all, 0, start as int, end as int, intvl as int) == taken(all, c as int, t as int, end as int, intvl as int),
        decreases (if t < end { end - t } else { 0 }),
    {
        let ghost c0 = c as int;
        let mut time_stat = TimeStat { timestamp: t, download: 0, upload: 0 };
        while c < rows.len() && in_bar(&rows[c], t, intvl)
            invariant
                all == rows@,
                n == all.len(),
                c0 <= c <= n,
                in_time_range(t as int),
                forall|i: int| 0 <= i < all.len() ==> in_time_range(#[trigger] all[i].timestamp as int),
                run_end(all, c as int, t as int, intvl as int) == run_end(all, c0, t as int, intvl as int),
                time_stat.timestamp == t,
                time_stat.download == range_recv(all, c0, c as int),
                time_stat.upload == range_send(all, c0, c as int),
                range_recv(all, 0, n) <= u64::MAX,
                range_send(all, 0, n) <= u64::MAX,
                0 <= c0,
            decreases n - c,
        {
            proof {
                lemma_range_split(all, 0, c0, c as int + 1);
                lemma_range_split(all, 0, c as int + 1, n);
            }
            time_stat.download = time_stat.download + rows[c].recv;
            time_stat.upload = time_stat.upload + rows[c].send;
            c = c + 1;
        }
        proof {
            assert(run_end(all, c as int, t as int, intvl as int) == c);
            lemma_range_split(all, 0, c0, c as int);
            lemma_range_split(all, 0, c as int, n);
        }
        total_download = total_download + time_stat.download;
        total_upload = total_upload + time_stat.upload;
        let ghost before = by_time@;
        by_time.push(time_stat);
        proof {
            let ts = TimeStat {
                timestamp: t,
                download: range_recv(all, c0, c as int) as u64,
                upload: range_send(all, c0, c as int) as u64,
            };
            assert(time_stat == ts);
            assert(bars(all, c0, t as int, end as int, intvl as int)
                == seq![ts] + bars(all, c as int, t + intvl, end as int, intvl as int));
            assert(by_time@ + bars(all, c as int, t + intvl, end as int, intvl as int)
                =~= before + (seq![ts] + bars(all, c as int, t + intvl, end as int, intvl as int)));
        }
        t = t + intvl;
    }
    proof {
        assert(bars(all, c as int, t as int, end as int, intvl as int) =~= seq![]);
    }
    (by_time, total_download, total_upload)
}

/// All rows lie before `end` (the viewer's query takes rows within `[start, end)`).
pub open spec fn before_end(rows: Seq<Stat>, end: int) -> bool {
    forall|i: int| 0 <= i < rows.len() ==> #[trigger] rows[i].timestamp < end
}

/// Downloaded bytes over a sequence of bars.
pub open spec fn bars_download(bs: Seq<TimeStat>) -> nat
    decreases bs.len(),
{
    if bs.len() == 0 {
        0
    } else {
        bs[0].download as nat + bars_download(bs.drop_first())
    }
}

/// Uploaded bytes over a sequence of bars.
pub open spec fn bars_upload(bs: Seq<TimeStat>) -> nat
    decreases bs.len(),
{
    if bs.len() == 0 {
        0
    } else {
        bs[0].upload as nat + bars_upload(bs.drop_first())
    }
}

proof fn lemma_run_end_all(rows: Seq<Stat>, c: int, t: int, intvl: int)
    requires
        0 <= c <= rows.len(),
        forall|i: int| c <= i < rows.len() ==> #[trigger] rows[i].timestamp - t < intvl,
    ensures
        run_end(rows, c, t, intvl) == rows.len(),
    decreases rows.len() - c,
{
    if c < rows.len() {
        lemma_run_end_all(rows, c + 1, t, intvl);
    }
}

proof fn lemma_all_taken_from(rows: Seq<Stat>, c: int, t: int, end: int, intvl: int)
    requires
        intvl > 0,
        0 <= c <= rows.len(),
        t < end || c == rows.len(),
        before_end(rows, end),
    ensures
        taken(rows, c, t, end, intvl) == rows.len(),
    decreases (if t < end { end - t } else { 0 }),
{
    if t < end {
        let e = run_end(rows, c, t, intvl);
        lemma_run_end_bounds(rows, c, t, intvl);
        if t + intvl >= end {
            assert forall|i: int| c <= i < rows.len() implies #[trigger] rows[i].timestamp - t < intvl by {
                assert(rows[i].timestamp < end);
            }
            lemma_run_end_all(rows, c, t, intvl);
        }
        lemma_all_taken_from(rows, e, t + intvl, end, intvl);
    }
}

/// Every byte recorded before the end of a period is counted: when all rows lie
/// before `end` (in any order; rows before `start` go to the first bar), the bars
/// take every row, so the totals that `bucket_by_time` reports are the totals of
/// all rows.
pub proof fn lemma_every_row_counted(rows: Seq<Stat>, start: int, end: int, intvl: int)
    requires
        intvl > 0,
        start < end,
        before_end(rows, end),
    ensures
        taken(rows, 0, start, end, intvl) == rows.len(),
{
    lemma_all_taken_from(rows, 0, start, end, intvl);
}

proof fn lemma_bars_sum_from(rows: Seq<Stat>, c: int, t: int, end: int, intvl: int)
    requires
        intvl > 0,
        0 <= c <= rows.len(),
        range_recv(rows, 0, rows.len() as int) <= u64::MAX,
        range_send(rows, 0, rows.len() as int) <= u64::MAX,
    ensures
        bars_download(bars(rows, c, t, end, intvl)) == range_recv(rows, c, taken(rows, c, t, end, intvl)),
        bars_upload(bars(rows, c, t, end, intvl)) == range_send(rows, c, taken(rows, c, t, end, intvl)),
    decreases (if t < end { end - t } else { 0 }),
{
    if t < end {
        let e = run_end(rows, c, t, intvl);
        lemma_run_end_bounds(rows, c, t, intvl);
        lemma_taken_bounds(rows, e, t + intvl, end, intvl);
        let f = taken(rows, e, t + intvl, end, intvl);
        lemma_bars_sum_from(rows, e, t + intvl, end, intvl);
        lemma_range_split(rows, c, e, f);
        lemma_range_split(rows, 0, c, e);
        lemma_range_split(rows, 0, e, rows.len() as int);
        let bs = bars(rows, c, t, end, intvl);
        assert(bs.drop_first() =~= bars(rows, e, t + intvl, end, intvl));
    }
}

/// The overall totals are the sums of the bars.
pub proof fn lemma_totals_are_bar_sums(rows: Seq<Stat>, start: int, end: int, intvl: int)
    requires
        intvl > 0,
        range_recv(rows, 0, rows.len() as int) <= u64::MAX,
        range_send(rows, 0, rows.len() as int) <= u64::MAX,
    ensures
        bars_download(bars(rows, 0, start, end, intvl)) == range_recv(rows, 0, taken(rows, 0, start, end, intvl)),
        bars_upload(bars(rows, 0, start, end, intvl)) == range_send(rows, 0, taken(rows, 0, start, end, intvl)),
{
    lemma_bars_sum_from(rows, 0, start, end, intvl);
}

/// Received bytes of those of the rows `0..n` whose timestamps lie in `[lo, hi)`.
pub open spec fn window_recv(rows: Seq<Stat>, n: int, lo: int, hi: int) -> nat
    decreases n,
{
    if n <= 0 {
        0
    } else {
        window_recv(rows, n - 1, lo, hi) + (if lo <= rows[n - 1].timestamp < hi { rows[n - 1].recv as nat } else { 0 })
    }
}

/// Sent bytes of those of the rows `0..n` whose timestamps lie in `[lo, hi)`.
pub open spec fn window_send(rows: Seq<Stat>, n: int, lo: int, hi: int) -> nat
    decreases n,
{
    if n <= 0 {
        0
    } else {
        window_send(rows, n - 1, lo, hi) + (if lo <= rows[n - 1].timestamp < hi { rows[n - 1].send as nat } else { 0 })
    }
}

/// The rows come in time order.
pub open spec fn in_time_order(rows: Seq<Stat>) -> bool {
    forall|i: int, j: int| 0 <= i <= j < rows.len() ==> rows[i].timestamp <= rows[j].timestamp
}

proof fn lemma_run_end_split(rows: Seq<Stat>, c: int, t: int, intvl: int)
    requires
        0 <= c <= rows.len(),
        in_time_order(rows),
    ensures
        c <= run_end(rows, c, t, intvl) <= rows.len(),
        forall|i: int| c <= i < run_end(rows, c, t, intvl) ==> #[trigger] rows[i].timestamp - t < intvl,
        forall|i: int| run_end(rows, c, t, intvl) <= i < rows.len() ==> #[trigger] rows[i].timestamp - t >= intvl,
    decreases rows.len() - c,
{
    if c < rows.len() && rows[c].timestamp - t < intvl {
        lemma_run_end_split(rows, c + 1, t, intvl);
    } else if c < rows.len() {
        assert forall|i: int| c <= i < rows.len() implies #[trigger] rows[i].timestamp - t >= intvl by {
            assert(rows[c].timestamp <= rows[i].timestamp);
        }
    }
}

proof fn lemma_window_is_range(rows: Seq<Stat>, c: int, e: int, lo: int, hi: int, n: int)
    requires
        0 <= c <= e <= rows.len(),
        0 <= n <= rows.len(),
        forall|i: int| 0 <= i < c ==> #[trigger] rows[i].timestamp < lo,
        forall|i: int| c <= i < e ==> lo <= #[trigger] rows[i].timestamp < hi,
        forall|i: int| e <= i < rows.len() ==> #[trigger] rows[i].timestamp >= hi,
    ensures
        window_recv(rows, n, lo, hi) == range_recv(rows, c, if n < c { c } else if n > e { e } else { n }),
        window_send(rows, n, lo, hi) == range_send(rows, c, if n < c { c } else if n > e { e } else { n }),
    decreases n,
{
    if n > 0 {
        lemma_window_is_range(rows, c, e, lo, hi, n - 1);
        let t = rows[n - 1].timestamp;
        if n - 1 < c {
            assert(t < lo);
        } else if n - 1 < e {
            assert(lo <= t < hi);
        } else {
            assert(t >= hi);
        }
    }
}

proof fn lemma_bar_windows_from(rows: Seq<Stat>, c: int, t: int, end: int, intvl: int, k: int)
    requires
        intvl > 0,
        in_time_order(rows),
        0 <= c <= rows.len(),
        forall|i: int| 0 <= i < c ==> #[trigger] rows[i].timestamp < t,
        forall|i: int| c <= i < rows.len() ==> #[trigger] rows[i].timestamp >= t,
        range_recv(rows, 0, rows.len() as int) <= u64::MAX,
        range_send(rows, 0, rows.len() as int) <= u64::MAX,
        0 <= k < bars(rows, c, t, end, intvl).len(),
    ensures
        bars(rows, c, t, end, intvl)[k].timestamp == (t + k * intvl) as i64,
        t <= t + k * intvl < end,
        bars(rows, c, t, end, intvl)[k].download == window_recv(rows, rows.len() as int, t + k * intvl, t + (k + 1) * intvl),
        bars(rows, c, t, end, intvl)[k].upload == window_send(rows, rows.len() as int, t + k * intvl, t + (k + 1) * intvl),
    decreases k,
{
    let n = rows.len() as int;
    let e = run_end(rows, c, t, intvl);
    lemma_run_end_split(rows, c, t, intvl);
    if k == 0 {
        assert forall|i: int| 0 <= i < c implies #[trigger] rows[i].timestamp < t by {}
        assert forall|i: int| c <= i < e implies t <= #[trigger] rows[i].timestamp < t + intvl by {}
        assert forall|i: int| e <= i < n implies #[trigger] rows[i].timestamp >= t + intvl by {}
        lemma_window_is_range(rows, c, e, t, t + intvl, n);
        lemma_range_split(rows, 0, c, e);
        lemma_range_split(rows, 0, e, n);
        assert(t + 0 * intvl == t);
        assert(t + (0 + 1) * intvl == t + intvl);
    } else {
        let bs = bars(rows, c, t, end, intvl);
        assert(bs[k] == bars(rows, e, t + intvl, end, intvl)[k - 1]);
        assert forall|i: int| 0 <= i < e implies #[trigger] rows[i].timestamp < t + intvl by {
            if i >= c {
                assert(rows[i].timestamp - t < intvl);
            }
        }
        lemma_bar_windows_from(rows, e, t + intvl, end, intvl, k - 1);
        assert((t + intvl) + (k - 1) * intvl == t + k * intvl) by (nonlinear_arith);
        assert((t + intvl) + (k - 1 + 1) * intvl == t + (k + 1) * intvl) by (nonlinear_arith);
        assert(t <= t + k * intvl) by (nonlinear_arith)
            requires
                k > 0,
                intvl > 0,
        ;
    }
}

/// Each bar holds exactly the rows of its own time window: for rows in time order,
/// none stamped before the chart's start, the bar at index `k` starts at
/// `start + k * intvl`, and its download and upload are the bytes of exactly the
/// rows stamped in `[start + k * intvl, start + (k + 1) * intvl)`. A row stamped
/// exactly at a bar's end belongs to the next bar.
pub proof fn lemma_bar_holds_its_window(rows: Seq<Stat>, start: int, end: int, intvl: int, k: int)
    requires
        intvl > 0,
        i64::MIN <= start,
        end <= i64::MAX,
        in_time_order(rows),
        forall|i: int| 0 <= i < rows.len() ==> start <= #[trigger] rows[i].timestamp,
        range_recv(rows, 0, rows.len() as int) <= u64::MAX,
        range_send(rows, 0, rows.len() as int) <= u64::MAX,
        0 <= k < bars(rows, 0, start, end, intvl).len(),
    ensures
        bars(rows, 0, start, end, intvl)[k].timestamp == start + k * intvl,
        bars(rows, 0, start, end, intvl)[k].download
            == window_recv(rows, rows.len() as int, start + k * intvl, start + (k + 1) * intvl),
        bars(rows, 0, start, end, intvl)[k].upload
            == window_send(rows, rows.len() as int, start + k * intvl, start + (k + 1) * intvl),
{
    lemma_bar_windows_from(rows, 0, start, end, intvl, k);
}

/// The program a row or a program total belongs to, by its text.
pub open spec fn exe_key(e: Option<String>) -> Option<Seq<char>> {
    match e {
        Some(s) => Some(s@),
        None => None,
    }
}

/// Received bytes of program `key` over the rows `0..n`.
pub open spec fn recv_of(stats: Seq<Stat>, n: int, key: Option<Seq<char>>) -> nat
    decreases n,
{
    if n <= 0 {
        0
    } else {
        recv_of(stats, n - 1, key) + (if exe_key(stats[n - 1].exe) == key { stats[n - 1].recv as nat } else { 0 })
    }
}

/// Sent bytes of program `key` over the rows `0..n`.
pub open spec fn send_of(stats: Seq<Stat>, n: int, key: Option<Seq<char>>) -> nat
    decreases n,
{
    if n <= 0 {
        0
    } else {
        send_of(stats, n - 1, key) + (if exe_key(stats[n - 1].exe) == key { stats[n - 1].send as nat } else { 0 })
    }
}

pub open spec fn app_total(a: AppStat) -> nat {
    (a.download + a.upload) as nat
}

/// The program totals that `filter_stats` gives for `stats`: one per program that
/// occurs in the rows, with its received and sent bytes, largest total first.
pub open spec fn program_totals(stats: Seq<Stat>, data: Seq<AppStat>) -> bool {
    &&& forall|i: int| 0 <= i < data.len() ==> (#[trigger] data[i]).download == recv_of(stats, stats.len() as int, exe_key(data[i].exe))
        && data[i].upload == send_of(stats, stats.len() as int, exe_key(data[i].exe))
    &&& forall|i: int, j: int| 0 <= i < j < data.len() ==> exe_key((#[trigger] data[i]).exe) != exe_key((#[trigger] data[j]).exe)
    &&& forall|k: int| 0 <= k < stats.len() ==> exists|i: int| 0 <= i < data.len() && exe_key((#[trigger] data[i]).exe) == exe_key((#[trigger] stats[k]).exe)
    &&& forall|i: int| 0 <= i < data.len() ==> exists|k: int| 0 <= k < stats.len() && exe_key((#[trigger] data[i]).exe) == exe_key((#[trigger] stats[k]).exe)
    &&& forall|i: int, j: int| 0 <= i < j < data.len() ==> app_total(#[trigger] data[i]) >= app_total(#[trigger] data[j])
}

proof fn lemma_recv_of_bound(stats: Seq<Stat>, n: int, key: Option<Seq<char>>)
    ensures
        recv_of(stats, n, key) <= range_recv(stats, 0, n),
        send_of(stats, n, key) <= range_send(stats, 0, n),
    decreases n,
{
    if n > 0 {
        lemma_recv_of_bound(stats, n - 1, key);
    }
}

proof fn lemma_range_prefix(stats: Seq<Stat>, m: int, n: int)
    requires
        0 <= m <= n,
    ensures
        range_recv(stats, 0, m) <= range_recv(stats, 0, n),
        range_send(stats, 0, m) <= range_send(stats, 0, n),
{
    lemma_range_split(stats, 0, m, n);
}

fn same_exe(a: &Option<String>, b: &Option<String>) -> (r: bool)
    ensures
        r == (exe_key(*a) == exe_key(*b)),
{
    match (a, b) {
        (Some(x), Some(y)) => {
            let eq = *x == *y;
            proof {
                if !eq {
                    assert(exe_key(*a) != exe_key(*b));
                }
            }
            eq
        },
        (None, None) => true,
        _ => false,
    }
}

fn clone_exe(e: &Option<String>) -> (r: Option<String>)
    ensures
        exe_key(r) == exe_key(*e),
{
    match e {
        Some(s) => Some(s.clone()),
        None => None,
    }
}

/// `acc` holds, for the rows `0..k`, one total per program that occurs there.
#[verifier::opaque]
pub open spec fn grouped(st: Seq<Stat>, k: int, acc: Seq<AppStat>) -> bool {
    &&& forall|i: int| 0 <= i < acc.len() ==> (#[trigger] acc[i]).download == recv_of(st, k, exe_key(acc[i].exe))
        && acc[i].upload == send_of(st, k, exe_key(acc[i].exe))
    &&& forall|i: int, j: int| 0 <= i < j < acc.len() ==> exe_key((#[trigger] acc[i]).exe) != exe_key((#[trigger] acc[j]).exe)
    &&& forall|j: int| 0 <= j < k ==> exists|i: int| 0 <= i < acc.len() && exe_key((#[trigger] acc[i]).exe) == exe_key((#[trigger] st[j]).exe)
    &&& forall|i: int| 0 <= i < acc.len() ==> exists|j: int| 0 <= j < k && exe_key((#[trigger] acc[i]).exe) == exe_key((#[trigger] st[j]).exe)
}

proof fn lemma_grouped_bound(st: Seq<Stat>, k: int, acc: Seq<AppStat>, i: int)
    requires
        grouped(st, k, acc),
        0 <= i < acc.len(),
        0 <= k <= st.len(),
    ensures
        acc[i].download <= range_recv(st, 0, st.len() as int),
        acc[i].upload <= range_send(st, 0, st.len() as int),
        acc[i].download == recv_of(st, k, exe_key(acc[i].exe)),
        acc[i].upload == send_of(st, k, exe_key(acc[i].exe)),
{
    reveal(grouped);
    lemma_recv_of_bound(st, k, exe_key(acc[i].exe));
    lemma_range_prefix(st, k, st.len() as int);
}

#[verifier::spinoff_prover]
proof fn lemma_grouped_update(st: Seq<Stat>, k: int, before: Seq<AppStat>, i: int, item: AppStat)
    requires
        grouped(st, k, before),
        0 <= k < st.len(),
        0 <= i < before.len(),
        exe_key(before[i].exe) == exe_key(st[k].exe),
        exe_key(item.exe) == exe_key(st[k].exe),
        item.download == before[i].download + st[k].recv,
        item.upload == before[i].upload + st[k].send,
    ensures
        grouped(st, k + 1, before.update(i, item)),
{
    reveal(grouped);
    let after = before.update(i, item);
    let key = exe_key(st[k].exe);
    assert forall|i2: int| 0 <= i2 < after.len() implies (#[trigger] after[i2]).download == recv_of(st, k + 1, exe_key(after[i2].exe))
        && after[i2].upload == send_of(st, k + 1, exe_key(after[i2].exe)) by {
        if i2 != i {
            assert(exe_key(before[i2].exe) != key);
        }
    }
    assert forall|i2: int, j2: int| 0 <= i2 < j2 < after.len() implies exe_key((#[trigger] after[i2]).exe) != exe_key((#[trigger] after[j2]).exe) by {
        assert(exe_key(after[i2].exe) == exe_key(before[i2].exe));
        assert(exe_key(after[j2].exe) == exe_key(before[j2].exe));
    }
    assert forall|j: int| 0 <= j < k + 1 implies exists|i2: int| 0 <= i2 < after.len() && exe_key((#[trigger] after[i2]).exe) == exe_key((#[trigger] st[j]).exe) by {
        if j < k {
            let i2 = choose|i2: int| 0 <= i2 < before.len() && exe_key((#[trigger] before[i2]).exe) == exe_key((#[trigger] st[j]).exe);
            assert(exe_key(after[i2].exe) == exe_key(before[i2].exe));
        } else {
            assert(exe_key(after[i].exe) == exe_key(st[j].exe));
        }
    }
    assert forall|i2: int| 0 <= i2 < after.len() implies exists|j: int| 0 <= j < k + 1 && exe_key((#[trigger] after[i2]).exe) == exe_key((#[trigger] st[j]).exe) by {
        let j = choose|j: int| 0 <= j < k && exe_key((#[trigger] before[i2]).exe) == exe_key((#[trigger] st[j]).exe);
        assert(exe_key(after[i2].exe) == exe_key(before[i2].exe));
    }
}

#[verifier::spinoff_prover]
#[verifier::rlimit(50)]
proof fn lemma_grouped_push(st: Seq<Stat>, k: int, before: Seq<AppStat>, item: AppStat)
    requires
        grouped(st, k, before),
        0 <= k < st.len(),
        forall|j: int| 0 <= j < before.len() ==> exe_key((#[trigger] before[j]).exe) != exe_key(st[k].exe),
        exe_key(item.exe) == exe_key(st[k].exe),
        item.download == st[k].recv,
        item.upload == st[k].send,
    ensures
        grouped(st, k + 1, before.push(item)),
{
    reveal(grouped);
    let after = before.push(item);
    let key = exe_key(st[k].exe);
    assert forall|j: int| 0 <= j < k implies exe_key((#[trigger] st[j]).exe) != key by {
        let i2 = choose|i2: int| 0 <= i2 < before.len() && exe_key((#[trigger] before[i2]).exe) == exe_key((#[trigger] st[j]).exe);
    }
    lemma_absent_zero(st, k, key);
    assert forall|i2: int| 0 <= i2 < after.len() implies (#[trigger] after[i2]).download == recv_of(st, k + 1, exe_key(after[i2].exe))
        && after[i2].upload == send_of(st, k + 1, exe_key(after[i2].exe)) by {
        if i2 < before.len() {
            assert(after[i2] == before[i2]);
            assert(exe_key(before[i2].exe) != key);
        }
    }
    assert forall|i2: int, j2: int| 0 <= i2 < j2 < after.len() implies exe_key((#[trigger] after[i2]).exe) != exe_key((#[trigger] after[j2]).exe) by {
        if j2 == before.len() {
            assert(after[i2] == before[i2]);
        } else {
            assert(after[i2] == before[i2]);
            assert(after[j2] == before[j2]);
        }
    }
    assert forall|j: int| 0 <= j < k + 1 implies exists|i2: int| 0 <= i2 < after.len() && exe_key((#[trigger] after[i2]).exe) == exe_key((#[trigger] st[j]).exe) by {
        if j < k {
            let i2 = choose|i2: int| 0 <= i2 < before.len() && exe_key((#[trigger] before[i2]).exe) == exe_key((#[trigger] st[j]).exe);
            assert(after[i2] == before[i2]);
        } else {
            assert(exe_key(after[before.len() as int].exe) == exe_key(st[j].exe));
        }
    }
    assert forall|i2: int| 0 <= i2 < after.len() implies exists|j: int| 0 <= j < k + 1 && exe_key((#[trigger] after[i2]).exe) == exe_key((#[trigger] st[j]).exe) by {
        if i2 < before.len() {
            let j = choose|j: int| 0 <= j < k && exe_key((#[trigger] before[i2]).exe) == exe_key((#[trigger] st[j]).exe);
            assert(after[i2] == before[i2]);
        } else {
            assert(exe_key(after[i2].exe) == exe_key(st[k].exe));
        }
    }
}

/// Received bytes over a list of program totals.
pub open spec fn table_download(d: Seq<AppStat>) -> nat
    decreases d.len(),
{
    if d.len() == 0 {
        0
    } else {
        table_download(d.drop_last()) + d.last().download as nat
    }
}

/// Sent bytes over a list of program totals.
pub open spec fn table_upload(d: Seq<AppStat>) -> nat
    decreases d.len(),
{
    if d.len() == 0 {
        0
    } else {
        table_upload(d.drop_last()) + d.last().upload as nat
    }
}

proof fn lemma_table_update(d: Seq<AppStat>, i: int, x: AppStat)
    requires
        0 <= i < d.len(),
    ensures
        table_download(d.update(i, x)) + d[i].download == table_download(d) + x.download,
        table_upload(d.update(i, x)) + d[i].upload == table_upload(d) + x.upload,
    decreases d.len(),
{
    let after = d.update(i, x);
    if i < d.len() - 1 {
        assert(after.drop_last() =~= d.drop_last().update(i, x));
        lemma_table_update(d.drop_last(), i, x);
    } else {
        assert(after.drop_last() =~= d.drop_last());
    }
}

proof fn lemma_table_insert(d: Seq<AppStat>, p: int, x: AppStat)
    requires
        0 <= p <= d.len(),
    ensures
        table_download(d.insert(p, x)) == table_download(d) + x.download,
        table_upload(d.insert(p, x)) == table_upload(d) + x.upload,
    decreases d.len(),
{
    let after = d.insert(p, x);
    if p == d.len() {
        assert(after.drop_last() =~= d);
    } else {
        assert(after.drop_last() =~= d.drop_last().insert(p, x));
        lemma_table_insert(d.drop_last(), p, x);
    }
}

/// Each program's received and sent bytes together fit in a `u64`.
pub open spec fn programs_fit(st: Seq<Stat>) -> bool {
    forall|k: int| 0 <= k < st.len() ==> recv_of(st, st.len() as int, exe_key((#[trigger] st[k]).exe))
        + send_of(st, st.len() as int, exe_key(st[k].exe)) <= u64::MAX
}

proof fn lemma_of_key_grows(st: Seq<Stat>, m: int, n: int, key: Option<Seq<char>>)
    requires
        m <= n,
    ensures
        recv_of(st, m, key) <= recv_of(st, n, key),
        send_of(st, m, key) <= send_of(st, n, key),
    decreases n - m,
{
    if m < n {
        lemma_of_key_grows(st, m, n - 1, key);
    }
}

/// The per-program totals of `stats`, in the order in which the programs first
/// occur; `None` where some program's received and sent bytes together exceed a `u64`.
#[verifier::spinoff_prover]
#[verifier::rlimit(60)]
fn group_by_exe(stats: &[Stat]) -> (r: Option<Vec<AppStat>>)
    ensures
        r is Some <==> programs_fit(stats@),
        r matches Some(acc) ==> {
            &&& grouped(stats@, stats@.len() as int, acc@)
            &&& table_download(acc@) == range_recv(stats@, 0, stats@.len() as int)
            &&& table_upload(acc@) == range_send(stats@, 0, stats@.len() as int)
            &&& forall|i: int| 0 <= i < acc@.len() ==> app_total(#[trigger] acc@[i]) <= u64::MAX
        },
{
    let ghost st = stats@;
    let ghost n = st.len() as int;
    let mut acc: Vec<AppStat> = Vec::new();
    let mut k: usize = 0;
    proof {
        reveal(grouped);
    }
    while k < stats.len()
        invariant
            st == stats@,
            n == st.len(),
            0 <= k <= n,
            grouped(st, k as int, acc@),
            table_download(acc@) == range_recv(st, 0, k as int),
            table_upload(acc@) == range_send(st, 0, k as int),
            forall|i: int| 0 <= i < acc@.len() ==> app_total(#[trigger] acc@[i]) <= u64::MAX,
        decreases n - k,
    {
        let ghost before = acc@;
        let ghost key = exe_key(st[k as int].exe);
        let mut i: usize = 0;
        let mut found = false;
        while i < acc.len()
            invariant_except_break
                !found,
            invariant
                acc@ == before,
                0 <= i <= acc@.len(),
                st == stats@,
                0 <= k < st.len(),
                key == exe_key(st[k as int].exe),
                forall|j: int| 0 <= j < i ==> exe_key((#[trigger] acc@[j]).exe) != key,
            ensures
                found ==> i < acc@.len() && exe_key(acc@[i as int].exe) == key,
                !found ==> forall|j: int| 0 <= j < acc@.len() ==> exe_key((#[trigger] acc@[j]).exe) != key,
            decreases acc@.len() - i,
        {
            if same_exe(&acc[i].exe, &stats[k].exe) {
                found = true;
                break;
            }
            i = i + 1;
        }
        if found {
            proof {
                lemma_grouped_bound(st, k as int, before, i as int);
            }
            let d: u128 = acc[i].download as u128 + stats[k].recv as u128;
            let u: u128 = acc[i].upload as u128 + stats[k].send as u128;
            if d + u > 0xffff_ffff_ffff_ffff {
                proof {
                    lemma_of_key_grows(st, k as int + 1, n, key);
                    assert(!programs_fit(st)) by {
                        assert(recv_of(st, n, exe_key(st[k as int].exe)) + send_of(st, n, exe_key(st[k as int].exe)) > u64::MAX);
                    }
                }
                return None;
            }
            let item = AppStat { exe: clone_exe(&acc[i].exe), download: d as u64, upload: u as u64 };
            acc[i] = item;
            proof {
                lemma_grouped_update(st, k as int, before, i as int, item);
                assert(acc@ == before.update(i as int, item));
                lemma_table_update(before, i as int, item);
            }
        } else {
            if stats[k].recv as u128 + stats[k].send as u128 > 0xffff_ffff_ffff_ffff {
                proof {
                    assert forall|j: int| 0 <= j < k implies exe_key((#[trigger] st[j]).exe) != key by {
                        reveal(grouped);
                        let i2 = choose|i2: int| 0 <= i2 < before.len() && exe_key((#[trigger] before[i2]).exe) == exe_key((#[trigger] st[j]).exe);
                    }
                    lemma_absent_zero(st, k as int, key);
                    lemma_of_key_grows(st, k as int + 1, n, key);
                    assert(!programs_fit(st)) by {
                        assert(recv_of(st, n, exe_key(st[k as int].exe)) + send_of(st, n, exe_key(st[k as int].exe)) > u64::MAX);
                    }
                }
                return None;
            }
            let item = AppStat { exe: clone_exe(&stats[k].exe), download: stats[k].recv, upload: stats[k].send };
            acc.push(item);
            proof {
                lemma_grouped_push(st, k as int, before, item);
                assert(acc@.drop_last() =~= before);
            }
        }
        k = k + 1;
    }
    proof {
        reveal(grouped);
        assert forall|j: int| 0 <= j < n implies recv_of(st, n, exe_key((#[trigger] st[j]).exe))
            + send_of(st, n, exe_key(st[j].exe)) <= u64::MAX by {
            let i2 = choose|i2: int| 0 <= i2 < acc@.len() && exe_key((#[trigger] acc@[i2]).exe) == exe_key((#[trigger] st[j]).exe);
            assert(app_total(acc@[i2]) <= u64::MAX);
        }
    }
    Some(acc)
}

proof fn lemma_absent_zero(stats: Seq<Stat>, n: int, key: Option<Seq<char>>)
    requires
        forall|j: int| 0 <= j < n ==> exe_key((#[trigger] stats[j]).exe) != key,
    ensures
        recv_of(stats, n, key) == 0,
        send_of(stats, n, key) == 0,
    decreases n,
{
    if n > 0 {
        lemma_absent_zero(stats, n - 1, key);
    }
}

#[verifier::opaque]
pub open spec fn sorted_desc(res: Seq<AppStat>) -> bool {
    forall|i: int, j: int| 0 <= i < j < res.len() ==> app_total(#[trigger] res[i]) >= app_total(#[trigger] res[j])
}

#[verifier::opaque]
pub open spec fn drawn_from(res: Seq<AppStat>, src: Seq<AppStat>, k: int) -> bool {
    forall|i: int| 0 <= i < res.len() ==> exists|j: int| 0 <= j < k && #[trigger] res[i] == #[trigger] src[j]
}

#[verifier::opaque]
pub open spec fn covers(res: Seq<AppStat>, src: Seq<AppStat>, k: int) -> bool {
    forall|j: int| 0 <= j < k ==> exists|i: int| 0 <= i < res.len() && #[trigger] res[i] == #[trigger] src[j]
}

#[verifier::opaque]
pub open spec fn distinct_keys(res: Seq<AppStat>) -> bool {
    forall|i: int, j: int| 0 <= i < j < res.len() ==> exe_key((#[trigger] res[i]).exe) != exe_key((#[trigger] res[j]).exe)
}

/// `res` holds, largest total first, each of the first `k` entries of `src` once.
pub open spec fn sorted_prefix(src: Seq<AppStat>, k: int, res: Seq<AppStat>) -> bool {
    &&& res.len() == k
    &&& sorted_desc(res)
    &&& drawn_from(res, src, k)
    &&& covers(res, src, k)
    &&& distinct_keys(res)
}

proof fn lemma_insert_sorted(res: Seq<AppStat>, p: int, x: AppStat)
    requires
        sorted_desc(res),
        0 <= p <= res.len(),
        forall|i: int| 0 <= i < p ==> app_total(#[trigger] res[i]) >= app_total(x),
        p < res.len() ==> app_total(res[p]) < app_total(x),
    ensures
        sorted_desc(res.insert(p, x)),
{
    reveal(sorted_desc);
    let after = res.insert(p, x);
    assert forall|i: int, j: int| 0 <= i < j < after.len() implies app_total(#[trigger] after[i]) >= app_total(#[trigger] after[j]) by {
        if i < p && j > p {
            assert(after[i] == res[i]);
            assert(after[j] == res[j - 1]);
        } else if i == p && j > p {
            assert(after[j] == res[j - 1]);
            if p < j - 1 {
                assert(app_total(res[p]) >= app_total(res[j - 1]));
            }
        } else if i > p {
            assert(after[i] == res[i - 1]);
            assert(after[j] == res[j - 1]);
        } else if j < p {
            assert(after[i] == res[i]);
            assert(after[j] == res[j]);
        } else {
            assert(after[i] == res[i]);
        }
    }
}

proof fn lemma_insert_drawn(res: Seq<AppStat>, src: Seq<AppStat>, k: int, p: int)
    requires
        drawn_from(res, src, k),
        0 <= k < src.len(),
        0 <= p <= res.len(),
    ensures
        drawn_from(res.insert(p, src[k]), src, k + 1),
{
    reveal(drawn_from);
    let after = res.insert(p, src[k]);
    assert forall|i: int| 0 <= i < after.len() implies exists|j: int| 0 <= j < k + 1 && #[trigger] after[i] == #[trigger] src[j] by {
        if i < p {
            let j = choose|j: int| 0 <= j < k && #[trigger] res[i] == #[trigger] src[j];
            assert(after[i] == src[j]);
        } else if i == p {
            assert(after[i] == src[k]);
        } else {
            let j = choose|j: int| 0 <= j < k && #[trigger] res[i - 1] == #[trigger] src[j];
            assert(after[i] == src[j]);
        }
    }
}

proof fn lemma_insert_covers(res: Seq<AppStat>, src: Seq<AppStat>, k: int, p: int)
    requires
        covers(res, src, k),
        0 <= k < src.len(),
        0 <= p <= res.len(),
    ensures
        covers(res.insert(p, src[k]), src, k + 1),
{
    reveal(covers);
    let after = res.insert(p, src[k]);
    assert forall|j: int| 0 <= j < k + 1 implies exists|i: int| 0 <= i < after.len() && #[trigger] after[i] == #[trigger] src[j] by {
        if j < k {
            let i = choose|i: int| 0 <= i < res.len() && #[trigger] res[i] == #[trigger] src[j];
            if i < p {
                assert(after[i] == src[j]);
            } else {
                assert(after[i + 1] == src[j]);
            }
        } else {
            assert(after[p] == src[j]);
        }
    }
}

proof fn lemma_insert_distinct(res: Seq<AppStat>, src: Seq<AppStat>, k: int, p: int)
    requires
        distinct_keys(res),
        drawn_from(res, src, k),
        0 <= k < src.len(),
        0 <= p <= res.len(),
        forall|i: int, j: int| 0 <= i < j < src.len() ==> exe_key((#[trigger] src[i]).exe) != exe_key((#[trigger] src[j]).exe),
    ensures
        distinct_keys(res.insert(p, src[k])),
{
    reveal(distinct_keys);
    reveal(drawn_from);
    let x = src[k];
    let after = res.insert(p, x);
    assert forall|i: int| 0 <= i < res.len() implies exe_key((#[trigger] res[i]).exe) != exe_key(x.exe) by {
        let j = choose|j: int| 0 <= j < k && #[trigger] res[i] == #[trigger] src[j];
    }
    assert forall|i: int, j: int| 0 <= i < j < after.len() implies exe_key((#[trigger] after[i]).exe) != exe_key((#[trigger] after[j]).exe) by {
        if i < p && j > p {
            assert(after[i] == res[i]);
            assert(after[j] == res[j - 1]);
        } else if i == p && j > p {
            assert(after[j] == res[j - 1]);
        } else if i > p {
            assert(after[i] == res[i - 1]);
            assert(after[j] == res[j - 1]);
        } else if j < p {
            assert(after[i] == res[i]);
            assert(after[j] == res[j]);
        } else {
            assert(after[i] == res[i]);
        }
    }
}

fn clone_app(a: &AppStat) -> (r: AppStat)
    ensures
        r == *a,
{
    let exe = match &a.exe {
        Some(s) => Some(s.clone()),
        None => None,
    };
    AppStat { exe, download: a.download, upload: a.upload }
}

/// The entries of `src`, largest total first; entries with equal totals keep their order.
fn sort_by_total(src: &Vec<AppStat>) -> (res: Vec<AppStat>)
    requires
        forall|i: int, j: int| 0 <= i < j < src@.len() ==> exe_key((#[trigger] src@[i]).exe) != exe_key((#[trigger] src@[j]).exe),
        forall|i: int| 0 <= i < src@.len() ==> app_total(#[trigger] src@[i]) <= u64::MAX,
    ensures
        sorted_prefix(src@, src@.len() as int, res@),
        forall|i: int| 0 <= i < res@.len() ==> app_total(#[trigger] res@[i]) <= u64::MAX,
        table_download(res@) == table_download(src@),
        table_upload(res@) == table_upload(src@),
{
    let mut res: Vec<AppStat> = Vec::new();
    let mut k: usize = 0;
    proof {
        reveal(sorted_desc);
        reveal(drawn_from);
        reveal(covers);
        reveal(distinct_keys);
    }
    while k < src.len()
        invariant
            0 <= k <= src@.len(),
            sorted_prefix(src@, k as int, res@),
            forall|i: int, j: int| 0 <= i < j < src@.len() ==> exe_key((#[trigger] src@[i]).exe) != exe_key((#[trigger] src@[j]).exe),
            forall|i: int| 0 <= i < src@.len() ==> app_total(#[trigger] src@[i]) <= u64::MAX,
            forall|i: int| 0 <= i < res@.len() ==> app_total(#[trigger] res@[i]) <= u64::MAX,
            table_download(res@) == table_download(src@.take(k as int)),
            table_upload(res@) == table_upload(src@.take(k as int)),
        decreases src@.len() - k,
    {
        let x = clone_app(&src[k]);
        let x_total = x.download + x.upload;
        let mut p: usize = 0;
        while p < res.len() && res[p].download + res[p].upload >= x_total
            invariant
                0 <= p <= res@.len(),
                forall|i: int| 0 <= i < res@.len() ==> app_total(#[trigger] res@[i]) <= u64::MAX,
                forall|i: int| 0 <= i < p ==> app_total(#[trigger] res@[i]) >= x_total,
            decreases res@.len() - p,
        {
            p = p + 1;
        }
        let ghost before = res@;
        proof {
            lemma_insert_sorted(before, p as int, x);
            lemma_insert_drawn(before, src@, k as int, p as int);
            lemma_insert_covers(before, src@, k as int, p as int);
            lemma_insert_distinct(before, src@, k as int, p as int);
            lemma_table_insert(before, p as int, x);
            assert(src@.take(k + 1).drop_last() =~= src@.take(k as int));
        }
        res.insert(p, x);
        proof {
            assert forall|i: int| 0 <= i < res@.len() implies app_total(#[trigger] res@[i]) <= u64::MAX by {
                if i < p {
                    assert(res@[i] == before[i]);
                } else if i > p {
                    assert(res@[i] == before[i - 1]);
                }
            }
        }
        k = k + 1;
    }
    assert(src@.take(k as int) =~= src@);
    res
}

/// Bytes of one direction (sent where `up`, received otherwise) of program `key`
/// over the rows `0..n`.
pub open spec fn of_key(st: Seq<Stat>, n: int, key: Option<Seq<char>>, up: bool) -> nat {
    if up {
        send_of(st, n, key)
    } else {
        recv_of(st, n, key)
    }
}

/// Bytes of one direction of a single row.
pub open spec fn row_bytes(s: Stat, up: bool) -> nat {
    if up {
        s.send as nat
    } else {
        s.recv as nat
    }
}

/// Bytes of one direction over the rows `0..n`, summed program by program over the
/// programs of `d`.
pub open spec fn keyed(st: Seq<Stat>, n: int, d: Seq<AppStat>, up: bool) -> nat
    decreases d.len(),
{
    if d.len() == 0 {
        0
    } else {
        keyed(st, n, d.drop_last(), up) + of_key(st, n, exe_key(d.last().exe), up)
    }
}

/// Program `key` has an entry in `d`.
pub open spec fn occurs(d: Seq<AppStat>, key: Option<Seq<char>>) -> bool
    decreases d.len(),
{
    if d.len() == 0 {
        false
    } else {
        exe_key(d.last().exe) == key || occurs(d.drop_last(), key)
    }
}

proof fn lemma_occurs(d: Seq<AppStat>, i: int)
    requires
        0 <= i < d.len(),
    ensures
        occurs(d, exe_key(d[i].exe)),
    decreases d.len(),
{
    if i < d.len() - 1 {
        lemma_occurs(d.drop_last(), i);
    }
}

proof fn lemma_not_occurs(d: Seq<AppStat>, key: Option<Seq<char>>)
    requires
        forall|i: int| 0 <= i < d.len() ==> exe_key((#[trigger] d[i]).exe) != key,
    ensures
        !occurs(d, key),
    decreases d.len(),
{
    if d.len() > 0 {
        let dl = d.drop_last();
        assert forall|i: int| 0 <= i < dl.len() implies exe_key((#[trigger] dl[i]).exe) != key by {
            assert(dl[i] == d[i]);
        }
        lemma_not_occurs(dl, key);
    }
}

proof fn lemma_keyed_zero(st: Seq<Stat>, d: Seq<AppStat>, up: bool)
    ensures
        keyed(st, 0, d, up) == 0,
    decreases d.len(),
{
    if d.len() > 0 {
        lemma_keyed_zero(st, d.drop_last(), up);
    }
}

proof fn lemma_keyed_step(st: Seq<Stat>, m: int, d: Seq<AppStat>, up: bool)
    requires
        0 < m,
        forall|i: int, j: int| 0 <= i < j < d.len() ==> exe_key((#[trigger] d[i]).exe) != exe_key((#[trigger] d[j]).exe),
    ensures
        keyed(st, m, d, up) == keyed(st, m - 1, d, up) + (if occurs(d, exe_key(st[m - 1].exe)) {
            row_bytes(st[m - 1], up)
        } else {
            0
        }),
    decreases d.len(),
{
    if d.len() > 0 {
        let dl = d.drop_last();
        let key = exe_key(st[m - 1].exe);
        assert forall|i: int, j: int| 0 <= i < j < dl.len() implies exe_key((#[trigger] dl[i]).exe) != exe_key((#[trigger] dl[j]).exe) by {
            assert(dl[i] == d[i]);
            assert(dl[j] == d[j]);
        }
        lemma_keyed_step(st, m, dl, up);
        if exe_key(d.last().exe) == key {
            assert forall|i: int| 0 <= i < dl.len() implies exe_key((#[trigger] dl[i]).exe) != key by {
                assert(dl[i] == d[i]);
                assert(d.last() == d[d.len() - 1]);
            }
            lemma_not_occurs(dl, key);
        }
    }
}

proof fn lemma_keyed_rows(st: Seq<Stat>, m: int, d: Seq<AppStat>, up: bool)
    requires
        0 <= m <= st.len(),
        forall|i: int, j: int| 0 <= i < j < d.len() ==> exe_key((#[trigger] d[i]).exe) != exe_key((#[trigger] d[j]).exe),
        forall|k: int| 0 <= k < st.len() ==> exists|i: int| 0 <= i < d.len() && exe_key((#[trigger] d[i]).exe) == exe_key((#[trigger] st[k]).exe),
    ensures
        keyed(st, m, d, up) == (if up { range_send(st, 0, m) } else { range_recv(st, 0, m) }),
    decreases m,
{
    if m == 0 {
        lemma_keyed_zero(st, d, up);
    } else {
        lemma_keyed_rows(st, m - 1, d, up);
        lemma_keyed_step(st, m, d, up);
        let i = choose|i: int| 0 <= i < d.len() && exe_key((#[trigger] d[i]).exe) == exe_key((#[trigger] st[m - 1]).exe);
        lemma_occurs(d, i);
    }
}

proof fn lemma_table_keyed(st: Seq<Stat>, d: Seq<AppStat>)
    requires
        forall|i: int| 0 <= i < d.len() ==> (#[trigger] d[i]).download == recv_of(st, st.len() as int, exe_key(d[i].exe))
            && d[i].upload == send_of(st, st.len() as int, exe_key(d[i].exe)),
    ensures
        table_download(d) == keyed(st, st.len() as int, d, false),
        table_upload(d) == keyed(st, st.len() as int, d, true),
    decreases d.len(),
{
    if d.len() > 0 {
        let dl = d.drop_last();
        assert forall|i: int| 0 <= i < dl.len() implies (#[trigger] dl[i]).download == recv_of(st, st.len() as int, exe_key(dl[i].exe))
            && dl[i].upload == send_of(st, st.len() as int, exe_key(dl[i].exe)) by {
            assert(dl[i] == d[i]);
        }
        lemma_table_keyed(st, dl);
        assert(d.last() == d[d.len() - 1]);
    }
}

/// The program table accounts for every byte, once: program totals as
/// `filter_stats` states them (one entry per program of the rows, with that
/// program's bytes) add up, in each direction, to the bytes of all rows.
pub proof fn lemma_table_adds_up(stats: Seq<Stat>, data: Seq<AppStat>)
    requires
        program_totals(stats, data),
    ensures
        table_download(data) == range_recv(stats, 0, stats.len() as int),
        table_upload(data) == range_send(stats, 0, stats.len() as int),
{
    lemma_table_keyed(stats, data);
    lemma_keyed_rows(stats, stats.len() as int, data, false);
    lemma_keyed_rows(stats, stats.len() as int, data, true);
}

/// The chart and the program table show the same bytes: when all rows lie before
/// the end of a period, the bars of `bucket_by_time` add up, in each direction, to
/// the totals of the program table of the same rows.
pub proof fn lemma_chart_matches_table(rows: Seq<Stat>, start: int, end: int, intvl: int, data: Seq<AppStat>)
    requires
        intvl > 0,
        start < end,
        before_end(rows, end),
        range_recv(rows, 0, rows.len() as int) <= u64::MAX,
        range_send(rows, 0, rows.len() as int) <= u64::MAX,
        program_totals(rows, data),
    ensures
        bars_download(bars(rows, 0, start, end, intvl)) == table_download(data),
        bars_upload(bars(rows, 0, start, end, intvl)) == table_upload(data),
{
    lemma_every_row_counted(rows, start, end, intvl);
    lemma_totals_are_bar_sums(rows, start, end, intvl);
    lemma_table_adds_up(rows, data);
}

proof fn lemma_of_key_prefix(st: Seq<Stat>, t: Seq<Stat>, m: int, key: Option<Seq<char>>)
    requires
        0 <= m <= st.len(),
        m <= t.len(),
        forall|i: int| 0 <= i < m ==> st[i] == t[i],
    ensures
        recv_of(st, m, key) == recv_of(t, m, key),
        send_of(st, m, key) == send_of(t, m, key),
    decreases m,
{
    if m > 0 {
        lemma_of_key_prefix(st, t, m - 1, key);
    }
}

proof fn lemma_of_key_remove(st: Seq<Stat>, j: int, key: Option<Seq<char>>)
    requires
        0 <= j < st.len(),
    ensures
        recv_of(st, st.len() as int, key) == recv_of(st.remove(j), st.len() - 1, key)
            + (if exe_key(st[j].exe) == key { st[j].recv as nat } else { 0 }),
        send_of(st, st.len() as int, key) == send_of(st.remove(j), st.len() - 1, key)
            + (if exe_key(st[j].exe) == key { st[j].send as nat } else { 0 }),
    decreases st.len(),
{
    let n = st.len() as int;
    let r = st.remove(j);
    if j == n - 1 {
        lemma_of_key_prefix(st, r, n - 1, key);
    } else {
        let d = st.drop_last();
        lemma_of_key_prefix(st, d, n - 1, key);
        lemma_of_key_remove(d, j, key);
        let dr = d.remove(j);
        assert forall|i: int| 0 <= i < n - 2 implies dr[i] == r[i] by {}
        lemma_of_key_prefix(dr, r, n - 2, key);
        assert(r[n - 2] == st[n - 1]);
    }
}

proof fn lemma_of_key_perm(s1: Seq<Stat>, s2: Seq<Stat>, key: Option<Seq<char>>)
    requires
        s1.to_multiset() == s2.to_multiset(),
    ensures
        recv_of(s1, s1.len() as int, key) == recv_of(s2, s2.len() as int, key),
        send_of(s1, s1.len() as int, key) == send_of(s2, s2.len() as int, key),
    decreases s1.len(),
{
    broadcast use vstd::seq_lib::group_to_multiset_ensures;
    if s1.len() == 0 {
        assert(s1.to_multiset().len() == 0);
        assert(s2.to_multiset().len() == s2.len());
    } else {
        let n = s1.len() as int;
        let x = s1[n - 1];
        assert(s1.to_multiset().count(x) > 0) by {
            assert(s1.contains(x));
        }
        assert(s2.contains(x));
        let j = choose|j: int| 0 <= j < s2.len() && s2[j] == x;
        let d1 = s1.remove(n - 1);
        let d2 = s2.remove(j);
        assert(d1.to_multiset() == s1.to_multiset().remove(x));
        assert(d2.to_multiset() == s2.to_multiset().remove(x));
        lemma_of_key_perm(d1, d2, key);
        lemma_of_key_remove(s1, n - 1, key);
        lemma_of_key_remove(s2, j, key);
    }
}

proof fn lemma_same_rows(s1: Seq<Stat>, s2: Seq<Stat>)
    requires
        s1.to_multiset() == s2.to_multiset(),
    ensures
        forall|k: int| 0 <= k < s2.len() ==> s1.contains(#[trigger] s2[k]),
{
    assert forall|k: int| 0 <= k < s2.len() implies s1.contains(#[trigger] s2[k]) by {
        let x = s2[k];
        assert(s2.contains(x));
        vstd::seq_lib::to_multiset_contains(s2, x);
        vstd::seq_lib::to_multiset_contains(s1, x);
    }
}

#[verifier::spinoff_prover]
proof fn lemma_totals_move(s1: Seq<Stat>, s2: Seq<Stat>, data: Seq<AppStat>)
    requires
        s1.to_multiset() == s2.to_multiset(),
        program_totals(s1, data),
    ensures
        program_totals(s2, data),
{
    lemma_same_rows(s1, s2);
    lemma_same_rows(s2, s1);
    assert forall|k: int| 0 <= k < s2.len() implies exists|i: int| 0 <= i < data.len()
        && exe_key((#[trigger] data[i]).exe) == exe_key((#[trigger] s2[k]).exe) by {
        let m = choose|m: int| 0 <= m < s1.len() && s1[m] == s2[k];
        let i = choose|i: int| 0 <= i < data.len() && exe_key((#[trigger] data[i]).exe) == exe_key((#[trigger] s1[m]).exe);
    }
    assert forall|i: int| 0 <= i < data.len() implies exists|k: int| 0 <= k < s2.len()
        && exe_key((#[trigger] data[i]).exe) == exe_key((#[trigger] s2[k]).exe) by {
        let m = choose|m: int| 0 <= m < s1.len() && exe_key((#[trigger] data[i]).exe) == exe_key((#[trigger] s1[m]).exe);
        let k = choose|k: int| 0 <= k < s2.len() && s2[k] == s1[m];
    }
    assert forall|i: int| 0 <= i < data.len() implies (#[trigger] data[i]).download == recv_of(s2, s2.len() as int, exe_key(data[i].exe))
        && data[i].upload == send_of(s2, s2.len() as int, exe_key(data[i].exe)) by {
        lemma_of_key_perm(s1, s2, exe_key(data[i].exe));
    }
}

#[verifier::spinoff_prover]
proof fn lemma_fit_move(s1: Seq<Stat>, s2: Seq<Stat>)
    requires
        s1.to_multiset() == s2.to_multiset(),
        programs_fit(s1),
    ensures
        programs_fit(s2),
{
    lemma_same_rows(s1, s2);
    assert forall|k: int| 0 <= k < s2.len() implies recv_of(s2, s2.len() as int, exe_key((#[trigger] s2[k]).exe))
        + send_of(s2, s2.len() as int, exe_key(s2[k].exe)) <= u64::MAX by {
        let m = choose|m: int| 0 <= m < s1.len() && s1[m] == s2[k];
        lemma_of_key_perm(s1, s2, exe_key(s2[k].exe));
        assert(recv_of(s1, s1.len() as int, exe_key(s1[m].exe)) + send_of(s1, s1.len() as int, exe_key(s1[m].exe)) <= u64::MAX);
    }
}

/// The program table does not depend on the order of the rows: program totals
/// that are right for some rows are right for every reordering of them, and
/// whether each program's bytes fit does not depend on the order either.
pub proof fn lemma_totals_order_free(s1: Seq<Stat>, s2: Seq<Stat>, data: Seq<AppStat>)
    requires
        s1.to_multiset() == s2.to_multiset(),
    ensures
        program_totals(s1, data) ==> program_totals(s2, data),
        programs_fit(s1) <==> programs_fit(s2),
{
    if program_totals(s1, data) {
        lemma_totals_move(s1, s2, data);
    }
    if programs_fit(s1) {
        lemma_fit_move(s1, s2);
    }
    if programs_fit(s2) {
        lemma_fit_move(s2, s1);
    }
}

/// The programs of a period's table: their totals, largest first, and the largest total.
pub struct ExeTable {
    pub data: Vec<AppStat>,
    pub max_val: u64,
}

impl ExeTable {
    /// An empty table.
    pub fn new() -> (t: ExeTable)
        ensures
            t.data@.len() == 0,
            t.max_val == 0,
    {
        ExeTable { data: Vec::new(), max_val: 0 }
    }

    /// Fills the table from recorded rows: one entry per program (by its path, or
    /// unidentified), with the bytes it received and sent, the largest total first;
    /// `max_val` is the largest total (0 for no rows). Each program's received and
    /// sent bytes together must fit in a `u64`.
    pub fn filter_stats(&mut self, stats: &[Stat])
        requires
            programs_fit(stats@),
        ensures
            program_totals(stats@, final(self).data@),
            table_download(final(self).data@) == range_recv(stats@, 0, stats@.len() as int),
            table_upload(final(self).data@) == range_send(stats@, 0, stats@.len() as int),
            final(self).max_val == (if final(self).data@.len() == 0 { 0 } else { app_total(final(self).data@[0]) }),
    {
        let acc = group_by_exe(stats).unwrap();
        self.fill(Ghost(stats@), acc);
    }

    fn fill(&mut self, Ghost(st): Ghost<Seq<Stat>>, acc: Vec<AppStat>)
        requires
            grouped(st, st.len() as int, acc@),
            table_download(acc@) == range_recv(st, 0, st.len() as int),
            table_upload(acc@) == range_send(st, 0, st.len() as int),
            forall|i: int| 0 <= i < acc@.len() ==> app_total(#[trigger] acc@[i]) <= u64::MAX,
        ensures
            program_totals(st, final(self).data@),
            table_download(final(self).data@) == range_recv(st, 0, st.len() as int),
            table_upload(final(self).data@) == range_send(st, 0, st.len() as int),
            final(self).max_val == (if final(self).data@.len() == 0 { 0 } else { app_total(final(self).data@[0]) }),
    {
        proof {
            lemma_grouped_distinct(st, acc@);
        }
        let data = sort_by_total(&acc);
        proof {
            lemma_sorted_groups(st, acc@, data@);
        }
        self.max_val = if data.len() == 0 { 0 } else { data[0].download + data[0].upload };
        self.data = data;
    }
}

proof fn lemma_grouped_distinct(st: Seq<Stat>, acc: Seq<AppStat>)
    requires
        grouped(st, st.len() as int, acc),
    ensures
        forall|i: int, j: int| 0 <= i < j < acc.len() ==> exe_key((#[trigger] acc[i]).exe) != exe_key((#[trigger] acc[j]).exe),
{
    reveal(grouped);
}

#[verifier::spinoff_prover]
#[verifier::rlimit(50)]
proof fn lemma_sorted_groups(st: Seq<Stat>, acc: Seq<AppStat>, data: Seq<AppStat>)
    requires
        grouped(st, st.len() as int, acc),
        sorted_prefix(acc, acc.len() as int, data),
    ensures
        program_totals(st, data),
{
    reveal(grouped);
    reveal(sorted_desc);
    reveal(drawn_from);
    reveal(covers);
    reveal(distinct_keys);
    let n = st.len() as int;
    assert forall|i: int| 0 <= i < data.len() implies (#[trigger] data[i]).download == recv_of(st, n, exe_key(data[i].exe))
        && data[i].upload == send_of(st, n, exe_key(data[i].exe)) by {
        let j = choose|j: int| 0 <= j < acc.len() && #[trigger] data[i] == #[trigger] acc[j];
    }
    assert forall|k: int| 0 <= k < n implies exists|i: int| 0 <= i < data.len() && exe_key((#[trigger] data[i]).exe) == exe_key((#[trigger] st[k]).exe) by {
        let j = choose|j: int| 0 <= j < acc.len() && exe_key((#[trigger] acc[j]).exe) == exe_key((#[trigger] st[k]).exe);
        let i = choose|i: int| 0 <= i < data.len() && #[trigger] data[i] == #[trigger] acc[j];
        assert(exe_key(data[i].exe) == exe_key(st[k].exe));
    }
    assert forall|i: int| 0 <= i < data.len() implies exists|k: int| 0 <= k < n && exe_key((#[trigger] data[i]).exe) == exe_key((#[trigger] st[k]).exe) by {
        let j = choose|j: int| 0 <= j < acc.len() && #[trigger] data[i] == #[trigger] acc[j];
        let k = choose|k: int| 0 <= k < n && exe_key((#[trigger] acc[j]).exe) == exe_key((#[trigger] st[k]).exe);
        assert(exe_key(data[i].exe) == exe_key(st[k].exe));
    }
}

/// The part of a path after its last '/' (the whole path when it has none).
pub open spec fn last_component(s: Seq<char>) -> Seq<char>
    decreases s.len(),
{
    if s.len() == 0 {
        s
    } else if s.last() == '/' {
        seq![]
    } else {
        last_component(s.drop_last()).push(s.last())
    }
}

/// The name under which the table shows a program: the last component of its
/// path, or nothing for an unidentified program.
pub fn exe_name(exe: &Option<String>) -> (r: Option<String>)
    ensures
        exe is None ==> r is None,
        exe matches Some(p) ==> (r matches Some(n) && n@ == last_component(p@)),
{
    match exe {
        None => None,
        Some(p) => {
            let v = crate::text::chars_of(p.as_str());
            let mut start: usize = v.len();
            while start > 0 && v[start - 1] != '/'
                invariant
                    start <= v@.len(),
                    forall|j: int| start <= j < v@.len() ==> v@[j] != '/',
                decreases start,
            {
                start = start - 1;
            }
            let mut out: Vec<char> = Vec::new();
            let mut i = start;
            while i < v.len()
                invariant
                    start <= i <= v@.len(),
                    out@ == v@.subrange(start as int, i as int),
                decreases v@.len() - i,
            {
                out.push(v[i]);
                i = i + 1;
                assert(out@ =~= v@.subrange(start as int, i as int));
            }
            proof {
                lemma_last_component(v@, start as int);
            }
            Some(crate::text::string_from_chars(&out))
        },
    }
}

proof fn lemma_last_component(s: Seq<char>, start: int)
    requires
        0 <= start <= s.len(),
        start > 0 ==> s[start - 1] == '/',
        forall|j: int| start <= j < s.len() ==> s[j] != '/',
    ensures
        last_component(s) == s.subrange(start, s.len() as int),
    decreases s.len(),
{
    if s.len() == 0 {
    } else if s.last() == '/' {
        assert(start == s.len());
    } else {
        lemma_last_component(s.drop_last(), start);
        assert(s.drop_last().subrange(start, s.len() - 1).push(s.last()) =~= s.subrange(start, s.len() as int));
    }
}

/// Totals of a period: received and sent bytes.
#[derive(Clone, Copy, Debug)]
pub struct TotalStats {
    pub download: u64,
    pub upload: u64,
}

impl TotalStats {
    /// Nothing was received or sent (the gauge is then drawn empty).
    pub fn is_empty(&self) -> (b: bool)
        ensures
            b == (self.download == 0 && self.upload == 0),
    {
        self.download == 0 && self.upload == 0
    }

    /// The three figures shown: received, total and sent bytes.
    pub fn labels(&self) -> (r: (String, String, String))
        requires
            self.download + self.upload <= u64::MAX,
        ensures
            r.0@ == format_bytes_spec(self.download as nat),
            r.1@ == format_bytes_spec((self.download + self.upload) as nat),
            r.2@ == format_bytes_spec(self.upload as nat),
    {
        (format_bytes(self.download), format_bytes(self.download + self.upload), format_bytes(self.upload))
    }
}

/// Every how many bars the chart's time axis carries a label.
pub fn tick_margin(period_type: PeriodType) -> (m: usize)
    ensures
        m == (match period_type {
            PeriodType::Hour | PeriodType::Day => 3usize,
            PeriodType::Week | PeriodType::Month => 1usize,
        }),
{
    match period_type {
        PeriodType::Hour | PeriodType::Day => 3,
        PeriodType::Week | PeriodType::Month => 1,
    }
}

/// Whether bar `i` carries a label: every `margin`-th bar, not the first.
pub fn is_labelled(i: usize, margin: usize) -> (b: bool)
    requires
        margin > 0,
    ensures
        b == (i > 0 && i % margin == 0),
{
    i > 0 && i % margin == 0
}

/// The top of the chart's scale: the largest download or upload of any bar (0 for no bars).
pub fn max_traffic(data: &[TimeStat]) -> (m: u64)
    ensures
        forall|i: int| 0 <= i < data@.len() ==> (#[trigger] data@[i]).download <= m && data@[i].upload <= m,
        data@.len() == 0 ==> m == 0,
        data@.len() > 0 ==> exists|i: int| 0 <= i < data@.len() && (m == (#[trigger] data@[i]).download || m == data@[i].upload),
{
    let mut m: u64 = 0;
    let mut i: usize = 0;
    while i < data.len()
        invariant
            0 <= i <= data@.len(),
            forall|j: int| 0 <= j < i ==> (#[trigger] data@[j]).download <= m && data@[j].upload <= m,
            i == 0 ==> m == 0,
            i > 0 ==> exists|j: int| 0 <= j < i && (m == (#[trigger] data@[j]).download || m == data@[j].upload),
        decreases data@.len() - i,
    {
        let d = &data[i];
        let v = if d.download > d.upload { d.download } else { d.upload };
        if i == 0 || v > m {
            m = v;
        }
        proof {
            if i > 0 && !(v > m) {
                let j = choose|j: int| 0 <= j < i && (m == (#[trigger] data@[j]).download || m == data@[j].upload);
            }
            assert(m == data@[i as int].download || m == data@[i as int].upload || exists|j: int| 0 <= j < i && (m == (#[trigger] data@[j]).download || m == data@[j].upload));
        }
        i = i + 1;
    }
    m
}

/// The chrono format of a time-axis label: the time of day for hours and days,
/// the weekday and day of month for weeks (with the month on the first of a
/// month), the day of month for months.
pub fn tick_pattern(period_type: PeriodType, first_of_month: bool) -> (p: &'static str)
    ensures
        p@ == (match period_type {
            PeriodType::Hour | PeriodType::Day => "%R"@,
            PeriodType::Week => if first_of_month { "%a %d %b"@ } else { "%a %d"@ },
            PeriodType::Month => "%-e"@,
        }),
{
    match period_type {
        PeriodType::Hour | PeriodType::Day => "%R",
        PeriodType::Week => if first_of_month {
            "%a %d %b"
        } else {
            "%a %d"
        },
        PeriodType::Month => "%-e",
    }
}

/// The received and the sent bytes of all rows, when each fits in a `u64`.
pub fn row_totals(rows: &[Stat]) -> (r: Option<(u64, u64)>)
    ensures
        r is Some <==> (range_recv(rows@, 0, rows@.len() as int) <= u64::MAX
            && range_send(rows@, 0, rows@.len() as int) <= u64::MAX),
        r matches Some(t) ==> t.0 == range_recv(rows@, 0, rows@.len() as int) && t.1 == range_send(rows@, 0, rows@.len() as int),
{
    let mut down: u64 = 0;
    let mut up: u64 = 0;
    let mut i: usize = 0;
    while i < rows.len()
        invariant
            0 <= i <= rows@.len(),
            down == range_recv(rows@, 0, i as int),
            up == range_send(rows@, 0, i as int),
        decreases rows@.len() - i,
    {
        let d = down.checked_add(rows[i].recv);
        let u = up.checked_add(rows[i].send);
        match (d, u) {
            (Some(d2), Some(u2)) => {
                down = d2;
                up = u2;
            },
            _ => {
                proof {
                    lemma_range_prefix(rows@, i as int + 1, rows@.len() as int);
                }
                return None;
            },
        }
        i = i + 1;
    }
    Some((down, up))
}

/// The chart of a period from its recorded rows: the bars of `bucket_by_time` and
/// the totals, or `None` where the rows or the period lie outside what the
/// computation handles (times beyond 2^61 seconds from 1970, a bar length that is
/// not positive, or byte totals beyond `u64`).
pub fn chart_of_period(rows: &[Stat], start: i64, end: i64, intvl: i64) -> (r: Option<(Vec<TimeStat>, u64, u64)>)
    ensures
        r is Some <==> {
            &&& intvl > 0
            &&& in_time_range(start as int) && in_time_range(end as int) && in_time_range(intvl as int)
            &&& forall|i: int| 0 <= i < rows@.len() ==> in_time_range(#[trigger] rows@[i].timestamp as int)
            &&& range_recv(rows@, 0, rows@.len() as int) <= u64::MAX
            &&& range_send(rows@, 0, rows@.len() as int) <= u64::MAX
        },
        r matches Some(c) ==> {
            &&& c.0@ == bars(rows@, 0, start as int, end as int, intvl as int)
            &&& c.1 == range_recv(rows@, 0, taken(rows@, 0, start as int, end as int, intvl as int))
            &&& c.2 == range_send(rows@, 0, taken(rows@, 0, start as int, end as int, intvl as int))
        },
{
    let limit: i64 = 0x2000_0000_0000_0000;
    if !(intvl > 0 && -limit <= start && start <= limit && -limit <= end && end <= limit && intvl <= limit) {
        return None;
    }
    let mut i: usize = 0;
    while i < rows.len()
        invariant
            0 <= i <= rows@.len(),
            limit == 0x2000_0000_0000_0000,
            forall|j: int| 0 <= j < i ==> in_time_range(#[trigger] rows@[j].timestamp as int),
        decreases rows@.len() - i,
    {
        let t = rows[i].timestamp;
        if !(-limit <= t && t <= limit) {
            return None;
        }
        i = i + 1;
    }
    match row_totals(rows) {
        Some(_) => Some(bucket_by_time(rows, start, end, intvl)),
        None => None,
    }
}

/// Fills the table from recorded rows (as `ExeTable::filter_stats`) when each
/// program's received and sent bytes together fit in a `u64`; otherwise leaves it
/// unchanged and returns false.
pub fn filter_checked(table: &mut ExeTable, stats: &[Stat]) -> (filled: bool)
    ensures
        filled <==> programs_fit(stats@),
        filled ==> program_totals(stats@, final(table).data@)
            && table_download(final(table).data@) == range_recv(stats@, 0, stats@.len() as int)
            && table_upload(final(table).data@) == range_send(stats@, 0, stats@.len() as int)
            && final(table).max_val == (if final(table).data@.len() == 0 { 0 } else { app_total(final(table).data@[0]) }),
        !filled ==> final(table).data@ == old(table).data@ && final(table).max_val == old(table).max_val,
{
    match group_by_exe(stats) {
        Some(acc) => {
            table.fill(Ghost(stats@), acc);
            true
        },
        None => false,
    }
}

} // verus!
