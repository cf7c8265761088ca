//! Reading the measurements out of the reports that `/usr/bin/time -v`
//! writes, one report per run.

use vstd::prelude::*;
use vstd::string::*;

use crate::number::{decimal_i32, float_literal, is_float_literal, parse_i32};
use crate::text::{
    chars_of, contains_chars, find_char, has_substring, index_of, slice_chars, split_bounds_str,
    split_on_str,
};

verus! {

/// The measurements that a report line can carry.
#[derive(Clone, Copy, PartialEq, Eq, Structural, Debug)]
pub enum Metric {
    /// `User time (seconds): ...`
    UserTime,
    /// `Percent of CPU this job got: ...%`
    CpuPercent,
    /// `Maximum resident set size (kbytes): ...`
    MaxResident,
}

/// One measurement found in a report: which one, and its text as it stood in
/// the report.
pub struct Reading<'a> {
    pub metric: Metric,
    pub value: &'a str,
}

impl<'a> View for Reading<'a> {
    type V = (Metric, Seq<char>);

    open spec fn view(&self) -> (Metric, Seq<char>) {
        (self.metric, self.value@)
    }
}

/// The readings, each by its view.
pub open spec fn readings_view<'a>(rs: Seq<Reading<'a>>) -> Seq<(Metric, Seq<char>)> {
    rs.map_values(|r: Reading<'a>| r@)
}

/// The text whose presence in a line marks it as carrying `m`.
pub open spec fn key_of(m: Metric) -> Seq<char> {
    match m {
        Metric::UserTime => seq!['U', 's', 'e', 'r', ' ', 't', 'i', 'm', 'e'],
        Metric::CpuPercent => seq![
            'P', 'e', 'r', 'c', 'e', 'n', 't', ' ', 'o', 'f', ' ', 'C', 'P', 'U',
        ],
        Metric::MaxResident => seq![
            'M', 'a', 'x', 'i', 'm', 'u', 'm', ' ', 'r', 'e', 's', 'i', 'd', 'e', 'n', 't',
        ],
    }
}

/// How many characters end the line after the value of `m`: the `%` of the
/// CPU share, nothing for the others.
pub open spec fn trim_of(m: Metric) -> int {
    match m {
        Metric::CpuPercent => 1,
        _ => 0,
    }
}

/// Where the value of a line stands: from two characters after its first `:`
/// up to `trim` characters before its end. This is the byte range
/// `find(':') + 2 .. len() - trim` of the line, and it is `None` exactly when
/// that range does not lie on character boundaries inside the line (no `:`,
/// nothing or a character wider than one byte after it, a last character
/// wider than one byte when one is cut off, or an end before the start).
pub open spec fn field_span(line: Seq<char>, trim: int) -> Option<(int, int)> {
    match index_of(line, ':') {
        Some(p) => if p + 1 < line.len() && (line[p + 1] as u32) < 0x80 && (trim == 0 || (
        line.last() as u32) < 0x80) && p + 2 <= line.len() - trim {
            Some((p + 2, line.len() - trim))
        } else {
            None
        },
        None => None,
    }
}

/// The value of a line, where `field_span` finds one.
pub open spec fn field_text(line: Seq<char>, trim: int) -> Seq<char> {
    match field_span(line, trim) {
        Some((a, b)) => line.subrange(a, b),
        None => Seq::<char>::empty(),
    }
}

/// The reading of `m` in `line`: one where the line holds the key of `m`,
/// none otherwise.
pub open spec fn reading_in(line: Seq<char>, m: Metric) -> Seq<(Metric, Seq<char>)> {
    if has_substring(line, key_of(m)) {
        seq![(m, field_text(line, trim_of(m)))]
    } else {
        Seq::empty()
    }
}

/// The readings of a line, in the order in which they are looked for.
pub open spec fn line_readings(line: Seq<char>) -> Seq<(Metric, Seq<char>)> {
    reading_in(line, Metric::UserTime) + reading_in(line, Metric::CpuPercent) + reading_in(
        line,
        Metric::MaxResident,
    )
}

/// A line that holds the key of `m` has a value; for the user time that
/// value is a text that `str::parse::<f64>` accepts, for the CPU share and
/// the memory a decimal `i32`.
pub open spec fn metric_ok(line: Seq<char>, m: Metric) -> bool {
    has_substring(line, key_of(m)) ==> {
        &&& field_span(line, trim_of(m)) is Some
        &&& (m == Metric::UserTime ==> float_literal(field_text(line, trim_of(m))))
        &&& (m != Metric::UserTime ==> decimal_i32(field_text(line, trim_of(m))) is Some)
    }
}

/// A line from which every measurement it announces can be read.
pub open spec fn line_ok(line: Seq<char>) -> bool {
    &&& metric_ok(line, Metric::UserTime)
    &&& metric_ok(line, Metric::CpuPercent)
    &&& metric_ok(line, Metric::MaxResident)
}

/// The lines of a report: its pieces between the line endings `eol`
/// (`\n`, or `\r\n` on Windows).
pub open spec fn report_lines(run: Seq<char>, eol: Seq<char>) -> Seq<Seq<char>> {
    split_on_str(run, eol)
}

/// A report whose every line is `line_ok`.
pub open spec fn run_ok(run: Seq<char>, eol: Seq<char>) -> bool {
    forall|k: int|
        0 <= k < report_lines(run, eol).len() ==> line_ok(#[trigger] report_lines(run, eol)[k])
}

/// The readings of the lines, line after line.
pub open spec fn lines_readings(lines: Seq<Seq<char>>) -> Seq<(Metric, Seq<char>)>
    decreases lines.len(),
{
    if lines.len() == 0 {
        Seq::empty()
    } else {
        lines_readings(lines.drop_last()) + line_readings(lines.last())
    }
}

/// The readings of a report, in the order in which its lines give them.
pub open spec fn run_readings(run: Seq<char>, eol: Seq<char>) -> Seq<(Metric, Seq<char>)> {
    lines_readings(report_lines(run, eol))
}

/// Every CPU-share and memory reading is a decimal `i32`.
pub open spec fn numbers_ok(rs: Seq<(Metric, Seq<char>)>) -> bool {
    forall|j: int|
        0 <= j < rs.len() && (#[trigger] rs[j]).0 != Metric::UserTime ==> decimal_i32(
            rs[j].1,
        ) is Some
}

/// The key of `m`, as characters.
fn key_chars(m: Metric) -> (v: Vec<char>)
    ensures
        v@ == key_of(m),
{
    let v = match m {
        Metric::UserTime => vec!['U', 's', 'e', 'r', ' ', 't', 'i', 'm', 'e'],
        Metric::CpuPercent => vec![
            'P', 'e', 'r', 'c', 'e', 'n', 't', ' ', 'o', 'f', ' ', 'C', 'P', 'U',
        ],
        Metric::MaxResident => vec![
            'M', 'a', 'x', 'i', 'm', 'u', 'm', ' ', 'r', 'e', 's', 'i', 'd', 'e', 'n', 't',
        ],
    };
    assert(v@ =~= key_of(m));
    v
}

/// Where the value of `line` stands, as `field_span` says.
fn field_bounds(line: &Vec<char>, trim: usize) -> (r: Option<(usize, usize)>)
    requires
        trim <= 1,
    ensures
        r is None <==> field_span(line@, trim as int) is None,
        r matches Some((a, b)) ==> a <= b <= line@.len() && field_span(line@, trim as int) == Some(
            (a as int, b as int),
        ),
{
    let n = line.len();
    match find_char(line, ':') {
        None => None,
        Some(p) => {
            proof {
                crate::text::lemma_index_of(line@, ':');
            }
            if p + 1 < n && (line[p + 1] as u32) < 0x80 && (trim == 0 || (line[n - 1] as u32)
                < 0x80) && p + 2 <= n - trim {
                Some((p + 2, n - trim))
            } else {
                None
            }
        },
    }
}

/// Looks for `metric` in `line`, which stands in `run` from `lo` on; appends
/// its reading to `out` and answers whether the line is `metric_ok`.
fn read_metric<'a>(
    run: &'a str,
    lo: usize,
    line: &Vec<char>,
    metric: Metric,
    out: &mut Vec<Reading<'a>>,
) -> (ok: bool)
    requires
        run@.len() <= usize::MAX,
        lo + line@.len() <= run@.len(),
        line@ == run@.subrange(lo as int, lo + line@.len()),
    ensures
        ok == metric_ok(line@, metric),
        ok ==> readings_view(final(out)@) == readings_view(old(out)@) + reading_in(
            line@,
            metric,
        ),
{
    let key = key_chars(metric);
    if !contains_chars(line, &key) {
        assert(readings_view(out@) + reading_in(line@, metric) =~= readings_view(out@));
        return true;
    }
    let trim: usize = match metric {
        Metric::CpuPercent => 1,
        _ => 0,
    };
    match field_bounds(line, trim) {
        None => false,
        Some((a, b)) => {
            let value = run.substring_char(lo + a, lo + b);
            assert(value@ =~= line@.subrange(a as int, b as int));
            match metric {
                Metric::UserTime => {
                    if !is_float_literal(value) {
                        return false;
                    }
                },
                _ => {
                    if parse_i32(value).is_none() {
                        return false;
                    }
                },
            }
            let ghost before = out@;
            out.push(Reading { metric, value });
            assert(readings_view(out@) =~= readings_view(before) + reading_in(line@, metric));
            true
        },
    }
}

/// The readings of one report, in line order and, within a line, in the
/// order user time, CPU share, memory; `None` exactly when some line that
/// announces a measurement does not carry a readable value for it.
pub fn scan_run<'a>(run: &'a str, line_ending: &str) -> (r: Option<Vec<Reading<'a>>>)
    requires
        line_ending@.len() > 0,
    ensures
        r is Some <==> run_ok(run@, line_ending@),
        r matches Some(v) ==> readings_view(v@) == run_readings(run@, line_ending@),
{
    let chars = chars_of(run);
    let eol = chars_of(line_ending);
    let total = chars.len();
    let bounds = split_bounds_str(&chars, &eol);
    let ghost lines = report_lines(run@, line_ending@);
    let mut out: Vec<Reading<'a>> = Vec::new();
    let mut k: usize = 0;
    while k < bounds.len()
        invariant
            chars@ == run@,
            total == chars@.len(),
            lines == report_lines(run@, line_ending@),
            bounds@.len() == lines.len(),
            forall|j: int|
                0 <= j < bounds@.len() ==> (#[trigger] bounds@[j]).0 <= bounds@[j].1
                    <= chars@.len() && chars@.subrange(bounds@[j].0 as int, bounds@[j].1 as int)
                    == lines[j],
            k <= bounds@.len(),
            readings_view(out@) == lines_readings(lines.take(k as int)),
            forall|j: int| 0 <= j < k ==> line_ok(#[trigger] lines[j]),
        decreases bounds@.len() - k,
    {
        let (lo, hi) = bounds[k];
        let line = slice_chars(&chars, lo, hi);
        assert(line@ == lines[k as int]);
        assert(lines.take(k + 1).drop_last() =~= lines.take(k as int));
        let ghost before = readings_view(out@);
        if !read_metric(run, lo, &line, Metric::UserTime, &mut out) {
            return None;
        }
        if !read_metric(run, lo, &line, Metric::CpuPercent, &mut out) {
            return None;
        }
        if !read_metric(run, lo, &line, Metric::MaxResident, &mut out) {
            return None;
        }
        assert(readings_view(out@) =~= before + line_readings(line@));
        k = k + 1;
    }
    assert(lines.take(k as int) =~= lines);
    Some(out)
}

/// The text of the last reading of `m`, or the empty text where there is none.
pub open spec fn last_value(rs: Seq<(Metric, Seq<char>)>, m: Metric) -> Seq<char>
    decreases rs.len(),
{
    if rs.len() == 0 {
        Seq::<char>::empty()
    } else if rs.last().0 == m {
        rs.last().1
    } else {
        last_value(rs.drop_last(), m)
    }
}

/// The texts of all readings of `m`, in order.
pub open spec fn values_of(rs: Seq<(Metric, Seq<char>)>, m: Metric) -> Seq<Seq<char>>
    decreases rs.len(),
{
    if rs.len() == 0 {
        Seq::empty()
    } else if rs.last().0 == m {
        values_of(rs.drop_last(), m).push(rs.last().1)
    } else {
        values_of(rs.drop_last(), m)
    }
}

/// The numbers that the readings of `m` write, in order.
pub open spec fn numbers_of(rs: Seq<(Metric, Seq<char>)>, m: Metric) -> Seq<i32> {
    values_of(rs, m).map_values(|t: Seq<char>| decimal_i32(t).unwrap())
}

/// The readings of all reports, report after report.
pub open spec fn all_readings(runs: Seq<Seq<char>>, eol: Seq<char>) -> Seq<(Metric, Seq<char>)>
    decreases runs.len(),
{
    if runs.len() == 0 {
        Seq::empty()
    } else {
        all_readings(runs.drop_last(), eol) + run_readings(runs.last(), eol)
    }
}

/// The texts of the reports.
pub open spec fn runs_view(runs: Seq<String>) -> Seq<Seq<char>> {
    runs.map_values(|s: String| s@)
}

proof fn lemma_lines_numbers_ok(lines: Seq<Seq<char>>)
    requires
        forall|k: int| 0 <= k < lines.len() ==> line_ok(#[trigger] lines[k]),
    ensures
        numbers_ok(lines_readings(lines)),
    decreases lines.len(),
{
    if lines.len() > 0 {
        let init = lines.drop_last();
        assert forall|k: int| 0 <= k < init.len() implies line_ok(#[trigger] init[k]) by {
            assert(init[k] == lines[k]);
        }
        lemma_lines_numbers_ok(init);
        let a = lines_readings(init);
        let last = lines.last();
        assert(line_ok(lines[lines.len() - 1]));
        let b = line_readings(last);
        assert forall|j: int|
            0 <= j < (a + b).len() && (#[trigger] (a + b)[j]).0 != Metric::UserTime implies decimal_i32(
            (a + b)[j].1,
        ) is Some by {
            if j < a.len() {
                assert((a + b)[j] == a[j]);
            }
        }
    }
}

/// Law: every CPU-share and memory reading of a well-formed report is a
/// decimal `i32`.
pub proof fn lemma_run_readings_are_numbers(run: Seq<char>, eol: Seq<char>)
    requires
        run_ok(run, eol),
    ensures
        numbers_ok(run_readings(run, eol)),
{
    lemma_lines_numbers_ok(report_lines(run, eol));
}

/// How many user-time readings there are.
pub open spec fn time_count(rs: Seq<(Metric, Seq<char>)>) -> nat {
    values_of(rs, Metric::UserTime).len()
}

/// How many user-time readings the reports give together.
pub open spec fn times_through(rss: Seq<Seq<(Metric, Seq<char>)>>) -> nat
    decreases rss.len(),
{
    if rss.len() == 0 {
        0
    } else {
        times_through(rss.drop_last()) + time_count(rss.last())
    }
}

/// The readings of each report, by their views.
pub open spec fn runs_readings_view<'a>(v: Seq<Vec<Reading<'a>>>) -> Seq<
    Seq<(Metric, Seq<char>)>,
> {
    v.map_values(|r: Vec<Reading<'a>>| readings_view(r@))
}

/// The time of the record of report `k`, where `millis` holds one value per
/// user-time reading of all the reports, in order: the value of the last
/// user-time reading of that report, none where it has none.
pub open spec fn run_time(rss: Seq<Seq<(Metric, Seq<char>)>>, millis: Seq<i64>, k: int) -> Option<
    i64,
> {
    if time_count(rss[k]) == 0 {
        None
    } else {
        Some(millis[times_through(rss.take(k + 1)) - 1])
    }
}

/// Every measurement has at least one reading.
pub open spec fn all_metrics_present(rs: Seq<(Metric, Seq<char>)>) -> bool {
    &&& values_of(rs, Metric::UserTime).len() > 0
    &&& values_of(rs, Metric::CpuPercent).len() > 0
    &&& values_of(rs, Metric::MaxResident).len() > 0
}

proof fn lemma_times_through_prefix(rss: Seq<Seq<(Metric, Seq<char>)>>, k: int)
    requires
        0 <= k <= rss.len(),
    ensures
        times_through(rss.take(k)) <= times_through(rss),
    decreases rss.len(),
{
    if k < rss.len() {
        assert(rss.drop_last().take(k) =~= rss.take(k));
        lemma_times_through_prefix(rss.drop_last(), k);
    } else {
        assert(rss.take(k) =~= rss);
    }
}

proof fn lemma_times_through_all(runs: Seq<Seq<char>>, eol: Seq<char>)
    ensures
        times_through(runs.map_values(|r: Seq<char>| run_readings(r, eol))) == values_of(
            all_readings(runs, eol),
            Metric::UserTime,
        ).len(),
    decreases runs.len(),
{
    if runs.len() > 0 {
        let f = |r: Seq<char>| run_readings(r, eol);
        assert(runs.map_values(f).drop_last() =~= runs.drop_last().map_values(f));
        lemma_times_through_all(runs.drop_last(), eol);
        lemma_values_of_concat(
            all_readings(runs.drop_last(), eol),
            run_readings(runs.last(), eol),
            Metric::UserTime,
        );
    }
}

/// How many user-time readings there are among `readings`.
fn count_user_times<'a>(readings: &Vec<Reading<'a>>) -> (c: usize)
    ensures
        c == time_count(readings_view(readings@)),
{
    let ghost rv = readings_view(readings@);
    let n = readings.len();
    let mut c: usize = 0;
    let mut i: usize = 0;
    while i < n
        invariant
            n == readings@.len(),
            rv == readings_view(readings@),
            i <= n,
            c == time_count(rv.take(i as int)),
            c <= i,
        decreases n - i,
    {
        assert(rv.take(i + 1).drop_last() =~= rv.take(i as int));
        assert(rv.take(i + 1).last() == readings@[i as int]@);
        match readings[i].metric {
            Metric::UserTime => c = c + 1,
            _ => {},
        }
        i = i + 1;
    }
    assert(rv.take(n as int) =~= rv);
    c
}

/// Whether some reading among `readings` is of `m`.
fn has_metric<'a>(readings: &Vec<Reading<'a>>, m: Metric) -> (b: bool)
    ensures
        b == (values_of(readings_view(readings@), m).len() > 0),
{
    let ghost rv = readings_view(readings@);
    let n = readings.len();
    let mut i: usize = 0;
    while i < n
        invariant
            n == readings@.len(),
            rv == readings_view(readings@),
            i <= n,
            values_of(rv.take(i as int), m).len() == 0,
        decreases n - i,
    {
        assert(rv.take(i + 1).drop_last() =~= rv.take(i as int));
        assert(rv.take(i + 1).last() == readings@[i as int]@);
        if readings[i].metric == m {
            proof {
                lemma_values_of_concat(rv.take(i + 1), rv.skip(i + 1), m);
                assert(rv.take(i + 1) + rv.skip(i + 1) =~= rv);
            }
            return true;
        }
        i = i + 1;
    }
    assert(rv.take(n as int) =~= rv);
    false
}

/// The record of one report: its user time in milliseconds as given, and the
/// last CPU share and memory texts it reads, each empty where it has none.
pub fn record_of<'a>(readings: &Vec<Reading<'a>>, time: Option<i64>) -> (r: super::Record<'a>)
    ensures
        r.fields() == (
            time,
            last_value(readings_view(readings@), Metric::CpuPercent),
            last_value(readings_view(readings@), Metric::MaxResident),
        ),
{
    proof {
        reveal_strlit("");
    }
    let ghost rv = readings_view(readings@);
    let mut cpu: &'a str = "";
    let mut mem: &'a str = "";
    assert(cpu@ =~= Seq::<char>::empty());
    let n = readings.len();
    let mut i: usize = 0;
    while i < n
        invariant
            n == readings@.len(),
            rv == readings_view(readings@),
            i <= n,
            cpu@ == last_value(rv.take(i as int), Metric::CpuPercent),
            mem@ == last_value(rv.take(i as int), Metric::MaxResident),
        decreases n - i,
    {
        let r = &readings[i];
        assert(rv.take(i + 1).drop_last() =~= rv.take(i as int));
        assert(rv.take(i + 1).last() == r@);
        match r.metric {
            Metric::UserTime => {},
            Metric::CpuPercent => cpu = r.value,
            Metric::MaxResident => mem = r.value,
        }
        i = i + 1;
    }
    assert(rv.take(n as int) =~= rv);
    super::Record { time, cpu, mem }
}

/// The CSV records of the reports, one per report, where `millis` holds the
/// user times in milliseconds, one per user-time reading of all the reports
/// in order: each record carries the milliseconds of the last user time of
/// its report (none where it has none) and its last CPU share and memory
/// texts.
pub fn build_records<'a>(readings: &Vec<Vec<Reading<'a>>>, millis: &Vec<i64>) -> (r: Vec<
    super::Record<'a>,
>)
    requires
        millis@.len() == times_through(runs_readings_view(readings@)),
    ensures
        r@.len() == readings@.len(),
        forall|k: int|
            0 <= k < readings@.len() ==> (#[trigger] r@[k]).fields() == (
                run_time(runs_readings_view(readings@), millis@, k),
                last_value(runs_readings_view(readings@)[k], Metric::CpuPercent),
                last_value(runs_readings_view(readings@)[k], Metric::MaxResident),
            ),
{
    let ghost rss = runs_readings_view(readings@);
    let total = millis.len();
    let n = readings.len();
    let mut records: Vec<super::Record<'a>> = Vec::new();
    let mut offset: usize = 0;
    let mut k: usize = 0;
    while k < n
        invariant
            n == readings@.len(),
            rss == runs_readings_view(readings@),
            millis@.len() == times_through(rss),
            total == millis@.len(),
            k <= n,
            offset == times_through(rss.take(k as int)),
            records@.len() == k,
            forall|j: int|
                0 <= j < k ==> (#[trigger] records@[j]).fields() == (
                    run_time(rss, millis@, j),
                    last_value(rss[j], Metric::CpuPercent),
                    last_value(rss[j], Metric::MaxResident),
                ),
        decreases n - k,
    {
        let c = count_user_times(&readings[k]);
        assert(rss[k as int] == readings_view(readings@[k as int]@));
        assert(rss.take(k + 1).drop_last() =~= rss.take(k as int));
        assert(rss.take(k + 1).last() == rss[k as int]);
        assert(times_through(rss.take(k + 1)) == offset + c);
        proof {
            lemma_times_through_prefix(rss, k + 1);
        }
        let time = if c == 0 {
            None
        } else {
            Some(millis[offset + c - 1])
        };
        let record = record_of(&readings[k], time);
        records.push(record);
        offset = offset + c;
        k = k + 1;
    }
    records
}

/// Whether the reports can be processed: `true` exactly when every line of
/// every report that announces a measurement carries a readable value for it
/// (`run_ok`), and each of the three measurements has at least one reading.
pub fn outputs_are_well_formed(runs: &Vec<String>, line_ending: &str) -> (b: bool)
    requires
        line_ending@.len() > 0,
    ensures
        b == ((forall|k: int| 0 <= k < runs@.len() ==> run_ok(#[trigger] runs@[k]@, line_ending@))
            && all_metrics_present(all_readings(runs_view(runs@), line_ending@))),
{
    let ghost rv = runs_view(runs@);
    let ghost eol = line_ending@;
    let n = runs.len();
    let mut seen_time = false;
    let mut seen_cpu = false;
    let mut seen_mem = false;
    let mut k: usize = 0;
    while k < n
        invariant
            n == runs@.len(),
            rv == runs_view(runs@),
            eol == line_ending@,
            eol.len() > 0,
            k <= n,
            forall|j: int| 0 <= j < k ==> run_ok(#[trigger] runs@[j]@, eol),
            seen_time == (values_of(all_readings(rv.take(k as int), eol), Metric::UserTime).len()
                > 0),
            seen_cpu == (values_of(all_readings(rv.take(k as int), eol), Metric::CpuPercent).len()
                > 0),
            seen_mem == (values_of(all_readings(rv.take(k as int), eol), Metric::MaxResident).len()
                > 0),
        decreases n - k,
    {
        let run = runs[k].as_str();
        assert(run@ == rv[k as int]);
        match scan_run(run, line_ending) {
            None => {
                return false;
            },
            Some(rs) => {
                let ghost before = all_readings(rv.take(k as int), eol);
                assert(rv.take(k + 1).drop_last() =~= rv.take(k as int));
                assert(all_readings(rv.take(k + 1), eol) == before + readings_view(rs@));
                proof {
                    lemma_values_of_concat(before, readings_view(rs@), Metric::UserTime);
                    lemma_values_of_concat(before, readings_view(rs@), Metric::CpuPercent);
                    lemma_values_of_concat(before, readings_view(rs@), Metric::MaxResident);
                }
                seen_time = seen_time || has_metric(&rs, Metric::UserTime);
                seen_cpu = seen_cpu || has_metric(&rs, Metric::CpuPercent);
                seen_mem = seen_mem || has_metric(&rs, Metric::MaxResident);
            },
        }
        k = k + 1;
    }
    assert(rv.take(n as int) =~= rv);
    seen_time && seen_cpu && seen_mem
}

/// What the reports of all runs give: the readings of each report, and every
/// user time, CPU share and memory reading in report and line order.
pub struct ProcessedOutputs<'a> {
    pub readings: Vec<Vec<Reading<'a>>>,
    pub time: Vec<&'a str>,
    pub cpu: Vec<i32>,
    pub mem: Vec<i32>,
}

/// Reads the measurements out of the reports of all runs, one report per
/// run, its lines ended by `line_ending`: the readings of each report, the
/// user times as their texts, and the CPU shares and memory sizes as numbers.
#[verifier::rlimit(40)]
pub fn process_outputs<'a>(runs: &'a Vec<String>, line_ending: &str) -> (p: ProcessedOutputs<'a>)
    requires
        line_ending@.len() > 0,
        forall|k: int| 0 <= k < runs@.len() ==> run_ok(#[trigger] runs@[k]@, line_ending@),
        all_metrics_present(all_readings(runs_view(runs@), line_ending@)),
    ensures
        p.readings@.len() == runs@.len(),
        forall|k: int|
            0 <= k < runs@.len() ==> readings_view((#[trigger] p.readings@[k])@) == run_readings(
                runs@[k]@,
                line_ending@,
            ),
        p.time@.map_values(|t: &'a str| t@) == values_of(
            all_readings(runs_view(runs@), line_ending@),
            Metric::UserTime,
        ),
        p.time@.len() == times_through(runs_readings_view(p.readings@)),
        p.cpu@ == numbers_of(all_readings(runs_view(runs@), line_ending@), Metric::CpuPercent),
        p.mem@ == numbers_of(all_readings(runs_view(runs@), line_ending@), Metric::MaxResident),
{
    let ghost rv = runs_view(runs@);
    let ghost eol = line_ending@;
    let mut readings: Vec<Vec<Reading<'a>>> = Vec::new();
    let mut time: Vec<&'a str> = Vec::new();
    let mut cpu: Vec<i32> = Vec::new();
    let mut mem: Vec<i32> = Vec::new();
    let n = runs.len();
    let mut k: usize = 0;
    while k < n
        invariant
            n == runs@.len(),
            rv == runs_view(runs@),
            eol == line_ending@,
            eol.len() > 0,
            forall|j: int| 0 <= j < runs@.len() ==> run_ok(#[trigger] runs@[j]@, eol),
            k <= n,
            readings@.len() == k,
            forall|j: int|
                0 <= j < k ==> readings_view((#[trigger] readings@[j])@) == run_readings(
                    runs@[j]@,
                    eol,
                ),
            time@.map_values(|t: &'a str| t@) == values_of(
                all_readings(rv.take(k as int), eol),
                Metric::UserTime,
            ),
            cpu@ == numbers_of(all_readings(rv.take(k as int), eol), Metric::CpuPercent),
            mem@ == numbers_of(all_readings(rv.take(k as int), eol), Metric::MaxResident),
        decreases n - k,
    {
        let run: &'a str = runs[k].as_str();
        assert(run@ == rv[k as int]);
        proof {
            lemma_run_readings_are_numbers(run@, eol);
        }
        let rs = match scan_run(run, line_ending) {
            Some(rs) => rs,
            None => {
                proof {
                    assert(run_ok(runs@[k as int]@, eol));
                }
                Vec::new()
            },
        };
        let ghost before = all_readings(rv.take(k as int), eol);
        let ghost rsv = readings_view(rs@);
        assert(rv.take(k + 1).drop_last() =~= rv.take(k as int));
        assert(all_readings(rv.take(k + 1), eol) == before + rsv);
        let m = rs.len();
        let mut j: usize = 0;
        while j < m
            invariant
                m == rs@.len(),
                rsv == readings_view(rs@),
                numbers_ok(rsv),
                j <= m,
                time@.map_values(|t: &'a str| t@) == values_of(
                    before + rsv.take(j as int),
                    Metric::UserTime,
                ),
                cpu@ == numbers_of(before + rsv.take(j as int), Metric::CpuPercent),
                mem@ == numbers_of(before + rsv.take(j as int), Metric::MaxResident),
            decreases m - j,
        {
            let r = &rs[j];
            let ghost prev = before + rsv.take(j as int);
            let ghost next = before + rsv.take(j + 1);
            assert(next.drop_last() =~= prev);
            assert(next.last() == r@);
            let ghost old_time = time@;
            match r.metric {
                Metric::UserTime => {
                    time.push(r.value);
                    assert(time@.map_values(|t: &'a str| t@) =~= old_time.map_values(
                        |t: &'a str| t@,
                    ).push(r.value@));
                    assert(cpu@ =~= numbers_of(next, Metric::CpuPercent));
                    assert(mem@ =~= numbers_of(next, Metric::MaxResident));
                },
                Metric::CpuPercent => {
                    assert(rsv[j as int].0 != Metric::UserTime);
                    if let Some(v) = parse_i32(r.value) {
                        cpu.push(v);
                    }
                    assert(cpu@ =~= numbers_of(next, Metric::CpuPercent));
                    assert(mem@ =~= numbers_of(next, Metric::MaxResident));
                },
                Metric::MaxResident => {
                    assert(rsv[j as int].0 != Metric::UserTime);
                    if let Some(v) = parse_i32(r.value) {
                        mem.push(v);
                    }
                    assert(cpu@ =~= numbers_of(next, Metric::CpuPercent));
                    assert(mem@ =~= numbers_of(next, Metric::MaxResident));
                },
            }
            j = j + 1;
        }
        assert(rsv.take(m as int) =~= rsv);
        readings.push(rs);
        k = k + 1;
    }
    assert(rv.take(n as int) =~= rv);
    proof {
        let f = |r: Seq<char>| run_readings(r, eol);
        assert(runs_readings_view(readings@) =~= rv.map_values(f));
        lemma_times_through_all(rv, eol);
        assert(time@.map_values(|t: &'a str| t@).len() == time@.len());
    }
    ProcessedOutputs { readings, time, cpu, mem }
}

/// The sum of the numbers.
pub open spec fn total(s: Seq<int>) -> int
    decreases s.len(),
{
    if s.len() == 0 {
        0
    } else {
        total(s.drop_last()) + s.last()
    }
}

/// Every running total of `s`, taken from the start, lies in `lo ..= hi`:
/// an iterator's `sum` then adds them up without overflow.
pub open spec fn running_totals_within(s: Seq<int>, lo: int, hi: int) -> bool {
    forall|k: int| 0 <= k <= s.len() ==> lo <= #[trigger] total(s.take(k)) <= hi
}

/// The smallest and the largest of the values, `None` for none: both occur
/// among them and bound all of them.
pub open spec fn is_min_max(s: Seq<int>, r: Option<(int, int)>) -> bool {
    match r {
        None => s.len() == 0,
        Some((lo, hi)) => {
            &&& s.len() > 0
            &&& s.contains(lo)
            &&& s.contains(hi)
            &&& forall|i: int| 0 <= i < s.len() ==> lo <= #[trigger] s[i] <= hi
        },
    }
}

/// The user times as integers.
pub open spec fn ints_i64(v: Seq<i64>) -> Seq<int> {
    v.map_values(|x: i64| x as int)
}

/// The CPU shares or memory sizes as integers.
pub open spec fn ints_i32(v: Seq<i32>) -> Seq<int> {
    v.map_values(|x: i32| x as int)
}

/// The least and the greatest of the values (`iter().min()` and
/// `iter().max()`); `None` when there are none.
pub fn min_max_i64(v: &Vec<i64>) -> (r: Option<(i64, i64)>)
    ensures
        is_min_max(
            ints_i64(v@),
            match r {
                Some((a, b)) => Some((a as int, b as int)),
                None => None,
            },
        ),
{
    let n = v.len();
    if n == 0 {
        return None;
    }
    let ghost s = ints_i64(v@);
    let mut lo = v[0];
    let mut hi = v[0];
    let mut i: usize = 1;
    assert(s[0] == v@[0] as int);
    while i < n
        invariant
            n == v@.len(),
            s == ints_i64(v@),
            1 <= i <= n,
            s.contains(lo as int),
            s.contains(hi as int),
            forall|j: int| 0 <= j < i ==> lo <= #[trigger] s[j] <= hi,
        decreases n - i,
    {
        let x = v[i];
        assert(s[i as int] == x as int);
        if x < lo {
            lo = x;
        }
        if x > hi {
            hi = x;
        }
        i = i + 1;
    }
    Some((lo, hi))
}

/// The least and the greatest of the values (`iter().min()` and
/// `iter().max()`); `None` when there are none.
pub fn min_max_i32(v: &Vec<i32>) -> (r: Option<(i32, i32)>)
    ensures
        is_min_max(
            ints_i32(v@),
            match r {
                Some((a, b)) => Some((a as int, b as int)),
                None => None,
            },
        ),
{
    let n = v.len();
    if n == 0 {
        return None;
    }
    let ghost s = ints_i32(v@);
    let mut lo = v[0];
    let mut hi = v[0];
    let mut i: usize = 1;
    assert(s[0] == v@[0] as int);
    while i < n
        invariant
            n == v@.len(),
            s == ints_i32(v@),
            1 <= i <= n,
            s.contains(lo as int),
            s.contains(hi as int),
            forall|j: int| 0 <= j < i ==> lo <= #[trigger] s[j] <= hi,
        decreases n - i,
    {
        let x = v[i];
        assert(s[i as int] == x as int);
        if x < lo {
            lo = x;
        }
        if x > hi {
            hi = x;
        }
        i = i + 1;
    }
    Some((lo, hi))
}

/// The sum of the user times (`iter().sum::<i64>()`), `None` where a running
/// total leaves the range of `i64`, where that sum overflows.
pub fn sum_i64(v: &Vec<i64>) -> (r: Option<i64>)
    ensures
        r is Some <==> running_totals_within(ints_i64(v@), i64::MIN as int, i64::MAX as int),
        r matches Some(t) ==> t == total(ints_i64(v@)),
{
    let ghost s = ints_i64(v@);
    let n = v.len();
    let mut acc: i64 = 0;
    let mut i: usize = 0;
    assert(s.take(0) =~= Seq::<int>::empty());
    while i < n
        invariant
            n == v@.len(),
            s == ints_i64(v@),
            i <= n,
            acc == total(s.take(i as int)),
            forall|k: int| 0 <= k <= i ==> i64::MIN <= #[trigger] total(s.take(k)) <= i64::MAX,
        decreases n - i,
    {
        assert(s.take(i + 1).drop_last() =~= s.take(i as int));
        match acc.checked_add(v[i]) {
            Some(t) => acc = t,
            None => {
                assert(!(i64::MIN <= total(s.take(i + 1)) <= i64::MAX));
                return None;
            },
        }
        i = i + 1;
    }
    assert(s.take(n as int) =~= s);
    Some(acc)
}

/// The sum of the CPU shares or memory sizes (`iter().sum::<i32>()`), `None`
/// where a running total leaves the range of `i32`, where that sum overflows.
pub fn sum_i32(v: &Vec<i32>) -> (r: Option<i32>)
    ensures
        r is Some <==> running_totals_within(ints_i32(v@), i32::MIN as int, i32::MAX as int),
        r matches Some(t) ==> t == total(ints_i32(v@)),
{
    let ghost s = ints_i32(v@);
    let n = v.len();
    let mut acc: i32 = 0;
    let mut i: usize = 0;
    assert(s.take(0) =~= Seq::<int>::empty());
    while i < n
        invariant
            n == v@.len(),
            s == ints_i32(v@),
            i <= n,
            acc == total(s.take(i as int)),
            forall|k: int| 0 <= k <= i ==> i32::MIN <= #[trigger] total(s.take(k)) <= i32::MAX,
        decreases n - i,
    {
        assert(s.take(i + 1).drop_last() =~= s.take(i as int));
        match acc.checked_add(v[i]) {
            Some(t) => acc = t,
            None => {
                assert(!(i32::MIN <= total(s.take(i + 1)) <= i32::MAX));
                return None;
            },
        }
        i = i + 1;
    }
    assert(s.take(n as int) =~= s);
    Some(acc)
}

proof fn lemma_values_of_concat(x: Seq<(Metric, Seq<char>)>, y: Seq<(Metric, Seq<char>)>, m: Metric)
    ensures
        values_of(x + y, m) == values_of(x, m) + values_of(y, m),
    decreases y.len(),
{
    if y.len() == 0 {
        assert(x + y =~= x);
        assert(values_of(x, m) + values_of(y, m) =~= values_of(x, m));
    } else {
        assert((x + y).drop_last() =~= x + y.drop_last());
        lemma_values_of_concat(x, y.drop_last(), m);
        assert(values_of(x + y, m) =~= values_of(x, m) + values_of(y, m));
    }
}

proof fn lemma_all_readings_concat(a: Seq<Seq<char>>, b: Seq<Seq<char>>, eol: Seq<char>)
    ensures
        all_readings(a + b, eol) == all_readings(a, eol) + all_readings(b, eol),
    decreases b.len(),
{
    if b.len() == 0 {
        assert(a + b =~= a);
        assert(all_readings(a, eol) + all_readings(b, eol) =~= all_readings(a, eol));
    } else {
        assert((a + b).drop_last() =~= a + b.drop_last());
        lemma_all_readings_concat(a, b.drop_last(), eol);
        assert(all_readings(a + b, eol) =~= all_readings(a, eol) + all_readings(b, eol));
    }
}

/// Law: the measurements of two batches of runs taken together are those of
/// the first batch followed by those of the second, for the user times as
/// for the numbers of the CPU shares and memory sizes.
pub proof fn lemma_batches_concatenate(
    a: Seq<Seq<char>>,
    b: Seq<Seq<char>>,
    eol: Seq<char>,
    m: Metric,
)
    ensures
        values_of(all_readings(a + b, eol), m) == values_of(all_readings(a, eol), m) + values_of(
            all_readings(b, eol),
            m,
        ),
        numbers_of(all_readings(a + b, eol), m) == numbers_of(all_readings(a, eol), m)
            + numbers_of(all_readings(b, eol), m),
{
    lemma_all_readings_concat(a, b, eol);
    lemma_values_of_concat(all_readings(a, eol), all_readings(b, eol), m);
    assert(numbers_of(all_readings(a + b, eol), m) =~= numbers_of(all_readings(a, eol), m)
        + numbers_of(all_readings(b, eol), m));
}

/// Law: the CPU share and memory of a report's record (its `last_value`s)
/// are the last of the report's readings of them, and the empty text where
/// the report has none.
pub proof fn lemma_record_shows_last_reading(rs: Seq<(Metric, Seq<char>)>, m: Metric)
    ensures
        values_of(rs, m).len() == 0 ==> last_value(rs, m) == Seq::<char>::empty(),
        values_of(rs, m).len() > 0 ==> last_value(rs, m) == values_of(rs, m).last(),
    decreases rs.len(),
{
    if rs.len() > 0 {
        lemma_record_shows_last_reading(rs.drop_last(), m);
    }
}

/// A line that holds none of the three keys.
pub open spec fn keyless(line: Seq<char>) -> bool {
    &&& !has_substring(line, key_of(Metric::UserTime))
    &&& !has_substring(line, key_of(Metric::CpuPercent))
    &&& !has_substring(line, key_of(Metric::MaxResident))
}

/// The lines that hold at least one of the three keys, in their order.
pub open spec fn keyed_lines(lines: Seq<Seq<char>>) -> Seq<Seq<char>>
    decreases lines.len(),
{
    if lines.len() == 0 {
        Seq::empty()
    } else if keyless(lines.last()) {
        keyed_lines(lines.drop_last())
    } else {
        keyed_lines(lines.drop_last()).push(lines.last())
    }
}

/// Every line is `line_ok`.
pub open spec fn lines_ok(lines: Seq<Seq<char>>) -> bool {
    forall|k: int| 0 <= k < lines.len() ==> line_ok(#[trigger] lines[k])
}

proof fn lemma_lines_ok_push(lines: Seq<Seq<char>>, line: Seq<char>)
    ensures
        lines_ok(lines.push(line)) == (lines_ok(lines) && line_ok(line)),
{
    let l2 = lines.push(line);
    if lines_ok(l2) {
        assert(l2[lines.len() as int] == line);
        assert forall|k: int| 0 <= k < lines.len() implies line_ok(#[trigger] lines[k]) by {
            assert(l2[k] == lines[k]);
        }
    }
    if lines_ok(lines) && line_ok(line) {
        assert forall|k: int| 0 <= k < l2.len() implies line_ok(#[trigger] l2[k]) by {
            if k < lines.len() {
                assert(l2[k] == lines[k]);
            }
        }
    }
}

/// The lines that hold a key decide everything: the readings of the lines
/// are those of their keyed lines, and the lines are all `line_ok` exactly
/// when their keyed lines are.
pub proof fn lemma_keyed_lines_decide(lines: Seq<Seq<char>>)
    ensures
        lines_readings(lines) == lines_readings(keyed_lines(lines)),
        lines_ok(lines) == lines_ok(keyed_lines(lines)),
    decreases lines.len(),
{
    if lines.len() > 0 {
        let init = lines.drop_last();
        let last = lines.last();
        lemma_keyed_lines_decide(init);
        assert(init.push(last) =~= lines);
        lemma_lines_ok_push(init, last);
        let k = keyed_lines(init);
        if keyless(last) {
            assert(line_readings(last) =~= Seq::<(Metric, Seq<char>)>::empty());
            assert(lines_readings(lines) =~= lines_readings(init));
        } else {
            assert(k.push(last).drop_last() =~= k);
            lemma_lines_ok_push(k, last);
        }
    }
}

/// Law: lines that hold none of the three keys never change the result.
/// Where two lists of reports, run for run, have the same keyed lines (any
/// number of key-less lines added or removed anywhere), every report gives
/// the same readings and is readable exactly when its counterpart is, all
/// the reports together give the same readings, and so the same user times,
/// CPU shares and memory sizes, and the same answer to `all_metrics_present`.
pub proof fn lemma_keyless_lines_change_nothing(
    runs: Seq<Seq<char>>,
    runs2: Seq<Seq<char>>,
    eol: Seq<char>,
)
    requires
        runs.len() == runs2.len(),
        forall|k: int|
            0 <= k < runs.len() ==> keyed_lines(report_lines(#[trigger] runs[k], eol))
                == keyed_lines(report_lines(runs2[k], eol)),
    ensures
        forall|k: int|
            0 <= k < runs.len() ==> run_readings(#[trigger] runs2[k], eol) == run_readings(
                runs[k],
                eol,
            ),
        forall|k: int| 0 <= k < runs.len() ==> run_ok(#[trigger] runs2[k], eol) == run_ok(runs[k], eol),
        all_readings(runs2, eol) == all_readings(runs, eol),
        forall|m: Metric| values_of(all_readings(runs2, eol), m) == values_of(all_readings(runs, eol), m),
        forall|m: Metric| numbers_of(all_readings(runs2, eol), m) == numbers_of(all_readings(runs, eol), m),
        all_metrics_present(all_readings(runs2, eol)) == all_metrics_present(all_readings(runs, eol)),
    decreases runs.len(),
{
    assert forall|k: int| 0 <= k < runs.len() implies run_readings(#[trigger] runs2[k], eol)
        == run_readings(runs[k], eol) && run_ok(runs2[k], eol) == run_ok(runs[k], eol) by {
        lemma_keyed_lines_decide(report_lines(runs[k], eol));
        lemma_keyed_lines_decide(report_lines(runs2[k], eol));
    }
    if runs.len() > 0 {
        let n = runs.len() - 1;
        assert forall|k: int| 0 <= k < runs.drop_last().len() implies keyed_lines(
            report_lines(#[trigger] runs.drop_last()[k], eol),
        ) == keyed_lines(report_lines(runs2.drop_last()[k], eol)) by {
            assert(runs.drop_last()[k] == runs[k]);
            assert(runs2.drop_last()[k] == runs2[k]);
        }
        lemma_keyless_lines_change_nothing(runs.drop_last(), runs2.drop_last(), eol);
        assert(run_readings(runs2[n], eol) == run_readings(runs[n], eol));
    }
}

/// Law: a line that announces the user time, and whose value lies on
/// character boundaries, is readable exactly when that value is a text that
/// `str::parse::<f64>` accepts; whatever its digits, zero among them.
pub proof fn lemma_user_time_line_readable(line: Seq<char>)
    requires
        has_substring(line, key_of(Metric::UserTime)),
        field_span(line, 0) is Some,
    ensures
        metric_ok(line, Metric::UserTime) <==> float_literal(field_text(line, 0)),
{
}

} // verus!
