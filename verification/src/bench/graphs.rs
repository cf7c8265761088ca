//! What each graph of a benchmark shows: its points, file, title and axis.

use vstd::prelude::*;

verus! {

/// A scatter graph of one measurement over the runs: the value of each run
/// in run order, the SVG file it is written to, its title and the label of
/// its value axis.
pub struct Chart {
    pub points: Vec<i64>,
    pub file: &'static str,
    pub title: &'static str,
    pub y_axis: &'static str,
}

/// The values as `i64`, each unchanged.
pub open spec fn widened(y: Seq<i32>) -> Seq<i64> {
    y.map_values(|x: i32| x as i64)
}

fn widen(y: &Vec<i32>) -> (r: Vec<i64>)
    ensures
        r@ == widened(y@),
{
    let n = y.len();
    let mut r: Vec<i64> = Vec::new();
    let mut k: usize = 0;
    while k < n
        invariant
            n == y@.len(),
            k <= n,
            r@ == widened(y@.take(k as int)),
        decreases n - k,
    {
        r.push(y[k] as i64);
        assert(r@ =~= widened(y@.take(k + 1)));
        k = k + 1;
    }
    assert(y@.take(n as int) =~= y@);
    r
}

/// The graph of the CPU share of each run.
pub fn cpu_graph(y: Vec<i32>) -> (c: Chart)
    ensures
        c.points@ == widened(y@),
        c.file@ == "cpu.svg"@,
        c.title@ == "CPU occupancy"@,
        c.y_axis@ == "cpus [%]"@,
{
    Chart { points: widen(&y), file: "cpu.svg", title: "CPU occupancy", y_axis: "cpus [%]" }
}

/// The graph of the user time of each run, in milliseconds.
pub fn time_graph(y: Vec<i64>) -> (c: Chart)
    ensures
        c.points@ == y@,
        c.file@ == "time.svg"@,
        c.title@ == "Processing time"@,
        c.y_axis@ == "time [ms]"@,
{
    Chart { points: y, file: "time.svg", title: "Processing time", y_axis: "time [ms]" }
}

/// The graph of the peak memory of each run.
pub fn mem_graph(y: Vec<i32>) -> (c: Chart)
    ensures
        c.points@ == widened(y@),
        c.file@ == "mem.svg"@,
        c.title@ == "Memory usage"@,
        c.y_axis@ == "memory [kB]"@,
{
    Chart { points: widen(&y), file: "mem.svg", title: "Memory usage", y_axis: "memory [kB]" }
}

/// Law: a graph has one point per run, in run order, each that run's value.
pub proof fn lemma_one_point_per_run(y: Seq<i32>)
    ensures
        widened(y).len() == y.len(),
        forall|i: int| 0 <= i < y.len() ==> #[trigger] widened(y)[i] == y[i] as i64,
{
}

} // verus!
