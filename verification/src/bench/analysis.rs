//! How each measured run of the application is launched.

use vstd::prelude::*;
use vstd::string::*;

use crate::utils::strings_view;

verus! {

/// The GNU `time` program that measures a run: `gtime` on macOS,
/// `/usr/bin/time` elsewhere.
pub fn timer_program(macos: bool) -> (r: &'static str)
    ensures
        r@ == (if macos {
            "gtime"@
        } else {
            "/usr/bin/time"@
        }),
{
    if macos {
        "gtime"
    } else {
        "/usr/bin/time"
    }
}

/// The arguments of the timer for one run: verbose output (`-v`), the
/// application's path, then the application's parameters.
pub fn timer_arguments(path: &str, params: &Vec<String>) -> (r: Vec<String>)
    ensures
        strings_view(r@) == seq!["-v"@, path@] + strings_view(params@),
{
    let mut r: Vec<String> = Vec::new();
    r.push(String::from_str("-v"));
    r.push(path.to_owned());
    let n = params.len();
    let mut k: usize = 0;
    while k < n
        invariant
            n == params@.len(),
            k <= n,
            strings_view(r@) == seq!["-v"@, path@] + strings_view(params@).take(k as int),
        decreases n - k,
    {
        let p = params[k].clone();
        let ghost old_r = r@;
        r.push(p);
        assert(strings_view(r@) =~= strings_view(old_r).push(p@));
        assert(strings_view(params@).take(k + 1) =~= strings_view(params@).take(k as int).push(
            p@,
        ));
        k = k + 1;
    }
    assert(strings_view(params@).take(n as int) =~= strings_view(params@));
    r
}

/// What came of launching one measured run.
#[derive(Clone, Copy, PartialEq, Eq, Structural, Debug)]
pub enum SpawnOutcome {
    /// The run ended and its timer report was collected.
    Collected,
    /// The timer could not be started.
    Failed,
}

/// What the run loop does next.
#[derive(Clone, Copy, PartialEq, Eq, Structural, Debug)]
pub enum RunAction {
    /// Launch the run with this index (counted from 0).
    Launch(usize),
    /// All wanted runs are collected: hand back their reports.
    Finish,
    /// The last launch failed: stop with an error.
    Abort,
}

/// The next step of the run loop, given how many reports are collected, how
/// many runs are wanted and what came of the last launch (none before the
/// first): abort after a failed launch, else launch the next run while
/// fewer than `runs` are collected, else finish.
pub open spec fn run_action(done: usize, runs: usize, last: Option<SpawnOutcome>) -> RunAction {
    if last == Some(SpawnOutcome::Failed) {
        RunAction::Abort
    } else if done < runs {
        RunAction::Launch(done)
    } else {
        RunAction::Finish
    }
}

/// The next step of the run loop, as `run_action` says.
pub fn next_run_action(done: usize, runs: usize, last: Option<SpawnOutcome>) -> (a: RunAction)
    ensures
        a == run_action(done, runs, last),
{
    match last {
        Some(SpawnOutcome::Failed) => RunAction::Abort,
        _ => if done < runs {
            RunAction::Launch(done)
        } else {
            RunAction::Finish
        },
    }
}

/// Law: when every launch is collected, the loop launches the runs
/// `0, 1, ..., runs - 1` in order, one after the other, and then finishes;
/// a failed launch always ends it.
pub proof fn lemma_runs_in_order(runs: usize, done: usize)
    ensures
        done < runs ==> run_action(done, runs, if done == 0 {
            None
        } else {
            Some(SpawnOutcome::Collected)
        }) == RunAction::Launch(done),
        done >= runs ==> run_action(done, runs, if done == 0 {
            None
        } else {
            Some(SpawnOutcome::Collected)
        }) == RunAction::Finish,
        run_action(done, runs, Some(SpawnOutcome::Failed)) == RunAction::Abort,
{
}

} // verus!
