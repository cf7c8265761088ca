//! Measurement records of benchmark runs, and the steps that produce them.

use vstd::prelude::*;

pub mod analysis;
pub mod collector;
pub mod graphs;

verus! {

/// CSV output record of one run: its user time in milliseconds (none where
/// the run reported none), and its CPU share and peak memory as the texts
/// that stood in the report.
pub struct Record<'a> {
    pub time: Option<i64>,
    pub cpu: &'a str,
    pub mem: &'a str,
}

impl<'a> Record<'a> {
    /// The three columns of the record, in order.
    pub open spec fn fields(&self) -> (Option<i64>, Seq<char>, Seq<char>) {
        (self.time, self.cpu@, self.mem@)
    }
}

impl<'a> Default for Record<'a> {
    /// A record with no time and empty texts.
    fn default() -> (r: Self)
        ensures
            r.fields() == (None::<i64>, Seq::<char>::empty(), Seq::<char>::empty()),
    {
        proof {
            reveal_strlit("");
        }
        let r = Record { time: None, cpu: "", mem: "" };
        assert(r.cpu@ =~= Seq::<char>::empty());
        r
    }
}

} // verus!
