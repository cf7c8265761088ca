use vstd::prelude::*;

verus! {

/// Errors of the benchmarking tool; each carries the message it displays.
#[derive(Debug)]
pub enum BenchError {
    /// benchmarking related errors
    Unknown(String),
    /// app not found
    AppNotFound(String),
    /// IO error
    IOError(String),
    /// visualisation error
    Visualization(String),
}

impl BenchError {
    /// The text carried by the error, whatever its kind.
    pub open spec fn spec_message(&self) -> Seq<char> {
        match self {
            BenchError::Unknown(m) => m@,
            BenchError::AppNotFound(m) => m@,
            BenchError::IOError(m) => m@,
            BenchError::Visualization(m) => m@,
        }
    }

    /// The message that the error displays: its text, unadorned.
    pub fn message(&self) -> (m: String)
        ensures
            m@ == self.spec_message(),
    {
        match self {
            BenchError::Unknown(m) => m.clone(),
            BenchError::AppNotFound(m) => m.clone(),
            BenchError::IOError(m) => m.clone(),
            BenchError::Visualization(m) => m.clone(),
        }
    }
}

} // verus!
