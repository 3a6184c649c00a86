//! The failures that end a run.

use vstd::prelude::*;

verus! {

/// A failure that the pipeline does not recover from.
#[derive(Clone, Copy, Debug, PartialEq, Eq, Structural)]
pub enum Fatal {
    /// A work unit failed on every attempt that its policy allows.
    ExhaustedRetries { attempts: u32 },
    /// After the flush the storage engine reported another row count than
    /// the rows found before the run and the rows written in it add up to.
    WriteVerificationMismatch { prior: u64, written: u64, reported: u64 },
}

} // verus!
