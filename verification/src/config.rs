//! The immutable configuration of the pipeline, supplied once at construction.

use crate::notice::notice_len;
use vstd::prelude::*;

verus! {

/// Configuration of the log-persistence pipeline.
///
/// `file_path` names the active log file; archived generations live beside it
/// under an increasing integer suffix. The remaining fields bound the rotating
/// store and the shared buffer.
pub struct Config {
    /// Path of the active log file.
    pub file_path: String,
    /// Greatest number of archived generations retained.
    pub max_files: usize,
    /// Greatest size in bytes of each file.
    pub max_file_size: usize,
    /// Capacity in bytes of the shared buffer.
    pub buffer_capacity: usize,
}

impl Config {
    /// The configuration invariant: at least one file of at least one byte,
    /// and a buffer larger than the overflow notice it must be able to hold.
    pub open spec fn valid(&self) -> bool {
        &&& self.max_files >= 1
        &&& self.max_file_size >= 1
        &&& self.buffer_capacity > notice_len()
    }

    /// Checks the configuration invariant.
    pub fn is_valid(&self) -> (r: bool)
        ensures
            r == self.valid(),
    {
        proof {
            crate::notice::lemma_notice_len();
        }
        self.max_files >= 1 && self.max_file_size >= 1 && self.buffer_capacity > 48
    }
}

} // verus!
