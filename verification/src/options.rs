use vstd::prelude::*;

verus! {

/// Configuration shared by every segment and index a file set creates or
/// opens: where the log lives on disk and how large each file may grow.
/// Immutable for the lifetime of a file set.
pub struct LogOptions {
    /// Path of the directory holding the segment and index files.
    pub log_dir: String,
    /// Maximum byte capacity of a single segment file.
    pub log_max_bytes: usize,
    /// Maximum byte capacity of a single index file.
    pub index_max_bytes: usize,
}

} // verus!
