//! The run configuration handed to the trial orchestration.

use vstd::prelude::*;

verus! {

/// How a run is shaped: `repeat` scored passes after the warm-up pass;
/// `repeat_failed` is the skip threshold for hopeless pairs; `timeout` is
/// the per-trial wall-clock limit in nanoseconds; `verbose` raises the
/// amount of progress chatter; the file paths and the output database are
/// carried for the surrounding program.
#[derive(Debug, PartialEq, Eq)]
pub struct BenchRunCfg {
    pub machine: Option<String>,
    pub repeat: u8,
    pub repeat_failed: u8,
    pub timeout: u64,
    pub verbose: u8,
    pub rules_file: Option<String>,
    pub dict_file: Option<String>,
    pub bench_file: Option<String>,
    pub out_db: String,
}

/// The output database file used when the configuration names none.
pub fn default_out_db() -> (r: String)
    ensures
        r@ == "bench.sqlite3"@,
{
    "bench.sqlite3".to_owned()
}

} // verus!
