//! Benchmark harness core for a ranked word-search engine: trial outcomes,
//! scheduling of repeated trials over registered (start word, target-group)
//! pairs, and compilation of outcome histories into comparable statistics.

pub mod bencher;
pub mod benchfile;
pub mod compiler;
pub mod config;
pub mod hashing;
pub mod outcome;
pub mod ranges;
pub mod session;
pub mod words;

pub use bencher::BenchEntry;
pub use bencher::BenchRunner;
pub use bencher::Bencher;
pub use bencher::WordBenches;
pub use benchfile::bench_line;
pub use compiler::BenchResultCompiler;
pub use compiler::CompiledBenchResult;
pub use compiler::ScoreDifference;
pub use config::BenchRunCfg;
pub use config::default_out_db;
pub use hashing::sha256_hex;
pub use outcome::BenchError;
pub use outcome::BenchResult;
pub use ranges::ValueRange;
pub use ranges::combine_ranges;
pub use ranges::extend_range;
pub use ranges::get_range;
pub use session::BenchSessionId;
pub use words::set_bench_name;
pub use words::set_unaccented;
