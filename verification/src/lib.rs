//! A verified aggregation engine for large delimited measurement files.
//!
//! The input is a text file of `name;value\n` records, where `value` is a
//! decimal temperature with exactly one fractional digit. The engine splits
//! the file into line-aligned byte windows, scans each window for records,
//! parses each temperature into a fixed-point integer (tenths of a degree),
//! aggregates per-station minimum / mean / maximum in a fingerprint-hashed
//! table, merges per-worker tables, and renders the sorted result line.

pub mod hashing;
pub mod merge;
pub mod output;
pub mod pool;
pub mod records;
pub mod scan;
pub mod scanner;
pub mod segment;
pub mod table;
pub mod temperature;

pub use hashing::get_u64_key;
pub use hashing::hash_3;
pub use hashing::mix64;
pub use merge::merge_tables;
pub use merge::run_single;
pub use output::format_output;
pub use pool::Chunk;
pub use pool::Pool;
pub use scan::scan_window;
pub use scan::split_measurement_string;
pub use scanner::find_char;
pub use scanner::first_match_in_u8x16;
pub use scanner::load_u8x16_padded;
pub use segment::find_segment_splits;
pub use table::CustomHashMap;
pub use table::StationData;
pub use temperature::parse_temp;
