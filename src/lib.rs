//! A client for the network information server of the apcupsd UPS daemon:
//! the request frame, the read loop's decisions, and the parsing of the
//! status report into a sorted snapshot of key/value pairs.

pub mod framing;
pub mod parse;
pub mod records;
pub mod snapshot;
pub mod text;
pub mod units;

pub use parse::{fetch_stats, parse, parse_response, ApcAccessError};
pub use records::split;
pub use snapshot::Snapshot;
pub use units::strip_units_from_lines;
