//! Streaming reader for web-server access logs in the "combined" format,
//! and the rules that turn its records into podcast download statistics.
//!
//! - [`access_logs`]: the record reader and the grammar of a line.
//! - [`timestamp`]: the `DD/Mon/YYYY:HH:MM:SS +ZZZZ` timestamp.
//! - [`address`]: IPv4 and IPv6 requestor addresses.
//! - [`text`]: UTF-8 well-formedness, unsigned decimals, delimiter search.
//! - [`guarantees`]: properties of reading, proved over the grammar.
//! - [`schema`]: download statistics per episode and day.
//!
//! The reader pulls one byte at a time from its source into a scratch buffer,
//! slices each record's fields out of that buffer, and checks every field
//! against the grammar of a combined-format line.
pub mod access_logs;
pub mod address;
pub mod guarantees;
pub mod schema;
pub mod text;
pub mod timestamp;
