//! Monitors the peak locked-memory usage of a supervised process tree.
//!
//! The verified library holds the measurement database, the parsers for
//! the process-table, limit-query and status-file text, and the decision
//! logic of the two polling workers.  The surrounding process handling,
//! file reading and thread plumbing live outside the library.

pub mod database;
pub mod limit;
pub mod ps;
pub mod status;
pub mod text;
pub mod worker;
