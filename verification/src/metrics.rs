//! Metrics records: one row per lock operation, with the client's name,
//! the key, and how long the operation took.
//!
//! Writing the rows out as CSV, and reading them back, is file work that
//! the surrounding program does; the record itself is defined here.

use vstd::prelude::*;

verus! {

/// Where the metrics rows go.
pub struct MetricsOpts {
    /// The file to append metrics to.
    pub metrics_file: String,
}

impl MetricsOpts {
    pub fn new(metrics_file: String) -> (r: MetricsOpts)
        ensures
            r.metrics_file == metrics_file,
    {
        MetricsOpts { metrics_file }
    }
}

/// One metrics row: who locked which key, and how many nanoseconds the
/// operation took.
pub struct Record {
    pub client_name: String,
    pub key: String,
    pub nanos: u128,
}

impl Record {
    pub fn new(client_name: String, key: String, nanos: u128) -> (r: Record)
        ensures
            r.client_name == client_name,
            r.key == key,
            r.nanos == nanos,
    {
        Record { client_name, key, nanos }
    }
}

} // verus!
