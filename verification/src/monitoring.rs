use vstd::prelude::*;

use std::time::Instant;

use crate::embedding_cache::instant_now;

verus! {

/// Timer of one operation, started when it is made.
#[derive(Debug)]
pub struct OperationTimer {
    operation_name: String,
    start_time: Instant,
}

impl OperationTimer {
    /// The name of the timed operation.
    pub closed spec fn name(&self) -> Seq<char> {
        self.operation_name@
    }

    /// Starts timing the operation `operation_name`.
    pub fn new(operation_name: &str) -> (r: OperationTimer)
        ensures
            r.name() == operation_name@,
    {
        OperationTimer { operation_name: operation_name.to_string(), start_time: instant_now() }
    }

    /// Attaches a key and value to the timing; they are not recorded.
    pub fn with_metadata(self, key: String, value: String) -> (r: OperationTimer)
        ensures
            r == self,
    {
        self
    }

    /// Ends the timing of an operation that succeeded; nothing is recorded.
    pub fn complete_success(self) {
    }

    /// Ends the timing of an operation that failed; nothing is recorded.
    pub fn complete_error(self, error: String) {
    }
}

/// Source of operation timers.
#[derive(Debug, Default)]
pub struct PerformanceMonitor;

impl PerformanceMonitor {
    /// A monitor.
    pub fn new() -> (r: PerformanceMonitor) {
        PerformanceMonitor
    }

    /// Starts timing the operation `operation_name`.
    pub fn start_operation(&self, operation_name: &str) -> (r: OperationTimer)
        ensures
            r.name() == operation_name@,
    {
        OperationTimer::new(operation_name)
    }
}

} // verus!
