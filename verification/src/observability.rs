//! Names under which storage operations are counted and timed.
use vstd::prelude::*;
use crate::text::{push_str, string_of};

verus! {

/// A kind of storage operation, for metrics.
#[derive(Debug, Clone, Copy, PartialEq, Eq, Hash, Structural)]
pub enum OperationType {
    /// Single get.
    Get,
    /// Single put.
    Put,
    /// Batch put.
    BatchPut,
    /// Delete.
    Delete,
    /// Range scan.
    RangeScan,
    /// Prefix scan.
    PrefixScan,
    /// Contains check.
    Contains,
    /// Transaction commit.
    TransactionCommit,
    /// Transaction rollback.
    TransactionRollback,
}

/// The metric name of an operation: `storage.` and the operation's name.
pub open spec fn metric_name_spec(op: OperationType) -> Seq<char> {
    match op {
        OperationType::Get => "storage.get"@,
        OperationType::Put => "storage.put"@,
        OperationType::BatchPut => "storage.batch_put"@,
        OperationType::Delete => "storage.delete"@,
        OperationType::RangeScan => "storage.range_scan"@,
        OperationType::PrefixScan => "storage.prefix_scan"@,
        OperationType::Contains => "storage.contains"@,
        OperationType::TransactionCommit => "storage.transaction.commit"@,
        OperationType::TransactionRollback => "storage.transaction.rollback"@,
    }
}

fn suffixed(base: &str, suffix: &str) -> (r: String)
    ensures
        r@ == base@ + suffix@,
{
    let mut out: Vec<char> = Vec::new();
    push_str(&mut out, base);
    push_str(&mut out, suffix);
    string_of(out.as_slice())
}

impl OperationType {
    /// The operation's metric name.
    pub fn metric_name(&self) -> (r: &'static str)
        ensures
            r@ == metric_name_spec(*self),
    {
        match self {
            OperationType::Get => "storage.get",
            OperationType::Put => "storage.put",
            OperationType::BatchPut => "storage.batch_put",
            OperationType::Delete => "storage.delete",
            OperationType::RangeScan => "storage.range_scan",
            OperationType::PrefixScan => "storage.prefix_scan",
            OperationType::Contains => "storage.contains",
            OperationType::TransactionCommit => "storage.transaction.commit",
            OperationType::TransactionRollback => "storage.transaction.rollback",
        }
    }

    /// The name of the operation's counter: the metric name and `.count`.
    pub fn counter_name(&self) -> (r: String)
        ensures
            r@ == metric_name_spec(*self) + ".count"@,
    {
        suffixed(self.metric_name(), ".count")
    }

    /// The name of the operation's latency histogram: the metric name and `.latency_ms`.
    pub fn latency_name(&self) -> (r: String)
        ensures
            r@ == metric_name_spec(*self) + ".latency_ms"@,
    {
        suffixed(self.metric_name(), ".latency_ms")
    }

    /// The name of the operation's error counter: the metric name and `.errors`.
    pub fn error_name(&self) -> (r: String)
        ensures
            r@ == metric_name_spec(*self) + ".errors"@,
    {
        suffixed(self.metric_name(), ".errors")
    }
}

} // verus!
