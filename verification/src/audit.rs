//! The audit trail of batch operations.
use vstd::prelude::*;
use crate::text::concat;

verus! {

/// One batch operation as the audit log records it.
#[derive(Debug, Clone)]
pub struct AuditEntry {
    pub timestamp: String,
    pub command: String,
    pub target_count: usize,
    pub success_count: usize,
    pub fail_count: usize,
    pub skip_count: usize,
    pub user: String,
}

/// The name of the audit log file for a day, given as `YYYY-MM-DD`.
pub fn audit_file_name(date: &str) -> (r: String)
    ensures
        r@ == date@ + ".jsonl"@,
{
    concat(date, ".jsonl")
}

} // verus!
