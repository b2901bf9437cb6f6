//! Running one command across many projects: what each run yields and how
//! the runs are tallied.
use vstd::prelude::*;
use crate::model::{ToadError, error_message};
use crate::shell::OpResult;
use crate::text::{concat, str_eq};

verus! {

broadcast use vstd::string::group_string_axioms;

/// The outcome of the batch command in one project.
#[derive(Debug)]
pub struct OperationResult {
    pub project_name: String,
    pub exit_code: i32,
    pub stdout: String,
    pub stderr: String,
    pub timed_out: bool,
}

/// The outcome of a batch command across projects.
#[derive(Debug)]
pub struct BatchOperationReport {
    pub command: String,
    pub results: Vec<OperationResult>,
    pub success_count: usize,
    pub fail_count: usize,
    pub skip_count: usize,
}

/// The message recorded for a project skipped after an earlier failure.
pub open spec fn skip_message() -> Seq<char> {
    "Skipped due to previous failure"@
}

/// Under fail-fast, once a run has failed the remaining projects are skipped.
pub fn should_skip(fail_fast: bool, failed_before: bool) -> (r: bool)
    ensures
        r == (fail_fast && failed_before),
{
    fail_fast && failed_before
}

/// The result recorded for a skipped project.
pub fn skipped_result(project_name: &str) -> (r: OperationResult)
    ensures
        r.project_name@ == project_name@,
        r.exit_code == -1,
        r.stdout@ == Seq::<char>::empty(),
        r.stderr@ == skip_message(),
        !r.timed_out,
{
    OperationResult {
        project_name: String::from_str(project_name),
        exit_code: -1,
        stdout: String::new(),
        stderr: String::from_str("Skipped due to previous failure"),
        timed_out: false,
    }
}

/// The result recorded for a project whose run returned `res`, and whether
/// it counts as a failure for fail-fast: a nonzero exit code or an error.
pub fn operation_result(project_name: &str, res: Result<OpResult, ToadError>) -> (r: (OperationResult, bool))
    ensures
        r.0.project_name@ == project_name@,
        match res {
            Ok(op) => {
                &&& r.0.exit_code == op.exit_code
                &&& r.0.stdout@ == op.stdout@
                &&& r.0.stderr@ == op.stderr@
                &&& r.0.timed_out == op.timed_out
                &&& r.1 == (op.exit_code != 0)
            },
            Err(e) => {
                &&& r.0.exit_code == -1
                &&& r.0.stdout@ == Seq::<char>::empty()
                &&& r.0.stderr@ == "Error: "@ + error_message(e)
                &&& !r.0.timed_out
                &&& r.1
            },
        },
{
    match res {
        Ok(op) => {
            let failed = op.exit_code != 0;
            (
                OperationResult {
                    project_name: String::from_str(project_name),
                    exit_code: op.exit_code,
                    stdout: op.stdout,
                    stderr: op.stderr,
                    timed_out: op.timed_out,
                },
                failed,
            )
        },
        Err(e) => {
            let msg = e.message();
            (
                OperationResult {
                    project_name: String::from_str(project_name),
                    exit_code: -1,
                    stdout: String::new(),
                    stderr: concat("Error: ", msg.as_str()),
                    timed_out: false,
                },
                true,
            )
        },
    }
}

/// How a result is counted: 0 success, 1 skipped, 2 failed.
pub open spec fn result_kind(r: OperationResult) -> int {
    if r.exit_code == 0 {
        0
    } else if r.stderr@ == skip_message() {
        1
    } else {
        2
    }
}

/// Number of results among the first `n` of the given kind.
pub open spec fn count_kind(rs: Seq<OperationResult>, kind: int, n: int) -> nat
    decreases n,
{
    if n <= 0 {
        0
    } else {
        count_kind(rs, kind, n - 1) + if result_kind(rs[n - 1]) == kind {
            1nat
        } else {
            0nat
        }
    }
}

proof fn lemma_kinds_partition(rs: Seq<OperationResult>, n: int)
    requires
        0 <= n <= rs.len(),
    ensures
        count_kind(rs, 0, n) + count_kind(rs, 1, n) + count_kind(rs, 2, n) == n,
    decreases n,
{
    if n > 0 {
        lemma_kinds_partition(rs, n - 1);
    }
}

/// Tallies the results of a batch command: successes (exit code 0), skipped
/// projects, and failures (everything else).
pub fn summarize_batch(command: &str, results: Vec<OperationResult>) -> (r: BatchOperationReport)
    ensures
        r.command@ == command@,
        r.results@ == results@,
        r.success_count == count_kind(results@, 0, results@.len() as int),
        r.skip_count == count_kind(results@, 1, results@.len() as int),
        r.fail_count == count_kind(results@, 2, results@.len() as int),
        r.success_count + r.skip_count + r.fail_count == results@.len(),
{
    let mut success_count: usize = 0;
    let mut fail_count: usize = 0;
    let mut skip_count: usize = 0;
    let mut i: usize = 0;
    while i < results.len()
        invariant
            i <= results.len(),
            success_count == count_kind(results@, 0, i as int),
            skip_count == count_kind(results@, 1, i as int),
            fail_count == count_kind(results@, 2, i as int),
        decreases results.len() - i,
    {
        proof {
            lemma_kinds_partition(results@, i as int);
        }
        let r = &results[i];
        if r.exit_code == 0 {
            success_count = success_count + 1;
        } else if str_eq(r.stderr.as_str(), "Skipped due to previous failure") {
            skip_count = skip_count + 1;
        } else {
            fail_count = fail_count + 1;
        }
        i = i + 1;
    }
    proof {
        lemma_kinds_partition(results@, i as int);
    }
    BatchOperationReport {
        command: String::from_str(command),
        results,
        success_count,
        fail_count,
        skip_count,
    }
}

} // verus!
