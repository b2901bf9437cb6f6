//! Results of commands run in a project directory.
use vstd::prelude::*;
use crate::text::{from_utf8_lossy, lossy_utf8};

verus! {

broadcast use vstd::string::group_string_axioms;

/// What a command run in a directory produced.
#[derive(Debug)]
pub struct OpResult {
    pub stdout: String,
    pub stderr: String,
    pub exit_code: i32,
    pub timed_out: bool,
}

/// The result of a command that finished: its output decoded (invalid UTF-8
/// replaced), and its exit code, or -1 when it was ended by a signal.
pub fn finished_result(stdout: &[u8], stderr: &[u8], code: Option<i32>) -> (r: OpResult)
    ensures
        r.stdout@ == lossy_utf8(stdout@),
        r.stderr@ == lossy_utf8(stderr@),
        r.exit_code == match code {
            Some(c) => c,
            None => -1i32,
        },
        !r.timed_out,
{
    OpResult {
        stdout: from_utf8_lossy(stdout),
        stderr: from_utf8_lossy(stderr),
        exit_code: match code {
            Some(c) => c,
            None => -1,
        },
        timed_out: false,
    }
}

/// The result of a command that did not finish in time.
pub fn timed_out_result() -> (r: OpResult)
    ensures
        r.stdout@ == Seq::<char>::empty(),
        r.stderr@ == "Operation timed out"@,
        r.exit_code == -1,
        r.timed_out,
{
    OpResult {
        stdout: String::new(),
        stderr: String::from_str("Operation timed out"),
        exit_code: -1,
        timed_out: true,
    }
}

} // verus!
