use toad_ops::batch::{operation_result, should_skip, skipped_result, summarize_batch};
use toad_ops::model::ToadError;
use toad_ops::shell::{finished_result, timed_out_result};

#[test]
fn outcomes_and_tally() {
    let ok = finished_result(b"hello\n", b"", Some(0));
    let (r1, f1) = operation_result("a", Ok(ok));
    assert!(!f1);
    assert_eq!(r1.stdout, "hello\n");
    let bad = finished_result(b"", b"boom", Some(2));
    let (r2, f2) = operation_result("b", Ok(bad));
    assert!(f2);
    assert_eq!(r2.exit_code, 2);
    let (r3, f3) = operation_result("c", Err(ToadError::OperationFailed("spawn".to_string())));
    assert!(f3);
    assert_eq!(r3.exit_code, -1);
    assert_eq!(r3.stderr, "Error: Operation failed: spawn");
    let r4 = skipped_result("d");
    assert_eq!(r4.stderr, "Skipped due to previous failure");
    let report = summarize_batch("make", vec![r1, r2, r3, r4]);
    assert_eq!(report.command, "make");
    assert_eq!(report.success_count, 1);
    assert_eq!(report.fail_count, 2);
    assert_eq!(report.skip_count, 1);
    assert_eq!(report.results.len(), 4);
}

#[test]
fn fail_fast_decision() {
    assert!(should_skip(true, true));
    assert!(!should_skip(false, true));
    assert!(!should_skip(true, false));
}

#[test]
fn shell_results() {
    let t = timed_out_result();
    assert!(t.timed_out);
    assert_eq!(t.exit_code, -1);
    assert_eq!(t.stderr, "Operation timed out");
    let signalled = finished_result(b"\xff", b"", None);
    assert_eq!(signalled.exit_code, -1);
    assert_eq!(signalled.stdout, "\u{FFFD}");
}
