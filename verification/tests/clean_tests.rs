use toad_ops::clean::{
    clean_step, is_reserved_path, new_clean_run, summarize_clean, CleanCommand, CleanEvent, CleanResult,
    RESERVED_PATHS,
};
use toad_ops::model::ToadError;

/// Drives a cleaning run; `present` gives the size of each existing directory,
/// `fail` names directories whose removal fails.
fn drive(artifacts: &[&str], dry_run: bool, present: &[(&str, u64)], fail: &[&str]) -> (CleanResult, Vec<String>) {
    let artifacts: Vec<String> = artifacts.iter().map(|s| s.to_string()).collect();
    let mut run = new_clean_run();
    let mut removed = Vec::new();
    let mut cmd = clean_step(&artifacts, dry_run, &mut run, CleanEvent::Begin);
    loop {
        match cmd {
            CleanCommand::Done => break,
            CleanCommand::Probe(i) => {
                let size = present.iter().find(|(n, _)| *n == artifacts[i]).map(|(_, s)| *s);
                cmd = clean_step(&artifacts, dry_run, &mut run, CleanEvent::Probed(size));
            }
            CleanCommand::Remove(i) => {
                let outcome = if fail.contains(&artifacts[i].as_str()) {
                    Err("permission denied".to_string())
                } else {
                    removed.push(artifacts[i].clone());
                    Ok(())
                };
                cmd = clean_step(&artifacts, dry_run, &mut run, CleanEvent::Removed(outcome));
            }
        }
    }
    (run.result, removed)
}

#[test]
fn test_clean_project() {
    let (res, removed) = drive(&["target"], false, &[("target", 4)], &[]);
    assert_eq!(res.files_removed, 1);
    assert_eq!(res.bytes_reclaimed, 4);
    assert_eq!(removed, vec!["target".to_string()]);
}

#[test]
fn test_clean_project_safety() {
    let (res, removed) = drive(&["Cargo.toml"], false, &[("Cargo.toml", 4)], &[]);
    assert!(res.errors.len() > 0);
    assert_eq!(res.errors[0], "Skipping reserved path: Cargo.toml");
    assert!(removed.is_empty());
}

#[test]
fn clean_mixed_run() {
    let (res, removed) = drive(
        &["SRC", "target", "missing", "node_modules", "dist"],
        false,
        &[("target", 100), ("node_modules", 50), ("dist", 7)],
        &["dist"],
    );
    assert_eq!(removed, vec!["target".to_string(), "node_modules".to_string()]);
    assert_eq!(res.bytes_reclaimed, 150);
    assert_eq!(res.files_removed, 2);
    assert_eq!(
        res.errors,
        vec!["Skipping reserved path: SRC".to_string(), "Failed to remove dist: permission denied".to_string()]
    );
}

#[test]
fn clean_dry_run_removes_nothing() {
    let (res, removed) = drive(&["target", "dist"], true, &[("target", 100), ("dist", 7)], &[]);
    assert!(removed.is_empty());
    assert_eq!(res.bytes_reclaimed, 107);
    assert_eq!(res.files_removed, 2);
    assert!(res.errors.is_empty());
}

#[test]
fn reserved_paths_case_insensitive() {
    for p in RESERVED_PATHS {
        assert!(is_reserved_path(p));
        assert!(is_reserved_path(&p.to_uppercase()));
    }
    assert!(is_reserved_path("readme.MD"));
    assert!(!is_reserved_path("target"));
    assert!(!is_reserved_path("node_modules"));
}

#[test]
fn batch_clean_tally() {
    let ok = CleanResult { bytes_reclaimed: 10, files_removed: 1, errors: vec![] };
    let partial = CleanResult { bytes_reclaimed: 5, files_removed: 1, errors: vec!["x".to_string()] };
    let report = summarize_clean(vec![
        ("a".to_string(), Ok(ok)),
        ("b".to_string(), Ok(partial)),
        ("c".to_string(), Err(ToadError::Io("denied".to_string()))),
    ]);
    assert_eq!(report.total_reclaimed, 15);
    assert_eq!(report.success_count, 1);
    assert_eq!(report.fail_count, 2);
}

#[test]
fn missing_directory_is_probed_then_passed_over() {
    let artifacts = vec!["gone".to_string(), "target".to_string()];
    let mut run = new_clean_run();
    assert_eq!(clean_step(&artifacts, false, &mut run, CleanEvent::Begin), CleanCommand::Probe(0));
    // the directory does not exist: the next one is probed, nothing is removed
    assert_eq!(clean_step(&artifacts, false, &mut run, CleanEvent::Probed(None)), CleanCommand::Probe(1));
    assert_eq!(clean_step(&artifacts, false, &mut run, CleanEvent::Probed(Some(8))), CleanCommand::Remove(1));
    assert_eq!(clean_step(&artifacts, false, &mut run, CleanEvent::Removed(Ok(()))), CleanCommand::Done);
    assert_eq!(run.result.bytes_reclaimed, 8);
    assert!(run.result.errors.is_empty());
}

#[test]
fn names_outside_the_project_are_never_touched() {
    let names = [".", "..", "", "./src", "src/", "/", "/etc", "a/b", "..\\x"];
    let present: Vec<(&str, u64)> = names.iter().map(|n| (*n, 5u64)).collect();
    let (res, removed) = drive(&names, false, &present, &[]);
    assert!(removed.is_empty());
    assert_eq!(res.files_removed, 0);
    assert_eq!(res.bytes_reclaimed, 0);
    assert_eq!(res.errors.len(), names.len());
    assert_eq!(res.errors[0], "Skipping path outside the project: .");
    assert_eq!(res.errors[3], "Skipping path outside the project: ./src");
    let (res, _) = drive(&[".", "target"], true, &[(".", 5), ("target", 3)], &[]);
    assert_eq!(res.bytes_reclaimed, 3);
}
