use toad_ops::migration::{compare_projects, score_fits};
use toad_ops::model::{ActivityTier, ProjectDetail, ProjectDna, VcsStatus};

fn project(name: &str, stack: &str, roles: &[&str], caps: &[&str]) -> ProjectDetail {
    ProjectDetail {
        name: name.to_string(),
        path: String::new(),
        stack: stack.to_string(),
        tags: vec![],
        artifact_dirs: vec![],
        activity: ActivityTier::Active,
        vcs_status: VcsStatus::Clean,
        essence: None,
        dna: ProjectDna {
            roles: roles.iter().map(|r| r.to_string()).collect(),
            capabilities: caps.iter().map(|c| c.to_string()).collect(),
        },
        total_size: 0,
    }
}

#[test]
fn identical_projects() {
    let p = project("a", "Rust", &["api", "api", "models"], &["http"]);
    let r = compare_projects(&p, &p);
    assert_eq!(r.compatibility_score, 100);
    assert!(r.mismatches.is_empty());
    assert_eq!(
        r.matching_capabilities,
        vec!["Identical stacks (Rust)", "Matching role: api", "Matching role: models", "Matching capability: http"]
    );
}

#[test]
fn differing_projects() {
    let s = project("s", "Rust", &["api", "cli"], &["http", "db"]);
    let t = project("t", "Go", &["api"], &["http"]);
    let r = compare_projects(&s, &t);
    assert_eq!(r.compatibility_score, 100 - 40 - 10 - 5);
    assert_eq!(r.source, "s");
    assert_eq!(r.target, "t");
    assert_eq!(
        r.mismatches,
        vec!["Stack mismatch: Rust vs Go", "Source role missing in target: cli", "Source capability missing in target: db"]
    );
}

#[test]
fn negative_score_wraps() {
    let roles: Vec<String> = (0..10).map(|i| format!("r{}", i)).collect();
    let refs: Vec<&str> = roles.iter().map(|s| s.as_str()).collect();
    let s = project("s", "Rust", &refs, &[]);
    let t = project("t", "Go", &[], &[]);
    let r = compare_projects(&s, &t);
    let raw: i32 = 100 - 40 - 100;
    assert_eq!(r.compatibility_score, raw as u8);
}

#[test]
fn ordinary_scores_fit() {
    let s = project("s", "Rust", &["api", "cli", "cli"], &["http", "db"]);
    let t = project("t", "Go", &[], &[]);
    assert!(score_fits(&s, &t));
    assert!(score_fits(&t, &s));
}
