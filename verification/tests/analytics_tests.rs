use toad_ops::analytics::{
    analyze_ai_readiness, calculate_health_score, generate_insights, is_noise_extension, scan_debt,
    shortstat_totals, tally_debt, velocity_from_log, FileDebt,
};
use toad_ops::model::{ActivityTier, ProjectDetail, ProjectDna, VcsStatus};

fn project(name: &str) -> ProjectDetail {
    ProjectDetail {
        name: name.to_string(),
        path: format!("/w/{}", name),
        stack: "Rust".to_string(),
        tags: vec![],
        artifact_dirs: vec![],
        activity: ActivityTier::Cold,
        vcs_status: VcsStatus::Clean,
        essence: None,
        dna: ProjectDna { roles: vec![], capabilities: vec![] },
        total_size: 0,
    }
}

#[test]
fn shortstat_parsing() {
    let out = "commit abc\n\n 3 files changed, 120 insertions(+), 7 deletions(-)\n 1 file changed, 1 insertion(+)\n 2 files changed, 9 deletions(-)\n";
    assert_eq!(shortstat_totals(out), Some((121, 0 + 7)));
    let overflow = format!(" 1 file changed, {} insertions(+)\n 1 file changed, 1 insertion(+)\n", usize::MAX);
    assert_eq!(shortstat_totals(&overflow), None);
}

#[test]
fn velocity() {
    let v = velocity_from_log("ann\nbob\nann\n", " 1 file changed, 2 insertions(+), 1 deletion(-)\n").unwrap();
    assert_eq!(v.commit_count, 3);
    assert_eq!(v.active_contributors, vec!["ann".to_string(), "bob".to_string()]);
    assert_eq!(v.lines_added, 2);
    assert_eq!(v.lines_removed, 1);
    assert_eq!(v.trend, "Stable");
}

#[test]
fn debt_scan() {
    assert!(is_noise_extension("PNG"));
    assert!(is_noise_extension("lock"));
    assert!(!is_noise_extension("rs"));
    let d = scan_debt("// TODO: x\n// todo again FIXME\nlet hackhack = 1;\n");
    assert_eq!(d.todo, 2);
    assert_eq!(d.fixme, 1);
    assert_eq!(d.hack, 2);
    assert!(!d.large);
    let big = "x\n".repeat(701);
    assert!(scan_debt(&big).large);
    assert!(!scan_debt(&"x\n".repeat(700)).large);
    let t = tally_debt(&vec![
        ("a.rs".to_string(), FileDebt { todo: 1, fixme: 2, hack: 0, large: true }),
        ("b.rs".to_string(), FileDebt { todo: 3, fixme: 0, hack: 1, large: false }),
    ])
    .unwrap();
    assert_eq!((t.todo_count, t.fixme_count, t.hack_count), (4, 2, 1));
    assert_eq!(t.large_files, vec!["a.rs".to_string()]);
}

#[test]
fn health_and_readiness() {
    let mut p = project("p");
    let h = calculate_health_score(&p, false).unwrap();
    assert_eq!(h.total, 20 + 5 + 0 + 15);
    p.vcs_status = VcsStatus::Clean;
    p.activity = ActivityTier::Active;
    p.essence = Some("purpose".to_string());
    p.total_size = 10;
    let h = calculate_health_score(&p, true).unwrap();
    assert_eq!((h.vcs_cleanliness, h.activity, h.documentation, h.code_quality), (20, 15, 15, 10));
    assert_eq!(h.total, 60);
    let a = analyze_ai_readiness(&project("q")).unwrap();
    assert_eq!(a.score, 70);
    assert_eq!(a.recommendations.len(), 2);
    let mut r = project("r");
    r.essence = Some("e".to_string());
    r.dna.roles = vec!["api".to_string()];
    let a = analyze_ai_readiness(&r).unwrap();
    assert_eq!(a.score, 90);
    assert_eq!(a.factors, vec![("Documentation".to_string(), 10), ("Clear Roles".to_string(), 10)]);
    assert!(a.recommendations.is_empty());
}

#[test]
fn insights() {
    let mut a = project("a");
    a.vcs_status = VcsStatus::Dirty;
    a.total_size = 2_000_000_000;
    let b = project("b");
    let v = generate_insights(&vec![a, b]).unwrap();
    assert_eq!(v.len(), 2);
    assert_eq!(v[0].title, "Dirty VCS in a");
    assert_eq!(v[0].severity, "Medium");
    assert_eq!(v[1].title, "Large Storage Footprint: a");
    assert_eq!(v[1].action_item, "Run 'toad clean' on this project.");
}
