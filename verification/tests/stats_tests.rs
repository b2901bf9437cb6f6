use toad_ops::model::{ActivityTier, ProjectDetail, ProjectDna, VcsStatus};
use toad_ops::stats::{
    calculate_project_stats, generate_analytics_report, is_artifact, matches_filter, size_unit, FileEntry,
    ProjectStats, SizeUnit,
};

fn project(name: &str, tags: &[&str]) -> ProjectDetail {
    ProjectDetail {
        name: name.to_string(),
        path: format!("/w/{}", name),
        stack: "Rust".to_string(),
        tags: tags.iter().map(|t| t.to_string()).collect(),
        artifact_dirs: vec!["target".to_string()],
        activity: ActivityTier::Active,
        vcs_status: VcsStatus::Clean,
        essence: None,
        dna: ProjectDna { roles: vec![], capabilities: vec![] },
        total_size: 0,
    }
}

fn entry(path: &str, size: u64) -> FileEntry {
    FileEntry { components: path.split('/').map(|c| c.to_string()).collect(), size }
}

#[test]
fn test_calculate_project_stats() {
    let files = vec![entry("a.txt", 5), entry("target/b.txt", 5)];
    let artifacts = vec!["target".to_string()];
    let stats = calculate_project_stats(&files, &artifacts);
    assert!(stats.total_bytes >= 10);
    assert!(stats.artifact_bytes >= 5);
    assert_eq!(stats.total_bytes, 10);
    assert_eq!(stats.artifact_bytes, 5);
    assert_eq!(stats.source_bytes, 5);
}

#[test]
fn artifact_detection() {
    let dirs = vec!["target".to_string(), "node_modules".to_string()];
    assert!(is_artifact(&vec!["x".to_string(), "target".to_string(), "y".to_string()], &dirs));
    assert!(!is_artifact(&vec!["targets".to_string()], &dirs));
    assert!(!is_artifact(&vec![], &dirs));
}

#[test]
fn size_units() {
    assert_eq!(size_unit(0), SizeUnit::Bytes);
    assert_eq!(size_unit(1023), SizeUnit::Bytes);
    assert_eq!(size_unit(1024), SizeUnit::Kilobytes);
    assert_eq!(size_unit(1024 * 1024), SizeUnit::Megabytes);
    assert_eq!(size_unit(1024 * 1024 * 1024 - 1), SizeUnit::Megabytes);
    assert_eq!(size_unit(1u64 << 30), SizeUnit::Gigabytes);
    assert_eq!(size_unit(1u64 << 40), SizeUnit::Terabytes);
}

#[test]
fn report_filters_and_sorts() {
    let ps = vec![project("Alpha", &["#web"]), project("beta", &["#cli"]), project("alphabet", &["#web", "#cli"])];
    let st = |t: u64, a: u64| ProjectStats { total_bytes: t, artifact_bytes: a, source_bytes: t - a };
    let stats = vec![st(10, 1), st(30, 3), st(20, 2)];
    let r = generate_analytics_report(&ps, &stats, None, None);
    let names: Vec<&str> = r.offenders.iter().map(|o| o.name.as_str()).collect();
    assert_eq!(names, vec!["beta", "alphabet", "Alpha"]);
    assert_eq!(r.total_usage, 60);
    assert_eq!(r.total_artifacts, 6);
    let r = generate_analytics_report(&ps, &stats, Some("ALPHA"), None);
    let names: Vec<&str> = r.offenders.iter().map(|o| o.name.as_str()).collect();
    assert_eq!(names, vec!["alphabet", "Alpha"]);
    let r = generate_analytics_report(&ps, &stats, None, Some("cli"));
    assert_eq!(r.total_usage, 50);
    let r = generate_analytics_report(&ps, &stats, Some("alpha"), Some("#cli"));
    assert_eq!(r.offenders.len(), 1);
    assert_eq!(r.offenders[0].name, "alphabet");
    assert!(matches_filter(&ps[0], Some("LPH"), Some("web")));
    assert!(!matches_filter(&ps[1], None, Some("web")));
}

#[test]
fn report_ties_keep_order() {
    let ps = vec![project("a", &[]), project("b", &[]), project("c", &[])];
    let st = |t: u64| ProjectStats { total_bytes: t, artifact_bytes: 0, source_bytes: t };
    let r = generate_analytics_report(&ps, &vec![st(5), st(9), st(5)], None, None);
    let names: Vec<&str> = r.offenders.iter().map(|o| o.name.as_str()).collect();
    assert_eq!(names, vec!["b", "a", "c"]);
}

#[test]
fn tag_hash_is_optional_and_no_filter_keeps_all() {
    let ps = vec![project("a", &["#web"]), project("b", &["#cli"]), project("c", &["web"])];
    let st = |t: u64| ProjectStats { total_bytes: t, artifact_bytes: 0, source_bytes: t };
    let stats = vec![st(1), st(2), st(3)];
    let bare = generate_analytics_report(&ps, &stats, None, Some("web"));
    let hashed = generate_analytics_report(&ps, &stats, None, Some("#web"));
    assert_eq!(bare.total_usage, hashed.total_usage);
    let names = |r: &toad_ops::stats::AnalyticsReport| r.offenders.iter().map(|o| o.name.clone()).collect::<Vec<_>>();
    assert_eq!(names(&bare), names(&hashed));
    assert_eq!(names(&bare), vec!["a".to_string()]);
    assert_eq!(generate_analytics_report(&ps, &stats, None, None).offenders.len(), ps.len());
}
