use toad_ops::doctor::{count_submodules, health_report, HealthFindings};

#[test]
fn submodules_counted() {
    assert_eq!(count_submodules("-abc a\n+def b\n def c\n-ghi d\n"), (2, 1));
    assert_eq!(count_submodules(""), (0, 0));
}

#[test]
fn report_healthy() {
    let f = HealthFindings {
        mcp_installed: true,
        stored_fingerprint: 7,
        current_fingerprint: Some(7),
        registry: Ok(12),
        git_remotes_reachable: true,
        submodule_status: Some(b" abc a\n".to_vec()),
        manifest_exists: true,
        atlas_exists: true,
    };
    let r = health_report("1.0.0", "/w", f);
    assert!(r.issues.is_empty());
    assert!(r.warnings.is_empty());
    assert_eq!(r.project_count, 12);
    assert!(r.registry_fresh);
    assert_eq!(r.workspace_path.as_deref(), Some("/w"));
}

#[test]
fn report_problems() {
    let f = HealthFindings {
        mcp_installed: false,
        stored_fingerprint: 7,
        current_fingerprint: None,
        registry: Err("missing file".to_string()),
        git_remotes_reachable: false,
        submodule_status: Some(b"-a x\n-b y\n+c z\n".to_vec()),
        manifest_exists: false,
        atlas_exists: false,
    };
    let r = health_report("1.0.0", "/w", f);
    assert_eq!(r.issues, vec!["Registry load failed: missing file", "Run 'toad sync' to build registry"]);
    assert_eq!(
        r.warnings,
        vec![
            "Install toad-mcp: cargo install --path bin/toad-mcp",
            "Run 'toad manifest' to refresh context",
            "Check network connection or git remote configuration",
            "Run 'git submodule update --init' to initialize 2 submodules",
            "Run 'toad manifest' to generate manifest",
            "Run 'toad manifest' to generate atlas",
        ]
    );
    assert_eq!((r.uninitialized_submodules, r.dirty_submodules), (2, 1));
    assert_eq!(r.project_count, 0);
    assert!(!r.registry_fresh);
}
