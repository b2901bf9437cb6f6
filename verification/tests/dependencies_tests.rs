use toad_ops::cycles::detect_cycles;
use toad_ops::dependencies::{analyze_dependencies, crate_name_from_manifest, ManifestInfo, PackageInfo};
use toad_ops::model::{ActivityTier, ProjectDetail, ProjectDna, VcsStatus};

fn project(name: &str) -> ProjectDetail {
    ProjectDetail {
        name: name.to_string(),
        path: format!("/w/{}", name),
        stack: "Rust".to_string(),
        tags: vec![],
        artifact_dirs: vec![],
        activity: ActivityTier::Active,
        vcs_status: VcsStatus::Clean,
        essence: None,
        dna: ProjectDna { roles: vec![], capabilities: vec![] },
        total_size: 0,
    }
}

fn text_manifest(content: &str) -> Option<ManifestInfo> {
    Some(ManifestInfo { content: Some(content.to_string()), packages: None })
}

#[test]
fn crate_names() {
    assert_eq!(crate_name_from_manifest("[package]\nname = \"toad-core\"\nversion = \"1\"\n"), Some("toad-core".to_string()));
    assert_eq!(crate_name_from_manifest("  name = \"x\"\nname = \"y\""), Some("x".to_string()));
    assert_eq!(crate_name_from_manifest("name = x"), None);
    assert_eq!(crate_name_from_manifest("[package]\nversion = \"1\""), None);
}

#[test]
fn graph_from_manifest_text() {
    let ps = vec![project("core"), project("ops"), project("cli"), project("docs")];
    let ms = vec![
        text_manifest("[package]\nname = \"toad-core\"\n"),
        text_manifest("[package]\nname = \"toad-ops\"\n[dependencies]\ntoad-core = \"1\"\n"),
        text_manifest("[package]\nname = \"toad\"\n[dependencies]\ntoad-ops = \"1\"\ntoad-core = { path = \"x\" }\n"),
        None,
    ];
    let g = analyze_dependencies(&ps, &ms).unwrap();
    assert_eq!(g.nodes.len(), 4);
    assert!(g.nodes[1].dependencies == vec!["core".to_string()]);
    let mut cli_deps = g.nodes[2].dependencies.clone();
    cli_deps.sort();
    assert_eq!(cli_deps, vec!["core".to_string(), "ops".to_string()]);
    assert_eq!(g.nodes[0].dependents, vec!["ops".to_string(), "cli".to_string()]);
    assert_eq!(g.critical_path[0], "core");
    assert_eq!(g.critical_path[1], "ops");
    assert_eq!(g.orphaned_projects, vec!["docs".to_string()]);
    assert!(g.circular_dependencies.is_empty());
    assert!(g.nodes.iter().all(|n| n.version.is_none() && n.depth == 0));
}

#[test]
fn graph_from_metadata_with_cycle() {
    let ps = vec![project("a"), project("b")];
    let pkg = |name: &str, deps: &[&str]| PackageInfo {
        name: name.to_string(),
        version: "0.2.0".to_string(),
        dependencies: deps.iter().map(|d| d.to_string()).collect(),
        dir_matches: false,
    };
    let ms = vec![
        Some(ManifestInfo { content: Some("name = \"crate-a\"".to_string()), packages: Some(vec![pkg("crate-a", &["crate-b", "serde"])]) }),
        Some(ManifestInfo { content: Some("name = \"crate-b\"".to_string()), packages: Some(vec![pkg("crate-b", &["crate-a"])]) }),
    ];
    let g = analyze_dependencies(&ps, &ms).unwrap();
    assert_eq!(g.nodes[0].version.as_deref(), Some("0.2.0"));
    assert_eq!(g.nodes[0].dependencies, vec!["b".to_string()]);
    assert_eq!(g.nodes[1].dependencies, vec!["a".to_string()]);
    assert_eq!(g.circular_dependencies, vec![vec!["a".to_string(), "b".to_string()]]);
    assert!(g.orphaned_projects.is_empty());
}

#[test]
fn metadata_without_matching_package() {
    let ps = vec![project("a")];
    let ms = vec![Some(ManifestInfo {
        content: Some("name = \"crate-a\"".to_string()),
        packages: Some(vec![PackageInfo { name: "other".to_string(), version: "1".to_string(), dependencies: vec![], dir_matches: false }]),
    })];
    let g = analyze_dependencies(&ps, &ms).unwrap();
    assert!(g.nodes[0].version.is_none());
    assert_eq!(g.orphaned_projects, vec!["a".to_string()]);
}

#[test]
fn dependents_mirror_dependencies() {
    let ps = vec![project("a"), project("b"), project("c"), project("a")];
    let ms = vec![
        text_manifest("name = \"ca\"\nb-crate = \"1\""),
        text_manifest("name = \"b-crate\"\nc-crate = \"1\""),
        text_manifest("name = \"c-crate\""),
        text_manifest("name = \"ca\"\nc-crate = \"1\""),
    ];
    let g = analyze_dependencies(&ps, &ms).unwrap();
    // a project name that occurs twice is one node with the union of the dependencies
    assert_eq!(g.nodes.len(), 3);
    let mut a_deps = g.nodes[0].dependencies.clone();
    a_deps.sort();
    assert_eq!(a_deps, vec!["b".to_string(), "c".to_string()]);
    for n in &g.nodes {
        for d in &n.dependencies {
            let target = g.nodes.iter().find(|m| &m.name == d).unwrap();
            assert!(target.dependents.contains(&n.name));
        }
        for d in &n.dependents {
            let source = g.nodes.iter().find(|m| &m.name == d).unwrap();
            assert!(source.dependencies.contains(&n.name));
        }
    }
    assert_eq!(g.nodes[2].dependents, vec!["a".to_string(), "b".to_string()]);
    assert_eq!(g.critical_path, vec!["c".to_string(), "b".to_string(), "a".to_string()]);
    assert!(g.circular_dependencies.is_empty());
}

#[test]
fn self_loop_is_one_cycle() {
    assert_eq!(detect_cycles(&vec![vec![0]]), vec![vec![0]]);
    assert_eq!(detect_cycles(&vec![vec![]]), Vec::<Vec<usize>>::new());
    // two back edges into one path give two different simple cycles
    assert_eq!(detect_cycles(&vec![vec![1], vec![2], vec![0, 1]]), vec![vec![0, 1, 2], vec![1, 2]]);
}

#[test]
fn path_component_suffix() {
    let v = |s: &[&str]| s.iter().map(|x| x.to_string()).collect::<Vec<String>>();
    assert!(toad_ops::dependencies::components_end_with(&v(&["/", "w", "core"]), &v(&["w", "core"])));
    assert!(toad_ops::dependencies::components_end_with(&v(&["/", "w", "core"]), &v(&[])));
    assert!(!toad_ops::dependencies::components_end_with(&v(&["/", "w", "core"]), &v(&["ore"])));
    assert!(!toad_ops::dependencies::components_end_with(&v(&["core"]), &v(&["w", "core"])));
}
