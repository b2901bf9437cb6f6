use toad_ops::workflow::{
    plan_skill_distribution, register_workflow, render_skill, resolve_vendor, skill_file_name, WorkflowRegistry,
};

#[test]
fn vendors_resolve() {
    assert_eq!(resolve_vendor("Cursor"), Some(("Cursor".to_string(), ".cursor".to_string())));
    assert_eq!(resolve_vendor("copilot"), Some(("copilot".to_string(), ".github/copilot".to_string())));
    assert_eq!(resolve_vendor("mine:tools/ai:x"), Some(("mine".to_string(), "tools/ai:x".to_string())));
    assert_eq!(resolve_vendor("unknown"), None);
}

#[test]
fn skills_render() {
    assert_eq!(render_skill("cursor", "toad-cli", "body"), "body\n");
    assert_eq!(render_skill("cursor", "toad-cli", "body\n"), "body\n");
    assert_eq!(
        render_skill("Gemini", "toad-cli", "body"),
        "<skill>\n  <name>toad-cli</name>\n  <description>Toad Control CLI command reference.</description>\n  <instructions>\nbody\n  </instructions>\n</skill>\n"
    );
    assert!(render_skill("gemini", "other", "b").contains("Auto-generated ecosystem context."));
    assert_eq!(skill_file_name("toad-mcp"), "toad-mcp.md");
}

#[test]
fn distribution_plan() {
    let vendors = vec!["cursor".to_string(), "nope".to_string(), "gemini".to_string()];
    let skills = vec![("toad-mcp".to_string(), "tools".to_string())];
    let plan = plan_skill_distribution(&vendors, &skills);
    assert_eq!(plan.len(), 2);
    assert_eq!(plan[0].dir, ".cursor");
    assert_eq!(plan[0].files, vec![("toad-mcp.md".to_string(), "tools\n".to_string())]);
    assert_eq!(plan[1].dir, ".gemini");
    assert!(plan[1].files[0].1.starts_with("<skill>"));
}

#[test]
fn workflows_register() {
    let mut reg = WorkflowRegistry { workflows: vec![], reserved: vec!["clean".to_string()] };
    let e = register_workflow(&mut reg, "Clean".to_string(), "/x.sh".to_string(), None, 1);
    assert!(e.is_err());
    assert!(reg.workflows.is_empty());
    register_workflow(&mut reg, "Deploy".to_string(), "/d.sh".to_string(), None, 2).unwrap();
    register_workflow(&mut reg, "DEPLOY".to_string(), "/d2.sh".to_string(), Some("v2".to_string()), 3).unwrap();
    assert_eq!(reg.workflows.len(), 1);
    assert_eq!(reg.workflows[0].0, "deploy");
    assert_eq!(reg.workflows[0].1.script_path, "/d2.sh");
    assert_eq!(reg.workflows[0].1.name, "DEPLOY");
}

#[test]
fn registry_key_uniqueness() {
    let mut reg = WorkflowRegistry { workflows: vec![], reserved: vec![] };
    assert!(reg.has_unique_keys());
    register_workflow(&mut reg, "a".to_string(), "/a.sh".to_string(), None, 1).unwrap();
    register_workflow(&mut reg, "b".to_string(), "/b.sh".to_string(), None, 2).unwrap();
    assert!(reg.has_unique_keys());
    let dup = reg.workflows[0].clone();
    reg.workflows.push(dup);
    assert!(!reg.has_unique_keys());
}
