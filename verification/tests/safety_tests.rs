use toad_ops::safety::{is_destructive, is_stack_mismatch};

#[test]
fn test_is_destructive() {
    assert!(is_destructive("rm -rf ."));
    assert!(is_destructive("git reset --hard HEAD"));
    assert!(is_destructive("GIT PUSH -F ORIGIN"));
    assert!(!is_destructive("git pull"));
    assert!(!is_destructive("ls -la"));
}

#[test]
fn destructive_patterns_each_detected() {
    for cmd in [
        "rm file",
        "git branch --delete x",
        "git reset --hard",
        "git push -f",
        "git push --force",
        "docker system prune",
        "DROP TABLE users",
        "truncate -s 0 log",
    ] {
        assert!(is_destructive(cmd), "{}", cmd);
    }
    assert!(!is_destructive("rmdir"));
    assert!(!is_destructive(""));
}

#[test]
fn stack_mismatch_cases() {
    assert!(is_stack_mismatch("cargo build", "Node"));
    assert!(!is_stack_mismatch("cargo build", "Rust"));
    assert!(!is_stack_mismatch("CARGO test", "rust workspace"));
    assert!(is_stack_mismatch("npm install", "Rust"));
    assert!(!is_stack_mismatch("pnpm i", "TypeScript"));
    assert!(!is_stack_mismatch("yarn", "Rust"));
    assert!(is_stack_mismatch("go test ./...", "Python"));
    assert!(!is_stack_mismatch("go build", "Go"));
    assert!(is_stack_mismatch("go build", "Django"));
    assert!(!is_stack_mismatch("go build", "Golang"));
    assert!(!is_stack_mismatch("go vet", "Rust/Go"));
    assert!(is_stack_mismatch("go vet", "Gopher tools"));
    assert!(is_stack_mismatch("pip install x", "Go"));
    assert!(!is_stack_mismatch("poetry run", "python"));
    assert!(!is_stack_mismatch("make", "anything"));
}

#[test]
fn ascii_case_does_not_matter() {
    for (cmd, stack) in [("cargo build", "Go"), ("npm i", "Rust"), ("go test", "Golang"), ("pip install x", "python")] {
        let upper = (cmd.to_ascii_uppercase(), stack.to_ascii_uppercase());
        assert_eq!(is_stack_mismatch(cmd, stack), is_stack_mismatch(&upper.0, &upper.1));
        assert_eq!(is_stack_mismatch(cmd, stack), is_stack_mismatch(&upper.0, stack));
    }
    for cmd in ["rm -rf x", "git push -f", "ls -la"] {
        assert_eq!(is_destructive(cmd), is_destructive(&cmd.to_ascii_uppercase()));
    }
}
