//! The workspace health check: what its findings mean and what the user is
//! told to do about them.
use vstd::prelude::*;
use crate::text::{
    chars_of, concat, decimal, decimal_string, from_utf8_lossy, lines, lines_of, lossy_utf8,
    starts_with, string_of,
};

verus! {

broadcast use vstd::string::group_string_axioms;

/// What the checks of the environment found.
#[derive(Debug)]
pub struct HealthFindings {
    /// `toad-mcp --version` could be run.
    pub mcp_installed: bool,
    /// The fingerprint stored with the registry.
    pub stored_fingerprint: u64,
    /// The fingerprint of the workspace now, when it could be computed.
    pub current_fingerprint: Option<u64>,
    /// The number of projects in the registry, or why it could not be loaded.
    pub registry: Result<usize, String>,
    /// `git ls-remote --exit-code origin` succeeded.
    pub git_remotes_reachable: bool,
    /// The output of `git submodule status`, when it could be run.
    pub submodule_status: Option<Vec<u8>>,
    pub manifest_exists: bool,
    pub atlas_exists: bool,
}

/// The health of the workspace and what to do about it.
#[derive(Debug)]
pub struct HealthReport {
    pub version: String,
    pub mcp_installed: bool,
    pub workspace_discovered: bool,
    pub workspace_path: Option<String>,
    pub registry_fresh: bool,
    pub project_count: usize,
    pub git_remotes_reachable: bool,
    pub uninitialized_submodules: usize,
    pub dirty_submodules: usize,
    pub manifest_exists: bool,
    pub atlas_exists: bool,
    pub issues: Vec<String>,
    pub warnings: Vec<String>,
}

/// Number of lines starting with `c`.
pub open spec fn count_lines_starting(ls: Seq<Seq<char>>, c: char, n: int) -> nat
    decreases n,
{
    if n <= 0 {
        0
    } else {
        count_lines_starting(ls, c, n - 1) + if ls[n - 1].len() > 0 && ls[n - 1][0] == c {
            1nat
        } else {
            0nat
        }
    }
}

/// Submodules that `git submodule status` lists as not initialized (`-`)
/// and as not at the recorded commit (`+`).
pub open spec fn submodule_counts(out: Seq<char>) -> (nat, nat) {
    let ls = lines(out);
    (count_lines_starting(ls, '-', ls.len() as int), count_lines_starting(ls, '+', ls.len() as int))
}

/// Counts the uninitialized and the dirty submodules in the output of `git submodule status`.
pub fn count_submodules(out: &str) -> (r: (usize, usize))
    ensures
        r.0 == submodule_counts(out@).0,
        r.1 == submodule_counts(out@).1,
{
    let text = chars_of(out);
    let ls = lines_of(&text);
    let mut uninit: usize = 0;
    let mut dirty: usize = 0;
    let mut i: usize = 0;
    while i < ls.len()
        invariant
            i <= ls@.len() == lines(out@).len(),
            forall|k: int| 0 <= k < ls@.len() ==> #[trigger] ls@[k]@ == lines(out@)[k],
            uninit == count_lines_starting(lines(out@), '-', i as int),
            dirty == count_lines_starting(lines(out@), '+', i as int),
            uninit <= i,
            dirty <= i,
        decreases ls.len() - i,
    {
        assert(ls@[i as int]@ == lines(out@)[i as int]);
        if ls[i].len() > 0 && ls[i][0] == '-' {
            uninit = uninit + 1;
        }
        if ls[i].len() > 0 && ls[i][0] == '+' {
            dirty = dirty + 1;
        }
        i = i + 1;
    }
    (uninit, dirty)
}

/// The problems found, in the order they are reported.
pub open spec fn health_issues(f: HealthFindings) -> Seq<Seq<char>> {
    match f.registry {
        Ok(_) => seq![],
        Err(e) => seq!["Registry load failed: "@ + e@, "Run 'toad sync' to build registry"@],
    }
}

/// The advice given, in the order it is reported.
pub open spec fn health_warnings(f: HealthFindings) -> Seq<Seq<char>> {
    let w1: Seq<Seq<char>> = if f.mcp_installed {
        seq![]
    } else {
        seq!["Install toad-mcp: cargo install --path bin/toad-mcp"@]
    };
    let current = match f.current_fingerprint {
        Some(x) => x,
        None => 0,
    };
    let w2 = if current == f.stored_fingerprint {
        w1
    } else {
        w1.push("Run 'toad manifest' to refresh context"@)
    };
    let w3 = if f.git_remotes_reachable {
        w2
    } else {
        w2.push("Check network connection or git remote configuration"@)
    };
    let w4 = match f.submodule_status {
        Some(out) => {
            let uninit = submodule_counts(lossy_utf8(out@)).0;
            if uninit > 0 {
                w3.push(
                    "Run 'git submodule update --init' to initialize "@ + decimal(uninit) + " submodules"@,
                )
            } else {
                w3
            }
        },
        None => w3,
    };
    let w5 = if f.manifest_exists {
        w4
    } else {
        w4.push("Run 'toad manifest' to generate manifest"@)
    };
    if f.atlas_exists {
        w5
    } else {
        w5.push("Run 'toad manifest' to generate atlas"@)
    }
}

/// Builds the health report of the workspace at `workspace_path` from what
/// the checks found; `version` is the version of the tool.
pub fn health_report(version: &str, workspace_path: &str, findings: HealthFindings) -> (r: HealthReport)
    ensures
        r.version@ == version@,
        r.mcp_installed == findings.mcp_installed,
        r.workspace_discovered,
        r.workspace_path matches Some(p) && p@ == workspace_path@,
        r.registry_fresh == (match findings.current_fingerprint {
            Some(x) => x,
            None => 0,
        } == findings.stored_fingerprint),
        r.project_count == match findings.registry {
            Ok(n) => n,
            Err(_) => 0,
        },
        r.git_remotes_reachable == findings.git_remotes_reachable,
        r.uninitialized_submodules == match findings.submodule_status {
            Some(out) => submodule_counts(lossy_utf8(out@)).0,
            None => 0,
        },
        r.dirty_submodules == match findings.submodule_status {
            Some(out) => submodule_counts(lossy_utf8(out@)).1,
            None => 0,
        },
        r.manifest_exists == findings.manifest_exists,
        r.atlas_exists == findings.atlas_exists,
        crate::text::strs(r.issues@) == health_issues(findings),
        crate::text::strs(r.warnings@) == health_warnings(findings),
{
    let mut issues: Vec<String> = Vec::new();
    let mut warnings: Vec<String> = Vec::new();

    if !findings.mcp_installed {
        warnings.push(String::from_str("Install toad-mcp: cargo install --path bin/toad-mcp"));
    }

    let current = match findings.current_fingerprint {
        Some(x) => x,
        None => 0,
    };
    let registry_fresh = current == findings.stored_fingerprint;
    if !registry_fresh {
        warnings.push(String::from_str("Run 'toad manifest' to refresh context"));
    }

    let project_count = match &findings.registry {
        Ok(n) => *n,
        Err(e) => {
            issues.push(concat("Registry load failed: ", e.as_str()));
            issues.push(String::from_str("Run 'toad sync' to build registry"));
            0
        },
    };

    if !findings.git_remotes_reachable {
        warnings.push(String::from_str("Check network connection or git remote configuration"));
    }

    let mut uninitialized_submodules: usize = 0;
    let mut dirty_submodules: usize = 0;
    match &findings.submodule_status {
        Some(out) => {
            let text = from_utf8_lossy(out.as_slice());
            let (u, d) = count_submodules(text.as_str());
            uninitialized_submodules = u;
            dirty_submodules = d;
            if u > 0 {
                let count = decimal_string(u as u64);
                let msg = concat(
                    concat("Run 'git submodule update --init' to initialize ", count.as_str()).as_str(),
                    " submodules",
                );
                warnings.push(msg);
            }
        },
        None => {},
    }

    if !findings.manifest_exists {
        warnings.push(String::from_str("Run 'toad manifest' to generate manifest"));
    }
    if !findings.atlas_exists {
        warnings.push(String::from_str("Run 'toad manifest' to generate atlas"));
    }

    proof {
        assert(crate::text::strs(issues@) =~= health_issues(findings));
        assert(crate::text::strs(warnings@) =~= health_warnings(findings));
    }

    HealthReport {
        version: String::from_str(version),
        mcp_installed: findings.mcp_installed,
        workspace_discovered: true,
        workspace_path: Some(String::from_str(workspace_path)),
        registry_fresh,
        project_count,
        git_remotes_reachable: findings.git_remotes_reachable,
        uninitialized_submodules,
        dirty_submodules,
        manifest_exists: findings.manifest_exists,
        atlas_exists: findings.atlas_exists,
        issues,
        warnings,
    }
}

} // verus!
