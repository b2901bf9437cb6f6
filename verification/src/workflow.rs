//! Custom workflows and the distribution of skill files to AI tool folders.
use vstd::prelude::*;
use crate::text::{
    chars_of, concat, ends_with, first_index_of, lowercase, slice_chars, str_ends_with, str_eq,
    string_of, to_lowercase, find_char_from, chars_eq,
};
use crate::model::ToadError;

verus! {

broadcast use vstd::string::group_string_axioms;

/// The folder, relative to the workspace root, that a known AI tool reads
/// skills from; matched on the lowercase tool name.
pub open spec fn known_vendor_dir(lower: Seq<char>) -> Option<Seq<char>> {
    if lower == "windsurf"@ {
        Some(".windsurf"@)
    } else if lower == "cursor"@ {
        Some(".cursor"@)
    } else if lower == "gemini"@ {
        Some(".gemini"@)
    } else if lower == "copilot"@ {
        Some(".github/copilot"@)
    } else if lower == "continue"@ {
        Some(".continue"@)
    } else if lower == "aider"@ {
        Some(".aider"@)
    } else if lower == "supermaven"@ {
        Some(".supermaven"@)
    } else if lower == "trae"@ {
        Some(".trae"@)
    } else if lower == "cline"@ {
        Some(".cline"@)
    } else if lower == "pearai"@ {
        Some(".pearai"@)
    } else if lower == "bolt"@ {
        Some(".bolt"@)
    } else if lower == "lovable"@ {
        Some(".lovable"@)
    } else if lower == "v0"@ {
        Some(".v0"@)
    } else {
        None
    }
}

/// The vendor name and the folder (relative to the root) that a vendor
/// spec designates: `name:dir` names both; otherwise the spec must be a
/// known tool. `None` when the spec is neither.
pub open spec fn vendor_target(spec: Seq<char>) -> Option<(Seq<char>, Seq<char>)> {
    let k = first_index_of(spec, ':');
    if k < spec.len() {
        Some((spec.take(k), spec.skip(k + 1)))
    } else {
        match known_vendor_dir(lowercase(spec)) {
            Some(d) => Some((spec, d)),
            None => None,
        }
    }
}

/// The folder of a known tool, by its lowercase name.
fn known_dir(lower: &str) -> (r: Option<String>)
    ensures
        match r {
            Some(d) => known_vendor_dir(lower@) == Some(d@),
            None => known_vendor_dir(lower@) is None,
        },
{
    if str_eq(lower, "windsurf") {
        Some(String::from_str(".windsurf"))
    } else if str_eq(lower, "cursor") {
        Some(String::from_str(".cursor"))
    } else if str_eq(lower, "gemini") {
        Some(String::from_str(".gemini"))
    } else if str_eq(lower, "copilot") {
        Some(String::from_str(".github/copilot"))
    } else if str_eq(lower, "continue") {
        Some(String::from_str(".continue"))
    } else if str_eq(lower, "aider") {
        Some(String::from_str(".aider"))
    } else if str_eq(lower, "supermaven") {
        Some(String::from_str(".supermaven"))
    } else if str_eq(lower, "trae") {
        Some(String::from_str(".trae"))
    } else if str_eq(lower, "cline") {
        Some(String::from_str(".cline"))
    } else if str_eq(lower, "pearai") {
        Some(String::from_str(".pearai"))
    } else if str_eq(lower, "bolt") {
        Some(String::from_str(".bolt"))
    } else if str_eq(lower, "lovable") {
        Some(String::from_str(".lovable"))
    } else if str_eq(lower, "v0") {
        Some(String::from_str(".v0"))
    } else {
        None
    }
}

/// Resolves a vendor spec to its vendor name and folder relative to the root.
pub fn resolve_vendor(spec: &str) -> (r: Option<(String, String)>)
    ensures
        match r {
            Some((n, d)) => vendor_target(spec@) == Some((n@, d@)),
            None => vendor_target(spec@) is None,
        },
{
    let v = chars_of(spec);
    proof {
        assert(v@.skip(0) =~= v@);
    }
    let k = find_char_from(&v, 0, ':');
    if k < v.len() {
        proof {
            assert(v@.subrange(0, k as int) =~= spec@.take(k as int));
            assert(v@.subrange(k + 1, v@.len() as int) =~= spec@.skip(k + 1));
        }
        let name = string_of(&slice_chars(&v, 0, k));
        let dir = string_of(&slice_chars(&v, k + 1, v.len()));
        Some((name, dir))
    } else {
        let lower = to_lowercase(spec);
        match known_dir(lower.as_str()) {
            Some(d) => Some((String::from_str(spec), d)),
            None => None,
        }
    }
}

/// The description given to a skill in the Gemini format.
pub open spec fn gemini_description(name: Seq<char>) -> Seq<char> {
    if name == "toad-blueprint"@ {
        "Architectural blueprint and dependency map."@
    } else if name == "toad-cli"@ {
        "Toad Control CLI command reference."@
    } else if name == "toad-mcp"@ {
        "Model Context Protocol tool reference."@
    } else {
        "Auto-generated ecosystem context."@
    }
}

/// The text of a skill file: wrapped in a `<skill>` element for Gemini,
/// otherwise the content ending in a newline.
pub open spec fn skill_text(vendor_name: Seq<char>, name: Seq<char>, content: Seq<char>) -> Seq<char> {
    if lowercase(vendor_name) == "gemini"@ {
        "<skill>\n  <name>"@ + name + "</name>\n  <description>"@ + gemini_description(name)
            + "</description>\n  <instructions>\n"@ + content + "\n  </instructions>\n</skill>\n"@
    } else if ends_with(content, "\n"@) {
        content
    } else {
        content + "\n"@
    }
}

/// Renders one skill for one vendor.
pub fn render_skill(vendor_name: &str, name: &str, content: &str) -> (r: String)
    ensures
        r@ == skill_text(vendor_name@, name@, content@),
{
    let lower = to_lowercase(vendor_name);
    if str_eq(lower.as_str(), "gemini") {
        let description = if str_eq(name, "toad-blueprint") {
            "Architectural blueprint and dependency map."
        } else if str_eq(name, "toad-cli") {
            "Toad Control CLI command reference."
        } else if str_eq(name, "toad-mcp") {
            "Model Context Protocol tool reference."
        } else {
            "Auto-generated ecosystem context."
        };
        let s = concat("<skill>\n  <name>", name);
        let s = concat(s.as_str(), "</name>\n  <description>");
        let s = concat(s.as_str(), description);
        let s = concat(s.as_str(), "</description>\n  <instructions>\n");
        let s = concat(s.as_str(), content);
        concat(s.as_str(), "\n  </instructions>\n</skill>\n")
    } else if str_ends_with(content, "\n") {
        String::from_str(content)
    } else {
        concat(content, "\n")
    }
}

/// The file name of a skill.
pub fn skill_file_name(name: &str) -> (r: String)
    ensures
        r@ == name@ + ".md"@,
{
    concat(name, ".md")
}

/// The skill files to write into one vendor folder.
#[derive(Debug)]
pub struct VendorPlan {
    /// The folder, relative to the workspace root.
    pub dir: String,
    /// File names and their texts, in the order of the skills.
    pub files: Vec<(String, String)>,
}

/// The vendor plans for the vendor specs among the first `n`: one per spec
/// that resolves, in order.
pub open spec fn planned_dirs(vendors: Seq<String>, n: int) -> Seq<Seq<char>>
    decreases n,
{
    if n <= 0 {
        seq![]
    } else {
        let prev = planned_dirs(vendors, n - 1);
        match vendor_target(vendors[n - 1]@) {
            Some((_, d)) => prev.push(d),
            None => prev,
        }
    }
}

/// The vendor names of the resolving specs among the first `n`, in order.
pub open spec fn planned_vendors(vendors: Seq<String>, n: int) -> Seq<Seq<char>>
    decreases n,
{
    if n <= 0 {
        seq![]
    } else {
        let prev = planned_vendors(vendors, n - 1);
        match vendor_target(vendors[n - 1]@) {
            Some((v, _)) => prev.push(v),
            None => prev,
        }
    }
}

/// The files of one vendor folder are exactly the skills, rendered for the vendor.
pub open spec fn files_for(vendor: Seq<char>, skills: Seq<(String, String)>, files: Seq<(String, String)>) -> bool {
    &&& files.len() == skills.len()
    &&& forall|k: int| 0 <= k < files.len() ==> {
        &&& (#[trigger] files[k]).0@ == skills[k].0@ + ".md"@
        &&& files[k].1@ == skill_text(vendor, skills[k].0@, skills[k].1@)
    }
}

/// Plans the skill files for every vendor spec that resolves, in order;
/// specs that are neither `name:dir` nor a known tool are passed over.
pub fn plan_skill_distribution(vendors: &Vec<String>, skills: &Vec<(String, String)>) -> (r: Vec<VendorPlan>)
    ensures
        r@.len() == planned_dirs(vendors@, vendors@.len() as int).len(),
        forall|i: int| 0 <= i < r@.len() ==> {
            &&& (#[trigger] r@[i]).dir@ == planned_dirs(vendors@, vendors@.len() as int)[i]
            &&& files_for(planned_vendors(vendors@, vendors@.len() as int)[i], skills@, r@[i].files@)
        },
{
    let mut plans: Vec<VendorPlan> = Vec::new();
    let ghost mut vnames: Seq<Seq<char>> = seq![];
    let mut i: usize = 0;
    while i < vendors.len()
        invariant
            i <= vendors.len(),
            plans@.len() == planned_dirs(vendors@, i as int).len(),
            vnames == planned_vendors(vendors@, i as int),
            vnames.len() == plans@.len(),
            forall|j: int| 0 <= j < plans@.len() ==> {
                &&& (#[trigger] plans@[j]).dir@ == planned_dirs(vendors@, i as int)[j]
                &&& files_for(vnames[j], skills@, plans@[j].files@)
            },
        decreases vendors.len() - i,
    {
        match resolve_vendor(vendors[i].as_str()) {
            Some((vendor_name, dir)) => {
                let mut files: Vec<(String, String)> = Vec::new();
                let mut k: usize = 0;
                while k < skills.len()
                    invariant
                        k <= skills.len(),
                        files@.len() == k,
                        forall|j: int| 0 <= j < k ==> {
                            &&& (#[trigger] files@[j]).0@ == skills@[j].0@ + ".md"@
                            &&& files@[j].1@ == skill_text(vendor_name@, skills@[j].0@, skills@[j].1@)
                        },
                    decreases skills.len() - k,
                {
                    let (name, content) = &skills[k];
                    let fname = skill_file_name(name.as_str());
                    let text = render_skill(vendor_name.as_str(), name.as_str(), content.as_str());
                    files.push((fname, text));
                    k = k + 1;
                }
                let ghost prev = plans@;
                proof {
                    vnames = vnames.push(vendor_name@);
                }
                plans.push(VendorPlan { dir, files });
                assert forall|j: int| 0 <= j < plans@.len() implies {
                    &&& (#[trigger] plans@[j]).dir@ == planned_dirs(vendors@, i + 1)[j]
                    &&& files_for(vnames[j], skills@, plans@[j].files@)
                } by {
                    if j < prev.len() {
                        assert(plans@[j] == prev[j]);
                    }
                }
            },
            None => {},
        }
        i = i + 1;
    }
    plans
}


/// A user-defined workflow: a script registered under a name.
#[derive(Clone, Debug)]
pub struct CustomWorkflow {
    pub name: String,
    pub description: Option<String>,
    pub script_path: String,
    /// When it was registered, in seconds since the Unix epoch.
    pub registered_at: u64,
}

/// The registered workflows, keyed by lowercase name, and the names that
/// built-in commands reserve.
#[derive(Clone, Debug)]
pub struct WorkflowRegistry {
    pub workflows: Vec<(String, CustomWorkflow)>,
    /// Reserved command names, in lowercase.
    pub reserved: Vec<String>,
}

/// The workflows by key, when no key occurs twice.
pub open spec fn workflow_map(ws: Seq<(String, CustomWorkflow)>) -> Map<Seq<char>, CustomWorkflow> {
    Map::new(
        |k: Seq<char>| exists|i: int| 0 <= i < ws.len() && (#[trigger] ws[i]).0@ == k,
        |k: Seq<char>| ws[choose|i: int| 0 <= i < ws.len() && (#[trigger] ws[i]).0@ == k].1,
    )
}

impl WorkflowRegistry {
    /// No workflow key occurs twice.
    pub open spec fn well_formed(&self) -> bool {
        forall|i: int, j: int|
            0 <= i < j < self.workflows@.len() ==> (#[trigger] self.workflows@[i]).0@ != (#[trigger] self.workflows@[j]).0@
    }

    /// The workflows by lowercase name.
    pub open spec fn view_map(&self) -> Map<Seq<char>, CustomWorkflow> {
        workflow_map(self.workflows@)
    }

    /// A name is reserved when its lowercase form is one of the reserved names.
    pub open spec fn reserves(&self, name: Seq<char>) -> bool {
        exists|i: int| 0 <= i < self.reserved@.len() && (#[trigger] self.reserved@[i])@ == lowercase(name)
    }

    /// Whether no workflow key occurs twice, so that the registry may be
    /// updated.
    pub fn has_unique_keys(&self) -> (r: bool)
        ensures
            r == self.well_formed(),
    {
        let n = self.workflows.len();
        let mut i: usize = 0;
        while i < n
            invariant
                n == self.workflows@.len(),
                i <= n,
                forall|a: int, b: int| 0 <= a < i && a < b < n ==> (#[trigger] self.workflows@[a]).0@ != (#[trigger] self.workflows@[b]).0@,
            decreases n - i,
        {
            let mut j: usize = i + 1;
            while j < n
                invariant
                    n == self.workflows@.len(),
                    i < n,
                    i + 1 <= j <= n,
                    forall|b: int| i < b < j ==> self.workflows@[i as int].0@ != (#[trigger] self.workflows@[b]).0@,
                decreases n - j,
            {
                if str_eq(self.workflows[i].0.as_str(), self.workflows[j].0.as_str()) {
                    return false;
                }
                j = j + 1;
            }
            i = i + 1;
        }
        true
    }

    /// Whether a built-in command reserves the name.
    pub fn is_reserved(&self, name: &str) -> (r: bool)
        ensures
            r == self.reserves(name@),
    {
        let lower = to_lowercase(name);
        let mut i: usize = 0;
        while i < self.reserved.len()
            invariant
                i <= self.reserved@.len(),
                lower@ == lowercase(name@),
                forall|j: int| 0 <= j < i ==> (#[trigger] self.reserved@[j])@ != lower@,
            decreases self.reserved@.len() - i,
        {
            if str_eq(self.reserved[i].as_str(), lower.as_str()) {
                return true;
            }
            i = i + 1;
        }
        false
    }
}

/// The registry with `workflow` stored under `key`, replacing any workflow
/// already stored under that key.
fn insert_workflow(registry: &mut WorkflowRegistry, key: String, workflow: CustomWorkflow)
    requires
        old(registry).well_formed(),
    ensures
        final(registry).well_formed(),
        final(registry).view_map() == old(registry).view_map().insert(key@, workflow),
        final(registry).reserved == old(registry).reserved,
{
    let ghost ws = registry.workflows@;
    let kc = chars_of(key.as_str());
    let mut i: usize = 0;
    while i < registry.workflows.len()
        invariant
            i <= registry.workflows@.len(),
            registry.workflows@ == ws,
            kc@ == key@,
            forall|j: int| 0 <= j < i ==> (#[trigger] ws[j]).0@ != key@,
        ensures
            i < registry.workflows@.len() ==> ws[i as int].0@ == key@,
        decreases registry.workflows@.len() - i,
    {
        if chars_eq(&chars_of(registry.workflows[i].0.as_str()), &kc) {
            break;
        }
        i = i + 1;
    }
    let ghost m0 = workflow_map(ws);
    if i < registry.workflows.len() {
        assert(ws[i as int].0@ == key@);
        registry.workflows.set(i, (key, workflow));
        let ghost ws2 = registry.workflows@;
        proof {
            assert forall|a: int, b: int| 0 <= a < b < ws2.len() implies (#[trigger] ws2[a]).0@ != (#[trigger] ws2[b]).0@ by {
                if a != i && b != i {
                    assert(ws2[a] == ws[a] && ws2[b] == ws[b]);
                } else if a == i {
                    assert(ws2[b] == ws[b]);
                    assert(ws[b].0@ != ws[a].0@);
                } else {
                    assert(ws2[a] == ws[a]);
                    assert(ws[a].0@ != ws[b].0@);
                }
            }
            let m2 = workflow_map(ws2);
            let mi = m0.insert(key@, workflow);
            assert forall|k: Seq<char>| m2.contains_key(k) <==> mi.contains_key(k) by {
                if m2.contains_key(k) {
                    let j = choose|j: int| 0 <= j < ws2.len() && (#[trigger] ws2[j]).0@ == k;
                    if j != i {
                        assert(ws[j] == ws2[j]);
                        assert(m0.contains_key(k));
                    }
                }
                if mi.contains_key(k) && k != key@ {
                    let j = choose|j: int| 0 <= j < ws.len() && (#[trigger] ws[j]).0@ == k;
                    assert(ws2[j] == ws[j]);
                }
                if k == key@ {
                    assert(ws2[i as int].0@ == k);
                }
            }
            assert forall|k: Seq<char>| m2.contains_key(k) implies m2[k] == mi[k] by {
                let j2 = choose|j: int| 0 <= j < ws2.len() && (#[trigger] ws2[j]).0@ == k;
                if k == key@ {
                    assert(ws2[i as int].0@ == k);
                    assert(j2 == i);
                } else {
                    let j0 = choose|j: int| 0 <= j < ws.len() && (#[trigger] ws[j]).0@ == k;
                    assert(j2 != i);
                    assert(ws2[j2] == ws[j2]);
                    assert(ws2[j0] == ws[j0] || j0 == i);
                    assert(j0 == j2);
                }
            }
            assert(m2 =~= mi);
        }
    } else {
        registry.workflows.push((key, workflow));
        let ghost ws2 = registry.workflows@;
        proof {
            assert forall|a: int, b: int| 0 <= a < b < ws2.len() implies (#[trigger] ws2[a]).0@ != (#[trigger] ws2[b]).0@ by {
                assert(ws2[a] == ws[a]);
                if b < ws.len() {
                    assert(ws2[b] == ws[b]);
                }
            }
            let m2 = workflow_map(ws2);
            let mi = m0.insert(key@, workflow);
            let last = ws.len() as int;
            assert forall|k: Seq<char>| m2.contains_key(k) <==> mi.contains_key(k) by {
                if m2.contains_key(k) && k != key@ {
                    let j = choose|j: int| 0 <= j < ws2.len() && (#[trigger] ws2[j]).0@ == k;
                    assert(j != last);
                    assert(ws[j] == ws2[j]);
                }
                if mi.contains_key(k) && k != key@ {
                    let j = choose|j: int| 0 <= j < ws.len() && (#[trigger] ws[j]).0@ == k;
                    assert(ws2[j] == ws[j]);
                }
                if k == key@ {
                    assert(ws2[last].0@ == k);
                }
            }
            assert forall|k: Seq<char>| m2.contains_key(k) implies m2[k] == mi[k] by {
                let j2 = choose|j: int| 0 <= j < ws2.len() && (#[trigger] ws2[j]).0@ == k;
                if k == key@ {
                    assert(ws2[last].0@ == k);
                    assert(j2 == last);
                } else {
                    let j0 = choose|j: int| 0 <= j < ws.len() && (#[trigger] ws[j]).0@ == k;
                    assert(ws2[j0] == ws[j0]);
                    assert(j0 == j2);
                }
            }
            assert(m2 =~= mi);
        }
    }
}

/// Registers a workflow under the lowercase form of `name`, unless a
/// built-in command reserves the name.
pub fn register_workflow(
    registry: &mut WorkflowRegistry,
    name: String,
    script_path: String,
    description: Option<String>,
    registered_at: u64,
) -> (r: Result<(), ToadError>)
    requires
        old(registry).well_formed(),
    ensures
        final(registry).well_formed(),
        final(registry).reserved == old(registry).reserved,
        old(registry).reserves(name@) ==> {
            &&& r matches Err(ToadError::Config(m))
            &&& m@ == "Name '"@ + name@ + "' is reserved by a built-in command"@
            &&& final(registry).view_map() == old(registry).view_map()
        },
        !old(registry).reserves(name@) ==> {
            &&& r is Ok
            &&& final(registry).view_map() == old(registry).view_map().insert(
                lowercase(name@),
                CustomWorkflow { name, description, script_path, registered_at },
            )
        },
{
    if registry.is_reserved(name.as_str()) {
        let m = concat(concat("Name '", name.as_str()).as_str(), "' is reserved by a built-in command");
        return Err(ToadError::Config(m));
    }
    let key = to_lowercase(name.as_str());
    let workflow = CustomWorkflow { name, description, script_path, registered_at };
    insert_workflow(registry, key, workflow);
    Ok(())
}

} // verus!
