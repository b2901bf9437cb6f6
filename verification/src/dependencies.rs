//! The dependency graph between workspace projects: who depends on whom,
//! which projects are central, which stand alone, and which form cycles.
use vstd::prelude::*;
use crate::model::{ProjectDetail, ToadError};
use crate::cycles::{cycle_met, detect_cycles, distinct_cycles, edge, is_cycle, simple_lists, well_formed};
use crate::order::{desc_order, is_desc_order};
use crate::text::{
    chars_eq, chars_of, str_eq, lines, lines_of, occurs_at_exec, second_field, second_field_of, starts_with,
    string_of, trim, trim_chars, views, has_substring, contains_chars, concat, contains_word, strs,
    strings_of,
};

verus! {

broadcast use vstd::string::group_string_axioms;

/// A line of a manifest that declares the package name.
pub open spec fn is_name_line(l: Seq<char>) -> bool {
    starts_with(trim(l), "name ="@)
}

/// The first line that declares the package name.
pub open spec fn first_name_line(ls: Seq<Seq<char>>) -> Option<Seq<char>>
    decreases ls.len(),
{
    if ls.len() == 0 {
        None
    } else if is_name_line(ls[0]) {
        Some(ls[0])
    } else {
        first_name_line(ls.drop_first())
    }
}

/// The crate name that a `Cargo.toml` text declares: the quoted text on the
/// first line whose trimmed form starts with `name =`.
pub open spec fn crate_name(content: Seq<char>) -> Option<Seq<char>> {
    match first_name_line(lines(content)) {
        Some(l) => second_field(l, '"'),
        None => None,
    }
}

/// Reads the crate name from the text of a `Cargo.toml`.
pub fn crate_name_from_manifest(content: &str) -> (r: Option<String>)
    ensures
        match r {
            Some(n) => crate_name(content@) == Some(n@),
            None => crate_name(content@) is None,
        },
{
    let text = chars_of(content);
    let ls = lines_of(&text);
    let key = chars_of("name =");
    let mut i: usize = 0;
    assert(lines(content@).skip(0) =~= lines(content@));
    while i < ls.len()
        invariant
            i <= ls@.len() == lines(content@).len(),
            forall|k: int| 0 <= k < ls@.len() ==> #[trigger] ls@[k]@ == lines(content@)[k],
            key@ == "name ="@,
            first_name_line(lines(content@).skip(i as int)) == first_name_line(lines(content@)),
        decreases ls.len() - i,
    {
        let ghost rest = lines(content@).skip(i as int);
        assert(rest.drop_first() =~= lines(content@).skip(i + 1));
        assert(rest[0] == ls@[i as int]@);
        let t = trim_chars(&ls[i]);
        if occurs_at_exec(&t, &key, 0) {
            return match second_field_of(&ls[i], '"') {
                Some(f) => Some(string_of(&f)),
                None => None,
            };
        }
        i = i + 1;
    }
    assert(lines(content@).skip(i as int) =~= Seq::<Seq<char>>::empty());
    None
}

/// A package that `cargo metadata` reports for a project's manifest.
#[derive(Clone, Debug)]
pub struct PackageInfo {
    pub name: String,
    pub version: String,
    /// Names of the crates the package depends on.
    pub dependencies: Vec<String>,
    /// The project's path ends with the directory of the package's manifest.
    pub dir_matches: bool,
}

/// The path components `suffix` are the last components of `path`, as
/// `Path::ends_with` compares whole components.
pub open spec fn ends_with_components(path: Seq<Seq<char>>, suffix: Seq<Seq<char>>) -> bool {
    suffix.len() <= path.len() && path.skip(path.len() - suffix.len()) == suffix
}

/// Whether a path, given by its components, ends with the given components.
pub fn components_end_with(path: &Vec<String>, suffix: &Vec<String>) -> (r: bool)
    ensures
        r == ends_with_components(strs(path@), strs(suffix@)),
{
    let n = path.len();
    let m = suffix.len();
    if m > n {
        return false;
    }
    let off = n - m;
    let mut k: usize = 0;
    while k < m
        invariant
            n == path@.len(),
            m == suffix@.len(),
            off == n - m,
            k <= m,
            forall|j: int| 0 <= j < k ==> (#[trigger] path@[off + j])@ == suffix@[j]@,
        decreases m - k,
    {
        if !str_eq(path[off + k].as_str(), suffix[k].as_str()) {
            assert(strs(path@).skip(off as int)[k as int] == path@[off + k]@);
            assert(strs(suffix@)[k as int] == suffix@[k as int]@);
            return false;
        }
        k = k + 1;
    }
    assert forall|j: int| 0 <= j < m implies strs(path@).skip(off as int)[j] == strs(suffix@)[j] by {
        assert(path@[off + j]@ == suffix@[j]@);
    }
    assert(strs(path@).skip(off as int) =~= strs(suffix@));
    true
}

/// What could be learned about one project's `Cargo.toml`.
#[derive(Clone, Debug)]
pub struct ManifestInfo {
    /// The text of the manifest, when it could be read.
    pub content: Option<String>,
    /// The packages `cargo metadata` reported, when it ran successfully.
    pub packages: Option<Vec<PackageInfo>>,
}

/// The crate name declared by a project's manifest, if any.
pub open spec fn manifest_crate(m: Option<ManifestInfo>) -> Option<Seq<char>> {
    match m {
        Some(mi) => match mi.content {
            Some(c) => crate_name(c@),
            None => None,
        },
        None => None,
    }
}

/// Crate name to project name, over the first `n` projects; a later
/// project declaring the same crate name replaces an earlier one.
pub open spec fn crate_map(ps: Seq<ProjectDetail>, ms: Seq<Option<ManifestInfo>>, n: int) -> Map<
    Seq<char>,
    Seq<char>,
>
    decreases n,
{
    if n <= 0 {
        Map::empty()
    } else {
        let m = crate_map(ps, ms, n - 1);
        match manifest_crate(ms[n - 1]) {
            Some(c) => m.insert(c, ps[n - 1].name@),
            None => m,
        }
    }
}

/// Parallel key and value vectors represent the map `m`, keys distinct.
pub open spec fn represents(keys: Seq<Vec<char>>, vals: Seq<Vec<char>>, m: Map<Seq<char>, Seq<char>>) -> bool {
    &&& keys.len() == vals.len()
    &&& forall|i: int, j: int| 0 <= i < j < keys.len() ==> #[trigger] keys[i]@ != #[trigger] keys[j]@
    &&& forall|k: Seq<char>| #[trigger] m.contains_key(k) <==> exists|i: int| 0 <= i < keys.len() && #[trigger] keys[i]@ == k
    &&& forall|i: int| 0 <= i < keys.len() ==> m[#[trigger] keys[i]@] == vals[i]@
}

/// Position of `k` among the keys, if present.
pub fn key_position(keys: &Vec<Vec<char>>, k: &Vec<char>) -> (r: Option<usize>)
    ensures
        match r {
            Some(i) => i < keys@.len() && keys@[i as int]@ == k@,
            None => forall|i: int| 0 <= i < keys@.len() ==> #[trigger] keys@[i]@ != k@,
        },
{
    let mut i: usize = 0;
    while i < keys.len()
        invariant
            i <= keys.len(),
            forall|j: int| 0 <= j < i ==> #[trigger] keys@[j]@ != k@,
        decreases keys.len() - i,
    {
        if chars_eq(&keys[i], k) {
            return Some(i);
        }
        i = i + 1;
    }
    None
}

/// Builds the crate-name map of all projects.
fn build_crate_map(projects: &Vec<ProjectDetail>, manifests: &Vec<Option<ManifestInfo>>) -> (r: (
    Vec<Vec<char>>,
    Vec<Vec<char>>,
))
    requires
        projects.len() == manifests.len(),
    ensures
        represents(r.0@, r.1@, crate_map(projects@, manifests@, projects@.len() as int)),
{
    let mut keys: Vec<Vec<char>> = Vec::new();
    let mut vals: Vec<Vec<char>> = Vec::new();
    let mut i: usize = 0;
    while i < projects.len()
        invariant
            i <= projects.len() == manifests.len(),
            represents(keys@, vals@, crate_map(projects@, manifests@, i as int)),
        decreases projects.len() - i,
    {
        let ghost m = crate_map(projects@, manifests@, i as int);
        let found: Option<String> = match &manifests[i] {
            Some(mi) => match &mi.content {
                Some(c) => crate_name_from_manifest(c.as_str()),
                None => None,
            },
            None => None,
        };
        match found {
            Some(c) => {
                let ck = chars_of(c.as_str());
                let nv = chars_of(projects[i].name.as_str());
                let ghost m2 = m.insert(ck@, nv@);
                assert(m2 == crate_map(projects@, manifests@, i + 1));
                match key_position(&keys, &ck) {
                    Some(p) => {
                        let ghost oldv = vals@;
                        vals.set(p, nv);
                        assert forall|k: int| 0 <= k < keys@.len() implies m2[#[trigger] keys@[k]@] == vals@[k]@ by {
                            if k != p {
                                assert(keys@[k]@ != keys@[p as int]@);
                            }
                        }
                        assert forall|k: Seq<char>| #[trigger] m2.contains_key(k) implies exists|j: int| 0 <= j < keys@.len() && #[trigger] keys@[j]@ == k by {
                            if k == ck@ {
                                assert(keys@[p as int]@ == k);
                            }
                        }
                    }
                    None => {
                        let ghost oldk = keys@;
                        keys.push(ck);
                        vals.push(nv);
                        assert forall|k: Seq<char>| #[trigger] m2.contains_key(k) implies exists|j: int| 0 <= j < keys@.len() && #[trigger] keys@[j]@ == k by {
                            if k == ck@ {
                                assert(keys@[oldk.len() as int]@ == k);
                            } else {
                                let j = choose|j: int| 0 <= j < oldk.len() && #[trigger] oldk[j]@ == k;
                                assert(keys@[j]@ == k);
                            }
                        }
                        assert forall|k: Seq<char>| (exists|j: int| 0 <= j < keys@.len() && #[trigger] keys@[j]@ == k) implies #[trigger] m2.contains_key(k) by {
                            let j = choose|j: int| 0 <= j < keys@.len() && #[trigger] keys@[j]@ == k;
                            if j < oldk.len() {
                                assert(oldk[j]@ == k);
                            }
                        }
                        assert forall|a: int, b: int| 0 <= a < b < keys@.len() implies #[trigger] keys@[a]@ != #[trigger] keys@[b]@ by {
                            if b == oldk.len() {
                                assert(keys@[a] == oldk[a]);
                            } else {
                                assert(keys@[a] == oldk[a] && keys@[b] == oldk[b]);
                            }
                        }
                        assert forall|k: int| 0 <= k < keys@.len() implies m2[#[trigger] keys@[k]@] == vals@[k]@ by {
                            if k < oldk.len() {
                                assert(keys@[k] == oldk[k]);
                                assert(oldk[k]@ != ck@);
                            }
                        }
                    }
                }
            }
            None => {
                assert(crate_map(projects@, manifests@, i + 1) == m);
            }
        }
        i = i + 1;
    }
    (keys, vals)
}


/// A reported package belongs to the project named `pname`: its crate name
/// maps to that project, or its manifest directory matches the project path.
pub open spec fn package_matches(pkg: PackageInfo, cm: Map<Seq<char>, Seq<char>>, pname: Seq<char>) -> bool {
    (cm.contains_key(pkg.name@) && cm[pkg.name@] == pname) || pkg.dir_matches
}

/// The first reported package that belongs to the project.
pub open spec fn matching_package(pkgs: Seq<PackageInfo>, cm: Map<Seq<char>, Seq<char>>, pname: Seq<char>) -> Option<
    PackageInfo,
>
    decreases pkgs.len(),
{
    if pkgs.len() == 0 {
        None
    } else if package_matches(pkgs[0], cm, pname) {
        Some(pkgs[0])
    } else {
        matching_package(pkgs.drop_first(), cm, pname)
    }
}

/// The package of the project found through `cargo metadata`, if it ran and found one.
pub open spec fn metadata_package(m: Option<ManifestInfo>, cm: Map<Seq<char>, Seq<char>>, pname: Seq<char>) -> Option<
    PackageInfo,
> {
    match m {
        Some(mi) => match mi.packages {
            Some(pkgs) => matching_package(pkgs@, cm, pname),
            None => None,
        },
        None => None,
    }
}

/// The projects a package's dependencies name, through the crate map.
pub open spec fn package_deps(pkg: PackageInfo, cm: Map<Seq<char>, Seq<char>>) -> Set<Seq<char>> {
    Set::new(
        |q: Seq<char>|
            exists|d: int|
                0 <= d < pkg.dependencies@.len() && cm.contains_key(#[trigger] pkg.dependencies@[d]@)
                    && cm[pkg.dependencies@[d]@] == q,
    )
}

/// The projects other than `pname` whose crate name, followed by ` =`, appears in the manifest text.
pub open spec fn text_deps(content: Seq<char>, cm: Map<Seq<char>, Seq<char>>, pname: Seq<char>) -> Set<Seq<char>> {
    Set::new(
        |q: Seq<char>|
            exists|k: Seq<char>|
                #[trigger] cm.contains_key(k) && cm[k] == q && q != pname && has_substring(content, k + " ="@),
    )
}

/// The dependencies one project's manifest contributes: through `cargo
/// metadata` when it ran, else by searching the manifest text.
pub open spec fn contribution(m: Option<ManifestInfo>, cm: Map<Seq<char>, Seq<char>>, pname: Seq<char>) -> Set<
    Seq<char>,
> {
    match m {
        None => Set::empty(),
        Some(mi) => match mi.packages {
            Some(pkgs) => match matching_package(pkgs@, cm, pname) {
                Some(pkg) => package_deps(pkg, cm),
                None => Set::empty(),
            },
            None => match mi.content {
                Some(c) => text_deps(c@, cm, pname),
                None => Set::empty(),
            },
        },
    }
}

/// Appends `x` unless it is already present.
fn push_unique(v: &mut Vec<Vec<char>>, x: Vec<char>)
    requires
        views(old(v)@).no_duplicates(),
    ensures
        views(final(v)@).no_duplicates(),
        views(final(v)@).to_set() == views(old(v)@).to_set().insert(x@),
        views(final(v)@) == views(old(v)@) || views(final(v)@) == views(old(v)@).push(x@),
{
    let ghost before = views(v@);
    let present = crate::text::contains_word(v, &x);
    if !present {
        v.push(x);
        assert(views(v@) =~= before.push(x@));
        assert forall|i: int, j: int| 0 <= i < views(v@).len() && 0 <= j < views(v@).len() && i != j implies views(v@)[i] != views(v@)[j] by {
            if i < before.len() && j < before.len() {
            } else if i == before.len() {
                assert(views(v@)[j] == v@[j]@);
            } else {
                assert(views(v@)[i] == v@[i]@);
            }
        }
        proof {
            before.lemma_push_to_set_commute(x@);
        }
    } else {
        proof {
            let k = choose|k: int| 0 <= k < v@.len() && #[trigger] v@[k]@ == x@;
            assert(before[k] == x@);
            assert(before.to_set() =~= before.to_set().insert(x@));
        }
    }
}

/// Adds to `deps` the dependencies that one project's manifest contributes,
/// and gives the version of its package when `cargo metadata` found it.
fn contribute(
    m: &Option<ManifestInfo>,
    keys: &Vec<Vec<char>>,
    vals: &Vec<Vec<char>>,
    pname: &Vec<char>,
    deps: &mut Vec<Vec<char>>,
    Ghost(cm): Ghost<Map<Seq<char>, Seq<char>>>,
) -> (version: Option<String>)
    requires
        represents(keys@, vals@, cm),
        views(old(deps)@).no_duplicates(),
    ensures
        views(final(deps)@).no_duplicates(),
        views(final(deps)@).to_set() == views(old(deps)@).to_set() + contribution(*m, cm, pname@),
        match version {
            Some(v) => metadata_package(*m, cm, pname@) matches Some(pkg) && v@ == pkg.version@,
            None => metadata_package(*m, cm, pname@) is None,
        },
{
    let ghost start = views(deps@).to_set();
    match m {
        None => {
            assert(start + Set::empty() =~= start);
            None
        },
        Some(mi) => match &mi.packages {
            Some(pkgs) => {
                let mut j: usize = 0;
                let mut found: Option<usize> = None;
                assert(pkgs@.skip(0) =~= pkgs@);
                while j < pkgs.len()
                    invariant_except_break
                        found is None,
                    invariant
                        j <= pkgs.len(),
                        represents(keys@, vals@, cm),
                        found is None ==> matching_package(pkgs@.skip(j as int), cm, pname@) == matching_package(pkgs@, cm, pname@),
                    ensures
                        match found {
                            Some(f) => f < pkgs.len() && matching_package(pkgs@, cm, pname@) == Some(pkgs@[f as int]),
                            None => matching_package(pkgs@, cm, pname@) is None,
                        },
                    decreases pkgs.len() - j,
                {
                    let ghost rest = pkgs@.skip(j as int);
                    assert(rest[0] == pkgs@[j as int]);
                    assert(rest.drop_first() =~= pkgs@.skip(j + 1));
                    let pk = chars_of(pkgs[j].name.as_str());
                    let by_name = match key_position(keys, &pk) {
                        Some(p) => chars_eq(&vals[p], pname),
                        None => false,
                    };
                    proof {
                        if by_name {
                            let p = choose|p: int| 0 <= p < keys@.len() && keys@[p]@ == pk@ && vals@[p]@ == pname@;
                            assert(cm.contains_key(keys@[p]@));
                        } else {
                            if cm.contains_key(pk@) {
                                let p = choose|p: int| 0 <= p < keys@.len() && #[trigger] keys@[p]@ == pk@;
                                assert(cm[keys@[p]@] == vals@[p]@);
                            }
                        }
                    }
                    if by_name || pkgs[j].dir_matches {
                        found = Some(j);
                        break;
                    }
                    j = j + 1;
                }
                if j == pkgs.len() {
                    assert(pkgs@.skip(j as int) =~= Seq::<PackageInfo>::empty());
                }
                match found {
                    None => {
                        assert(start + Set::empty() =~= start);
                        None
                    },
                    Some(f) => {
                        let pkg = &pkgs[f];
                        let mut d: usize = 0;
                        while d < pkg.dependencies.len()
                            invariant
                                d <= pkg.dependencies.len(),
                                represents(keys@, vals@, cm),
                                views(deps@).no_duplicates(),
                                views(deps@).to_set() == start + Set::new(
                                    |q: Seq<char>|
                                        exists|e: int|
                                            0 <= e < d && cm.contains_key(#[trigger] pkg.dependencies@[e]@)
                                                && cm[pkg.dependencies@[e]@] == q,
                                ),
                            decreases pkg.dependencies.len() - d,
                        {
                            let ghost before = views(deps@).to_set();
                            let dk = chars_of(pkg.dependencies[d].as_str());
                            match key_position(keys, &dk) {
                                Some(p) => {
                                    push_unique(deps, vals[p].clone());
                                    assert(cm[keys@[p as int]@] == vals@[p as int]@);
                                    assert(views(deps@).to_set() =~= start + Set::new(
                                        |q: Seq<char>|
                                            exists|e: int|
                                                0 <= e < d + 1 && cm.contains_key(#[trigger] pkg.dependencies@[e]@)
                                                    && cm[pkg.dependencies@[e]@] == q,
                                    ));
                                },
                                None => {
                                    assert(!cm.contains_key(pkg.dependencies@[d as int]@));
                                    assert(views(deps@).to_set() =~= start + Set::new(
                                        |q: Seq<char>|
                                            exists|e: int|
                                                0 <= e < d + 1 && cm.contains_key(#[trigger] pkg.dependencies@[e]@)
                                                    && cm[pkg.dependencies@[e]@] == q,
                                    ));
                                },
                            }
                            d = d + 1;
                        }
                        assert(views(deps@).to_set() =~= start + package_deps(*pkg, cm));
                        Some(pkg.version.clone())
                    },
                }
            },
            None => match &mi.content {
                None => {
                    assert(start + Set::empty() =~= start);
                    None
                },
                Some(c) => {
                    let text = chars_of(c.as_str());
                    let mut k: usize = 0;
                    while k < keys.len()
                        invariant
                            k <= keys.len(),
                            represents(keys@, vals@, cm),
                            views(deps@).no_duplicates(),
                            text@ == c@,
                            views(deps@).to_set() == start + Set::new(
                                |q: Seq<char>|
                                    exists|e: int|
                                        0 <= e < k && vals@[e]@ == q && q != pname@ && has_substring(c@, #[trigger] keys@[e]@ + " ="@),
                            ),
                        decreases keys.len() - k,
                    {
                        let pattern = chars_of(concat(string_of(&keys[k]).as_str(), " =").as_str());
                        let hit = !chars_eq(&vals[k], pname) && contains_chars(&text, &pattern);
                        if hit {
                            push_unique(deps, vals[k].clone());
                        }
                        assert(views(deps@).to_set() =~= start + Set::new(
                            |q: Seq<char>|
                                exists|e: int|
                                    0 <= e < k + 1 && vals@[e]@ == q && q != pname@ && has_substring(c@, #[trigger] keys@[e]@ + " ="@),
                        ));
                        k = k + 1;
                    }
                    assert forall|q: Seq<char>| #[trigger] text_deps(c@, cm, pname@).contains(q) implies (exists|e: int|
                        0 <= e < k && vals@[e]@ == q && q != pname@ && has_substring(c@, #[trigger] keys@[e]@ + " ="@)) by {
                        let kk = choose|kk: Seq<char>| #[trigger] cm.contains_key(kk) && cm[kk] == q && q != pname@ && has_substring(c@, kk + " ="@);
                        let e = choose|e: int| 0 <= e < keys@.len() && #[trigger] keys@[e]@ == kk;
                        assert(vals@[e]@ == q);
                    }
                    assert forall|q: Seq<char>| (exists|e: int|
                        0 <= e < k && vals@[e]@ == q && q != pname@ && has_substring(c@, #[trigger] keys@[e]@ + " ="@)) implies #[trigger] text_deps(c@, cm, pname@).contains(q) by {
                        let e = choose|e: int| 0 <= e < k && vals@[e]@ == q && q != pname@ && has_substring(c@, #[trigger] keys@[e]@ + " ="@);
                        assert(cm.contains_key(keys@[e]@));
                    }
                    assert(views(deps@).to_set() =~= start + text_deps(c@, cm, pname@));
                    None
                },
            },
        },
    }
}


/// The project names, each once, in order of first appearance.
pub open spec fn node_names(ps: Seq<ProjectDetail>) -> Seq<Seq<char>> {
    crate::text::dedup(ps.map_values(|p: ProjectDetail| p.name@))
}

/// The crate map over all projects.
pub open spec fn full_crate_map(ps: Seq<ProjectDetail>, ms: Seq<Option<ManifestInfo>>) -> Map<Seq<char>, Seq<char>> {
    crate_map(ps, ms, ps.len() as int)
}

/// What the projects among the first `n` named `name` contribute as dependencies.
pub open spec fn deps_upto(ps: Seq<ProjectDetail>, ms: Seq<Option<ManifestInfo>>, cm: Map<Seq<char>, Seq<char>>, name: Seq<char>, n: int) -> Set<Seq<char>> {
    Set::new(
        |q: Seq<char>|
            exists|j: int| 0 <= j < n && #[trigger] ps[j].name@ == name && contribution(ms[j], cm, name).contains(q),
    )
}

/// The dependencies of the node `name`: what all projects of that name contribute.
pub open spec fn node_deps(ps: Seq<ProjectDetail>, ms: Seq<Option<ManifestInfo>>, name: Seq<char>) -> Set<Seq<char>> {
    deps_upto(ps, ms, full_crate_map(ps, ms), name, ps.len() as int)
}

/// The version of the last project among the first `n` named `name` whose
/// package `cargo metadata` found.
pub open spec fn version_upto(ps: Seq<ProjectDetail>, ms: Seq<Option<ManifestInfo>>, cm: Map<Seq<char>, Seq<char>>, name: Seq<char>, n: int) -> Option<Seq<char>>
    decreases n,
{
    if n <= 0 {
        None
    } else if ps[n - 1].name@ == name && metadata_package(ms[n - 1], cm, name) is Some {
        Some(metadata_package(ms[n - 1], cm, name)->0.version@)
    } else {
        version_upto(ps, ms, cm, name, n - 1)
    }
}

/// The version recorded for the node `name`.
pub open spec fn node_version(ps: Seq<ProjectDetail>, ms: Seq<Option<ManifestInfo>>, name: Seq<char>) -> Option<Seq<char>> {
    version_upto(ps, ms, full_crate_map(ps, ms), name, ps.len() as int)
}

/// The distinct names of the projects, in order of first appearance.
fn distinct_names(projects: &Vec<ProjectDetail>) -> (r: Vec<Vec<char>>)
    ensures
        views(r@) == node_names(projects@),
{
    let mut all: Vec<Vec<char>> = Vec::new();
    let mut i: usize = 0;
    while i < projects.len()
        invariant
            i <= projects.len(),
            all@.len() == i,
            views(all@) == projects@.map_values(|p: ProjectDetail| p.name@).take(i as int),
        decreases projects.len() - i,
    {
        let ghost prev = all@;
        all.push(chars_of(projects[i].name.as_str()));
        assert forall|k: int| 0 <= k < i + 1 implies views(all@)[k] == projects@.map_values(|p: ProjectDetail| p.name@).take(i + 1)[k] by {
            if k < i {
                assert(all@[k] == prev[k]);
                assert(views(prev)[k] == projects@.map_values(|p: ProjectDetail| p.name@).take(i as int)[k]);
            }
        }
        assert(views(all@) =~= projects@.map_values(|p: ProjectDetail| p.name@).take(i + 1));
        i = i + 1;
    }
    assert(projects@.map_values(|p: ProjectDetail| p.name@).take(i as int) =~= projects@.map_values(|p: ProjectDetail| p.name@));
    crate::text::dedup_words(&all)
}

/// The dependencies and the version of the node `name`.
fn collect_node(
    projects: &Vec<ProjectDetail>,
    manifests: &Vec<Option<ManifestInfo>>,
    keys: &Vec<Vec<char>>,
    vals: &Vec<Vec<char>>,
    name: &Vec<char>,
    Ghost(cm): Ghost<Map<Seq<char>, Seq<char>>>,
) -> (r: (Vec<Vec<char>>, Option<String>))
    requires
        projects.len() == manifests.len(),
        represents(keys@, vals@, cm),
    ensures
        views(r.0@).no_duplicates(),
        views(r.0@).to_set() == deps_upto(projects@, manifests@, cm, name@, projects@.len() as int),
        match r.1 {
            Some(v) => version_upto(projects@, manifests@, cm, name@, projects@.len() as int) == Some(v@),
            None => version_upto(projects@, manifests@, cm, name@, projects@.len() as int) is None,
        },
{
    let mut deps: Vec<Vec<char>> = Vec::new();
    let mut version: Option<String> = None;
    let mut i: usize = 0;
    assert(views(deps@).to_set() =~= deps_upto(projects@, manifests@, cm, name@, 0));
    while i < projects.len()
        invariant
            i <= projects.len() == manifests.len(),
            represents(keys@, vals@, cm),
            views(deps@).no_duplicates(),
            views(deps@).to_set() == deps_upto(projects@, manifests@, cm, name@, i as int),
            match version {
                Some(v) => version_upto(projects@, manifests@, cm, name@, i as int) == Some(v@),
                None => version_upto(projects@, manifests@, cm, name@, i as int) is None,
            },
        decreases projects.len() - i,
    {
        let pn = chars_of(projects[i].name.as_str());
        if chars_eq(&pn, name) {
            let ghost before = views(deps@).to_set();
            let v = contribute(&manifests[i], keys, vals, name, &mut deps, Ghost(cm));
            assert(views(deps@).to_set() =~= deps_upto(projects@, manifests@, cm, name@, i + 1));
            match v {
                Some(x) => {
                    version = Some(x);
                },
                None => {},
            }
        } else {
            assert(views(deps@).to_set() =~= deps_upto(projects@, manifests@, cm, name@, i + 1));
        }
        i = i + 1;
    }
    (deps, version)
}


/// One project in the dependency graph.
#[derive(Clone, Debug)]
pub struct DependencyNode {
    pub name: String,
    pub version: Option<String>,
    pub depth: usize,
    /// Projects that depend on this one.
    pub dependents: Vec<String>,
    /// Projects this one depends on.
    pub dependencies: Vec<String>,
}

/// The dependency graph of a set of projects.
#[derive(Clone, Debug)]
pub struct DependencyGraph {
    /// One node per distinct project name, in order of first appearance.
    pub nodes: Vec<DependencyNode>,
    /// Project names, most depended-upon first.
    pub critical_path: Vec<String>,
    /// Projects with neither dependents nor dependencies.
    pub orphaned_projects: Vec<String>,
    /// Cycles of projects, each one depending on the next and the last on the first.
    pub circular_dependencies: Vec<Vec<String>>,
}

/// The nodes among the first `m` whose dependencies include `x`, in node order.
pub open spec fn dependents_upto(ps: Seq<ProjectDetail>, ms: Seq<Option<ManifestInfo>>, x: Seq<char>, m: int) -> Seq<Seq<char>>
    decreases m,
{
    if m <= 0 {
        seq![]
    } else {
        let r = dependents_upto(ps, ms, x, m - 1);
        let nm = node_names(ps)[m - 1];
        if node_deps(ps, ms, nm).contains(x) {
            r.push(nm)
        } else {
            r
        }
    }
}

/// The nodes that depend on `x`, in node order.
pub open spec fn dependents(ps: Seq<ProjectDetail>, ms: Seq<Option<ManifestInfo>>, x: Seq<char>) -> Seq<Seq<char>> {
    dependents_upto(ps, ms, x, node_names(ps).len() as int)
}

/// The nodes among the first `m` with neither dependents nor dependencies, in node order.
pub open spec fn orphans_upto(ps: Seq<ProjectDetail>, ms: Seq<Option<ManifestInfo>>, m: int) -> Seq<Seq<char>>
    decreases m,
{
    if m <= 0 {
        seq![]
    } else {
        let r = orphans_upto(ps, ms, m - 1);
        let nm = node_names(ps)[m - 1];
        if dependents(ps, ms, nm).len() == 0 && node_deps(ps, ms, nm).is_empty() {
            r.push(nm)
        } else {
            r
        }
    }
}

/// The nodes with neither dependents nor dependencies, in node order.
pub open spec fn orphans(ps: Seq<ProjectDetail>, ms: Seq<Option<ManifestInfo>>) -> Seq<Seq<char>> {
    orphans_upto(ps, ms, node_names(ps).len() as int)
}

/// How many nodes depend on each node, in node order.
pub open spec fn dependent_counts(ps: Seq<ProjectDetail>, ms: Seq<Option<ManifestInfo>>) -> Seq<u64> {
    Seq::new(node_names(ps).len(), |k: int| dependents(ps, ms, node_names(ps)[k]).len() as u64)
}

/// `c` is a cycle of node names: each depends on the next, the last on the first.
pub open spec fn is_name_cycle(ps: Seq<ProjectDetail>, ms: Seq<Option<ManifestInfo>>, c: Seq<Seq<char>>) -> bool {
    &&& c.len() > 0
    &&& forall|k: int| 0 <= k < c.len() ==> node_names(ps).contains(#[trigger] c[k])
    &&& forall|k: int| 0 <= k < c.len() - 1 ==> node_deps(ps, ms, #[trigger] c[k]).contains(c[k + 1])
    &&& node_deps(ps, ms, c.last()).contains(c[0])
}


/// `names` are the node names and `all_deps[m]` holds the dependencies of node `m`.
pub open spec fn graph_parts(
    ps: Seq<ProjectDetail>,
    ms: Seq<Option<ManifestInfo>>,
    names: Seq<Vec<char>>,
    all_deps: Seq<Vec<Vec<char>>>,
) -> bool {
    &&& views(names) == node_names(ps)
    &&& all_deps.len() == names.len()
    &&& forall|m: int| 0 <= m < all_deps.len() ==> views(#[trigger] all_deps[m]@).to_set() == node_deps(ps, ms, names[m]@)
    &&& forall|m: int| 0 <= m < all_deps.len() ==> views(#[trigger] all_deps[m]@).no_duplicates()
}

/// The nodes that depend on `x`, in node order.
fn dependents_of(
    names: &Vec<Vec<char>>,
    all_deps: &Vec<Vec<Vec<char>>>,
    x: &Vec<char>,
    Ghost(ps): Ghost<Seq<ProjectDetail>>,
    Ghost(ms): Ghost<Seq<Option<ManifestInfo>>>,
) -> (r: Vec<Vec<char>>)
    requires
        graph_parts(ps, ms, names@, all_deps@),
    ensures
        views(r@) == dependents(ps, ms, x@),
{
    let mut r: Vec<Vec<char>> = Vec::new();
    let mut m: usize = 0;
    while m < names.len()
        invariant
            m <= names.len(),
            graph_parts(ps, ms, names@, all_deps@),
            views(r@) == dependents_upto(ps, ms, x@, m as int),
        decreases names.len() - m,
    {
        let hit = contains_word(&all_deps[m], x);
        proof {
            assert(node_names(ps)[m as int] == names@[m as int]@);
            let dv = views(all_deps@[m as int]@);
            if hit {
                let k = choose|k: int| 0 <= k < all_deps@[m as int]@.len() && #[trigger] all_deps@[m as int]@[k]@ == x@;
                assert(dv[k] == x@);
                assert(dv.to_set().contains(x@));
            } else {
                if dv.to_set().contains(x@) {
                    let k = choose|k: int| 0 <= k < dv.len() && dv[k] == x@;
                    assert(all_deps@[m as int]@[k]@ == x@);
                }
            }
        }
        if hit {
            let ghost prev = r@;
            r.push(names[m].clone());
            assert(views(r@) =~= views(prev).push(names@[m as int]@));
        }
        m = m + 1;
    }
    r
}

/// Positions in `names` of the dependencies of one node.
fn adjacency_of(names: &Vec<Vec<char>>, deps: &Vec<Vec<char>>) -> (r: Vec<usize>)
    requires
        views(names@).no_duplicates(),
        views(deps@).no_duplicates(),
    ensures
        r@.no_duplicates(),
        forall|k: int| 0 <= k < r@.len() ==> #[trigger] r@[k] < names@.len() && views(deps@).contains(names@[r@[k] as int]@),
        forall|p: int| 0 <= p < names@.len() && views(deps@).contains(#[trigger] names@[p]@) ==> r@.contains(p as usize),
{
    let mut r: Vec<usize> = Vec::new();
    let mut k: usize = 0;
    while k < deps.len()
        invariant
            k <= deps.len(),
            views(names@).no_duplicates(),
            views(deps@).no_duplicates(),
            r@.no_duplicates(),
            forall|j: int| 0 <= j < r@.len() ==> #[trigger] r@[j] < names@.len() && views(deps@).contains(names@[r@[j] as int]@),
            forall|j: int| 0 <= j < r@.len() ==> views(deps@).take(k as int).contains(names@[#[trigger] r@[j] as int]@),
            forall|p: int| 0 <= p < names@.len() && views(deps@).take(k as int).contains(#[trigger] names@[p]@) ==> r@.contains(p as usize),
        decreases deps.len() - k,
    {
        let ghost prev = r@;
        match key_position(names, &deps[k]) {
            Some(p) => {
                assert(views(deps@)[k as int] == names@[p as int]@);
                proof {
                    assert forall|j: int| 0 <= j < prev.len() implies prev[j] != p by {
                        let t = choose|t: int| 0 <= t < views(deps@).take(k as int).len() && views(deps@).take(k as int)[t] == names@[prev[j] as int]@;
                        assert(views(deps@)[t] == names@[prev[j] as int]@);
                        if prev[j] == p {
                            assert(views(deps@)[t] == views(deps@)[k as int]);
                        }
                    }
                }
                r.push(p);
                assert(r@[prev.len() as int] == p);
            },
            None => {},
        }
        proof {
            assert forall|j: int| 0 <= j < r@.len() implies views(deps@).take(k + 1).contains(names@[#[trigger] r@[j] as int]@) by {
                let t1 = views(deps@).take(k + 1);
                if j < prev.len() {
                    assert(r@[j] == prev[j]);
                    let t0 = views(deps@).take(k as int);
                    let i = choose|i: int| 0 <= i < t0.len() && t0[i] == names@[prev[j] as int]@;
                    assert(t1[i] == t0[i]);
                } else {
                    assert(t1[k as int] == views(deps@)[k as int]);
                }
            }
            assert forall|q: int| 0 <= q < names@.len() && views(deps@).take(k + 1).contains(#[trigger] names@[q]@) implies r@.contains(q as usize) by {
                let t = views(deps@).take(k + 1);
                let i = choose|i: int| 0 <= i < t.len() && t[i] == names@[q]@;
                if i < k {
                    assert(views(deps@).take(k as int)[i] == names@[q]@);
                    let j = choose|j: int| 0 <= j < prev.len() && prev[j] == q as usize;
                    assert(r@[j] == q as usize);
                } else {
                    assert(deps@[k as int]@ == names@[q]@);
                    assert(views(names@)[q] == names@[q]@);
                    let pp = r@[prev.len() as int];
                    assert(views(names@)[pp as int] == names@[q]@);
                    assert(pp as int == q);
                }
            }
        }
        k = k + 1;
    }
    assert(views(deps@).take(deps@.len() as int) =~= views(deps@));
    r
}

/// A cycle of node names gives a cycle of node positions in the adjacency
/// lists built from the graph's parts.
proof fn lemma_name_cycle_lifts(
    ps: Seq<ProjectDetail>,
    ms: Seq<Option<ManifestInfo>>,
    names: Seq<Vec<char>>,
    all_deps: Seq<Vec<Vec<char>>>,
    adj: Seq<Vec<usize>>,
    c: Seq<Seq<char>>,
) -> (ic: Seq<usize>)
    requires
        graph_parts(ps, ms, names, all_deps),
        names.len() <= usize::MAX,
        adj.len() == names.len(),
        forall|a: int, p: int| 0 <= a < names.len() && 0 <= p < names.len() && #[trigger] views(all_deps[a]@).contains(names[p]@)
            ==> adj[a]@.contains(p as usize),
        is_name_cycle(ps, ms, c),
    ensures
        is_cycle(adj, ic),
        ic.len() == c.len(),
        forall|k: int| 0 <= k < c.len() ==> names[#[trigger] ic[k] as int]@ == c[k],
{
    let nn = node_names(ps);
    let ic = Seq::new(c.len(), |k: int| (choose|p: int| 0 <= p < nn.len() && nn[p] == c[k]) as usize);
    assert(nn.len() == names.len());
    assert forall|k: int| 0 <= k < c.len() implies 0 <= #[trigger] ic[k] < names.len() && nn[ic[k] as int] == c[k] by {
        assert(nn.contains(c[k]));
        let p = choose|p: int| 0 <= p < nn.len() && nn[p] == c[k];
        assert(0 <= p < nn.len() && nn[p] == c[k]);
        assert(p <= usize::MAX);
        assert(ic[k] == p as usize);
        assert(ic[k] as int == p);
    }
    assert forall|k: int| 0 <= k < ic.len() - 1 implies edge(adj, #[trigger] ic[k] as int, ic[k + 1] as int) by {
        let a = ic[k] as int;
        let b = ic[k + 1] as int;
        assert(nn[a] == c[k]);
        assert(nn[b] == c[k + 1]);
        assert(views(names)[a] == names[a]@);
        assert(views(names)[b] == names[b]@);
        assert(node_deps(ps, ms, c[k]).contains(c[k + 1]));
        assert(views(all_deps[a]@).to_set().contains(names[b]@));
        assert(views(all_deps[a]@).contains(names[b]@));
    }
    let a = ic.last() as int;
    let b = ic[0] as int;
    assert(nn[a] == c.last());
    assert(nn[b] == c[0]);
    assert(views(names)[a] == names[a]@);
    assert(views(names)[b] == names[b]@);
    assert(views(all_deps[a]@).to_set().contains(names[b]@));
    assert(views(all_deps[a]@).contains(names[b]@));
    ic
}

/// Some reported cycle passes through a project of the cycle `c`.
pub open spec fn name_cycle_met(circular: Seq<Vec<String>>, c: Seq<Seq<char>>) -> bool {
    exists|i: int, k: int| 0 <= i < circular.len() && 0 <= k < c.len() && #[trigger] strs(circular[i]@).contains(#[trigger] c[k])
}

/// The names at the given node positions.
pub open spec fn name_seq(names: Seq<Vec<char>>, ic: Seq<usize>) -> Seq<Seq<char>> {
    ic.map_values(|x: usize| names[x as int]@)
}

/// With distinct names, positions are told apart by their names.
proof fn lemma_name_seq_injective(names: Seq<Vec<char>>, a: Seq<usize>, b: Seq<usize>)
    requires
        views(names).no_duplicates(),
        forall|k: int| 0 <= k < a.len() ==> #[trigger] a[k] < names.len(),
        forall|k: int| 0 <= k < b.len() ==> #[trigger] b[k] < names.len(),
    ensures
        name_seq(names, a) == name_seq(names, b) ==> a == b,
        a.no_duplicates() ==> name_seq(names, a).no_duplicates(),
{
    if name_seq(names, a) == name_seq(names, b) {
        assert(a.len() == name_seq(names, a).len() && b.len() == name_seq(names, b).len());
        assert forall|k: int| 0 <= k < a.len() implies a[k] == b[k] by {
            assert(name_seq(names, a)[k] == name_seq(names, b)[k]);
            assert(views(names)[a[k] as int] == names[a[k] as int]@);
            assert(views(names)[b[k] as int] == names[b[k] as int]@);
        }
        assert(a =~= b);
    }
    if a.no_duplicates() {
        assert forall|i: int, j: int| 0 <= i < j < a.len() implies name_seq(names, a)[i] != name_seq(names, a)[j] by {
            assert(views(names)[a[i] as int] == names[a[i] as int]@);
            assert(views(names)[a[j] as int] == names[a[j] as int]@);
        }
    }
}

/// Analyzes the dependencies between projects. `manifests[i]` tells what was
/// found of the `Cargo.toml` of `projects[i]` (`None` when it has none).
pub fn analyze_dependencies(projects: &Vec<ProjectDetail>, manifests: &Vec<Option<ManifestInfo>>) -> (r: Result<
    DependencyGraph,
    ToadError,
>)
    requires
        projects.len() == manifests.len(),
    ensures
        r matches Ok(g) && {
            let ps = projects@;
            let ms = manifests@;
            let names = node_names(ps);
            &&& g.nodes@.len() == names.len()
            &&& forall|n: int| 0 <= n < names.len() ==> {
                let node = #[trigger] g.nodes@[n];
                &&& node.name@ == names[n]
                &&& node.depth == 0
                &&& strs(node.dependencies@).no_duplicates()
                &&& strs(node.dependencies@).to_set() == node_deps(ps, ms, names[n])
                &&& strs(node.dependents@) == dependents(ps, ms, names[n])
                &&& match node.version {
                    Some(v) => node_version(ps, ms, names[n]) == Some(v@),
                    None => node_version(ps, ms, names[n]) is None,
                }
            }
            &&& exists|order: Seq<usize>| {
                &&& is_desc_order(dependent_counts(ps, ms), order)
                &&& strs(g.critical_path@) == order.map_values(|i: usize| names[i as int])
            }
            &&& strs(g.orphaned_projects@) == orphans(ps, ms)
            &&& forall|c: int| 0 <= c < g.circular_dependencies@.len() ==> is_name_cycle(ps, ms, strs(#[trigger] g.circular_dependencies@[c]@))
            &&& forall|c: int| 0 <= c < g.circular_dependencies@.len() ==> strs(#[trigger] g.circular_dependencies@[c]@).no_duplicates()
            &&& forall|c1: int, c2: int| 0 <= c1 < c2 < g.circular_dependencies@.len()
                ==> strs(#[trigger] g.circular_dependencies@[c1]@) != strs(#[trigger] g.circular_dependencies@[c2]@)
            &&& forall|c: Seq<Seq<char>>| #[trigger] is_name_cycle(ps, ms, c) ==> name_cycle_met(g.circular_dependencies@, c)
            &&& g.circular_dependencies@.len() == 0 ==> forall|c: Seq<Seq<char>>| !is_name_cycle(ps, ms, c)
        },
{
    let ghost ps = projects@;
    let ghost ms = manifests@;
    let (keys, vals) = build_crate_map(projects, manifests);
    let ghost cm = full_crate_map(ps, ms);
    let names = distinct_names(projects);
    let n = names.len();

    // Dependencies and versions of each node.
    let mut all_deps: Vec<Vec<Vec<char>>> = Vec::new();
    let mut versions: Vec<Option<String>> = Vec::new();
    let mut i: usize = 0;
    while i < n
        invariant
            n == names.len(),
            i <= n,
            projects.len() == manifests.len(),
            ps == projects@,
            ms == manifests@,
            represents(keys@, vals@, cm),
            cm == full_crate_map(ps, ms),
            views(names@) == node_names(ps),
            all_deps@.len() == i,
            versions@.len() == i,
            forall|m: int| 0 <= m < i ==> views(#[trigger] all_deps@[m]@).to_set() == node_deps(ps, ms, names@[m]@),
            forall|m: int| 0 <= m < i ==> views(#[trigger] all_deps@[m]@).no_duplicates(),
            forall|m: int| 0 <= m < i ==> match #[trigger] versions@[m] {
                Some(v) => node_version(ps, ms, names@[m]@) == Some(v@),
                None => node_version(ps, ms, names@[m]@) is None,
            },
        decreases n - i,
    {
        let (d, v) = collect_node(projects, manifests, &keys, &vals, &names[i], Ghost(cm));
        all_deps.push(d);
        versions.push(v);
        i = i + 1;
    }
    assert(graph_parts(ps, ms, names@, all_deps@));

    // Dependents of each node, and how many there are.
    let mut all_dependents: Vec<Vec<Vec<char>>> = Vec::new();
    let mut counts: Vec<u64> = Vec::new();
    let mut i: usize = 0;
    while i < n
        invariant
            n == names.len(),
            i <= n,
            graph_parts(ps, ms, names@, all_deps@),
            all_dependents@.len() == i,
            counts@.len() == i,
            forall|m: int| 0 <= m < i ==> views(#[trigger] all_dependents@[m]@) == dependents(ps, ms, names@[m]@),
            forall|m: int| 0 <= m < i ==> #[trigger] counts@[m] == dependent_counts(ps, ms)[m],
        decreases n - i,
    {
        let ds = dependents_of(&names, &all_deps, &names[i], Ghost(ps), Ghost(ms));
        proof {
            assert(node_names(ps)[i as int] == names@[i as int]@);
        }
        counts.push(ds.len() as u64);
        all_dependents.push(ds);
        i = i + 1;
    }
    assert(counts@ =~= dependent_counts(ps, ms));

    // Most depended-upon first.
    let order = desc_order(&counts);
    let mut critical_path: Vec<String> = Vec::new();
    let mut k: usize = 0;
    while k < order.len()
        invariant
            k <= order@.len(),
            n == names.len(),
            views(names@) == node_names(ps),
            is_desc_order(dependent_counts(ps, ms), order@),
            counts@.len() == n,
            strs(critical_path@) == order@.take(k as int).map_values(|i: usize| node_names(ps)[i as int]),
        decreases order@.len() - k,
    {
        let ghost prev = critical_path@;
        critical_path.push(string_of(&names[order[k]]));
        proof {
            assert(node_names(ps)[order@[k as int] as int] == names@[order@[k as int] as int]@);
            assert(strs(critical_path@) =~= strs(prev).push(names@[order@[k as int] as int]@));
            assert(order@.take(k + 1).map_values(|i: usize| node_names(ps)[i as int]) =~= order@.take(k as int).map_values(|i: usize| node_names(ps)[i as int]).push(node_names(ps)[order@[k as int] as int]));
        }
        k = k + 1;
    }
    assert(order@.take(order@.len() as int) =~= order@);

    // Projects standing alone.
    let mut orphaned: Vec<String> = Vec::new();
    let mut i: usize = 0;
    while i < n
        invariant
            n == names.len(),
            i <= n,
            graph_parts(ps, ms, names@, all_deps@),
            all_dependents@.len() == n,
            forall|m: int| 0 <= m < n ==> views(#[trigger] all_dependents@[m]@) == dependents(ps, ms, names@[m]@),
            strs(orphaned@) == orphans_upto(ps, ms, i as int),
        decreases n - i,
    {
        proof {
            assert(node_names(ps)[i as int] == names@[i as int]@);
            let dv = views(all_deps@[i as int]@);
            if dv.len() > 0 {
                assert(dv.to_set().contains(dv[0]));
            } else {
                assert(dv.to_set() =~= Set::<Seq<char>>::empty());
            }
        }
        if all_dependents[i].len() == 0 && all_deps[i].len() == 0 {
            let ghost prev = orphaned@;
            orphaned.push(string_of(&names[i]));
            assert(strs(orphaned@) =~= strs(prev).push(names@[i as int]@));
        }
        i = i + 1;
    }

    // Cycles.
    proof {
        crate::text::lemma_dedup_props(ps.map_values(|p: ProjectDetail| p.name@));
    }
    let mut adj: Vec<Vec<usize>> = Vec::new();
    let mut i: usize = 0;
    while i < n
        invariant
            n == names.len(),
            i <= n,
            graph_parts(ps, ms, names@, all_deps@),
            views(names@).no_duplicates(),
            adj@.len() == i,
            forall|a: int, k: int| 0 <= a < i && 0 <= k < adj@[a]@.len() ==> #[trigger] adj@[a]@[k] < n
                && views(all_deps@[a]@).contains(names@[adj@[a]@[k] as int]@),
            forall|a: int, p: int| 0 <= a < i && 0 <= p < n && #[trigger] views(all_deps@[a]@).contains(names@[p]@)
                ==> adj@[a]@.contains(p as usize),
            forall|a: int| 0 <= a < i ==> (#[trigger] adj@[a])@.no_duplicates(),
        decreases n - i,
    {
        adj.push(adjacency_of(&names, &all_deps[i]));
        i = i + 1;
    }
    assert(simple_lists(adj@));
    let index_cycles = detect_cycles(&adj);
    proof {
        if index_cycles@.len() == 0 {
            assert forall|c: Seq<Seq<char>>| !is_name_cycle(ps, ms, c) by {
                if is_name_cycle(ps, ms, c) {
                    let ic = lemma_name_cycle_lifts(ps, ms, names@, all_deps@, adj@, c);
                }
            }
        }
    }
    let mut cycles: Vec<Vec<String>> = Vec::new();
    let mut c: usize = 0;
    while c < index_cycles.len()
        invariant
            n == names.len(),
            adj@.len() == n,
            graph_parts(ps, ms, names@, all_deps@),
            forall|a: int, k: int| 0 <= a < n && 0 <= k < adj@[a]@.len() ==> #[trigger] adj@[a]@[k] < n
                && views(all_deps@[a]@).contains(names@[adj@[a]@[k] as int]@),
            forall|j: int| 0 <= j < index_cycles@.len() ==> is_cycle(adj@, #[trigger] index_cycles@[j]@) && index_cycles@[j]@.no_duplicates(),
            distinct_cycles(index_cycles@),
            views(names@).no_duplicates(),
            c <= index_cycles@.len(),
            cycles@.len() == c,
            forall|j: int| 0 <= j < cycles@.len() ==> strs(#[trigger] cycles@[j]@) == name_seq(names@, index_cycles@[j]@),
            forall|j: int| 0 <= j < cycles@.len() ==> strs(#[trigger] cycles@[j]@).no_duplicates(),
            forall|j1: int, j2: int| 0 <= j1 < j2 < cycles@.len() ==> strs(#[trigger] cycles@[j1]@) != strs(#[trigger] cycles@[j2]@),
            index_cycles@.len() == 0 ==> forall|cc: Seq<Seq<char>>| !is_name_cycle(ps, ms, cc),
            forall|j: int| 0 <= j < cycles@.len() ==> is_name_cycle(ps, ms, strs(#[trigger] cycles@[j]@)),
        decreases index_cycles@.len() - c,
    {
        let ic = &index_cycles[c];
        assert(is_cycle(adj@, ic@));
        let mut named: Vec<String> = Vec::new();
        let mut q: usize = 0;
        while q < ic.len()
            invariant
                q <= ic@.len(),
                is_cycle(adj@, ic@),
                adj@.len() == n == names@.len(),
                named@.len() == q,
                forall|j: int| 0 <= j < q ==> #[trigger] named@[j]@ == names@[ic@[j] as int]@,
            decreases ic@.len() - q,
        {
            named.push(string_of(&names[ic[q]]));
            q = q + 1;
        }
        proof {
            let cn = strs(named@);
            assert forall|k: int| 0 <= k < cn.len() implies node_names(ps).contains(#[trigger] cn[k]) by {
                assert(cn[k] == names@[ic@[k] as int]@);
                assert(node_names(ps)[ic@[k] as int] == names@[ic@[k] as int]@);
            }
            assert forall|k: int| 0 <= k < cn.len() - 1 implies node_deps(ps, ms, #[trigger] cn[k]).contains(cn[k + 1]) by {
                let a = ic@[k] as int;
                let b = ic@[k + 1];
                assert(edge(adj@, a, b as int));
                let j = choose|j: int| 0 <= j < adj@[a]@.len() && adj@[a]@[j] == b;
                assert(views(all_deps@[a]@).contains(names@[b as int]@));
                assert(cn[k] == names@[a]@);
                assert(cn[k + 1] == names@[b as int]@);
            }
            let a = ic@.last() as int;
            let b = ic@[0];
            assert(edge(adj@, a, b as int));
            let j = choose|j: int| 0 <= j < adj@[a]@.len() && adj@[a]@[j] == b;
            assert(views(all_deps@[a]@).contains(names@[b as int]@));
            assert(cn.last() == names@[a]@);
            assert(cn[0] == names@[b as int]@);
            assert(cn =~= name_seq(names@, ic@));
            lemma_name_seq_injective(names@, ic@, ic@);
            assert forall|j: int| 0 <= j < cycles@.len() implies strs(#[trigger] cycles@[j]@) != cn by {
                lemma_name_seq_injective(names@, index_cycles@[j]@, ic@);
                assert(index_cycles@[j]@ != index_cycles@[c as int]@);
            }
        }
        let ghost prev = cycles@;
        cycles.push(named);
        proof {
            assert forall|j: int| 0 <= j < cycles@.len() implies strs(#[trigger] cycles@[j]@) == name_seq(names@, index_cycles@[j]@)
                && strs(cycles@[j]@).no_duplicates() by {
                if j < prev.len() {
                    assert(cycles@[j] == prev[j]);
                }
            }
            assert forall|j1: int, j2: int| 0 <= j1 < j2 < cycles@.len() implies strs(#[trigger] cycles@[j1]@) != strs(#[trigger] cycles@[j2]@) by {
                assert(cycles@[j1] == prev[j1]);
                if j2 < prev.len() {
                    assert(cycles@[j2] == prev[j2]);
                }
            }
        }
        c = c + 1;
    }

    proof {
        assert forall|cc: Seq<Seq<char>>| #[trigger] is_name_cycle(ps, ms, cc) implies name_cycle_met(cycles@, cc) by {
            let ic = lemma_name_cycle_lifts(ps, ms, names@, all_deps@, adj@, cc);
            assert(cycle_met(index_cycles@, ic));
            let (i, k) = choose|i: int, k: int| 0 <= i < index_cycles@.len() && 0 <= k < ic.len()
                && #[trigger] index_cycles@[i]@.contains(#[trigger] ic[k]);
            let q = choose|q: int| 0 <= q < index_cycles@[i]@.len() && index_cycles@[i]@[q] == ic[k];
            assert(strs(cycles@[i]@) == name_seq(names@, index_cycles@[i]@));
            assert(strs(cycles@[i]@)[q] == names@[ic[k] as int]@);
            assert(strs(cycles@[i]@).contains(cc[k]));
        }
    }

    // The nodes.
    let mut nodes: Vec<DependencyNode> = Vec::new();
    let mut i: usize = 0;
    while i < n
        invariant
            n == names.len(),
            i <= n,
            graph_parts(ps, ms, names@, all_deps@),
            all_dependents@.len() == n,
            versions@.len() == n,
            forall|m: int| 0 <= m < n ==> views(#[trigger] all_dependents@[m]@) == dependents(ps, ms, names@[m]@),
            forall|m: int| 0 <= m < n ==> match #[trigger] versions@[m] {
                Some(v) => node_version(ps, ms, names@[m]@) == Some(v@),
                None => node_version(ps, ms, names@[m]@) is None,
            },
            nodes@.len() == i,
            cycles@.len() == 0 ==> forall|cc: Seq<Seq<char>>| !is_name_cycle(ps, ms, cc),
            forall|cc: Seq<Seq<char>>| #[trigger] is_name_cycle(ps, ms, cc) ==> name_cycle_met(cycles@, cc),
            forall|j: int| 0 <= j < cycles@.len() ==> strs(#[trigger] cycles@[j]@).no_duplicates(),
            forall|j1: int, j2: int| 0 <= j1 < j2 < cycles@.len() ==> strs(#[trigger] cycles@[j1]@) != strs(#[trigger] cycles@[j2]@),
            forall|j: int| 0 <= j < cycles@.len() ==> is_name_cycle(ps, ms, strs(#[trigger] cycles@[j]@)),
            forall|m: int| 0 <= m < i ==> {
                let node = #[trigger] nodes@[m];
                &&& node.name@ == names@[m]@
                &&& node.depth == 0
                &&& strs(node.dependencies@).no_duplicates()
                &&& strs(node.dependencies@).to_set() == node_deps(ps, ms, names@[m]@)
                &&& strs(node.dependents@) == dependents(ps, ms, names@[m]@)
                &&& match node.version {
                    Some(v) => node_version(ps, ms, names@[m]@) == Some(v@),
                    None => node_version(ps, ms, names@[m]@) is None,
                }
            },
        decreases n - i,
    {
        let version = match &versions[i] {
            Some(v) => Some(v.clone()),
            None => None,
        };
        let node = DependencyNode {
            name: string_of(&names[i]),
            version,
            depth: 0,
            dependents: strings_of(&all_dependents[i]),
            dependencies: strings_of(&all_deps[i]),
        };
        nodes.push(node);
        i = i + 1;
    }
    proof {
        assert forall|nn: int| 0 <= nn < n implies names@[nn]@ == node_names(ps)[nn] by {}
    }
    Ok(DependencyGraph { nodes, critical_path, orphaned_projects: orphaned, circular_dependencies: cycles })
}


proof fn lemma_dependents_upto(ps: Seq<ProjectDetail>, ms: Seq<Option<ManifestInfo>>, x: Seq<char>, y: Seq<char>, m: int)
    requires
        0 <= m <= node_names(ps).len(),
    ensures
        dependents_upto(ps, ms, x, m).contains(y) <==> exists|k: int|
            0 <= k < m && #[trigger] node_names(ps)[k] == y && node_deps(ps, ms, y).contains(x),
    decreases m,
{
    if m > 0 {
        lemma_dependents_upto(ps, ms, x, y, m - 1);
        let prev = dependents_upto(ps, ms, x, m - 1);
        let nm = node_names(ps)[m - 1];
        if node_deps(ps, ms, nm).contains(x) {
            let cur = prev.push(nm);
            assert(cur[prev.len() as int] == nm);
            if cur.contains(y) && y != nm {
                let i = choose|i: int| 0 <= i < cur.len() && cur[i] == y;
                assert(prev[i] == y);
            }
            if prev.contains(y) {
                let i = choose|i: int| 0 <= i < prev.len() && prev[i] == y;
                assert(cur[i] == y);
            }
        }
    }
}

/// A node depends on `x` exactly when it is among the dependents of `x`:
/// the dependents lists of the graph are the dependencies read backwards.
pub proof fn lemma_dependents_inverse(ps: Seq<ProjectDetail>, ms: Seq<Option<ManifestInfo>>, x: Seq<char>, y: Seq<char>)
    ensures
        dependents(ps, ms, x).contains(y) <==> (node_names(ps).contains(y) && node_deps(ps, ms, y).contains(x)),
{
    lemma_dependents_upto(ps, ms, x, y, node_names(ps).len() as int);
}

} // verus!
