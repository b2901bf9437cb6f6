//! Disk usage of projects: artifact versus source bytes, the ecosystem
//! report of the largest projects, and size units.
use vstd::prelude::*;
use crate::model::{ActivityTier, ProjectDetail};
use crate::order::{desc_order, is_desc_order, lemma_desc_order_unique};
use crate::text::{
    concat, has_substring, lowercase, starts_with, str_contains, str_eq, str_starts_with, strs,
    to_lowercase,
};

verus! {

broadcast use vstd::string::group_string_axioms;

/// Disk usage of a project.
#[derive(Clone, Copy, Debug, Default)]
pub struct ProjectStats {
    pub total_bytes: u64,
    pub artifact_bytes: u64,
    pub source_bytes: u64,
}

/// A file found under a project: the components of its path relative to
/// the project root (those that are valid UTF-8), and its size in bytes.
#[derive(Clone, Debug)]
pub struct FileEntry {
    pub components: Vec<String>,
    pub size: u64,
}

/// A file is an artifact when a component of its relative path is one of
/// the artifact directory names.
pub open spec fn artifact_file(components: Seq<String>, artifact_dirs: Seq<String>) -> bool {
    exists|i: int, j: int|
        0 <= i < components.len() && 0 <= j < artifact_dirs.len() && (#[trigger] components[i])@
            == (#[trigger] artifact_dirs[j])@
}

/// Whether a file lies inside an artifact directory.
pub fn is_artifact(components: &Vec<String>, artifact_dirs: &Vec<String>) -> (r: bool)
    ensures
        r == artifact_file(components@, artifact_dirs@),
{
    let mut i: usize = 0;
    while i < components.len()
        invariant
            i <= components.len(),
            forall|a: int, b: int|
                0 <= a < i && 0 <= b < artifact_dirs@.len() ==> (#[trigger] components@[a])@
                    != (#[trigger] artifact_dirs@[b])@,
        decreases components.len() - i,
    {
        let mut j: usize = 0;
        while j < artifact_dirs.len()
            invariant
                i < components.len(),
                j <= artifact_dirs.len(),
                forall|b: int| 0 <= b < j ==> components@[i as int]@ != (#[trigger] artifact_dirs@[b])@,
            decreases artifact_dirs.len() - j,
        {
            if str_eq(components[i].as_str(), artifact_dirs[j].as_str()) {
                return true;
            }
            j = j + 1;
        }
        i = i + 1;
    }
    false
}

/// Total size of the first `n` files, of those that are artifacts
/// (`which == 1`), or of those that are not (`which == 2`); all when `which == 0`.
pub open spec fn size_sum(files: Seq<FileEntry>, dirs: Seq<String>, which: int, n: int) -> nat
    decreases n,
{
    if n <= 0 {
        0
    } else {
        let f = files[n - 1];
        let art = artifact_file(f.components@, dirs);
        size_sum(files, dirs, which, n - 1) + if which == 0 || (which == 1 && art) || (which == 2
            && !art) {
            f.size as nat
        } else {
            0
        }
    }
}

proof fn lemma_size_parts(files: Seq<FileEntry>, dirs: Seq<String>, n: int)
    requires
        0 <= n <= files.len(),
    ensures
        size_sum(files, dirs, 1, n) + size_sum(files, dirs, 2, n) == size_sum(files, dirs, 0, n),
        size_sum(files, dirs, 1, n) <= size_sum(files, dirs, 0, n),
        size_sum(files, dirs, 2, n) <= size_sum(files, dirs, 0, n),
    decreases n,
{
    if n > 0 {
        lemma_size_parts(files, dirs, n - 1);
    }
}

proof fn lemma_size_mono(files: Seq<FileEntry>, dirs: Seq<String>, i: int, n: int)
    requires
        0 <= i <= n,
    ensures
        size_sum(files, dirs, 0, i) <= size_sum(files, dirs, 0, n),
    decreases n - i,
{
    if i < n {
        lemma_size_mono(files, dirs, i, n - 1);
    }
}

/// Calculates the disk usage of a project from the files found under it.
pub fn calculate_project_stats(files: &Vec<FileEntry>, artifact_dirs: &Vec<String>) -> (r: ProjectStats)
    requires
        size_sum(files@, artifact_dirs@, 0, files@.len() as int) <= u64::MAX,
    ensures
        r.total_bytes == size_sum(files@, artifact_dirs@, 0, files@.len() as int),
        r.artifact_bytes == size_sum(files@, artifact_dirs@, 1, files@.len() as int),
        r.source_bytes == size_sum(files@, artifact_dirs@, 2, files@.len() as int),
        r.artifact_bytes + r.source_bytes == r.total_bytes,
{
    let mut stats = ProjectStats { total_bytes: 0, artifact_bytes: 0, source_bytes: 0 };
    let mut i: usize = 0;
    while i < files.len()
        invariant
            i <= files.len(),
            size_sum(files@, artifact_dirs@, 0, files@.len() as int) <= u64::MAX,
            stats.total_bytes == size_sum(files@, artifact_dirs@, 0, i as int),
            stats.artifact_bytes == size_sum(files@, artifact_dirs@, 1, i as int),
            stats.source_bytes == size_sum(files@, artifact_dirs@, 2, i as int),
        decreases files.len() - i,
    {
        proof {
            lemma_size_mono(files@, artifact_dirs@, i + 1, files@.len() as int);
            lemma_size_parts(files@, artifact_dirs@, i + 1);
        }
        let f = &files[i];
        stats.total_bytes = stats.total_bytes + f.size;
        if is_artifact(&f.components, artifact_dirs) {
            stats.artifact_bytes = stats.artifact_bytes + f.size;
        } else {
            stats.source_bytes = stats.source_bytes + f.size;
        }
        i = i + 1;
    }
    proof {
        lemma_size_parts(files@, artifact_dirs@, files@.len() as int);
    }
    stats
}

/// The unit a size is shown in.
#[derive(Clone, Copy, Debug, PartialEq, Eq, Structural)]
pub enum SizeUnit {
    Bytes,
    Kilobytes,
    Megabytes,
    Gigabytes,
    Terabytes,
}

/// The largest binary unit that a size reaches (1 KB is 1024 bytes).
pub open spec fn unit_of(bytes: u64) -> SizeUnit {
    if bytes < 1024 {
        SizeUnit::Bytes
    } else if bytes < 1024 * 1024 {
        SizeUnit::Kilobytes
    } else if bytes < 1024 * 1024 * 1024 {
        SizeUnit::Megabytes
    } else if bytes < 1024 * 1024 * 1024 * 1024 {
        SizeUnit::Gigabytes
    } else {
        SizeUnit::Terabytes
    }
}

/// The unit in which a size is shown.
pub fn size_unit(bytes: u64) -> (r: SizeUnit)
    ensures
        r == unit_of(bytes),
{
    if bytes < 1024 {
        SizeUnit::Bytes
    } else if bytes < 1024 * 1024 {
        SizeUnit::Kilobytes
    } else if bytes < 1024 * 1024 * 1024 {
        SizeUnit::Megabytes
    } else if bytes < 1024 * 1024 * 1024 * 1024 {
        SizeUnit::Gigabytes
    } else {
        SizeUnit::Terabytes
    }
}

/// A project's name passes the query: its lowercase form contains the
/// lowercase query.
pub open spec fn query_ok(name: Seq<char>, query: Option<&str>) -> bool {
    match query {
        Some(q) => has_substring(lowercase(name), lowercase(q@)),
        None => true,
    }
}

/// The tag searched for: the given tag with a leading `#` added when it lacks one.
pub open spec fn tag_target(t: Seq<char>) -> Seq<char> {
    if starts_with(t, "#"@) {
        t
    } else {
        "#"@ + t
    }
}

/// A project's tags pass the tag filter.
pub open spec fn tag_ok(tags: Seq<String>, tag: Option<&str>) -> bool {
    match tag {
        Some(t) => strs(tags).contains(tag_target(t@)),
        None => true,
    }
}

/// A project is in the report.
pub open spec fn selected(p: ProjectDetail, query: Option<&str>, tag: Option<&str>) -> bool {
    query_ok(p.name@, query) && tag_ok(p.tags@, tag)
}

/// A project passes a tag filter exactly when one of its tags is, as a whole
/// text, the requested tag with `#` put in front when it does not start with
/// one; a tag that merely begins with it does not pass.
pub proof fn lemma_tag_filter_exact(p: ProjectDetail, query: Option<&str>, t: &str)
    ensures
        selected(p, query, Some(t)) <==> query_ok(p.name@, query) && exists|j: int|
            0 <= j < p.tags@.len() && (#[trigger] p.tags@[j])@ == (if t@.len() > 0 && t@[0] == '#' {
                t@
            } else {
                seq!['#'] + t@
            }),
{
    reveal_strlit("#");
    let want = if t@.len() > 0 && t@[0] == '#' { t@ } else { seq!['#'] + t@ };
    if t@.len() > 0 && t@[0] == '#' {
        assert(t@.subrange(0, 1) =~= "#"@);
    } else {
        assert(!starts_with(t@, "#"@)) by {
            if starts_with(t@, "#"@) {
                assert(t@.subrange(0, 1)[0] == '#');
            }
        }
        assert("#"@ + t@ =~= seq!['#'] + t@);
    }
    assert(tag_target(t@) == want);
    if strs(p.tags@).contains(want) {
        let j = choose|j: int| 0 <= j < strs(p.tags@).len() && strs(p.tags@)[j] == want;
        assert(p.tags@[j]@ == want);
    }
    if exists|j: int| 0 <= j < p.tags@.len() && (#[trigger] p.tags@[j])@ == want {
        let j = choose|j: int| 0 <= j < p.tags@.len() && (#[trigger] p.tags@[j])@ == want;
        assert(strs(p.tags@)[j] == want);
    }
}

/// Whether a project passes the query and tag filters.
pub fn matches_filter(p: &ProjectDetail, query: Option<&str>, tag: Option<&str>) -> (r: bool)
    ensures
        r == selected(*p, query, tag),
{
    match query {
        Some(q) => {
            let n = to_lowercase(p.name.as_str());
            let ql = to_lowercase(q);
            if !str_contains(n.as_str(), ql.as_str()) {
                return false;
            }
        },
        None => {},
    }
    match tag {
        Some(t) => {
            let target = if str_starts_with(t, "#") {
                String::from_str(t)
            } else {
                concat("#", t)
            };
            let mut i: usize = 0;
            while i < p.tags.len()
                invariant
                    i <= p.tags@.len(),
                    target@ == tag_target(t@),
                    query_ok(p.name@, query),
                    tag == Some(t),
                    forall|j: int| 0 <= j < i ==> (#[trigger] p.tags@[j])@ != target@,
                decreases p.tags@.len() - i,
            {
                if str_eq(p.tags[i].as_str(), target.as_str()) {
                    assert(strs(p.tags@)[i as int] == target@);
                    return true;
                }
                i = i + 1;
            }
            assert(!strs(p.tags@).contains(target@)) by {
                if strs(p.tags@).contains(target@) {
                    let j = choose|j: int| 0 <= j < strs(p.tags@).len() && strs(p.tags@)[j] == target@;
                    assert(p.tags@[j]@ == target@);
                }
            }
            false
        },
        None => true,
    }
}

/// Disk usage of one project in the report.
#[derive(Clone, Debug)]
pub struct ProjectAnalytics {
    pub name: String,
    pub total_size: u64,
    pub artifact_size: u64,
    pub activity: ActivityTier,
}

/// Disk usage across projects, largest first.
#[derive(Clone, Debug)]
pub struct AnalyticsReport {
    pub total_usage: u64,
    pub total_artifacts: u64,
    pub offenders: Vec<ProjectAnalytics>,
}

/// The positions of the selected projects among the first `n`, in order.
pub open spec fn selection(ps: Seq<ProjectDetail>, query: Option<&str>, tag: Option<&str>, n: int) -> Seq<int>
    decreases n,
{
    if n <= 0 {
        seq![]
    } else if selected(ps[n - 1], query, tag) {
        selection(ps, query, tag, n - 1).push(n - 1)
    } else {
        selection(ps, query, tag, n - 1)
    }
}

/// The total bytes of the selected projects, in order.
pub open spec fn selected_totals(stats: Seq<ProjectStats>, sel: Seq<int>) -> Seq<u64> {
    Seq::new(sel.len(), |k: int| stats[sel[k]].total_bytes)
}

/// Sum over the selected positions of total bytes (`artifacts` false) or of artifact bytes.
pub open spec fn selected_sum(stats: Seq<ProjectStats>, sel: Seq<int>, artifacts: bool, n: int) -> nat
    decreases n,
{
    if n <= 0 {
        0
    } else {
        selected_sum(stats, sel, artifacts, n - 1) + if artifacts {
            stats[sel[n - 1]].artifact_bytes as nat
        } else {
            stats[sel[n - 1]].total_bytes as nat
        }
    }
}

proof fn lemma_selected_sum_mono(stats: Seq<ProjectStats>, sel: Seq<int>, artifacts: bool, i: int, n: int)
    requires
        0 <= i <= n,
    ensures
        selected_sum(stats, sel, artifacts, i) <= selected_sum(stats, sel, artifacts, n),
    decreases n - i,
{
    if i < n {
        lemma_selected_sum_mono(stats, sel, artifacts, i, n - 1);
    }
}

proof fn lemma_selection_bounds(ps: Seq<ProjectDetail>, query: Option<&str>, tag: Option<&str>, n: int)
    requires
        0 <= n <= ps.len(),
    ensures
        selection(ps, query, tag, n).len() <= n,
        forall|k: int| 0 <= k < selection(ps, query, tag, n).len() ==> 0 <= #[trigger] selection(ps, query, tag, n)[k] < n,
    decreases n,
{
    if n > 0 {
        lemma_selection_bounds(ps, query, tag, n - 1);
    }
}

/// An offender as its name, sizes and activity.
pub open spec fn offender_view(o: ProjectAnalytics) -> (Seq<char>, u64, u64, ActivityTier) {
    (o.name@, o.total_size, o.artifact_size, o.activity)
}

/// `r` is the report of the selected projects: their summed sizes, and
/// each as an offender, by descending total size, ties in project order.
pub open spec fn is_report(
    projects: Seq<ProjectDetail>,
    stats: Seq<ProjectStats>,
    query: Option<&str>,
    tag: Option<&str>,
    r: AnalyticsReport,
) -> bool {
    let sel = selection(projects, query, tag, projects.len() as int);
    &&& r.total_usage == selected_sum(stats, sel, false, sel.len() as int)
    &&& r.total_artifacts == selected_sum(stats, sel, true, sel.len() as int)
    &&& exists|order: Seq<usize>| {
        &&& is_desc_order(selected_totals(stats, sel), order)
        &&& r.offenders@.len() == order.len()
        &&& forall|k: int| 0 <= k < order.len() ==> offender_view(#[trigger] r.offenders@[k]) == (
            projects[sel[order[k] as int]].name@,
            stats[sel[order[k] as int]].total_bytes,
            stats[sel[order[k] as int]].artifact_bytes,
            projects[sel[order[k] as int]].activity,
        )
    }
}

/// A report as its totals and its offenders' names, sizes and activity.
pub open spec fn report_view(r: AnalyticsReport) -> (u64, u64, Seq<(Seq<char>, u64, u64, ActivityTier)>) {
    (r.total_usage, r.total_artifacts, r.offenders@.map_values(|o: ProjectAnalytics| offender_view(o)))
}

/// Generates the analytics report of the projects that pass the query and
/// tag filters; `stats[i]` is the disk usage of `projects[i]` (only those of
/// selected projects are read).
pub fn generate_analytics_report(
    projects: &Vec<ProjectDetail>,
    stats: &Vec<ProjectStats>,
    query: Option<&str>,
    tag: Option<&str>,
) -> (r: AnalyticsReport)
    requires
        stats.len() == projects.len(),
        ({
            let sel = selection(projects@, query, tag, projects@.len() as int);
            &&& selected_sum(stats@, sel, false, sel.len() as int) <= u64::MAX
            &&& selected_sum(stats@, sel, true, sel.len() as int) <= u64::MAX
        }),
    ensures
        is_report(projects@, stats@, query, tag, r),
        query is None && tag is None ==> r.offenders@.len() == projects@.len(),
{
    let ghost sel = selection(projects@, query, tag, projects@.len() as int);
    let mut picked: Vec<usize> = Vec::new();
    let mut keys: Vec<u64> = Vec::new();
    let mut total_usage: u64 = 0;
    let mut total_artifacts: u64 = 0;
    let mut i: usize = 0;
    proof {
        lemma_selection_bounds(projects@, query, tag, projects@.len() as int);
    }
    while i < projects.len()
        invariant
            i <= projects.len() == stats.len(),
            sel == selection(projects@, query, tag, projects@.len() as int),
            selected_sum(stats@, sel, false, sel.len() as int) <= u64::MAX,
            selected_sum(stats@, sel, true, sel.len() as int) <= u64::MAX,
            picked@.len() == keys@.len(),
            picked@.len() == selection(projects@, query, tag, i as int).len(),
            forall|k: int| 0 <= k < picked@.len() ==> #[trigger] picked@[k] as int == selection(projects@, query, tag, i as int)[k],
            forall|k: int| 0 <= k < keys@.len() ==> #[trigger] keys@[k] == stats@[picked@[k] as int].total_bytes,
            total_usage == selected_sum(stats@, selection(projects@, query, tag, i as int), false, picked@.len() as int),
            total_artifacts == selected_sum(stats@, selection(projects@, query, tag, i as int), true, picked@.len() as int),
        decreases projects.len() - i,
    {
        proof {
            lemma_selection_prefix(projects@, query, tag, i as int, projects@.len() as int);
        }
        if matches_filter(&projects[i], query, tag) {
            let ghost s1 = selection(projects@, query, tag, i + 1);
            proof {
                lemma_selection_prefix(projects@, query, tag, i + 1, projects@.len() as int);
                lemma_sum_prefix(stats@, s1, sel, false, s1.len() as int);
                lemma_sum_prefix(stats@, s1, sel, true, s1.len() as int);
                lemma_selection_bounds(projects@, query, tag, i + 1);
                lemma_selected_sum_mono(stats@, sel, false, s1.len() as int, sel.len() as int);
                lemma_selected_sum_mono(stats@, sel, true, s1.len() as int, sel.len() as int);
                lemma_sum_prefix(stats@, selection(projects@, query, tag, i as int), s1, false, picked@.len() as int);
                lemma_sum_prefix(stats@, selection(projects@, query, tag, i as int), s1, true, picked@.len() as int);
            }
            let st = stats[i];
            total_usage = total_usage + st.total_bytes;
            total_artifacts = total_artifacts + st.artifact_bytes;
            picked.push(i);
            keys.push(st.total_bytes);
        }
        i = i + 1;
    }
    let order = desc_order(&keys);
    let mut offenders: Vec<ProjectAnalytics> = Vec::new();
    let mut k: usize = 0;
    assert(keys@ =~= selected_totals(stats@, sel));
    while k < order.len()
        invariant
            k <= order@.len(),
            is_desc_order(keys@, order@),
            picked@.len() == keys@.len() == sel.len(),
            forall|j: int| 0 <= j < picked@.len() ==> #[trigger] picked@[j] as int == sel[j],
            forall|j: int| 0 <= j < picked@.len() ==> #[trigger] picked@[j] < projects@.len(),
            stats@.len() == projects@.len(),
            offenders@.len() == k,
            forall|j: int| 0 <= j < k ==> offender_view(#[trigger] offenders@[j]) == (
                projects@[sel[order@[j] as int]].name@,
                stats@[sel[order@[j] as int]].total_bytes,
                stats@[sel[order@[j] as int]].artifact_bytes,
                projects@[sel[order@[j] as int]].activity,
            ),
        decreases order@.len() - k,
    {
        let idx = picked[order[k]];
        let p = &projects[idx];
        let st = stats[idx];
        offenders.push(ProjectAnalytics {
            name: p.name.clone(),
            total_size: st.total_bytes,
            artifact_size: st.artifact_bytes,
            activity: p.activity,
        });
        k = k + 1;
    }
    proof {
        if query is None && tag is None {
            lemma_no_filter_selects_all(projects@, projects@.len() as int);
        }
    }
    AnalyticsReport { total_usage, total_artifacts, offenders }
}

/// The analytics report when the sums of the selected projects' total and
/// artifact bytes fit in a `u64`; `None` when either does not.
pub fn checked_analytics_report(
    projects: &Vec<ProjectDetail>,
    stats: &Vec<ProjectStats>,
    query: Option<&str>,
    tag: Option<&str>,
) -> (r: Option<AnalyticsReport>)
    requires
        stats.len() == projects.len(),
    ensures
        ({
            let sel = selection(projects@, query, tag, projects@.len() as int);
            match r {
                Some(rep) => is_report(projects@, stats@, query, tag, rep),
                None => selected_sum(stats@, sel, false, sel.len() as int) > u64::MAX
                    || selected_sum(stats@, sel, true, sel.len() as int) > u64::MAX,
            }
        }),
{
    let ghost sel = selection(projects@, query, tag, projects@.len() as int);
    let mut total: u64 = 0;
    let mut artifacts: u64 = 0;
    let mut i: usize = 0;
    proof {
        lemma_selection_bounds(projects@, query, tag, projects@.len() as int);
    }
    while i < projects.len()
        invariant
            i <= projects.len() == stats.len(),
            sel == selection(projects@, query, tag, projects@.len() as int),
            total == selected_sum(stats@, selection(projects@, query, tag, i as int), false, selection(projects@, query, tag, i as int).len() as int),
            artifacts == selected_sum(stats@, selection(projects@, query, tag, i as int), true, selection(projects@, query, tag, i as int).len() as int),
        decreases projects.len() - i,
    {
        let ghost s0 = selection(projects@, query, tag, i as int);
        let ghost s1 = selection(projects@, query, tag, i + 1);
        proof {
            lemma_selection_prefix(projects@, query, tag, i + 1, projects@.len() as int);
            lemma_selection_bounds(projects@, query, tag, i + 1);
        }
        if matches_filter(&projects[i], query, tag) {
            proof {
                lemma_sum_prefix(stats@, s0, s1, false, s0.len() as int);
                lemma_sum_prefix(stats@, s0, s1, true, s0.len() as int);
                lemma_sum_prefix(stats@, s1, sel, false, s1.len() as int);
                lemma_sum_prefix(stats@, s1, sel, true, s1.len() as int);
                lemma_selected_sum_mono(stats@, sel, false, s1.len() as int, sel.len() as int);
                lemma_selected_sum_mono(stats@, sel, true, s1.len() as int, sel.len() as int);
            }
            let st = stats[i];
            if total > u64::MAX - st.total_bytes || artifacts > u64::MAX - st.artifact_bytes {
                return None;
            }
            total = total + st.total_bytes;
            artifacts = artifacts + st.artifact_bytes;
        }
        i = i + 1;
    }
    assert(selection(projects@, query, tag, i as int) == sel);
    Some(generate_analytics_report(projects, stats, query, tag))
}

/// The report is determined by the projects, their sizes and the filters:
/// two reports that both meet `is_report` for the same inputs are equal.
pub proof fn lemma_report_unique(
    projects: Seq<ProjectDetail>,
    stats: Seq<ProjectStats>,
    query: Option<&str>,
    tag: Option<&str>,
    r1: AnalyticsReport,
    r2: AnalyticsReport,
)
    requires
        is_report(projects, stats, query, tag, r1),
        is_report(projects, stats, query, tag, r2),
    ensures
        report_view(r1) == report_view(r2),
{
    let sel = selection(projects, query, tag, projects.len() as int);
    let keys = selected_totals(stats, sel);
    let o1 = choose|order: Seq<usize>| {
        &&& is_desc_order(keys, order)
        &&& r1.offenders@.len() == order.len()
        &&& forall|k: int| 0 <= k < order.len() ==> offender_view(#[trigger] r1.offenders@[k]) == (
            projects[sel[order[k] as int]].name@,
            stats[sel[order[k] as int]].total_bytes,
            stats[sel[order[k] as int]].artifact_bytes,
            projects[sel[order[k] as int]].activity,
        )
    };
    let o2 = choose|order: Seq<usize>| {
        &&& is_desc_order(keys, order)
        &&& r2.offenders@.len() == order.len()
        &&& forall|k: int| 0 <= k < order.len() ==> offender_view(#[trigger] r2.offenders@[k]) == (
            projects[sel[order[k] as int]].name@,
            stats[sel[order[k] as int]].total_bytes,
            stats[sel[order[k] as int]].artifact_bytes,
            projects[sel[order[k] as int]].activity,
        )
    };
    lemma_desc_order_unique(keys, o1, o2);
    let v1 = r1.offenders@.map_values(|o: ProjectAnalytics| offender_view(o));
    let v2 = r2.offenders@.map_values(|o: ProjectAnalytics| offender_view(o));
    assert forall|k: int| 0 <= k < v1.len() implies v1[k] == v2[k] by {
        assert(offender_view(r1.offenders@[k]) == offender_view(r2.offenders@[k]));
    }
    assert(v1 =~= v2);
}

/// A tag given with or without its leading `#` selects the same projects,
/// so the two reports are equal.
pub proof fn lemma_tag_hash_optional(
    projects: Seq<ProjectDetail>,
    stats: Seq<ProjectStats>,
    query: Option<&str>,
    bare: &str,
    hashed: &str,
    r1: AnalyticsReport,
    r2: AnalyticsReport,
)
    requires
        !starts_with(bare@, "#"@),
        hashed@ == "#"@ + bare@,
        is_report(projects, stats, query, Some(bare), r1),
        is_report(projects, stats, query, Some(hashed), r2),
    ensures
        report_view(r1) == report_view(r2),
{
    assert(starts_with(hashed@, "#"@)) by {
        reveal_strlit("#");
        assert(hashed@.subrange(0, 1) =~= "#"@);
    }
    assert(tag_target(bare@) == tag_target(hashed@));
    lemma_same_tag_selection(projects, query, bare, hashed, projects.len() as int);
    assert(is_report(projects, stats, query, Some(bare), r2));
    lemma_report_unique(projects, stats, query, Some(bare), r1, r2);
}

proof fn lemma_same_tag_selection(projects: Seq<ProjectDetail>, query: Option<&str>, t1: &str, t2: &str, n: int)
    requires
        tag_target(t1@) == tag_target(t2@),
    ensures
        selection(projects, query, Some(t1), n) == selection(projects, query, Some(t2), n),
    decreases n,
{
    if n > 0 {
        lemma_same_tag_selection(projects, query, t1, t2, n - 1);
    }
}

/// Without a query or a tag every project is in the report.
pub proof fn lemma_no_filter_reports_all(projects: Seq<ProjectDetail>, stats: Seq<ProjectStats>, r: AnalyticsReport)
    requires
        is_report(projects, stats, None, None, r),
    ensures
        r.offenders@.len() == projects.len(),
{
    lemma_no_filter_selects_all(projects, projects.len() as int);
}

proof fn lemma_no_filter_selects_all(projects: Seq<ProjectDetail>, n: int)
    requires
        0 <= n,
    ensures
        selection(projects, None, None, n).len() == n,
    decreases n,
{
    if n > 0 {
        lemma_no_filter_selects_all(projects, n - 1);
    }
}

proof fn lemma_selection_prefix(ps: Seq<ProjectDetail>, query: Option<&str>, tag: Option<&str>, i: int, n: int)
    requires
        0 <= i <= n,
    ensures
        selection(ps, query, tag, i).len() <= selection(ps, query, tag, n).len(),
        forall|k: int| 0 <= k < selection(ps, query, tag, i).len() ==> #[trigger] selection(ps, query, tag, i)[k] == selection(ps, query, tag, n)[k],
    decreases n - i,
{
    if i < n {
        lemma_selection_prefix(ps, query, tag, i, n - 1);
    }
}

proof fn lemma_sum_prefix(stats: Seq<ProjectStats>, a: Seq<int>, b: Seq<int>, artifacts: bool, n: int)
    requires
        0 <= n <= a.len(),
        n <= b.len(),
        forall|k: int| 0 <= k < n ==> #[trigger] a[k] == b[k],
    ensures
        selected_sum(stats, a, artifacts, n) == selected_sum(stats, b, artifacts, n),
    decreases n,
{
    if n > 0 {
        lemma_sum_prefix(stats, a, b, artifacts, n - 1);
    }
}

} // verus!
