//! Project analytics: change velocity, technical debt, health and AI
//! readiness scores, and insights.
use vstd::prelude::*;
use crate::model::{ActivityTier, ProjectDetail, ToadError, VcsStatus};
use crate::text::{
    chars_of, concat, dedup, dedup_words, first_word, first_word_of, has_substring, contains_chars,
    lines, lines_of, lowercase, parse_usize, parsed_usize, split, split_chars, str_eq, strings_of,
    strs, string_of, to_lowercase, views,
};

verus! {

broadcast use vstd::string::group_string_axioms;

/// The number at the start of one comma-separated part of a `--shortstat`
/// line, or 0 when there is none.
pub open spec fn part_count(p: Seq<char>) -> nat {
    match first_word(p) {
        Some(w) => match parsed_usize(w) {
            Some(v) => v as nat,
            None => 0,
        },
        None => 0,
    }
}

/// The part reports insertions (`added`) or, not reporting insertions, deletions.
pub open spec fn part_counts_for(p: Seq<char>, added: bool) -> bool {
    if added {
        has_substring(p, "insertion"@)
    } else {
        !has_substring(p, "insertion"@) && has_substring(p, "deletion"@)
    }
}

/// Sum of the counts of the first `n` parts that report insertions (`added`) or deletions.
pub open spec fn parts_sum(parts: Seq<Seq<char>>, added: bool, n: int) -> nat
    decreases n,
{
    if n <= 0 {
        0
    } else {
        parts_sum(parts, added, n - 1) + if part_counts_for(parts[n - 1], added) {
            part_count(parts[n - 1])
        } else {
            0
        }
    }
}

/// Lines added (`added`) or removed that one line of `git log --shortstat`
/// reports; only lines mentioning insertions are read.
pub open spec fn line_changes(l: Seq<char>, added: bool) -> nat {
    if has_substring(l, "insertion"@) {
        let parts = split(l, ',');
        parts_sum(parts, added, parts.len() as int)
    } else {
        0
    }
}

/// Sum over the first `n` lines.
pub open spec fn total_changes(ls: Seq<Seq<char>>, added: bool, n: int) -> nat
    decreases n,
{
    if n <= 0 {
        0
    } else {
        total_changes(ls, added, n - 1) + line_changes(ls[n - 1], added)
    }
}

/// Lines added (`added`) or removed over the whole output.
pub open spec fn shortstat_total(out: Seq<char>, added: bool) -> nat {
    total_changes(lines(out), added, lines(out).len() as int)
}

proof fn lemma_total_mono(ls: Seq<Seq<char>>, added: bool, i: int, n: int)
    requires
        0 <= i <= n,
    ensures
        total_changes(ls, added, i) <= total_changes(ls, added, n),
    decreases n - i,
{
    if i < n {
        lemma_total_mono(ls, added, i, n - 1);
    }
}

proof fn lemma_parts_mono(parts: Seq<Seq<char>>, added: bool, i: int, n: int)
    requires
        0 <= i <= n,
    ensures
        parts_sum(parts, added, i) <= parts_sum(parts, added, n),
    decreases n - i,
{
    if i < n {
        lemma_parts_mono(parts, added, i, n - 1);
    }
}

/// The count of one part.
fn count_of_part(p: &Vec<char>) -> (r: usize)
    ensures
        r == part_count(p@),
{
    match first_word_of(p) {
        Some(w) => match parse_usize(string_of(&w).as_str()) {
            Some(v) => v,
            None => 0,
        },
        None => 0,
    }
}

/// Lines added and removed by one `--shortstat` line, when each fits.
fn line_totals(l: &Vec<char>) -> (r: Option<(usize, usize)>)
    ensures
        match r {
            Some((a, d)) => a == line_changes(l@, true) && d == line_changes(l@, false),
            None => line_changes(l@, true) > usize::MAX || line_changes(l@, false) > usize::MAX,
        },
{
    let ins = chars_of("insertion");
    let del = chars_of("deletion");
    if !contains_chars(l, &ins) {
        return Some((0, 0));
    }
    let parts = split_chars(l, ',');
    let ghost ps = split(l@, ',');
    let mut a: usize = 0;
    let mut d: usize = 0;
    let mut k: usize = 0;
    while k < parts.len()
        invariant
            k <= parts@.len() == ps.len(),
            forall|j: int| 0 <= j < parts@.len() ==> #[trigger] parts@[j]@ == ps[j],
            ins@ == "insertion"@,
            del@ == "deletion"@,
            has_substring(l@, "insertion"@),
            ps == split(l@, ','),
            a == parts_sum(ps, true, k as int),
            d == parts_sum(ps, false, k as int),
        decreases parts.len() - k,
    {
        let p = &parts[k];
        assert(p@ == ps[k as int]);
        if contains_chars(p, &ins) {
            let c = count_of_part(p);
            if a > usize::MAX - c {
                proof {
                    lemma_parts_mono(ps, true, k + 1, ps.len() as int);
                }
                return None;
            }
            a = a + c;
        } else if contains_chars(p, &del) {
            let c = count_of_part(p);
            if d > usize::MAX - c {
                proof {
                    lemma_parts_mono(ps, false, k + 1, ps.len() as int);
                }
                return None;
            }
            d = d + c;
        }
        k = k + 1;
    }
    Some((a, d))
}

/// Lines added and removed over the output of `git log --shortstat`, or
/// `None` when either total exceeds `usize::MAX`.
pub fn shortstat_totals(out: &str) -> (r: Option<(usize, usize)>)
    ensures
        match r {
            Some((a, d)) => a == shortstat_total(out@, true) && d == shortstat_total(out@, false),
            None => shortstat_total(out@, true) > usize::MAX || shortstat_total(out@, false) > usize::MAX,
        },
{
    let text = chars_of(out);
    let ls = lines_of(&text);
    let ghost lv = lines(out@);
    let mut a: usize = 0;
    let mut d: usize = 0;
    let mut i: usize = 0;
    while i < ls.len()
        invariant
            i <= ls@.len() == lv.len(),
            lv == lines(out@),
            forall|k: int| 0 <= k < ls@.len() ==> #[trigger] ls@[k]@ == lv[k],
            a == total_changes(lv, true, i as int),
            d == total_changes(lv, false, i as int),
        decreases ls.len() - i,
    {
        assert(ls@[i as int]@ == lv[i as int]);
        match line_totals(&ls[i]) {
            None => {
                proof {
                    lemma_total_mono(lv, true, i + 1, lv.len() as int);
                    lemma_total_mono(lv, false, i + 1, lv.len() as int);
                }
                return None;
            },
            Some((x, y)) => {
                if a > usize::MAX - x || d > usize::MAX - y {
                    proof {
                        lemma_total_mono(lv, true, i + 1, lv.len() as int);
                        lemma_total_mono(lv, false, i + 1, lv.len() as int);
                    }
                    return None;
                }
                a = a + x;
                d = d + y;
            },
        }
        i = i + 1;
    }
    Some((a, d))
}

proof fn lemma_total_changes_append(l1: Seq<Seq<char>>, l2: Seq<Seq<char>>, added: bool, n: int)
    requires
        0 <= n <= l2.len(),
    ensures
        total_changes(l1 + l2, added, l1.len() + n) == total_changes(l1, added, l1.len() as int) + total_changes(l2, added, n),
    decreases n,
{
    if n == 0 {
        lemma_total_changes_prefix(l1, l1 + l2, added, l1.len() as int);
    } else {
        lemma_total_changes_append(l1, l2, added, n - 1);
        assert((l1 + l2)[l1.len() + n - 1] == l2[n - 1]);
    }
}

proof fn lemma_total_changes_prefix(l1: Seq<Seq<char>>, l: Seq<Seq<char>>, added: bool, n: int)
    requires
        0 <= n <= l1.len(),
        n <= l.len(),
        forall|i: int| 0 <= i < n ==> #[trigger] l[i] == l1[i],
    ensures
        total_changes(l, added, n) == total_changes(l1, added, n),
    decreases n,
{
    if n > 0 {
        lemma_total_changes_prefix(l1, l, added, n - 1);
    }
}

/// Line counts add up over commits: the lines added (or removed) that the
/// `--shortstat` output of two runs of commits reports, one after the other,
/// are the sum of what each reports.
pub proof fn lemma_shortstat_additive(a: Seq<char>, b: Seq<char>)
    requires
        a.len() == 0 || a.last() == '\n',
    ensures
        shortstat_total(a + b, true) == shortstat_total(a, true) + shortstat_total(b, true),
        shortstat_total(a + b, false) == shortstat_total(a, false) + shortstat_total(b, false),
{
    crate::text::lemma_lines_append(a, b);
    lemma_total_changes_append(lines(a), lines(b), true, lines(b).len() as int);
    lemma_total_changes_append(lines(a), lines(b), false, lines(b).len() as int);
}

/// Commit activity of a repository over a period.
#[derive(Clone, Debug)]
pub struct VelocityMetrics {
    pub commit_count: usize,
    pub lines_added: usize,
    pub lines_removed: usize,
    /// Each author once, in order of first appearance in the log.
    pub active_contributors: Vec<String>,
    pub trend: String,
}

/// Computes velocity from the output of `git log --pretty=format:%an` (one
/// author per commit) and of `git log --shortstat` over the same period;
/// `None` when the added or removed line totals exceed `usize::MAX`.
pub fn velocity_from_log(authors_out: &str, shortstat_out: &str) -> (r: Option<VelocityMetrics>)
    ensures
        match r {
            Some(v) => {
                &&& v.commit_count == lines(authors_out@).len()
                &&& strs(v.active_contributors@) == dedup(lines(authors_out@))
                &&& v.lines_added == shortstat_total(shortstat_out@, true)
                &&& v.lines_removed == shortstat_total(shortstat_out@, false)
                &&& v.trend@ == "Stable"@
            },
            None => shortstat_total(shortstat_out@, true) > usize::MAX
                || shortstat_total(shortstat_out@, false) > usize::MAX,
        },
{
    let text = chars_of(authors_out);
    let ls = lines_of(&text);
    assert(views(ls@) =~= lines(authors_out@));
    let authors = dedup_words(&ls);
    let commit_count = ls.len();
    match shortstat_totals(shortstat_out) {
        None => None,
        Some((a, d)) => Some(VelocityMetrics {
            commit_count,
            lines_added: a,
            lines_removed: d,
            active_contributors: strings_of(&authors),
            trend: String::from_str("Stable"),
        }),
    }
}


/// Extensions of files that the debt scan passes over (binaries, media, lock files).
pub open spec fn noise_extension(lower: Seq<char>) -> bool {
    lower == "png"@ || lower == "jpg"@ || lower == "jpeg"@ || lower == "gif"@ || lower == "mov"@
        || lower == "mp4"@ || lower == "lock"@ || lower == "sum"@ || lower == "bin"@ || lower == "exe"@
        || lower == "wasm"@ || lower == "pdf"@
}

/// Whether a file with this extension is passed over by the debt scan.
pub fn is_noise_extension(ext: &str) -> (r: bool)
    ensures
        r == noise_extension(lowercase(ext@)),
{
    let l = to_lowercase(ext);
    let e = l.as_str();
    str_eq(e, "png") || str_eq(e, "jpg") || str_eq(e, "jpeg") || str_eq(e, "gif") || str_eq(e, "mov")
        || str_eq(e, "mp4") || str_eq(e, "lock") || str_eq(e, "sum") || str_eq(e, "bin") || str_eq(e, "exe")
        || str_eq(e, "wasm") || str_eq(e, "pdf")
}

/// Number of non-overlapping occurrences of `needle` in `hay`, taken from
/// the left as `str::matches` finds them.
pub open spec fn count_matches(hay: Seq<char>, needle: Seq<char>) -> nat
    decreases hay.len(),
{
    if needle.len() == 0 || hay.len() < needle.len() {
        0
    } else if hay.take(needle.len() as int) == needle {
        1 + count_matches(hay.skip(needle.len() as int), needle)
    } else {
        count_matches(hay.drop_first(), needle)
    }
}

/// Counts the non-overlapping occurrences of a nonempty `needle` in `hay`.
pub fn count_occurrences(hay: &Vec<char>, needle: &Vec<char>) -> (r: usize)
    requires
        needle.len() > 0,
    ensures
        r == count_matches(hay@, needle@),
{
    let n = hay.len();
    let m = needle.len();
    let mut j: usize = 0;
    let mut c: usize = 0;
    assert(hay@.skip(0) =~= hay@);
    while m <= n - j
        invariant
            j <= n == hay.len(),
            m == needle.len() > 0,
            c <= j,
            c + count_matches(hay@.skip(j as int), needle@) == count_matches(hay@, needle@),
        decreases n - j,
    {
        let ghost rest = hay@.skip(j as int);
        let hit = crate::text::occurs_at_exec(hay, needle, j);
        if hit {
            assert(rest.take(m as int) =~= hay@.subrange(j as int, j + m));
            assert(rest.skip(m as int) =~= hay@.skip(j + m));
            c = c + 1;
            j = j + m;
        } else {
            assert(rest.take(m as int) =~= hay@.subrange(j as int, j + m));
            assert(rest.drop_first() =~= hay@.skip(j + 1));
            j = j + 1;
        }
    }
    assert(hay@.skip(j as int).len() < m);
    c
}

/// What the debt scan finds in one file's text.
#[derive(Clone, Copy, Debug)]
pub struct FileDebt {
    pub todo: usize,
    pub fixme: usize,
    pub hack: usize,
    /// The file has more than 700 lines.
    pub large: bool,
}

/// Scans the text of one file: occurrences of `todo`, `fixme` and `hack`
/// in its lowercase form, and whether it has more than 700 lines.
pub fn scan_debt(content: &str) -> (r: FileDebt)
    ensures
        r.todo == count_matches(lowercase(content@), "todo"@),
        r.fixme == count_matches(lowercase(content@), "fixme"@),
        r.hack == count_matches(lowercase(content@), "hack"@),
        r.large == (lines(content@).len() > 700),
{
    let lower = chars_of(to_lowercase(content).as_str());
    let todo = chars_of("todo");
    let fixme = chars_of("fixme");
    let hack = chars_of("hack");
    proof {
        reveal_strlit("todo");
        reveal_strlit("fixme");
        reveal_strlit("hack");
    }
    let text = chars_of(content);
    let ls = lines_of(&text);
    FileDebt {
        todo: count_occurrences(&lower, &todo),
        fixme: count_occurrences(&lower, &fixme),
        hack: count_occurrences(&lower, &hack),
        large: ls.len() > 700,
    }
}

/// Debt found over a project's files.
#[derive(Clone, Debug)]
pub struct DebtTally {
    pub todo_count: usize,
    pub fixme_count: usize,
    pub hack_count: usize,
    /// The large files, in scan order.
    pub large_files: Vec<String>,
}

/// Sum of one counter over the first `n` files (0 todo, 1 fixme, 2 hack).
pub open spec fn debt_sum(files: Seq<(String, FileDebt)>, which: int, n: int) -> nat
    decreases n,
{
    if n <= 0 {
        0
    } else {
        let f = files[n - 1].1;
        debt_sum(files, which, n - 1) + if which == 0 {
            f.todo as nat
        } else if which == 1 {
            f.fixme as nat
        } else {
            f.hack as nat
        }
    }
}

/// The paths of the large files among the first `n`, in order.
pub open spec fn large_paths(files: Seq<(String, FileDebt)>, n: int) -> Seq<Seq<char>>
    decreases n,
{
    if n <= 0 {
        seq![]
    } else if files[n - 1].1.large {
        large_paths(files, n - 1).push(files[n - 1].0@)
    } else {
        large_paths(files, n - 1)
    }
}

proof fn lemma_debt_mono(files: Seq<(String, FileDebt)>, which: int, i: int, n: int)
    requires
        0 <= i <= n,
    ensures
        debt_sum(files, which, i) <= debt_sum(files, which, n),
    decreases n - i,
{
    if i < n {
        lemma_debt_mono(files, which, i, n - 1);
    }
}

/// Totals the debt of the scanned files (path and findings, in scan order);
/// `None` when a total exceeds `usize::MAX`.
pub fn tally_debt(files: &Vec<(String, FileDebt)>) -> (r: Option<DebtTally>)
    ensures
        match r {
            Some(t) => {
                &&& t.todo_count == debt_sum(files@, 0, files@.len() as int)
                &&& t.fixme_count == debt_sum(files@, 1, files@.len() as int)
                &&& t.hack_count == debt_sum(files@, 2, files@.len() as int)
                &&& strs(t.large_files@) == large_paths(files@, files@.len() as int)
            },
            None => debt_sum(files@, 0, files@.len() as int) > usize::MAX
                || debt_sum(files@, 1, files@.len() as int) > usize::MAX
                || debt_sum(files@, 2, files@.len() as int) > usize::MAX,
        },
{
    let mut todo: usize = 0;
    let mut fixme: usize = 0;
    let mut hack: usize = 0;
    let mut large: Vec<String> = Vec::new();
    let mut i: usize = 0;
    while i < files.len()
        invariant
            i <= files.len(),
            todo == debt_sum(files@, 0, i as int),
            fixme == debt_sum(files@, 1, i as int),
            hack == debt_sum(files@, 2, i as int),
            strs(large@) == large_paths(files@, i as int),
        decreases files.len() - i,
    {
        let (path, f) = &files[i];
        if todo > usize::MAX - f.todo || fixme > usize::MAX - f.fixme || hack > usize::MAX - f.hack {
            proof {
                lemma_debt_mono(files@, 0, i + 1, files@.len() as int);
                lemma_debt_mono(files@, 1, i + 1, files@.len() as int);
                lemma_debt_mono(files@, 2, i + 1, files@.len() as int);
            }
            return None;
        }
        todo = todo + f.todo;
        fixme = fixme + f.fixme;
        hack = hack + f.hack;
        if f.large {
            let ghost prev = large@;
            large.push(path.clone());
            assert(strs(large@) =~= strs(prev).push(path@));
        }
        i = i + 1;
    }
    Some(DebtTally { todo_count: todo, fixme_count: fixme, hack_count: hack, large_files: large })
}


proof fn lemma_debt_prefix(f: Seq<(String, FileDebt)>, h: Seq<(String, FileDebt)>, w: int, n: int)
    requires
        0 <= n <= f.len(),
        n <= h.len(),
        forall|i: int| 0 <= i < n ==> #[trigger] h[i] == f[i],
    ensures
        large_paths(h, n) == large_paths(f, n),
        debt_sum(h, w, n) == debt_sum(f, w, n),
    decreases n,
{
    if n > 0 {
        lemma_debt_prefix(f, h, w, n - 1);
    }
}

proof fn lemma_debt_append(f: Seq<(String, FileDebt)>, g: Seq<(String, FileDebt)>, w: int, n: int)
    requires
        0 <= n <= g.len(),
    ensures
        large_paths(f + g, f.len() + n) == large_paths(f, f.len() as int) + large_paths(g, n),
        debt_sum(f + g, w, f.len() + n) == debt_sum(f, w, f.len() as int) + debt_sum(g, w, n),
    decreases n,
{
    if n == 0 {
        lemma_debt_prefix(f, f + g, w, f.len() as int);
        assert(large_paths(f, f.len() as int) + large_paths(g, 0) =~= large_paths(f, f.len() as int));
    } else {
        lemma_debt_append(f, g, w, n - 1);
        assert((f + g)[f.len() + n - 1] == g[n - 1]);
        if g[n - 1].1.large {
            assert(large_paths(f + g, f.len() + n) =~= large_paths(f, f.len() as int) + large_paths(g, n));
        }
    }
}

/// The debt of files scanned in two batches, one after the other, is the
/// debt of each batch added up, and the large files are those of the first
/// batch followed by those of the second; a single file contributes its own
/// counts and, when it is large, its path.
pub proof fn lemma_debt_additive(f: Seq<(String, FileDebt)>, g: Seq<(String, FileDebt)>, one: (String, FileDebt))
    ensures
        large_paths(f + g, (f + g).len() as int) == large_paths(f, f.len() as int) + large_paths(g, g.len() as int),
        debt_sum(f + g, 0, (f + g).len() as int) == debt_sum(f, 0, f.len() as int) + debt_sum(g, 0, g.len() as int),
        debt_sum(f + g, 1, (f + g).len() as int) == debt_sum(f, 1, f.len() as int) + debt_sum(g, 1, g.len() as int),
        debt_sum(f + g, 2, (f + g).len() as int) == debt_sum(f, 2, f.len() as int) + debt_sum(g, 2, g.len() as int),
        large_paths(seq![one], 1) == if one.1.large { seq![one.0@] } else { Seq::<Seq<char>>::empty() },
        debt_sum(seq![one], 0, 1) == one.1.todo,
        debt_sum(seq![one], 1, 1) == one.1.fixme,
        debt_sum(seq![one], 2, 1) == one.1.hack,
{
    lemma_debt_append(f, g, 0, g.len() as int);
    lemma_debt_append(f, g, 1, g.len() as int);
    lemma_debt_append(f, g, 2, g.len() as int);
    let s1 = seq![one];
    assert(s1[0] == one);
    assert(large_paths(s1, 0) =~= Seq::<Seq<char>>::empty());
    assert(debt_sum(s1, 0, 0) == 0);
    assert(debt_sum(s1, 1, 0) == 0);
    assert(debt_sum(s1, 2, 0) == 0);
    assert(large_paths(s1, 1) =~= if one.1.large { seq![one.0@] } else { Seq::<Seq<char>>::empty() });
}

/// A project's health score and its parts.
#[derive(Clone, Copy, Debug)]
pub struct HealthScore {
    pub total: u32,
    pub vcs_cleanliness: u32,
    pub test_coverage: u32,
    pub documentation: u32,
    pub activity: u32,
    pub dependencies: u32,
    pub code_quality: u32,
    pub ai_readiness: u32,
}

/// Scores a project's health. `bloat_index_above_half` tells whether the
/// project's bloat index exceeds 0.5.
pub fn calculate_health_score(p: &ProjectDetail, bloat_index_above_half: bool) -> (r: Result<HealthScore, ToadError>)
    ensures
        r matches Ok(h) && {
            &&& h.vcs_cleanliness == if p.vcs_status == VcsStatus::Clean { 20u32 } else { 10u32 }
            &&& h.activity == if p.activity == ActivityTier::Active { 15u32 } else { 5u32 }
            &&& h.documentation == if p.essence is Some { 15u32 } else { 0u32 }
            &&& h.code_quality == if p.total_size > 0 && bloat_index_above_half { 10u32 } else { 15u32 }
            &&& h.total == h.vcs_cleanliness + h.activity + h.documentation + h.code_quality
            &&& h.test_coverage == 0
            &&& h.dependencies == 10
            &&& h.ai_readiness == 80
        },
{
    let vcs_score: u32 = if p.vcs_status == VcsStatus::Clean { 20 } else { 10 };
    let activity_score: u32 = if p.activity == ActivityTier::Active { 15 } else { 5 };
    let doc_score: u32 = if p.essence.is_some() { 15 } else { 0 };
    let mut quality_score: u32 = 15;
    if p.total_size > 0 && bloat_index_above_half {
        quality_score = quality_score - 5;
    }
    let total = vcs_score + activity_score + doc_score + quality_score;
    Ok(HealthScore {
        total,
        vcs_cleanliness: vcs_score,
        test_coverage: 0,
        documentation: doc_score,
        activity: activity_score,
        dependencies: 10,
        code_quality: quality_score,
        ai_readiness: 80,
    })
}

/// How ready a project is for AI assistance.
#[derive(Clone, Debug)]
pub struct AiReadiness {
    pub score: u32,
    /// The factors that raised the score, with how much each added.
    pub factors: Vec<(String, u32)>,
    pub recommendations: Vec<String>,
}

/// Assesses a project's AI readiness: a base of 70, with 10 more for a
/// documented purpose and 10 more for clear architectural roles.
pub fn analyze_ai_readiness(p: &ProjectDetail) -> (r: Result<AiReadiness, ToadError>)
    ensures
        r matches Ok(a) && {
            let doc = p.essence is Some;
            let roles = p.dna.roles@.len() > 0;
            &&& a.score == 70 + (if doc { 10u32 } else { 0u32 }) + (if roles { 10u32 } else { 0u32 })
            &&& a.factors@.len() == (if doc { 1int } else { 0int }) + (if roles { 1int } else { 0int })
            &&& doc ==> a.factors@[0].0@ == "Documentation"@ && a.factors@[0].1 == 10
            &&& roles ==> a.factors@.last().0@ == "Clear Roles"@ && a.factors@.last().1 == 10
            &&& strs(a.recommendations@) == (if doc { seq![] } else { seq!["Add a README.md with clear project purpose."@] })
                + (if roles { seq![] } else { seq!["Structure directories to reflect clear architectural roles (e.g. models, api, services)."@] })
        },
{
    let mut score: u32 = 70;
    let mut factors: Vec<(String, u32)> = Vec::new();
    let mut recommendations: Vec<String> = Vec::new();
    if p.essence.is_some() {
        score = score + 10;
        factors.push((String::from_str("Documentation"), 10));
    } else {
        recommendations.push(String::from_str("Add a README.md with clear project purpose."));
    }
    if p.dna.roles.len() > 0 {
        score = score + 10;
        factors.push((String::from_str("Clear Roles"), 10));
    } else {
        recommendations.push(
            String::from_str(
                "Structure directories to reflect clear architectural roles (e.g. models, api, services).",
            ),
        );
    }
    assert(strs(recommendations@) =~= (if p.essence is Some { seq![] } else { seq!["Add a README.md with clear project purpose."@] })
        + (if p.dna.roles@.len() > 0 { seq![] } else { seq!["Structure directories to reflect clear architectural roles (e.g. models, api, services)."@] }));
    Ok(AiReadiness { score, factors, recommendations })
}

/// An observation about a project and what to do about it.
#[derive(Clone, Debug)]
pub struct ProjectInsight {
    pub title: String,
    pub description: String,
    pub severity: String,
    pub action_item: String,
}

/// An insight as its four texts.
pub open spec fn insight_text(i: ProjectInsight) -> (Seq<char>, Seq<char>, Seq<char>, Seq<char>) {
    (i.title@, i.description@, i.severity@, i.action_item@)
}

/// The insights for the first `n` projects: for each, a dirty working tree,
/// then a footprint over 1 GB, in project order.
pub open spec fn insights_upto(ps: Seq<ProjectDetail>, n: int) -> Seq<(Seq<char>, Seq<char>, Seq<char>, Seq<char>)>
    decreases n,
{
    if n <= 0 {
        seq![]
    } else {
        let p = ps[n - 1];
        let a = insights_upto(ps, n - 1);
        let b = if p.vcs_status == VcsStatus::Dirty {
            a.push(("Dirty VCS in "@ + p.name@, "Uncommitted changes can lead to context drift."@, "Medium"@, "Commit or stash changes."@))
        } else {
            a
        };
        if p.total_size > 1_000_000_000 {
            b.push(("Large Storage Footprint: "@ + p.name@, "Project exceeds 1GB, check for build artifacts or logs."@, "Low"@, "Run 'toad clean' on this project."@))
        } else {
            b
        }
    }
}

/// Insights across projects: dirty working trees and large footprints.
pub fn generate_insights(projects: &Vec<ProjectDetail>) -> (r: Result<Vec<ProjectInsight>, ToadError>)
    ensures
        r matches Ok(v) && v@.map_values(|i: ProjectInsight| insight_text(i)) == insights_upto(projects@, projects@.len() as int),
{
    let mut insights: Vec<ProjectInsight> = Vec::new();
    let mut i: usize = 0;
    while i < projects.len()
        invariant
            i <= projects.len(),
            insights@.map_values(|x: ProjectInsight| insight_text(x)) == insights_upto(projects@, i as int),
        decreases projects.len() - i,
    {
        let p = &projects[i];
        let ghost before = insights@.map_values(|x: ProjectInsight| insight_text(x));
        if p.vcs_status == VcsStatus::Dirty {
            insights.push(ProjectInsight {
                title: concat("Dirty VCS in ", p.name.as_str()),
                description: String::from_str("Uncommitted changes can lead to context drift."),
                severity: String::from_str("Medium"),
                action_item: String::from_str("Commit or stash changes."),
            });
        }
        let ghost mid = insights@.map_values(|x: ProjectInsight| insight_text(x));
        assert(mid =~= if p.vcs_status == VcsStatus::Dirty {
            before.push(("Dirty VCS in "@ + p.name@, "Uncommitted changes can lead to context drift."@, "Medium"@, "Commit or stash changes."@))
        } else {
            before
        });
        if p.total_size > 1_000_000_000 {
            insights.push(ProjectInsight {
                title: concat("Large Storage Footprint: ", p.name.as_str()),
                description: String::from_str("Project exceeds 1GB, check for build artifacts or logs."),
                severity: String::from_str("Low"),
                action_item: String::from_str("Run 'toad clean' on this project."),
            });
        }
        assert(insights@.map_values(|x: ProjectInsight| insight_text(x)) =~= insights_upto(projects@, i + 1));
        i = i + 1;
    }
    Ok(insights)
}


/// The active contributors are the commit authors, each listed once.
pub proof fn lemma_contributors_are_authors(authors_out: Seq<char>)
    ensures
        dedup(lines(authors_out)).no_duplicates(),
        forall|a: Seq<char>| dedup(lines(authors_out)).contains(a) <==> lines(authors_out).contains(a),
{
    crate::text::lemma_dedup_props(lines(authors_out));
}

} // verus!
