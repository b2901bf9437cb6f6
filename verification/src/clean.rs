//! Cleaning build artifacts out of projects: which directories may be
//! removed, the step-by-step cleaning of one project, and the tally of a
//! batch.
use vstd::prelude::*;
use crate::model::ToadError;
use crate::text::{chars_of, concat, lowercase, str_eq, strs, to_lowercase};

verus! {

broadcast use vstd::string::group_string_axioms;

/// Paths that cleaning never removes, whatever the project lists as artifacts.
pub const RESERVED_PATHS: [&'static str; 18] = [
    ".git",
    ".gitignore",
    ".github",
    "src",
    "lib",
    "bin",
    "main.rs",
    "README.md",
    "README.markdown",
    "readme.md",
    "LICENSE",
    "Cargo.toml",
    "package.json",
    "go.mod",
    "pyproject.toml",
    "requirements.txt",
    "Justfile",
    "Makefile",
];


/// An artifact directory name is reserved when its lowercase form is that
/// of one of the reserved paths.
pub open spec fn reserved(artifact: Seq<char>) -> bool {
    exists|k: int| 0 <= k < 18 && lowercase(#[trigger] RESERVED_PATHS@[k]@) == lowercase(artifact)
}

/// Whether cleaning must leave this artifact directory alone.
pub fn is_reserved_path(artifact: &str) -> (r: bool)
    ensures
        r == reserved(artifact@),
{
    let artifact_lower = to_lowercase(artifact);
    let mut k: usize = 0;
    while k < 18
        invariant
            k <= 18,
            artifact_lower@ == lowercase(artifact@),
            forall|j: int| 0 <= j < k ==> lowercase(#[trigger] RESERVED_PATHS@[j]@) != lowercase(artifact@),
        decreases 18 - k,
    {
        let p = RESERVED_PATHS[k];
        let pl = to_lowercase(p);
        if str_eq(pl.as_str(), artifact_lower.as_str()) {
            return true;
        }
        k = k + 1;
    }
    false
}

/// A plain name of an entry directly inside the project: not empty, not
/// `.` or `..`, and without a path separator (`/` or `\\`).
pub open spec fn plain_child(artifact: Seq<char>) -> bool {
    &&& artifact.len() > 0
    &&& artifact != seq!['.']
    &&& artifact != seq!['.', '.']
    &&& forall|i: int| 0 <= i < artifact.len() ==> #[trigger] artifact[i] != '/' && artifact[i] != '\\'
}

/// Cleaning must leave this artifact name alone: it is not a plain child
/// name of the project, or it is reserved.
pub open spec fn protected(artifact: Seq<char>) -> bool {
    !plain_child(artifact) || reserved(artifact)
}

/// Cleaning leaves an artifact name alone exactly when it is empty, `.` or
/// `..`, holds a `/` or `\\`, or is reserved: every other name, a hidden
/// directory such as `.next` among them, is cleaned.
pub proof fn lemma_protected_names(artifact: Seq<char>)
    ensures
        protected(artifact) <==> (artifact.len() == 0 || artifact == seq!['.'] || artifact == seq!['.', '.']
            || (exists|i: int| 0 <= i < artifact.len() && (#[trigger] artifact[i] == '/' || artifact[i] == '\\'))
            || reserved(artifact)),
{
}

/// Whether the artifact name is a plain name of an entry directly inside
/// the project.
pub fn is_plain_child_name(artifact: &str) -> (r: bool)
    ensures
        r == plain_child(artifact@),
{
    let v = chars_of(artifact);
    if v.len() == 0 {
        return false;
    }
    if v.len() == 1 && v[0] == '.' {
        assert(artifact@ =~= seq!['.']);
        return false;
    }
    if v.len() == 2 && v[0] == '.' && v[1] == '.' {
        assert(artifact@ =~= seq!['.', '.']);
        return false;
    }
    let mut i: usize = 0;
    while i < v.len()
        invariant
            v@ == artifact@,
            i <= v.len(),
            forall|j: int| 0 <= j < i ==> #[trigger] v@[j] != '/' && v@[j] != '\\',
        decreases v.len() - i,
    {
        if v[i] == '/' || v[i] == '\\' {
            return false;
        }
        i = i + 1;
    }
    proof {
        if artifact@ == seq!['.'] {
            assert(v@.len() == 1 && v@[0] == '.');
        }
        if artifact@ == seq!['.', '.'] {
            assert(v@.len() == 2 && v@[0] == '.' && v@[1] == '.');
        }
    }
    true
}

/// Whether cleaning must leave this artifact name alone.
pub fn is_protected_path(artifact: &str) -> (r: bool)
    ensures
        r == protected(artifact@),
{
    !is_plain_child_name(artifact) || is_reserved_path(artifact)
}

/// The error recorded for an artifact name that cleaning leaves alone.
pub open spec fn skip_message(artifact: Seq<char>) -> Seq<char> {
    if plain_child(artifact) {
        "Skipping reserved path: "@ + artifact
    } else {
        "Skipping path outside the project: "@ + artifact
    }
}

fn skip_note(artifact: &str) -> (r: String)
    ensures
        r@ == skip_message(artifact@),
{
    if is_plain_child_name(artifact) {
        concat("Skipping reserved path: ", artifact)
    } else {
        concat("Skipping path outside the project: ", artifact)
    }
}

/// What cleaning one project achieved.
#[derive(Clone, Debug)]
pub struct CleanResult {
    pub bytes_reclaimed: u64,
    /// Artifact directories removed (or, in a dry run, that would be).
    pub files_removed: usize,
    pub errors: Vec<String>,
}

/// Where the cleaning of one project stands.
#[derive(Clone, Copy, Debug, PartialEq, Eq, Structural)]
pub enum CleanPhase {
    /// Nothing has been looked at yet.
    Start,
    /// Waiting to learn whether the current artifact directory exists, and its size.
    Probing,
    /// Waiting for the removal of the current directory, of this size.
    Removing(u64),
    /// Every artifact directory has been handled.
    Finished,
}

/// The state of the cleaning of one project.
#[derive(Clone, Debug)]
pub struct CleanRun {
    pub result: CleanResult,
    /// The artifact directory being handled.
    pub next: usize,
    pub phase: CleanPhase,
}

/// What the caller observed after the last command.
#[derive(Debug)]
pub enum CleanEvent {
    /// The cleaning starts.
    Begin,
    /// The directory does not exist (`None`), or exists with this total size.
    Probed(Option<u64>),
    /// The removal of the directory succeeded, or failed for the given reason.
    Removed(Result<(), String>),
}

/// What the caller must do next.
#[derive(Clone, Copy, Debug, PartialEq, Eq, Structural)]
pub enum CleanCommand {
    /// Find out whether artifact directory `i` exists under the project, and its size.
    Probe(usize),
    /// Remove artifact directory `i` with all its contents.
    Remove(usize),
    /// Cleaning is over; the run's result is final.
    Done,
}

/// A fresh cleaning run.
pub fn new_clean_run() -> (r: CleanRun)
    ensures
        r.result.bytes_reclaimed == 0,
        r.result.files_removed == 0,
        r.result.errors@.len() == 0,
        r.next == 0,
        r.phase == CleanPhase::Start,
{
    CleanRun {
        result: CleanResult { bytes_reclaimed: 0, files_removed: 0, errors: Vec::new() },
        next: 0,
        phase: CleanPhase::Start,
    }
}

/// The first artifact at or after `j` that is not reserved, or the count of artifacts.
pub open spec fn first_unreserved(artifacts: Seq<String>, j: int) -> int
    decreases artifacts.len() - j,
{
    if j >= artifacts.len() || j < 0 {
        artifacts.len() as int
    } else if protected(artifacts[j]@) {
        first_unreserved(artifacts, j + 1)
    } else {
        j
    }
}

/// The messages for the reserved artifacts from `j` up to `k`.
pub open spec fn reserved_messages(artifacts: Seq<String>, j: int, k: int) -> Seq<Seq<char>>
    decreases k - j,
{
    if j >= k {
        seq![]
    } else {
        seq![skip_message(artifacts[j]@)] + reserved_messages(artifacts, j + 1, k)
    }
}

proof fn lemma_first_unreserved(artifacts: Seq<String>, j: int)
    requires
        0 <= j <= artifacts.len(),
    ensures
        j <= first_unreserved(artifacts, j) <= artifacts.len(),
        first_unreserved(artifacts, j) < artifacts.len() ==> !protected(artifacts[first_unreserved(artifacts, j)]@),
        forall|i: int| j <= i < first_unreserved(artifacts, j) ==> protected(#[trigger] artifacts[i]@),
    decreases artifacts.len() - j,
{
    if j < artifacts.len() && protected(artifacts[j]@) {
        lemma_first_unreserved(artifacts, j + 1);
    }
}

/// Skips reserved artifacts from `run.next` on, recording one error each,
/// and says what to do next.
fn advance(artifacts: &Vec<String>, run: &mut CleanRun) -> (cmd: CleanCommand)
    requires
        old(run).next <= artifacts@.len(),
        old(run).result.files_removed <= old(run).next,
    ensures
        final(run).next == first_unreserved(artifacts@, old(run).next as int),
        final(run).result.bytes_reclaimed == old(run).result.bytes_reclaimed,
        final(run).result.files_removed == old(run).result.files_removed,
        strs(final(run).result.errors@) == strs(old(run).result.errors@) + reserved_messages(
            artifacts@,
            old(run).next as int,
            final(run).next as int,
        ),
        final(run).next < artifacts@.len() ==> cmd == CleanCommand::Probe(final(run).next) && final(run).phase
            == CleanPhase::Probing,
        final(run).next == artifacts@.len() ==> cmd == CleanCommand::Done && final(run).phase
            == CleanPhase::Finished,
        final(run).result.files_removed <= final(run).next,
        final(run).next <= artifacts@.len(),
        final(run).next < artifacts@.len() ==> !protected(artifacts@[final(run).next as int]@),
{
    let ghost j0 = run.next as int;
    let ghost e0 = strs(run.result.errors@);
    proof {
        lemma_first_unreserved(artifacts@, j0);
    }
    while run.next < artifacts.len() && is_protected_path(artifacts[run.next].as_str())
        invariant
            j0 <= run.next <= first_unreserved(artifacts@, j0) <= artifacts@.len(),
            first_unreserved(artifacts@, run.next as int) == first_unreserved(artifacts@, j0),
            strs(run.result.errors@) == e0 + reserved_messages(artifacts@, j0, run.next as int),
            run.result.bytes_reclaimed == old(run).result.bytes_reclaimed,
            run.result.files_removed == old(run).result.files_removed,
            run.result.files_removed <= j0,
        decreases artifacts@.len() - run.next,
    {
        proof {
            assert(protected(artifacts@[run.next as int]@));
            assert(first_unreserved(artifacts@, run.next as int) == first_unreserved(artifacts@, run.next + 1));
            lemma_first_unreserved(artifacts@, run.next + 1);
        }
        let msg = skip_note(artifacts[run.next].as_str());
        let ghost before = strs(run.result.errors@);
        run.result.errors.push(msg);
        proof {
            assert(strs(run.result.errors@) =~= before.push(skip_message(artifacts@[run.next as int]@)));
            lemma_reserved_messages_extend(artifacts@, j0, run.next as int);
            assert(strs(run.result.errors@) =~= e0 + reserved_messages(artifacts@, j0, run.next + 1));
        }
        run.next = run.next + 1;
    }
    proof {
        lemma_first_unreserved(artifacts@, run.next as int);
    }
    if run.next < artifacts.len() {
        run.phase = CleanPhase::Probing;
        CleanCommand::Probe(run.next)
    } else {
        run.phase = CleanPhase::Finished;
        CleanCommand::Done
    }
}

proof fn lemma_reserved_messages_extend(artifacts: Seq<String>, j: int, k: int)
    requires
        j <= k,
    ensures
        reserved_messages(artifacts, j, k + 1) == reserved_messages(artifacts, j, k).push(
            skip_message(artifacts[k]@),
        ),
    decreases k - j,
{
    if j < k {
        lemma_reserved_messages_extend(artifacts, j + 1, k);
        assert(reserved_messages(artifacts, j, k + 1) =~= seq![skip_message(artifacts[j]@)]
            + reserved_messages(artifacts, j + 1, k + 1));
    } else {
        assert(reserved_messages(artifacts, k + 1, k + 1) =~= Seq::<Seq<char>>::empty());
        assert(reserved_messages(artifacts, j, k + 1) =~= seq![skip_message(artifacts[k]@)]);
    }
}

/// The event can follow the phase: `Begin` at the start, a probe result
/// while probing, a removal result while removing.
pub open spec fn event_fits(phase: CleanPhase, event: CleanEvent) -> bool {
    match phase {
        CleanPhase::Start => event is Begin,
        CleanPhase::Probing => event is Probed,
        CleanPhase::Removing(_) => event is Removed,
        CleanPhase::Finished => false,
    }
}

/// The run is consistent with its artifact list.
pub open spec fn run_ok(artifacts: Seq<String>, run: CleanRun) -> bool {
    &&& run.next <= artifacts.len()
    &&& run.result.files_removed <= run.next
    &&& run.phase == CleanPhase::Start ==> run.next == 0
    &&& (run.phase is Probing || run.phase is Removing) ==> run.next < artifacts.len() && !protected(artifacts[run.next as int]@)
    &&& run.phase is Finished ==> run.next == artifacts.len()
}

/// Handles one event of the cleaning of a project whose artifact directory
/// names are `artifacts`, and says what to do next. Reserved names, and
/// names that are not a plain entry directly inside the project (empty,
/// `.`, `..`, or holding a path separator), are skipped with an error; a directory that does not exist is passed over;
/// one that exists is counted with its size, after its removal succeeds
/// unless this is a dry run; a failed removal is recorded as an error.
pub fn clean_step(artifacts: &Vec<String>, dry_run: bool, run: &mut CleanRun, event: CleanEvent) -> (cmd: CleanCommand)
    requires
        run_ok(artifacts@, *old(run)),
        event_fits(old(run).phase, event),
        dry_run && old(run).phase is Probing ==> match event {
            CleanEvent::Probed(Some(size)) => old(run).result.bytes_reclaimed + size <= u64::MAX,
            _ => true,
        },
        old(run).phase matches CleanPhase::Removing(size) ==> (event matches CleanEvent::Removed(Ok(_))
            ==> old(run).result.bytes_reclaimed + size <= u64::MAX),
    ensures
        run_ok(artifacts@, *final(run)),
        cmd matches CleanCommand::Probe(i) ==> i == final(run).next && final(run).phase == CleanPhase::Probing
            && plain_child(artifacts@[i as int]@) && !reserved(artifacts@[i as int]@),
        cmd matches CleanCommand::Remove(i) ==> i == final(run).next && final(run).phase is Removing
            && plain_child(artifacts@[i as int]@) && !reserved(artifacts@[i as int]@) && !dry_run,
        cmd is Done <==> final(run).phase is Finished,
        ({
            let o = *old(run);
            let f = *final(run);
            // the position reached after finishing with artifact `o.next` (or from the start)
            let resume = if o.phase is Start { 0int } else { o.next + 1 };
            match event {
                CleanEvent::Probed(Some(size)) if !dry_run => {
                    &&& f.next == o.next
                    &&& f.phase == CleanPhase::Removing(size)
                    &&& f.result.bytes_reclaimed == o.result.bytes_reclaimed
                    &&& f.result.files_removed == o.result.files_removed
                    &&& f.result.errors@ == o.result.errors@
                    &&& cmd == CleanCommand::Remove(o.next)
                },
                _ => {
                    let gained: u64 = match event {
                        CleanEvent::Probed(Some(size)) => size,
                        CleanEvent::Removed(Ok(_)) => match o.phase {
                            CleanPhase::Removing(size) => size,
                            _ => 0,
                        },
                        _ => 0,
                    };
                    let counted: bool = match event {
                        CleanEvent::Probed(Some(_)) => true,
                        CleanEvent::Removed(Ok(_)) => true,
                        _ => false,
                    };
                    let failure: Seq<Seq<char>> = match event {
                        CleanEvent::Removed(Err(e)) => seq!["Failed to remove "@ + artifacts@[o.next as int]@ + ": "@ + e@],
                        _ => seq![],
                    };
                    &&& f.next == first_unreserved(artifacts@, resume)
                    &&& f.next < artifacts@.len() ==> cmd == CleanCommand::Probe(f.next) && f.phase == CleanPhase::Probing
                    &&& f.next == artifacts@.len() ==> cmd == CleanCommand::Done && f.phase == CleanPhase::Finished
                    &&& f.result.bytes_reclaimed == o.result.bytes_reclaimed + gained
                    &&& f.result.files_removed == o.result.files_removed + if counted { 1int } else { 0int }
                    &&& strs(f.result.errors@) == strs(o.result.errors@) + failure + reserved_messages(artifacts@, resume, f.next as int)
                }
            }
        }),
{
    let n = artifacts.len();
    match event {
        CleanEvent::Begin => {
            advance(artifacts, run)
        },
        CleanEvent::Probed(None) => {
            assert(old(run).phase is Probing);
            run.next = run.next + 1;
            advance(artifacts, run)
        },
        CleanEvent::Probed(Some(size)) => {
            assert(old(run).phase is Probing);
            if dry_run {
                run.result.bytes_reclaimed = run.result.bytes_reclaimed + size;
                run.result.files_removed = run.result.files_removed + 1;
                run.next = run.next + 1;
                advance(artifacts, run)
            } else {
                run.phase = CleanPhase::Removing(size);
                CleanCommand::Remove(run.next)
            }
        },
        CleanEvent::Removed(Ok(())) => {
            assert(old(run).phase is Removing);
            let size = match run.phase {
                CleanPhase::Removing(s) => s,
                _ => 0,
            };
            run.result.bytes_reclaimed = run.result.bytes_reclaimed + size;
            run.result.files_removed = run.result.files_removed + 1;
            run.next = run.next + 1;
            advance(artifacts, run)
        },
        CleanEvent::Removed(Err(e)) => {
            assert(old(run).phase is Removing);
            let m = concat(concat(concat("Failed to remove ", artifacts[run.next].as_str()).as_str(), ": ").as_str(), e.as_str());
            let ghost before = strs(run.result.errors@);
            run.result.errors.push(m);
            assert(strs(run.result.errors@) =~= before + seq!["Failed to remove "@ + artifacts@[old(run).next as int]@ + ": "@ + e@]);
            run.next = run.next + 1;
            advance(artifacts, run)
        },
    }
}


/// The cleaning of a batch of projects.
#[derive(Debug)]
pub struct BatchCleanReport {
    /// Each project's name and the outcome of cleaning it.
    pub results: Vec<(String, Result<CleanResult, ToadError>)>,
    pub total_reclaimed: u64,
    pub success_count: usize,
    pub fail_count: usize,
}

/// A project was cleaned without any error.
pub open spec fn clean_succeeded(r: Result<CleanResult, ToadError>) -> bool {
    r matches Ok(c) && c.errors@.len() == 0
}

/// Projects among the first `n` cleaned without error.
pub open spec fn clean_successes(rs: Seq<(String, Result<CleanResult, ToadError>)>, n: int) -> nat
    decreases n,
{
    if n <= 0 {
        0
    } else {
        clean_successes(rs, n - 1) + if clean_succeeded(rs[n - 1].1) {
            1nat
        } else {
            0nat
        }
    }
}

/// Bytes reclaimed over the first `n` projects that could be cleaned.
pub open spec fn reclaimed_sum(rs: Seq<(String, Result<CleanResult, ToadError>)>, n: int) -> nat
    decreases n,
{
    if n <= 0 {
        0
    } else {
        reclaimed_sum(rs, n - 1) + match rs[n - 1].1 {
            Ok(c) => c.bytes_reclaimed as nat,
            Err(_) => 0,
        }
    }
}

proof fn lemma_reclaimed_mono(rs: Seq<(String, Result<CleanResult, ToadError>)>, i: int, n: int)
    requires
        0 <= i <= n,
    ensures
        reclaimed_sum(rs, i) <= reclaimed_sum(rs, n),
    decreases n - i,
{
    if i < n {
        lemma_reclaimed_mono(rs, i, n - 1);
    }
}

/// Tallies the cleaning of a batch: a project succeeds when it was cleaned
/// without error and fails otherwise; reclaimed bytes are summed over the
/// projects that could be cleaned.
pub fn summarize_clean(results: Vec<(String, Result<CleanResult, ToadError>)>) -> (r: BatchCleanReport)
    requires
        reclaimed_sum(results@, results@.len() as int) <= u64::MAX,
    ensures
        r.results@ == results@,
        r.total_reclaimed == reclaimed_sum(results@, results@.len() as int),
        r.success_count == clean_successes(results@, results@.len() as int),
        r.success_count + r.fail_count == results@.len(),
{
    let mut total: u64 = 0;
    let mut success: usize = 0;
    let mut fail: usize = 0;
    let mut i: usize = 0;
    while i < results.len()
        invariant
            i <= results.len(),
            reclaimed_sum(results@, results@.len() as int) <= u64::MAX,
            total == reclaimed_sum(results@, i as int),
            success == clean_successes(results@, i as int),
            success + fail == i,
        decreases results.len() - i,
    {
        proof {
            lemma_reclaimed_mono(results@, i + 1, results@.len() as int);
        }
        match &results[i].1 {
            Ok(c) => {
                if c.errors.len() == 0 {
                    success = success + 1;
                } else {
                    fail = fail + 1;
                }
                total = total + c.bytes_reclaimed;
            },
            Err(_) => {
                fail = fail + 1;
            },
        }
        i = i + 1;
    }
    BatchCleanReport { results, total_reclaimed: total, success_count: success, fail_count: fail }
}

} // verus!
