//! Preflight comparison before migrating work from one project to another.
use vstd::prelude::*;
use crate::model::ProjectDetail;
use crate::text::{chars_of, concat, contains_word, dedup, dedup_words, str_eq, string_of, strs, views};

verus! {

broadcast use vstd::string::group_string_axioms;

/// How compatible a target project is with a source project.
#[derive(Debug)]
pub struct MigrationPreflight {
    pub source: String,
    pub target: String,
    pub compatibility_score: u8,
    pub mismatches: Vec<String>,
    pub matching_capabilities: Vec<String>,
}

/// The distinct elements of `src` among the first `n` that `tgt` holds
/// (`present`) or lacks, in order of first appearance.
pub open spec fn select(src: Seq<Seq<char>>, tgt: Seq<Seq<char>>, present: bool, n: int) -> Seq<Seq<char>>
    decreases n,
{
    if n <= 0 {
        seq![]
    } else {
        let prev = select(src, tgt, present, n - 1);
        if tgt.contains(src[n - 1]) == present {
            prev.push(src[n - 1])
        } else {
            prev
        }
    }
}

/// The distinct elements of `src` that `tgt` holds (`present`) or lacks.
pub open spec fn shared_or_missing(src: Seq<Seq<char>>, tgt: Seq<Seq<char>>, present: bool) -> Seq<Seq<char>> {
    select(dedup(src), tgt, present, dedup(src).len() as int)
}

/// Each element of `s` prefixed with `prefix`.
pub open spec fn prefixed(prefix: Seq<char>, s: Seq<Seq<char>>) -> Seq<Seq<char>> {
    s.map_values(|x: Seq<char>| prefix + x)
}

/// The score before it is stored: 100, less 40 for different stacks, 10 for
/// each source role the target lacks and 5 for each such capability.
pub open spec fn raw_score(source: ProjectDetail, target: ProjectDetail) -> int {
    100 - (if source.stack@ != target.stack@ { 40int } else { 0int })
        - 10 * shared_or_missing(strs(source.dna.roles@), strs(target.dna.roles@), false).len()
        - 5 * shared_or_missing(strs(source.dna.capabilities@), strs(target.dna.capabilities@), false).len()
}

/// The elements of `src` that `tgt` holds (`present`) or lacks, each once,
/// each prefixed with `prefix`.
fn prefixed_selection(src: &Vec<String>, tgt: &Vec<String>, present: bool, prefix: &str) -> (r: Vec<String>)
    ensures
        strs(r@) == prefixed(prefix@, shared_or_missing(strs(src@), strs(tgt@), present)),
        r@.len() <= src@.len(),
{
    let mut sv: Vec<Vec<char>> = Vec::new();
    let mut i: usize = 0;
    while i < src.len()
        invariant
            i <= src.len(),
            sv@.len() == i,
            views(sv@) == strs(src@).take(i as int),
        decreases src.len() - i,
    {
        let ghost prev = sv@;
        sv.push(chars_of(src[i].as_str()));
        assert forall|k: int| 0 <= k < i + 1 implies views(sv@)[k] == strs(src@).take(i + 1)[k] by {
            if k < i {
                assert(sv@[k] == prev[k]);
                assert(views(prev)[k] == strs(src@).take(i as int)[k]);
            }
        }
        assert(views(sv@) =~= strs(src@).take(i + 1));
        i = i + 1;
    }
    assert(strs(src@).take(i as int) =~= strs(src@));
    let mut tv: Vec<Vec<char>> = Vec::new();
    let mut i: usize = 0;
    while i < tgt.len()
        invariant
            i <= tgt.len(),
            tv@.len() == i,
            views(tv@) == strs(tgt@).take(i as int),
        decreases tgt.len() - i,
    {
        let ghost prev = tv@;
        tv.push(chars_of(tgt[i].as_str()));
        assert forall|k: int| 0 <= k < i + 1 implies views(tv@)[k] == strs(tgt@).take(i + 1)[k] by {
            if k < i {
                assert(tv@[k] == prev[k]);
                assert(views(prev)[k] == strs(tgt@).take(i as int)[k]);
            }
        }
        assert(views(tv@) =~= strs(tgt@).take(i + 1));
        i = i + 1;
    }
    assert(strs(tgt@).take(i as int) =~= strs(tgt@));
    let distinct = dedup_words(&sv);
    let ghost d = views(distinct@);
    proof {
        lemma_dedup_len(views(sv@));
    }
    let mut out: Vec<String> = Vec::new();
    let mut k: usize = 0;
    while k < distinct.len()
        invariant
            k <= distinct@.len(),
            d == views(distinct@),
            d == dedup(strs(src@)),
            views(tv@) == strs(tgt@),
            strs(out@) == prefixed(prefix@, select(d, strs(tgt@), present, k as int)),
            out@.len() <= k,
            d.len() <= src@.len(),
        decreases distinct.len() - k,
    {
        let found = contains_word(&tv, &distinct[k]);
        proof {
            assert(d[k as int] == distinct@[k as int]@);
            if found {
                let j = choose|j: int| 0 <= j < tv@.len() && #[trigger] tv@[j]@ == distinct@[k as int]@;
                assert(views(tv@)[j] == d[k as int]);
            } else {
                if strs(tgt@).contains(d[k as int]) {
                    let j = choose|j: int| 0 <= j < strs(tgt@).len() && strs(tgt@)[j] == d[k as int];
                    assert(tv@[j]@ == views(tv@)[j]);
                }
            }
        }
        if found == present {
            let ghost prev = out@;
            out.push(concat(prefix, string_of(&distinct[k]).as_str()));
            assert(strs(out@) =~= strs(prev).push(prefix@ + d[k as int]));
        }
        assert(strs(out@) =~= prefixed(prefix@, select(d, strs(tgt@), present, k + 1)));
        k = k + 1;
    }
    out
}

proof fn lemma_dedup_len(s: Seq<Seq<char>>)
    ensures
        dedup(s).len() <= s.len(),
    decreases s.len(),
{
    if s.len() > 0 {
        lemma_dedup_len(s.drop_last());
    }
}

/// The stored score: at most 100, and a negative raw score wraps as an
/// 8-bit value does.
pub open spec fn stored_score(raw: int) -> u8 {
    if raw > 100 {
        100
    } else {
        (raw % 256) as u8
    }
}

/// Whether the score of comparing `source` with `target` stays within the
/// range of the 32-bit counter it is computed in.
pub fn score_fits(source: &ProjectDetail, target: &ProjectDetail) -> (r: bool)
    ensures
        r == (raw_score(*source, *target) >= i32::MIN),
{
    let role_missing = prefixed_selection(&source.dna.roles, &target.dna.roles, false, "");
    let cap_missing = prefixed_selection(&source.dna.capabilities, &target.dna.capabilities, false, "");
    let stack_penalty: u128 = if str_eq(source.stack.as_str(), target.stack.as_str()) { 0 } else { 40 };
    let penalty: u128 = stack_penalty + 10 * (role_missing.len() as u128) + 5 * (cap_missing.len() as u128);
    assert(strs(role_missing@).len() == role_missing@.len());
    assert(strs(cap_missing@).len() == cap_missing@.len());
    penalty <= 2147483748
}

/// Compares two projects before a migration: stacks, architectural roles
/// and capabilities that match, and what the target lacks.
#[verifier::rlimit(40)]
pub fn compare_projects(source: &ProjectDetail, target: &ProjectDetail) -> (r: MigrationPreflight)
    requires
        raw_score(*source, *target) >= i32::MIN,
    ensures
        r.source@ == source.name@,
        r.target@ == target.name@,
        r.compatibility_score == stored_score(raw_score(*source, *target)),
        strs(r.mismatches@) == (if source.stack@ != target.stack@ {
            seq!["Stack mismatch: "@ + source.stack@ + " vs "@ + target.stack@]
        } else {
            seq![]
        }) + prefixed("Source role missing in target: "@, shared_or_missing(strs(source.dna.roles@), strs(target.dna.roles@), false))
            + prefixed("Source capability missing in target: "@, shared_or_missing(strs(source.dna.capabilities@), strs(target.dna.capabilities@), false)),
        strs(r.matching_capabilities@) == (if source.stack@ == target.stack@ {
            seq!["Identical stacks ("@ + source.stack@ + ")"@]
        } else {
            seq![]
        }) + prefixed("Matching role: "@, shared_or_missing(strs(source.dna.roles@), strs(target.dna.roles@), true))
            + prefixed("Matching capability: "@, shared_or_missing(strs(source.dna.capabilities@), strs(target.dna.capabilities@), true)),
{
    let mut mismatches: Vec<String> = Vec::new();
    let mut matches: Vec<String> = Vec::new();
    let mut score: i32 = 100;

    if !str_eq(source.stack.as_str(), target.stack.as_str()) {
        let m = concat(concat(concat("Stack mismatch: ", source.stack.as_str()).as_str(), " vs ").as_str(), target.stack.as_str());
        mismatches.push(m);
        score = score - 40;
    } else {
        let m = concat(concat("Identical stacks (", source.stack.as_str()).as_str(), ")");
        matches.push(m);
    }

    let role_matches = prefixed_selection(&source.dna.roles, &target.dna.roles, true, "Matching role: ");
    let role_missing = prefixed_selection(&source.dna.roles, &target.dna.roles, false, "Source role missing in target: ");
    let cap_matches = prefixed_selection(&source.dna.capabilities, &target.dna.capabilities, true, "Matching capability: ");
    let cap_missing = prefixed_selection(&source.dna.capabilities, &target.dna.capabilities, false, "Source capability missing in target: ");

    let ghost before_m = strs(matches@);
    let ghost before_x = strs(mismatches@);
    let mut rm = role_matches;
    let mut rx = role_missing;
    let mut cm = cap_matches;
    let mut cx = cap_missing;
    let nrx = rx.len();
    let ncx = cx.len();
    matches.append(&mut rm);
    matches.append(&mut cm);
    mismatches.append(&mut rx);
    mismatches.append(&mut cx);
    proof {
        assert(strs(matches@) =~= before_m + strs(role_matches@) + strs(cap_matches@));
        assert(strs(mismatches@) =~= before_x + strs(role_missing@) + strs(cap_missing@));
    }
    assert(nrx as int == shared_or_missing(strs(source.dna.roles@), strs(target.dna.roles@), false).len());
    assert(ncx as int == shared_or_missing(strs(source.dna.capabilities@), strs(target.dna.capabilities@), false).len());
    let ghost raw = raw_score(*source, *target);
    assert(raw == score - 10 * nrx - 5 * ncx);
    assert(raw >= i32::MIN);
    let wide: i64 = score as i64 - 10 * (nrx as i64) - 5 * (ncx as i64);
    score = wide as i32;

    let compatibility_score: u8 = if score > 100 {
        100
    } else {
        let s: i64 = score as i64;
        let m: i64 = if s >= 0 {
            s % 256
        } else {
            let t: i64 = (-s) % 256;
            if t == 0 { 0 } else { 256 - t }
        };
        assert(m == raw % 256);
        m as u8
    };

    MigrationPreflight {
        source: source.name.clone(),
        target: target.name.clone(),
        compatibility_score,
        mismatches,
        matching_capabilities: matches,
    }
}


proof fn lemma_select_missing_empty(src: Seq<Seq<char>>, tgt: Seq<Seq<char>>, n: int)
    requires
        0 <= n <= src.len(),
        forall|i: int| 0 <= i < src.len() ==> tgt.contains(#[trigger] src[i]),
    ensures
        select(src, tgt, false, n).len() == 0,
    decreases n,
{
    if n > 0 {
        assert(tgt.contains(src[n - 1]));
        lemma_select_missing_empty(src, tgt, n - 1);
    }
}

/// A project compared with itself lacks nothing: the score is 100 and
/// there is no mismatch to report.
pub proof fn lemma_self_comparison(p: ProjectDetail)
    ensures
        raw_score(p, p) == 100,
        stored_score(raw_score(p, p)) == 100,
        shared_or_missing(strs(p.dna.roles@), strs(p.dna.roles@), false).len() == 0,
        shared_or_missing(strs(p.dna.capabilities@), strs(p.dna.capabilities@), false).len() == 0,
        prefixed("Source role missing in target: "@, shared_or_missing(strs(p.dna.roles@), strs(p.dna.roles@), false))
            == Seq::<Seq<char>>::empty(),
        prefixed("Source capability missing in target: "@, shared_or_missing(strs(p.dna.capabilities@), strs(p.dna.capabilities@), false))
            == Seq::<Seq<char>>::empty(),
{
    let r = strs(p.dna.roles@);
    let c = strs(p.dna.capabilities@);
    crate::text::lemma_dedup_props(r);
    crate::text::lemma_dedup_props(c);
    assert forall|i: int| 0 <= i < dedup(r).len() implies r.contains(#[trigger] dedup(r)[i]) by {
        assert(dedup(r).contains(dedup(r)[i]));
    }
    assert forall|i: int| 0 <= i < dedup(c).len() implies c.contains(#[trigger] dedup(c)[i]) by {
        assert(dedup(c).contains(dedup(c)[i]));
    }
    lemma_select_missing_empty(dedup(r), r, dedup(r).len() as int);
    lemma_select_missing_empty(dedup(c), c, dedup(c).len() as int);
    assert(100int % 256 == 100);
    assert(prefixed("Source role missing in target: "@, shared_or_missing(r, r, false)) =~= Seq::<Seq<char>>::empty());
    assert(prefixed("Source capability missing in target: "@, shared_or_missing(c, c, false)) =~= Seq::<Seq<char>>::empty());
}

proof fn lemma_select_missing_mono(src: Seq<Seq<char>>, tgt: Seq<Seq<char>>, wider: Seq<Seq<char>>, n: int)
    requires
        0 <= n <= src.len(),
        forall|x: Seq<char>| tgt.contains(x) ==> wider.contains(x),
    ensures
        select(src, wider, false, n).len() <= select(src, tgt, false, n).len(),
    decreases n,
{
    if n > 0 {
        lemma_select_missing_mono(src, tgt, wider, n - 1);
    }
}

/// A target that has the same stack and at least the roles and capabilities
/// of another scores at least as high before the score is stored, and, when
/// the other's score is not negative, at least as high as stored.
pub proof fn lemma_wider_target_scores_higher(source: ProjectDetail, target: ProjectDetail, wider: ProjectDetail)
    requires
        wider.stack@ == target.stack@,
        forall|x: Seq<char>| strs(target.dna.roles@).contains(x) ==> strs(wider.dna.roles@).contains(x),
        forall|x: Seq<char>| strs(target.dna.capabilities@).contains(x) ==> strs(wider.dna.capabilities@).contains(x),
    ensures
        raw_score(source, wider) >= raw_score(source, target),
        raw_score(source, wider) <= 100,
        raw_score(source, target) >= 0 ==> stored_score(raw_score(source, wider)) >= stored_score(raw_score(source, target)),
{
    let r = dedup(strs(source.dna.roles@));
    let c = dedup(strs(source.dna.capabilities@));
    lemma_select_missing_mono(r, strs(target.dna.roles@), strs(wider.dna.roles@), r.len() as int);
    lemma_select_missing_mono(c, strs(target.dna.capabilities@), strs(wider.dna.capabilities@), c.len() as int);
    let a = raw_score(source, target);
    let b = raw_score(source, wider);
    if a >= 0 {
        assert(0 <= a <= b <= 100);
        assert(a % 256 == a);
        assert(b % 256 == b);
    }
}

} // verus!
