//! Cycle search by depth-first traversal of a graph given by adjacency lists.
use vstd::prelude::*;

verus! {

/// Every adjacency entry names a node of the graph.
pub open spec fn well_formed(adj: Seq<Vec<usize>>) -> bool {
    forall|a: int, k: int| 0 <= a < adj.len() && 0 <= k < adj[a]@.len() ==> #[trigger] adj[a]@[k] < adj.len()
}

/// There is an edge from node `a` to node `b`.
pub open spec fn edge(adj: Seq<Vec<usize>>, a: int, b: int) -> bool {
    0 <= a < adj.len() && adj[a]@.contains(b as usize)
}

/// `c` is a cycle: each node has an edge to the next, the last to the first.
pub open spec fn is_cycle(adj: Seq<Vec<usize>>, c: Seq<usize>) -> bool {
    &&& c.len() > 0
    &&& forall|k: int| 0 <= k < c.len() ==> #[trigger] c[k] < adj.len()
    &&& forall|k: int| 0 <= k < c.len() - 1 ==> edge(adj, #[trigger] c[k] as int, c[k + 1] as int)
    &&& edge(adj, c.last() as int, c[0] as int)
}

/// Number of `false` entries.
pub open spec fn count_false(s: Seq<bool>) -> nat
    decreases s.len(),
{
    if s.len() == 0 {
        0
    } else {
        count_false(s.drop_last()) + if s.last() {
            0nat
        } else {
            1nat
        }
    }
}

proof fn lemma_count_false_mono(a: Seq<bool>, b: Seq<bool>)
    requires
        a.len() == b.len(),
        forall|i: int| 0 <= i < a.len() && a[i] ==> b[i],
    ensures
        count_false(b) <= count_false(a),
        (exists|i: int| 0 <= i < a.len() && !a[i] && b[i]) ==> count_false(b) < count_false(a),
    decreases a.len(),
{
    if a.len() > 0 {
        lemma_count_false_mono(a.drop_last(), b.drop_last());
        if exists|i: int| 0 <= i < a.len() && !a[i] && b[i] {
            let i = choose|i: int| 0 <= i < a.len() && !a[i] && b[i];
            if i < a.len() - 1 {
                assert(!a.drop_last()[i] && b.drop_last()[i]);
            }
        }
    }
}

/// The stack is a path of the graph, ending in an edge to `next` when nonempty.
pub open spec fn stack_path(adj: Seq<Vec<usize>>, stack: Seq<usize>) -> bool {
    &&& forall|k: int| 0 <= k < stack.len() ==> #[trigger] stack[k] < adj.len()
    &&& forall|k: int| 0 <= k < stack.len() - 1 ==> edge(adj, #[trigger] stack[k] as int, stack[k + 1] as int)
}

/// Every listed cycle is a cycle of the graph that passes no node twice.
pub open spec fn all_cycles(adj: Seq<Vec<usize>>, cycles: Seq<Vec<usize>>) -> bool {
    forall|i: int| 0 <= i < cycles.len() ==> is_cycle(adj, #[trigger] cycles[i]@) && cycles[i]@.no_duplicates()
}

/// No cycle is listed twice.
pub open spec fn distinct_cycles(cycles: Seq<Vec<usize>>) -> bool {
    forall|i: int, j: int| 0 <= i < j < cycles.len() ==> (#[trigger] cycles[i])@ != (#[trigger] cycles[j])@
}

/// No adjacency list names a node twice.
pub open spec fn simple_lists(adj: Seq<Vec<usize>>) -> bool {
    forall|a: int| 0 <= a < adj.len() ==> (#[trigger] adj[a])@.no_duplicates()
}

/// Node `x` has been visited and left.
pub open spec fn finished(visited: Seq<bool>, on_stack: Seq<bool>, x: int) -> bool {
    visited[x] && !on_stack[x]
}

/// Some listed cycle passes through both `u` and `w`.
pub open spec fn linked(cycles: Seq<Vec<usize>>, u: int, w: int) -> bool {
    exists|i: int|
        #![trigger cycles[i]]
        0 <= i < cycles.len() && cycles[i]@.contains(u as usize) && cycles[i]@.contains(w as usize)
}

/// Every finished node has a finishing time below `clock`, and each of its
/// successors finished before it did, unless a listed cycle passes through
/// both.
pub open spec fn closed(
    adj: Seq<Vec<usize>>,
    visited: Seq<bool>,
    on_stack: Seq<bool>,
    fin: Seq<int>,
    clock: int,
    cycles: Seq<Vec<usize>>,
) -> bool {
    &&& fin.len() == adj.len()
    &&& forall|x: int| 0 <= x < adj.len() && finished(visited, on_stack, x) ==> #[trigger] fin[x] < clock
    &&& forall|u: int, k: int|
        0 <= u < adj.len() && finished(visited, on_stack, u) && 0 <= k < adj[u]@.len() ==> (finished(
            visited,
            on_stack,
            #[trigger] adj[u]@[k] as int,
        ) && fin[adj[u]@[k] as int] < fin[u]) || linked(cycles, u, adj[u]@[k] as int)
}

proof fn lemma_linked_grows(c1: Seq<Vec<usize>>, c2: Seq<Vec<usize>>, u: int, w: int)
    requires
        c1.len() <= c2.len(),
        forall|i: int| 0 <= i < c1.len() ==> #[trigger] c2[i] == c1[i],
        linked(c1, u, w),
    ensures
        linked(c2, u, w),
{
    let i = choose|i: int|
        #![trigger c1[i]]
        0 <= i < c1.len() && c1[i]@.contains(u as usize) && c1[i]@.contains(w as usize);
    assert(c2[i] == c1[i]);
}

proof fn lemma_closed_grows(
    adj: Seq<Vec<usize>>,
    visited: Seq<bool>,
    on_stack: Seq<bool>,
    fin: Seq<int>,
    clock: int,
    c1: Seq<Vec<usize>>,
    c2: Seq<Vec<usize>>,
)
    requires
        closed(adj, visited, on_stack, fin, clock, c1),
        c1.len() <= c2.len(),
        forall|i: int| 0 <= i < c1.len() ==> #[trigger] c2[i] == c1[i],
    ensures
        closed(adj, visited, on_stack, fin, clock, c2),
{
    assert forall|u: int, k: int|
        0 <= u < adj.len() && finished(visited, on_stack, u) && 0 <= k < adj[u]@.len() implies (finished(
            visited,
            on_stack,
            #[trigger] adj[u]@[k] as int,
        ) && fin[adj[u]@[k] as int] < fin[u]) || linked(c2, u, adj[u]@[k] as int) by {
        if linked(c1, u, adj[u]@[k] as int) {
            lemma_linked_grows(c1, c2, u, adj[u]@[k] as int);
        }
    }
}

/// Position of the first occurrence of `x` in `v`, which holds it.
fn position_of(v: &Vec<usize>, x: usize) -> (pos: usize)
    requires
        v@.contains(x),
    ensures
        pos < v@.len(),
        v@[pos as int] == x,
{
    let mut pos: usize = 0;
    while pos < v.len()
        invariant
            v@.contains(x),
            pos <= v@.len(),
            forall|j: int| 0 <= j < pos ==> v@[j] != x,
        decreases v@.len() - pos,
    {
        if v[pos] == x {
            return pos;
        }
        pos = pos + 1;
    }
    proof {
        let j = choose|j: int| 0 <= j < v@.len() && v@[j] == x;
        assert(false);
    }
    0
}

/// The elements of `v` from position `pos` on.
fn suffix_from(v: &Vec<usize>, pos: usize) -> (r: Vec<usize>)
    requires
        pos <= v@.len(),
    ensures
        r@ == v@.subrange(pos as int, v@.len() as int),
{
    let mut c: Vec<usize> = Vec::new();
    let mut q: usize = pos;
    while q < v.len()
        invariant
            pos <= q <= v@.len(),
            c@ == v@.subrange(pos as int, q as int),
        decreases v@.len() - q,
    {
        c.push(v[q]);
        assert(v@.subrange(pos as int, q as int).push(v@[q as int]) =~= v@.subrange(pos as int, q + 1));
        q = q + 1;
    }
    c
}

fn dfs_cycle(
    cur: usize,
    adj: &Vec<Vec<usize>>,
    visited: &mut Vec<bool>,
    on_stack: &mut Vec<bool>,
    stack: &mut Vec<usize>,
    cycles: &mut Vec<Vec<usize>>,
    Ghost(budget): Ghost<nat>,
    Ghost(fin0): Ghost<Seq<int>>,
    Ghost(clock0): Ghost<int>,
) -> (times: Ghost<(Seq<int>, int)>)
    requires
        well_formed(adj@),
        cur < adj.len(),
        old(visited)@.len() == adj.len(),
        old(on_stack)@.len() == adj.len(),
        !old(visited)@[cur as int],
        budget == count_false(old(visited)@),
        stack_path(adj@, old(stack)@),
        old(stack)@.len() > 0 ==> edge(adj@, old(stack)@.last() as int, cur as int),
        forall|x: int| 0 <= x < adj.len() ==> (old(on_stack)@[x] <==> old(stack)@.contains(x as usize)),
        forall|x: int| 0 <= x < adj.len() && old(on_stack)@[x] ==> old(visited)@[x],
        all_cycles(adj@, old(cycles)@),
        old(stack)@.no_duplicates(),
        forall|i: int| 0 <= i < old(cycles)@.len() ==> old(visited)@[(#[trigger] old(cycles)@[i])@.last() as int],
        simple_lists(adj@) ==> distinct_cycles(old(cycles)@),
        closed(adj@, old(visited)@, old(on_stack)@, fin0, clock0, old(cycles)@),
    ensures
        final(cycles)@.len() >= old(cycles)@.len(),
        closed(adj@, final(visited)@, final(on_stack)@, times@.0, times@.1, final(cycles)@),
        times@.1 >= clock0,
        finished(final(visited)@, final(on_stack)@, cur as int),
        forall|x: int| 0 <= x < adj.len() && finished(old(visited)@, old(on_stack)@, x) ==> #[trigger] times@.0[x] == fin0[x],
        final(visited)@.len() == adj.len(),
        forall|x: int| 0 <= x < adj.len() && old(visited)@[x] ==> final(visited)@[x],
        final(visited)@[cur as int],
        final(stack)@ == old(stack)@,
        final(on_stack)@ == old(on_stack)@,
        all_cycles(adj@, final(cycles)@),
        forall|i: int| 0 <= i < old(cycles)@.len() ==> #[trigger] final(cycles)@[i] == old(cycles)@[i],
        forall|i: int| 0 <= i < final(cycles)@.len() ==> final(visited)@[(#[trigger] final(cycles)@[i])@.last() as int],
        forall|i: int| old(cycles)@.len() <= i < final(cycles)@.len() ==> !old(visited)@[(#[trigger] final(cycles)@[i])@.last() as int],
        simple_lists(adj@) ==> distinct_cycles(final(cycles)@),
    decreases budget,
{
    let ghost v0 = visited@;
    let ghost s0 = stack@;
    let ghost o0 = on_stack@;
    visited.set(cur, true);
    on_stack.set(cur, true);
    stack.push(cur);
    let n = adj.len();
    let ghost mut fin = fin0;
    let ghost mut clock = clock0;
    let ghost c0 = cycles@.len();
    let ghost cs0 = cycles@;
    proof {
        assert(!s0.contains(cur)) by {
            if s0.contains(cur) {
                assert(o0[cur as int]);
            }
        }
        assert(stack@.no_duplicates()) by {
            assert forall|a: int, b: int| 0 <= a < b < stack@.len() implies stack@[a] != stack@[b] by {
                if b == s0.len() {
                    assert(stack@[a] == s0[a]);
                } else {
                    assert(stack@[a] == s0[a] && stack@[b] == s0[b]);
                }
            }
        }
        assert forall|x: int| 0 <= x < n implies finished(visited@, on_stack@, x) == finished(v0, o0, x) by {}
        assert forall|x: int| 0 <= x < n implies (on_stack@[x] <==> stack@.contains(x as usize)) by {
            if x != cur {
                if s0.contains(x as usize) {
                    let j = choose|j: int| 0 <= j < s0.len() && s0[j] == x as usize;
                    assert(stack@[j] == x as usize);
                }
                if stack@.contains(x as usize) {
                    let j = choose|j: int| 0 <= j < stack@.len() && stack@[j] == x as usize;
                    assert(j < s0.len());
                    assert(s0[j] == x as usize);
                }
            } else {
                assert(stack@[s0.len() as int] == cur);
            }
        }
        assert forall|k: int| 0 <= k < stack@.len() - 1 implies edge(adj@, #[trigger] stack@[k] as int, stack@[k + 1] as int) by {
            if k < s0.len() - 1 {
                assert(stack@[k] == s0[k] && stack@[k + 1] == s0[k + 1]);
            } else {
                assert(stack@[k] == s0.last());
            }
        }
    }
    let mut k: usize = 0;
    while k < adj[cur].len()
        invariant
            n == adj.len(),
            well_formed(adj@),
            cur < n,
            visited@.len() == n,
            on_stack@.len() == n,
            forall|x: int| 0 <= x < n && v0[x] ==> visited@[x],
            visited@[cur as int],
            !v0[cur as int],
            v0.len() == n,
            budget == count_false(v0),
            stack@ == s0.push(cur),
            on_stack@ == o0.update(cur as int, true),
            stack_path(adj@, stack@),
            forall|x: int| 0 <= x < n ==> (on_stack@[x] <==> stack@.contains(x as usize)),
            forall|x: int| 0 <= x < n && on_stack@[x] ==> visited@[x],
            all_cycles(adj@, cycles@),
            cycles@.len() >= c0,
            stack@.no_duplicates(),
            cs0.len() == c0,
            forall|i: int| 0 <= i < c0 ==> #[trigger] cycles@[i] == cs0[i],
            forall|i: int| 0 <= i < c0 ==> v0[(#[trigger] cs0[i])@.last() as int],
            forall|i: int| 0 <= i < cycles@.len() ==> visited@[(#[trigger] cycles@[i])@.last() as int],
            forall|i: int| c0 <= i < cycles@.len() ==> !v0[(#[trigger] cycles@[i])@.last() as int],
            forall|i: int| c0 <= i < cycles@.len() && (#[trigger] cycles@[i])@.last() == cur ==> exists|j: int|
                0 <= j < k && cycles@[i]@[0] == #[trigger] adj@[cur as int]@[j],
            simple_lists(adj@) ==> distinct_cycles(cycles@),
            o0.len() == n,
            closed(adj@, visited@, on_stack@, fin, clock, cycles@),
            clock >= clock0,
            forall|j: int| 0 <= j < k ==> (finished(visited@, on_stack@, #[trigger] adj@[cur as int]@[j] as int)
                && fin[adj@[cur as int]@[j] as int] < clock) || linked(cycles@, cur as int, adj@[cur as int]@[j] as int),
            forall|x: int| 0 <= x < n && finished(v0, o0, x) ==> #[trigger] fin[x] == fin0[x] && finished(visited@, on_stack@, x),
        decreases adj[cur as int]@.len() - k,
    {
        let nb = adj[cur][k];
        assert(adj@[cur as int]@[k as int] == nb);
        assert(edge(adj@, cur as int, nb as int));
        if on_stack[nb] {
            let pos = position_of(stack, nb);
            let c = suffix_from(stack, pos);
            proof {
                assert forall|j: int| 0 <= j < c@.len() - 1 implies edge(adj@, #[trigger] c@[j] as int, c@[j + 1] as int) by {
                    assert(c@[j] == stack@[pos + j]);
                    assert(c@[j + 1] == stack@[pos + j + 1]);
                }
                assert(c@.last() == cur);
                assert(c@[0] == nb);
            }
            let ghost before = cycles@;
            proof {
                assert(c@.no_duplicates()) by {
                    assert forall|a: int, b: int| 0 <= a < b < c@.len() implies c@[a] != c@[b] by {
                        assert(c@[a] == stack@[pos + a] && c@[b] == stack@[pos + b]);
                    }
                }
                if simple_lists(adj@) {
                    assert forall|i: int| 0 <= i < before.len() implies (#[trigger] before[i])@ != c@ by {
                        if i < c0 {
                            assert(v0[cs0[i]@.last() as int]);
                            assert(before[i] == cs0[i]);
                        } else if before[i]@.last() == cur {
                            let j = choose|j: int| 0 <= j < k && before[i]@[0] == #[trigger] adj@[cur as int]@[j];
                            assert(adj@[cur as int]@.no_duplicates());
                            assert(adj@[cur as int]@[j] != adj@[cur as int]@[k as int]);
                        }
                    }
                }
            }
            cycles.push(c);
            proof {
                assert(cycles@[before.len() as int] == c);
                assert forall|i: int| 0 <= i < before.len() implies #[trigger] cycles@[i] == before[i] by {}
                lemma_closed_grows(adj@, visited@, on_stack@, fin, clock, before, cycles@);
                assert(c@[0] == nb && c@[c@.len() - 1] == cur);
                assert(c@.contains(nb) && c@.contains(cur));
                assert(linked(cycles@, cur as int, nb as int));
                assert forall|j: int| 0 <= j < k + 1 implies (finished(visited@, on_stack@, #[trigger] adj@[cur as int]@[j] as int)
                    && fin[adj@[cur as int]@[j] as int] < clock) || linked(cycles@, cur as int, adj@[cur as int]@[j] as int) by {
                    if j < k && linked(before, cur as int, adj@[cur as int]@[j] as int) {
                        lemma_linked_grows(before, cycles@, cur as int, adj@[cur as int]@[j] as int);
                    }
                }
                assert forall|i: int| 0 <= i < cycles@.len() implies is_cycle(adj@, #[trigger] cycles@[i]@) && cycles@[i]@.no_duplicates() by {
                    if i < before.len() {
                        assert(cycles@[i] == before[i]);
                    }
                }
                assert forall|i: int| 0 <= i < cycles@.len() implies visited@[(#[trigger] cycles@[i])@.last() as int] by {
                    if i < before.len() {
                        assert(cycles@[i] == before[i]);
                    }
                }
                assert forall|i: int| c0 <= i < cycles@.len() implies !v0[(#[trigger] cycles@[i])@.last() as int] by {
                    if i < before.len() {
                        assert(cycles@[i] == before[i]);
                    }
                }
                assert forall|i: int| c0 <= i < cycles@.len() && (#[trigger] cycles@[i])@.last() == cur implies exists|j: int|
                    0 <= j < k + 1 && cycles@[i]@[0] == #[trigger] adj@[cur as int]@[j] by {
                    if i < before.len() {
                        assert(cycles@[i] == before[i]);
                        let j = choose|j: int| 0 <= j < k && before[i]@[0] == #[trigger] adj@[cur as int]@[j];
                        assert(0 <= j < k + 1 && cycles@[i]@[0] == adj@[cur as int]@[j]);
                    } else {
                        assert(0 <= k < k + 1 && cycles@[i]@[0] == adj@[cur as int]@[k as int]);
                    }
                }
                if simple_lists(adj@) {
                    assert forall|a: int, b: int| 0 <= a < b < cycles@.len() implies (#[trigger] cycles@[a])@ != (#[trigger] cycles@[b])@ by {
                        assert(cycles@[a] == before[a]);
                        if b < before.len() {
                            assert(cycles@[b] == before[b]);
                        }
                    }
                }
            }
        } else if !visited[nb] {
            proof {
                lemma_count_false_mono(v0, visited@);
            }
            let ghost b = count_false(visited@);
            let ghost vis_before = visited@;
            let ghost fin_before = fin;
            let ghost clock_before = clock;
            let ghost cyc_before = cycles@;
            let t = dfs_cycle(nb, adj, visited, on_stack, stack, cycles, Ghost(b), Ghost(fin), Ghost(clock));
            proof {
                fin = t@.0;
                clock = t@.1;
                assert forall|j: int| 0 <= j < k + 1 implies (finished(visited@, on_stack@, #[trigger] adj@[cur as int]@[j] as int)
                    && fin[adj@[cur as int]@[j] as int] < clock) || linked(cycles@, cur as int, adj@[cur as int]@[j] as int) by {
                    let w = adj@[cur as int]@[j] as int;
                    if j < k {
                        if linked(cyc_before, cur as int, w) {
                            lemma_linked_grows(cyc_before, cycles@, cur as int, w);
                        } else {
                            assert(finished(vis_before, on_stack@, w));
                            assert(fin[w] == fin_before[w]);
                        }
                    }
                }
                assert forall|x: int| 0 <= x < n && finished(v0, o0, x) implies #[trigger] fin[x] == fin0[x] && finished(visited@, on_stack@, x) by {
                    assert(finished(vis_before, on_stack@, x));
                }
            }
        } else {
            proof {
                assert(finished(visited@, on_stack@, nb as int));
            }
        }
        k = k + 1;
    }
    let ghost vis_end = visited@;
    let ghost ons_end = on_stack@;
    stack.pop();
    on_stack.set(cur, false);
    proof {
        assert(stack@ =~= s0);
        assert(!o0[cur as int]);
        assert(on_stack@ =~= o0);
        let f2 = fin.update(cur as int, clock);
        let c2 = clock + 1;
        assert forall|x: int| 0 <= x < n && finished(visited@, on_stack@, x) implies #[trigger] f2[x] < c2 by {
            if x != cur {
                assert(finished(vis_end, ons_end, x));
            }
        }
        assert forall|u: int, j: int|
            0 <= u < n && finished(visited@, on_stack@, u) && 0 <= j < adj@[u]@.len() implies (finished(
                visited@,
                on_stack@,
                #[trigger] adj@[u]@[j] as int,
            ) && f2[adj@[u]@[j] as int] < f2[u]) || linked(cycles@, u, adj@[u]@[j] as int) by {
            let w = adj@[u]@[j] as int;
            if !linked(cycles@, u, w) {
                if u == cur {
                    assert(finished(vis_end, ons_end, w));
                    assert(w != cur);
                } else {
                    assert(finished(vis_end, ons_end, u));
                    assert(finished(vis_end, ons_end, w));
                    assert(w != cur);
                }
            }
        }
        fin = f2;
        clock = c2;
        assert forall|x: int| 0 <= x < n && finished(old(visited)@, old(on_stack)@, x) implies #[trigger] fin[x] == fin0[x] by {
            assert(x != cur);
        }
    }
    Ghost((fin, clock))
}

/// Some listed cycle passes through a node of the cycle `c`.
pub open spec fn cycle_met(cycles: Seq<Vec<usize>>, c: Seq<usize>) -> bool {
    exists|i: int, k: int| 0 <= i < cycles.len() && 0 <= k < c.len() && #[trigger] cycles[i]@.contains(#[trigger] c[k])
}

/// The finishing time falls from position `j` of `c` to the next.
pub open spec fn falls(fin: Seq<int>, c: Seq<usize>, j: int) -> bool {
    fin[c[j + 1] as int] < fin[c[j] as int]
}

proof fn lemma_fin_descends(fin: Seq<int>, c: Seq<usize>, k: int)
    requires
        forall|j: int| 0 <= j < c.len() - 1 ==> #[trigger] falls(fin, c, j),
        0 < k < c.len(),
    ensures
        fin[c[k] as int] < fin[c[0] as int],
    decreases k,
{
    assert(falls(fin, c, k - 1));
    if k > 1 {
        lemma_fin_descends(fin, c, k - 1);
    }
}

/// Once every node is finished, each cycle of the graph meets a listed cycle:
/// an edge of it along which finishing times do not fall lies on a listed cycle.
proof fn lemma_cycle_met(
    adj: Seq<Vec<usize>>,
    visited: Seq<bool>,
    on_stack: Seq<bool>,
    fin: Seq<int>,
    clock: int,
    cycles: Seq<Vec<usize>>,
    c: Seq<usize>,
)
    requires
        closed(adj, visited, on_stack, fin, clock, cycles),
        visited.len() == adj.len(),
        on_stack.len() == adj.len(),
        forall|x: int| 0 <= x < adj.len() ==> finished(visited, on_stack, x),
        is_cycle(adj, c),
    ensures
        cycle_met(cycles, c),
{
    if !cycle_met(cycles, c) {
        assert forall|j: int| 0 <= j < c.len() - 1 implies #[trigger] falls(fin, c, j) by {
            let a = c[j] as int;
            let b = c[j + 1];
            assert(edge(adj, a, b as int));
            let t = choose|t: int| 0 <= t < adj[a]@.len() && adj[a]@[t] == b;
            assert(finished(visited, on_stack, a));
            if linked(cycles, a, b as int) {
                let i = choose|i: int|
                    #![trigger cycles[i]]
                    0 <= i < cycles.len() && cycles[i]@.contains(a as usize) && cycles[i]@.contains(b);
                assert(cycles[i]@.contains(c[j]));
            }
        }
        let a = c.last() as int;
        let b = c[0];
        assert(edge(adj, a, b as int));
        let t = choose|t: int| 0 <= t < adj[a]@.len() && adj[a]@[t] == b;
        assert(finished(visited, on_stack, a));
        if linked(cycles, a, b as int) {
            let i = choose|i: int|
                #![trigger cycles[i]]
                0 <= i < cycles.len() && cycles[i]@.contains(a as usize) && cycles[i]@.contains(b);
            assert(cycles[i]@.contains(c[0]));
        }
        assert(fin[b as int] < fin[a]);
        if c.len() > 1 {
            lemma_fin_descends(fin, c, c.len() - 1);
        }
    }
}

/// All cycles met by a depth-first traversal that starts from each node
/// not yet visited, in node order, following edges in adjacency order.
/// Every cycle reported is a cycle of the graph that passes no node twice,
/// no cycle is reported twice when no adjacency list names a node twice,
/// and every cycle of the graph shares a node with a reported one (so each
/// strongly connected part that holds a cycle has a reported cycle in it).
pub fn detect_cycles(adj: &Vec<Vec<usize>>) -> (cycles: Vec<Vec<usize>>)
    requires
        well_formed(adj@),
    ensures
        all_cycles(adj@, cycles@),
        simple_lists(adj@) ==> distinct_cycles(cycles@),
        forall|c: Seq<usize>| #[trigger] is_cycle(adj@, c) ==> cycle_met(cycles@, c),
        cycles@.len() == 0 ==> forall|c: Seq<usize>| !is_cycle(adj@, c),
{
    let n = adj.len();
    let mut visited: Vec<bool> = Vec::new();
    let mut on_stack: Vec<bool> = Vec::new();
    let mut i: usize = 0;
    while i < n
        invariant
            i <= n == adj.len(),
            visited@.len() == i,
            on_stack@.len() == i,
            forall|x: int| 0 <= x < i ==> !visited@[x] && !on_stack@[x],
        decreases n - i,
    {
        visited.push(false);
        on_stack.push(false);
        i = i + 1;
    }
    let mut stack: Vec<usize> = Vec::new();
    let mut cycles: Vec<Vec<usize>> = Vec::new();
    let ghost mut fin: Seq<int> = Seq::new(n as nat, |x: int| 0);
    let ghost mut clock: int = 0;
    let mut s: usize = 0;
    while s < n
        invariant
            n == adj.len(),
            s <= n,
            well_formed(adj@),
            visited@.len() == n,
            on_stack@.len() == n,
            stack@.len() == 0,
            forall|x: int| 0 <= x < n ==> !on_stack@[x],
            forall|x: int| 0 <= x < s ==> visited@[x],
            all_cycles(adj@, cycles@),
            forall|i: int| 0 <= i < cycles@.len() ==> visited@[(#[trigger] cycles@[i])@.last() as int],
            simple_lists(adj@) ==> distinct_cycles(cycles@),
            closed(adj@, visited@, on_stack@, fin, clock, cycles@),
        decreases n - s,
    {
        if !visited[s] {
            assert(stack@.no_duplicates());
            let ghost b = count_false(visited@);
            let ghost vis_before = visited@;
            let t = dfs_cycle(s, adj, &mut visited, &mut on_stack, &mut stack, &mut cycles, Ghost(b), Ghost(fin), Ghost(clock));
            proof {
                fin = t@.0;
                clock = t@.1;
                assert forall|x: int| 0 <= x < s implies visited@[x] by {
                    assert(vis_before[x]);
                }
            }
        }
        s = s + 1;
    }
    proof {
        assert forall|c: Seq<usize>| #[trigger] is_cycle(adj@, c) implies cycle_met(cycles@, c) by {
            lemma_cycle_met(adj@, visited@, on_stack@, fin, clock, cycles@, c);
        }
        if cycles@.len() == 0 {
            assert forall|c: Seq<usize>| !is_cycle(adj@, c) by {
                if is_cycle(adj@, c) {
                    assert(cycle_met(cycles@, c));
                }
            }
        }
    }
    cycles
}

} // verus!
