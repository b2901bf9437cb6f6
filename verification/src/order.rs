//! Stable descending orders by an integer key.
use vstd::prelude::*;

verus! {

/// Position `a` comes before position `b` when its key is larger, or when the
/// keys are equal and `a` came first (a stable descending order).
pub open spec fn ranks_before(keys: Seq<u64>, a: int, b: int) -> bool {
    keys[a] > keys[b] || (keys[a] == keys[b] && a < b)
}

/// `order` lists every position of `keys` once, by descending key, ties in
/// their original order.
pub open spec fn is_desc_order(keys: Seq<u64>, order: Seq<usize>) -> bool {
    &&& order.len() == keys.len()
    &&& forall|i: int| 0 <= i < order.len() ==> #[trigger] order[i] < keys.len()
    &&& forall|i: int, j: int|
        0 <= i < j < order.len() ==> ranks_before(keys, #[trigger] order[i] as int, #[trigger] order[j] as int)
}

/// The positions of `keys` in stable descending order of key.
pub fn desc_order(keys: &Vec<u64>) -> (order: Vec<usize>)
    ensures
        is_desc_order(keys@, order@),
{
    let n = keys.len();
    let mut out: Vec<usize> = Vec::new();
    let mut i: usize = 0;
    while i < n
        invariant
            n == keys.len(),
            i <= n,
            out@.len() == i,
            forall|k: int| 0 <= k < out@.len() ==> #[trigger] out@[k] < i,
            forall|a: int, b: int|
                0 <= a < b < out@.len() ==> ranks_before(keys@, #[trigger] out@[a] as int, #[trigger] out@[b] as int),
        decreases n - i,
    {
        let mut p: usize = 0;
        while p < out.len() && keys[out[p]] >= keys[i]
            invariant
                p <= out@.len(),
                i < n == keys.len(),
                forall|k: int| 0 <= k < out@.len() ==> #[trigger] out@[k] < i,
                forall|k: int| 0 <= k < p ==> keys@[#[trigger] out@[k] as int] >= keys@[i as int],
            decreases out@.len() - p,
        {
            p = p + 1;
        }
        let ghost prev = out@;
        proof {
            if p < prev.len() {
                assert forall|k: int| p <= k < prev.len() implies keys@[#[trigger] prev[k] as int] < keys@[i as int] by {
                    if k > p {
                        assert(ranks_before(keys@, prev[p as int] as int, prev[k] as int));
                    }
                }
            }
        }
        out.insert(p, i);
        proof {
            assert forall|k: int| 0 <= k < out@.len() implies #[trigger] out@[k] < i + 1 by {
                if k < p {
                    assert(out@[k] == prev[k]);
                } else if k > p {
                    assert(out@[k] == prev[k - 1]);
                }
            }
            assert forall|a: int, b: int| 0 <= a < b < out@.len() implies ranks_before(
                keys@,
                #[trigger] out@[a] as int,
                #[trigger] out@[b] as int,
            ) by {
                if a < p && b < p {
                    assert(out@[a] == prev[a] && out@[b] == prev[b]);
                } else if a < p && b == p {
                    assert(out@[a] == prev[a]);
                } else if a < p && b > p {
                    assert(out@[a] == prev[a] && out@[b] == prev[b - 1]);
                } else if a == p {
                    assert(out@[b] == prev[b - 1]);
                } else {
                    assert(out@[a] == prev[a - 1] && out@[b] == prev[b - 1]);
                }
            }
        }
        i = i + 1;
    }
    out
}

/// A descending order lists every position of the keys.
proof fn lemma_desc_order_onto(keys: Seq<u64>, order: Seq<usize>)
    requires
        is_desc_order(keys, order),
    ensures
        forall|v: usize| v < keys.len() ==> #[trigger] order.contains(v),
{
    let m = order.map_values(|x: usize| x as int);
    assert forall|i: int, j: int| 0 <= i < j < m.len() implies m[i] != m[j] by {
        assert(ranks_before(keys, order[i] as int, order[j] as int));
    }
    assert(m.no_duplicates());
    m.unique_seq_to_set();
    let r = vstd::set_lib::set_int_range(0, keys.len() as int);
    vstd::set_lib::lemma_int_range(0, keys.len() as int);
    assert forall|x: int| m.to_set().contains(x) implies r.contains(x) by {
        let i = choose|i: int| 0 <= i < m.len() && m[i] == x;
        assert(order[i] < keys.len());
    }
    vstd::set_lib::lemma_subset_equality(m.to_set(), r);
    assert forall|v: usize| v < keys.len() implies #[trigger] order.contains(v) by {
        assert(r.contains(v as int));
        assert(m.to_set().contains(v as int));
        let i = choose|i: int| 0 <= i < m.len() && m[i] == v as int;
        assert(order[i] == v);
    }
}

/// The stable descending order of a list of keys is unique: any two
/// orders that both satisfy `is_desc_order` are the same.
pub proof fn lemma_desc_order_unique(keys: Seq<u64>, o1: Seq<usize>, o2: Seq<usize>)
    requires
        is_desc_order(keys, o1),
        is_desc_order(keys, o2),
    ensures
        o1 == o2,
{
    lemma_desc_order_onto(keys, o1);
    lemma_desc_order_onto(keys, o2);
    assert forall|i: int| 0 <= i < o1.len() implies o1[i] == o2[i] by {
        lemma_same_at(keys, o1, o2, i);
    }
    assert(o1 =~= o2);
}

/// Two descending orders of the same keys agree at every position.
proof fn lemma_same_at(keys: Seq<u64>, o1: Seq<usize>, o2: Seq<usize>, i: int)
    requires
        is_desc_order(keys, o1),
        is_desc_order(keys, o2),
        forall|v: usize| v < keys.len() ==> #[trigger] o1.contains(v),
        forall|v: usize| v < keys.len() ==> #[trigger] o2.contains(v),
        0 <= i < o1.len(),
    ensures
        o1[i] == o2[i],
    decreases i,
{
    if i > 0 {
        lemma_same_at(keys, o1, o2, i - 1);
    }
    let x = o1[i];
    let y = o2[i];
    if x != y {
        // y sits in o1 after position i, and x sits in o2 after position i
        assert(o1.contains(y));
        let j = choose|j: int| 0 <= j < o1.len() && o1[j] == y;
        assert(o2.contains(x));
        let j2 = choose|j: int| 0 <= j < o2.len() && o2[j] == x;
        assert forall|k: int| 0 <= k < i implies o1[k] == o2[k] by {
            lemma_same_at(keys, o1, o2, k);
        }
        if j < i {
            assert(o2[j] == y);
            assert(ranks_before(keys, o2[j] as int, o2[i] as int));
        } else if j > i {
            assert(ranks_before(keys, x as int, y as int));
            if j2 < i {
                assert(o1[j2] == x);
                assert(ranks_before(keys, o1[j2] as int, o1[i] as int));
            } else if j2 > i {
                assert(ranks_before(keys, y as int, x as int));
            }
        }
    }
}

} // verus!
