//! The shared witness planner.
//!
//! Both layouts walk their trees over the same index schedule: at each layer
//! the indices to visit are the union of the parents of the indices known at
//! the child layer and the queries native to the layer, in strictly
//! increasing order with duplicates merged.  This module holds that
//! sorted-merge machinery, shared by the decommitment builders and the
//! verifiers so that both traverse identical index sequences.

use vstd::prelude::*;

verus! {

/// A sequence of indices is strictly increasing.
pub open spec fn strictly_sorted(s: Seq<usize>) -> bool {
    forall|i: int, j: int| 0 <= i < j < s.len() ==> s[i] < s[j]
}

/// The mathematical view of a vector of index lists.
pub open spec fn indices_view(s: Seq<Vec<usize>>) -> Seq<Seq<usize>> {
    s.map_values(|v: Vec<usize>| v@)
}

/// Membership of a mathematical index in an index sequence.
pub open spec fn contains_idx(s: Seq<usize>, x: int) -> bool {
    exists|k: int| 0 <= k < s.len() && s[k] == x
}

/// Every index of the sequence lies below `bound`.
pub open spec fn all_below(s: Seq<usize>, bound: nat) -> bool {
    forall|i: int| 0 <= i < s.len() ==> #[trigger] s[i] < bound
}

/// The parents (`index / 2`) of a strictly increasing index sequence, with
/// adjacent duplicates merged.
pub open spec fn parent_fold(s: Seq<usize>) -> Seq<usize>
    decreases s.len(),
{
    if s.len() == 0 {
        Seq::empty()
    } else {
        let init = parent_fold(s.drop_last());
        let p = (s.last() / 2) as usize;
        if init.len() > 0 && init.last() == p {
            init
        } else {
            init.push(p)
        }
    }
}

/// The sorted union of two strictly increasing index sequences, with
/// duplicates merged.
pub open spec fn merge_union(a: Seq<usize>, b: Seq<usize>) -> Seq<usize>
    decreases a.len() + b.len(),
{
    if a.len() == 0 {
        b
    } else if b.len() == 0 {
        a
    } else if a.last() > b.last() {
        merge_union(a.drop_last(), b).push(a.last())
    } else if b.last() > a.last() {
        merge_union(a, b.drop_last()).push(b.last())
    } else {
        merge_union(a.drop_last(), b.drop_last()).push(a.last())
    }
}

/// The next node index the decommitment traversal visits: the smaller of the
/// parent of the next still-unconsumed child-layer index and the next
/// still-unconsumed query of the current layer, or `None` when both streams
/// are exhausted.
pub fn next_decommitment_node_for_prover(
    prev_queries: &Vec<usize>,
    prev_at: usize,
    layer_queries: &Vec<usize>,
    layer_at: usize,
) -> (r: Option<usize>)
    ensures
        r is None <==> (prev_at >= prev_queries@.len() && layer_at >= layer_queries@.len()),
        r is Some ==> {
            let prev = if prev_at < prev_queries@.len() {
                Some((prev_queries@[prev_at as int] / 2) as usize)
            } else {
                None
            };
            let layer = if layer_at < layer_queries@.len() {
                Some(layer_queries@[layer_at as int])
            } else {
                None
            };
            match (prev, layer) {
                (Some(a), Some(b)) => r->0 == if a < b {
                    a
                } else {
                    b
                },
                (Some(a), None) => r->0 == a,
                (None, Some(b)) => r->0 == b,
                (None, None) => false,
            }
        },
{
    if prev_at < prev_queries.len() {
        let p = prev_queries[prev_at] / 2;
        if layer_at < layer_queries.len() {
            let q = layer_queries[layer_at];
            if p < q {
                Some(p)
            } else {
                Some(q)
            }
        } else {
            Some(p)
        }
    } else if layer_at < layer_queries.len() {
        Some(layer_queries[layer_at])
    } else {
        None
    }
}

/// Computes [`parent_fold`] of a vector.
pub fn parent_dedup(s: &Vec<usize>) -> (r: Vec<usize>)
    ensures
        r@ == parent_fold(s@),
{
    let mut r: Vec<usize> = Vec::new();
    let mut i: usize = 0;
    while i < s.len()
        invariant
            i <= s.len(),
            r@ == parent_fold(s@.take(i as int)),
        decreases s.len() - i,
    {
        let p = s[i] / 2;
        proof {
            assert(s@.take(i + 1).drop_last() =~= s@.take(i as int));
            assert(s@.take(i + 1).last() == s@[i as int]);
        }
        if r.len() > 0 {
            let last = r[r.len() - 1];
            if last != p {
                r.push(p);
            }
        } else {
            r.push(p);
        }
        i += 1;
    }
    proof {
        assert(s@.take(s@.len() as int) =~= s@);
    }
    r
}

/// Merges two strictly increasing vectors into their sorted union.
pub fn merge_sorted(a: &Vec<usize>, b: &Vec<usize>) -> (r: Vec<usize>)
    requires
        strictly_sorted(a@),
        strictly_sorted(b@),
    ensures
        r@ == merge_union(a@, b@),
{
    let mut r: Vec<usize> = Vec::new();
    let mut i: usize = 0;
    let mut j: usize = 0;
    while i < a.len() || j < b.len()
        invariant
            i <= a.len(),
            j <= b.len(),
            strictly_sorted(a@),
            strictly_sorted(b@),
            r@ == merge_union(a@.take(i as int), b@.take(j as int)),
            i < a.len() && j > 0 ==> b@[j - 1] < a@[i as int],
            j < b.len() && i > 0 ==> a@[i - 1] < b@[j as int],
        decreases a.len() + b.len() - i - j,
    {
        proof {
            if i < a.len() {
                assert(a@.take(i + 1).drop_last() =~= a@.take(i as int));
            }
            if j < b.len() {
                assert(b@.take(j + 1).drop_last() =~= b@.take(j as int));
            }
        }
        if j >= b.len() || (i < a.len() && a[i] < b[j]) {
            r.push(a[i]);
            i += 1;
        } else if i >= a.len() || b[j] < a[i] {
            r.push(b[j]);
            j += 1;
        } else {
            r.push(a[i]);
            i += 1;
            j += 1;
        }
    }
    proof {
        assert(a@.take(a@.len() as int) =~= a@);
        assert(b@.take(b@.len() as int) =~= b@);
    }
    r
}

/// Copies an index vector.
pub fn copy_indices(s: &Vec<usize>) -> (r: Vec<usize>)
    ensures
        r@ == s@,
{
    let mut r: Vec<usize> = Vec::new();
    let mut i: usize = 0;
    while i < s.len()
        invariant
            i <= s@.len(),
            r@ == s@.take(i as int),
        decreases s@.len() - i,
    {
        r.push(s[i]);
        proof {
            assert(s@.take(i + 1) =~= s@.take(i as int).push(s@[i as int]));
        }
        i += 1;
    }
    proof {
        assert(s@.take(s@.len() as int) =~= s@);
    }
    r
}

/// Linear membership scan.
pub fn seq_contains(s: &Vec<usize>, x: usize) -> (r: bool)
    ensures
        r == s@.contains(x),
{
    let mut i: usize = 0;
    while i < s.len()
        invariant
            i <= s.len(),
            forall|k: int| 0 <= k < i ==> s@[k] != x,
        decreases s.len() - i,
    {
        if s[i] == x {
            return true;
        }
        i += 1;
    }
    false
}

/// Linear scan for the first position of `x`.
pub fn find_index(s: &Vec<usize>, x: usize) -> (r: Option<usize>)
    ensures
        match r {
            Some(k) => k < s@.len() && s@[k as int] == x,
            None => !s@.contains(x),
        },
{
    let mut i: usize = 0;
    while i < s.len()
        invariant
            i <= s.len(),
            forall|k: int| 0 <= k < i ==> s@[k] != x,
        decreases s.len() - i,
    {
        if s[i] == x {
            return Some(i);
        }
        i += 1;
    }
    None
}

/// [`parent_fold`] of a strictly increasing sequence is strictly increasing,
/// never empty for nonempty input, and ends at the parent of the last index.
pub proof fn lemma_parent_fold_sorted(s: Seq<usize>)
    requires
        strictly_sorted(s),
    ensures
        strictly_sorted(parent_fold(s)),
        s.len() > 0 ==> parent_fold(s).len() > 0 && parent_fold(s).last() == s.last() / 2,
    decreases s.len(),
{
    if s.len() > 0 {
        let init = parent_fold(s.drop_last());
        let p = (s.last() / 2) as usize;
        assert(strictly_sorted(s.drop_last()));
        lemma_parent_fold_sorted(s.drop_last());
        if s.len() > 1 {
            assert(s.drop_last().last() == s[s.len() - 2]);
            assert(s[s.len() - 2] < s.last());
            assert(s[s.len() - 2] / 2 <= s.last() / 2) by {
                vstd::arithmetic::div_mod::lemma_div_is_ordered(
                    s[s.len() - 2] as int,
                    s.last() as int,
                    2,
                );
            }
        }
    }
}

/// The sorted union of two strictly increasing sequences is strictly
/// increasing and ends at the larger of the two last indices.
pub proof fn lemma_merge_union_sorted(a: Seq<usize>, b: Seq<usize>)
    requires
        strictly_sorted(a),
        strictly_sorted(b),
    ensures
        strictly_sorted(merge_union(a, b)),
        merge_union(a, b).len() > 0 ==> a.len() > 0 || b.len() > 0,
        a.len() > 0 && b.len() == 0 ==> merge_union(a, b).last() == a.last(),
        b.len() > 0 && a.len() == 0 ==> merge_union(a, b).last() == b.last(),
        a.len() > 0 && b.len() > 0 ==> merge_union(a, b).len() > 0 && merge_union(a, b).last() == (
        if a.last() > b.last() {
            a.last()
        } else {
            b.last()
        }),
    decreases a.len() + b.len(),
{
    if a.len() == 0 || b.len() == 0 {
    } else if a.last() > b.last() {
        assert(strictly_sorted(a.drop_last()));
        lemma_merge_union_sorted(a.drop_last(), b);
        let m = merge_union(a.drop_last(), b);
        assert forall|i: int, j: int|
            0 <= i < j < m.push(a.last()).len() implies m.push(a.last())[i] < m.push(
            a.last(),
        )[j] by {
            if j == m.len() {
                if m.len() > 0 {
                    if a.len() > 1 {
                        assert(a.drop_last().last() == a[a.len() - 2]);
                        assert(a[a.len() - 2] < a.last());
                    }
                    assert(m[i] <= m.last());
                }
            }
        }
    } else if b.last() > a.last() {
        assert(strictly_sorted(b.drop_last()));
        lemma_merge_union_sorted(a, b.drop_last());
        let m = merge_union(a, b.drop_last());
        assert forall|i: int, j: int|
            0 <= i < j < m.push(b.last()).len() implies m.push(b.last())[i] < m.push(
            b.last(),
        )[j] by {
            if j == m.len() {
                if m.len() > 0 {
                    if b.len() > 1 {
                        assert(b.drop_last().last() == b[b.len() - 2]);
                        assert(b[b.len() - 2] < b.last());
                    }
                    assert(m[i] <= m.last());
                }
            }
        }
    } else {
        assert(strictly_sorted(a.drop_last()));
        assert(strictly_sorted(b.drop_last()));
        lemma_merge_union_sorted(a.drop_last(), b.drop_last());
        let m = merge_union(a.drop_last(), b.drop_last());
        assert forall|i: int, j: int|
            0 <= i < j < m.push(a.last()).len() implies m.push(a.last())[i] < m.push(
            a.last(),
        )[j] by {
            if j == m.len() {
                if m.len() > 0 {
                    if a.len() > 1 {
                        assert(a.drop_last().last() == a[a.len() - 2]);
                        assert(a[a.len() - 2] < a.last());
                    }
                    if b.len() > 1 {
                        assert(b.drop_last().last() == b[b.len() - 2]);
                        assert(b[b.len() - 2] < b.last());
                    }
                    assert(m[i] <= m.last());
                }
            }
        }
    }
}

/// The sorted union of two sequences is nonempty when either is.
pub proof fn lemma_merge_union_nonempty(a: Seq<usize>, b: Seq<usize>)
    ensures
        a.len() > 0 || b.len() > 0 ==> merge_union(a, b).len() > 0,
{
    if a.len() == 0 || b.len() == 0 {
    } else {
        assert(merge_union(a, b).len() > 0);
    }
}

/// Parents of indices below `2 * bound` lie below `bound`.
pub proof fn lemma_parent_fold_below(s: Seq<usize>, bound: nat)
    requires
        all_below(s, 2 * bound),
    ensures
        all_below(parent_fold(s), bound),
    decreases s.len(),
{
    if s.len() > 0 {
        assert(all_below(s.drop_last(), 2 * bound));
        lemma_parent_fold_below(s.drop_last(), bound);
    }
}

/// The sorted union keeps every index below a common bound.
pub proof fn lemma_merge_union_below(a: Seq<usize>, b: Seq<usize>, bound: nat)
    requires
        all_below(a, bound),
        all_below(b, bound),
    ensures
        all_below(merge_union(a, b), bound),
    decreases a.len() + b.len(),
{
    if a.len() == 0 || b.len() == 0 {
    } else if a.last() > b.last() {
        assert(all_below(a.drop_last(), bound));
        lemma_merge_union_below(a.drop_last(), b, bound);
    } else if b.last() > a.last() {
        assert(all_below(b.drop_last(), bound));
        lemma_merge_union_below(a, b.drop_last(), bound);
    } else {
        assert(all_below(a.drop_last(), bound));
        assert(all_below(b.drop_last(), bound));
        lemma_merge_union_below(a.drop_last(), b.drop_last(), bound);
    }
}

} // verus!
