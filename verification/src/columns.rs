//! Columns, layer widths and the lifted re-indexing map.
//!
//! A column is an ordered sequence of field values whose length is a power of
//! two; its log-size tags the tree layer (grouped layout) or the widening
//! group (lifted layout) it belongs to.  This module holds the power-of-two
//! helpers, the per-layer column bucketing and the perfect-shuffle index map
//! that folds a narrow column into a wider leaf layer.

use vstd::prelude::*;

use vstd::arithmetic::power2::pow2;
use vstd::arithmetic::power2::lemma_pow2_adds;
use vstd::arithmetic::power2::lemma_pow2_unfold;
use vstd::arithmetic::power2::lemma_pow2_strictly_increases;
use vstd::bits::lemma_usize_pow2_no_overflow;

use crate::hashing::FIELD_MODULUS;

verus! {

/// The largest supported log-size of a column: wide enough for any tree a
/// machine can hold, small enough that every node index fits a `usize`.
pub const MAX_LOG_SIZE: u32 = 30;

/// `2^e` as a machine integer.
pub fn pow2_usize(e: u32) -> (r: usize)
    requires
        e < usize::BITS,
    ensures
        r == pow2(e as nat),
{
    proof {
        lemma_usize_pow2_no_overflow(e as nat);
        assert(pow2(0) == 1) by {
            vstd::arithmetic::power2::lemma2_to64();
        }
    }
    let mut r: usize = 1;
    let mut i: u32 = 0;
    while i < e
        invariant
            i <= e,
            e < usize::BITS,
            r == pow2(i as nat),
        decreases e - i,
    {
        proof {
            lemma_usize_pow2_no_overflow((i + 1) as nat);
            lemma_pow2_unfold((i + 1) as nat);
        }
        r = r * 2;
        i += 1;
    }
    r
}

/// The mathematical view of a vector of columns: a sequence of value
/// sequences.
pub open spec fn view2(cols: Seq<Vec<u32>>) -> Seq<Seq<u32>> {
    cols.map_values(|v: Vec<u32>| v@)
}

/// A set of columns is well formed for its log-sizes when the two vectors
/// pair up, each log-size is supported, and each column has exactly
/// `2^log_size` values, all canonical field residues.
pub open spec fn columns_wf(sizes: Seq<u32>, cols: Seq<Seq<u32>>) -> bool {
    &&& sizes.len() == cols.len()
    &&& forall|i: int|
        0 <= i < sizes.len() ==> #[trigger] sizes[i] <= MAX_LOG_SIZE && cols[i].len() == pow2(
            sizes[i] as nat,
        ) && forall|j: int| 0 <= j < cols[i].len() ==> cols[i][j] < FIELD_MODULUS
}

/// The largest log-size among the columns (zero when there are none).
pub open spec fn max_log_size(sizes: Seq<u32>) -> u32
    decreases sizes.len(),
{
    if sizes.len() == 0 {
        0
    } else {
        let rest = max_log_size(sizes.drop_last());
        if sizes.last() > rest {
            sizes.last()
        } else {
            rest
        }
    }
}

/// Computes [`max_log_size`] of a vector.
pub fn max_log_size_exec(sizes: &Vec<u32>) -> (r: u32)
    ensures
        r == max_log_size(sizes@),
{
    let mut r: u32 = 0;
    let mut i: usize = 0;
    while i < sizes.len()
        invariant
            i <= sizes.len(),
            r == max_log_size(sizes@.take(i as int)),
        decreases sizes.len() - i,
    {
        proof {
            assert(sizes@.take(i + 1).drop_last() =~= sizes@.take(i as int));
        }
        if sizes[i] > r {
            r = sizes[i];
        }
        i += 1;
    }
    proof {
        assert(sizes@.take(sizes@.len() as int) =~= sizes@);
    }
    r
}

/// No log-size exceeds the maximum.
pub proof fn lemma_max_log_size_ge(sizes: Seq<u32>)
    ensures
        forall|i: int| 0 <= i < sizes.len() ==> #[trigger] sizes[i] <= max_log_size(sizes),
    decreases sizes.len(),
{
    if sizes.len() > 0 {
        lemma_max_log_size_ge(sizes.drop_last());
        assert forall|i: int| 0 <= i < sizes.len() implies #[trigger] sizes[i] <= max_log_size(
            sizes,
        ) by {
            if i < sizes.len() - 1 {
                assert(sizes.drop_last()[i] == sizes[i]);
                assert(sizes.drop_last()[i] <= max_log_size(sizes.drop_last()));
            }
        }
    }
}

/// The values at index `i` of every column whose log-size is `l`, in column
/// order.
pub open spec fn node_vals(sizes: Seq<u32>, cols: Seq<Seq<u32>>, l: u32, i: nat) -> Seq<u32>
    decreases sizes.len(),
{
    if sizes.len() == 0 {
        Seq::empty()
    } else {
        let init = node_vals(sizes.drop_last(), cols.drop_last(), l, i);
        if sizes.last() == l {
            init.push(cols.last()[i as int])
        } else {
            init
        }
    }
}

/// The number of columns whose log-size is `l`.
pub open spec fn n_cols_at(sizes: Seq<u32>, l: u32) -> nat
    decreases sizes.len(),
{
    if sizes.len() == 0 {
        0
    } else {
        n_cols_at(sizes.drop_last(), l) + if sizes.last() == l {
            1nat
        } else {
            0nat
        }
    }
}

/// [`node_vals`] always yields one value per column of the layer.
pub proof fn lemma_node_vals_len(sizes: Seq<u32>, cols: Seq<Seq<u32>>, l: u32, i: nat)
    requires
        sizes.len() == cols.len(),
    ensures
        node_vals(sizes, cols, l, i).len() == n_cols_at(sizes, l),
    decreases sizes.len(),
{
    if sizes.len() > 0 {
        lemma_node_vals_len(sizes.drop_last(), cols.drop_last(), l, i);
    }
}

/// Collects [`node_vals`] of a column set.
pub fn node_vals_exec(sizes: &Vec<u32>, cols: &Vec<Vec<u32>>, l: u32, i: usize) -> (r: Vec<u32>)
    requires
        sizes@.len() == cols@.len(),
        forall|c: int| 0 <= c < sizes@.len() && sizes@[c] == l ==> i < #[trigger] cols@[c].len(),
    ensures
        r@ == node_vals(sizes@, view2(cols@), l, i as nat),
{
    let mut r: Vec<u32> = Vec::new();
    let mut c: usize = 0;
    while c < sizes.len()
        invariant
            c <= sizes@.len(),
            sizes@.len() == cols@.len(),
            forall|k: int| 0 <= k < sizes@.len() && sizes@[k] == l ==> i < #[trigger] cols@[k].len(),
            r@ == node_vals(sizes@.take(c as int), view2(cols@).take(c as int), l, i as nat),
        decreases sizes.len() - c,
    {
        proof {
            assert(sizes@.take(c + 1).drop_last() =~= sizes@.take(c as int));
            assert(view2(cols@).take(c + 1).drop_last() =~= view2(cols@).take(c as int));
            assert(view2(cols@).take(c + 1).last() == cols@[c as int]@);
        }
        if sizes[c] == l {
            proof {
                assert(i < cols@[c as int].len());
            }
            r.push(cols[c][i]);
        }
        c += 1;
    }
    proof {
        assert(sizes@.take(sizes@.len() as int) =~= sizes@);
        assert(view2(cols@).take(cols@.len() as int) =~= view2(cols@));
    }
    r
}

/// Counts the columns of log-size `l`.
pub fn n_cols_at_exec(sizes: &Vec<u32>, l: u32) -> (r: usize)
    ensures
        r == n_cols_at(sizes@, l),
{
    let mut r: usize = 0;
    let mut c: usize = 0;
    while c < sizes.len()
        invariant
            c <= sizes@.len(),
            r == n_cols_at(sizes@.take(c as int), l),
            r <= c,
        decreases sizes.len() - c,
    {
        proof {
            assert(sizes@.take(c + 1).drop_last() =~= sizes@.take(c as int));
        }
        if sizes[c] == l {
            r += 1;
        }
        c += 1;
    }
    proof {
        assert(sizes@.take(sizes@.len() as int) =~= sizes@);
    }
    r
}

/// Copies a vector of log-sizes.
pub fn copy_u32s(v: &Vec<u32>) -> (r: Vec<u32>)
    ensures
        r@ == v@,
{
    let mut r: Vec<u32> = Vec::new();
    let mut i: usize = 0;
    while i < v.len()
        invariant
            i <= v@.len(),
            r@ == v@.take(i as int),
        decreases v@.len() - i,
    {
        r.push(v[i]);
        proof {
            assert(v@.take(i + 1) =~= v@.take(i as int).push(v@[i as int]));
        }
        i += 1;
    }
    proof {
        assert(v@.take(v@.len() as int) =~= v@);
    }
    r
}

/// Copies `n` values starting at `from`.
pub fn copy_range(v: &Vec<u32>, from: usize, n: usize) -> (r: Vec<u32>)
    requires
        from + n <= v@.len(),
    ensures
        r@ == v@.subrange(from as int, from + n),
{
    let len = v.len();
    let mut r: Vec<u32> = Vec::new();
    let mut i: usize = 0;
    while i < n
        invariant
            i <= n,
            from + n <= len,
            len == v@.len(),
            r@ == v@.subrange(from as int, from + i),
        decreases n - i,
    {
        r.push(v[from + i]);
        proof {
            assert(v@.subrange(from as int, from + i + 1) =~= v@.subrange(from as int, from + i)
                .push(v@[from + i]));
        }
        i += 1;
    }
    r
}

/// The perfect-shuffle map of the lifted layout: the index of the narrow
/// layer addressed by index `idx` of a layer `shift` log-sizes wider.  It
/// keeps the lowest bit and strips the `shift` bits above it.
pub open spec fn lift_index(shift: u32, idx: nat) -> nat {
    (idx / pow2(shift as nat + 1)) * 2 + idx % 2
}

/// The lifted map sends a wide index into the narrow layer's range.
pub proof fn lemma_lift_index_below(shift: u32, idx: nat, narrow_log: u32)
    requires
        narrow_log >= 1,
        idx < pow2(narrow_log as nat + shift as nat),
    ensures
        lift_index(shift, idx) < pow2(narrow_log as nat),
{
    let p = pow2(shift as nat + 1);
    let c = pow2((narrow_log - 1) as nat);
    lemma_pow2_adds(shift as nat + 1, (narrow_log - 1) as nat);
    assert(pow2(narrow_log as nat + shift as nat) == p * c) by {
        assert(narrow_log as nat + shift as nat == (shift as nat + 1) + (narrow_log - 1) as nat);
    }
    assert(idx / p < c) by {
        vstd::arithmetic::power2::lemma_pow2_pos(shift as nat + 1);
        vstd::arithmetic::div_mod::lemma_multiply_divide_lt(idx as int, p as int, c as int);
    }
    let q = idx / p;
    assert(q * 2 + idx % 2 < c * 2) by {
        assert(idx % 2 < 2);
        assert(q + 1 <= c);
        assert(q * 2 + 2 <= c * 2);
    }
    assert(c * 2 == pow2(narrow_log as nat)) by {
        lemma_pow2_unfold(narrow_log as nat);
    }
}

/// Computes [`lift_index`].
pub fn lift_index_exec(shift: u32, idx: usize) -> (r: usize)
    requires
        shift + 1 < usize::BITS,
    ensures
        r == lift_index(shift, idx as nat),
        r <= idx,
{
    let p = pow2_usize(shift + 1);
    proof {
        vstd::arithmetic::power2::lemma_pow2_pos(shift as nat + 1);
        assert(p >= 2) by {
            lemma_pow2_strictly_increases(0, shift as nat + 1);
            vstd::arithmetic::power2::lemma2_to64();
        }
        assert(idx / p * 2 <= idx) by (nonlinear_arith)
            requires
                p >= 2,
        ;
        assert(idx / p * 2 + idx % 2 <= idx) by (nonlinear_arith)
            requires
                p >= 2,
        ;
    }
    (idx / p) * 2 + idx % 2
}

} // verus!
