//! The lifted Merkle layout.
//!
//! Every column, whatever its width, is folded into a single leaf layer of
//! the widest size `2^max_l`.  Columns are absorbed in increasing log-size
//! order; a column of log-size `s` contributes to leaf `idx` its value at the
//! perfect-shuffle index [`lift_index`]`(max_l - s, idx)`.  A conventional
//! binary tree is built above the leaves.  Queries are global positions at
//! the leaf layer; every queried column value is revealed, and the hash
//! witness holds exactly the sibling digests of positions whose sibling is
//! not itself known, layer by layer from the leaves to the root.

use vstd::prelude::*;

use vstd::arithmetic::power2::pow2;
use vstd::arithmetic::power2::lemma_pow2_unfold;

use crate::columns::MAX_LOG_SIZE;
use crate::columns::columns_wf;
use crate::columns::lemma_lift_index_below;
use crate::columns::lemma_max_log_size_ge;
use crate::columns::lift_index;
use crate::columns::lift_index_exec;
use crate::columns::max_log_size;
use crate::columns::max_log_size_exec;
use crate::columns::node_vals;
use crate::columns::node_vals_exec;
use crate::columns::pow2_usize;
use crate::columns::view2;
use crate::grouped::lemma_max_is_some_size;
use crate::hashing::digests_equal;
use crate::hashing::digests_view;
use crate::hashing::hash_children;
use crate::hashing::is_digest;
use crate::hashing::leaf_hash;
use crate::hashing::lemma_digests_view_push;
use crate::hashing::lifted_children_hash;
use crate::hashing::lifted_leaf_hash;
use crate::planner::all_below;
use crate::planner::strictly_sorted;

verus! {

/// Columns are well formed for the lifted layout when they are well formed
/// in general and none is narrower than two values.
pub open spec fn lifted_columns_wf(sizes: Seq<u32>, cols: Seq<Seq<u32>>) -> bool {
    &&& columns_wf(sizes, cols)
    &&& forall|i: int| 0 <= i < sizes.len() ==> #[trigger] sizes[i] >= 1
}

/// The row of values absorbed into leaf `idx`, restricted to columns of
/// log-size at most `s`: for each log-size in increasing order, the values of
/// its columns at the shuffled index.
pub open spec fn leaf_row_upto(
    sizes: Seq<u32>,
    cols: Seq<Seq<u32>>,
    max_l: u32,
    s: u32,
    idx: nat,
) -> Seq<u32>
    decreases s,
{
    if s == 0 {
        Seq::empty()
    } else {
        leaf_row_upto(sizes, cols, max_l, (s - 1) as u32, idx) + node_vals(
            sizes,
            cols,
            s,
            lift_index((max_l - s) as u32, idx),
        )
    }
}

/// The full row absorbed into leaf `idx`.
pub open spec fn leaf_row(sizes: Seq<u32>, cols: Seq<Seq<u32>>, max_l: u32, idx: nat) -> Seq<u32> {
    leaf_row_upto(sizes, cols, max_l, max_l, idx)
}

/// The digest of the lifted node at layer `l`, index `i`: a leaf digest at
/// the deepest layer, the digest of the two children above it.
pub open spec fn lnode(sizes: Seq<u32>, cols: Seq<Seq<u32>>, max_l: u32, l: u32, i: nat) -> Seq<u8>
    decreases max_l - l,
{
    if l >= max_l {
        lifted_leaf_hash(leaf_row(sizes, cols, max_l, i))
    } else {
        lifted_children_hash(
            lnode(sizes, cols, max_l, (l + 1) as u32, 2 * i),
            lnode(sizes, cols, max_l, (l + 1) as u32, 2 * i + 1),
        )
    }
}

/// The commitment root of a lifted tree.
pub open spec fn lifted_root_spec(sizes: Seq<u32>, cols: Seq<Seq<u32>>) -> Seq<u8> {
    lnode(sizes, cols, max_log_size(sizes), 0, 0)
}

/// A committed lifted tree: the columns and every layer of node digests.
pub struct LiftedTree {
    /// The log-size of each committed column.
    pub column_log_sizes: Vec<u32>,
    /// The committed columns, in commitment order.
    pub columns: Vec<Vec<u32>>,
    /// All tree layers, indexed by log-size; layer `max_l` holds the leaves.
    pub layers: Vec<Vec<Vec<u8>>>,
}

impl LiftedTree {
    /// The tree caches exactly the node digests of the model.
    pub open spec fn wf(self) -> bool {
        let sizes = self.column_log_sizes@;
        let cols = view2(self.columns@);
        let max_l = max_log_size(sizes);
        &&& lifted_columns_wf(sizes, cols)
        &&& self.layers@.len() == max_l + 1
        &&& forall|l: int|
            0 <= l < self.layers@.len() ==> (#[trigger] self.layers@[l])@.len() == pow2(l as nat)
        &&& forall|l: int, i: int|
            0 <= l < self.layers@.len() && 0 <= i < self.layers@[l]@.len() ==> (
            #[trigger] self.layers@[l]@[i])@ == lnode(sizes, cols, max_l, l as u32, i as nat)
                && is_digest(self.layers@[l]@[i]@)
    }

    /// The leaf layer's log-size.
    pub open spec fn spec_max_l(self) -> u32 {
        max_log_size(self.column_log_sizes@)
    }

    /// The commitment root of the model.
    pub open spec fn spec_root(self) -> Seq<u8> {
        lifted_root_spec(self.column_log_sizes@, view2(self.columns@))
    }

    /// Returns the commitment root.
    pub fn root(&self) -> (r: Vec<u8>)
        requires
            self.wf(),
        ensures
            r@ == self.spec_root(),
            is_digest(r@),
    {
        proof {
            assert(pow2(0) == 1) by {
                vstd::arithmetic::power2::lemma2_to64();
            }
            assert(self.layers@[0]@[0]@ == lnode(
                self.column_log_sizes@,
                view2(self.columns@),
                max_log_size(self.column_log_sizes@),
                0,
                0,
            ));
        }
        crate::grouped::copy_digest(&self.layers[0][0])
    }
}

/// Collects the row absorbed into leaf `idx`.
fn leaf_row_exec(sizes: &Vec<u32>, cols: &Vec<Vec<u32>>, max_l: u32, idx: usize) -> (r: Vec<u32>)
    requires
        lifted_columns_wf(sizes@, view2(cols@)),
        max_l == max_log_size(sizes@),
        max_l <= MAX_LOG_SIZE,
        idx < pow2(max_l as nat),
    ensures
        r@ == leaf_row(sizes@, view2(cols@), max_l, idx as nat),
{
    let mut r: Vec<u32> = Vec::new();
    let mut s: u32 = 1;
    proof {
        assert(leaf_row_upto(sizes@, view2(cols@), max_l, 0, idx as nat) =~= Seq::<u32>::empty());
    }
    while s <= max_l
        invariant
            1 <= s <= max_l + 1,
            max_l <= MAX_LOG_SIZE,
            max_l == max_log_size(sizes@),
            lifted_columns_wf(sizes@, view2(cols@)),
            idx < pow2(max_l as nat),
            r@ == leaf_row_upto(sizes@, view2(cols@), max_l, (s - 1) as u32, idx as nat),
        decreases max_l + 1 - s,
    {
        let shift = max_l - s;
        proof {
            assert(pow2(s as nat + shift as nat) == pow2(max_l as nat));
            lemma_lift_index_below(shift, idx as nat, s);
        }
        let j = lift_index_exec(shift, idx);
        proof {
            assert(j < pow2(s as nat));
            assert forall|c: int|
                0 <= c < sizes@.len() && sizes@[c] == s implies j < #[trigger] cols@[c]@.len() by {
                assert(view2(cols@)[c].len() == pow2(sizes@[c] as nat));
            }
        }
        let mut vals = node_vals_exec(sizes, cols, s, j);
        r.append(&mut vals);
        s += 1;
    }
    r
}

/// Builds the full lifted tree over the given columns.
#[verifier::spinoff_prover]
pub fn lifted_commit(column_log_sizes: Vec<u32>, columns: Vec<Vec<u32>>) -> (t: LiftedTree)
    requires
        lifted_columns_wf(column_log_sizes@, view2(columns@)),
        column_log_sizes@.len() > 0,
    ensures
        t.wf(),
        t.column_log_sizes@ == column_log_sizes@,
        view2(t.columns@) == view2(columns@),
        t.spec_root() == lifted_root_spec(column_log_sizes@, view2(columns@)),
{
    let ghost sizes = column_log_sizes@;
    let ghost colsv = view2(columns@);
    let ghost maxl = max_log_size(sizes);
    let max_l = max_log_size_exec(&column_log_sizes);
    proof {
        assert(maxl <= MAX_LOG_SIZE) by {
            if sizes.len() > 0 {
                lemma_max_is_some_size(sizes);
                let i = choose|i: int| 0 <= i < sizes.len() && sizes[i] == maxl;
                assert(sizes[i] <= MAX_LOG_SIZE);
            }
        }
    }
    // `down[k]` holds layer `max_l - k`: the leaves are built first.
    let mut down: Vec<Vec<Vec<u8>>> = Vec::new();
    let mut step: u32 = 0;
    while step <= max_l
        invariant
            step <= max_l + 1,
            max_l == maxl,
            maxl <= MAX_LOG_SIZE,
            sizes == column_log_sizes@,
            colsv == view2(columns@),
            lifted_columns_wf(sizes, colsv),
            maxl == max_log_size(sizes),
            down@.len() == step,
            forall|k: int|
                0 <= k < down@.len() ==> (#[trigger] down@[k])@.len() == pow2((maxl - k) as nat),
            forall|k: int, i: int|
                0 <= k < down@.len() && 0 <= i < down@[k]@.len() ==> (#[trigger] down@[k]@[i])@
                    == lnode(sizes, colsv, maxl, (maxl - k) as u32, i as nat) && is_digest(
                    down@[k]@[i]@,
                ),
        decreases max_l + 1 - step,
    {
        let l = max_l - step;
        let n_nodes = pow2_usize(l);
        let mut layer: Vec<Vec<u8>> = Vec::new();
        let mut i: usize = 0;
        while i < n_nodes
            invariant
                i <= n_nodes,
                n_nodes == pow2(l as nat),
                l == maxl - step,
                step <= max_l,
                max_l == maxl,
                maxl <= MAX_LOG_SIZE,
                sizes == column_log_sizes@,
                colsv == view2(columns@),
                lifted_columns_wf(sizes, colsv),
                maxl == max_log_size(sizes),
                down@.len() == step,
                forall|k: int|
                    0 <= k < down@.len() ==> (#[trigger] down@[k])@.len() == pow2((maxl - k) as nat),
                forall|k: int, j: int|
                    0 <= k < down@.len() && 0 <= j < down@[k]@.len() ==> (#[trigger] down@[k]@[j])@
                        == lnode(sizes, colsv, maxl, (maxl - k) as u32, j as nat) && is_digest(
                        down@[k]@[j]@,
                    ),
                layer@.len() == i,
                forall|j: int|
                    0 <= j < i ==> (#[trigger] layer@[j])@ == lnode(sizes, colsv, maxl, l, j as nat)
                        && is_digest(layer@[j]@),
            decreases n_nodes - i,
        {
            let node = if step == 0 {
                let row = leaf_row_exec(&column_log_sizes, &columns, max_l, i);
                leaf_hash(&row)
            } else {
                let prev = &down[(step - 1) as usize];
                proof {
                    assert(down@[step - 1]@.len() == pow2((maxl - (step - 1)) as nat));
                    assert((maxl - (step - 1)) as nat == (l + 1) as nat);
                    assert(pow2((l + 1) as nat) == 2 * pow2(l as nat)) by {
                        lemma_pow2_unfold((l + 1) as nat);
                    }
                    assert(2 * i + 1 < pow2((l + 1) as nat));
                    assert(pow2((l + 1) as nat) < usize::MAX) by {
                        vstd::bits::lemma_usize_pow2_no_overflow(31);
                        if l + 1 < 31 {
                            vstd::arithmetic::power2::lemma_pow2_strictly_increases(
                                (l + 1) as nat,
                                31,
                            );
                        }
                    }
                }
                hash_children(&prev[2 * i], &prev[2 * i + 1])
            };
            layer.push(node);
            i += 1;
        }
        down.push(layer);
        step += 1;
    }
    // Reassemble in layer order: `down` ends with layer 0.
    let mut layers: Vec<Vec<Vec<u8>>> = Vec::new();
    let mut l: u32 = 0;
    while l <= max_l
        invariant
            l <= max_l + 1,
            max_l == maxl,
            maxl <= MAX_LOG_SIZE,
            down@.len() == max_l + 1 - l,
            forall|k: int|
                0 <= k < down@.len() ==> (#[trigger] down@[k])@.len() == pow2((maxl - k) as nat),
            forall|k: int, i: int|
                0 <= k < down@.len() && 0 <= i < down@[k]@.len() ==> (#[trigger] down@[k]@[i])@
                    == lnode(sizes, colsv, maxl, (maxl - k) as u32, i as nat) && is_digest(
                    down@[k]@[i]@,
                ),
            layers@.len() == l,
            forall|k: int|
                0 <= k < layers@.len() ==> (#[trigger] layers@[k])@.len() == pow2(k as nat),
            forall|k: int, i: int|
                0 <= k < layers@.len() && 0 <= i < layers@[k]@.len() ==> (
                #[trigger] layers@[k]@[i])@ == lnode(sizes, colsv, maxl, k as u32, i as nat)
                    && is_digest(layers@[k]@[i]@),
        decreases max_l + 1 - l,
    {
        let ghost old_down = down@;
        let layer = down.pop().unwrap();
        proof {
            assert(layer == old_down[old_down.len() - 1]);
            assert(maxl - (old_down.len() - 1) == l);
        }
        layers.push(layer);
        l += 1;
    }
    LiftedTree { column_log_sizes, columns, layers }
}

/// A strictly increasing position list starts with an even position and its
/// right sibling.
pub open spec fn is_pair_head(vs: Seq<usize>) -> bool {
    vs.len() >= 2 && vs[0] % 2 == 0 && vs[1] == vs[0] + 1
}

/// The parents of a strictly increasing position list, one per
/// sibling-or-single chunk.
pub open spec fn pair_parents(vs: Seq<usize>) -> Seq<usize>
    decreases vs.len(),
{
    if vs.len() == 0 {
        Seq::empty()
    } else if is_pair_head(vs) {
        seq![(vs[0] / 2) as usize] + pair_parents(vs.skip(2))
    } else {
        seq![(vs[0] / 2) as usize] + pair_parents(vs.skip(1))
    }
}

/// The sibling of a position.
pub open spec fn sibling_of(v: usize) -> int {
    if v % 2 == 0 {
        v + 1
    } else {
        v - 1
    }
}

/// The sibling digests emitted at layer `l` for the known positions `vs`:
/// one digest per position whose sibling is not itself known.
pub open spec fn layer_sibling_emissions(
    sizes: Seq<u32>,
    cols: Seq<Seq<u32>>,
    max_l: u32,
    l: u32,
    vs: Seq<usize>,
) -> Seq<Seq<u8>>
    decreases vs.len(),
{
    if vs.len() == 0 {
        Seq::empty()
    } else if is_pair_head(vs) {
        layer_sibling_emissions(sizes, cols, max_l, l, vs.skip(2))
    } else {
        seq![lnode(sizes, cols, max_l, l, sibling_of(vs[0]) as nat)] + layer_sibling_emissions(
            sizes,
            cols,
            max_l,
            l,
            vs.skip(1),
        )
    }
}

/// The hash witness accumulated from layer `l` (positions `vs`) up to the
/// root.
pub open spec fn lifted_hw_from(
    sizes: Seq<u32>,
    cols: Seq<Seq<u32>>,
    max_l: u32,
    l: u32,
    vs: Seq<usize>,
) -> Seq<Seq<u8>>
    decreases l,
{
    if l == 0 {
        Seq::empty()
    } else {
        layer_sibling_emissions(sizes, cols, max_l, l, vs) + lifted_hw_from(
            sizes,
            cols,
            max_l,
            (l - 1) as u32,
            pair_parents(vs),
        )
    }
}

/// The full hash witness of a lifted decommitment.
pub open spec fn lifted_decommit_hw(
    sizes: Seq<u32>,
    cols: Seq<Seq<u32>>,
    queries: Seq<usize>,
) -> Seq<Seq<u8>> {
    lifted_hw_from(sizes, cols, max_log_size(sizes), max_log_size(sizes), queries)
}

/// The revealed values of a lifted decommitment: for every column, in
/// commitment order, its value under every query position, mapped through
/// the shuffle.
pub open spec fn lifted_queried_vals(
    sizes: Seq<u32>,
    cols: Seq<Seq<u32>>,
    max_l: u32,
    queries: Seq<usize>,
) -> Seq<Seq<u32>> {
    Seq::new(
        sizes.len(),
        |i: int|
            Seq::new(
                queries.len(),
                |j: int|
                    cols[i][lift_index((max_l - sizes[i]) as u32, queries[j] as nat) as int],
            ),
    )
}

/// [`pair_parents`] of a strictly increasing in-range list is strictly
/// increasing, in range one layer up, and nonempty for nonempty input.
#[verifier::spinoff_prover]
pub proof fn lemma_pair_parents_sorted_below(vs: Seq<usize>, bound: nat)
    requires
        strictly_sorted(vs),
        all_below(vs, 2 * bound),
    ensures
        strictly_sorted(pair_parents(vs)),
        all_below(pair_parents(vs), bound),
        vs.len() > 0 ==> pair_parents(vs).len() > 0 && pair_parents(vs)[0] == vs[0] / 2,
    decreases vs.len(),
{
    if vs.len() == 0 {
    } else {
        let c: int = if is_pair_head(vs) {
            2
        } else {
            1
        };
        let rest = vs.skip(c);
        assert(strictly_sorted(rest));
        assert(all_below(rest, 2 * bound)) by {
            assert(forall|i: int| 0 <= i < rest.len() ==> rest[i] == vs[i + c]);
        }
        lemma_pair_parents_sorted_below(rest, bound);
        let p0 = (vs[0] / 2) as usize;
        assert(p0 < bound) by {
            assert(vs[0] < 2 * bound);
        }
        if rest.len() > 0 {
            assert(pair_parents(rest)[0] == rest[0] / 2);
            assert(p0 < rest[0] / 2) by {
                if c == 2 {
                    assert(rest[0] == vs[2]);
                    assert(vs[2] > vs[1] && vs[1] == vs[0] + 1);
                    assert(vs[2] >= vs[0] + 2);
                } else {
                    assert(rest[0] == vs[1]);
                    if vs[0] % 2 == 0 {
                        assert(vs[1] != vs[0] + 1);
                        assert(vs[1] >= vs[0] + 2);
                    } else {
                        assert(vs[1] >= vs[0] + 1);
                        assert(vs[1] / 2 >= (vs[0] + 1) / 2);
                        assert((vs[0] + 1) / 2 == vs[0] / 2 + 1);
                    }
                }
            }
            assert(forall|i: int|
                0 <= i < pair_parents(rest).len() ==> pair_parents(rest)[0] <= #[trigger] pair_parents(
                    rest,
                )[i]);
        }
        assert(pair_parents(vs) == seq![p0] + pair_parents(rest));
        assert(forall|i: int|
            0 <= i < pair_parents(rest).len() ==> pair_parents(vs)[i + 1] == #[trigger] pair_parents(
                rest,
            )[i]);
    }
}

/// A lifted decommitment: the sibling digests the verifier needs, from the
/// leaf layer up.
pub struct LiftedDecommitment {
    /// Sibling digests of known positions without a known sibling.
    pub hash_witness: Vec<Vec<u8>>,
}

/// Builds the decommitment of a committed lifted tree for a global query
/// position list, together with the revealed values of every column.
#[verifier::spinoff_prover]
pub fn lifted_decommit(t: &LiftedTree, query_positions: &Vec<usize>) -> (r: (
    Vec<Vec<u32>>,
    LiftedDecommitment,
))
    requires
        t.wf(),
        strictly_sorted(query_positions@),
        all_below(query_positions@, pow2(t.spec_max_l() as nat)),
    ensures
        view2(r.0@) == lifted_queried_vals(
            t.column_log_sizes@,
            view2(t.columns@),
            t.spec_max_l(),
            query_positions@,
        ),
        digests_view(r.1.hash_witness@) == lifted_decommit_hw(
            t.column_log_sizes@,
            view2(t.columns@),
            query_positions@,
        ),
        forall|i: int|
            0 <= i < r.1.hash_witness@.len() ==> is_digest(#[trigger] r.1.hash_witness@[i]@),
{
    let ghost sizes = t.column_log_sizes@;
    let ghost colsv = view2(t.columns@);
    let ghost maxl = max_log_size(sizes);
    let ghost qp = query_positions@;
    let max_l = max_log_size_exec(&t.column_log_sizes);
    proof {
        assert(maxl <= MAX_LOG_SIZE) by {
            if sizes.len() > 0 {
                lemma_max_is_some_size(sizes);
                let i = choose|i: int| 0 <= i < sizes.len() && sizes[i] == maxl;
                assert(sizes[i] <= MAX_LOG_SIZE);
            }
        }
    }
    // Revealed values: every column at every query position.
    let mut queried_values: Vec<Vec<u32>> = Vec::new();
    let mut i: usize = 0;
    while i < t.columns.len()
        invariant
            i <= t.columns@.len(),
            t.wf(),
            sizes == t.column_log_sizes@,
            colsv == view2(t.columns@),
            maxl == max_log_size(sizes),
            maxl <= MAX_LOG_SIZE,
            qp == query_positions@,
            strictly_sorted(qp),
            all_below(qp, pow2(maxl as nat)),
            max_l == maxl,
            queried_values@.len() == i,
            forall|ii: int|
                0 <= ii < i ==> (#[trigger] queried_values@[ii])@ == lifted_queried_vals(
                    sizes,
                    colsv,
                    maxl,
                    qp,
                )[ii],
        decreases t.columns@.len() - i,
    {
        let s = t.column_log_sizes[i];
        proof {
            lemma_max_log_size_ge(sizes);
            assert(sizes[i as int] <= maxl);
        }
        let shift = max_l - s;
        let mut row: Vec<u32> = Vec::new();
        let mut j: usize = 0;
        while j < query_positions.len()
            invariant
                j <= qp.len(),
                i < t.columns@.len(),
                t.wf(),
                sizes == t.column_log_sizes@,
                colsv == view2(t.columns@),
                maxl == max_log_size(sizes),
                maxl <= MAX_LOG_SIZE,
                qp == query_positions@,
                all_below(qp, pow2(maxl as nat)),
                s == sizes[i as int],
                shift == max_l - s,
                max_l == maxl,
                row@.len() == j,
                forall|jj: int|
                    0 <= jj < j ==> #[trigger] row@[jj] == colsv[i as int][lift_index(
                        (maxl - sizes[i as int]) as u32,
                        qp[jj] as nat,
                    ) as int],
            decreases qp.len() - j,
        {
            proof {
                lemma_max_log_size_ge(sizes);
                assert(sizes[i as int] <= maxl);
                assert(query_positions@[j as int] < pow2(maxl as nat));
                assert(pow2(s as nat + shift as nat) == pow2(maxl as nat));
                lemma_lift_index_below(shift, query_positions@[j as int] as nat, s);
                assert(colsv[i as int].len() == pow2(s as nat));
            }
            let idx = lift_index_exec(shift, query_positions[j]);
            row.push(t.columns[i][idx]);
            j += 1;
        }
        proof {
            assert(row@ =~= lifted_queried_vals(sizes, colsv, maxl, qp)[i as int]);
        }
        queried_values.push(row);
        i += 1;
    }
    proof {
        assert(view2(queried_values@) =~= lifted_queried_vals(sizes, colsv, maxl, qp));
    }
    // Hash witness: walk the layers from the leaves to the root.
    let mut hash_witness: Vec<Vec<u8>> = Vec::new();
    let mut known: Vec<usize> = crate::planner::copy_indices(query_positions);
    let mut step: u32 = 0;
    proof {
        assert(digests_view(hash_witness@) =~= Seq::<Seq<u8>>::empty());
    }
    while step < max_l
        invariant
            step <= max_l,
            max_l == maxl,
            maxl <= MAX_LOG_SIZE,
            t.wf(),
            sizes == t.column_log_sizes@,
            colsv == view2(t.columns@),
            maxl == max_log_size(sizes),
            qp == query_positions@,
            strictly_sorted(known@),
            all_below(known@, pow2((maxl - step) as nat)),
            digests_view(hash_witness@) + lifted_hw_from(
                sizes,
                colsv,
                maxl,
                (maxl - step) as u32,
                known@,
            ) == lifted_hw_from(sizes, colsv, maxl, maxl, qp),
            forall|i2: int|
                0 <= i2 < hash_witness@.len() ==> is_digest(#[trigger] hash_witness@[i2]@),
        decreases max_l - step,
    {
        let l = max_l - step;
        let ghost known0 = known@;
        let ghost em0 = digests_view(hash_witness@);
        let mut nknown: Vec<usize> = Vec::new();
        let mut p: usize = 0;
        proof {
            assert(known0.skip(0) =~= known0);
            assert(pow2(l as nat) == 2 * pow2((l - 1) as nat)) by {
                lemma_pow2_unfold(l as nat);
            }
            assert(pow2(l as nat) < usize::MAX) by {
                vstd::bits::lemma_usize_pow2_no_overflow(31);
                if l < 31 {
                    vstd::arithmetic::power2::lemma_pow2_strictly_increases(l as nat, 31);
                }
            }
        }
        while p < known.len()
            invariant
                p <= known0.len(),
                known@ == known0,
                step < max_l,
                l == max_l - step,
                max_l == maxl,
                maxl <= MAX_LOG_SIZE,
                t.wf(),
                sizes == t.column_log_sizes@,
                colsv == view2(t.columns@),
                maxl == max_log_size(sizes),
                strictly_sorted(known0),
                all_below(known0, pow2(l as nat)),
                pow2(l as nat) == 2 * pow2((l - 1) as nat),
                pow2(l as nat) < usize::MAX,
                nknown@ + pair_parents(known0.skip(p as int)) == pair_parents(known0),
                digests_view(hash_witness@) + layer_sibling_emissions(
                    sizes,
                    colsv,
                    maxl,
                    l,
                    known0.skip(p as int),
                ) == em0 + layer_sibling_emissions(sizes, colsv, maxl, l, known0),
                forall|i2: int|
                    0 <= i2 < hash_witness@.len() ==> is_digest(#[trigger] hash_witness@[i2]@),
            decreases known0.len() - p,
        {
            let v = known[p];
            proof {
                assert(known0.skip(p as int)[0] == known0[p as int]);
                if p + 1 < known0.len() {
                    assert(known0.skip(p as int)[1] == known0[p + 1]);
                }
                assert(known0.skip(p as int).skip(1) =~= known0.skip(p + 1));
                if p + 2 <= known0.len() {
                    assert(known0.skip(p as int).skip(2) =~= known0.skip(p + 2));
                }
                assert(v < pow2(l as nat));
            }
            if v % 2 == 0 && p + 1 < known.len() && known[p + 1] == v + 1 {
                // A full sibling pair: nothing to emit.
                nknown.push(v / 2);
                p += 2;
            } else {
                // Lone position: emit its sibling's digest.
                let sib = if v % 2 == 0 {
                    proof {
                        assert(v + 1 < pow2(l as nat)) by {
                            assert(v % 2 == 0);
                            assert(pow2(l as nat) % 2 == 0);
                        }
                    }
                    v + 1
                } else {
                    v - 1
                };
                proof {
                    assert(sib == sibling_of(v));
                    assert(t.layers@[l as int]@.len() == pow2(l as nat));
                }
                let d = crate::grouped::copy_digest(&t.layers[l as usize][sib]);
                proof {
                    lemma_digests_view_push(hash_witness@, d);
                }
                hash_witness.push(d);
                nknown.push(v / 2);
                p += 1;
            }
        }
        proof {
            assert(known0.skip(known0.len() as int) =~= Seq::<usize>::empty());
            assert(nknown@ == pair_parents(known0));
            lemma_pair_parents_sorted_below(known0, pow2((l - 1) as nat));
            assert(lifted_hw_from(sizes, colsv, maxl, l, known0) == layer_sibling_emissions(
                sizes,
                colsv,
                maxl,
                l,
                known0,
            ) + lifted_hw_from(sizes, colsv, maxl, (l - 1) as u32, pair_parents(known0)));
        }
        known = nknown;
        step += 1;
    }
    proof {
        assert((maxl - step) as u32 == 0);
        assert(lifted_hw_from(sizes, colsv, maxl, 0, known@) =~= Seq::<Seq<u8>>::empty());
        assert(digests_view(hash_witness@) + Seq::<Seq<u8>>::empty() =~= digests_view(
            hash_witness@,
        ));
    }
    (queried_values, LiftedDecommitment { hash_witness })
}

/// The ways lifted verification rejects a decommitment.
#[derive(Clone, Copy, Debug, PartialEq, Eq, Structural)]
pub enum LiftedError {
    /// The hash witness ran out before the climb reached the root.
    WitnessTooShort,
    /// The hash witness was not fully consumed.
    WitnessTooLong,
    /// The recomputed root differs from the commitment.
    RootMismatch,
}

/// A strictly increasing position list ends with an odd position preceded by
/// its left sibling.
pub open spec fn is_pair_end(vs: Seq<usize>) -> bool {
    vs.len() >= 2 && vs[vs.len() - 1] % 2 == 1 && vs[vs.len() - 2] + 1 == vs[vs.len() - 1]
}

/// One verifier climb over a layer: fold the known positions `vs` (with
/// digests `hs`, aligned by index) into their parents, pairing siblings and
/// reading a witness digest for every lone position.  The state `st` carries
/// the parents and digests produced so far and the witness cursor.
pub open spec fn lv_layer(
    vs: Seq<usize>,
    hs: Seq<Seq<u8>>,
    hw: Seq<Seq<u8>>,
    st: (Seq<usize>, Seq<Seq<u8>>, int),
) -> Result<(Seq<usize>, Seq<Seq<u8>>, int), LiftedError>
    decreases vs.len(),
{
    if vs.len() == 0 {
        Ok(st)
    } else if is_pair_end(vs) {
        match lv_layer(vs.drop_last().drop_last(), hs.drop_last().drop_last(), hw, st) {
            Err(e) => Err(e),
            Ok((ps, ds, p)) => Ok(
                (
                    ps.push((vs[vs.len() - 2] / 2) as usize),
                    ds.push(lifted_children_hash(hs[vs.len() - 2], hs[vs.len() - 1])),
                    p,
                ),
            ),
        }
    } else {
        match lv_layer(vs.drop_last(), hs.drop_last(), hw, st) {
            Err(e) => Err(e),
            Ok((ps, ds, p)) => {
                if p >= hw.len() {
                    Err(LiftedError::WitnessTooShort)
                } else {
                    let v = vs.last();
                    let h = if v % 2 == 0 {
                        lifted_children_hash(hs[vs.len() - 1], hw[p])
                    } else {
                        lifted_children_hash(hw[p], hs[vs.len() - 1])
                    };
                    Ok((ps.push((v / 2) as usize), ds.push(h), p + 1))
                }
            },
        }
    }
}

/// Climbs `l` layers from the known positions to the root.
pub open spec fn lv_down(
    hw: Seq<Seq<u8>>,
    l: u32,
    vs: Seq<usize>,
    hs: Seq<Seq<u8>>,
    pos: int,
) -> Result<(Seq<usize>, Seq<Seq<u8>>, int), LiftedError>
    decreases l,
{
    if l == 0 {
        Ok((vs, hs, pos))
    } else {
        match lv_layer(vs, hs, hw, (Seq::empty(), Seq::empty(), pos)) {
            Err(e) => Err(e),
            Ok((ps, ds, p)) => lv_down(hw, (l - 1) as u32, ps, ds, p),
        }
    }
}

/// The row of revealed values hashed into the leaf of query `j`: the values
/// of the columns of each log-size, in increasing log-size order, restricted
/// to log-sizes at most `s`.
pub open spec fn queried_row_upto(sizes: Seq<u32>, qv: Seq<Seq<u32>>, s: u32, j: nat) -> Seq<u32>
    decreases s,
{
    if s == 0 {
        Seq::empty()
    } else {
        queried_row_upto(sizes, qv, (s - 1) as u32, j) + node_vals(sizes, qv, s, j)
    }
}

/// The outcome of lifted verification: each queried leaf is recomputed from
/// the revealed values, the climb consumes the hash witness in order, and the
/// final digest is compared with the root.  A commitment without columns
/// verifies vacuously.
pub open spec fn lifted_verify_spec(
    root: Seq<u8>,
    sizes: Seq<u32>,
    queries: Seq<usize>,
    qv: Seq<Seq<u32>>,
    hw: Seq<Seq<u8>>,
) -> Result<(), LiftedError> {
    if sizes.len() == 0 {
        Ok(())
    } else {
        let max_l = max_log_size(sizes);
        let leaves = Seq::new(
            queries.len(),
            |j: int| lifted_leaf_hash(queried_row_upto(sizes, qv, max_l, j as nat)),
        );
        match lv_down(hw, max_l, queries, leaves, 0) {
            Err(e) => Err(e),
            Ok((ps, ds, p)) => {
                if p < hw.len() {
                    Err(LiftedError::WitnessTooLong)
                } else if ds[0] != root {
                    Err(LiftedError::RootMismatch)
                } else {
                    Ok(())
                }
            },
        }
    }
}

/// Once a climb over a chunk-aligned prefix fails, the whole layer fails.
#[verifier::spinoff_prover]
pub proof fn lemma_lv_layer_err(
    vs: Seq<usize>,
    hs: Seq<Seq<u8>>,
    hw: Seq<Seq<u8>>,
    st: (Seq<usize>, Seq<Seq<u8>>, int),
    k: int,
    e: LiftedError,
)
    requires
        0 <= k <= vs.len(),
        hs.len() == vs.len(),
        strictly_sorted(vs),
        k == 0 || k >= vs.len() || vs[k - 1] % 2 == 1 || vs[k - 1] + 1 != vs[k as int],
        lv_layer(vs.take(k), hs.take(k), hw, st) == Err::<(Seq<usize>, Seq<Seq<u8>>, int), _>(e),
    ensures
        lv_layer(vs, hs, hw, st) == Err::<(Seq<usize>, Seq<Seq<u8>>, int), _>(e),
    decreases vs.len() - k,
{
    if k == vs.len() {
        assert(vs.take(k) =~= vs);
        assert(hs.take(k) =~= hs);
    } else if vs[k as int] % 2 == 0 && k + 1 < vs.len() && vs[k + 1] == vs[k as int] + 1 {
        assert(vs.take(k + 2).drop_last().drop_last() =~= vs.take(k));
        assert(hs.take(k + 2).drop_last().drop_last() =~= hs.take(k));
        assert(is_pair_end(vs.take(k + 2)));
        assert(lv_layer(vs.take(k + 2), hs.take(k + 2), hw, st) == Err::<
            (Seq<usize>, Seq<Seq<u8>>, int),
            _,
        >(e));
        lemma_lv_layer_err(vs, hs, hw, st, k + 2, e);
    } else {
        assert(vs.take(k + 1).drop_last() =~= vs.take(k));
        assert(hs.take(k + 1).drop_last() =~= hs.take(k));
        assert(!is_pair_end(vs.take(k + 1))) by {
            if k > 0 {
                assert(vs.take(k + 1)[k - 1] == vs[k - 1]);
                if vs[k as int] % 2 == 1 {
                    if vs[k - 1] % 2 == 1 {
                        assert(vs[k - 1] + 1 != vs[k as int]) by {
                            if vs[k - 1] + 1 == vs[k as int] {
                                assert((vs[k - 1] + 1) % 2 == 0);
                            }
                        }
                    }
                }
            }
        }
        assert(lv_layer(vs.take(k + 1), hs.take(k + 1), hw, st) == Err::<
            (Seq<usize>, Seq<Seq<u8>>, int),
            _,
        >(e));
        lemma_lv_layer_err(vs, hs, hw, st, k + 1, e);
    }
}

/// Verifies a lifted decommitment against a commitment root: recomputes the
/// queried leaves from the revealed values, climbs to the root consuming the
/// hash witness, and compares the final digest with the root.  The result is
/// exactly [`lifted_verify_spec`] of the inputs.
///
/// Callers must supply a nonempty, strictly increasing, in-range query list
/// and one value row per committed column, as the data model fixes; the
/// witness digests must have the fixed digest width.  A hash witness of any
/// length is accepted and rejected with the matching verdict.
#[verifier::spinoff_prover]
pub fn lifted_verify(
    root: &Vec<u8>,
    column_log_sizes: &Vec<u32>,
    query_positions: &Vec<usize>,
    queried_values: &Vec<Vec<u32>>,
    decommitment: &LiftedDecommitment,
) -> (r: Result<(), LiftedError>)
    requires
        forall|i: int|
            0 <= i < column_log_sizes@.len() ==> 1 <= #[trigger] column_log_sizes@[i]
                <= MAX_LOG_SIZE,
        column_log_sizes@.len() > 0 ==> {
            &&& strictly_sorted(query_positions@)
            &&& all_below(query_positions@, pow2(max_log_size(column_log_sizes@) as nat))
            &&& query_positions@.len() > 0
            &&& queried_values@.len() == column_log_sizes@.len()
            &&& forall|i: int|
                0 <= i < queried_values@.len() ==> (#[trigger] queried_values@[i])@.len()
                    == query_positions@.len()
        },
        forall|i: int|
            0 <= i < decommitment.hash_witness@.len() ==> is_digest(
                (#[trigger] decommitment.hash_witness@[i])@,
            ),
    ensures
        r == lifted_verify_spec(
            root@,
            column_log_sizes@,
            query_positions@,
            view2(queried_values@),
            digests_view(decommitment.hash_witness@),
        ),
{
    let ghost sizes = column_log_sizes@;
    let ghost qp = query_positions@;
    let ghost qvv = view2(queried_values@);
    let ghost hwv = digests_view(decommitment.hash_witness@);
    if column_log_sizes.len() == 0 {
        return Ok(());
    }
    let ghost maxl = max_log_size(sizes);
    let max_l = max_log_size_exec(column_log_sizes);
    proof {
        lemma_max_is_some_size(sizes);
        assert(maxl <= MAX_LOG_SIZE && maxl >= 1) by {
            let i = choose|i: int| 0 <= i < sizes.len() && sizes[i] == maxl;
            assert(1 <= sizes[i] <= MAX_LOG_SIZE);
        }
    }
    let ghost leaves = Seq::new(
        qp.len(),
        |j: int| lifted_leaf_hash(queried_row_upto(sizes, qvv, maxl, j as nat)),
    );
    // Recompute the queried leaves from the revealed rows.
    let mut hseq: Vec<Vec<u8>> = Vec::new();
    let mut j: usize = 0;
    while j < query_positions.len()
        invariant
            j <= qp.len(),
            sizes == column_log_sizes@,
            qp == query_positions@,
            qvv == view2(queried_values@),
            maxl == max_log_size(sizes),
            max_l == maxl,
            maxl <= MAX_LOG_SIZE,
            queried_values@.len() == sizes.len(),
            forall|i: int|
                0 <= i < queried_values@.len() ==> (#[trigger] queried_values@[i])@.len()
                    == qp.len(),
            leaves == Seq::new(
                qp.len(),
                |j2: int| lifted_leaf_hash(queried_row_upto(sizes, qvv, maxl, j2 as nat)),
            ),
            hseq@.len() == j,
            forall|j2: int| 0 <= j2 < j ==> (#[trigger] hseq@[j2])@ == leaves[j2],
            forall|j2: int| 0 <= j2 < j ==> is_digest((#[trigger] hseq@[j2])@),
        decreases qp.len() - j,
    {
        let mut row: Vec<u32> = Vec::new();
        let mut s: u32 = 1;
        proof {
            assert(queried_row_upto(sizes, qvv, 0, j as nat) =~= Seq::<u32>::empty());
        }
        while s <= max_l
            invariant
                1 <= s <= max_l + 1,
                j < qp.len(),
                sizes == column_log_sizes@,
                qvv == view2(queried_values@),
                maxl == max_log_size(sizes),
                max_l == maxl,
                maxl <= MAX_LOG_SIZE,
                queried_values@.len() == sizes.len(),
                forall|i: int|
                    0 <= i < queried_values@.len() ==> (#[trigger] queried_values@[i])@.len()
                        == qp.len(),
                row@ == queried_row_upto(sizes, qvv, (s - 1) as u32, j as nat),
            decreases max_l + 1 - s,
        {
            proof {
                assert forall|c: int|
                    0 <= c < sizes.len() && sizes[c] == s implies j
                    < #[trigger] queried_values@[c]@.len() by {}
            }
            let mut vals = node_vals_exec(column_log_sizes, queried_values, s, j);
            row.append(&mut vals);
            s += 1;
        }
        let d = leaf_hash(&row);
        proof {
            assert(d@ == leaves[j as int]);
        }
        hseq.push(d);
        j += 1;
    }
    let mut known: Vec<usize> = crate::planner::copy_indices(query_positions);
    let mut pos: usize = 0;
    let mut step: u32 = 0;
    proof {
        assert(digests_view(hseq@) =~= leaves);
    }
    while step < max_l
        invariant
            step <= max_l,
            max_l == maxl,
            maxl <= MAX_LOG_SIZE,
            sizes == column_log_sizes@,
            sizes.len() > 0,
            qp == query_positions@,
            qvv == view2(queried_values@),
            hwv == digests_view(decommitment.hash_witness@),
            maxl == max_log_size(sizes),
            forall|i: int|
                0 <= i < decommitment.hash_witness@.len() ==> is_digest(
                    (#[trigger] decommitment.hash_witness@[i])@,
                ),
            leaves == Seq::new(
                qp.len(),
                |j2: int| lifted_leaf_hash(queried_row_upto(sizes, qvv, maxl, j2 as nat)),
            ),
            strictly_sorted(known@),
            all_below(known@, pow2((maxl - step) as nat)),
            known@.len() > 0,
            hseq@.len() == known@.len(),
            forall|i: int| 0 <= i < hseq@.len() ==> is_digest((#[trigger] hseq@[i])@),
            pos <= decommitment.hash_witness@.len(),
            lv_down(hwv, maxl, qp, leaves, 0) == lv_down(
                hwv,
                (maxl - step) as u32,
                known@,
                digests_view(hseq@),
                pos as int,
            ),
        decreases max_l - step,
    {
        let l = max_l - step;
        let ghost known0 = known@;
        let ghost h0 = digests_view(hseq@);
        let ghost pos0 = pos as int;
        let ghost st0: (Seq<usize>, Seq<Seq<u8>>, int) = (Seq::empty(), Seq::empty(), pos0);
        let mut nknown: Vec<usize> = Vec::new();
        let mut nhs: Vec<Vec<u8>> = Vec::new();
        let mut p: usize = 0;
        proof {
            assert(known0.take(0int) =~= Seq::<usize>::empty());
            assert(h0.take(0int) =~= Seq::<Seq<u8>>::empty());
            assert(digests_view(nhs@) =~= Seq::<Seq<u8>>::empty());
            assert(pow2(l as nat) == 2 * pow2((l - 1) as nat)) by {
                lemma_pow2_unfold(l as nat);
            }
            assert(pow2(l as nat) < usize::MAX) by {
                vstd::bits::lemma_usize_pow2_no_overflow(31);
                if l < 31 {
                    vstd::arithmetic::power2::lemma_pow2_strictly_increases(l as nat, 31);
                }
            }
        }
        while p < known.len()
            invariant
                p <= known0.len(),
                known@ == known0,
                h0 == digests_view(hseq@),
                hseq@.len() == known0.len(),
                step < max_l,
                l == max_l - step,
                max_l == maxl,
                maxl <= MAX_LOG_SIZE,
                sizes.len() > 0,
                hwv == digests_view(decommitment.hash_witness@),
                forall|i: int|
                    0 <= i < decommitment.hash_witness@.len() ==> is_digest(
                        (#[trigger] decommitment.hash_witness@[i])@,
                    ),
                strictly_sorted(known0),
                all_below(known0, pow2(l as nat)),
                pow2(l as nat) == 2 * pow2((l - 1) as nat),
                pow2(l as nat) < usize::MAX,
                forall|i: int| 0 <= i < hseq@.len() ==> is_digest((#[trigger] hseq@[i])@),
                forall|i: int| 0 <= i < nhs@.len() ==> is_digest((#[trigger] nhs@[i])@),
                nknown@.len() == nhs@.len(),
                pos <= decommitment.hash_witness@.len(),
                p == 0 || p >= known0.len() || known0[p - 1] % 2 == 1 || known0[p - 1] + 1
                    != known0[p as int],
                sizes == column_log_sizes@,
                qp == query_positions@,
                qvv == view2(queried_values@),
                maxl == max_log_size(sizes),
                leaves == Seq::new(
                    qp.len(),
                    |j2: int| lifted_leaf_hash(queried_row_upto(sizes, qvv, maxl, j2 as nat)),
                ),
                lv_down(hwv, maxl, qp, leaves, 0) == lv_down(hwv, l as u32, known0, h0, pos0),
                strictly_sorted(nknown@),
                all_below(nknown@, pow2((l - 1) as nat)),
                p > 0 ==> nknown@.len() > 0,
                nknown@.len() > 0 && p < known0.len() ==> 2 * nknown@.last() + 1 < known0[p as int],
                lv_layer(known0.take(p as int), h0.take(p as int), hwv, st0) == Ok::<
                    _,
                    LiftedError,
                >((nknown@, digests_view(nhs@), pos as int)),
                st0 == (Seq::<usize>::empty(), Seq::<Seq<u8>>::empty(), pos0),
            decreases known0.len() - p,
        {
            let v = known[p];
            proof {
                assert(v < pow2(l as nat));
                assert(known0.take(p + 1).drop_last() =~= known0.take(p as int));
                assert(h0.take(p + 1).drop_last() =~= h0.take(p as int));
                if p + 2 <= known0.len() {
                    assert(known0.take(p + 2).drop_last().drop_last() =~= known0.take(p as int));
                    assert(h0.take(p + 2).drop_last().drop_last() =~= h0.take(p as int));
                }
                assert(h0[p as int] == hseq@[p as int]@);
            }
            if v % 2 == 0 && p + 1 < known.len() && known[p + 1] == v + 1 {
                let d = hash_children(&hseq[p], &hseq[p + 1]);
                proof {
                    assert(is_pair_end(known0.take(p + 2)));
                    lemma_digests_view_push(nhs@, d);
                }
                nknown.push(v / 2);
                nhs.push(d);
                p += 2;
            } else {
                proof {
                    assert(!is_pair_end(known0.take(p + 1))) by {
                        if p > 0 {
                            assert(known0.take(p + 1)[p - 1] == known0[p - 1]);
                            if v % 2 == 1 && known0[p - 1] % 2 == 1 {
                                if known0[p - 1] + 1 == v {
                                    assert((known0[p - 1] + 1) % 2 == 0);
                                }
                            }
                        }
                    }
                }
                if pos >= decommitment.hash_witness.len() {
                    proof {
                        let e = LiftedError::WitnessTooShort;
                        assert(lv_layer(known0.take(p + 1), h0.take(p + 1), hwv, st0) == Err::<
                            (Seq<usize>, Seq<Seq<u8>>, int),
                            _,
                        >(e));
                        assert(p + 1 == 0 || p + 1 >= known0.len() || known0[p + 1 - 1] % 2 == 1
                            || known0[p + 1 - 1] + 1 != known0[p + 1]) by {
                            if p + 1 < known0.len() {
                                if v % 2 == 0 {
                                    assert(known0[p + 1] != v + 1);
                                }
                            }
                        }
                        lemma_lv_layer_err(known0, h0, hwv, st0, p + 1, e);
                        assert(lv_down(hwv, l as u32, known0, h0, pos0) == Err::<
                            (Seq<usize>, Seq<Seq<u8>>, int),
                            _,
                        >(e));
                    }
                    return Err(LiftedError::WitnessTooShort);
                }
                let w = crate::grouped::copy_digest(&decommitment.hash_witness[pos]);
                let d = if v % 2 == 0 {
                    hash_children(&hseq[p], &w)
                } else {
                    hash_children(&w, &hseq[p])
                };
                proof {
                    lemma_digests_view_push(nhs@, d);
                    assert(hwv[pos as int] == decommitment.hash_witness@[pos as int]@);
                }
                pos = pos + 1;
                nknown.push(v / 2);
                nhs.push(d);
                p += 1;
            }
        }
        proof {
            assert(known0.take(known0.len() as int) =~= known0);
            assert(h0.take(known0.len() as int) =~= h0);
            assert(lv_down(hwv, l as u32, known0, h0, pos0) == lv_down(
                hwv,
                (l - 1) as u32,
                nknown@,
                digests_view(nhs@),
                pos as int,
            ));
        }
        known = nknown;
        hseq = nhs;
        step += 1;
        proof {
            assert((maxl - step) as nat == (l - 1) as nat);
        }
    }
    proof {
        assert((maxl - step) as u32 == 0);
        assert(lv_down(hwv, 0, known@, digests_view(hseq@), pos as int) == Ok::<_, LiftedError>(
            (known@, digests_view(hseq@), pos as int),
        ));
    }
    if pos < decommitment.hash_witness.len() {
        return Err(LiftedError::WitnessTooLong);
    }
    proof {
        assert(digests_view(hseq@)[0] == hseq@[0]@);
    }
    if !digests_equal(&hseq[0], root) {
        return Err(LiftedError::RootMismatch);
    }
    Ok(())
}

/// Back decomposition of the chunk walk: removing the final chunk of a
/// strictly increasing position list removes exactly its contribution to the
/// sibling emissions and to the parents.
#[verifier::spinoff_prover]
pub proof fn lemma_chunks_back(
    sizes: Seq<u32>,
    cols: Seq<Seq<u32>>,
    max_l: u32,
    l: u32,
    vs: Seq<usize>,
)
    requires
        strictly_sorted(vs),
        vs.len() > 0,
    ensures
        is_pair_end(vs) ==> layer_sibling_emissions(sizes, cols, max_l, l, vs)
            == layer_sibling_emissions(sizes, cols, max_l, l, vs.drop_last().drop_last())
            && pair_parents(vs) == pair_parents(vs.drop_last().drop_last()).push(
            (vs[vs.len() - 2] / 2) as usize,
        ),
        !is_pair_end(vs) ==> layer_sibling_emissions(sizes, cols, max_l, l, vs)
            == layer_sibling_emissions(sizes, cols, max_l, l, vs.drop_last()) + seq![
            lnode(sizes, cols, max_l, l, sibling_of(vs.last()) as nat),
        ] && pair_parents(vs) == pair_parents(vs.drop_last()).push((vs.last() / 2) as usize),
    decreases vs.len(),
{
    let c: int = if is_pair_head(vs) {
        2
    } else {
        1
    };
    if vs.len() == c {
        // The whole list is one chunk.
        if is_pair_head(vs) {
            assert(is_pair_end(vs));
            assert(vs.skip(2) =~= Seq::<usize>::empty());
            assert(vs.drop_last().drop_last() =~= Seq::<usize>::empty());
            assert(pair_parents(vs) =~= pair_parents(Seq::<usize>::empty()).push(
                (vs[0] / 2) as usize,
            ));
            assert(layer_sibling_emissions(sizes, cols, max_l, l, vs) =~= layer_sibling_emissions(
                sizes,
                cols,
                max_l,
                l,
                Seq::<usize>::empty(),
            ));
        } else {
            assert(vs.len() == 1);
            assert(!is_pair_end(vs));
            assert(vs.drop_last() =~= Seq::<usize>::empty());
            assert(vs.skip(1) =~= Seq::<usize>::empty());
            assert(pair_parents(vs) =~= pair_parents(vs.drop_last()).push(
                (vs.last() / 2) as usize,
            ));
            assert(layer_sibling_emissions(sizes, cols, max_l, l, vs) =~= layer_sibling_emissions(
                sizes,
                cols,
                max_l,
                l,
                vs.drop_last(),
            ) + seq![lnode(sizes, cols, max_l, l, sibling_of(vs.last()) as nat)]);
        }
    } else {
        let rest = vs.skip(c);
        assert(rest.len() > 0);
        assert(strictly_sorted(rest)) by {
            assert(forall|i: int| 0 <= i < rest.len() ==> rest[i] == vs[i + c]);
        }
        lemma_chunks_back(sizes, cols, max_l, l, rest);
        // The final chunk of `vs` lies inside `rest`.
        assert(vs.last() == rest.last());
        assert(vs.len() >= c + 1);
        if is_pair_end(vs) {
            assert(vs.len() >= c + 2) by {
                if vs.len() == c + 1 {
                    // The final pair would overlap the first chunk.
                    if c == 2 {
                        assert(vs[1] == vs[0] + 1);
                        assert(vs[vs.len() - 2] == vs[1]);
                        assert(vs[vs.len() - 1] == vs[1] + 1);
                        assert(vs[1] % 2 == 0 || vs[vs.len() - 1] % 2 == 1);
                        assert(vs[0] % 2 == 0);
                        assert(vs[1] % 2 == 1);
                        assert(false);
                    } else {
                        // c == 1: the pair is (vs[0], vs[1]) with vs[0] even,
                        // contradicting the single first chunk.
                        assert(vs[vs.len() - 2] == vs[0]);
                        assert(vs[0] + 1 == vs[1] && vs[1] % 2 == 1);
                        assert(vs[0] % 2 == 0);
                        assert(is_pair_head(vs));
                        assert(false);
                    }
                }
            }
            assert(is_pair_end(rest)) by {
                assert(rest[rest.len() - 1] == vs[vs.len() - 1]);
                assert(rest[rest.len() - 2] == vs[vs.len() - 2]);
            }
            let vs2 = vs.drop_last().drop_last();
            let rest2 = rest.drop_last().drop_last();
            assert(vs2.skip(c) =~= rest2);
            assert(vs2.len() >= c);
            assert(is_pair_head(vs2) == is_pair_head(vs)) by {
                assert(vs2[0] == vs[0]);
                if vs2.len() >= 2 {
                    assert(vs2[1] == vs[1]);
                }
                if is_pair_head(vs) {
                    assert(vs2.len() >= 2);
                }
            }
            assert(pair_parents(vs) == pair_parents(vs2).push((vs[vs.len() - 2] / 2) as usize))
                by {
                assert(pair_parents(vs) == seq![(vs[0] / 2) as usize] + pair_parents(rest));
                assert(pair_parents(vs2) == seq![(vs2[0] / 2) as usize] + pair_parents(rest2));
                assert(rest[rest.len() - 2] == vs[vs.len() - 2]);
                assert(seq![(vs[0] / 2) as usize] + pair_parents(rest2).push(
                    (vs[vs.len() - 2] / 2) as usize,
                ) =~= (seq![(vs[0] / 2) as usize] + pair_parents(rest2)).push(
                    (vs[vs.len() - 2] / 2) as usize,
                ));
            }
            assert(layer_sibling_emissions(sizes, cols, max_l, l, vs) == layer_sibling_emissions(
                sizes,
                cols,
                max_l,
                l,
                vs2,
            )) by {
                if !is_pair_head(vs) {
                    assert(layer_sibling_emissions(sizes, cols, max_l, l, vs) == seq![
                        lnode(sizes, cols, max_l, l, sibling_of(vs[0]) as nat),
                    ] + layer_sibling_emissions(sizes, cols, max_l, l, rest));
                }
            }
        } else {
            assert(!is_pair_end(rest)) by {
                assert(rest[rest.len() - 1] == vs[vs.len() - 1]);
                if rest.len() >= 2 {
                    assert(rest[rest.len() - 2] == vs[vs.len() - 2]);
                }
            }
            let vs1 = vs.drop_last();
            let rest1 = rest.drop_last();
            assert(vs1.skip(c) =~= rest1);
            assert(vs1.len() >= c);
            assert(is_pair_head(vs1) == is_pair_head(vs)) by {
                assert(vs1[0] == vs[0]);
                if vs1.len() >= 2 {
                    assert(vs1[1] == vs[1]);
                }
                if is_pair_head(vs) {
                    assert(vs.len() >= c + 1);
                    assert(vs1.len() >= 2);
                }
            }
            assert(pair_parents(vs) == pair_parents(vs1).push((vs.last() / 2) as usize)) by {
                assert(pair_parents(vs) == seq![(vs[0] / 2) as usize] + pair_parents(rest));
                assert(pair_parents(vs1) == seq![(vs1[0] / 2) as usize] + pair_parents(rest1));
                assert(seq![(vs[0] / 2) as usize] + pair_parents(rest1).push(
                    (rest.last() / 2) as usize,
                ) =~= (seq![(vs[0] / 2) as usize] + pair_parents(rest1)).push(
                    (rest.last() / 2) as usize,
                ));
            }
            assert(layer_sibling_emissions(sizes, cols, max_l, l, vs) == layer_sibling_emissions(
                sizes,
                cols,
                max_l,
                l,
                vs1,
            ) + seq![lnode(sizes, cols, max_l, l, sibling_of(vs.last()) as nat)]) by {
                if !is_pair_head(vs) {
                    assert(seq![lnode(sizes, cols, max_l, l, sibling_of(vs[0]) as nat)]
                        + (layer_sibling_emissions(sizes, cols, max_l, l, rest1) + seq![
                        lnode(sizes, cols, max_l, l, sibling_of(rest.last()) as nat),
                    ]) =~= (seq![lnode(sizes, cols, max_l, l, sibling_of(vs[0]) as nat)]
                        + layer_sibling_emissions(sizes, cols, max_l, l, rest1)) + seq![
                        lnode(sizes, cols, max_l, l, sibling_of(rest.last()) as nat),
                    ]);
                }
            }
        }
    }
}

/// One verifier climb over a layer, fed the true node digests and exactly the
/// layer's sibling emissions, succeeds and reconstructs the true parent
/// digests.
#[verifier::spinoff_prover]
pub proof fn lemma_lv_layer_round(
    sizes: Seq<u32>,
    cols: Seq<Seq<u32>>,
    max_l: u32,
    l: u32,
    vs: Seq<usize>,
    hw: Seq<Seq<u8>>,
    pos: int,
)
    requires
        1 <= l <= max_l,
        strictly_sorted(vs),
        all_below(vs, pow2(l as nat)),
        0 <= pos,
        pos + layer_sibling_emissions(sizes, cols, max_l, l, vs).len() <= hw.len(),
        hw.subrange(pos, pos + layer_sibling_emissions(sizes, cols, max_l, l, vs).len())
            == layer_sibling_emissions(sizes, cols, max_l, l, vs),
    ensures
        lv_layer(
            vs,
            Seq::new(vs.len(), |i: int| lnode(sizes, cols, max_l, l, vs[i] as nat)),
            hw,
            (Seq::empty(), Seq::empty(), pos),
        ) == Ok::<_, LiftedError>(
            (
                pair_parents(vs),
                Seq::new(
                    pair_parents(vs).len(),
                    |i: int| lnode(sizes, cols, max_l, (l - 1) as u32, pair_parents(vs)[i] as nat),
                ),
                pos + layer_sibling_emissions(sizes, cols, max_l, l, vs).len(),
            ),
        ),
    decreases vs.len(),
{
    let hs = Seq::new(vs.len(), |i: int| lnode(sizes, cols, max_l, l, vs[i] as nat));
    let em = layer_sibling_emissions(sizes, cols, max_l, l, vs);
    if vs.len() == 0 {
        assert(pair_parents(vs) =~= Seq::<usize>::empty());
        assert(hs =~= Seq::<Seq<u8>>::empty());
        assert(Seq::new(
            pair_parents(vs).len(),
            |i: int| lnode(sizes, cols, max_l, (l - 1) as u32, pair_parents(vs)[i] as nat),
        ) =~= Seq::<Seq<u8>>::empty());
    } else {
        lemma_chunks_back(sizes, cols, max_l, l, vs);
        if is_pair_end(vs) {
            let vs2 = vs.drop_last().drop_last();
            assert(strictly_sorted(vs2));
            assert(all_below(vs2, pow2(l as nat)));
            let em2 = layer_sibling_emissions(sizes, cols, max_l, l, vs2);
            assert(em2 == em);
            lemma_lv_layer_round(sizes, cols, max_l, l, vs2, hw, pos);
            let hs2 = Seq::new(vs2.len(), |i: int| lnode(sizes, cols, max_l, l, vs2[i] as nat));
            assert(hs.drop_last().drop_last() =~= hs2);
            let v = vs[vs.len() - 2];
            assert(v % 2 == 0 && vs.last() == v + 1) by {
                assert(vs.last() % 2 == 1 && v + 1 == vs.last());
            }
            assert(hs[vs.len() - 2] == lnode(sizes, cols, max_l, l, v as nat));
            assert(hs[vs.len() - 1] == lnode(sizes, cols, max_l, l, (v + 1) as nat));
            assert(lifted_children_hash(
                lnode(sizes, cols, max_l, l, v as nat),
                lnode(sizes, cols, max_l, l, (v + 1) as nat),
            ) == lnode(sizes, cols, max_l, (l - 1) as u32, (v / 2) as nat)) by {
                assert(2 * ((v / 2) as nat) == v);
                assert(2 * ((v / 2) as nat) + 1 == v + 1);
            }
            let pp = pair_parents(vs);
            let pp2 = pair_parents(vs2);
            assert(pp == pp2.push((v / 2) as usize));
            assert(Seq::new(
                pp.len(),
                |i: int| lnode(sizes, cols, max_l, (l - 1) as u32, pp[i] as nat),
            ) =~= Seq::new(
                pp2.len(),
                |i: int| lnode(sizes, cols, max_l, (l - 1) as u32, pp2[i] as nat),
            ).push(lnode(sizes, cols, max_l, (l - 1) as u32, (v / 2) as nat)));
        } else {
            let vs1 = vs.drop_last();
            assert(strictly_sorted(vs1));
            assert(all_below(vs1, pow2(l as nat)));
            let em1 = layer_sibling_emissions(sizes, cols, max_l, l, vs1);
            let sib = sibling_of(vs.last());
            assert(em == em1 + seq![lnode(sizes, cols, max_l, l, sib as nat)]);
            assert(hw.subrange(pos, pos + em1.len()) == em1) by {
                assert(hw.subrange(pos, pos + em1.len()) =~= hw.subrange(pos, pos + em.len())
                    .subrange(0, em1.len() as int));
                assert(hw.subrange(pos, pos + em.len()).subrange(0, em1.len() as int) =~= em1);
            }
            lemma_lv_layer_round(sizes, cols, max_l, l, vs1, hw, pos);
            let hs1 = Seq::new(vs1.len(), |i: int| lnode(sizes, cols, max_l, l, vs1[i] as nat));
            assert(hs.drop_last() =~= hs1);
            let v = vs.last();
            let w = hw[pos + em1.len()];
            assert(w == lnode(sizes, cols, max_l, l, sib as nat)) by {
                assert(hw.subrange(pos, pos + em.len())[em1.len() as int] == w);
                assert(em[em1.len() as int] == lnode(sizes, cols, max_l, l, sib as nat));
            }
            assert(hs[vs.len() - 1] == lnode(sizes, cols, max_l, l, v as nat));
            if v % 2 == 0 {
                assert(sib == v + 1);
                assert(lifted_children_hash(lnode(sizes, cols, max_l, l, v as nat), w) == lnode(
                    sizes,
                    cols,
                    max_l,
                    (l - 1) as u32,
                    (v / 2) as nat,
                )) by {
                    assert(2 * ((v / 2) as nat) == v);
                }
            } else {
                assert(sib == v - 1);
                assert(lifted_children_hash(w, lnode(sizes, cols, max_l, l, v as nat)) == lnode(
                    sizes,
                    cols,
                    max_l,
                    (l - 1) as u32,
                    (v / 2) as nat,
                )) by {
                    assert(2 * ((v / 2) as nat) == v - 1);
                    assert(2 * ((v / 2) as nat) + 1 == v);
                }
            }
            let pp = pair_parents(vs);
            let pp1 = pair_parents(vs1);
            assert(pp == pp1.push((v / 2) as usize));
            assert(Seq::new(
                pp.len(),
                |i: int| lnode(sizes, cols, max_l, (l - 1) as u32, pp[i] as nat),
            ) =~= Seq::new(
                pp1.len(),
                |i: int| lnode(sizes, cols, max_l, (l - 1) as u32, pp1[i] as nat),
            ).push(lnode(sizes, cols, max_l, (l - 1) as u32, (v / 2) as nat)));
        }
    }
}

/// The full verifier climb, fed the true digests of the known layer and
/// exactly the remaining hash witness, succeeds, ends at the root digest and
/// consumes the witness completely.
#[verifier::spinoff_prover]
pub proof fn lemma_lv_down_round(
    sizes: Seq<u32>,
    cols: Seq<Seq<u32>>,
    max_l: u32,
    l: u32,
    vs: Seq<usize>,
    hw: Seq<Seq<u8>>,
    pos: int,
)
    requires
        l <= max_l,
        strictly_sorted(vs),
        all_below(vs, pow2(l as nat)),
        vs.len() > 0,
        0 <= pos,
        hw.len() == pos + lifted_hw_from(sizes, cols, max_l, l, vs).len(),
        hw.subrange(pos, hw.len() as int) == lifted_hw_from(sizes, cols, max_l, l, vs),
    ensures
        lv_down(
            hw,
            l,
            vs,
            Seq::new(vs.len(), |i: int| lnode(sizes, cols, max_l, l, vs[i] as nat)),
            pos,
        ) == Ok::<_, LiftedError>(
            (
                seq![0usize],
                Seq::new(1, |i: int| lnode(sizes, cols, max_l, 0, 0)),
                hw.len() as int,
            ),
        ),
    decreases l,
{
    let hs = Seq::new(vs.len(), |i: int| lnode(sizes, cols, max_l, l, vs[i] as nat));
    if l == 0 {
        assert(pow2(0) == 1) by {
            vstd::arithmetic::power2::lemma2_to64();
        }
        assert(forall|i: int| 0 <= i < vs.len() ==> vs[i] == 0);
        assert(vs.len() == 1) by {
            if vs.len() > 1 {
                assert(vs[0] < vs[1]);
            }
        }
        assert(vs =~= seq![0usize]);
        assert(hs =~= Seq::new(1, |i: int| lnode(sizes, cols, max_l, 0, 0)));
        assert(lifted_hw_from(sizes, cols, max_l, 0, vs).len() == 0);
    } else {
        let em = layer_sibling_emissions(sizes, cols, max_l, l, vs);
        let rest = lifted_hw_from(sizes, cols, max_l, (l - 1) as u32, pair_parents(vs));
        assert(lifted_hw_from(sizes, cols, max_l, l, vs) == em + rest);
        assert(hw.subrange(pos, pos + em.len()) == em) by {
            assert(hw.subrange(pos, pos + em.len()) =~= hw.subrange(pos, hw.len() as int).subrange(
                0,
                em.len() as int,
            ));
            assert(hw.subrange(pos, hw.len() as int).subrange(0, em.len() as int) =~= em);
        }
        lemma_lv_layer_round(sizes, cols, max_l, l, vs, hw, pos);
        assert(pow2(l as nat) == 2 * pow2((l - 1) as nat)) by {
            lemma_pow2_unfold(l as nat);
        }
        lemma_pair_parents_sorted_below(vs, pow2((l - 1) as nat));
        assert(hw.subrange(pos + em.len(), hw.len() as int) == rest) by {
            assert(hw.subrange(pos + em.len(), hw.len() as int) =~= hw.subrange(
                pos,
                hw.len() as int,
            ).subrange(em.len() as int, (em.len() + rest.len()) as int));
            assert(hw.subrange(pos, hw.len() as int).subrange(
                em.len() as int,
                (em.len() + rest.len()) as int,
            ) =~= rest);
        }
        lemma_lv_down_round(
            sizes,
            cols,
            max_l,
            (l - 1) as u32,
            pair_parents(vs),
            hw,
            pos + em.len(),
        );
    }
}

/// The revealed rows of a lifted decommitment hash to the true leaf digests.
pub proof fn lemma_lifted_rows_match(
    sizes: Seq<u32>,
    cols: Seq<Seq<u32>>,
    max_l: u32,
    queries: Seq<usize>,
    s: u32,
    j: int,
)
    requires
        sizes.len() == cols.len(),
        0 <= j < queries.len(),
        s <= max_l,
    ensures
        queried_row_upto(sizes, lifted_queried_vals(sizes, cols, max_l, queries), s, j as nat)
            == leaf_row_upto(sizes, cols, max_l, s, queries[j] as nat),
    decreases s,
{
    if s > 0 {
        lemma_lifted_rows_match(sizes, cols, max_l, queries, (s - 1) as u32, j);
        lemma_node_vals_queried(sizes, cols, max_l, queries, s, j, sizes.len() as int);
        let qv = lifted_queried_vals(sizes, cols, max_l, queries);
        assert(sizes.take(sizes.len() as int) =~= sizes);
        assert(qv.take(sizes.len() as int) =~= qv);
        assert(cols.take(sizes.len() as int) =~= cols);
    }
}

/// The per-size rows of the revealed values agree with the shuffled column
/// values, column by column.
pub proof fn lemma_node_vals_queried(
    sizes: Seq<u32>,
    cols: Seq<Seq<u32>>,
    max_l: u32,
    queries: Seq<usize>,
    s: u32,
    j: int,
    n: int,
)
    requires
        sizes.len() == cols.len(),
        0 <= j < queries.len(),
        1 <= s,
        0 <= n <= sizes.len(),
    ensures
        node_vals(
            sizes.take(n),
            lifted_queried_vals(sizes, cols, max_l, queries).take(n),
            s,
            j as nat,
        ) == node_vals(
            sizes.take(n),
            cols.take(n),
            s,
            lift_index((max_l - s) as u32, queries[j] as nat),
        ),
    decreases n,
{
    let qv = lifted_queried_vals(sizes, cols, max_l, queries);
    if n > 0 {
        lemma_node_vals_queried(sizes, cols, max_l, queries, s, j, n - 1);
        assert(sizes.take(n).drop_last() =~= sizes.take(n - 1));
        assert(qv.take(n).drop_last() =~= qv.take(n - 1));
        assert(cols.take(n).drop_last() =~= cols.take(n - 1));
        if sizes[n - 1] == s {
            assert(qv.take(n).last() == qv[n - 1]);
            assert(qv[n - 1][j] == cols[n - 1][lift_index((max_l - sizes[n - 1]) as u32, queries[j] as nat) as int]);
        }
    } else {
        assert(sizes.take(0) =~= Seq::<u32>::empty());
        assert(qv.take(0) =~= Seq::<Seq<u32>>::empty());
        assert(cols.take(0) =~= Seq::<Seq<u32>>::empty());
    }
}

/// Round trip of the lifted layout: for any well-formed column set and any
/// strictly increasing in-range nonempty query set, verifying the root, the
/// revealed values and the hash witness that the builder produces succeeds.
#[verifier::spinoff_prover]
pub proof fn lemma_lifted_round_trip(sizes: Seq<u32>, cols: Seq<Seq<u32>>, queries: Seq<usize>)
    requires
        lifted_columns_wf(sizes, cols),
        sizes.len() > 0,
        strictly_sorted(queries),
        queries.len() > 0,
        all_below(queries, pow2(max_log_size(sizes) as nat)),
    ensures
        lifted_verify_spec(
            lifted_root_spec(sizes, cols),
            sizes,
            queries,
            lifted_queried_vals(sizes, cols, max_log_size(sizes), queries),
            lifted_decommit_hw(sizes, cols, queries),
        ) == Ok::<(), LiftedError>(()),
{
    let max_l = max_log_size(sizes);
    let qv = lifted_queried_vals(sizes, cols, max_l, queries);
    let hw = lifted_decommit_hw(sizes, cols, queries);
    let leaves = Seq::new(
        queries.len(),
        |j: int| lifted_leaf_hash(queried_row_upto(sizes, qv, max_l, j as nat)),
    );
    assert(max_l >= 1) by {
        lemma_max_is_some_size(sizes);
        let i = choose|i: int| 0 <= i < sizes.len() && sizes[i] == max_l;
        assert(sizes[i] >= 1);
    }
    assert forall|j: int| 0 <= j < queries.len() implies leaves[j] == lnode(
        sizes,
        cols,
        max_l,
        max_l,
        queries[j] as nat,
    ) by {
        lemma_lifted_rows_match(sizes, cols, max_l, queries, max_l, j);
    }
    assert(leaves =~= Seq::new(
        queries.len(),
        |j: int| lnode(sizes, cols, max_l, max_l, queries[j] as nat),
    ));
    assert(hw.subrange(0, hw.len() as int) =~= hw);
    lemma_lv_down_round(sizes, cols, max_l, max_l, queries, hw, 0);
    assert(Seq::new(1, |i: int| lnode(sizes, cols, max_l, 0, 0))[0] == lifted_root_spec(
        sizes,
        cols,
    ));
}

/// Idempotence of lifted commitment: two well-formed trees over identical
/// columns carry identical roots — the root is a function of the columns
/// alone.
pub proof fn lemma_lifted_commit_idempotent(t1: LiftedTree, t2: LiftedTree)
    requires
        t1.wf(),
        t2.wf(),
        t1.column_log_sizes@ == t2.column_log_sizes@,
        view2(t1.columns@) == view2(t2.columns@),
    ensures
        t1.spec_root() == t2.spec_root(),
{
}

/// Root sensitivity of the lifted layout: verifying an honest decommitment
/// against any digest other than the true root fails with a root mismatch.
#[verifier::spinoff_prover]
pub proof fn lemma_lifted_root_sensitivity(
    sizes: Seq<u32>,
    cols: Seq<Seq<u32>>,
    queries: Seq<usize>,
    other_root: Seq<u8>,
)
    requires
        lifted_columns_wf(sizes, cols),
        sizes.len() > 0,
        strictly_sorted(queries),
        queries.len() > 0,
        all_below(queries, pow2(max_log_size(sizes) as nat)),
        other_root != lifted_root_spec(sizes, cols),
    ensures
        lifted_verify_spec(
            other_root,
            sizes,
            queries,
            lifted_queried_vals(sizes, cols, max_log_size(sizes), queries),
            lifted_decommit_hw(sizes, cols, queries),
        ) == Err::<(), LiftedError>(LiftedError::RootMismatch),
{
    let max_l = max_log_size(sizes);
    let qv = lifted_queried_vals(sizes, cols, max_l, queries);
    let hw = lifted_decommit_hw(sizes, cols, queries);
    let leaves = Seq::new(
        queries.len(),
        |j: int| lifted_leaf_hash(queried_row_upto(sizes, qv, max_l, j as nat)),
    );
    assert(max_l >= 1) by {
        lemma_max_is_some_size(sizes);
        let i = choose|i: int| 0 <= i < sizes.len() && sizes[i] == max_l;
        assert(sizes[i] >= 1);
    }
    assert forall|j: int| 0 <= j < queries.len() implies leaves[j] == lnode(
        sizes,
        cols,
        max_l,
        max_l,
        queries[j] as nat,
    ) by {
        lemma_lifted_rows_match(sizes, cols, max_l, queries, max_l, j);
    }
    assert(leaves =~= Seq::new(
        queries.len(),
        |j: int| lnode(sizes, cols, max_l, max_l, queries[j] as nat),
    ));
    assert(hw.subrange(0, hw.len() as int) =~= hw);
    lemma_lv_down_round(sizes, cols, max_l, max_l, queries, hw, 0);
    assert(Seq::new(1, |i: int| lnode(sizes, cols, max_l, 0, 0))[0] == lifted_root_spec(
        sizes,
        cols,
    ));
}

/// The number of lone positions among the chunks of a position list.
pub open spec fn lone_count(vs: Seq<usize>) -> nat
    decreases vs.len(),
{
    if vs.len() == 0 {
        0
    } else if is_pair_head(vs) {
        lone_count(vs.skip(2))
    } else {
        1 + lone_count(vs.skip(1))
    }
}

/// The number of witness digests a lifted climb of `l` layers consumes: a
/// function of the known positions alone.
pub open spec fn lifted_witness_len(l: u32, vs: Seq<usize>) -> nat
    decreases l,
{
    if l == 0 {
        0
    } else {
        lone_count(vs) + lifted_witness_len((l - 1) as u32, pair_parents(vs))
    }
}

/// A layer's sibling emissions number exactly its lone positions.
pub proof fn lemma_emissions_len(
    sizes: Seq<u32>,
    cols: Seq<Seq<u32>>,
    max_l: u32,
    l: u32,
    vs: Seq<usize>,
)
    ensures
        layer_sibling_emissions(sizes, cols, max_l, l, vs).len() == lone_count(vs),
    decreases vs.len(),
{
    if vs.len() == 0 {
    } else if is_pair_head(vs) {
        lemma_emissions_len(sizes, cols, max_l, l, vs.skip(2));
    } else {
        lemma_emissions_len(sizes, cols, max_l, l, vs.skip(1));
    }
}

/// The builder's hash witness has exactly [`lifted_witness_len`] digests.
pub proof fn lemma_lifted_hw_len(
    sizes: Seq<u32>,
    cols: Seq<Seq<u32>>,
    max_l: u32,
    l: u32,
    vs: Seq<usize>,
)
    ensures
        lifted_hw_from(sizes, cols, max_l, l, vs).len() == lifted_witness_len(l, vs),
    decreases l,
{
    if l > 0 {
        lemma_emissions_len(sizes, cols, max_l, l, vs);
        lemma_lifted_hw_len(sizes, cols, max_l, (l - 1) as u32, pair_parents(vs));
    }
}

/// Back decomposition of [`lone_count`] over a strictly increasing list.
pub proof fn lemma_lone_count_back(vs: Seq<usize>)
    requires
        strictly_sorted(vs),
        vs.len() > 0,
    ensures
        is_pair_end(vs) ==> lone_count(vs) == lone_count(vs.drop_last().drop_last()),
        !is_pair_end(vs) ==> lone_count(vs) == lone_count(vs.drop_last()) + 1,
{
    lemma_chunks_back(Seq::empty(), Seq::empty(), 0, 0, vs);
    lemma_emissions_len(Seq::empty(), Seq::empty(), 0, 0, vs);
    if is_pair_end(vs) {
        lemma_emissions_len(Seq::empty(), Seq::empty(), 0, 0, vs.drop_last().drop_last());
    } else {
        lemma_emissions_len(Seq::empty(), Seq::empty(), 0, 0, vs.drop_last());
    }
}

/// Whatever digests and witness a climb is fed, when it succeeds its parents
/// are the pair parents and its cursor advances by exactly the lone count.
#[verifier::spinoff_prover]
pub proof fn lemma_lv_layer_cursor(
    vs: Seq<usize>,
    hs: Seq<Seq<u8>>,
    hw: Seq<Seq<u8>>,
    st: (Seq<usize>, Seq<Seq<u8>>, int),
)
    requires
        strictly_sorted(vs),
        lv_layer(vs, hs, hw, st) is Ok,
        st.2 <= hw.len(),
    ensures
        ({
            let (ps, ds, p2) = lv_layer(vs, hs, hw, st)->Ok_0;
            &&& ps == st.0 + pair_parents(vs)
            &&& p2 == st.2 + lone_count(vs)
            &&& p2 <= hw.len()
        }),
    decreases vs.len(),
{
    if vs.len() == 0 {
        assert(st.0 + pair_parents(vs) =~= st.0);
    } else {
        lemma_chunks_back(Seq::empty(), Seq::empty(), 0, 0, vs);
        lemma_lone_count_back(vs);
        if is_pair_end(vs) {
            let vs2 = vs.drop_last().drop_last();
            assert(strictly_sorted(vs2));
            lemma_lv_layer_cursor(vs2, hs.drop_last().drop_last(), hw, st);
            let (ps, ds, p2) = lv_layer(vs2, hs.drop_last().drop_last(), hw, st)->Ok_0;
            assert(ps.push((vs[vs.len() - 2] / 2) as usize) =~= st.0 + pair_parents(vs)) by {
                assert(ps == st.0 + pair_parents(vs2));
            }
        } else {
            let vs1 = vs.drop_last();
            assert(strictly_sorted(vs1));
            lemma_lv_layer_cursor(vs1, hs.drop_last(), hw, st);
            let (ps, ds, p2) = lv_layer(vs1, hs.drop_last(), hw, st)->Ok_0;
            assert(ps.push((vs.last() / 2) as usize) =~= st.0 + pair_parents(vs)) by {
                assert(ps == st.0 + pair_parents(vs1));
            }
        }
    }
}

/// A successful climb to the root consumes exactly [`lifted_witness_len`]
/// digests, whatever the witness holds.
pub proof fn lemma_lv_down_cursor(
    hw: Seq<Seq<u8>>,
    l: u32,
    vs: Seq<usize>,
    hs: Seq<Seq<u8>>,
    pos: int,
    bound: nat,
)
    requires
        strictly_sorted(vs),
        all_below(vs, pow2(bound)),
        l <= bound,
        lv_down(hw, l, vs, hs, pos) is Ok,
        0 <= pos <= hw.len(),
    ensures
        lv_down(hw, l, vs, hs, pos)->Ok_0.2 == pos + lifted_witness_len(l, vs),
        lv_down(hw, l, vs, hs, pos)->Ok_0.2 <= hw.len(),
    decreases l,
{
    if l > 0 {
        let st: (Seq<usize>, Seq<Seq<u8>>, int) = (Seq::empty(), Seq::empty(), pos);
        lemma_lv_layer_cursor(vs, hs, hw, st);
        let (ps, ds, p2) = lv_layer(vs, hs, hw, st)->Ok_0;
        assert(ps =~= pair_parents(vs)) by {
            assert(ps == Seq::<usize>::empty() + pair_parents(vs));
        }
        assert(pow2(bound) <= 2 * pow2(bound));
        lemma_pair_parents_sorted_below(vs, pow2(bound));
        assert(all_below(pair_parents(vs), pow2(bound)));
        lemma_lv_down_cursor(hw, (l - 1) as u32, ps, ds, p2, bound);
    }
}

/// Witness minimality of the lifted layout: any hash witness the verifier
/// accepts has exactly the length of the witness the builder emits, so adding
/// or removing an entry flips the verdict.
#[verifier::spinoff_prover]
pub proof fn lemma_lifted_witness_minimality(
    root: Seq<u8>,
    sizes: Seq<u32>,
    cols: Seq<Seq<u32>>,
    queries: Seq<usize>,
    qv: Seq<Seq<u32>>,
    hw: Seq<Seq<u8>>,
)
    requires
        sizes.len() > 0,
        sizes.len() == cols.len(),
        strictly_sorted(queries),
        all_below(queries, pow2(max_log_size(sizes) as nat)),
        lifted_verify_spec(root, sizes, queries, qv, hw) == Ok::<(), LiftedError>(()),
    ensures
        hw.len() == lifted_decommit_hw(sizes, cols, queries).len(),
{
    let max_l = max_log_size(sizes);
    let leaves = Seq::new(
        queries.len(),
        |j: int| lifted_leaf_hash(queried_row_upto(sizes, qv, max_l, j as nat)),
    );
    assert(lv_down(hw, max_l, queries, leaves, 0) is Ok);
    lemma_lv_down_cursor(hw, max_l, queries, leaves, 0, max_l as nat);
    let p = lv_down(hw, max_l, queries, leaves, 0)->Ok_0.2;
    assert(!(p < hw.len()));
    assert(p == lifted_witness_len(max_l, queries));
    lemma_lifted_hw_len(sizes, cols, max_l, max_l, queries);
}

} // verus!
