//! The grouped Merkle layout.
//!
//! Columns are bucketed by log-size.  A node at layer `l`, index `i`, hashes
//! the pair of child digests from layer `l + 1` (absent at the deepest layer)
//! together with the values at index `i` of every column whose log-size is
//! exactly `l`.  Queries are scoped per layer: one strictly increasing
//! position list per log-size.  The decommitment walks the layers from the
//! deepest to the root, visiting the union of queried positions and parents
//! of previously visited positions, and emits exactly the digests and values
//! the verifier cannot derive; the verifier replays the identical traversal,
//! consuming the streams in the same order.

use vstd::prelude::*;

use vstd::arithmetic::power2::pow2;
use vstd::arithmetic::power2::lemma_pow2_unfold;

use crate::columns::MAX_LOG_SIZE;
use crate::columns::columns_wf;
use crate::columns::max_log_size;
use crate::columns::max_log_size_exec;
use crate::columns::lemma_node_vals_len;
use crate::columns::n_cols_at;
use crate::columns::node_vals;
use crate::columns::node_vals_exec;
use crate::columns::n_cols_at_exec;
use crate::columns::copy_range;
use crate::columns::pow2_usize;
use crate::columns::view2;
use crate::hashing::grouped_node_hash;
use crate::hashing::hash_node;
use crate::hashing::is_digest;
use crate::hashing::digests_equal;
use crate::hashing::digests_view;
use crate::planner::all_below;
use crate::planner::contains_idx;
use crate::planner::indices_view;
use crate::planner::merge_sorted;
use crate::planner::merge_union;
use crate::planner::parent_dedup;
use crate::planner::parent_fold;
use crate::planner::lemma_merge_union_below;
use crate::planner::lemma_merge_union_nonempty;
use crate::planner::lemma_merge_union_sorted;
use crate::planner::lemma_parent_fold_below;
use crate::planner::lemma_parent_fold_sorted;
use crate::planner::find_index;
use crate::planner::seq_contains;
use crate::planner::strictly_sorted;

verus! {

/// The digest of the grouped node at layer `l`, index `i`.  Children come
/// from layer `l + 1`; the deepest layer `max_l` has none.
pub open spec fn gnode(sizes: Seq<u32>, cols: Seq<Seq<u32>>, max_l: u32, l: u32, i: nat) -> Seq<u8>
    decreases max_l - l,
{
    if l >= max_l {
        grouped_node_hash(None, node_vals(sizes, cols, l, i))
    } else {
        grouped_node_hash(
            Some(
                (
                    gnode(sizes, cols, max_l, (l + 1) as u32, 2 * i),
                    gnode(sizes, cols, max_l, (l + 1) as u32, 2 * i + 1),
                ),
            ),
            node_vals(sizes, cols, l, i),
        )
    }
}

/// The commitment root of a grouped tree.
pub open spec fn grouped_root_spec(sizes: Seq<u32>, cols: Seq<Seq<u32>>) -> Seq<u8> {
    gnode(sizes, cols, max_log_size(sizes), 0, 0)
}

/// A per-layer query set: one strictly increasing, in-range position list for
/// every layer `0 ..= max_l`.
pub open spec fn queries_wf(queries: Seq<Seq<usize>>, max_l: u32) -> bool {
    &&& queries.len() == max_l + 1
    &&& forall|l: int|
        0 <= l < queries.len() ==> strictly_sorted(#[trigger] queries[l]) && all_below(
            queries[l],
            pow2(l as nat),
        )
}

/// The positions the decommitment traversal visits at layer `l`: the sorted
/// union of the parents of the positions visited at layer `l + 1` and the
/// queries of layer `l` itself.  Above the deepest layer nothing is visited.
pub open spec fn visited(queries: Seq<Seq<usize>>, max_l: u32, l: u32) -> Seq<usize>
    decreases max_l - l,
{
    if l > max_l {
        Seq::empty()
    } else if l == max_l {
        merge_union(parent_fold(Seq::empty()), queries[l as int])
    } else {
        merge_union(parent_fold(visited(queries, max_l, (l + 1) as u32)), queries[l as int])
    }
}

/// The digests emitted at layer `l` (`l < max_l`): for every visited
/// position, in increasing order, the digest of each child that is not
/// itself a visited position of the child layer.
pub open spec fn layer_hash_emissions(
    sizes: Seq<u32>,
    cols: Seq<Seq<u32>>,
    max_l: u32,
    l: u32,
    vs: Seq<usize>,
    known: Seq<usize>,
) -> Seq<Seq<u8>>
    decreases vs.len(),
{
    if vs.len() == 0 {
        Seq::empty()
    } else {
        let init = layer_hash_emissions(sizes, cols, max_l, l, vs.drop_last(), known);
        let v = vs.last();
        let left: Seq<Seq<u8>> = if contains_idx(known, 2 * v) {
            Seq::empty()
        } else {
            seq![gnode(sizes, cols, max_l, (l + 1) as u32, (2 * v) as nat)]
        };
        let right: Seq<Seq<u8>> = if contains_idx(known, 2 * v + 1) {
            Seq::empty()
        } else {
            seq![gnode(sizes, cols, max_l, (l + 1) as u32, (2 * v + 1) as nat)]
        };
        init + left + right
    }
}

/// The values of layer `l`'s own columns at the visited positions that were
/// explicitly queried, in traversal order.
pub open spec fn layer_queried_vals(
    sizes: Seq<u32>,
    cols: Seq<Seq<u32>>,
    l: u32,
    vs: Seq<usize>,
    q: Seq<usize>,
) -> Seq<u32>
    decreases vs.len(),
{
    if vs.len() == 0 {
        Seq::empty()
    } else {
        let init = layer_queried_vals(sizes, cols, l, vs.drop_last(), q);
        if contains_idx(q, vs.last() as int) {
            init + node_vals(sizes, cols, l, vs.last() as nat)
        } else {
            init
        }
    }
}

/// The values of layer `l`'s own columns at the visited positions that were
/// *not* explicitly queried, in traversal order.
pub open spec fn layer_witness_vals(
    sizes: Seq<u32>,
    cols: Seq<Seq<u32>>,
    l: u32,
    vs: Seq<usize>,
    q: Seq<usize>,
) -> Seq<u32>
    decreases vs.len(),
{
    if vs.len() == 0 {
        Seq::empty()
    } else {
        let init = layer_witness_vals(sizes, cols, l, vs.drop_last(), q);
        if contains_idx(q, vs.last() as int) {
            init
        } else {
            init + node_vals(sizes, cols, l, vs.last() as nat)
        }
    }
}

/// The hash witness accumulated over layers `max_l` down to `l`.
pub open spec fn hw_from(
    sizes: Seq<u32>,
    cols: Seq<Seq<u32>>,
    queries: Seq<Seq<usize>>,
    max_l: u32,
    l: u32,
) -> Seq<Seq<u8>>
    decreases max_l - l,
{
    if l >= max_l {
        Seq::empty()
    } else {
        hw_from(sizes, cols, queries, max_l, (l + 1) as u32) + layer_hash_emissions(
            sizes,
            cols,
            max_l,
            l,
            visited(queries, max_l, l),
            visited(queries, max_l, (l + 1) as u32),
        )
    }
}

/// The queried values accumulated over layers `max_l` down to `l`.
pub open spec fn qv_from(
    sizes: Seq<u32>,
    cols: Seq<Seq<u32>>,
    queries: Seq<Seq<usize>>,
    max_l: u32,
    l: u32,
) -> Seq<u32>
    decreases max_l - l,
{
    if l > max_l {
        Seq::empty()
    } else if l == max_l {
        layer_queried_vals(sizes, cols, l, visited(queries, max_l, l), queries[l as int])
    } else {
        qv_from(sizes, cols, queries, max_l, (l + 1) as u32) + layer_queried_vals(
            sizes,
            cols,
            l,
            visited(queries, max_l, l),
            queries[l as int],
        )
    }
}

/// The column witness accumulated over layers `max_l` down to `l`.
pub open spec fn cw_from(
    sizes: Seq<u32>,
    cols: Seq<Seq<u32>>,
    queries: Seq<Seq<usize>>,
    max_l: u32,
    l: u32,
) -> Seq<u32>
    decreases max_l - l,
{
    if l > max_l {
        Seq::empty()
    } else if l == max_l {
        layer_witness_vals(sizes, cols, l, visited(queries, max_l, l), queries[l as int])
    } else {
        cw_from(sizes, cols, queries, max_l, (l + 1) as u32) + layer_witness_vals(
            sizes,
            cols,
            l,
            visited(queries, max_l, l),
            queries[l as int],
        )
    }
}

/// The full hash witness of a grouped decommitment.
pub open spec fn grouped_decommit_hw(
    sizes: Seq<u32>,
    cols: Seq<Seq<u32>>,
    queries: Seq<Seq<usize>>,
) -> Seq<Seq<u8>> {
    hw_from(sizes, cols, queries, max_log_size(sizes), 0)
}

/// The full queried-value stream of a grouped decommitment.
pub open spec fn grouped_decommit_qv(
    sizes: Seq<u32>,
    cols: Seq<Seq<u32>>,
    queries: Seq<Seq<usize>>,
) -> Seq<u32> {
    qv_from(sizes, cols, queries, max_log_size(sizes), 0)
}

/// The full column witness of a grouped decommitment.
pub open spec fn grouped_decommit_cw(
    sizes: Seq<u32>,
    cols: Seq<Seq<u32>>,
    queries: Seq<Seq<usize>>,
) -> Seq<u32> {
    cw_from(sizes, cols, queries, max_log_size(sizes), 0)
}

/// A committed grouped tree: the columns and every layer of node digests.
/// Layer `l` holds `2^l` digests; layer `0` is the root.
pub struct GroupedTree {
    /// The log-size of each committed column.
    pub column_log_sizes: Vec<u32>,
    /// The committed columns, in commitment order.
    pub columns: Vec<Vec<u32>>,
    /// All tree layers, indexed by log-size.
    pub layers: Vec<Vec<Vec<u8>>>,
}

impl GroupedTree {
    /// The tree caches exactly the node digests of the model.
    pub open spec fn wf(self) -> bool {
        let sizes = self.column_log_sizes@;
        let cols = view2(self.columns@);
        let max_l = max_log_size(sizes);
        &&& columns_wf(sizes, cols)
        &&& sizes.len() > 0
        &&& self.layers@.len() == max_l + 1
        &&& forall|l: int|
            0 <= l < self.layers@.len() ==> (#[trigger] self.layers@[l])@.len() == pow2(l as nat)
        &&& forall|l: int, i: int|
            0 <= l < self.layers@.len() && 0 <= i < self.layers@[l]@.len() ==> (
            #[trigger] self.layers@[l]@[i])@ == gnode(sizes, cols, max_l, l as u32, i as nat)
            && is_digest(self.layers@[l]@[i]@)
    }

    /// The deepest layer's log-size.
    pub open spec fn spec_max_l(self) -> u32 {
        max_log_size(self.column_log_sizes@)
    }

    /// The commitment root of the model.
    pub open spec fn spec_root(self) -> Seq<u8> {
        grouped_root_spec(self.column_log_sizes@, view2(self.columns@))
    }

    /// Returns the commitment root.
    pub fn root(&self) -> (r: Vec<u8>)
        requires
            self.wf(),
        ensures
            r@ == self.spec_root(),
            is_digest(r@),
    {
        proof {
            assert(pow2(0) == 1) by {
                vstd::arithmetic::power2::lemma2_to64();
            }
            assert(self.layers@[0]@[0]@ == gnode(
                self.column_log_sizes@,
                view2(self.columns@),
                max_log_size(self.column_log_sizes@),
                0,
                0,
            ));
        }
        copy_digest(&self.layers[0][0])
    }
}

/// Copies one digest.
pub fn copy_digest(d: &Vec<u8>) -> (r: Vec<u8>)
    ensures
        r@ == d@,
{
    let mut r: Vec<u8> = Vec::new();
    let mut i: usize = 0;
    while i < d.len()
        invariant
            i <= d@.len(),
            r@ == d@.take(i as int),
        decreases d@.len() - i,
    {
        r.push(d[i]);
        proof {
            assert(d@.take(i + 1) =~= d@.take(i as int).push(d@[i as int]));
        }
        i += 1;
    }
    proof {
        assert(d@.take(d@.len() as int) =~= d@);
    }
    r
}

/// Builds the full grouped tree over the given columns.
#[verifier::spinoff_prover]
pub fn grouped_commit(column_log_sizes: Vec<u32>, columns: Vec<Vec<u32>>) -> (t: GroupedTree)
    requires
        columns_wf(column_log_sizes@, view2(columns@)),
        column_log_sizes@.len() > 0,
    ensures
        t.wf(),
        t.column_log_sizes@ == column_log_sizes@,
        view2(t.columns@) == view2(columns@),
        t.spec_root() == grouped_root_spec(column_log_sizes@, view2(columns@)),
{
    let ghost sizes = column_log_sizes@;
    let ghost colsv = view2(columns@);
    let ghost maxl = max_log_size(sizes);
    let max_l = max_log_size_exec(&column_log_sizes);
    proof {
        lemma_max_is_some_size(sizes);
        assert(maxl <= MAX_LOG_SIZE) by {
            let i = choose|i: int| 0 <= i < sizes.len() && sizes[i] == maxl;
            assert(sizes[i] <= MAX_LOG_SIZE);
        }
    }
    // `down[k]` holds layer `max_l - k`: the deepest layer is built first.
    let mut down: Vec<Vec<Vec<u8>>> = Vec::new();
    let mut step: u32 = 0;
    while step <= max_l
        invariant
            step <= max_l + 1,
            max_l == maxl,
            maxl <= MAX_LOG_SIZE,
            sizes == column_log_sizes@,
            colsv == view2(columns@),
            columns_wf(sizes, colsv),
            down@.len() == step,
            forall|k: int|
                0 <= k < down@.len() ==> (#[trigger] down@[k])@.len() == pow2((maxl - k) as nat),
            forall|k: int, i: int|
                0 <= k < down@.len() && 0 <= i < down@[k]@.len() ==> (#[trigger] down@[k]@[i])@
                    == gnode(sizes, colsv, maxl, (maxl - k) as u32, i as nat) && is_digest(
                    down@[k]@[i]@,
                ),
        decreases max_l + 1 - step,
    {
        let l = max_l - step;
        let n_nodes = pow2_usize(l);
        let mut layer: Vec<Vec<u8>> = Vec::new();
        let mut i: usize = 0;
        while i < n_nodes
            invariant
                i <= n_nodes,
                n_nodes == pow2(l as nat),
                l == maxl - step,
                step <= max_l,
                max_l == maxl,
                maxl <= MAX_LOG_SIZE,
                sizes == column_log_sizes@,
                colsv == view2(columns@),
                columns_wf(sizes, colsv),
                down@.len() == step,
                forall|k: int|
                    0 <= k < down@.len() ==> (#[trigger] down@[k])@.len() == pow2((maxl - k) as nat),
                forall|k: int, j: int|
                    0 <= k < down@.len() && 0 <= j < down@[k]@.len() ==> (#[trigger] down@[k]@[j])@
                        == gnode(sizes, colsv, maxl, (maxl - k) as u32, j as nat) && is_digest(
                        down@[k]@[j]@,
                    ),
                layer@.len() == i,
                forall|j: int|
                    0 <= j < i ==> (#[trigger] layer@[j])@ == gnode(sizes, colsv, maxl, l, j as nat)
                        && is_digest(layer@[j]@),
            decreases n_nodes - i,
        {
            proof {
                assert forall|c: int|
                    0 <= c < sizes.len() && sizes[c] == l implies i
                    < #[trigger] columns@[c]@.len() by {
                    assert(colsv[c].len() == pow2(sizes[c] as nat));
                }
            }
            let vals = node_vals_exec(&column_log_sizes, &columns, l, i);
            let node = if step == 0 {
                hash_node(None, &vals)
            } else {
                let prev = &down[(step - 1) as usize];
                proof {
                    assert(down@[step - 1]@.len() == pow2((maxl - (step - 1)) as nat));
                    assert((maxl - (step - 1)) as nat == (l + 1) as nat);
                    assert(pow2((l + 1) as nat) == 2 * pow2(l as nat)) by {
                        lemma_pow2_unfold((l + 1) as nat);
                    }
                    assert(2 * i + 1 < pow2((l + 1) as nat));
                    assert(pow2((l + 1) as nat) < usize::MAX) by {
                        vstd::bits::lemma_usize_pow2_no_overflow(31);
                        if l + 1 < 31 {
                            vstd::arithmetic::power2::lemma_pow2_strictly_increases(
                                (l + 1) as nat,
                                31,
                            );
                        }
                    }
                }
                hash_node(Some((&prev[2 * i], &prev[2 * i + 1])), &vals)
            };
            layer.push(node);
            i += 1;
        }
        down.push(layer);
        step += 1;
    }
    // Reassemble in layer order: `down` ends with layer 0.
    let mut layers: Vec<Vec<Vec<u8>>> = Vec::new();
    let mut l: u32 = 0;
    while l <= max_l
        invariant
            l <= max_l + 1,
            max_l == maxl,
            maxl <= MAX_LOG_SIZE,
            down@.len() == max_l + 1 - l,
            forall|k: int|
                0 <= k < down@.len() ==> (#[trigger] down@[k])@.len() == pow2((maxl - k) as nat),
            forall|k: int, i: int|
                0 <= k < down@.len() && 0 <= i < down@[k]@.len() ==> (#[trigger] down@[k]@[i])@
                    == gnode(sizes, colsv, maxl, (maxl - k) as u32, i as nat) && is_digest(
                    down@[k]@[i]@,
                ),
            layers@.len() == l,
            forall|k: int|
                0 <= k < layers@.len() ==> (#[trigger] layers@[k])@.len() == pow2(k as nat),
            forall|k: int, i: int|
                0 <= k < layers@.len() && 0 <= i < layers@[k]@.len() ==> (
                #[trigger] layers@[k]@[i])@ == gnode(sizes, colsv, maxl, k as u32, i as nat)
                    && is_digest(layers@[k]@[i]@),
        decreases max_l + 1 - l,
    {
        let ghost old_down = down@;
        let layer = down.pop().unwrap();
        proof {
            assert(layer == old_down[old_down.len() - 1]);
            assert(maxl - (old_down.len() - 1) == l);
        }
        layers.push(layer);
        l += 1;
    }
    GroupedTree { column_log_sizes, columns, layers }
}

/// A grouped decommitment: the digests and the column values the verifier
/// needs but cannot derive from the queried values, in traversal order.
pub struct GroupedDecommitment {
    /// Sibling and cousin digests, deepest layer first.
    pub hash_witness: Vec<Vec<u8>>,
    /// Values of visited but unqueried positions, deepest layer first.
    pub column_witness: Vec<u32>,
}

/// Builds the decommitment of a committed tree for a per-layer query set,
/// together with the queried values in traversal order.
#[verifier::spinoff_prover]
pub fn grouped_decommit(t: &GroupedTree, queries: &Vec<Vec<usize>>) -> (r: (
    Vec<u32>,
    GroupedDecommitment,
))
    requires
        t.wf(),
        queries_wf(indices_view(queries@), t.spec_max_l()),
    ensures
        r.0@ == grouped_decommit_qv(t.column_log_sizes@, view2(t.columns@), indices_view(queries@)),
        digests_view(r.1.hash_witness@) == grouped_decommit_hw(
            t.column_log_sizes@,
            view2(t.columns@),
            indices_view(queries@),
        ),
        r.1.column_witness@ == grouped_decommit_cw(
            t.column_log_sizes@,
            view2(t.columns@),
            indices_view(queries@),
        ),
        forall|i: int|
            0 <= i < r.1.hash_witness@.len() ==> is_digest(#[trigger] r.1.hash_witness@[i]@),
{
    let ghost sizes = t.column_log_sizes@;
    let ghost colsv = view2(t.columns@);
    let ghost qview = indices_view(queries@);
    let ghost maxl = max_log_size(sizes);
    let max_l = max_log_size_exec(&t.column_log_sizes);
    proof {
        lemma_max_is_some_size(sizes);
        assert(maxl <= MAX_LOG_SIZE) by {
            let i = choose|i: int| 0 <= i < sizes.len() && sizes[i] == maxl;
            assert(sizes[i] <= MAX_LOG_SIZE);
        }
    }
    let mut queried_values: Vec<u32> = Vec::new();
    let mut hash_witness: Vec<Vec<u8>> = Vec::new();
    let mut column_witness: Vec<u32> = Vec::new();
    let mut last_visited: Vec<usize> = Vec::new();
    let mut step: u32 = 0;
    while step <= max_l
        invariant
            step <= max_l + 1,
            max_l == maxl,
            maxl <= MAX_LOG_SIZE,
            t.wf(),
            sizes == t.column_log_sizes@,
            colsv == view2(t.columns@),
            qview == indices_view(queries@),
            maxl == max_log_size(sizes),
            queries_wf(qview, maxl),
            last_visited@ == visited(qview, maxl, (maxl + 1 - step) as u32),
            strictly_sorted(last_visited@),
            all_below(last_visited@, pow2((maxl + 1 - step) as nat)),
            queried_values@ == qv_from(sizes, colsv, qview, maxl, (maxl + 1 - step) as u32),
            column_witness@ == cw_from(sizes, colsv, qview, maxl, (maxl + 1 - step) as u32),
            digests_view(hash_witness@) == hw_from(
                sizes,
                colsv,
                qview,
                maxl,
                (maxl + 1 - step) as u32,
            ),
            forall|i: int|
                0 <= i < hash_witness@.len() ==> is_digest(#[trigger] hash_witness@[i]@),
        decreases max_l + 1 - step,
    {
        let l = max_l - step;
        let parents = parent_dedup(&last_visited);
        proof {
            lemma_parent_fold_sorted(last_visited@);
            assert(pow2((l + 1) as nat) == 2 * pow2(l as nat)) by {
                lemma_pow2_unfold((l + 1) as nat);
            }
            if step == 0 {
                assert(last_visited@.len() == 0);
                assert(all_below(last_visited@, 2 * pow2(l as nat)));
            } else {
                assert((maxl + 1 - step) as nat == (l + 1) as nat);
                assert(all_below(last_visited@, 2 * pow2(l as nat)));
            }
            lemma_parent_fold_below(last_visited@, pow2(l as nat));
            assert(strictly_sorted(qview[l as int]));
            assert(parents@ == parent_fold(visited(qview, maxl, (l + 1) as u32))) by {
                if step == 0 {
                    assert(visited(qview, maxl, (l + 1) as u32) =~= Seq::<usize>::empty());
                    assert(last_visited@ =~= visited(qview, maxl, (l + 1) as u32));
                }
            }
        }
        let vis = merge_sorted(&parents, &queries[l as usize]);
        proof {
            lemma_merge_union_sorted(parents@, qview[l as int]);
            lemma_merge_union_below(parents@, qview[l as int], pow2(l as nat));
            assert(vis@ == visited(qview, maxl, l));
            assert(strictly_sorted(vis@));
            assert(all_below(vis@, pow2(l as nat)));
        }
        let ghost hw_base = digests_view(hash_witness@);
        let ghost qv_base = queried_values@;
        let ghost cw_base = column_witness@;
        let mut k: usize = 0;
        while k < vis.len()
            invariant
                k <= vis@.len(),
                step <= max_l,
                l == max_l - step,
                max_l == maxl,
                maxl <= MAX_LOG_SIZE,
                t.wf(),
                sizes == t.column_log_sizes@,
                colsv == view2(t.columns@),
                qview == indices_view(queries@),
                maxl == max_log_size(sizes),
                queries_wf(qview, maxl),
                last_visited@ == visited(qview, maxl, (maxl + 1 - step) as u32),
                vis@ == visited(qview, maxl, l),
                all_below(vis@, pow2(l as nat)),
                hw_base == hw_from(sizes, colsv, qview, maxl, (l + 1) as u32),
                qv_base == qv_from(sizes, colsv, qview, maxl, (l + 1) as u32),
                cw_base == cw_from(sizes, colsv, qview, maxl, (l + 1) as u32),
                step == 0 ==> digests_view(hash_witness@) == hw_base,
                step > 0 ==> digests_view(hash_witness@) == hw_base + layer_hash_emissions(
                    sizes,
                    colsv,
                    maxl,
                    l,
                    vis@.take(k as int),
                    last_visited@,
                ),
                queried_values@ == qv_base + layer_queried_vals(
                    sizes,
                    colsv,
                    l,
                    vis@.take(k as int),
                    qview[l as int],
                ),
                column_witness@ == cw_base + layer_witness_vals(
                    sizes,
                    colsv,
                    l,
                    vis@.take(k as int),
                    qview[l as int],
                ),
                forall|i: int|
                    0 <= i < hash_witness@.len() ==> is_digest(#[trigger] hash_witness@[i]@),
            decreases vis@.len() - k,
        {
            let v = vis[k];
            proof {
                assert(vis@.take(k + 1).drop_last() =~= vis@.take(k as int));
                assert(vis@.take(k + 1).last() == vis@[k as int]);
                assert(v < pow2(l as nat));
                assert(pow2((l + 1) as nat) == 2 * pow2(l as nat)) by {
                    lemma_pow2_unfold((l + 1) as nat);
                }
                assert(pow2((l + 1) as nat) < usize::MAX) by {
                    vstd::bits::lemma_usize_pow2_no_overflow(31);
                    if l + 1 < 31 {
                        vstd::arithmetic::power2::lemma_pow2_strictly_increases((l + 1) as nat, 31);
                    }
                }
            }
            if step > 0 {
                proof {
                    assert((maxl + 1 - step) as u32 == (l + 1) as u32);
                    assert(t.layers@[l + 1]@.len() == pow2((l + 1) as nat));
                }
                let li = (l + 1) as usize;
                let left_known = seq_contains(&last_visited, 2 * v);
                proof {
                    assert(last_visited@.contains((2 * v) as usize) == contains_idx(
                        last_visited@,
                        2 * (v as int),
                    ));
                }
                if !left_known {
                    let d = copy_digest(&t.layers[li][2 * v]);
                    proof {
                        crate::hashing::lemma_digests_view_push(hash_witness@, d);
                    }
                    hash_witness.push(d);
                }
                let right_known = seq_contains(&last_visited, 2 * v + 1);
                proof {
                    assert(last_visited@.contains((2 * v + 1) as usize) == contains_idx(
                        last_visited@,
                        2 * (v as int) + 1,
                    ));
                }
                if !right_known {
                    let d = copy_digest(&t.layers[li][2 * v + 1]);
                    proof {
                        crate::hashing::lemma_digests_view_push(hash_witness@, d);
                    }
                    hash_witness.push(d);
                }
                proof {
                    assert(digests_view(hash_witness@) =~= hw_base + layer_hash_emissions(
                        sizes,
                        colsv,
                        maxl,
                        l,
                        vis@.take(k + 1),
                        last_visited@,
                    ));
                }
            }
            proof {
                assert forall|c: int|
                    0 <= c < sizes.len() && sizes[c] == l implies v
                    < #[trigger] t.columns@[c]@.len() by {
                    assert(colsv[c].len() == pow2(sizes[c] as nat));
                }
            }
            let mut vals = node_vals_exec(&t.column_log_sizes, &t.columns, l, v);
            if seq_contains(&queries[l as usize], v) {
                proof {
                    assert(qview[l as int].contains(v) == contains_idx(qview[l as int], v as int));
                }
                queried_values.append(&mut vals);
            } else {
                proof {
                    assert(qview[l as int].contains(v) == contains_idx(qview[l as int], v as int));
                }
                column_witness.append(&mut vals);
            }
            k += 1;
        }
        proof {
            assert(vis@.take(vis@.len() as int) =~= vis@);
            if step == 0 {
                assert(digests_view(hash_witness@) == hw_from(sizes, colsv, qview, maxl, l));
            } else {
                assert(l < maxl);
                assert(digests_view(hash_witness@) == hw_from(sizes, colsv, qview, maxl, l));
            }
            assert(queried_values@ == qv_from(sizes, colsv, qview, maxl, l));
            assert(column_witness@ == cw_from(sizes, colsv, qview, maxl, l));
        }
        last_visited = vis;
        step += 1;
    }
    (queried_values, GroupedDecommitment { hash_witness, column_witness })
}

/// The ways grouped verification rejects a decommitment.
#[derive(Clone, Copy, Debug, PartialEq, Eq, Structural)]
pub enum GroupedError {
    /// A hash- or column-witness stream ran out before the traversal ended.
    WitnessTooShort,
    /// A witness stream was not fully consumed.
    WitnessTooLong,
    /// Queried values remained after the traversal.
    TooManyQueriedValues,
    /// The queried values ran out before the traversal ended.
    TooFewQueriedValues,
    /// The recomputed root differs from the commitment.
    RootMismatch,
}

/// The position of an index in a sequence that contains it.
pub open spec fn idx_of(s: Seq<usize>, x: int) -> int {
    choose|k: int| 0 <= k < s.len() && s[k] == x
}

/// One verifier step: reconstruct the node at layer `l`, position `v`, from
/// the known child digests `kh` (at the positions `known` of layer `l + 1`)
/// and the three streams, starting from the partial state `st` (this layer's
/// digests so far and the three cursors).
pub open spec fn gv_node(
    sizes: Seq<u32>,
    max_l: u32,
    l: u32,
    known: Seq<usize>,
    kh: Seq<Seq<u8>>,
    q: Seq<usize>,
    qv: Seq<u32>,
    hw: Seq<Seq<u8>>,
    cw: Seq<u32>,
    v: usize,
    st: (Seq<Seq<u8>>, int, int, int),
) -> Result<(Seq<Seq<u8>>, int, int, int), GroupedError> {
    let (hs, hp, qp, cp) = st;
    let lknown = contains_idx(known, 2 * v);
    let rknown = contains_idx(known, 2 * v + 1);
    let need = (if lknown {
        0int
    } else {
        1int
    }) + (if rknown {
        0int
    } else {
        1int
    });
    if l < max_l && hp + need > hw.len() {
        Err(GroupedError::WitnessTooShort)
    } else {
        let children: Option<(Seq<u8>, Seq<u8>)> = if l >= max_l {
            None
        } else {
            let lh = if lknown {
                kh[idx_of(known, 2 * v)]
            } else {
                hw[hp]
            };
            let rh = if rknown {
                kh[idx_of(known, 2 * v + 1)]
            } else {
                hw[hp + if lknown {
                    0int
                } else {
                    1int
                }]
            };
            Some((lh, rh))
        };
        let hp2 = if l >= max_l {
            hp
        } else {
            hp + need
        };
        let n = n_cols_at(sizes, l) as int;
        if contains_idx(q, v as int) {
            if qp + n > qv.len() {
                Err(GroupedError::TooFewQueriedValues)
            } else {
                Ok(
                    (
                        hs.push(grouped_node_hash(children, qv.subrange(qp, qp + n))),
                        hp2,
                        qp + n,
                        cp,
                    ),
                )
            }
        } else {
            if cp + n > cw.len() {
                Err(GroupedError::WitnessTooShort)
            } else {
                Ok(
                    (
                        hs.push(grouped_node_hash(children, cw.subrange(cp, cp + n))),
                        hp2,
                        qp,
                        cp + n,
                    ),
                )
            }
        }
    }
}

/// Folds [`gv_node`] over the visited positions `vs` of one layer.
pub open spec fn gv_layer(
    sizes: Seq<u32>,
    max_l: u32,
    l: u32,
    known: Seq<usize>,
    kh: Seq<Seq<u8>>,
    q: Seq<usize>,
    qv: Seq<u32>,
    hw: Seq<Seq<u8>>,
    cw: Seq<u32>,
    vs: Seq<usize>,
    st0: (Seq<Seq<u8>>, int, int, int),
) -> Result<(Seq<Seq<u8>>, int, int, int), GroupedError>
    decreases vs.len(),
{
    if vs.len() == 0 {
        Ok(st0)
    } else {
        match gv_layer(sizes, max_l, l, known, kh, q, qv, hw, cw, vs.drop_last(), st0) {
            Err(e) => Err(e),
            Ok(st) => gv_node(sizes, max_l, l, known, kh, q, qv, hw, cw, vs.last(), st),
        }
    }
}

/// Replays the verifier traversal from the deepest layer down to layer `l`,
/// returning the reconstructed digests of layer `l`'s visited positions and
/// the stream cursors.
pub open spec fn gv_down(
    sizes: Seq<u32>,
    queries: Seq<Seq<usize>>,
    qv: Seq<u32>,
    hw: Seq<Seq<u8>>,
    cw: Seq<u32>,
    max_l: u32,
    l: u32,
) -> Result<(Seq<Seq<u8>>, int, int, int), GroupedError>
    decreases max_l - l,
{
    if l >= max_l {
        gv_layer(
            sizes,
            max_l,
            max_l,
            Seq::empty(),
            Seq::empty(),
            queries[max_l as int],
            qv,
            hw,
            cw,
            visited(queries, max_l, max_l),
            (Seq::empty(), 0, 0, 0),
        )
    } else {
        match gv_down(sizes, queries, qv, hw, cw, max_l, (l + 1) as u32) {
            Err(e) => Err(e),
            Ok((kh, hp, qp, cp)) => gv_layer(
                sizes,
                max_l,
                l,
                visited(queries, max_l, (l + 1) as u32),
                kh,
                queries[l as int],
                qv,
                hw,
                cw,
                visited(queries, max_l, l),
                (Seq::empty(), hp, qp, cp),
            ),
        }
    }
}

/// The outcome of grouped verification: the traversal is replayed with the
/// supplied streams; a stream that runs short or long, or a final digest
/// other than the root, rejects the decommitment.  A commitment without
/// columns verifies vacuously.
pub open spec fn grouped_verify_spec(
    root: Seq<u8>,
    sizes: Seq<u32>,
    queries: Seq<Seq<usize>>,
    qv: Seq<u32>,
    hw: Seq<Seq<u8>>,
    cw: Seq<u32>,
) -> Result<(), GroupedError> {
    if sizes.len() == 0 {
        Ok(())
    } else {
        let max_l = max_log_size(sizes);
        match gv_down(sizes, queries, qv, hw, cw, max_l, 0) {
            Err(e) => Err(e),
            Ok((hs, hp, qp, cp)) => {
                if hp < hw.len() {
                    Err(GroupedError::WitnessTooLong)
                } else if qp < qv.len() {
                    Err(GroupedError::TooManyQueriedValues)
                } else if cp < cw.len() {
                    Err(GroupedError::WitnessTooLong)
                } else if hs[0] != root {
                    Err(GroupedError::RootMismatch)
                } else {
                    Ok(())
                }
            },
        }
    }
}

/// The visited positions of every layer are strictly increasing and in
/// range.
pub proof fn lemma_visited_sorted_below(queries: Seq<Seq<usize>>, max_l: u32, l: u32)
    requires
        queries_wf(queries, max_l),
        l <= max_l,
    ensures
        strictly_sorted(visited(queries, max_l, l)),
        all_below(visited(queries, max_l, l), pow2(l as nat)),
    decreases max_l - l,
{
    lemma_pow2_unfold((l + 1) as nat);
    if l == max_l {
        lemma_parent_fold_sorted(Seq::empty());
        lemma_parent_fold_below(Seq::empty(), pow2(l as nat));
        lemma_merge_union_sorted(parent_fold(Seq::empty()), queries[l as int]);
        lemma_merge_union_below(parent_fold(Seq::empty()), queries[l as int], pow2(l as nat));
    } else {
        lemma_visited_sorted_below(queries, max_l, (l + 1) as u32);
        let up = visited(queries, max_l, (l + 1) as u32);
        lemma_parent_fold_sorted(up);
        assert(all_below(up, 2 * pow2(l as nat)));
        lemma_parent_fold_below(up, pow2(l as nat));
        lemma_merge_union_sorted(parent_fold(up), queries[l as int]);
        lemma_merge_union_below(parent_fold(up), queries[l as int], pow2(l as nat));
    }
}

/// As long as some layer at or below `l` has a query, layer `l` is visited.
pub proof fn lemma_visited_nonempty(queries: Seq<Seq<usize>>, max_l: u32, l: u32)
    requires
        queries_wf(queries, max_l),
        l <= max_l,
        exists|l2: int| l <= l2 <= max_l && (#[trigger] queries[l2]).len() > 0,
    ensures
        visited(queries, max_l, l).len() > 0,
    decreases max_l - l,
{
    let l2 = choose|l2: int| l <= l2 <= max_l && (#[trigger] queries[l2]).len() > 0;
    if l2 == l {
        if l == max_l {
            lemma_merge_union_nonempty(parent_fold(Seq::empty()), queries[l as int]);
        } else {
            lemma_merge_union_nonempty(
                parent_fold(visited(queries, max_l, (l + 1) as u32)),
                queries[l as int],
            );
        }
    } else {
        lemma_visited_nonempty(queries, max_l, (l + 1) as u32);
        let up = visited(queries, max_l, (l + 1) as u32);
        lemma_visited_sorted_below(queries, max_l, (l + 1) as u32);
        lemma_parent_fold_sorted(up);
        lemma_merge_union_nonempty(parent_fold(up), queries[l as int]);
    }
}

/// With at least one query anywhere, the root layer's single visited
/// position is `0`.
pub proof fn lemma_visited_root(queries: Seq<Seq<usize>>, max_l: u32)
    requires
        queries_wf(queries, max_l),
        exists|l2: int| 0 <= l2 <= max_l && (#[trigger] queries[l2]).len() > 0,
    ensures
        visited(queries, max_l, 0) == seq![0usize],
{
    lemma_visited_nonempty(queries, max_l, 0);
    lemma_visited_sorted_below(queries, max_l, 0);
    let v0 = visited(queries, max_l, 0);
    assert(pow2(0) == 1) by {
        vstd::arithmetic::power2::lemma2_to64();
    }
    assert(forall|i: int| 0 <= i < v0.len() ==> v0[i] == 0);
    if v0.len() > 1 {
        assert(v0[0] < v0[1]);
        assert(false);
    }
    assert(v0 =~= seq![0usize]);
}

/// Once a layer fold fails, extending the visited prefix keeps the failure.
pub proof fn lemma_gv_layer_err(
    sizes: Seq<u32>,
    max_l: u32,
    l: u32,
    known: Seq<usize>,
    kh: Seq<Seq<u8>>,
    q: Seq<usize>,
    qv: Seq<u32>,
    hw: Seq<Seq<u8>>,
    cw: Seq<u32>,
    vs: Seq<usize>,
    st0: (Seq<Seq<u8>>, int, int, int),
    k: int,
    e: GroupedError,
)
    requires
        0 <= k <= vs.len(),
        gv_layer(sizes, max_l, l, known, kh, q, qv, hw, cw, vs.take(k), st0) == Err::<
            (Seq<Seq<u8>>, int, int, int),
            GroupedError,
        >(e),
    ensures
        gv_layer(sizes, max_l, l, known, kh, q, qv, hw, cw, vs, st0) == Err::<
            (Seq<Seq<u8>>, int, int, int),
            GroupedError,
        >(e),
    decreases vs.len() - k,
{
    if k == vs.len() {
        assert(vs.take(k) =~= vs);
    } else {
        assert(vs.take(k + 1).drop_last() =~= vs.take(k));
        lemma_gv_layer_err(sizes, max_l, l, known, kh, q, qv, hw, cw, vs, st0, k + 1, e);
    }
}

/// Once some layer of the downward replay fails, the whole replay fails.
pub proof fn lemma_gv_down_err(
    sizes: Seq<u32>,
    queries: Seq<Seq<usize>>,
    qv: Seq<u32>,
    hw: Seq<Seq<u8>>,
    cw: Seq<u32>,
    max_l: u32,
    l: u32,
    l2: u32,
    e: GroupedError,
)
    requires
        l2 <= l <= max_l,
        gv_down(sizes, queries, qv, hw, cw, max_l, l) == Err::<
            (Seq<Seq<u8>>, int, int, int),
            GroupedError,
        >(e),
    ensures
        gv_down(sizes, queries, qv, hw, cw, max_l, l2) == Err::<
            (Seq<Seq<u8>>, int, int, int),
            GroupedError,
        >(e),
    decreases l - l2,
{
    if l2 < l {
        lemma_gv_down_err(sizes, queries, qv, hw, cw, max_l, l, (l2 + 1) as u32, e);
    }
}

/// Lifts a failing layer fold to a failure of the whole downward replay.
pub proof fn lemma_gv_err_lift(
    sizes: Seq<u32>,
    queries: Seq<Seq<usize>>,
    qv: Seq<u32>,
    hw: Seq<Seq<u8>>,
    cw: Seq<u32>,
    max_l: u32,
    step: u32,
    kh: Seq<Seq<u8>>,
    hp0: int,
    qp0: int,
    cp0: int,
    e: GroupedError,
)
    requires
        step <= max_l,
        max_l < u32::MAX,
        step == 0 ==> kh == Seq::<Seq<u8>>::empty() && hp0 == 0 && qp0 == 0 && cp0 == 0,
        step > 0 ==> gv_down(sizes, queries, qv, hw, cw, max_l, (max_l + 1 - step) as u32) == Ok::<
            _,
            GroupedError,
        >((kh, hp0, qp0, cp0)),
        gv_layer(
            sizes,
            max_l,
            (max_l - step) as u32,
            visited(queries, max_l, (max_l + 1 - step) as u32),
            kh,
            queries[max_l - step],
            qv,
            hw,
            cw,
            visited(queries, max_l, (max_l - step) as u32),
            (Seq::empty(), hp0, qp0, cp0),
        ) == Err::<(Seq<Seq<u8>>, int, int, int), _>(e),
    ensures
        gv_down(sizes, queries, qv, hw, cw, max_l, 0) == Err::<
            (Seq<Seq<u8>>, int, int, int),
            GroupedError,
        >(e),
{
    let l = (max_l - step) as u32;
    if step == 0 {
        assert(visited(queries, max_l, (max_l + 1 - step) as u32) == Seq::<usize>::empty());
        assert(gv_down(sizes, queries, qv, hw, cw, max_l, l) == Err::<
            (Seq<Seq<u8>>, int, int, int),
            _,
        >(e));
    } else {
        assert((max_l + 1 - step) as u32 == (l + 1) as u32);
        assert(gv_down(sizes, queries, qv, hw, cw, max_l, l) == Err::<
            (Seq<Seq<u8>>, int, int, int),
            _,
        >(e));
    }
    lemma_gv_down_err(sizes, queries, qv, hw, cw, max_l, l, 0, e);
}

/// Verifies a grouped decommitment against a commitment root: replays the
/// decommitment traversal, reconstructing every visited node from the queried
/// values and the witness streams, and compares the final digest with the
/// root.  The result is exactly [`grouped_verify_spec`] of the inputs.
///
/// Callers must supply query positions that satisfy the data-model
/// invariant — strictly increasing and within each layer's width — and at
/// least one query overall (with none, no node survives the replay); the
/// witness digests must have the fixed digest width.  Witness or value
/// streams of any length are accepted and rejected with the matching
/// verdict.
#[verifier::spinoff_prover]
pub fn grouped_verify(
    root: &Vec<u8>,
    column_log_sizes: &Vec<u32>,
    queries: &Vec<Vec<usize>>,
    queried_values: &Vec<u32>,
    decommitment: &GroupedDecommitment,
) -> (r: Result<(), GroupedError>)
    requires
        forall|i: int|
            0 <= i < column_log_sizes@.len() ==> #[trigger] column_log_sizes@[i] <= MAX_LOG_SIZE,
        column_log_sizes@.len() > 0 ==> queries_wf(
            indices_view(queries@),
            max_log_size(column_log_sizes@),
        ),
        column_log_sizes@.len() > 0 ==> exists|l2: int|
            0 <= l2 < queries@.len() && (#[trigger] indices_view(queries@)[l2]).len() > 0,
        forall|i: int|
            0 <= i < decommitment.hash_witness@.len() ==> is_digest(
                (#[trigger] decommitment.hash_witness@[i])@,
            ),
    ensures
        r == grouped_verify_spec(
            root@,
            column_log_sizes@,
            indices_view(queries@),
            queried_values@,
            digests_view(decommitment.hash_witness@),
            decommitment.column_witness@,
        ),
{
    let ghost sizes = column_log_sizes@;
    let ghost qview = indices_view(queries@);
    let ghost qvv = queried_values@;
    let ghost hwv = digests_view(decommitment.hash_witness@);
    let ghost cwv = decommitment.column_witness@;
    if column_log_sizes.len() == 0 {
        return Ok(());
    }
    let ghost maxl = max_log_size(sizes);
    let max_l = max_log_size_exec(column_log_sizes);
    proof {
        lemma_max_is_some_size(sizes);
        assert(maxl <= MAX_LOG_SIZE) by {
            let i = choose|i: int| 0 <= i < sizes.len() && sizes[i] == maxl;
            assert(sizes[i] <= MAX_LOG_SIZE);
        }
    }
    let mut hp: usize = 0;
    let mut qp: usize = 0;
    let mut cp: usize = 0;
    let mut known: Vec<usize> = Vec::new();
    let mut kh: Vec<Vec<u8>> = Vec::new();
    let mut step: u32 = 0;
    while step <= max_l
        invariant
            step <= max_l + 1,
            max_l == maxl,
            maxl <= MAX_LOG_SIZE,
            sizes == column_log_sizes@,
            sizes.len() > 0,
            qview == indices_view(queries@),
            qvv == queried_values@,
            hwv == digests_view(decommitment.hash_witness@),
            cwv == decommitment.column_witness@,
            maxl == max_log_size(sizes),
            queries_wf(qview, maxl),
            forall|i: int|
                0 <= i < decommitment.hash_witness@.len() ==> is_digest(
                    (#[trigger] decommitment.hash_witness@[i])@,
                ),
            known@ == visited(qview, maxl, (maxl + 1 - step) as u32),
            kh@.len() == known@.len(),
            forall|i: int| 0 <= i < kh@.len() ==> is_digest((#[trigger] kh@[i])@),
            hp <= decommitment.hash_witness@.len(),
            qp <= queried_values@.len(),
            cp <= decommitment.column_witness@.len(),
            step == 0 ==> hp == 0 && qp == 0 && cp == 0,
            step > 0 ==> gv_down(sizes, qview, qvv, hwv, cwv, maxl, (maxl + 1 - step) as u32)
                == Ok::<_, GroupedError>((digests_view(kh@), hp as int, qp as int, cp as int)),
        decreases max_l + 1 - step,
    {
        let l = max_l - step;
        proof {
            if step == 0 {
                assert(known@ =~= Seq::<usize>::empty());
                assert(strictly_sorted(known@));
                assert(all_below(known@, 2 * pow2(l as nat)));
            } else {
                lemma_visited_sorted_below(qview, maxl, (maxl + 1 - step) as u32);
                assert((maxl + 1 - step) as u32 == (l + 1) as u32);
                assert(pow2((l + 1) as nat) == 2 * pow2(l as nat)) by {
                    lemma_pow2_unfold((l + 1) as nat);
                }
            }
            lemma_parent_fold_sorted(known@);
            lemma_parent_fold_below(known@, pow2(l as nat));
            assert(strictly_sorted(qview[l as int]));
        }
        let parents = parent_dedup(&known);
        let vis = merge_sorted(&parents, &queries[l as usize]);
        proof {
            lemma_merge_union_sorted(parents@, qview[l as int]);
            lemma_merge_union_below(parents@, qview[l as int], pow2(l as nat));
            assert(vis@ == visited(qview, maxl, l)) by {
                if step == 0 {
                    assert(known@ =~= Seq::<usize>::empty());
                }
            }
            assert(strictly_sorted(vis@));
            assert(all_below(vis@, pow2(l as nat)));
        }
        let n = n_cols_at_exec(column_log_sizes, l);
        let ghost hp0 = hp as int;
        let ghost qp0 = qp as int;
        let ghost cp0 = cp as int;
        let ghost st0: (Seq<Seq<u8>>, int, int, int) = (Seq::empty(), hp0, qp0, cp0);
        let mut hs: Vec<Vec<u8>> = Vec::new();
        proof {
            assert(vis@.take(0int) =~= Seq::<usize>::empty());
            assert(digests_view(hs@) =~= Seq::<Seq<u8>>::empty());
            if step == 0 {
                assert(digests_view(kh@) =~= Seq::<Seq<u8>>::empty());
            }
        }
        let mut k: usize = 0;
        while k < vis.len()
            invariant
                k <= vis@.len(),
                step <= max_l,
                l == max_l - step,
                max_l == maxl,
                maxl <= MAX_LOG_SIZE,
                sizes == column_log_sizes@,
                sizes.len() > 0,
                qview == indices_view(queries@),
                qvv == queried_values@,
                hwv == digests_view(decommitment.hash_witness@),
                cwv == decommitment.column_witness@,
                maxl == max_log_size(sizes),
                queries_wf(qview, maxl),
                forall|i: int|
                    0 <= i < decommitment.hash_witness@.len() ==> is_digest(
                        (#[trigger] decommitment.hash_witness@[i])@,
                    ),
                known@ == visited(qview, maxl, (maxl + 1 - step) as u32),
                strictly_sorted(known@),
                kh@.len() == known@.len(),
                forall|i: int| 0 <= i < kh@.len() ==> is_digest((#[trigger] kh@[i])@),
                vis@ == visited(qview, maxl, l),
                all_below(vis@, pow2(l as nat)),
                n == n_cols_at(sizes, l),
                hp <= decommitment.hash_witness@.len(),
                qp <= queried_values@.len(),
                cp <= decommitment.column_witness@.len(),
                hs@.len() == k,
                forall|i: int| 0 <= i < hs@.len() ==> is_digest((#[trigger] hs@[i])@),
                gv_layer(
                    sizes,
                    maxl,
                    l,
                    known@,
                    digests_view(kh@),
                    qview[l as int],
                    qvv,
                    hwv,
                    cwv,
                    vis@.take(k as int),
                    st0,
                ) == Ok::<_, GroupedError>(
                    (digests_view(hs@), hp as int, qp as int, cp as int),
                ),
                step == 0 ==> hp0 == 0 && qp0 == 0 && cp0 == 0 && digests_view(kh@) == Seq::<
                    Seq<u8>,
                >::empty(),
                step > 0 ==> gv_down(sizes, qview, qvv, hwv, cwv, maxl, (maxl + 1 - step) as u32)
                    == Ok::<_, GroupedError>((digests_view(kh@), hp0, qp0, cp0)),
                st0 == (Seq::<Seq<u8>>::empty(), hp0, qp0, cp0),
            decreases vis@.len() - k,
        {
            let v = vis[k];
            let ghost st: (Seq<Seq<u8>>, int, int, int) = (
                digests_view(hs@),
                hp as int,
                qp as int,
                cp as int,
            );
            proof {
                assert(vis@.take(k + 1).drop_last() =~= vis@.take(k as int));
                assert(vis@.take(k + 1).last() == vis@[k as int]);
                assert(v < pow2(l as nat));
                assert(pow2((l + 1) as nat) == 2 * pow2(l as nat)) by {
                    lemma_pow2_unfold((l + 1) as nat);
                }
                assert(pow2((l + 1) as nat) < usize::MAX) by {
                    vstd::bits::lemma_usize_pow2_no_overflow(31);
                    if l + 1 < 31 {
                        vstd::arithmetic::power2::lemma_pow2_strictly_increases((l + 1) as nat, 31);
                    }
                }
            }
            // Reconstruct the children pair, reading the witness where a
            // child was not itself visited.
            let mut children_digests: Option<(Vec<u8>, Vec<u8>)> = None;
            if step > 0 {
                let lfound = find_index(&known, 2 * v);
                let left: Vec<u8> = match lfound {
                    Some(ix) => {
                        proof {
                            assert(known@[ix as int] == (2 * v) as usize);
                            assert(contains_idx(known@, 2 * (v as int)));
                            let cx = idx_of(known@, 2 * (v as int));
                            assert(known@[cx] == 2 * (v as int));
                            assert(cx == ix) by {
                                if cx < ix {
                                    assert(known@[cx] < known@[ix as int]);
                                } else if ix < cx {
                                    assert(known@[ix as int] < known@[cx]);
                                }
                            }
                        }
                        copy_digest(&kh[ix])
                    },
                    None => {
                        proof {
                            assert(!contains_idx(known@, 2 * (v as int)));
                        }
                        if hp >= decommitment.hash_witness.len() {
                            proof {
                                let e = GroupedError::WitnessTooShort;
                                assert(gv_layer(
                                    sizes,
                                    maxl,
                                    l,
                                    known@,
                                    digests_view(kh@),
                                    qview[l as int],
                                    qvv,
                                    hwv,
                                    cwv,
                                    vis@.take(k + 1),
                                    st0,
                                ) == Err::<(Seq<Seq<u8>>, int, int, int), _>(e));
                                lemma_gv_layer_err(
                                    sizes,
                                    maxl,
                                    l,
                                    known@,
                                    digests_view(kh@),
                                    qview[l as int],
                                    qvv,
                                    hwv,
                                    cwv,
                                    vis@,
                                    st0,
                                    k + 1,
                                    e,
                                );
                                lemma_gv_err_lift(
                                    sizes,
                                    qview,
                                    qvv,
                                    hwv,
                                    cwv,
                                    maxl,
                                    step,
                                    digests_view(kh@),
                                    hp0,
                                    qp0,
                                    cp0,
                                    e,
                                );
                            }
                            return Err(GroupedError::WitnessTooShort);
                        }
                        let d = copy_digest(&decommitment.hash_witness[hp]);
                        hp = hp + 1;
                        d
                    },
                };
                let rfound = find_index(&known, 2 * v + 1);
                let right: Vec<u8> = match rfound {
                    Some(ix) => {
                        proof {
                            assert(known@[ix as int] == (2 * v + 1) as usize);
                            assert(contains_idx(known@, 2 * (v as int) + 1));
                            let cx = idx_of(known@, 2 * (v as int) + 1);
                            assert(known@[cx] == 2 * (v as int) + 1);
                            assert(cx == ix) by {
                                if cx < ix {
                                    assert(known@[cx] < known@[ix as int]);
                                } else if ix < cx {
                                    assert(known@[ix as int] < known@[cx]);
                                }
                            }
                        }
                        copy_digest(&kh[ix])
                    },
                    None => {
                        proof {
                            assert(!contains_idx(known@, 2 * (v as int) + 1));
                        }
                        if hp >= decommitment.hash_witness.len() {
                            proof {
                                let e = GroupedError::WitnessTooShort;
                                assert(gv_layer(
                                    sizes,
                                    maxl,
                                    l,
                                    known@,
                                    digests_view(kh@),
                                    qview[l as int],
                                    qvv,
                                    hwv,
                                    cwv,
                                    vis@.take(k + 1),
                                    st0,
                                ) == Err::<(Seq<Seq<u8>>, int, int, int), _>(e));
                                lemma_gv_layer_err(
                                    sizes,
                                    maxl,
                                    l,
                                    known@,
                                    digests_view(kh@),
                                    qview[l as int],
                                    qvv,
                                    hwv,
                                    cwv,
                                    vis@,
                                    st0,
                                    k + 1,
                                    e,
                                );
                                lemma_gv_err_lift(
                                    sizes,
                                    qview,
                                    qvv,
                                    hwv,
                                    cwv,
                                    maxl,
                                    step,
                                    digests_view(kh@),
                                    hp0,
                                    qp0,
                                    cp0,
                                    e,
                                );
                            }
                            return Err(GroupedError::WitnessTooShort);
                        }
                        let d = copy_digest(&decommitment.hash_witness[hp]);
                        hp = hp + 1;
                        d
                    },
                };
                children_digests = Some((left, right));
            }
            // Read the node's values from the queried stream or the column
            // witness.
            let queried_here = seq_contains(&queries[l as usize], v);
            proof {
                assert(qview[l as int].contains(v) == contains_idx(qview[l as int], v as int));
            }
            let vals: Vec<u32> = if queried_here {
                if queried_values.len() - qp < n {
                    proof {
                        let e = GroupedError::TooFewQueriedValues;
                        assert(gv_layer(
                            sizes,
                            maxl,
                            l,
                            known@,
                            digests_view(kh@),
                            qview[l as int],
                            qvv,
                            hwv,
                            cwv,
                            vis@.take(k + 1),
                            st0,
                        ) == Err::<(Seq<Seq<u8>>, int, int, int), _>(e));
                        lemma_gv_layer_err(
                            sizes,
                            maxl,
                            l,
                            known@,
                            digests_view(kh@),
                            qview[l as int],
                            qvv,
                            hwv,
                            cwv,
                            vis@,
                            st0,
                            k + 1,
                            e,
                        );
                        lemma_gv_err_lift(
                            sizes,
                            qview,
                            qvv,
                            hwv,
                            cwv,
                            maxl,
                            step,
                            digests_view(kh@),
                            hp0,
                            qp0,
                            cp0,
                            e,
                        );
                    }
                    return Err(GroupedError::TooFewQueriedValues);
                }
                let vals = copy_range(queried_values, qp, n);
                qp = qp + n;
                vals
            } else {
                if decommitment.column_witness.len() - cp < n {
                    proof {
                        let e = GroupedError::WitnessTooShort;
                        assert(gv_layer(
                            sizes,
                            maxl,
                            l,
                            known@,
                            digests_view(kh@),
                            qview[l as int],
                            qvv,
                            hwv,
                            cwv,
                            vis@.take(k + 1),
                            st0,
                        ) == Err::<(Seq<Seq<u8>>, int, int, int), _>(e));
                        lemma_gv_layer_err(
                            sizes,
                            maxl,
                            l,
                            known@,
                            digests_view(kh@),
                            qview[l as int],
                            qvv,
                            hwv,
                            cwv,
                            vis@,
                            st0,
                            k + 1,
                            e,
                        );
                        lemma_gv_err_lift(
                            sizes,
                            qview,
                            qvv,
                            hwv,
                            cwv,
                            maxl,
                            step,
                            digests_view(kh@),
                            hp0,
                            qp0,
                            cp0,
                            e,
                        );
                    }
                    return Err(GroupedError::WitnessTooShort);
                }
                let vals = copy_range(&decommitment.column_witness, cp, n);
                cp = cp + n;
                vals
            };
            let node = match &children_digests {
                Some((left, right)) => hash_node(Some((left, right)), &vals),
                None => hash_node(None, &vals),
            };
            proof {
                crate::hashing::lemma_digests_view_push(hs@, node);
                assert(gv_node(
                    sizes,
                    maxl,
                    l,
                    known@,
                    digests_view(kh@),
                    qview[l as int],
                    qvv,
                    hwv,
                    cwv,
                    v,
                    st,
                ) == Ok::<_, GroupedError>(
                    (digests_view(hs@).push(node@), hp as int, qp as int, cp as int),
                ));
            }
            hs.push(node);
            k += 1;
        }
        proof {
            assert(vis@.take(vis@.len() as int) =~= vis@);
            assert(gv_down(sizes, qview, qvv, hwv, cwv, maxl, l) == Ok::<_, GroupedError>(
                (digests_view(hs@), hp as int, qp as int, cp as int),
            )) by {
                if step == 0 {
                    assert(l == maxl);
                    assert(known@ =~= Seq::<usize>::empty());
                }
            }
        }
        known = vis;
        kh = hs;
        step += 1;
    }
    proof {
        assert((maxl + 1 - step) as u32 == 0);
        lemma_visited_root(qview, maxl);
        assert(known@ == seq![0usize]);
        assert(kh@.len() == 1);
    }
    if hp < decommitment.hash_witness.len() {
        return Err(GroupedError::WitnessTooLong);
    }
    if qp < queried_values.len() {
        return Err(GroupedError::TooManyQueriedValues);
    }
    if cp < decommitment.column_witness.len() {
        return Err(GroupedError::WitnessTooLong);
    }
    if !digests_equal(&kh[0], root) {
        proof {
            assert(digests_view(kh@)[0] == kh@[0]@);
        }
        return Err(GroupedError::RootMismatch);
    }
    proof {
        assert(digests_view(kh@)[0] == kh@[0]@);
    }
    Ok(())
}

/// Some column attains the maximal log-size.
pub proof fn lemma_max_is_some_size(sizes: Seq<u32>)
    requires
        sizes.len() > 0,
    ensures
        exists|i: int| 0 <= i < sizes.len() && sizes[i] == max_log_size(sizes),
    decreases sizes.len(),
{
    if sizes.len() == 1 {
        assert(sizes.drop_last().len() == 0);
        assert(max_log_size(sizes.drop_last()) == 0);
        assert(sizes.last() == sizes[0]);
        assert(sizes[0] == max_log_size(sizes));
    } else {
        let rest = max_log_size(sizes.drop_last());
        if sizes.last() > rest {
            assert(sizes[sizes.len() - 1] == max_log_size(sizes));
        } else {
            lemma_max_is_some_size(sizes.drop_last());
            let i = choose|i: int|
                0 <= i < sizes.drop_last().len() && sizes.drop_last()[i] == rest;
            assert(sizes[i] == max_log_size(sizes));
        }
    }
}

/// The true digests of the child layer, aligned with the known positions.
pub open spec fn known_digests(
    sizes: Seq<u32>,
    cols: Seq<Seq<u32>>,
    max_l: u32,
    l: u32,
    known: Seq<usize>,
) -> Seq<Seq<u8>> {
    Seq::new(known.len(), |i: int| gnode(sizes, cols, max_l, (l + 1) as u32, known[i] as nat))
}

/// The true digests of layer `l` at the visited positions.
pub open spec fn visited_digests(
    sizes: Seq<u32>,
    cols: Seq<Seq<u32>>,
    max_l: u32,
    l: u32,
    vs: Seq<usize>,
) -> Seq<Seq<u8>> {
    Seq::new(vs.len(), |i: int| gnode(sizes, cols, max_l, l, vs[i] as nat))
}

/// One verifier layer, fed the true child digests and exactly the layer's
/// emissions, succeeds, reconstructs the true digests of the layer, and
/// consumes exactly the emitted streams.
#[verifier::spinoff_prover]
pub proof fn lemma_gv_layer_round(
    sizes: Seq<u32>,
    cols: Seq<Seq<u32>>,
    max_l: u32,
    l: u32,
    known: Seq<usize>,
    q: Seq<usize>,
    qv: Seq<u32>,
    hw: Seq<Seq<u8>>,
    cw: Seq<u32>,
    vs: Seq<usize>,
    hp: int,
    qp: int,
    cp: int,
)
    requires
        sizes.len() == cols.len(),
        l <= max_l,
        strictly_sorted(known),
        0 <= hp,
        0 <= qp,
        0 <= cp,
        l < max_l ==> hp + layer_hash_emissions(sizes, cols, max_l, l, vs, known).len()
            <= hw.len() && hw.subrange(
            hp,
            hp + layer_hash_emissions(sizes, cols, max_l, l, vs, known).len(),
        ) == layer_hash_emissions(sizes, cols, max_l, l, vs, known),
        qp + layer_queried_vals(sizes, cols, l, vs, q).len() <= qv.len() && qv.subrange(
            qp,
            qp + layer_queried_vals(sizes, cols, l, vs, q).len(),
        ) == layer_queried_vals(sizes, cols, l, vs, q),
        cp + layer_witness_vals(sizes, cols, l, vs, q).len() <= cw.len() && cw.subrange(
            cp,
            cp + layer_witness_vals(sizes, cols, l, vs, q).len(),
        ) == layer_witness_vals(sizes, cols, l, vs, q),
    ensures
        gv_layer(
            sizes,
            max_l,
            l,
            known,
            known_digests(sizes, cols, max_l, l, known),
            q,
            qv,
            hw,
            cw,
            vs,
            (Seq::empty(), hp, qp, cp),
        ) == Ok::<_, GroupedError>(
            (
                visited_digests(sizes, cols, max_l, l, vs),
                hp + if l < max_l {
                    layer_hash_emissions(sizes, cols, max_l, l, vs, known).len() as int
                } else {
                    0
                },
                qp + layer_queried_vals(sizes, cols, l, vs, q).len(),
                cp + layer_witness_vals(sizes, cols, l, vs, q).len(),
            ),
        ),
    decreases vs.len(),
{
    let kh = known_digests(sizes, cols, max_l, l, known);
    let em = layer_hash_emissions(sizes, cols, max_l, l, vs, known);
    let lq = layer_queried_vals(sizes, cols, l, vs, q);
    let lw = layer_witness_vals(sizes, cols, l, vs, q);
    if vs.len() == 0 {
        assert(visited_digests(sizes, cols, max_l, l, vs) =~= Seq::<Seq<u8>>::empty());
    } else {
        let v = vs.last();
        let vs1 = vs.drop_last();
        let em1 = layer_hash_emissions(sizes, cols, max_l, l, vs1, known);
        let lq1 = layer_queried_vals(sizes, cols, l, vs1, q);
        let lw1 = layer_witness_vals(sizes, cols, l, vs1, q);
        // Segment facts restrict to the shorter prefix.
        if l < max_l {
            assert(em1.len() <= em.len());
            assert(hw.subrange(hp, hp + em1.len()) == em1) by {
                assert(hw.subrange(hp, hp + em1.len()) =~= hw.subrange(hp, hp + em.len()).subrange(
                    0,
                    em1.len() as int,
                ));
                assert(hw.subrange(hp, hp + em.len()).subrange(0, em1.len() as int) =~= em1);
            }
        }
        assert(lq1.len() <= lq.len());
        assert(qv.subrange(qp, qp + lq1.len()) == lq1) by {
            assert(qv.subrange(qp, qp + lq1.len()) =~= qv.subrange(qp, qp + lq.len()).subrange(
                0,
                lq1.len() as int,
            ));
            assert(qv.subrange(qp, qp + lq.len()).subrange(0, lq1.len() as int) =~= lq1);
        }
        assert(lw1.len() <= lw.len());
        assert(cw.subrange(cp, cp + lw1.len()) == lw1) by {
            assert(cw.subrange(cp, cp + lw1.len()) =~= cw.subrange(cp, cp + lw.len()).subrange(
                0,
                lw1.len() as int,
            ));
            assert(cw.subrange(cp, cp + lw.len()).subrange(0, lw1.len() as int) =~= lw1);
        }
        lemma_gv_layer_round(sizes, cols, max_l, l, known, q, qv, hw, cw, vs1, hp, qp, cp);
        let hp1: int = hp + if l < max_l {
            em1.len() as int
        } else {
            0
        };
        let qp1 = qp + lq1.len();
        let cp1 = cp + lw1.len();
        let st: (Seq<Seq<u8>>, int, int, int) = (
            visited_digests(sizes, cols, max_l, l, vs1),
            hp1,
            qp1,
            cp1,
        );
        // The node step reads the children and the values and hashes them.
        let n = n_cols_at(sizes, l) as int;
        lemma_node_vals_len(sizes, cols, l, v as nat);
        let lknown = contains_idx(known, 2 * v);
        let rknown = contains_idx(known, 2 * v + 1);
        if l < max_l {
            let left_em: Seq<Seq<u8>> = if lknown {
                Seq::empty()
            } else {
                seq![gnode(sizes, cols, max_l, (l + 1) as u32, (2 * v) as nat)]
            };
            let right_em: Seq<Seq<u8>> = if rknown {
                Seq::empty()
            } else {
                seq![gnode(sizes, cols, max_l, (l + 1) as u32, (2 * v + 1) as nat)]
            };
            assert(em == em1 + left_em + right_em);
            if lknown {
                let k = idx_of(known, 2 * v);
                assert(0 <= k < known.len() && known[k] == 2 * v);
                assert(kh[k] == gnode(sizes, cols, max_l, (l + 1) as u32, (2 * v) as nat));
            } else {
                assert(hw[hp1] == gnode(sizes, cols, max_l, (l + 1) as u32, (2 * v) as nat)) by {
                    assert(hw.subrange(hp, hp + em.len())[hp1 - hp] == hw[hp1]);
                    assert(em[em1.len() as int] == gnode(
                        sizes,
                        cols,
                        max_l,
                        (l + 1) as u32,
                        (2 * v) as nat,
                    ));
                }
            }
            if rknown {
                let k = idx_of(known, 2 * v + 1);
                assert(0 <= k < known.len() && known[k] == 2 * v + 1);
                assert(kh[k] == gnode(sizes, cols, max_l, (l + 1) as u32, (2 * v + 1) as nat));
            } else {
                let off: int = em1.len() + if lknown {
                    0int
                } else {
                    1int
                };
                assert(hw[hp + off] == gnode(sizes, cols, max_l, (l + 1) as u32, (2 * v + 1) as nat))
                    by {
                    assert(hw.subrange(hp, hp + em.len())[off] == hw[hp + off]);
                    assert(em[off] == gnode(sizes, cols, max_l, (l + 1) as u32, (2 * v + 1) as nat));
                }
            }
        }
        if contains_idx(q, v as int) {
            assert(lq == lq1 + node_vals(sizes, cols, l, v as nat));
            assert(qv.subrange(qp1, qp1 + n) == node_vals(sizes, cols, l, v as nat)) by {
                assert(qv.subrange(qp1, qp1 + n) =~= qv.subrange(qp, qp + lq.len()).subrange(
                    lq1.len() as int,
                    lq.len() as int,
                ));
                assert(qv.subrange(qp, qp + lq.len()).subrange(lq1.len() as int, lq.len() as int)
                    =~= node_vals(sizes, cols, l, v as nat));
            }
            assert(lw == lw1);
        } else {
            assert(lw == lw1 + node_vals(sizes, cols, l, v as nat));
            assert(cw.subrange(cp1, cp1 + n) == node_vals(sizes, cols, l, v as nat)) by {
                assert(cw.subrange(cp1, cp1 + n) =~= cw.subrange(cp, cp + lw.len()).subrange(
                    lw1.len() as int,
                    lw.len() as int,
                ));
                assert(cw.subrange(cp, cp + lw.len()).subrange(lw1.len() as int, lw.len() as int)
                    =~= node_vals(sizes, cols, l, v as nat));
            }
            assert(lq == lq1);
        }
        assert(gv_node(sizes, max_l, l, known, kh, q, qv, hw, cw, v, st) == Ok::<_, GroupedError>(
            (
                visited_digests(sizes, cols, max_l, l, vs1).push(
                    gnode(sizes, cols, max_l, l, v as nat),
                ),
                hp + if l < max_l {
                    em.len() as int
                } else {
                    0
                },
                qp + lq.len(),
                cp + lw.len(),
            ),
        ));
        assert(visited_digests(sizes, cols, max_l, l, vs1).push(
            gnode(sizes, cols, max_l, l, v as nat),
        ) =~= visited_digests(sizes, cols, max_l, l, vs));
    }
}

/// The witness of deeper layers is a prefix of the witness of shallower ones.
#[verifier::spinoff_prover]
pub proof fn lemma_streams_prefix(
    sizes: Seq<u32>,
    cols: Seq<Seq<u32>>,
    queries: Seq<Seq<usize>>,
    max_l: u32,
    l2: u32,
    l: u32,
)
    requires
        l2 <= l <= max_l,
    ensures
        hw_from(sizes, cols, queries, max_l, l).len() <= hw_from(
            sizes,
            cols,
            queries,
            max_l,
            l2,
        ).len(),
        hw_from(sizes, cols, queries, max_l, l2).subrange(
            0,
            hw_from(sizes, cols, queries, max_l, l).len() as int,
        ) == hw_from(sizes, cols, queries, max_l, l),
        qv_from(sizes, cols, queries, max_l, l).len() <= qv_from(
            sizes,
            cols,
            queries,
            max_l,
            l2,
        ).len(),
        qv_from(sizes, cols, queries, max_l, l2).subrange(
            0,
            qv_from(sizes, cols, queries, max_l, l).len() as int,
        ) == qv_from(sizes, cols, queries, max_l, l),
        cw_from(sizes, cols, queries, max_l, l).len() <= cw_from(
            sizes,
            cols,
            queries,
            max_l,
            l2,
        ).len(),
        cw_from(sizes, cols, queries, max_l, l2).subrange(
            0,
            cw_from(sizes, cols, queries, max_l, l).len() as int,
        ) == cw_from(sizes, cols, queries, max_l, l),
    decreases l - l2,
{
    if l2 == l {
        assert(hw_from(sizes, cols, queries, max_l, l).subrange(
            0,
            hw_from(sizes, cols, queries, max_l, l).len() as int,
        ) =~= hw_from(sizes, cols, queries, max_l, l));
        assert(qv_from(sizes, cols, queries, max_l, l).subrange(
            0,
            qv_from(sizes, cols, queries, max_l, l).len() as int,
        ) =~= qv_from(sizes, cols, queries, max_l, l));
        assert(cw_from(sizes, cols, queries, max_l, l).subrange(
            0,
            cw_from(sizes, cols, queries, max_l, l).len() as int,
        ) =~= cw_from(sizes, cols, queries, max_l, l));
    } else {
        lemma_streams_prefix(sizes, cols, queries, max_l, (l2 + 1) as u32, l);
        assert(hw_from(sizes, cols, queries, max_l, l2).subrange(
            0,
            hw_from(sizes, cols, queries, max_l, l).len() as int,
        ) =~= hw_from(sizes, cols, queries, max_l, (l2 + 1) as u32).subrange(
            0,
            hw_from(sizes, cols, queries, max_l, l).len() as int,
        ));
        assert(qv_from(sizes, cols, queries, max_l, l2).subrange(
            0,
            qv_from(sizes, cols, queries, max_l, l).len() as int,
        ) =~= qv_from(sizes, cols, queries, max_l, (l2 + 1) as u32).subrange(
            0,
            qv_from(sizes, cols, queries, max_l, l).len() as int,
        ));
        assert(cw_from(sizes, cols, queries, max_l, l2).subrange(
            0,
            cw_from(sizes, cols, queries, max_l, l).len() as int,
        ) =~= cw_from(sizes, cols, queries, max_l, (l2 + 1) as u32).subrange(
            0,
            cw_from(sizes, cols, queries, max_l, l).len() as int,
        ));
    }
}

/// The downward replay, fed the streams the builder emits, succeeds layer by
/// layer, reconstructing the true digests and ending each layer exactly at
/// the stream offsets the builder reached.
#[verifier::spinoff_prover]
pub proof fn lemma_gv_down_round(
    sizes: Seq<u32>,
    cols: Seq<Seq<u32>>,
    queries: Seq<Seq<usize>>,
    max_l: u32,
    l: u32,
)
    requires
        sizes.len() == cols.len(),
        l <= max_l,
        queries_wf(queries, max_l),
    ensures
        gv_down(
            sizes,
            queries,
            qv_from(sizes, cols, queries, max_l, 0),
            hw_from(sizes, cols, queries, max_l, 0),
            cw_from(sizes, cols, queries, max_l, 0),
            max_l,
            l,
        ) == Ok::<_, GroupedError>(
            (
                visited_digests(sizes, cols, max_l, l, visited(queries, max_l, l)),
                hw_from(sizes, cols, queries, max_l, l).len() as int,
                qv_from(sizes, cols, queries, max_l, l).len() as int,
                cw_from(sizes, cols, queries, max_l, l).len() as int,
            ),
        ),
    decreases max_l - l,
{
    let qvS = qv_from(sizes, cols, queries, max_l, 0);
    let hwS = hw_from(sizes, cols, queries, max_l, 0);
    let cwS = cw_from(sizes, cols, queries, max_l, 0);
    lemma_streams_prefix(sizes, cols, queries, max_l, 0, l);
    if l == max_l {
        let vs = visited(queries, max_l, max_l);
        let lq = layer_queried_vals(sizes, cols, max_l, vs, queries[max_l as int]);
        let lw = layer_witness_vals(sizes, cols, max_l, vs, queries[max_l as int]);
        assert(qv_from(sizes, cols, queries, max_l, max_l) == lq);
        assert(cw_from(sizes, cols, queries, max_l, max_l) == lw);
        assert(qvS.subrange(0, lq.len() as int) == lq);
        assert(cwS.subrange(0, lw.len() as int) == lw);
        lemma_gv_layer_round(
            sizes,
            cols,
            max_l,
            max_l,
            Seq::empty(),
            queries[max_l as int],
            qvS,
            hwS,
            cwS,
            vs,
            0,
            0,
            0,
        );
        assert(known_digests(sizes, cols, max_l, max_l, Seq::empty()) =~= Seq::<Seq<u8>>::empty());
        assert(hw_from(sizes, cols, queries, max_l, max_l).len() == 0);
    } else {
        lemma_gv_down_round(sizes, cols, queries, max_l, (l + 1) as u32);
        let known = visited(queries, max_l, (l + 1) as u32);
        let vs = visited(queries, max_l, l);
        lemma_visited_sorted_below(queries, max_l, (l + 1) as u32);
        let hp = hw_from(sizes, cols, queries, max_l, (l + 1) as u32).len() as int;
        let qp = qv_from(sizes, cols, queries, max_l, (l + 1) as u32).len() as int;
        let cp = cw_from(sizes, cols, queries, max_l, (l + 1) as u32).len() as int;
        let em = layer_hash_emissions(sizes, cols, max_l, l, vs, known);
        let lq = layer_queried_vals(sizes, cols, l, vs, queries[l as int]);
        let lw = layer_witness_vals(sizes, cols, l, vs, queries[l as int]);
        assert(hw_from(sizes, cols, queries, max_l, l) == hw_from(
            sizes,
            cols,
            queries,
            max_l,
            (l + 1) as u32,
        ) + em);
        assert(qv_from(sizes, cols, queries, max_l, l) == qv_from(
            sizes,
            cols,
            queries,
            max_l,
            (l + 1) as u32,
        ) + lq);
        assert(cw_from(sizes, cols, queries, max_l, l) == cw_from(
            sizes,
            cols,
            queries,
            max_l,
            (l + 1) as u32,
        ) + lw);
        assert(hwS.subrange(hp, hp + em.len()) == em) by {
            assert(hwS.subrange(hp, hp + em.len()) =~= hwS.subrange(
                0,
                hw_from(sizes, cols, queries, max_l, l).len() as int,
            ).subrange(hp, hp + em.len()));
            assert(hwS.subrange(0, hw_from(sizes, cols, queries, max_l, l).len() as int).subrange(
                hp,
                hp + em.len(),
            ) =~= em);
        }
        assert(qvS.subrange(qp, qp + lq.len()) == lq) by {
            assert(qvS.subrange(qp, qp + lq.len()) =~= qvS.subrange(
                0,
                qv_from(sizes, cols, queries, max_l, l).len() as int,
            ).subrange(qp, qp + lq.len()));
            assert(qvS.subrange(0, qv_from(sizes, cols, queries, max_l, l).len() as int).subrange(
                qp,
                qp + lq.len(),
            ) =~= lq);
        }
        assert(cwS.subrange(cp, cp + lw.len()) == lw) by {
            assert(cwS.subrange(cp, cp + lw.len()) =~= cwS.subrange(
                0,
                cw_from(sizes, cols, queries, max_l, l).len() as int,
            ).subrange(cp, cp + lw.len()));
            assert(cwS.subrange(0, cw_from(sizes, cols, queries, max_l, l).len() as int).subrange(
                cp,
                cp + lw.len(),
            ) =~= lw);
        }
        lemma_gv_layer_round(
            sizes,
            cols,
            max_l,
            l,
            known,
            queries[l as int],
            qvS,
            hwS,
            cwS,
            vs,
            hp,
            qp,
            cp,
        );
        assert(visited_digests(sizes, cols, max_l, (l + 1) as u32, known) =~= known_digests(
            sizes,
            cols,
            max_l,
            l,
            known,
        ));
    }
}

/// Round trip of the grouped layout: for any well-formed column set and any
/// well-formed per-layer query set with at least one query, verifying the
/// root against the builder's queried values and witness streams succeeds.
#[verifier::spinoff_prover]
pub proof fn lemma_grouped_round_trip(
    sizes: Seq<u32>,
    cols: Seq<Seq<u32>>,
    queries: Seq<Seq<usize>>,
)
    requires
        columns_wf(sizes, cols),
        sizes.len() > 0,
        queries_wf(queries, max_log_size(sizes)),
        exists|l2: int| 0 <= l2 < queries.len() && (#[trigger] queries[l2]).len() > 0,
    ensures
        grouped_verify_spec(
            grouped_root_spec(sizes, cols),
            sizes,
            queries,
            grouped_decommit_qv(sizes, cols, queries),
            grouped_decommit_hw(sizes, cols, queries),
            grouped_decommit_cw(sizes, cols, queries),
        ) == Ok::<(), GroupedError>(()),
{
    let max_l = max_log_size(sizes);
    lemma_gv_down_round(sizes, cols, queries, max_l, 0);
    lemma_visited_root(queries, max_l);
    assert(visited_digests(sizes, cols, max_l, 0, visited(queries, max_l, 0))[0] == gnode(
        sizes,
        cols,
        max_l,
        0,
        0,
    ));
}

/// Root sensitivity of the grouped layout: verifying an honest decommitment
/// against any digest other than the true root fails with a root mismatch.
#[verifier::spinoff_prover]
pub proof fn lemma_grouped_root_sensitivity(
    sizes: Seq<u32>,
    cols: Seq<Seq<u32>>,
    queries: Seq<Seq<usize>>,
    other_root: Seq<u8>,
)
    requires
        columns_wf(sizes, cols),
        sizes.len() > 0,
        queries_wf(queries, max_log_size(sizes)),
        exists|l2: int| 0 <= l2 < queries.len() && (#[trigger] queries[l2]).len() > 0,
        other_root != grouped_root_spec(sizes, cols),
    ensures
        grouped_verify_spec(
            other_root,
            sizes,
            queries,
            grouped_decommit_qv(sizes, cols, queries),
            grouped_decommit_hw(sizes, cols, queries),
            grouped_decommit_cw(sizes, cols, queries),
        ) == Err::<(), GroupedError>(GroupedError::RootMismatch),
{
    let max_l = max_log_size(sizes);
    lemma_gv_down_round(sizes, cols, queries, max_l, 0);
    lemma_visited_root(queries, max_l);
    assert(visited_digests(sizes, cols, max_l, 0, visited(queries, max_l, 0))[0] == gnode(
        sizes,
        cols,
        max_l,
        0,
        0,
    ));
}

/// Idempotence of grouped commitment: two well-formed trees over identical
/// columns carry identical roots — the root is a function of the columns
/// alone.
pub proof fn lemma_grouped_commit_idempotent(t1: GroupedTree, t2: GroupedTree)
    requires
        t1.wf(),
        t2.wf(),
        t1.column_log_sizes@ == t2.column_log_sizes@,
        view2(t1.columns@) == view2(t2.columns@),
    ensures
        t1.spec_root() == t2.spec_root(),
{
}

/// Whatever digests and streams a verifier layer is fed, when it succeeds its
/// cursors advance by exactly the lengths of the layer's emissions.
#[verifier::spinoff_prover]
pub proof fn lemma_gv_layer_cursor(
    sizes: Seq<u32>,
    cols: Seq<Seq<u32>>,
    max_l: u32,
    l: u32,
    known: Seq<usize>,
    kh: Seq<Seq<u8>>,
    q: Seq<usize>,
    qv: Seq<u32>,
    hw: Seq<Seq<u8>>,
    cw: Seq<u32>,
    vs: Seq<usize>,
    st: (Seq<Seq<u8>>, int, int, int),
)
    requires
        sizes.len() == cols.len(),
        gv_layer(sizes, max_l, l, known, kh, q, qv, hw, cw, vs, st) is Ok,
        0 <= st.1 <= hw.len(),
        0 <= st.2 <= qv.len(),
        0 <= st.3 <= cw.len(),
    ensures
        ({
            let (hs, hp, qp, cp) = gv_layer(sizes, max_l, l, known, kh, q, qv, hw, cw, vs, st)->Ok_0;
            &&& hp == st.1 + if l < max_l {
                layer_hash_emissions(sizes, cols, max_l, l, vs, known).len() as int
            } else {
                0
            }
            &&& qp == st.2 + layer_queried_vals(sizes, cols, l, vs, q).len()
            &&& cp == st.3 + layer_witness_vals(sizes, cols, l, vs, q).len()
            &&& hs.len() == st.0.len() + vs.len()
            &&& hp <= hw.len()
            &&& qp <= qv.len()
            &&& cp <= cw.len()
        }),
    decreases vs.len(),
{
    if vs.len() > 0 {
        lemma_gv_layer_cursor(sizes, cols, max_l, l, known, kh, q, qv, hw, cw, vs.drop_last(), st);
        let v = vs.last();
        lemma_node_vals_len(sizes, cols, l, v as nat);
        assert(layer_hash_emissions(sizes, cols, max_l, l, vs, known).len()
            == layer_hash_emissions(sizes, cols, max_l, l, vs.drop_last(), known).len() + (
        if contains_idx(known, 2 * v) {
            0int
        } else {
            1int
        }) + (if contains_idx(known, 2 * v + 1) {
            0int
        } else {
            1int
        }));
    }
}

/// Whatever streams a full replay is fed, when it succeeds its cursors end at
/// exactly the lengths of the builder's streams for the same queries.
#[verifier::spinoff_prover]
pub proof fn lemma_gv_down_cursor(
    sizes: Seq<u32>,
    cols: Seq<Seq<u32>>,
    queries: Seq<Seq<usize>>,
    max_l: u32,
    l: u32,
    qv: Seq<u32>,
    hw: Seq<Seq<u8>>,
    cw: Seq<u32>,
)
    requires
        sizes.len() == cols.len(),
        l <= max_l,
        queries_wf(queries, max_l),
        gv_down(sizes, queries, qv, hw, cw, max_l, l) is Ok,
    ensures
        ({
            let (hs, hp, qp, cp) = gv_down(sizes, queries, qv, hw, cw, max_l, l)->Ok_0;
            &&& hp == hw_from(sizes, cols, queries, max_l, l).len()
            &&& qp == qv_from(sizes, cols, queries, max_l, l).len()
            &&& cp == cw_from(sizes, cols, queries, max_l, l).len()
            &&& hp <= hw.len()
            &&& qp <= qv.len()
            &&& cp <= cw.len()
        }),
    decreases max_l - l,
{
    if l == max_l {
        lemma_gv_layer_cursor(
            sizes,
            cols,
            max_l,
            max_l,
            Seq::empty(),
            Seq::empty(),
            queries[max_l as int],
            qv,
            hw,
            cw,
            visited(queries, max_l, max_l),
            (Seq::empty(), 0, 0, 0),
        );
    } else {
        lemma_gv_down_cursor(sizes, cols, queries, max_l, (l + 1) as u32, qv, hw, cw);
        let (kh, hp, qp, cp) = gv_down(sizes, queries, qv, hw, cw, max_l, (l + 1) as u32)->Ok_0;
        lemma_gv_layer_cursor(
            sizes,
            cols,
            max_l,
            l,
            visited(queries, max_l, (l + 1) as u32),
            kh,
            queries[l as int],
            qv,
            hw,
            cw,
            visited(queries, max_l, l),
            (Seq::empty(), hp, qp, cp),
        );
    }
}

/// Witness minimality of the grouped layout: any streams the verifier accepts
/// have exactly the lengths of the streams the builder emits, so adding or
/// removing one entry from any of them flips the verdict.
#[verifier::spinoff_prover]
pub proof fn lemma_grouped_witness_minimality(
    root: Seq<u8>,
    sizes: Seq<u32>,
    cols: Seq<Seq<u32>>,
    queries: Seq<Seq<usize>>,
    qv: Seq<u32>,
    hw: Seq<Seq<u8>>,
    cw: Seq<u32>,
)
    requires
        sizes.len() > 0,
        sizes.len() == cols.len(),
        queries_wf(queries, max_log_size(sizes)),
        grouped_verify_spec(root, sizes, queries, qv, hw, cw) == Ok::<(), GroupedError>(()),
    ensures
        hw.len() == grouped_decommit_hw(sizes, cols, queries).len(),
        qv.len() == grouped_decommit_qv(sizes, cols, queries).len(),
        cw.len() == grouped_decommit_cw(sizes, cols, queries).len(),
{
    let max_l = max_log_size(sizes);
    assert(gv_down(sizes, queries, qv, hw, cw, max_l, 0) is Ok);
    lemma_gv_down_cursor(sizes, cols, queries, max_l, 0, qv, hw, cw);
}

} // verus!
