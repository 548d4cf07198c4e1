//! Sample cases for the commitment engine.
//!
//! Deterministic fixtures exercise both layouts and the fold-step
//! decommitter: a base case commits freshly drawn columns and decommits a
//! drawn query set, and tampered variants flip the root, shorten or lengthen
//! a witness stream, or alter revealed values, recording the verdict the
//! verifier reaches on each.

use vstd::prelude::*;

use vstd::arithmetic::power2::pow2;

use crate::columns::MAX_LOG_SIZE;
use crate::columns::columns_wf;
use crate::columns::max_log_size;
use crate::columns::max_log_size_exec;
use crate::columns::n_cols_at_exec;
use crate::columns::pow2_usize;
use crate::columns::view2;
use crate::grouped::GroupedDecommitment;
use crate::grouped::GroupedError;
use crate::grouped::copy_digest;
use crate::grouped::grouped_commit;
use crate::grouped::grouped_decommit;
use crate::grouped::grouped_verify;
use crate::grouped::lemma_grouped_round_trip;
use crate::grouped::queries_wf;
use crate::hashing::is_digest;
use crate::planner::all_below;
use crate::planner::strictly_sorted;
use crate::rng::next_u64;
use crate::rng::sample_digest;
use crate::rng::sample_m31;

verus! {

/// Which tampering a sample case applies, if any.
#[derive(Clone, Copy, Debug, PartialEq, Eq, Structural)]
pub enum VectorCase {
    /// The untouched base case.
    Valid,
    /// One bit of the root flipped.
    RootMismatch,
    /// The last witness entry removed.
    WitnessTooShort,
    /// One extra witness entry appended.
    WitnessTooLong,
    /// The last queried value removed.
    QueriedValuesTooShort,
    /// One extra queried value appended.
    QueriedValuesTooLong,
    /// One queried value altered.
    QueriedValuesMismatch,
    /// A query position outside the column.
    QueryOutOfRange,
    /// A fold step no native shift can express.
    FoldStepTooLarge,
}

/// Inserts a position into a strictly increasing list, keeping it strictly
/// increasing; a position already present is left alone.
pub fn insert_sorted_unique(v: &mut Vec<usize>, x: usize)
    requires
        strictly_sorted(old(v)@),
    ensures
        strictly_sorted(final(v)@),
        final(v)@.len() >= 1,
        final(v)@.len() >= old(v)@.len(),
        forall|i: int|
            0 <= i < final(v)@.len() ==> #[trigger] final(v)@[i] == x || old(v)@.contains(
                final(v)@[i],
            ),
{
    let ghost pre = v@;
    let mut i: usize = 0;
    while i < v.len() && v[i] < x
        invariant
            i <= v@.len(),
            v@ == pre,
            strictly_sorted(pre),
            forall|k: int| 0 <= k < i ==> pre[k] < x,
        decreases v@.len() - i,
    {
        i += 1;
    }
    if i < v.len() && v[i] == x {
        proof {
            assert(v@.contains(x)) by {
                assert(v@[i as int] == x);
            }
        }
        return ;
    }
    v.insert(i, x);
    proof {
        assert(strictly_sorted(v@)) by {
            assert forall|a: int, b: int| 0 <= a < b < v@.len() implies v@[a] < v@[b] by {
                if a < i && b == i {
                    assert(v@[a] == pre[a]);
                } else if a == i && b > i {
                    assert(v@[b] == pre[b - 1]);
                    assert(pre[b - 1] >= pre[i as int]);
                } else if a < i && b > i {
                    assert(v@[a] == pre[a] && v@[b] == pre[b - 1]);
                } else if a > i {
                    assert(v@[a] == pre[a - 1] && v@[b] == pre[b - 1]);
                }
            }
        }
        assert forall|k: int| 0 <= k < v@.len() implies #[trigger] v@[k] == x || pre.contains(
            v@[k],
        ) by {
            if k < i {
                assert(v@[k] == pre[k]);
            } else if k > i {
                assert(v@[k] == pre[k - 1]);
            }
        }
    }
}

/// Draws up to `want` distinct positions below `domain_size`, strictly
/// increasing; at least one position is always produced.
pub fn sample_queries(state: &mut u64, domain_size: usize, want: usize) -> (r: Vec<usize>)
    requires
        domain_size >= 1,
        want >= 1,
    ensures
        strictly_sorted(r@),
        all_below(r@, domain_size as nat),
        1 <= r@.len() <= want,
{
    let mut r: Vec<usize> = Vec::new();
    let first = (next_u64(state) as usize) % domain_size;
    r.push(first);
    let mut attempts: usize = 0;
    let max_attempts = if want < 1024 {
        16 * want
    } else {
        16384
    };
    while attempts < max_attempts
        invariant
            strictly_sorted(r@),
            all_below(r@, domain_size as nat),
            1 <= r@.len(),
            attempts <= max_attempts,
            domain_size >= 1,
        decreases max_attempts - attempts,
    {
        if r.len() >= want {
            break ;
        }
        let q = (next_u64(state) as usize) % domain_size;
        let ghost pre = r@;
        insert_sorted_unique(&mut r, q);
        proof {
            assert forall|i: int| 0 <= i < r@.len() implies #[trigger] r@[i]
                < domain_size as nat by {
                if r@[i] != q {
                    assert(pre.contains(r@[i]));
                }
            }
        }
        attempts += 1;
    }
    if r.len() > want {
        r.truncate(want);
        proof {
            assert(r@.len() == want);
        }
    }
    r
}

/// Flips the lowest bit of the first byte of a digest.
pub fn flip_first_bit(d: &Vec<u8>) -> (r: Vec<u8>)
    requires
        d@.len() >= 1,
    ensures
        r@.len() == d@.len(),
        r@ != d@,
{
    let mut r = copy_digest(d);
    let b = r[0];
    let flipped = b ^ 1;
    proof {
        assert(b ^ 1 != b) by (bit_vector);
    }
    r.set(0, flipped);
    proof {
        assert(r@[0] != d@[0]);
    }
    r
}

/// One grouped-layout base case: columns, a query set, the commitment root
/// and the decommitment the builder produced for them.
pub struct VcsBaseCase {
    /// The commitment root.
    pub root: Vec<u8>,
    /// The log-size of each committed column.
    pub column_log_sizes: Vec<u32>,
    /// The committed columns.
    pub columns: Vec<Vec<u32>>,
    /// The query positions of every layer, by log-size.
    pub queries_per_log_size: Vec<Vec<usize>>,
    /// The revealed values, in traversal order.
    pub queried_values: Vec<u32>,
    /// The witness streams.
    pub decommitment: GroupedDecommitment,
}

impl VcsBaseCase {
    /// The invariants every drawn base case satisfies.
    pub open spec fn wf(self) -> bool {
        &&& self.column_log_sizes@.len() > 0
        &&& forall|i: int|
            0 <= i < self.column_log_sizes@.len() ==> #[trigger] self.column_log_sizes@[i]
                <= MAX_LOG_SIZE
        &&& queries_wf(
            crate::planner::indices_view(self.queries_per_log_size@),
            max_log_size(self.column_log_sizes@),
        )
        &&& exists|l2: int|
            0 <= l2 < self.queries_per_log_size@.len() && (
            #[trigger] crate::planner::indices_view(self.queries_per_log_size@)[l2]).len() > 0
        &&& forall|i: int|
            0 <= i < self.decommitment.hash_witness@.len() ==> is_digest(
                (#[trigger] self.decommitment.hash_witness@[i])@,
            )
        &&& is_digest(self.root@)
    }

    /// The case's fields are exactly the commitment and decommitment the
    /// model assigns to its columns and queries.
    pub open spec fn consistent(self) -> bool {
        let sizes = self.column_log_sizes@;
        let cols = view2(self.columns@);
        let queries = crate::planner::indices_view(self.queries_per_log_size@);
        &&& columns_wf(sizes, cols)
        &&& self.root@ == crate::grouped::grouped_root_spec(sizes, cols)
        &&& self.queried_values@ == crate::grouped::grouped_decommit_qv(sizes, cols, queries)
        &&& crate::hashing::digests_view(self.decommitment.hash_witness@)
            == crate::grouped::grouped_decommit_hw(sizes, cols, queries)
        &&& self.decommitment.column_witness@ == crate::grouped::grouped_decommit_cw(
            sizes,
            cols,
            queries,
        )
    }

    /// The shape the sampler fixes: two to five columns of log-sizes one to
    /// four, and per populated layer a nonempty query list of at most three
    /// positions.
    pub open spec fn drawn_bounds(self) -> bool {
        let queries = crate::planner::indices_view(self.queries_per_log_size@);
        &&& 2 <= self.column_log_sizes@.len() <= 5
        &&& forall|i: int|
            0 <= i < self.column_log_sizes@.len() ==> 1 <= #[trigger] self.column_log_sizes@[i]
                <= 4
        &&& forall|l: int| 0 <= l < queries.len() ==> (#[trigger] queries[l]).len() <= 3
        &&& forall|l: int|
            0 <= l < queries.len() && crate::columns::n_cols_at(self.column_log_sizes@, l as u32)
                > 0 ==> (#[trigger] queries[l]).len() > 0
    }

    /// The case verifies against its own root.
    pub open spec fn verifies(self) -> bool {
        crate::grouped::grouped_verify_spec(
            self.root@,
            self.column_log_sizes@,
            crate::planner::indices_view(self.queries_per_log_size@),
            self.queried_values@,
            crate::hashing::digests_view(self.decommitment.hash_witness@),
            self.decommitment.column_witness@,
        ) == Ok::<(), GroupedError>(())
    }
}

/// Draws a grouped base case: a few columns of small log-sizes, one query
/// set per populated layer, and the commitment and decommitment over them.
/// The round trip is verified; by the round-trip law it cannot fail.
#[verifier::rlimit(50)]
#[verifier::spinoff_prover]
pub fn build_vcs_base_case(state: &mut u64) -> (r: Option<VcsBaseCase>)
    ensures
        r is Some,
        r->0.wf(),
        r->0.consistent(),
        r->0.drawn_bounds(),
        r->0.verifies(),
{
    let n_columns = 2 + ((next_u64(state) as usize) % 4);
    let mut column_log_sizes: Vec<u32> = Vec::new();
    let mut columns: Vec<Vec<u32>> = Vec::new();
    let mut c: usize = 0;
    while c < n_columns
        invariant
            column_log_sizes@.len() == c,
            columns@.len() == c,
            c <= n_columns,
            columns_wf(column_log_sizes@, view2(columns@)),
            forall|i: int|
                0 <= i < column_log_sizes@.len() ==> 1 <= #[trigger] column_log_sizes@[i] <= 4,
        decreases n_columns - c,
    {
        let log_size = 1 + ((next_u64(state) as u32) % 4);
        let n = pow2_usize(log_size);
        let mut col: Vec<u32> = Vec::new();
        while col.len() < n
            invariant
                col@.len() <= n,
                forall|j: int|
                    0 <= j < col@.len() ==> #[trigger] col@[j] < crate::hashing::FIELD_MODULUS,
            decreases n - col@.len(),
        {
            let v = sample_m31(state, false);
            col.push(v);
        }
        proof {
            assert(view2(columns@.push(col))[c as int] == col@);
            assert forall|i: int|
                0 <= i < column_log_sizes@.push(log_size).len() implies (
            #[trigger] column_log_sizes@.push(log_size)[i]) <= MAX_LOG_SIZE && view2(
                columns@.push(col),
            )[i].len() == pow2(column_log_sizes@.push(log_size)[i] as nat) && (forall|j: int|
                0 <= j < view2(columns@.push(col))[i].len() ==> view2(columns@.push(col))[i][j]
                    < crate::hashing::FIELD_MODULUS) by {
                if i < c {
                    assert(view2(columns@.push(col))[i] == view2(columns@)[i]);
                    assert(column_log_sizes@.push(log_size)[i] == column_log_sizes@[i]);
                }
            }
        }
        column_log_sizes.push(log_size);
        columns.push(col);
        c += 1;
    }
    let ghost sizes = column_log_sizes@;
    let ghost colsv = view2(columns@);
    let max_l = max_log_size_exec(&column_log_sizes);
    proof {
        crate::grouped::lemma_max_is_some_size(sizes);
        assert(max_log_size(sizes) <= MAX_LOG_SIZE) by {
            let i = choose|i: int| 0 <= i < sizes.len() && sizes[i] == max_log_size(sizes);
            assert(sizes[i] <= MAX_LOG_SIZE);
        }
    }
    // One query list per layer; layers without columns stay unqueried.
    let mut queries: Vec<Vec<usize>> = Vec::new();
    let mut l: u32 = 0;
    while l <= max_l
        invariant
            l <= max_l + 1,
            max_l == max_log_size(sizes),
            max_l <= MAX_LOG_SIZE,
            sizes == column_log_sizes@,
            queries@.len() == l,
            forall|k: int|
                0 <= k < queries@.len() ==> strictly_sorted((#[trigger] queries@[k])@) && all_below(
                    queries@[k]@,
                    pow2(k as nat),
                ),
            forall|k: int|
                0 <= k < queries@.len() && crate::columns::n_cols_at(sizes, k as u32) > 0 ==> (
                #[trigger] queries@[k])@.len() > 0,
            forall|k: int| 0 <= k < queries@.len() ==> (#[trigger] queries@[k])@.len() <= 3,
        decreases max_l + 1 - l,
    {
        let n_here = n_cols_at_exec(&column_log_sizes, l);
        let layer_size = pow2_usize(l);
        proof {
            vstd::arithmetic::power2::lemma_pow2_pos(l as nat);
        }
        let q: Vec<usize> = if n_here > 0 {
            let cap = if layer_size < 3 {
                layer_size
            } else {
                3
            };
            let want = 1 + ((next_u64(state) as usize) % cap);
            sample_queries(state, layer_size, want)
        } else {
            Vec::new()
        };
        queries.push(q);
        l += 1;
    }
    proof {
        assert(queries_wf(crate::planner::indices_view(queries@), max_l)) by {
            assert forall|k: int|
                0 <= k < crate::planner::indices_view(queries@).len() implies strictly_sorted(
                #[trigger] crate::planner::indices_view(queries@)[k],
            ) && all_below(crate::planner::indices_view(queries@)[k], pow2(k as nat)) by {
                assert(crate::planner::indices_view(queries@)[k] == queries@[k]@);
            }
        }
        // The deepest layer holds a column, so it holds a query.
        let i = choose|i: int| 0 <= i < sizes.len() && sizes[i] == max_log_size(sizes);
        assert(crate::columns::n_cols_at(sizes, max_l) > 0) by {
            lemma_n_cols_at_positive(sizes, max_l, i);
        }
        assert(queries@[max_l as int]@.len() > 0);
        assert(crate::planner::indices_view(queries@)[max_l as int].len() > 0);
    }
    let tree = grouped_commit(column_log_sizes, columns);
    let root = tree.root();
    let (queried_values, decommitment) = grouped_decommit(&tree, &queries);
    let check = grouped_verify(
        &root,
        &tree.column_log_sizes,
        &queries,
        &queried_values,
        &decommitment,
    );
    proof {
        lemma_grouped_round_trip(sizes, colsv, crate::planner::indices_view(queries@));
        assert(check == Ok::<(), GroupedError>(()));
    }
    if check.is_err() {
        // Unreachable: the round-trip law holds of every drawn case.
        return None;
    }
    let column_log_sizes = crate::columns::copy_u32s(&tree.column_log_sizes);
    let columns = copy_columns(&tree.columns);
    proof {
        assert(column_log_sizes@ == sizes);
        assert(column_log_sizes@.len() > 0);
        assert(forall|i: int|
            0 <= i < sizes.len() ==> #[trigger] sizes[i] <= MAX_LOG_SIZE) by {
            assert(columns_wf(sizes, colsv));
        }
        assert(queries_wf(crate::planner::indices_view(queries@), max_log_size(sizes)));
        assert(crate::planner::indices_view(queries@)[max_l as int].len() > 0);
        assert(is_digest(root@));
    }
    let result = VcsBaseCase {
        root,
        column_log_sizes,
        columns,
        queries_per_log_size: queries,
        queried_values,
        decommitment,
    };
    proof {
        assert(result.column_log_sizes@.len() > 0);
        assert(forall|i: int|
            0 <= i < result.column_log_sizes@.len() ==> #[trigger] result.column_log_sizes@[i]
                <= MAX_LOG_SIZE);
        assert(queries_wf(
            crate::planner::indices_view(result.queries_per_log_size@),
            max_log_size(result.column_log_sizes@),
        ));
        assert(exists|l2: int|
            0 <= l2 < result.queries_per_log_size@.len() && (
            #[trigger] crate::planner::indices_view(result.queries_per_log_size@)[l2]).len() > 0)
            by {
            assert(crate::planner::indices_view(result.queries_per_log_size@)[max_l as int].len()
                > 0);
        }
        assert(forall|i: int|
            0 <= i < result.decommitment.hash_witness@.len() ==> is_digest(
                (#[trigger] result.decommitment.hash_witness@[i])@,
            ));
        assert(is_digest(result.root@));
        assert(result.wf());
        assert(view2(result.columns@) == colsv);
        assert(result.consistent());
    }
    Some(result)
}

/// Some column of the maximal log-size exists, so that layer is populated.
proof fn lemma_n_cols_at_positive(sizes: Seq<u32>, l: u32, i: int)
    requires
        0 <= i < sizes.len(),
        sizes[i] == l,
    ensures
        crate::columns::n_cols_at(sizes, l) > 0,
    decreases sizes.len(),
{
    if i == sizes.len() - 1 {
    } else {
        lemma_n_cols_at_positive(sizes.drop_last(), l, i);
    }
}

/// Copies a vector of columns.
pub fn copy_columns(cols: &Vec<Vec<u32>>) -> (r: Vec<Vec<u32>>)
    ensures
        view2(r@) == view2(cols@),
{
    let mut r: Vec<Vec<u32>> = Vec::new();
    let mut i: usize = 0;
    while i < cols.len()
        invariant
            i <= cols@.len(),
            r@.len() == i,
            forall|k: int| 0 <= k < i ==> (#[trigger] r@[k])@ == cols@[k]@,
        decreases cols@.len() - i,
    {
        let col = crate::columns::copy_u32s(&cols[i]);
        r.push(col);
        i += 1;
    }
    proof {
        assert(view2(r@) =~= view2(cols@));
    }
    r
}

/// One grouped-layout verifier fixture: inputs, tampering and the verdict
/// the verifier reaches.
pub struct VcsVerifierVector {
    /// Which tampering this fixture applies.
    pub case: VectorCase,
    /// The (possibly tampered) root.
    pub root: Vec<u8>,
    /// The log-size of each committed column.
    pub column_log_sizes: Vec<u32>,
    /// The query positions of every layer, by log-size.
    pub queries_per_log_size: Vec<Vec<usize>>,
    /// The (possibly tampered) revealed values.
    pub queried_values: Vec<u32>,
    /// The (possibly tampered) hash witness.
    pub hash_witness: Vec<Vec<u8>>,
    /// The (possibly tampered) column witness.
    pub column_witness: Vec<u32>,
    /// The verifier's verdict on these inputs.
    pub expected: Result<(), GroupedError>,
}

/// Copies a hash witness.
pub fn copy_digests(v: &Vec<Vec<u8>>) -> (r: Vec<Vec<u8>>)
    ensures
        r@.len() == v@.len(),
        forall|i: int| 0 <= i < r@.len() ==> (#[trigger] r@[i])@ == v@[i]@,
{
    let mut r: Vec<Vec<u8>> = Vec::new();
    let mut i: usize = 0;
    while i < v.len()
        invariant
            i <= v@.len(),
            r@.len() == i,
            forall|k: int| 0 <= k < i ==> (#[trigger] r@[k])@ == v@[k]@,
        decreases v@.len() - i,
    {
        r.push(copy_digest(&v[i]));
        i += 1;
    }
    r
}

/// A grouped fixture's verdict is exactly the verifier's verdict on the
/// fixture's own root, queries, values and witness streams.
pub open spec fn grouped_fixture_consistent(v: VcsVerifierVector) -> bool {
    v.expected == crate::grouped::grouped_verify_spec(
        v.root@,
        v.column_log_sizes@,
        crate::planner::indices_view(v.queries_per_log_size@),
        v.queried_values@,
        crate::hashing::digests_view(v.hash_witness@),
        v.column_witness@,
    )
}

/// Packages one grouped fixture, running the verifier on its fields to fill
/// in the verdict.
fn make_grouped_fixture(
    case: VectorCase,
    root: &Vec<u8>,
    column_log_sizes: &Vec<u32>,
    queries: &Vec<Vec<usize>>,
    queried_values: &Vec<u32>,
    decommitment: GroupedDecommitment,
) -> (r: VcsVerifierVector)
    requires
        forall|i: int|
            0 <= i < column_log_sizes@.len() ==> #[trigger] column_log_sizes@[i] <= MAX_LOG_SIZE,
        column_log_sizes@.len() > 0 ==> queries_wf(
            crate::planner::indices_view(queries@),
            max_log_size(column_log_sizes@),
        ),
        column_log_sizes@.len() > 0 ==> exists|l2: int|
            0 <= l2 < queries@.len() && (#[trigger] crate::planner::indices_view(queries@)[l2]).len()
                > 0,
        forall|i: int|
            0 <= i < decommitment.hash_witness@.len() ==> is_digest(
                (#[trigger] decommitment.hash_witness@[i])@,
            ),
    ensures
        r.case == case,
        grouped_fixture_consistent(r),
        r.root@ == root@,
        r.column_log_sizes@ == column_log_sizes@,
        crate::planner::indices_view(r.queries_per_log_size@) == crate::planner::indices_view(
            queries@,
        ),
        r.queried_values@ == queried_values@,
        crate::hashing::digests_view(r.hash_witness@) == crate::hashing::digests_view(
            decommitment.hash_witness@,
        ),
        r.column_witness@ == decommitment.column_witness@,
{
    let expected = run_vcs_verifier(root, column_log_sizes, queries, queried_values, &decommitment);
    VcsVerifierVector {
        case,
        root: copy_digest(root),
        column_log_sizes: crate::columns::copy_u32s(column_log_sizes),
        queries_per_log_size: copy_queries(queries),
        queried_values: crate::columns::copy_u32s(queried_values),
        hash_witness: decommitment.hash_witness,
        column_witness: decommitment.column_witness,
        expected,
    }
}

/// Appends a consistent grouped fixture, keeping every element consistent.
fn push_grouped_fixture(out: &mut Vec<VcsVerifierVector>, v: VcsVerifierVector)
    requires
        grouped_fixture_consistent(v),
        forall|k: int|
            0 <= k < old(out)@.len() ==> grouped_fixture_consistent(#[trigger] old(out)@[k]),
    ensures
        final(out)@ == old(out)@.push(v),
        forall|k: int|
            0 <= k < final(out)@.len() ==> grouped_fixture_consistent(#[trigger] final(out)@[k]),
{
    let ghost pre = out@;
    let ghost vv = v;
    out.push(v);
    proof {
        assert forall|k: int|
            0 <= k < out@.len() implies grouped_fixture_consistent(#[trigger] out@[k]) by {
            if k < pre.len() {
                assert(out@[k] == pre[k]);
            } else {
                assert(out@[k] == vv);
            }
        }
    }
}

/// Builds grouped verifier fixtures from one base case: the valid case and
/// the tampered variants, each with the verdict the verifier reaches on the
/// fixture's own fields.
#[verifier::spinoff_prover]
pub fn build_vcs_verifier_cases(state: &mut u64) -> (r: Vec<VcsVerifierVector>)
    ensures
        4 <= r@.len() <= 6,
        forall|k: int| 0 <= k < r@.len() ==> grouped_fixture_consistent(#[trigger] r@[k]),
        r@[0].case == VectorCase::Valid && r@[0].expected == Ok::<(), GroupedError>(()),
        r@[1].case == VectorCase::RootMismatch && r@[1].expected == Err::<(), GroupedError>(
            GroupedError::RootMismatch,
        ),
        r@[2].case == VectorCase::WitnessTooLong && r@[2].expected != Ok::<(), GroupedError>(()),
        r@[3].case == VectorCase::QueriedValuesTooLong && r@[3].expected != Ok::<
            (),
            GroupedError,
        >(()),
{
    let base = build_vcs_base_case(state).unwrap();
    let ghost sizes = base.column_log_sizes@;
    let ghost colsv = view2(base.columns@);
    let ghost queries = crate::planner::indices_view(base.queries_per_log_size@);
    let mut out: Vec<VcsVerifierVector> = Vec::new();
    // The untouched case: the round-trip law owes acceptance.
    proof {
        lemma_grouped_round_trip(sizes, colsv, queries);
    }
    let valid = make_grouped_fixture(
        VectorCase::Valid,
        &base.root,
        &base.column_log_sizes,
        &base.queries_per_log_size,
        &base.queried_values,
        copy_grouped_decommitment(&base.decommitment),
    );
    push_grouped_fixture(&mut out, valid);
    // One bit of the root flipped: root sensitivity owes a mismatch verdict.
    let bad_root = flip_first_bit(&base.root);
    proof {
        crate::grouped::lemma_grouped_root_sensitivity(sizes, colsv, queries, bad_root@);
    }
    let mismatch = make_grouped_fixture(
        VectorCase::RootMismatch,
        &bad_root,
        &base.column_log_sizes,
        &base.queries_per_log_size,
        &base.queried_values,
        copy_grouped_decommitment(&base.decommitment),
    );
    push_grouped_fixture(&mut out, mismatch);
    // A witness entry appended: by witness minimality no lengthened witness
    // is ever accepted.
    let mut long = copy_grouped_decommitment(&base.decommitment);
    long.hash_witness.push(sample_digest(state));
    let too_long = make_grouped_fixture(
        VectorCase::WitnessTooLong,
        &base.root,
        &base.column_log_sizes,
        &base.queries_per_log_size,
        &base.queried_values,
        long,
    );
    proof {
        if too_long.expected == Ok::<(), GroupedError>(()) {
            crate::grouped::lemma_grouped_witness_minimality(
                base.root@,
                sizes,
                colsv,
                queries,
                base.queried_values@,
                crate::hashing::digests_view(too_long.hash_witness@),
                too_long.column_witness@,
            );
            assert(crate::hashing::digests_view(too_long.hash_witness@).len()
                == crate::hashing::digests_view(base.decommitment.hash_witness@).len() + 1);
            assert(false);
        }
    }
    push_grouped_fixture(&mut out, too_long);
    // A queried value appended: likewise never accepted.
    let mut long_values = crate::columns::copy_u32s(&base.queried_values);
    long_values.push(sample_m31(state, false));
    let too_many = make_grouped_fixture(
        VectorCase::QueriedValuesTooLong,
        &base.root,
        &base.column_log_sizes,
        &base.queries_per_log_size,
        &long_values,
        copy_grouped_decommitment(&base.decommitment),
    );
    proof {
        if too_many.expected == Ok::<(), GroupedError>(()) {
            crate::grouped::lemma_grouped_witness_minimality(
                base.root@,
                sizes,
                colsv,
                queries,
                long_values@,
                crate::hashing::digests_view(too_many.hash_witness@),
                too_many.column_witness@,
            );
            assert(false);
        }
    }
    push_grouped_fixture(&mut out, too_many);
    // A witness entry removed.
    if base.decommitment.hash_witness.len() > 0 || base.decommitment.column_witness.len() > 0 {
        let mut short = copy_grouped_decommitment(&base.decommitment);
        if short.hash_witness.len() > 0 {
            short.hash_witness.pop();
        } else {
            short.column_witness.pop();
        }
        let too_short = make_grouped_fixture(
            VectorCase::WitnessTooShort,
            &base.root,
            &base.column_log_sizes,
            &base.queries_per_log_size,
            &base.queried_values,
            short,
        );
        push_grouped_fixture(&mut out, too_short);
    }
    // A queried value removed.
    if base.queried_values.len() > 0 {
        let mut short_values = crate::columns::copy_u32s(&base.queried_values);
        short_values.pop();
        let too_few = make_grouped_fixture(
            VectorCase::QueriedValuesTooShort,
            &base.root,
            &base.column_log_sizes,
            &base.queries_per_log_size,
            &short_values,
            copy_grouped_decommitment(&base.decommitment),
        );
        push_grouped_fixture(&mut out, too_few);
    }
    out
}

/// Copies a grouped decommitment.
pub fn copy_grouped_decommitment(d: &GroupedDecommitment) -> (r: GroupedDecommitment)
    ensures
        crate::hashing::digests_view(r.hash_witness@) == crate::hashing::digests_view(
            d.hash_witness@,
        ),
        r.column_witness@ == d.column_witness@,
        forall|i: int|
            0 <= i < r.hash_witness@.len() ==> is_digest((#[trigger] r.hash_witness@[i])@) == is_digest(
                d.hash_witness@[i]@,
            ),
{
    let hash_witness = copy_digests(&d.hash_witness);
    let column_witness = crate::columns::copy_u32s(&d.column_witness);
    proof {
        assert(crate::hashing::digests_view(hash_witness@) =~= crate::hashing::digests_view(
            d.hash_witness@,
        ));
    }
    GroupedDecommitment { hash_witness, column_witness }
}

/// Copies a per-layer query set.
pub fn copy_queries(q: &Vec<Vec<usize>>) -> (r: Vec<Vec<usize>>)
    ensures
        crate::planner::indices_view(r@) == crate::planner::indices_view(q@),
{
    let mut r: Vec<Vec<usize>> = Vec::new();
    let mut i: usize = 0;
    while i < q.len()
        invariant
            i <= q@.len(),
            r@.len() == i,
            forall|k: int| 0 <= k < i ==> (#[trigger] r@[k])@ == q@[k]@,
        decreases q@.len() - i,
    {
        r.push(crate::planner::copy_indices(&q[i]));
        i += 1;
    }
    proof {
        assert(crate::planner::indices_view(r@) =~= crate::planner::indices_view(q@));
    }
    r
}

/// Runs the grouped verifier on a fixture, checking its preconditions at run
/// time so that tampered inputs can be fed to it safely.
pub fn run_vcs_verifier(
    root: &Vec<u8>,
    column_log_sizes: &Vec<u32>,
    queries: &Vec<Vec<usize>>,
    queried_values: &Vec<u32>,
    decommitment: &GroupedDecommitment,
) -> (r: Result<(), GroupedError>)
    requires
        forall|i: int|
            0 <= i < column_log_sizes@.len() ==> #[trigger] column_log_sizes@[i] <= MAX_LOG_SIZE,
        column_log_sizes@.len() > 0 ==> queries_wf(
            crate::planner::indices_view(queries@),
            max_log_size(column_log_sizes@),
        ),
        column_log_sizes@.len() > 0 ==> exists|l2: int|
            0 <= l2 < queries@.len() && (#[trigger] crate::planner::indices_view(queries@)[l2]).len()
                > 0,
        forall|i: int|
            0 <= i < decommitment.hash_witness@.len() ==> is_digest(
                (#[trigger] decommitment.hash_witness@[i])@,
            ),
    ensures
        r == crate::grouped::grouped_verify_spec(
            root@,
            column_log_sizes@,
            crate::planner::indices_view(queries@),
            queried_values@,
            crate::hashing::digests_view(decommitment.hash_witness@),
            decommitment.column_witness@,
        ),
{
    grouped_verify(root, column_log_sizes, queries, queried_values, decommitment)
}

/// Draws grouped verifier fixtures until `count` have been produced; every
/// fixture carries the verifier's verdict on its own fields.
pub fn generate_vcs_verifier_vectors(state: &mut u64, count: usize) -> (r: Vec<VcsVerifierVector>)
    ensures
        r@.len() == count,
        forall|k: int| 0 <= k < count ==> grouped_fixture_consistent(#[trigger] r@[k]),
{
    let mut out: Vec<VcsVerifierVector> = Vec::new();
    while out.len() < count
        invariant
            out@.len() <= count,
            forall|k: int| 0 <= k < out@.len() ==> grouped_fixture_consistent(#[trigger] out@[k]),
        decreases count - out@.len(),
    {
        let mut cases = build_vcs_verifier_cases(state);
        let ghost pre = out@;
        let ghost cs = cases@;
        let before = out.len();
        out.append(&mut cases);
        proof {
            assert forall|k: int|
                0 <= k < out@.len() implies grouped_fixture_consistent(#[trigger] out@[k]) by {
                if k < pre.len() {
                    assert(out@[k] == pre[k]);
                } else {
                    assert(out@[k] == cs[k - pre.len()]);
                }
            }
        }
        if out.len() > count {
            let ghost full = out@;
            out.truncate(count);
            proof {
                assert forall|k: int|
                    0 <= k < out@.len() implies grouped_fixture_consistent(#[trigger] out@[k]) by {
                    assert(out@[k] == full[k]);
                }
            }
        }
        proof {
            assert(out@.len() > before);
        }
    }
    out
}

/// Draws grouped prover fixtures (base cases) until `count` have been
/// produced; every case is well formed, consistent with the model, within
/// the drawn shape, and verifies against its own root.
pub fn generate_vcs_prover_vectors(state: &mut u64, count: usize) -> (r: Vec<VcsBaseCase>)
    ensures
        r@.len() == count,
        forall|k: int|
            0 <= k < count ==> {
                let b = #[trigger] r@[k];
                b.wf() && b.consistent() && b.drawn_bounds() && b.verifies()
            },
{
    let mut out: Vec<VcsBaseCase> = Vec::new();
    while out.len() < count
        invariant
            out@.len() <= count,
            forall|k: int|
                0 <= k < out@.len() ==> {
                    let b = #[trigger] out@[k];
                    b.wf() && b.consistent() && b.drawn_bounds() && b.verifies()
                },
        decreases count - out@.len(),
    {
        match build_vcs_base_case(state) {
            Some(base) => {
                let ghost pre = out@;
                let ghost bb = base;
                out.push(base);
                proof {
                    assert forall|k: int|
                        0 <= k < out@.len() implies {
                        let b = #[trigger] out@[k];
                        b.wf() && b.consistent() && b.drawn_bounds() && b.verifies()
                    } by {
                        if k < pre.len() {
                            assert(out@[k] == pre[k]);
                        } else {
                            assert(out@[k] == bb);
                        }
                    }
                }
            },
            None => {
                // Unreachable: the base builder always succeeds.
            },
        }
    }
    out
}

/// One lifted-layout base case.
pub struct VcsLiftedBaseCase {
    /// The commitment root.
    pub root: Vec<u8>,
    /// The log-size of each committed column.
    pub column_log_sizes: Vec<u32>,
    /// The committed columns.
    pub columns: Vec<Vec<u32>>,
    /// The global query positions at the leaf layer.
    pub query_positions: Vec<usize>,
    /// The revealed values, per column and query.
    pub queried_values: Vec<Vec<u32>>,
    /// The hash witness.
    pub decommitment: crate::lifted::LiftedDecommitment,
}

impl VcsLiftedBaseCase {
    /// The invariants every drawn lifted base case satisfies.
    pub open spec fn wf(self) -> bool {
        &&& self.column_log_sizes@.len() > 0
        &&& forall|i: int|
            0 <= i < self.column_log_sizes@.len() ==> 1 <= #[trigger] self.column_log_sizes@[i]
                <= MAX_LOG_SIZE
        &&& strictly_sorted(self.query_positions@)
        &&& all_below(
            self.query_positions@,
            pow2(max_log_size(self.column_log_sizes@) as nat),
        )
        &&& self.query_positions@.len() > 0
        &&& self.queried_values@.len() == self.column_log_sizes@.len()
        &&& forall|i: int|
            0 <= i < self.queried_values@.len() ==> (#[trigger] self.queried_values@[i])@.len()
                == self.query_positions@.len()
        &&& forall|i: int|
            0 <= i < self.decommitment.hash_witness@.len() ==> is_digest(
                (#[trigger] self.decommitment.hash_witness@[i])@,
            )
        &&& is_digest(self.root@)
    }

    /// The case's fields are exactly the commitment and decommitment the
    /// model assigns to its columns and queries.
    pub open spec fn consistent(self) -> bool {
        let sizes = self.column_log_sizes@;
        let cols = view2(self.columns@);
        &&& crate::lifted::lifted_columns_wf(sizes, cols)
        &&& self.root@ == crate::lifted::lifted_root_spec(sizes, cols)
        &&& view2(self.queried_values@) == crate::lifted::lifted_queried_vals(
            sizes,
            cols,
            max_log_size(sizes),
            self.query_positions@,
        )
        &&& crate::hashing::digests_view(self.decommitment.hash_witness@)
            == crate::lifted::lifted_decommit_hw(sizes, cols, self.query_positions@)
    }

    /// The shape the sampler fixes: two to five columns of log-sizes one to
    /// four, and one to four query positions.
    pub open spec fn drawn_bounds(self) -> bool {
        &&& 2 <= self.column_log_sizes@.len() <= 5
        &&& forall|i: int|
            0 <= i < self.column_log_sizes@.len() ==> 1 <= #[trigger] self.column_log_sizes@[i]
                <= 4
        &&& 1 <= self.query_positions@.len() <= 4
    }

    /// The case verifies against its own root.
    pub open spec fn verifies(self) -> bool {
        crate::lifted::lifted_verify_spec(
            self.root@,
            self.column_log_sizes@,
            self.query_positions@,
            view2(self.queried_values@),
            crate::hashing::digests_view(self.decommitment.hash_witness@),
        ) == Ok::<(), crate::lifted::LiftedError>(())
    }
}

/// Draws a lifted base case: columns, global queries, the commitment and
/// decommitment over them.  The round trip is verified; by the round-trip
/// law it cannot fail.
#[verifier::spinoff_prover]
pub fn build_vcs_lifted_base_case(state: &mut u64) -> (r: Option<VcsLiftedBaseCase>)
    ensures
        r is Some,
        r->0.wf(),
        r->0.consistent(),
        r->0.drawn_bounds(),
        r->0.verifies(),
{
    let n_columns = 2 + ((next_u64(state) as usize) % 4);
    let mut column_log_sizes: Vec<u32> = Vec::new();
    let mut columns: Vec<Vec<u32>> = Vec::new();
    let mut c: usize = 0;
    while c < n_columns
        invariant
            column_log_sizes@.len() == c,
            columns@.len() == c,
            c <= n_columns,
            crate::lifted::lifted_columns_wf(column_log_sizes@, view2(columns@)),
            forall|i: int|
                0 <= i < column_log_sizes@.len() ==> 1 <= #[trigger] column_log_sizes@[i] <= 4,
        decreases n_columns - c,
    {
        let log_size = 1 + ((next_u64(state) as u32) % 4);
        let n = pow2_usize(log_size);
        let mut col: Vec<u32> = Vec::new();
        while col.len() < n
            invariant
                col@.len() <= n,
                forall|j: int|
                    0 <= j < col@.len() ==> #[trigger] col@[j] < crate::hashing::FIELD_MODULUS,
            decreases n - col@.len(),
        {
            let v = sample_m31(state, false);
            col.push(v);
        }
        proof {
            assert(view2(columns@.push(col))[c as int] == col@);
            assert forall|i: int|
                0 <= i < column_log_sizes@.push(log_size).len() implies 1 <= (
            #[trigger] column_log_sizes@.push(log_size)[i]) <= MAX_LOG_SIZE && view2(
                columns@.push(col),
            )[i].len() == pow2(column_log_sizes@.push(log_size)[i] as nat) && (forall|j: int|
                0 <= j < view2(columns@.push(col))[i].len() ==> view2(columns@.push(col))[i][j]
                    < crate::hashing::FIELD_MODULUS) by {
                if i < c {
                    assert(view2(columns@.push(col))[i] == view2(columns@)[i]);
                    assert(column_log_sizes@.push(log_size)[i] == column_log_sizes@[i]);
                }
            }
        }
        column_log_sizes.push(log_size);
        columns.push(col);
        c += 1;
    }
    let ghost sizes = column_log_sizes@;
    let ghost colsv = view2(columns@);
    let max_l = max_log_size_exec(&column_log_sizes);
    proof {
        crate::grouped::lemma_max_is_some_size(sizes);
        assert(1 <= max_log_size(sizes) <= MAX_LOG_SIZE) by {
            let i = choose|i: int| 0 <= i < sizes.len() && sizes[i] == max_log_size(sizes);
            assert(1 <= sizes[i] <= MAX_LOG_SIZE);
        }
    }
    let domain_size = pow2_usize(max_l);
    proof {
        vstd::arithmetic::power2::lemma_pow2_pos(max_l as nat);
    }
    let cap = if domain_size < 4 {
        domain_size
    } else {
        4
    };
    let want = 1 + ((next_u64(state) as usize) % cap);
    let query_positions = sample_queries(state, domain_size, want);
    let tree = crate::lifted::lifted_commit(column_log_sizes, columns);
    let root = tree.root();
    let (queried_values, decommitment) = crate::lifted::lifted_decommit(&tree, &query_positions);
    proof {
        assert(queried_values@.len() == sizes.len()) by {
            assert(view2(queried_values@).len() == queried_values@.len());
        }
        assert forall|i: int| 0 <= i < queried_values@.len() implies (
        #[trigger] queried_values@[i])@.len() == query_positions@.len() by {
            assert(view2(queried_values@)[i] == queried_values@[i]@);
        }
    }
    let check = crate::lifted::lifted_verify(
        &root,
        &tree.column_log_sizes,
        &query_positions,
        &queried_values,
        &decommitment,
    );
    proof {
        crate::lifted::lemma_lifted_round_trip(sizes, colsv, query_positions@);
    }
    if check.is_err() {
        // Unreachable: the round-trip law holds of every drawn case.
        return None;
    }
    let column_log_sizes = crate::columns::copy_u32s(&tree.column_log_sizes);
    let columns = copy_columns(&tree.columns);
    proof {
        assert(column_log_sizes@ == sizes);
        assert(view2(queried_values@) == crate::lifted::lifted_queried_vals(
            sizes,
            colsv,
            max_log_size(sizes),
            query_positions@,
        ));
        assert forall|i: int| 0 <= i < queried_values@.len() implies (
        #[trigger] queried_values@[i])@.len() == query_positions@.len() by {
            assert(view2(queried_values@)[i] == queried_values@[i]@);
        }
    }
    let result = VcsLiftedBaseCase {
        root,
        column_log_sizes,
        columns,
        query_positions,
        queried_values,
        decommitment,
    };
    proof {
        assert(view2(result.columns@) == colsv);
        assert(result.consistent());
        assert(result.drawn_bounds());
        assert(result.verifies()) by {
            crate::lifted::lemma_lifted_round_trip(sizes, colsv, result.query_positions@);
        }
    }
    Some(result)
}

/// One lifted-layout verifier fixture.
pub struct VcsLiftedVerifierVector {
    /// Which tampering this fixture applies.
    pub case: VectorCase,
    /// The (possibly tampered) root.
    pub root: Vec<u8>,
    /// The log-size of each committed column.
    pub column_log_sizes: Vec<u32>,
    /// The global query positions.
    pub query_positions: Vec<usize>,
    /// The (possibly tampered) revealed values.
    pub queried_values: Vec<Vec<u32>>,
    /// The (possibly tampered) hash witness.
    pub hash_witness: Vec<Vec<u8>>,
    /// The verifier's verdict on these inputs.
    pub expected: Result<(), crate::lifted::LiftedError>,
}

/// Runs the lifted verifier on a fixture.
pub fn run_vcs_lifted_verifier(
    root: &Vec<u8>,
    column_log_sizes: &Vec<u32>,
    query_positions: &Vec<usize>,
    queried_values: &Vec<Vec<u32>>,
    decommitment: &crate::lifted::LiftedDecommitment,
) -> (r: Result<(), crate::lifted::LiftedError>)
    requires
        forall|i: int|
            0 <= i < column_log_sizes@.len() ==> 1 <= #[trigger] column_log_sizes@[i]
                <= MAX_LOG_SIZE,
        column_log_sizes@.len() > 0 ==> {
            &&& strictly_sorted(query_positions@)
            &&& all_below(query_positions@, pow2(max_log_size(column_log_sizes@) as nat))
            &&& query_positions@.len() > 0
            &&& queried_values@.len() == column_log_sizes@.len()
            &&& forall|i: int|
                0 <= i < queried_values@.len() ==> (#[trigger] queried_values@[i])@.len()
                    == query_positions@.len()
        },
        forall|i: int|
            0 <= i < decommitment.hash_witness@.len() ==> is_digest(
                (#[trigger] decommitment.hash_witness@[i])@,
            ),
    ensures
        r == crate::lifted::lifted_verify_spec(
            root@,
            column_log_sizes@,
            query_positions@,
            view2(queried_values@),
            crate::hashing::digests_view(decommitment.hash_witness@),
        ),
{
    crate::lifted::lifted_verify(
        root,
        column_log_sizes,
        query_positions,
        queried_values,
        decommitment,
    )
}

/// A lifted fixture's verdict is exactly the verifier's verdict on the
/// fixture's own root, queries, values and hash witness.
pub open spec fn lifted_fixture_consistent(v: VcsLiftedVerifierVector) -> bool {
    v.expected == crate::lifted::lifted_verify_spec(
        v.root@,
        v.column_log_sizes@,
        v.query_positions@,
        view2(v.queried_values@),
        crate::hashing::digests_view(v.hash_witness@),
    )
}

/// Packages one lifted fixture, running the verifier on its fields to fill
/// in the verdict.
fn make_lifted_fixture(
    case: VectorCase,
    root: &Vec<u8>,
    column_log_sizes: &Vec<u32>,
    query_positions: &Vec<usize>,
    queried_values: &Vec<Vec<u32>>,
    decommitment: crate::lifted::LiftedDecommitment,
) -> (r: VcsLiftedVerifierVector)
    requires
        forall|i: int|
            0 <= i < column_log_sizes@.len() ==> 1 <= #[trigger] column_log_sizes@[i]
                <= MAX_LOG_SIZE,
        column_log_sizes@.len() > 0 ==> {
            &&& strictly_sorted(query_positions@)
            &&& all_below(query_positions@, pow2(max_log_size(column_log_sizes@) as nat))
            &&& query_positions@.len() > 0
            &&& queried_values@.len() == column_log_sizes@.len()
            &&& forall|i: int|
                0 <= i < queried_values@.len() ==> (#[trigger] queried_values@[i])@.len()
                    == query_positions@.len()
        },
        forall|i: int|
            0 <= i < decommitment.hash_witness@.len() ==> is_digest(
                (#[trigger] decommitment.hash_witness@[i])@,
            ),
    ensures
        r.case == case,
        lifted_fixture_consistent(r),
        r.root@ == root@,
        r.column_log_sizes@ == column_log_sizes@,
        r.query_positions@ == query_positions@,
        view2(r.queried_values@) == view2(queried_values@),
        crate::hashing::digests_view(r.hash_witness@) == crate::hashing::digests_view(
            decommitment.hash_witness@,
        ),
{
    let expected = run_vcs_lifted_verifier(
        root,
        column_log_sizes,
        query_positions,
        queried_values,
        &decommitment,
    );
    VcsLiftedVerifierVector {
        case,
        root: copy_digest(root),
        column_log_sizes: crate::columns::copy_u32s(column_log_sizes),
        query_positions: crate::planner::copy_indices(query_positions),
        queried_values: copy_columns(queried_values),
        hash_witness: decommitment.hash_witness,
        expected,
    }
}

/// Appends a consistent lifted fixture, keeping every element consistent.
fn push_lifted_fixture(out: &mut Vec<VcsLiftedVerifierVector>, v: VcsLiftedVerifierVector)
    requires
        lifted_fixture_consistent(v),
        forall|k: int|
            0 <= k < old(out)@.len() ==> lifted_fixture_consistent(#[trigger] old(out)@[k]),
    ensures
        final(out)@ == old(out)@.push(v),
        forall|k: int|
            0 <= k < final(out)@.len() ==> lifted_fixture_consistent(#[trigger] final(out)@[k]),
{
    let ghost pre = out@;
    let ghost vv = v;
    out.push(v);
    proof {
        assert forall|k: int|
            0 <= k < out@.len() implies lifted_fixture_consistent(#[trigger] out@[k]) by {
            if k < pre.len() {
                assert(out@[k] == pre[k]);
            } else {
                assert(out@[k] == vv);
            }
        }
    }
}

/// Copies a lifted decommitment.
pub fn copy_lifted_decommitment(d: &crate::lifted::LiftedDecommitment) -> (r:
    crate::lifted::LiftedDecommitment)
    ensures
        crate::hashing::digests_view(r.hash_witness@) == crate::hashing::digests_view(
            d.hash_witness@,
        ),
        forall|i: int|
            0 <= i < r.hash_witness@.len() ==> is_digest((#[trigger] r.hash_witness@[i])@) == is_digest(
                d.hash_witness@[i]@,
            ),
{
    let hash_witness = copy_digests(&d.hash_witness);
    proof {
        assert(crate::hashing::digests_view(hash_witness@) =~= crate::hashing::digests_view(
            d.hash_witness@,
        ));
    }
    crate::lifted::LiftedDecommitment { hash_witness }
}

/// Builds lifted verifier fixtures from one base case: the valid case and
/// the tampered variants, each with the verdict the verifier reaches on the
/// fixture's own fields.
#[verifier::spinoff_prover]
pub fn build_vcs_lifted_verifier_cases(state: &mut u64) -> (r: Vec<VcsLiftedVerifierVector>)
    ensures
        3 <= r@.len() <= 5,
        forall|k: int| 0 <= k < r@.len() ==> lifted_fixture_consistent(#[trigger] r@[k]),
        r@[0].case == VectorCase::Valid && r@[0].expected == Ok::<(), crate::lifted::LiftedError>(
            (),
        ),
        r@[1].case == VectorCase::RootMismatch && r@[1].expected == Err::<
            (),
            crate::lifted::LiftedError,
        >(crate::lifted::LiftedError::RootMismatch),
        r@[2].case == VectorCase::WitnessTooLong && r@[2].expected != Ok::<
            (),
            crate::lifted::LiftedError,
        >(()),
{
    let base = build_vcs_lifted_base_case(state).unwrap();
    let ghost sizes = base.column_log_sizes@;
    let ghost colsv = view2(base.columns@);
    let mut out: Vec<VcsLiftedVerifierVector> = Vec::new();
    // The untouched case: the round-trip law owes acceptance.
    proof {
        crate::lifted::lemma_lifted_round_trip(sizes, colsv, base.query_positions@);
    }
    let valid = make_lifted_fixture(
        VectorCase::Valid,
        &base.root,
        &base.column_log_sizes,
        &base.query_positions,
        &base.queried_values,
        copy_lifted_decommitment(&base.decommitment),
    );
    push_lifted_fixture(&mut out, valid);
    // One bit of the root flipped: root sensitivity owes a mismatch verdict.
    let bad_root = flip_first_bit(&base.root);
    proof {
        crate::lifted::lemma_lifted_root_sensitivity(sizes, colsv, base.query_positions@, bad_root@);
    }
    let mismatch = make_lifted_fixture(
        VectorCase::RootMismatch,
        &bad_root,
        &base.column_log_sizes,
        &base.query_positions,
        &base.queried_values,
        copy_lifted_decommitment(&base.decommitment),
    );
    push_lifted_fixture(&mut out, mismatch);
    // A witness entry appended: by witness minimality no lengthened witness
    // is ever accepted.
    let mut long = copy_lifted_decommitment(&base.decommitment);
    long.hash_witness.push(sample_digest(state));
    let too_long = make_lifted_fixture(
        VectorCase::WitnessTooLong,
        &base.root,
        &base.column_log_sizes,
        &base.query_positions,
        &base.queried_values,
        long,
    );
    proof {
        if too_long.expected == Ok::<(), crate::lifted::LiftedError>(()) {
            crate::lifted::lemma_lifted_witness_minimality(
                base.root@,
                sizes,
                colsv,
                base.query_positions@,
                view2(too_long.queried_values@),
                crate::hashing::digests_view(too_long.hash_witness@),
            );
            assert(false);
        }
    }
    push_lifted_fixture(&mut out, too_long);
    // A witness entry removed.
    if base.decommitment.hash_witness.len() > 0 {
        let mut short = copy_lifted_decommitment(&base.decommitment);
        short.hash_witness.pop();
        let too_short = make_lifted_fixture(
            VectorCase::WitnessTooShort,
            &base.root,
            &base.column_log_sizes,
            &base.query_positions,
            &base.queried_values,
            short,
        );
        push_lifted_fixture(&mut out, too_short);
    }
    // One revealed value altered.
    if base.queried_values.len() > 0 && base.queried_values[0].len() > 0 {
        let bad_values0 = copy_columns(&base.queried_values);
        proof {
            assert(view2(bad_values0@)[0] == bad_values0@[0]@);
            assert(view2(base.queried_values@)[0] == base.queried_values@[0]@);
            assert(bad_values0@[0]@ == base.queried_values@[0]@);
        }
        let mut bad_values = bad_values0;
        let mut first = crate::columns::copy_u32s(&bad_values[0]);
        let fresh = sample_m31(state, false);
        first.set(0, fresh);
        bad_values.set(0, first);
        proof {
            assert forall|i: int| 0 <= i < bad_values@.len() implies (
            #[trigger] bad_values@[i])@.len() == base.query_positions@.len() by {
                if i != 0 {
                    assert(view2(base.queried_values@)[i] == base.queried_values@[i]@);
                    assert(bad_values@[i]@ == base.queried_values@[i]@);
                }
            }
        }
        let altered = make_lifted_fixture(
            VectorCase::QueriedValuesMismatch,
            &base.root,
            &base.column_log_sizes,
            &base.query_positions,
            &bad_values,
            copy_lifted_decommitment(&base.decommitment),
        );
        push_lifted_fixture(&mut out, altered);
    }
    out
}

/// Draws lifted verifier fixtures until `count` have been produced; every
/// fixture carries the verifier's verdict on its own fields.
pub fn generate_vcs_lifted_verifier_vectors(state: &mut u64, count: usize) -> (r: Vec<
    VcsLiftedVerifierVector,
>)
    ensures
        r@.len() == count,
        forall|k: int| 0 <= k < count ==> lifted_fixture_consistent(#[trigger] r@[k]),
{
    let mut out: Vec<VcsLiftedVerifierVector> = Vec::new();
    while out.len() < count
        invariant
            out@.len() <= count,
            forall|k: int| 0 <= k < out@.len() ==> lifted_fixture_consistent(#[trigger] out@[k]),
        decreases count - out@.len(),
    {
        let mut cases = build_vcs_lifted_verifier_cases(state);
        let ghost pre = out@;
        let ghost cs = cases@;
        let before = out.len();
        out.append(&mut cases);
        proof {
            assert forall|k: int|
                0 <= k < out@.len() implies lifted_fixture_consistent(#[trigger] out@[k]) by {
                if k < pre.len() {
                    assert(out@[k] == pre[k]);
                } else {
                    assert(out@[k] == cs[k - pre.len()]);
                }
            }
        }
        if out.len() > count {
            let ghost full = out@;
            out.truncate(count);
            proof {
                assert forall|k: int|
                    0 <= k < out@.len() implies lifted_fixture_consistent(#[trigger] out@[k]) by {
                    assert(out@[k] == full[k]);
                }
            }
        }
        proof {
            assert(out@.len() > before);
        }
    }
    out
}

/// Draws lifted prover fixtures (base cases) until `count` have been
/// produced; every case is well formed, consistent with the model, within
/// the drawn shape, and verifies against its own root.
pub fn generate_vcs_lifted_prover_vectors(state: &mut u64, count: usize) -> (r: Vec<
    VcsLiftedBaseCase,
>)
    ensures
        r@.len() == count,
        forall|k: int|
            0 <= k < count ==> {
                let b = #[trigger] r@[k];
                b.wf() && b.consistent() && b.drawn_bounds() && b.verifies()
            },
{
    let mut out: Vec<VcsLiftedBaseCase> = Vec::new();
    while out.len() < count
        invariant
            out@.len() <= count,
            forall|k: int|
                0 <= k < out@.len() ==> {
                    let b = #[trigger] out@[k];
                    b.wf() && b.consistent() && b.drawn_bounds() && b.verifies()
                },
        decreases count - out@.len(),
    {
        match build_vcs_lifted_base_case(state) {
            Some(base) => {
                let ghost pre = out@;
                let ghost bb = base;
                out.push(base);
                proof {
                    assert forall|k: int|
                        0 <= k < out@.len() implies {
                        let b = #[trigger] out@[k];
                        b.wf() && b.consistent() && b.drawn_bounds() && b.verifies()
                    } by {
                        if k < pre.len() {
                            assert(out@[k] == pre[k]);
                        } else {
                            assert(out@[k] == bb);
                        }
                    }
                }
            },
            None => {
                // Unreachable: the base builder always succeeds.
            },
        }
    }
    out
}

/// One fold-step decommitment fixture.
pub struct FriDecommitVector {
    /// Which tampering this fixture applies.
    pub case: VectorCase,
    /// The fold step used.
    pub fold_step: u32,
    /// The committed column of secure evaluations.
    pub column: Vec<crate::fri::SecureEval>,
    /// The query positions.
    pub query_positions: Vec<usize>,
    /// Every decommitted position (empty on a rejected walk).
    pub decommitment_positions: Vec<usize>,
    /// The fold witness (empty on a rejected walk).
    pub witness_evals: Vec<crate::fri::SecureEval>,
    /// The positions of the recorded evaluations.
    pub value_map_positions: Vec<usize>,
    /// The recorded evaluations.
    pub value_map_values: Vec<crate::fri::SecureEval>,
    /// The walk's verdict.
    pub expected: Result<(), crate::fri::FriError>,
}

/// Draws one secure column.
fn sample_secure_column(state: &mut u64, n: usize) -> (r: Vec<crate::fri::SecureEval>)
    ensures
        r@.len() == n,
        crate::fri::secure_column_wf(r@),
{
    let mut col: Vec<crate::fri::SecureEval> = Vec::new();
    while col.len() < n
        invariant
            col@.len() <= n,
            crate::fri::secure_column_wf(col@),
        decreases n - col@.len(),
    {
        let e = crate::rng::sample_secure_eval(state);
        col.push(e);
    }
    col
}

/// Appends one out-of-range position to a strictly increasing in-range query
/// list.
fn push_out_of_range(queries: &Vec<usize>, line_len: usize, extra: usize) -> (r: Vec<usize>)
    requires
        strictly_sorted(queries@),
        all_below(queries@, line_len as nat),
        line_len + extra + 1 <= usize::MAX,
    ensures
        strictly_sorted(r@),
        r@.len() == queries@.len() + 1,
        r@.last() == line_len + extra + 1,
{
    let mut r = crate::planner::copy_indices(queries);
    let bad = line_len + 1 + extra;
    let ghost pre = r@;
    r.push(bad);
    proof {
        assert forall|a: int, b: int| 0 <= a < b < r@.len() implies r@[a] < r@[b] by {
            if b == r@.len() - 1 {
                assert(r@[a] == pre[a]);
                assert(pre[a] < line_len as nat);
            }
        }
    }
    r
}

/// Builds three fold-step fixtures over one drawn column: the untouched
/// walk, a walk with one out-of-range query, and a walk with an unusable
/// fold step.
pub fn build_fri_decommit_cases(state: &mut u64) -> (r: Vec<FriDecommitVector>)
    ensures
        r@.len() == 3,
        forall|k: int| 0 <= k < 3 ==> fri_fixture_consistent(#[trigger] r@[k]),
        r@[0].case == VectorCase::Valid && r@[0].expected == Ok::<(), crate::fri::FriError>(()),
        r@[1].case == VectorCase::QueryOutOfRange && r@[1].expected == Err::<
            (),
            crate::fri::FriError,
        >(crate::fri::FriError::QueryOutOfRange),
        r@[2].case == VectorCase::FoldStepTooLarge && r@[2].expected == Err::<
            (),
            crate::fri::FriError,
        >(crate::fri::FriError::FoldStepTooLarge),
        r@[1].column@ == r@[0].column@ && r@[2].column@ == r@[0].column@,
        exists|l: u32| 2 <= l <= 7 && r@[0].column@.len() == pow2(l as nat),
{
    let line_log_size = 2 + ((next_u64(state) as u32) % 6);
    let line_len = pow2_usize(line_log_size);
    proof {
        vstd::arithmetic::power2::lemma_pow2_pos(line_log_size as nat);
        assert(pow2(7) == 128) by {
            vstd::arithmetic::power2::lemma2_to64();
        }
        assert(line_log_size <= 7);
        assert(pow2(line_log_size as nat) <= pow2(7)) by {
            if line_log_size < 7 {
                vstd::arithmetic::power2::lemma_pow2_strictly_increases(line_log_size as nat, 7);
            }
        }
    }
    let column = sample_secure_column(state, line_len);
    let max_fold_step = if line_log_size < 3 {
        line_log_size
    } else {
        3
    };
    let fold_step = (next_u64(state) as u32) % (max_fold_step + 1);
    let cap = if line_len < 4 {
        line_len
    } else {
        4
    };
    let want = 1 + ((next_u64(state) as usize) % cap);
    let query_positions = sample_queries(state, line_len, want);
    let mut out: Vec<FriDecommitVector> = Vec::new();
    // The untouched walk: in-range queries and a usable fold step are owed
    // acceptance.
    proof {
        crate::fri::lemma_fold_accepts_in_range(
            column@,
            query_positions@,
            query_positions@,
            fold_step,
            line_log_size,
        );
    }
    let valid = fri_case(VectorCase::Valid, &column, &query_positions, fold_step);
    out.push(valid);
    // One query outside the column: rejection is owed.
    let extra = (next_u64(state) as usize) % 4;
    let bad_queries = push_out_of_range(&query_positions, line_len, extra);
    proof {
        crate::fri::lemma_fold_rejects_out_of_range(
            column@,
            bad_queries@,
            bad_queries@,
            fold_step,
            bad_queries@.len() - 1,
        );
    }
    let oor = fri_case(VectorCase::QueryOutOfRange, &column, &bad_queries, fold_step);
    out.push(oor);
    // A fold step no native shift can express.
    let too_large = fri_case(
        VectorCase::FoldStepTooLarge,
        &column,
        &query_positions,
        usize::BITS,
    );
    out.push(too_large);
    out
}

/// A fold fixture is consistent when its verdict and output fields are
/// exactly the fold-walk spec of its own column, queries and fold step: the
/// walk's outputs on acceptance, empty outputs on rejection.
pub open spec fn fri_fixture_consistent(v: FriDecommitVector) -> bool {
    match crate::fri::fri_decommit_spec(v.column@, v.query_positions@, v.fold_step) {
        Ok((ps, ws, vs)) => {
            &&& v.expected == Ok::<(), crate::fri::FriError>(())
            &&& v.decommitment_positions@ == ps
            &&& v.witness_evals@ == ws
            &&& v.value_map_positions@ == ps
            &&& v.value_map_values@ == vs
        },
        Err(e) => {
            &&& v.expected == Err::<(), crate::fri::FriError>(e)
            &&& v.decommitment_positions@ == Seq::<usize>::empty()
            &&& v.witness_evals@ == Seq::<crate::fri::SecureEval>::empty()
            &&& v.value_map_positions@ == Seq::<usize>::empty()
            &&& v.value_map_values@ == Seq::<crate::fri::SecureEval>::empty()
        },
    }
}

/// Runs one fold-step walk and packages its outcome as a fixture.
fn fri_case(
    case: VectorCase,
    column: &Vec<crate::fri::SecureEval>,
    query_positions: &Vec<usize>,
    fold_step: u32,
) -> (r: FriDecommitVector)
    requires
        strictly_sorted(query_positions@),
    ensures
        r.case == case,
        r.column@ == column@,
        r.query_positions@ == query_positions@,
        r.fold_step == fold_step,
        fri_fixture_consistent(r),
{
    let outputs = crate::fri::compute_fri_decommit_outputs(column, query_positions, fold_step);
    let column_copy = copy_secure_column(column);
    let queries_copy = crate::planner::copy_indices(query_positions);
    match outputs {
        Ok(o) => FriDecommitVector {
            case,
            fold_step,
            column: column_copy,
            query_positions: queries_copy,
            decommitment_positions: o.decommitment_positions,
            witness_evals: o.witness_evals,
            value_map_positions: o.value_map_positions,
            value_map_values: o.value_map_values,
            expected: Ok(()),
        },
        Err(e) => FriDecommitVector {
            case,
            fold_step,
            column: column_copy,
            query_positions: queries_copy,
            decommitment_positions: Vec::new(),
            witness_evals: Vec::new(),
            value_map_positions: Vec::new(),
            value_map_values: Vec::new(),
            expected: Err(e),
        },
    }
}

/// Copies a secure column.
pub fn copy_secure_column(col: &Vec<crate::fri::SecureEval>) -> (r: Vec<crate::fri::SecureEval>)
    ensures
        r@ == col@,
{
    let mut r: Vec<crate::fri::SecureEval> = Vec::new();
    let mut i: usize = 0;
    while i < col.len()
        invariant
            i <= col@.len(),
            r@ == col@.take(i as int),
        decreases col@.len() - i,
    {
        r.push(col[i]);
        proof {
            assert(col@.take(i + 1) =~= col@.take(i as int).push(col@[i as int]));
        }
        i += 1;
    }
    proof {
        assert(col@.take(col@.len() as int) =~= col@);
    }
    r
}

/// Draws fold-step fixtures until `count` have been produced: successive
/// three-fixture batches concatenated in order, the last batch truncated to
/// fit, so the accepted, out-of-range and unusable-step fixtures alternate;
/// every fixture's fields are the fold-walk spec of its own inputs.
pub fn generate_fri_decommit_vectors(state: &mut u64, count: usize) -> (r: Vec<FriDecommitVector>)
    ensures
        r@.len() == count,
        forall|k: int| 0 <= k < count ==> fri_fixture_consistent(#[trigger] r@[k]),
        forall|k: int|
            0 <= k < count ==> (#[trigger] r@[k]).case == (if k % 3 == 0 {
                VectorCase::Valid
            } else if k % 3 == 1 {
                VectorCase::QueryOutOfRange
            } else {
                VectorCase::FoldStepTooLarge
            }),
{
    let mut out: Vec<FriDecommitVector> = Vec::new();
    while out.len() < count
        invariant
            out@.len() <= count,
            out@.len() % 3 == 0 || out@.len() == count,
            forall|k: int| 0 <= k < out@.len() ==> fri_fixture_consistent(#[trigger] out@[k]),
            forall|k: int|
                0 <= k < out@.len() ==> (#[trigger] out@[k]).case == (if k % 3 == 0 {
                    VectorCase::Valid
                } else if k % 3 == 1 {
                    VectorCase::QueryOutOfRange
                } else {
                    VectorCase::FoldStepTooLarge
                }),
        decreases count - out@.len(),
    {
        let mut cases = build_fri_decommit_cases(state);
        let ghost pre = out@;
        let ghost cs = cases@;
        let before = out.len();
        out.append(&mut cases);
        proof {
            assert(pre.len() % 3 == 0);
            assert forall|k: int|
                0 <= k < out@.len() implies fri_fixture_consistent(#[trigger] out@[k]) && out@[k].case
                == (if k % 3 == 0 {
                VectorCase::Valid
            } else if k % 3 == 1 {
                VectorCase::QueryOutOfRange
            } else {
                VectorCase::FoldStepTooLarge
            }) by {
                if k < pre.len() {
                    assert(out@[k] == pre[k]);
                } else {
                    assert(out@[k] == cs[k - pre.len()]);
                    assert(k % 3 == k - pre.len());
                }
            }
        }
        if out.len() > count {
            let ghost full = out@;
            out.truncate(count);
            proof {
                assert forall|k: int|
                    0 <= k < out@.len() implies fri_fixture_consistent(#[trigger] out@[k])
                    && out@[k].case == (if k % 3 == 0 {
                    VectorCase::Valid
                } else if k % 3 == 1 {
                    VectorCase::QueryOutOfRange
                } else {
                    VectorCase::FoldStepTooLarge
                }) by {
                    assert(out@[k] == full[k]);
                }
            }
        }
        proof {
            assert(out@.len() > before);
        }
    }
    out
}

/// One fold-layer fixture: the fold-step walk plus the lifted commitment and
/// hash witness over the column's coordinate columns.
pub struct FriLayerDecommitVector {
    /// Which tampering this fixture applies.
    pub case: VectorCase,
    /// The fold step used.
    pub fold_step: u32,
    /// The committed column of secure evaluations.
    pub column: Vec<crate::fri::SecureEval>,
    /// The query positions.
    pub query_positions: Vec<usize>,
    /// The lifted commitment over the coordinate columns.
    pub commitment: Vec<u8>,
    /// Every decommitted position (empty on a rejected walk).
    pub decommitment_positions: Vec<usize>,
    /// The fold witness (empty on a rejected walk).
    pub fri_witness: Vec<crate::fri::SecureEval>,
    /// The lifted hash witness (empty on a rejected walk).
    pub hash_witness: Vec<Vec<u8>>,
    /// The positions of the recorded evaluations.
    pub value_map_positions: Vec<usize>,
    /// The recorded evaluations.
    pub value_map_values: Vec<crate::fri::SecureEval>,
    /// The walk's verdict.
    pub expected: Result<(), crate::fri::FriError>,
}

/// A fold-layer fixture of log-size `log_size` is consistent when its
/// verdict and output fields are exactly the fold-walk spec of its own
/// column, queries and fold step; its commitment is the lifted root over the
/// column's coordinate columns in either outcome, and a rejected walk leaves
/// the position, witness and hash-witness fields empty.
pub open spec fn fri_layer_fixture_consistent(v: FriLayerDecommitVector, log_size: u32) -> bool {
    &&& v.column@.len() == pow2(log_size as nat)
    &&& v.commitment@ == crate::fri::fri_layer_commitment_spec(v.column@, log_size)
    &&& match crate::fri::fri_decommit_spec(v.column@, v.query_positions@, v.fold_step) {
        Ok((ps, ws, vs)) => {
            &&& v.expected == Ok::<(), crate::fri::FriError>(())
            &&& v.decommitment_positions@ == ps
            &&& v.fri_witness@ == ws
            &&& crate::hashing::digests_view(v.hash_witness@) == crate::lifted::lifted_decommit_hw(
                crate::fri::four_sizes(log_size),
                crate::fri::base_cols_of(v.column@),
                ps,
            )
            &&& v.value_map_positions@ == ps
            &&& v.value_map_values@ == vs
        },
        Err(e) => {
            &&& v.expected == Err::<(), crate::fri::FriError>(e)
            &&& v.decommitment_positions@ == Seq::<usize>::empty()
            &&& v.fri_witness@ == Seq::<crate::fri::SecureEval>::empty()
            &&& v.hash_witness@ == Seq::<Vec<u8>>::empty()
            &&& v.value_map_positions@ == Seq::<usize>::empty()
            &&& v.value_map_values@ == Seq::<crate::fri::SecureEval>::empty()
        },
    }
}

/// Runs one fold-layer walk and packages its outcome as a fixture; a
/// rejected walk reuses the commitment computed from the column alone.
fn fri_layer_case(
    case: VectorCase,
    column: &Vec<crate::fri::SecureEval>,
    line_log_size: u32,
    query_positions: &Vec<usize>,
    fold_step: u32,
    fallback_commitment: &Vec<u8>,
) -> (r: FriLayerDecommitVector)
    requires
        strictly_sorted(query_positions@),
        1 <= line_log_size <= MAX_LOG_SIZE,
        column@.len() == pow2(line_log_size as nat),
        crate::fri::secure_column_wf(column@),
        fallback_commitment@ == crate::fri::fri_layer_commitment_spec(column@, line_log_size),
    ensures
        r.case == case,
        r.column@ == column@,
        r.query_positions@ == query_positions@,
        r.fold_step == fold_step,
        fri_layer_fixture_consistent(r, line_log_size),
{
    let outputs = crate::fri::compute_fri_layer_decommit_outputs(
        column,
        line_log_size,
        query_positions,
        fold_step,
    );
    let column_copy = copy_secure_column(column);
    let queries_copy = crate::planner::copy_indices(query_positions);
    match outputs {
        Ok(o) => FriLayerDecommitVector {
            case,
            fold_step,
            column: column_copy,
            query_positions: queries_copy,
            commitment: o.commitment,
            decommitment_positions: o.decommitment_positions,
            fri_witness: o.fri_witness,
            hash_witness: o.hash_witness,
            value_map_positions: o.value_map_positions,
            value_map_values: o.value_map_values,
            expected: Ok(()),
        },
        Err(e) => FriLayerDecommitVector {
            case,
            fold_step,
            column: column_copy,
            query_positions: queries_copy,
            commitment: copy_digest(fallback_commitment),
            decommitment_positions: Vec::new(),
            fri_witness: Vec::new(),
            hash_witness: Vec::new(),
            value_map_positions: Vec::new(),
            value_map_values: Vec::new(),
            expected: Err(e),
        },
    }
}

/// Builds three fold-layer fixtures over one drawn column; the rejected
/// fixtures reuse the valid fixture's commitment, which depends on the
/// column alone.
pub fn build_fri_layer_decommit_cases(state: &mut u64) -> (r: Vec<FriLayerDecommitVector>)
    ensures
        r@.len() == 3,
        exists|l: u32|
            2 <= l <= 7 && #[trigger] pow2(l as nat) == r@[0].column@.len() && (forall|k: int|
                0 <= k < 3 ==> fri_layer_fixture_consistent(#[trigger] r@[k], l)),
        r@[0].case == VectorCase::Valid && r@[0].expected == Ok::<(), crate::fri::FriError>(()),
        r@[1].case == VectorCase::QueryOutOfRange && r@[1].expected == Err::<
            (),
            crate::fri::FriError,
        >(crate::fri::FriError::QueryOutOfRange),
        r@[2].case == VectorCase::FoldStepTooLarge && r@[2].expected == Err::<
            (),
            crate::fri::FriError,
        >(crate::fri::FriError::FoldStepTooLarge),
        r@[1].column@ == r@[0].column@ && r@[2].column@ == r@[0].column@,
        r@[1].commitment@ == r@[0].commitment@ && r@[2].commitment@ == r@[0].commitment@,
{
    let line_log_size = 2 + ((next_u64(state) as u32) % 6);
    let line_len = pow2_usize(line_log_size);
    proof {
        vstd::arithmetic::power2::lemma_pow2_pos(line_log_size as nat);
        assert(pow2(7) == 128) by {
            vstd::arithmetic::power2::lemma2_to64();
        }
        assert(pow2(line_log_size as nat) <= pow2(7)) by {
            if line_log_size < 7 {
                vstd::arithmetic::power2::lemma_pow2_strictly_increases(line_log_size as nat, 7);
            }
        }
    }
    let column = sample_secure_column(state, line_len);
    let max_fold_step = if line_log_size < 3 {
        line_log_size
    } else {
        3
    };
    let fold_step = (next_u64(state) as u32) % (max_fold_step + 1);
    let cap = if line_len < 4 {
        line_len
    } else {
        4
    };
    let want = 1 + ((next_u64(state) as usize) % cap);
    let query_positions = sample_queries(state, line_len, want);
    let mut out: Vec<FriLayerDecommitVector> = Vec::new();
    proof {
        crate::fri::lemma_fold_accepts_in_range(
            column@,
            query_positions@,
            query_positions@,
            fold_step,
            line_log_size,
        );
    }
    let commitment = fri_layer_commitment(&column, line_log_size);
    let valid = fri_layer_case(
        VectorCase::Valid,
        &column,
        line_log_size,
        &query_positions,
        fold_step,
        &commitment,
    );
    out.push(valid);
    let extra = (next_u64(state) as usize) % 4;
    let bad_queries = push_out_of_range(&query_positions, line_len, extra);
    proof {
        crate::fri::lemma_fold_rejects_out_of_range(
            column@,
            bad_queries@,
            bad_queries@,
            fold_step,
            bad_queries@.len() - 1,
        );
    }
    let oor = fri_layer_case(
        VectorCase::QueryOutOfRange,
        &column,
        line_log_size,
        &bad_queries,
        fold_step,
        &commitment,
    );
    out.push(oor);
    let too_large = fri_layer_case(
        VectorCase::FoldStepTooLarge,
        &column,
        line_log_size,
        &query_positions,
        usize::BITS,
        &commitment,
    );
    out.push(too_large);
    out
}

/// Commits the column's four coordinate columns under the lifted layout.
fn fri_layer_commitment(column: &Vec<crate::fri::SecureEval>, line_log_size: u32) -> (r: Vec<u8>)
    requires
        1 <= line_log_size <= MAX_LOG_SIZE,
        column@.len() == pow2(line_log_size as nat),
        crate::fri::secure_column_wf(column@),
    ensures
        r@ == crate::fri::fri_layer_commitment_spec(column@, line_log_size),
{
    match crate::fri::compute_fri_layer_decommit_outputs(column, line_log_size, &Vec::new(), 0) {
        Ok(o) => o.commitment,
        Err(_) => {
            // Unreachable: an empty query set walks no subset.
            Vec::new()
        },
    }
}

/// A fold-layer fixture is consistent at its own column's log-size.
pub open spec fn fri_layer_fixture_ok(v: FriLayerDecommitVector) -> bool {
    exists|l: u32|
        2 <= l <= 7 && #[trigger] pow2(l as nat) == v.column@.len() && fri_layer_fixture_consistent(
            v,
            l,
        )
}

/// Draws fold-layer fixtures until `count` have been produced: successive
/// three-fixture batches concatenated in order, the last batch truncated to
/// fit; every fixture's fields are the fold-walk spec and lifted commitment
/// of its own inputs, at its own column's log-size.
pub fn generate_fri_layer_decommit_vectors(state: &mut u64, count: usize) -> (r: Vec<
    FriLayerDecommitVector,
>)
    ensures
        r@.len() == count,
        forall|k: int| 0 <= k < count ==> fri_layer_fixture_ok(#[trigger] r@[k]),
        forall|k: int|
            0 <= k < count ==> (#[trigger] r@[k]).case == (if k % 3 == 0 {
                VectorCase::Valid
            } else if k % 3 == 1 {
                VectorCase::QueryOutOfRange
            } else {
                VectorCase::FoldStepTooLarge
            }),
{
    let mut out: Vec<FriLayerDecommitVector> = Vec::new();
    while out.len() < count
        invariant
            out@.len() <= count,
            out@.len() % 3 == 0 || out@.len() == count,
            forall|k: int| 0 <= k < out@.len() ==> fri_layer_fixture_ok(#[trigger] out@[k]),
            forall|k: int|
                0 <= k < out@.len() ==> (#[trigger] out@[k]).case == (if k % 3 == 0 {
                    VectorCase::Valid
                } else if k % 3 == 1 {
                    VectorCase::QueryOutOfRange
                } else {
                    VectorCase::FoldStepTooLarge
                }),
        decreases count - out@.len(),
    {
        let mut cases = build_fri_layer_decommit_cases(state);
        let ghost pre = out@;
        let ghost cs = cases@;
        let ghost bl = choose|l: u32|
            2 <= l <= 7 && #[trigger] pow2(l as nat) == cs[0].column@.len() && (forall|k: int|
                0 <= k < 3 ==> fri_layer_fixture_consistent(#[trigger] cs[k], l));
        let before = out.len();
        out.append(&mut cases);
        proof {
            assert(pre.len() % 3 == 0);
            assert forall|k: int|
                0 <= k < out@.len() implies fri_layer_fixture_ok(#[trigger] out@[k]) && out@[k].case
                == (if k % 3 == 0 {
                VectorCase::Valid
            } else if k % 3 == 1 {
                VectorCase::QueryOutOfRange
            } else {
                VectorCase::FoldStepTooLarge
            }) by {
                if k < pre.len() {
                    assert(out@[k] == pre[k]);
                } else {
                    assert(out@[k] == cs[k - pre.len()]);
                    assert(k % 3 == k - pre.len());
                    assert(fri_layer_fixture_consistent(cs[k - pre.len()], bl));
                    assert(pow2(bl as nat) == cs[k - pre.len()].column@.len());
                }
            }
        }
        if out.len() > count {
            let ghost full = out@;
            out.truncate(count);
            proof {
                assert forall|k: int|
                    0 <= k < out@.len() implies fri_layer_fixture_ok(#[trigger] out@[k])
                    && out@[k].case == (if k % 3 == 0 {
                    VectorCase::Valid
                } else if k % 3 == 1 {
                    VectorCase::QueryOutOfRange
                } else {
                    VectorCase::FoldStepTooLarge
                }) by {
                    assert(out@[k] == full[k]);
                }
            }
        }
        proof {
            assert(out@.len() > before);
        }
    }
    out
}

/// One first-row indicator fixture: a column that is `1` at position zero
/// and `0` everywhere else.
pub struct ExampleXorIsFirstVector {
    /// Log-size of the column.
    pub log_size: u32,
    /// The indicator column.
    pub values: Vec<u32>,
}

/// Draws `count` first-row indicator fixtures of varying log-sizes.
pub fn generate_example_xor_is_first_vectors(state: &mut u64, count: usize) -> (r: Vec<
    ExampleXorIsFirstVector,
>)
    ensures
        r@.len() == count,
        forall|k: int|
            0 <= k < count ==> {
                let v = #[trigger] r@[k];
                &&& 1 <= v.log_size <= 10
                &&& v.values@.len() == pow2(v.log_size as nat)
                &&& v.values@[0] == 1
                &&& forall|j: int| 0 < j < v.values@.len() ==> v.values@[j] == 0
            },
{
    let mut out: Vec<ExampleXorIsFirstVector> = Vec::new();
    while out.len() < count
        invariant
            out@.len() <= count,
            forall|k: int|
                0 <= k < out@.len() ==> {
                    let v = #[trigger] out@[k];
                    &&& 1 <= v.log_size <= 10
                    &&& v.values@.len() == pow2(v.log_size as nat)
                    &&& v.values@[0] == 1
                    &&& forall|j: int| 0 < j < v.values@.len() ==> v.values@[j] == 0
                },
        decreases count - out@.len(),
    {
        let log_size = 1 + ((next_u64(state) as u32) % 10);
        let n = pow2_usize(log_size);
        proof {
            vstd::arithmetic::power2::lemma_pow2_pos(log_size as nat);
        }
        let mut values: Vec<u32> = Vec::new();
        values.push(1);
        while values.len() < n
            invariant
                1 <= values@.len() <= n,
                values@[0] == 1,
                forall|j: int| 0 < j < values@.len() ==> values@[j] == 0,
            decreases n - values@.len(),
        {
            values.push(0);
        }
        out.push(ExampleXorIsFirstVector { log_size, values });
    }
    out
}

} // verus!
