//! Mixed-width row-update fixtures.
//!
//! Each fixture holds one wide column of 32-bit values and two narrow
//! columns of 16-bit values, together with the expected contents after one
//! deterministic in-place row update; shape-mismatch fixtures record inputs
//! whose column lengths disagree.

use vstd::prelude::*;

use crate::rng::next_u64;

verus! {

/// One row-update fixture: initial columns and their expected contents after
/// the update.
pub struct MixedRowUpdateVector {
    /// The common column length.
    pub len: usize,
    /// The initial wide column.
    pub initial_a: Vec<u32>,
    /// The first initial narrow column.
    pub initial_b0: Vec<u16>,
    /// The second initial narrow column.
    pub initial_b1: Vec<u16>,
    /// The wide column after the update.
    pub expected_a: Vec<u32>,
    /// The first narrow column after the update.
    pub expected_b0: Vec<u16>,
    /// The second narrow column after the update.
    pub expected_b1: Vec<u16>,
}

/// One shape-mismatch fixture: declared lengths that disagree.
pub struct InvalidShapeVector {
    /// The declared row count.
    pub len: usize,
    /// The wide column's length.
    pub a_len: usize,
    /// The first narrow column's length.
    pub b0_len: usize,
    /// The second narrow column's length.
    pub b1_len: usize,
}

/// The full fixture file: row updates and shape-mismatch cases.
pub struct MixedVectorFile {
    /// The number of row-update fixtures.
    pub sample_count: usize,
    /// The row-update fixtures.
    pub mixed_row_updates: Vec<MixedRowUpdateVector>,
    /// The shape-mismatch fixtures.
    pub invalid_shape_cases: Vec<InvalidShapeVector>,
}

/// The wide column's update at row `i`.
#[verifier::opaque]
pub open spec fn update_a(v: u32, i: int) -> u32 {
    v ^ (i as u32).wrapping_mul(7)
}

/// The first narrow column's update at row `i`.
#[verifier::opaque]
pub open spec fn update_b0(v: u16, i: int) -> u16 {
    v.wrapping_add(i as u16)
}

/// The second narrow column's update at row `i`.
#[verifier::opaque]
pub open spec fn update_b1(v: u16, i: int) -> u16 {
    v ^ (i as u16).wrapping_mul(3).wrapping_add(1)
}

/// A row-update fixture is well formed: all six columns share the declared
/// length and the expected columns are the updates of the initial ones.
pub open spec fn mixed_entry_wf(v: MixedRowUpdateVector) -> bool {
    &&& 1 <= v.len <= 24
    &&& v.initial_a@.len() == v.len && v.expected_a@.len() == v.len
    &&& v.initial_b0@.len() == v.len && v.expected_b0@.len() == v.len
    &&& v.initial_b1@.len() == v.len && v.expected_b1@.len() == v.len
    &&& forall|i: int|
        0 <= i < v.len ==> #[trigger] v.expected_a@[i] == update_a(v.initial_a@[i], i)
            && v.expected_b0@[i] == update_b0(v.initial_b0@[i], i) && v.expected_b1@[i]
            == update_b1(v.initial_b1@[i], i)
}

/// Draws one row-update fixture.
fn one_mixed_case(state: &mut u64) -> (v: MixedRowUpdateVector)
    ensures
        mixed_entry_wf(v),
{
    let len = 1 + ((next_u64(state) as usize) % 24);
    let mut initial_a: Vec<u32> = Vec::new();
    let mut initial_b0: Vec<u16> = Vec::new();
    let mut initial_b1: Vec<u16> = Vec::new();
    let mut i: usize = 0;
    while i < len
        invariant
            i <= len,
            initial_a@.len() == i,
            initial_b0@.len() == i,
            initial_b1@.len() == i,
        decreases len - i,
    {
        initial_a.push(next_u64(state) as u32);
        initial_b0.push((next_u64(state) & 0xffff) as u16);
        initial_b1.push((next_u64(state) & 0xffff) as u16);
        i += 1;
    }
    let mut expected_a: Vec<u32> = Vec::new();
    let mut expected_b0: Vec<u16> = Vec::new();
    let mut expected_b1: Vec<u16> = Vec::new();
    let mut i: usize = 0;
    while i < len
        invariant
            i <= len,
            initial_a@.len() == len,
            initial_b0@.len() == len,
            initial_b1@.len() == len,
            expected_a@.len() == i,
            expected_b0@.len() == i,
            expected_b1@.len() == i,
            forall|j: int|
                0 <= j < i ==> #[trigger] expected_a@[j] == update_a(initial_a@[j], j)
                    && expected_b0@[j] == update_b0(initial_b0@[j], j) && expected_b1@[j]
                    == update_b1(initial_b1@[j], j),
        decreases len - i,
    {
        let a = initial_a[i] ^ (i as u32).wrapping_mul(7);
        let b0 = initial_b0[i].wrapping_add(i as u16);
        let b1 = initial_b1[i] ^ (i as u16).wrapping_mul(3).wrapping_add(1);
        expected_a.push(a);
        expected_b0.push(b0);
        expected_b1.push(b1);
        proof {
            reveal(update_a);
            reveal(update_b0);
            reveal(update_b1);
            assert(a == update_a(initial_a@[i as int], i as int));
            assert(b0 == update_b0(initial_b0@[i as int], i as int));
            assert(b1 == update_b1(initial_b1@[i as int], i as int));
        }
        i += 1;
    }
    let ghost ia = initial_a@;
    let ghost ib0 = initial_b0@;
    let ghost ib1 = initial_b1@;
    let ghost ea = expected_a@;
    let ghost eb0 = expected_b0@;
    let ghost eb1 = expected_b1@;
    proof {
        assert(forall|j: int|
            0 <= j < len ==> #[trigger] ea[j] == update_a(ia[j], j) && eb0[j] == update_b0(
                ib0[j],
                j,
            ) && eb1[j] == update_b1(ib1[j], j));
    }
    let v = MixedRowUpdateVector {
        len,
        initial_a,
        initial_b0,
        initial_b1,
        expected_a,
        expected_b0,
        expected_b1,
    };
    proof {
        assert(v.initial_a@ == ia && v.initial_b0@ == ib0 && v.initial_b1@ == ib1);
        assert(v.expected_a@ == ea && v.expected_b0@ == eb0 && v.expected_b1@ == eb1);
        assert forall|ii: int|
            0 <= ii < v.len implies #[trigger] v.expected_a@[ii] == update_a(v.initial_a@[ii], ii)
            && v.expected_b0@[ii] == update_b0(v.initial_b0@[ii], ii) && v.expected_b1@[ii]
            == update_b1(v.initial_b1@[ii], ii) by {
            assert(ea[ii] == update_a(ia[ii], ii));
            assert(eb0[ii] == update_b0(ib0[ii], ii));
            assert(eb1[ii] == update_b1(ib1[ii], ii));
        }
        assert(1 <= v.len <= 24);
        assert(v.initial_a@.len() == v.len && v.expected_a@.len() == v.len);
        assert(v.initial_b0@.len() == v.len && v.expected_b0@.len() == v.len);
        assert(v.initial_b1@.len() == v.len && v.expected_b1@.len() == v.len);
        assert(mixed_entry_wf(v));
    }
    v
}

/// Draws `sample_count` row-update fixtures, each with its expected columns
/// after the update, plus two fixed shape-mismatch fixtures.
#[verifier::rlimit(100)]
#[verifier::spinoff_prover]
pub fn generate_vectors(state: &mut u64, sample_count: usize) -> (r: MixedVectorFile)
    ensures
        r.sample_count == sample_count,
        r.mixed_row_updates@.len() == sample_count,
        r.invalid_shape_cases@.len() == 2,
        forall|k: int|
            0 <= k < sample_count ==> mixed_entry_wf(#[trigger] r.mixed_row_updates@[k]),
{
    let mut mixed_row_updates: Vec<MixedRowUpdateVector> = Vec::new();
    while mixed_row_updates.len() < sample_count
        invariant
            mixed_row_updates@.len() <= sample_count,
            forall|k: int|
                0 <= k < mixed_row_updates@.len() ==> mixed_entry_wf(#[trigger] mixed_row_updates@[k]),
        decreases sample_count - mixed_row_updates@.len(),
    {
        let entry = one_mixed_case(state);
        mixed_row_updates.push(entry);
    }
    let mut invalid_shape_cases: Vec<InvalidShapeVector> = Vec::new();
    invalid_shape_cases.push(InvalidShapeVector { len: 8, a_len: 8, b0_len: 8, b1_len: 7 });
    invalid_shape_cases.push(InvalidShapeVector { len: 5, a_len: 4, b0_len: 5, b1_len: 5 });
    MixedVectorFile { sample_count, mixed_row_updates, invalid_shape_cases }
}

} // verus!
