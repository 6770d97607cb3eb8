//! The largest length found in a nest of slices.

use crate::context::Context;
use crate::sizes::{is_nested_max, is_sibling_max, lemma_nested_max_unique, max_depth, nesting_ends, nests_within, reaches, records, table_get, SizeTable};
use crate::value::ValueId;
use vstd::prelude::*;

verus! {

/// Going one level down and then on leads where going on from below leads.
proof fn lemma_reaches_through(
    sizes: Map<ValueId, crate::sizes::RecordView>,
    from: ValueId,
    k: int,
    to: ValueId,
    hops: nat,
)
    requires
        sizes.contains_key(from),
        0 <= k < sizes[from].inner.len(),
        reaches(sizes, sizes[from].inner[k], to, hops),
    ensures
        reaches(sizes, from, to, hops + 1),
{
}

/// The nested maximum below `array_id`, found within `depth` levels.
fn nested_depth_within(array_id: ValueId, slice_sizes: &SizeTable, Ghost(depth): Ghost<nat>) -> (max: usize)
    requires
        nests_within(records(*slice_sizes), array_id, depth),
    ensures
        is_nested_max(records(*slice_sizes), array_id, max as nat),
    decreases depth,
{
    let ghost sizes = records(*slice_sizes);
    let record = table_get(slice_sizes, array_id).unwrap();
    let mut max: usize = record.max_length;
    let ghost mut witness: ValueId = array_id;
    let ghost mut witness_hops: nat = 0;
    let mut k: usize = 0;
    while k < record.inner.len()
        invariant
            k <= record.inner.len(),
            sizes == records(*slice_sizes),
            nests_within(sizes, array_id, depth),
            sizes.contains_key(array_id),
            record@ == sizes[array_id],
            reaches(sizes, array_id, witness, witness_hops),
            sizes[witness].max_length == max,
            sizes[array_id].max_length <= max,
            forall|j: int, v: ValueId, hops: nat|
                0 <= j < k && #[trigger] reaches(sizes, #[trigger] record@.inner[j], v, hops)
                    ==> sizes[v].max_length <= max,
        decreases record.inner.len() - k,
    {
        let inner_slice: ValueId = record.inner[k];
        assert(inner_slice == sizes[array_id].inner[k as int]);
        assert(nests_within(sizes, inner_slice, (depth - 1) as nat));
        assert forall|j: int| 0 <= j < sizes[inner_slice].inner.len() implies sizes.contains_key(
            #[trigger] sizes[inner_slice].inner[j],
        ) by {
            assert(nests_within(sizes, sizes[inner_slice].inner[j], (depth - 2) as nat));
        }
        if let Some(inner_max) = compute_inner_max_size_of(inner_slice, slice_sizes) {
            if inner_max > max {
                proof {
                    let j = choose|j: int|
                        0 <= j < sizes[inner_slice].inner.len() && sizes[#[trigger] sizes[inner_slice].inner[j]].max_length
                            == inner_max;
                    let below = sizes[inner_slice].inner[j];
                    assert(nests_within(sizes, below, (depth - 2) as nat));
                    assert(reaches(sizes, below, below, 0));
                    lemma_reaches_through(sizes, inner_slice, j, below, 0);
                    lemma_reaches_through(sizes, array_id, k as int, below, 1);
                    witness = below;
                    witness_hops = 2;
                }
                max = inner_max;
            }
        }
        let inner_nested_max = nested_depth_within(inner_slice, slice_sizes, Ghost((depth - 1) as nat));
        if inner_nested_max > max {
            proof {
                let (v, hops) = choose|v: ValueId, hops: nat| #[trigger]
                    reaches(sizes, inner_slice, v, hops) && sizes[v].max_length == inner_nested_max;
                lemma_reaches_through(sizes, array_id, k as int, v, hops);
                witness = v;
                witness_hops = hops + 1;
            }
            max = inner_nested_max;
        }
        k += 1;
    }
    proof {
        assert forall|v: ValueId, hops: nat| #[trigger]
            reaches(sizes, array_id, v, hops) implies sizes[v].max_length <= max by {
            if hops > 0 {
                let j = choose|j: int|
                    0 <= j < sizes[array_id].inner.len() && reaches(
                        sizes,
                        #[trigger] sizes[array_id].inner[j],
                        v,
                        (hops - 1) as nat,
                    );
                assert(reaches(sizes, record@.inner[j], v, (hops - 1) as nat));
            }
        }
    }
    max
}

/// The largest length recorded among the slices directly inside
/// `current_array_id`.
fn compute_inner_max_size_of(current_array_id: ValueId, slice_sizes: &SizeTable) -> (max_size: Option<usize>)
    requires
        records(*slice_sizes).contains_key(current_array_id),
        forall|k: int|
            0 <= k < records(*slice_sizes)[current_array_id].inner.len() ==> records(
                *slice_sizes,
            ).contains_key(#[trigger] records(*slice_sizes)[current_array_id].inner[k]),
    ensures
        is_sibling_max(
            records(*slice_sizes),
            current_array_id,
            match max_size {
                Some(max) => Some(max as nat),
                None => None,
            },
        ),
{
    let ghost sizes = records(*slice_sizes);
    let record = table_get(slice_sizes, current_array_id).unwrap();
    let mut max_size: Option<usize> = None;
    let mut k: usize = 0;
    while k < record.inner.len()
        invariant
            k <= record.inner.len(),
            sizes == records(*slice_sizes),
            sizes.contains_key(current_array_id),
            record@ == sizes[current_array_id],
            forall|j: int|
                0 <= j < sizes[current_array_id].inner.len() ==> sizes.contains_key(
                    #[trigger] sizes[current_array_id].inner[j],
                ),
            max_size is None <==> k == 0,
            max_size matches Some(max) ==> {
                &&& exists|j: int| 0 <= j < k && sizes[#[trigger] record@.inner[j]].max_length == max
                &&& forall|j: int| 0 <= j < k ==> sizes[#[trigger] record@.inner[j]].max_length <= max
            },
        decreases record.inner.len() - k,
    {
        let inner_slice: ValueId = record.inner[k];
        assert(inner_slice == sizes[current_array_id].inner[k as int]);
        let inner_record = table_get(slice_sizes, inner_slice).unwrap();
        let inner_size: usize = inner_record.max_length;
        assert(sizes[record@.inner[k as int]].max_length == inner_size);
        if let Some(inner_max) = max_size {
            if inner_size > inner_max {
                max_size = Some(inner_size);
            }
        } else {
            max_size = Some(inner_size);
        }
        k += 1;
    }
    max_size
}

impl Context {
    /// The largest length recorded for `array_id` or for any slice nested in
    /// it, at any depth.
    pub fn find_max_nested_depth(&self, array_id: ValueId, slice_sizes: &SizeTable) -> (max: usize)
        requires
            nesting_ends(records(*slice_sizes), array_id),
        ensures
            is_nested_max(records(*slice_sizes), array_id, max as nat),
            max == max_depth(records(*slice_sizes), array_id),
    {
        let ghost depth = choose|depth: nat| nests_within(records(*slice_sizes), array_id, depth);
        let max = nested_depth_within(array_id, slice_sizes, Ghost(depth));
        proof {
            lemma_nested_max_unique(records(*slice_sizes), array_id, max as nat);
        }
        max
    }

    /// The largest length recorded among the slices directly inside
    /// `current_array_id`; `None` where there is no slice inside it.
    pub fn compute_inner_max_size(&self, current_array_id: ValueId, slice_sizes: &SizeTable) -> (max_size: Option<usize>)
        requires
            records(*slice_sizes).contains_key(current_array_id),
            forall|k: int|
                0 <= k < records(*slice_sizes)[current_array_id].inner.len() ==> records(
                    *slice_sizes,
                ).contains_key(#[trigger] records(*slice_sizes)[current_array_id].inner[k]),
        ensures
            is_sibling_max(
                records(*slice_sizes),
                current_array_id,
                match max_size {
                    Some(max) => Some(max as nat),
                    None => None,
                },
            ),
    {
        compute_inner_max_size_of(current_array_id, slice_sizes)
    }
}

} // verus!
