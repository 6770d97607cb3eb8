//! Lineages of slices: which value stands for a slice after its mutations.

use crate::context::Context;
use crate::value::ValueId;
use std::collections::BTreeMap;
use vstd::prelude::*;

verus! {

/// The id reached from `id` after at most `steps` supersessions, stopping
/// early at an id that nothing supersedes.
pub open spec fn follow(supersedes: Map<ValueId, ValueId>, id: ValueId, steps: nat) -> ValueId
    decreases steps,
{
    if steps == 0 || !supersedes.contains_key(id) {
        id
    } else {
        follow(supersedes, supersedes[id], (steps - 1) as nat)
    }
}

/// Whether the lineage of `id` has come to its end after `steps` supersessions.
pub open spec fn settles(supersedes: Map<ValueId, ValueId>, id: ValueId, steps: nat) -> bool {
    !supersedes.contains_key(follow(supersedes, id, steps))
}

/// Whether the lineage of `id` comes to an end: it runs into no cycle.
pub open spec fn lineage_ends(supersedes: Map<ValueId, ValueId>, id: ValueId) -> bool {
    exists|steps: nat| settles(supersedes, id, steps)
}

/// The latest id of the lineage of `id`: the one that nothing supersedes.
pub open spec fn canonical(supersedes: Map<ValueId, ValueId>, id: ValueId) -> ValueId {
    follow(supersedes, id, choose|steps: nat| settles(supersedes, id, steps))
}

/// Once a lineage has settled, further steps lead nowhere else.
pub proof fn lemma_follow_stable(supersedes: Map<ValueId, ValueId>, id: ValueId, steps: nat, more: nat)
    requires
        settles(supersedes, id, steps),
        steps <= more,
    ensures
        follow(supersedes, id, more) == follow(supersedes, id, steps),
    decreases steps,
{
    if steps != 0 && supersedes.contains_key(id) {
        lemma_follow_stable(supersedes, supersedes[id], (steps - 1) as nat, (more - 1) as nat);
    }
}

/// Any number of steps that settles a lineage leads to its canonical id.
pub proof fn lemma_canonical_is_where_it_settles(
    supersedes: Map<ValueId, ValueId>,
    id: ValueId,
    steps: nat,
)
    requires
        settles(supersedes, id, steps),
    ensures
        canonical(supersedes, id) == follow(supersedes, id, steps),
        !supersedes.contains_key(canonical(supersedes, id)),
{
    let chosen = choose|n: nat| settles(supersedes, id, n);
    if chosen <= steps {
        lemma_follow_stable(supersedes, id, chosen, steps);
    } else {
        lemma_follow_stable(supersedes, id, steps, chosen);
    }
}

/// A superseded id shares the canonical id of the one that supersedes it.
pub proof fn lemma_canonical_step(supersedes: Map<ValueId, ValueId>, id: ValueId)
    requires
        supersedes.contains_key(id),
        lineage_ends(supersedes, id),
    ensures
        lineage_ends(supersedes, supersedes[id]),
        canonical(supersedes, id) == canonical(supersedes, supersedes[id]),
{
    let steps = choose|n: nat| settles(supersedes, id, n);
    assert(steps > 0);
    assert(settles(supersedes, supersedes[id], (steps - 1) as nat));
    lemma_canonical_is_where_it_settles(supersedes, supersedes[id], (steps - 1) as nat);
}

/// Resolving an id that nothing supersedes gives the id itself, and
/// resolving twice gives what resolving once gives.
pub proof fn lemma_canonical_is_fixed(supersedes: Map<ValueId, ValueId>, id: ValueId)
    requires
        lineage_ends(supersedes, id),
    ensures
        !supersedes.contains_key(id) ==> canonical(supersedes, id) == id,
        !supersedes.contains_key(canonical(supersedes, id)),
        lineage_ends(supersedes, canonical(supersedes, id)),
        canonical(supersedes, canonical(supersedes, id)) == canonical(supersedes, id),
{
    let steps = choose|n: nat| settles(supersedes, id, n);
    lemma_canonical_is_where_it_settles(supersedes, id, steps);
    if !supersedes.contains_key(id) {
        assert(settles(supersedes, id, 0));
        lemma_canonical_is_where_it_settles(supersedes, id, 0);
    }
    let end = canonical(supersedes, id);
    assert(settles(supersedes, end, 0));
    lemma_canonical_is_where_it_settles(supersedes, end, 0);
}

/// Every id of a lineage resolves to the same canonical id, whichever id of
/// the lineage one starts from.
pub proof fn lemma_lineage_shares_canonical(
    supersedes: Map<ValueId, ValueId>,
    id: ValueId,
    steps: nat,
)
    requires
        lineage_ends(supersedes, id),
    ensures
        lineage_ends(supersedes, follow(supersedes, id, steps)),
        canonical(supersedes, follow(supersedes, id, steps)) == canonical(supersedes, id),
    decreases steps,
{
    if steps != 0 && supersedes.contains_key(id) {
        lemma_canonical_step(supersedes, id);
        lemma_lineage_shares_canonical(supersedes, supersedes[id], (steps - 1) as nat);
    }
}

/// Where every supersession leads to a greater id below `bound`, every
/// lineage comes to an end.
pub proof fn lemma_ascending_lineage_ends(supersedes: Map<ValueId, ValueId>, id: ValueId, bound: nat)
    requires
        forall|k: ValueId| #[trigger] supersedes.contains_key(k) ==> k < supersedes[k] < bound,
    ensures
        lineage_ends(supersedes, id),
    decreases bound - id,
{
    if supersedes.contains_key(id) {
        let next = supersedes[id];
        lemma_ascending_lineage_ends(supersedes, next, bound);
        let steps = choose|n: nat| settles(supersedes, next, n);
        assert(settles(supersedes, id, steps + 1));
    } else {
        assert(settles(supersedes, id, 0));
    }
}

/// One step more leads from where the steps so far have led to what
/// supersedes it, if anything does.
pub proof fn lemma_follow_step(supersedes: Map<ValueId, ValueId>, id: ValueId, steps: nat)
    ensures
        follow(supersedes, id, steps + 1) == if supersedes.contains_key(follow(supersedes, id, steps)) {
            supersedes[follow(supersedes, id, steps)]
        } else {
            follow(supersedes, id, steps)
        },
    decreases steps,
{
    reveal_with_fuel(follow, 2);
    if steps > 0 && supersedes.contains_key(id) {
        lemma_follow_step(supersedes, supersedes[id], (steps - 1) as nat);
    }
}

/// Where two numbers of steps lead to the same id, so do the two with any
/// number of steps added to both.
proof fn lemma_follow_repeats(supersedes: Map<ValueId, ValueId>, id: ValueId, i: nat, j: nat, more: nat)
    requires
        follow(supersedes, id, i) == follow(supersedes, id, j),
    ensures
        follow(supersedes, id, i + more) == follow(supersedes, id, j + more),
    decreases more,
{
    if more > 0 {
        lemma_follow_repeats(supersedes, id, i, j, (more - 1) as nat);
        lemma_follow_step(supersedes, id, (i + more - 1) as nat);
        lemma_follow_step(supersedes, id, (j + more - 1) as nat);
    }
}

/// A lineage that has not settled has not settled any earlier.
proof fn lemma_unsettled_before(supersedes: Map<ValueId, ValueId>, id: ValueId, steps: nat, fewer: nat)
    requires
        !settles(supersedes, id, steps),
        fewer <= steps,
    ensures
        !settles(supersedes, id, fewer),
{
    if settles(supersedes, id, fewer) {
        lemma_follow_stable(supersedes, id, fewer, steps);
    }
}

/// A lineage that comes back to an id it has been at never settles.
proof fn lemma_circle_never_settles(supersedes: Map<ValueId, ValueId>, id: ValueId, i: nat, j: nat, steps: nat)
    requires
        i < j,
        follow(supersedes, id, i) == follow(supersedes, id, j),
        !settles(supersedes, id, j),
    ensures
        !settles(supersedes, id, steps),
    decreases steps,
{
    if steps <= j {
        lemma_unsettled_before(supersedes, id, j, steps);
    } else {
        lemma_follow_repeats(supersedes, id, i, j, (steps - j) as nat);
        lemma_circle_never_settles(supersedes, id, i, j, (steps - (j - i)) as nat);
    }
}

/// A lineage that comes to an end does so within as many steps as there are
/// supersessions: it passes no id twice.
pub proof fn lemma_lineage_is_short(supersedes: Map<ValueId, ValueId>, id: ValueId)
    requires
        supersedes.dom().finite(),
        lineage_ends(supersedes, id),
    ensures
        settles(supersedes, id, supersedes.dom().len()),
{
    let limit = supersedes.dom().len();
    if !settles(supersedes, id, limit) {
        let chain = Seq::new(limit + 1, |k: int| follow(supersedes, id, k as nat));
        assert forall|k: int| 0 <= k < chain.len() implies supersedes.dom().contains(#[trigger] chain[k]) by {
            lemma_unsettled_before(supersedes, id, limit, k as nat);
        }
        if chain.no_duplicates() {
            chain.unique_seq_to_set();
            assert(chain.to_set().subset_of(supersedes.dom())) by {
                assert forall|v: ValueId| chain.to_set().contains(v) implies supersedes.dom().contains(v) by {
                    let k = choose|k: int| 0 <= k < chain.len() && chain[k] == v;
                    assert(supersedes.dom().contains(chain[k]));
                }
            }
            vstd::set_lib::lemma_len_subset(chain.to_set(), supersedes.dom());
        } else {
            let (a, b) = choose|a: int, b: int|
                0 <= a < chain.len() && 0 <= b < chain.len() && a != b && chain[a] == chain[b];
            let i = if a < b {
                a as nat
            } else {
                b as nat
            };
            let j = if a < b {
                b as nat
            } else {
                a as nat
            };
            assert(chain[i as int] == chain[j as int]);
            lemma_unsettled_before(supersedes, id, limit, j);
            let end = choose|steps: nat| settles(supersedes, id, steps);
            lemma_circle_never_settles(supersedes, id, i, j, end);
        }
    }
}

/// Follows the lineage of `id` for `limit` supersessions at most, and gives
/// its latest id if that is where it ends.
pub fn settle(id: ValueId, supersedes: &BTreeMap<ValueId, ValueId>, limit: usize) -> (end: Option<ValueId>)
    ensures
        match end {
            Some(latest) => settles(supersedes@, id, limit as nat) && latest == canonical(supersedes@, id),
            None => !settles(supersedes@, id, limit as nat),
        },
{
    let mut current: ValueId = id;
    let mut steps: usize = 0;
    loop
        invariant
            steps <= limit,
            current == follow(supersedes@, id, steps as nat),
        decreases limit - steps,
    {
        match supersedes.get(&current) {
            None => {
                proof {
                    lemma_follow_stable(supersedes@, id, steps as nat, limit as nat);
                    lemma_canonical_is_where_it_settles(supersedes@, id, steps as nat);
                }
                return Some(current);
            },
            Some(next) => {
                if steps == limit {
                    return None;
                }
                proof {
                    lemma_follow_step(supersedes@, id, steps as nat);
                }
                current = *next;
                steps += 1;
            },
        }
    }
}

/// Follows the lineage of `array_id` for the `steps` supersessions that
/// settle it.
fn follow_within(
    array_id: ValueId,
    mapped_slice_values: &BTreeMap<ValueId, ValueId>,
    new_array_id: &mut ValueId,
    Ghost(steps): Ghost<nat>,
)
    requires
        settles(mapped_slice_values@, array_id, steps),
    ensures
        *final(new_array_id) == if mapped_slice_values@.contains_key(array_id) {
            follow(mapped_slice_values@, array_id, steps)
        } else {
            *old(new_array_id)
        },
    decreases steps,
{
    if let Some(value) = mapped_slice_values.get(&array_id) {
        let next: ValueId = *value;
        *new_array_id = next;
        assert(steps > 0);
        follow_within(next, mapped_slice_values, new_array_id, Ghost((steps - 1) as nat));
    }
}

impl Context {
    /// Finds the latest id of the lineage of `array_id` and stores it in
    /// `new_array_id`. Where nothing supersedes `array_id`, `new_array_id`
    /// is left as it was.
    pub fn follow_mapped_slice_values(
        array_id: ValueId,
        mapped_slice_values: &BTreeMap<ValueId, ValueId>,
        new_array_id: &mut ValueId,
    )
        requires
            lineage_ends(mapped_slice_values@, array_id),
        ensures
            *final(new_array_id) == if mapped_slice_values@.contains_key(array_id) {
                canonical(mapped_slice_values@, array_id)
            } else {
                *old(new_array_id)
            },
    {
        let ghost steps = choose|n: nat| settles(mapped_slice_values@, array_id, n);
        follow_within(array_id, mapped_slice_values, new_array_id, Ghost(steps));
    }
}

} // verus!
