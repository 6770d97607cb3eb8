//! Tracking of slice sizes over the instructions of one block.

use crate::context::Context;
use crate::instruction::{Instruction, InstructionView};
use crate::sizes::{records, table_get, table_insert, table_new, RecordView, SizeRecord, SizeTable};
use crate::types::{Type, TypeView};
use crate::value::{extends, type_in, InstructionId, Intrinsic, Value, ValueId, ValueView};
use crate::vector::{vector_get, vector_items, vector_len};
use std::collections::BTreeMap;
use vstd::prelude::*;

verus! {

/// What is known of the slices of a block: a size record for each slice met,
/// the arrays whose accesses must be padded, in the order they were met, and
/// which value superseded which.
pub ghost struct Tracking {
    pub sizes: Map<ValueId, RecordView>,
    pub seen: Seq<ValueId>,
    pub supersedes: Map<ValueId, ValueId>,
}

impl Tracking {
    /// Nothing is known before the first instruction.
    pub open spec fn empty() -> Tracking {
        Tracking { sizes: Map::empty(), seen: Seq::empty(), supersedes: Map::empty() }
    }
}

/// The largest length recorded for any of `ids`; zero where there is none.
pub open spec fn largest(sizes: Map<ValueId, RecordView>, ids: Seq<ValueId>) -> nat
    decreases ids.len(),
{
    if ids.len() == 0 {
        0
    } else {
        let rest = largest(sizes, ids.drop_last());
        let last = sizes[ids.last()].max_length;
        if last > rest {
            last
        } else {
            rest
        }
    }
}

/// The records after every one of `ids` that was recorded shorter than `max`
/// has been raised to `max`.
pub open spec fn raised(sizes: Map<ValueId, RecordView>, ids: Seq<ValueId>, max: nat) -> Map<
    ValueId,
    RecordView,
> {
    Map::new(
        |id: ValueId| sizes.contains_key(id),
        |id: ValueId|
            if ids.contains(id) && sizes[id].max_length < max {
                RecordView { max_length: max, inner: sizes[id].inner }
            } else {
                sizes[id]
            },
    )
}

/// The slices found among the first `n` elements of the array `owner`, and the
/// records after each of them has been sized in turn. `None` where sizing one
/// of them fails.
pub open spec fn gathered(
    values: Seq<ValueView>,
    owner: ValueId,
    sizes: Map<ValueId, RecordView>,
    n: nat,
) -> Option<(Seq<ValueId>, Map<ValueId, RecordView>)>
    decreases owner, 0nat, n,
{
    if n == 0 {
        Some((Seq::empty(), sizes))
    } else {
        match gathered(values, owner, sizes, (n - 1) as nat) {
            None => None,
            Some((inner, before)) => {
                let element = values[owner as int].items()[n - 1];
                if element >= owner {
                    None
                } else if type_in(values, element) is Slice {
                    match sized(values, element, before) {
                        None => None,
                        Some(after) => Some((inner.push(element), after)),
                    }
                } else {
                    Some((inner, before))
                }
            },
        }
    }
}

/// The records after the slice constant `array_id` has been sized: each slice
/// nested in it has its record, the slices directly inside it are raised to
/// their common maximum, and `array_id` is recorded with its own length.
/// Anything but a slice constant leaves the records as they are. `None` where
/// sizing cannot go on: a slice inside is no constant and has no record, the
/// slice has no element type, or the store is not well formed.
pub open spec fn sized(
    values: Seq<ValueView>,
    array_id: ValueId,
    sizes: Map<ValueId, RecordView>,
) -> Option<Map<ValueId, RecordView>>
    decreases array_id, 1nat, 0nat,
{
    if array_id >= values.len() {
        None
    } else {
        match values[array_id as int] {
            ValueView::Array { array, typ: TypeView::Slice(elements) } => {
                if elements.len() == 0 {
                    None
                } else {
                    match gathered(values, array_id, sizes, array.len()) {
                        None => None,
                        Some((inner, found)) => {
                            if forall|k: int| 0 <= k < inner.len() ==> found.contains_key(#[trigger] inner[k]) {
                                Some(
                                    raised(found, inner, largest(found, inner)).insert(
                                        array_id,
                                        RecordView {
                                            max_length: array.len() / elements.len(),
                                            inner,
                                        },
                                    ),
                                )
                            } else {
                                None
                            }
                        },
                    }
                }
            },
            _ => Some(sizes),
        }
    }
}

/// Gathering fewer elements succeeds where gathering more does.
pub proof fn lemma_gathered_prefix(
    values: Seq<ValueView>,
    owner: ValueId,
    sizes: Map<ValueId, RecordView>,
    n: nat,
    m: nat,
)
    requires
        gathered(values, owner, sizes, n) is Some,
        m <= n,
    ensures
        gathered(values, owner, sizes, m) is Some,
    decreases n,
{
    if m < n {
        lemma_gathered_prefix(values, owner, sizes, (n - 1) as nat, m);
    }
}

/// The slices gathered from an array are elements of it, older than it.
pub proof fn lemma_gathered_are_older(
    values: Seq<ValueView>,
    owner: ValueId,
    sizes: Map<ValueId, RecordView>,
    n: nat,
)
    requires
        gathered(values, owner, sizes, n) is Some,
    ensures
        forall|k: int|
            0 <= k < gathered(values, owner, sizes, n).unwrap().0.len() ==> #[trigger] gathered(
                values,
                owner,
                sizes,
                n,
            ).unwrap().0[k] < owner,
    decreases n,
{
    if n > 0 {
        lemma_gathered_are_older(values, owner, sizes, (n - 1) as nat);
    }
}

/// The slices gathered from the first `n` elements of an array are the
/// elements among them whose type is a slice.
pub proof fn lemma_gathered_are_the_slices(
    values: Seq<ValueView>,
    owner: ValueId,
    sizes: Map<ValueId, RecordView>,
    n: nat,
)
    requires
        gathered(values, owner, sizes, n) is Some,
        n <= values[owner as int].items().len(),
    ensures
        forall|j: int|
            0 <= j < n && type_in(values, #[trigger] values[owner as int].items()[j]) is Slice ==> gathered(
                values,
                owner,
                sizes,
                n,
            ).unwrap().0.contains(values[owner as int].items()[j]),
        forall|k: int|
            0 <= k < gathered(values, owner, sizes, n).unwrap().0.len() ==> type_in(
                values,
                #[trigger] gathered(values, owner, sizes, n).unwrap().0[k],
            ) is Slice && exists|j: int|
                0 <= j < n && values[owner as int].items()[j] == gathered(values, owner, sizes, n).unwrap().0[k],
    decreases n,
{
    if n > 0 {
        lemma_gathered_are_the_slices(values, owner, sizes, (n - 1) as nat);
        let items = values[owner as int].items();
        let before = gathered(values, owner, sizes, (n - 1) as nat).unwrap().0;
        let after = gathered(values, owner, sizes, n).unwrap().0;
        let element = items[n - 1];
        assert forall|j: int| 0 <= j < n && type_in(values, #[trigger] items[j]) is Slice implies after.contains(
            items[j],
        ) by {
            if j < n - 1 {
                let at = choose|at: int| 0 <= at < before.len() && before[at] == items[j];
                assert(after[at] == items[j]);
            } else {
                assert(after[after.len() - 1] == element);
            }
        }
        assert forall|k: int| 0 <= k < after.len() implies type_in(values, #[trigger] after[k]) is Slice
            && exists|j: int| 0 <= j < n && items[j] == after[k] by {
            if k < before.len() {
                assert(after[k] == before[k]);
                let j = choose|j: int| 0 <= j < n - 1 && items[j] == before[k];
                assert(items[j] == after[k]);
            } else {
                assert(items[n - 1] == after[k]);
            }
        }
    }
}

/// After a slice constant has been sized, its record holds its own length,
/// counted in elements, and lists the slices directly inside it: those of
/// its elements whose type is a slice.
pub proof fn lemma_sized_record(values: Seq<ValueView>, array_id: ValueId, sizes: Map<ValueId, RecordView>)
    requires
        array_id < values.len(),
        values[array_id as int] is Array,
        values[array_id as int].type_of() is Slice,
        sized(values, array_id, sizes) is Some,
    ensures
        ({
            let after = sized(values, array_id, sizes).unwrap();
            let items = values[array_id as int].items();
            let arity = values[array_id as int].type_of().elements().len();
            &&& after.contains_key(array_id)
            &&& after[array_id].max_length == items.len() / arity
            &&& forall|j: int|
                0 <= j < items.len() && type_in(values, #[trigger] items[j]) is Slice ==> after[array_id].inner.contains(
                    items[j],
                )
            &&& forall|k: int|
                0 <= k < after[array_id].inner.len() ==> type_in(values, #[trigger] after[array_id].inner[k]) is Slice
                    && items.contains(after[array_id].inner[k])
        }),
{
    let items = values[array_id as int].items();
    lemma_gathered_are_the_slices(values, array_id, sizes, items.len());
    let inner = gathered(values, array_id, sizes, items.len()).unwrap().0;
    assert forall|k: int| 0 <= k < inner.len() implies type_in(values, #[trigger] inner[k]) is Slice
        && items.contains(inner[k]) by {
        let j = choose|j: int| 0 <= j < items.len() && items[j] == inner[k];
        assert(items[j] == inner[k]);
    }
}

/// No length recorded for one of `ids` is above the largest.
pub proof fn lemma_largest_bounds(sizes: Map<ValueId, RecordView>, ids: Seq<ValueId>, k: int)
    requires
        0 <= k < ids.len(),
    ensures
        sizes[ids[k]].max_length <= largest(sizes, ids),
    decreases ids.len(),
{
    if k < ids.len() - 1 {
        lemma_largest_bounds(sizes, ids.drop_last(), k);
    }
}

/// After a slice constant has been sized, the slices directly inside it share
/// one recorded length: the largest that any of them had.
pub proof fn lemma_siblings_share_bound(
    values: Seq<ValueView>,
    array_id: ValueId,
    sizes: Map<ValueId, RecordView>,
    j: int,
    k: int,
)
    requires
        array_id < values.len(),
        values[array_id as int] is Array,
        values[array_id as int].type_of() is Slice,
        sized(values, array_id, sizes) is Some,
        0 <= j < sized(values, array_id, sizes).unwrap()[array_id].inner.len(),
        0 <= k < sized(values, array_id, sizes).unwrap()[array_id].inner.len(),
    ensures
        ({
            let after = sized(values, array_id, sizes).unwrap();
            let inner = after[array_id].inner;
            &&& after.contains_key(inner[j])
            &&& after.contains_key(inner[k])
            &&& after[inner[j]].max_length == after[inner[k]].max_length
        }),
{
    let array = values[array_id as int].items();
    let (inner, found) = gathered(values, array_id, sizes, array.len()).unwrap();
    lemma_gathered_are_older(values, array_id, sizes, array.len());
    lemma_largest_bounds(found, inner, j);
    lemma_largest_bounds(found, inner, k);
    assert(inner.contains(inner[j]));
    assert(inner.contains(inner[k]));
}

/// The slice that a call of `intrinsic` changes: whether it grows, and which
/// result of the call is the changed slice. `None` for every other intrinsic.
/// The slice itself is always the second argument.
pub open spec fn slice_operation(intrinsic: Intrinsic) -> Option<(bool, nat)> {
    match intrinsic {
        Intrinsic::SlicePushBack | Intrinsic::SlicePushFront | Intrinsic::SliceInsert => Some(
            (true, 1nat),
        ),
        Intrinsic::SlicePopBack | Intrinsic::SliceRemove => Some((false, 1nat)),
        Intrinsic::SlicePopFront => Some((false, 2nat)),
        _ => None,
    }
}

/// The tracking after the array that an instruction reads or writes has been
/// looked at: a constant whose type holds a slice is marked as seen and sized.
pub open spec fn seeded(values: Seq<ValueView>, array: ValueId, before: Tracking) -> Option<Tracking> {
    if array < values.len() && values[array as int] is Array && values[array as int].type_of().contains_slice_element() {
        match sized(values, array, before.sizes) {
            None => None,
            Some(sizes) => Some(Tracking { sizes, seen: before.seen.push(array), ..before }),
        }
    } else {
        Some(before)
    }
}

/// The records after the record of each of the first `n` of `sources` has
/// been copied onto `target`, one after the other. `None` where one of them
/// has no record when its turn comes.
pub open spec fn copied_onto(
    sizes: Map<ValueId, RecordView>,
    sources: Seq<ValueId>,
    target: ValueId,
    n: nat,
) -> Option<Map<ValueId, RecordView>>
    decreases n,
{
    if n == 0 {
        Some(sizes)
    } else {
        match copied_onto(sizes, sources, target, (n - 1) as nat) {
            None => None,
            Some(before) => {
                let source = sources[n - 1];
                if before.contains_key(source) {
                    Some(before.insert(target, before[source]))
                } else {
                    None
                }
            },
        }
    }
}

/// The tracking after a read of `array` that gives `results`.
pub open spec fn read_effect(
    values: Seq<ValueView>,
    array: ValueId,
    results: Seq<ValueId>,
    before: Tracking,
) -> Option<Tracking> {
    match seeded(values, array, before) {
        None => None,
        Some(seed) => {
            if results.len() == 0 {
                None
            } else if type_in(values, results[0]).contains_slice_element() && seed.sizes.contains_key(array) {
                let result = results[0];
                let inner = seed.sizes[array].inner.push(result);
                let listed = seed.sizes.insert(
                    array,
                    RecordView { max_length: seed.sizes[array].max_length, inner },
                );
                match copied_onto(listed, inner, result, inner.len()) {
                    None => None,
                    Some(sizes) => Some(
                        Tracking { sizes, seen: seed.seen, supersedes: seed.supersedes.insert(array, result) },
                    ),
                }
            } else {
                Some(seed)
            }
        },
    }
}

/// The tracking after a write of `value` into `array` that gives `results`.
pub open spec fn write_effect(
    values: Seq<ValueView>,
    array: ValueId,
    value: ValueId,
    results: Seq<ValueId>,
    before: Tracking,
) -> Option<Tracking> {
    match seeded(values, array, before) {
        None => None,
        Some(seed) => {
            let nested = type_in(values, value).contains_slice_element();
            let valued = if nested {
                sized(values, value, seed.sizes)
            } else {
                Some(seed.sizes)
            };
            match valued {
                None => None,
                Some(sizes) => {
                    if nested && (!sizes.contains_key(array) || results.len() == 0) {
                        None
                    } else {
                        let listed = if nested {
                            sizes.insert(
                                array,
                                RecordView {
                                    max_length: sizes[array].max_length,
                                    inner: sizes[array].inner.push(value),
                                },
                            )
                        } else {
                            sizes
                        };
                        let linked = if nested {
                            seed.supersedes.insert(value, results[0])
                        } else {
                            seed.supersedes
                        };
                        if listed.contains_key(array) {
                            if results.len() == 0 {
                                None
                            } else {
                                Some(
                                    Tracking {
                                        sizes: listed.insert(results[0], listed[array]),
                                        seen: seed.seen,
                                        supersedes: linked.insert(array, results[0]),
                                    },
                                )
                            }
                        } else {
                            Some(Tracking { sizes: listed, seen: seed.seen, supersedes: linked })
                        }
                    }
                },
            }
        },
    }
}

/// The tracking after a call of `intrinsic` with `arguments` that gives
/// `results`. A slice that grows has its recorded length raised by one; a
/// slice that shrinks keeps its recorded length. Either way the record goes
/// to the result as well, which supersedes the argument.
pub open spec fn call_effect(
    intrinsic: Intrinsic,
    arguments: Seq<ValueId>,
    results: Seq<ValueId>,
    before: Tracking,
) -> Option<Tracking> {
    match slice_operation(intrinsic) {
        None => Some(before),
        Some((grows, result_index)) => {
            if arguments.len() < 2 {
                None
            } else if before.sizes.contains_key(arguments[1]) {
                let slice = arguments[1];
                let known = before.sizes[slice];
                if (grows && known.max_length >= usize::MAX) || results.len() <= result_index {
                    None
                } else {
                    let record = if grows {
                        RecordView { max_length: known.max_length + 1, inner: known.inner }
                    } else {
                        known
                    };
                    let result = results[result_index as int];
                    Some(
                        Tracking {
                            sizes: before.sizes.insert(slice, record).insert(result, record),
                            seen: before.seen,
                            supersedes: before.supersedes.insert(slice, result),
                        },
                    )
                }
            } else {
                Some(before)
            }
        },
    }
}

/// The tracking after one instruction. `None` where tracking cannot go on:
/// a record that is needed is missing, the instruction lacks the argument or
/// the result that its kind calls for, or a length would overflow.
pub open spec fn instruction_effect(
    values: Seq<ValueView>,
    instruction: InstructionView,
    results: Seq<ValueId>,
    before: Tracking,
) -> Option<Tracking> {
    match instruction {
        InstructionView::ArrayGet { array, .. } => read_effect(values, array, results, before),
        InstructionView::ArraySet { array, value, .. } => write_effect(
            values,
            array,
            value,
            results,
            before,
        ),
        InstructionView::Call { func, arguments } => {
            if func < values.len() && values[func as int] is Intrinsic {
                call_effect(values[func as int]->Intrinsic_0, arguments, results, before)
            } else {
                Some(before)
            }
        },
        _ => Some(before),
    }
}

/// The tracking after the first `n` of the instructions `ids`, taken in
/// order from nothing known. `instructions` and `results` hold every
/// instruction of the function and its results.
pub open spec fn block_effect(
    values: Seq<ValueView>,
    instructions: Seq<InstructionView>,
    results: Seq<Seq<ValueId>>,
    ids: Seq<InstructionId>,
    n: nat,
) -> Option<Tracking>
    decreases n,
{
    if n == 0 {
        Some(Tracking::empty())
    } else {
        match block_effect(values, instructions, results, ids, (n - 1) as nat) {
            None => None,
            Some(before) => {
                let id = ids[n - 1];
                if id < instructions.len() && id < results.len() {
                    instruction_effect(values, instructions[id as int], results[id as int], before)
                } else {
                    None
                }
            },
        }
    }
}

/// Tracking fewer instructions succeeds where tracking more does.
pub proof fn lemma_block_effect_prefix(
    values: Seq<ValueView>,
    instructions: Seq<InstructionView>,
    results: Seq<Seq<ValueId>>,
    ids: Seq<InstructionId>,
    n: nat,
    m: nat,
)
    requires
        block_effect(values, instructions, results, ids, n) is Some,
        m <= n,
    ensures
        block_effect(values, instructions, results, ids, m) is Some,
    decreases n,
{
    if m < n {
        lemma_block_effect_prefix(values, instructions, results, ids, (n - 1) as nat, m);
    }
}

/// Sizing a slice constant looks only at values that were made before it:
/// it gives the same in a store that has grown.
pub proof fn lemma_sized_stays(
    shorter: Seq<ValueView>,
    longer: Seq<ValueView>,
    array_id: ValueId,
    sizes: Map<ValueId, RecordView>,
)
    requires
        extends(shorter, longer),
        array_id < shorter.len(),
    ensures
        sized(longer, array_id, sizes) == sized(shorter, array_id, sizes),
    decreases array_id, 1nat, 0nat,
{
    lemma_gathered_stays(shorter, longer, array_id, sizes, shorter[array_id as int].items().len());
}

/// Gathering the slices of an array looks only at values that were made
/// before it: it gives the same in a store that has grown.
pub proof fn lemma_gathered_stays(
    shorter: Seq<ValueView>,
    longer: Seq<ValueView>,
    owner: ValueId,
    sizes: Map<ValueId, RecordView>,
    n: nat,
)
    requires
        extends(shorter, longer),
        owner < shorter.len(),
    ensures
        gathered(longer, owner, sizes, n) == gathered(shorter, owner, sizes, n),
    decreases owner, 0nat, n,
{
    if n > 0 {
        lemma_gathered_stays(shorter, longer, owner, sizes, (n - 1) as nat);
        match gathered(shorter, owner, sizes, (n - 1) as nat) {
            None => {},
            Some((inner, before)) => {
                let element = shorter[owner as int].items()[n - 1];
                if element < owner {
                    lemma_sized_stays(shorter, longer, element, before);
                }
            },
        }
    }
}

/// Tracking an instruction looks only at the values it names and at what
/// they are made of: it gives the same in a store that has grown.
pub proof fn lemma_instruction_effect_stays(
    shorter: Seq<ValueView>,
    longer: Seq<ValueView>,
    instruction: InstructionView,
    results: Seq<ValueId>,
    before: Tracking,
)
    requires
        extends(shorter, longer),
        instruction.reads_below(shorter.len()),
        forall|k: int| 0 <= k < results.len() ==> results[k] < shorter.len(),
    ensures
        instruction_effect(longer, instruction, results, before) == instruction_effect(
            shorter,
            instruction,
            results,
            before,
        ),
{
    match instruction {
        InstructionView::ArrayGet { array, .. } => {
            assert(instruction.operands()[0] == array);
            lemma_sized_stays(shorter, longer, array, before.sizes);
        },
        InstructionView::ArraySet { array, value, .. } => {
            assert(instruction.operands()[0] == array);
            assert(instruction.operands()[2] == value);
            lemma_sized_stays(shorter, longer, array, before.sizes);
            match seeded(shorter, array, before) {
                Some(seed) => {
                    lemma_sized_stays(shorter, longer, value, seed.sizes);
                },
                None => {},
            }
        },
        InstructionView::Call { func, .. } => {
            assert(instruction.operands()[0] == func);
        },
        _ => {},
    }
}

/// Tracking a block gives the same once the function has more values,
/// instructions and results, as long as those it had keep their ids.
pub proof fn lemma_block_effect_stays(
    values: Seq<ValueView>,
    instructions: Seq<InstructionView>,
    results: Seq<Seq<ValueId>>,
    more_values: Seq<ValueView>,
    more_instructions: Seq<InstructionView>,
    more_results: Seq<Seq<ValueId>>,
    ids: Seq<InstructionId>,
    n: nat,
)
    requires
        extends(values, more_values),
        instructions.is_prefix_of(more_instructions),
        results.is_prefix_of(more_results),
        instructions.len() == results.len(),
        n <= ids.len(),
        forall|k: int| 0 <= k < ids.len() ==> #[trigger] ids[k] < instructions.len(),
        forall|i: int| 0 <= i < instructions.len() ==> (#[trigger] instructions[i]).reads_below(values.len()),
        forall|i: int, k: int|
            0 <= i < results.len() && 0 <= k < results[i].len() ==> #[trigger] results[i][k] < values.len(),
    ensures
        block_effect(more_values, more_instructions, more_results, ids, n) == block_effect(
            values,
            instructions,
            results,
            ids,
            n,
        ),
    decreases n,
{
    if n > 0 {
        lemma_block_effect_stays(
            values,
            instructions,
            results,
            more_values,
            more_instructions,
            more_results,
            ids,
            (n - 1) as nat,
        );
        let id = ids[n - 1];
        assert(more_instructions[id as int] == instructions[id as int]);
        assert(more_results[id as int] == results[id as int]);
        match block_effect(values, instructions, results, ids, (n - 1) as nat) {
            Some(before) => {
                assert forall|k: int| 0 <= k < results[id as int].len() implies results[id as int][k]
                    < values.len() by {}
                lemma_instruction_effect_stays(
                    values,
                    more_values,
                    instructions[id as int],
                    results[id as int],
                    before,
                );
            },
            None => {},
        }
    }
}

/// Sizing a slice adds finitely many records.
pub proof fn lemma_sized_is_finite(values: Seq<ValueView>, array_id: ValueId, sizes: Map<ValueId, RecordView>)
    requires
        sizes.dom().finite(),
        sized(values, array_id, sizes) is Some,
    ensures
        sized(values, array_id, sizes).unwrap().dom().finite(),
    decreases array_id, 1nat, 0nat,
{
    if array_id < values.len() {
        match values[array_id as int] {
            ValueView::Array { array, typ: TypeView::Slice(elements) } => {
                lemma_gathered_is_finite(values, array_id, sizes, array.len());
                let (inner, found) = gathered(values, array_id, sizes, array.len()).unwrap();
                assert(raised(found, inner, largest(found, inner)).dom() =~= found.dom());
            },
            _ => {},
        }
    }
}

/// Gathering the slices of an array adds finitely many records.
pub proof fn lemma_gathered_is_finite(
    values: Seq<ValueView>,
    owner: ValueId,
    sizes: Map<ValueId, RecordView>,
    n: nat,
)
    requires
        sizes.dom().finite(),
        gathered(values, owner, sizes, n) is Some,
    ensures
        gathered(values, owner, sizes, n).unwrap().1.dom().finite(),
    decreases owner, 0nat, n,
{
    if n > 0 {
        lemma_gathered_is_finite(values, owner, sizes, (n - 1) as nat);
        let (inner, before) = gathered(values, owner, sizes, (n - 1) as nat).unwrap();
        let element = values[owner as int].items()[n - 1];
        if element < owner && type_in(values, element) is Slice {
            lemma_sized_is_finite(values, element, before);
        }
    }
}

/// Copying records onto a target adds one record at most.
pub proof fn lemma_copied_onto_is_finite(
    sizes: Map<ValueId, RecordView>,
    sources: Seq<ValueId>,
    target: ValueId,
    n: nat,
)
    requires
        sizes.dom().finite(),
        copied_onto(sizes, sources, target, n) is Some,
    ensures
        copied_onto(sizes, sources, target, n).unwrap().dom().finite(),
    decreases n,
{
    if n > 0 {
        lemma_copied_onto_is_finite(sizes, sources, target, (n - 1) as nat);
    }
}

/// Tracking an instruction adds finitely many records and supersessions.
pub proof fn lemma_instruction_effect_is_finite(
    values: Seq<ValueView>,
    instruction: InstructionView,
    results: Seq<ValueId>,
    before: Tracking,
)
    requires
        before.sizes.dom().finite(),
        before.supersedes.dom().finite(),
        instruction_effect(values, instruction, results, before) is Some,
    ensures
        instruction_effect(values, instruction, results, before).unwrap().sizes.dom().finite(),
        instruction_effect(values, instruction, results, before).unwrap().supersedes.dom().finite(),
{
    match instruction {
        InstructionView::ArrayGet { array, .. } => {
            if array < values.len() {
                lemma_sized_is_finite_if_some(values, array, before.sizes);
            }
            let seed = seeded(values, array, before).unwrap();
            if type_in(values, results[0]).contains_slice_element() && seed.sizes.contains_key(array) {
                let inner = seed.sizes[array].inner.push(results[0]);
                let listed = seed.sizes.insert(
                    array,
                    RecordView { max_length: seed.sizes[array].max_length, inner },
                );
                lemma_copied_onto_is_finite(listed, inner, results[0], inner.len());
            }
        },
        InstructionView::ArraySet { array, value, .. } => {
            if array < values.len() {
                lemma_sized_is_finite_if_some(values, array, before.sizes);
            }
            let seed = seeded(values, array, before).unwrap();
            lemma_sized_is_finite_if_some(values, value, seed.sizes);
        },
        _ => {},
    }
}

/// Sizing a slice adds finitely many records, where it succeeds.
proof fn lemma_sized_is_finite_if_some(values: Seq<ValueView>, array_id: ValueId, sizes: Map<ValueId, RecordView>)
    requires
        sizes.dom().finite(),
    ensures
        sized(values, array_id, sizes) matches Some(after) ==> after.dom().finite(),
{
    if sized(values, array_id, sizes) is Some {
        lemma_sized_is_finite(values, array_id, sizes);
    }
}

/// Tracking a block finds finitely many records and supersessions.
pub proof fn lemma_block_effect_is_finite(
    values: Seq<ValueView>,
    instructions: Seq<InstructionView>,
    results: Seq<Seq<ValueId>>,
    ids: Seq<InstructionId>,
    n: nat,
)
    requires
        block_effect(values, instructions, results, ids, n) is Some,
    ensures
        block_effect(values, instructions, results, ids, n).unwrap().sizes.dom().finite(),
        block_effect(values, instructions, results, ids, n).unwrap().supersedes.dom().finite(),
    decreases n,
{
    if n > 0 {
        lemma_block_effect_is_finite(values, instructions, results, ids, (n - 1) as nat);
        let before = block_effect(values, instructions, results, ids, (n - 1) as nat).unwrap();
        let id = ids[n - 1];
        lemma_instruction_effect_is_finite(values, instructions[id as int], results[id as int], before);
    }
}

/// A slice that shrinks keeps the length recorded for it, and its result
/// is recorded with the same length.
pub proof fn lemma_shrink_keeps_bound(
    intrinsic: Intrinsic,
    arguments: Seq<ValueId>,
    results: Seq<ValueId>,
    before: Tracking,
)
    requires
        intrinsic == Intrinsic::SlicePopBack || intrinsic == Intrinsic::SlicePopFront || intrinsic
            == Intrinsic::SliceRemove,
        call_effect(intrinsic, arguments, results, before) is Some,
        before.sizes.contains_key(arguments[1]),
    ensures
        ({
            let after = call_effect(intrinsic, arguments, results, before).unwrap();
            let result = results[slice_operation(intrinsic).unwrap().1 as int];
            &&& after.sizes.contains_key(result)
            &&& after.sizes[result].max_length == before.sizes[arguments[1]].max_length
            &&& after.supersedes[arguments[1]] == result
        }),
{
}

/// A slice that grows has the length recorded for it raised by one, and its
/// result is recorded with the raised length.
pub proof fn lemma_grow_adds_one(
    intrinsic: Intrinsic,
    arguments: Seq<ValueId>,
    results: Seq<ValueId>,
    before: Tracking,
)
    requires
        intrinsic == Intrinsic::SlicePushBack || intrinsic == Intrinsic::SlicePushFront || intrinsic
            == Intrinsic::SliceInsert,
        call_effect(intrinsic, arguments, results, before) is Some,
        before.sizes.contains_key(arguments[1]),
    ensures
        ({
            let after = call_effect(intrinsic, arguments, results, before).unwrap();
            &&& after.sizes.contains_key(results[1])
            &&& after.sizes[results[1]].max_length == before.sizes[arguments[1]].max_length + 1
            &&& after.supersedes[arguments[1]] == results[1]
        }),
{
}

/// After two pushes and a pop, each on the result of the one before, the
/// length recorded for the last result is the one recorded after the second
/// push: two more than the slice started with.
pub proof fn lemma_push_push_pop(
    first: Seq<ValueId>,
    first_results: Seq<ValueId>,
    second: Seq<ValueId>,
    second_results: Seq<ValueId>,
    third: Seq<ValueId>,
    third_results: Seq<ValueId>,
    before: Tracking,
)
    requires
        first.len() >= 2,
        before.sizes.contains_key(first[1]),
        call_effect(Intrinsic::SlicePushBack, first, first_results, before) is Some,
        second.len() >= 2 && second[1] == first_results[1],
        call_effect(
            Intrinsic::SlicePushBack,
            second,
            second_results,
            call_effect(Intrinsic::SlicePushBack, first, first_results, before).unwrap(),
        ) is Some,
        third.len() >= 2 && third[1] == second_results[1],
        call_effect(
            Intrinsic::SlicePopBack,
            third,
            third_results,
            call_effect(
                Intrinsic::SlicePushBack,
                second,
                second_results,
                call_effect(Intrinsic::SlicePushBack, first, first_results, before).unwrap(),
            ).unwrap(),
        ) is Some,
    ensures
        ({
            let pushed = call_effect(Intrinsic::SlicePushBack, first, first_results, before).unwrap();
            let pushed_again = call_effect(Intrinsic::SlicePushBack, second, second_results, pushed).unwrap();
            let popped = call_effect(Intrinsic::SlicePopBack, third, third_results, pushed_again).unwrap();
            &&& popped.sizes.contains_key(third_results[1])
            &&& popped.sizes[third_results[1]].max_length == pushed_again.sizes[second_results[1]].max_length
            &&& popped.sizes[third_results[1]].max_length == before.sizes[first[1]].max_length + 2
        }),
{
    let pushed = call_effect(Intrinsic::SlicePushBack, first, first_results, before).unwrap();
    lemma_grow_adds_one(Intrinsic::SlicePushBack, first, first_results, before);
    lemma_grow_adds_one(Intrinsic::SlicePushBack, second, second_results, pushed);
    let pushed_again = call_effect(Intrinsic::SlicePushBack, second, second_results, pushed).unwrap();
    lemma_shrink_keeps_bound(Intrinsic::SlicePopBack, third, third_results, pushed_again);
}

/// The slices of one block as known so far: the executable form of
/// [`Tracking`].
#[derive(Debug)]
pub struct SliceTracker {
    pub slice_sizes: SizeTable,
    pub slice_values: Vec<ValueId>,
    pub mapped_slice_values: BTreeMap<ValueId, ValueId>,
}

impl View for SliceTracker {
    type V = Tracking;

    open spec fn view(&self) -> Tracking {
        Tracking {
            sizes: records(self.slice_sizes),
            seen: self.slice_values@,
            supersedes: self.mapped_slice_values@,
        }
    }
}

impl SliceTracker {
    /// A tracker that knows nothing yet.
    pub fn new() -> (tracker: SliceTracker)
        ensures
            tracker@ == Tracking::empty(),
    {
        let tracker = SliceTracker {
            slice_sizes: table_new(),
            slice_values: Vec::new(),
            mapped_slice_values: BTreeMap::new(),
        };
        assert(tracker@.sizes =~= Map::empty());
        tracker
    }
}

/// A copy of a record.
fn copy_record(record: &SizeRecord) -> (copy: SizeRecord)
    ensures
        copy@ == record@,
{
    let copy = SizeRecord { max_length: record.max_length, inner: record.inner.clone() };
    assert(copy.inner@ =~= record.inner@);
    copy
}

/// Copying onto a target from fewer sources succeeds where copying from more
/// does.
pub proof fn lemma_copied_onto_prefix(
    sizes: Map<ValueId, RecordView>,
    sources: Seq<ValueId>,
    target: ValueId,
    n: nat,
    m: nat,
)
    requires
        copied_onto(sizes, sources, target, n) is Some,
        m <= n,
    ensures
        copied_onto(sizes, sources, target, m) is Some,
    decreases n,
{
    if m < n {
        lemma_copied_onto_prefix(sizes, sources, target, (n - 1) as nat, m);
    }
}

/// The slice that a call of `intrinsic` changes. See [`slice_operation`].
fn slice_operation_of(intrinsic: Intrinsic) -> (operation: Option<(bool, usize)>)
    ensures
        match operation {
            Some((grows, index)) => slice_operation(intrinsic) == Some((grows, index as nat)),
            None => slice_operation(intrinsic) is None,
        },
{
    match intrinsic {
        Intrinsic::SlicePushBack | Intrinsic::SlicePushFront | Intrinsic::SliceInsert => Some((true, 1)),
        Intrinsic::SlicePopBack | Intrinsic::SliceRemove => Some((false, 1)),
        Intrinsic::SlicePopFront => Some((false, 2)),
        _ => None,
    }
}

impl Context {
    /// Sizes the slice constant `array_id` and every slice nested in it, as
    /// far as that can be done, and says whether it could. See [`sized`].
    #[verifier::rlimit(50)]
    pub fn try_compute_slice_sizes(&self, array_id: ValueId, slice_sizes: &mut SizeTable) -> (done: bool)
        requires
            self.inserter.wf(),
            array_id < self.inserter@.dfg.values.len(),
        ensures
            done == (sized(self.inserter@.dfg.values, array_id, records(*old(slice_sizes))) is Some),
            done ==> sized(self.inserter@.dfg.values, array_id, records(*old(slice_sizes))) == Some(
                records(*final(slice_sizes)),
            ),
        decreases array_id,
    {
        let dfg = &self.inserter.function.dfg;
        let ghost values = dfg@.values;
        let ghost before = records(*slice_sizes);
        if let Value::Array { array, typ } = dfg.value(array_id) {
            if let Type::Slice(element_types) = typ {
                let ghost items = vector_items(*array);
                let element_size = typ.element_size();
                if element_size == 0 {
                    return false;
                }
                let length = vector_len(array);
                let len: usize = length / element_size;
                let mut inner: Vec<ValueId> = Vec::new();
                let mut k: usize = 0;
                while k < length
                    invariant
                        k <= length,
                        length == items.len(),
                        self.inserter.wf(),
                        dfg == &self.inserter.function.dfg,
                        values == dfg@.values,
                        array_id < values.len(),
                        values[array_id as int].items() == items,
                        items == vector_items(*array),
                        before == records(*old(slice_sizes)),
                        values[array_id as int] is Array,
                        values[array_id as int].type_of() is Slice,
                        values[array_id as int].type_of().elements().len() > 0,
                        gathered(values, array_id, before, k as nat) == Some(
                            (inner@, records(*slice_sizes)),
                        ),
                    decreases length - k,
                {
                    let value: ValueId = vector_get(array, k).unwrap();
                    assert(values[array_id as int].items()[k as int] < array_id);
                    if dfg.type_of_value(value).is_slice() {
                        inner.push(value);
                        if !self.try_compute_slice_sizes(value, slice_sizes) {
                            proof {
                                if gathered(values, array_id, before, length as nat) is Some {
                                    lemma_gathered_prefix(
                                        values,
                                        array_id,
                                        before,
                                        length as nat,
                                        (k + 1) as nat,
                                    );
                                }
                            }
                            return false;
                        }
                    }
                    k += 1;
                }
                let ghost found = records(*slice_sizes);
                let mut max_size: usize = 0;
                let mut k: usize = 0;
                while k < inner.len()
                    invariant
                        k <= inner.len(),
                        found == records(*slice_sizes),
                        forall|j: int| 0 <= j < k ==> found.contains_key(#[trigger] inner@[j]),
                        max_size == largest(found, inner@.take(k as int)),
                        values == self.inserter@.dfg.values,
                        array_id < values.len(),
                        before == records(*old(slice_sizes)),
                        values[array_id as int] is Array,
                        values[array_id as int].type_of() is Slice,
                        values[array_id as int].type_of().elements().len() > 0,
                        gathered(values, array_id, before, values[array_id as int].items().len()) == Some(
                            (inner@, found),
                        ),
                    decreases inner.len() - k,
                {
                    match table_get(slice_sizes, inner[k]) {
                        Some(inner_slice) => {
                            assert(inner@.take(k + 1).drop_last() == inner@.take(k as int));
                            if inner_slice.max_length > max_size {
                                max_size = inner_slice.max_length;
                            }
                        },
                        None => {
                            assert(!found.contains_key(inner@[k as int]));
                            return false;
                        },
                    }
                    k += 1;
                }
                assert(inner@.take(inner.len() as int) == inner@);
                let mut k: usize = 0;
                while k < inner.len()
                    invariant
                        k <= inner.len(),
                        forall|j: int| 0 <= j < inner.len() ==> found.contains_key(#[trigger] inner@[j]),
                        records(*slice_sizes) == raised(found, inner@.take(k as int), max_size as nat),
                    decreases inner.len() - k,
                {
                    let inner_value: ValueId = inner[k];
                    let ghost earlier = records(*slice_sizes);
                    assert(found.contains_key(inner@[k as int]));
                    assert(earlier.contains_key(inner_value));
                    let inner_slice = table_get(slice_sizes, inner_value).unwrap();
                    assert(inner_slice@ == earlier[inner_value]);
                    if inner_slice.max_length < max_size {
                        let lifted = SizeRecord { max_length: max_size, inner: inner_slice.inner.clone() };
                        assert(lifted.inner@ == inner_slice.inner@);
                        table_insert(slice_sizes, inner_value, lifted);
                    }
                    proof {
                        let shorter = inner@.take(k as int);
                        let longer = inner@.take(k + 1);
                        assert(longer == shorter.push(inner_value));
                        assert forall|id: ValueId| longer.contains(id) <==> (shorter.contains(id) || id
                            == inner_value) by {
                            if shorter.contains(id) {
                                let at = choose|at: int| 0 <= at < shorter.len() && shorter[at] == id;
                                assert(longer[at] == id);
                            }
                            if id == inner_value {
                                assert(longer[k as int] == id);
                            }
                        }
                        let now = records(*slice_sizes);
                        let goal = raised(found, longer, max_size as nat);
                        assert forall|id: ValueId| now.contains_key(id) <==> goal.contains_key(id) by {
                            assert(earlier.contains_key(id) <==> found.contains_key(id));
                        }
                        assert forall|id: ValueId| now.contains_key(id) implies now[id] == goal[id] by {
                            assert(earlier.contains_key(id));
                            if id != inner_value {
                                assert(now[id] == earlier[id]);
                            }
                        }
                        assert(now =~= goal);
                    }
                    k += 1;
                }
                assert(inner@.take(inner.len() as int) == inner@);
                table_insert(slice_sizes, array_id, SizeRecord { max_length: len, inner });
                assert(records(*slice_sizes) =~= raised(found, inner@, max_size as nat).insert(
                    array_id,
                    RecordView { max_length: len as nat, inner: inner@ },
                ));
            }
        }
        true
    }

    /// Sizes the slice constant `array_id` and every slice nested in it: each
    /// gets its record, and the slices that lie directly inside one slice are
    /// raised to their common maximum. See [`sized`].
    pub fn compute_slice_sizes(&self, array_id: ValueId, slice_sizes: &mut SizeTable)
        requires
            self.inserter.wf(),
            sized(self.inserter@.dfg.values, array_id, records(*old(slice_sizes))) is Some,
        ensures
            sized(self.inserter@.dfg.values, array_id, records(*old(slice_sizes))) == Some(
                records(*final(slice_sizes)),
            ),
    {
        let _ = self.try_compute_slice_sizes(array_id, slice_sizes);
    }

    /// Looks at the array that an instruction reads or writes. See [`seeded`].
    fn seed(&self, array: ValueId, tracker: &mut SliceTracker) -> (done: bool)
        requires
            self.inserter.wf(),
            array < self.inserter@.dfg.values.len(),
        ensures
            done == (seeded(self.inserter@.dfg.values, array, old(tracker)@) is Some),
            done ==> seeded(self.inserter@.dfg.values, array, old(tracker)@) == Some(final(tracker)@),
    {
        let dfg = &self.inserter.function.dfg;
        let is_array = match dfg.value(array) {
            Value::Array { .. } => true,
            _ => false,
        };
        if is_array && dfg.type_of_value(array).contains_slice_element() {
            tracker.slice_values.push(array);
            self.try_compute_slice_sizes(array, &mut tracker.slice_sizes)
        } else {
            true
        }
    }

    /// Tracks a read of `array`. See [`read_effect`].
    #[verifier::rlimit(50)]
    fn track_read(&self, array: ValueId, results: &Vec<ValueId>, tracker: &mut SliceTracker) -> (done: bool)
        requires
            self.inserter.wf(),
            array < self.inserter@.dfg.values.len(),
            forall|k: int| 0 <= k < results.len() ==> results[k] < self.inserter@.dfg.values.len(),
        ensures
            done == (read_effect(self.inserter@.dfg.values, array, results@, old(tracker)@) is Some),
            done ==> read_effect(self.inserter@.dfg.values, array, results@, old(tracker)@) == Some(
                final(tracker)@,
            ),
    {
        let dfg = &self.inserter.function.dfg;
        let ghost values = dfg@.values;
        if !self.seed(array, tracker) {
            return false;
        }
        let ghost seed = tracker@;
        if results.len() == 0 {
            return false;
        }
        let result: ValueId = results[0];
        if dfg.type_of_value(result).contains_slice_element() {
            if let Some(inner_sizes) = table_get(&tracker.slice_sizes, array) {
                let max_length: usize = inner_sizes.max_length;
                let mut inner = inner_sizes.inner.clone();
                assert(inner@ =~= seed.sizes[array].inner);
                inner.push(result);
                let sources = inner.clone();
                assert(sources@ =~= inner@);
                table_insert(&mut tracker.slice_sizes, array, SizeRecord { max_length, inner });
                tracker.mapped_slice_values.insert(array, result);
                let ghost listed = records(tracker.slice_sizes);
                assert(listed =~= seed.sizes.insert(
                    array,
                    RecordView { max_length: seed.sizes[array].max_length, inner: sources@ },
                ));
                let mut k: usize = 0;
                while k < sources.len()
                    invariant
                        k <= sources.len(),
                        copied_onto(listed, sources@, result, k as nat) == Some(
                            records(tracker.slice_sizes),
                        ),
                        tracker.slice_values@ == seed.seen,
                        tracker.mapped_slice_values@ == seed.supersedes.insert(array, result),
                        values == self.inserter@.dfg.values,
                        seeded(values, array, old(tracker)@) == Some(seed),
                        results.len() > 0,
                        result == results[0],
                        type_in(values, result).contains_slice_element(),
                        seed.sizes.contains_key(array),
                        sources@ == seed.sizes[array].inner.push(result),
                        listed == seed.sizes.insert(
                            array,
                            RecordView { max_length: seed.sizes[array].max_length, inner: sources@ },
                        ),
                    decreases sources.len() - k,
                {
                    let ghost earlier = records(tracker.slice_sizes);
                    match table_get(&tracker.slice_sizes, sources[k]) {
                        Some(inner_slice) => {
                            let copy = copy_record(inner_slice);
                            table_insert(&mut tracker.slice_sizes, result, copy);
                            assert(records(tracker.slice_sizes) =~= earlier.insert(
                                result,
                                earlier[sources@[k as int]],
                            ));
                        },
                        None => {
                            proof {
                                if copied_onto(listed, sources@, result, sources.len() as nat) is Some {
                                    lemma_copied_onto_prefix(
                                        listed,
                                        sources@,
                                        result,
                                        sources.len() as nat,
                                        (k + 1) as nat,
                                    );
                                }
                            }
                            return false;
                        },
                    }
                    k += 1;
                }
            }
        }
        true
    }

    /// Tracks a write of `value` into `array`. See [`write_effect`].
    #[verifier::rlimit(50)]
    fn track_write(&self, array: ValueId, value: ValueId, results: &Vec<ValueId>, tracker: &mut SliceTracker) -> (done: bool)
        requires
            self.inserter.wf(),
            array < self.inserter@.dfg.values.len(),
            value < self.inserter@.dfg.values.len(),
        ensures
            done == (write_effect(self.inserter@.dfg.values, array, value, results@, old(tracker)@) is Some),
            done ==> write_effect(self.inserter@.dfg.values, array, value, results@, old(tracker)@)
                == Some(final(tracker)@),
    {
        let dfg = &self.inserter.function.dfg;
        let ghost values = dfg@.values;
        if !self.seed(array, tracker) {
            return false;
        }
        let ghost seed = tracker@;
        let nested = dfg.type_of_value(value).contains_slice_element();
        if nested {
            if !self.try_compute_slice_sizes(value, &mut tracker.slice_sizes) {
                return false;
            }
        }
        let ghost sizes = records(tracker.slice_sizes);
        if nested {
            if results.len() == 0 {
                return false;
            }
            match table_get(&tracker.slice_sizes, array) {
                Some(inner_sizes) => {
                    let max_length: usize = inner_sizes.max_length;
                    let mut inner = inner_sizes.inner.clone();
                    assert(inner@ =~= sizes[array].inner);
                    inner.push(value);
                    table_insert(&mut tracker.slice_sizes, array, SizeRecord { max_length, inner });
                    tracker.mapped_slice_values.insert(value, results[0]);
                    assert(records(tracker.slice_sizes) =~= sizes.insert(
                        array,
                        RecordView {
                            max_length: sizes[array].max_length,
                            inner: sizes[array].inner.push(value),
                        },
                    ));
                },
                None => {
                    return false;
                },
            }
        }
        let ghost listed = records(tracker.slice_sizes);
        if let Some(inner_sizes) = table_get(&tracker.slice_sizes, array) {
            if results.len() == 0 {
                return false;
            }
            let copy = copy_record(inner_sizes);
            table_insert(&mut tracker.slice_sizes, results[0], copy);
            tracker.mapped_slice_values.insert(array, results[0]);
            assert(records(tracker.slice_sizes) =~= listed.insert(results@[0], listed[array]));
        }
        true
    }

    /// Tracks a call of `intrinsic`. See [`call_effect`].
    fn track_call(
        &self,
        intrinsic: Intrinsic,
        arguments: &Vec<ValueId>,
        results: &Vec<ValueId>,
        tracker: &mut SliceTracker,
    ) -> (done: bool)
        ensures
            done == (call_effect(intrinsic, arguments@, results@, old(tracker)@) is Some),
            done ==> call_effect(intrinsic, arguments@, results@, old(tracker)@) == Some(final(tracker)@),
    {
        if let Some((grows, result_index)) = slice_operation_of(intrinsic) {
            if arguments.len() < 2 {
                return false;
            }
            let slice_contents: ValueId = arguments[1];
            let ghost before = records(tracker.slice_sizes);
            if let Some(inner_sizes) = table_get(&tracker.slice_sizes, slice_contents) {
                if (grows && inner_sizes.max_length == usize::MAX) || results.len() <= result_index {
                    return false;
                }
                let mut record = copy_record(inner_sizes);
                let result: ValueId = results[result_index];
                if grows {
                    record.max_length = record.max_length + 1;
                    let grown = copy_record(&record);
                    table_insert(&mut tracker.slice_sizes, slice_contents, grown);
                }
                let ghost view = record@;
                table_insert(&mut tracker.slice_sizes, result, record);
                tracker.mapped_slice_values.insert(slice_contents, result);
                assert(records(tracker.slice_sizes) =~= before.insert(slice_contents, view).insert(
                    result,
                    view,
                ));
            }
        }
        true
    }

    /// Tracks one instruction as far as that can be done, and says whether it
    /// could. See [`instruction_effect`].
    pub fn try_track_instruction(&self, instruction: InstructionId, tracker: &mut SliceTracker) -> (done: bool)
        requires
            self.inserter.wf(),
            instruction < self.inserter@.dfg.instructions.len(),
        ensures
            done == (instruction_effect(
                self.inserter@.dfg.values,
                self.inserter@.dfg.instructions[instruction as int],
                self.inserter@.dfg.results[instruction as int],
                old(tracker)@,
            ) is Some),
            done ==> instruction_effect(
                self.inserter@.dfg.values,
                self.inserter@.dfg.instructions[instruction as int],
                self.inserter@.dfg.results[instruction as int],
                old(tracker)@,
            ) == Some(final(tracker)@),
    {
        let dfg = &self.inserter.function.dfg;
        let results = dfg.instruction_results(instruction);
        let ghost view = dfg@.instructions[instruction as int];
        assert(view.reads_below(dfg@.values.len()));
        assert forall|k: int| 0 <= k < results.len() implies results[k] < dfg@.values.len() by {
            assert(dfg@.results[instruction as int][k] < dfg@.values.len());
        }
        match dfg.instruction(instruction) {
            Instruction::ArrayGet { array, .. } => {
                assert(view.operands()[0] == *array);
                self.track_read(*array, results, tracker)
            },
            Instruction::ArraySet { array, value, .. } => {
                assert(view.operands()[0] == *array);
                assert(view.operands()[2] == *value);
                self.track_write(*array, *value, results, tracker)
            },
            Instruction::Call { func, arguments } => {
                assert(view.operands()[0] == *func);
                if let Value::Intrinsic(intrinsic) = dfg.value(*func) {
                    self.track_call(*intrinsic, arguments, results, tracker)
                } else {
                    true
                }
            },
            _ => true,
        }
    }

    /// Tracks one instruction: what it does to the sizes of slices, to the
    /// arrays to pad and to the lineages. See [`instruction_effect`].
    pub fn track_instruction(&self, instruction: InstructionId, tracker: &mut SliceTracker)
        requires
            self.inserter.wf(),
            instruction < self.inserter@.dfg.instructions.len(),
            instruction_effect(
                self.inserter@.dfg.values,
                self.inserter@.dfg.instructions[instruction as int],
                self.inserter@.dfg.results[instruction as int],
                old(tracker)@,
            ) is Some,
        ensures
            instruction_effect(
                self.inserter@.dfg.values,
                self.inserter@.dfg.instructions[instruction as int],
                self.inserter@.dfg.results[instruction as int],
                old(tracker)@,
            ) == Some(final(tracker)@),
    {
        let _ = self.try_track_instruction(instruction, tracker);
    }

    /// Tracks the instructions of a block in order, from nothing known, as
    /// far as that can be done: `None` where tracking cannot go on.
    /// See [`block_effect`].
    pub fn try_track_block(&self, instructions: &Vec<InstructionId>) -> (found: Option<SliceTracker>)
        requires
            self.inserter.wf(),
        ensures
            match found {
                Some(tracker) => block_effect(
                    self.inserter@.dfg.values,
                    self.inserter@.dfg.instructions,
                    self.inserter@.dfg.results,
                    instructions@,
                    instructions.len() as nat,
                ) == Some(tracker@),
                None => block_effect(
                    self.inserter@.dfg.values,
                    self.inserter@.dfg.instructions,
                    self.inserter@.dfg.results,
                    instructions@,
                    instructions.len() as nat,
                ) is None,
            },
    {
        let ghost dfg = self.inserter@.dfg;
        let mut tracker = SliceTracker::new();
        let mut n: usize = 0;
        while n < instructions.len()
            invariant
                n <= instructions.len(),
                self.inserter.wf(),
                dfg == self.inserter@.dfg,
                block_effect(dfg.values, dfg.instructions, dfg.results, instructions@, n as nat) == Some(
                    tracker@,
                ),
            decreases instructions.len() - n,
        {
            let id: InstructionId = instructions[n];
            let done = id < self.inserter.function.dfg.instructions.len() && self.try_track_instruction(
                id,
                &mut tracker,
            );
            if !done {
                proof {
                    if block_effect(
                        dfg.values,
                        dfg.instructions,
                        dfg.results,
                        instructions@,
                        instructions.len() as nat,
                    ) is Some {
                        lemma_block_effect_prefix(
                            dfg.values,
                            dfg.instructions,
                            dfg.results,
                            instructions@,
                            instructions.len() as nat,
                            (n + 1) as nat,
                        );
                    }
                }
                return None;
            }
            n += 1;
        }
        Some(tracker)
    }

    /// Tracks the instructions of a block in order, from nothing known.
    /// See [`block_effect`].
    pub fn track_block(&self, instructions: &Vec<InstructionId>) -> (tracker: SliceTracker)
        requires
            self.inserter.wf(),
            block_effect(
                self.inserter@.dfg.values,
                self.inserter@.dfg.instructions,
                self.inserter@.dfg.results,
                instructions@,
                instructions.len() as nat,
            ) is Some,
        ensures
            block_effect(
                self.inserter@.dfg.values,
                self.inserter@.dfg.instructions,
                self.inserter@.dfg.results,
                instructions@,
                instructions.len() as nat,
            ) == Some(tracker@),
    {
        self.try_track_block(instructions).unwrap()
    }
}

} // verus!
