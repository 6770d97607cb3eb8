//! Deciding beforehand whether a block can be rewritten.

use crate::context::Context;
use crate::instruction::Instruction;
use crate::padder::{can_pad, padded_width, slot_source, slot_type};
use crate::pass::can_process_all;
use crate::post_order::PostOrder;
use crate::resolver::{lemma_lineage_is_short, lineage_ends, settle};
use crate::rewriter::{accessed_array, bound_known, bound_of, can_process, contains_id, pads, tracking_of};
use crate::sizes::{lemma_nest_is_shallow, nesting_ends, nests_within, records, table_get, table_len, SizeTable};
use crate::tracker::{lemma_block_effect_is_finite, SliceTracker};
use crate::types::{Type, TypeView};
use crate::value::{type_in, BasicBlockId, InstructionId, Value, ValueId};
use crate::vector::{vector_get, vector_items, vector_len, vector_new};
use im::Vector;
use vstd::prelude::*;

verus! {

/// Whether everything nested in `id` has a record and lies at most `depth`
/// levels below it.
pub fn nest_is_known(id: ValueId, slice_sizes: &SizeTable, depth: usize) -> (known: bool)
    ensures
        known == nests_within(records(*slice_sizes), id, depth as nat),
    decreases depth,
{
    let ghost sizes = records(*slice_sizes);
    match table_get(slice_sizes, id) {
        None => false,
        Some(record) => {
            let mut k: usize = 0;
            while k < record.inner.len()
                invariant
                    k <= record.inner.len(),
                    sizes == records(*slice_sizes),
                    sizes.contains_key(id),
                    record@ == sizes[id],
                    k > 0 ==> depth > 0,
                    forall|j: int|
                        0 <= j < k ==> depth > 0 && nests_within(
                            sizes,
                            #[trigger] sizes[id].inner[j],
                            (depth - 1) as nat,
                        ),
                decreases record.inner.len() - k,
            {
                let inner: ValueId = record.inner[k];
                assert(inner == sizes[id].inner[k as int]);
                if depth == 0 || !nest_is_known(inner, slice_sizes, depth - 1) {
                    assert(!nests_within(sizes, id, depth as nat));
                    return false;
                }
                k += 1;
            }
            assert(nests_within(sizes, id, depth as nat));
            true
        },
    }
}

impl Context {
    /// Whether the slots of a padded array or slice can be padded, each as
    /// [`Context::can_attach_slice_dummies`] says.
    fn can_pad_slots(
        &self,
        element_types: &Vec<Type>,
        stored: &Vector<ValueId>,
        total: usize,
        nested_slice_max: usize,
        Ghost(elements): Ghost<Seq<TypeView>>,
    ) -> (ok: bool)
        requires
            elements.len() == element_types.len(),
            forall|j: int| 0 <= j < elements.len() ==> elements[j] == element_types[j]@,
            total > 0 ==> element_types.len() > 0,
        ensures
            ok == forall|j: int|
                0 <= j < total && elements.len() > 0 ==> can_pad(
                    self.inserter@.dfg.values,
                    #[trigger] slot_type(elements, j),
                    slot_source(vector_items(*stored), j),
                    nested_slice_max as nat,
                    false,
                ),
        decreases element_types,
    {
        let n = element_types.len();
        let mut index: usize = 0;
        while index < total
            invariant
                index <= total,
                n == element_types.len(),
                total > 0 ==> n > 0,
                elements.len() == element_types.len(),
                forall|j: int| 0 <= j < elements.len() ==> elements[j] == element_types[j]@,
                forall|j: int|
                    0 <= j < index && elements.len() > 0 ==> can_pad(
                        self.inserter@.dfg.values,
                        #[trigger] slot_type(elements, j),
                        slot_source(vector_items(*stored), j),
                        nested_slice_max as nat,
                        false,
                    ),
            decreases total - index,
        {
            let element_type = &element_types[index % n];
            let source = vector_get(stored, index);
            assert(slot_type(elements, index as int) == element_type@);
            if !self.can_attach_slice_dummies(element_type, source, nested_slice_max, false) {
                return false;
            }
            index += 1;
        }
        true
    }

    /// Whether [`Context::attach_slice_dummies`] can be called with these
    /// arguments. See [`can_pad`].
    pub fn can_attach_slice_dummies(
        &self,
        typ: &Type,
        value: Option<ValueId>,
        nested_slice_max: usize,
        is_parent_slice: bool,
    ) -> (ok: bool)
        ensures
            ok == can_pad(
                self.inserter@.dfg.values,
                typ@,
                value,
                nested_slice_max as nat,
                is_parent_slice,
            ),
        decreases typ,
    {
        match typ {
            Type::Numeric(_) => true,
            Type::Array(element_types, len) => match value {
                Some(_) => true,
                None => {
                    let ghost elements = typ@->Array_0;
                    match len.checked_mul(element_types.len()) {
                        None => false,
                        Some(total) => {
                            assert(total > 0 ==> element_types.len() > 0) by (nonlinear_arith)
                                requires
                                    total == *len * element_types.len(),
                            ;
                            let stored = vector_new();
                            self.can_pad_slots(
                                element_types,
                                &stored,
                                total,
                                nested_slice_max,
                                Ghost(elements),
                            )
                        },
                    }
                },
            },
            Type::Slice(element_types) => {
                let ghost elements = typ@->Slice_0;
                match value {
                    Some(source) => {
                        if source >= self.inserter.function.dfg.values.len() {
                            return false;
                        }
                        match self.inserter.function.dfg.value(source) {
                            Value::Array { array, .. } => {
                                if is_parent_slice && element_types.len() == 0 {
                                    return false;
                                }
                                let max_size: usize = if is_parent_slice {
                                    vector_len(array) / element_types.len()
                                } else {
                                    nested_slice_max
                                };
                                assert(max_size == padded_width(
                                    vector_items(*array).len(),
                                    elements.len(),
                                    nested_slice_max as nat,
                                    is_parent_slice,
                                ));
                                match max_size.checked_mul(element_types.len()) {
                                    None => false,
                                    Some(total) => {
                                        assert(total > 0 ==> element_types.len() > 0) by (nonlinear_arith)
                                            requires
                                                total == max_size * element_types.len(),
                                        ;
                                        self.can_pad_slots(
                                            element_types,
                                            array,
                                            total,
                                            nested_slice_max,
                                            Ghost(elements),
                                        )
                                    },
                                }
                            },
                            _ => false,
                        }
                    },
                    None => match nested_slice_max.checked_mul(element_types.len()) {
                        None => false,
                        Some(total) => {
                            assert(total > 0 ==> element_types.len() > 0) by (nonlinear_arith)
                                requires
                                    total == nested_slice_max * element_types.len(),
                            ;
                            let stored = vector_new();
                            self.can_pad_slots(
                                element_types,
                                &stored,
                                total,
                                nested_slice_max,
                                Ghost(elements),
                            )
                        },
                    },
                }
            },
            _ => false,
        }
    }

    /// Whether the instruction `id` can be dealt with once `tracker` holds
    /// what tracking found in its block: where it is a read or write that
    /// must work on a padded value, the bound can be found and the array
    /// can be padded to it.
    fn can_rewrite_instruction(&self, id: InstructionId, tracker: &SliceTracker) -> (ok: bool)
        requires
            self.inserter.wf(),
            id < self.inserter@.dfg.instructions.len(),
            tracker@.sizes.dom().finite(),
        ensures
            ok == (pads(self.inserter@.dfg.instructions[id as int], tracker@) ==> {
                let array = accessed_array(self.inserter@.dfg.instructions[id as int]).unwrap();
                &&& bound_known(tracker@, array)
                &&& can_pad(
                    self.inserter@.dfg.values,
                    type_in(self.inserter@.dfg.values, array),
                    Some(array),
                    bound_of(tracker@, array),
                    true,
                )
            }),
    {
        let ghost view = self.inserter@.dfg.instructions[id as int];
        let accessed: Option<ValueId> = match self.inserter.function.dfg.instruction(id) {
            Instruction::ArrayGet { array, .. } => Some(*array),
            Instruction::ArraySet { array, .. } => Some(*array),
            _ => None,
        };
        let marked = match accessed {
            Some(array) => contains_id(&tracker.slice_values, array),
            None => false,
        };
        if !marked {
            return true;
        }
        let array: ValueId = accessed.unwrap();
        proof {
            assert(view.reads_below(self.inserter@.dfg.values.len()));
            assert(view.operands()[0] == array);
            assert(records(tracker.slice_sizes).dom() =~= tracker.slice_sizes@.dom());
        }
        let latest = match settle(array, &tracker.mapped_slice_values, tracker.mapped_slice_values.len()) {
            Some(latest) => latest,
            None => {
                proof {
                    if lineage_ends(tracker@.supersedes, array) {
                        lemma_lineage_is_short(tracker@.supersedes, array);
                    }
                }
                return false;
            },
        };
        if !nest_is_known(latest, &tracker.slice_sizes, table_len(&tracker.slice_sizes)) {
            proof {
                if nesting_ends(tracker@.sizes, latest) {
                    lemma_nest_is_shallow(tracker@.sizes, latest);
                }
            }
            return false;
        }
        let nested_slice_max = self.find_max_nested_depth(latest, &tracker.slice_sizes);
        let typ = self.inserter.function.dfg.type_of_value(array);
        self.can_attach_slice_dummies(&typ, Some(array), nested_slice_max, true)
    }

    /// Whether [`Context::process_block`] can be called on `block`.
    /// See [`can_process`].
    #[verifier::rlimit(50)]
    pub fn can_process_block(&self, block: BasicBlockId) -> (ok: bool)
        requires
            self.inserter.wf(),
        ensures
            ok == can_process(self.inserter@, block),
    {
        if block >= self.inserter.function.dfg.blocks.len() {
            return false;
        }
        let instructions = &self.inserter.function.dfg.blocks[block].instructions;
        let ghost state = self.inserter@;
        let ghost ids = state.dfg.blocks[block as int].instructions;
        assert(instructions@ == ids);
        assert(state.dfg.blocks[block as int].wf(
            state.dfg.instructions.len(),
            state.dfg.values.len(),
            state.dfg.blocks.len(),
        ));
        let tracker = match self.try_track_block(instructions) {
            Some(tracker) => tracker,
            None => {
                return false;
            },
        };
        let ghost tracking = tracker@;
        proof {
            lemma_block_effect_is_finite(
                state.dfg.values,
                state.dfg.instructions,
                state.dfg.results,
                ids,
                ids.len(),
            );
        }
        let mut i: usize = 0;
        while i < instructions.len()
            invariant
                i <= instructions.len(),
                self.inserter.wf(),
                state == self.inserter@,
                block < state.dfg.blocks.len(),
                ids == state.dfg.blocks[block as int].instructions,
                instructions@ == ids,
                forall|k: int| 0 <= k < ids.len() ==> #[trigger] ids[k] < state.dfg.instructions.len(),
                tracking == tracker@,
                tracking.sizes.dom().finite(),
                tracking_of(state, block) == Some(tracking),
                forall|j: int|
                    0 <= j < i && pads(state.dfg.instructions[#[trigger] ids[j] as int], tracking) ==> {
                        let array = accessed_array(state.dfg.instructions[ids[j] as int]).unwrap();
                        &&& bound_known(tracking, array)
                        &&& can_pad(
                            state.dfg.values,
                            type_in(state.dfg.values, array),
                            Some(array),
                            bound_of(tracking, array),
                            true,
                        )
                    },
            decreases instructions.len() - i,
        {
            assert(ids[i as int] < state.dfg.instructions.len());
            if !self.can_rewrite_instruction(instructions[i], &tracker) {
                assert(pads(state.dfg.instructions[ids[i as int] as int], tracking));
                return false;
            }
            i += 1;
        }
        true
    }

    /// Whether [`Context::process_blocks`] can be called: whether every block
    /// within reach of the entry can be rewritten.
    pub fn can_process_blocks(&self) -> (ok: bool)
        requires
            self.inserter.wf(),
        ensures
            ok == can_process_all(self.inserter@),
    {
        let block_order = PostOrder::with_function(&self.inserter.function).into_vec();
        let ghost state = self.inserter@;
        let mut k: usize = 0;
        while k < block_order.len()
            invariant
                k <= block_order.len(),
                self.inserter.wf(),
                state == self.inserter@,
                forall|b: BasicBlockId|
                    block_order@.contains(b) <==> b < state.dfg.blocks.len() && crate::post_order::reachable(
                        state.dfg.blocks,
                        state.entry_block,
                        b,
                    ),
                forall|j: int| 0 <= j < k ==> can_process(state, #[trigger] block_order@[j]),
            decreases block_order.len() - k,
        {
            if !self.can_process_block(block_order[k]) {
                assert(block_order@.contains(block_order@[k as int]));
                return false;
            }
            k += 1;
        }
        assert forall|b: BasicBlockId|
            b < state.dfg.blocks.len() && #[trigger] crate::post_order::reachable(
                state.dfg.blocks,
                state.entry_block,
                b,
            ) implies can_process(state, b) by {
            assert(block_order@.contains(b));
            let j = choose|j: int| 0 <= j < block_order@.len() && block_order@[j] == b;
            assert(can_process(state, block_order@[j]));
        }
        true
    }
}

} // verus!
