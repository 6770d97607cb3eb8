//! Rewriting of the reads and writes of a block onto padded slices.

use crate::context::Context;
use crate::inserter::{resolver, InserterView};
use crate::instruction::{Instruction, InstructionView};
use crate::padder::{can_pad, lemma_can_pad_extends, padded};
use crate::resolver::{canonical, lemma_canonical_is_fixed, lineage_ends};
use crate::sizes::{max_depth, nesting_ends};
use crate::tracker::{block_effect, lemma_block_effect_stays, SliceTracker, Tracking};
use crate::value::{extends, type_in, BasicBlockId, InstructionId, ValueId};
use vstd::prelude::*;

verus! {

/// The array or slice that a read or a write works on; `None` for any other
/// instruction.
pub open spec fn accessed_array(instruction: InstructionView) -> Option<ValueId> {
    match instruction {
        InstructionView::ArrayGet { array, .. } => Some(array),
        InstructionView::ArraySet { array, .. } => Some(array),
        _ => None,
    }
}

/// A read or a write made to work on `array`; any other instruction as it is.
pub open spec fn repointed(instruction: InstructionView, array: ValueId) -> InstructionView {
    match instruction {
        InstructionView::ArrayGet { index, .. } => InstructionView::ArrayGet { array, index },
        InstructionView::ArraySet { index, value, .. } => InstructionView::ArraySet { array, index, value },
        other => other,
    }
}

/// Whether the instruction is a read or a write that must work on a padded
/// value: one of an array that tracking marked as seen.
pub open spec fn pads(instruction: InstructionView, tracking: Tracking) -> bool {
    accessed_array(instruction) matches Some(array) && tracking.seen.contains(array)
}

/// Whether the bound of the slice `id` can be found: its lineage comes to an
/// end, and the nest of its latest id is recorded in full and comes to an
/// end.
pub open spec fn bound_known(tracking: Tracking, id: ValueId) -> bool {
    &&& lineage_ends(tracking.supersedes, id)
    &&& nesting_ends(tracking.sizes, canonical(tracking.supersedes, id))
}

/// The width to which the slices nested in `id` are padded: the largest
/// length recorded in the nest of the latest id of its lineage.
pub open spec fn bound_of(tracking: Tracking, id: ValueId) -> nat {
    max_depth(tracking.sizes, canonical(tracking.supersedes, id))
}

/// What tracking finds in `block` as it is in `state`.
pub open spec fn tracking_of(state: InserterView, block: BasicBlockId) -> Option<Tracking> {
    let ids = state.dfg.blocks[block as int].instructions;
    block_effect(state.dfg.values, state.dfg.instructions, state.dfg.results, ids, ids.len())
}

/// Whether `block` can be rewritten: tracking succeeds on it, and for each
/// read or write that must work on a padded value the bound can be found and
/// the array can be padded to it.
pub open spec fn can_process(state: InserterView, block: BasicBlockId) -> bool {
    let ids = state.dfg.blocks[block as int].instructions;
    &&& block < state.dfg.blocks.len()
    &&& tracking_of(state, block) matches Some(tracking)
    &&& forall|i: int|
        0 <= i < ids.len() && pads(state.dfg.instructions[#[trigger] ids[i] as int], tracking) ==> {
            let array = accessed_array(state.dfg.instructions[ids[i] as int]).unwrap();
            &&& bound_known(tracking, array)
            &&& can_pad(
                state.dfg.values,
                type_in(state.dfg.values, array),
                Some(array),
                bound_of(tracking, array),
                true,
            )
        }
}

/// Whether `post` is `pre` after the read or write `id` has been replaced in
/// `block`: its array was padded, which made new values and nothing else,
/// and a new instruction works on the padded value where `id` worked on the
/// array, its other operands resolved.
pub open spec fn access_rewritten(
    pre: InserterView,
    post: InserterView,
    tracking: Tracking,
    block: BasicBlockId,
    id: InstructionId,
) -> bool {
    let instruction = pre.dfg.instructions[id as int];
    let array = accessed_array(instruction).unwrap();
    exists|mid: InserterView, with: ValueId|
        {
            &&& mid.grew_from(pre)
            &&& #[trigger] padded(
                mid.dfg.values,
                mid.replaced,
                type_in(pre.dfg.values, array),
                Some(array),
                with,
                bound_of(tracking, array),
                true,
            )
            &&& post == mid.inserted(
                repointed(
                    instruction.map_values(resolver(pre.replaced)),
                    canonical(pre.replaced, with),
                ),
                id,
                block,
            )
        }
}

/// Whether `post` is `pre` after the instruction `id` has been dealt with: a
/// read or write that must work on a padded value is replaced, any other
/// instruction is copied through.
pub open spec fn rewritten(
    pre: InserterView,
    post: InserterView,
    tracking: Tracking,
    block: BasicBlockId,
    id: InstructionId,
) -> bool {
    if pads(pre.dfg.instructions[id as int], tracking) {
        access_rewritten(pre, post, tracking, block, id)
    } else {
        post == pre.pushed(id, block)
    }
}

/// Whether `end` is `start` after the first `n` of the instructions `ids`
/// have been dealt with in order.
pub open spec fn rewritten_upto(
    start: InserterView,
    end: InserterView,
    tracking: Tracking,
    block: BasicBlockId,
    ids: Seq<InstructionId>,
    n: nat,
) -> bool
    decreases n,
{
    if n == 0 {
        end == start
    } else {
        exists|mid: InserterView|
            rewritten_upto(start, mid, tracking, block, ids, (n - 1) as nat) && #[trigger] rewritten(
                mid,
                end,
                tracking,
                block,
                ids[n - 1],
            )
    }
}

/// Whether `post` is `pre` after `block` has been rewritten: its instructions
/// were taken out, tracked, and dealt with in order, and then its terminator
/// was made to read the replacements.
pub open spec fn block_rewritten(pre: InserterView, post: InserterView, block: BasicBlockId) -> bool {
    let ids = pre.dfg.blocks[block as int].instructions;
    exists|end: InserterView|
        rewritten_upto(pre.emptied(block), end, tracking_of(pre, block).unwrap(), block, ids, ids.len())
            && post == #[trigger] end.terminated(block)
}

/// Whether `post` has everything that `pre` had, but for the block `block`:
/// values, instructions and results keep their ids, and every other block is
/// as it was.
pub open spec fn advanced(pre: InserterView, post: InserterView, block: BasicBlockId) -> bool {
    &&& post.entry_block == pre.entry_block
    &&& extends(pre.dfg.values, post.dfg.values)
    &&& pre.dfg.instructions.is_prefix_of(post.dfg.instructions)
    &&& pre.dfg.results.is_prefix_of(post.dfg.results)
    &&& post.dfg.blocks.len() == pre.dfg.blocks.len()
    &&& forall|b: int|
        0 <= b < pre.dfg.blocks.len() && b != block ==> #[trigger] post.dfg.blocks[b] == pre.dfg.blocks[b]
}

/// Going on from a state that has advanced gives a state that has advanced.
pub proof fn lemma_advanced_again(pre: InserterView, mid: InserterView, post: InserterView, block: BasicBlockId)
    requires
        advanced(pre, mid, block),
        advanced(mid, post, block),
    ensures
        advanced(pre, post, block),
{
    assert forall|b: int| 0 <= b < pre.dfg.blocks.len() && b != block implies #[trigger] post.dfg.blocks[b]
        == pre.dfg.blocks[b] by {
        assert(mid.dfg.blocks[b] == pre.dfg.blocks[b]);
    }
}

/// Copying an instruction through, or putting a new one in, leaves everything
/// else in place.
pub proof fn lemma_pushing_advances(
    pre: InserterView,
    instruction: InstructionView,
    id: InstructionId,
    block: BasicBlockId,
)
    requires
        block < pre.dfg.blocks.len(),
    ensures
        advanced(pre, pre.kept(id, block), block),
        advanced(pre, pre.inserted(instruction, id, block), block),
        advanced(pre, pre.pushed(id, block), block),
        advanced(pre, pre.emptied(block), block),
        advanced(pre, pre.terminated(block), block),
{
}

/// Whether the instruction `id` can be dealt with in `state`: where it is a
/// read or write that must work on a padded value, the bound can be found and
/// the array can be padded to it.
pub open spec fn step_ready(state: InserterView, tracking: Tracking, id: InstructionId) -> bool {
    pads(state.dfg.instructions[id as int], tracking) ==> {
        let array = accessed_array(state.dfg.instructions[id as int]).unwrap();
        &&& bound_known(tracking, array)
        &&& can_pad(
            state.dfg.values,
            type_in(state.dfg.values, array),
            Some(array),
            bound_of(tracking, array),
            true,
        )
    }
}

/// An instruction of a block that can be rewritten can still be dealt with
/// after others of the block have been.
pub proof fn lemma_step_ready(
    pre: InserterView,
    here: InserterView,
    block: BasicBlockId,
    tracking: Tracking,
    i: int,
)
    requires
        pre.wf(),
        can_process(pre, block),
        tracking_of(pre, block) == Some(tracking),
        advanced(pre, here, block),
        0 <= i < pre.dfg.blocks[block as int].instructions.len(),
    ensures
        pre.dfg.blocks[block as int].instructions[i] < here.dfg.instructions.len(),
        block < here.dfg.blocks.len(),
        step_ready(here, tracking, pre.dfg.blocks[block as int].instructions[i]),
{
    let ids = pre.dfg.blocks[block as int].instructions;
    let id = ids[i];
    assert(pre.dfg.blocks[block as int].wf(
        pre.dfg.instructions.len(),
        pre.dfg.values.len(),
        pre.dfg.blocks.len(),
    ));
    assert(id < pre.dfg.instructions.len());
    let view = pre.dfg.instructions[id as int];
    assert(here.dfg.instructions[id as int] == view);
    if pads(view, tracking) {
        let array = accessed_array(view).unwrap();
        assert(view.reads_below(pre.dfg.values.len()));
        assert(view.operands()[0] == array);
        lemma_can_pad_extends(
            pre.dfg.values,
            here.dfg.values,
            type_in(pre.dfg.values, array),
            Some(array),
            bound_of(tracking, array),
            true,
        );
    }
}

/// A block that could be rewritten before another block was can still be
/// rewritten after.
pub proof fn lemma_can_process_stays(pre: InserterView, post: InserterView, block: BasicBlockId, other: BasicBlockId)
    requires
        pre.wf(),
        advanced(pre, post, block),
        other != block,
        can_process(pre, other),
    ensures
        can_process(post, other),
        tracking_of(post, other) == tracking_of(pre, other),
{
    let ids = pre.dfg.blocks[other as int].instructions;
    assert(post.dfg.blocks[other as int] == pre.dfg.blocks[other as int]);
    assert(pre.dfg.blocks[other as int].wf(
        pre.dfg.instructions.len(),
        pre.dfg.values.len(),
        pre.dfg.blocks.len(),
    ));
    lemma_block_effect_stays(
        pre.dfg.values,
        pre.dfg.instructions,
        pre.dfg.results,
        post.dfg.values,
        post.dfg.instructions,
        post.dfg.results,
        ids,
        ids.len(),
    );
    let tracking = tracking_of(pre, other).unwrap();
    assert forall|i: int|
        0 <= i < ids.len() && pads(post.dfg.instructions[#[trigger] ids[i] as int], tracking) implies {
        let array = accessed_array(post.dfg.instructions[ids[i] as int]).unwrap();
        &&& bound_known(tracking, array)
        &&& can_pad(
            post.dfg.values,
            type_in(post.dfg.values, array),
            Some(array),
            bound_of(tracking, array),
            true,
        )
    } by {
        let view = pre.dfg.instructions[ids[i] as int];
        assert(post.dfg.instructions[ids[i] as int] == view);
        let array = accessed_array(view).unwrap();
        assert(view.reads_below(pre.dfg.values.len()));
        assert(view.operands()[0] == array);
        lemma_can_pad_extends(
            pre.dfg.values,
            post.dfg.values,
            type_in(pre.dfg.values, array),
            Some(array),
            bound_of(tracking, array),
            true,
        );
    }
}

/// Whether `id` is in `list`.
pub(crate) fn contains_id(list: &Vec<ValueId>, id: ValueId) -> (found: bool)
    ensures
        found == list@.contains(id),
{
    let mut k: usize = 0;
    while k < list.len()
        invariant
            k <= list.len(),
            forall|j: int| 0 <= j < k ==> list[j] != id,
        decreases list.len() - k,
    {
        if list[k] == id {
            return true;
        }
        k += 1;
    }
    false
}

impl Context {
    /// Replaces the read or write `id` of `array` in `block`: pads the array
    /// to the bound that tracking gives for its lineage, and puts in a new
    /// instruction that works on the padded value.
    #[verifier::rlimit(50)]
    fn rewrite_access(&mut self, id: InstructionId, array: ValueId, block: BasicBlockId, tracker: &SliceTracker)
        requires
            old(self).inserter.wf(),
            id < old(self).inserter@.dfg.instructions.len(),
            block < old(self).inserter@.dfg.blocks.len(),
            accessed_array(old(self).inserter@.dfg.instructions[id as int]) == Some(array),
            array < old(self).inserter@.dfg.values.len(),
            bound_known(tracker@, array),
            can_pad(
                old(self).inserter@.dfg.values,
                type_in(old(self).inserter@.dfg.values, array),
                Some(array),
                bound_of(tracker@, array),
                true,
            ),
        ensures
            final(self).inserter.wf(),
            final(self).post_order.blocks@ == old(self).post_order.blocks@,
            access_rewritten(old(self).inserter@, final(self).inserter@, tracker@, block, id),
            advanced(old(self).inserter@, final(self).inserter@, block),
    {
        let ghost pre = self.inserter@;
        let typ = self.inserter.function.dfg.type_of_value(array);
        let mut mapped_slice_value: ValueId = array;
        Self::follow_mapped_slice_values(array, &tracker.mapped_slice_values, &mut mapped_slice_value);
        proof {
            lemma_canonical_is_fixed(tracker@.supersedes, array);
        }
        let nested_slice_max = self.find_max_nested_depth(mapped_slice_value, &tracker.slice_sizes);
        let new_array = self.attach_slice_dummies(&typ, Some(array), nested_slice_max, true);
        let ghost mid = self.inserter@;
        let mapped = self.inserter.map_instruction(id);
        let with = self.inserter.resolve(new_array);
        let new_instruction = match mapped {
            Instruction::ArrayGet { index, .. } => Instruction::ArrayGet { array: with, index },
            Instruction::ArraySet { index, value, .. } => Instruction::ArraySet { array: with, index, value },
            _ => vstd::pervasive::unreached(),
        };
        proof {
            assert(mapped@.reads_below(mid.dfg.values.len()));
            assert forall|k: int| 0 <= k < new_instruction@.operands().len() implies #[trigger] new_instruction@.operands()[k]
                < mid.dfg.values.len() by {
                if k > 0 {
                    assert(new_instruction@.operands()[k] == mapped@.operands()[k]);
                }
            }
            assert(new_instruction@ == repointed(
                pre.dfg.instructions[id as int].map_values(resolver(pre.replaced)),
                canonical(pre.replaced, new_array),
            ));
        }
        self.inserter.push_instruction_value(new_instruction, id, block);
        proof {
            assert(padded(
                mid.dfg.values,
                mid.replaced,
                type_in(pre.dfg.values, array),
                Some(array),
                new_array,
                bound_of(tracker@, array),
                true,
            ));
            lemma_pushing_advances(mid, new_instruction@, id, block);
            let post = self.inserter@;
            assert(advanced(pre, mid, block));
            lemma_advanced_again(pre, mid, post, block);
        }
    }

    /// Deals with the instruction `id` of `block`: replaces it where it is a
    /// read or write that must work on a padded value, else copies it through.
    fn rewrite_instruction(&mut self, id: InstructionId, block: BasicBlockId, tracker: &SliceTracker)
        requires
            old(self).inserter.wf(),
            id < old(self).inserter@.dfg.instructions.len(),
            block < old(self).inserter@.dfg.blocks.len(),
            step_ready(old(self).inserter@, tracker@, id),
        ensures
            final(self).inserter.wf(),
            final(self).post_order.blocks@ == old(self).post_order.blocks@,
            rewritten(old(self).inserter@, final(self).inserter@, tracker@, block, id),
            advanced(old(self).inserter@, final(self).inserter@, block),
    {
        let ghost here = self.inserter@;
        let ghost view = here.dfg.instructions[id as int];
        let accessed: Option<ValueId> = match self.inserter.function.dfg.instruction(id) {
            Instruction::ArrayGet { array, .. } => Some(*array),
            Instruction::ArraySet { array, .. } => Some(*array),
            _ => None,
        };
        let marked = match accessed {
            Some(array) => contains_id(&tracker.slice_values, array),
            None => false,
        };
        if marked {
            let array: ValueId = accessed.unwrap();
            proof {
                assert(view.reads_below(here.dfg.values.len()));
                assert(view.operands()[0] == array);
            }
            self.rewrite_access(id, array, block, tracker);
        } else {
            self.inserter.push_instruction(id, block);
            proof {
                lemma_pushing_advances(here, view, id, block);
            }
        }
    }

    /// Rewrites one block. Its instructions are tracked first, all of them,
    /// so that every size is known before anything is padded. Then they are
    /// put back in order: a read or write of an array that tracking marked is
    /// replaced by one that works on the padded array, every other
    /// instruction is copied through, and the terminator follows.
    #[verifier::rlimit(50)]
    pub fn process_block(&mut self, block: BasicBlockId)
        requires
            old(self).inserter.wf(),
            can_process(old(self).inserter@, block),
        ensures
            final(self).inserter.wf(),
            final(self).post_order.blocks@ == old(self).post_order.blocks@,
            block_rewritten(old(self).inserter@, final(self).inserter@, block),
            advanced(old(self).inserter@, final(self).inserter@, block),
    {
        let ghost pre = self.inserter@;
        let ghost ids = pre.dfg.blocks[block as int].instructions;
        let ghost tracking = tracking_of(pre, block).unwrap();
        let instructions = self.inserter.take_instructions(block);
        let ghost start = self.inserter@;
        let tracker = self.track_block(&instructions);
        proof {
            lemma_pushing_advances(pre, InstructionView::Allocate, 0, block);
        }
        let mut n: usize = 0;
        while n < instructions.len()
            invariant
                n <= instructions.len(),
                instructions@ == ids,
                tracker@ == tracking,
                pre.wf(),
                ids == pre.dfg.blocks[block as int].instructions,
                can_process(pre, block),
                tracking_of(pre, block) == Some(tracking),
                self.inserter.wf(),
                self.post_order.blocks@ == old(self).post_order.blocks@,
                advanced(pre, self.inserter@, block),
                rewritten_upto(start, self.inserter@, tracking, block, ids, n as nat),
            decreases instructions.len() - n,
        {
            let id: InstructionId = instructions[n];
            let ghost here = self.inserter@;
            proof {
                lemma_step_ready(pre, here, block, tracking, n as int);
            }
            self.rewrite_instruction(id, block, &tracker);
            proof {
                let now = self.inserter@;
                lemma_advanced_again(pre, here, now, block);
                assert(id == ids[n as int]);
                let next = (n + 1) as nat;
                assert(rewritten_upto(start, here, tracking, block, ids, (next - 1) as nat));
                assert(rewritten(here, now, tracking, block, ids[next - 1]));
                assert(rewritten_upto(start, now, tracking, block, ids, next));
            }
            n += 1;
        }
        let ghost end = self.inserter@;
        self.inserter.map_terminator_in_place(block);
        proof {
            lemma_pushing_advances(end, InstructionView::Allocate, 0, block);
            lemma_advanced_again(pre, end, self.inserter@, block);
        }
    }
}

} // verus!
