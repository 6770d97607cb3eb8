//! Rebuilding the blocks of a function while values are replaced.

use crate::dfg::{BlockView, DfgView, Function};
use crate::instruction::{Instruction, InstructionView, TerminatorInstruction};
use crate::resolver::{canonical, lemma_ascending_lineage_ends, lemma_canonical_is_fixed, lemma_canonical_step, lineage_ends};
use crate::value::{extends, type_in, BasicBlockId, InstructionId, Value, ValueId, ValueView};
use std::collections::BTreeMap;
use vstd::prelude::*;

verus! {

/// Rebuilds the blocks of a function, and remembers which values were
/// replaced by which while doing so.
#[derive(Debug)]
pub struct FunctionInserter {
    pub function: Function,
    pub values: BTreeMap<ValueId, ValueId>,
}

/// The mathematical value of a [`FunctionInserter`].
pub ghost struct InserterView {
    pub dfg: DfgView,
    pub entry_block: BasicBlockId,
    pub replaced: Map<ValueId, ValueId>,
}

impl View for FunctionInserter {
    type V = InserterView;

    open spec fn view(&self) -> InserterView {
        InserterView {
            dfg: self.function.dfg@,
            entry_block: self.function.entry_block,
            replaced: self.values@,
        }
    }
}

/// The function that takes each value to the one that stands for it now.
pub open spec fn resolver(replaced: Map<ValueId, ValueId>) -> spec_fn(ValueId) -> ValueId {
    |value: ValueId| canonical(replaced, value)
}

/// The replacements after the first `n` of `olds` have been replaced, in
/// order, by the values that follow `base`.
pub open spec fn linked(replaced: Map<ValueId, ValueId>, olds: Seq<ValueId>, base: nat, n: nat) -> Map<
    ValueId,
    ValueId,
>
    decreases n,
{
    if n == 0 {
        replaced
    } else {
        linked(replaced, olds, base, (n - 1) as nat).insert(olds[n - 1], (base + n - 1) as usize)
    }
}

/// The values that stand for the results of a new instruction `id` which
/// takes the place of one whose results were `olds`.
pub open spec fn fresh_results(values: Seq<ValueView>, id: InstructionId, olds: Seq<ValueId>) -> Seq<
    ValueView,
> {
    Seq::new(
        olds.len(),
        |p: int| ValueView::Instruction { instruction: id, position: p as usize, typ: type_in(values, olds[p]) },
    )
}

impl InserterView {
    /// Whether the function is well formed and every replacement leads from a
    /// value to one that was made later.
    pub open spec fn wf(self) -> bool {
        &&& self.dfg.wf()
        &&& self.entry_block < self.dfg.blocks.len()
        &&& forall|k: ValueId| #[trigger]
            self.replaced.contains_key(k) ==> k < self.replaced[k] < self.dfg.values.len()
    }

    /// Whether this state differs from an earlier one by new values only:
    /// every value of `before` is still there under its id, and instructions,
    /// blocks and replacements are as they were.
    pub open spec fn grew_from(self, before: InserterView) -> bool {
        &&& self.replaced == before.replaced
        &&& self.entry_block == before.entry_block
        &&& self.dfg.instructions == before.dfg.instructions
        &&& self.dfg.results == before.dfg.results
        &&& self.dfg.blocks == before.dfg.blocks
        &&& extends(before.dfg.values, self.dfg.values)
    }

    /// This state with `block` changed to `changed`.
    pub open spec fn with_block(self, block: BasicBlockId, changed: BlockView) -> InserterView {
        InserterView {
            dfg: DfgView { blocks: self.dfg.blocks.update(block as int, changed), ..self.dfg },
            ..self
        }
    }

    /// This state with the instructions of `block` taken out.
    pub open spec fn emptied(self, block: BasicBlockId) -> InserterView {
        self.with_block(
            block,
            BlockView { instructions: Seq::empty(), ..self.dfg.blocks[block as int] },
        )
    }

    /// This state after the instruction `id` has been put at the end of
    /// `block` as it is.
    pub open spec fn kept(self, id: InstructionId, block: BasicBlockId) -> InserterView {
        self.with_block(
            block,
            BlockView {
                instructions: self.dfg.blocks[block as int].instructions.push(id),
                ..self.dfg.blocks[block as int]
            },
        )
    }

    /// This state after `instruction` has been put at the end of `block` in
    /// place of the instruction `origin`: it is a new instruction with new
    /// results, one for each result of `origin` and of the same type, and
    /// each result of `origin` is from now on replaced by its counterpart.
    pub open spec fn inserted(
        self,
        instruction: InstructionView,
        origin: InstructionId,
        block: BasicBlockId,
    ) -> InserterView {
        let olds = self.dfg.results[origin as int];
        let base = self.dfg.values.len();
        let id = self.dfg.instructions.len() as usize;
        InserterView {
            dfg: DfgView {
                values: self.dfg.values + fresh_results(self.dfg.values, id, olds),
                instructions: self.dfg.instructions.push(instruction),
                results: self.dfg.results.push(Seq::new(olds.len(), |p: int| (base + p) as usize)),
                blocks: self.dfg.blocks.update(
                    block as int,
                    BlockView {
                        instructions: self.dfg.blocks[block as int].instructions.push(id),
                        ..self.dfg.blocks[block as int]
                    },
                ),
            },
            entry_block: self.entry_block,
            replaced: linked(self.replaced, olds, base, olds.len()),
        }
    }

    /// This state after the instruction `id` has been copied to the end of
    /// `block`: as it is where none of its operands has been replaced, else
    /// as a new instruction that reads the replacements.
    pub open spec fn pushed(self, id: InstructionId, block: BasicBlockId) -> InserterView {
        let instruction = self.dfg.instructions[id as int];
        let mapped = instruction.map_values(resolver(self.replaced));
        if mapped == instruction {
            self.kept(id, block)
        } else {
            self.inserted(mapped, id, block)
        }
    }

    /// This state after the terminator of `block` has been made to read the
    /// replacements of its operands.
    pub open spec fn terminated(self, block: BasicBlockId) -> InserterView {
        self.with_block(
            block,
            BlockView {
                terminator: match self.dfg.blocks[block as int].terminator {
                    Some(terminator) => Some(terminator.map_values(resolver(self.replaced))),
                    None => None,
                },
                ..self.dfg.blocks[block as int]
            },
        )
    }
}

/// Replacing more results keeps the replacements that were made.
pub proof fn lemma_linked_contains(
    replaced: Map<ValueId, ValueId>,
    olds: Seq<ValueId>,
    base: nat,
    n: nat,
    k: ValueId,
)
    requires
        n <= olds.len(),
        base + n <= usize::MAX + 1,
        linked(replaced, olds, base, n).contains_key(k),
    ensures
        (replaced.contains_key(k) && linked(replaced, olds, base, n)[k] == replaced[k]) || exists|p: int|
            0 <= p < n && olds[p] == k && linked(replaced, olds, base, n)[k] == base + p,
    decreases n,
{
    if n > 0 {
        if olds[n - 1] != k {
            lemma_linked_contains(replaced, olds, base, (n - 1) as nat, k);
        }
    }
}

/// Whether two lists hold the same ids in the same order.
fn same_ids(a: &Vec<ValueId>, b: &Vec<ValueId>) -> (same: bool)
    ensures
        same == (a@ == b@),
{
    if a.len() != b.len() {
        return false;
    }
    let mut k: usize = 0;
    while k < a.len()
        invariant
            k <= a.len(),
            a.len() == b.len(),
            forall|j: int| 0 <= j < k ==> a[j] == b[j],
        decreases a.len() - k,
    {
        if a[k] != b[k] {
            return false;
        }
        k += 1;
    }
    assert(a@ =~= b@);
    true
}

/// Whether two instructions are the same.
fn same_instruction(a: &Instruction, b: &Instruction) -> (same: bool)
    ensures
        same == (a@ == b@),
{
    match (a, b) {
        (
            Instruction::Binary { lhs, operator, rhs },
            Instruction::Binary { lhs: other_lhs, operator: other_operator, rhs: other_rhs },
        ) => *lhs == *other_lhs && *operator == *other_operator && *rhs == *other_rhs,
        (Instruction::Not(value), Instruction::Not(other)) => *value == *other,
        (
            Instruction::Call { func, arguments },
            Instruction::Call { func: other_func, arguments: other_arguments },
        ) => *func == *other_func && same_ids(arguments, other_arguments),
        (Instruction::Allocate, Instruction::Allocate) => true,
        (Instruction::Load { address }, Instruction::Load { address: other }) => *address == *other,
        (
            Instruction::Store { address, value },
            Instruction::Store { address: other_address, value: other_value },
        ) => *address == *other_address && *value == *other_value,
        (
            Instruction::ArrayGet { array, index },
            Instruction::ArrayGet { array: other_array, index: other_index },
        ) => *array == *other_array && *index == *other_index,
        (
            Instruction::ArraySet { array, index, value },
            Instruction::ArraySet { array: other_array, index: other_index, value: other_value },
        ) => *array == *other_array && *index == *other_index && *value == *other_value,
        _ => false,
    }
}

impl FunctionInserter {
    /// Whether the function is well formed and every replacement leads from a
    /// value to one that was made later.
    pub open spec fn wf(&self) -> bool {
        self@.wf()
    }

    /// The value that stands for `value` now.
    pub open spec fn resolved(&self, value: ValueId) -> ValueId {
        canonical(self.values@, value)
    }

    /// An inserter for `function` that has replaced nothing yet.
    pub fn new(function: Function) -> (inserter: FunctionInserter)
        requires
            function.wf(),
        ensures
            inserter.wf(),
            inserter.function == function,
            inserter.values@ == Map::<ValueId, ValueId>::empty(),
    {
        FunctionInserter { function, values: BTreeMap::new() }
    }

    /// The value that stands for `value` now: the end of its chain of
    /// replacements.
    pub fn resolve(&self, value: ValueId) -> (current: ValueId)
        requires
            self.wf(),
        ensures
            current == self.resolved(value),
            value < self.function.dfg@.values.len() ==> current < self.function.dfg@.values.len(),
            !self.values@.contains_key(value) ==> current == value,
    {
        let mut current: ValueId = value;
        let ghost bound = self.function.dfg@.values.len();
        proof {
            assert(self@.replaced == self.values@);
            assert(self@.dfg.values.len() == bound);
            assert forall|k: ValueId| #[trigger] self.values@.contains_key(k) implies k < self.values@[k]
                < bound by {
                assert(self@.replaced.contains_key(k));
            }
            lemma_ascending_lineage_ends(self.values@, value, bound);
            lemma_canonical_is_fixed(self.values@, value);
        }
        loop
            invariant
                forall|k: ValueId| #[trigger] self.values@.contains_key(k) ==> k < self.values@[k] < bound,
                bound == self.function.dfg@.values.len(),
                lineage_ends(self.values@, current),
                canonical(self.values@, current) == canonical(self.values@, value),
                value < bound ==> current < bound,
                !self.values@.contains_key(value) ==> current == value,
            ensures
                current == canonical(self.values@, value),
                value < bound ==> current < bound,
                !self.values@.contains_key(value) ==> current == value,
            decreases bound - current,
        {
            match self.values.get(&current) {
                Some(next) => {
                    proof {
                        lemma_canonical_step(self.values@, current);
                    }
                    current = *next;
                },
                None => {
                    proof {
                        lemma_canonical_is_fixed(self.values@, current);
                    }
                    break ;
                },
            }
        }
        current
    }

    /// Resolves every value of a list.
    fn resolve_all(&self, values: &Vec<ValueId>) -> (current: Vec<ValueId>)
        requires
            self.wf(),
            forall|k: int| 0 <= k < values.len() ==> values[k] < self.function.dfg@.values.len(),
        ensures
            current@ == values@.map_values(resolver(self.values@)),
            forall|k: int| 0 <= k < current.len() ==> current[k] < self.function.dfg@.values.len(),
    {
        let mut current: Vec<ValueId> = Vec::new();
        let mut k: usize = 0;
        while k < values.len()
            invariant
                k <= values.len(),
                self.wf(),
                forall|j: int| 0 <= j < values.len() ==> values[j] < self.function.dfg@.values.len(),
                current.len() == k,
                forall|j: int| 0 <= j < k ==> current[j] == canonical(self.values@, values[j]),
                forall|j: int| 0 <= j < k ==> current[j] < self.function.dfg@.values.len(),
            decreases values.len() - k,
        {
            current.push(self.resolve(values[k]));
            k += 1;
        }
        assert(current@ =~= values@.map_values(resolver(self.values@)));
        current
    }

    /// The instruction `id` with each operand resolved.
    pub fn map_instruction(&self, id: InstructionId) -> (mapped: Instruction)
        requires
            self.wf(),
            id < self.function.dfg@.instructions.len(),
        ensures
            mapped@ == self.function.dfg@.instructions[id as int].map_values(resolver(self.values@)),
            mapped@.reads_below(self.function.dfg@.values.len()),
    {
        let ghost view = self.function.dfg@.instructions[id as int];
        let ghost bound = self.function.dfg@.values.len();
        assert(view.reads_below(bound));
        match self.function.dfg.instruction(id) {
            Instruction::Binary { lhs, operator, rhs } => {
                assert(view.operands()[0] == *lhs && view.operands()[1] == *rhs);
                let mapped = Instruction::Binary {
                    lhs: self.resolve(*lhs),
                    operator: *operator,
                    rhs: self.resolve(*rhs),
                };
                assert(mapped@.operands() =~= seq![mapped->Binary_lhs, mapped->Binary_rhs]);
                mapped
            },
            Instruction::Not(value) => {
                assert(view.operands()[0] == *value);
                Instruction::Not(self.resolve(*value))
            },
            Instruction::Call { func, arguments } => {
                assert(view.operands()[0] == *func);
                assert forall|k: int| 0 <= k < arguments.len() implies arguments[k] < bound by {
                    assert(view.operands()[k + 1] == arguments[k]);
                }
                let mapped = Instruction::Call {
                    func: self.resolve(*func),
                    arguments: self.resolve_all(arguments),
                };
                assert forall|k: int| 0 <= k < mapped@.operands().len() implies #[trigger] mapped@.operands()[k]
                    < bound by {
                    if k > 0 {
                        assert(mapped@.operands()[k] == mapped->Call_arguments[k - 1]);
                    }
                }
                mapped
            },
            Instruction::Allocate => Instruction::Allocate,
            Instruction::Load { address } => {
                assert(view.operands()[0] == *address);
                Instruction::Load { address: self.resolve(*address) }
            },
            Instruction::Store { address, value } => {
                assert(view.operands()[0] == *address && view.operands()[1] == *value);
                Instruction::Store { address: self.resolve(*address), value: self.resolve(*value) }
            },
            Instruction::ArrayGet { array, index } => {
                assert(view.operands()[0] == *array && view.operands()[1] == *index);
                Instruction::ArrayGet { array: self.resolve(*array), index: self.resolve(*index) }
            },
            Instruction::ArraySet { array, index, value } => {
                assert(view.operands()[0] == *array && view.operands()[1] == *index
                    && view.operands()[2] == *value);
                Instruction::ArraySet {
                    array: self.resolve(*array),
                    index: self.resolve(*index),
                    value: self.resolve(*value),
                }
            },
        }
    }

    /// Takes the instructions out of `block`, which is left without any.
    pub fn take_instructions(&mut self, block: BasicBlockId) -> (taken: Vec<InstructionId>)
        requires
            old(self).wf(),
            block < old(self)@.dfg.blocks.len(),
        ensures
            final(self).wf(),
            final(self)@ == old(self)@.emptied(block),
            taken@ == old(self)@.dfg.blocks[block as int].instructions,
    {
        let mut taken: Vec<InstructionId> = Vec::new();
        std::mem::swap(&mut taken, &mut self.function.dfg.blocks[block].instructions);
        proof {
            let goal = old(self)@.emptied(block);
            assert(self@.dfg.values =~= goal.dfg.values);
            assert(self@.dfg.instructions =~= goal.dfg.instructions);
            assert(self@.dfg.results =~= goal.dfg.results);
            assert(self@.dfg.blocks =~= goal.dfg.blocks);
            assert(old(self)@.dfg.blocks[block as int].wf(
                self@.dfg.instructions.len(),
                self@.dfg.values.len(),
                self@.dfg.blocks.len(),
            ));
            assert forall|b: int| 0 <= b < self@.dfg.blocks.len() implies (#[trigger] self@.dfg.blocks[b]).wf(
                self@.dfg.instructions.len(),
                self@.dfg.values.len(),
                self@.dfg.blocks.len(),
            ) by {
                if b != block {
                    assert(self@.dfg.blocks[b] == old(self)@.dfg.blocks[b]);
                }
            }
        }
        taken
    }

    /// Puts the instruction `id` at the end of `block` as it is.
    pub fn keep_instruction(&mut self, id: InstructionId, block: BasicBlockId)
        requires
            old(self).wf(),
            id < old(self)@.dfg.instructions.len(),
            block < old(self)@.dfg.blocks.len(),
        ensures
            final(self).wf(),
            final(self)@ == old(self)@.kept(id, block),
    {
        self.function.dfg.blocks[block].instructions.push(id);
        proof {
            let goal = old(self)@.kept(id, block);
            assert(self@.dfg.values =~= goal.dfg.values);
            assert(self@.dfg.instructions =~= goal.dfg.instructions);
            assert(self@.dfg.results =~= goal.dfg.results);
            assert(self@.dfg.blocks =~= goal.dfg.blocks);
            assert(old(self)@.dfg.blocks[block as int].wf(
                self@.dfg.instructions.len(),
                self@.dfg.values.len(),
                self@.dfg.blocks.len(),
            ));
            assert forall|b: int| 0 <= b < self@.dfg.blocks.len() implies (#[trigger] self@.dfg.blocks[b]).wf(
                self@.dfg.instructions.len(),
                self@.dfg.values.len(),
                self@.dfg.blocks.len(),
            ) by {
                if b != block {
                    assert(self@.dfg.blocks[b] == old(self)@.dfg.blocks[b]);
                }
            }
        }
    }

    /// Puts `instruction` at the end of `block` in place of the instruction
    /// `id`, with new results that replace the results of `id` from now on,
    /// and returns the new results.
    #[verifier::rlimit(50)]
    pub fn push_instruction_value(&mut self, instruction: Instruction, id: InstructionId, block: BasicBlockId) -> (results: Vec<ValueId>)
        requires
            old(self).wf(),
            id < old(self)@.dfg.instructions.len(),
            block < old(self)@.dfg.blocks.len(),
            instruction@.reads_below(old(self)@.dfg.values.len()),
        ensures
            final(self).wf(),
            final(self)@ == old(self)@.inserted(instruction@, id, block),
            results@ == final(self)@.dfg.results.last(),
    {
        let ghost before = self@;
        let ghost goal = before.inserted(instruction@, id, block);
        let olds = self.function.dfg.results[id].clone();
        assert(olds@ =~= before.dfg.results[id as int]);
        let new_id: InstructionId = self.function.dfg.instructions.len();
        let ghost base = before.dfg.values.len();
        let mut results: Vec<ValueId> = Vec::new();
        let mut p: usize = 0;
        while p < olds.len()
            invariant
                p <= olds.len(),
                before.wf(),
                olds@ == before.dfg.results[id as int],
                id < before.dfg.results.len(),
                base == before.dfg.values.len(),
                new_id == before.dfg.instructions.len(),
                self.function.entry_block == before.entry_block,
                self.function.dfg.instructions == old(self).function.dfg.instructions,
                self.function.dfg.results == old(self).function.dfg.results,
                self.function.dfg.blocks == old(self).function.dfg.blocks,
                self@.dfg.values == before.dfg.values + fresh_results(before.dfg.values, new_id, olds@).take(
                    p as int,
                ),
                self.values@ == linked(before.replaced, olds@, base, p as nat),
                results.len() == p,
                forall|q: int| 0 <= q < p ==> results[q] == base + q,
            decreases olds.len() - p,
        {
            let old_result: ValueId = olds[p];
            assert(before.dfg.results[id as int][p as int] < before.dfg.values.len());
            let ghost earlier = self@.dfg.values;
            assert(earlier[old_result as int] == before.dfg.values[old_result as int]);
            let typ = self.function.dfg.type_of_value(old_result);
            let fresh: ValueId = self.function.dfg.values.len();
            let ghost made = fresh_results(before.dfg.values, new_id, olds@);
            assert(made[p as int] == ValueView::Instruction { instruction: new_id, position: p, typ: typ@ });
            self.function.dfg.values.push(Value::Instruction { instruction: new_id, position: p, typ });
            results.push(fresh);
            self.values.insert(old_result, fresh);
            proof {
                assert(self@.dfg.values =~= earlier.push(made[p as int]));
                assert(made.take(p + 1) =~= made.take(p as int).push(made[p as int]));
                assert(self@.dfg.values =~= before.dfg.values + made.take(p + 1));
            }
            p += 1;
        }
        let listed = results.clone();
        assert(listed@ =~= results@);
        self.function.dfg.instructions.push(instruction);
        self.function.dfg.results.push(listed);
        self.function.dfg.blocks[block].instructions.push(new_id);
        proof {
            let made = fresh_results(before.dfg.values, new_id, olds@);
            assert(made.take(olds.len() as int) =~= made);
            assert(self@.dfg.values =~= goal.dfg.values);
            assert(self@.dfg.instructions =~= goal.dfg.instructions);
            assert(results@ =~= Seq::new(olds@.len(), |q: int| (base + q) as usize));
            assert(self@.dfg.results =~= goal.dfg.results);
            assert(self@.dfg.blocks =~= goal.dfg.blocks);
            assert(self@.replaced == goal.replaced);
            assert(self@ == goal);
            assert forall|k: ValueId| #[trigger] self@.replaced.contains_key(k) implies k
                < self@.replaced[k] < self@.dfg.values.len() by {
                lemma_linked_contains(before.replaced, olds@, base, olds@.len(), k);
                if before.replaced.contains_key(k) && self@.replaced[k] == before.replaced[k] {
                } else {
                    let q = choose|q: int|
                        0 <= q < olds@.len() && olds@[q] == k && self@.replaced[k] == base + q;
                    assert(before.dfg.results[id as int][q] < before.dfg.values.len());
                }
            }
            assert forall|i: int| 0 <= i < self@.dfg.instructions.len() implies (#[trigger] self@.dfg.instructions[i]).reads_below(
            self@.dfg.values.len()) by {
                if i < before.dfg.instructions.len() {
                    assert(before.dfg.instructions[i].reads_below(before.dfg.values.len()));
                }
            }
            assert forall|i: int, k: int|
                0 <= i < self@.dfg.results.len() && 0 <= k < self@.dfg.results[i].len() implies #[trigger] self@.dfg.results[i][k]
                < self@.dfg.values.len() by {
                if i < before.dfg.results.len() {
                    assert(before.dfg.results[i][k] < before.dfg.values.len());
                }
            }
            assert(before.dfg.blocks[block as int].wf(
                before.dfg.instructions.len(),
                before.dfg.values.len(),
                before.dfg.blocks.len(),
            ));
            assert forall|b: int| 0 <= b < self@.dfg.blocks.len() implies (#[trigger] self@.dfg.blocks[b]).wf(
                self@.dfg.instructions.len(),
                self@.dfg.values.len(),
                self@.dfg.blocks.len(),
            ) by {
                assert(before.dfg.blocks[b].wf(
                    before.dfg.instructions.len(),
                    before.dfg.values.len(),
                    before.dfg.blocks.len(),
                ));
            }
            assert forall|v: int, j: int|
                0 <= v < self@.dfg.values.len() && 0 <= j < (#[trigger] self@.dfg.values[v]).items().len() implies #[trigger] self@.dfg.values[v].items()[j]
                < v by {
                if v < before.dfg.values.len() {
                    assert(self@.dfg.values[v] == before.dfg.values[v]);
                }
            }
        }
        results
    }

    /// Copies the instruction `id` to the end of `block`: as it is where none
    /// of its operands has been replaced, else as a new instruction that
    /// reads the replacements.
    pub fn push_instruction(&mut self, id: InstructionId, block: BasicBlockId)
        requires
            old(self).wf(),
            id < old(self)@.dfg.instructions.len(),
            block < old(self)@.dfg.blocks.len(),
        ensures
            final(self).wf(),
            final(self)@ == old(self)@.pushed(id, block),
    {
        let mapped = self.map_instruction(id);
        if same_instruction(&mapped, self.function.dfg.instruction(id)) {
            self.keep_instruction(id, block);
        } else {
            self.push_instruction_value(mapped, id, block);
        }
    }

    /// Makes the terminator of `block` read the replacements of its operands.
    pub fn map_terminator_in_place(&mut self, block: BasicBlockId)
        requires
            old(self).wf(),
            block < old(self)@.dfg.blocks.len(),
        ensures
            final(self).wf(),
            final(self)@ == old(self)@.terminated(block),
    {
        let ghost before = self@;
        let ghost bound = before.dfg.values.len();
        assert(before.dfg.blocks[block as int].wf(
            before.dfg.instructions.len(),
            before.dfg.values.len(),
            before.dfg.blocks.len(),
        ));
        let mapped = match &self.function.dfg.blocks[block].terminator {
            Some(TerminatorInstruction::JmpIf { condition, then_destination, else_destination }) => {
                let ghost view = before.dfg.blocks[block as int].terminator.unwrap();
                assert(view.operands()[0] == *condition);
                Some(
                    TerminatorInstruction::JmpIf {
                        condition: self.resolve(*condition),
                        then_destination: *then_destination,
                        else_destination: *else_destination,
                    },
                )
            },
            Some(TerminatorInstruction::Jmp { destination, arguments }) => {
                let ghost view = before.dfg.blocks[block as int].terminator.unwrap();
                assert forall|k: int| 0 <= k < arguments.len() implies arguments[k] < bound by {
                    assert(view.operands()[k] == arguments[k]);
                }
                Some(
                    TerminatorInstruction::Jmp {
                        destination: *destination,
                        arguments: self.resolve_all(arguments),
                    },
                )
            },
            Some(TerminatorInstruction::Return { return_values }) => {
                let ghost view = before.dfg.blocks[block as int].terminator.unwrap();
                assert forall|k: int| 0 <= k < return_values.len() implies return_values[k] < bound by {
                    assert(view.operands()[k] == return_values[k]);
                }
                Some(TerminatorInstruction::Return { return_values: self.resolve_all(return_values) })
            },
            None => None,
        };
        proof {
            if mapped is Some {
                let terminator = mapped->Some_0;
                let view = before.dfg.blocks[block as int].terminator.unwrap();
                assert(terminator@ == view.map_values(resolver(before.replaced)));
                assert(terminator@.successors() =~= view.successors());
                assert forall|k: int| 0 <= k < terminator@.operands().len() implies #[trigger] terminator@.operands()[k]
                    < bound by {}
                assert forall|k: int| 0 <= k < terminator@.successors().len() implies #[trigger] terminator@.successors()[k]
                    < before.dfg.blocks.len() by {
                    assert(view.successors()[k] < before.dfg.blocks.len());
                }
            }
        }
        self.function.dfg.blocks[block].terminator = mapped;
        proof {
            let goal = before.terminated(block);
            assert(self@.dfg.values =~= goal.dfg.values);
            assert(self@.dfg.instructions =~= goal.dfg.instructions);
            assert(self@.dfg.results =~= goal.dfg.results);
            assert(self@.dfg.blocks =~= goal.dfg.blocks);
            assert forall|b: int| 0 <= b < self@.dfg.blocks.len() implies (#[trigger] self@.dfg.blocks[b]).wf(
                self@.dfg.instructions.len(),
                self@.dfg.values.len(),
                self@.dfg.blocks.len(),
            ) by {
                if b != block {
                    assert(self@.dfg.blocks[b] == before.dfg.blocks[b]);
                }
            }
        }
    }
}

} // verus!
