//! The value store of a function, its blocks, and whole programs.

use crate::field::FieldElement;
use crate::instruction::{Instruction, InstructionView, TerminatorInstruction, TerminatorView};
use crate::types::{Type, TypeView};
use crate::value::{arrays_grounded, BasicBlockId, InstructionId, Value, ValueId, ValueView};
use crate::vector::{vector_get, vector_items, vector_len};
use im::Vector;
use vstd::prelude::*;

verus! {

/// A straight run of instructions, left through one terminator.
#[derive(Debug)]
pub struct BasicBlock {
    pub instructions: Vec<InstructionId>,
    pub terminator: Option<TerminatorInstruction>,
}

/// The mathematical value of a [`BasicBlock`].
pub ghost struct BlockView {
    pub instructions: Seq<InstructionId>,
    pub terminator: Option<TerminatorView>,
}

impl View for BasicBlock {
    type V = BlockView;

    open spec fn view(&self) -> BlockView {
        BlockView {
            instructions: self.instructions@,
            terminator: match self.terminator {
                Some(terminator) => Some(terminator@),
                None => None,
            },
        }
    }
}

impl BlockView {
    /// Whether the block names only instructions, values and blocks that exist.
    pub open spec fn wf(self, instructions: nat, values: nat, blocks: nat) -> bool {
        &&& forall|k: int|
            0 <= k < self.instructions.len() ==> #[trigger] self.instructions[k] < instructions
        &&& self.terminator matches Some(terminator) ==> {
            &&& forall|k: int|
                0 <= k < terminator.operands().len() ==> #[trigger] terminator.operands()[k] < values
            &&& forall|k: int|
                0 <= k < terminator.successors().len() ==> #[trigger] terminator.successors()[k]
                    < blocks
        }
    }
}

/// Everything a function is made of: values, instructions with their
/// results, and blocks, each kind named by its position.
#[derive(Debug)]
pub struct DataFlowGraph {
    pub values: Vec<Value>,
    pub instructions: Vec<Instruction>,
    pub results: Vec<Vec<ValueId>>,
    pub blocks: Vec<BasicBlock>,
}

/// The mathematical value of a [`DataFlowGraph`].
pub ghost struct DfgView {
    pub values: Seq<ValueView>,
    pub instructions: Seq<InstructionView>,
    pub results: Seq<Seq<ValueId>>,
    pub blocks: Seq<BlockView>,
}

impl View for DataFlowGraph {
    type V = DfgView;

    open spec fn view(&self) -> DfgView {
        DfgView {
            values: Seq::new(self.values.len() as nat, |i: int| self.values[i]@),
            instructions: Seq::new(self.instructions.len() as nat, |i: int| self.instructions[i]@),
            results: Seq::new(self.results.len() as nat, |i: int| self.results[i]@),
            blocks: Seq::new(self.blocks.len() as nat, |i: int| self.blocks[i]@),
        }
    }
}

impl DfgView {
    /// Whether the graph is closed: every id in it names something in it, each
    /// instruction has its list of results, and arrays hold older values only.
    pub open spec fn wf(self) -> bool {
        &&& self.results.len() == self.instructions.len()
        &&& arrays_grounded(self.values)
        &&& forall|i: int|
            0 <= i < self.instructions.len() ==> (#[trigger] self.instructions[i]).reads_below(
                self.values.len(),
            )
        &&& forall|i: int, k: int|
            0 <= i < self.results.len() && 0 <= k < self.results[i].len() ==> #[trigger] self.results[i][k]
                < self.values.len()
        &&& forall|b: int|
            0 <= b < self.blocks.len() ==> (#[trigger] self.blocks[b]).wf(
                self.instructions.len(),
                self.values.len(),
                self.blocks.len(),
            )
    }
}

/// The id of the first scalar constant `constant` of type `typ` that the
/// store holds at `from` or behind it; `None` where it holds none there.
pub open spec fn first_constant(
    values: Seq<ValueView>,
    constant: FieldElement,
    typ: TypeView,
    from: nat,
) -> Option<ValueId>
    decreases values.len() - from,
{
    if from >= values.len() {
        None
    } else if values[from as int] == (ValueView::NumericConstant { constant, typ }) {
        Some(from as ValueId)
    } else {
        first_constant(values, constant, typ, from + 1)
    }
}

impl DataFlowGraph {
    /// Whether the graph is closed. See [`DfgView::wf`].
    pub open spec fn wf(&self) -> bool {
        self@.wf()
    }

    /// A graph with nothing in it.
    pub fn new() -> (dfg: DataFlowGraph)
        ensures
            dfg.wf(),
            dfg@.values.len() == 0,
            dfg@.instructions.len() == 0,
            dfg@.blocks.len() == 0,
    {
        DataFlowGraph { values: Vec::new(), instructions: Vec::new(), results: Vec::new(), blocks: Vec::new() }
    }

    /// The value that `id` names.
    pub fn value(&self, id: ValueId) -> (value: &Value)
        requires
            id < self@.values.len(),
        ensures
            value@ == self@.values[id as int],
    {
        &self.values[id]
    }

    /// The type of the value that `id` names.
    pub fn type_of_value(&self, id: ValueId) -> (typ: Type)
        requires
            id < self@.values.len(),
        ensures
            typ@ == self@.values[id as int].type_of(),
    {
        self.values[id].get_type()
    }

    /// The instruction that `id` names.
    pub fn instruction(&self, id: InstructionId) -> (instruction: &Instruction)
        requires
            id < self@.instructions.len(),
        ensures
            instruction@ == self@.instructions[id as int],
    {
        &self.instructions[id]
    }

    /// The results of an instruction, in order.
    pub fn instruction_results(&self, id: InstructionId) -> (results: &Vec<ValueId>)
        requires
            id < self@.results.len(),
        ensures
            results@ == self@.results[id as int],
    {
        &self.results[id]
    }

    /// The id of the scalar constant `constant` of type `typ`: that of the
    /// first such constant in the store, or of a new one where the store has
    /// none yet.
    pub fn make_constant(&mut self, constant: FieldElement, typ: Type) -> (id: ValueId)
        requires
            old(self).wf(),
        ensures
            final(self).wf(),
            id < final(self)@.values.len(),
            final(self)@.values[id as int] == (ValueView::NumericConstant { constant, typ: typ@ }),
            match first_constant(old(self)@.values, constant, typ@, 0) {
                Some(known) => id == known && final(self)@ == old(self)@,
                None => id == old(self)@.values.len() && final(self)@ == (DfgView {
                    values: old(self)@.values.push(ValueView::NumericConstant { constant, typ: typ@ }),
                    ..old(self)@
                }),
            },
    {
        let ghost values = self@.values;
        let mut k: usize = 0;
        while k < self.values.len()
            invariant
                k <= self.values.len(),
                values == self@.values,
                self == old(self),
                self.wf(),
                first_constant(values, constant, typ@, 0) == first_constant(values, constant, typ@, k as nat),
            decreases self.values.len() - k,
        {
            let found = match &self.values[k] {
                Value::NumericConstant { constant: known, typ: known_type } => {
                    *known == constant && known_type.same_as(&typ)
                },
                _ => false,
            };
            assert(found == (values[k as int] == (ValueView::NumericConstant { constant, typ: typ@ })));
            if found {
                return k;
            }
            k += 1;
        }
        let id = self.values.len();
        self.values.push(Value::NumericConstant { constant, typ });
        proof {
            assert(self@.values =~= old(self)@.values.push(
                ValueView::NumericConstant { constant, typ: typ@ },
            ));
            assert(self@.instructions =~= old(self)@.instructions);
            assert(self@.results =~= old(self)@.results);
            assert(self@.blocks =~= old(self)@.blocks);
        }
        id
    }

    /// Adds a value that is no array to the store and returns its id.
    pub fn make_value(&mut self, value: Value) -> (id: ValueId)
        requires
            old(self).wf(),
            !(value@ is Array),
        ensures
            final(self).wf(),
            id == old(self)@.values.len(),
            final(self)@ == (DfgView { values: old(self)@.values.push(value@), ..old(self)@ }),
    {
        let id = self.values.len();
        let ghost view = value@;
        self.values.push(value);
        proof {
            assert(self@.values =~= old(self)@.values.push(view));
            assert(self@.instructions =~= old(self)@.instructions);
            assert(self@.results =~= old(self)@.results);
            assert(self@.blocks =~= old(self)@.blocks);
        }
        id
    }

    /// Adds a block without instructions and without a terminator, and
    /// returns its id.
    pub fn make_block(&mut self) -> (id: BasicBlockId)
        requires
            old(self).wf(),
        ensures
            final(self).wf(),
            id == old(self)@.blocks.len(),
            final(self)@ == (DfgView {
                blocks: old(self)@.blocks.push(BlockView { instructions: Seq::empty(), terminator: None }),
                ..old(self)@
            }),
    {
        let id = self.blocks.len();
        self.blocks.push(BasicBlock { instructions: Vec::new(), terminator: None });
        proof {
            assert(self@.values =~= old(self)@.values);
            assert(self@.instructions =~= old(self)@.instructions);
            assert(self@.results =~= old(self)@.results);
            assert(self@.blocks =~= old(self)@.blocks.push(
                BlockView { instructions: Seq::empty(), terminator: None },
            ));
            assert forall|b: int| 0 <= b < self@.blocks.len() implies (#[trigger] self@.blocks[b]).wf(
                self@.instructions.len(),
                self@.values.len(),
                self@.blocks.len(),
            ) by {
                if b < old(self)@.blocks.len() {
                    assert(old(self)@.blocks[b].wf(
                        old(self)@.instructions.len(),
                        old(self)@.values.len(),
                        old(self)@.blocks.len(),
                    ));
                }
            }
        }
        id
    }

    /// Puts `instruction` at the end of `block`, with one new result for
    /// each of `result_types`, and returns its id.
    #[verifier::rlimit(50)]
    pub fn insert_instruction(&mut self, block: BasicBlockId, instruction: Instruction, result_types: &Vec<Type>) -> (id: InstructionId)
        requires
            old(self).wf(),
            block < old(self)@.blocks.len(),
            instruction@.reads_below(old(self)@.values.len()),
        ensures
            final(self).wf(),
            id == old(self)@.instructions.len(),
            final(self)@.values == old(self)@.values + Seq::new(
                result_types.len() as nat,
                |p: int| ValueView::Instruction { instruction: id, position: p as usize, typ: result_types[p]@ },
            ),
            final(self)@.instructions == old(self)@.instructions.push(instruction@),
            final(self)@.results == old(self)@.results.push(
                Seq::new(result_types.len() as nat, |p: int| (old(self)@.values.len() + p) as usize),
            ),
            final(self)@.blocks == old(self)@.blocks.update(
                block as int,
                BlockView {
                    instructions: old(self)@.blocks[block as int].instructions.push(id),
                    ..old(self)@.blocks[block as int]
                },
            ),
    {
        let ghost before = self@;
        let ghost base = before.values.len();
        let id: InstructionId = self.instructions.len();
        let ghost made = Seq::new(
            result_types.len() as nat,
            |p: int| ValueView::Instruction { instruction: id, position: p as usize, typ: result_types[p]@ },
        );
        let mut results: Vec<ValueId> = Vec::new();
        let mut p: usize = 0;
        while p < result_types.len()
            invariant
                p <= result_types.len(),
                before.wf(),
                base == before.values.len(),
                id == before.instructions.len(),
                self.instructions == old(self).instructions,
                self.results == old(self).results,
                self.blocks == old(self).blocks,
                made == Seq::new(
                    result_types.len() as nat,
                    |p: int| ValueView::Instruction { instruction: id, position: p as usize, typ: result_types[p]@ },
                ),
                self@.values == before.values + made.take(p as int),
                results.len() == p,
                forall|q: int| 0 <= q < p ==> results[q] == base + q,
            decreases result_types.len() - p,
        {
            let ghost earlier = self@.values;
            let fresh: ValueId = self.values.len();
            self.values.push(Value::Instruction { instruction: id, position: p, typ: result_types[p].clone() });
            results.push(fresh);
            proof {
                assert(self@.values =~= earlier.push(made[p as int]));
                assert(made.take(p + 1) =~= made.take(p as int).push(made[p as int]));
                assert(self@.values =~= before.values + made.take(p + 1));
            }
            p += 1;
        }
        let ghost listed = results@;
        self.instructions.push(instruction);
        self.results.push(results);
        self.blocks[block].instructions.push(id);
        proof {
            assert(made.take(result_types.len() as int) =~= made);
            assert(self@.values =~= before.values + made);
            assert(self@.instructions =~= before.instructions.push(instruction@));
            assert(listed =~= Seq::new(result_types.len() as nat, |q: int| (base + q) as usize));
            assert(self@.results =~= before.results.push(listed));
            assert(self@.blocks =~= before.blocks.update(
                block as int,
                BlockView {
                    instructions: before.blocks[block as int].instructions.push(id),
                    ..before.blocks[block as int]
                },
            ));
            assert forall|i: int| 0 <= i < self@.instructions.len() implies (#[trigger] self@.instructions[i]).reads_below(
            self@.values.len()) by {
                if i < before.instructions.len() {
                    assert(before.instructions[i].reads_below(before.values.len()));
                }
            }
            assert forall|i: int, k: int|
                0 <= i < self@.results.len() && 0 <= k < self@.results[i].len() implies #[trigger] self@.results[i][k]
                < self@.values.len() by {
                if i < before.results.len() {
                    assert(before.results[i][k] < before.values.len());
                }
            }
            assert forall|b: int| 0 <= b < self@.blocks.len() implies (#[trigger] self@.blocks[b]).wf(
                self@.instructions.len(),
                self@.values.len(),
                self@.blocks.len(),
            ) by {
                assert(before.blocks[b].wf(
                    before.instructions.len(),
                    before.values.len(),
                    before.blocks.len(),
                ));
            }
            assert forall|v: int, j: int|
                0 <= v < self@.values.len() && 0 <= j < (#[trigger] self@.values[v]).items().len() implies #[trigger] self@.values[v].items()[j]
                < v by {
                if v < before.values.len() {
                    assert(self@.values[v] == before.values[v]);
                }
            }
        }
        id
    }

    /// Makes `terminator` the terminator of `block`.
    pub fn set_terminator(&mut self, block: BasicBlockId, terminator: TerminatorInstruction)
        requires
            old(self).wf(),
            block < old(self)@.blocks.len(),
            forall|k: int|
                0 <= k < terminator@.operands().len() ==> #[trigger] terminator@.operands()[k] < old(self)@.values.len(),
            forall|k: int|
                0 <= k < terminator@.successors().len() ==> #[trigger] terminator@.successors()[k] < old(self)@.blocks.len(),
        ensures
            final(self).wf(),
            final(self)@ == (DfgView {
                blocks: old(self)@.blocks.update(
                    block as int,
                    BlockView { terminator: Some(terminator@), ..old(self)@.blocks[block as int] },
                ),
                ..old(self)@
            }),
    {
        let ghost before = self@;
        let ghost view = terminator@;
        assert(before.blocks[block as int].wf(
            before.instructions.len(),
            before.values.len(),
            before.blocks.len(),
        ));
        self.blocks[block].terminator = Some(terminator);
        proof {
            assert(self@.values =~= before.values);
            assert(self@.instructions =~= before.instructions);
            assert(self@.results =~= before.results);
            assert(self@.blocks =~= before.blocks.update(
                block as int,
                BlockView { terminator: Some(view), ..before.blocks[block as int] },
            ));
            assert forall|b: int| 0 <= b < self@.blocks.len() implies (#[trigger] self@.blocks[b]).wf(
                self@.instructions.len(),
                self@.values.len(),
                self@.blocks.len(),
            ) by {
                if b != block {
                    assert(self@.blocks[b] == before.blocks[b]);
                }
            }
        }
    }

    /// Adds an array or slice constant with the given flattened elements to
    /// the store and returns its id.
    pub fn make_array(&mut self, array: Vector<ValueId>, typ: Type) -> (id: ValueId)
        requires
            old(self).wf(),
            forall|j: int|
                0 <= j < vector_items(array).len() ==> #[trigger] vector_items(array)[j] < old(self)@.values.len(),
        ensures
            final(self).wf(),
            id == old(self)@.values.len(),
            final(self)@ == (DfgView {
                values: old(self)@.values.push(
                    ValueView::Array { array: vector_items(array), typ: typ@ },
                ),
                ..old(self)@
            }),
    {
        let id = self.values.len();
        let ghost items = vector_items(array);
        self.values.push(Value::Array { array, typ });
        proof {
            assert(self@.values =~= old(self)@.values.push(
                ValueView::Array { array: items, typ: typ@ },
            ));
            assert(self@.instructions =~= old(self)@.instructions);
            assert(self@.results =~= old(self)@.results);
            assert(self@.blocks =~= old(self)@.blocks);
        }
        id
    }
}

/// One function of a program.
#[derive(Debug)]
pub struct Function {
    pub entry_block: BasicBlockId,
    pub dfg: DataFlowGraph,
}

impl Function {
    /// Whether the function's graph is closed and holds its entry block.
    pub open spec fn wf(&self) -> bool {
        &&& self.dfg.wf()
        &&& self.entry_block < self.dfg@.blocks.len()
    }
}

/// A program: its functions, each named by its position.
#[derive(Debug)]
pub struct Ssa {
    pub functions: Vec<Function>,
}

/// Whether every id of `list` is below `bound`.
fn all_below(list: &Vec<usize>, bound: usize) -> (ok: bool)
    ensures
        ok == forall|k: int| 0 <= k < list.len() ==> list[k] < bound,
{
    let mut k: usize = 0;
    while k < list.len()
        invariant
            k <= list.len(),
            forall|j: int| 0 <= j < k ==> list[j] < bound,
        decreases list.len() - k,
    {
        if list[k] >= bound {
            return false;
        }
        k += 1;
    }
    true
}

/// Whether every value that the instruction reads has an id below `bound`.
fn instruction_reads_below(instruction: &Instruction, bound: usize) -> (ok: bool)
    ensures
        ok == instruction@.reads_below(bound as nat),
{
    let ghost operands = instruction@.operands();
    match instruction {
        Instruction::Binary { lhs, rhs, .. } => {
            assert(operands[0] == *lhs && operands[1] == *rhs);
            *lhs < bound && *rhs < bound
        },
        Instruction::Not(value) => {
            assert(operands[0] == *value);
            *value < bound
        },
        Instruction::Call { func, arguments } => {
            assert(operands[0] == *func);
            let ok = *func < bound && all_below(arguments, bound);
            proof {
                if ok {
                    assert forall|k: int| 0 <= k < operands.len() implies #[trigger] operands[k] < bound by {
                        if k > 0 {
                            assert(operands[k] == arguments[k - 1]);
                        }
                    }
                } else if *func < bound {
                    let k = choose|k: int| 0 <= k < arguments.len() && !(arguments[k] < bound);
                    assert(operands[k + 1] == arguments[k]);
                }
            }
            ok
        },
        Instruction::Allocate => true,
        Instruction::Load { address } => {
            assert(operands[0] == *address);
            *address < bound
        },
        Instruction::Store { address, value } => {
            assert(operands[0] == *address && operands[1] == *value);
            *address < bound && *value < bound
        },
        Instruction::ArrayGet { array, index } => {
            assert(operands[0] == *array && operands[1] == *index);
            *array < bound && *index < bound
        },
        Instruction::ArraySet { array, index, value } => {
            assert(operands[0] == *array && operands[1] == *index && operands[2] == *value);
            *array < bound && *index < bound && *value < bound
        },
    }
}

impl BasicBlock {
    /// Whether the block names only instructions, values and blocks that
    /// exist. See [`BlockView::wf`].
    pub fn is_well_formed(&self, instructions: usize, values: usize, blocks: usize) -> (ok: bool)
        ensures
            ok == self@.wf(instructions as nat, values as nat, blocks as nat),
    {
        if !all_below(&self.instructions, instructions) {
            let ghost k = choose|k: int| 0 <= k < self.instructions.len() && !(self.instructions[k] < instructions);
            assert(!(self@.instructions[k] < instructions));
            return false;
        }
        match &self.terminator {
            None => true,
            Some(TerminatorInstruction::JmpIf { condition, then_destination, else_destination }) => {
                let ghost view = self@.terminator.unwrap();
                assert(view.operands()[0] == *condition);
                assert(view.successors()[0] == *then_destination && view.successors()[1] == *else_destination);
                *condition < values && *then_destination < blocks && *else_destination < blocks
            },
            Some(TerminatorInstruction::Jmp { destination, arguments }) => {
                let ghost view = self@.terminator.unwrap();
                assert(view.successors()[0] == *destination);
                let known = all_below(arguments, values);
                proof {
                    if !known {
                        let k = choose|k: int| 0 <= k < arguments.len() && !(arguments[k] < values);
                        assert(!(view.operands()[k] < values));
                    }
                }
                known && *destination < blocks
            },
            Some(TerminatorInstruction::Return { return_values }) => {
                let ghost view = self@.terminator.unwrap();
                let ok = all_below(return_values, values);
                proof {
                    if !ok {
                        let k = choose|k: int| 0 <= k < return_values.len() && !(return_values[k] < values);
                        assert(!(view.operands()[k] < values));
                    }
                }
                ok
            },
        }
    }
}

impl DataFlowGraph {
    /// Whether every element of every array constant was made before the
    /// array. See [`arrays_grounded`].
    fn arrays_are_grounded(&self) -> (ok: bool)
        ensures
            ok == arrays_grounded(self@.values),
    {
        let ghost values = self@.values;
        let mut id: usize = 0;
        while id < self.values.len()
            invariant
                id <= self.values.len(),
                values == self@.values,
                forall|v: int, j: int|
                    0 <= v < id && 0 <= j < (#[trigger] values[v]).items().len() ==> #[trigger] values[v].items()[j]
                        < v,
            decreases self.values.len() - id,
        {
            if let Value::Array { array, .. } = &self.values[id] {
                let length = vector_len(array);
                let mut j: usize = 0;
                while j < length
                    invariant
                        j <= length,
                        id < self.values.len(),
                        values == self@.values,
                        length == vector_items(*array).len(),
                        values[id as int].items() == vector_items(*array),
                        forall|k: int| 0 <= k < j ==> values[id as int].items()[k] < id,
                    decreases length - j,
                {
                    if vector_get(array, j).unwrap() >= id {
                        assert(!(values[id as int].items()[j as int] < id));
                        return false;
                    }
                    j += 1;
                }
            }
            id += 1;
        }
        true
    }

    /// Whether the graph is closed. See [`DfgView::wf`].
    pub fn is_well_formed(&self) -> (ok: bool)
        ensures
            ok == self.wf(),
    {
        let ghost view = self@;
        if self.results.len() != self.instructions.len() {
            return false;
        }
        if !self.arrays_are_grounded() {
            return false;
        }
        let bound = self.values.len();
        let mut i: usize = 0;
        while i < self.instructions.len()
            invariant
                i <= self.instructions.len(),
                view == self@,
                bound == self.values.len(),
                self.results.len() == self.instructions.len(),
                forall|k: int| 0 <= k < i ==> (#[trigger] view.instructions[k]).reads_below(bound as nat),
                forall|k: int, r: int|
                    0 <= k < i && 0 <= r < view.results[k].len() ==> #[trigger] view.results[k][r] < bound,
            decreases self.instructions.len() - i,
        {
            if !instruction_reads_below(&self.instructions[i], bound) {
                assert(!view.instructions[i as int].reads_below(bound as nat));
                return false;
            }
            if !all_below(&self.results[i], bound) {
                let ghost r = choose|r: int| 0 <= r < self.results[i as int].len() && !(self.results[i as int][r] < bound);
                assert(!(view.results[i as int][r] < bound));
                return false;
            }
            i += 1;
        }
        let mut b: usize = 0;
        while b < self.blocks.len()
            invariant
                b <= self.blocks.len(),
                view == self@,
                forall|k: int|
                    0 <= k < b ==> (#[trigger] view.blocks[k]).wf(
                        view.instructions.len(),
                        view.values.len(),
                        view.blocks.len(),
                    ),
            decreases self.blocks.len() - b,
        {
            if !self.blocks[b].is_well_formed(self.instructions.len(), self.values.len(), self.blocks.len()) {
                assert(!view.blocks[b as int].wf(
                    view.instructions.len(),
                    view.values.len(),
                    view.blocks.len(),
                ));
                return false;
            }
            b += 1;
        }
        true
    }
}

impl Function {
    /// Whether the function's graph is closed and holds its entry block.
    /// See [`Function::wf`].
    pub fn is_well_formed(&self) -> (ok: bool)
        ensures
            ok == self.wf(),
    {
        self.dfg.is_well_formed() && self.entry_block < self.dfg.blocks.len()
    }
}

} // verus!
