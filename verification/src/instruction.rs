//! Instructions and block terminators.

use crate::value::{BasicBlockId, ValueId};
use vstd::prelude::*;

verus! {

/// The operator of a binary instruction.
#[derive(Clone, Copy, PartialEq, Eq, Structural, Debug)]
pub enum BinaryOp {
    Add,
    Sub,
    Mul,
    Div,
    Mod,
    Eq,
    Lt,
    And,
    Or,
    Xor,
}

/// One instruction of a block.
#[derive(Debug)]
pub enum Instruction {
    /// Combines two scalars.
    Binary { lhs: ValueId, operator: BinaryOp, rhs: ValueId },
    /// Negates a scalar bit by bit.
    Not(ValueId),
    /// Calls a function, an intrinsic or a foreign function.
    Call { func: ValueId, arguments: Vec<ValueId> },
    /// Reserves a memory cell.
    Allocate,
    /// Reads a memory cell.
    Load { address: ValueId },
    /// Writes a memory cell.
    Store { address: ValueId, value: ValueId },
    /// Reads one slot of an array or slice.
    ArrayGet { array: ValueId, index: ValueId },
    /// Makes a copy of an array or slice with one slot replaced.
    ArraySet { array: ValueId, index: ValueId, value: ValueId },
}

/// The mathematical value of an [`Instruction`].
pub ghost enum InstructionView {
    Binary { lhs: ValueId, operator: BinaryOp, rhs: ValueId },
    Not(ValueId),
    Call { func: ValueId, arguments: Seq<ValueId> },
    Allocate,
    Load { address: ValueId },
    Store { address: ValueId, value: ValueId },
    ArrayGet { array: ValueId, index: ValueId },
    ArraySet { array: ValueId, index: ValueId, value: ValueId },
}

impl View for Instruction {
    type V = InstructionView;

    open spec fn view(&self) -> InstructionView {
        match *self {
            Instruction::Binary { lhs, operator, rhs } => InstructionView::Binary { lhs, operator, rhs },
            Instruction::Not(value) => InstructionView::Not(value),
            Instruction::Call { func, arguments } => InstructionView::Call {
                func,
                arguments: arguments@,
            },
            Instruction::Allocate => InstructionView::Allocate,
            Instruction::Load { address } => InstructionView::Load { address },
            Instruction::Store { address, value } => InstructionView::Store { address, value },
            Instruction::ArrayGet { array, index } => InstructionView::ArrayGet { array, index },
            Instruction::ArraySet { array, index, value } => InstructionView::ArraySet {
                array,
                index,
                value,
            },
        }
    }
}

impl InstructionView {
    /// The values that the instruction reads, in the order it names them.
    pub open spec fn operands(self) -> Seq<ValueId> {
        match self {
            InstructionView::Binary { lhs, rhs, .. } => seq![lhs, rhs],
            InstructionView::Not(value) => seq![value],
            InstructionView::Call { func, arguments } => seq![func] + arguments,
            InstructionView::Allocate => Seq::empty(),
            InstructionView::Load { address } => seq![address],
            InstructionView::Store { address, value } => seq![address, value],
            InstructionView::ArrayGet { array, index } => seq![array, index],
            InstructionView::ArraySet { array, index, value } => seq![array, index, value],
        }
    }

    /// The same instruction reading `with(v)` wherever it read `v`.
    pub open spec fn map_values(self, with: spec_fn(ValueId) -> ValueId) -> InstructionView {
        match self {
            InstructionView::Binary { lhs, operator, rhs } => InstructionView::Binary {
                lhs: with(lhs),
                operator,
                rhs: with(rhs),
            },
            InstructionView::Not(value) => InstructionView::Not(with(value)),
            InstructionView::Call { func, arguments } => InstructionView::Call {
                func: with(func),
                arguments: arguments.map_values(with),
            },
            InstructionView::Allocate => InstructionView::Allocate,
            InstructionView::Load { address } => InstructionView::Load { address: with(address) },
            InstructionView::Store { address, value } => InstructionView::Store {
                address: with(address),
                value: with(value),
            },
            InstructionView::ArrayGet { array, index } => InstructionView::ArrayGet {
                array: with(array),
                index: with(index),
            },
            InstructionView::ArraySet { array, index, value } => InstructionView::ArraySet {
                array: with(array),
                index: with(index),
                value: with(value),
            },
        }
    }

    /// Whether every value that the instruction reads has an id below `bound`.
    pub open spec fn reads_below(self, bound: nat) -> bool {
        forall|k: int| 0 <= k < self.operands().len() ==> #[trigger] self.operands()[k] < bound
    }
}

/// How control leaves a block.
#[derive(Debug)]
pub enum TerminatorInstruction {
    /// Goes to one of two blocks, by a condition.
    JmpIf { condition: ValueId, then_destination: BasicBlockId, else_destination: BasicBlockId },
    /// Goes to a block, handing it arguments.
    Jmp { destination: BasicBlockId, arguments: Vec<ValueId> },
    /// Leaves the function.
    Return { return_values: Vec<ValueId> },
}

/// The mathematical value of a [`TerminatorInstruction`].
pub ghost enum TerminatorView {
    JmpIf { condition: ValueId, then_destination: BasicBlockId, else_destination: BasicBlockId },
    Jmp { destination: BasicBlockId, arguments: Seq<ValueId> },
    Return { return_values: Seq<ValueId> },
}

impl View for TerminatorInstruction {
    type V = TerminatorView;

    open spec fn view(&self) -> TerminatorView {
        match *self {
            TerminatorInstruction::JmpIf { condition, then_destination, else_destination } => {
                TerminatorView::JmpIf { condition, then_destination, else_destination }
            },
            TerminatorInstruction::Jmp { destination, arguments } => TerminatorView::Jmp {
                destination,
                arguments: arguments@,
            },
            TerminatorInstruction::Return { return_values } => TerminatorView::Return {
                return_values: return_values@,
            },
        }
    }
}

impl TerminatorView {
    /// The values that the terminator reads.
    pub open spec fn operands(self) -> Seq<ValueId> {
        match self {
            TerminatorView::JmpIf { condition, .. } => seq![condition],
            TerminatorView::Jmp { arguments, .. } => arguments,
            TerminatorView::Return { return_values } => return_values,
        }
    }

    /// The blocks that control may go to next.
    pub open spec fn successors(self) -> Seq<BasicBlockId> {
        match self {
            TerminatorView::JmpIf { then_destination, else_destination, .. } => seq![
                then_destination,
                else_destination,
            ],
            TerminatorView::Jmp { destination, .. } => seq![destination],
            TerminatorView::Return { .. } => Seq::empty(),
        }
    }

    /// The same terminator reading `with(v)` wherever it read `v`.
    pub open spec fn map_values(self, with: spec_fn(ValueId) -> ValueId) -> TerminatorView {
        match self {
            TerminatorView::JmpIf { condition, then_destination, else_destination } => {
                TerminatorView::JmpIf { condition: with(condition), then_destination, else_destination }
            },
            TerminatorView::Jmp { destination, arguments } => TerminatorView::Jmp {
                destination,
                arguments: arguments.map_values(with),
            },
            TerminatorView::Return { return_values } => TerminatorView::Return {
                return_values: return_values.map_values(with),
            },
        }
    }
}

} // verus!
