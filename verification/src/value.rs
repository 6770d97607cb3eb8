//! SSA values and the ids that name them.

use crate::field::FieldElement;
use crate::types::{Type, TypeView};
use crate::vector::vector_items;
use im::Vector;
use vstd::prelude::*;

verus! {

/// Names a value of a function: its position in the value store.
pub type ValueId = usize;

/// Names an instruction of a function.
pub type InstructionId = usize;

/// Names a basic block of a function.
pub type BasicBlockId = usize;

/// Names a function of a program.
pub type FunctionId = usize;

/// The operations that the compiler itself provides.
#[derive(Clone, Copy, PartialEq, Eq, Structural, Debug)]
pub enum Intrinsic {
    ArrayLen,
    AssertConstant,
    SlicePushBack,
    SlicePushFront,
    SlicePopBack,
    SlicePopFront,
    SliceInsert,
    SliceRemove,
    StrAsBytes,
    ToBits,
    ToRadix,
    FromField,
    AsField,
}

/// What a value id stands for.
#[derive(Debug)]
pub enum Value {
    /// A result of an instruction.
    Instruction { instruction: InstructionId, position: usize, typ: Type },
    /// A parameter of a block.
    Param { block: BasicBlockId, position: usize, typ: Type },
    /// A constant scalar.
    NumericConstant { constant: FieldElement, typ: Type },
    /// A constant array or slice: its flattened elements, in order.
    Array { array: Vector<ValueId>, typ: Type },
    /// A function of the program.
    Function(FunctionId),
    /// An operation of the compiler.
    Intrinsic(Intrinsic),
    /// A function that the host provides.
    ForeignFunction(String),
}

/// The mathematical value of a [`Value`].
pub ghost enum ValueView {
    Instruction { instruction: InstructionId, position: usize, typ: TypeView },
    Param { block: BasicBlockId, position: usize, typ: TypeView },
    NumericConstant { constant: FieldElement, typ: TypeView },
    Array { array: Seq<ValueId>, typ: TypeView },
    Function(FunctionId),
    Intrinsic(Intrinsic),
    ForeignFunction(Seq<char>),
}

impl View for Value {
    type V = ValueView;

    open spec fn view(&self) -> ValueView {
        match *self {
            Value::Instruction { instruction, position, typ } => ValueView::Instruction {
                instruction,
                position,
                typ: typ@,
            },
            Value::Param { block, position, typ } => ValueView::Param { block, position, typ: typ@ },
            Value::NumericConstant { constant, typ } => ValueView::NumericConstant {
                constant,
                typ: typ@,
            },
            Value::Array { array, typ } => ValueView::Array { array: vector_items(array), typ: typ@ },
            Value::Function(id) => ValueView::Function(id),
            Value::Intrinsic(intrinsic) => ValueView::Intrinsic(intrinsic),
            Value::ForeignFunction(name) => ValueView::ForeignFunction(name@),
        }
    }
}

impl ValueView {
    /// The type of the value.
    pub open spec fn type_of(self) -> TypeView {
        match self {
            ValueView::Instruction { typ, .. } => typ,
            ValueView::Param { typ, .. } => typ,
            ValueView::NumericConstant { typ, .. } => typ,
            ValueView::Array { typ, .. } => typ,
            _ => TypeView::Function,
        }
    }

    /// The flattened elements of an array or slice constant; empty for any
    /// other value.
    pub open spec fn items(self) -> Seq<ValueId> {
        match self {
            ValueView::Array { array, .. } => array,
            _ => Seq::empty(),
        }
    }
}

/// The type of the value that `id` names in a store, `Function` where the
/// store has no such value.
pub open spec fn type_in(values: Seq<ValueView>, id: ValueId) -> TypeView {
    if id < values.len() {
        values[id as int].type_of()
    } else {
        TypeView::Function
    }
}

/// Whether every element of every array constant was made before the array:
/// no array can then contain itself.
pub open spec fn arrays_grounded(values: Seq<ValueView>) -> bool {
    forall|id: int, j: int|
        0 <= id < values.len() && 0 <= j < (#[trigger] values[id]).items().len() ==> #[trigger] values[id].items()[j]
            < id
}

/// Whether `longer` holds every value of `shorter` under the same id.
pub open spec fn extends(shorter: Seq<ValueView>, longer: Seq<ValueView>) -> bool {
    &&& shorter.len() <= longer.len()
    &&& forall|id: int| 0 <= id < shorter.len() ==> longer[id] == shorter[id]
}

impl Value {
    /// The type of the value.
    pub fn get_type(&self) -> (typ: Type)
        ensures
            typ@ == self@.type_of(),
    {
        match self {
            Value::Instruction { typ, .. } => typ.clone(),
            Value::Param { typ, .. } => typ.clone(),
            Value::NumericConstant { typ, .. } => typ.clone(),
            Value::Array { typ, .. } => typ.clone(),
            _ => Type::Function,
        }
    }
}

} // verus!
