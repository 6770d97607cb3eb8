//! Bytecode for the unconstrained register machine: the opcodes, and the
//! short programs that compute what a circuit can check but not compute.

use crate::field::FieldElement;
use crate::value::ValueId;
use std::collections::BTreeMap;
use vstd::prelude::*;

verus! {

/// A position in the program.
pub type Label = usize;

/// Names a register of the machine.
#[derive(Clone, Copy, PartialEq, Eq, Structural, Debug)]
pub struct RegisterIndex(pub usize);

/// A value that a register holds.
#[derive(Clone, Copy, PartialEq, Eq, Structural, Debug)]
pub struct Value {
    pub inner: FieldElement,
}

/// An operation on two field elements.
#[derive(Clone, Copy, PartialEq, Eq, Structural, Debug)]
pub enum BinaryFieldOp {
    Add,
    Sub,
    Mul,
    Div,
    Equals,
}

/// An operation on two integers of a given width.
#[derive(Clone, Copy, PartialEq, Eq, Structural, Debug)]
pub enum BinaryIntOp {
    Add,
    Sub,
    Mul,
    SignedDiv,
    UnsignedDiv,
    Equals,
    LessThan,
    LessThanEquals,
    And,
    Or,
    Xor,
    Shl,
    Shr,
}

/// Where a foreign call finds an input or leaves an output.
#[allow(inconsistent_fields)]
#[derive(Clone, Copy, PartialEq, Eq, Structural, Debug)]
pub enum RegisterOrMemory {
    RegisterIndex(RegisterIndex),
    HeapArray { pointer: RegisterIndex, size: usize },
    HeapVector { pointer: RegisterIndex, size: RegisterIndex },
}

/// One instruction of the machine.
#[allow(inconsistent_fields)]
#[derive(Debug)]
pub enum Opcode {
    BinaryFieldOp { destination: RegisterIndex, op: BinaryFieldOp, lhs: RegisterIndex, rhs: RegisterIndex },
    BinaryIntOp {
        destination: RegisterIndex,
        op: BinaryIntOp,
        bit_size: u32,
        lhs: RegisterIndex,
        rhs: RegisterIndex,
    },
    JumpIfNot { condition: RegisterIndex, location: Label },
    JumpIf { condition: RegisterIndex, location: Label },
    Jump { location: Label },
    Call { location: Label },
    Const { destination: RegisterIndex, value: Value },
    Return,
    ForeignCall { function: String, destinations: Vec<RegisterOrMemory>, inputs: Vec<RegisterOrMemory> },
    Mov { destination: RegisterIndex, source: RegisterIndex },
    Load { destination: RegisterIndex, source_pointer: RegisterIndex },
    Store { destination_pointer: RegisterIndex, source: RegisterIndex },
    Trap,
    Stop,
}

/// The mathematical value of an [`Opcode`].
#[allow(inconsistent_fields)]
pub ghost enum OpcodeView {
    BinaryFieldOp { destination: RegisterIndex, op: BinaryFieldOp, lhs: RegisterIndex, rhs: RegisterIndex },
    BinaryIntOp {
        destination: RegisterIndex,
        op: BinaryIntOp,
        bit_size: u32,
        lhs: RegisterIndex,
        rhs: RegisterIndex,
    },
    JumpIfNot { condition: RegisterIndex, location: Label },
    JumpIf { condition: RegisterIndex, location: Label },
    Jump { location: Label },
    Call { location: Label },
    Const { destination: RegisterIndex, value: Value },
    Return,
    ForeignCall {
        function: Seq<char>,
        destinations: Seq<RegisterOrMemory>,
        inputs: Seq<RegisterOrMemory>,
    },
    Mov { destination: RegisterIndex, source: RegisterIndex },
    Load { destination: RegisterIndex, source_pointer: RegisterIndex },
    Store { destination_pointer: RegisterIndex, source: RegisterIndex },
    Trap,
    Stop,
}

impl View for Opcode {
    type V = OpcodeView;

    open spec fn view(&self) -> OpcodeView {
        match *self {
            Opcode::BinaryFieldOp { destination, op, lhs, rhs } => OpcodeView::BinaryFieldOp {
                destination,
                op,
                lhs,
                rhs,
            },
            Opcode::BinaryIntOp { destination, op, bit_size, lhs, rhs } => OpcodeView::BinaryIntOp {
                destination,
                op,
                bit_size,
                lhs,
                rhs,
            },
            Opcode::JumpIfNot { condition, location } => OpcodeView::JumpIfNot { condition, location },
            Opcode::JumpIf { condition, location } => OpcodeView::JumpIf { condition, location },
            Opcode::Jump { location } => OpcodeView::Jump { location },
            Opcode::Call { location } => OpcodeView::Call { location },
            Opcode::Const { destination, value } => OpcodeView::Const { destination, value },
            Opcode::Return => OpcodeView::Return,
            Opcode::ForeignCall { function, destinations, inputs } => OpcodeView::ForeignCall {
                function: function@,
                destinations: destinations@,
                inputs: inputs@,
            },
            Opcode::Mov { destination, source } => OpcodeView::Mov { destination, source },
            Opcode::Load { destination, source_pointer } => OpcodeView::Load { destination, source_pointer },
            Opcode::Store { destination_pointer, source } => OpcodeView::Store {
                destination_pointer,
                source,
            },
            Opcode::Trap => OpcodeView::Trap,
            Opcode::Stop => OpcodeView::Stop,
        }
    }
}

/// A finished piece of bytecode with its side tables: the messages of the
/// assertions in it and the source locations of its opcodes, each by the
/// position of the opcode.
#[derive(Debug)]
pub struct GeneratedBrillig {
    pub byte_code: Vec<Opcode>,
    pub locations: BTreeMap<usize, Vec<usize>>,
    pub assert_messages: BTreeMap<usize, String>,
}

impl GeneratedBrillig {
    /// The opcodes, in order.
    pub open spec fn program(&self) -> Seq<OpcodeView> {
        Seq::new(self.byte_code.len() as nat, |i: int| self.byte_code[i]@)
    }

    /// Whether both side tables are empty.
    pub open spec fn is_bare(&self) -> bool {
        &&& self.locations@.dom() == Set::<usize>::empty()
        &&& self.assert_messages@.dom() == Set::<usize>::empty()
    }
}

/// The register value one.
pub open spec fn one() -> Value {
    Value { inner: FieldElement { high: 0, low: 1 } }
}

/// The program that inverts register 0 in place and leaves a zero as it is:
/// it skips to the end on zero, else divides one by the register.
pub open spec fn invert_program() -> Seq<OpcodeView> {
    seq![
        OpcodeView::JumpIfNot { condition: RegisterIndex(0), location: 3 },
        OpcodeView::Const { destination: RegisterIndex(1), value: one() },
        OpcodeView::BinaryFieldOp {
            destination: RegisterIndex(0),
            op: BinaryFieldOp::Div,
            lhs: RegisterIndex(1),
            rhs: RegisterIndex(0),
        },
        OpcodeView::Stop,
    ]
}

/// The program that divides register 0 by register 1 as unsigned integers of
/// `bit_size` bits: the quotient goes to register 2, the product of quotient
/// and divisor to register 1, then the remainder to register 1 and the
/// quotient to register 0.
pub open spec fn quotient_program(bit_size: u32) -> Seq<OpcodeView> {
    seq![
        OpcodeView::BinaryIntOp {
            destination: RegisterIndex(2),
            op: BinaryIntOp::UnsignedDiv,
            bit_size,
            lhs: RegisterIndex(0),
            rhs: RegisterIndex(1),
        },
        OpcodeView::BinaryIntOp {
            destination: RegisterIndex(1),
            op: BinaryIntOp::Mul,
            bit_size,
            lhs: RegisterIndex(2),
            rhs: RegisterIndex(1),
        },
        OpcodeView::BinaryIntOp {
            destination: RegisterIndex(1),
            op: BinaryIntOp::Sub,
            bit_size,
            lhs: RegisterIndex(0),
            rhs: RegisterIndex(1),
        },
        OpcodeView::Mov { destination: RegisterIndex(0), source: RegisterIndex(2) },
        OpcodeView::Stop,
    ]
}

/// The program that asks the host for the message of a failed assertion: one
/// foreign call that names no input and no output, then a stop.
pub open spec fn assert_message_program() -> Seq<OpcodeView> {
    seq![
        OpcodeView::ForeignCall {
            function: "resolve_assert_message"@,
            destinations: Seq::empty(),
            inputs: Seq::empty(),
        },
        OpcodeView::Stop,
    ]
}

/// Bytecode that leaves in register 0 the inverse of what it held, or zero
/// where it held zero. Register 1 is written on the way.
pub fn directive_invert() -> (artifact: GeneratedBrillig)
    ensures
        artifact.program() == invert_program(),
        artifact.is_bare(),
{
    // The value to invert; the result goes to the same register.
    let input = RegisterIndex(0);
    let one_const = RegisterIndex(1);
    // Where the stop opcode stands.
    let stop_location: Label = 3;
    let one_value = Value { inner: FieldElement::from_usize(1) };
    assert(one_value == one());
    let mut byte_code: Vec<Opcode> = Vec::new();
    // On zero, go to the stop opcode.
    byte_code.push(Opcode::JumpIfNot { condition: input, location: stop_location });
    byte_code.push(Opcode::Const { destination: one_const, value: one_value });
    // Divide one by the input and leave the quotient where the input was.
    byte_code.push(
        Opcode::BinaryFieldOp { op: BinaryFieldOp::Div, lhs: one_const, rhs: input, destination: input },
    );
    byte_code.push(Opcode::Stop);
    let artifact = GeneratedBrillig {
        byte_code,
        locations: BTreeMap::new(),
        assert_messages: BTreeMap::new(),
    };
    assert(artifact.program() =~= invert_program());
    artifact
}

/// Bytecode that divides register 0 by register 1 as unsigned integers of
/// `bit_size` bits, and leaves the quotient in register 0 and the remainder
/// in register 1. Registers 1 and 2 are written on the way.
///
/// The program does not test its divisor: on a divisor of zero the
/// machine's own integer division breaks the run off.
pub fn directive_quotient(bit_size: u32) -> (artifact: GeneratedBrillig)
    ensures
        artifact.program() == quotient_program(bit_size),
        artifact.is_bare(),
{
    let mut byte_code: Vec<Opcode> = Vec::new();
    // q = a / b goes to register 2.
    byte_code.push(
        Opcode::BinaryIntOp {
            op: BinaryIntOp::UnsignedDiv,
            lhs: RegisterIndex(0),
            rhs: RegisterIndex(1),
            destination: RegisterIndex(2),
            bit_size,
        },
    );
    // Register 1 = q * b.
    byte_code.push(
        Opcode::BinaryIntOp {
            op: BinaryIntOp::Mul,
            lhs: RegisterIndex(2),
            rhs: RegisterIndex(1),
            destination: RegisterIndex(1),
            bit_size,
        },
    );
    // Register 1 = a - q * b.
    byte_code.push(
        Opcode::BinaryIntOp {
            op: BinaryIntOp::Sub,
            lhs: RegisterIndex(0),
            rhs: RegisterIndex(1),
            destination: RegisterIndex(1),
            bit_size,
        },
    );
    // Register 0 = q.
    byte_code.push(Opcode::Mov { destination: RegisterIndex(0), source: RegisterIndex(2) });
    byte_code.push(Opcode::Stop);
    let artifact = GeneratedBrillig {
        byte_code,
        locations: BTreeMap::new(),
        assert_messages: BTreeMap::new(),
    };
    assert(artifact.program() =~= quotient_program(bit_size));
    artifact
}

/// Bytecode that asks the host for the message of a failed assertion. The
/// call names neither inputs nor outputs, whatever `inputs` holds: the
/// caller wires them in.
pub fn directive_assert_message(inputs: &[ValueId]) -> (artifact: GeneratedBrillig)
    ensures
        artifact.program() == assert_message_program(),
        artifact.is_bare(),
{
    let mut byte_code: Vec<Opcode> = Vec::new();
    byte_code.push(
        Opcode::ForeignCall {
            function: "resolve_assert_message".to_owned(),
            destinations: Vec::new(),
            inputs: Vec::new(),
        },
    );
    byte_code.push(Opcode::Stop);
    let artifact = GeneratedBrillig {
        byte_code,
        locations: BTreeMap::new(),
        assert_messages: BTreeMap::new(),
    };
    assert(artifact.program() =~= assert_message_program());
    artifact
}

} // verus!
