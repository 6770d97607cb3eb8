use acvm::acir::brillig::{
    BinaryFieldOp as VmFieldOp, BinaryIntOp as VmIntOp, Opcode as VmOpcode, RegisterIndex as VmRegister,
    RegisterOrMemory as VmLocation, HeapArray, HeapVector, Value as VmValue,
};
use acvm::brillig_vm::{Registers, VMStatus, VM};
use acvm::{BlackBoxFunctionSolver, BlackBoxResolutionError, FieldElement as VmField};
use noirc_evaluator::directive::{
    directive_assert_message, directive_invert, directive_quotient, BinaryFieldOp, BinaryIntOp, GeneratedBrillig,
    Opcode, RegisterIndex, RegisterOrMemory, Value,
};
use noirc_evaluator::field::FieldElement;

struct NoBlackBox;

impl BlackBoxFunctionSolver for NoBlackBox {
    fn schnorr_verify(
        &self,
        _public_key_x: &VmField,
        _public_key_y: &VmField,
        _signature: &[u8],
        _message: &[u8],
    ) -> Result<bool, BlackBoxResolutionError> {
        panic!("no black box in these programs")
    }

    fn pedersen(&self, _inputs: &[VmField], _domain_separator: u32) -> Result<(VmField, VmField), BlackBoxResolutionError> {
        panic!("no black box in these programs")
    }

    fn fixed_base_scalar_mul(&self, _low: &VmField, _high: &VmField) -> Result<(VmField, VmField), BlackBoxResolutionError> {
        panic!("no black box in these programs")
    }
}

fn vm_register(register: RegisterIndex) -> VmRegister {
    VmRegister::from(register.0)
}

fn vm_field(element: FieldElement) -> VmField {
    let mut bytes = Vec::new();
    bytes.extend_from_slice(&element.high.to_be_bytes());
    bytes.extend_from_slice(&element.low.to_be_bytes());
    VmField::from_be_bytes_reduce(&bytes)
}

fn vm_location(location: &RegisterOrMemory) -> VmLocation {
    match *location {
        RegisterOrMemory::RegisterIndex(register) => VmLocation::RegisterIndex(vm_register(register)),
        RegisterOrMemory::HeapArray { pointer, size } => {
            VmLocation::HeapArray(HeapArray { pointer: vm_register(pointer), size })
        }
        RegisterOrMemory::HeapVector { pointer, size } => {
            VmLocation::HeapVector(HeapVector { pointer: vm_register(pointer), size: vm_register(size) })
        }
    }
}

fn vm_field_op(op: BinaryFieldOp) -> VmFieldOp {
    match op {
        BinaryFieldOp::Add => VmFieldOp::Add,
        BinaryFieldOp::Sub => VmFieldOp::Sub,
        BinaryFieldOp::Mul => VmFieldOp::Mul,
        BinaryFieldOp::Div => VmFieldOp::Div,
        BinaryFieldOp::Equals => VmFieldOp::Equals,
    }
}

fn vm_int_op(op: BinaryIntOp) -> VmIntOp {
    match op {
        BinaryIntOp::Add => VmIntOp::Add,
        BinaryIntOp::Sub => VmIntOp::Sub,
        BinaryIntOp::Mul => VmIntOp::Mul,
        BinaryIntOp::SignedDiv => VmIntOp::SignedDiv,
        BinaryIntOp::UnsignedDiv => VmIntOp::UnsignedDiv,
        BinaryIntOp::Equals => VmIntOp::Equals,
        BinaryIntOp::LessThan => VmIntOp::LessThan,
        BinaryIntOp::LessThanEquals => VmIntOp::LessThanEquals,
        BinaryIntOp::And => VmIntOp::And,
        BinaryIntOp::Or => VmIntOp::Or,
        BinaryIntOp::Xor => VmIntOp::Xor,
        BinaryIntOp::Shl => VmIntOp::Shl,
        BinaryIntOp::Shr => VmIntOp::Shr,
    }
}

fn vm_opcode(opcode: &Opcode) -> VmOpcode {
    match opcode {
        Opcode::BinaryFieldOp { destination, op, lhs, rhs } => VmOpcode::BinaryFieldOp {
            destination: vm_register(*destination),
            op: vm_field_op(*op),
            lhs: vm_register(*lhs),
            rhs: vm_register(*rhs),
        },
        Opcode::BinaryIntOp { destination, op, bit_size, lhs, rhs } => VmOpcode::BinaryIntOp {
            destination: vm_register(*destination),
            op: vm_int_op(*op),
            bit_size: *bit_size,
            lhs: vm_register(*lhs),
            rhs: vm_register(*rhs),
        },
        Opcode::JumpIfNot { condition, location } => {
            VmOpcode::JumpIfNot { condition: vm_register(*condition), location: *location }
        }
        Opcode::JumpIf { condition, location } => {
            VmOpcode::JumpIf { condition: vm_register(*condition), location: *location }
        }
        Opcode::Jump { location } => VmOpcode::Jump { location: *location },
        Opcode::Call { location } => VmOpcode::Call { location: *location },
        Opcode::Const { destination, value } => {
            VmOpcode::Const { destination: vm_register(*destination), value: VmValue::from(vm_field(value.inner)) }
        }
        Opcode::Return => VmOpcode::Return,
        Opcode::ForeignCall { function, destinations, inputs } => VmOpcode::ForeignCall {
            function: function.clone(),
            destinations: destinations.iter().map(vm_location).collect(),
            inputs: inputs.iter().map(vm_location).collect(),
        },
        Opcode::Mov { destination, source } => {
            VmOpcode::Mov { destination: vm_register(*destination), source: vm_register(*source) }
        }
        Opcode::Load { destination, source_pointer } => VmOpcode::Load {
            destination: vm_register(*destination),
            source_pointer: vm_register(*source_pointer),
        },
        Opcode::Store { destination_pointer, source } => VmOpcode::Store {
            destination_pointer: vm_register(*destination_pointer),
            source: vm_register(*source),
        },
        Opcode::Trap => VmOpcode::Trap,
        Opcode::Stop => VmOpcode::Stop,
    }
}

/// Runs the program on the machine and gives back how it ended and the
/// registers it left.
fn run(artifact: &GeneratedBrillig, registers: Vec<VmValue>) -> (VMStatus, Vec<VmValue>) {
    let bytecode: Vec<VmOpcode> = artifact.byte_code.iter().map(vm_opcode).collect();
    let solver = NoBlackBox;
    let mut vm = VM::new(Registers::load(registers), vec![], bytecode, vec![], &solver);
    let status = vm.process_opcodes();
    let left = vm.get_registers().inner.clone();
    (status, left)
}

#[test]
fn invert_is_the_expected_program() {
    let artifact = directive_invert();
    assert_eq!(artifact.byte_code.len(), 4);
    assert!(matches!(
        artifact.byte_code[0],
        Opcode::JumpIfNot { condition: RegisterIndex(0), location: 3 }
    ));
    assert!(matches!(
        artifact.byte_code[1],
        Opcode::Const {
            destination: RegisterIndex(1),
            value: Value { inner: FieldElement { high: 0, low: 1 } }
        }
    ));
    assert!(matches!(
        artifact.byte_code[2],
        Opcode::BinaryFieldOp {
            destination: RegisterIndex(0),
            op: BinaryFieldOp::Div,
            lhs: RegisterIndex(1),
            rhs: RegisterIndex(0)
        }
    ));
    assert!(matches!(artifact.byte_code[3], Opcode::Stop));
    assert!(artifact.locations.is_empty());
    assert!(artifact.assert_messages.is_empty());
}

#[test]
fn quotient_is_the_expected_program() {
    let artifact = directive_quotient(32);
    assert_eq!(artifact.byte_code.len(), 5);
    assert!(matches!(
        artifact.byte_code[0],
        Opcode::BinaryIntOp {
            destination: RegisterIndex(2),
            op: BinaryIntOp::UnsignedDiv,
            bit_size: 32,
            lhs: RegisterIndex(0),
            rhs: RegisterIndex(1)
        }
    ));
    assert!(matches!(
        artifact.byte_code[1],
        Opcode::BinaryIntOp {
            destination: RegisterIndex(1),
            op: BinaryIntOp::Mul,
            bit_size: 32,
            lhs: RegisterIndex(2),
            rhs: RegisterIndex(1)
        }
    ));
    assert!(matches!(
        artifact.byte_code[2],
        Opcode::BinaryIntOp {
            destination: RegisterIndex(1),
            op: BinaryIntOp::Sub,
            bit_size: 32,
            lhs: RegisterIndex(0),
            rhs: RegisterIndex(1)
        }
    ));
    assert!(matches!(
        artifact.byte_code[3],
        Opcode::Mov { destination: RegisterIndex(0), source: RegisterIndex(2) }
    ));
    assert!(matches!(artifact.byte_code[4], Opcode::Stop));
    assert!(artifact.locations.is_empty());
    assert!(artifact.assert_messages.is_empty());
}

#[test]
fn assert_message_is_one_bare_foreign_call() {
    let artifact = directive_assert_message(&[3, 4, 5]);
    assert_eq!(artifact.byte_code.len(), 2);
    match &artifact.byte_code[0] {
        Opcode::ForeignCall { function, destinations, inputs } => {
            assert_eq!(function, "resolve_assert_message");
            assert!(destinations.is_empty());
            assert!(inputs.is_empty());
        }
        other => panic!("unexpected opcode {:?}", other),
    }
    assert!(matches!(artifact.byte_code[1], Opcode::Stop));
    assert!(artifact.locations.is_empty());
    assert!(artifact.assert_messages.is_empty());
}

#[test]
fn assert_message_ignores_its_inputs() {
    let none = directive_assert_message(&[]);
    let some = directive_assert_message(&[1, 2]);
    assert_eq!(none.byte_code.len(), some.byte_code.len());
}

#[test]
fn assert_message_waits_for_the_host() {
    let (status, _) = run(&directive_assert_message(&[]), vec![]);
    match status {
        VMStatus::ForeignCallWait { function, inputs } => {
            assert_eq!(function, "resolve_assert_message");
            assert!(inputs.is_empty());
        }
        other => panic!("unexpected status {:?}", other),
    }
}

#[test]
fn invert_of_zero_is_zero() {
    let (status, registers) = run(&directive_invert(), vec![VmValue::from(0u128)]);
    assert_eq!(status, VMStatus::Finished);
    assert_eq!(registers[0], VmValue::from(0u128));
}

#[test]
fn invert_of_one_is_one() {
    let (status, registers) = run(&directive_invert(), vec![VmValue::from(1u128)]);
    assert_eq!(status, VMStatus::Finished);
    assert_eq!(registers[0], VmValue::from(1u128));
}

#[test]
fn invert_gives_the_field_inverse() {
    for x in [2u128, 3, 5, 17, 1 << 64, u128::MAX] {
        let input = VmField::from(x);
        let (status, registers) = run(&directive_invert(), vec![VmValue::from(input)]);
        assert_eq!(status, VMStatus::Finished);
        let inverse = registers[0].to_field();
        assert_eq!(inverse, input.inverse());
        assert_eq!(inverse * input, VmField::one());
    }
}

#[test]
fn quotient_of_17_by_5_at_8_bits() {
    let (status, registers) = run(&directive_quotient(8), vec![VmValue::from(17u128), VmValue::from(5u128)]);
    assert_eq!(status, VMStatus::Finished);
    assert_eq!(registers[0], VmValue::from(3u128));
    assert_eq!(registers[1], VmValue::from(2u128));
}

#[test]
fn quotient_of_0_by_5() {
    let (status, registers) = run(&directive_quotient(8), vec![VmValue::from(0u128), VmValue::from(5u128)]);
    assert_eq!(status, VMStatus::Finished);
    assert_eq!(registers[0], VmValue::from(0u128));
    assert_eq!(registers[1], VmValue::from(0u128));
}

#[test]
fn quotient_and_remainder_make_up_the_dividend() {
    for (a, b) in [(100u128, 7u128), (255, 16), (1, 2), (250, 250), (9, 1)] {
        let (status, registers) = run(&directive_quotient(8), vec![VmValue::from(a), VmValue::from(b)]);
        assert_eq!(status, VMStatus::Finished);
        assert_eq!(registers[0], VmValue::from(a / b));
        assert_eq!(registers[1], VmValue::from(a % b));
    }
}

#[test]
fn quotient_at_64_bits() {
    let a = 0xffff_ffff_ffff_fff1u128;
    let b = 0x1_0001u128;
    let (status, registers) = run(&directive_quotient(64), vec![VmValue::from(a), VmValue::from(b)]);
    assert_eq!(status, VMStatus::Finished);
    assert_eq!(registers[0], VmValue::from(a / b));
    assert_eq!(registers[1], VmValue::from(a % b));
}

#[test]
fn the_constant_one_is_what_the_machine_calls_one() {
    let one = FieldElement::from_usize(1);
    assert_eq!(one, FieldElement { high: 0, low: 1 });
    assert_eq!(vm_field(one), VmField::one());
    assert_eq!(VmValue::from(vm_field(one)), VmValue::from(1usize));
}
