//! A model of the register machine, as far as the directives use it, and
//! what the directives compute on it.

use crate::directive::{invert_program, quotient_program, BinaryFieldOp, BinaryIntOp, OpcodeView, RegisterIndex};
use vstd::arithmetic::div_mod::{lemma_fundamental_div_mod, lemma_mod_add_multiples_vanish, lemma_small_mod};
use vstd::arithmetic::power2::pow2;
use vstd::prelude::*;

verus! {

/// The number of elements of the field that the registers hold.
pub open spec fn field_modulus() -> nat {
    21888242871839275222246405745257275088548364400416034343698204186575808495617nat
}

/// Whether `y` is an element of the field that gives one when multiplied
/// by `x`.
pub open spec fn inverts(x: nat, y: nat) -> bool {
    y < field_modulus() && (x * y) % field_modulus() == 1
}

/// An element that gives one when multiplied by `x`, if there is any.
pub open spec fn field_inverse(x: nat) -> nat {
    choose|y: nat| inverts(x, y)
}

/// The quotient of two elements of the field.
pub open spec fn field_div(a: nat, b: nat) -> nat {
    (a * field_inverse(b)) % field_modulus()
}

/// How far a run of the machine has come.
pub ghost enum Status {
    /// The next opcode can be taken.
    Running,
    /// The program has come to its end.
    Finished,
    /// The program has hit a trap, or asked for a division by zero or a
    /// difference below zero, on which the machine breaks off.
    Failed,
    /// The program has reached an opcode that this model does not cover.
    Unknown,
}

/// The machine between two opcodes. A register that was never written
/// holds zero.
pub ghost struct Machine {
    pub registers: Map<usize, nat>,
    pub counter: nat,
    pub status: Status,
}

impl Machine {
    /// The machine before the first opcode.
    pub open spec fn start(registers: Map<usize, nat>) -> Machine {
        Machine { registers, counter: 0, status: Status::Running }
    }

    /// What a register holds.
    pub open spec fn read(self, register: RegisterIndex) -> nat {
        if self.registers.contains_key(register.0) {
            self.registers[register.0]
        } else {
            0
        }
    }

    /// The machine after `value` has been written to a register and the
    /// counter has moved on by one.
    pub open spec fn write(self, register: RegisterIndex, value: nat, length: nat) -> Machine {
        Machine { registers: self.registers.insert(register.0, value % field_modulus()), ..self }.jump(
            self.counter + 1,
            length,
        )
    }

    /// The machine after the counter has been set: a counter behind the last
    /// opcode ends the run.
    pub open spec fn jump(self, counter: nat, length: nat) -> Machine {
        Machine {
            counter,
            status: if counter >= length {
                Status::Finished
            } else {
                self.status
            },
            ..self
        }
    }

    /// The machine with its run broken off.
    pub open spec fn fail(self) -> Machine {
        Machine { status: Status::Failed, ..self }
    }
}

/// What an operation on two field elements gives; `None` where the machine
/// breaks off: on a division by zero.
pub open spec fn field_result(op: BinaryFieldOp, a: nat, b: nat) -> Option<nat> {
    let p = field_modulus();
    match op {
        BinaryFieldOp::Add => Some((a + b) % p),
        BinaryFieldOp::Sub => Some(((a + p - b % p) as nat) % p),
        BinaryFieldOp::Mul => Some((a * b) % p),
        BinaryFieldOp::Div => if b % p == 0 {
            None
        } else {
            Some(field_div(a, b))
        },
        BinaryFieldOp::Equals => Some(
            if a == b {
                1nat
            } else {
                0nat
            },
        ),
    }
}

/// What an operation on two integers of `bit_size` bits gives; `None` where
/// the machine breaks off, on a division by zero or a difference below zero,
/// or where this model does not cover the operation.
pub open spec fn int_result(op: BinaryIntOp, bit_size: u32, a: nat, b: nat) -> Option<nat> {
    let m = pow2(bit_size as nat);
    match op {
        BinaryIntOp::Add => Some((a + b) % m),
        BinaryIntOp::Sub => if b > m + a {
            None
        } else {
            Some(((m + a - b) as nat) % m)
        },
        BinaryIntOp::Mul => Some((a * b) % m),
        BinaryIntOp::UnsignedDiv => if b % m == 0 {
            None
        } else {
            Some((a % m) / (b % m))
        },
        BinaryIntOp::Equals => Some(
            if a % m == b % m {
                1nat
            } else {
                0nat
            },
        ),
        BinaryIntOp::LessThan => Some(
            if a % m < b % m {
                1nat
            } else {
                0nat
            },
        ),
        BinaryIntOp::LessThanEquals => Some(
            if a % m <= b % m {
                1nat
            } else {
                0nat
            },
        ),
        _ => None,
    }
}

/// The machine after the opcode under the counter.
pub open spec fn step(program: Seq<OpcodeView>, machine: Machine) -> Machine {
    let length = program.len();
    match program[machine.counter as int] {
        OpcodeView::BinaryFieldOp { destination, op, lhs, rhs } => match field_result(
            op,
            machine.read(lhs),
            machine.read(rhs),
        ) {
            Some(value) => machine.write(destination, value, length),
            None => machine.fail(),
        },
        OpcodeView::BinaryIntOp { destination, op, bit_size, lhs, rhs } => match op {
            BinaryIntOp::SignedDiv | BinaryIntOp::And | BinaryIntOp::Or | BinaryIntOp::Xor | BinaryIntOp::Shl | BinaryIntOp::Shr => Machine {
                status: Status::Unknown,
                ..machine
            },
            _ => match int_result(op, bit_size, machine.read(lhs), machine.read(rhs)) {
                Some(value) => machine.write(destination, value, length),
                None => machine.fail(),
            },
        },
        OpcodeView::JumpIfNot { condition, location } => if machine.read(condition) == 0 {
            machine.jump(location as nat, length)
        } else {
            machine.jump(machine.counter + 1, length)
        },
        OpcodeView::JumpIf { condition, location } => if machine.read(condition) != 0 {
            machine.jump(location as nat, length)
        } else {
            machine.jump(machine.counter + 1, length)
        },
        OpcodeView::Jump { location } => machine.jump(location as nat, length),
        OpcodeView::Const { destination, value } => machine.write(destination, value.inner.value(), length),
        OpcodeView::Mov { destination, source } => machine.write(destination, machine.read(source), length),
        OpcodeView::Trap => machine.fail(),
        OpcodeView::Stop => Machine { status: Status::Finished, ..machine },
        _ => Machine { status: Status::Unknown, ..machine },
    }
}

/// The machine after `steps` opcodes at most: it stands still once it is
/// no longer running.
pub open spec fn run(program: Seq<OpcodeView>, machine: Machine, steps: nat) -> Machine
    decreases steps,
{
    if steps == 0 || !(machine.status is Running) || machine.counter >= program.len() {
        machine
    } else {
        run(program, step(program, machine), (steps - 1) as nat)
    }
}

/// The inverting program leaves a zero in register 0 as it is, and puts the
/// quotient of one by `x` in place of any other `x`.
pub proof fn lemma_invert_inverts(registers: Map<usize, nat>, x: nat)
    requires
        x < field_modulus(),
        Machine::start(registers).read(RegisterIndex(0)) == x,
    ensures
        run(invert_program(), Machine::start(registers), 4).status is Finished,
        run(invert_program(), Machine::start(registers), 4).read(RegisterIndex(0)) == if x == 0 {
            0
        } else {
            field_div(1, x)
        },
{
    let program = invert_program();
    let machine = Machine::start(registers);
    reveal_with_fuel(run, 5);
    assert(program.len() == 4);
    if x == 0 {
        assert(step(program, machine) == machine.jump(3, 4));
    } else {
        let second = step(program, machine);
        assert(second == machine.jump(1, 4));
        let third = step(program, second);
        assert(third.read(RegisterIndex(1)) == 1) by {
            lemma_small_mod(1, field_modulus());
        }
        assert(third.read(RegisterIndex(0)) == x);
        assert(x % field_modulus() == x) by {
            lemma_small_mod(x, field_modulus());
        }
        let fourth = step(program, third);
        assert(field_div(1, x) % field_modulus() == field_div(1, x)) by {
            lemma_small_mod(field_div(1, x), field_modulus());
        }
        assert(fourth.read(RegisterIndex(0)) == field_div(1, x));
        assert(fourth.counter == 3 && fourth.status is Running);
    }
}

/// Where `x` has an inverse at all, the quotient of one by `x` is it.
pub proof fn lemma_quotient_of_one_is_inverse(x: nat)
    requires
        exists|y: nat| inverts(x, y),
    ensures
        (x * field_div(1, x)) % field_modulus() == 1,
{
    let inverse = field_inverse(x);
    assert(1 * inverse == inverse);
    lemma_small_mod(inverse, field_modulus());
}

/// The dividing program leaves the quotient of `a` by `b` in register 0 and
/// the remainder in register 1, for numbers that fit the bit size and a
/// divisor that is not zero.
pub proof fn lemma_quotient_divides(registers: Map<usize, nat>, a: nat, b: nat, bit_size: u32)
    requires
        pow2(bit_size as nat) <= field_modulus(),
        a < pow2(bit_size as nat),
        b < pow2(bit_size as nat),
        b > 0,
        Machine::start(registers).read(RegisterIndex(0)) == a,
        Machine::start(registers).read(RegisterIndex(1)) == b,
    ensures
        run(quotient_program(bit_size), Machine::start(registers), 5).status is Finished,
        run(quotient_program(bit_size), Machine::start(registers), 5).read(RegisterIndex(0)) == a / b,
        run(quotient_program(bit_size), Machine::start(registers), 5).read(RegisterIndex(1)) == a % b,
{
    let program = quotient_program(bit_size);
    let machine = Machine::start(registers);
    let m = pow2(bit_size as nat);
    let p = field_modulus();
    let q = a / b;
    reveal_with_fuel(run, 6);
    assert(program.len() == 5);
    lemma_small_mod(a, m);
    lemma_small_mod(b, m);
    lemma_fundamental_div_mod(a as int, b as int);
    assert(q * b == b * q) by (nonlinear_arith);
    assert(0 <= q * b <= a) by (nonlinear_arith)
        requires
            a == b * q + a % b,
            0 <= a % b,
            q * b == b * q,
    ;
    assert(q <= a) by (nonlinear_arith)
        requires
            q * b <= a,
            b >= 1,
            q >= 0,
    ;
    lemma_small_mod(q, p);
    let first = step(program, machine);
    assert(first.read(RegisterIndex(2)) == q);
    assert(first.read(RegisterIndex(0)) == a && first.read(RegisterIndex(1)) == b);
    lemma_small_mod(q * b, m);
    lemma_small_mod(q * b, p);
    let second = step(program, first);
    assert(second.read(RegisterIndex(1)) == q * b);
    assert(second.read(RegisterIndex(0)) == a && second.read(RegisterIndex(2)) == q);
    let rest = (a - q * b) as nat;
    assert(rest == a % b);
    assert(((m + a - q * b) as nat) % m == rest) by {
        lemma_mod_add_multiples_vanish(rest as int, m as int);
        lemma_small_mod(rest, m);
    }
    lemma_small_mod(rest, p);
    let third = step(program, second);
    assert(third.read(RegisterIndex(1)) == rest);
    assert(third.read(RegisterIndex(2)) == q);
    let fourth = step(program, third);
    assert(fourth.read(RegisterIndex(0)) == q);
    assert(fourth.read(RegisterIndex(1)) == rest);
    assert(fourth.counter == 4 && fourth.status is Running);
}

} // verus!
