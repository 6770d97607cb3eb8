use noirc_evaluator::dfg::{DataFlowGraph, Function};
use noirc_evaluator::field::FieldElement;
use noirc_evaluator::inserter::FunctionInserter;
use noirc_evaluator::instruction::{BinaryOp, Instruction, TerminatorInstruction};
use noirc_evaluator::types::{NumericType, Type};
use noirc_evaluator::value::Value;

fn field() -> Type {
    Type::Numeric(NumericType::NativeField)
}

/// One block: `v2 = v0 + v1`, `v3 = not v2`, `return v3`.
fn inserter() -> FunctionInserter {
    let mut dfg = DataFlowGraph::new();
    let entry = dfg.make_block();
    let a = dfg.make_constant(FieldElement { high: 0, low: 1 }, field());
    let b = dfg.make_constant(FieldElement { high: 0, low: 2 }, field());
    let add = dfg.insert_instruction(entry, Instruction::Binary { lhs: a, operator: BinaryOp::Add, rhs: b }, &vec![field()]);
    let sum = dfg.instruction_results(add)[0];
    let not = dfg.insert_instruction(entry, Instruction::Not(sum), &vec![field()]);
    let negated = dfg.instruction_results(not)[0];
    dfg.set_terminator(entry, TerminatorInstruction::Return { return_values: vec![negated] });
    FunctionInserter::new(Function { entry_block: entry, dfg })
}

#[test]
fn a_new_inserter_replaces_nothing() {
    let inserter = inserter();
    assert!(inserter.values.is_empty());
    for value in 0..4 {
        assert_eq!(inserter.resolve(value), value);
    }
}

#[test]
fn taking_the_instructions_leaves_the_block_empty() {
    let mut inserter = inserter();
    assert_eq!(inserter.take_instructions(0), vec![0, 1]);
    assert!(inserter.function.dfg.blocks[0].instructions.is_empty());
    assert!(inserter.function.dfg.blocks[0].terminator.is_some());
}

#[test]
fn an_instruction_whose_operands_stand_is_copied_as_it_is() {
    let mut inserter = inserter();
    let taken = inserter.take_instructions(0);
    for id in taken {
        inserter.push_instruction(id, 0);
    }
    assert_eq!(inserter.function.dfg.blocks[0].instructions, vec![0, 1]);
    assert_eq!(inserter.function.dfg.values.len(), 4);
    assert_eq!(inserter.function.dfg.instructions.len(), 2);
    assert!(inserter.values.is_empty());
}

#[test]
fn a_new_instruction_gets_new_results_that_replace_the_old() {
    let mut inserter = inserter();
    inserter.take_instructions(0);
    let results = inserter.push_instruction_value(
        Instruction::Binary { lhs: 1, operator: BinaryOp::Mul, rhs: 0 },
        0,
        0,
    );
    assert_eq!(results, vec![4]);
    assert_eq!(inserter.function.dfg.blocks[0].instructions, vec![2]);
    assert!(matches!(
        inserter.function.dfg.instructions[2],
        Instruction::Binary { lhs: 1, operator: BinaryOp::Mul, rhs: 0 }
    ));
    assert_eq!(inserter.function.dfg.results[2], vec![4]);
    assert!(matches!(
        inserter.function.dfg.values[4],
        Value::Instruction { instruction: 2, position: 0, typ: Type::Numeric(NumericType::NativeField) }
    ));
    assert_eq!(inserter.values.get(&2), Some(&4));
    assert_eq!(inserter.resolve(2), 4);
    assert_eq!(inserter.resolve(3), 3);
}

#[test]
fn later_instructions_read_the_replacement() {
    let mut inserter = inserter();
    inserter.take_instructions(0);
    inserter.push_instruction_value(Instruction::Binary { lhs: 1, operator: BinaryOp::Mul, rhs: 0 }, 0, 0);
    assert!(matches!(inserter.map_instruction(1), Instruction::Not(4)));
    inserter.push_instruction(1, 0);
    // The second instruction read a replaced value: it is replaced too.
    assert_eq!(inserter.function.dfg.blocks[0].instructions, vec![2, 3]);
    assert!(matches!(inserter.function.dfg.instructions[3], Instruction::Not(4)));
    assert_eq!(inserter.function.dfg.results[3], vec![5]);
    assert_eq!(inserter.resolve(3), 5);
    // The old instruction is as it was.
    assert!(matches!(inserter.function.dfg.instructions[1], Instruction::Not(2)));
    inserter.map_terminator_in_place(0);
    match &inserter.function.dfg.blocks[0].terminator {
        Some(TerminatorInstruction::Return { return_values }) => assert_eq!(return_values, &vec![5]),
        other => panic!("unexpected terminator {:?}", other),
    }
}

#[test]
fn replacements_are_followed_to_their_end() {
    let mut inserter = inserter();
    inserter.take_instructions(0);
    inserter.push_instruction_value(Instruction::Not(0), 0, 0);
    inserter.push_instruction_value(Instruction::Not(1), 2, 0);
    // Value 2 was replaced by 4, and 4 by 5.
    assert_eq!(inserter.resolve(2), 5);
    assert_eq!(inserter.resolve(4), 5);
    assert_eq!(inserter.resolve(5), 5);
}

#[test]
fn keeping_an_instruction_changes_nothing_else() {
    let mut inserter = inserter();
    inserter.take_instructions(0);
    inserter.keep_instruction(1, 0);
    assert_eq!(inserter.function.dfg.blocks[0].instructions, vec![1]);
    assert_eq!(inserter.function.dfg.values.len(), 4);
    assert!(inserter.values.is_empty());
}
