use im::Vector;
use noirc_evaluator::dfg::{DataFlowGraph, Function, Ssa};
use noirc_evaluator::instruction::{BinaryOp, Instruction, TerminatorInstruction};
use noirc_evaluator::field::FieldElement;
use noirc_evaluator::types::{NumericType, Type};
use noirc_evaluator::value::{Intrinsic, Value};

fn field() -> Type {
    Type::Numeric(NumericType::NativeField)
}

#[test]
fn a_new_store_is_empty() {
    let dfg = DataFlowGraph::new();
    assert!(dfg.values.is_empty());
    assert!(dfg.instructions.is_empty());
    assert!(dfg.results.is_empty());
    assert!(dfg.blocks.is_empty());
}

#[test]
fn equal_constants_share_an_id() {
    let mut dfg = DataFlowGraph::new();
    let five = dfg.make_constant(FieldElement { high: 0, low: 5 }, field());
    let six = dfg.make_constant(FieldElement { high: 0, low: 6 }, field());
    let again = dfg.make_constant(FieldElement { high: 0, low: 5 }, field());
    assert_eq!((five, six, again), (0, 1, 0));
    assert_eq!(dfg.values.len(), 2);
}

#[test]
fn constants_of_different_types_are_kept_apart() {
    let mut dfg = DataFlowGraph::new();
    let as_field = dfg.make_constant(FieldElement { high: 0, low: 5 }, field());
    let as_byte = dfg.make_constant(
        FieldElement { high: 0, low: 5 },
        Type::Numeric(NumericType::Unsigned { bit_size: 8 }),
    );
    let as_word = dfg.make_constant(
        FieldElement { high: 0, low: 5 },
        Type::Numeric(NumericType::Unsigned { bit_size: 32 }),
    );
    let as_signed = dfg.make_constant(
        FieldElement { high: 0, low: 5 },
        Type::Numeric(NumericType::Signed { bit_size: 8 }),
    );
    assert_eq!((as_field, as_byte, as_word, as_signed), (0, 1, 2, 3));
    let high = dfg.make_constant(FieldElement { high: 5, low: 0 }, field());
    assert_eq!(high, 4);
}

#[test]
fn arrays_are_always_new() {
    let mut dfg = DataFlowGraph::new();
    let a = dfg.make_constant(FieldElement { high: 0, low: 5 }, field());
    let first = dfg.make_array(Vector::unit(a), Type::Slice(vec![field()]));
    let second = dfg.make_array(Vector::unit(a), Type::Slice(vec![field()]));
    assert_eq!((first, second), (1, 2));
    match dfg.value(first) {
        Value::Array { array, typ } => {
            assert_eq!(array.len(), 1);
            assert_eq!(array[0], a);
            assert!(matches!(typ, Type::Slice(_)));
        }
        other => panic!("unexpected value {:?}", other),
    }
}

#[test]
fn the_type_of_a_value_is_the_type_it_was_made_with() {
    let mut dfg = DataFlowGraph::new();
    let a = dfg.make_constant(FieldElement { high: 0, low: 5 }, field());
    let slice = dfg.make_array(Vector::unit(a), Type::Slice(vec![field()]));
    assert!(matches!(dfg.type_of_value(a), Type::Numeric(NumericType::NativeField)));
    assert!(dfg.type_of_value(slice).is_slice());
    dfg.values.push(Value::Function(3));
    assert!(matches!(dfg.type_of_value(2), Type::Function));
}

#[test]
fn types_contain_slices_only_through_arrays() {
    let slice = Type::Slice(vec![field()]);
    assert!(slice.contains_slice_element());
    assert!(Type::Array(vec![field(), Type::Slice(vec![field()])], 2).contains_slice_element());
    assert!(Type::Array(vec![Type::Array(vec![Type::Slice(vec![])], 1)], 2).contains_slice_element());
    assert!(!Type::Array(vec![field(), field()], 2).contains_slice_element());
    assert!(!field().contains_slice_element());
    assert!(!Type::Reference.contains_slice_element());
    assert!(!Type::Function.contains_slice_element());
}

#[test]
fn the_element_size_counts_the_slots_of_one_element() {
    assert_eq!(Type::Slice(vec![field(), field(), field()]).element_size(), 3);
    assert_eq!(Type::Array(vec![field()], 9).element_size(), 1);
    assert_eq!(Type::Slice(vec![]).element_size(), 0);
}

#[test]
fn types_are_compared_by_what_they_hold() {
    let nested = Type::Array(vec![field(), Type::Slice(vec![field()])], 2);
    assert!(nested.same_as(&nested.clone()));
    assert!(!nested.same_as(&Type::Array(vec![field(), Type::Slice(vec![field()])], 3)));
    assert!(!nested.same_as(&Type::Array(vec![field(), Type::Slice(vec![])], 2)));
    assert!(!nested.same_as(&Type::Array(vec![field()], 2)));
    assert!(!Type::Slice(vec![field()]).same_as(&Type::Array(vec![field()], 1)));
    assert!(Type::Reference.same_as(&Type::Reference));
    assert!(!Type::Reference.same_as(&Type::Function));
    assert!(!field().same_as(&Type::Numeric(NumericType::Unsigned { bit_size: 1 })));
}

/// A function with two blocks, made with the builders alone: the first
/// pushes onto a slice of slices and jumps, the second reads from it.
fn built() -> Function {
    let mut dfg = DataFlowGraph::new();
    let entry = dfg.make_block();
    let exit = dfg.make_block();
    let a = dfg.make_constant(FieldElement { high: 0, low: 21 }, field());
    let short = dfg.make_array(Vector::unit(a), Type::Slice(vec![field()]));
    let long = dfg.make_array(vec![a, a, a].into_iter().collect::<Vector<usize>>(), Type::Slice(vec![field()]));
    let outer = dfg.make_array(
        vec![short, long].into_iter().collect::<Vector<usize>>(),
        Type::Slice(vec![Type::Slice(vec![field()])]),
    );
    let add = dfg.insert_instruction(
        entry,
        Instruction::Binary { lhs: a, operator: BinaryOp::Add, rhs: a },
        &vec![field()],
    );
    let sum = dfg.instruction_results(add)[0];
    dfg.set_terminator(entry, TerminatorInstruction::Jmp { destination: exit, arguments: vec![sum] });
    let read = dfg.insert_instruction(
        exit,
        Instruction::ArrayGet { array: outer, index: sum },
        &vec![Type::Slice(vec![field()])],
    );
    let inner = dfg.instruction_results(read)[0];
    dfg.set_terminator(exit, TerminatorInstruction::Return { return_values: vec![inner] });
    Function { entry_block: entry, dfg }
}

#[test]
fn the_builders_name_what_they_make_in_order() {
    let mut dfg = DataFlowGraph::new();
    assert_eq!(dfg.make_block(), 0);
    assert_eq!(dfg.make_block(), 1);
    assert_eq!(dfg.make_value(Value::Intrinsic(Intrinsic::SlicePushBack)), 0);
    assert_eq!(dfg.make_value(Value::Param { block: 1, position: 0, typ: field() }), 1);
    let call = dfg.insert_instruction(
        1,
        Instruction::Call { func: 0, arguments: vec![1, 1] },
        &vec![field(), Type::Slice(vec![field()])],
    );
    assert_eq!(call, 0);
    assert_eq!(dfg.instruction_results(call), &vec![2, 3]);
    assert!(matches!(
        dfg.value(3),
        Value::Instruction { instruction: 0, position: 1, typ: Type::Slice(_) }
    ));
    assert!(matches!(dfg.instruction(call), Instruction::Call { func: 0, .. }));
    assert!(dfg.blocks[0].instructions.is_empty());
    assert_eq!(dfg.blocks[1].instructions, vec![0]);
    assert!(dfg.blocks[1].terminator.is_none());
    dfg.set_terminator(1, TerminatorInstruction::JmpIf { condition: 2, then_destination: 0, else_destination: 1 });
    assert!(matches!(
        dfg.blocks[1].terminator,
        Some(TerminatorInstruction::JmpIf { condition: 2, then_destination: 0, else_destination: 1 })
    ));
    assert!(dfg.is_well_formed());
}

#[test]
fn what_the_builders_make_is_well_formed() {
    let function = built();
    assert!(function.is_well_formed());
    assert_eq!(function.dfg.blocks[0].instructions, vec![0]);
    assert_eq!(function.dfg.blocks[1].instructions, vec![1]);
}

#[test]
fn what_the_builders_make_can_be_filled() {
    let ssa = Ssa { functions: vec![built()] }.try_fill_internal_slices().expect("the pass can run");
    let dfg = &ssa.functions[0].dfg;
    // The first block works on scalars: it is as it was.
    assert_eq!(dfg.blocks[0].instructions, vec![0]);
    // The read of the second block works on a padded slice now.
    assert_eq!(dfg.blocks[1].instructions, vec![2]);
    match dfg.instruction(2) {
        Instruction::ArrayGet { array, index } => {
            assert_eq!(*index, 4);
            match dfg.value(*array) {
                Value::Array { array, .. } => {
                    assert_eq!(array.len(), 2);
                    for group in array.iter() {
                        match dfg.value(*group) {
                            Value::Array { array, .. } => assert_eq!(array.len(), 3),
                            other => panic!("unexpected value {:?}", other),
                        }
                    }
                }
                other => panic!("unexpected value {:?}", other),
            }
        }
        other => panic!("unexpected instruction {:?}", other),
    }
}
