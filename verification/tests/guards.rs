use im::Vector;
use noirc_evaluator::guards::nest_is_known;
use noirc_evaluator::context::Context;
use noirc_evaluator::dfg::{BasicBlock, DataFlowGraph, Function, Ssa};
use noirc_evaluator::field::FieldElement;
use noirc_evaluator::instruction::{BinaryOp, Instruction, TerminatorInstruction};
use noirc_evaluator::resolver::settle;
use noirc_evaluator::sizes::{SizeRecord, SizeTable};
use noirc_evaluator::types::{NumericType, Type};
use noirc_evaluator::value::{Intrinsic, Value};
use std::collections::BTreeMap;

fn field() -> Type {
    Type::Numeric(NumericType::NativeField)
}

fn slice_of(element: Type) -> Type {
    Type::Slice(vec![element])
}

fn constant(dfg: &mut DataFlowGraph, low: u128) -> usize {
    dfg.make_constant(FieldElement { high: 0, low }, field())
}

fn array(dfg: &mut DataFlowGraph, items: Vec<usize>, typ: Type) -> usize {
    dfg.make_array(items.into_iter().collect::<Vector<usize>>(), typ)
}

fn value(dfg: &mut DataFlowGraph, value: Value) -> usize {
    dfg.values.push(value);
    dfg.values.len() - 1
}

fn instruction(dfg: &mut DataFlowGraph, instruction: Instruction, result_types: Vec<Type>) -> usize {
    let id = dfg.instructions.len();
    let mut results = Vec::new();
    for (position, typ) in result_types.into_iter().enumerate() {
        results.push(value(dfg, Value::Instruction { instruction: id, position, typ }));
    }
    dfg.instructions.push(instruction);
    dfg.results.push(results);
    id
}

fn function(mut dfg: DataFlowGraph, instructions: Vec<usize>) -> Function {
    dfg.blocks.push(BasicBlock {
        instructions,
        terminator: Some(TerminatorInstruction::Return { return_values: vec![] }),
    });
    Function { entry_block: 0, dfg }
}

/// A read of slot 0 of a slice of two slices.
fn nested_read() -> Function {
    let mut dfg = DataFlowGraph::new();
    let a = constant(&mut dfg, 1);
    let short = array(&mut dfg, vec![a], slice_of(field()));
    let long = array(&mut dfg, vec![a, a], slice_of(field()));
    let outer = array(&mut dfg, vec![short, long], slice_of(slice_of(field())));
    let read = instruction(&mut dfg, Instruction::ArrayGet { array: outer, index: a }, vec![slice_of(field())]);
    function(dfg, vec![read])
}

/// A pop that names no slice.
fn pop_without_arguments() -> Function {
    let mut dfg = DataFlowGraph::new();
    let a = constant(&mut dfg, 1);
    let pop = value(&mut dfg, Value::Intrinsic(Intrinsic::SlicePopBack));
    let call = instruction(&mut dfg, Instruction::Call { func: pop, arguments: vec![a] }, vec![field()]);
    function(dfg, vec![call])
}

/// A read of a slice that holds a slice which is no constant.
fn slice_of_a_parameter() -> Function {
    let mut dfg = DataFlowGraph::new();
    let a = constant(&mut dfg, 1);
    let parameter = value(&mut dfg, Value::Param { block: 0, position: 0, typ: slice_of(field()) });
    let outer = array(&mut dfg, vec![parameter], slice_of(slice_of(field())));
    let read = instruction(&mut dfg, Instruction::ArrayGet { array: outer, index: a }, vec![slice_of(field())]);
    function(dfg, vec![read])
}

/// A read of a fixed array of slices: tracking marks it but records nothing
/// for it.
fn fixed_array_of_slices() -> Function {
    let mut dfg = DataFlowGraph::new();
    let a = constant(&mut dfg, 1);
    let inner = array(&mut dfg, vec![a], slice_of(field()));
    let fixed = array(&mut dfg, vec![inner], Type::Array(vec![slice_of(field())], 1));
    let read = instruction(&mut dfg, Instruction::ArrayGet { array: fixed, index: a }, vec![field()]);
    function(dfg, vec![read])
}

/// A read of a slice of slices of references: no reference can be made up
/// to pad the shorter one.
fn slice_with_references() -> Function {
    let mut dfg = DataFlowGraph::new();
    let a = constant(&mut dfg, 1);
    let cell = value(&mut dfg, Value::Param { block: 0, position: 0, typ: Type::Reference });
    let short = array(&mut dfg, vec![cell], slice_of(Type::Reference));
    let long = array(&mut dfg, vec![cell, cell], slice_of(Type::Reference));
    let outer = array(&mut dfg, vec![short, long], slice_of(slice_of(Type::Reference)));
    let read = instruction(&mut dfg, Instruction::ArrayGet { array: outer, index: a }, vec![field()]);
    function(dfg, vec![read])
}

/// A read of a slice without element types.
fn slice_without_element_types() -> Function {
    let mut dfg = DataFlowGraph::new();
    let a = constant(&mut dfg, 1);
    let odd = array(&mut dfg, vec![], Type::Slice(vec![]));
    let read = instruction(&mut dfg, Instruction::ArrayGet { array: odd, index: a }, vec![field()]);
    function(dfg, vec![read])
}

#[test]
fn a_function_made_by_the_store_is_well_formed() {
    assert!(nested_read().is_well_formed());
    assert!(pop_without_arguments().is_well_formed());
    assert!(function(DataFlowGraph::new(), vec![]).is_well_formed());
}

#[test]
fn an_empty_graph_is_well_formed_but_no_function() {
    assert!(DataFlowGraph::new().is_well_formed());
    assert!(!Function { entry_block: 0, dfg: DataFlowGraph::new() }.is_well_formed());
}

#[test]
fn an_operand_that_names_nothing_is_found() {
    let mut broken = nested_read();
    broken.dfg.instructions[0] = Instruction::ArrayGet { array: 3, index: 99 };
    assert!(!broken.is_well_formed());
    let mut broken = nested_read();
    broken.dfg.instructions.push(Instruction::Call { func: 0, arguments: vec![1, 2, 500] });
    broken.dfg.results.push(vec![]);
    assert!(!broken.is_well_formed());
    let mut broken = nested_read();
    broken.dfg.instructions.push(Instruction::Binary { lhs: 0, operator: BinaryOp::Mul, rhs: 77 });
    broken.dfg.results.push(vec![]);
    assert!(!broken.is_well_formed());
}

#[test]
fn a_result_that_names_nothing_is_found() {
    let mut broken = nested_read();
    broken.dfg.results[0].push(1000);
    assert!(!broken.is_well_formed());
}

#[test]
fn an_instruction_without_its_results_is_found() {
    let mut broken = nested_read();
    broken.dfg.results.pop();
    assert!(!broken.is_well_formed());
}

#[test]
fn an_array_that_holds_a_later_value_is_found() {
    let mut broken = nested_read();
    let own = broken.dfg.values.len();
    broken.dfg.values.push(Value::Array { array: Vector::unit(own), typ: slice_of(field()) });
    assert!(!broken.is_well_formed());
    let mut broken = nested_read();
    broken.dfg.values.push(Value::Array { array: Vector::unit(200), typ: slice_of(field()) });
    assert!(!broken.is_well_formed());
}

#[test]
fn a_block_that_names_nothing_is_found() {
    let mut broken = nested_read();
    broken.dfg.blocks[0].instructions.push(9);
    assert!(!broken.is_well_formed());
    let mut broken = nested_read();
    broken.dfg.blocks[0].terminator = Some(TerminatorInstruction::Jmp { destination: 1, arguments: vec![] });
    assert!(!broken.is_well_formed());
    let mut broken = nested_read();
    broken.dfg.blocks[0].terminator =
        Some(TerminatorInstruction::JmpIf { condition: 0, then_destination: 0, else_destination: 4 });
    assert!(!broken.is_well_formed());
    let mut broken = nested_read();
    broken.dfg.blocks[0].terminator = Some(TerminatorInstruction::Return { return_values: vec![0, 90] });
    assert!(!broken.is_well_formed());
    let mut broken = nested_read();
    broken.entry_block = 1;
    assert!(!broken.is_well_formed());
}

#[test]
fn a_block_of_nested_reads_can_be_rewritten() {
    let context = Context::new(nested_read());
    assert!(context.can_process_block(0));
    assert!(context.can_process_blocks());
    assert!(!context.can_process_block(1));
}

#[test]
fn a_call_that_lacks_its_slice_cannot_be_tracked() {
    let context = Context::new(pop_without_arguments());
    assert!(context.try_track_block(&vec![0]).is_none());
    assert!(!context.can_process_block(0));
    assert!(!context.can_process_blocks());
}

#[test]
fn a_slice_that_is_no_constant_cannot_be_sized() {
    let context = Context::new(slice_of_a_parameter());
    let mut sizes = SizeTable::default();
    assert!(!context.try_compute_slice_sizes(2, &mut sizes));
    assert!(!context.can_process_block(0));
}

#[test]
fn a_slice_with_a_record_can_be_sized_though_it_is_no_constant() {
    let context = Context::new(slice_of_a_parameter());
    let mut sizes = SizeTable::default();
    sizes.insert(1, SizeRecord { max_length: 4, inner: vec![] });
    assert!(context.try_compute_slice_sizes(2, &mut sizes));
    assert_eq!(sizes.get(&2).map(|record| record.max_length), Some(1));
    assert_eq!(sizes.get(&1).map(|record| record.max_length), Some(4));
}

#[test]
fn an_array_without_a_record_has_no_bound() {
    let context = Context::new(fixed_array_of_slices());
    assert!(context.try_track_block(&vec![0]).is_some());
    assert!(!context.can_process_block(0));
}

#[test]
fn a_reference_cannot_be_made_up() {
    let context = Context::new(slice_with_references());
    assert!(context.try_track_block(&vec![0]).is_some());
    assert!(!context.can_process_block(0));
    assert!(!context.can_attach_slice_dummies(&Type::Reference, None, 1, false));
    assert!(!context.can_attach_slice_dummies(&Type::Function, Some(0), 1, false));
    assert!(!context.can_attach_slice_dummies(&slice_of(Type::Reference), None, 1, false));
    assert!(context.can_attach_slice_dummies(&slice_of(Type::Reference), None, 0, false));
    // Not even where every slot has a source: a reference is never passed on.
    assert!(!context.can_attach_slice_dummies(&slice_of(Type::Reference), Some(3), 2, false));
    assert!(!context.can_attach_slice_dummies(&slice_of(Type::Reference), Some(2), 2, false));
    assert!(context.can_attach_slice_dummies(&slice_of(Type::Reference), Some(2), 0, false));
}

#[test]
fn a_slice_without_element_types_cannot_be_tracked() {
    let context = Context::new(slice_without_element_types());
    assert!(context.try_track_block(&vec![0]).is_none());
    assert!(!context.can_attach_slice_dummies(&Type::Slice(vec![]), Some(1), 1, true));
    assert!(context.can_attach_slice_dummies(&Type::Slice(vec![]), Some(1), 1, false));
}

#[test]
fn padding_needs_a_constant_to_pad_a_slice_from() {
    let context = Context::new(nested_read());
    assert!(context.can_attach_slice_dummies(&slice_of(field()), Some(1), 3, false));
    assert!(!context.can_attach_slice_dummies(&slice_of(field()), Some(0), 3, false));
    assert!(!context.can_attach_slice_dummies(&slice_of(field()), Some(1000), 3, false));
    assert!(context.can_attach_slice_dummies(&field(), Some(1000), 3, false));
    assert!(context.can_attach_slice_dummies(&Type::Array(vec![field()], 2), Some(0), 3, false));
    assert!(context.can_attach_slice_dummies(&Type::Array(vec![field()], 2), None, 3, false));
}

#[test]
fn padding_beyond_what_can_be_counted_is_refused() {
    let context = Context::new(nested_read());
    let pairs = Type::Slice(vec![field(), field()]);
    assert!(!context.can_attach_slice_dummies(&pairs, None, usize::MAX, false));
    assert!(!context.can_attach_slice_dummies(&Type::Array(vec![field(), field()], usize::MAX), None, 1, false));
}

#[test]
fn the_guarded_pass_fills_what_it_can() {
    let ssa = Ssa { functions: vec![nested_read(), function(DataFlowGraph::new(), vec![])] };
    let filled = ssa.try_fill_internal_slices().expect("the pass can run");
    assert_eq!(filled.functions.len(), 2);
    assert_eq!(filled.functions[0].dfg.blocks[0].instructions, vec![1]);
    assert!(filled.functions[1].dfg.values.is_empty());
}

#[test]
fn the_guarded_pass_gives_up_on_a_function_it_cannot_handle() {
    for broken in [
        pop_without_arguments(),
        slice_of_a_parameter(),
        fixed_array_of_slices(),
        slice_with_references(),
        slice_without_element_types(),
        Function { entry_block: 3, dfg: DataFlowGraph::new() },
    ] {
        let ssa = Ssa { functions: vec![nested_read(), broken] };
        assert!(ssa.try_fill_internal_slices().is_none());
    }
}

#[test]
fn a_lineage_is_followed_within_its_limit() {
    let supersedes: BTreeMap<usize, usize> = [(1, 2), (2, 3), (3, 4)].into_iter().collect();
    assert_eq!(settle(1, &supersedes, 3), Some(4));
    assert_eq!(settle(1, &supersedes, 2), None);
    assert_eq!(settle(4, &supersedes, 0), Some(4));
    assert_eq!(settle(3, &supersedes, 0), None);
    assert_eq!(settle(9, &supersedes, 3), Some(9));
}

#[test]
fn a_lineage_that_runs_in_a_circle_never_settles() {
    let supersedes: BTreeMap<usize, usize> = [(1, 2), (2, 1)].into_iter().collect();
    assert_eq!(settle(1, &supersedes, 2), None);
    assert_eq!(settle(1, &supersedes, 100), None);
    let supersedes: BTreeMap<usize, usize> = [(5, 5)].into_iter().collect();
    assert_eq!(settle(5, &supersedes, 1), None);
}

#[test]
fn a_nest_is_known_as_deep_as_it_is() {
    let mut sizes = SizeTable::default();
    sizes.insert(3, SizeRecord { max_length: 1, inner: vec![2, 1] });
    sizes.insert(2, SizeRecord { max_length: 1, inner: vec![1] });
    sizes.insert(1, SizeRecord { max_length: 1, inner: vec![] });
    assert!(nest_is_known(1, &sizes, 0));
    assert!(!nest_is_known(2, &sizes, 0));
    assert!(nest_is_known(2, &sizes, 1));
    assert!(!nest_is_known(3, &sizes, 1));
    assert!(nest_is_known(3, &sizes, 2));
    assert!(nest_is_known(3, &sizes, 3));
    assert!(!nest_is_known(4, &sizes, 3));
}

#[test]
fn a_nest_with_a_gap_or_a_circle_is_not_known() {
    let mut sizes = SizeTable::default();
    sizes.insert(3, SizeRecord { max_length: 1, inner: vec![2] });
    assert!(!nest_is_known(3, &sizes, 5));
    sizes.insert(2, SizeRecord { max_length: 1, inner: vec![3] });
    assert!(!nest_is_known(3, &sizes, 2));
    assert!(!nest_is_known(3, &sizes, 5));
}
