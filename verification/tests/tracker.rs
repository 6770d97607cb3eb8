use im::Vector;
use noirc_evaluator::context::Context;
use noirc_evaluator::dfg::{BasicBlock, DataFlowGraph, Function};
use noirc_evaluator::field::FieldElement;
use noirc_evaluator::instruction::{BinaryOp, Instruction, TerminatorInstruction};
use noirc_evaluator::sizes::{SizeRecord, SizeTable};
use noirc_evaluator::tracker::SliceTracker;
use noirc_evaluator::types::{NumericType, Type};
use noirc_evaluator::value::{Intrinsic, Value};

fn field() -> Type {
    Type::Numeric(NumericType::NativeField)
}

fn slice_of(element: Type) -> Type {
    Type::Slice(vec![element])
}

fn constant(dfg: &mut DataFlowGraph, low: u128) -> usize {
    dfg.make_constant(FieldElement { high: 0, low }, field())
}

fn array(dfg: &mut DataFlowGraph, items: Vec<usize>, typ: Type) -> usize {
    dfg.make_array(items.into_iter().collect::<Vector<usize>>(), typ)
}

fn value(dfg: &mut DataFlowGraph, value: Value) -> usize {
    dfg.values.push(value);
    dfg.values.len() - 1
}

fn instruction(dfg: &mut DataFlowGraph, instruction: Instruction, result_types: Vec<Type>) -> usize {
    let id = dfg.instructions.len();
    let mut results = Vec::new();
    for (position, typ) in result_types.into_iter().enumerate() {
        results.push(value(dfg, Value::Instruction { instruction: id, position, typ }));
    }
    dfg.instructions.push(instruction);
    dfg.results.push(results);
    id
}

fn context(mut dfg: DataFlowGraph, instructions: Vec<usize>) -> Context {
    dfg.blocks.push(BasicBlock {
        instructions,
        terminator: Some(TerminatorInstruction::Return { return_values: vec![] }),
    });
    Context::new(Function { entry_block: 0, dfg })
}

fn record(table: &SizeTable, id: usize) -> (usize, Vec<usize>) {
    let record = table.get(&id).unwrap_or_else(|| panic!("no record for {}", id));
    (record.max_length, record.inner.clone())
}

#[test]
fn a_flat_slice_is_recorded_with_its_length() {
    let mut dfg = DataFlowGraph::new();
    let a = constant(&mut dfg, 1);
    let b = constant(&mut dfg, 2);
    let slice = array(&mut dfg, vec![a, b, a], slice_of(field()));
    let context = context(dfg, vec![]);
    let mut sizes = SizeTable::default();
    context.compute_slice_sizes(slice, &mut sizes);
    assert_eq!(sizes.len(), 1);
    assert_eq!(record(&sizes, slice), (3, vec![]));
}

#[test]
fn the_length_counts_element_groups() {
    let mut dfg = DataFlowGraph::new();
    let a = constant(&mut dfg, 1);
    let pairs = array(&mut dfg, vec![a, a, a, a, a, a], Type::Slice(vec![field(), field()]));
    let context = context(dfg, vec![]);
    let mut sizes = SizeTable::default();
    context.compute_slice_sizes(pairs, &mut sizes);
    assert_eq!(record(&sizes, pairs), (3, vec![]));
}

#[test]
fn a_fixed_array_is_not_recorded() {
    let mut dfg = DataFlowGraph::new();
    let a = constant(&mut dfg, 1);
    let fixed = array(&mut dfg, vec![a, a], Type::Array(vec![field()], 2));
    let context = context(dfg, vec![]);
    let mut sizes = SizeTable::default();
    context.compute_slice_sizes(fixed, &mut sizes);
    context.compute_slice_sizes(a, &mut sizes);
    assert!(sizes.is_empty());
}

#[test]
fn siblings_are_raised_to_their_maximum() {
    let mut dfg = DataFlowGraph::new();
    let a = constant(&mut dfg, 1);
    let short = array(&mut dfg, vec![a], slice_of(field()));
    let long = array(&mut dfg, vec![a, a, a], slice_of(field()));
    let middle = array(&mut dfg, vec![a, a], slice_of(field()));
    let outer = array(&mut dfg, vec![short, long, middle], slice_of(slice_of(field())));
    let context = context(dfg, vec![]);
    let mut sizes = SizeTable::default();
    context.compute_slice_sizes(outer, &mut sizes);
    assert_eq!(record(&sizes, outer), (3, vec![short, long, middle]));
    assert_eq!(record(&sizes, short), (3, vec![]));
    assert_eq!(record(&sizes, long), (3, vec![]));
    assert_eq!(record(&sizes, middle), (3, vec![]));
}

#[test]
fn each_level_has_its_own_maximum() {
    let mut dfg = DataFlowGraph::new();
    let a = constant(&mut dfg, 1);
    let deep_short = array(&mut dfg, vec![a], slice_of(field()));
    let deep_long = array(&mut dfg, vec![a, a, a, a], slice_of(field()));
    let left = array(&mut dfg, vec![deep_short, deep_long], slice_of(slice_of(field())));
    let deep_only = array(&mut dfg, vec![a, a], slice_of(field()));
    let right = array(&mut dfg, vec![deep_only], slice_of(slice_of(field())));
    let top = array(&mut dfg, vec![left, right], slice_of(slice_of(slice_of(field()))));
    let context = context(dfg, vec![]);
    let mut sizes = SizeTable::default();
    context.compute_slice_sizes(top, &mut sizes);
    assert_eq!(record(&sizes, top), (2, vec![left, right]));
    assert_eq!(record(&sizes, left), (2, vec![deep_short, deep_long]));
    assert_eq!(record(&sizes, right), (2, vec![deep_only]));
    assert_eq!(record(&sizes, deep_short), (4, vec![]));
    assert_eq!(record(&sizes, deep_long), (4, vec![]));
    assert_eq!(record(&sizes, deep_only), (2, vec![]));
    assert_eq!(context.find_max_nested_depth(top, &sizes), 4);
}

/// A slice of two field elements, followed by `push_back`, `push_back` and
/// `pop_back` on it.
fn push_push_pop() -> (Context, usize, Vec<usize>) {
    let mut dfg = DataFlowGraph::new();
    let a = constant(&mut dfg, 1);
    let length = constant(&mut dfg, 2);
    let slice = array(&mut dfg, vec![a, a], slice_of(field()));
    let push = value(&mut dfg, Value::Intrinsic(Intrinsic::SlicePushBack));
    let pop = value(&mut dfg, Value::Intrinsic(Intrinsic::SlicePopBack));
    // A read makes tracking size the slice.
    let read = instruction(&mut dfg, Instruction::ArrayGet { array: slice, index: a }, vec![field()]);
    let first = instruction(
        &mut dfg,
        Instruction::Call { func: push, arguments: vec![length, slice, a] },
        vec![field(), slice_of(field())],
    );
    let after_first = dfg.results[first][1];
    let second = instruction(
        &mut dfg,
        Instruction::Call { func: push, arguments: vec![length, after_first, a] },
        vec![field(), slice_of(field())],
    );
    let after_second = dfg.results[second][1];
    let third = instruction(
        &mut dfg,
        Instruction::Call { func: pop, arguments: vec![length, after_second] },
        vec![field(), slice_of(field()), field()],
    );
    let after_third = dfg.results[third][1];
    let ids = vec![read, first, second, third];
    (context(dfg, ids.clone()), slice, vec![after_first, after_second, after_third])
}

#[test]
fn a_push_raises_the_bound_and_a_pop_keeps_it() {
    let (context, slice, results) = push_push_pop();
    let mut tracker = SliceTracker::new();
    context.track_instruction(0, &mut tracker);
    assert_eq!(record(&tracker.slice_sizes, slice), (2, vec![]));
    context.track_instruction(1, &mut tracker);
    assert_eq!(record(&tracker.slice_sizes, slice), (3, vec![]));
    assert_eq!(record(&tracker.slice_sizes, results[0]), (3, vec![]));
    context.track_instruction(2, &mut tracker);
    assert_eq!(record(&tracker.slice_sizes, results[0]), (4, vec![]));
    assert_eq!(record(&tracker.slice_sizes, results[1]), (4, vec![]));
    context.track_instruction(3, &mut tracker);
    // The pop lowers nothing: the bound is the one after the second push.
    assert_eq!(record(&tracker.slice_sizes, results[1]), (4, vec![]));
    assert_eq!(record(&tracker.slice_sizes, results[2]), (4, vec![]));
    assert_eq!(tracker.slice_values, vec![slice]);
    assert_eq!(tracker.mapped_slice_values.get(&slice), Some(&results[0]));
    assert_eq!(tracker.mapped_slice_values.get(&results[0]), Some(&results[1]));
    assert_eq!(tracker.mapped_slice_values.get(&results[1]), Some(&results[2]));
    assert_eq!(tracker.mapped_slice_values.len(), 3);
}

#[test]
fn tracking_a_block_tracks_each_instruction_in_turn() {
    let (context, slice, results) = push_push_pop();
    let tracker = context.track_block(&vec![0, 1, 2, 3]);
    assert_eq!(record(&tracker.slice_sizes, results[2]), (4, vec![]));
    assert_eq!(tracker.slice_values, vec![slice]);
    let mut latest = slice;
    Context::follow_mapped_slice_values(slice, &tracker.mapped_slice_values, &mut latest);
    assert_eq!(latest, results[2]);
    assert_eq!(context.find_max_nested_depth(latest, &tracker.slice_sizes), 4);
}

#[test]
fn pop_front_hands_the_slice_back_as_its_third_result() {
    let mut dfg = DataFlowGraph::new();
    let a = constant(&mut dfg, 1);
    let slice = array(&mut dfg, vec![a, a, a], slice_of(field()));
    let pop = value(&mut dfg, Value::Intrinsic(Intrinsic::SlicePopFront));
    let read = instruction(&mut dfg, Instruction::ArrayGet { array: slice, index: a }, vec![field()]);
    let call = instruction(
        &mut dfg,
        Instruction::Call { func: pop, arguments: vec![a, slice] },
        vec![field(), field(), slice_of(field())],
    );
    let shorter = dfg.results[call][2];
    let context = context(dfg, vec![read, call]);
    let tracker = context.track_block(&vec![read, call]);
    assert_eq!(record(&tracker.slice_sizes, shorter), (3, vec![]));
    assert_eq!(record(&tracker.slice_sizes, slice), (3, vec![]));
    assert_eq!(tracker.mapped_slice_values.get(&slice), Some(&shorter));
}

#[test]
fn insert_grows_and_remove_does_not_shrink() {
    let mut dfg = DataFlowGraph::new();
    let a = constant(&mut dfg, 1);
    let slice = array(&mut dfg, vec![a], slice_of(field()));
    let insert = value(&mut dfg, Value::Intrinsic(Intrinsic::SliceInsert));
    let remove = value(&mut dfg, Value::Intrinsic(Intrinsic::SliceRemove));
    let read = instruction(&mut dfg, Instruction::ArrayGet { array: slice, index: a }, vec![field()]);
    let grow = instruction(
        &mut dfg,
        Instruction::Call { func: insert, arguments: vec![a, slice, a, a] },
        vec![field(), slice_of(field())],
    );
    let grown = dfg.results[grow][1];
    let shrink = instruction(
        &mut dfg,
        Instruction::Call { func: remove, arguments: vec![a, grown, a] },
        vec![field(), slice_of(field()), field()],
    );
    let shrunk = dfg.results[shrink][1];
    let context = context(dfg, vec![read, grow, shrink]);
    let tracker = context.track_block(&vec![read, grow, shrink]);
    assert_eq!(record(&tracker.slice_sizes, grown), (2, vec![]));
    assert_eq!(record(&tracker.slice_sizes, shrunk), (2, vec![]));
}

#[test]
fn a_slice_that_was_never_sized_is_not_tracked() {
    let mut dfg = DataFlowGraph::new();
    let a = constant(&mut dfg, 1);
    let slice = array(&mut dfg, vec![a], slice_of(field()));
    let push = value(&mut dfg, Value::Intrinsic(Intrinsic::SlicePushFront));
    let call = instruction(
        &mut dfg,
        Instruction::Call { func: push, arguments: vec![a, slice, a] },
        vec![field(), slice_of(field())],
    );
    let context = context(dfg, vec![call]);
    let tracker = context.track_block(&vec![call]);
    assert!(tracker.slice_sizes.is_empty());
    assert!(tracker.slice_values.is_empty());
    assert!(tracker.mapped_slice_values.is_empty());
}

#[test]
fn other_instructions_leave_tracking_alone() {
    let mut dfg = DataFlowGraph::new();
    let a = constant(&mut dfg, 1);
    let other = value(&mut dfg, Value::Intrinsic(Intrinsic::ArrayLen));
    let add = instruction(&mut dfg, Instruction::Binary { lhs: a, operator: BinaryOp::Add, rhs: a }, vec![field()]);
    let call = instruction(&mut dfg, Instruction::Call { func: other, arguments: vec![] }, vec![field()]);
    let cell = instruction(&mut dfg, Instruction::Allocate, vec![Type::Reference]);
    let context = context(dfg, vec![add, call, cell]);
    let tracker = context.track_block(&vec![add, call, cell]);
    assert!(tracker.slice_sizes.is_empty());
    assert!(tracker.slice_values.is_empty());
    assert!(tracker.mapped_slice_values.is_empty());
}

#[test]
fn a_read_of_a_nested_slice_hands_the_inner_record_to_its_result() {
    let mut dfg = DataFlowGraph::new();
    let a = constant(&mut dfg, 1);
    let short = array(&mut dfg, vec![a], slice_of(field()));
    let long = array(&mut dfg, vec![a, a, a], slice_of(field()));
    let outer = array(&mut dfg, vec![short, long], slice_of(slice_of(field())));
    let read = instruction(&mut dfg, Instruction::ArrayGet { array: outer, index: a }, vec![slice_of(field())]);
    let inner = dfg.results[read][0];
    let context = context(dfg, vec![read]);
    let tracker = context.track_block(&vec![read]);
    assert_eq!(tracker.slice_values, vec![outer]);
    assert_eq!(record(&tracker.slice_sizes, outer), (2, vec![short, long, inner]));
    assert_eq!(record(&tracker.slice_sizes, inner), (3, vec![]));
    assert_eq!(tracker.mapped_slice_values.get(&outer), Some(&inner));
}

#[test]
fn a_write_of_a_slice_lists_it_and_supersedes_both() {
    let mut dfg = DataFlowGraph::new();
    let a = constant(&mut dfg, 1);
    let short = array(&mut dfg, vec![a], slice_of(field()));
    let outer = array(&mut dfg, vec![short], slice_of(slice_of(field())));
    let long = array(&mut dfg, vec![a, a, a, a], slice_of(field()));
    let write = instruction(
        &mut dfg,
        Instruction::ArraySet { array: outer, index: a, value: long },
        vec![slice_of(slice_of(field()))],
    );
    let written = dfg.results[write][0];
    let context = context(dfg, vec![write]);
    let tracker = context.track_block(&vec![write]);
    assert_eq!(tracker.slice_values, vec![outer]);
    assert_eq!(record(&tracker.slice_sizes, long), (4, vec![]));
    assert_eq!(record(&tracker.slice_sizes, outer), (1, vec![short, long]));
    assert_eq!(record(&tracker.slice_sizes, written), (1, vec![short, long]));
    assert_eq!(tracker.mapped_slice_values.get(&long), Some(&written));
    assert_eq!(tracker.mapped_slice_values.get(&outer), Some(&written));
    assert_eq!(context.find_max_nested_depth(written, &tracker.slice_sizes), 4);
}

#[test]
fn a_new_tracker_knows_nothing() {
    let tracker = SliceTracker::new();
    assert!(tracker.slice_sizes.is_empty());
    assert!(tracker.slice_values.is_empty());
    assert!(tracker.mapped_slice_values.is_empty());
    let mut table = SizeTable::default();
    table.insert(1, SizeRecord { max_length: 1, inner: vec![] });
    assert_eq!(table.len(), 1);
}
