use noirc_evaluator::context::Context;
use noirc_evaluator::dfg::{BasicBlock, DataFlowGraph, Function};
use noirc_evaluator::instruction::TerminatorInstruction;
use noirc_evaluator::sizes::{SizeRecord, SizeTable};

fn context() -> Context {
    let mut dfg = DataFlowGraph::new();
    dfg.blocks.push(BasicBlock {
        instructions: vec![],
        terminator: Some(TerminatorInstruction::Return { return_values: vec![] }),
    });
    Context::new(Function { entry_block: 0, dfg })
}

fn table(records: &[(usize, usize, &[usize])]) -> SizeTable {
    let mut table = SizeTable::default();
    for (id, max_length, inner) in records {
        table.insert(*id, SizeRecord { max_length: *max_length, inner: inner.to_vec() });
    }
    table
}

#[test]
fn a_flat_slice_has_its_own_length() {
    let sizes = table(&[(1, 4, &[])]);
    assert_eq!(context().find_max_nested_depth(1, &sizes), 4);
}

#[test]
fn a_longer_inner_slice_wins() {
    let sizes = table(&[(3, 2, &[1, 2]), (1, 1, &[]), (2, 7, &[])]);
    assert_eq!(context().find_max_nested_depth(3, &sizes), 7);
}

#[test]
fn a_longer_outer_slice_wins() {
    let sizes = table(&[(3, 9, &[1, 2]), (1, 1, &[]), (2, 7, &[])]);
    assert_eq!(context().find_max_nested_depth(3, &sizes), 9);
}

#[test]
fn the_deepest_level_counts() {
    let sizes = table(&[(10, 1, &[8]), (8, 2, &[5, 6]), (5, 3, &[2]), (6, 1, &[]), (2, 11, &[])]);
    let context = context();
    assert_eq!(context.find_max_nested_depth(10, &sizes), 11);
    assert_eq!(context.find_max_nested_depth(8, &sizes), 11);
    assert_eq!(context.find_max_nested_depth(6, &sizes), 1);
    assert_eq!(context.find_max_nested_depth(2, &sizes), 11);
}

#[test]
fn a_shared_inner_slice_is_counted() {
    let sizes = table(&[(4, 0, &[1, 1, 2]), (1, 5, &[]), (2, 3, &[1])]);
    assert_eq!(context().find_max_nested_depth(4, &sizes), 5);
}

#[test]
fn records_out_of_reach_do_not_count() {
    let sizes = table(&[(4, 2, &[1]), (1, 3, &[]), (9, 100, &[])]);
    assert_eq!(context().find_max_nested_depth(4, &sizes), 3);
}

#[test]
fn no_inner_slice_has_no_sibling_maximum() {
    let sizes = table(&[(1, 4, &[])]);
    assert_eq!(context().compute_inner_max_size(1, &sizes), None);
}

#[test]
fn the_sibling_maximum_is_the_largest_direct_length() {
    let sizes = table(&[(7, 1, &[2, 3, 4]), (2, 5, &[]), (3, 9, &[6]), (4, 0, &[]), (6, 50, &[])]);
    let context = context();
    assert_eq!(context.compute_inner_max_size(7, &sizes), Some(9));
    assert_eq!(context.compute_inner_max_size(3, &sizes), Some(50));
    assert_eq!(context.compute_inner_max_size(2, &sizes), None);
}

#[test]
fn one_sibling_is_its_own_maximum() {
    let sizes = table(&[(5, 8, &[1]), (1, 0, &[])]);
    assert_eq!(context().compute_inner_max_size(5, &sizes), Some(0));
}
