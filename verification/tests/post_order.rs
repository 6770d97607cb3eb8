use noirc_evaluator::dfg::{DataFlowGraph, Function};
use noirc_evaluator::field::FieldElement;
use noirc_evaluator::instruction::TerminatorInstruction;
use noirc_evaluator::post_order::PostOrder;
use noirc_evaluator::types::{NumericType, Type};

/// A function whose blocks jump as `jumps` says: no target ends the function,
/// one target is a plain jump, two are the two ways of a branch.
fn function(jumps: &[&[usize]]) -> Function {
    let mut dfg = DataFlowGraph::new();
    let condition = dfg.make_constant(FieldElement { high: 0, low: 1 }, Type::Numeric(NumericType::NativeField));
    for _ in jumps {
        dfg.make_block();
    }
    for (block, targets) in jumps.iter().enumerate() {
        let terminator = match targets {
            [] => TerminatorInstruction::Return { return_values: vec![] },
            [target] => TerminatorInstruction::Jmp { destination: *target, arguments: vec![] },
            [then_destination, else_destination] => TerminatorInstruction::JmpIf {
                condition,
                then_destination: *then_destination,
                else_destination: *else_destination,
            },
            _ => panic!("a block has two ways out at most"),
        };
        dfg.set_terminator(block, terminator);
    }
    Function { entry_block: 0, dfg }
}

fn order(jumps: &[&[usize]]) -> Vec<usize> {
    PostOrder::with_function(&function(jumps)).into_vec()
}

#[test]
fn a_single_block_is_its_own_order() {
    assert_eq!(order(&[&[]]), vec![0]);
}

#[test]
fn a_chain_is_listed_from_its_end() {
    assert_eq!(order(&[&[1], &[2], &[]]), vec![2, 1, 0]);
}

#[test]
fn a_diamond_lists_the_join_first_and_the_entry_last() {
    assert_eq!(order(&[&[1, 2], &[3], &[3], &[]]), vec![3, 1, 2, 0]);
}

#[test]
fn a_loop_is_entered_once() {
    // 0 -> 1 -> 2 -> 1, and 2 -> 3.
    assert_eq!(order(&[&[1], &[2], &[1, 3], &[]]), vec![3, 2, 1, 0]);
}

#[test]
fn a_block_that_jumps_to_itself_is_listed_once() {
    assert_eq!(order(&[&[0, 1], &[]]), vec![1, 0]);
}

#[test]
fn blocks_out_of_reach_are_left_out() {
    assert_eq!(order(&[&[2], &[0], &[]]), vec![2, 0]);
}

#[test]
fn a_block_without_a_terminator_leads_nowhere() {
    let mut function = function(&[&[1], &[]]);
    function.dfg.blocks[0].terminator = None;
    assert_eq!(PostOrder::with_function(&function).into_vec(), vec![0]);
}

#[test]
fn every_block_within_reach_is_listed_once() {
    let jumps: &[&[usize]] = &[&[1, 4], &[2, 3], &[0], &[5], &[5, 1], &[]];
    let mut listed = order(jumps);
    assert_eq!(listed.last(), Some(&0));
    listed.sort();
    assert_eq!(listed, vec![0, 1, 2, 3, 4, 5]);
}

#[test]
fn each_block_stands_after_what_it_leads_to_unless_that_leads_back() {
    let jumps: &[&[usize]] = &[&[1, 4], &[2, 3], &[0], &[5], &[5, 1], &[]];
    let listed = order(jumps);
    let position = |block: usize| listed.iter().position(|b| *b == block).unwrap();
    // 3 -> 5 and 4 -> 5: no way leads back from 5.
    assert!(position(5) < position(3));
    assert!(position(5) < position(4));
    // 1 -> 3: no way leads back from 3.
    assert!(position(3) < position(1));
}
