use noirc_evaluator::field::FieldElement;

#[test]
fn zero_is_all_zero() {
    let zero = FieldElement::zero();
    assert_eq!(zero, FieldElement { high: 0, low: 0 });
    assert!(zero.is_zero());
}

#[test]
fn zero_agrees_with_the_field() {
    let bytes = acvm::FieldElement::zero().to_be_bytes();
    assert_eq!(bytes.len(), 32);
    assert!(bytes.iter().all(|byte| *byte == 0));
}

#[test]
fn a_machine_integer_keeps_its_value() {
    assert_eq!(FieldElement::from_usize(0), FieldElement { high: 0, low: 0 });
    assert_eq!(FieldElement::from_usize(1), FieldElement { high: 0, low: 1 });
    assert_eq!(FieldElement::from_usize(4096), FieldElement { high: 0, low: 4096 });
    assert_eq!(
        FieldElement::from_usize(usize::MAX),
        FieldElement { high: 0, low: usize::MAX as u128 }
    );
}

#[test]
fn only_zero_is_zero() {
    assert!(!FieldElement::from_usize(7).is_zero());
    assert!(!FieldElement { high: 1, low: 0 }.is_zero());
    assert!(FieldElement { high: 0, low: 0 }.is_zero());
}
