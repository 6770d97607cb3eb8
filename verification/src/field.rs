//! Field constants, held as plain integers.

use vstd::prelude::*;

verus! {

/// An element of the scalar field, as the integer `high * 2^128 + low` that
/// its canonical big-endian encoding spells.
#[derive(Clone, Copy, PartialEq, Eq, Structural, Debug)]
pub struct FieldElement {
    pub high: u128,
    pub low: u128,
}

/// `acvm::FieldElement::zero`, read through `to_be_bytes`: every byte of the
/// additive identity's encoding is zero.
#[verifier::external_body]
fn acvm_zero() -> (z: FieldElement)
    ensures
        z.high == 0,
        z.low == 0,
{
    let bytes = acvm::FieldElement::zero().to_be_bytes();
    FieldElement {
        high: u128::from_be_bytes(bytes[0..16].try_into().unwrap()),
        low: u128::from_be_bytes(bytes[16..32].try_into().unwrap()),
    }
}

/// `From<usize>` of acvm's bytecode `Value`, read through `to_field` and
/// `to_be_bytes`: the field element that `value` names, which fits in the
/// low half of the encoding.
#[verifier::external_body]
fn acvm_register_value(value: usize) -> (element: FieldElement)
    ensures
        element.high == 0,
        element.low == value,
{
    let bytes = acvm::acir::brillig::Value::from(value).to_field().to_be_bytes();
    FieldElement {
        high: u128::from_be_bytes(bytes[0..16].try_into().unwrap()),
        low: u128::from_be_bytes(bytes[16..32].try_into().unwrap()),
    }
}

impl FieldElement {
    /// The integer that this element stands for.
    pub open spec fn value(self) -> nat {
        (self.high as nat) * 0x1_0000_0000_0000_0000_0000_0000_0000_0000 + (self.low as nat)
    }

    /// The additive identity.
    pub fn zero() -> (z: FieldElement)
        ensures
            z.value() == 0,
    {
        acvm_zero()
    }

    /// The element that a machine integer names.
    pub fn from_usize(value: usize) -> (element: FieldElement)
        ensures
            element.value() == value,
    {
        acvm_register_value(value)
    }

    /// Whether this is the additive identity.
    pub fn is_zero(&self) -> (zero: bool)
        ensures
            zero == (self.value() == 0),
    {
        self.high == 0 && self.low == 0
    }
}

} // verus!
