//! The types that SSA values carry.

use vstd::prelude::*;

verus! {

/// The kind of a scalar value.
#[derive(Clone, Copy, PartialEq, Eq, Structural, Debug)]
pub enum NumericType {
    Signed { bit_size: u32 },
    Unsigned { bit_size: u32 },
    NativeField,
}

/// The type of an SSA value. Arrays and slices list the types of one element
/// group: an element may be a tuple, flattened into several slots.
#[derive(Debug)]
pub enum Type {
    Numeric(NumericType),
    Array(Vec<Type>, usize),
    Slice(Vec<Type>),
    Reference,
    Function,
}

/// The mathematical value of a [`Type`].
pub ghost enum TypeView {
    Numeric(NumericType),
    Array(Seq<TypeView>, nat),
    Slice(Seq<TypeView>),
    Reference,
    Function,
}

impl View for Type {
    type V = TypeView;

    open spec fn view(&self) -> TypeView {
        type_view(*self)
    }
}

} // verus!

verus! {

/// The mathematical value of a type, element types included.
pub open spec fn type_view(t: Type) -> TypeView
    decreases t,
{
    match t {
        Type::Numeric(kind) => TypeView::Numeric(kind),
        Type::Array(elements, length) => TypeView::Array(
            Seq::new(
                elements.len() as nat,
                |i: int| if 0 <= i < elements.len() { type_view(elements[i]) } else { TypeView::Function },
            ),
            length as nat,
        ),
        Type::Slice(elements) => TypeView::Slice(
            Seq::new(
                elements.len() as nat,
                |i: int| if 0 <= i < elements.len() { type_view(elements[i]) } else { TypeView::Function },
            ),
        ),
        Type::Reference => TypeView::Reference,
        Type::Function => TypeView::Function,
    }
}

impl TypeView {
    /// Whether this type, or a type nested in it as an array element, is a slice.
    pub open spec fn contains_slice_element(self) -> bool
        decreases self,
    {
        match self {
            TypeView::Slice(_) => true,
            TypeView::Array(elements, _) => exists|i: int|
                0 <= i < elements.len() && (#[trigger] elements[i]).contains_slice_element(),
            _ => false,
        }
    }

    /// The types of one element group of an array or a slice.
    pub open spec fn elements(self) -> Seq<TypeView> {
        match self {
            TypeView::Array(elements, _) => elements,
            TypeView::Slice(elements) => elements,
            _ => Seq::empty(),
        }
    }
}

impl Type {
    /// Whether this type, or a type nested in it as an array element, is a slice.
    pub fn contains_slice_element(&self) -> (found: bool)
        ensures
            found == self@.contains_slice_element(),
        decreases self,
    {
        match self {
            Type::Slice(_) => true,
            Type::Array(elements, _) => {
                let mut i: usize = 0;
                while i < elements.len()
                    invariant
                        i <= elements.len(),
                        self@ matches TypeView::Array(views, _) && views.len() == elements.len()
                            && forall|j: int| 0 <= j < views.len() ==> views[j] == elements[j]@,
                        *self matches Type::Array(own, _) && own == elements,
                        forall|j: int| 0 <= j < i ==> !(#[trigger] elements[j]@).contains_slice_element(),
                    decreases elements.len() - i,
                {
                    if elements[i].contains_slice_element() {
                        assert(self@->Array_0[i as int].contains_slice_element());
                        return true;
                    }
                    i += 1;
                }
                false
            },
            _ => false,
        }
    }

    /// Whether this is a slice type.
    pub fn is_slice(&self) -> (slice: bool)
        ensures
            slice == (self@ is Slice),
    {
        match self {
            Type::Slice(_) => true,
            _ => false,
        }
    }

    /// The number of slots that one element of this array or slice takes up.
    pub fn element_size(&self) -> (size: usize)
        requires
            self@ is Array || self@ is Slice,
        ensures
            size == self@.elements().len(),
    {
        match self {
            Type::Array(elements, _) => elements.len(),
            Type::Slice(elements) => elements.len(),
            _ => 0,
        }
    }
}

/// Copies a list of types.
fn clone_all(elements: &Vec<Type>) -> (copies: Vec<Type>)
    ensures
        copies.len() == elements.len(),
        forall|j: int| 0 <= j < elements.len() ==> copies[j]@ == elements[j]@,
    decreases elements, 0int,
{
    let mut copies: Vec<Type> = Vec::new();
    let mut i: usize = 0;
    while i < elements.len()
        invariant
            i <= elements.len(),
            copies.len() == i,
            forall|j: int| 0 <= j < i ==> copies[j]@ == elements[j]@,
        decreases elements.len() - i,
    {
        copies.push(clone_type(&elements[i]));
        i += 1;
    }
    copies
}

/// Copies a type.
fn clone_type(typ: &Type) -> (copy: Type)
    ensures
        copy@ == typ@,
    decreases typ, 1int,
{
    match typ {
        Type::Numeric(kind) => Type::Numeric(*kind),
        Type::Array(elements, length) => {
            let copies = clone_all(elements);
            let copy = Type::Array(copies, *length);
            assert(copy@->Array_0 =~= typ@->Array_0);
            copy
        },
        Type::Slice(elements) => {
            let copies = clone_all(elements);
            let copy = Type::Slice(copies);
            assert(copy@->Slice_0 =~= typ@->Slice_0);
            copy
        },
        Type::Reference => Type::Reference,
        Type::Function => Type::Function,
    }
}

/// Whether two lists hold the same types in the same order.
fn same_types(a: &Vec<Type>, b: &Vec<Type>) -> (same: bool)
    ensures
        same == (a.len() == b.len() && forall|j: int| 0 <= j < a.len() ==> a[j]@ == b[j]@),
    decreases a, 0int,
{
    if a.len() != b.len() {
        return false;
    }
    let mut i: usize = 0;
    while i < a.len()
        invariant
            i <= a.len(),
            a.len() == b.len(),
            forall|j: int| 0 <= j < i ==> a[j]@ == b[j]@,
        decreases a.len() - i,
    {
        if !same_type(&a[i], &b[i]) {
            return false;
        }
        i += 1;
    }
    true
}

/// Whether two types are the same.
fn same_type(a: &Type, b: &Type) -> (same: bool)
    ensures
        same == (a@ == b@),
    decreases a, 1int,
{
    match (a, b) {
        (Type::Numeric(kind), Type::Numeric(other)) => *kind == *other,
        (Type::Array(elements, length), Type::Array(others, other_length)) => {
            let same = same_types(elements, others) && *length == *other_length;
            proof {
                assert(a@->Array_0.len() == elements.len() && b@->Array_0.len() == others.len());
                assert(a@->Array_1 == *length && b@->Array_1 == *other_length);
                if same {
                    assert(a@->Array_0 =~= b@->Array_0);
                } else if elements.len() == others.len() && *length == *other_length {
                    let j = choose|j: int| 0 <= j < elements.len() && elements[j]@ != others[j]@;
                    assert(a@->Array_0[j] == elements[j]@ && b@->Array_0[j] == others[j]@);
                }
            }
            same
        },
        (Type::Slice(elements), Type::Slice(others)) => {
            let same = same_types(elements, others);
            proof {
                assert(a@->Slice_0.len() == elements.len() && b@->Slice_0.len() == others.len());
                if same {
                    assert(a@->Slice_0 =~= b@->Slice_0);
                } else if elements.len() == others.len() {
                    let j = choose|j: int| 0 <= j < elements.len() && elements[j]@ != others[j]@;
                    assert(a@->Slice_0[j] == elements[j]@ && b@->Slice_0[j] == others[j]@);
                }
            }
            same
        },
        (Type::Reference, Type::Reference) => true,
        (Type::Function, Type::Function) => true,
        _ => false,
    }
}

impl Type {
    /// Whether this type and `other` are the same.
    pub fn same_as(&self, other: &Type) -> (same: bool)
        ensures
            same == (self@ == other@),
    {
        same_type(self, other)
    }
}

impl Clone for Type {
    fn clone(&self) -> (copy: Type)
        ensures
            copy@ == self@,
    {
        clone_type(self)
    }
}

} // verus!
