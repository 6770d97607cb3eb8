//! Padding of slices with dummy elements up to a common width.

use crate::context::Context;
use crate::dfg::first_constant;
use crate::field::FieldElement;
use crate::resolver::canonical;
use crate::types::{Type, TypeView};
use crate::value::{extends, Value, ValueId, ValueView};
use crate::vector::{vector_clone, vector_get, vector_items, vector_len, vector_new, vector_push_back};
use im::Vector;
use vstd::prelude::*;

verus! {

/// The number of elements that a padded slice has room for: the outermost
/// slice keeps the width that its stored elements give it, any slice nested
/// in it gets the bound.
pub open spec fn padded_width(stored: nat, arity: nat, bound: nat, outermost: bool) -> nat {
    if outermost {
        stored / arity
    } else {
        bound
    }
}

/// The element that supplies slot `j` of a padded slice: the stored one where
/// there is one, none behind the last stored slot.
pub open spec fn slot_source(stored: Seq<ValueId>, j: int) -> Option<ValueId> {
    if 0 <= j < stored.len() {
        Some(stored[j])
    } else {
        None
    }
}

/// The type of slot `j` of an array or slice whose elements are made of
/// `elements`.
pub open spec fn slot_type(elements: Seq<TypeView>, j: int) -> TypeView {
    elements[j % (elements.len() as int)]
}

/// Whether `id` names, in `values`, the value that padding yields for a slot
/// of type `typ`.
///
/// With a source, a scalar or a fixed array is the source itself as it is
/// currently resolved, and a slice is a fresh slice of `padded_width` element
/// groups whose slots are padded from the source's slots in turn.
/// With no source the value is a dummy: a zero constant for a scalar; for a
/// fixed array its full length in dummies; for a slice `bound` element groups
/// of dummies.
pub open spec fn padded(
    values: Seq<ValueView>,
    replaced: Map<ValueId, ValueId>,
    typ: TypeView,
    source: Option<ValueId>,
    id: ValueId,
    bound: nat,
    outermost: bool,
) -> bool
    decreases typ,
{
    match typ {
        TypeView::Numeric(_) => match source {
            Some(value) => id == canonical(replaced, value),
            None => {
                &&& id < values.len()
                &&& values[id as int] matches ValueView::NumericConstant { constant, typ: stored }
                &&& constant.value() == 0
                &&& stored == typ
            },
        },
        TypeView::Array(elements, length) => match source {
            Some(value) => id == canonical(replaced, value),
            None => {
                &&& id < values.len()
                &&& values[id as int] matches ValueView::Array { array, typ: stored }
                &&& stored == typ
                &&& array.len() == length * elements.len()
                &&& forall|j: int|
                    0 <= j < array.len() && elements.len() > 0 ==> padded(
                        values,
                        replaced,
                        slot_type(elements, j),
                        None,
                        #[trigger] array[j],
                        bound,
                        false,
                    )
            },
        },
        TypeView::Slice(elements) => {
            let stored_items = match source {
                Some(value) => values[value as int].items(),
                None => Seq::empty(),
            };
            &&& source matches Some(value) ==> value < values.len() && values[value as int] is Array
                && (outermost ==> elements.len() > 0)
            &&& id < values.len()
            &&& values[id as int] matches ValueView::Array { array, typ: stored }
            &&& stored == typ
            &&& array.len() == padded_width(
                stored_items.len(),
                elements.len(),
                bound,
                outermost && source is Some,
            ) * elements.len()
            &&& forall|j: int|
                0 <= j < array.len() && elements.len() > 0 ==> padded(
                    values,
                    replaced,
                    slot_type(elements, j),
                    slot_source(stored_items, j),
                    #[trigger] array[j],
                    bound,
                    false,
                )
        },
        _ => false,
    }
}

/// Whether a slot of type `typ` can be padded: neither the slot nor a slot
/// that is filled inside it is of a reference or a function type, a slice
/// that is padded from a source has a constant for its source, the outermost
/// slice has an element type to divide its length by, and no padded length
/// is beyond what the machine can count.
pub open spec fn can_pad(
    values: Seq<ValueView>,
    typ: TypeView,
    source: Option<ValueId>,
    bound: nat,
    outermost: bool,
) -> bool
    decreases typ,
{
    match typ {
        TypeView::Numeric(_) => true,
        TypeView::Array(elements, length) => source is Some || {
            &&& length * elements.len() <= usize::MAX
            &&& forall|j: int|
                0 <= j < length * elements.len() && elements.len() > 0 ==> can_pad(
                    values,
                    #[trigger] slot_type(elements, j),
                    None,
                    bound,
                    false,
                )
        },
        TypeView::Slice(elements) => {
            let stored_items = match source {
                Some(value) => values[value as int].items(),
                None => Seq::empty(),
            };
            let width = padded_width(
                stored_items.len(),
                elements.len(),
                bound,
                outermost && source is Some,
            );
            &&& source matches Some(value) ==> value < values.len() && values[value as int] is Array
                && (outermost ==> elements.len() > 0)
            &&& width * elements.len() <= usize::MAX
            &&& forall|j: int|
                0 <= j < width * elements.len() && elements.len() > 0 ==> can_pad(
                    values,
                    #[trigger] slot_type(elements, j),
                    slot_source(stored_items, j),
                    bound,
                    false,
                )
        },
        _ => false,
    }
}

/// What has been padded stays padded when the store grows.
pub proof fn lemma_padded_extends(
    before: Seq<ValueView>,
    after: Seq<ValueView>,
    replaced: Map<ValueId, ValueId>,
    typ: TypeView,
    source: Option<ValueId>,
    id: ValueId,
    bound: nat,
    outermost: bool,
)
    requires
        extends(before, after),
        padded(before, replaced, typ, source, id, bound, outermost),
    ensures
        padded(after, replaced, typ, source, id, bound, outermost),
    decreases typ,
{
    match typ {
        TypeView::Array(elements, length) => {
            if source is None {
                let array = before[id as int].items();
                assert forall|j: int| 0 <= j < array.len() && elements.len() > 0 implies padded(
                    after,
                    replaced,
                    slot_type(elements, j),
                    None,
                    #[trigger] array[j],
                    bound,
                    false,
                ) by {
                    lemma_padded_extends(
                        before,
                        after,
                        replaced,
                        slot_type(elements, j),
                        None,
                        array[j],
                        bound,
                        false,
                    );
                }
            }
        },
        TypeView::Slice(elements) => {
            let array = before[id as int].items();
            let stored_items = match source {
                Some(value) => before[value as int].items(),
                None => Seq::empty(),
            };
            assert forall|j: int| 0 <= j < array.len() && elements.len() > 0 implies padded(
                after,
                replaced,
                slot_type(elements, j),
                slot_source(stored_items, j),
                #[trigger] array[j],
                bound,
                false,
            ) by {
                lemma_padded_extends(
                    before,
                    after,
                    replaced,
                    slot_type(elements, j),
                    slot_source(stored_items, j),
                    array[j],
                    bound,
                    false,
                );
            }
        },
        _ => {},
    }
}

/// What can be padded can still be padded when the store has grown.
pub proof fn lemma_can_pad_extends(
    before: Seq<ValueView>,
    after: Seq<ValueView>,
    typ: TypeView,
    source: Option<ValueId>,
    bound: nat,
    outermost: bool,
)
    requires
        extends(before, after),
        can_pad(before, typ, source, bound, outermost),
    ensures
        can_pad(after, typ, source, bound, outermost),
    decreases typ,
{
    match typ {
        TypeView::Array(elements, length) => {
            if source is None {
                assert forall|j: int|
                    0 <= j < length * elements.len() && elements.len() > 0 implies can_pad(
                    after,
                    #[trigger] slot_type(elements, j),
                    None,
                    bound,
                    false,
                ) by {
                    lemma_can_pad_extends(
                        before,
                        after,
                        slot_type(elements, j),
                        None,
                        bound,
                        false,
                    );
                }
            }
        },
        TypeView::Slice(elements) => {
            let stored_items = match source {
                Some(value) => before[value as int].items(),
                None => Seq::empty(),
            };
            let width = padded_width(
                stored_items.len(),
                elements.len(),
                bound,
                outermost && source is Some,
            );
            assert forall|j: int|
                0 <= j < width * elements.len() && elements.len() > 0 implies can_pad(
                after,
                #[trigger] slot_type(elements, j),
                slot_source(stored_items, j),
                bound,
                false,
            ) by {
                assert(can_pad(
                    before,
                    slot_type(elements, j),
                    slot_source(stored_items, j),
                    bound,
                    false,
                ));
                lemma_can_pad_extends(
                    before,
                    after,
                    slot_type(elements, j),
                    slot_source(stored_items, j),
                    bound,
                    false,
                );
            }
        },
        _ => {},
    }
}

/// A padded slice holds as many slots as its width times the slots of one
/// element, however short its source was.
pub proof fn lemma_padded_slice_is_uniform(
    values: Seq<ValueView>,
    replaced: Map<ValueId, ValueId>,
    elements: Seq<TypeView>,
    source: Option<ValueId>,
    id: ValueId,
    bound: nat,
    outermost: bool,
)
    requires
        padded(values, replaced, TypeView::Slice(elements), source, id, bound, outermost),
    ensures
        !(outermost && source is Some) ==> values[id as int].items().len() == bound * elements.len(),
        outermost && source is Some ==> values[id as int].items().len() == (values[source.unwrap() as int].items().len()
            / elements.len()) * elements.len(),
{
}

/// Each slot of a padded slice that its source had is padded from the
/// source's slot, whatever its type: a slice nested there is itself padded
/// to the bound, slot by slot.
pub proof fn lemma_in_bounds_slot(
    values: Seq<ValueView>,
    replaced: Map<ValueId, ValueId>,
    elements: Seq<TypeView>,
    source: ValueId,
    id: ValueId,
    bound: nat,
    outermost: bool,
    j: int,
)
    requires
        padded(values, replaced, TypeView::Slice(elements), Some(source), id, bound, outermost),
        0 <= j < values[source as int].items().len(),
        j < values[id as int].items().len(),
    ensures
        elements.len() > 0,
        padded(
            values,
            replaced,
            slot_type(elements, j),
            Some(values[source as int].items()[j]),
            values[id as int].items()[j],
            bound,
            false,
        ),
{
    let array = values[id as int].items();
    assert(elements.len() > 0) by {
        if elements.len() == 0 {
            assert(array.len() == 0) by (nonlinear_arith)
                requires
                    array.len() == padded_width(
                        values[source as int].items().len(),
                        elements.len(),
                        bound,
                        outermost,
                    ) * elements.len(),
                    elements.len() == 0,
            ;
        }
    }
    assert(padded(
        values,
        replaced,
        slot_type(elements, j),
        slot_source(values[source as int].items(), j),
        array[j],
        bound,
        false,
    ));
}

/// Each slot of a padded slice that lies behind its source's last slot is a
/// dummy.
pub proof fn lemma_out_of_bounds_slot(
    values: Seq<ValueView>,
    replaced: Map<ValueId, ValueId>,
    elements: Seq<TypeView>,
    source: ValueId,
    id: ValueId,
    bound: nat,
    outermost: bool,
    j: int,
)
    requires
        padded(values, replaced, TypeView::Slice(elements), Some(source), id, bound, outermost),
        values[source as int].items().len() <= j < values[id as int].items().len(),
    ensures
        elements.len() > 0,
        padded(values, replaced, slot_type(elements, j), None, values[id as int].items()[j], bound, false),
{
    let array = values[id as int].items();
    assert(elements.len() > 0) by {
        if elements.len() == 0 {
            assert(array.len() == 0) by (nonlinear_arith)
                requires
                    array.len() == padded_width(
                        values[source as int].items().len(),
                        elements.len(),
                        bound,
                        outermost,
                    ) * elements.len(),
                    elements.len() == 0,
            ;
        }
    }
    assert(padded(
        values,
        replaced,
        slot_type(elements, j),
        slot_source(values[source as int].items(), j),
        array[j],
        bound,
        false,
    ));
}

/// Reading a padded slice at a slot that its source had gives what the
/// source gave there: the same scalar or fixed array, as currently resolved.
pub proof fn lemma_in_bounds_read(
    values: Seq<ValueView>,
    replaced: Map<ValueId, ValueId>,
    elements: Seq<TypeView>,
    source: ValueId,
    id: ValueId,
    bound: nat,
    outermost: bool,
    j: int,
)
    requires
        padded(values, replaced, TypeView::Slice(elements), Some(source), id, bound, outermost),
        0 <= j < values[source as int].items().len(),
        j < values[id as int].items().len(),
        !(slot_type(elements, j) is Slice),
        !(slot_type(elements, j) is Reference),
        !(slot_type(elements, j) is Function),
    ensures
        values[id as int].items()[j] == canonical(replaced, values[source as int].items()[j]),
{
    let array = values[id as int].items();
    assert(elements.len() > 0) by {
        if elements.len() == 0 {
            assert(array.len() == 0) by (nonlinear_arith)
                requires
                    array.len() == padded_width(
                        values[source as int].items().len(),
                        elements.len(),
                        bound,
                        outermost,
                    ) * elements.len(),
                    elements.len() == 0,
            ;
        }
    }
    assert(padded(
        values,
        replaced,
        slot_type(elements, j),
        slot_source(values[source as int].items(), j),
        array[j],
        bound,
        false,
    ));
}

impl Context {
    /// Pads `total` slots in turn: slot `j` has the type that falls to it from
    /// `element_types` and is padded from `stored[j]`, or made up where
    /// `stored` has no such slot.
    #[verifier::rlimit(50)]
    fn pad_slots(
        &mut self,
        element_types: &Vec<Type>,
        stored: &Vector<ValueId>,
        total: usize,
        nested_slice_max: usize,
        Ghost(elements): Ghost<Seq<TypeView>>,
    ) -> (slots: Vector<ValueId>)
        requires
            old(self).inserter.wf(),
            elements.len() == element_types.len(),
            forall|j: int| 0 <= j < elements.len() ==> elements[j] == element_types[j]@,
            total > 0 ==> element_types.len() > 0,
            forall|j: int|
                0 <= j < vector_items(*stored).len() ==> vector_items(*stored)[j] < old(self).inserter.function.dfg@.values.len(),
            forall|j: int|
                0 <= j < total && elements.len() > 0 ==> can_pad(
                    old(self).inserter.function.dfg@.values,
                    #[trigger] slot_type(elements, j),
                    slot_source(vector_items(*stored), j),
                    nested_slice_max as nat,
                    false,
                ),
        ensures
            final(self).inserter.wf(),
            final(self).grew_from(old(self)),
            vector_items(slots).len() == total,
            forall|j: int|
                0 <= j < total ==> #[trigger] vector_items(slots)[j] < final(self).inserter.function.dfg@.values.len() && padded(
                    final(self).inserter.function.dfg@.values,
                    final(self).inserter.values@,
                    slot_type(elements, j),
                    slot_source(vector_items(*stored), j),
                    vector_items(slots)[j],
                    nested_slice_max as nat,
                    false,
                ),
        decreases element_types,
    {
        let n = element_types.len();
        let ghost stored_items = vector_items(*stored);
        let ghost replaced = self.inserter.values@;
        let mut slots = vector_new();
        let mut index: usize = 0;
        while index < total
            invariant
                index <= total,
                n == element_types.len(),
                total > 0 ==> n > 0,
                elements.len() == element_types.len(),
                forall|j: int| 0 <= j < elements.len() ==> elements[j] == element_types[j]@,
                stored_items == vector_items(*stored),
                replaced == self.inserter.values@,
                self.inserter.wf(),
                self.grew_from(old(self)),
                forall|j: int|
                    0 <= j < stored_items.len() ==> stored_items[j] < old(self).inserter.function.dfg@.values.len(),
                forall|j: int|
                    0 <= j < total && elements.len() > 0 ==> can_pad(
                        old(self).inserter.function.dfg@.values,
                        #[trigger] slot_type(elements, j),
                        slot_source(stored_items, j),
                        nested_slice_max as nat,
                        false,
                    ),
                vector_items(slots).len() == index,
                forall|j: int|
                    0 <= j < index ==> #[trigger] vector_items(slots)[j]
                        < self.inserter.function.dfg@.values.len() && padded(
                        self.inserter.function.dfg@.values,
                        replaced,
                        slot_type(elements, j),
                        slot_source(stored_items, j),
                        vector_items(slots)[j],
                        nested_slice_max as nat,
                        false,
                    ),
            decreases total - index,
        {
            let element_type = &element_types[index % n];
            let source = vector_get(stored, index);
            let ghost before = self.inserter.function.dfg@.values;
            let ghost earlier = vector_items(slots);
            proof {
                assert(slot_type(elements, index as int) == element_type@);
                lemma_can_pad_extends(
                    old(self).inserter.function.dfg@.values,
                    before,
                    slot_type(elements, index as int),
                    slot_source(stored_items, index as int),
                    nested_slice_max as nat,
                    false,
                );
            }
            let id = self.attach_slice_dummies(element_type, source, nested_slice_max, false);
            vector_push_back(&mut slots, id);
            proof {
                let now = self.inserter.function.dfg@.values;
                assert forall|j: int| 0 <= j < index + 1 implies #[trigger] vector_items(slots)[j]
                    < now.len() && padded(
                    now,
                    replaced,
                    slot_type(elements, j),
                    slot_source(stored_items, j),
                    vector_items(slots)[j],
                    nested_slice_max as nat,
                    false,
                ) by {
                    if j < index {
                        assert(vector_items(slots)[j] == earlier[j]);
                        lemma_padded_extends(
                            before,
                            now,
                            replaced,
                            slot_type(elements, j),
                            slot_source(stored_items, j),
                            earlier[j],
                            nested_slice_max as nat,
                            false,
                        );
                    }
                }
            }
            index += 1;
        }
        slots
    }

    /// Gives the value that stands in a slot of type `typ` once slices are
    /// padded. A scalar or a fixed array with a source is the source,
    /// resolved; a slice is rebuilt slot by slot, `nested_slice_max` element
    /// groups wide, or as wide as its source where it is the outermost slice;
    /// a slot with no source is filled with zeros. See [`padded`].
    ///
    /// Arrays and slices that are built are new values. A zero is the zero
    /// of its type that the store holds already, if it holds one.
    #[verifier::rlimit(50)]
    pub fn attach_slice_dummies(
        &mut self,
        typ: &Type,
        value: Option<ValueId>,
        nested_slice_max: usize,
        is_parent_slice: bool,
    ) -> (id: ValueId)
        requires
            old(self).inserter.wf(),
            value matches Some(source) ==> source < old(self).inserter.function.dfg@.values.len(),
            can_pad(
                old(self).inserter.function.dfg@.values,
                typ@,
                value,
                nested_slice_max as nat,
                is_parent_slice,
            ),
        ensures
            final(self).inserter.wf(),
            final(self).grew_from(old(self)),
            id < final(self).inserter.function.dfg@.values.len(),
            typ@ is Slice || (typ@ is Array && value is None) ==> id >= old(self).inserter.function.dfg@.values.len(),
            typ@ is Numeric && value is None ==> match first_constant(
                old(self).inserter.function.dfg@.values,
                FieldElement { high: 0, low: 0 },
                typ@,
                0,
            ) {
                Some(known) => id == known && final(self).inserter.function.dfg@.values == old(self).inserter.function.dfg@.values,
                None => id == old(self).inserter.function.dfg@.values.len(),
            },
            padded(
                final(self).inserter.function.dfg@.values,
                final(self).inserter.values@,
                typ@,
                value,
                id,
                nested_slice_max as nat,
                is_parent_slice,
            ),
        decreases typ,
    {
        let ghost start = self.inserter.function.dfg@.values;
        match typ {
            Type::Numeric(_) => match value {
                Some(value) => self.inserter.resolve(value),
                None => {
                    let zero = FieldElement::zero();
                    assert(zero == FieldElement { high: 0, low: 0 });
                    let ghost before = self.inserter@;
                    let id = self.inserter.function.dfg.make_constant(zero, typ.clone());
                    proof {
                        let after = self.inserter@;
                        assert(after.replaced == before.replaced);
                        assert(after.entry_block == before.entry_block);
                        assert(after.dfg.blocks == before.dfg.blocks);
                        assert(before.dfg.values.len() <= after.dfg.values.len());
                        assert forall|k: ValueId| #[trigger] after.replaced.contains_key(k) implies k
                            < after.replaced[k] < after.dfg.values.len() by {
                            assert(before.replaced.contains_key(k));
                        }
                        assert(after.wf());
                    }
                    id
                },
            },
            Type::Array(element_types, len) => match value {
                Some(value) => self.inserter.resolve(value),
                None => {
                    let ghost elements = typ@->Array_0;
                    let total: usize = *len * element_types.len();
                    assert(total > 0 ==> element_types.len() > 0) by (nonlinear_arith)
                        requires
                            total == *len * element_types.len(),
                    ;
                    let stored = vector_new();
                    let array = self.pad_slots(
                        element_types,
                        &stored,
                        total,
                        nested_slice_max,
                        Ghost(elements),
                    );
                    let ghost before = self.inserter.function.dfg@.values;
                    let ghost items = vector_items(array);
                    let ghost held = self.inserter@;
                    let id = self.inserter.function.dfg.make_array(array, typ.clone());
                    proof {
                        let after = self.inserter@;
                        assert forall|k: ValueId| #[trigger] after.replaced.contains_key(k) implies k
                            < after.replaced[k] < after.dfg.values.len() by {
                            assert(held.replaced.contains_key(k));
                        }
                        assert(after.wf());
                        let now = self.inserter.function.dfg@.values;
                        assert forall|j: int| 0 <= j < items.len() && elements.len() > 0 implies padded(
                            now,
                            self.inserter.values@,
                            slot_type(elements, j),
                            None,
                            #[trigger] items[j],
                            nested_slice_max as nat,
                            false,
                        ) by {
                            lemma_padded_extends(
                                before,
                                now,
                                self.inserter.values@,
                                slot_type(elements, j),
                                None,
                                items[j],
                                nested_slice_max as nat,
                                false,
                            );
                        }
                    }
                    id
                },
            },
            Type::Slice(element_types) => {
                let ghost elements = typ@->Slice_0;
                let mut max_size: usize = nested_slice_max;
                let stored = match value {
                    Some(source) => match self.inserter.function.dfg.value(source) {
                        Value::Array { array, .. } => {
                            if is_parent_slice {
                                max_size = vector_len(array) / element_types.len();
                            }
                            vector_clone(array)
                        },
                        _ => vstd::pervasive::unreached(),
                    },
                    None => vector_new(),
                };
                let ghost stored_items = vector_items(stored);
                assert(max_size == padded_width(
                    stored_items.len(),
                    elements.len(),
                    nested_slice_max as nat,
                    is_parent_slice && value is Some,
                ));
                let total: usize = max_size * element_types.len();
                assert(total > 0 ==> element_types.len() > 0) by (nonlinear_arith)
                    requires
                        total == max_size * element_types.len(),
                ;
                let slice = self.pad_slots(
                    element_types,
                    &stored,
                    total,
                    nested_slice_max,
                    Ghost(elements),
                );
                let ghost before = self.inserter.function.dfg@.values;
                let ghost items = vector_items(slice);
                let ghost held = self.inserter@;
                let id = self.inserter.function.dfg.make_array(slice, typ.clone());
                proof {
                    let after = self.inserter@;
                    assert forall|k: ValueId| #[trigger] after.replaced.contains_key(k) implies k
                        < after.replaced[k] < after.dfg.values.len() by {
                        assert(held.replaced.contains_key(k));
                    }
                    assert(after.wf());
                    let now = self.inserter.function.dfg@.values;
                    assert forall|j: int| 0 <= j < items.len() && elements.len() > 0 implies padded(
                        now,
                        self.inserter.values@,
                        slot_type(elements, j),
                        slot_source(stored_items, j),
                        #[trigger] items[j],
                        nested_slice_max as nat,
                        false,
                    ) by {
                        lemma_padded_extends(
                            before,
                            now,
                            self.inserter.values@,
                            slot_type(elements, j),
                            slot_source(stored_items, j),
                            items[j],
                            nested_slice_max as nat,
                            false,
                        );
                    }
                }
                id
            },
            _ => vstd::pervasive::unreached(),
        }
    }
}

} // verus!
