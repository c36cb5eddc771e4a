//! The runtime record the codec reads and reconstructs.
//!
//! A [`Record`] is table-driven: it holds one slot per schema field, in
//! declaration order, and the shape of each slot must match the field's
//! classification ([`record_wf`]). A keyed field holds a present value, or
//! nothing when it is optional and absent; a phantom field holds a fixed
//! marker; a catch-all field holds its bucket, any container offering the
//! [`UnknownKeyHandler`] capability.

use vstd::prelude::*;

use crate::bucket::UnknownKeyHandler;
use crate::schema::{FieldSchema, FieldType};

verus! {

/// The value one record slot holds.
#[derive(Clone, Debug, PartialEq, Eq)]
pub enum FieldValue<V, B> {
    /// A keyed field's value, present on the wire.
    Present(V),
    /// An optional keyed field with no value; nothing is emitted for it.
    Absent,
    /// The fixed marker a phantom field is reconstructed from.
    Marker,
    /// The bucket of a catch-all field.
    Bucket(B),
}

/// A record instance, one slot per schema field in declaration order.
#[derive(Clone, Debug, PartialEq, Eq)]
pub struct Record<V, B> {
    /// The slots, parallel to the schema's field list.
    pub slots: Vec<FieldValue<V, B>>,
}

/// Whether one slot's shape matches a field's classification.
pub open spec fn slot_matches<V, B: UnknownKeyHandler<ValueType = V>>(
    field: FieldSchema,
    slot: FieldValue<V, B>,
) -> bool {
    match field.field_type {
        FieldType::Keyed(_) => if field.optional {
            slot is Present || slot is Absent
        } else {
            slot is Present
        },
        FieldType::CatchAll => slot matches FieldValue::Bucket(m) && m.bucket_wf(),
        FieldType::Phantom => slot is Marker,
    }
}

/// Whether a slot list is a well-shaped record instance of a field list.
pub open spec fn record_wf<V, B: UnknownKeyHandler<ValueType = V>>(
    fields: Seq<FieldSchema>,
    slots: Seq<FieldValue<V, B>>,
) -> bool {
    &&& slots.len() == fields.len()
    &&& forall|i: int| 0 <= i < fields.len() ==> slot_matches(fields[i], #[trigger] slots[i])
}

} // verus!
