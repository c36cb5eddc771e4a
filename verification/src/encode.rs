//! The encoder: walks the resolved schema and a record instance and produces
//! the ordered pair sequence, together with the upfront cardinality count a
//! transport uses to pre-size its map.
//!
//! Pairs are emitted in schema declaration order; an absent optional field
//! emits nothing, a catch-all field emits its whole bucket in the bucket's
//! own iteration order, and phantom fields never emit.

use vstd::prelude::*;

use crate::bucket::UnknownKeyHandler;
use crate::record::{record_wf, slot_matches, FieldValue, Record};
use crate::schema::{FieldSchema, FieldType, RecordSchema};

verus! {

/// The wire-neutral carrier the encoder produces: the cardinality announced
/// to the transport up front, then the (key, value) entries in emission
/// order.
#[derive(Clone, Debug, PartialEq, Eq)]
pub struct PairSequence<V> {
    /// The count announced before any entry is written.
    pub expected_count: usize,
    /// The emitted (key, value) entries, in order.
    pub pairs: Vec<(i64, V)>,
}

/// The pairs one field emits.
pub open spec fn field_pairs<V, B: UnknownKeyHandler<ValueType = V>>(
    field: FieldSchema,
    slot: FieldValue<V, B>,
) -> Seq<(i64, V)> {
    match field.field_type {
        FieldType::Keyed(key) => match slot {
            FieldValue::Present(value) => seq![(key, value)],
            _ => Seq::empty(),
        },
        FieldType::CatchAll => match slot {
            FieldValue::Bucket(bucket) => bucket.bucket_entries(),
            _ => Seq::empty(),
        },
        FieldType::Phantom => Seq::empty(),
    }
}

/// The pairs the fields from position `i` on emit.
pub open spec fn spec_encode_from<V, B: UnknownKeyHandler<ValueType = V>>(
    fields: Seq<FieldSchema>,
    slots: Seq<FieldValue<V, B>>,
    i: int,
) -> Seq<(i64, V)>
    decreases fields.len() - i,
{
    if i < 0 || i >= fields.len() {
        Seq::empty()
    } else {
        field_pairs(fields[i], slots[i]) + spec_encode_from(fields, slots, i + 1)
    }
}

/// The full encoding of a record: the per-field pair segments, concatenated
/// in declaration order.
pub open spec fn spec_encode<V, B: UnknownKeyHandler<ValueType = V>>(
    fields: Seq<FieldSchema>,
    slots: Seq<FieldValue<V, B>>,
) -> Seq<(i64, V)> {
    spec_encode_from(fields, slots, 0)
}

/// How many pairs one field contributes to the cardinality count: one for a
/// keyed field (none when optional and absent), the bucket size for the
/// catch-all, nothing for a phantom.
pub open spec fn field_count<V, B: UnknownKeyHandler<ValueType = V>>(
    field: FieldSchema,
    slot: FieldValue<V, B>,
) -> nat {
    match field.field_type {
        FieldType::Keyed(_) => if field.optional {
            if slot is Present {
                1nat
            } else {
                0nat
            }
        } else {
            1nat
        },
        FieldType::CatchAll => match slot {
            FieldValue::Bucket(bucket) => bucket.bucket_entries().len(),
            _ => 0nat,
        },
        FieldType::Phantom => 0nat,
    }
}

/// The cardinality the fields from position `i` on contribute.
pub open spec fn spec_cardinality_from<V, B: UnknownKeyHandler<ValueType = V>>(
    fields: Seq<FieldSchema>,
    slots: Seq<FieldValue<V, B>>,
    i: int,
) -> nat
    decreases fields.len() - i,
{
    if i < 0 || i >= fields.len() {
        0nat
    } else {
        field_count(fields[i], slots[i]) + spec_cardinality_from(fields, slots, i + 1)
    }
}

/// The upfront cardinality of a record's encoding.
pub open spec fn spec_cardinality<V, B: UnknownKeyHandler<ValueType = V>>(
    fields: Seq<FieldSchema>,
    slots: Seq<FieldValue<V, B>>,
) -> nat {
    spec_cardinality_from(fields, slots, 0)
}

/// The cardinality announced up front always equals the number of pairs the
/// encoder then emits, for every record instance whose slots match the
/// schema's shapes.
pub proof fn lemma_cardinality_is_pair_count<V, B: UnknownKeyHandler<ValueType = V>>(
    fields: Seq<FieldSchema>,
    slots: Seq<FieldValue<V, B>>,
    i: int,
)
    requires
        record_wf(fields, slots),
    ensures
        spec_cardinality_from(fields, slots, i) == spec_encode_from(fields, slots, i).len(),
    decreases fields.len() - i,
{
    if 0 <= i < fields.len() {
        lemma_cardinality_is_pair_count(fields, slots, i + 1);
    }
}

/// Compute the upfront cardinality of `record`'s encoding: one per keyed
/// field that will emit, plus the catch-all bucket's size.
pub fn cardinality<V, B: UnknownKeyHandler<ValueType = V>>(
    schema: &RecordSchema,
    record: &Record<V, B>,
) -> (n: usize)
    requires
        record_wf(schema@, record.slots@),
        spec_cardinality(schema@, record.slots@) <= usize::MAX,
    ensures
        n == spec_cardinality(schema@, record.slots@),
{
    let fields = schema.fields();
    let ghost total = spec_cardinality(schema@, record.slots@);
    let mut count: usize = 0;
    let mut i: usize = 0;
    while i < fields.len()
        invariant
            i <= fields.len(),
            fields@ == schema@,
            record_wf(schema@, record.slots@),
            total == spec_cardinality(schema@, record.slots@),
            total <= usize::MAX,
            count + spec_cardinality_from(schema@, record.slots@, i as int) == total,
        decreases fields.len() - i,
    {
        match fields[i].field_type {
            FieldType::Keyed(_) => {
                let emit = if fields[i].optional {
                    match &record.slots[i] {
                        FieldValue::Present(_) => true,
                        _ => false,
                    }
                } else {
                    true
                };
                if emit {
                    count += 1;
                }
            },
            FieldType::CatchAll => {
                match &record.slots[i] {
                    FieldValue::Bucket(bucket) => {
                        proof {
                            assert(slot_matches(schema@[i as int], record.slots@[i as int]));
                        }
                        count += bucket.num_items();
                    },
                    _ => {},
                }
            },
            FieldType::Phantom => {},
        }
        i += 1;
    }
    count
}

/// Encode `record` against `schema`: the pair segments of the fields, in
/// declaration order, behind the upfront cardinality count. A pure function
/// of the record's current values; it cannot fail.
pub fn encode<V, B: UnknownKeyHandler<ValueType = V>>(
    schema: &RecordSchema,
    record: Record<V, B>,
) -> (out: PairSequence<V>)
    requires
        record_wf(schema@, record.slots@),
        spec_cardinality(schema@, record.slots@) <= usize::MAX,
    ensures
        out.pairs@ == spec_encode(schema@, record.slots@),
        out.expected_count == out.pairs@.len(),
        out.expected_count == spec_cardinality(schema@, record.slots@),
{
    let expected_count = cardinality(schema, &record);
    let ghost orig_slots = record.slots@;
    let fields = schema.fields();
    let mut slots = record.slots;
    let mut pairs: Vec<(i64, V)> = Vec::new();
    let mut i: usize = 0;
    proof {
        assert(orig_slots.skip(0) =~= orig_slots);
    }
    while i < fields.len()
        invariant
            i <= fields.len(),
            fields@ == schema@,
            slots@ == orig_slots.skip(i as int),
            orig_slots.len() == schema@.len(),
            pairs@ + spec_encode_from(schema@, orig_slots, i as int) == spec_encode(
                schema@,
                orig_slots,
            ),
        decreases fields.len() - i,
    {
        let ghost pairs_before = pairs@;
        let slot = slots.remove(0);
        proof {
            assert(slot == orig_slots[i as int]);
            assert(slots@ =~= orig_slots.skip(i as int + 1));
        }
        match fields[i].field_type {
            FieldType::Keyed(key) => {
                match slot {
                    FieldValue::Present(value) => {
                        pairs.push((key, value));
                    },
                    _ => {},
                }
            },
            FieldType::CatchAll => {
                match slot {
                    FieldValue::Bucket(bucket) => {
                        let mut entries = bucket.into_entries();
                        pairs.append(&mut entries);
                    },
                    _ => {},
                }
            },
            FieldType::Phantom => {},
        }
        proof {
            assert(pairs@ =~= pairs_before + field_pairs(schema@[i as int], orig_slots[i as int]));
            assert(pairs@ + spec_encode_from(schema@, orig_slots, i as int + 1) =~= pairs_before
                + spec_encode_from(schema@, orig_slots, i as int));
        }
        i += 1;
    }
    proof {
        assert(pairs@ + spec_encode_from(schema@, orig_slots, i as int) =~= pairs@);
        lemma_cardinality_is_pair_count(schema@, orig_slots, 0);
    }
    PairSequence { expected_count, pairs }
}

} // verus!
