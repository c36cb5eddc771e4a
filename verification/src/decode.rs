//! The decoder: a single pass over an unordered, possibly repeating pair
//! stream that reconstructs a record.
//!
//! Each incoming key is dispatched to the first keyed field that owns it — a
//! second pair for the same keyed field is a [`DecodeError::DuplicateField`]
//! — or, when no keyed field claims it and the catch-all bucket's membership
//! test accepts it, into the bucket, where a repeated key overwrites. A key
//! no keyed field claims and no catch-all takes — none is declared, or the
//! bucket rejects the key — is a
//! [`DecodeError::UnknownField`]. When the stream is exhausted, a
//! non-optional keyed field whose slot is still empty is a
//! [`DecodeError::MissingField`]; otherwise the record is built: filled slots
//! unwrap, optional empty slots become absent, the catch-all field takes the
//! accumulated bucket, and phantom fields take their marker.

use vstd::prelude::*;

use crate::bucket::{distinct_entry_keys, UnknownKeyHandler};
use crate::record::{record_wf, slot_matches, FieldValue, Record};
use crate::schema::{FieldSchema, FieldType, RecordSchema};

verus! {

/// A failure of one decode call. Field names are the schema's diagnostic
/// names; they are never wire-visible.
#[derive(Clone, Debug, PartialEq, Eq)]
pub enum DecodeError {
    /// A keyed field's slot was already filled when its key arrived again.
    DuplicateField(String),
    /// A key no keyed field owns arrived, and no catch-all field takes it.
    UnknownField(i64),
    /// A non-optional keyed field's slot was still empty at end of stream.
    MissingField(String),
}

/// The decoder's working state: one slot per schema field, plus the
/// catch-all entries accumulated so far.
#[verifier::ext_equal]
pub struct DecodeState<V> {
    /// Filled keyed slots; `None` for untouched, optional-absent, phantom and
    /// catch-all positions.
    pub slots: Seq<Option<V>>,
    /// The catch-all entries, in arrival order.
    pub bucket: Seq<(i64, V)>,
}

/// First position at or after `i` of the keyed field owning `key`.
pub open spec fn find_keyed_from(fields: Seq<FieldSchema>, key: i64, i: int) -> Option<int>
    decreases fields.len() - i,
{
    if i < 0 || i >= fields.len() {
        None
    } else if fields[i].field_type == FieldType::Keyed(key) {
        Some(i)
    } else {
        find_keyed_from(fields, key, i + 1)
    }
}

/// First position of the keyed field owning `key`.
pub open spec fn find_keyed(fields: Seq<FieldSchema>, key: i64) -> Option<int> {
    find_keyed_from(fields, key, 0)
}

/// First position at or after `i` of a catch-all field.
pub open spec fn find_catchall_from(fields: Seq<FieldSchema>, i: int) -> Option<int>
    decreases fields.len() - i,
{
    if i < 0 || i >= fields.len() {
        None
    } else if fields[i].field_type is CatchAll {
        Some(i)
    } else {
        find_catchall_from(fields, i + 1)
    }
}

/// First position of a catch-all field.
pub open spec fn find_catchall(fields: Seq<FieldSchema>) -> Option<int> {
    find_catchall_from(fields, 0)
}

/// The state decoding starts from: every slot empty, the bucket empty.
pub open spec fn init_state<V>(fields: Seq<FieldSchema>) -> DecodeState<V> {
    DecodeState { slots: Seq::new(fields.len(), |i: int| None), bucket: Seq::empty() }
}

/// One decode step: dispatch a single (key, value) pair. An unmatched key
/// goes into the bucket when a catch-all field exists and its container's
/// membership policy accepts the key; otherwise it is unknown.
pub open spec fn step<V, B: UnknownKeyHandler<ValueType = V>>(
    fields: Seq<FieldSchema>,
    st: DecodeState<V>,
    key: i64,
    value: V,
) -> Result<DecodeState<V>, DecodeError> {
    match find_keyed(fields, key) {
        Some(i) => if st.slots[i] is Some {
            Err(DecodeError::DuplicateField(fields[i].name))
        } else {
            Ok(DecodeState { slots: st.slots.update(i, Some(value)), bucket: st.bucket })
        },
        None => if find_catchall(fields) is Some && B::spec_handles(key) {
            Ok(DecodeState { slots: st.slots, bucket: B::spec_fill(st.bucket, key, value) })
        } else {
            Err(DecodeError::UnknownField(key))
        },
    }
}

/// Run the decode pass over a pair stream, in order.
pub open spec fn run<V, B: UnknownKeyHandler<ValueType = V>>(
    fields: Seq<FieldSchema>,
    st: DecodeState<V>,
    pairs: Seq<(i64, V)>,
) -> Result<DecodeState<V>, DecodeError>
    decreases pairs.len(),
{
    if pairs.len() == 0 {
        Ok(st)
    } else {
        match step::<V, B>(fields, st, pairs[0].0, pairs[0].1) {
            Ok(st2) => run::<V, B>(fields, st2, pairs.drop_first()),
            Err(e) => Err(e),
        }
    }
}

/// First position at or after `i` of a non-optional keyed field whose slot
/// is still empty.
pub open spec fn first_missing_from<V>(
    fields: Seq<FieldSchema>,
    slots: Seq<Option<V>>,
    i: int,
) -> Option<int>
    decreases fields.len() - i,
{
    if i < 0 || i >= fields.len() {
        None
    } else if fields[i].field_type is Keyed && !fields[i].optional && slots[i] is None {
        Some(i)
    } else {
        first_missing_from(fields, slots, i + 1)
    }
}

/// First position of a non-optional keyed field whose slot is still empty.
pub open spec fn first_missing<V>(fields: Seq<FieldSchema>, slots: Seq<Option<V>>) -> Option<int> {
    first_missing_from(fields, slots, 0)
}

/// The full decode outcome over a pair stream: the pass over the pairs, then
/// the required-field completeness check.
pub open spec fn spec_decode<V, B: UnknownKeyHandler<ValueType = V>>(
    fields: Seq<FieldSchema>,
    pairs: Seq<(i64, V)>,
) -> Result<DecodeState<V>, DecodeError> {
    match run::<V, B>(fields, init_state(fields), pairs) {
        Ok(st) => match first_missing(fields, st.slots) {
            Some(i) => Err(DecodeError::MissingField(fields[i].name)),
            None => Ok(st),
        },
        Err(e) => Err(e),
    }
}

/// Whether one reconstructed slot is what the final decode state dictates
/// for its field.
pub open spec fn slot_reconstructs<V, B: UnknownKeyHandler<ValueType = V>>(
    field: FieldSchema,
    filled: Option<V>,
    bucket: Seq<(i64, V)>,
    slot: FieldValue<V, B>,
) -> bool {
    match field.field_type {
        FieldType::Keyed(_) => slot == (match filled {
            Some(v) => FieldValue::Present(v),
            None => FieldValue::<V, B>::Absent,
        }),
        FieldType::CatchAll => slot matches FieldValue::Bucket(m) && m.bucket_entries() == bucket
            && m.bucket_wf(),
        FieldType::Phantom => slot is Marker,
    }
}

/// Whether a record is the reconstruction the final decode state dictates.
pub open spec fn reconstructs<V, B: UnknownKeyHandler<ValueType = V>>(
    fields: Seq<FieldSchema>,
    st: DecodeState<V>,
    slots: Seq<FieldValue<V, B>>,
) -> bool {
    &&& slots.len() == fields.len()
    &&& forall|i: int|
        0 <= i < fields.len() ==> slot_reconstructs(
            fields[i],
            st.slots[i],
            st.bucket,
            #[trigger] slots[i],
        )
}

/// First position of the keyed field owning `key`, by scan.
fn find_keyed_index(fields: &Vec<FieldSchema>, key: i64) -> (r: Option<usize>)
    ensures
        match r {
            Some(i) => find_keyed(fields@, key) == Some(i as int),
            None => find_keyed(fields@, key) is None,
        },
{
    let mut i: usize = 0;
    while i < fields.len()
        invariant
            i <= fields.len(),
            find_keyed(fields@, key) == find_keyed_from(fields@, key, i as int),
        decreases fields.len() - i,
    {
        let matches_key = match fields[i].field_type {
            FieldType::Keyed(k) => k == key,
            _ => false,
        };
        if matches_key {
            return Some(i);
        }
        i += 1;
    }
    None
}

/// First position of a catch-all field, by scan.
fn find_catchall_index(fields: &Vec<FieldSchema>) -> (r: Option<usize>)
    ensures
        match r {
            Some(i) => find_catchall(fields@) == Some(i as int),
            None => find_catchall(fields@) is None,
        },
{
    let mut i: usize = 0;
    while i < fields.len()
        invariant
            i <= fields.len(),
            find_catchall(fields@) == find_catchall_from(fields@, i as int),
        decreases fields.len() - i,
    {
        match fields[i].field_type {
            FieldType::CatchAll => {
                return Some(i);
            },
            _ => {},
        }
        i += 1;
    }
    None
}

/// Decode a pair stream against `schema` into a record, or fail with the
/// first error the stream forces. Failure is terminal: no partial record is
/// returned, and no state outlives the call.
#[verifier::loop_isolation(false)]
pub fn decode<V, B: UnknownKeyHandler<ValueType = V>>(
    schema: &RecordSchema,
    pairs: Vec<(i64, V)>,
) -> (r: Result<Record<V, B>, DecodeError>)
    requires
        schema.wf(),
    ensures
        match r {
            Ok(rec) => spec_decode::<V, B>(schema@, pairs@) matches Ok(st) && reconstructs(
                schema@,
                st,
                rec.slots@,
            ) && record_wf(schema@, rec.slots@),
            Err(e) => spec_decode::<V, B>(schema@, pairs@) == Err::<DecodeState<V>, DecodeError>(
                e,
            ),
        },
{
    let fields = schema.fields();
    let n = fields.len();
    let ghost all_pairs = pairs@;

    let mut filled: Vec<Option<V>> = Vec::new();
    let mut k: usize = 0;
    while k < n
        invariant
            k <= n,
            filled@ =~= Seq::new(k as nat, |i: int| None::<V>),
        decreases n - k,
    {
        filled.push(None);
        k += 1;
    }
    let catchall = find_catchall_index(fields);
    let mut bucket: B = B::new();
    let mut pairs = pairs;

    proof {
        assert(DecodeState { slots: filled@, bucket: bucket.bucket_entries() }
            =~= init_state::<V>(schema@));
    }
    while pairs.len() > 0
        invariant
            fields@ == schema@,
            schema.wf(),
            filled@.len() == schema@.len(),
            bucket.bucket_wf(),
            match catchall {
                Some(c) => find_catchall(schema@) == Some(c as int),
                None => find_catchall(schema@) is None,
            },
            run::<V, B>(
                schema@,
                DecodeState { slots: filled@, bucket: bucket.bucket_entries() },
                pairs@,
            ) == run::<V, B>(schema@, init_state(schema@), all_pairs),
        decreases pairs.len(),
    {
        let ghost pairs_before = pairs@;
        let ghost st_before = DecodeState { slots: filled@, bucket: bucket.bucket_entries() };
        let (key, value) = pairs.remove(0);
        proof {
            assert(pairs@ =~= pairs_before.drop_first());
            assert((key, value) == pairs_before[0]);
        }
        match find_keyed_index(fields, key) {
            Some(j) => {
                proof {
                    lemma_find_keyed_bounds(schema@, key);
                }
                if filled[j].is_some() {
                    proof {
                        assert(step::<V, B>(schema@, st_before, key, value) == Err::<
                            DecodeState<V>,
                            DecodeError,
                        >(DecodeError::DuplicateField(schema@[j as int].name)));
                        assert(run::<V, B>(schema@, st_before, pairs_before) == Err::<
                            DecodeState<V>,
                            DecodeError,
                        >(DecodeError::DuplicateField(schema@[j as int].name)));
                    }
                    return Err(DecodeError::DuplicateField(fields[j].name.clone()));
                }
                filled[j] = Some(value);
            },
            None => {
                let accepted = match catchall {
                    Some(_) => bucket.handles_key(key),
                    None => false,
                };
                if accepted {
                    bucket.fill_value(key, value);
                } else {
                    proof {
                        assert(step::<V, B>(schema@, st_before, key, value) == Err::<
                            DecodeState<V>,
                            DecodeError,
                        >(DecodeError::UnknownField(key)));
                        assert(run::<V, B>(schema@, st_before, pairs_before) == Err::<
                            DecodeState<V>,
                            DecodeError,
                        >(DecodeError::UnknownField(key)));
                    }
                    return Err(DecodeError::UnknownField(key));
                }
            },
        }
        proof {
            let st_now = DecodeState { slots: filled@, bucket: bucket.bucket_entries() };
            assert(step::<V, B>(schema@, st_before, key, value) == Ok::<
                DecodeState<V>,
                DecodeError,
            >(st_now));
        }
    }
    let ghost final_st = DecodeState { slots: filled@, bucket: bucket.bucket_entries() };
    proof {
        assert(run::<V, B>(schema@, init_state(schema@), all_pairs) == Ok::<
            DecodeState<V>,
            DecodeError,
        >(final_st));
        bucket.bucket_wf_entries();
    }
    let ghost bkt = bucket.bucket_entries();

    let mut out_slots: Vec<FieldValue<V, B>> = Vec::new();
    let mut bucket_opt: Option<B> = Some(bucket);
    let mut filled = filled;
    let mut i: usize = 0;
    while i < n
        invariant
            fields@ == schema@,
            schema.wf(),
            n == schema@.len(),
            i <= n,
            final_st.slots.len() == n,
            final_st.bucket == bkt,
            filled@ =~= final_st.slots.skip(i as int),
            distinct_entry_keys(bkt),
            first_missing(schema@, final_st.slots) == first_missing_from(
                schema@,
                final_st.slots,
                i as int,
            ),
            out_slots@.len() == i,
            forall|j: int|
                0 <= j < i ==> slot_reconstructs(
                    schema@[j],
                    final_st.slots[j],
                    bkt,
                    #[trigger] out_slots@[j],
                ),
            match find_catchall(schema@) {
                Some(c) => c >= i ==> (bucket_opt matches Some(b) && b.bucket_entries() == bkt
                    && b.bucket_wf()),
                None => true,
            },
        decreases n - i,
    {
        let slot_val = filled.remove(0);
        proof {
            assert(slot_val == final_st.slots[i as int]);
            assert(filled@ =~= final_st.slots.skip(i as int + 1));
        }
        match fields[i].field_type {
            FieldType::Keyed(_) => {
                if fields[i].optional {
                    match slot_val {
                        Some(v) => out_slots.push(FieldValue::Present(v)),
                        None => out_slots.push(FieldValue::Absent),
                    }
                } else {
                    match slot_val {
                        Some(v) => out_slots.push(FieldValue::Present(v)),
                        None => {
                            proof {
                                assert(first_missing_from(schema@, final_st.slots, i as int)
                                    == Some(i as int));
                                assert(spec_decode::<V, B>(schema@, all_pairs) == Err::<
                                    DecodeState<V>,
                                    DecodeError,
                                >(DecodeError::MissingField(schema@[i as int].name)));
                            }
                            return Err(DecodeError::MissingField(fields[i].name.clone()));
                        },
                    }
                }
            },
            FieldType::CatchAll => {
                proof {
                    lemma_find_catchall_bounds(schema@);
                }
                let b = bucket_opt.take();
                match b {
                    Some(bm) => out_slots.push(FieldValue::Bucket(bm)),
                    None => {
                        proof {
                            assert(false);
                        }
                    },
                }
            },
            FieldType::Phantom => out_slots.push(FieldValue::Marker),
        }
        i += 1;
    }
    proof {
        assert(first_missing(schema@, final_st.slots) is None);
        assert(reconstructs(schema@, final_st, out_slots@));
        lemma_first_missing_bounds(schema@, final_st.slots);
        assert forall|j: int| 0 <= j < schema@.len() implies slot_matches(
            schema@[j],
            #[trigger] out_slots@[j],
        ) by {
            assert(slot_reconstructs(schema@[j], final_st.slots[j], bkt, out_slots@[j]));
        }
    }
    Ok(Record { slots: out_slots })
}

/// What `first_missing_from` finds: the first required field still unfilled
/// at or after `i`.
pub proof fn lemma_first_missing_bounds<V>(fields: Seq<FieldSchema>, slots: Seq<Option<V>>)
    ensures
        match first_missing(fields, slots) {
            Some(i) => 0 <= i < fields.len() && fields[i].field_type is Keyed
                && !fields[i].optional && slots[i] is None && forall|j: int|
                0 <= j < i ==> !(fields[j].field_type is Keyed && !fields[j].optional && slots[j]
                    is None),
            None => forall|j: int|
                0 <= j < fields.len() ==> !(fields[j].field_type is Keyed && !fields[j].optional
                    && slots[j] is None),
        },
{
    lemma_first_missing_from_bounds(fields, slots, 0);
}

proof fn lemma_first_missing_from_bounds<V>(
    fields: Seq<FieldSchema>,
    slots: Seq<Option<V>>,
    i: int,
)
    requires
        0 <= i,
    ensures
        match first_missing_from(fields, slots, i) {
            Some(m) => i <= m < fields.len() && fields[m].field_type is Keyed
                && !fields[m].optional && slots[m] is None && forall|j: int|
                i <= j < m ==> !(fields[j].field_type is Keyed && !fields[j].optional && slots[j]
                    is None),
            None => forall|j: int|
                i <= j < fields.len() ==> !(fields[j].field_type is Keyed && !fields[j].optional
                    && slots[j] is None),
        },
    decreases fields.len() - i,
{
    if i < fields.len() && !(fields[i].field_type is Keyed && !fields[i].optional && slots[i]
        is None) {
        lemma_first_missing_from_bounds(fields, slots, i + 1);
    }
}

/// What `find_keyed_from` finds: the first keyed owner of the key at or
/// after `i`.
pub proof fn lemma_find_keyed_bounds(fields: Seq<FieldSchema>, key: i64)
    ensures
        match find_keyed(fields, key) {
            Some(i) => 0 <= i < fields.len() && fields[i].field_type == FieldType::Keyed(key)
                && forall|j: int|
                0 <= j < i ==> fields[j].field_type != FieldType::Keyed(key),
            None => forall|j: int|
                0 <= j < fields.len() ==> fields[j].field_type != FieldType::Keyed(key),
        },
{
    lemma_find_keyed_from_bounds(fields, key, 0);
}

proof fn lemma_find_keyed_from_bounds(fields: Seq<FieldSchema>, key: i64, i: int)
    requires
        0 <= i,
    ensures
        match find_keyed_from(fields, key, i) {
            Some(m) => i <= m < fields.len() && fields[m].field_type == FieldType::Keyed(key)
                && forall|j: int|
                i <= j < m ==> fields[j].field_type != FieldType::Keyed(key),
            None => forall|j: int|
                i <= j < fields.len() ==> fields[j].field_type != FieldType::Keyed(key),
        },
    decreases fields.len() - i,
{
    if i < fields.len() && fields[i].field_type != FieldType::Keyed(key) {
        lemma_find_keyed_from_bounds(fields, key, i + 1);
    }
}

/// What `find_catchall_from` finds: the first catch-all field at or after
/// `i`.
pub proof fn lemma_find_catchall_bounds(fields: Seq<FieldSchema>)
    ensures
        match find_catchall(fields) {
            Some(i) => 0 <= i < fields.len() && fields[i].field_type is CatchAll && forall|j: int|
                0 <= j < i ==> !(fields[j].field_type is CatchAll),
            None => forall|j: int| 0 <= j < fields.len() ==> !(fields[j].field_type is CatchAll),
        },
{
    lemma_find_catchall_from_bounds(fields, 0);
}

proof fn lemma_find_catchall_from_bounds(fields: Seq<FieldSchema>, i: int)
    requires
        0 <= i,
    ensures
        match find_catchall_from(fields, i) {
            Some(m) => i <= m < fields.len() && fields[m].field_type is CatchAll && forall|j: int|
                i <= j < m ==> !(fields[j].field_type is CatchAll),
            None => forall|j: int| i <= j < fields.len() ==> !(fields[j].field_type is CatchAll),
        },
    decreases fields.len() - i,
{
    if i < fields.len() && !(fields[i].field_type is CatchAll) {
        lemma_find_catchall_from_bounds(fields, i + 1);
    }
}

} // verus!
