//! The codec's cross-function guarantees, proved over the encoder's and
//! decoder's own specifications, for every catch-all container offering the
//! [`UnknownKeyHandler`] capability.
//!
//! The laws here relate encoding and decoding: a round trip reproduces the
//! record up to catch-all iteration order, a duplicate keyed key always
//! fails a decode, a missing required key always fails a decode, unmatched
//! keys land in the catch-all bucket exactly when one exists and accepts
//! them, and an absent optional field neither emits nor fills anything. The
//! cardinality guarantee lives with the encoder
//! ([`crate::encode::lemma_cardinality_is_pair_count`]).

use vstd::prelude::*;

use crate::bucket::{distinct_entry_keys, map_of, UnknownKeyHandler};
use crate::decode::{
    find_catchall, find_keyed, first_missing, init_state, lemma_find_catchall_bounds,
    lemma_find_keyed_bounds, lemma_first_missing_bounds, run, spec_decode, step, DecodeError,
    DecodeState,
};
use crate::encode::{field_pairs, spec_encode, spec_encode_from};
use crate::record::{record_wf, slot_matches, FieldValue};
use crate::schema::{at_most_one_catchall, distinct_keyed_keys, FieldSchema, FieldType};

verus! {

/// The slot-fill state a decode of this record's encoding reaches: each
/// keyed field filled with its present value, every other position empty.
pub open spec fn expected_slots<V, B: UnknownKeyHandler<ValueType = V>>(
    fields: Seq<FieldSchema>,
    slots: Seq<FieldValue<V, B>>,
) -> Seq<Option<V>> {
    Seq::new(
        fields.len(),
        |j: int|
            if fields[j].field_type is Keyed && slots[j] is Present {
                Some(slots[j]->Present_0)
            } else {
                None
            },
    )
}

/// The entries a decode of this record's encoding feeds back into a fresh
/// bucket: the catch-all field's own entries, in its iteration order, or
/// nothing when the schema has no catch-all.
pub open spec fn expected_bucket<V, B: UnknownKeyHandler<ValueType = V>>(
    fields: Seq<FieldSchema>,
    slots: Seq<FieldValue<V, B>>,
) -> Seq<(i64, V)> {
    match find_catchall(fields) {
        Some(c) => match slots[c] {
            FieldValue::Bucket(m) => m.bucket_entries(),
            _ => Seq::empty(),
        },
        None => Seq::empty(),
    }
}

/// Whether every key held in the record's catch-all bucket is claimed by no
/// keyed field — the state decoding itself produces, since a matched key
/// never reaches the bucket.
pub open spec fn bucket_keys_unmatched<V, B: UnknownKeyHandler<ValueType = V>>(
    fields: Seq<FieldSchema>,
    slots: Seq<FieldValue<V, B>>,
) -> bool {
    forall|j: int|
        0 <= j < expected_bucket(fields, slots).len() ==> find_keyed(
            fields,
            (#[trigger] expected_bucket(fields, slots)[j]).0,
        ) is None
}

/// Whether the bucket's own membership policy accepts every key the
/// record's catch-all bucket holds — again the state decoding itself
/// produces, since the bucket only receives keys it accepted.
pub open spec fn bucket_keys_accepted<V, B: UnknownKeyHandler<ValueType = V>>(
    fields: Seq<FieldSchema>,
    slots: Seq<FieldValue<V, B>>,
) -> bool {
    forall|j: int|
        0 <= j < expected_bucket(fields, slots).len() ==> B::spec_handles(
            (#[trigger] expected_bucket(fields, slots)[j]).0,
        )
}

/// The abstract bucket after feeding it a block of entries, in order.
spec fn fill_all<V, B: UnknownKeyHandler<ValueType = V>>(
    bucket: Seq<(i64, V)>,
    entries: Seq<(i64, V)>,
) -> Seq<(i64, V)>
    decreases entries.len(),
{
    if entries.len() == 0 {
        bucket
    } else {
        fill_all::<V, B>(
            B::spec_fill(bucket, entries[0].0, entries[0].1),
            entries.drop_first(),
        )
    }
}

/// Equal mappings stay equal under appending the same entries.
proof fn lemma_map_of_append_map<V>(a1: Seq<(i64, V)>, a2: Seq<(i64, V)>, b: Seq<(i64, V)>)
    requires
        map_of(a1) == map_of(a2),
    ensures
        map_of(a1 + b) == map_of(a2 + b),
    decreases b.len(),
{
    if b.len() == 0 {
        assert(a1 + b =~= a1);
        assert(a2 + b =~= a2);
    } else {
        assert((a1 + b).drop_last() =~= a1 + b.drop_last());
        assert((a2 + b).drop_last() =~= a2 + b.drop_last());
        lemma_map_of_append_map(a1, a2, b.drop_last());
    }
}

/// Feeding entries one by one denotes the mapping of the concatenation:
/// each step is add-or-overwrite, whatever order the container keeps.
proof fn lemma_fill_all_props<V, B: UnknownKeyHandler<ValueType = V>>(
    bucket: Seq<(i64, V)>,
    entries: Seq<(i64, V)>,
)
    requires
        distinct_entry_keys(bucket),
    ensures
        distinct_entry_keys(fill_all::<V, B>(bucket, entries)),
        map_of(fill_all::<V, B>(bucket, entries)) == map_of(bucket + entries),
    decreases entries.len(),
{
    if entries.len() == 0 {
        assert(bucket + entries =~= bucket);
    } else {
        let e0 = entries[0];
        B::spec_fill_is_insert(bucket, e0.0, e0.1);
        let b2 = B::spec_fill(bucket, e0.0, e0.1);
        assert(bucket.push(e0).drop_last() =~= bucket);
        assert(e0 == (e0.0, e0.1));
        assert(map_of(b2) == map_of(bucket.push(e0)));
        lemma_fill_all_props::<V, B>(b2, entries.drop_first());
        lemma_map_of_append_map(b2, bucket.push(e0), entries.drop_first());
        assert(bucket.push(e0) + entries.drop_first() =~= bucket + entries);
    }
}

/// Decoding its own encoding brings any well-shaped record back: the pass
/// succeeds, every keyed field's slot holds exactly the value the record
/// had (or stays empty where an optional field was absent), and the
/// accumulated bucket holds exactly the catch-all entries as a key-to-value
/// mapping — equality of bucket content, not of pair order, since the
/// container re-inserts in its own order. The schema's keyed keys must be
/// pairwise distinct, and the bucket may hold only keys that no keyed field
/// claims and that its own policy accepts, as any decode output does.
pub proof fn lemma_round_trip<V, B: UnknownKeyHandler<ValueType = V>>(
    fields: Seq<FieldSchema>,
    slots: Seq<FieldValue<V, B>>,
)
    requires
        record_wf(fields, slots),
        at_most_one_catchall(fields),
        distinct_keyed_keys(fields),
        bucket_keys_unmatched(fields, slots),
        bucket_keys_accepted(fields, slots),
    ensures
        spec_decode::<V, B>(fields, spec_encode(fields, slots)) matches Ok(st) && st.slots
            == expected_slots(fields, slots) && distinct_entry_keys(st.bucket) && map_of(
            st.bucket,
        ) == map_of(expected_bucket(fields, slots)),
{
    let es = expected_slots(fields, slots);
    let eb = expected_bucket(fields, slots);
    let st0 = init_state::<V>(fields);
    lemma_find_catchall_bounds(fields);
    match find_catchall(fields) {
        Some(c) => {
            assert(c >= 0);
        },
        None => {},
    }
    lemma_round_trip_from(fields, slots, 0, st0);
    lemma_first_missing_bounds(fields, es);
    match first_missing(fields, es) {
        Some(mi) => {
            assert(slot_matches(fields[mi], slots[mi]));
            assert(false);
        },
        None => {},
    }
    lemma_fill_all_props::<V, B>(Seq::empty(), eb);
    assert(Seq::<(i64, V)>::empty() + eb =~= eb);
}

/// The decode pass over the encoding of the fields from `i` on, started
/// from the state the fields before `i` produce, reaches the full expected
/// state: expected slots, and the bucket refilled with the catch-all
/// entries in emission order.
proof fn lemma_round_trip_from<V, B: UnknownKeyHandler<ValueType = V>>(
    fields: Seq<FieldSchema>,
    slots: Seq<FieldValue<V, B>>,
    i: int,
    st: DecodeState<V>,
)
    requires
        record_wf(fields, slots),
        at_most_one_catchall(fields),
        distinct_keyed_keys(fields),
        bucket_keys_unmatched(fields, slots),
        bucket_keys_accepted(fields, slots),
        0 <= i <= fields.len(),
        st.slots.len() == fields.len(),
        forall|j: int|
            0 <= j < fields.len() ==> st.slots[j] == (if j < i {
                expected_slots(fields, slots)[j]
            } else {
                None::<V>
            }),
        st.bucket == (match find_catchall(fields) {
            Some(c) => if c < i {
                fill_all::<V, B>(Seq::empty(), expected_bucket(fields, slots))
            } else {
                Seq::<(i64, V)>::empty()
            },
            None => Seq::<(i64, V)>::empty(),
        }),
    ensures
        run::<V, B>(fields, st, spec_encode_from(fields, slots, i)) == Ok::<
            DecodeState<V>,
            DecodeError,
        >(
            DecodeState {
                slots: expected_slots(fields, slots),
                bucket: match find_catchall(fields) {
                    Some(_) => fill_all::<V, B>(
                        Seq::empty(),
                        expected_bucket(fields, slots),
                    ),
                    None => Seq::<(i64, V)>::empty(),
                },
            },
        ),
    decreases fields.len() - i,
{
    let es = expected_slots(fields, slots);
    let eb = expected_bucket(fields, slots);
    lemma_find_catchall_bounds(fields);
    if i == fields.len() {
        assert(st.slots =~= es);
        match find_catchall(fields) {
            Some(c) => {
                assert(st =~= DecodeState {
                    slots: es,
                    bucket: fill_all::<V, B>(Seq::empty(), eb),
                });
            },
            None => {
                assert(st =~= DecodeState { slots: es, bucket: Seq::<(i64, V)>::empty() });
            },
        }
    } else {
        assert(slot_matches(fields[i], slots[i]));
        let seg = field_pairs(fields[i], slots[i]);
        let rest = spec_encode_from(fields, slots, i + 1);
        match fields[i].field_type {
            FieldType::Keyed(k) => {
                match slots[i] {
                    FieldValue::Present(v) => {
                        lemma_find_keyed_bounds(fields, k);
                        assert(find_keyed(fields, k) == Some(i)) by {
                            match find_keyed(fields, k) {
                                Some(m) => {
                                    if m != i {
                                        assert(fields[m].field_type == FieldType::Keyed(k));
                                    }
                                },
                                None => {
                                    assert(fields[i].field_type == FieldType::Keyed(k));
                                },
                            }
                        }
                        let st2 = DecodeState {
                            slots: st.slots.update(i, Some(v)),
                            bucket: st.bucket,
                        };
                        assert(step::<V, B>(fields, st, k, v) == Ok::<
                            DecodeState<V>,
                            DecodeError,
                        >(st2));
                        assert((seg + rest)[0] == (k, v));
                        assert((seg + rest).drop_first() =~= rest);
                        lemma_round_trip_from(fields, slots, i + 1, st2);
                    },
                    _ => {
                        assert(seg + rest =~= rest);
                        lemma_round_trip_from(fields, slots, i + 1, st);
                    },
                }
            },
            FieldType::CatchAll => {
                assert(find_catchall(fields) == Some(i));
                match slots[i] {
                    FieldValue::Bucket(m) => {
                        assert(eb == m.bucket_entries());
                        lemma_run_unmatched_entries::<V, B>(fields, st, m.bucket_entries(), rest);
                        let st2 = DecodeState {
                            slots: st.slots,
                            bucket: fill_all::<V, B>(st.bucket, m.bucket_entries()),
                        };
                        assert(st.bucket =~= Seq::<(i64, V)>::empty());
                        lemma_round_trip_from(fields, slots, i + 1, st2);
                    },
                    _ => {
                        assert(false);
                    },
                }
            },
            FieldType::Phantom => {
                assert(seg + rest =~= rest);
                lemma_round_trip_from(fields, slots, i + 1, st);
            },
        }
    }
}

/// Feeding the decode pass a block of unmatched, accepted entries inserts
/// them all into the bucket, in order, under a schema with a catch-all
/// field.
proof fn lemma_run_unmatched_entries<V, B: UnknownKeyHandler<ValueType = V>>(
    fields: Seq<FieldSchema>,
    st: DecodeState<V>,
    entries: Seq<(i64, V)>,
    rest: Seq<(i64, V)>,
)
    requires
        find_catchall(fields) is Some,
        forall|j: int|
            0 <= j < entries.len() ==> find_keyed(fields, (#[trigger] entries[j]).0) is None
                && B::spec_handles(entries[j].0),
    ensures
        run::<V, B>(fields, st, entries + rest) == run::<V, B>(
            fields,
            DecodeState { slots: st.slots, bucket: fill_all::<V, B>(st.bucket, entries) },
            rest,
        ),
    decreases entries.len(),
{
    if entries.len() == 0 {
        assert(entries + rest =~= rest);
        assert(DecodeState { slots: st.slots, bucket: fill_all::<V, B>(st.bucket, entries) }
            =~= st);
    } else {
        let e0 = entries[0];
        assert(e0 == (e0.0, e0.1));
        let st2 = DecodeState { slots: st.slots, bucket: B::spec_fill(st.bucket, e0.0, e0.1) };
        assert(step::<V, B>(fields, st, e0.0, e0.1) == Ok::<DecodeState<V>, DecodeError>(st2));
        assert((entries + rest)[0] == e0);
        assert((entries + rest).drop_first() =~= entries.drop_first() + rest);
        lemma_run_unmatched_entries::<V, B>(fields, st2, entries.drop_first(), rest);
    }
}

/// Splitting a pair stream splits the decode pass.
proof fn lemma_run_append<V, B: UnknownKeyHandler<ValueType = V>>(
    fields: Seq<FieldSchema>,
    st: DecodeState<V>,
    a: Seq<(i64, V)>,
    b: Seq<(i64, V)>,
)
    ensures
        run::<V, B>(fields, st, a + b) == match run::<V, B>(fields, st, a) {
            Ok(st1) => run::<V, B>(fields, st1, b),
            Err(e) => Err::<DecodeState<V>, DecodeError>(e),
        },
    decreases a.len(),
{
    if a.len() == 0 {
        assert(a + b =~= b);
    } else {
        assert((a + b)[0] == a[0]);
        assert((a + b).drop_first() =~= a.drop_first() + b);
        match step::<V, B>(fields, st, a[0].0, a[0].1) {
            Ok(st2) => {
                lemma_run_append::<V, B>(fields, st2, a.drop_first(), b);
            },
            Err(_) => {},
        }
    }
}

/// A successful decode pass keeps the slot count, and keeps the bucket's
/// keys distinct.
proof fn lemma_run_shape<V, B: UnknownKeyHandler<ValueType = V>>(
    fields: Seq<FieldSchema>,
    st: DecodeState<V>,
    pairs: Seq<(i64, V)>,
)
    requires
        st.slots.len() == fields.len(),
    ensures
        match run::<V, B>(fields, st, pairs) {
            Ok(st2) => st2.slots.len() == st.slots.len() && (distinct_entry_keys(st.bucket)
                ==> distinct_entry_keys(st2.bucket)),
            Err(_) => true,
        },
    decreases pairs.len(),
{
    if pairs.len() > 0 {
        lemma_find_keyed_bounds(fields, pairs[0].0);
        match step::<V, B>(fields, st, pairs[0].0, pairs[0].1) {
            Ok(st2) => {
                if find_keyed(fields, pairs[0].0) is None && distinct_entry_keys(st.bucket) {
                    B::spec_fill_is_insert(st.bucket, pairs[0].0, pairs[0].1);
                }
                lemma_run_shape::<V, B>(fields, st2, pairs.drop_first());
            },
            Err(_) => {},
        }
    }
}

/// A successful decode pass never empties a filled slot.
proof fn lemma_run_preserves_filled<V, B: UnknownKeyHandler<ValueType = V>>(
    fields: Seq<FieldSchema>,
    st: DecodeState<V>,
    pairs: Seq<(i64, V)>,
    f: int,
)
    requires
        st.slots.len() == fields.len(),
        0 <= f < st.slots.len(),
        st.slots[f] is Some,
    ensures
        match run::<V, B>(fields, st, pairs) {
            Ok(st2) => st2.slots[f] is Some,
            Err(_) => true,
        },
    decreases pairs.len(),
{
    if pairs.len() > 0 {
        lemma_find_keyed_bounds(fields, pairs[0].0);
        match step::<V, B>(fields, st, pairs[0].0, pairs[0].1) {
            Ok(st2) => {
                lemma_run_preserves_filled::<V, B>(fields, st2, pairs.drop_first(), f);
            },
            Err(_) => {},
        }
    }
}

/// A successful decode pass over a stream holding the key of keyed field
/// `f` leaves `f`'s slot filled.
proof fn lemma_run_fills<V, B: UnknownKeyHandler<ValueType = V>>(
    fields: Seq<FieldSchema>,
    st: DecodeState<V>,
    pairs: Seq<(i64, V)>,
    idx: int,
    f: int,
)
    requires
        0 <= idx < pairs.len(),
        find_keyed(fields, pairs[idx].0) == Some(f),
        st.slots.len() == fields.len(),
    ensures
        match run::<V, B>(fields, st, pairs) {
            Ok(st2) => st2.slots[f] is Some,
            Err(_) => true,
        },
    decreases pairs.len(),
{
    lemma_find_keyed_bounds(fields, pairs[idx].0);
    lemma_find_keyed_bounds(fields, pairs[0].0);
    match step::<V, B>(fields, st, pairs[0].0, pairs[0].1) {
        Ok(st2) => {
            if idx == 0 {
                lemma_run_preserves_filled::<V, B>(fields, st2, pairs.drop_first(), f);
            } else {
                lemma_run_fills::<V, B>(fields, st2, pairs.drop_first(), idx - 1, f);
            }
        },
        Err(_) => {},
    }
}

/// A successful decode pass over a stream never holding the key of keyed
/// field `f` leaves `f`'s slot empty.
proof fn lemma_run_keeps_unfilled<V, B: UnknownKeyHandler<ValueType = V>>(
    fields: Seq<FieldSchema>,
    st: DecodeState<V>,
    pairs: Seq<(i64, V)>,
    f: int,
    key: i64,
)
    requires
        0 <= f < fields.len(),
        st.slots.len() == fields.len(),
        fields[f].field_type == FieldType::Keyed(key),
        forall|m: int| 0 <= m < pairs.len() ==> (#[trigger] pairs[m]).0 != key,
        st.slots[f] is None,
    ensures
        match run::<V, B>(fields, st, pairs) {
            Ok(st2) => st2.slots[f] is None,
            Err(_) => true,
        },
    decreases pairs.len(),
{
    if pairs.len() > 0 {
        lemma_find_keyed_bounds(fields, pairs[0].0);
        match step::<V, B>(fields, st, pairs[0].0, pairs[0].1) {
            Ok(st2) => {
                lemma_run_keeps_unfilled::<V, B>(fields, st2, pairs.drop_first(), f, key);
            },
            Err(_) => {},
        }
    }
}

/// Under a schema where every key is routable — each pair's key either
/// matched by a keyed field or accepted by a present catch-all — the only
/// error the decode pass itself can raise is a duplicate.
proof fn lemma_run_err_is_duplicate<V, B: UnknownKeyHandler<ValueType = V>>(
    fields: Seq<FieldSchema>,
    st: DecodeState<V>,
    pairs: Seq<(i64, V)>,
)
    requires
        forall|m: int|
            0 <= m < pairs.len() ==> find_keyed(fields, (#[trigger] pairs[m]).0) is Some || (
            find_catchall(fields) is Some && B::spec_handles(pairs[m].0)),
    ensures
        match run::<V, B>(fields, st, pairs) {
            Ok(_) => true,
            Err(e) => e is DuplicateField,
        },
    decreases pairs.len(),
{
    if pairs.len() > 0 {
        match step::<V, B>(fields, st, pairs[0].0, pairs[0].1) {
            Ok(st2) => {
                lemma_run_err_is_duplicate::<V, B>(fields, st2, pairs.drop_first());
            },
            Err(_) => {},
        }
    }
}

/// Decoding a pair stream that carries the same keyed key twice never
/// succeeds, whatever the stream order; and when every key in the stream is
/// routable, the failure is a duplicate-field failure.
pub proof fn lemma_duplicate_key_rejected<V, B: UnknownKeyHandler<ValueType = V>>(
    fields: Seq<FieldSchema>,
    pairs: Seq<(i64, V)>,
    i: int,
    j: int,
)
    requires
        0 <= i < j < pairs.len(),
        pairs[i].0 == pairs[j].0,
        find_keyed(fields, pairs[i].0) is Some,
    ensures
        spec_decode::<V, B>(fields, pairs) is Err,
        (forall|m: int|
            0 <= m < pairs.len() ==> find_keyed(fields, (#[trigger] pairs[m]).0) is Some || (
            find_catchall(fields) is Some && B::spec_handles(pairs[m].0))) ==> spec_decode::<
            V,
            B,
        >(fields, pairs) matches Err(DecodeError::DuplicateField(_)),
{
    let key = pairs[i].0;
    lemma_find_keyed_bounds(fields, key);
    let f = match find_keyed(fields, key) {
        Some(f) => f,
        None => 0,
    };
    let a = pairs.take(j);
    let b = pairs.skip(j);
    assert(pairs =~= a + b);
    lemma_run_append::<V, B>(fields, init_state(fields), a, b);
    match run::<V, B>(fields, init_state(fields), a) {
        Ok(st1) => {
            lemma_run_fills::<V, B>(fields, init_state(fields), a, i, f);
            assert(b[0] == pairs[j]);
            assert(step::<V, B>(fields, st1, b[0].0, b[0].1) is Err);
        },
        Err(_) => {},
    }
    assert(run::<V, B>(fields, init_state(fields), pairs) is Err);
    if forall|m: int|
        0 <= m < pairs.len() ==> find_keyed(fields, (#[trigger] pairs[m]).0) is Some || (
        find_catchall(fields) is Some && B::spec_handles(pairs[m].0)) {
        lemma_run_err_is_duplicate::<V, B>(fields, init_state(fields), pairs);
    }
}

/// Decoding a pair stream that never carries the key of a non-optional
/// keyed field never succeeds; and when the pass over the stream itself
/// raises no error, the failure is a missing-field failure.
pub proof fn lemma_missing_field_rejected<V, B: UnknownKeyHandler<ValueType = V>>(
    fields: Seq<FieldSchema>,
    pairs: Seq<(i64, V)>,
    f: int,
)
    requires
        0 <= f < fields.len(),
        fields[f].field_type is Keyed,
        !fields[f].optional,
        forall|m: int|
            0 <= m < pairs.len() ==> (#[trigger] pairs[m]).0 != fields[f].field_type->Keyed_0,
    ensures
        spec_decode::<V, B>(fields, pairs) is Err,
        match run::<V, B>(fields, init_state(fields), pairs) {
            Ok(_) => spec_decode::<V, B>(fields, pairs) matches Err(
                DecodeError::MissingField(_),
            ),
            Err(_) => true,
        },
{
    let key = fields[f].field_type->Keyed_0;
    match run::<V, B>(fields, init_state(fields), pairs) {
        Ok(st1) => {
            lemma_run_keeps_unfilled::<V, B>(fields, init_state(fields), pairs, f, key);
            lemma_run_shape::<V, B>(fields, init_state(fields), pairs);
            lemma_first_missing_bounds(fields, st1.slots);
            assert(first_missing(fields, st1.slots) is Some);
        },
        Err(_) => {},
    }
}

/// A successful decode pass keeps every key already held in the bucket.
proof fn lemma_run_bucket_monotone<V, B: UnknownKeyHandler<ValueType = V>>(
    fields: Seq<FieldSchema>,
    st: DecodeState<V>,
    pairs: Seq<(i64, V)>,
    key: i64,
)
    requires
        distinct_entry_keys(st.bucket),
        map_of(st.bucket).dom().contains(key),
    ensures
        match run::<V, B>(fields, st, pairs) {
            Ok(st2) => map_of(st2.bucket).dom().contains(key),
            Err(_) => true,
        },
    decreases pairs.len(),
{
    if pairs.len() > 0 {
        match step::<V, B>(fields, st, pairs[0].0, pairs[0].1) {
            Ok(st2) => {
                if find_keyed(fields, pairs[0].0) is None {
                    B::spec_fill_is_insert(st.bucket, pairs[0].0, pairs[0].1);
                }
                lemma_run_bucket_monotone::<V, B>(fields, st2, pairs.drop_first(), key);
            },
            Err(_) => {},
        }
    }
}

/// Under a schema with a catch-all field, a pair whose key no keyed field
/// claims and whose key the bucket accepts ends up in the bucket of every
/// successful decode.
pub proof fn lemma_unknown_key_routed_to_catchall<V, B: UnknownKeyHandler<ValueType = V>>(
    fields: Seq<FieldSchema>,
    pairs: Seq<(i64, V)>,
    idx: int,
)
    requires
        0 <= idx < pairs.len(),
        find_keyed(fields, pairs[idx].0) is None,
        find_catchall(fields) is Some,
        B::spec_handles(pairs[idx].0),
    ensures
        match spec_decode::<V, B>(fields, pairs) {
            Ok(st) => map_of(st.bucket).dom().contains(pairs[idx].0),
            Err(_) => true,
        },
{
    lemma_run_routes_unmatched::<V, B>(fields, init_state(fields), pairs, idx);
}

proof fn lemma_run_routes_unmatched<V, B: UnknownKeyHandler<ValueType = V>>(
    fields: Seq<FieldSchema>,
    st: DecodeState<V>,
    pairs: Seq<(i64, V)>,
    idx: int,
)
    requires
        0 <= idx < pairs.len(),
        find_keyed(fields, pairs[idx].0) is None,
        find_catchall(fields) is Some,
        B::spec_handles(pairs[idx].0),
        distinct_entry_keys(st.bucket),
    ensures
        match run::<V, B>(fields, st, pairs) {
            Ok(st2) => map_of(st2.bucket).dom().contains(pairs[idx].0),
            Err(_) => true,
        },
    decreases pairs.len(),
{
    match step::<V, B>(fields, st, pairs[0].0, pairs[0].1) {
        Ok(st2) => {
            if find_keyed(fields, pairs[0].0) is None {
                B::spec_fill_is_insert(st.bucket, pairs[0].0, pairs[0].1);
            }
            if idx == 0 {
                lemma_run_bucket_monotone::<V, B>(fields, st2, pairs.drop_first(), pairs[0].0);
            } else {
                lemma_run_routes_unmatched::<V, B>(fields, st2, pairs.drop_first(), idx - 1);
            }
        },
        Err(_) => {},
    }
}

/// A successful decode pass over a stream that never carries `key` leaves
/// `key`'s binding in the bucket untouched.
proof fn lemma_run_bucket_value_stable<V, B: UnknownKeyHandler<ValueType = V>>(
    fields: Seq<FieldSchema>,
    st: DecodeState<V>,
    pairs: Seq<(i64, V)>,
    key: i64,
    value: V,
)
    requires
        distinct_entry_keys(st.bucket),
        map_of(st.bucket).dom().contains(key),
        map_of(st.bucket)[key] == value,
        forall|m: int| 0 <= m < pairs.len() ==> (#[trigger] pairs[m]).0 != key,
    ensures
        match run::<V, B>(fields, st, pairs) {
            Ok(st2) => map_of(st2.bucket).dom().contains(key) && map_of(st2.bucket)[key]
                == value,
            Err(_) => true,
        },
    decreases pairs.len(),
{
    if pairs.len() > 0 {
        match step::<V, B>(fields, st, pairs[0].0, pairs[0].1) {
            Ok(st2) => {
                if find_keyed(fields, pairs[0].0) is None {
                    B::spec_fill_is_insert(st.bucket, pairs[0].0, pairs[0].1);
                }
                lemma_run_bucket_value_stable::<V, B>(fields, st2, pairs.drop_first(), key, value);
            },
            Err(_) => {},
        }
    }
}

/// For an unmatched, accepted key, the bucket of every successful decode
/// binds it to the value of its last occurrence in the stream: a repeated
/// unmatched key overwrites rather than errs.
pub proof fn lemma_unknown_key_last_value_wins<V, B: UnknownKeyHandler<ValueType = V>>(
    fields: Seq<FieldSchema>,
    pairs: Seq<(i64, V)>,
    idx: int,
)
    requires
        0 <= idx < pairs.len(),
        find_keyed(fields, pairs[idx].0) is None,
        find_catchall(fields) is Some,
        B::spec_handles(pairs[idx].0),
        forall|m: int| idx < m < pairs.len() ==> (#[trigger] pairs[m]).0 != pairs[idx].0,
    ensures
        match spec_decode::<V, B>(fields, pairs) {
            Ok(st) => map_of(st.bucket).dom().contains(pairs[idx].0) && map_of(st.bucket)[pairs[idx].0]
                == pairs[idx].1,
            Err(_) => true,
        },
{
    lemma_run_routes_last::<V, B>(fields, init_state(fields), pairs, idx);
}

proof fn lemma_run_routes_last<V, B: UnknownKeyHandler<ValueType = V>>(
    fields: Seq<FieldSchema>,
    st: DecodeState<V>,
    pairs: Seq<(i64, V)>,
    idx: int,
)
    requires
        0 <= idx < pairs.len(),
        find_keyed(fields, pairs[idx].0) is None,
        find_catchall(fields) is Some,
        B::spec_handles(pairs[idx].0),
        forall|m: int| idx < m < pairs.len() ==> (#[trigger] pairs[m]).0 != pairs[idx].0,
        distinct_entry_keys(st.bucket),
    ensures
        match run::<V, B>(fields, st, pairs) {
            Ok(st2) => map_of(st2.bucket).dom().contains(pairs[idx].0) && map_of(st2.bucket)[pairs[idx].0]
                == pairs[idx].1,
            Err(_) => true,
        },
    decreases pairs.len(),
{
    match step::<V, B>(fields, st, pairs[0].0, pairs[0].1) {
        Ok(st2) => {
            if find_keyed(fields, pairs[0].0) is None {
                B::spec_fill_is_insert(st.bucket, pairs[0].0, pairs[0].1);
            }
            if idx == 0 {
                lemma_run_bucket_value_stable::<V, B>(
                    fields,
                    st2,
                    pairs.drop_first(),
                    pairs[0].0,
                    pairs[0].1,
                );
            } else {
                lemma_run_routes_last::<V, B>(fields, st2, pairs.drop_first(), idx - 1);
            }
        },
        Err(_) => {},
    }
}

/// A pair whose key no keyed field claims, under a schema with no catch-all
/// field — or one whose catch-all rejects the key — fails every decode; and
/// when the pairs before it all pass, the failure is exactly an
/// unknown-field failure carrying that key.
pub proof fn lemma_unknown_key_rejected<V, B: UnknownKeyHandler<ValueType = V>>(
    fields: Seq<FieldSchema>,
    pairs: Seq<(i64, V)>,
    idx: int,
)
    requires
        0 <= idx < pairs.len(),
        find_keyed(fields, pairs[idx].0) is None,
        find_catchall(fields) is None || !B::spec_handles(pairs[idx].0),
    ensures
        spec_decode::<V, B>(fields, pairs) is Err,
        match run::<V, B>(fields, init_state(fields), pairs.take(idx)) {
            Ok(_) => spec_decode::<V, B>(fields, pairs) == Err::<DecodeState<V>, DecodeError>(
                DecodeError::UnknownField(pairs[idx].0),
            ),
            Err(_) => true,
        },
{
    let a = pairs.take(idx);
    let b = pairs.skip(idx);
    assert(pairs =~= a + b);
    lemma_run_append::<V, B>(fields, init_state(fields), a, b);
    match run::<V, B>(fields, init_state(fields), a) {
        Ok(st1) => {
            assert(b[0] == pairs[idx]);
            assert(step::<V, B>(fields, st1, b[0].0, b[0].1) == Err::<
                DecodeState<V>,
                DecodeError,
            >(DecodeError::UnknownField(pairs[idx].0)));
        },
        Err(_) => {},
    }
}

/// The decode pass raises no error over a stream where every key is
/// routable, no keyed key repeats, and no slot a stream key owns is filled
/// yet.
proof fn lemma_run_succeeds<V, B: UnknownKeyHandler<ValueType = V>>(
    fields: Seq<FieldSchema>,
    st: DecodeState<V>,
    pairs: Seq<(i64, V)>,
)
    requires
        st.slots.len() == fields.len(),
        forall|m: int|
            0 <= m < pairs.len() ==> find_keyed(fields, (#[trigger] pairs[m]).0) is Some || (
            find_catchall(fields) is Some && B::spec_handles(pairs[m].0)),
        forall|m1: int, m2: int|
            0 <= m1 < m2 < pairs.len() && (#[trigger] pairs[m1]).0 == (#[trigger] pairs[m2]).0
                ==> find_keyed(fields, pairs[m1].0) is None,
        forall|m: int|
            0 <= m < pairs.len() ==> match find_keyed(fields, (#[trigger] pairs[m]).0) {
                Some(f) => st.slots[f] is None,
                None => true,
            },
    ensures
        run::<V, B>(fields, st, pairs) is Ok,
    decreases pairs.len(),
{
    if pairs.len() > 0 {
        lemma_find_keyed_bounds(fields, pairs[0].0);
        let rest = pairs.drop_first();
        match step::<V, B>(fields, st, pairs[0].0, pairs[0].1) {
            Ok(st2) => {
                assert forall|m: int| 0 <= m < rest.len() implies match find_keyed(
                    fields,
                    (#[trigger] rest[m]).0,
                ) {
                    Some(f) => st2.slots[f] is None,
                    None => true,
                } by {
                    assert(rest[m] == pairs[m + 1]);
                    lemma_find_keyed_bounds(fields, pairs[m + 1].0);
                    match find_keyed(fields, pairs[m + 1].0) {
                        Some(f2) => {
                            match find_keyed(fields, pairs[0].0) {
                                Some(f1) => {
                                    if f1 == f2 {
                                        assert(pairs[0].0 == pairs[m + 1].0);
                                        assert(find_keyed(fields, pairs[0].0) is None);
                                    }
                                },
                                None => {},
                            }
                        },
                        None => {},
                    }
                }
                assert forall|m1: int, m2: int|
                    0 <= m1 < m2 < rest.len() && (#[trigger] rest[m1]).0 == (
                    #[trigger] rest[m2]).0 implies find_keyed(fields, rest[m1].0) is None by {
                    assert(rest[m1] == pairs[m1 + 1]);
                    assert(rest[m2] == pairs[m2 + 1]);
                }
                assert forall|m: int|
                    0 <= m < rest.len() implies find_keyed(fields, (#[trigger] rest[m]).0)
                    is Some || (find_catchall(fields) is Some && B::spec_handles(
                    rest[m].0,
                )) by {
                    assert(rest[m] == pairs[m + 1]);
                }
                lemma_run_succeeds::<V, B>(fields, st2, rest);
            },
            Err(_) => {
                assert(false);
            },
        }
    }
}

/// A decode succeeds exactly when nothing in spec forces an error: every
/// stream key is either some keyed field's (pairwise distinct) key or an
/// unmatched key a present catch-all accepts, no keyed key arrives twice,
/// and every non-optional keyed field's key arrives at least once.
pub proof fn lemma_decode_succeeds<V, B: UnknownKeyHandler<ValueType = V>>(
    fields: Seq<FieldSchema>,
    pairs: Seq<(i64, V)>,
)
    requires
        distinct_keyed_keys(fields),
        forall|m: int|
            0 <= m < pairs.len() ==> find_keyed(fields, (#[trigger] pairs[m]).0) is Some || (
            find_catchall(fields) is Some && B::spec_handles(pairs[m].0)),
        forall|m1: int, m2: int|
            0 <= m1 < m2 < pairs.len() && (#[trigger] pairs[m1]).0 == (#[trigger] pairs[m2]).0
                ==> find_keyed(fields, pairs[m1].0) is None,
        forall|f: int|
            0 <= f < fields.len() && (#[trigger] fields[f]).field_type is Keyed
                && !fields[f].optional ==> exists|m: int|
                0 <= m < pairs.len() && (#[trigger] pairs[m]).0 == fields[f].field_type->Keyed_0,
    ensures
        spec_decode::<V, B>(fields, pairs) is Ok,
{
    assert forall|m: int| 0 <= m < pairs.len() implies match find_keyed(
        fields,
        (#[trigger] pairs[m]).0,
    ) {
        Some(f) => init_state::<V>(fields).slots[f] is None,
        None => true,
    } by {
        lemma_find_keyed_bounds(fields, pairs[m].0);
    }
    lemma_run_succeeds::<V, B>(fields, init_state(fields), pairs);
    match run::<V, B>(fields, init_state(fields), pairs) {
        Ok(st1) => {
            lemma_run_shape::<V, B>(fields, init_state(fields), pairs);
            lemma_first_missing_bounds(fields, st1.slots);
            match first_missing(fields, st1.slots) {
                Some(mi) => {
                    let key = fields[mi].field_type->Keyed_0;
                    let m = choose|m: int| 0 <= m < pairs.len() && (#[trigger] pairs[m]).0 == key;
                    lemma_find_keyed_bounds(fields, key);
                    assert(find_keyed(fields, key) == Some(mi)) by {
                        match find_keyed(fields, key) {
                            Some(f0) => {
                                if f0 != mi {
                                    assert(fields[f0].field_type == FieldType::Keyed(key));
                                }
                            },
                            None => {
                                assert(fields[mi].field_type == FieldType::Keyed(key));
                            },
                        }
                    }
                    lemma_run_fills::<V, B>(fields, init_state(fields), pairs, m, mi);
                    assert(false);
                },
                None => {},
            }
        },
        Err(_) => {
            assert(false);
        },
    }
}

/// Encoding a record whose optional keyed field is absent emits no pair
/// under that field's key, provided the schema's keys are distinct and the
/// bucket holds only unmatched keys.
pub proof fn lemma_absent_optional_emits_nothing<V, B: UnknownKeyHandler<ValueType = V>>(
    fields: Seq<FieldSchema>,
    slots: Seq<FieldValue<V, B>>,
    f: int,
)
    requires
        record_wf(fields, slots),
        at_most_one_catchall(fields),
        distinct_keyed_keys(fields),
        bucket_keys_unmatched(fields, slots),
        0 <= f < fields.len(),
        fields[f].field_type is Keyed,
        slots[f] is Absent,
    ensures
        forall|m: int|
            0 <= m < spec_encode(fields, slots).len() ==> (#[trigger] spec_encode(fields, slots)[m]).0
                != fields[f].field_type->Keyed_0,
{
    lemma_encode_from_avoids_key(fields, slots, f, 0);
}

proof fn lemma_encode_from_avoids_key<V, B: UnknownKeyHandler<ValueType = V>>(
    fields: Seq<FieldSchema>,
    slots: Seq<FieldValue<V, B>>,
    f: int,
    i: int,
)
    requires
        record_wf(fields, slots),
        at_most_one_catchall(fields),
        distinct_keyed_keys(fields),
        bucket_keys_unmatched(fields, slots),
        0 <= f < fields.len(),
        fields[f].field_type is Keyed,
        slots[f] is Absent,
    ensures
        forall|m: int|
            0 <= m < spec_encode_from(fields, slots, i).len() ==> (#[trigger] spec_encode_from(
                fields,
                slots,
                i,
            )[m]).0 != fields[f].field_type->Keyed_0,
    decreases fields.len() - i,
{
    let key = fields[f].field_type->Keyed_0;
    if 0 <= i < fields.len() {
        lemma_encode_from_avoids_key(fields, slots, f, i + 1);
        let seg = field_pairs(fields[i], slots[i]);
        let rest = spec_encode_from(fields, slots, i + 1);
        lemma_find_keyed_bounds(fields, key);
        assert forall|m: int| 0 <= m < seg.len() implies (#[trigger] seg[m]).0 != key by {
            match fields[i].field_type {
                FieldType::Keyed(k) => {
                    assert(i != f);
                },
                FieldType::CatchAll => {
                    lemma_find_catchall_bounds(fields);
                    assert(find_catchall(fields) == Some(i));
                    assert(expected_bucket(fields, slots)[m] == seg[m]);
                    assert(find_keyed(fields, seg[m].0) is None);
                },
                FieldType::Phantom => {},
            }
        }
        assert forall|m: int|
            0 <= m < spec_encode_from(fields, slots, i).len() implies (#[trigger] spec_encode_from(
            fields,
            slots,
            i,
        )[m]).0 != key by {
            if m < seg.len() {
                assert(spec_encode_from(fields, slots, i)[m] == seg[m]);
            } else {
                assert(spec_encode_from(fields, slots, i)[m] == rest[m - seg.len()]);
            }
        }
    }
}

/// Decoding a stream that never carries an optional keyed field's key
/// reaches, whenever it succeeds, a state with that slot empty — the field
/// is reconstructed as absent, and its absence alone never fails the
/// decode.
pub proof fn lemma_absent_key_decodes_absent<V, B: UnknownKeyHandler<ValueType = V>>(
    fields: Seq<FieldSchema>,
    pairs: Seq<(i64, V)>,
    f: int,
)
    requires
        0 <= f < fields.len(),
        fields[f].field_type is Keyed,
        fields[f].optional,
        forall|m: int|
            0 <= m < pairs.len() ==> (#[trigger] pairs[m]).0 != fields[f].field_type->Keyed_0,
    ensures
        match spec_decode::<V, B>(fields, pairs) {
            Ok(st) => st.slots[f] is None,
            Err(_) => true,
        },
{
    lemma_run_keeps_unfilled::<V, B>(
        fields,
        init_state(fields),
        pairs,
        f,
        fields[f].field_type->Keyed_0,
    );
}

} // verus!
