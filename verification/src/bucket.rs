//! The catch-all capability and its built-in map container.
//!
//! A `catchall` field's value type must offer the [`UnknownKeyHandler`]
//! capability: construction of an empty bucket, entry count, restartable
//! iteration, a key-membership test, and add-or-overwrite insertion.
//! [`KeyMap`] is the built-in implementation: an insertion-ordered mapping
//! from signed integer keys to values whose membership test accepts every
//! key.

use vstd::prelude::*;

verus! {

/// First position of `key` in the entry list, if any.
pub open spec fn index_of_key<V>(entries: Seq<(i64, V)>, key: i64) -> Option<int>
    decreases entries.len(),
{
    if entries.len() == 0 {
        None
    } else if entries[0].0 == key {
        Some(0int)
    } else {
        match index_of_key(entries.drop_first(), key) {
            Some(i) => Some(i + 1),
            None => None,
        }
    }
}

/// True when the keys of the entry list are pairwise distinct.
pub open spec fn distinct_entry_keys<V>(entries: Seq<(i64, V)>) -> bool {
    forall|i: int, j: int| 0 <= i < j < entries.len() ==> entries[i].0 != entries[j].0
}

/// Add-or-overwrite insertion on an entry list: an existing key keeps its
/// position and takes the new value; a new key is appended.
pub open spec fn entries_insert<V>(entries: Seq<(i64, V)>, key: i64, value: V) -> Seq<(i64, V)> {
    match index_of_key(entries, key) {
        Some(i) => entries.update(i, (key, value)),
        None => entries.push((key, value)),
    }
}

/// The mapping an entry list denotes; later entries win, though under
/// [`distinct_entry_keys`] there is nothing to win over.
pub open spec fn map_of<V>(entries: Seq<(i64, V)>) -> Map<i64, V>
    decreases entries.len(),
{
    if entries.len() == 0 {
        Map::empty()
    } else {
        map_of(entries.drop_last()).insert(entries.last().0, entries.last().1)
    }
}

/// The capability a catch-all field's value type must provide to take part
/// in decoding and encoding. The codec is generic over it: the decoder
/// consults `handles_key` before inserting an unmatched key and rejects the
/// key as unknown where the bucket does, and the encoder re-emits whatever
/// `iter` yields.
///
/// `bucket_entries` is the abstract content, in the bucket's own iteration
/// order; `bucket_wf` is whatever invariant the container maintains, which
/// construction establishes and insertion preserves. `spec_handles` is the
/// membership policy — an open bucket accepts every key, a filtered one may
/// not — and `spec_fill` the insertion semantics on the abstract entries.
/// Both are functions of their arguments alone: a decode call is a pure
/// function of its inputs, independent of pair order up to duplicate
/// detection, so the bucket's policy may depend on the key and its content
/// transition on the previous content, but neither on anything else. The
/// two proof obligations hold every implementation to add-or-overwrite map
/// semantics over distinct keys.
pub trait UnknownKeyHandler: Sized {
    /// The value type the bucket holds.
    type ValueType;

    /// The held entries, in iteration order.
    spec fn bucket_entries(&self) -> Seq<(i64, Self::ValueType)>;

    /// The container's own invariant.
    spec fn bucket_wf(&self) -> bool;

    /// The membership policy: which keys the bucket accepts.
    spec fn spec_handles(key: i64) -> bool;

    /// The insertion semantics, on the abstract entry list.
    spec fn spec_fill(
        entries: Seq<(i64, Self::ValueType)>,
        key: i64,
        value: Self::ValueType,
    ) -> Seq<(i64, Self::ValueType)>;

    /// A well-formed bucket holds each key at most once.
    proof fn bucket_wf_entries(&self)
        requires
            self.bucket_wf(),
        ensures
            distinct_entry_keys(self.bucket_entries()),
    ;

    /// Insertion is add-or-overwrite: it keeps keys distinct and denotes
    /// insertion on the key-to-value mapping.
    proof fn spec_fill_is_insert(
        entries: Seq<(i64, Self::ValueType)>,
        key: i64,
        value: Self::ValueType,
    )
        requires
            distinct_entry_keys(entries),
        ensures
            distinct_entry_keys(Self::spec_fill(entries, key, value)),
            map_of(Self::spec_fill(entries, key, value)) == map_of(entries).insert(key, value),
    ;

    /// Produce an empty bucket.
    fn new() -> (r: Self)
        ensures
            r.bucket_wf(),
            r.bucket_entries() == Seq::<(i64, Self::ValueType)>::empty(),
    ;

    /// Number of currently held entries.
    fn num_items(&self) -> (n: usize)
        requires
            self.bucket_wf(),
        ensures
            n == self.bucket_entries().len(),
    ;

    /// The held entries; restartable, in the bucket's own order.
    fn iter(&self) -> (entries: &Vec<(i64, Self::ValueType)>)
        ensures
            entries@ == self.bucket_entries(),
    ;

    /// The held entries, by value, in the bucket's own order.
    fn into_entries(self) -> (entries: Vec<(i64, Self::ValueType)>)
        ensures
            entries@ == self.bucket_entries(),
    ;

    /// Membership test: whether the bucket accepts this key.
    fn handles_key(&self, key: i64) -> (r: bool)
        ensures
            r == Self::spec_handles(key),
    ;

    /// Add or overwrite one entry.
    fn fill_value(&mut self, key: i64, value: Self::ValueType)
        requires
            old(self).bucket_wf(),
        ensures
            final(self).bucket_wf(),
            final(self).bucket_entries() == Self::spec_fill(
                old(self).bucket_entries(),
                key,
                value,
            ),
    ;
}

/// The built-in catch-all container: a mapping from signed integer keys to
/// values, iterated in insertion order, accepting every key.
#[derive(Clone, Debug, PartialEq, Eq)]
pub struct KeyMap<V> {
    items: Vec<(i64, V)>,
}

impl<V> KeyMap<V> {
    /// The held entries, in insertion order.
    pub closed spec fn entries(&self) -> Seq<(i64, V)> {
        self.items@
    }

    /// The mapping the entries denote.
    pub open spec fn contents(&self) -> Map<i64, V> {
        map_of(self.entries())
    }

    /// Invariant: no key is held twice.
    pub open spec fn wf(&self) -> bool {
        distinct_entry_keys(self.entries())
    }

    /// An empty map.
    pub fn empty() -> (r: Self)
        ensures
            r.wf(),
            r.entries() == Seq::<(i64, V)>::empty(),
    {
        KeyMap { items: Vec::new() }
    }

    /// Number of held entries.
    pub fn size(&self) -> (n: usize)
        ensures
            n == self.entries().len(),
    {
        self.items.len()
    }

    /// The held entries, borrowed in insertion order.
    pub fn entry_list(&self) -> (r: &Vec<(i64, V)>)
        ensures
            r@ == self.entries(),
    {
        &self.items
    }

    /// The held entries, by value, in insertion order.
    pub fn into_entry_list(self) -> (r: Vec<(i64, V)>)
        ensures
            r@ == self.entries(),
    {
        self.items
    }

    /// First position of `key`, if held.
    fn position_of(&self, key: i64) -> (r: Option<usize>)
        ensures
            match r {
                Some(i) => index_of_key(self.entries(), key) == Some(i as int),
                None => index_of_key(self.entries(), key) is None,
            },
    {
        proof {
            assert(self.entries().skip(0) =~= self.entries());
        }
        let mut i: usize = 0;
        while i < self.items.len()
            invariant
                i <= self.items.len(),
                index_of_key(self.entries(), key) == match index_of_key(
                    self.entries().skip(i as int),
                    key,
                ) {
                    Some(j) => Some(j + i),
                    None => None::<int>,
                },
            decreases self.items.len() - i,
        {
            proof {
                assert(self.entries().skip(i as int).drop_first() =~= self.entries().skip(
                    i as int + 1,
                ));
            }
            if self.items[i].0 == key {
                return Some(i);
            }
            i += 1;
        }
        None
    }

    /// Whether `key` is held.
    pub fn contains_key(&self, key: i64) -> (r: bool)
        ensures
            r == self.contents().dom().contains(key),
    {
        proof {
            lemma_index_of_key_contents(self.entries(), key);
        }
        self.position_of(key).is_some()
    }

    /// Add or overwrite one entry: an existing key keeps its position and
    /// takes the new value; a new key is appended.
    pub fn insert(&mut self, key: i64, value: V)
        requires
            old(self).wf(),
        ensures
            final(self).wf(),
            final(self).entries() == entries_insert(old(self).entries(), key, value),
            final(self).contents() == old(self).contents().insert(key, value),
    {
        proof {
            lemma_index_of_key_spec(self.entries(), key);
            lemma_entries_insert_distinct(self.entries(), key, value);
            lemma_entries_insert_contents(self.entries(), key, value);
        }
        match self.position_of(key) {
            Some(i) => {
                self.items[i] = (key, value);
            },
            None => {
                self.items.push((key, value));
            },
        }
    }
}

impl<V> UnknownKeyHandler for KeyMap<V> {
    type ValueType = V;

    open spec fn bucket_entries(&self) -> Seq<(i64, V)> {
        self.entries()
    }

    open spec fn bucket_wf(&self) -> bool {
        self.wf()
    }

    /// The built-in map-backed bucket accepts every key.
    open spec fn spec_handles(key: i64) -> bool {
        true
    }

    open spec fn spec_fill(entries: Seq<(i64, V)>, key: i64, value: V) -> Seq<(i64, V)> {
        entries_insert(entries, key, value)
    }

    proof fn bucket_wf_entries(&self) {
    }

    proof fn spec_fill_is_insert(entries: Seq<(i64, V)>, key: i64, value: V) {
        lemma_entries_insert_distinct(entries, key, value);
        lemma_entries_insert_contents(entries, key, value);
    }

    fn new() -> (r: Self) {
        KeyMap::empty()
    }

    fn num_items(&self) -> (n: usize) {
        self.size()
    }

    fn iter(&self) -> (entries: &Vec<(i64, V)>) {
        self.entry_list()
    }

    fn into_entries(self) -> (entries: Vec<(i64, V)>) {
        self.into_entry_list()
    }

    fn handles_key(&self, _key: i64) -> (r: bool) {
        true
    }

    fn fill_value(&mut self, key: i64, value: V) {
        self.insert(key, value);
    }
}

/// A key is in the denoted mapping exactly when the entry list holds it.
pub proof fn lemma_index_of_key_contents<V>(entries: Seq<(i64, V)>, key: i64)
    ensures
        map_of(entries).dom().contains(key) <==> index_of_key(entries, key) is Some,
    decreases entries.len(),
{
    if entries.len() > 0 {
        lemma_index_of_key_contents(entries.drop_first(), key);
        lemma_index_of_key_contents(entries.drop_last(), key);
        if entries.len() > 1 {
            assert(entries.drop_first().drop_last() =~= entries.drop_last().drop_first());
            lemma_index_of_key_contents(entries.drop_first().drop_last(), key);
            lemma_index_of_key_contents(entries.drop_last().drop_first(), key);
        }
    }
}

/// What `index_of_key` finds: the first position holding the key.
pub proof fn lemma_index_of_key_spec<V>(entries: Seq<(i64, V)>, key: i64)
    ensures
        match index_of_key(entries, key) {
            Some(i) => 0 <= i < entries.len() && entries[i].0 == key && forall|j: int|
                0 <= j < i ==> entries[j].0 != key,
            None => forall|j: int| 0 <= j < entries.len() ==> entries[j].0 != key,
        },
    decreases entries.len(),
{
    if entries.len() > 0 && entries[0].0 != key {
        let sub = entries.drop_first();
        lemma_index_of_key_spec(sub, key);
        match index_of_key(sub, key) {
            Some(i) => {
                assert forall|j: int| 0 <= j < i + 1 implies entries[j].0 != key by {
                    if j > 0 {
                        assert(sub[j - 1].0 != key);
                    }
                }
            },
            None => {
                assert forall|j: int| 0 <= j < entries.len() implies entries[j].0 != key by {
                    if j > 0 {
                        assert(sub[j - 1].0 != key);
                    }
                }
            },
        }
    }
}

/// Add-or-overwrite insertion keeps entry keys distinct.
pub proof fn lemma_entries_insert_distinct<V>(entries: Seq<(i64, V)>, key: i64, value: V)
    requires
        distinct_entry_keys(entries),
    ensures
        distinct_entry_keys(entries_insert(entries, key, value)),
{
    lemma_index_of_key_spec(entries, key);
}

/// Add-or-overwrite insertion denotes insertion on the mapping.
pub proof fn lemma_entries_insert_contents<V>(entries: Seq<(i64, V)>, key: i64, value: V)
    requires
        distinct_entry_keys(entries),
    ensures
        map_of(entries_insert(entries, key, value)) == map_of(entries).insert(key, value),
    decreases entries.len(),
{
    lemma_index_of_key_spec(entries, key);
    match index_of_key(entries, key) {
        Some(i) => {
            lemma_map_of_update(entries, i, key, value);
        },
        None => {
            assert(entries_insert(entries, key, value).drop_last() =~= entries);
        },
    }
}

/// Updating the entry at a position of a distinct-key list updates the
/// denoted mapping at that key.
proof fn lemma_map_of_update<V>(entries: Seq<(i64, V)>, i: int, key: i64, value: V)
    requires
        distinct_entry_keys(entries),
        0 <= i < entries.len(),
        entries[i].0 == key,
    ensures
        map_of(entries.update(i, (key, value))) == map_of(entries).insert(key, value),
    decreases entries.len(),
{
    let updated = entries.update(i, (key, value));
    if i == entries.len() - 1 {
        assert(updated.drop_last() =~= entries.drop_last());
        lemma_map_of_absent_key(entries.drop_last(), key);
        assert(map_of(updated) =~= map_of(entries).insert(key, value));
    } else {
        assert(updated.drop_last() =~= entries.drop_last().update(i, (key, value)));
        lemma_map_of_update(entries.drop_last(), i, key, value);
        assert(map_of(updated) =~= map_of(entries).insert(key, value));
    }
}

/// A key no entry holds is outside the denoted mapping's domain.
proof fn lemma_map_of_absent_key<V>(entries: Seq<(i64, V)>, key: i64)
    requires
        forall|j: int| 0 <= j < entries.len() ==> entries[j].0 != key,
    ensures
        !map_of(entries).dom().contains(key),
    decreases entries.len(),
{
    if entries.len() > 0 {
        lemma_map_of_absent_key(entries.drop_last(), key);
    }
}

} // verus!
