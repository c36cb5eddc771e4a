//! Field classifications, key-policy resolution, and the resolved record
//! schema.
//!
//! Each declared field carries exactly one policy marker. The resolver turns a
//! list of raw declarations into an immutable [`RecordSchema`], parsing the
//! signed integer literal of `keyed(N)` markers and validating that a
//! `catchall` field's value type offers the unknown-key capability. All
//! malformed declarations are build-time failures ([`SchemaError`]): a codec
//! is never constructed from them.

use vstd::prelude::*;

verus! {

/// The resolved classification of one record field.
///
/// `Ignored` fields are dropped by the resolver and never appear here.
#[derive(Clone, Copy, Debug, PartialEq, Eq, Structural)]
pub enum FieldType {
    /// Wire-visible under the given signed integer key.
    Keyed(i64),
    /// Absorbs every (key, value) pair no keyed field claims.
    CatchAll,
    /// No wire representation; rebuilt from a fixed marker value.
    Phantom,
}

impl FieldType {
    /// Whether this field absorbs unmatched keys rather than owning one key.
    pub fn is_wildcard(self) -> (r: bool)
        ensures
            r == (self is CatchAll),
    {
        match self {
            FieldType::CatchAll => true,
            _ => false,
        }
    }

    /// Whether this field is a marker with no wire representation.
    pub fn is_phantom(self) -> (r: bool)
        ensures
            r == (self is Phantom),
    {
        match self {
            FieldType::Phantom => true,
            _ => false,
        }
    }
}

/// One resolved field of a record schema, in declaration order.
#[derive(Clone, Debug, PartialEq, Eq)]
pub struct FieldSchema {
    /// Identifier used in diagnostics only; never wire-visible.
    pub name: String,
    /// Whether the field's value may be logically absent.
    pub optional: bool,
    /// The validated key policy.
    pub field_type: FieldType,
}

/// True when at most one field of `fields` is a catch-all.
pub open spec fn at_most_one_catchall(fields: Seq<FieldSchema>) -> bool {
    forall|i: int, j: int|
        0 <= i < fields.len() && 0 <= j < fields.len() && fields[i].field_type is CatchAll
            && fields[j].field_type is CatchAll ==> i == j
}

/// True when the keys of the keyed fields of `fields` are pairwise distinct.
pub open spec fn distinct_keyed_keys(fields: Seq<FieldSchema>) -> bool {
    forall|i: int, j: int|
        0 <= i < j < fields.len() && fields[i].field_type is Keyed && fields[j].field_type
            is Keyed ==> fields[i].field_type->Keyed_0 != fields[j].field_type->Keyed_0
}

/// The resolved, ordered field list for one record type. Immutable once
/// built: construction goes through [`resolve_schema`], which validates the
/// declarations.
#[derive(Clone, Debug, PartialEq, Eq)]
pub struct RecordSchema {
    fields: Vec<FieldSchema>,
}

impl View for RecordSchema {
    type V = Seq<FieldSchema>;

    closed spec fn view(&self) -> Seq<FieldSchema> {
        self.fields@
    }
}

impl RecordSchema {
    /// The schema invariant the resolver establishes: at most one catch-all
    /// field.
    pub open spec fn wf(&self) -> bool {
        at_most_one_catchall(self@)
    }

    /// Number of resolved fields.
    pub fn field_count(&self) -> (n: usize)
        ensures
            n == self@.len(),
    {
        self.fields.len()
    }

    /// The resolved fields, in declaration order.
    pub fn fields(&self) -> (r: &Vec<FieldSchema>)
        ensures
            r@ == self@,
    {
        &self.fields
    }
}

/// The raw policy marker declared on one field, before resolution. Exactly
/// one is required per field.
#[derive(Clone, Debug, PartialEq, Eq)]
pub enum PolicyMarker {
    /// `keyed(N)`: wire-visible under the integer key the literal denotes.
    /// The literal is kept as declared; an optional leading `+` or `-` sign
    /// is permitted and defaults to `+`.
    Keyed(String),
    /// `catchall`: absorbs every key no keyed field claims.
    CatchAll,
    /// `ignore`: excluded from the codec entirely.
    Ignore,
    /// `phantom`: no wire representation; rebuilt from a fixed marker.
    Phantom,
}

/// One field declaration as handed to the resolver: the diagnostic name, the
/// declared optionality, the policy markers found on the field, and whether
/// the field's value type offers the unknown-key capability a catch-all
/// needs.
#[derive(Clone, Debug, PartialEq, Eq)]
pub struct FieldDecl {
    /// Identifier used in diagnostics.
    pub name: String,
    /// Whether the field's value may be logically absent.
    pub optional: bool,
    /// The policy markers declared on the field.
    pub markers: Vec<PolicyMarker>,
    /// Whether the field's value type can absorb unknown keys.
    pub handles_unknown_keys: bool,
}

/// A build-time schema failure: it prevents the codec from being constructed
/// at all and never surfaces during an encode or decode call.
#[derive(Clone, Debug, PartialEq, Eq)]
pub enum SchemaError {
    /// A field declares no policy marker.
    MissingPolicy(String),
    /// A field declares more than one policy marker.
    ConflictingPolicy(String),
    /// A `keyed` literal does not denote an integer key (field, literal).
    MalformedKeyLiteral(String, String),
    /// A `catchall` field's value type lacks the unknown-key capability.
    CatchAllTypeUnsupported(String),
    /// A second `catchall` field is declared; a schema takes at most one.
    MultipleCatchAll(String),
}

/// Whether a character is a decimal digit.
pub open spec fn is_digit(c: char) -> bool {
    48 <= c as u32 && c as u32 <= 57
}

/// The value of one decimal digit character.
pub open spec fn digit_val(c: char) -> int {
    c as u32 - 48
}

/// The value a non-empty, all-digit character sequence denotes in base ten.
pub open spec fn digits_value(s: Seq<char>) -> int
    decreases s.len(),
{
    if s.len() == 0 {
        0
    } else {
        digits_value(s.drop_last()) * 10 + digit_val(s.last())
    }
}

/// Whether a character sequence is one or more decimal digits.
pub open spec fn all_digits(s: Seq<char>) -> bool {
    s.len() > 0 && forall|i: int| 0 <= i < s.len() ==> is_digit(#[trigger] s[i])
}

/// The key a `keyed` literal denotes: an optional `+` or `-` sign (default
/// `+`), then one or more decimal digits, and the signed value must fit the
/// key type. Anything else denotes no key.
pub open spec fn spec_parse_key(s: Seq<char>) -> Option<i64> {
    let negative = s.len() > 0 && s[0] == '-';
    let digits = if s.len() > 0 && (s[0] == '-' || s[0] == '+') {
        s.drop_first()
    } else {
        s
    };
    if !all_digits(digits) {
        None
    } else {
        let m = digits_value(digits);
        if negative {
            if -m >= i64::MIN {
                Some((-m) as i64)
            } else {
                None
            }
        } else {
            if m <= i64::MAX {
                Some(m as i64)
            } else {
                None
            }
        }
    }
}

/// Parse a `keyed` literal into its signed integer key, or `None` when the
/// literal is malformed or out of range.
#[verifier::loop_isolation(false)]
pub fn parse_key(literal: &str) -> (r: Option<i64>)
    ensures
        r == spec_parse_key(literal@),
{
    let ghost s = literal@;
    let len = literal.unicode_len();
    if len == 0 {
        return None;
    }
    let first = literal.get_char(0);
    let start: usize = if first == '-' || first == '+' {
        1
    } else {
        0
    };
    let negative = first == '-';
    let ghost digits = if start == 1 {
        s.drop_first()
    } else {
        s
    };
    if start >= len {
        proof {
            assert(digits.len() == 0);
        }
        return None;
    }
    let mut magnitude: u64 = 0;
    let mut too_big = false;
    let mut i: usize = start;
    proof {
        assert(s.subrange(start as int, start as int) =~= Seq::<char>::empty());
    }
    while i < len
        invariant
            start <= i <= len,
            forall|j: int| start <= j < i ==> is_digit(#[trigger] s[j]),
            !too_big ==> magnitude == digits_value(s.subrange(start as int, i as int))
                && magnitude <= 0x8000000000000000u64,
            too_big ==> digits_value(s.subrange(start as int, i as int)) > 0x8000000000000000,
        decreases len - i,
    {
        let c = literal.get_char(i);
        let cv = c as u32;
        if cv < 48 || cv > 57 {
            proof {
                assert(digits[i - start] == s[i as int]);
                assert(!all_digits(digits));
            }
            return None;
        }
        let d = (cv - 48) as u64;
        proof {
            let prefix = s.subrange(start as int, i as int);
            let extended = s.subrange(start as int, i as int + 1);
            assert(extended.drop_last() =~= prefix);
            assert(extended.last() == s[i as int]);
            assert(digits_value(extended) == digits_value(prefix) * 10 + digit_val(s[i as int]));
        }
        if too_big {
        } else {
            let wide: u128 = magnitude as u128 * 10 + d as u128;
            if wide > 0x8000000000000000u128 {
                too_big = true;
            } else {
                magnitude = wide as u64;
            }
        }
        i += 1;
    }
    proof {
        assert(digits =~= s.subrange(start as int, len as int));
        assert(all_digits(digits));
    }
    if too_big {
        return None;
    }
    if negative {
        if magnitude == 0x8000000000000000u64 {
            Some(i64::MIN)
        } else {
            Some(-(magnitude as i64))
        }
    } else {
        if magnitude > i64::MAX as u64 {
            None
        } else {
            Some(magnitude as i64)
        }
    }
}

/// Resolve one declaration into its schema field: `None` for an ignored
/// field, which is dropped before the schema is built. `seen_catchall` is
/// whether an earlier field already claimed the catch-all role.
pub open spec fn resolve_decl(decl: FieldDecl, seen_catchall: bool) -> Result<
    Option<FieldSchema>,
    SchemaError,
> {
    if decl.markers.len() == 0 {
        Err(SchemaError::MissingPolicy(decl.name))
    } else if decl.markers.len() > 1 {
        Err(SchemaError::ConflictingPolicy(decl.name))
    } else {
        match decl.markers[0] {
            PolicyMarker::Keyed(lit) => match spec_parse_key(lit@) {
                Some(key) => Ok(
                    Some(
                        FieldSchema {
                            name: decl.name,
                            optional: decl.optional,
                            field_type: FieldType::Keyed(key),
                        },
                    ),
                ),
                None => Err(SchemaError::MalformedKeyLiteral(decl.name, lit)),
            },
            PolicyMarker::CatchAll => if !decl.handles_unknown_keys {
                Err(SchemaError::CatchAllTypeUnsupported(decl.name))
            } else if seen_catchall {
                Err(SchemaError::MultipleCatchAll(decl.name))
            } else {
                Ok(
                    Some(
                        FieldSchema {
                            name: decl.name,
                            optional: decl.optional,
                            field_type: FieldType::CatchAll,
                        },
                    ),
                )
            },
            PolicyMarker::Ignore => Ok(None),
            PolicyMarker::Phantom => Ok(
                Some(
                    FieldSchema {
                        name: decl.name,
                        optional: decl.optional,
                        field_type: FieldType::Phantom,
                    },
                ),
            ),
        }
    }
}

/// Resolve the declarations from position `i` on, knowing whether an
/// earlier field already claimed the catch-all role.
pub open spec fn spec_resolve_from(decls: Seq<FieldDecl>, i: int, seen_catchall: bool) -> Result<
    Seq<FieldSchema>,
    SchemaError,
>
    decreases decls.len() - i,
{
    if i < 0 || i >= decls.len() {
        Ok(Seq::empty())
    } else {
        match resolve_decl(decls[i], seen_catchall) {
            Err(e) => Err(e),
            Ok(None) => spec_resolve_from(decls, i + 1, seen_catchall),
            Ok(Some(field)) => match spec_resolve_from(
                decls,
                i + 1,
                seen_catchall || field.field_type is CatchAll,
            ) {
                Ok(rest) => Ok(seq![field] + rest),
                Err(e) => Err(e),
            },
        }
    }
}

/// The schema a declaration list resolves to, or the first build-time
/// failure it forces, in declaration order.
pub open spec fn spec_resolve(decls: Seq<FieldDecl>) -> Result<Seq<FieldSchema>, SchemaError> {
    spec_resolve_from(decls, 0, false)
}

/// Build the immutable schema from the field declarations: validate each
/// policy marker, parse `keyed` literals, drop ignored fields, and accept at
/// most one catch-all field whose value type offers the unknown-key
/// capability. Keys of distinct `keyed` fields are trusted to be pairwise
/// distinct, as a build-time invariant of the declarations; they are not
/// checked here.
#[verifier::loop_isolation(false)]
pub fn resolve_schema(decls: Vec<FieldDecl>) -> (r: Result<RecordSchema, SchemaError>)
    ensures
        match r {
            Ok(schema) => spec_resolve(decls@) == Ok::<Seq<FieldSchema>, SchemaError>(schema@)
                && schema.wf(),
            Err(e) => spec_resolve(decls@) == Err::<Seq<FieldSchema>, SchemaError>(e),
        },
{
    let ghost all_decls = decls@;
    let mut decls = decls;
    let mut out: Vec<FieldSchema> = Vec::new();
    let mut seen_catchall = false;
    let mut i: usize = 0;
    let n = decls.len();
    while i < n
        invariant
            i <= n,
            n == all_decls.len(),
            decls@ =~= all_decls.skip(i as int),
            at_most_one_catchall(out@),
            seen_catchall <==> exists|j: int|
                0 <= j < out@.len() && (#[trigger] out@[j].field_type) is CatchAll,
            match spec_resolve_from(all_decls, i as int, seen_catchall) {
                Ok(rest) => spec_resolve(all_decls) == Ok::<Seq<FieldSchema>, SchemaError>(
                    out@ + rest,
                ),
                Err(e) => spec_resolve(all_decls) == Err::<Seq<FieldSchema>, SchemaError>(e),
            },
        decreases n - i,
    {
        let ghost out_before = out@;
        let ghost seen_before = seen_catchall;
        let decl = decls.remove(0);
        let ghost decl_g = decl;
        proof {
            assert(decl_g == all_decls[i as int]);
            assert(decls@ =~= all_decls.skip(i as int + 1));
        }
        if decl.markers.len() == 0 {
            return Err(SchemaError::MissingPolicy(decl.name));
        }
        if decl.markers.len() > 1 {
            return Err(SchemaError::ConflictingPolicy(decl.name));
        }
        let FieldDecl { name, optional, markers, handles_unknown_keys } = decl;
        let mut markers = markers;
        let marker = markers.remove(0);
        proof {
            assert(marker == decl_g.markers[0]);
        }
        match marker {
            PolicyMarker::Keyed(lit) => {
                match parse_key(lit.as_str()) {
                    Some(key) => {
                        out.push(
                            FieldSchema { name, optional, field_type: FieldType::Keyed(key) },
                        );
                        proof {
                            lemma_resolve_push_step(
                                all_decls,
                                i as int,
                                seen_before,
                                out_before,
                                out@,
                            );
                        }
                    },
                    None => {
                        return Err(SchemaError::MalformedKeyLiteral(name, lit));
                    },
                }
            },
            PolicyMarker::CatchAll => {
                if !handles_unknown_keys {
                    return Err(SchemaError::CatchAllTypeUnsupported(name));
                }
                if seen_catchall {
                    return Err(SchemaError::MultipleCatchAll(name));
                }
                out.push(FieldSchema { name, optional, field_type: FieldType::CatchAll });
                seen_catchall = true;
                proof {
                    lemma_resolve_push_step(all_decls, i as int, seen_before, out_before, out@);
                }
            },
            PolicyMarker::Ignore => {},
            PolicyMarker::Phantom => {
                out.push(FieldSchema { name, optional, field_type: FieldType::Phantom });
                proof {
                    lemma_resolve_push_step(all_decls, i as int, seen_before, out_before, out@);
                }
            },
        }
        i += 1;
    }
    proof {
        assert(out@ + Seq::<FieldSchema>::empty() =~= out@);
    }
    Ok(RecordSchema { fields: out })
}

/// What appending one resolved field does to the schema built so far: the
/// catch-all bookkeeping carries over, and the built prefix commutes with
/// the remaining suffix.
proof fn lemma_resolve_push_step(
    decls: Seq<FieldDecl>,
    i: int,
    seen_before: bool,
    out_before: Seq<FieldSchema>,
    out_after: Seq<FieldSchema>,
)
    requires
        0 <= i < decls.len(),
        resolve_decl(decls[i], seen_before) matches Ok(Some(f)) && out_after == out_before.push(
            f,
        ),
        at_most_one_catchall(out_before),
        seen_before <==> exists|j: int|
            0 <= j < out_before.len() && (#[trigger] out_before[j].field_type) is CatchAll,
    ensures
        at_most_one_catchall(out_after),
        (exists|j: int|
            0 <= j < out_after.len() && (#[trigger] out_after[j].field_type) is CatchAll) <==> (
        seen_before || out_after.last().field_type is CatchAll),
        forall|rest: Seq<FieldSchema>|
            out_before + (seq![out_after.last()] + rest) == #[trigger] (out_after + rest),
{
    let f = out_after.last();
    assert(out_after == out_before.push(f));
    if f.field_type is CatchAll {
        assert(!seen_before);
    }
    assert forall|a: int, b: int|
        0 <= a < out_after.len() && 0 <= b < out_after.len() && out_after[a].field_type
            is CatchAll && out_after[b].field_type is CatchAll implies a == b by {
        if a < out_after.len() - 1 {
            assert(out_after[a] == out_before[a]);
        }
        if b < out_after.len() - 1 {
            assert(out_after[b] == out_before[b]);
        }
    }
    if seen_before {
        let j = choose|j: int|
            0 <= j < out_before.len() && (#[trigger] out_before[j].field_type) is CatchAll;
        assert(out_after[j].field_type is CatchAll);
    }
    assert forall|rest: Seq<FieldSchema>|
        out_before + (seq![out_after.last()] + rest) == #[trigger] (out_after + rest) by {
        assert(out_before + (seq![f] + rest) =~= out_after + rest);
    }
}

} // verus!
