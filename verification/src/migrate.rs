//! The migration engine: classify the difference between the desired and
//! actual fingerprint of a table, and transform existing rows to the
//! desired schema during a safe rebuild — including decoding and
//! re-encoding columns whose compressed flag changed.
//!
//! The engine only decides and transforms values; creating the shadow
//! table, streaming rows, inserting, and the rename-swap are statement
//! executions owned by the storage layer around this crate. Any failure
//! here aborts the table's rebuild before the swap, so the original table
//! stays untouched.

use vstd::prelude::*;

use crate::codec::{compress_spec, decompress_spec, DecodeError, I64Codec, MAX_SEQ_LEN};
use crate::numtext::{int_list_text, int_text, parse_i64_text, parse_int_list};
use crate::schema::{
    attrs_equal, col_at, col_idx, fp_equal, fp_wf, has_col, ColV, ColumnDescriptor, Fingerprint,
    SchemaDiff, added_names, changed_names, diff_fingerprints, find_column, removed_names,
};
use crate::text::chars_of;
use crate::value::{FieldType, Value, ValueV};
use vstd::string::{StrSliceExecFns, StringSliceAdditionalSpecFns};

verus! {

/// Why a rebuild was aborted.
#[derive(Clone, Copy, Debug, PartialEq, Eq, Structural)]
pub enum MigrationError {
    /// A value could not be reinterpreted under the changed column type.
    Coercion,
    /// A compressed column's blob failed to decode.
    Decode(DecodeError),
}

/// What the engine decides for one table.
pub enum MigrationPlan {
    /// The table does not exist: emit its CREATE statement; no data moves.
    CreateTable,
    /// The fingerprints are equal: nothing to do.
    NoChange,
    /// A structural rebuild with the given change sets.
    Rebuild(SchemaDiff),
}

/// The outcome reported to the caller for one table.
#[derive(Clone, Debug)]
pub enum MigrationAction {
    /// The table did not exist and was created: a zero-downtime case, not
    /// a data migration.
    TableCreated,
    /// No changes: the schemas already matched.
    SchemaMatched,
    /// A rebuild was performed, with the change sets by column name.
    DataMigrated { added: Vec<String>, removed: Vec<String>, changed: Vec<String> },
    /// The rebuild was aborted; the original table is untouched.
    Failed { error: MigrationError },
}

/// Decide what a table needs: create it when it is absent, nothing when
/// the actual schema equals the desired one, and otherwise a rebuild with
/// the exact change sets.
pub fn plan_migration(desired: &Fingerprint, actual: Option<&Fingerprint>) -> (r: MigrationPlan)
    requires
        fp_wf(desired@),
        (match actual {
            Some(a) => fp_wf(a@),
            None => true,
        }),
    ensures
        (r is CreateTable <==> actual is None),
        (match actual {
            Some(a) => {
                &&& (r is NoChange <==> fp_equal(desired@, a@))
                &&& (r matches MigrationPlan::Rebuild(d) ==> {
                    &&& !fp_equal(desired@, a@)
                    &&& d.added.deep_view() == added_names(desired@, a@)
                    &&& d.removed.deep_view() == removed_names(desired@, a@)
                    &&& d.changed.deep_view() == changed_names(desired@, a@)
                })
            },
            None => true,
        }),
{
    match actual {
        None => MigrationPlan::CreateTable,
        Some(a) => {
            let d = diff_fingerprints(desired, a);
            if d.added.len() == 0 && d.removed.len() == 0 && d.changed.len() == 0 {
                MigrationPlan::NoChange
            } else {
                MigrationPlan::Rebuild(d)
            }
        },
    }
}

/// Running the engine against an unchanged schema is a no-op: a
/// well-formed fingerprint always equals itself, so `plan_migration` on it
/// returns `NoChange` and no table is touched.
pub proof fn lemma_noop_migration(s: Seq<ColV>)
    requires
        fp_wf(s),
    ensures
        fp_equal(s, s),
{
    crate::schema::lemma_fp_equal_refl(s);
}

/// The exact result of transforming one retained column's stored value
/// from its actual declaration `a` to its desired declaration `d`.
#[verifier::opaque]
pub open spec fn transform_value_spec(d: ColV, a: ColV, v: ValueV) -> Result<
    ValueV,
    MigrationError,
> {
    if attrs_equal(d, a) {
        // unchanged column: pass the stored value through
        Ok(v)
    } else if d.compressed && a.compressed {
        // both sides compressed: only constraints changed
        Ok(v)
    } else if d.compressed && !a.compressed {
        // compression turned on: decode the stored text list, re-encode; a
        // list too long for the blob format aborts the rebuild
        match v {
            ValueV::Null => Ok(ValueV::Null),
            ValueV::Text(cs) => match parse_int_list(vstd::utf8::encode_utf8(cs)) {
                Some(xs) => {
                    if xs.len() <= MAX_SEQ_LEN {
                        Ok(ValueV::Blob(compress_spec(xs)))
                    } else {
                        Err(MigrationError::Decode(DecodeError::TooLong))
                    }
                },
                None => Err(MigrationError::Coercion),
            },
            _ => Err(MigrationError::Coercion),
        }
    } else if !d.compressed && a.compressed {
        // compression turned off: decode the blob, store the text list
        match v {
            ValueV::Null => Ok(ValueV::Null),
            ValueV::Blob(b) => match decompress_spec(b) {
                Ok(xs) => Ok(ValueV::Text(chars_of(int_list_text(xs)))),
                Err(e) => Err(MigrationError::Decode(e)),
            },
            _ => Err(MigrationError::Coercion),
        }
    } else {
        // other attribute changes: best-effort value coercion
        coerce_spec(v, d.logical_type)
    }
}

/// Best-effort reinterpretation of a stored value under a new logical
/// type. Values are in storage form (a Boolean column stores Integer 0/1).
/// A coercion that cannot preserve the value's meaning is an error; in
/// particular nothing can be turned into a Numeric, whose bit patterns
/// this crate does not compute.
#[verifier::opaque]
pub open spec fn coerce_spec(v: ValueV, to: FieldType) -> Result<ValueV, MigrationError> {
    match v {
        ValueV::Null => Ok(ValueV::Null),
        ValueV::Integer(i) => match to {
            FieldType::Integer => Ok(ValueV::Integer(i)),
            FieldType::BigInt => Ok(ValueV::Integer(i)),
            FieldType::Boolean => {
                if i == 0 || i == 1 {
                    Ok(ValueV::Integer(i))
                } else {
                    Err(MigrationError::Coercion)
                }
            },
            FieldType::Text => Ok(ValueV::Text(chars_of(int_text(i as int)))),
            FieldType::Numeric => Err(MigrationError::Coercion),
        },
        ValueV::Real(b) => match to {
            FieldType::Numeric => Ok(ValueV::Real(b)),
            _ => Err(MigrationError::Coercion),
        },
        ValueV::Text(cs) => match to {
            FieldType::Text => Ok(ValueV::Text(cs)),
            FieldType::Integer | FieldType::BigInt => match parse_i64_text(
                vstd::utf8::encode_utf8(cs),
            ) {
                Some(x) => Ok(ValueV::Integer(x)),
                None => Err(MigrationError::Coercion),
            },
            _ => Err(MigrationError::Coercion),
        },
        ValueV::Blob(_) => Err(MigrationError::Coercion),
        ValueV::Boolean(b) => match to {
            FieldType::Boolean | FieldType::Integer | FieldType::BigInt => Ok(
                ValueV::Integer(
                    if b {
                        1
                    } else {
                        0
                    },
                ),
            ),
            FieldType::Text => Ok(
                ValueV::Text(
                    chars_of(
                        int_text(
                            if b {
                                1
                            } else {
                                0
                            },
                        ),
                    ),
                ),
            ),
            _ => Err(MigrationError::Coercion),
        },
    }
}

/// Coerce one stored value to a new logical type; mirrors `coerce_spec`.
fn coerce_value(v: &Value, to: FieldType) -> (r: Result<Value, MigrationError>)
    ensures
        (match r {
            Ok(out) => coerce_spec(v@, to) == Ok::<ValueV, MigrationError>(out@),
            Err(e) => coerce_spec(v@, to) == Err::<ValueV, MigrationError>(e),
        }),
{
    proof {
        reveal(coerce_spec);
    }
    match v {
        Value::Null => Ok(Value::Null),
        Value::Integer(i) => match to {
            FieldType::Integer => Ok(Value::Integer(*i)),
            FieldType::BigInt => Ok(Value::Integer(*i)),
            FieldType::Boolean => {
                if *i == 0 || *i == 1 {
                    Ok(Value::Integer(*i))
                } else {
                    Err(MigrationError::Coercion)
                }
            },
            FieldType::Text => Ok(Value::Text(int_to_text(*i))),
            FieldType::Numeric => Err(MigrationError::Coercion),
        },
        Value::Real(b) => match to {
            FieldType::Numeric => Ok(Value::Real(*b)),
            _ => Err(MigrationError::Coercion),
        },
        Value::Text(s) => match to {
            FieldType::Text => Ok(Value::Text(s.clone())),
            FieldType::Integer | FieldType::BigInt => {
                let bytes = StrSliceExecFns::as_bytes_vec(s.as_str());
                let n = bytes.len();
                proof {
                    assert(bytes@.subrange(0, n as int) =~= vstd::utf8::encode_utf8(s@));
                }
                match crate::numtext::parse_i64_range(&bytes, 0, n) {
                    Some(x) => Ok(Value::Integer(x)),
                    None => Err(MigrationError::Coercion),
                }
            },
            _ => Err(MigrationError::Coercion),
        },
        Value::Blob(_) => Err(MigrationError::Coercion),
        Value::Boolean(b) => match to {
            FieldType::Boolean | FieldType::Integer | FieldType::BigInt => Ok(
                Value::Integer(
                    if *b {
                        1
                    } else {
                        0
                    },
                ),
            ),
            FieldType::Text => Ok(
                Value::Text(
                    int_to_text(
                        if *b {
                            1
                        } else {
                            0
                        },
                    ),
                ),
            ),
            _ => Err(MigrationError::Coercion),
        },
    }
}

/// The decimal text of `x` as a string.
fn int_to_text(x: i64) -> (r: String)
    ensures
        r@ == chars_of(int_text(x as int)),
{
    let mut buf: Vec<u8> = Vec::new();
    crate::numtext::write_i64_dec(&mut buf, x);
    proof {
        crate::numtext::lemma_int_text_no_separator(x as int);
        assert(buf@ =~= int_text(x as int));
    }
    crate::text::ascii_to_string(buf)
}

/// Transform one retained column's value; mirrors `transform_value_spec`.
pub fn transform_value(d: &ColumnDescriptor, a: &ColumnDescriptor, v: &Value) -> (r: Result<
    Value,
    MigrationError,
>)
    ensures
        (match r {
            Ok(out) => transform_value_spec(d@, a@, v@) == Ok::<ValueV, MigrationError>(out@),
            Err(e) => transform_value_spec(d@, a@, v@) == Err::<ValueV, MigrationError>(e),
        }),
{
    proof {
        reveal(transform_value_spec);
    }
    if crate::schema::attrs_equal_exec(d, a) {
        Ok(v.dup())
    } else if d.compressed && a.compressed {
        Ok(v.dup())
    } else if d.compressed && !a.compressed {
        match v {
            Value::Null => Ok(Value::Null),
            Value::Text(s) => {
                match crate::numtext::parse_int_list_str(s.as_str()) {
                    Some(xs) => {
                        if xs.len() > MAX_SEQ_LEN {
                            return Err(MigrationError::Decode(DecodeError::TooLong));
                        }
                        let codec = I64Codec::default();
                        match codec.compress(&xs) {
                            Ok(blob) => Ok(Value::Blob(blob)),
                            Err(e) => Err(MigrationError::Decode(e)),
                        }
                    },
                    None => Err(MigrationError::Coercion),
                }
            },
            _ => Err(MigrationError::Coercion),
        }
    } else if !d.compressed && a.compressed {
        match v {
            Value::Null => Ok(Value::Null),
            Value::Blob(b) => {
                let codec = I64Codec::default();
                match codec.decompress(b.as_slice()) {
                    Ok(xs) => Ok(Value::Text(crate::numtext::int_list_to_string(&xs))),
                    Err(e) => Err(MigrationError::Decode(e)),
                }
            },
            _ => Err(MigrationError::Coercion),
        }
    } else {
        coerce_value(v, d.logical_type)
    }
}

/// The transform of the desired column at `i`, given the actual
/// fingerprint and the row's stored values aligned with it: a column the
/// actual table lacks takes Null, and a retained column's value runs
/// through `transform_value_spec`.
#[verifier::opaque]
pub open spec fn col_result(
    d: Seq<ColV>,
    a: Seq<ColV>,
    row: Seq<ValueV>,
    i: int,
) -> Result<ValueV, MigrationError> {
    if has_col(a, d[i].name) {
        transform_value_spec(d[i], col_at(a, d[i].name), row[col_idx(a, d[i].name)])
    } else {
        Ok(ValueV::Null)
    }
}

/// Build the transformed row for the desired schema from one existing row.
/// Columns in `removed` are dropped by never being read; columns in
/// `added` become Null; columns in `changed` are re-encoded or coerced.
/// Any failure aborts the row — and with it the table's rebuild.
pub fn transform_row(desired: &Fingerprint, actual: &Fingerprint, row: &Vec<Value>) -> (r: Result<
    Vec<Value>,
    MigrationError,
>)
    requires
        fp_wf(desired@),
        fp_wf(actual@),
        row@.len() == actual@.len(),
    ensures
        (r matches Ok(out) ==> {
            &&& out@.len() == desired@.len()
            &&& forall|i: int|
                0 <= i < desired@.len() ==> col_result(desired@, actual@, row.deep_view(), i)
                    == Ok::<ValueV, MigrationError>((#[trigger] out@[i])@)
        }),
        (r matches Err(e) ==> exists|i: int|
            0 <= i < desired@.len() && #[trigger] col_result(desired@, actual@, row.deep_view(), i)
                == Err::<ValueV, MigrationError>(e) && (forall|j: int|
                0 <= j < i ==> col_result(desired@, actual@, row.deep_view(), j) is Ok)),
        (r is Ok <==> forall|i: int|
            0 <= i < desired@.len() ==> #[trigger] col_result(
                desired@,
                actual@,
                row.deep_view(),
                i,
            ) is Ok),
{
    let ghost dv = desired@;
    let ghost av = actual@;
    let ghost rv = row.deep_view();
    let mut out: Vec<Value> = Vec::new();
    let mut i: usize = 0;
    while i < desired.columns.len()
        invariant
            fp_wf(dv),
            fp_wf(av),
            dv == desired@,
            av == actual@,
            rv == row.deep_view(),
            rv.len() == av.len(),
            row@.len() == av.len(),
            i <= dv.len(),
            dv.len() == desired.columns@.len(),
            out@.len() == i,
            forall|k: int|
                0 <= k < i ==> col_result(dv, av, rv, k) == Ok::<ValueV, MigrationError>(
                    (#[trigger] out@[k])@,
                ),
        decreases dv.len() - i,
    {
        let dcol = &desired.columns[i];
        proof {
            assert(dv[i as int] == desired.columns@[i as int]@);
        }
        match find_column(&actual.columns, &dcol.name) {
            None => {
                proof {
                    reveal(col_result);
                    if has_col(av, dv[i as int].name) {
                        let j = col_idx(av, dv[i as int].name);
                        assert(av[j].name == dv[i as int].name);
                        assert(false);
                    }
                    assert(col_result(dv, av, rv, i as int) == Ok::<ValueV, MigrationError>(
                        ValueV::Null,
                    ));
                }
                out.push(Value::Null);
            },
            Some(j) => {
                proof {
                    assert(av[j as int].name == dv[i as int].name);
                    assert(has_col(av, dv[i as int].name));
                    let k = col_idx(av, dv[i as int].name);
                    assert(av[k].name == dv[i as int].name);
                    assert(k == j);
                    assert(col_at(av, dv[i as int].name) == av[j as int]);
                    assert(rv[j as int] == row@[j as int]@);
                }
                match transform_value(dcol, &actual.columns[j], &row[j]) {
                    Ok(newv) => {
                        proof {
                            reveal(col_result);
                            assert(col_result(dv, av, rv, i as int) == Ok::<
                                ValueV,
                                MigrationError,
                            >(newv@));
                        }
                        out.push(newv);
                    },
                    Err(e) => {
                        proof {
                            reveal(col_result);
                            assert(col_result(dv, av, rv, i as int) == Err::<
                                ValueV,
                                MigrationError,
                            >(e));
                            assert forall|j: int| 0 <= j < i implies col_result(
                                dv,
                                av,
                                rv,
                                j,
                            ) is Ok by {
                                assert(col_result(dv, av, rv, j) == Ok::<ValueV, MigrationError>(
                                    out@[j]@,
                                ));
                            }
                            assert(!(col_result(dv, av, rv, i as int) is Ok));
                        }
                        return Err(e);
                    },
                }
            },
        }
        i = i + 1;
    }
    proof {
        assert forall|k: int| 0 <= k < dv.len() implies #[trigger] col_result(dv, av, rv, k)
            is Ok by {
            assert(col_result(dv, av, rv, k) == Ok::<ValueV, MigrationError>(out@[k]@));
        }
    }
    Ok(out)
}

} // verus!
