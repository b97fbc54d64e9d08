//! The live-schema introspection adapter: turns what the storage layer
//! reports about an existing table's declared columns and constraints into
//! a comparable `Fingerprint`.
//!
//! The storage layer hands over plain facts per column: the declared type
//! name, NOT NULL, primary key, uniqueness, and the referenced table of a
//! foreign key. Declared storage cannot recover a column's logical element
//! type (a compressed column is just a BLOB), so the adapter maps storage
//! types to canonical logical types; fingerprint equality compares through
//! the declared storage type, which makes this lossless for comparison.

use vstd::prelude::*;

use crate::schema::{
    declared_nullable, fp_wf, storage_type, ColV, ColumnDescriptor, Fingerprint, StorageType,
    attrs_equal, fp_equal, is_ident, is_ident_char, lemma_col_at_self,
};
use crate::value::FieldType;

verus! {

/// One column as the storage layer reports it.
#[derive(Clone, Debug)]
pub struct IntrospectedColumn {
    pub name: String,
    pub declared_type: String,
    pub notnull: bool,
    pub primary_key: bool,
    pub unique: bool,
    pub foreign_key: Option<String>,
}

pub struct IntrospectedColV {
    pub name: Seq<char>,
    pub declared_type: Seq<char>,
    pub notnull: bool,
    pub primary_key: bool,
    pub unique: bool,
    pub foreign_key: Option<Seq<char>>,
}

impl View for IntrospectedColumn {
    type V = IntrospectedColV;

    open spec fn view(&self) -> IntrospectedColV {
        IntrospectedColV {
            name: self.name@,
            declared_type: self.declared_type@,
            notnull: self.notnull,
            primary_key: self.primary_key,
            unique: self.unique,
            foreign_key: match self.foreign_key {
                Some(t) => Some(t@),
                None => None,
            },
        }
    }
}

/// Why a reported schema was rejected.
#[derive(Clone, Copy, Debug, PartialEq, Eq, Structural)]
pub enum IntrospectError {
    /// A declared type other than TEXT, INTEGER, REAL or BLOB.
    UnknownType,
    /// A column or referenced-table name that is not an identifier.
    BadName,
    /// Two columns with the same name.
    DuplicateName,
    /// More than one primary key column.
    MultiplePrimaryKeys,
}

/// The storage type a declared type name denotes.
pub open spec fn type_of_name(s: Seq<char>) -> Option<StorageType> {
    if s == "TEXT"@ {
        Some(StorageType::Text)
    } else if s == "INTEGER"@ {
        Some(StorageType::Integer)
    } else if s == "REAL"@ {
        Some(StorageType::Real)
    } else if s == "BLOB"@ {
        Some(StorageType::Blob)
    } else {
        None
    }
}

/// The canonical logical type assigned to a declared storage type. BLOB
/// means a compressed sequence column, whose elements are stored as 64-bit
/// integers, so its canonical logical type is BigInt.
pub open spec fn logical_of_storage(st: StorageType) -> FieldType {
    match st {
        StorageType::Text => FieldType::Text,
        StorageType::Integer => FieldType::BigInt,
        StorageType::Real => FieldType::Numeric,
        StorageType::Blob => FieldType::BigInt,
    }
}

/// The descriptor an introspected column maps to, given its storage type.
pub open spec fn descriptor_of_introspected(c: IntrospectedColV, st: StorageType) -> ColV {
    ColV {
        name: c.name,
        logical_type: logical_of_storage(st),
        nullable: !c.notnull,
        unique: c.unique,
        primary_key: c.primary_key,
        foreign_key: c.foreign_key,
        role: None,
        compressed: st == StorageType::Blob,
    }
}

/// Compare a string with a short literal, character by character.
fn str_equals(s: &String, lit: &str) -> (r: bool)
    ensures
        r == (s@ == lit@),
{
    let a = s.as_str();
    let alen = vstd::string::StrSliceExecFns::unicode_len(a);
    let blen = vstd::string::StrSliceExecFns::unicode_len(lit);
    if alen != blen {
        return false;
    }
    let mut i: usize = 0;
    while i < alen
        invariant
            alen == a@.len(),
            alen == lit@.len(),
            a@ == s@,
            i <= alen,
            forall|k: int| 0 <= k < i ==> a@[k] == lit@[k],
        decreases alen - i,
    {
        let ca = vstd::string::StrSliceExecFns::get_char(a, i);
        let cb = vstd::string::StrSliceExecFns::get_char(lit, i);
        if ca != cb {
            return false;
        }
        i = i + 1;
    }
    proof {
        assert(s@ =~= lit@);
    }
    true
}

/// The storage type a declared type name denotes, or `None`.
fn parse_type_name(s: &String) -> (r: Option<StorageType>)
    ensures
        r == type_of_name(s@),
{
    if str_equals(s, "TEXT") {
        Some(StorageType::Text)
    } else if str_equals(s, "INTEGER") {
        Some(StorageType::Integer)
    } else if str_equals(s, "REAL") {
        Some(StorageType::Real)
    } else if str_equals(s, "BLOB") {
        Some(StorageType::Blob)
    } else {
        None
    }
}

/// Whether `s` is an identifier as this crate accepts it.
pub fn check_ident(s: &String) -> (r: bool)
    ensures
        r == is_ident(s@),
{
    let sstr = s.as_str();
    let bytes = vstd::string::StrSliceExecFns::as_bytes_vec(sstr);
    if bytes.len() == 0 {
        return false;
    }
    if !sstr.is_ascii() {
        // a non-ASCII character is not an identifier character
        proof {
            lemma_non_ascii_not_ident(s@);
        }
        return false;
    }
    proof {
        vstd::string::is_ascii_spec_bytes(sstr);
    }
    let mut i: usize = 0;
    let n = bytes.len();
    while i < n
        invariant
            n == bytes@.len(),
            n == s@.len(),
            forall|k: int| 0 <= k < n ==> bytes@[k] == (s@[k] as u8),
            vstd::string::is_ascii(sstr),
            sstr@ == s@,
            i <= n,
            forall|k: int| 0 <= k < i ==> is_ident_char(#[trigger] s@[k]),
        decreases n - i,
    {
        let b = bytes[i];
        let ok = (0x61 <= b && b <= 0x7a) || (0x41 <= b && b <= 0x5a) || (0x30 <= b && b <= 0x39)
            || b == 0x5f;
        proof {
            assert('\0' <= s@[i as int] <= '\u{7f}');
            lemma_ascii_ident_char(s@[i as int], b);
        }
        if !ok {
            return false;
        }
        i = i + 1;
    }
    let b0 = bytes[0];
    let digit0 = 0x30 <= b0 && b0 <= 0x39;
    proof {
        assert('\0' <= s@[0] <= '\u{7f}');
        lemma_ascii_ident_char(s@[0], b0);
    }
    !digit0
}

/// An ASCII character is an identifier character exactly when its code is a
/// letter, digit or underscore; and it is a digit exactly when its code is.
proof fn lemma_ascii_ident_char(c: char, b: u8)
    requires
        c <= '\u{7f}',
        b == c as u8,
    ensures
        is_ident_char(c) == ((0x61 <= b && b <= 0x7a) || (0x41 <= b && b <= 0x5a) || (0x30 <= b
            && b <= 0x39) || b == 0x5f),
        ('0' <= c <= '9') == (0x30 <= b && b <= 0x39),
{
}

/// A string with a character above ASCII is not an identifier.
proof fn lemma_non_ascii_not_ident(s: Seq<char>)
    requires
        !vstd::utf8::is_ascii_chars(s),
    ensures
        !is_ident(s),
{
    let i = choose|i: int| 0 <= i < s.len() && !('\0' <= #[trigger] s[i] <= '\u{7f}');
    assert(!is_ident_char(s[i]));
}

/// Build the actual-schema fingerprint from what introspection reports.
/// Success is owed exactly when every declared type is known, every name is
/// an identifier, names are unique, and at most one column is the primary
/// key; the result is then well-formed and maps each reported column in
/// order through `descriptor_of_introspected`.
pub fn fingerprint_from_introspection(cols: &Vec<IntrospectedColumn>) -> (r: Result<
    Fingerprint,
    IntrospectError,
>)
    ensures
        r matches Ok(fp) ==> {
            &&& fp_wf(fp@)
            &&& fp@.len() == cols@.len()
            &&& forall|i: int|
                0 <= i < cols@.len() ==> (type_of_name(
                    (#[trigger] cols@[i])@.declared_type,
                ) matches Some(st) && fp@[i] == descriptor_of_introspected(cols@[i]@, st))
        },
        r matches Err(e) ==> match e {
            IntrospectError::UnknownType => exists|i: int|
                0 <= i < cols@.len() && type_of_name((#[trigger] cols@[i])@.declared_type)
                    is None,
            IntrospectError::BadName => exists|i: int|
                0 <= i < cols@.len() && (!is_ident((#[trigger] cols@[i])@.name) || (cols@[i]@
                    .foreign_key matches Some(t) && !is_ident(t))),
            IntrospectError::DuplicateName => exists|i: int, j: int|
                0 <= i < cols@.len() && 0 <= j < cols@.len() && i != j && (#[trigger] cols@[i])@
                    .name == (#[trigger] cols@[j])@.name,
            IntrospectError::MultiplePrimaryKeys => exists|i: int, j: int|
                0 <= i < cols@.len() && 0 <= j < cols@.len() && i != j
                    && (#[trigger] cols@[i])@.primary_key && (#[trigger] cols@[j])@.primary_key,
        },
{
    let mut out: Vec<ColumnDescriptor> = Vec::new();
    let mut saw_pk: bool = false;
    let ghost cv = cols@;
    let mut i: usize = 0;
    while i < cols.len()
        invariant
            cv == cols@,
            i <= cv.len(),
            out@.len() == i,
            forall|k: int|
                0 <= k < i ==> (type_of_name((#[trigger] cv[k])@.declared_type) matches Some(
                    st,
                ) && out@[k]@ == descriptor_of_introspected(cv[k]@, st)),
            forall|k: int| 0 <= k < i ==> is_ident((#[trigger] out@[k])@.name),
            forall|k: int|
                0 <= k < i ==> match (#[trigger] out@[k])@.foreign_key {
                    Some(t) => is_ident(t),
                    None => true,
                },
            forall|k: int, l: int|
                0 <= k < i && 0 <= l < i && k != l ==> (#[trigger] out@[k])@.name
                    != (#[trigger] out@[l])@.name,
            saw_pk == exists|k: int| 0 <= k < i && (#[trigger] cv[k])@.primary_key,
            forall|k: int, l: int|
                0 <= k < i && 0 <= l < i && (#[trigger] cv[k])@.primary_key
                    && (#[trigger] cv[l])@.primary_key ==> k == l,
            forall|k: int| 0 <= k < i ==> (#[trigger] out@[k])@.name == cv[k]@.name,
            forall|k: int| 0 <= k < i ==> (#[trigger] out@[k])@.primary_key == cv[k]@.primary_key,
        decreases cv.len() - i,
    {
        let c = &cols[i];
        let st = match parse_type_name(&c.declared_type) {
            Some(st) => st,
            None => {
                return Err(IntrospectError::UnknownType);
            },
        };
        if !check_ident(&c.name) {
            return Err(IntrospectError::BadName);
        }
        let fk: Option<String> = match &c.foreign_key {
            Some(t) => {
                if !check_ident(t) {
                    return Err(IntrospectError::BadName);
                }
                Some(t.clone())
            },
            None => None,
        };
        match crate::schema::find_column(&out, &c.name) {
            Some(k) => {
                proof {
                    assert(out@[k as int]@.name == cv[k as int]@.name);
                }
                return Err(IntrospectError::DuplicateName);
            },
            None => {},
        }
        if c.primary_key {
            if saw_pk {
                proof {
                    let k = choose|k: int| 0 <= k < i && (#[trigger] cv[k])@.primary_key;
                    assert(cv[k]@.primary_key && cv[i as int]@.primary_key && k != i);
                }
                return Err(IntrospectError::MultiplePrimaryKeys);
            }
            saw_pk = true;
        }
        let logical_type = match st {
            StorageType::Text => FieldType::Text,
            StorageType::Integer => FieldType::BigInt,
            StorageType::Real => FieldType::Numeric,
            StorageType::Blob => FieldType::BigInt,
        };
        let desc = ColumnDescriptor {
            name: c.name.clone(),
            logical_type,
            nullable: !c.notnull,
            unique: c.unique,
            primary_key: c.primary_key,
            foreign_key: fk,
            role: None,
            compressed: match st {
                StorageType::Blob => true,
                _ => false,
            },
        };
        proof {
            assert(desc@ == descriptor_of_introspected(cv[i as int]@, st));
        }
        out.push(desc);
        i = i + 1;
    }
    let fp = Fingerprint { columns: out };
    proof {
        assert forall|k: int| 0 <= k < fp@.len() implies is_ident(#[trigger] fp@[k].name) by {
            assert(fp@[k] == fp.columns@[k]@);
        }
        assert forall|k: int| 0 <= k < fp@.len() implies match #[trigger] fp@[k].foreign_key {
            Some(t) => is_ident(t),
            None => true,
        } by {
            assert(fp@[k] == fp.columns@[k]@);
        }
        assert forall|k: int, l: int|
            0 <= k < fp@.len() && 0 <= l < fp@.len() && k != l implies (#[trigger] fp@[k].name)
            != (#[trigger] fp@[l].name) by {
            assert(fp@[k] == fp.columns@[k]@);
            assert(fp@[l] == fp.columns@[l]@);
        }
        assert forall|k: int, l: int|
            0 <= k < fp@.len() && 0 <= l < fp@.len() && (#[trigger] fp@[k].primary_key)
                && (#[trigger] fp@[l].primary_key) implies k == l by {
            assert(fp@[k] == fp.columns@[k]@);
            assert(fp@[l] == fp.columns@[l]@);
            assert(cv[k]@.primary_key && cv[l]@.primary_key);
        }
        assert forall|k: int, l: int|
            0 <= k < fp@.len() && 0 <= l < fp@.len() && (#[trigger] fp@[k].role) == Some(
                crate::schema::TimeRole::CreatedAt,
            ) && (#[trigger] fp@[l].role) == Some(crate::schema::TimeRole::CreatedAt) implies k
            == l by {
            assert(fp@[k] == fp.columns@[k]@);
        }
        assert forall|k: int, l: int|
            0 <= k < fp@.len() && 0 <= l < fp@.len() && (#[trigger] fp@[k].role) == Some(
                crate::schema::TimeRole::UpdatedAt,
            ) && (#[trigger] fp@[l].role) == Some(crate::schema::TimeRole::UpdatedAt) implies k
            == l by {
            assert(fp@[k] == fp.columns@[k]@);
        }
    }
    Ok(fp)
}

/// The introspection image of a descriptor: what the storage layer would
/// report back for a column declared from it.
pub open spec fn introspection_image(c: ColV) -> IntrospectedColV {
    IntrospectedColV {
        name: c.name,
        declared_type: crate::schema::type_text(storage_type(c)),
        notnull: !declared_nullable(c),
        primary_key: c.primary_key,
        unique: c.unique,
        foreign_key: c.foreign_key,
    }
}

/// Normalization is sound: a well-formed fingerprint, declared and then
/// introspected back through its image, is equal (as a fingerprint) to the
/// original. This is what makes a second migration run after a rebuild a
/// no-op.
pub proof fn lemma_introspection_roundtrip(s: Seq<ColV>)
    requires
        fp_wf(s),
    ensures
        ({
            let back = Seq::new(
                s.len(),
                |i: int|
                    descriptor_of_introspected(
                        introspection_image(s[i]),
                        storage_type(s[i]),
                    ),
            );
            fp_wf(back) && fp_equal(back, s)
        }),
{
    let back = Seq::new(
        s.len(),
        |i: int| descriptor_of_introspected(introspection_image(s[i]), storage_type(s[i])),
    );
    assert forall|i: int| 0 <= i < s.len() implies (#[trigger] back[i]).name == s[i].name
        && attrs_equal(back[i], s[i]) by {
        assert(storage_type(back[i]) == storage_type(s[i]));
    }
    assert forall|i: int| 0 <= i < back.len() implies is_ident(#[trigger] back[i].name) by {}
    assert forall|k: int, l: int|
        0 <= k < back.len() && 0 <= l < back.len() && k != l implies (#[trigger] back[k].name)
        != (#[trigger] back[l].name) by {}
    assert(fp_wf(back));
    assert forall|i: int| 0 <= i < back.len() implies crate::schema::has_col(
        s,
        #[trigger] back[i].name,
    ) by {
        lemma_col_at_self(s, i);
    }
    assert forall|j: int| 0 <= j < s.len() implies crate::schema::has_col(
        back,
        #[trigger] s[j].name,
    ) by {
        lemma_col_at_self(back, j);
    }
    assert forall|i: int| 0 <= i < back.len() implies attrs_equal(
        back[i],
        crate::schema::col_at(s, #[trigger] back[i].name),
    ) by {
        lemma_col_at_self(s, i);
    }
}

} // verus!
