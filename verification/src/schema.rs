//! Schema fingerprints: the normalized, comparable snapshot of a table's
//! column descriptors, with equality, diff classification, and emission of
//! the CREATE statement.
//!
//! Normalization: live introspection sees a table's *declared* storage, not
//! the struct metadata it came from, so columns are compared by the storage
//! type they are declared with (`storage_type`), by nullability as declared
//! (a primary key is never declared NOT NULL), and by the unique / primary
//! key / foreign key flags and the compressed flag. The created/updated-at
//! role only adds a DEFAULT clause and takes no part in equality.

use vstd::prelude::*;

use crate::value::FieldType;

verus! {

/// Timestamp role of a column.
#[derive(Clone, Copy, Debug, PartialEq, Eq, Structural)]
pub enum TimeRole {
    CreatedAt,
    UpdatedAt,
}

/// How a column is physically declared.
#[derive(Clone, Copy, Debug, PartialEq, Eq, Structural)]
pub enum StorageType {
    Text,
    Integer,
    Real,
    Blob,
}

/// Static, per-field column metadata, supplied by the schema-derivation
/// layer as plain data.
#[derive(Clone, Debug)]
pub struct ColumnDescriptor {
    pub name: String,
    pub logical_type: FieldType,
    pub nullable: bool,
    pub unique: bool,
    pub primary_key: bool,
    pub foreign_key: Option<String>,
    pub role: Option<TimeRole>,
    pub compressed: bool,
}

/// The mathematical view of a column descriptor.
pub struct ColV {
    pub name: Seq<char>,
    pub logical_type: FieldType,
    pub nullable: bool,
    pub unique: bool,
    pub primary_key: bool,
    pub foreign_key: Option<Seq<char>>,
    pub role: Option<TimeRole>,
    pub compressed: bool,
}

impl View for ColumnDescriptor {
    type V = ColV;

    open spec fn view(&self) -> ColV {
        ColV {
            name: self.name@,
            logical_type: self.logical_type,
            nullable: self.nullable,
            unique: self.unique,
            primary_key: self.primary_key,
            foreign_key: match self.foreign_key {
                Some(t) => Some(t@),
                None => None,
            },
            role: self.role,
            compressed: self.compressed,
        }
    }
}

/// The storage type a column is declared with: a compressed column is
/// always a BLOB whatever its logical element type; a foreign key is always
/// TEXT; otherwise the logical type decides (Boolean and the integer types
/// are INTEGER, Numeric is REAL).
pub open spec fn storage_type(c: ColV) -> StorageType {
    if c.compressed {
        StorageType::Blob
    } else if c.foreign_key is Some {
        StorageType::Text
    } else {
        match c.logical_type {
            FieldType::Text => StorageType::Text,
            FieldType::Integer => StorageType::Integer,
            FieldType::BigInt => StorageType::Integer,
            FieldType::Numeric => StorageType::Real,
            FieldType::Boolean => StorageType::Integer,
        }
    }
}

/// Nullability as declared: a primary key column is not declared NOT NULL,
/// so it reads back as nullable.
pub open spec fn declared_nullable(c: ColV) -> bool {
    c.nullable || c.primary_key
}

/// The comparable attributes of two columns agree. The logical type is
/// compared through the declared storage type (see the module doc), and the
/// timestamp role is deliberately left out.
pub open spec fn attrs_equal(a: ColV, b: ColV) -> bool {
    &&& storage_type(a) == storage_type(b)
    &&& declared_nullable(a) == declared_nullable(b)
    &&& a.unique == b.unique
    &&& a.primary_key == b.primary_key
    &&& a.foreign_key == b.foreign_key
    &&& a.compressed == b.compressed
}

/// A SQL identifier as this crate accepts it: ASCII letters, digits and
/// underscores, starting with a letter or underscore.
pub open spec fn is_ident_char(c: char) -> bool {
    ('a' <= c <= 'z') || ('A' <= c <= 'Z') || ('0' <= c <= '9') || c == '_'
}

pub open spec fn is_ident(s: Seq<char>) -> bool {
    &&& s.len() > 0
    &&& forall|i: int| 0 <= i < s.len() ==> is_ident_char(#[trigger] s[i])
    &&& !('0' <= s[0] <= '9')
}

/// Well-formed fingerprint contents: identifier names, unique among each
/// other; at most one primary key; at most one column per timestamp role.
pub open spec fn fp_wf(s: Seq<ColV>) -> bool {
    &&& forall|i: int| 0 <= i < s.len() ==> is_ident(#[trigger] s[i].name)
    &&& forall|i: int|
        0 <= i < s.len() ==> match #[trigger] s[i].foreign_key {
            Some(t) => is_ident(t),
            None => true,
        }
    &&& forall|i: int, j: int|
        0 <= i < s.len() && 0 <= j < s.len() && i != j ==> (#[trigger] s[i].name)
            != (#[trigger] s[j].name)
    &&& forall|i: int, j: int|
        0 <= i < s.len() && 0 <= j < s.len() && (#[trigger] s[i].primary_key)
            && (#[trigger] s[j].primary_key) ==> i == j
    &&& forall|i: int, j: int|
        0 <= i < s.len() && 0 <= j < s.len() && (#[trigger] s[i].role) == Some(TimeRole::CreatedAt)
            && (#[trigger] s[j].role) == Some(TimeRole::CreatedAt) ==> i == j
    &&& forall|i: int, j: int|
        0 <= i < s.len() && 0 <= j < s.len() && (#[trigger] s[i].role) == Some(TimeRole::UpdatedAt)
            && (#[trigger] s[j].role) == Some(TimeRole::UpdatedAt) ==> i == j
}

/// A table's fingerprint: its column descriptors in declaration order.
#[derive(Clone, Debug)]
pub struct Fingerprint {
    pub columns: Vec<ColumnDescriptor>,
}

impl View for Fingerprint {
    type V = Seq<ColV>;

    open spec fn view(&self) -> Seq<ColV> {
        Seq::new(self.columns@.len(), |i: int| self.columns@[i]@)
    }
}

pub open spec fn has_col(s: Seq<ColV>, name: Seq<char>) -> bool {
    exists|i: int| 0 <= i < s.len() && (#[trigger] s[i].name) == name
}

pub open spec fn col_idx(s: Seq<ColV>, name: Seq<char>) -> int {
    choose|i: int| 0 <= i < s.len() && (#[trigger] s[i].name) == name
}

pub open spec fn col_at(s: Seq<ColV>, name: Seq<char>) -> ColV {
    s[col_idx(s, name)]
}

/// Fingerprint equality: the same column names on both sides, and for every
/// shared name the comparable attributes agree. Column order is irrelevant.
pub open spec fn fp_equal(a: Seq<ColV>, b: Seq<ColV>) -> bool {
    &&& forall|i: int| 0 <= i < a.len() ==> has_col(b, #[trigger] a[i].name)
    &&& forall|j: int| 0 <= j < b.len() ==> has_col(a, #[trigger] b[j].name)
    &&& forall|i: int| 0 <= i < a.len() ==> attrs_equal(a[i], col_at(b, #[trigger] a[i].name))
}

/// In a well-formed fingerprint, looking a column up by its own name finds
/// that column.
pub proof fn lemma_col_at_self(s: Seq<ColV>, i: int)
    requires
        fp_wf(s),
        0 <= i < s.len(),
    ensures
        has_col(s, s[i].name),
        col_idx(s, s[i].name) == i,
        col_at(s, s[i].name) == s[i],
{
    assert(0 <= i < s.len() && s[i].name == s[i].name);
    let j = col_idx(s, s[i].name);
    assert(0 <= j < s.len() && s[j].name == s[i].name);
    assert(j == i);
}

/// Every well-formed fingerprint equals itself.
pub proof fn lemma_fp_equal_refl(s: Seq<ColV>)
    requires
        fp_wf(s),
    ensures
        fp_equal(s, s),
{
    assert forall|i: int| 0 <= i < s.len() implies has_col(s, #[trigger] s[i].name) by {
        lemma_col_at_self(s, i);
    }
    assert forall|i: int| 0 <= i < s.len() implies attrs_equal(
        s[i],
        col_at(s, #[trigger] s[i].name),
    ) by {
        lemma_col_at_self(s, i);
    }
}

/// Index of the column called `name`, if any.
pub fn find_column(columns: &Vec<ColumnDescriptor>, name: &String) -> (r: Option<usize>)
    ensures
        (match r {
            Some(i) => i < columns@.len() && columns@[i as int]@.name == name@,
            None => forall|i: int|
                0 <= i < columns@.len() ==> (#[trigger] columns@[i]@).name != name@,
        }),
{
    let mut i: usize = 0;
    while i < columns.len()
        invariant
            i <= columns@.len(),
            forall|j: int| 0 <= j < i ==> (#[trigger] columns@[j]@).name != name@,
        decreases columns@.len() - i,
    {
        let hit = columns[i].name == *name;
        proof {
            assert(columns@[i as int]@.name == columns@[i as int].name@);
        }
        if hit {
            return Some(i);
        }
        i = i + 1;
    }
    None
}

/// The storage type `c` is declared with.
pub fn storage_type_of(c: &ColumnDescriptor) -> (r: StorageType)
    ensures
        r == storage_type(c@),
{
    if c.compressed {
        StorageType::Blob
    } else if c.foreign_key.is_some() {
        StorageType::Text
    } else {
        match c.logical_type {
            FieldType::Text => StorageType::Text,
            FieldType::Integer => StorageType::Integer,
            FieldType::BigInt => StorageType::Integer,
            FieldType::Numeric => StorageType::Real,
            FieldType::Boolean => StorageType::Integer,
        }
    }
}

/// Whether the comparable attributes of two columns agree.
pub fn attrs_equal_exec(a: &ColumnDescriptor, b: &ColumnDescriptor) -> (r: bool)
    ensures
        r == attrs_equal(a@, b@),
{
    let st = storage_type_of(a) == storage_type_of(b);
    let nul = (a.nullable || a.primary_key) == (b.nullable || b.primary_key);
    let fk = match (&a.foreign_key, &b.foreign_key) {
        (Some(x), Some(y)) => *x == *y,
        (None, None) => true,
        _ => false,
    };
    st && nul && a.unique == b.unique && a.primary_key == b.primary_key && fk && a.compressed
        == b.compressed
}

/// Whether two well-formed fingerprints are equal.
pub fn fingerprints_equal(a: &Fingerprint, b: &Fingerprint) -> (r: bool)
    requires
        fp_wf(a@),
        fp_wf(b@),
    ensures
        r == fp_equal(a@, b@),
{
    let mut i: usize = 0;
    while i < a.columns.len()
        invariant
            fp_wf(a@),
            fp_wf(b@),
            i <= a@.len(),
            a@.len() == a.columns@.len(),
            forall|k: int|
                0 <= k < i ==> has_col(b@, (#[trigger] a@[k]).name) && attrs_equal(
                    a@[k],
                    col_at(b@, a@[k].name),
                ),
        decreases a@.len() - i,
    {
        match find_column(&b.columns, &a.columns[i].name) {
            None => {
                proof {
                    assert(a@[i as int].name == a.columns@[i as int]@.name);
                    if has_col(b@, a@[i as int].name) {
                        let j = col_idx(b@, a@[i as int].name);
                        assert(b@[j].name == a@[i as int].name);
                        assert(false);
                    }
                }
                return false;
            },
            Some(j) => {
                proof {
                    assert(b@[j as int].name == a@[i as int].name);
                    assert(has_col(b@, a@[i as int].name));
                    let k = col_idx(b@, a@[i as int].name);
                    assert(b@[k].name == a@[i as int].name);
                    assert(k == j);
                }
                if !attrs_equal_exec(&a.columns[i], &b.columns[j]) {
                    return false;
                }
            },
        }
        i = i + 1;
    }
    let mut j: usize = 0;
    while j < b.columns.len()
        invariant
            fp_wf(a@),
            fp_wf(b@),
            j <= b@.len(),
            b@.len() == b.columns@.len(),
            forall|k: int|
                0 <= k < a@.len() ==> has_col(b@, (#[trigger] a@[k]).name) && attrs_equal(
                    a@[k],
                    col_at(b@, a@[k].name),
                ),
            forall|k: int| 0 <= k < j ==> has_col(a@, (#[trigger] b@[k]).name),
        decreases b@.len() - j,
    {
        match find_column(&a.columns, &b.columns[j].name) {
            None => {
                proof {
                    assert(b@[j as int].name == b.columns@[j as int]@.name);
                    if has_col(a@, b@[j as int].name) {
                        let k = col_idx(a@, b@[j as int].name);
                        assert(a@[k].name == b@[j as int].name);
                        assert(false);
                    }
                }
                return false;
            },
            Some(k) => {
                proof {
                    assert(a@[k as int].name == a.columns@[k as int]@.name);
                    assert(a@[k as int].name == b@[j as int].name);
                    assert(has_col(a@, b@[j as int].name));
                }
            },
        }
        j = j + 1;
    }
    true
}

// ---------------------------------------------------------------------------
// Diff classification
// ---------------------------------------------------------------------------

/// The three disjoint change sets of one table's migration, by column name.
#[derive(Clone, Debug)]
pub struct SchemaDiff {
    pub added: Vec<String>,
    pub removed: Vec<String>,
    pub changed: Vec<String>,
}

/// Names in the desired fingerprint that the actual one lacks, in desired
/// order.
pub open spec fn added_names(d: Seq<ColV>, a: Seq<ColV>) -> Seq<Seq<char>> {
    d.filter(|c: ColV| !has_col(a, c.name)).map_values(|c: ColV| c.name)
}

/// Names in the actual fingerprint that the desired one lacks, in actual
/// order.
pub open spec fn removed_names(d: Seq<ColV>, a: Seq<ColV>) -> Seq<Seq<char>> {
    a.filter(|c: ColV| !has_col(d, c.name)).map_values(|c: ColV| c.name)
}

/// Names present on both sides whose comparable attributes differ — a
/// change of the compressed flag always lands here, since it changes the
/// declared storage type.
pub open spec fn changed_names(d: Seq<ColV>, a: Seq<ColV>) -> Seq<Seq<char>> {
    d.filter(|c: ColV| has_col(a, c.name) && !attrs_equal(c, col_at(a, c.name))).map_values(
        |c: ColV| c.name,
    )
}

/// A filter kept nothing exactly when nothing satisfies the predicate.
proof fn lemma_filter_all_false(s: Seq<ColV>, pred: spec_fn(ColV) -> bool)
    requires
        forall|i: int| 0 <= i < s.len() ==> !pred(#[trigger] s[i]),
    ensures
        s.filter(pred) == Seq::<ColV>::empty(),
    decreases s.len(),
{
    reveal(Seq::filter);
    if s.len() > 0 {
        assert(s.drop_last() =~= s.take(s.len() - 1));
        lemma_filter_all_false(s.drop_last(), pred);
        assert(!pred(s.last()));
    }
}

/// Pushing one string onto a vector pushes its view onto the deep view.
proof fn lemma_deep_push(prev: Seq<String>, cur: Seq<String>, x: String, expect: Seq<Seq<char>>)
    requires
        cur == prev.push(x),
        Seq::new(prev.len(), |i: int| prev[i].deep_view()) == expect,
    ensures
        Seq::new(cur.len(), |i: int| cur[i].deep_view()) =~= expect.push(x@),
{
    let lhs = Seq::new(cur.len(), |i: int| cur[i].deep_view());
    assert forall|k: int| 0 <= k < lhs.len() implies lhs[k] == expect.push(x@)[k] by {
        if k < prev.len() {
            assert(cur[k] == prev[k]);
            assert(Seq::new(prev.len(), |i: int| prev[i].deep_view())[k] == prev[k].deep_view());
        } else {
            assert(cur[k] == x);
        }
    }
}

/// Compute the three change sets of desired versus actual.
pub fn diff_fingerprints(desired: &Fingerprint, actual: &Fingerprint) -> (r: SchemaDiff)
    requires
        fp_wf(desired@),
        fp_wf(actual@),
    ensures
        r.added.deep_view() == added_names(desired@, actual@),
        r.removed.deep_view() == removed_names(desired@, actual@),
        r.changed.deep_view() == changed_names(desired@, actual@),
        (r.added@.len() == 0 && r.removed@.len() == 0 && r.changed@.len() == 0) <==> fp_equal(
            desired@,
            actual@,
        ),
{
    let ghost d = desired@;
    let ghost a = actual@;
    let ghost p_add = |c: ColV| !has_col(a, c.name);
    let ghost p_chg = |c: ColV| has_col(a, c.name) && !attrs_equal(c, col_at(a, c.name));
    let ghost p_rem = |c: ColV| !has_col(d, c.name);
    let mut added: Vec<String> = Vec::new();
    let mut changed: Vec<String> = Vec::new();
    let mut i: usize = 0;
    proof {
        assert(d.take(0) =~= Seq::<ColV>::empty());
        reveal(Seq::filter);
    }
    while i < desired.columns.len()
        invariant
            fp_wf(d),
            fp_wf(a),
            d == desired@,
            a == actual@,
            p_add == (|c: ColV| !has_col(a, c.name)),
            p_chg == (|c: ColV| has_col(a, c.name) && !attrs_equal(c, col_at(a, c.name))),
            i <= d.len(),
            d.len() == desired.columns@.len(),
            added.deep_view() == d.take(i as int).filter(p_add).map_values(|c: ColV| c.name),
            changed.deep_view() == d.take(i as int).filter(p_chg).map_values(|c: ColV| c.name),
        decreases d.len() - i,
    {
        let ghost t1 = d.take(i + 1);
        proof {
            reveal(Seq::filter);
            assert(t1.drop_last() =~= d.take(i as int));
            assert(t1.last() == d[i as int]);
        }
        match find_column(&actual.columns, &desired.columns[i].name) {
            None => {
                proof {
                    if has_col(a, d[i as int].name) {
                        let j = col_idx(a, d[i as int].name);
                        assert(a[j].name == d[i as int].name);
                        assert(false);
                    }
                    assert(p_add(d[i as int]));
                    assert(!p_chg(d[i as int]));
                    assert(t1.filter(p_add) =~= d.take(i as int).filter(p_add).push(
                        d[i as int],
                    ));
                    assert(t1.filter(p_chg) =~= d.take(i as int).filter(p_chg));
                }
                let name = desired.columns[i].name.clone();
                proof {
                    assert(name@ == d[i as int].name);
                }
                let ghost prev_added = added@;
                added.push(name);
                proof {
                    lemma_deep_push(
                        prev_added,
                        added@,
                        name,
                        d.take(i as int).filter(p_add).map_values(|c: ColV| c.name),
                    );
                    assert(t1.filter(p_add).map_values(|c: ColV| c.name) =~= d.take(
                        i as int,
                    ).filter(p_add).map_values(|c: ColV| c.name).push(d[i as int].name));
                }
            },
            Some(j) => {
                proof {
                    assert(a[j as int].name == d[i as int].name);
                    assert(has_col(a, d[i as int].name));
                    let k = col_idx(a, d[i as int].name);
                    assert(a[k].name == d[i as int].name);
                    assert(k == j);
                    assert(col_at(a, d[i as int].name) == a[j as int]);
                    assert(!p_add(d[i as int]));
                    assert(t1.filter(p_add) =~= d.take(i as int).filter(p_add));
                }
                let same = attrs_equal_exec(&desired.columns[i], &actual.columns[j]);
                if same {
                    proof {
                        assert(!p_chg(d[i as int]));
                        assert(t1.filter(p_chg) =~= d.take(i as int).filter(p_chg));
                    }
                } else {
                    proof {
                        assert(p_chg(d[i as int]));
                        assert(t1.filter(p_chg) =~= d.take(i as int).filter(p_chg).push(
                            d[i as int],
                        ));
                    }
                    let name = desired.columns[i].name.clone();
                    proof {
                        assert(name@ == d[i as int].name);
                    }
                    let ghost prev_changed = changed@;
                    changed.push(name);
                    proof {
                        lemma_deep_push(
                            prev_changed,
                            changed@,
                            name,
                            d.take(i as int).filter(p_chg).map_values(|c: ColV| c.name),
                        );
                        assert(t1.filter(p_chg).map_values(|c: ColV| c.name) =~= d.take(
                            i as int,
                        ).filter(p_chg).map_values(|c: ColV| c.name).push(d[i as int].name));
                    }
                }
            },
        }
        i = i + 1;
    }
    proof {
        assert(d.take(d.len() as int) =~= d);
    }
    let mut removed: Vec<String> = Vec::new();
    let mut j: usize = 0;
    proof {
        assert(a.take(0) =~= Seq::<ColV>::empty());
    }
    while j < actual.columns.len()
        invariant
            fp_wf(d),
            fp_wf(a),
            d == desired@,
            a == actual@,
            p_rem == (|c: ColV| !has_col(d, c.name)),
            j <= a.len(),
            a.len() == actual.columns@.len(),
            removed.deep_view() == a.take(j as int).filter(p_rem).map_values(|c: ColV| c.name),
        decreases a.len() - j,
    {
        let ghost t1 = a.take(j + 1);
        proof {
            reveal(Seq::filter);
            assert(t1.drop_last() =~= a.take(j as int));
            assert(t1.last() == a[j as int]);
        }
        match find_column(&desired.columns, &actual.columns[j].name) {
            None => {
                proof {
                    if has_col(d, a[j as int].name) {
                        let k = col_idx(d, a[j as int].name);
                        assert(d[k].name == a[j as int].name);
                        assert(false);
                    }
                    assert(p_rem(a[j as int]));
                    assert(t1.filter(p_rem) =~= a.take(j as int).filter(p_rem).push(
                        a[j as int],
                    ));
                }
                let name = actual.columns[j].name.clone();
                proof {
                    assert(name@ == a[j as int].name);
                }
                let ghost prev_removed = removed@;
                removed.push(name);
                proof {
                    lemma_deep_push(
                        prev_removed,
                        removed@,
                        name,
                        a.take(j as int).filter(p_rem).map_values(|c: ColV| c.name),
                    );
                    assert(t1.filter(p_rem).map_values(|c: ColV| c.name) =~= a.take(
                        j as int,
                    ).filter(p_rem).map_values(|c: ColV| c.name).push(a[j as int].name));
                }
            },
            Some(k) => {
                proof {
                    assert(d[k as int].name == a[j as int].name);
                    assert(has_col(d, a[j as int].name));
                    assert(!p_rem(a[j as int]));
                    assert(t1.filter(p_rem) =~= a.take(j as int).filter(p_rem));
                }
            },
        }
        j = j + 1;
    }
    proof {
        assert(a.take(a.len() as int) =~= a);
        lemma_diff_empty_iff_equal(d, a);
    }
    SchemaDiff { added, removed, changed }
}

/// The three change sets are all empty exactly when the fingerprints are
/// equal.
proof fn lemma_diff_empty_iff_equal(d: Seq<ColV>, a: Seq<ColV>)
    requires
        fp_wf(d),
        fp_wf(a),
    ensures
        (added_names(d, a).len() == 0 && removed_names(d, a).len() == 0 && changed_names(
            d,
            a,
        ).len() == 0) <==> fp_equal(d, a),
{
    let p_add = |c: ColV| !has_col(a, c.name);
    let p_chg = |c: ColV| has_col(a, c.name) && !attrs_equal(c, col_at(a, c.name));
    let p_rem = |c: ColV| !has_col(d, c.name);
    if added_names(d, a).len() == 0 && removed_names(d, a).len() == 0 && changed_names(
        d,
        a,
    ).len() == 0 {
        assert forall|i: int| 0 <= i < d.len() implies has_col(a, #[trigger] d[i].name) by {
            if !has_col(a, d[i].name) {
                d.lemma_filter_contains(p_add, i);
                assert(d.filter(p_add).len() > 0);
            }
        }
        assert forall|j: int| 0 <= j < a.len() implies has_col(d, #[trigger] a[j].name) by {
            if !has_col(d, a[j].name) {
                a.lemma_filter_contains(p_rem, j);
                assert(a.filter(p_rem).len() > 0);
            }
        }
        assert forall|i: int| 0 <= i < d.len() implies attrs_equal(
            d[i],
            col_at(a, #[trigger] d[i].name),
        ) by {
            if !attrs_equal(d[i], col_at(a, d[i].name)) {
                assert(p_chg(d[i]));
                d.lemma_filter_contains(p_chg, i);
                assert(d.filter(p_chg).len() > 0);
            }
        }
    }
    if fp_equal(d, a) {
        assert forall|i: int| 0 <= i < d.len() implies !p_add(#[trigger] d[i]) by {}
        assert forall|i: int| 0 <= i < d.len() implies !p_chg(#[trigger] d[i]) by {}
        assert forall|j: int| 0 <= j < a.len() implies !p_rem(#[trigger] a[j]) by {}
        lemma_filter_all_false(d, p_add);
        lemma_filter_all_false(d, p_chg);
        lemma_filter_all_false(a, p_rem);
    }
}

// ---------------------------------------------------------------------------
// CREATE statement emission
// ---------------------------------------------------------------------------

pub open spec fn type_text(st: StorageType) -> Seq<char> {
    match st {
        StorageType::Text => "TEXT"@,
        StorageType::Integer => "INTEGER"@,
        StorageType::Real => "REAL"@,
        StorageType::Blob => "BLOB"@,
    }
}

/// The column definition emitted into CREATE TABLE: name, declared storage
/// type, then PRIMARY KEY (with a random-id default for TEXT keys),
/// NOT NULL for non-nullable non-key columns, UNIQUE, an inline REFERENCES
/// clause for foreign keys, and a now() default for timestamp-role columns.
pub open spec fn col_sql(c: ColV) -> Seq<char> {
    c.name + " "@ + type_text(storage_type(c)) + (if c.primary_key {
        " PRIMARY KEY"@ + (if storage_type(c) == StorageType::Text {
            " DEFAULT (lower(hex(randomblob(16))))"@
        } else {
            Seq::<char>::empty()
        })
    } else {
        Seq::<char>::empty()
    }) + (if !c.nullable && !c.primary_key {
        " NOT NULL"@
    } else {
        Seq::<char>::empty()
    }) + (if c.unique {
        " UNIQUE"@
    } else {
        Seq::<char>::empty()
    }) + (match c.foreign_key {
        Some(t) => " REFERENCES "@ + t + "(id)"@,
        None => Seq::<char>::empty(),
    }) + (if c.role is Some {
        " DEFAULT (strftime('%Y-%m-%dT%H:%M:%S.000Z', 'now'))"@
    } else {
        Seq::<char>::empty()
    })
}

/// The column definitions joined by the statement's separator.
pub open spec fn cols_sql_joined(s: Seq<ColV>) -> Seq<char>
    decreases s.len(),
{
    if s.len() == 0 {
        Seq::empty()
    } else if s.len() == 1 {
        col_sql(s[0])
    } else {
        col_sql(s[0]) + ",\n    "@ + cols_sql_joined(s.skip(1))
    }
}

/// The full CREATE statement for a table.
pub open spec fn create_sql(table: Seq<char>, s: Seq<ColV>) -> Seq<char> {
    "CREATE TABLE IF NOT EXISTS "@ + table + " (\n    "@ + cols_sql_joined(s) + "\n)"@
}

/// One column's definition text.
pub fn column_sql(c: &ColumnDescriptor) -> (r: String)
    ensures
        r@ == col_sql(c@),
{
    let mut out = String::new();
    out.append(c.name.as_str());
    out.append(" ");
    match storage_type_of(c) {
        StorageType::Text => out.append("TEXT"),
        StorageType::Integer => out.append("INTEGER"),
        StorageType::Real => out.append("REAL"),
        StorageType::Blob => out.append("BLOB"),
    }
    if c.primary_key {
        out.append(" PRIMARY KEY");
        match storage_type_of(c) {
            StorageType::Text => out.append(" DEFAULT (lower(hex(randomblob(16))))"),
            _ => (),
        }
    }
    if !c.nullable && !c.primary_key {
        out.append(" NOT NULL");
    }
    if c.unique {
        out.append(" UNIQUE");
    }
    match &c.foreign_key {
        Some(t) => {
            out.append(" REFERENCES ");
            out.append(t.as_str());
            out.append("(id)");
        },
        None => (),
    }
    if c.role.is_some() {
        out.append(" DEFAULT (strftime('%Y-%m-%dT%H:%M:%S.000Z', 'now'))");
    }
    proof {
        assert(out@ =~= col_sql(c@));
    }
    out
}

/// Stepping the joined column text one column forward.
proof fn lemma_cols_joined_take(s: Seq<ColV>, i: int)
    requires
        0 <= i < s.len(),
    ensures
        cols_sql_joined(s.take(i + 1)) =~= cols_sql_joined(s.take(i)) + (if i == 0 {
            col_sql(s[0])
        } else {
            ",\n    "@ + col_sql(s[i])
        }),
    decreases i,
{
    if i == 0 {
        assert(s.take(1) =~= seq![s[0]]);
        assert(s.take(0) =~= Seq::<ColV>::empty());
        assert(cols_sql_joined(seq![s[0]]) == col_sql(seq![s[0]][0]));
    } else {
        let t1 = s.take(i + 1);
        let t0 = s.take(i);
        assert(t1[0] == s[0]);
        assert(t0[0] == s[0]);
        assert(t1.skip(1) =~= s.skip(1).take(i));
        assert(t0.skip(1) =~= s.skip(1).take(i - 1));
        assert(t1.len() == i + 1 >= 2);
        assert(cols_sql_joined(t1) == col_sql(s[0]) + ",\n    "@ + cols_sql_joined(
            s.skip(1).take(i),
        ));
        lemma_cols_joined_take(s.skip(1), i - 1);
        assert(s.skip(1)[i - 1] == s[i]);
        if i == 1 {
            assert(s.skip(1).take(0) =~= Seq::<ColV>::empty());
            assert(cols_sql_joined(s.skip(1).take(0)) == Seq::<char>::empty());
            assert(cols_sql_joined(s.skip(1).take(1)) =~= col_sql(s[1]));
            assert(cols_sql_joined(t0) == col_sql(s[0]));
        } else {
            assert(cols_sql_joined(t0) == col_sql(s[0]) + ",\n    "@ + cols_sql_joined(
                s.skip(1).take(i - 1),
            ));
        }
    }
}

/// The CREATE statement for `table` with the fingerprint's columns, exactly
/// as `create_sql` lays it out.
pub fn create_table_sql(table: &String, fp: &Fingerprint) -> (r: String)
    ensures
        r@ == create_sql(table@, fp@),
{
    let mut out = String::new();
    out.append("CREATE TABLE IF NOT EXISTS ");
    out.append(table.as_str());
    out.append(" (\n    ");
    let ghost cols = fp@;
    let mut i: usize = 0;
    let ghost prefix = "CREATE TABLE IF NOT EXISTS "@ + table@ + " (\n    "@;
    proof {
        assert(out@ =~= prefix);
        assert(cols.take(0) =~= Seq::<ColV>::empty());
    }
    while i < fp.columns.len()
        invariant
            i <= cols.len(),
            cols == fp@,
            cols.len() == fp.columns@.len(),
            prefix == "CREATE TABLE IF NOT EXISTS "@ + table@ + " (\n    "@,
            out@ == prefix + cols_sql_joined(cols.take(i as int)),
        decreases cols.len() - i,
    {
        proof {
            lemma_cols_joined_take(cols, i as int);
        }
        if i > 0 {
            out.append(",\n    ");
        }
        let csql = column_sql(&fp.columns[i]);
        out.append(csql.as_str());
        proof {
            assert(cols[i as int] == fp.columns@[i as int]@);
            assert(out@ =~= prefix + cols_sql_joined(cols.take(i + 1)));
        }
        i = i + 1;
    }
    out.append("\n)");
    proof {
        assert(cols.take(cols.len() as int) =~= cols);
        assert(out@ =~= create_sql(table@, fp@));
    }
    out
}

} // verus!
