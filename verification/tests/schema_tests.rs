use orso::introspect::{fingerprint_from_introspection, IntrospectError, IntrospectedColumn};
use orso::migrate::MigrationPlan;
use orso::schema::{
    column_sql, create_table_sql, diff_fingerprints, fingerprints_equal, ColumnDescriptor,
    Fingerprint, TimeRole,
};
use orso::value::FieldType;

fn col(name: &str, t: FieldType) -> ColumnDescriptor {
    ColumnDescriptor {
        name: name.to_string(),
        logical_type: t,
        nullable: false,
        unique: false,
        primary_key: false,
        foreign_key: None,
        role: None,
        compressed: false,
    }
}

fn pk_col(name: &str) -> ColumnDescriptor {
    ColumnDescriptor {
        name: name.to_string(),
        logical_type: FieldType::Text,
        nullable: true,
        unique: false,
        primary_key: true,
        foreign_key: None,
        role: None,
        compressed: false,
    }
}

fn user_fingerprint() -> Fingerprint {
    let mut username = col("username", FieldType::Text);
    username.unique = true;
    let mut created = col("created_at", FieldType::Text);
    created.nullable = true;
    created.role = Some(TimeRole::CreatedAt);
    Fingerprint {
        columns: vec![
            pk_col("id"),
            col("name", FieldType::Text),
            col("email", FieldType::Text),
            col("age", FieldType::Integer),
            username,
            created,
        ],
    }
}

#[test]
fn column_definitions_match_declared_storage() {
    assert_eq!(
        column_sql(&pk_col("id")),
        "id TEXT PRIMARY KEY DEFAULT (lower(hex(randomblob(16))))"
    );
    assert_eq!(column_sql(&col("name", FieldType::Text)), "name TEXT NOT NULL");
    assert_eq!(column_sql(&col("age", FieldType::Integer)), "age INTEGER NOT NULL");
    assert_eq!(column_sql(&col("count", FieldType::BigInt)), "count INTEGER NOT NULL");
    assert_eq!(column_sql(&col("price", FieldType::Numeric)), "price REAL NOT NULL");
    assert_eq!(column_sql(&col("flag", FieldType::Boolean)), "flag INTEGER NOT NULL");

    let mut unique = col("username", FieldType::Text);
    unique.unique = true;
    assert_eq!(column_sql(&unique), "username TEXT NOT NULL UNIQUE");

    let mut compressed = col("data_points", FieldType::BigInt);
    compressed.compressed = true;
    assert_eq!(column_sql(&compressed), "data_points BLOB NOT NULL");

    let mut fk = col("user_id", FieldType::Text);
    fk.foreign_key = Some("test_users".to_string());
    assert_eq!(column_sql(&fk), "user_id TEXT NOT NULL REFERENCES test_users(id)");

    let mut created = col("created_at", FieldType::Text);
    created.nullable = true;
    created.role = Some(TimeRole::CreatedAt);
    assert_eq!(
        column_sql(&created),
        "created_at TEXT DEFAULT (strftime('%Y-%m-%dT%H:%M:%S.000Z', 'now'))"
    );
}

#[test]
fn create_statement_layout() {
    let fp = user_fingerprint();
    let sql = create_table_sql(&"test_users".to_string(), &fp);
    assert!(sql.contains("CREATE TABLE IF NOT EXISTS test_users"));
    assert!(sql.contains("id TEXT PRIMARY KEY DEFAULT (lower(hex(randomblob(16))))"));
    assert!(sql.contains("name TEXT NOT NULL"));
    assert!(sql.contains("email TEXT NOT NULL"));
    assert!(sql.contains("age INTEGER NOT NULL"));
    assert!(sql.contains("username TEXT NOT NULL UNIQUE"));
    assert!(sql.starts_with("CREATE TABLE IF NOT EXISTS test_users (\n    "));
    assert!(sql.ends_with("\n)"));
}

#[test]
fn equal_fingerprints_have_empty_diff() {
    let a = user_fingerprint();
    let b = user_fingerprint();
    assert!(fingerprints_equal(&a, &b));
    let d = diff_fingerprints(&a, &b);
    assert_eq!(d.added.len(), 0);
    assert_eq!(d.removed.len(), 0);
    assert_eq!(d.changed.len(), 0);
}

#[test]
fn added_and_removed_columns_are_classified() {
    let desired = Fingerprint {
        columns: vec![pk_col("id"), col("name", FieldType::Text), col("age", FieldType::Integer)],
    };
    let actual = Fingerprint {
        columns: vec![pk_col("id"), col("name", FieldType::Text), col("email", FieldType::Text)],
    };
    let d = diff_fingerprints(&desired, &actual);
    assert_eq!(d.added, vec!["age".to_string()]);
    assert_eq!(d.removed, vec!["email".to_string()]);
    assert_eq!(d.changed.len(), 0);
}

#[test]
fn unique_constraint_change_is_a_change() {
    let actual = Fingerprint {
        columns: vec![pk_col("id"), col("email", FieldType::Text)],
    };
    let mut unique_email = col("email", FieldType::Text);
    unique_email.unique = true;
    let desired = Fingerprint { columns: vec![pk_col("id"), unique_email] };
    let d = diff_fingerprints(&desired, &actual);
    assert_eq!(d.added.len(), 0);
    assert_eq!(d.removed.len(), 0);
    assert_eq!(d.changed, vec!["email".to_string()]);
    // the rebuilt table declares the constraint
    let sql = create_table_sql(&"migration_test".to_string(), &desired);
    assert!(sql.contains("email TEXT NOT NULL UNIQUE"));
}

#[test]
fn compression_flag_change_is_a_change() {
    let actual = Fingerprint {
        columns: vec![pk_col("id"), col("data_points", FieldType::BigInt)],
    };
    let mut compressed = col("data_points", FieldType::BigInt);
    compressed.compressed = true;
    let desired = Fingerprint { columns: vec![pk_col("id"), compressed] };
    let d = diff_fingerprints(&desired, &actual);
    assert_eq!(d.changed, vec!["data_points".to_string()]);
    assert!(!fingerprints_equal(&desired, &actual));
}

#[test]
fn integer_width_change_is_not_a_change() {
    // Integer and BigInt share the declared storage type, which is all that
    // live introspection can see.
    let actual = Fingerprint { columns: vec![col("age", FieldType::Integer)] };
    let desired = Fingerprint { columns: vec![col("age", FieldType::BigInt)] };
    assert!(fingerprints_equal(&desired, &actual));
}

#[test]
fn plan_absent_table_is_create() {
    let desired = user_fingerprint();
    let plan = orso::migrate::plan_migration(&desired, None);
    assert!(matches!(plan, MigrationPlan::CreateTable));
}

#[test]
fn plan_equal_schema_is_no_change() {
    let desired = user_fingerprint();
    let actual = user_fingerprint();
    let plan = orso::migrate::plan_migration(&desired, Some(&actual));
    assert!(matches!(plan, MigrationPlan::NoChange));
}

#[test]
fn plan_changed_schema_is_rebuild() {
    let desired = user_fingerprint();
    let actual = Fingerprint { columns: vec![pk_col("id"), col("name", FieldType::Text)] };
    let plan = orso::migrate::plan_migration(&desired, Some(&actual));
    match plan {
        MigrationPlan::Rebuild(d) => {
            assert_eq!(
                d.added,
                vec![
                    "email".to_string(),
                    "age".to_string(),
                    "username".to_string(),
                    "created_at".to_string()
                ]
            );
            assert_eq!(d.removed.len(), 0);
            assert_eq!(d.changed.len(), 0);
        },
        _ => panic!("expected a rebuild"),
    }
}

fn introspection_image(fp: &Fingerprint) -> Vec<IntrospectedColumn> {
    fp.columns
        .iter()
        .map(|c| {
            let declared = if c.compressed {
                "BLOB"
            } else if c.foreign_key.is_some() {
                "TEXT"
            } else {
                match c.logical_type {
                    FieldType::Text => "TEXT",
                    FieldType::Integer | FieldType::BigInt | FieldType::Boolean => "INTEGER",
                    FieldType::Numeric => "REAL",
                }
            };
            IntrospectedColumn {
                name: c.name.clone(),
                declared_type: declared.to_string(),
                notnull: !c.nullable && !c.primary_key,
                primary_key: c.primary_key,
                unique: c.unique,
                foreign_key: c.foreign_key.clone(),
            }
        })
        .collect()
}

#[test]
fn second_migration_run_is_noop() {
    // Create the table, introspect what the storage layer would now report,
    // and plan again: nothing changes the second time.
    let desired = user_fingerprint();
    let first = orso::migrate::plan_migration(&desired, None);
    assert!(matches!(first, MigrationPlan::CreateTable));

    let reported = introspection_image(&desired);
    let actual = fingerprint_from_introspection(&reported).unwrap();
    let second = orso::migrate::plan_migration(&desired, Some(&actual));
    assert!(matches!(second, MigrationPlan::NoChange));
}

#[test]
fn introspection_rejects_bad_reports() {
    let good = IntrospectedColumn {
        name: "id".to_string(),
        declared_type: "TEXT".to_string(),
        notnull: false,
        primary_key: true,
        unique: false,
        foreign_key: None,
    };
    let mut unknown = good.clone();
    unknown.name = "x".to_string();
    unknown.primary_key = false;
    unknown.declared_type = "DATETIME".to_string();
    assert!(matches!(
        fingerprint_from_introspection(&vec![good.clone(), unknown]),
        Err(IntrospectError::UnknownType)
    ));

    let mut bad_name = good.clone();
    bad_name.name = "not a name".to_string();
    bad_name.primary_key = false;
    assert!(matches!(
        fingerprint_from_introspection(&vec![good.clone(), bad_name]),
        Err(IntrospectError::BadName)
    ));

    let dup = good.clone();
    assert!(matches!(
        fingerprint_from_introspection(&vec![good.clone(), dup]),
        Err(IntrospectError::DuplicateName)
    ));

    let mut second_pk = good.clone();
    second_pk.name = "other".to_string();
    assert!(matches!(
        fingerprint_from_introspection(&vec![good, second_pk]),
        Err(IntrospectError::MultiplePrimaryKeys)
    ));
}
