//! Scenario tests against a real embedded database: the engine's plan is
//! executed with actual CREATE/INSERT/RENAME/DROP statements, the actual
//! schema comes from live introspection, and the database enforces the
//! constraints the migration declared.

use orso::introspect::{fingerprint_from_introspection, IntrospectedColumn};
use orso::migrate::{plan_migration, transform_row, MigrationPlan};
use orso::schema::{create_table_sql, ColumnDescriptor, Fingerprint};
use orso::value::{FieldType, Value};

fn col(name: &str, t: FieldType) -> ColumnDescriptor {
    ColumnDescriptor {
        name: name.to_string(),
        logical_type: t,
        nullable: false,
        unique: false,
        primary_key: false,
        foreign_key: None,
        role: None,
        compressed: false,
    }
}

async fn introspect(
    conn: &libsql::Connection,
    table: &str,
) -> Option<Fingerprint> {
    let mut cols: Vec<IntrospectedColumn> = Vec::new();
    let mut rows = conn
        .query(&format!("PRAGMA table_info({})", table), ())
        .await
        .unwrap();
    while let Some(row) = rows.next().await.unwrap() {
        let name: String = row.get(1).unwrap();
        let declared_type: String = row.get(2).unwrap();
        let notnull: i64 = row.get(3).unwrap();
        let pk: i64 = row.get(5).unwrap();
        cols.push(IntrospectedColumn {
            name,
            declared_type,
            notnull: notnull != 0,
            primary_key: pk != 0,
            unique: false,
            foreign_key: None,
        });
    }
    if cols.is_empty() {
        return None;
    }
    let mut idx_rows = conn
        .query(&format!("PRAGMA index_list({})", table), ())
        .await
        .unwrap();
    while let Some(row) = idx_rows.next().await.unwrap() {
        let idx_name: String = row.get(1).unwrap();
        let is_unique: i64 = row.get(2).unwrap();
        if is_unique == 0 {
            continue;
        }
        let mut info = conn
            .query(&format!("PRAGMA index_info({})", idx_name), ())
            .await
            .unwrap();
        let mut members: Vec<String> = Vec::new();
        while let Some(r) = info.next().await.unwrap() {
            let col_name: String = r.get(2).unwrap();
            members.push(col_name);
        }
        if members.len() == 1 {
            if let Some(c) = cols.iter_mut().find(|c| c.name == members[0]) {
                if !c.primary_key {
                    c.unique = true;
                }
            }
        }
    }
    Some(fingerprint_from_introspection(&cols).unwrap())
}

fn to_db(v: &Value) -> libsql::Value {
    match v {
        Value::Null => libsql::Value::Null,
        Value::Integer(i) => libsql::Value::Integer(*i),
        Value::Real(bits) => libsql::Value::Real(f64::from_bits(*bits)),
        Value::Text(s) => libsql::Value::Text(s.clone()),
        Value::Blob(b) => libsql::Value::Blob(b.clone()),
        Value::Boolean(b) => libsql::Value::Integer(if *b { 1 } else { 0 }),
    }
}

fn from_db(v: &libsql::Value) -> Value {
    match v {
        libsql::Value::Null => Value::Null,
        libsql::Value::Integer(i) => Value::Integer(*i),
        libsql::Value::Real(f) => Value::Real(f.to_bits()),
        libsql::Value::Text(s) => Value::Text(s.clone()),
        libsql::Value::Blob(b) => Value::Blob(b.clone()),
    }
}

/// Execute the engine's plan for one table; panics on storage errors.
async fn migrate(conn: &libsql::Connection, table: &str, desired: &Fingerprint) -> MigrationPlan {
    let actual = introspect(conn, table).await;
    let plan = plan_migration(desired, actual.as_ref());
    match &plan {
        MigrationPlan::CreateTable => {
            let sql = create_table_sql(&table.to_string(), desired);
            conn.execute(&sql, ()).await.unwrap();
        }
        MigrationPlan::NoChange => {}
        MigrationPlan::Rebuild(_) => {
            let actual = actual.unwrap();
            let tmp = format!("{}_migration_new", table);
            conn.execute(&create_table_sql(&tmp, desired), ())
                .await
                .unwrap();
            let names: Vec<String> = actual.columns.iter().map(|c| c.name.clone()).collect();
            let select = format!("SELECT {} FROM {}", names.join(", "), table);
            let insert_names: Vec<String> =
                desired.columns.iter().map(|c| c.name.clone()).collect();
            let holes: Vec<String> = (0..insert_names.len()).map(|_| "?".to_string()).collect();
            let insert = format!(
                "INSERT INTO {} ({}) VALUES ({})",
                tmp,
                insert_names.join(", "),
                holes.join(", ")
            );
            let mut rows = conn.query(&select, ()).await.unwrap();
            while let Some(row) = rows.next().await.unwrap() {
                let mut old_row: Vec<Value> = Vec::new();
                for i in 0..actual.columns.len() {
                    old_row.push(from_db(&row.get_value(i as i32).unwrap()));
                }
                let new_row = transform_row(desired, &actual, &old_row).unwrap();
                let params: Vec<libsql::Value> = new_row.iter().map(to_db).collect();
                conn.execute(&insert, params).await.unwrap();
            }
            conn.execute(&format!("ALTER TABLE {} RENAME TO {}_old", table, table), ())
                .await
                .unwrap();
            conn.execute(&format!("ALTER TABLE {} RENAME TO {}", tmp, table), ())
                .await
                .unwrap();
            conn.execute(&format!("DROP TABLE {}_old", table), ())
                .await
                .unwrap();
        }
    }
    plan
}

#[test]
fn unique_constraint_enforced_after_migration() {
    let rt = tokio::runtime::Runtime::new().unwrap();
    rt.block_on(async {
        let db = libsql::Builder::new_local(":memory:").build().await.unwrap();
        let conn = db.connect().unwrap();

        // initial schema: email carries no uniqueness attribute
        let initial = Fingerprint {
            columns: vec![col("name", FieldType::Text), col("email", FieldType::Text)],
        };
        let first = migrate(&conn, "migration_test", &initial).await;
        assert!(matches!(first, MigrationPlan::CreateTable));

        conn.execute(
            "INSERT INTO migration_test (name, email) VALUES ('John Doe', 'john@example.com')",
            (),
        )
        .await
        .unwrap();

        // new schema: email must now be unique
        let mut unique_email = col("email", FieldType::Text);
        unique_email.unique = true;
        let desired = Fingerprint {
            columns: vec![col("name", FieldType::Text), unique_email],
        };
        let second = migrate(&conn, "migration_test", &desired).await;
        assert!(matches!(second, MigrationPlan::Rebuild(_)));

        // the retained row survived the rebuild
        let mut rows = conn
            .query("SELECT name, email FROM migration_test", ())
            .await
            .unwrap();
        let row = rows.next().await.unwrap().unwrap();
        let name: String = row.get(0).unwrap();
        assert_eq!(name, "John Doe");
        assert!(rows.next().await.unwrap().is_none());

        // a duplicate in the now-unique column is rejected by the database
        let dup = conn
            .execute(
                "INSERT INTO migration_test (name, email) VALUES ('Jane Doe', 'john@example.com')",
                (),
            )
            .await;
        assert!(dup.is_err(), "unique constraint should be enforced after migration");

        // and a third run against the rebuilt table is a no-op
        let third = migrate(&conn, "migration_test", &desired).await;
        assert!(matches!(third, MigrationPlan::NoChange));
    });
}

#[test]
fn compression_migration_on_live_table() {
    let rt = tokio::runtime::Runtime::new().unwrap();
    rt.block_on(async {
        let db = libsql::Builder::new_local(":memory:").build().await.unwrap();
        let conn = db.connect().unwrap();

        let initial = Fingerprint {
            columns: vec![col("name", FieldType::Text), col("data_points", FieldType::BigInt)],
        };
        migrate(&conn, "compression_migration_test", &initial).await;

        let values: Vec<i64> = (0..100).collect();
        conn.execute(
            "INSERT INTO compression_migration_test (name, data_points) VALUES (?, ?)",
            vec![
                libsql::Value::Text("Test User".to_string()),
                libsql::Value::Text(orso::numtext::int_list_to_string(&values)),
            ],
        )
        .await
        .unwrap();

        // second run without changes: schema matched, nothing mutated
        let unchanged = migrate(&conn, "compression_migration_test", &initial).await;
        assert!(matches!(unchanged, MigrationPlan::NoChange));

        // toggle compression on and migrate
        let mut compressed = col("data_points", FieldType::BigInt);
        compressed.compressed = true;
        let desired = Fingerprint {
            columns: vec![col("name", FieldType::Text), compressed],
        };
        let rebuilt = migrate(&conn, "compression_migration_test", &desired).await;
        assert!(matches!(rebuilt, MigrationPlan::Rebuild(_)));

        // the stored blob decodes to the original sequence
        let mut rows = conn
            .query("SELECT data_points FROM compression_migration_test", ())
            .await
            .unwrap();
        let row = rows.next().await.unwrap().unwrap();
        let blob: Vec<u8> = row.get(0).unwrap();
        let decoded = orso::codec::I64Codec::default().decompress(&blob).unwrap();
        assert_eq!(decoded.len(), 100);
        assert_eq!(decoded[0], 0);
        assert_eq!(decoded[99], 99);

        // and the rebuilt schema is stable
        let after = migrate(&conn, "compression_migration_test", &desired).await;
        assert!(matches!(after, MigrationPlan::NoChange));
    });
}
