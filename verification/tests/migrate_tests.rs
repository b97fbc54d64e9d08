use orso::codec::{DecodeError, I64Codec};
use orso::migrate::{transform_row, transform_value, MigrationError};
use orso::numtext::{int_list_to_string, parse_int_list_str};
use orso::schema::{ColumnDescriptor, Fingerprint};
use orso::value::{from_storage, to_storage, FieldType, Value};

fn col(name: &str, t: FieldType) -> ColumnDescriptor {
    ColumnDescriptor {
        name: name.to_string(),
        logical_type: t,
        nullable: false,
        unique: false,
        primary_key: false,
        foreign_key: None,
        role: None,
        compressed: false,
    }
}

#[test]
fn int_list_text_roundtrip() {
    let xs: Vec<i64> = vec![0, -1, 42, i64::MIN, i64::MAX];
    let text = int_list_to_string(&xs);
    assert_eq!(text, "[0,-1,42,-9223372036854775808,9223372036854775807]");
    let back = parse_int_list_str(&text).unwrap();
    assert_eq!(xs, back);
    assert_eq!(parse_int_list_str("[]").unwrap(), Vec::<i64>::new());
    assert!(parse_int_list_str("").is_none());
    assert!(parse_int_list_str("[1,]").is_none());
    assert!(parse_int_list_str("[a]").is_none());
    assert!(parse_int_list_str("1,2").is_none());
}

#[test]
fn compression_toggle_preserves_data() {
    // a table with an uncompressed integer-sequence column holding 0..=99
    let actual = Fingerprint {
        columns: vec![col("name", FieldType::Text), col("data_points", FieldType::BigInt)],
    };
    let mut compressed = col("data_points", FieldType::BigInt);
    compressed.compressed = true;
    let desired = Fingerprint { columns: vec![col("name", FieldType::Text), compressed] };

    let values: Vec<i64> = (0..100).collect();
    let row = vec![
        Value::Text("row one".to_string()),
        Value::Text(int_list_to_string(&values)),
    ];
    let out = transform_row(&desired, &actual, &row).unwrap();
    assert_eq!(out.len(), 2);
    assert_eq!(out[0], Value::Text("row one".to_string()));
    let blob = match &out[1] {
        Value::Blob(b) => b.clone(),
        other => panic!("expected a blob, got {:?}", other),
    };
    let decoded = I64Codec::default().decompress(&blob).unwrap();
    assert_eq!(decoded.len(), 100);
    assert_eq!(decoded[0], 0);
    assert_eq!(decoded[99], 99);
    assert_eq!(decoded, values);

    // and the way back: turning compression off restores the text form
    let back_row = transform_row(&actual, &desired, &out).unwrap();
    assert_eq!(back_row[1], Value::Text(int_list_to_string(&values)));
}

#[test]
fn corrupt_blob_aborts_the_rebuild() {
    let mut compressed = col("data_points", FieldType::BigInt);
    compressed.compressed = true;
    let actual = Fingerprint { columns: vec![compressed] };
    let desired = Fingerprint { columns: vec![col("data_points", FieldType::BigInt)] };
    let row = vec![Value::Blob(vec![1, 2, 3])];
    let r = transform_row(&desired, &actual, &row);
    assert_eq!(r, Err(MigrationError::Decode(DecodeError::TooShort)));
}

#[test]
fn added_column_takes_null_and_removed_is_dropped() {
    let actual = Fingerprint {
        columns: vec![col("a", FieldType::Integer), col("b", FieldType::Text)],
    };
    let desired = Fingerprint {
        columns: vec![col("a", FieldType::Integer), col("c", FieldType::Text)],
    };
    let row = vec![Value::Integer(7), Value::Text("dropped".to_string())];
    let out = transform_row(&desired, &actual, &row).unwrap();
    assert_eq!(out, vec![Value::Integer(7), Value::Null]);
}

#[test]
fn type_coercions() {
    let int_col = col("x", FieldType::Integer);
    let text_col = col("x", FieldType::Text);
    let bool_col = col("x", FieldType::Boolean);
    let num_col = col("x", FieldType::Numeric);

    // integer to text
    let r = transform_value(&text_col, &int_col, &Value::Integer(-42)).unwrap();
    assert_eq!(r, Value::Text("-42".to_string()));

    // text to integer
    let r = transform_value(&int_col, &text_col, &Value::Text("123".to_string())).unwrap();
    assert_eq!(r, Value::Integer(123));

    // unparsable text to integer is a hard failure
    let r = transform_value(&int_col, &text_col, &Value::Text("12x".to_string()));
    assert_eq!(r, Err(MigrationError::Coercion));

    // integer to boolean is no storage change at all: both columns are
    // declared INTEGER, so stored values pass through untouched
    let r = transform_value(&bool_col, &int_col, &Value::Integer(1)).unwrap();
    assert_eq!(r, Value::Integer(1));
    let r = transform_value(&bool_col, &int_col, &Value::Integer(5)).unwrap();
    assert_eq!(r, Value::Integer(5));

    // text to boolean is a storage change with no meaning-preserving
    // reinterpretation
    let r = transform_value(&bool_col, &text_col, &Value::Text("yes".to_string()));
    assert_eq!(r, Err(MigrationError::Coercion));

    // nothing coerces into a float column
    let r = transform_value(&num_col, &int_col, &Value::Integer(1));
    assert_eq!(r, Err(MigrationError::Coercion));

    // null passes through
    let r = transform_value(&num_col, &int_col, &Value::Null).unwrap();
    assert_eq!(r, Value::Null);
}

#[test]
fn storage_boundary_coercions() {
    assert_eq!(to_storage(&Value::Boolean(true)), Value::Integer(1));
    assert_eq!(to_storage(&Value::Boolean(false)), Value::Integer(0));
    assert_eq!(to_storage(&Value::Integer(9)), Value::Integer(9));
    assert_eq!(
        from_storage(&Value::Integer(1), FieldType::Boolean),
        Value::Boolean(true)
    );
    assert_eq!(
        from_storage(&Value::Integer(0), FieldType::Boolean),
        Value::Boolean(false)
    );
    assert_eq!(
        from_storage(&Value::Integer(7), FieldType::Integer),
        Value::Integer(7)
    );
    assert_eq!(
        from_storage(&Value::Text("x".to_string()), FieldType::Boolean),
        Value::Text("x".to_string())
    );
}
