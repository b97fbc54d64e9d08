use orso::utils::{Timestamp, Utils};

#[test]
fn test_utils_generate_id() {
    let id1 = Utils::generate_id();
    let id2 = Utils::generate_id();

    // Both should be valid UUIDs
    assert!(!id1.is_empty());
    assert!(!id2.is_empty());

    // Should be different (very high probability)
    assert_ne!(id1, id2);

    // Should contain hyphens in correct positions for UUID format
    assert!(id1.contains('-'));
    assert_eq!(id1.len(), 36); // Standard UUID length

    // Should parse as valid UUID
    let uuid1 = uuid::Uuid::parse_str(&id1);
    assert!(uuid1.is_ok());
}

#[test]
fn test_utils_current_timestamp() {
    let timestamp = Utils::current_timestamp();

    // Should not be empty
    assert!(!timestamp.is_empty());

    // Should contain T and end with Z
    assert!(timestamp.contains('T'));
    assert!(timestamp.ends_with('Z'));

    // Should parse back correctly
    let parsed = Utils::parse_timestamp(&timestamp);
    assert!(parsed.is_ok());
}

#[test]
fn test_utils_parse_timestamp() {
    // Test valid timestamp
    let valid_timestamp = "2025-09-20T13:12:26.845448Z";
    let parsed = Utils::parse_timestamp(valid_timestamp);
    assert!(parsed.is_ok());

    // Test invalid timestamp
    let invalid_timestamp = "invalid-timestamp";
    let parsed = Utils::parse_timestamp(invalid_timestamp);
    assert!(parsed.is_err());
}

#[test]
fn parse_timestamp_exact_values() {
    assert_eq!(
        Utils::parse_timestamp("1970-01-01T00:00:00Z").unwrap(),
        Timestamp { secs: 0, micros: 0 }
    );
    assert_eq!(
        Utils::parse_timestamp("1970-01-01T00:00:01.5Z").unwrap(),
        Timestamp { secs: 1, micros: 500000 }
    );
    // a known epoch value: the start of the year 2000
    assert_eq!(
        Utils::parse_timestamp("2000-01-01T00:00:00.000000Z").unwrap(),
        Timestamp { secs: 946684800, micros: 0 }
    );
    // leap-year day
    assert_eq!(
        Utils::parse_timestamp("2000-02-29T12:00:00Z").unwrap(),
        Timestamp { secs: 946684800 + 59 * 86400 + 12 * 3600, micros: 0 }
    );
    // more fraction digits than microseconds are truncated
    assert_eq!(
        Utils::parse_timestamp("1970-01-01T00:00:00.123456789Z").unwrap(),
        Timestamp { secs: 0, micros: 123456 }
    );
}

#[test]
fn parse_timestamp_rejects_bad_fields() {
    assert!(Utils::parse_timestamp("2025-13-01T00:00:00Z").is_err()); // month
    assert!(Utils::parse_timestamp("2025-02-30T00:00:00Z").is_err()); // day
    assert!(Utils::parse_timestamp("2025-01-01T24:00:00Z").is_err()); // hour
    assert!(Utils::parse_timestamp("2025-01-01T00:60:00Z").is_err()); // minute
    assert!(Utils::parse_timestamp("2025-01-01T00:00:60Z").is_err()); // second
    assert!(Utils::parse_timestamp("1969-12-31T23:59:59Z").is_err()); // before the epoch
    assert!(Utils::parse_timestamp("2025-01-01 00:00:00Z").is_err()); // separator
    assert!(Utils::parse_timestamp("2025-01-01T00:00:00").is_err()); // no terminator
    assert!(Utils::parse_timestamp("2025-01-01T00:00:00.Z").is_err()); // empty fraction
    assert!(Utils::parse_timestamp("2025-01-01T00:00:00.1234567890Z").is_err()); // too long
}

#[test]
fn current_timestamp_parses_to_recent_time() {
    let ts = Utils::current_timestamp();
    assert_eq!(ts.len(), 27);
    let parsed = Utils::parse_timestamp(&ts).unwrap();
    // after 2020-01-01 and before 3000-01-01, whatever the test machine's
    // clock drift
    assert!(parsed.secs > 1577836800);
    assert!(parsed.secs < 32503680000);
}
