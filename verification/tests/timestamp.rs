use archivindex_wbm::timestamp::{Error, Timestamp, MAX_TIMESTAMP_SECS, MIN_TIMESTAMP_SECS};

#[test]
fn timestamp_round_trip() {
    let now = chrono::Utc::now();
    let timestamp = Timestamp::from_datetime(now.timestamp(), 0).unwrap();

    let timestamp_str = timestamp.to_string();
    let timestamp_parsed = Timestamp::parse_str(&timestamp_str).unwrap();

    assert_eq!(timestamp, timestamp_parsed);
    assert_eq!(timestamp_str, now.format("%Y%m%d%H%M%S").to_string());
}

#[test]
fn test_timestamp_round_trip() -> Result<(), rusqlite::Error> {
    let conn = rusqlite::Connection::open_in_memory()?;

    conn.execute("CREATE TABLE test (id INTEGER PRIMARY KEY, ts INTEGER NOT NULL)", [])?;

    let now = chrono::Utc::now();
    let timestamp = Timestamp::from_datetime(now.timestamp(), 0).unwrap();

    conn.execute("INSERT INTO test (ts) VALUES (?1)", [timestamp.to_secs()])?;

    let secs: i64 = conn.query_row("SELECT ts FROM test WHERE id = 1", [], |row| row.get(0))?;
    let retrieved = Timestamp::from_secs(secs).unwrap();

    // Compare timestamps (seconds only).
    assert_eq!(retrieved.to_secs(), now.timestamp());
    assert_eq!(timestamp, retrieved);

    Ok(())
}

#[test]
fn test_timestamp_from_sql_valid() {
    let result = Timestamp::from_secs(1_704_067_200); // 2024-01-01 00:00:00 UTC

    assert!(result.is_ok());
    let timestamp = result.unwrap();
    assert_eq!(timestamp.to_secs(), 1_704_067_200);
    assert_eq!(timestamp.to_string(), "20240101000000");
}

#[test]
fn test_timestamp_from_sql_out_of_range() {
    // Test with a value that's out of range for `DateTime`.
    let result = Timestamp::from_secs(i64::MAX);

    assert!(result.is_err());
}

#[test]
fn from_str_rejects_years_before_1000() {
    assert!(Timestamp::parse_str("09990101000000").is_err());
    assert!(Timestamp::parse_str("00010101000000").is_err());
}

#[test]
fn from_str_accepts_year_1000() {
    let timestamp = Timestamp::parse_str("10000101000000").unwrap();

    assert_eq!(timestamp.to_secs(), MIN_TIMESTAMP_SECS);
    assert_eq!(timestamp.to_string(), "10000101000000");
}

#[test]
fn from_str_year_1000_round_trips_through_sql() -> Result<(), rusqlite::Error> {
    let conn = rusqlite::Connection::open_in_memory()?;

    conn.execute("CREATE TABLE test (id INTEGER PRIMARY KEY, ts INTEGER NOT NULL)", [])?;

    let timestamp = Timestamp::parse_str("10000101000000").unwrap();

    conn.execute("INSERT INTO test (ts) VALUES (?1)", [timestamp.to_secs()])?;

    let secs: i64 = conn.query_row("SELECT ts FROM test WHERE id = 1", [], |row| row.get(0))?;

    assert_eq!(Timestamp::from_secs(secs).unwrap(), timestamp);

    Ok(())
}

#[test]
fn try_from_i64_accepts_only_four_digit_years() {
    // The bounds are the first second of year 1000 and the last second of year 9999.
    let min = Timestamp::from_secs(MIN_TIMESTAMP_SECS).unwrap();
    let max = Timestamp::from_secs(MAX_TIMESTAMP_SECS).unwrap();
    assert_eq!(min.to_string(), "10000101000000");
    assert_eq!(max.to_string(), "99991231235959");

    // Everything in range round-trips through the fourteen-digit representation.
    assert_eq!(Timestamp::parse_str(&max.to_string()).unwrap(), max);

    // Out-of-range instants would break the fourteen-digit representation, so they are rejected
    // rather than accepted silently.
    assert!(Timestamp::from_secs(MIN_TIMESTAMP_SECS - 1).is_err());
    assert!(Timestamp::from_secs(MAX_TIMESTAMP_SECS + 1).is_err());
}

#[test]
fn timestamp_errors_say_what_was_refused() {
    assert_eq!(
        Timestamp::parse_str("2024"),
        Err(Error::InvalidLength("2024".to_string()))
    );
    assert_eq!(
        Timestamp::parse_str("20240230000000"),
        Err(Error::InvalidValue("20240230000000".to_string()))
    );
    assert_eq!(
        Timestamp::from_secs(MAX_TIMESTAMP_SECS + 1),
        Err(Error::InvalidTimestampI64(MAX_TIMESTAMP_SECS + 1))
    );
    assert_eq!(
        Timestamp::from_datetime(1, 5),
        Err(Error::SubsecondDateTime { secs: 1, nanos: 5 })
    );
}

#[test]
fn leap_days_are_dates() {
    assert_eq!(Timestamp::parse_str("20240229120000").unwrap().to_secs(), 1_709_208_000);
    assert!(Timestamp::parse_str("20230229120000").is_err());
    assert!(Timestamp::parse_str("19000229120000").is_err());
    assert!(Timestamp::parse_str("20000229120000").is_ok());
}
