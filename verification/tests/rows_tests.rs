use gitjournal::model::{JournalEntry, Origin};
use gitjournal::rows::{entry_from_row, write_entries, RawRow, RowError};

fn entry(hash: &str, minutes: u64, label: Option<&str>, timestamp: u64) -> JournalEntry {
    JournalEntry {
        hash: hash.as_bytes().to_vec(),
        minutes,
        label: label.map(|l| l.as_bytes().to_vec()),
        timestamp,
        origin: Origin::Derived,
    }
}

#[test]
fn write_entries_renders_decimal_cells() {
    let entries = vec![
        entry("aaa", 120, Some("fix bug"), 1000),
        entry("bbb", 7, None, 99),
    ];
    let rows = write_entries(&entries);
    assert_eq!(rows.len(), 2);
    assert_eq!(rows[0].hash, b"aaa".to_vec());
    assert_eq!(rows[0].minutes, b"120".to_vec());
    assert_eq!(rows[0].label, b"fix bug".to_vec());
    assert_eq!(rows[0].timestamp, b"1000".to_vec());
    assert_eq!(rows[1].hash, b"bbb".to_vec());
    assert_eq!(rows[1].minutes, b"7".to_vec());
    assert_eq!(rows[1].label, b"".to_vec());
    assert_eq!(rows[1].timestamp, b"99".to_vec());
}

#[test]
fn rows_round_trip_as_loaded_entries() {
    let entries = vec![entry("abc", 90, Some("review"), 12345)];
    let rows = write_entries(&entries);
    let back = entry_from_row(&rows[0]).expect("row should read back");
    assert_eq!(back.hash, entries[0].hash);
    assert_eq!(back.minutes, entries[0].minutes);
    assert_eq!(back.label, entries[0].label);
    assert_eq!(back.timestamp, entries[0].timestamp);
    assert_eq!(back.origin, Origin::Loaded);
}

#[test]
fn bad_minutes_cell_is_corrupt() {
    let row = RawRow {
        hash: b"abc".to_vec(),
        minutes: b"12x".to_vec(),
        label: b"".to_vec(),
        timestamp: b"10".to_vec(),
    };
    assert_eq!(entry_from_row(&row), Err(RowError::BadMinutes));
    let empty = RawRow {
        hash: b"abc".to_vec(),
        minutes: b"".to_vec(),
        label: b"".to_vec(),
        timestamp: b"10".to_vec(),
    };
    assert_eq!(entry_from_row(&empty), Err(RowError::BadMinutes));
    let huge = RawRow {
        hash: b"abc".to_vec(),
        minutes: b"99999999999999999999".to_vec(),
        label: b"".to_vec(),
        timestamp: b"10".to_vec(),
    };
    assert_eq!(entry_from_row(&huge), Err(RowError::BadMinutes));
}

#[test]
fn bad_timestamp_cell_is_corrupt() {
    let row = RawRow {
        hash: b"abc".to_vec(),
        minutes: b"10".to_vec(),
        label: b"".to_vec(),
        timestamp: b"later".to_vec(),
    };
    assert_eq!(entry_from_row(&row), Err(RowError::BadTimestamp));
}

#[test]
fn largest_values_round_trip() {
    let entries = vec![entry("m", u64::MAX, None, u64::MAX)];
    let rows = write_entries(&entries);
    assert_eq!(rows[0].minutes, b"18446744073709551615".to_vec());
    let back = entry_from_row(&rows[0]).expect("largest value should read back");
    assert_eq!(back.minutes, u64::MAX);
    assert_eq!(back.timestamp, u64::MAX);
}
