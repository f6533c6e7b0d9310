use migrations::types;
use migrations::{ExecutedMigrationInfo, MigrationInfo, ParseVersionError};
use std::num::IntErrorKind;

fn migration(version: &str, name: &str) -> MigrationInfo {
    MigrationInfo { version: version.parse().unwrap(), name: name.to_owned() }
}

fn text(version: &str, name: &str) -> types::MigrationInfo {
    types::MigrationInfo { version: version.to_owned(), name: name.to_owned() }
}

#[test]
fn a_record_holds_the_canonical_version_text() {
    assert_eq!(text("1.0.0", "first"), migration("1.0.0", "first").to_record());
    assert_eq!(text("1.2.3", "padded"), migration("01.+2.003", "padded").to_record());
    assert_eq!(text("4294967295", ""), migration("4294967295", "").to_record());
}

#[test]
fn a_record_reads_back_as_the_identity() {
    for (version, name) in [("0", "zero"), ("1.0.0", "first"), ("10.20.4294967295", "big")] {
        let info = migration(version, name);
        assert_eq!(info, MigrationInfo::from_record(info.to_record()).unwrap());
    }
}

#[test]
fn an_executed_record_keeps_its_sequence() {
    let executed = ExecutedMigrationInfo { sequence: 7, migration: migration("2.1", "second") };
    let record = executed.to_record();
    assert_eq!(7, record.sequence);
    assert_eq!(text("2.1", "second"), record.migration);
    let read = ExecutedMigrationInfo::from_record(record).unwrap();
    assert_eq!(7, read.sequence);
    assert_eq!(migration("2.1", "second"), read.migration);
}

#[test]
fn a_record_may_write_its_version_in_any_readable_way() {
    let read = MigrationInfo::from_record(text("+1.02", "loose")).unwrap();
    assert_eq!(migration("1.2", "loose"), read);
    assert_eq!(text("1.2", "loose"), read.to_record());
}

#[test]
fn a_record_with_a_malformed_version_is_refused() {
    match MigrationInfo::from_record(text("1.x.0", "bad")) {
        Err(ParseVersionError::ParseIntError(e)) => assert_eq!(&IntErrorKind::InvalidDigit, e.kind()),
        Ok(read) => panic!("read {:?}", read),
    }
    let record = types::ExecutedMigrationInfo { sequence: 1, migration: text("", "bad") };
    match ExecutedMigrationInfo::from_record(record) {
        Err(ParseVersionError::ParseIntError(e)) => assert_eq!(&IntErrorKind::Empty, e.kind()),
        Ok(read) => panic!("read {:?}", read),
    }
}

#[test]
fn clones_are_equal() {
    let executed = ExecutedMigrationInfo { sequence: 3, migration: migration("1.1", "x") };
    let copy = executed.clone();
    assert_eq!(executed.sequence, copy.sequence);
    assert_eq!(executed.migration, copy.migration);
    assert_ne!(migration("1.1", "x"), migration("1.1", "y"));
    assert_ne!(migration("1.1", "x"), migration("1.1.0", "x"));
}
