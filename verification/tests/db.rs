use crabdb::command::{parse, Command};
use crabdb::db::{needs_compaction, Database, DatabaseError, Prepared, COMPACTION_THRESHOLD};
use crabdb::wal::{encode_entry, write_del, write_set, WalEntry, WalError};

/// Runs one command the way the server does, appending its record to `log`.
fn run(db: &mut Database, log: &mut Vec<u8>, cmd: Command) -> Result<String, DatabaseError> {
    match db.prepare(cmd) {
        Prepared::Reply(r) => r,
        Prepared::Write(entry) => {
            log.extend_from_slice(&encode_entry(&entry));
            Ok(db.commit(entry))
        }
    }
}

fn reply(r: Result<String, DatabaseError>) -> String {
    match r {
        Ok(s) => s,
        Err(e) => e.message(),
    }
}

#[test]
fn get_after_set_gives_the_value() {
    let mut db = Database::new();
    let mut log = Vec::new();
    assert_eq!(reply(run(&mut db, &mut log, parse("SET k hello world").unwrap())), "OK");
    assert_eq!(reply(run(&mut db, &mut log, parse("GET k").unwrap())), "VALUE hello world");
    assert_eq!(db.get("k").ok(), Some("hello world"));
}

#[test]
fn set_overwrites() {
    let mut db = Database::new();
    let mut log = Vec::new();
    run(&mut db, &mut log, parse("SET k 1").unwrap()).unwrap();
    run(&mut db, &mut log, parse("SET k 2").unwrap()).unwrap();
    assert_eq!(reply(run(&mut db, &mut log, parse("GET k").unwrap())), "VALUE 2");
}

#[test]
fn get_of_missing_key_is_invalid_key() {
    let db = Database::new();
    match db.prepare(Command::Get("nope".to_owned())) {
        Prepared::Reply(Err(DatabaseError::InvalidKey(k))) => assert_eq!(k, "nope"),
        _ => panic!("expected an invalid key"),
    }
    assert!(matches!(db.get("nope"), Err(DatabaseError::InvalidKey(k)) if k == "nope"));
}

#[test]
fn delete_of_missing_key_is_refused_and_not_logged() {
    let mut db = Database::new();
    let mut log = Vec::new();
    let r = run(&mut db, &mut log, Command::Delete("nope".to_owned()));
    assert!(matches!(r, Err(DatabaseError::InvalidKey(k)) if k == "nope"));
    assert!(log.is_empty());
}

#[test]
fn delete_removes_only_that_key() {
    let mut db = Database::new();
    let mut log = Vec::new();
    for line in ["SET a 1", "SET b 2", "SET c 3", "DELETE a"] {
        assert_eq!(reply(run(&mut db, &mut log, parse(line).unwrap())), "OK");
    }
    assert!(db.get("a").is_err());
    assert_eq!(db.get("b").ok(), Some("2"));
    assert_eq!(db.get("c").ok(), Some("3"));
    assert_eq!(
        reply(run(&mut db, &mut log, parse("GET a").unwrap())),
        "error: no value found for key 'a'"
    );
}

#[test]
fn log_replays_to_the_same_state() {
    let mut db = Database::new();
    let mut log = Vec::new();
    for line in ["SET a 1", "SET b 2", "DELETE a", "SET c 3", "SET b 4", "DELETE c", "SET a 5"] {
        run(&mut db, &mut log, parse(line).unwrap()).unwrap();
    }
    let back = Database::from_log(&log).ok().expect("replay");
    for key in ["a", "b", "c", "d"] {
        assert_eq!(back.get(key).ok(), db.get(key).ok());
    }
    assert_eq!(back.get("a").ok(), Some("5"));
    assert_eq!(back.get("b").ok(), Some("4"));
    assert!(back.get("c").is_err());
}

#[test]
fn compacted_log_holds_exactly_the_state() {
    let mut db = Database::new();
    let mut log = Vec::new();
    for line in ["SET a 1", "SET b 2", "DELETE a", "SET c 3", "SET b 4"] {
        run(&mut db, &mut log, parse(line).unwrap()).unwrap();
    }
    let compacted = db.compacted_log();
    assert!(compacted.len() < log.len());
    let back = Database::from_log(&compacted).ok().expect("replay");
    assert!(back.get("a").is_err());
    assert_eq!(back.get("b").ok(), Some("4"));
    assert_eq!(back.get("c").ok(), Some("3"));
}

#[test]
fn from_log_passes_on_a_corrupt_record() {
    let mut log = Vec::new();
    write_set(&mut log, "a", "1");
    let last = log.len() - 1;
    log[last] ^= 0x55;
    assert!(matches!(Database::from_log(&log), Err(WalError::ChecksumMismatch { .. })));
}

#[test]
fn from_log_ignores_a_truncated_tail() {
    let mut log = Vec::new();
    write_set(&mut log, "a", "1");
    write_del(&mut log, "a");
    let len = log.len();
    log.truncate(len - 1);
    let db = Database::from_log(&log).ok().expect("replay");
    assert_eq!(db.get("a").ok(), Some("1"));
}

#[test]
fn apply_follows_log_entries() {
    let mut db = Database::new();
    db.apply(WalEntry::Put("x".to_owned(), "1".to_owned()));
    assert_eq!(db.get("x").ok(), Some("1"));
    db.apply(WalEntry::Del("x".to_owned()));
    assert!(db.get("x").is_err());
    db.apply(WalEntry::Del("x".to_owned()));
    assert!(db.get("x").is_err());
}

#[test]
fn compaction_starts_past_sixteen_mebibytes() {
    assert_eq!(COMPACTION_THRESHOLD, 16 * 1024 * 1024);
    assert!(!needs_compaction(0));
    assert!(!needs_compaction(16 * 1024 * 1024));
    assert!(needs_compaction(16 * 1024 * 1024 + 1));
}

#[test]
fn database_error_messages() {
    assert_eq!(
        DatabaseError::InvalidKey("k".to_owned()).message(),
        "error: no value found for key 'k'"
    );
    let io = std::io::Error::new(std::io::ErrorKind::Other, "disk on fire");
    assert_eq!(DatabaseError::Io(io).message(), "disk on fire");
}

#[test]
fn from_log_refuses_a_log_with_a_refused_record_after_good_ones() {
    let mut log = Vec::new();
    write_set(&mut log, "a", "1");
    log.push(9);
    assert!(matches!(Database::from_log(&log), Err(WalError::UnknownRecordType(9))));
}
