use rustdb::row::Row;
use rustdb::txn::{TransactionManager, UndoOp};
use rustdb::wal::{log_line, push_decimal, LogRecord, Wal};

fn row_of(pairs: &[(&str, &str)]) -> Row {
    Row::from_pairs(pairs.iter().map(|(k, v)| (k.to_string(), v.to_string())).collect())
}

#[test]
fn wal_lines() {
    assert_eq!(log_line(&LogRecord::Begin(7)), "BEGIN 7\n");
    assert_eq!(log_line(&LogRecord::Commit(0)), "COMMIT 0\n");
    assert_eq!(log_line(&LogRecord::Abort(12345)), "ABORT 12345\n");
    assert_eq!(
        log_line(&LogRecord::Insert {
            txn_id: 3,
            table: "users".to_string(),
            key: "1".to_string(),
            value: "{\"id\":\"1\"}".to_string(),
        }),
        "INSERT 3 users 1 {\"id\":\"1\"}\n"
    );
    assert_eq!(
        log_line(&LogRecord::Update {
            txn_id: 4,
            table: "t".to_string(),
            key: "k".to_string(),
            old_value: "o".to_string(),
            new_value: "n".to_string(),
        }),
        "UPDATE 4 t k o n\n"
    );
    assert_eq!(
        log_line(&LogRecord::Delete {
            txn_id: 5,
            table: "t".to_string(),
            key: "k".to_string(),
            old_value: "o".to_string(),
        }),
        "DELETE 5 t k o\n"
    );
}

#[test]
fn decimal_numerals() {
    let mut s = String::new();
    push_decimal(&mut s, 0);
    s.push(' ');
    push_decimal(&mut s, 10);
    s.push(' ');
    push_decimal(&mut s, u64::MAX);
    assert_eq!(s, "0 10 18446744073709551615");
}

#[test]
fn wal_keeps_lines_in_order_until_taken() {
    let mut w = Wal::new("data/wal.log");
    assert_eq!(w.path(), "data/wal.log");
    w.log(LogRecord::Begin(1));
    w.log(LogRecord::Commit(1));
    assert_eq!(w.take_lines(), vec!["BEGIN 1\n".to_string(), "COMMIT 1\n".to_string()]);
    assert_eq!(w.take_lines(), Vec::<String>::new());
}

#[test]
fn txn_begin_commit() {
    let mut t = TransactionManager::new();
    assert!(!t.is_active());
    assert_eq!(t.begin(), Ok(1));
    assert!(t.is_active());
    assert_eq!(
        t.begin(),
        Err("Transaction already active. COMMIT or ROLLBACK first.".to_string())
    );
    assert_eq!(t.commit(), Ok(()));
    assert!(!t.is_active());
    assert_eq!(t.commit(), Err("No active transaction.".to_string()));
    assert_eq!(t.begin(), Ok(2));
    assert_eq!(t.next_txn_id, 3);
    assert_eq!(
        t.wal.take_lines(),
        vec!["BEGIN 1\n".to_string(), "COMMIT 1\n".to_string(), "BEGIN 2\n".to_string()]
    );
}

#[test]
fn txn_abort_returns_undo_last_first() {
    let mut t = TransactionManager::new();
    assert!(t.abort().is_err());
    t.begin().unwrap();
    t.log_insert("users", "1", 4, "{}");
    t.log_delete("users", "2", 1, row_of(&[("id", "2")]));
    t.log_insert("orders", "9", 0, "{}");
    let ops = t.abort().unwrap();
    assert_eq!(ops.len(), 3);
    match &ops[0] {
        UndoOp::Insert { table, key, pos } => {
            assert_eq!(table, "orders");
            assert_eq!(key, "9");
            assert_eq!(*pos, 0);
        }
        other => panic!("unexpected {:?}", other),
    }
    match &ops[1] {
        UndoOp::Delete { table, key, pos, old_value } => {
            assert_eq!(table, "users");
            assert_eq!(key, "2");
            assert_eq!(*pos, 1);
            assert_eq!(old_value.get("id"), Some(&"2".to_string()));
        }
        other => panic!("unexpected {:?}", other),
    }
    match &ops[2] {
        UndoOp::Insert { table, key, pos } => {
            assert_eq!(table, "users");
            assert_eq!(key, "1");
            assert_eq!(*pos, 4);
        }
        other => panic!("unexpected {:?}", other),
    }
    assert!(!t.is_active());
    assert!(t.undo_log.is_empty());
    let lines = t.wal.take_lines();
    assert_eq!(lines[0], "BEGIN 1\n");
    assert_eq!(lines[1], "INSERT 1 users 1 {}\n");
    assert_eq!(lines[2], "DELETE 1 users 2 {\"id\":\"2\"}\n");
    assert_eq!(lines[3], "INSERT 1 orders 9 {}\n");
    assert_eq!(lines[4], "ABORT 1\n");
}

#[test]
fn txn_logging_outside_a_transaction_does_nothing() {
    let mut t = TransactionManager::new();
    t.log_insert("users", "1", 0, "{}");
    t.log_update("users", "1", 0, row_of(&[("id", "1")]), "{}");
    t.log_delete("users", "1", 0, row_of(&[("id", "1")]));
    assert!(t.undo_log.is_empty());
    assert!(t.wal.take_lines().is_empty());
}

#[test]
fn txn_update_logs_old_row_as_json() {
    let mut t = TransactionManager::new();
    t.begin().unwrap();
    t.log_update("users", "1", 0, row_of(&[("name", "Al"), ("id", "1")]), "{\"id\":\"1\"}");
    let lines = t.wal.take_lines();
    assert_eq!(lines[1], "UPDATE 1 users 1 {\"id\":\"1\",\"name\":\"Al\"} {\"id\":\"1\"}\n");
}

#[test]
fn row_map_operations() {
    let mut r = Row::new();
    assert_eq!(r.get("a"), None);
    r.insert("a".to_string(), "1".to_string());
    r.insert("b".to_string(), "2".to_string());
    r.insert("a".to_string(), "3".to_string());
    assert_eq!(r.get("a"), Some(&"3".to_string()));
    assert_eq!(r.to_pairs(), vec![("a".to_string(), "3".to_string()), ("b".to_string(), "2".to_string())]);
    assert_eq!(r.remove("a"), Some("3".to_string()));
    assert_eq!(r.remove("a"), None);
    let mut other = Row::new();
    other.insert("b".to_string(), "x".to_string());
    other.insert("c".to_string(), "y".to_string());
    r.extend(&other);
    assert_eq!(r.get("b"), Some(&"x".to_string()));
    assert_eq!(r.get("c"), Some(&"y".to_string()));
    let d = r.duplicate();
    assert_eq!(d.to_pairs(), r.to_pairs());
}

#[test]
fn row_from_pairs_later_wins() {
    let r = row_of(&[("a", "1"), ("a", "2")]);
    assert_eq!(r.get("a"), Some(&"2".to_string()));
    assert_eq!(r.to_pairs().len(), 1);
}
