use rustdb::ast::{AggFunc, Condition, Operator, SelectColumn, Statement};
use rustdb::executor::{
    agg_label, group_and_limit, has_aggregates, matches_condition, DiskAction, Executor,
    NumOrder, NumericOrders, Outcome,
};
use rustdb::parser::Parser;
use rustdb::render::{draw_aggregates, draw_rows};
use rustdb::row::Row;

fn parse(sql: &str) -> Statement {
    let mut p = Parser::new(sql);
    p.parse().unwrap()
}

/// How each value of the involved tables compares, as a number, with the condition's value.
fn orders_for(ex: &Executor, stmt: &Statement) -> NumericOrders {
    let (tables, cond): (Vec<String>, Option<Condition>) = match stmt {
        Statement::Select { table, condition, join, .. } => {
            let mut t = vec![table.clone()];
            if let Some(j) = join {
                t.push(j.table.clone());
            }
            (t, condition.clone())
        }
        Statement::Update { table, condition, .. } => (vec![table.clone()], condition.clone()),
        Statement::Delete { table, condition } => (vec![table.clone()], condition.clone()),
        _ => (vec![], None),
    };
    let mut entries = Vec::new();
    if let Some(c) = cond {
        if let Ok(b) = c.value.parse::<f64>() {
            for t in tables {
                if let Some(rows) = ex.rows_of(&t) {
                    for r in rows {
                        for (_, v) in r.to_pairs() {
                            if let Ok(a) = v.parse::<f64>() {
                                let o = match a.partial_cmp(&b) {
                                    Some(std::cmp::Ordering::Less) => Some(NumOrder::Less),
                                    Some(std::cmp::Ordering::Equal) => Some(NumOrder::Equal),
                                    Some(std::cmp::Ordering::Greater) => Some(NumOrder::Greater),
                                    None => None,
                                };
                                if let Some(o) = o {
                                    entries.push((v, o));
                                }
                            }
                        }
                    }
                }
            }
        }
    }
    NumericOrders { entries }
}

fn run(ex: &mut Executor, sql: &str) -> Result<String, String> {
    let stmt = parse(sql);
    let nums = orders_for(ex, &stmt);
    match ex.execute(stmt, &nums)? {
        Outcome::Done(s) => Ok(s),
        Outcome::Rows(job) => {
            let rows = group_and_limit(job.rows, &job.group_by, job.limit);
            ex.format_result(rows, job.columns, job.table, job.join)
        }
    }
}

fn setup() -> Executor {
    let mut ex = Executor::empty();
    assert_eq!(run(&mut ex, "CREATE TABLE users (id INT, name TEXT, age INT)"), Ok("Table 'users' created.".to_string()));
    assert_eq!(run(&mut ex, "INSERT INTO users VALUES (1, 'Alice', 25)"), Ok("1 row inserted.".to_string()));
    assert_eq!(run(&mut ex, "INSERT INTO users VALUES (2, 'Bob', 30)"), Ok("1 row inserted.".to_string()));
    ex
}

#[test]
fn engine_select_where_greater() {
    let mut ex = setup();
    assert_eq!(
        run(&mut ex, "SELECT * FROM users WHERE age > 24"),
        Ok("+----+-------+-----+\n| id | name  | age |\n+----+-------+-----+\n|  1 | Alice |  25 |\n|  2 | Bob   |  30 |\n+----+-------+-----+\n2 rows returned.".to_string())
    );
    assert_eq!(run(&mut ex, "SELECT * FROM users WHERE age > 40"), Ok("0 rows returned.".to_string()));
}

#[test]
fn engine_select_by_index() {
    let mut ex = setup();
    assert_eq!(
        run(&mut ex, "SELECT name FROM users WHERE id = 2"),
        Ok("+------+\n| name |\n+------+\n| Bob  |\n+------+\n1 rows returned.".to_string())
    );
    assert_eq!(run(&mut ex, "SELECT name FROM users WHERE id = 3"), Ok("0 rows returned.".to_string()));
}

#[test]
fn engine_disk_actions_and_log() {
    let mut ex = Executor::empty();
    run(&mut ex, "CREATE TABLE t (a TEXT)").unwrap();
    run(&mut ex, "INSERT INTO t VALUES ('x')").unwrap();
    let actions = ex.take_disk_actions();
    assert_eq!(actions.len(), 2);
    match &actions[0] {
        DiskAction::SaveSchema(t, cols) => {
            assert_eq!(t, "t");
            assert_eq!(cols, &vec!["a".to_string()]);
        }
        other => panic!("unexpected {:?}", other),
    }
    match &actions[1] {
        DiskAction::SaveTable(t) => assert_eq!(t, "t"),
        other => panic!("unexpected {:?}", other),
    }
    assert_eq!(run(&mut ex, "BEGIN"), Ok("Transaction 1 started.".to_string()));
    run(&mut ex, "INSERT INTO t VALUES ('y')").unwrap();
    // Inside a transaction the insertion is logged and not saved.
    assert!(ex.take_disk_actions().is_empty());
    assert_eq!(run(&mut ex, "COMMIT"), Ok("Transaction committed.".to_string()));
    // The commit saves the table the transaction changed.
    let saved = ex.take_disk_actions();
    assert_eq!(saved.len(), 1);
    assert!(matches!(&saved[0], DiskAction::SaveTable(t) if t == "t"));
    assert_eq!(
        ex.take_log_lines(),
        vec![
            "BEGIN 1\n".to_string(),
            "INSERT 1 t y {\"a\":\"y\"}\n".to_string(),
            "COMMIT 1\n".to_string(),
        ]
    );
    assert_eq!(ex.log_path(), "data/wal.log");
}

#[test]
fn engine_rollback_takes_insert_back() {
    let mut ex = setup();
    assert_eq!(run(&mut ex, "BEGIN"), Ok("Transaction 1 started.".to_string()));
    run(&mut ex, "INSERT INTO users VALUES (3, 'Carol', 40)").unwrap();
    assert_eq!(ex.rows_of("users").unwrap().len(), 3);
    assert_eq!(run(&mut ex, "ROLLBACK"), Ok("Transaction rolled back.".to_string()));
    let rows = ex.rows_of("users").unwrap();
    assert_eq!(rows.len(), 2);
    assert!(rows.iter().all(|r| r.get("id") != Some(&"3".to_string())));
    assert_eq!(run(&mut ex, "SELECT name FROM users WHERE id = 3"), Ok("0 rows returned.".to_string()));
    assert_eq!(run(&mut ex, "ROLLBACK"), Err("No active transaction.".to_string()));
}

#[test]
fn engine_update_and_delete() {
    let mut ex = setup();
    assert_eq!(run(&mut ex, "UPDATE users SET age = 26 WHERE id = 1"), Ok("1 row(s) updated.".to_string()));
    assert_eq!(run(&mut ex, "UPDATE users SET age = 1 WHERE age > 100"), Ok("0 row(s) updated.".to_string()));
    assert_eq!(
        run(&mut ex, "SELECT age FROM users WHERE name = 'Alice'"),
        Ok("+-----+\n| age |\n+-----+\n|  26 |\n+-----+\n1 rows returned.".to_string())
    );
    assert_eq!(run(&mut ex, "DELETE FROM users WHERE age <= 26"), Ok("1 row(s) deleted.".to_string()));
    assert_eq!(ex.rows_of("users").unwrap().len(), 1);
    assert_eq!(run(&mut ex, "DELETE FROM users"), Ok("1 row(s) deleted.".to_string()));
}

#[test]
fn engine_join() {
    let mut ex = setup();
    run(&mut ex, "CREATE TABLE orders (user_id INT, item TEXT)").unwrap();
    run(&mut ex, "INSERT INTO orders VALUES (1, 'Laptop')").unwrap();
    run(&mut ex, "INSERT INTO orders VALUES (2, 'Monitor')").unwrap();
    assert_eq!(
        run(&mut ex, "SELECT name, item FROM users JOIN orders ON id = user_id"),
        Ok("+-------+---------+\n| name  | item    |\n+-------+---------+\n| Alice | Laptop  |\n| Bob   | Monitor |\n+-------+---------+\n2 rows returned.".to_string())
    );
    assert_eq!(
        run(&mut ex, "SELECT u.name, o.item FROM users u JOIN orders o ON u.id = o.user_id"),
        Ok("+-------+---------+\n| name  | item    |\n+-------+---------+\n| Alice | Laptop  |\n| Bob   | Monitor |\n+-------+---------+\n2 rows returned.".to_string())
    );
    assert_eq!(
        run(&mut ex, "SELECT * FROM users JOIN orders ON id = user_id LIMIT 1"),
        Ok("+----+-------+-----+---------+--------+\n| id | name  | age | user_id | item   |\n+----+-------+-----+---------+--------+\n|  1 | Alice |  25 |       1 | Laptop |\n+----+-------+-----+---------+--------+\n1 rows returned.".to_string())
    );
    assert_eq!(
        run(&mut ex, "SELECT * FROM users JOIN nothing ON id = user_id"),
        Err("Table 'nothing' not found".to_string())
    );
}

#[test]
fn engine_group_by_keeps_first_of_each_group() {
    let mut ex = Executor::empty();
    run(&mut ex, "CREATE TABLE t (k TEXT, v TEXT)").unwrap();
    run(&mut ex, "INSERT INTO t VALUES ('a', '1')").unwrap();
    run(&mut ex, "INSERT INTO t VALUES ('b', '2')").unwrap();
    run(&mut ex, "INSERT INTO t VALUES ('a', '3')").unwrap();
    assert_eq!(
        run(&mut ex, "SELECT k, v FROM t GROUP BY k"),
        Ok("+---+---+\n| k | v |\n+---+---+\n| a | 1 |\n| b | 2 |\n+---+---+\n2 rows returned.".to_string())
    );
}

#[test]
fn engine_errors() {
    let mut ex = setup();
    assert_eq!(
        run(&mut ex, "INSERT INTO users VALUES (1, 'x')"),
        Err("Column count mismatch: expected 3, got 2".to_string())
    );
    assert_eq!(run(&mut ex, "INSERT INTO nope VALUES (1)"), Err("Table 'nope' not found".to_string()));
    assert_eq!(run(&mut ex, "SELECT * FROM nope"), Err("Table 'nope' not found".to_string()));
    assert_eq!(run(&mut ex, "DROP TABLE nope"), Err("Table 'nope' not found".to_string()));
    assert_eq!(
        run(&mut ex, "CREATE TABLE users (x INT)"),
        Err("Table 'users' already exists".to_string())
    );
    assert_eq!(run(&mut ex, "BEGIN"), Ok("Transaction 1 started.".to_string()));
    assert_eq!(
        run(&mut ex, "BEGIN"),
        Err("Transaction already active. COMMIT or ROLLBACK first.".to_string())
    );
    assert_eq!(run(&mut ex, "DROP TABLE users"), Ok("Table 'users' dropped.".to_string()));
    assert!(ex.rows_of("users").is_none());
}

#[test]
fn engine_alter_table() {
    let mut ex = setup();
    assert_eq!(
        run(&mut ex, "ALTER TABLE users ADD COLUMN email TEXT"),
        Ok("Column 'email' added to 'users'.".to_string())
    );
    assert_eq!(ex.column_names_of("users").unwrap(), vec!["id", "name", "age", "email"]);
    assert_eq!(ex.rows_of("users").unwrap()[0].get("email"), Some(&String::new()));
    assert_eq!(
        run(&mut ex, "ALTER TABLE users RENAME COLUMN name TO full_name"),
        Ok("Column 'name' renamed to 'full_name' in 'users'.".to_string())
    );
    assert_eq!(ex.rows_of("users").unwrap()[1].get("full_name"), Some(&"Bob".to_string()));
    assert_eq!(ex.rows_of("users").unwrap()[1].get("name"), None);
    assert_eq!(
        run(&mut ex, "ALTER TABLE users DROP COLUMN age"),
        Ok("Column 'age' dropped from 'users'.".to_string())
    );
    assert_eq!(ex.column_names_of("users").unwrap(), vec!["id", "full_name", "email"]);
    assert_eq!(
        run(&mut ex, "ALTER TABLE nope DROP COLUMN age"),
        Err("Table 'nope' not found".to_string())
    );
}

#[test]
fn engine_load_table_indexes_first_column() {
    let mut ex = Executor::empty();
    let mut r = Row::new();
    r.insert("id".to_string(), "5".to_string());
    r.insert("name".to_string(), "Eve".to_string());
    ex.load_table("people".to_string(), vec!["id".to_string(), "name".to_string()], vec![r]);
    assert_eq!(
        run(&mut ex, "SELECT name FROM people WHERE id = 5"),
        Ok("+------+\n| name |\n+------+\n| Eve  |\n+------+\n1 rows returned.".to_string())
    );
    assert!(ex.take_disk_actions().is_empty());
}

#[test]
fn condition_matching() {
    let mut r = Row::new();
    r.insert("age".to_string(), "25".to_string());
    let nums = NumericOrders { entries: vec![("25".to_string(), NumOrder::Greater)] };
    let cond = |op: Operator, v: &str| Some(Condition { column: "age".to_string(), operator: op, value: v.to_string() });
    assert!(matches_condition(&r, &None, &nums));
    assert!(matches_condition(&r, &cond(Operator::Eq, "25"), &nums));
    assert!(!matches_condition(&r, &cond(Operator::Ne, "25"), &nums));
    assert!(matches_condition(&r, &cond(Operator::Gt, "24"), &nums));
    assert!(matches_condition(&r, &cond(Operator::Gte, "24"), &nums));
    assert!(!matches_condition(&r, &cond(Operator::Lt, "24"), &nums));
    assert!(!matches_condition(&r, &cond(Operator::Lte, "24"), &nums));
    let none = NumericOrders { entries: vec![] };
    assert!(!matches_condition(&r, &cond(Operator::Gte, "x"), &none));
    let missing = Some(Condition { column: "zzz".to_string(), operator: Operator::Ne, value: "1".to_string() });
    assert!(!matches_condition(&r, &missing, &nums));
}

#[test]
fn aggregates_are_drawn() {
    assert_eq!(agg_label(AggFunc::Count, "*"), "COUNT(*)");
    assert_eq!(agg_label(AggFunc::Avg, "age"), "AVG(age)");
    assert!(has_aggregates(&vec![SelectColumn::All, SelectColumn::Agg { func: AggFunc::Max, col: "a".to_string() }]));
    assert!(!has_aggregates(&vec![SelectColumn::All]));
    let out = draw_aggregates(&vec![
        ("COUNT(*)".to_string(), "2".to_string()),
        ("AVG(age)".to_string(), "27.50".to_string()),
    ]);
    assert_eq!(
        out,
        "+----------+----------+\n| COUNT(*) | AVG(age) |\n+----------+----------+\n| 2        | 27.50    |\n+----------+----------+"
    );
}

#[test]
fn draw_rows_pads_missing_values() {
    let mut a = Row::new();
    a.insert("x".to_string(), "long value".to_string());
    let b = Row::new();
    let out = draw_rows(&vec!["x".to_string(), "y".to_string()], &vec![a, b]);
    assert_eq!(
        out,
        "+------------+---+\n| x          | y |\n+------------+---+\n| long value |   |\n|            |   |\n+------------+---+\n2 rows returned."
    );
}

#[test]
fn engine_rollback_restores_deleted_and_updated_rows() {
    let mut ex = setup();
    ex.take_disk_actions();
    run(&mut ex, "BEGIN").unwrap();
    assert_eq!(run(&mut ex, "DELETE FROM users WHERE id = 1"), Ok("1 row(s) deleted.".to_string()));
    assert_eq!(run(&mut ex, "UPDATE users SET age = 99 WHERE id = 2"), Ok("1 row(s) updated.".to_string()));
    assert_eq!(ex.txn().undo_log.len(), 2);
    assert_eq!(run(&mut ex, "ROLLBACK"), Ok("Transaction rolled back.".to_string()));
    let rows = ex.rows_of("users").unwrap();
    assert_eq!(rows.len(), 2);
    assert_eq!(rows[0].get("name"), Some(&"Alice".to_string()));
    assert_eq!(rows[1].get("name"), Some(&"Bob".to_string()));
    assert_eq!(rows[1].get("age"), Some(&"30".to_string()));
    let actions = ex.take_disk_actions();
    assert!(actions.iter().all(|a| matches!(a, DiskAction::SaveTable(t) if t == "users")));
}

#[test]
fn engine_rollback_by_first_column_of_any_name() {
    let mut ex = Executor::empty();
    run(&mut ex, "CREATE TABLE items (code TEXT, label TEXT)").unwrap();
    run(&mut ex, "INSERT INTO items VALUES ('a', 'kept')").unwrap();
    run(&mut ex, "BEGIN").unwrap();
    run(&mut ex, "INSERT INTO items VALUES ('b', 'gone')").unwrap();
    assert_eq!(ex.rows_of("items").unwrap().len(), 2);
    assert_eq!(run(&mut ex, "ROLLBACK"), Ok("Transaction rolled back.".to_string()));
    let rows = ex.rows_of("items").unwrap();
    assert_eq!(rows.len(), 1);
    assert_eq!(rows[0].get("code"), Some(&"a".to_string()));
}

#[test]
fn engine_rollback_after_drop_table() {
    let mut ex = setup();
    run(&mut ex, "BEGIN").unwrap();
    run(&mut ex, "INSERT INTO users VALUES (3, 'Carol', 40)").unwrap();
    assert_eq!(run(&mut ex, "DROP TABLE users"), Ok("Table 'users' dropped.".to_string()));
    assert_eq!(run(&mut ex, "ROLLBACK"), Ok("Transaction rolled back.".to_string()));
    assert!(!ex.txn().is_active());
    assert!(ex.rows_of("users").is_none());
}

#[test]
fn engine_where_on_first_column_lists_every_match() {
    let mut ex = setup();
    run(&mut ex, "INSERT INTO users VALUES (1, 'Ann', 50)").unwrap();
    assert_eq!(
        run(&mut ex, "SELECT name FROM users WHERE id = 1"),
        Ok("+-------+\n| name  |\n+-------+\n| Alice |\n| Ann   |\n+-------+\n2 rows returned.".to_string())
    );
    assert_eq!(run(&mut ex, "SELECT name FROM users WHERE id = 1 LIMIT 0"), Ok("0 rows returned.".to_string()));
    assert_eq!(
        run(&mut ex, "SELECT name FROM users WHERE id = 1 LIMIT 1"),
        Ok("+-------+\n| name  |\n+-------+\n| Alice |\n+-------+\n1 rows returned.".to_string())
    );
}

#[test]
fn engine_commit_saves_changed_tables() {
    let mut ex = setup();
    ex.take_disk_actions();
    run(&mut ex, "BEGIN").unwrap();
    run(&mut ex, "INSERT INTO users VALUES (3, 'Carol', 40)").unwrap();
    run(&mut ex, "DELETE FROM users WHERE id = 1").unwrap();
    assert_eq!(run(&mut ex, "COMMIT"), Ok("Transaction committed.".to_string()));
    let actions = ex.take_disk_actions();
    assert!(!actions.is_empty());
    assert!(actions.iter().all(|a| matches!(a, DiskAction::SaveTable(t) if t == "users")));
    assert_eq!(ex.rows_of("users").unwrap().len(), 2);
}

#[test]
fn numbers_are_right_aligned_in_data_cells() {
    let mut a = Row::new();
    a.insert("v".to_string(), "-1.5".to_string());
    let mut b = Row::new();
    b.insert("v".to_string(), "1.2.3".to_string());
    let mut c = Row::new();
    c.insert("v".to_string(), "-".to_string());
    let out = draw_rows(&vec!["v".to_string()], &vec![a, b, c]);
    assert_eq!(
        out,
        "+-------+\n| v     |\n+-------+\n|  -1.5 |\n| 1.2.3 |\n| -     |\n+-------+\n3 rows returned."
    );
}

#[test]
fn engine_rollback_undoes_an_update_of_many_rows() {
    let mut ex = setup();
    run(&mut ex, "BEGIN").unwrap();
    assert_eq!(run(&mut ex, "UPDATE users SET age = 1"), Ok("2 row(s) updated.".to_string()));
    assert_eq!(run(&mut ex, "DELETE FROM users WHERE name = 'Bob'"), Ok("1 row(s) deleted.".to_string()));
    assert_eq!(run(&mut ex, "ROLLBACK"), Ok("Transaction rolled back.".to_string()));
    assert_eq!(
        run(&mut ex, "SELECT * FROM users"),
        Ok("+----+-------+-----+\n| id | name  | age |\n+----+-------+-----+\n|  1 | Alice |  25 |\n|  2 | Bob   |  30 |\n+----+-------+-----+\n2 rows returned.".to_string())
    );
}

#[test]
fn engine_rollback_of_an_update_onto_an_existing_key() {
    let mut ex = Executor::empty();
    run(&mut ex, "CREATE TABLE t (id INT, v TEXT)").unwrap();
    run(&mut ex, "INSERT INTO t VALUES (1, 'a')").unwrap();
    run(&mut ex, "INSERT INTO t VALUES (2, 'b')").unwrap();
    run(&mut ex, "BEGIN").unwrap();
    assert_eq!(run(&mut ex, "UPDATE t SET id = 2 WHERE v = 'a'"), Ok("1 row(s) updated.".to_string()));
    assert_eq!(run(&mut ex, "ROLLBACK"), Ok("Transaction rolled back.".to_string()));
    let rows = ex.rows_of("t").unwrap();
    assert_eq!(rows.len(), 2);
    assert_eq!(rows[0].to_pairs(), vec![("id".to_string(), "1".to_string()), ("v".to_string(), "a".to_string())]);
    assert_eq!(rows[1].to_pairs(), vec![("id".to_string(), "2".to_string()), ("v".to_string(), "b".to_string())]);
}

#[test]
fn engine_rollback_puts_deleted_rows_back_in_place() {
    let mut ex = Executor::empty();
    run(&mut ex, "CREATE TABLE t (k TEXT)").unwrap();
    for v in ["a", "b", "c", "d", "e"] {
        run(&mut ex, &format!("INSERT INTO t VALUES ('{}')", v)).unwrap();
    }
    run(&mut ex, "BEGIN").unwrap();
    assert_eq!(run(&mut ex, "DELETE FROM t WHERE k != 'c'"), Ok("4 row(s) deleted.".to_string()));
    run(&mut ex, "INSERT INTO t VALUES ('x')").unwrap();
    run(&mut ex, "UPDATE t SET k = 'y'").unwrap();
    assert_eq!(run(&mut ex, "ROLLBACK"), Ok("Transaction rolled back.".to_string()));
    let ks: Vec<String> = ex.rows_of("t").unwrap().iter().map(|r| r.get("k").unwrap().clone()).collect();
    assert_eq!(ks, vec!["a", "b", "c", "d", "e"]);
}
