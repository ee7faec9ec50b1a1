use rustdb::ast::{
    AggFunc, AlterAction, ColumnDef, Condition, DataType, Join, Operator, OrderBy, SelectColumn,
    Statement,
};
use rustdb::lexer::{Lexer, Token};
use rustdb::parser::{parse_usize, Parser};
use rustdb::text::whitespace;

fn tokens(s: &str) -> Vec<Token> {
    let mut l = Lexer::new(s);
    l.tokenize()
}

fn parse(s: &str) -> Result<Statement, String> {
    let mut p = Parser::new(s);
    p.parse()
}

#[test]
fn tokenize_keywords_any_case() {
    assert_eq!(
        tokens("select From wHeRe"),
        vec![Token::Select, Token::From, Token::Where]
    );
}

#[test]
fn tokenize_symbols_and_operators() {
    assert_eq!(
        tokens("* , ; ( ) . = != > >= < <="),
        vec![
            Token::Asterisk,
            Token::Comma,
            Token::Semicolon,
            Token::LParen,
            Token::RParen,
            Token::Dot,
            Token::Eq,
            Token::Ne,
            Token::Gt,
            Token::Gte,
            Token::Lt,
            Token::Lte,
        ]
    );
}

#[test]
fn tokenize_literals() {
    assert_eq!(
        tokens("'Alice' 25 3.5 user_id"),
        vec![
            Token::StringLit("Alice".to_string()),
            Token::NumberLit("25".to_string()),
            Token::NumberLit("3.5".to_string()),
            Token::Ident("user_id".to_string()),
        ]
    );
}

#[test]
fn tokenize_unterminated_string_takes_the_rest() {
    assert_eq!(tokens("'abc"), vec![Token::StringLit("abc".to_string())]);
}

#[test]
fn tokenize_skips_unknown_characters_and_lone_bang() {
    assert_eq!(tokens("a # ! b"), vec![Token::Ident("a".to_string()), Token::Ident("b".to_string())]);
}

#[test]
fn tokenize_set_keyword() {
    assert_eq!(tokens("SET"), vec![Token::SetKw]);
}

#[test]
fn tokenize_empty_input() {
    assert_eq!(tokens("   \t\n"), Vec::<Token>::new());
}

#[test]
fn parse_create_table() {
    assert_eq!(
        parse("CREATE TABLE users (id INT, name TEXT, age INT)"),
        Ok(Statement::CreateTable {
            name: "users".to_string(),
            columns: vec![
                ColumnDef { name: "id".to_string(), data_type: DataType::Int },
                ColumnDef { name: "name".to_string(), data_type: DataType::Text },
                ColumnDef { name: "age".to_string(), data_type: DataType::Int },
            ],
        })
    );
}

#[test]
fn parse_insert_values() {
    assert_eq!(
        parse("INSERT INTO users VALUES (1, 'Alice', 25)"),
        Ok(Statement::Insert {
            table: "users".to_string(),
            values: vec!["1".to_string(), "Alice".to_string(), "25".to_string()],
        })
    );
}

#[test]
fn parse_select_where() {
    assert_eq!(
        parse("SELECT * FROM users WHERE age > 24"),
        Ok(Statement::Select {
            table: "users".to_string(),
            columns: vec![SelectColumn::All],
            condition: Some(Condition {
                column: "age".to_string(),
                operator: Operator::Gt,
                value: "24".to_string(),
            }),
            join: None,
            order_by: None,
            group_by: None,
            limit: None,
        })
    );
}

#[test]
fn parse_select_full() {
    assert_eq!(
        parse("SELECT name, COUNT(*) FROM users JOIN orders ON id = user_id WHERE age >= 25 GROUP BY name ORDER BY name DESC LIMIT 2"),
        Ok(Statement::Select {
            table: "users".to_string(),
            columns: vec![
                SelectColumn::Column("name".to_string()),
                SelectColumn::Agg { func: AggFunc::Count, col: "*".to_string() },
            ],
            condition: Some(Condition {
                column: "age".to_string(),
                operator: Operator::Gte,
                value: "25".to_string(),
            }),
            join: Some(Join {
                table: "orders".to_string(),
                left_col: "id".to_string(),
                right_col: "user_id".to_string(),
            }),
            order_by: Some(OrderBy { column: "name".to_string(), ascending: false }),
            group_by: Some(vec!["name".to_string()]),
            limit: Some(2),
        })
    );
}

#[test]
fn parse_limit_that_is_no_number_gives_zero() {
    match parse("SELECT * FROM t LIMIT 1.5") {
        Ok(Statement::Select { limit, .. }) => assert_eq!(limit, Some(0)),
        other => panic!("unexpected {:?}", other),
    }
}

#[test]
fn parse_update_and_delete() {
    assert_eq!(
        parse("UPDATE users SET age = 26, name = 'Al' WHERE id = 1"),
        Ok(Statement::Update {
            table: "users".to_string(),
            assignments: vec![
                ("age".to_string(), "26".to_string()),
                ("name".to_string(), "Al".to_string()),
            ],
            condition: Some(Condition {
                column: "id".to_string(),
                operator: Operator::Eq,
                value: "1".to_string(),
            }),
        })
    );
    assert_eq!(
        parse("DELETE FROM users"),
        Ok(Statement::Delete { table: "users".to_string(), condition: None })
    );
}

#[test]
fn parse_transactions_and_drop() {
    assert_eq!(parse("BEGIN"), Ok(Statement::Begin));
    assert_eq!(parse("COMMIT"), Ok(Statement::Commit));
    assert_eq!(parse("ROLLBACK"), Ok(Statement::Rollback));
    assert_eq!(parse("DROP TABLE users"), Ok(Statement::DropTable { name: "users".to_string() }));
}

#[test]
fn parse_alter_actions() {
    assert_eq!(
        parse("ALTER TABLE users ADD COLUMN email TEXT"),
        Ok(Statement::AlterTable {
            table: "users".to_string(),
            action: AlterAction::AddColumn(ColumnDef { name: "email".to_string(), data_type: DataType::Text }),
        })
    );
    assert_eq!(
        parse("ALTER TABLE users DROP COLUMN email"),
        Ok(Statement::AlterTable {
            table: "users".to_string(),
            action: AlterAction::DropColumn("email".to_string()),
        })
    );
    assert_eq!(
        parse("ALTER TABLE users RENAME COLUMN name TO full_name"),
        Ok(Statement::AlterTable {
            table: "users".to_string(),
            action: AlterAction::RenameColumn { from: "name".to_string(), to: "full_name".to_string() },
        })
    );
}

#[test]
fn parse_errors_name_what_was_found() {
    assert_eq!(parse("begin"), Err("Unknown statement: Some(Ident(\"begin\"))".to_string()));
    assert_eq!(parse(""), Err("Unknown statement: None".to_string()));
    assert_eq!(parse("SELECT * users"), Err("Expected FROM, got Some(Ident(\"users\"))".to_string()));
    assert_eq!(parse("INSERT users"), Err("Expected INTO, got Some(Ident(\"users\"))".to_string()));
    assert_eq!(parse("CREATE TABLE t (a CHAR)"), Err("Expected data type, got Some(Ident(\"CHAR\"))".to_string()));
    assert_eq!(parse("SELECT * FROM t WHERE a"), Err("Expected operator, got None".to_string()));
    assert_eq!(
        parse("ALTER TABLE t MODIFY a"),
        Err("Expected ADD, DROP, or RENAME, got Some(Ident(\"MODIFY\"))".to_string())
    );
}

#[test]
fn parse_aliases_and_qualified_columns() {
    assert_eq!(
        parse("SELECT u.name, o.item FROM users u JOIN orders o ON u.id = o.user_id"),
        Ok(Statement::Select {
            table: "users".to_string(),
            columns: vec![
                SelectColumn::Column("name".to_string()),
                SelectColumn::Column("item".to_string()),
            ],
            condition: None,
            join: Some(Join {
                table: "orders".to_string(),
                left_col: "id".to_string(),
                right_col: "user_id".to_string(),
            }),
            order_by: None,
            group_by: None,
            limit: None,
        })
    );
    assert_eq!(
        parse("SELECT * FROM users u WHERE age > 3 GROUP BY name ORDER BY age"),
        Ok(Statement::Select {
            table: "users".to_string(),
            columns: vec![SelectColumn::All],
            condition: Some(Condition {
                column: "age".to_string(),
                operator: Operator::Gt,
                value: "3".to_string(),
            }),
            join: None,
            order_by: Some(OrderBy { column: "age".to_string(), ascending: true }),
            group_by: Some(vec!["name".to_string()]),
            limit: None,
        })
    );
    // Qualified names stand in the select list and the ON clause only.
    assert_eq!(
        parse("SELECT * FROM users u WHERE u.age > 3"),
        Err("Expected operator, got Some(Dot)".to_string())
    );
    assert_eq!(
        parse("SELECT COUNT(u.id) FROM users u"),
        Err("Expected ')', got Some(Dot)".to_string())
    );
    assert_eq!(
        parse("SELECT u. FROM users u"),
        Err("Expected identifier, got Some(From)".to_string())
    );
}

#[test]
fn parse_usize_reads_digits_only() {
    assert_eq!(parse_usize("42"), Some(42));
    assert_eq!(parse_usize("+7"), Some(7));
    assert_eq!(parse_usize(""), None);
    assert_eq!(parse_usize("1.5"), None);
    assert_eq!(parse_usize("99999999999999999999999"), None);
}

#[test]
fn parse_error_names_set_keyword() {
    assert_eq!(parse("SELECT SET FROM t"), Err("Expected identifier, got Some(Set)".to_string()));
    assert_eq!(parse("UPDATE t age = 1"), Err("Expected SET, got Some(Ident(\"age\"))".to_string()));
}

#[test]
fn tokenize_unicode_white_space_separates_words() {
    assert_eq!(
        tokens("a\u{3000}b\u{85}c\u{2009}d"),
        vec![
            Token::Ident("a".to_string()),
            Token::Ident("b".to_string()),
            Token::Ident("c".to_string()),
            Token::Ident("d".to_string()),
        ]
    );
    assert!(whitespace('\u{A0}'));
    assert!(whitespace('\u{000B}'));
    assert!(!whitespace('\u{200B}'));
    assert!(!whitespace('x'));
    for c in ['\t', '\n', '\r', ' ', '\u{1680}', '\u{2028}', '\u{205F}', '\u{202F}'] {
        assert_eq!(whitespace(c), c.is_whitespace());
    }
}
