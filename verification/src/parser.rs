//! The parser: turns the tokens of one SQL statement into a `Statement`.

use vstd::prelude::*;
use crate::ast::{
    opt_condition_view, pairs_view, strings_view,
    AggFunc, AlterAction, ColumnDef, Condition, DataType, Join, Operator, OrderBy, SelectColumn,
    SpecAlterAction, SpecColumnDef, SpecCondition, SpecJoin, SpecOrderBy, SpecSelectColumn,
    SpecStatement, Statement,
};
use crate::lexer::{
    lemma_lex_len, opt_token_view, same_token, show_token, shown_token, tokens_of,
    tokens_view, Lexer, SpecToken, Token,
};
use crate::text::{is_ascii_digit, same_text};
use crate::wal::decimal;

verus! {

// ---------------------------------------------------------------------------
// The grammar, as functions from a token sequence and a position to what is read there
// and the position after it. A failure carries the error message and the position that
// reading had reached.
// ---------------------------------------------------------------------------

pub type SpecParsed<A> = Result<(A, int), (Seq<char>, int)>;

pub open spec fn tok_at(t: Seq<SpecToken>, i: int) -> Option<SpecToken> {
    if 0 <= i < t.len() {
        Some(t[i])
    } else {
        None
    }
}

/// `Expected <what>, got <token>`.
pub open spec fn expected_msg(what: Seq<char>, got: Option<SpecToken>) -> Seq<char> {
    "Expected "@ + what + ", got "@ + shown_token(got)
}

/// Reads the token `k` at `i`.
pub open spec fn sp_expect(t: Seq<SpecToken>, i: int, k: SpecToken, what: Seq<char>) -> SpecParsed<()> {
    if tok_at(t, i) == Some(k) {
        Ok(((), i + 1))
    } else {
        Err((expected_msg(what, tok_at(t, i)), i + 1))
    }
}

/// Reads an identifier at `i`.
pub open spec fn sp_ident(t: Seq<SpecToken>, i: int) -> SpecParsed<Seq<char>> {
    match tok_at(t, i) {
        Some(SpecToken::Ident(s)) => Ok((s, i + 1)),
        other => Err((expected_msg("identifier"@, other), i + 1)),
    }
}

/// A column name at `i`: an identifier, or `table.column`, of which the column's name is
/// kept.
pub open spec fn sp_column(t: Seq<SpecToken>, i: int) -> SpecParsed<Seq<char>> {
    match sp_ident(t, i) {
        Err(e) => Err(e),
        Ok((c, j)) => if tok_at(t, j) == Some(SpecToken::Dot) {
            sp_ident(t, j + 1)
        } else {
            Ok((c, j))
        },
    }
}

/// The position after an optional alias at `i`: an identifier after a table's name.
pub open spec fn sp_alias(t: Seq<SpecToken>, i: int) -> int {
    match tok_at(t, i) {
        Some(SpecToken::Ident(_)) => i + 1,
        _ => i,
    }
}

/// The text of a literal or identifier token, which may stand as a value.
pub open spec fn value_text(tok: Option<SpecToken>) -> Option<Seq<char>> {
    match tok {
        Some(SpecToken::StringLit(s)) => Some(s),
        Some(SpecToken::NumberLit(n)) => Some(n),
        Some(SpecToken::Ident(s)) => Some(s),
        _ => None,
    }
}

/// Reads a value at `i`.
pub open spec fn sp_value(t: Seq<SpecToken>, i: int) -> SpecParsed<Seq<char>> {
    match value_text(tok_at(t, i)) {
        Some(v) => Ok((v, i + 1)),
        None => Err((expected_msg("value"@, tok_at(t, i)), i + 1)),
    }
}

pub open spec fn operator_of(tok: Option<SpecToken>) -> Option<Operator> {
    match tok {
        Some(SpecToken::Eq) => Some(Operator::Eq),
        Some(SpecToken::Ne) => Some(Operator::Ne),
        Some(SpecToken::Gt) => Some(Operator::Gt),
        Some(SpecToken::Lt) => Some(Operator::Lt),
        Some(SpecToken::Gte) => Some(Operator::Gte),
        Some(SpecToken::Lte) => Some(Operator::Lte),
        _ => None,
    }
}

pub open spec fn data_type_of(tok: Option<SpecToken>) -> Option<DataType> {
    match tok {
        Some(SpecToken::Int) => Some(DataType::Int),
        Some(SpecToken::Text) => Some(DataType::Text),
        Some(SpecToken::Float) => Some(DataType::Float),
        Some(SpecToken::Boolean) => Some(DataType::Boolean),
        _ => None,
    }
}

pub open spec fn agg_of(tok: Option<SpecToken>) -> Option<AggFunc> {
    match tok {
        Some(SpecToken::Count) => Some(AggFunc::Count),
        Some(SpecToken::Sum) => Some(AggFunc::Sum),
        Some(SpecToken::Avg) => Some(AggFunc::Avg),
        Some(SpecToken::Min) => Some(AggFunc::Min),
        Some(SpecToken::Max) => Some(AggFunc::Max),
        _ => None,
    }
}

/// Reads a column type at `i`.
pub open spec fn sp_data_type(t: Seq<SpecToken>, i: int) -> SpecParsed<DataType> {
    match data_type_of(tok_at(t, i)) {
        Some(d) => Ok((d, i + 1)),
        None => Err((expected_msg("data type"@, tok_at(t, i)), i + 1)),
    }
}

/// `column <op> value`.
pub open spec fn sp_condition(t: Seq<SpecToken>, i: int) -> SpecParsed<SpecCondition> {
    match sp_ident(t, i) {
        Err(e) => Err(e),
        Ok((column, j)) => match operator_of(tok_at(t, j)) {
            None => Err((expected_msg("operator"@, tok_at(t, j)), j + 1)),
            Some(operator) => match value_text(tok_at(t, j + 1)) {
                None => Err((expected_msg("value"@, tok_at(t, j + 1)), j + 2)),
                Some(value) => Ok((SpecCondition { column, operator, value }, j + 2)),
            },
        },
    }
}

/// An optional `WHERE` clause at `i`.
pub open spec fn sp_where(t: Seq<SpecToken>, i: int) -> SpecParsed<Option<SpecCondition>> {
    if tok_at(t, i) == Some(SpecToken::Where) {
        match sp_condition(t, i + 1) {
            Err(e) => Err(e),
            Ok((c, j)) => Ok((Some(c), j)),
        }
    } else {
        Ok((None, i))
    }
}

/// One item of a select list.
pub open spec fn sp_select_item(t: Seq<SpecToken>, i: int) -> SpecParsed<SpecSelectColumn> {
    if tok_at(t, i) == Some(SpecToken::Asterisk) {
        Ok((SpecSelectColumn::All, i + 1))
    } else if agg_of(tok_at(t, i)) is Some {
        let func = agg_of(tok_at(t, i))->0;
        if tok_at(t, i + 1) != Some(SpecToken::LParen) {
            Err((expected_msg("'('"@, tok_at(t, i + 1)), i + 2))
        } else {
            let col = match tok_at(t, i + 2) {
                Some(SpecToken::Asterisk) => Some("*"@),
                Some(SpecToken::Ident(s)) => Some(s),
                _ => None,
            };
            match col {
                None => Err((expected_msg("column"@, tok_at(t, i + 2)), i + 3)),
                Some(col) => if tok_at(t, i + 3) != Some(SpecToken::RParen) {
                    Err((expected_msg("')'"@, tok_at(t, i + 3)), i + 4))
                } else {
                    Ok((SpecSelectColumn::Agg { func, col }, i + 4))
                },
            }
        }
    } else {
        match sp_column(t, i) {
            Err(e) => Err(e),
            Ok((c, j)) => Ok((SpecSelectColumn::Column(c), j)),
        }
    }
}

/// Prepends what was read before to a list read after it.
pub open spec fn prepend<A>(prefix: Seq<A>, r: SpecParsed<Seq<A>>) -> SpecParsed<Seq<A>> {
    match r {
        Ok((xs, j)) => Ok((prefix + xs, j)),
        Err(e) => Err(e),
    }
}

pub proof fn lemma_prepend_assoc<A>(a: Seq<A>, b: Seq<A>, r: SpecParsed<Seq<A>>)
    ensures
        prepend(a, prepend(b, r)) == prepend(a + b, r),
{
    match r {
        Ok((xs, j)) => {
            assert(a + (b + xs) =~= (a + b) + xs);
        },
        Err(_) => {},
    }
}

/// The select list: items separated by commas.
pub open spec fn sp_select_list(t: Seq<SpecToken>, i: int) -> SpecParsed<Seq<SpecSelectColumn>>
    decreases t.len() - i,
{
    match sp_select_item(t, i) {
        Err(e) => Err(e),
        Ok((c, j)) => if tok_at(t, j) == Some(SpecToken::Comma) && j >= i {
            prepend(seq![c], sp_select_list(t, j + 1))
        } else {
            Ok((seq![c], j))
        },
    }
}

/// Identifiers separated by commas.
pub open spec fn sp_ident_list(t: Seq<SpecToken>, i: int) -> SpecParsed<Seq<Seq<char>>>
    decreases t.len() - i,
{
    match sp_ident(t, i) {
        Err(e) => Err(e),
        Ok((c, j)) => if tok_at(t, j) == Some(SpecToken::Comma) && j >= i {
            prepend(seq![c], sp_ident_list(t, j + 1))
        } else {
            Ok((seq![c], j))
        },
    }
}

/// An optional `JOIN table [alias] ON left = right` at `i`.
pub open spec fn sp_join(t: Seq<SpecToken>, i: int) -> SpecParsed<Option<SpecJoin>> {
    if tok_at(t, i) == Some(SpecToken::Join) {
        match sp_ident(t, i + 1) {
            Err(e) => Err(e),
            Ok((table, j)) => match sp_expect(t, sp_alias(t, j), SpecToken::On, "ON"@) {
                Err(e) => Err(e),
                Ok((_, j)) => match sp_column(t, j) {
                    Err(e) => Err(e),
                    Ok((left_col, j)) => match sp_expect(t, j, SpecToken::Eq, "="@) {
                        Err(e) => Err(e),
                        Ok((_, j)) => match sp_column(t, j) {
                            Err(e) => Err(e),
                            Ok((right_col, j)) => Ok((Some(SpecJoin { table, left_col, right_col }), j)),
                        },
                    },
                },
            },
        }
    } else {
        Ok((None, i))
    }
}

/// An optional `GROUP BY` list at `i`.
pub open spec fn sp_group_by(t: Seq<SpecToken>, i: int) -> SpecParsed<Option<Seq<Seq<char>>>> {
    if tok_at(t, i) == Some(SpecToken::Group) {
        match sp_expect(t, i + 1, SpecToken::By, "BY"@) {
            Err(e) => Err(e),
            Ok((_, j)) => match sp_ident_list(t, j) {
                Err(e) => Err(e),
                Ok((cols, j)) => Ok((Some(cols), j)),
            },
        }
    } else {
        Ok((None, i))
    }
}

/// An optional `ORDER BY column [ASC|DESC]` at `i`.
pub open spec fn sp_order_by(t: Seq<SpecToken>, i: int) -> SpecParsed<Option<SpecOrderBy>> {
    if tok_at(t, i) == Some(SpecToken::Order) {
        match sp_expect(t, i + 1, SpecToken::By, "BY"@) {
            Err(e) => Err(e),
            Ok((_, j)) => match sp_ident(t, j) {
                Err(e) => Err(e),
                Ok((column, j)) => if tok_at(t, j) == Some(SpecToken::Desc) {
                    Ok((Some(SpecOrderBy { column, ascending: false }), j + 1))
                } else if tok_at(t, j) == Some(SpecToken::Asc) {
                    Ok((Some(SpecOrderBy { column, ascending: true }), j + 1))
                } else {
                    Ok((Some(SpecOrderBy { column, ascending: true }), j))
                },
            },
        }
    } else {
        Ok((None, i))
    }
}

/// The value of a sequence of decimal digits.
pub open spec fn digits_value(s: Seq<char>) -> int
    decreases s.len(),
{
    if s.len() == 0 {
        0
    } else {
        digits_value(s.drop_last()) * 10 + (s.last() as int - '0' as int)
    }
}

pub open spec fn all_ascii_digits(d: Seq<char>) -> bool {
    forall|k: int| 0 <= k < d.len() ==> is_ascii_digit(#[trigger] d[k])
}

/// The text without its leading `+`, if it has one.
pub open spec fn unsigned_digits(s: Seq<char>) -> Seq<char> {
    if s.len() > 0 && s[0] == '+' {
        s.drop_first()
    } else {
        s
    }
}

/// What `str::parse::<usize>` gives: an optional `+`, then one or more decimal digits
/// whose value fits in `usize`.
pub open spec fn parse_usize_text(s: Seq<char>) -> Option<usize> {
    let d = unsigned_digits(s);
    if d.len() > 0 && all_ascii_digits(d) && digits_value(d) <= usize::MAX {
        Some(digits_value(d) as usize)
    } else {
        None
    }
}

/// An optional `LIMIT n` at `i`; a number that does not read as a `usize` gives 0.
pub open spec fn sp_limit(t: Seq<SpecToken>, i: int) -> SpecParsed<Option<usize>> {
    if tok_at(t, i) == Some(SpecToken::Limit) {
        match tok_at(t, i + 1) {
            Some(SpecToken::NumberLit(n)) => Ok((
                Some(
                    match parse_usize_text(n) {
                        Some(v) => v,
                        None => 0,
                    },
                ),
                i + 2,
            )),
            other => Err((expected_msg("number"@, other), i + 2)),
        }
    } else {
        Ok((None, i))
    }
}

/// `SELECT` (already read) `list FROM table [JOIN ..] [WHERE ..] [GROUP BY ..]
/// [ORDER BY ..] [LIMIT n]`.
pub open spec fn sp_select(t: Seq<SpecToken>, i: int) -> SpecParsed<SpecStatement> {
    match sp_select_list(t, i) {
        Err(e) => Err(e),
        Ok((columns, j)) => match sp_expect(t, j, SpecToken::From, "FROM"@) {
            Err(e) => Err(e),
            Ok((_, j)) => match sp_ident(t, j) {
                Err(e) => Err(e),
                Ok((table, j)) => match sp_join(t, sp_alias(t, j)) {
                    Err(e) => Err(e),
                    Ok((join, j)) => match sp_where(t, j) {
                        Err(e) => Err(e),
                        Ok((condition, j)) => match sp_group_by(t, j) {
                            Err(e) => Err(e),
                            Ok((group_by, j)) => match sp_order_by(t, j) {
                                Err(e) => Err(e),
                                Ok((order_by, j)) => match sp_limit(t, j) {
                                    Err(e) => Err(e),
                                    Ok((limit, j)) => Ok((
                                        SpecStatement::Select {
                                            table,
                                            columns,
                                            condition,
                                            join,
                                            order_by,
                                            group_by,
                                            limit,
                                        },
                                        j,
                                    )),
                                },
                            },
                        },
                    },
                },
            },
        },
    }
}

/// Values separated by commas and closed by `)`.
pub open spec fn sp_value_list(t: Seq<SpecToken>, i: int) -> SpecParsed<Seq<Seq<char>>>
    decreases t.len() - i,
{
    match sp_value(t, i) {
        Err(e) => Err(e),
        Ok((v, j)) => if tok_at(t, j) == Some(SpecToken::Comma) && j >= i {
            prepend(seq![v], sp_value_list(t, j + 1))
        } else if tok_at(t, j) == Some(SpecToken::RParen) {
            Ok((seq![v], j + 1))
        } else {
            Err((expected_msg("',' or ')'"@, tok_at(t, j)), j))
        },
    }
}

/// `INSERT` (already read) `INTO table VALUES (v, ..)`.
pub open spec fn sp_insert(t: Seq<SpecToken>, i: int) -> SpecParsed<SpecStatement> {
    match sp_expect(t, i, SpecToken::Into, "INTO"@) {
        Err(e) => Err(e),
        Ok((_, j)) => match sp_ident(t, j) {
            Err(e) => Err(e),
            Ok((table, j)) => match sp_expect(t, j, SpecToken::Values, "VALUES"@) {
                Err(e) => Err(e),
                Ok((_, j)) => match sp_expect(t, j, SpecToken::LParen, "'('"@) {
                    Err(e) => Err(e),
                    Ok((_, j)) => match sp_value_list(t, j) {
                        Err(e) => Err(e),
                        Ok((values, j)) => Ok((SpecStatement::Insert { table, values }, j)),
                    },
                },
            },
        },
    }
}

/// `column = value`.
pub open spec fn sp_assignment(t: Seq<SpecToken>, i: int) -> SpecParsed<(Seq<char>, Seq<char>)> {
    match sp_ident(t, i) {
        Err(e) => Err(e),
        Ok((col, j)) => match sp_expect(t, j, SpecToken::Eq, "="@) {
            Err(e) => Err(e),
            Ok((_, j)) => match sp_value(t, j) {
                Err(e) => Err(e),
                Ok((v, j)) => Ok(((col, v), j)),
            },
        },
    }
}

/// Assignments separated by commas.
pub open spec fn sp_assignments(t: Seq<SpecToken>, i: int) -> SpecParsed<
    Seq<(Seq<char>, Seq<char>)>,
>
    decreases t.len() - i,
{
    match sp_assignment(t, i) {
        Err(e) => Err(e),
        Ok((a, j)) => if tok_at(t, j) == Some(SpecToken::Comma) && j >= i {
            prepend(seq![a], sp_assignments(t, j + 1))
        } else {
            Ok((seq![a], j))
        },
    }
}

/// `UPDATE` (already read) `table SET c = v, .. [WHERE ..]`.
pub open spec fn sp_update(t: Seq<SpecToken>, i: int) -> SpecParsed<SpecStatement> {
    match sp_ident(t, i) {
        Err(e) => Err(e),
        Ok((table, j)) => match sp_expect(t, j, SpecToken::SetKw, "SET"@) {
            Err(e) => Err(e),
            Ok((_, j)) => match sp_assignments(t, j) {
                Err(e) => Err(e),
                Ok((assignments, j)) => match sp_where(t, j) {
                    Err(e) => Err(e),
                    Ok((condition, j)) => Ok(
                        (SpecStatement::Update { table, assignments, condition }, j),
                    ),
                },
            },
        },
    }
}

/// `DELETE` (already read) `FROM table [WHERE ..]`.
pub open spec fn sp_delete(t: Seq<SpecToken>, i: int) -> SpecParsed<SpecStatement> {
    match sp_expect(t, i, SpecToken::From, "FROM"@) {
        Err(e) => Err(e),
        Ok((_, j)) => match sp_ident(t, j) {
            Err(e) => Err(e),
            Ok((table, j)) => match sp_where(t, j) {
                Err(e) => Err(e),
                Ok((condition, j)) => Ok((SpecStatement::Delete { table, condition }, j)),
            },
        },
    }
}

/// `name TYPE`.
pub open spec fn sp_column_def(t: Seq<SpecToken>, i: int) -> SpecParsed<SpecColumnDef> {
    match sp_ident(t, i) {
        Err(e) => Err(e),
        Ok((name, j)) => match sp_data_type(t, j) {
            Err(e) => Err(e),
            Ok((data_type, j)) => Ok((SpecColumnDef { name, data_type }, j)),
        },
    }
}

/// Column definitions separated by commas and closed by `)`.
pub open spec fn sp_column_defs(t: Seq<SpecToken>, i: int) -> SpecParsed<Seq<SpecColumnDef>>
    decreases t.len() - i,
{
    match sp_column_def(t, i) {
        Err(e) => Err(e),
        Ok((c, j)) => if tok_at(t, j) == Some(SpecToken::Comma) && j >= i {
            prepend(seq![c], sp_column_defs(t, j + 1))
        } else if tok_at(t, j) == Some(SpecToken::RParen) {
            Ok((seq![c], j + 1))
        } else {
            Err((expected_msg("',' or ')'"@, tok_at(t, j)), j))
        },
    }
}

/// `CREATE` (already read) `TABLE name (col TYPE, ..)`.
pub open spec fn sp_create(t: Seq<SpecToken>, i: int) -> SpecParsed<SpecStatement> {
    match sp_expect(t, i, SpecToken::Table, "TABLE"@) {
        Err(e) => Err(e),
        Ok((_, j)) => match sp_ident(t, j) {
            Err(e) => Err(e),
            Ok((name, j)) => match sp_expect(t, j, SpecToken::LParen, "'('"@) {
                Err(e) => Err(e),
                Ok((_, j)) => match sp_column_defs(t, j) {
                    Err(e) => Err(e),
                    Ok((columns, j)) => Ok((SpecStatement::CreateTable { name, columns }, j)),
                },
            },
        },
    }
}

/// `DROP` (already read) `TABLE name`.
pub open spec fn sp_drop(t: Seq<SpecToken>, i: int) -> SpecParsed<SpecStatement> {
    match sp_expect(t, i, SpecToken::Table, "TABLE"@) {
        Err(e) => Err(e),
        Ok((_, j)) => match sp_ident(t, j) {
            Err(e) => Err(e),
            Ok((name, j)) => Ok((SpecStatement::DropTable { name }, j)),
        },
    }
}

/// The action of an `ALTER TABLE`, from its first word on.
pub open spec fn sp_alter_action(t: Seq<SpecToken>, i: int) -> SpecParsed<SpecAlterAction> {
    match tok_at(t, i) {
        Some(SpecToken::Add) => match sp_expect(t, i + 1, SpecToken::Column, "COLUMN"@) {
            Err(e) => Err(e),
            Ok((_, j)) => match sp_column_def(t, j) {
                Err(e) => Err(e),
                Ok((c, j)) => Ok((SpecAlterAction::AddColumn(c), j)),
            },
        },
        Some(SpecToken::Drop) => match sp_expect(t, i + 1, SpecToken::Column, "COLUMN"@) {
            Err(e) => Err(e),
            Ok((_, j)) => match sp_ident(t, j) {
                Err(e) => Err(e),
                Ok((c, j)) => Ok((SpecAlterAction::DropColumn(c), j)),
            },
        },
        Some(SpecToken::Rename) => match sp_expect(t, i + 1, SpecToken::Column, "COLUMN"@) {
            Err(e) => Err(e),
            Ok((_, j)) => match sp_ident(t, j) {
                Err(e) => Err(e),
                Ok((from, j)) => match sp_expect(t, j, SpecToken::To, "TO"@) {
                    Err(e) => Err(e),
                    Ok((_, j)) => match sp_ident(t, j) {
                        Err(e) => Err(e),
                        Ok((to, j)) => Ok((SpecAlterAction::RenameColumn { from, to }, j)),
                    },
                },
            },
        },
        other => Err((expected_msg("ADD, DROP, or RENAME"@, other), i + 1)),
    }
}

/// `ALTER` (already read) `TABLE name <action>`.
pub open spec fn sp_alter(t: Seq<SpecToken>, i: int) -> SpecParsed<SpecStatement> {
    match sp_expect(t, i, SpecToken::Table, "TABLE"@) {
        Err(e) => Err(e),
        Ok((_, j)) => match sp_ident(t, j) {
            Err(e) => Err(e),
            Ok((table, j)) => match sp_alter_action(t, j) {
                Err(e) => Err(e),
                Ok((action, j)) => Ok((SpecStatement::AlterTable { table, action }, j)),
            },
        },
    }
}

/// One statement, from its first token on.
pub open spec fn sp_statement(t: Seq<SpecToken>, i: int) -> SpecParsed<SpecStatement> {
    match tok_at(t, i) {
        Some(SpecToken::Select) => sp_select(t, i + 1),
        Some(SpecToken::Insert) => sp_insert(t, i + 1),
        Some(SpecToken::Update) => sp_update(t, i + 1),
        Some(SpecToken::Delete) => sp_delete(t, i + 1),
        Some(SpecToken::Create) => sp_create(t, i + 1),
        Some(SpecToken::Drop) => sp_drop(t, i + 1),
        Some(SpecToken::Alter) => sp_alter(t, i + 1),
        Some(SpecToken::Ident(s)) => if s == "BEGIN"@ {
            Ok((SpecStatement::Begin, i + 1))
        } else if s == "COMMIT"@ {
            Ok((SpecStatement::Commit, i + 1))
        } else if s == "ROLLBACK"@ {
            Ok((SpecStatement::Rollback, i + 1))
        } else {
            Err(("Unknown statement: "@ + shown_token(tok_at(t, i)), i + 1))
        },
        other => Err(("Unknown statement: "@ + shown_token(other), i + 1)),
    }
}


// ---------------------------------------------------------------------------
// The executable parser.
// ---------------------------------------------------------------------------

/// Whether an executable result agrees with what the grammar reads: the same value (seen
/// through `view`) or the same error message, and the same position after reading.
pub open spec fn agrees<A, V>(
    r: Result<A, String>,
    view: spec_fn(A) -> V,
    s: SpecParsed<V>,
    pos: int,
) -> bool {
    match r {
        Ok(a) => s == SpecParsed::<V>::Ok((view(a), pos)),
        Err(e) => s == SpecParsed::<V>::Err((e@, pos)),
    }
}

fn expected_error(what: &str, got: Option<&Token>) -> (e: String)
    ensures
        e@ == expected_msg(what@, opt_token_view(got)),
{
    let d = show_token(got);
    let e = String::from_str("Expected ");
    let e = e.concat(what);
    let e = e.concat(", got ");
    e.concat(d.as_str())
}

fn value_of_token(t: Option<&Token>) -> (v: Option<String>)
    ensures
        match v {
            Some(v) => value_text(opt_token_view(t)) == Some(v@),
            None => value_text(opt_token_view(t)) is None,
        },
{
    match t {
        Some(Token::StringLit(s)) => Some(s.clone()),
        Some(Token::NumberLit(n)) => Some(n.clone()),
        Some(Token::Ident(s)) => Some(s.clone()),
        _ => None,
    }
}

fn operator_of_token(t: Option<&Token>) -> (o: Option<Operator>)
    ensures
        o == operator_of(opt_token_view(t)),
{
    match t {
        Some(Token::Eq) => Some(Operator::Eq),
        Some(Token::Ne) => Some(Operator::Ne),
        Some(Token::Gt) => Some(Operator::Gt),
        Some(Token::Lt) => Some(Operator::Lt),
        Some(Token::Gte) => Some(Operator::Gte),
        Some(Token::Lte) => Some(Operator::Lte),
        _ => None,
    }
}

fn data_type_of_token(t: Option<&Token>) -> (d: Option<DataType>)
    ensures
        d == data_type_of(opt_token_view(t)),
{
    match t {
        Some(Token::Int) => Some(DataType::Int),
        Some(Token::Text) => Some(DataType::Text),
        Some(Token::Float) => Some(DataType::Float),
        Some(Token::Boolean) => Some(DataType::Boolean),
        _ => None,
    }
}

fn agg_of_token(t: Option<&Token>) -> (f: Option<AggFunc>)
    ensures
        f == agg_of(opt_token_view(t)),
{
    match t {
        Some(Token::Count) => Some(AggFunc::Count),
        Some(Token::Sum) => Some(AggFunc::Sum),
        Some(Token::Avg) => Some(AggFunc::Avg),
        Some(Token::Min) => Some(AggFunc::Min),
        Some(Token::Max) => Some(AggFunc::Max),
        _ => None,
    }
}

/// `str::parse::<usize>`: an optional `+`, then decimal digits whose value fits.
pub fn parse_usize(s: &str) -> (r: Option<usize>)
    ensures
        r == parse_usize_text(s@),
{
    let n = s.unicode_len();
    let st: usize = if n > 0 && s.get_char(0) == '+' { 1 } else { 0 };
    let ghost d = s@.subrange(st as int, n as int);
    assert(d == unsigned_digits(s@));
    if st >= n {
        return None;
    }
    let mut value: usize = 0;
    let mut i: usize = st;
    while i < n
        invariant
            n == s@.len(),
            st < n,
            d == s@.subrange(st as int, n as int),
            d == unsigned_digits(s@),
            st <= i <= n,
            forall|k: int| 0 <= k < i - st ==> is_ascii_digit(#[trigger] d[k]),
            value == digits_value(d.subrange(0, i - st)),
        decreases n - i,
    {
        let c = s.get_char(i);
        assert(c == d[i - st]);
        if !('0' <= c && c <= '9') {
            assert(!is_ascii_digit(d[i - st]));
            assert(parse_usize_text(s@) is None);
            return None;
        }
        let digit = (c as u32 - '0' as u32) as usize;
        assert(d.subrange(0, i - st + 1).drop_last() =~= d.subrange(0, i - st));
        assert(digits_value(d.subrange(0, i - st + 1)) == value * 10 + digit);
        proof {
            if all_ascii_digits(d) {
                lemma_digits_prefix_le(d, i - st + 1);
            }
        }
        match value.checked_mul(10) {
            None => {
                assert(parse_usize_text(s@) is None);
                return None;
            },
            Some(v) => match v.checked_add(digit) {
                None => {
                    return None;
                },
                Some(v) => {
                    value = v;
                },
            },
        }
        i = i + 1;
    }
    assert(d.subrange(0, d.len() as int) =~= d);
    Some(value)
}

/// A prefix of a digit sequence never has a larger value than the whole.
pub proof fn lemma_digits_prefix_le(d: Seq<char>, k: int)
    requires
        0 <= k <= d.len(),
        forall|j: int| 0 <= j < d.len() ==> is_ascii_digit(#[trigger] d[j]),
    ensures
        digits_value(d.subrange(0, k)) <= digits_value(d),
    decreases d.len() - k,
{
    if k < d.len() {
        lemma_digits_prefix_le(d, k + 1);
        assert(d.subrange(0, k + 1).drop_last() =~= d.subrange(0, k));
        lemma_digits_nonneg(d.subrange(0, k));
    } else {
        assert(d.subrange(0, k) =~= d);
    }
}

pub proof fn lemma_digits_nonneg(d: Seq<char>)
    requires
        forall|j: int| 0 <= j < d.len() ==> is_ascii_digit(#[trigger] d[j]),
    ensures
        digits_value(d) >= 0,
    decreases d.len(),
{
    if d.len() > 0 {
        lemma_digits_nonneg(d.drop_last());
    }
}

/// The parser's state: the tokens of the statement text and the position of the next one.
pub struct Parser {
    tokens: Vec<Token>,
    pos: usize,
}

impl Parser {
    /// The tokens being read.
    pub closed spec fn token_seq(&self) -> Seq<SpecToken> {
        tokens_view(self.tokens@)
    }

    /// The position of the next token to read.
    pub closed spec fn position(&self) -> int {
        self.pos as int
    }

    /// The position can be advanced without overflow while a statement is read.
    pub closed spec fn ready(&self) -> bool {
        self.pos < usize::MAX && self.tokens@.len() + 1 < usize::MAX
    }

    closed spec fn inner(&self) -> bool {
        self.pos <= self.tokens@.len() && self.tokens@.len() + 1 < usize::MAX
    }

    /// After reading from `before`: the tokens are unchanged, and the position stays within
    /// one past the end (within the end when reading succeeded).
    closed spec fn moved(&self, before: Parser, ok: bool) -> bool {
        &&& self.tokens == before.tokens
        &&& self.pos <= self.tokens@.len() + 1
        &&& ok ==> self.pos <= self.tokens@.len()
    }

    /// Reads the tokens of `input`.
    pub fn new(input: &str) -> (p: Self)
        requires
            input@.len() + 1 < usize::MAX,
        ensures
            p.token_seq() == tokens_of(input@),
            p.position() == 0,
            p.ready(),
    {
        let mut lexer = Lexer::new(input);
        proof {
            lemma_lex_len(input@, 0);
        }
        let tokens = lexer.tokenize();
        Parser { tokens, pos: 0 }
    }

    fn peek(&self) -> (t: Option<&Token>)
        ensures
            opt_token_view(t) == tok_at(self.token_seq(), self.pos as int),
    {
        if self.pos < self.tokens.len() {
            Some(&self.tokens[self.pos])
        } else {
            None
        }
    }

    fn peek_is(&self, k: &Token) -> (b: bool)
        ensures
            b == (tok_at(self.token_seq(), self.pos as int) == Some(k@)),
    {
        match self.peek() {
            Some(t) => same_token(t, k),
            None => false,
        }
    }

    fn advance(&mut self)
        requires
            old(self).pos < usize::MAX,
        ensures
            final(self).tokens == old(self).tokens,
            final(self).pos == old(self).pos + 1,
    {
        self.pos = self.pos + 1;
    }

    fn expect(&mut self, k: &Token, what: &str) -> (r: Result<(), String>)
        requires
            old(self).inner(),
        ensures
            final(self).moved(*old(self), r is Ok),
            agrees(
                r,
                |u: ()| u,
                sp_expect(old(self).token_seq(), old(self).pos as int, k@, what@),
                final(self).pos as int,
            ),
    {
        let r = if self.peek_is(k) {
            Ok(())
        } else {
            Err(expected_error(what, self.peek()))
        };
        self.advance();
        r
    }

    fn expect_ident(&mut self) -> (r: Result<String, String>)
        requires
            old(self).inner(),
        ensures
            final(self).moved(*old(self), r is Ok),
            agrees(
                r,
                |s: String| s@,
                sp_ident(old(self).token_seq(), old(self).pos as int),
                final(self).pos as int,
            ),
    {
        let r = match self.peek() {
            Some(Token::Ident(s)) => Ok(s.clone()),
            other => Err(expected_error("identifier", other)),
        };
        self.advance();
        r
    }

    fn expect_column(&mut self) -> (r: Result<String, String>)
        requires
            old(self).inner(),
        ensures
            final(self).moved(*old(self), r is Ok),
            agrees(
                r,
                |s: String| s@,
                sp_column(old(self).token_seq(), old(self).pos as int),
                final(self).pos as int,
            ),
    {
        let name = self.expect_ident()?;
        if self.peek_is(&Token::Dot) {
            self.advance();
            self.expect_ident()
        } else {
            Ok(name)
        }
    }

    fn skip_alias(&mut self)
        requires
            old(self).inner(),
        ensures
            final(self).tokens == old(self).tokens,
            final(self).inner(),
            final(self).pos == sp_alias(old(self).token_seq(), old(self).pos as int),
    {
        if let Some(Token::Ident(_)) = self.peek() {
            self.advance();
        }
    }

    fn expect_value(&mut self) -> (r: Result<String, String>)
        requires
            old(self).inner(),
        ensures
            final(self).moved(*old(self), r is Ok),
            agrees(
                r,
                |s: String| s@,
                sp_value(old(self).token_seq(), old(self).pos as int),
                final(self).pos as int,
            ),
    {
        let r = match value_of_token(self.peek()) {
            Some(v) => Ok(v),
            None => Err(expected_error("value", self.peek())),
        };
        self.advance();
        r
    }

    fn expect_data_type(&mut self) -> (r: Result<DataType, String>)
        requires
            old(self).inner(),
        ensures
            final(self).moved(*old(self), r is Ok),
            agrees(
                r,
                |d: DataType| d,
                sp_data_type(old(self).token_seq(), old(self).pos as int),
                final(self).pos as int,
            ),
    {
        let r = match data_type_of_token(self.peek()) {
            Some(d) => Ok(d),
            None => Err(expected_error("data type", self.peek())),
        };
        self.advance();
        r
    }

    fn parse_condition(&mut self) -> (r: Result<Condition, String>)
        requires
            old(self).inner(),
        ensures
            final(self).moved(*old(self), r is Ok),
            agrees(
                r,
                |c: Condition| c@,
                sp_condition(old(self).token_seq(), old(self).pos as int),
                final(self).pos as int,
            ),
    {
        let column = self.expect_ident()?;
        let operator = match operator_of_token(self.peek()) {
            Some(o) => o,
            None => {
                let e = expected_error("operator", self.peek());
                self.advance();
                return Err(e);
            },
        };
        self.advance();
        let value = match value_of_token(self.peek()) {
            Some(v) => v,
            None => {
                let e = expected_error("value", self.peek());
                self.advance();
                return Err(e);
            },
        };
        self.advance();
        Ok(Condition { column, operator, value })
    }

    fn parse_where(&mut self) -> (r: Result<Option<Condition>, String>)
        requires
            old(self).inner(),
        ensures
            final(self).moved(*old(self), r is Ok),
            agrees(
                r,
                |c: Option<Condition>| opt_condition_view(c),
                sp_where(old(self).token_seq(), old(self).pos as int),
                final(self).pos as int,
            ),
    {
        if self.peek_is(&Token::Where) {
            self.advance();
            Ok(Some(self.parse_condition()?))
        } else {
            Ok(None)
        }
    }

    fn parse_select_item(&mut self) -> (r: Result<SelectColumn, String>)
        requires
            old(self).inner(),
        ensures
            final(self).moved(*old(self), r is Ok),
            agrees(
                r,
                |c: SelectColumn| c@,
                sp_select_item(old(self).token_seq(), old(self).pos as int),
                final(self).pos as int,
            ),
    {
        if self.peek_is(&Token::Asterisk) {
            self.advance();
            return Ok(SelectColumn::All);
        }
        match agg_of_token(self.peek()) {
            Some(func) => {
                self.advance();
                if !self.peek_is(&Token::LParen) {
                    let e = expected_error("'('", self.peek());
                    self.advance();
                    return Err(e);
                }
                self.advance();
                let col = match self.peek() {
                    Some(Token::Asterisk) => String::from_str("*"),
                    Some(Token::Ident(s)) => s.clone(),
                    other => {
                        let e = expected_error("column", other);
                        self.advance();
                        return Err(e);
                    },
                };
                self.advance();
                if !self.peek_is(&Token::RParen) {
                    let e = expected_error("')'", self.peek());
                    self.advance();
                    return Err(e);
                }
                self.advance();
                Ok(SelectColumn::Agg { func, col })
            },
            None => Ok(SelectColumn::Column(self.expect_column()?)),
        }
    }

    fn parse_ident_list(&mut self) -> (r: Result<Vec<String>, String>)
        requires
            old(self).inner(),
        ensures
            final(self).moved(*old(self), r is Ok),
            agrees(
                r,
                |v: Vec<String>| strings_view(v@),
                sp_ident_list(old(self).token_seq(), old(self).pos as int),
                final(self).pos as int,
            ),
    {
        let ghost t = self.token_seq();
        let ghost start = self.pos as int;
        let mut cols: Vec<String> = Vec::new();
        loop
            invariant
                self.inner(),
                self.tokens == old(self).tokens,
                t == self.token_seq(),
                start == old(self).pos,
                prepend(strings_view(cols@), sp_ident_list(t, self.pos as int)) == sp_ident_list(
                    t,
                    start,
                ),
            decreases t.len() - self.pos,
        {
            let ghost p = self.pos as int;
            let c = self.expect_ident()?;
            let ghost before = strings_view(cols@);
            cols.push(c);
            assert(strings_view(cols@) =~= before + seq![c@]);
            if self.peek_is(&Token::Comma) {
                self.advance();
                proof {
                    lemma_prepend_assoc(before, seq![c@], sp_ident_list(t, self.pos as int));
                }
            } else {
                assert(strings_view(cols@) =~= before + seq![c@]);
                return Ok(cols);
            }
        }
    }

    fn parse_select_list(&mut self) -> (r: Result<Vec<SelectColumn>, String>)
        requires
            old(self).inner(),
        ensures
            final(self).moved(*old(self), r is Ok),
            agrees(
                r,
                |v: Vec<SelectColumn>| v@.map_values(|c: SelectColumn| c@),
                sp_select_list(old(self).token_seq(), old(self).pos as int),
                final(self).pos as int,
            ),
    {
        let ghost t = self.token_seq();
        let ghost start = self.pos as int;
        let mut columns: Vec<SelectColumn> = Vec::new();
        loop
            invariant
                self.inner(),
                self.tokens == old(self).tokens,
                t == self.token_seq(),
                start == old(self).pos,
                prepend(columns@.map_values(|c: SelectColumn| c@), sp_select_list(t, self.pos as int))
                    == sp_select_list(t, start),
            decreases t.len() - self.pos,
        {
            let ghost p = self.pos as int;
            let col = self.parse_select_item()?;
            let ghost before = columns@.map_values(|c: SelectColumn| c@);
            columns.push(col);
            assert(columns@.map_values(|c: SelectColumn| c@) =~= before + seq![col@]);
            if self.peek_is(&Token::Comma) {
                self.advance();
                proof {
                    lemma_prepend_assoc(before, seq![col@], sp_select_list(t, self.pos as int));
                }
            } else {
                return Ok(columns);
            }
        }
    }

    fn parse_join(&mut self) -> (r: Result<Option<Join>, String>)
        requires
            old(self).inner(),
        ensures
            final(self).moved(*old(self), r is Ok),
            agrees(
                r,
                |j: Option<Join>|
                    match j {
                        Some(j) => Some(j@),
                        None => None,
                    },
                sp_join(old(self).token_seq(), old(self).pos as int),
                final(self).pos as int,
            ),
    {
        if self.peek_is(&Token::Join) {
            self.advance();
            let table = self.expect_ident()?;
            self.skip_alias();
            self.expect(&Token::On, "ON")?;
            let left_col = self.expect_column()?;
            self.expect(&Token::Eq, "=")?;
            let right_col = self.expect_column()?;
            Ok(Some(Join { table, left_col, right_col }))
        } else {
            Ok(None)
        }
    }

    fn parse_group_by(&mut self) -> (r: Result<Option<Vec<String>>, String>)
        requires
            old(self).inner(),
        ensures
            final(self).moved(*old(self), r is Ok),
            agrees(
                r,
                |g: Option<Vec<String>>|
                    match g {
                        Some(g) => Some(strings_view(g@)),
                        None => None,
                    },
                sp_group_by(old(self).token_seq(), old(self).pos as int),
                final(self).pos as int,
            ),
    {
        if self.peek_is(&Token::Group) {
            self.advance();
            self.expect(&Token::By, "BY")?;
            Ok(Some(self.parse_ident_list()?))
        } else {
            Ok(None)
        }
    }

    fn parse_order_by(&mut self) -> (r: Result<Option<OrderBy>, String>)
        requires
            old(self).inner(),
        ensures
            final(self).moved(*old(self), r is Ok),
            agrees(
                r,
                |o: Option<OrderBy>|
                    match o {
                        Some(o) => Some(o@),
                        None => None,
                    },
                sp_order_by(old(self).token_seq(), old(self).pos as int),
                final(self).pos as int,
            ),
    {
        if self.peek_is(&Token::Order) {
            self.advance();
            self.expect(&Token::By, "BY")?;
            let column = self.expect_ident()?;
            let ascending = if self.peek_is(&Token::Desc) {
                self.advance();
                false
            } else if self.peek_is(&Token::Asc) {
                self.advance();
                true
            } else {
                true
            };
            Ok(Some(OrderBy { column, ascending }))
        } else {
            Ok(None)
        }
    }

    fn parse_limit(&mut self) -> (r: Result<Option<usize>, String>)
        requires
            old(self).inner(),
        ensures
            final(self).moved(*old(self), r is Ok),
            agrees(
                r,
                |l: Option<usize>| l,
                sp_limit(old(self).token_seq(), old(self).pos as int),
                final(self).pos as int,
            ),
    {
        if self.peek_is(&Token::Limit) {
            self.advance();
            let n = match self.peek() {
                Some(Token::NumberLit(n)) => match parse_usize(n.as_str()) {
                    Some(v) => v,
                    None => 0,
                },
                other => {
                    let e = expected_error("number", other);
                    self.advance();
                    return Err(e);
                },
            };
            self.advance();
            Ok(Some(n))
        } else {
            Ok(None)
        }
    }

    fn parse_select(&mut self) -> (r: Result<Statement, String>)
        requires
            old(self).inner(),
        ensures
            final(self).moved(*old(self), r is Ok),
            agrees(
                r,
                |s: Statement| s@,
                sp_select(old(self).token_seq(), old(self).pos as int),
                final(self).pos as int,
            ),
    {
        let columns = self.parse_select_list()?;
        self.expect(&Token::From, "FROM")?;
        let table = self.expect_ident()?;
        self.skip_alias();
        let join = self.parse_join()?;
        let condition = self.parse_where()?;
        let group_by = self.parse_group_by()?;
        let order_by = self.parse_order_by()?;
        let limit = self.parse_limit()?;
        Ok(Statement::Select { table, columns, condition, join, order_by, group_by, limit })
    }

    fn parse_insert(&mut self) -> (r: Result<Statement, String>)
        requires
            old(self).inner(),
        ensures
            final(self).moved(*old(self), r is Ok),
            agrees(
                r,
                |s: Statement| s@,
                sp_insert(old(self).token_seq(), old(self).pos as int),
                final(self).pos as int,
            ),
    {
        self.expect(&Token::Into, "INTO")?;
        let table = self.expect_ident()?;
        self.expect(&Token::Values, "VALUES")?;
        self.expect(&Token::LParen, "'('")?;
        let ghost t = self.token_seq();
        let ghost start = self.pos as int;
        let mut values: Vec<String> = Vec::new();
        loop
            invariant
                self.inner(),
                self.tokens == old(self).tokens,
                t == self.token_seq(),
                prepend(strings_view(values@), sp_value_list(t, self.pos as int)) == sp_value_list(
                    t,
                    start,
                ),
                sp_insert(t, old(self).pos as int) == match sp_value_list(t, start) {
                    Err(e) => Err(e),
                    Ok((vs, j)) => SpecParsed::<SpecStatement>::Ok(
                        (SpecStatement::Insert { table: table@, values: vs }, j),
                    ),
                },
            decreases t.len() - self.pos,
        {
            let v = self.expect_value()?;
            let ghost before = strings_view(values@);
            values.push(v);
            assert(strings_view(values@) =~= before + seq![v@]);
            if self.peek_is(&Token::Comma) {
                self.advance();
                proof {
                    lemma_prepend_assoc(before, seq![v@], sp_value_list(t, self.pos as int));
                }
            } else if self.peek_is(&Token::RParen) {
                self.advance();
                return Ok(Statement::Insert { table, values });
            } else {
                return Err(expected_error("',' or ')'", self.peek()));
            }
        }
    }

    fn parse_assignment(&mut self) -> (r: Result<(String, String), String>)
        requires
            old(self).inner(),
        ensures
            final(self).moved(*old(self), r is Ok),
            agrees(
                r,
                |a: (String, String)| (a.0@, a.1@),
                sp_assignment(old(self).token_seq(), old(self).pos as int),
                final(self).pos as int,
            ),
    {
        let col = self.expect_ident()?;
        self.expect(&Token::Eq, "=")?;
        let val = self.expect_value()?;
        Ok((col, val))
    }

    fn parse_update(&mut self) -> (r: Result<Statement, String>)
        requires
            old(self).inner(),
        ensures
            final(self).moved(*old(self), r is Ok),
            agrees(
                r,
                |s: Statement| s@,
                sp_update(old(self).token_seq(), old(self).pos as int),
                final(self).pos as int,
            ),
    {
        let table = self.expect_ident()?;
        self.expect(&Token::SetKw, "SET")?;
        let ghost t = self.token_seq();
        let ghost start = self.pos as int;
        let mut assignments: Vec<(String, String)> = Vec::new();
        loop
            invariant_except_break
                prepend(pairs_view(assignments@), sp_assignments(t, self.pos as int))
                    == sp_assignments(t, start),
            invariant
                self.inner(),
                self.tokens == old(self).tokens,
                t == self.token_seq(),
                sp_update(t, old(self).pos as int) == match sp_assignments(t, start) {
                    Err(e) => Err(e),
                    Ok((assignments, j)) => match sp_where(t, j) {
                        Err(e) => Err(e),
                        Ok((condition, j)) => SpecParsed::<SpecStatement>::Ok(
                            (SpecStatement::Update { table: table@, assignments, condition }, j),
                        ),
                    },
                },
            ensures
                self.inner(),
                self.tokens == old(self).tokens,
                sp_assignments(t, start) == SpecParsed::<Seq<(Seq<char>, Seq<char>)>>::Ok(
                    (pairs_view(assignments@), self.pos as int),
                ),
            decreases t.len() - self.pos,
        {
            let a = self.parse_assignment()?;
            let ghost before = pairs_view(assignments@);
            let ghost av = (a.0@, a.1@);
            assignments.push(a);
            assert(pairs_view(assignments@) =~= before + seq![av]);
            if self.peek_is(&Token::Comma) {
                self.advance();
                proof {
                    lemma_prepend_assoc(before, seq![av], sp_assignments(t, self.pos as int));
                }
            } else {
                break;
            }
        }
        let condition = self.parse_where()?;
        Ok(Statement::Update { table, assignments, condition })
    }

    fn parse_delete(&mut self) -> (r: Result<Statement, String>)
        requires
            old(self).inner(),
        ensures
            final(self).moved(*old(self), r is Ok),
            agrees(
                r,
                |s: Statement| s@,
                sp_delete(old(self).token_seq(), old(self).pos as int),
                final(self).pos as int,
            ),
    {
        self.expect(&Token::From, "FROM")?;
        let table = self.expect_ident()?;
        let condition = self.parse_where()?;
        Ok(Statement::Delete { table, condition })
    }

    fn parse_column_def(&mut self) -> (r: Result<ColumnDef, String>)
        requires
            old(self).inner(),
        ensures
            final(self).moved(*old(self), r is Ok),
            agrees(
                r,
                |c: ColumnDef| c@,
                sp_column_def(old(self).token_seq(), old(self).pos as int),
                final(self).pos as int,
            ),
    {
        let name = self.expect_ident()?;
        let data_type = self.expect_data_type()?;
        Ok(ColumnDef { name, data_type })
    }

    fn parse_create(&mut self) -> (r: Result<Statement, String>)
        requires
            old(self).inner(),
        ensures
            final(self).moved(*old(self), r is Ok),
            agrees(
                r,
                |s: Statement| s@,
                sp_create(old(self).token_seq(), old(self).pos as int),
                final(self).pos as int,
            ),
    {
        self.expect(&Token::Table, "TABLE")?;
        let name = self.expect_ident()?;
        self.expect(&Token::LParen, "'('")?;
        let ghost t = self.token_seq();
        let ghost start = self.pos as int;
        let mut columns: Vec<ColumnDef> = Vec::new();
        loop
            invariant
                self.inner(),
                self.tokens == old(self).tokens,
                t == self.token_seq(),
                prepend(columns@.map_values(|c: ColumnDef| c@), sp_column_defs(t, self.pos as int))
                    == sp_column_defs(t, start),
                sp_create(t, old(self).pos as int) == match sp_column_defs(t, start) {
                    Err(e) => Err(e),
                    Ok((cs, j)) => SpecParsed::<SpecStatement>::Ok(
                        (SpecStatement::CreateTable { name: name@, columns: cs }, j),
                    ),
                },
            decreases t.len() - self.pos,
        {
            let c = self.parse_column_def()?;
            let ghost before = columns@.map_values(|c: ColumnDef| c@);
            let ghost cv = c@;
            columns.push(c);
            assert(columns@.map_values(|c: ColumnDef| c@) =~= before + seq![cv]);
            if self.peek_is(&Token::Comma) {
                self.advance();
                proof {
                    lemma_prepend_assoc(before, seq![cv], sp_column_defs(t, self.pos as int));
                }
            } else if self.peek_is(&Token::RParen) {
                self.advance();
                return Ok(Statement::CreateTable { name, columns });
            } else {
                return Err(expected_error("',' or ')'", self.peek()));
            }
        }
    }

    fn parse_drop(&mut self) -> (r: Result<Statement, String>)
        requires
            old(self).inner(),
        ensures
            final(self).moved(*old(self), r is Ok),
            agrees(
                r,
                |s: Statement| s@,
                sp_drop(old(self).token_seq(), old(self).pos as int),
                final(self).pos as int,
            ),
    {
        self.expect(&Token::Table, "TABLE")?;
        let name = self.expect_ident()?;
        Ok(Statement::DropTable { name })
    }

    fn parse_alter(&mut self) -> (r: Result<Statement, String>)
        requires
            old(self).inner(),
        ensures
            final(self).moved(*old(self), r is Ok),
            agrees(
                r,
                |s: Statement| s@,
                sp_alter(old(self).token_seq(), old(self).pos as int),
                final(self).pos as int,
            ),
    {
        self.expect(&Token::Table, "TABLE")?;
        let table = self.expect_ident()?;
        if self.peek_is(&Token::Add) {
            self.advance();
            self.expect(&Token::Column, "COLUMN")?;
            let col = self.parse_column_def()?;
            Ok(Statement::AlterTable { table, action: AlterAction::AddColumn(col) })
        } else if self.peek_is(&Token::Drop) {
            self.advance();
            self.expect(&Token::Column, "COLUMN")?;
            let col_name = self.expect_ident()?;
            Ok(Statement::AlterTable { table, action: AlterAction::DropColumn(col_name) })
        } else if self.peek_is(&Token::Rename) {
            self.advance();
            self.expect(&Token::Column, "COLUMN")?;
            let from = self.expect_ident()?;
            self.expect(&Token::To, "TO")?;
            let to = self.expect_ident()?;
            Ok(Statement::AlterTable { table, action: AlterAction::RenameColumn { from, to } })
        } else {
            let e = expected_error("ADD, DROP, or RENAME", self.peek());
            self.advance();
            Err(e)
        }
    }

    /// Reads one statement from the current position.
    pub fn parse(&mut self) -> (r: Result<Statement, String>)
        requires
            old(self).ready(),
        ensures
            final(self).token_seq() == old(self).token_seq(),
            agrees(
                r,
                |s: Statement| s@,
                sp_statement(old(self).token_seq(), old(self).position()),
                final(self).position(),
            ),
            final(self).ready() == (final(self).position() < usize::MAX),
            old(self).position() <= old(self).token_seq().len() ==> final(self).position()
                <= old(self).token_seq().len() + 1,
    {
        if self.pos >= self.tokens.len() {
            let e = String::from_str("Unknown statement: ").concat(show_token(None).as_str());
            self.advance();
            return Err(e);
        }
        let t = &self.tokens[self.pos];
        if matches!(t, Token::Select) {
            self.advance();
            self.parse_select()
        } else if matches!(t, Token::Insert) {
            self.advance();
            self.parse_insert()
        } else if matches!(t, Token::Update) {
            self.advance();
            self.parse_update()
        } else if matches!(t, Token::Delete) {
            self.advance();
            self.parse_delete()
        } else if matches!(t, Token::Create) {
            self.advance();
            self.parse_create()
        } else if matches!(t, Token::Drop) {
            self.advance();
            self.parse_drop()
        } else if matches!(t, Token::Alter) {
            self.advance();
            self.parse_alter()
        } else {
            let r = match t {
                Token::Ident(s) if same_text(s.as_str(), "BEGIN") => Ok(Statement::Begin),
                Token::Ident(s) if same_text(s.as_str(), "COMMIT") => Ok(Statement::Commit),
                Token::Ident(s) if same_text(s.as_str(), "ROLLBACK") => Ok(Statement::Rollback),
                _ => Err(String::from_str("Unknown statement: ").concat(show_token(Some(t)).as_str())),
            };
            self.advance();
            r
        }
    }
}

/// How an `ORDER BY` clause reads: `ASC` gives ascending order, the same clause as one
/// without a direction (which reads one token less); only `DESC` gives descending order.
pub proof fn law_order_by_direction(t: Seq<SpecToken>, i: int, c: Seq<char>)
    requires
        0 <= i,
        tok_at(t, i) == Some(SpecToken::Order),
        tok_at(t, i + 1) == Some(SpecToken::By),
        tok_at(t, i + 2) == Some(SpecToken::Ident(c)),
    ensures
        tok_at(t, i + 3) == Some(SpecToken::Asc) ==> sp_order_by(t, i) == SpecParsed::<Option<SpecOrderBy>>::Ok(
            (Some(SpecOrderBy { column: c, ascending: true }), i + 4),
        ),
        tok_at(t, i + 3) == Some(SpecToken::Desc) ==> sp_order_by(t, i) == SpecParsed::<Option<SpecOrderBy>>::Ok(
            (Some(SpecOrderBy { column: c, ascending: false }), i + 4),
        ),
        tok_at(t, i + 3) != Some(SpecToken::Asc) && tok_at(t, i + 3) != Some(SpecToken::Desc) ==> sp_order_by(t, i)
            == SpecParsed::<Option<SpecOrderBy>>::Ok((Some(SpecOrderBy { column: c, ascending: true }), i + 3)),
        sp_order_by(t, i) matches Ok((Some(o), _)) ==> (o.ascending <==> tok_at(t, i + 3) != Some(SpecToken::Desc)),
{
}

/// How a condition reads: a column, an operator token and a value token give the condition
/// on that column with the operator the token spells (`=`, `!=`, `>`, `<`, `>=`, `<=`) and
/// the token's text as value.
pub proof fn law_condition_reads(t: Seq<SpecToken>, i: int, c: Seq<char>, v: Seq<char>)
    requires
        0 <= i,
        tok_at(t, i) == Some(SpecToken::Ident(c)),
        tok_at(t, i + 2) == Some(SpecToken::StringLit(v)) || tok_at(t, i + 2) == Some(SpecToken::NumberLit(v))
            || tok_at(t, i + 2) == Some(SpecToken::Ident(v)),
    ensures
        ({
            let r = |op: Operator| SpecParsed::<SpecCondition>::Ok((SpecCondition { column: c, operator: op, value: v }, i + 3));
            &&& tok_at(t, i + 1) == Some(SpecToken::Eq) ==> sp_condition(t, i) == r(Operator::Eq)
            &&& tok_at(t, i + 1) == Some(SpecToken::Ne) ==> sp_condition(t, i) == r(Operator::Ne)
            &&& tok_at(t, i + 1) == Some(SpecToken::Gt) ==> sp_condition(t, i) == r(Operator::Gt)
            &&& tok_at(t, i + 1) == Some(SpecToken::Lt) ==> sp_condition(t, i) == r(Operator::Lt)
            &&& tok_at(t, i + 1) == Some(SpecToken::Gte) ==> sp_condition(t, i) == r(Operator::Gte)
            &&& tok_at(t, i + 1) == Some(SpecToken::Lte) ==> sp_condition(t, i) == r(Operator::Lte)
        }),
{
}

/// How `LIMIT` reads: a number of plain digits that fits gives that number.
pub proof fn law_limit_reads(t: Seq<SpecToken>, i: int, d: Seq<char>)
    requires
        0 <= i,
        tok_at(t, i) == Some(SpecToken::Limit),
        tok_at(t, i + 1) == Some(SpecToken::NumberLit(d)),
        d.len() > 0,
        forall|k: int| 0 <= k < d.len() ==> '0' <= #[trigger] d[k] <= '9',
        digits_value(d) <= usize::MAX,
    ensures
        sp_limit(t, i) == SpecParsed::<Option<usize>>::Ok((Some(digits_value(d) as usize), i + 2)),
{
}

/// The value of decimal digits: a digit written after others multiplies their value by ten
/// and adds its own; each digit is between 0 and 9.
pub proof fn law_digits_value(d: Seq<char>, c: char)
    requires
        '0' <= c <= '9',
    ensures
        digits_value(d.push(c)) == 10 * digits_value(d) + (c as int - '0' as int),
        digits_value(seq![c]) == c as int - '0' as int,
        0 <= c as int - '0' as int <= 9,
{
    assert(d.push(c).drop_last() =~= d);
    assert(seq![c].drop_last() =~= Seq::<char>::empty());
    assert(digits_value(Seq::<char>::empty()) == 0);
    assert(seq![c].last() == c);
}

/// Numbers written out in decimal read back as the same number: `decimal` writes only
/// digits, with no leading zero, and their value is the number.
pub proof fn law_decimal_reads_back(n: nat)
    ensures
        all_ascii_digits(decimal(n)),
        decimal(n).len() > 0,
        n > 0 ==> decimal(n)[0] != '0',
        digits_value(decimal(n)) == n,
    decreases n,
{
    if n < 10 {
        let c = crate::wal::digit_char(n);
        assert(decimal(n) == seq![c]);
        assert(c as int == n + 48);
        assert(seq![c].drop_last() =~= Seq::<char>::empty());
        assert(seq![c].last() == c);
        assert('0' as int == 48);
        assert(digits_value(Seq::<char>::empty()) == 0);
        assert(digits_value(seq![c]) == digits_value(seq![c].drop_last()) * 10 + (c as int - '0' as int));
    } else {
        law_decimal_reads_back(n / 10);
        let d = decimal(n / 10);
        let c = crate::wal::digit_char(n % 10);
        assert(c as int == n % 10 + 48);
        assert(decimal(n) == d.push(c));
        assert(d.push(c).drop_last() =~= d);
        assert(d.push(c).last() == c);
        assert(d.push(c)[0] == d[0]);
        assert forall|k: int| 0 <= k < d.push(c).len() implies is_ascii_digit(#[trigger] d.push(c)[k]) by {
            if k < d.len() {
                assert(d.push(c)[k] == d[k]);
            }
        }
        assert('0' as int == 48);
        assert(digits_value(d.push(c)) == digits_value(d.push(c).drop_last()) * 10 + (d.push(c).last() as int - '0' as int));
        assert(digits_value(d.push(c)) == (n / 10) as int * 10 + n % 10);
        assert((n / 10) as int * 10 + n % 10 == n);
    }
}

/// The token that spells a data type.
pub open spec fn type_token(d: DataType) -> SpecToken {
    match d {
        DataType::Int => SpecToken::Int,
        DataType::Text => SpecToken::Text,
        DataType::Float => SpecToken::Float,
        DataType::Boolean => SpecToken::Boolean,
    }
}

/// The token that spells an aggregate function.
pub open spec fn agg_token(f: AggFunc) -> SpecToken {
    match f {
        AggFunc::Count => SpecToken::Count,
        AggFunc::Sum => SpecToken::Sum,
        AggFunc::Avg => SpecToken::Avg,
        AggFunc::Min => SpecToken::Min,
        AggFunc::Max => SpecToken::Max,
    }
}

/// A list of values between `(` and `)`: `n` value tokens separated by commas, closed by
/// `)`, read as those `n` values in order.
pub proof fn law_value_list_reads(t: Seq<SpecToken>, i: int, vs: Seq<Seq<char>>)
    requires
        0 <= i,
        vs.len() > 0,
        forall|k: int| 0 <= k < vs.len() ==> value_text(tok_at(t, i + 2 * k)) == Some(#[trigger] vs[k]),
        forall|k: int| 0 <= k < vs.len() - 1 ==> #[trigger] tok_at(t, i + 2 * k + 1) == Some(SpecToken::Comma),
        tok_at(t, i + 2 * vs.len() - 1) == Some(SpecToken::RParen),
    ensures
        sp_value_list(t, i) == SpecParsed::<Seq<Seq<char>>>::Ok((vs, i + 2 * vs.len())),
    decreases vs.len(),
{
    assert(value_text(tok_at(t, i + 2 * 0)) == Some(vs[0]));
    if vs.len() == 1 {
        assert(seq![vs[0]] =~= vs);
    } else {
        let rest = vs.drop_first();
        assert(tok_at(t, i + 2 * 0 + 1) == Some(SpecToken::Comma));
        assert forall|k: int| 0 <= k < rest.len() implies value_text(tok_at(t, (i + 2) + 2 * k)) == Some(#[trigger] rest[k]) by {
            assert(value_text(tok_at(t, i + 2 * (k + 1))) == Some(vs[k + 1]));
            assert(i + 2 * (k + 1) == (i + 2) + 2 * k);
        }
        assert forall|k: int| 0 <= k < rest.len() - 1 implies #[trigger] tok_at(t, (i + 2) + 2 * k + 1) == Some(SpecToken::Comma) by {
            assert(tok_at(t, i + 2 * (k + 1) + 1) == Some(SpecToken::Comma));
            assert(i + 2 * (k + 1) + 1 == (i + 2) + 2 * k + 1);
        }
        assert(i + 2 * vs.len() - 1 == (i + 2) + 2 * rest.len() - 1);
        law_value_list_reads(t, i + 2, rest);
        assert(seq![vs[0]] + rest =~= vs);
    }
}

/// `INSERT INTO table VALUES (v, ...)` reads as an insertion of those values, in order,
/// into that table.
pub proof fn law_insert_reads(t: Seq<SpecToken>, i: int, table: Seq<char>, vs: Seq<Seq<char>>)
    requires
        0 <= i,
        vs.len() > 0,
        tok_at(t, i) == Some(SpecToken::Insert),
        tok_at(t, i + 1) == Some(SpecToken::Into),
        tok_at(t, i + 2) == Some(SpecToken::Ident(table)),
        tok_at(t, i + 3) == Some(SpecToken::Values),
        tok_at(t, i + 4) == Some(SpecToken::LParen),
        forall|k: int| 0 <= k < vs.len() ==> value_text(tok_at(t, i + 5 + 2 * k)) == Some(#[trigger] vs[k]),
        forall|k: int| 0 <= k < vs.len() - 1 ==> #[trigger] tok_at(t, i + 5 + 2 * k + 1) == Some(SpecToken::Comma),
        tok_at(t, i + 5 + 2 * vs.len() - 1) == Some(SpecToken::RParen),
    ensures
        sp_statement(t, i) == SpecParsed::<SpecStatement>::Ok((SpecStatement::Insert { table, values: vs }, i + 5 + 2 * vs.len())),
{
    law_value_list_reads(t, i + 5, vs);
}

/// A SET list: `n` assignments `column = value` separated by commas read as those
/// assignments in order.
pub proof fn law_assignments_read(t: Seq<SpecToken>, i: int, asg: Seq<(Seq<char>, Seq<char>)>)
    requires
        0 <= i,
        asg.len() > 0,
        forall|k: int| 0 <= k < asg.len() ==> tok_at(t, i + 4 * k) == Some(SpecToken::Ident((#[trigger] asg[k]).0)),
        forall|k: int| 0 <= k < asg.len() ==> #[trigger] tok_at(t, i + 4 * k + 1) == Some(SpecToken::Eq),
        forall|k: int| 0 <= k < asg.len() ==> value_text(tok_at(t, i + 4 * k + 2)) == Some((#[trigger] asg[k]).1),
        forall|k: int| 0 <= k < asg.len() - 1 ==> #[trigger] tok_at(t, i + 4 * k + 3) == Some(SpecToken::Comma),
        tok_at(t, i + 4 * asg.len() - 1) != Some(SpecToken::Comma),
    ensures
        sp_assignments(t, i) == SpecParsed::<Seq<(Seq<char>, Seq<char>)>>::Ok((asg, i + 4 * asg.len() - 1)),
    decreases asg.len(),
{
    assert(tok_at(t, i + 4 * 0) == Some(SpecToken::Ident(asg[0].0)));
    assert(tok_at(t, i + 4 * 0 + 1) == Some(SpecToken::Eq));
    assert(value_text(tok_at(t, i + 4 * 0 + 2)) == Some(asg[0].1));
    if asg.len() == 1 {
        assert(seq![(asg[0].0, asg[0].1)] =~= asg);
    } else {
        let rest = asg.drop_first();
        assert(tok_at(t, i + 4 * 0 + 3) == Some(SpecToken::Comma));
        assert forall|k: int| 0 <= k < rest.len() implies tok_at(t, (i + 4) + 4 * k) == Some(SpecToken::Ident((#[trigger] rest[k]).0)) by {
            assert(tok_at(t, i + 4 * (k + 1)) == Some(SpecToken::Ident(asg[k + 1].0)));
            assert(i + 4 * (k + 1) == (i + 4) + 4 * k);
        }
        assert forall|k: int| 0 <= k < rest.len() implies #[trigger] tok_at(t, (i + 4) + 4 * k + 1) == Some(SpecToken::Eq) by {
            assert(tok_at(t, i + 4 * (k + 1) + 1) == Some(SpecToken::Eq));
            assert(i + 4 * (k + 1) + 1 == (i + 4) + 4 * k + 1);
        }
        assert forall|k: int| 0 <= k < rest.len() implies value_text(tok_at(t, (i + 4) + 4 * k + 2)) == Some((#[trigger] rest[k]).1) by {
            assert(value_text(tok_at(t, i + 4 * (k + 1) + 2)) == Some(asg[k + 1].1));
            assert(i + 4 * (k + 1) + 2 == (i + 4) + 4 * k + 2);
        }
        assert forall|k: int| 0 <= k < rest.len() - 1 implies #[trigger] tok_at(t, (i + 4) + 4 * k + 3) == Some(SpecToken::Comma) by {
            assert(tok_at(t, i + 4 * (k + 1) + 3) == Some(SpecToken::Comma));
            assert(i + 4 * (k + 1) + 3 == (i + 4) + 4 * k + 3);
        }
        assert(i + 4 * asg.len() - 1 == (i + 4) + 4 * rest.len() - 1);
        law_assignments_read(t, i + 4, rest);
        assert(seq![(asg[0].0, asg[0].1)] + rest =~= asg);
    }
}

/// A list of column definitions: `n` pairs of a name and a type token separated by commas
/// and closed by `)`, read as those columns with those types, in order.
pub proof fn law_column_defs_read(t: Seq<SpecToken>, i: int, cols: Seq<SpecColumnDef>)
    requires
        0 <= i,
        cols.len() > 0,
        forall|k: int| 0 <= k < cols.len() ==> tok_at(t, i + 3 * k) == Some(SpecToken::Ident((#[trigger] cols[k]).name)),
        forall|k: int| 0 <= k < cols.len() ==> tok_at(t, i + 3 * k + 1) == Some(type_token((#[trigger] cols[k]).data_type)),
        forall|k: int| 0 <= k < cols.len() - 1 ==> #[trigger] tok_at(t, i + 3 * k + 2) == Some(SpecToken::Comma),
        tok_at(t, i + 3 * cols.len() - 1) == Some(SpecToken::RParen),
    ensures
        sp_column_defs(t, i) == SpecParsed::<Seq<SpecColumnDef>>::Ok((cols, i + 3 * cols.len())),
    decreases cols.len(),
{
    assert(tok_at(t, i + 3 * 0) == Some(SpecToken::Ident(cols[0].name)));
    assert(tok_at(t, i + 3 * 0 + 1) == Some(type_token(cols[0].data_type)));
    let c0 = SpecColumnDef { name: cols[0].name, data_type: cols[0].data_type };
    assert(c0 == cols[0]);
    if cols.len() == 1 {
        assert(seq![c0] =~= cols);
    } else {
        let rest = cols.drop_first();
        assert(tok_at(t, i + 3 * 0 + 2) == Some(SpecToken::Comma));
        assert forall|k: int| 0 <= k < rest.len() implies tok_at(t, (i + 3) + 3 * k) == Some(SpecToken::Ident((#[trigger] rest[k]).name)) by {
            assert(tok_at(t, i + 3 * (k + 1)) == Some(SpecToken::Ident(cols[k + 1].name)));
            assert(i + 3 * (k + 1) == (i + 3) + 3 * k);
        }
        assert forall|k: int| 0 <= k < rest.len() implies tok_at(t, (i + 3) + 3 * k + 1) == Some(type_token((#[trigger] rest[k]).data_type)) by {
            assert(tok_at(t, i + 3 * (k + 1) + 1) == Some(type_token(cols[k + 1].data_type)));
            assert(i + 3 * (k + 1) + 1 == (i + 3) + 3 * k + 1);
        }
        assert forall|k: int| 0 <= k < rest.len() - 1 implies #[trigger] tok_at(t, (i + 3) + 3 * k + 2) == Some(SpecToken::Comma) by {
            assert(tok_at(t, i + 3 * (k + 1) + 2) == Some(SpecToken::Comma));
            assert(i + 3 * (k + 1) + 2 == (i + 3) + 3 * k + 2);
        }
        assert(i + 3 * cols.len() - 1 == (i + 3) + 3 * rest.len() - 1);
        law_column_defs_read(t, i + 3, rest);
        assert(seq![c0] + rest =~= cols);
    }
}

/// An aggregate in the select list: the function's token, `(`, a column or `*`, `)` reads
/// as that function of that column.
pub proof fn law_aggregate_reads(t: Seq<SpecToken>, i: int, f: AggFunc, c: Seq<char>)
    requires
        0 <= i,
        tok_at(t, i) == Some(agg_token(f)),
        tok_at(t, i + 1) == Some(SpecToken::LParen),
        tok_at(t, i + 3) == Some(SpecToken::RParen),
    ensures
        tok_at(t, i + 2) == Some(SpecToken::Ident(c)) ==> sp_select_item(t, i) == SpecParsed::<SpecSelectColumn>::Ok(
            (SpecSelectColumn::Agg { func: f, col: c }, i + 4),
        ),
        tok_at(t, i + 2) == Some(SpecToken::Asterisk) ==> sp_select_item(t, i) == SpecParsed::<SpecSelectColumn>::Ok(
            (SpecSelectColumn::Agg { func: f, col: "*"@ }, i + 4),
        ),
{
}

/// `JOIN table ON a = b` joins on `a` of the left table and `b` of the joined one, in the
/// order written.
pub proof fn law_join_reads(t: Seq<SpecToken>, i: int, table: Seq<char>, a: Seq<char>, b: Seq<char>)
    requires
        0 <= i,
        tok_at(t, i) == Some(SpecToken::Join),
        tok_at(t, i + 1) == Some(SpecToken::Ident(table)),
        tok_at(t, i + 2) == Some(SpecToken::On),
        tok_at(t, i + 3) == Some(SpecToken::Ident(a)),
        tok_at(t, i + 4) == Some(SpecToken::Eq),
        tok_at(t, i + 5) == Some(SpecToken::Ident(b)),
        tok_at(t, i + 6) != Some(SpecToken::Dot),
    ensures
        sp_join(t, i) == SpecParsed::<Option<SpecJoin>>::Ok((Some(SpecJoin { table, left_col: a, right_col: b }), i + 6)),
{
}

/// `UPDATE table SET c = v, ...` without `WHERE` reads as an update of every row of that
/// table with those assignments, in order.
pub proof fn law_update_reads(t: Seq<SpecToken>, i: int, table: Seq<char>, asg: Seq<(Seq<char>, Seq<char>)>)
    requires
        0 <= i,
        asg.len() > 0,
        tok_at(t, i) == Some(SpecToken::Update),
        tok_at(t, i + 1) == Some(SpecToken::Ident(table)),
        tok_at(t, i + 2) == Some(SpecToken::SetKw),
        forall|k: int| 0 <= k < asg.len() ==> tok_at(t, i + 3 + 4 * k) == Some(SpecToken::Ident((#[trigger] asg[k]).0)),
        forall|k: int| 0 <= k < asg.len() ==> #[trigger] tok_at(t, i + 3 + 4 * k + 1) == Some(SpecToken::Eq),
        forall|k: int| 0 <= k < asg.len() ==> value_text(tok_at(t, i + 3 + 4 * k + 2)) == Some((#[trigger] asg[k]).1),
        forall|k: int| 0 <= k < asg.len() - 1 ==> #[trigger] tok_at(t, i + 3 + 4 * k + 3) == Some(SpecToken::Comma),
        tok_at(t, i + 3 + 4 * asg.len() - 1) != Some(SpecToken::Comma),
        tok_at(t, i + 3 + 4 * asg.len() - 1) != Some(SpecToken::Where),
    ensures
        sp_statement(t, i) == SpecParsed::<SpecStatement>::Ok(
            (SpecStatement::Update { table, assignments: asg, condition: None }, i + 3 + 4 * asg.len() - 1),
        ),
{
    law_assignments_read(t, i + 3, asg);
}

/// `CREATE TABLE name (c type, ...)` reads as the creation of that table with those
/// columns and types, in order.
pub proof fn law_create_reads(t: Seq<SpecToken>, i: int, name: Seq<char>, cols: Seq<SpecColumnDef>)
    requires
        0 <= i,
        cols.len() > 0,
        tok_at(t, i) == Some(SpecToken::Create),
        tok_at(t, i + 1) == Some(SpecToken::Table),
        tok_at(t, i + 2) == Some(SpecToken::Ident(name)),
        tok_at(t, i + 3) == Some(SpecToken::LParen),
        forall|k: int| 0 <= k < cols.len() ==> tok_at(t, i + 4 + 3 * k) == Some(SpecToken::Ident((#[trigger] cols[k]).name)),
        forall|k: int| 0 <= k < cols.len() ==> tok_at(t, i + 4 + 3 * k + 1) == Some(type_token((#[trigger] cols[k]).data_type)),
        forall|k: int| 0 <= k < cols.len() - 1 ==> #[trigger] tok_at(t, i + 4 + 3 * k + 2) == Some(SpecToken::Comma),
        tok_at(t, i + 4 + 3 * cols.len() - 1) == Some(SpecToken::RParen),
    ensures
        sp_statement(t, i) == SpecParsed::<SpecStatement>::Ok(
            (SpecStatement::CreateTable { name, columns: cols }, i + 4 + 3 * cols.len()),
        ),
{
    law_column_defs_read(t, i + 4, cols);
}

/// The words `BEGIN`, `COMMIT` and `ROLLBACK` (read as identifiers) start, commit and roll
/// back a transaction; `DROP TABLE name` drops that table.
pub proof fn law_short_statements_read(t: Seq<SpecToken>, i: int, name: Seq<char>)
    requires
        0 <= i,
    ensures
        tok_at(t, i) == Some(SpecToken::Ident("BEGIN"@)) ==> sp_statement(t, i) == SpecParsed::<SpecStatement>::Ok((SpecStatement::Begin, i + 1)),
        tok_at(t, i) == Some(SpecToken::Ident("COMMIT"@)) ==> sp_statement(t, i) == SpecParsed::<SpecStatement>::Ok((SpecStatement::Commit, i + 1)),
        tok_at(t, i) == Some(SpecToken::Ident("ROLLBACK"@)) ==> sp_statement(t, i) == SpecParsed::<SpecStatement>::Ok((SpecStatement::Rollback, i + 1)),
        tok_at(t, i) == Some(SpecToken::Drop) && tok_at(t, i + 1) == Some(SpecToken::Table) && tok_at(t, i + 2) == Some(SpecToken::Ident(name))
            ==> sp_statement(t, i) == SpecParsed::<SpecStatement>::Ok((SpecStatement::DropTable { name }, i + 3)),
{
    reveal_strlit("BEGIN");
    reveal_strlit("COMMIT");
    reveal_strlit("ROLLBACK");
    assert("COMMIT"@.len() != "BEGIN"@.len());
    assert("ROLLBACK"@.len() != "BEGIN"@.len());
    assert("ROLLBACK"@.len() != "COMMIT"@.len());
}

/// `WHERE` followed by a condition reads as that condition; with no `WHERE` there is none
/// and nothing is read.
pub proof fn law_where_reads(t: Seq<SpecToken>, i: int)
    requires
        0 <= i,
    ensures
        tok_at(t, i) != Some(SpecToken::Where) ==> sp_where(t, i) == SpecParsed::<Option<SpecCondition>>::Ok((None, i)),
        tok_at(t, i) == Some(SpecToken::Where) && sp_condition(t, i + 1) is Ok ==> sp_where(t, i)
            == SpecParsed::<Option<SpecCondition>>::Ok((Some(sp_condition(t, i + 1)->Ok_0.0), sp_condition(t, i + 1)->Ok_0.1)),
{
}

/// The clauses of a `SELECT` land where they belong: `SELECT * FROM table`, then an
/// optional `WHERE` condition, then an optional `ORDER BY column [ASC|DESC]`, and nothing
/// after, reads as a selection of every column of that table with that condition and that
/// order, no join, no grouping and no limit.
pub proof fn law_select_clauses(t: Seq<SpecToken>, i: int, table: Seq<char>, c: Seq<char>)
    requires
        0 <= i,
        tok_at(t, i) == Some(SpecToken::Select),
        tok_at(t, i + 1) == Some(SpecToken::Asterisk),
        tok_at(t, i + 2) == Some(SpecToken::From),
        tok_at(t, i + 3) == Some(SpecToken::Ident(table)),
        tok_at(t, i + 4) == Some(SpecToken::Order),
        tok_at(t, i + 5) == Some(SpecToken::By),
        tok_at(t, i + 6) == Some(SpecToken::Ident(c)),
        tok_at(t, i + 7) == Some(SpecToken::Asc) || tok_at(t, i + 7) == Some(SpecToken::Desc),
        tok_at(t, i + 8) != Some(SpecToken::Limit),
    ensures
        sp_statement(t, i) == SpecParsed::<SpecStatement>::Ok(
            (
                SpecStatement::Select {
                    table,
                    columns: seq![SpecSelectColumn::All],
                    condition: None,
                    join: None,
                    order_by: Some(SpecOrderBy { column: c, ascending: tok_at(t, i + 7) == Some(SpecToken::Asc) }),
                    group_by: None,
                    limit: None,
                },
                i + 8,
            ),
        ),
{
    law_order_by_direction(t, i + 4, c);
    assert(sp_select_list(t, i + 1) == SpecParsed::<Seq<SpecSelectColumn>>::Ok((seq![SpecSelectColumn::All], i + 2)));
}

/// A `GROUP BY` list: `n` column names separated by commas read as those names in order.
pub proof fn law_group_by_reads(t: Seq<SpecToken>, i: int, cols: Seq<Seq<char>>)
    requires
        0 <= i,
        cols.len() > 0,
        tok_at(t, i) == Some(SpecToken::Group),
        tok_at(t, i + 1) == Some(SpecToken::By),
        forall|k: int| 0 <= k < cols.len() ==> tok_at(t, i + 2 + 2 * k) == Some(SpecToken::Ident(#[trigger] cols[k])),
        forall|k: int| 0 <= k < cols.len() - 1 ==> #[trigger] tok_at(t, i + 2 + 2 * k + 1) == Some(SpecToken::Comma),
        tok_at(t, i + 2 + 2 * cols.len() - 1) != Some(SpecToken::Comma),
    ensures
        sp_group_by(t, i) == SpecParsed::<Option<Seq<Seq<char>>>>::Ok((Some(cols), i + 2 + 2 * cols.len() - 1)),
{
    lemma_ident_list_reads(t, i + 2, cols);
}

proof fn lemma_ident_list_reads(t: Seq<SpecToken>, i: int, cols: Seq<Seq<char>>)
    requires
        0 <= i,
        cols.len() > 0,
        forall|k: int| 0 <= k < cols.len() ==> tok_at(t, i + 2 * k) == Some(SpecToken::Ident(#[trigger] cols[k])),
        forall|k: int| 0 <= k < cols.len() - 1 ==> #[trigger] tok_at(t, i + 2 * k + 1) == Some(SpecToken::Comma),
        tok_at(t, i + 2 * cols.len() - 1) != Some(SpecToken::Comma),
    ensures
        sp_ident_list(t, i) == SpecParsed::<Seq<Seq<char>>>::Ok((cols, i + 2 * cols.len() - 1)),
    decreases cols.len(),
{
    assert(tok_at(t, i + 2 * 0) == Some(SpecToken::Ident(cols[0])));
    if cols.len() == 1 {
        assert(seq![cols[0]] =~= cols);
    } else {
        let rest = cols.drop_first();
        assert(tok_at(t, i + 2 * 0 + 1) == Some(SpecToken::Comma));
        assert forall|k: int| 0 <= k < rest.len() implies tok_at(t, (i + 2) + 2 * k) == Some(SpecToken::Ident(#[trigger] rest[k])) by {
            assert(tok_at(t, i + 2 * (k + 1)) == Some(SpecToken::Ident(cols[k + 1])));
            assert(i + 2 * (k + 1) == (i + 2) + 2 * k);
        }
        assert forall|k: int| 0 <= k < rest.len() - 1 implies #[trigger] tok_at(t, (i + 2) + 2 * k + 1) == Some(SpecToken::Comma) by {
            assert(tok_at(t, i + 2 * (k + 1) + 1) == Some(SpecToken::Comma));
            assert(i + 2 * (k + 1) + 1 == (i + 2) + 2 * k + 1);
        }
        assert(i + 2 * cols.len() - 1 == (i + 2) + 2 * rest.len() - 1);
        lemma_ident_list_reads(t, i + 2, rest);
        assert(seq![cols[0]] + rest =~= cols);
    }
}

/// `DELETE FROM table` without `WHERE` reads as a deletion of every row of that table.
pub proof fn law_delete_reads(t: Seq<SpecToken>, i: int, table: Seq<char>)
    requires
        0 <= i,
        tok_at(t, i) == Some(SpecToken::Delete),
        tok_at(t, i + 1) == Some(SpecToken::From),
        tok_at(t, i + 2) == Some(SpecToken::Ident(table)),
        tok_at(t, i + 3) != Some(SpecToken::Where),
    ensures
        sp_statement(t, i) == SpecParsed::<SpecStatement>::Ok((SpecStatement::Delete { table, condition: None }, i + 3)),
{
}

/// The actions of `ALTER TABLE`: `ADD COLUMN name type` adds that column, `DROP COLUMN
/// name` drops it, `RENAME COLUMN a TO b` renames `a` to `b`.
pub proof fn law_alter_action_reads(t: Seq<SpecToken>, i: int, a: Seq<char>, b: Seq<char>, d: DataType)
    requires
        0 <= i,
        tok_at(t, i + 1) == Some(SpecToken::Column),
        tok_at(t, i + 2) == Some(SpecToken::Ident(a)),
    ensures
        tok_at(t, i) == Some(SpecToken::Add) && tok_at(t, i + 3) == Some(type_token(d)) ==> sp_alter_action(t, i)
            == SpecParsed::<SpecAlterAction>::Ok((SpecAlterAction::AddColumn(SpecColumnDef { name: a, data_type: d }), i + 4)),
        tok_at(t, i) == Some(SpecToken::Drop) ==> sp_alter_action(t, i) == SpecParsed::<SpecAlterAction>::Ok(
            (SpecAlterAction::DropColumn(a), i + 3),
        ),
        tok_at(t, i) == Some(SpecToken::Rename) && tok_at(t, i + 3) == Some(SpecToken::To) && tok_at(t, i + 4) == Some(
            SpecToken::Ident(b),
        ) ==> sp_alter_action(t, i) == SpecParsed::<SpecAlterAction>::Ok((SpecAlterAction::RenameColumn { from: a, to: b }, i + 5)),
{
}

} // verus!
