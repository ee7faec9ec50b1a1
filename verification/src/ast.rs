//! Syntax tree of the SQL dialect, and its mathematical view.

use vstd::prelude::*;

verus! {

/// Column types that `CREATE TABLE` and `ALTER TABLE ... ADD COLUMN` accept.
#[derive(Debug, PartialEq, Eq, Structural, Clone, Copy)]
pub enum DataType {
    Int,
    Text,
    Float,
    Boolean,
}

/// One parsed SQL statement.
#[derive(Debug, PartialEq, Clone)]
pub enum Statement {
    CreateTable { name: String, columns: Vec<ColumnDef> },
    DropTable { name: String },
    Insert { table: String, values: Vec<String> },
    Select {
        table: String,
        columns: Vec<SelectColumn>,
        condition: Option<Condition>,
        join: Option<Join>,
        order_by: Option<OrderBy>,
        group_by: Option<Vec<String>>,
        limit: Option<usize>,
    },
    Update { table: String, assignments: Vec<(String, String)>, condition: Option<Condition> },
    Delete { table: String, condition: Option<Condition> },
    Begin,
    Commit,
    Rollback,
    AlterTable { table: String, action: AlterAction },
}

/// Aggregate functions of a select list.
#[derive(Debug, PartialEq, Eq, Structural, Clone, Copy)]
pub enum AggFunc {
    Count,
    Sum,
    Avg,
    Min,
    Max,
}

/// One item of a select list: `*`, a column, or an aggregate over a column (or `*`).
#[derive(Debug, PartialEq, Clone)]
pub enum SelectColumn {
    All,
    Column(String),
    Agg { func: AggFunc, col: String },
}

/// `ORDER BY column [ASC|DESC]`.
#[derive(Debug, PartialEq, Clone)]
pub struct OrderBy {
    pub column: String,
    pub ascending: bool,
}

/// What an `ALTER TABLE` statement does.
#[derive(Debug, PartialEq, Clone)]
pub enum AlterAction {
    AddColumn(ColumnDef),
    DropColumn(String),
    RenameColumn { from: String, to: String },
}

/// A column name with its declared type.
#[derive(Debug, PartialEq, Clone)]
pub struct ColumnDef {
    pub name: String,
    pub data_type: DataType,
}

/// `column <op> value` of a `WHERE` clause.
#[derive(Debug, PartialEq, Clone)]
pub struct Condition {
    pub column: String,
    pub operator: Operator,
    pub value: String,
}

/// Comparison operators of a condition.
#[derive(Debug, PartialEq, Eq, Structural, Clone, Copy)]
pub enum Operator {
    Eq,
    Ne,
    Gt,
    Lt,
    Gte,
    Lte,
}

/// `JOIN table ON left_col = right_col`.
#[derive(Debug, PartialEq, Clone)]
pub struct Join {
    pub table: String,
    pub left_col: String,
    pub right_col: String,
}

// ---------------------------------------------------------------------------
// Mathematical view: every string is seen as its sequence of characters.
// ---------------------------------------------------------------------------

pub enum SpecStatement {
    CreateTable { name: Seq<char>, columns: Seq<SpecColumnDef> },
    DropTable { name: Seq<char> },
    Insert { table: Seq<char>, values: Seq<Seq<char>> },
    Select {
        table: Seq<char>,
        columns: Seq<SpecSelectColumn>,
        condition: Option<SpecCondition>,
        join: Option<SpecJoin>,
        order_by: Option<SpecOrderBy>,
        group_by: Option<Seq<Seq<char>>>,
        limit: Option<usize>,
    },
    Update {
        table: Seq<char>,
        assignments: Seq<(Seq<char>, Seq<char>)>,
        condition: Option<SpecCondition>,
    },
    Delete { table: Seq<char>, condition: Option<SpecCondition> },
    Begin,
    Commit,
    Rollback,
    AlterTable { table: Seq<char>, action: SpecAlterAction },
}

pub enum SpecSelectColumn {
    All,
    Column(Seq<char>),
    Agg { func: AggFunc, col: Seq<char> },
}

pub struct SpecOrderBy {
    pub column: Seq<char>,
    pub ascending: bool,
}

pub enum SpecAlterAction {
    AddColumn(SpecColumnDef),
    DropColumn(Seq<char>),
    RenameColumn { from: Seq<char>, to: Seq<char> },
}

pub struct SpecColumnDef {
    pub name: Seq<char>,
    pub data_type: DataType,
}

pub struct SpecCondition {
    pub column: Seq<char>,
    pub operator: Operator,
    pub value: Seq<char>,
}

pub struct SpecJoin {
    pub table: Seq<char>,
    pub left_col: Seq<char>,
    pub right_col: Seq<char>,
}

pub open spec fn strings_view(v: Seq<String>) -> Seq<Seq<char>> {
    v.map_values(|s: String| s@)
}

pub open spec fn pairs_view(v: Seq<(String, String)>) -> Seq<(Seq<char>, Seq<char>)> {
    v.map_values(|p: (String, String)| (p.0@, p.1@))
}

pub open spec fn opt_condition_view(c: Option<Condition>) -> Option<SpecCondition> {
    match c {
        Some(c) => Some(c@),
        None => None,
    }
}

impl View for ColumnDef {
    type V = SpecColumnDef;

    open spec fn view(&self) -> SpecColumnDef {
        SpecColumnDef { name: self.name@, data_type: self.data_type }
    }
}

impl View for Condition {
    type V = SpecCondition;

    open spec fn view(&self) -> SpecCondition {
        SpecCondition { column: self.column@, operator: self.operator, value: self.value@ }
    }
}

impl View for Join {
    type V = SpecJoin;

    open spec fn view(&self) -> SpecJoin {
        SpecJoin { table: self.table@, left_col: self.left_col@, right_col: self.right_col@ }
    }
}

impl View for OrderBy {
    type V = SpecOrderBy;

    open spec fn view(&self) -> SpecOrderBy {
        SpecOrderBy { column: self.column@, ascending: self.ascending }
    }
}

impl View for SelectColumn {
    type V = SpecSelectColumn;

    open spec fn view(&self) -> SpecSelectColumn {
        match self {
            SelectColumn::All => SpecSelectColumn::All,
            SelectColumn::Column(c) => SpecSelectColumn::Column(c@),
            SelectColumn::Agg { func, col } => SpecSelectColumn::Agg { func: *func, col: col@ },
        }
    }
}

impl View for AlterAction {
    type V = SpecAlterAction;

    open spec fn view(&self) -> SpecAlterAction {
        match self {
            AlterAction::AddColumn(c) => SpecAlterAction::AddColumn(c@),
            AlterAction::DropColumn(c) => SpecAlterAction::DropColumn(c@),
            AlterAction::RenameColumn { from, to } => SpecAlterAction::RenameColumn {
                from: from@,
                to: to@,
            },
        }
    }
}

impl View for Statement {
    type V = SpecStatement;

    open spec fn view(&self) -> SpecStatement {
        match self {
            Statement::CreateTable { name, columns } => SpecStatement::CreateTable {
                name: name@,
                columns: columns@.map_values(|c: ColumnDef| c@),
            },
            Statement::DropTable { name } => SpecStatement::DropTable { name: name@ },
            Statement::Insert { table, values } => SpecStatement::Insert {
                table: table@,
                values: strings_view(values@),
            },
            Statement::Select { table, columns, condition, join, order_by, group_by, limit } =>
                SpecStatement::Select {
                table: table@,
                columns: columns@.map_values(|c: SelectColumn| c@),
                condition: opt_condition_view(*condition),
                join: match join {
                    Some(j) => Some(j@),
                    None => None,
                },
                order_by: match order_by {
                    Some(o) => Some(o@),
                    None => None,
                },
                group_by: match group_by {
                    Some(g) => Some(strings_view(g@)),
                    None => None,
                },
                limit: *limit,
            },
            Statement::Update { table, assignments, condition } => SpecStatement::Update {
                table: table@,
                assignments: pairs_view(assignments@),
                condition: opt_condition_view(*condition),
            },
            Statement::Delete { table, condition } => SpecStatement::Delete {
                table: table@,
                condition: opt_condition_view(*condition),
            },
            Statement::Begin => SpecStatement::Begin,
            Statement::Commit => SpecStatement::Commit,
            Statement::Rollback => SpecStatement::Rollback,
            Statement::AlterTable { table, action } => SpecStatement::AlterTable {
                table: table@,
                action: action@,
            },
        }
    }
}

} // verus!
