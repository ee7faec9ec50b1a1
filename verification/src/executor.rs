//! Runs statements against the tables: the catalog of tables with their rows and indexes,
//! the active transaction, and the disk writes each statement calls for.

use vstd::prelude::*;
use crate::ast::{
    AlterAction, ColumnDef, Condition, DataType, Join, Operator, OrderBy, SelectColumn,
    SpecAlterAction, SpecColumnDef, SpecSelectColumn, Statement, AggFunc,
};
use crate::btree::{BPlusTree, Entry, lookup};
use crate::row::{Row, json_object_text, lemma_row_finite, row_to_json};
use crate::text::same_text;
use crate::txn::{TransactionManager, insert_logged, SpecUndoOp, UndoOp, undo_views, no_active_msg};
use crate::disk::DiskManager;
use crate::wal::{decimal, push_decimal};
use crate::text::push_text;
use crate::render::{draw_rows, row_views, rows_table, texts_of};

verus! {

broadcast use vstd::seq_lib::group_to_multiset_ensures;

/// A table: its columns, its rows, and its index from key to the row as JSON.
pub struct TableData {
    pub name: String,
    pub columns: Vec<ColumnDef>,
    pub rows: Vec<Row>,
    pub index: BPlusTree,
}

/// A table as values.
pub struct SpecTable {
    pub columns: Seq<SpecColumnDef>,
    pub rows: Seq<Map<Seq<char>, Seq<char>>>,
    pub index: Seq<Entry>,
    pub index_ordered: bool,
}

impl View for TableData {
    type V = SpecTable;

    open spec fn view(&self) -> SpecTable {
        SpecTable {
            columns: self.columns@.map_values(|c: ColumnDef| c@),
            rows: row_views(self.rows@),
            index: self.index@,
            index_ordered: self.index.is_ordered(),
        }
    }
}

/// The tables by name; a later table wins over an earlier one of the same name.
pub open spec fn tables_map(s: Seq<TableData>) -> Map<Seq<char>, SpecTable>
    decreases s.len(),
{
    if s.len() == 0 {
        Map::empty()
    } else {
        tables_map(s.drop_last()).insert(s.last().name@, s.last()@)
    }
}

pub open spec fn distinct_tables(s: Seq<TableData>) -> bool {
    forall|i: int, j: int| 0 <= i < j < s.len() ==> (#[trigger] s[i]).name@ != (#[trigger] s[j]).name@
}

/// The text is what `row_to_json` writes for some row.
pub open spec fn is_json_row(s: Seq<char>) -> bool {
    exists|m: Map<Seq<char>, Seq<char>>| m.dom().finite() && s == json_object_text(m)
}

pub open spec fn all_json(es: Seq<Entry>) -> bool {
    forall|j: int| 0 <= j < es.len() ==> is_json_row(#[trigger] es[j].1)
}

/// The names of the tables are those of the sequence; with distinct names each table is
/// the one the map gives its name.
pub proof fn lemma_tables_map(s: Seq<TableData>)
    ensures
        forall|k: Seq<char>|
            #[trigger] tables_map(s).dom().contains(k) <==> exists|i: int|
                0 <= i < s.len() && (#[trigger] s[i]).name@ == k,
        distinct_tables(s) ==> forall|i: int|
            0 <= i < s.len() ==> tables_map(s)[(#[trigger] s[i]).name@] == s[i]@,
    decreases s.len(),
{
    if s.len() > 0 {
        let d = s.drop_last();
        lemma_tables_map(d);
        assert(tables_map(s) == tables_map(d).insert(s.last().name@, s.last()@));
        assert forall|k: Seq<char>| #[trigger] tables_map(s).dom().contains(k) <==> exists|i: int|
            0 <= i < s.len() && (#[trigger] s[i]).name@ == k by {
            if tables_map(s).dom().contains(k) && k != s.last().name@ {
                let i = choose|i: int| 0 <= i < d.len() && (#[trigger] d[i]).name@ == k;
                assert(s[i] == d[i]);
            }
            if exists|i: int| 0 <= i < s.len() && (#[trigger] s[i]).name@ == k {
                let i = choose|i: int| 0 <= i < s.len() && (#[trigger] s[i]).name@ == k;
                if i < d.len() {
                    assert(s[i] == d[i]);
                }
            }
        }
        if distinct_tables(s) {
            assert(distinct_tables(d)) by {
                assert forall|i: int, j: int| 0 <= i < j < d.len() implies (#[trigger] d[i]).name@
                    != (#[trigger] d[j]).name@ by {
                    assert(d[i] == s[i] && d[j] == s[j]);
                }
            }
            assert forall|i: int| 0 <= i < s.len() implies tables_map(s)[(#[trigger] s[i]).name@]
                == s[i]@ by {
                if i < d.len() {
                    assert(s[i] == d[i]);
                    assert(d[i].name@ != s.last().name@);
                }
            }
        }
    }
}

/// A sequence of tables with distinct names that has the names and tables of `m` stands
/// for `m`.
pub proof fn lemma_tables_map_is(s: Seq<TableData>, m: Map<Seq<char>, SpecTable>)
    requires
        distinct_tables(s),
        forall|k: Seq<char>|
            #[trigger] m.dom().contains(k) <==> exists|i: int| 0 <= i < s.len() && (#[trigger] s[i]).name@ == k,
        forall|i: int| 0 <= i < s.len() ==> m[(#[trigger] s[i]).name@] == s[i]@,
    ensures
        tables_map(s) == m,
{
    lemma_tables_map(s);
    assert forall|k: Seq<char>| #[trigger] tables_map(s).dom().contains(k) implies tables_map(s)[k]
        == m[k] by {
        let i = choose|i: int| 0 <= i < s.len() && (#[trigger] s[i]).name@ == k;
    }
    assert(tables_map(s) =~= m);
}

/// Replacing a table by one of the same name replaces it in the map.
pub proof fn lemma_tables_update(s: Seq<TableData>, i: int, t: TableData)
    requires
        distinct_tables(s),
        0 <= i < s.len(),
        t.name@ == s[i].name@,
    ensures
        distinct_tables(s.update(i, t)),
        tables_map(s.update(i, t)) == tables_map(s).insert(t.name@, t@),
{
    let u = s.update(i, t);
    assert forall|a: int, b: int| 0 <= a < b < u.len() implies (#[trigger] u[a]).name@
        != (#[trigger] u[b]).name@ by {
        assert(u[a].name@ == s[a].name@ && u[b].name@ == s[b].name@);
    }
    lemma_tables_map(s);
    let m = tables_map(s).insert(t.name@, t@);
    assert forall|k: Seq<char>| #[trigger] m.dom().contains(k) <==> exists|j: int|
        0 <= j < u.len() && (#[trigger] u[j]).name@ == k by {
        if m.dom().contains(k) {
            if k == t.name@ {
                assert(u[i].name@ == k);
            } else {
                let j = choose|j: int| 0 <= j < s.len() && (#[trigger] s[j]).name@ == k;
                assert(u[j].name@ == k);
            }
        }
        if exists|j: int| 0 <= j < u.len() && (#[trigger] u[j]).name@ == k {
            let j = choose|j: int| 0 <= j < u.len() && (#[trigger] u[j]).name@ == k;
            assert(s[j].name@ == k);
        }
    }
    assert forall|j: int| 0 <= j < u.len() implies m[(#[trigger] u[j]).name@] == u[j]@ by {
        if j != i {
            assert(u[j] == s[j]);
        }
    }
    lemma_tables_map_is(u, m);
}

/// Adding a table of a new name adds it to the map.
pub proof fn lemma_tables_push(s: Seq<TableData>, t: TableData)
    requires
        distinct_tables(s),
        !tables_map(s).dom().contains(t.name@),
    ensures
        distinct_tables(s.push(t)),
        tables_map(s.push(t)) == tables_map(s).insert(t.name@, t@),
{
    lemma_tables_map(s);
    let u = s.push(t);
    assert(u.drop_last() =~= s);
    assert forall|a: int, b: int| 0 <= a < b < u.len() implies (#[trigger] u[a]).name@
        != (#[trigger] u[b]).name@ by {
        assert(u[a] == s[a]);
        if b < s.len() {
            assert(u[b] == s[b]);
        } else {
            assert(s[a].name@ != t.name@);
        }
    }
}

/// Taking a table out takes it out of the map.
pub proof fn lemma_tables_remove(s: Seq<TableData>, i: int)
    requires
        distinct_tables(s),
        0 <= i < s.len(),
    ensures
        distinct_tables(s.remove(i)),
        tables_map(s.remove(i)) == tables_map(s).remove(s[i].name@),
{
    let u = s.remove(i);
    assert forall|a: int, b: int| 0 <= a < b < u.len() implies (#[trigger] u[a]).name@
        != (#[trigger] u[b]).name@ by {
        let a0 = if a < i { a } else { a + 1 };
        let b0 = if b < i { b } else { b + 1 };
        assert(u[a] == s[a0] && u[b] == s[b0]);
    }
    lemma_tables_map(s);
    let m = tables_map(s).remove(s[i].name@);
    assert forall|k: Seq<char>| #[trigger] m.dom().contains(k) <==> exists|j: int|
        0 <= j < u.len() && (#[trigger] u[j]).name@ == k by {
        if m.dom().contains(k) {
            let j = choose|j: int| 0 <= j < s.len() && (#[trigger] s[j]).name@ == k;
            assert(j != i);
            let j1 = if j < i { j } else { j - 1 };
            assert(u[j1] == s[j]);
        }
        if exists|j: int| 0 <= j < u.len() && (#[trigger] u[j]).name@ == k {
            let j = choose|j: int| 0 <= j < u.len() && (#[trigger] u[j]).name@ == k;
            let j0 = if j < i { j } else { j + 1 };
            assert(u[j] == s[j0]);
        }
    }
    assert forall|j: int| 0 <= j < u.len() implies m[(#[trigger] u[j]).name@] == u[j]@ by {
        let j0 = if j < i { j } else { j + 1 };
        assert(u[j] == s[j0]);
    }
    lemma_tables_map_is(u, m);
}

/// A disk write that a statement calls for.
#[derive(Debug)]
pub enum DiskAction {
    /// Write the table's rows to its file.
    SaveTable(String),
    /// Write the table's column names to its schema file.
    SaveSchema(String, Vec<String>),
    /// Remove the table's files.
    DeleteTable(String),
}

pub enum SpecDiskAction {
    SaveTable(Seq<char>),
    SaveSchema(Seq<char>, Seq<Seq<char>>),
    DeleteTable(Seq<char>),
}

impl View for DiskAction {
    type V = SpecDiskAction;

    open spec fn view(&self) -> SpecDiskAction {
        match self {
            DiskAction::SaveTable(t) => SpecDiskAction::SaveTable(t@),
            DiskAction::SaveSchema(t, cols) => SpecDiskAction::SaveSchema(t@, texts_of(cols@)),
            DiskAction::DeleteTable(t) => SpecDiskAction::DeleteTable(t@),
        }
    }
}

pub open spec fn action_views(s: Seq<DiskAction>) -> Seq<SpecDiskAction> {
    s.map_values(|a: DiskAction| a@)
}

/// The names of the columns, in order.
pub open spec fn column_names(cols: Seq<SpecColumnDef>) -> Seq<Seq<char>> {
    cols.map_values(|c: SpecColumnDef| c.name)
}


// ---------------------------------------------------------------------------
// Messages.
// ---------------------------------------------------------------------------

pub open spec fn quoted(before: Seq<char>, name: Seq<char>, after: Seq<char>) -> Seq<char> {
    before + name + after
}

pub open spec fn not_found_msg(t: Seq<char>) -> Seq<char> {
    quoted("Table '"@, t, "' not found"@)
}

pub open spec fn exists_msg(t: Seq<char>) -> Seq<char> {
    quoted("Table '"@, t, "' already exists"@)
}

/// Appends `before`, the name and `after`.
fn quote(before: &str, name: &str, after: &str) -> (s: String)
    ensures
        s@ == quoted(before@, name@, after@),
{
    let mut s = String::new();
    push_text(&mut s, before);
    push_text(&mut s, name);
    push_text(&mut s, after);
    proof {
        assert(s@ =~= quoted(before@, name@, after@));
    }
    s
}

fn not_found(t: &str) -> (s: String)
    ensures
        s@ == not_found_msg(t@),
{
    quote("Table '", t, "' not found")
}

/// Text of a number followed by the text.
fn counted(n: usize, after: &str) -> (s: String)
    ensures
        s@ == decimal(n as nat) + after@,
{
    let mut s = String::new();
    push_decimal(&mut s, n as u64);
    push_text(&mut s, after);
    proof {
        assert(s@ =~= decimal(n as nat) + after@);
    }
    s
}

// ---------------------------------------------------------------------------
// Rows, conditions, indexes.
// ---------------------------------------------------------------------------

/// The row that sets each column to the value at its position, in order (a later column of
/// the same name wins).
pub open spec fn zip_row(names: Seq<Seq<char>>, values: Seq<Seq<char>>) -> Map<Seq<char>, Seq<char>>
    decreases names.len(),
{
    if names.len() == 0 {
        Map::empty()
    } else {
        zip_row(names.drop_last(), values).insert(names.last(), values[names.len() - 1])
    }
}

/// The row of an `INSERT`: each column of the table set to the value at its position.
fn build_row(cols: &Vec<ColumnDef>, values: &Vec<String>) -> (row: Row)
    requires
        cols@.len() <= values@.len(),
    ensures
        row@ == zip_row(column_names(cols@.map_values(|c: ColumnDef| c@)), texts_of(values@)),
{
    let ghost names = column_names(cols@.map_values(|c: ColumnDef| c@));
    let ghost vals = texts_of(values@);
    let mut row = Row::new();
    let mut i: usize = 0;
    while i < cols.len()
        invariant
            cols@.len() <= values@.len(),
            names == column_names(cols@.map_values(|c: ColumnDef| c@)),
            vals == texts_of(values@),
            i <= cols@.len(),
            row@ == zip_row(names.subrange(0, i as int), vals),
        decreases cols@.len() - i,
    {
        row.insert(cols[i].name.clone(), values[i].clone());
        proof {
            let sub = names.subrange(0, i + 1);
            assert(sub.drop_last() =~= names.subrange(0, i as int));
            assert(sub.last() == cols@[i as int].name@);
            assert(vals[i as int] == values@[i as int]@);
        }
        i = i + 1;
    }
    proof {
        assert(names.subrange(0, i as int) =~= names);
    }
    row
}

/// How two numbers compare.
#[derive(Debug, PartialEq, Eq, Structural, Clone, Copy)]
pub enum NumOrder {
    Less,
    Equal,
    Greater,
}

/// For texts of the rows, how the number each one reads as compares with the number the
/// condition's value reads as (as `f64` values compare). A text that is not a number, or
/// whose comparison has no answer, has no entry.
pub struct NumericOrders {
    pub entries: Vec<(String, NumOrder)>,
}

/// The order given for the text: that of its first entry.
pub open spec fn num_order(entries: Seq<(String, NumOrder)>, v: Seq<char>) -> Option<NumOrder>
    decreases entries.len(),
{
    if entries.len() == 0 {
        None
    } else if entries[0].0@ == v {
        Some(entries[0].1)
    } else {
        num_order(entries.drop_first(), v)
    }
}

/// Whether a row satisfies the condition: a missing condition holds of every row; a row
/// without the condition's column satisfies none; `=` and `!=` compare texts; the others
/// compare numbers.
pub open spec fn condition_holds(
    row: Map<Seq<char>, Seq<char>>,
    cond: Option<crate::ast::SpecCondition>,
    nums: Seq<(String, NumOrder)>,
) -> bool {
    match cond {
        None => true,
        Some(c) => {
            &&& row.dom().contains(c.column)
            &&& match c.operator {
                Operator::Eq => row[c.column] == c.value,
                Operator::Ne => row[c.column] != c.value,
                Operator::Gt => num_order(nums, row[c.column]) == Some(NumOrder::Greater),
                Operator::Lt => num_order(nums, row[c.column]) == Some(NumOrder::Less),
                Operator::Gte => num_order(nums, row[c.column]) matches Some(o) && o != NumOrder::Less,
                Operator::Lte => num_order(nums, row[c.column]) matches Some(o) && o != NumOrder::Greater,
            }
        },
    }
}

fn find_order(nums: &NumericOrders, v: &str) -> (r: Option<NumOrder>)
    ensures
        r == num_order(nums.entries@, v@),
{
    let mut i: usize = 0;
    assert(nums.entries@.skip(0) =~= nums.entries@);
    while i < nums.entries.len()
        invariant
            i <= nums.entries@.len(),
            num_order(nums.entries@, v@) == num_order(nums.entries@.skip(i as int), v@),
        decreases nums.entries@.len() - i,
    {
        proof {
            assert(nums.entries@.skip(i as int).drop_first() =~= nums.entries@.skip(i + 1));
        }
        if same_text(nums.entries[i].0.as_str(), v) {
            return Some(nums.entries[i].1);
        }
        i = i + 1;
    }
    None
}

/// Whether the row satisfies the condition.
pub fn matches_condition(row: &Row, condition: &Option<Condition>, nums: &NumericOrders) -> (b: bool)
    ensures
        b == condition_holds(row@, crate::ast::opt_condition_view(*condition), nums.entries@),
{
    match condition {
        None => true,
        Some(cond) => {
            let val = match row.get(cond.column.as_str()) {
                Some(v) => v,
                None => {
                    return false;
                },
            };
            match cond.operator {
                Operator::Eq => same_text(val.as_str(), cond.value.as_str()),
                Operator::Ne => !same_text(val.as_str(), cond.value.as_str()),
                Operator::Gt => match find_order(nums, val.as_str()) {
                    Some(NumOrder::Greater) => true,
                    _ => false,
                },
                Operator::Lt => match find_order(nums, val.as_str()) {
                    Some(NumOrder::Less) => true,
                    _ => false,
                },
                Operator::Gte => match find_order(nums, val.as_str()) {
                    Some(NumOrder::Less) => false,
                    Some(_) => true,
                    None => false,
                },
                Operator::Lte => match find_order(nums, val.as_str()) {
                    Some(NumOrder::Greater) => false,
                    Some(_) => true,
                    None => false,
                },
            }
        },
    }
}

/// Adds the row, as JSON, to the index under the key.
fn index_add(index: &mut BPlusTree, key: String, row: &Row)
    requires
        all_json(old(index)@),
    ensures
        all_json(final(index)@),
        final(index)@.to_multiset() == old(index)@.to_multiset().insert((key@, json_object_text(row@))),
        old(index).is_ordered() && crate::btree::misses(old(index)@, key@) ==> {
            &&& final(index).is_ordered()
            &&& exists|i: int|
                0 <= i <= old(index)@.len() && final(index)@ == old(index)@.insert(
                    i,
                    (key@, json_object_text(row@)),
                )
        },
{
    let json = row_to_json(row);
    let ghost e = (key@, json@);
    let ghost before = index@;
    index.insert(key, json);
    proof {
        lemma_row_finite(*row);
        assert(is_json_row(json@));
        assert forall|j: int| 0 <= j < index@.len() implies is_json_row(#[trigger] index@[j].1) by {
            let x = index@[j];
            assert(index@.to_multiset().count(x) > 0);
            if x != e {
                assert(before.to_multiset().count(x) > 0);
                let k = choose|k: int| 0 <= k < before.len() && before[k] == x;
                assert(is_json_row(before[k].1));
            }
        }
    }
}

/// The index holds, for each row, the row's value in the key column (the empty text where
/// it has none) as key and the row as JSON.
pub open spec fn index_of_rows(index: Seq<Entry>, rows: Seq<Map<Seq<char>, Seq<char>>>, col: Option<Seq<char>>) -> bool {
    index.to_multiset() == Seq::new(rows.len(), |j: int| (key_value(rows[j], col), json_object_text(rows[j]))).to_multiset()
}

/// No two rows hold the same value in the key column (a row without it counting as the
/// empty text).
pub open spec fn keys_distinct(rows: Seq<Map<Seq<char>, Seq<char>>>, col: Option<Seq<char>>) -> bool {
    forall|i: int, j: int| 0 <= i < j < rows.len() ==> key_value(#[trigger] rows[i], col) != key_value(#[trigger] rows[j], col)
}

/// A new index of the rows, each under its value in the table's first column; ordered
/// where those values differ.
fn rebuild_index(rows: &Vec<Row>, cols: &Vec<ColumnDef>) -> (t: BPlusTree)
    ensures
        all_json(t@),
        index_of_rows(t@, row_views(rows@), key_column(cols@.map_values(|c: ColumnDef| c@))),
        keys_distinct(row_views(rows@), key_column(cols@.map_values(|c: ColumnDef| c@))) ==> t.is_ordered(),
{
    let ghost rv = row_views(rows@);
    let ghost col = key_column(cols@.map_values(|c: ColumnDef| c@));
    let mut t = BPlusTree::new();
    let mut i: usize = 0;
    proof {
        assert(Seq::new(0, |j: int| (key_value(rv[j], col), json_object_text(rv[j]))) =~= Seq::<Entry>::empty());
    }
    while i < rows.len()
        invariant
            rv == row_views(rows@),
            col == key_column(cols@.map_values(|c: ColumnDef| c@)),
            i <= rows@.len(),
            all_json(t@),
            t@.to_multiset() == Seq::new(i as nat, |j: int| (key_value(rv[j], col), json_object_text(rv[j]))).to_multiset(),
            keys_distinct(rv, col) ==> t.is_ordered(),
        decreases rows@.len() - i,
    {
        let key = if cols.len() > 0 {
            match rows[i].get(cols[0].name.as_str()) {
                Some(v) => v.clone(),
                None => String::new(),
            }
        } else {
            String::new()
        };
        assert(rv[i as int] == rows@[i as int]@);
        assert(key@ == key_value(rv[i as int], col));
        proof {
            if keys_distinct(rv, col) {
                let f_old = Seq::new(i as nat, |j: int| (key_value(rv[j], col), json_object_text(rv[j])));
                assert forall|q: int| 0 <= q < t@.len() implies (#[trigger] t@[q]).0 != key@ by {
                    let e = t@[q];
                    assert(t@.to_multiset().count(e) > 0);
                    assert(f_old.to_multiset().count(e) > 0);
                    assert(f_old.contains(e));
                    let w = choose|w: int| 0 <= w < f_old.len() && f_old[w] == e;
                    assert(key_value(rv[w], col) != key_value(rv[i as int], col));
                }
            }
        }
        index_add(&mut t, key, &rows[i]);
        proof {
            let f_old = Seq::new(i as nat, |j: int| (key_value(rv[j], col), json_object_text(rv[j])));
            let f_new = Seq::new((i + 1) as nat, |j: int| (key_value(rv[j], col), json_object_text(rv[j])));
            assert(f_new =~= f_old.push((key_value(rv[i as int], col), json_object_text(rv[i as int]))));
        }
        i = i + 1;
    }
    t
}


/// The row with each assignment applied in turn.
pub open spec fn assigned(row: Map<Seq<char>, Seq<char>>, asg: Seq<(Seq<char>, Seq<char>)>) -> Map<Seq<char>, Seq<char>>
    decreases asg.len(),
{
    if asg.len() == 0 {
        row
    } else {
        assigned(row, asg.drop_last()).insert(asg.last().0, asg.last().1)
    }
}

/// The rows after an `UPDATE`: each row that satisfies the condition gets the assignments.
pub open spec fn updated_rows(
    rows: Seq<Map<Seq<char>, Seq<char>>>,
    asg: Seq<(Seq<char>, Seq<char>)>,
    cond: Option<crate::ast::SpecCondition>,
    nums: Seq<(String, NumOrder)>,
) -> Seq<Map<Seq<char>, Seq<char>>> {
    Seq::new(
        rows.len(),
        |j: int|
            if condition_holds(rows[j], cond, nums) {
                assigned(rows[j], asg)
            } else {
                rows[j]
            },
    )
}

/// The number of rows that satisfy the condition.
pub open spec fn count_matching(
    rows: Seq<Map<Seq<char>, Seq<char>>>,
    cond: Option<crate::ast::SpecCondition>,
    nums: Seq<(String, NumOrder)>,
) -> nat
    decreases rows.len(),
{
    if rows.len() == 0 {
        0
    } else {
        count_matching(rows.drop_last(), cond, nums) + if condition_holds(rows.last(), cond, nums) {
            1nat
        } else {
            0nat
        }
    }
}

/// The rows that do not satisfy the condition, in order.
pub open spec fn kept_rows(
    rows: Seq<Map<Seq<char>, Seq<char>>>,
    cond: Option<crate::ast::SpecCondition>,
    nums: Seq<(String, NumOrder)>,
) -> Seq<Map<Seq<char>, Seq<char>>>
    decreases rows.len(),
{
    if rows.len() == 0 {
        seq![]
    } else if condition_holds(rows.last(), cond, nums) {
        kept_rows(rows.drop_last(), cond, nums)
    } else {
        kept_rows(rows.drop_last(), cond, nums).push(rows.last())
    }
}

proof fn lemma_count_bound(rows: Seq<Map<Seq<char>, Seq<char>>>, cond: Option<crate::ast::SpecCondition>, nums: Seq<(String, NumOrder)>)
    ensures
        count_matching(rows, cond, nums) <= rows.len(),
        kept_rows(rows, cond, nums).len() + count_matching(rows, cond, nums) == rows.len(),
    decreases rows.len(),
{
    if rows.len() > 0 {
        lemma_count_bound(rows.drop_last(), cond, nums);
    }
}

/// Applies the assignments to the row.
fn assign_all(row: &mut Row, assignments: &Vec<(String, String)>)
    ensures
        final(row)@ == assigned(old(row)@, crate::ast::pairs_view(assignments@)),
{
    let ghost asg = crate::ast::pairs_view(assignments@);
    let mut i: usize = 0;
    while i < assignments.len()
        invariant
            asg == crate::ast::pairs_view(assignments@),
            i <= assignments@.len(),
            row@ == assigned(old(row)@, asg.subrange(0, i as int)),
        decreases assignments@.len() - i,
    {
        row.insert(assignments[i].0.clone(), assignments[i].1.clone());
        proof {
            let sub = asg.subrange(0, i + 1);
            assert(sub.drop_last() =~= asg.subrange(0, i as int));
            assert(sub.last() == (assignments@[i as int].0@, assignments@[i as int].1@));
        }
        i = i + 1;
    }
    proof {
        assert(asg.subrange(0, i as int) =~= asg);
    }
}


/// The table an undo operation belongs to.
pub open spec fn op_table(op: SpecUndoOp) -> Seq<char> {
    match op {
        SpecUndoOp::Insert { table, .. } => table,
        SpecUndoOp::Update { table, .. } => table,
        SpecUndoOp::Delete { table, .. } => table,
    }
}

/// The first column of a table, the one its rows are indexed and logged by.
pub open spec fn key_column(cols: Seq<SpecColumnDef>) -> Option<Seq<char>> {
    if cols.len() > 0 {
        Some(cols[0].name)
    } else {
        None
    }
}

/// The rows of a table after one undo operation of that table, by the position it names:
/// an insertion is taken back by removing the row there; an update by putting the old row
/// back there; a deletion by putting the old row back there. A position past the rows
/// (possible only where the table was dropped and made anew within the transaction) leaves
/// the rows as they are.
pub open spec fn undo_rows(rows: Seq<Map<Seq<char>, Seq<char>>>, op: SpecUndoOp) -> Seq<Map<Seq<char>, Seq<char>>> {
    match op {
        SpecUndoOp::Insert { pos, .. } => if pos < rows.len() {
            rows.remove(pos as int)
        } else {
            rows
        },
        SpecUndoOp::Update { pos, old_value, .. } => if pos < rows.len() {
            rows.update(pos as int, old_value)
        } else {
            rows
        },
        SpecUndoOp::Delete { pos, old_value, .. } => if pos <= rows.len() {
            rows.insert(pos as int, old_value)
        } else {
            rows
        },
    }
}

/// The rows of the table after the undo operations of the table, applied in order.
pub open spec fn rolled_back(rows: Seq<Map<Seq<char>, Seq<char>>>, table: Seq<char>, ops: Seq<SpecUndoOp>) -> Seq<Map<Seq<char>, Seq<char>>>
    decreases ops.len(),
{
    if ops.len() == 0 {
        rows
    } else {
        let prev = rolled_back(rows, table, ops.drop_last());
        if op_table(ops.last()) == table {
            undo_rows(prev, ops.last())
        } else {
            prev
        }
    }
}

/// Some undo operation is of the table.
pub open spec fn touches(ops: Seq<SpecUndoOp>, table: Seq<char>) -> bool
    decreases ops.len(),
{
    ops.len() > 0 && (op_table(ops.last()) == table || touches(ops.drop_last(), table))
}

/// The table after the undo operations: same columns, rows rolled back, and, where some
/// operation was of the table, the index built anew from the rows (ordered where their
/// first-column values differ); otherwise the index kept.
pub open spec fn table_rolled_back(before: SpecTable, after: SpecTable, table: Seq<char>, ops: Seq<SpecUndoOp>) -> bool {
    let col = key_column(before.columns);
    &&& after.columns == before.columns
    &&& after.rows == rolled_back(before.rows, table, ops)
    &&& if touches(ops, table) {
        &&& index_of_rows(after.index, after.rows, col)
        &&& keys_distinct(after.rows, col) ==> after.index_ordered
    } else {
        after.index == before.index && after.index_ordered == before.index_ordered
    }
}

/// One save of its table per operation whose table is there, in order.
pub open spec fn saves_of(ops: Seq<SpecUndoOp>, tables: Set<Seq<char>>) -> Seq<SpecDiskAction>
    decreases ops.len(),
{
    if ops.len() == 0 {
        seq![]
    } else if tables.contains(op_table(ops.last())) {
        saves_of(ops.drop_last(), tables).push(SpecDiskAction::SaveTable(op_table(ops.last())))
    } else {
        saves_of(ops.drop_last(), tables)
    }
}

/// The columns without those of the name, in order.
pub open spec fn without_column(cols: Seq<SpecColumnDef>, name: Seq<char>) -> Seq<SpecColumnDef>
    decreases cols.len(),
{
    if cols.len() == 0 {
        seq![]
    } else if cols.last().name == name {
        without_column(cols.drop_last(), name)
    } else {
        without_column(cols.drop_last(), name).push(cols.last())
    }
}

/// The columns after an `ALTER TABLE`.
pub open spec fn altered_columns(cols: Seq<SpecColumnDef>, action: SpecAlterAction) -> Seq<SpecColumnDef> {
    match action {
        SpecAlterAction::AddColumn(c) => cols.push(c),
        SpecAlterAction::DropColumn(n) => without_column(cols, n),
        SpecAlterAction::RenameColumn { from, to } => Seq::new(
            cols.len(),
            |j: int|
                if cols[j].name == from {
                    SpecColumnDef { name: to, data_type: cols[j].data_type }
                } else {
                    cols[j]
                },
        ),
    }
}

/// A row after an `ALTER TABLE`: a new column holds the empty text; a dropped one is gone;
/// a renamed one keeps its value under the new name.
pub open spec fn altered_row(row: Map<Seq<char>, Seq<char>>, action: SpecAlterAction) -> Map<Seq<char>, Seq<char>> {
    match action {
        SpecAlterAction::AddColumn(c) => row.insert(c.name, seq![]),
        SpecAlterAction::DropColumn(n) => row.remove(n),
        SpecAlterAction::RenameColumn { from, to } => if row.dom().contains(from) {
            row.remove(from).insert(to, row[from])
        } else {
            row
        },
    }
}

/// The message of a successful `ALTER TABLE`.
pub open spec fn altered_msg(table: Seq<char>, action: SpecAlterAction) -> Seq<char> {
    match action {
        SpecAlterAction::AddColumn(c) => "Column '"@ + c.name + "' added to '"@ + table + "'."@,
        SpecAlterAction::DropColumn(n) => "Column '"@ + n + "' dropped from '"@ + table + "'."@,
        SpecAlterAction::RenameColumn { from, to } => "Column '"@ + from + "' renamed to '"@ + to
            + "' in '"@ + table + "'."@,
    }
}


/// Whether the select list holds an aggregate.
pub open spec fn has_aggregate(cols: Seq<SpecSelectColumn>) -> bool {
    exists|i: int| 0 <= i < cols.len() && #[trigger] cols[i] is Agg
}

/// Whether the select list holds `*`.
pub open spec fn has_star(cols: Seq<SpecSelectColumn>) -> bool {
    exists|i: int| 0 <= i < cols.len() && #[trigger] cols[i] is All
}

/// The names of the plain columns of the select list, in order.
pub open spec fn named_columns(cols: Seq<SpecSelectColumn>) -> Seq<Seq<char>>
    decreases cols.len(),
{
    if cols.len() == 0 {
        seq![]
    } else {
        let prev = named_columns(cols.drop_last());
        match cols.last() {
            SpecSelectColumn::Column(n) => prev.push(n),
            _ => prev,
        }
    }
}

/// The columns a result shows: with `*`, those of the table (and then those of the joined
/// table); else the plain columns of the select list.
pub open spec fn shown_columns(
    cols: Seq<SpecSelectColumn>,
    table_cols: Seq<Seq<char>>,
    join_cols: Option<Seq<Seq<char>>>,
) -> Seq<Seq<char>> {
    if has_star(cols) {
        match join_cols {
            Some(jc) => table_cols + jc,
            None => table_cols,
        }
    } else {
        named_columns(cols)
    }
}

/// The text of a result: the table of its rows, or a note that there are none.
pub open spec fn result_text(names: Seq<Seq<char>>, rows: Seq<Map<Seq<char>, Seq<char>>>) -> Seq<char> {
    if rows.len() == 0 {
        "0 rows returned."@
    } else {
        rows_table(names, rows)
    }
}

/// The value of the column in the row, if it has one.
pub open spec fn value_at(row: Map<Seq<char>, Seq<char>>, col: Seq<char>) -> Option<Seq<char>> {
    if row.dom().contains(col) {
        Some(row[col])
    } else {
        None
    }
}

/// The left row merged with each right row whose value at `rc` equals its own at `lc`
/// (both missing counts as equal), in the order of the right rows.
pub open spec fn join_one(
    l: Map<Seq<char>, Seq<char>>,
    right: Seq<Map<Seq<char>, Seq<char>>>,
    lc: Seq<char>,
    rc: Seq<char>,
) -> Seq<Map<Seq<char>, Seq<char>>>
    decreases right.len(),
{
    if right.len() == 0 {
        seq![]
    } else {
        let rest = join_one(l, right.drop_last(), lc, rc);
        if value_at(l, lc) == value_at(right.last(), rc) {
            rest.push(l.union_prefer_right(right.last()))
        } else {
            rest
        }
    }
}

/// The rows of an inner join: for each left row in order, its merges with the right rows.
pub open spec fn join_rows(
    left: Seq<Map<Seq<char>, Seq<char>>>,
    right: Seq<Map<Seq<char>, Seq<char>>>,
    lc: Seq<char>,
    rc: Seq<char>,
) -> Seq<Map<Seq<char>, Seq<char>>>
    decreases left.len(),
{
    if left.len() == 0 {
        seq![]
    } else {
        join_rows(left.drop_last(), right, lc, rc) + join_one(left.last(), right, lc, rc)
    }
}

/// The rows that satisfy the condition, in order.
pub open spec fn matching_rows(
    rows: Seq<Map<Seq<char>, Seq<char>>>,
    cond: Option<crate::ast::SpecCondition>,
    nums: Seq<(String, NumOrder)>,
) -> Seq<Map<Seq<char>, Seq<char>>>
    decreases rows.len(),
{
    if rows.len() == 0 {
        seq![]
    } else if condition_holds(rows.last(), cond, nums) {
        matching_rows(rows.drop_last(), cond, nums).push(rows.last())
    } else {
        matching_rows(rows.drop_last(), cond, nums)
    }
}

/// The row's values under the grouping columns, the empty text where it lacks one.
pub open spec fn group_key(row: Map<Seq<char>, Seq<char>>, cols: Seq<Seq<char>>) -> Seq<Seq<char>> {
    Seq::new(
        cols.len(),
        |i: int|
            if row.dom().contains(cols[i]) {
                row[cols[i]]
            } else {
                seq![]
            },
    )
}

/// The first row of each group of rows with the same values under the columns, in order.
pub open spec fn first_of_groups(rows: Seq<Map<Seq<char>, Seq<char>>>, cols: Seq<Seq<char>>) -> Seq<Map<Seq<char>, Seq<char>>>
    decreases rows.len(),
{
    if rows.len() == 0 {
        seq![]
    } else {
        let prev = first_of_groups(rows.drop_last(), cols);
        if exists|j: int| 0 <= j < rows.len() - 1 && group_key(#[trigger] rows[j], cols) == group_key(rows.last(), cols) {
            prev
        } else {
            prev.push(rows.last())
        }
    }
}

/// The rows after `GROUP BY` (the first row of each group) and `LIMIT` (at most that many).
pub open spec fn grouped_limited(
    rows: Seq<Map<Seq<char>, Seq<char>>>,
    group_by: Option<Seq<Seq<char>>>,
    limit: Option<usize>,
) -> Seq<Map<Seq<char>, Seq<char>>> {
    let g = match group_by {
        Some(cols) => first_of_groups(rows, cols),
        None => rows,
    };
    match limit {
        Some(n) => if n < g.len() {
            g.subrange(0, n as int)
        } else {
            g
        },
        None => g,
    }
}

/// The label of an aggregate column.
pub open spec fn agg_label_text(func: AggFunc, col: Seq<char>) -> Seq<char> {
    let name = match func {
        AggFunc::Count => "COUNT"@,
        AggFunc::Sum => "SUM"@,
        AggFunc::Avg => "AVG"@,
        AggFunc::Min => "MIN"@,
        AggFunc::Max => "MAX"@,
    };
    name + "("@ + col + ")"@
}

pub open spec fn select_views(cols: Seq<SelectColumn>) -> Seq<SpecSelectColumn> {
    cols.map_values(|c: SelectColumn| c@)
}

/// The label of an aggregate column: the function's name and the column in brackets.
pub fn agg_label(func: AggFunc, col: &str) -> (s: String)
    ensures
        s@ == agg_label_text(func, col@),
{
    let mut s = String::new();
    match func {
        AggFunc::Count => push_text(&mut s, "COUNT"),
        AggFunc::Sum => push_text(&mut s, "SUM"),
        AggFunc::Avg => push_text(&mut s, "AVG"),
        AggFunc::Min => push_text(&mut s, "MIN"),
        AggFunc::Max => push_text(&mut s, "MAX"),
    }
    push_text(&mut s, "(");
    push_text(&mut s, col);
    push_text(&mut s, ")");
    proof {
        assert(s@ =~= agg_label_text(func, col@));
    }
    s
}

/// Whether the select list holds an aggregate.
pub fn has_aggregates(columns: &Vec<SelectColumn>) -> (b: bool)
    ensures
        b == has_aggregate(select_views(columns@)),
{
    let ghost cv = select_views(columns@);
    let mut i: usize = 0;
    while i < columns.len()
        invariant
            cv == select_views(columns@),
            i <= columns@.len(),
            forall|j: int| 0 <= j < i ==> !(#[trigger] cv[j] is Agg),
        decreases columns@.len() - i,
    {
        if let SelectColumn::Agg { .. } = &columns[i] {
            assert(cv[i as int] is Agg);
            return true;
        }
        i = i + 1;
    }
    false
}

/// Whether the select list holds `*`.
fn has_all(columns: &Vec<SelectColumn>) -> (b: bool)
    ensures
        b == has_star(select_views(columns@)),
{
    let ghost cv = select_views(columns@);
    let mut i: usize = 0;
    while i < columns.len()
        invariant
            cv == select_views(columns@),
            i <= columns@.len(),
            forall|j: int| 0 <= j < i ==> !(#[trigger] cv[j] is All),
        decreases columns@.len() - i,
    {
        if let SelectColumn::All = &columns[i] {
            assert(cv[i as int] is All);
            return true;
        }
        i = i + 1;
    }
    false
}

/// The names of the plain columns of the select list.
fn plain_columns(columns: &Vec<SelectColumn>) -> (r: Vec<String>)
    ensures
        texts_of(r@) == named_columns(select_views(columns@)),
{
    let ghost cv = select_views(columns@);
    let mut r: Vec<String> = Vec::new();
    let mut i: usize = 0;
    while i < columns.len()
        invariant
            cv == select_views(columns@),
            i <= columns@.len(),
            texts_of(r@) == named_columns(cv.subrange(0, i as int)),
        decreases columns@.len() - i,
    {
        proof {
            let sub = cv.subrange(0, i + 1);
            assert(sub.drop_last() =~= cv.subrange(0, i as int));
            assert(sub.last() == cv[i as int]);
        }
        if let SelectColumn::Column(name) = &columns[i] {
            let ghost prev = r@;
            r.push(name.clone());
            proof {
                assert(texts_of(r@) =~= texts_of(prev).push(name@));
            }
        }
        i = i + 1;
    }
    proof {
        assert(cv.subrange(0, i as int) =~= cv);
    }
    r
}

/// Whether two optional values are equal (two missing ones are).
fn same_value(a: Option<&String>, b: Option<&String>) -> (r: bool)
    ensures
        r == (match (a, b) {
            (Some(x), Some(y)) => x@ == y@,
            (None, None) => true,
            _ => false,
        }),
{
    match (a, b) {
        (Some(x), Some(y)) => same_text(x.as_str(), y.as_str()),
        (None, None) => true,
        _ => false,
    }
}

/// The rows of the inner join.
fn join_all(left: &Vec<Row>, right: &Vec<Row>, lc: &str, rc: &str) -> (r: Vec<Row>)
    ensures
        row_views(r@) == join_rows(row_views(left@), row_views(right@), lc@, rc@),
{
    let ghost lv = row_views(left@);
    let ghost rv = row_views(right@);
    let mut out: Vec<Row> = Vec::new();
    let mut i: usize = 0;
    while i < left.len()
        invariant
            lv == row_views(left@),
            rv == row_views(right@),
            i <= left@.len(),
            row_views(out@) == join_rows(lv.subrange(0, i as int), rv, lc@, rc@),
        decreases left@.len() - i,
    {
        let ghost before = row_views(out@);
        let l = &left[i];
        let mut j: usize = 0;
        while j < right.len()
            invariant
                lv == row_views(left@),
                rv == row_views(right@),
                i < left@.len(),
                *l == left@[i as int],
                j <= right@.len(),
                row_views(out@) == before + join_one(l@, rv.subrange(0, j as int), lc@, rc@),
            decreases right@.len() - j,
        {
            let ghost prev = row_views(out@);
            proof {
                let sub = rv.subrange(0, j + 1);
                assert(sub.drop_last() =~= rv.subrange(0, j as int));
                assert(sub.last() == right@[j as int]@);
            }
            if same_value(l.get(lc), right[j].get(rc)) {
                let mut merged = l.duplicate();
                merged.extend(&right[j]);
                out.push(merged);
                proof {
                    assert(row_views(out@) =~= prev.push(l@.union_prefer_right(right@[j as int]@)));
                }
            }
            j = j + 1;
        }
        proof {
            assert(rv.subrange(0, j as int) =~= rv);
            let sub = lv.subrange(0, i + 1);
            assert(sub.drop_last() =~= lv.subrange(0, i as int));
            assert(sub.last() == l@);
        }
        i = i + 1;
    }
    proof {
        assert(lv.subrange(0, i as int) =~= lv);
    }
    out
}

/// The rows that satisfy the condition, in order.
fn filter_matching(rows: Vec<Row>, condition: &Option<Condition>, nums: &NumericOrders) -> (r: Vec<Row>)
    ensures
        row_views(r@) == matching_rows(row_views(rows@), crate::ast::opt_condition_view(*condition), nums.entries@),
{
    let ghost rv = row_views(rows@);
    let ghost cond = crate::ast::opt_condition_view(*condition);
    let mut out: Vec<Row> = Vec::new();
    let mut i: usize = 0;
    while i < rows.len()
        invariant
            rv == row_views(rows@),
            cond == crate::ast::opt_condition_view(*condition),
            i <= rows@.len(),
            row_views(out@) == matching_rows(rv.subrange(0, i as int), cond, nums.entries@),
        decreases rows@.len() - i,
    {
        proof {
            let sub = rv.subrange(0, i + 1);
            assert(sub.drop_last() =~= rv.subrange(0, i as int));
            assert(sub.last() == rv[i as int]);
        }
        if matches_condition(&rows[i], condition, nums) {
            let ghost prev = row_views(out@);
            out.push(rows[i].duplicate());
            proof {
                assert(row_views(out@) =~= prev.push(rv[i as int]));
            }
        }
        i = i + 1;
    }
    proof {
        assert(rv.subrange(0, i as int) =~= rv);
    }
    out
}

/// The row's values under the grouping columns.
fn key_of(row: &Row, cols: &Vec<String>) -> (k: Vec<String>)
    ensures
        texts_of(k@) == group_key(row@, texts_of(cols@)),
{
    let mut k: Vec<String> = Vec::new();
    let mut i: usize = 0;
    while i < cols.len()
        invariant
            i <= cols@.len(),
            k@.len() == i,
            forall|j: int| 0 <= j < i ==> (#[trigger] k@[j])@ == group_key(row@, texts_of(cols@))[j],
        decreases cols@.len() - i,
    {
        match row.get(cols[i].as_str()) {
            Some(v) => k.push(v.clone()),
            None => k.push(String::new()),
        }
        i = i + 1;
    }
    proof {
        assert(texts_of(k@) =~= group_key(row@, texts_of(cols@)));
    }
    k
}

/// Whether two keys hold the same texts.
fn same_key(a: &Vec<String>, b: &Vec<String>) -> (r: bool)
    ensures
        r == (texts_of(a@) == texts_of(b@)),
{
    if a.len() != b.len() {
        proof {
            assert(texts_of(a@).len() != texts_of(b@).len());
        }
        return false;
    }
    let mut i: usize = 0;
    while i < a.len()
        invariant
            a@.len() == b@.len(),
            i <= a@.len(),
            forall|j: int| 0 <= j < i ==> a@[j]@ == b@[j]@,
        decreases a@.len() - i,
    {
        if !same_text(a[i].as_str(), b[i].as_str()) {
            proof {
                assert(texts_of(a@)[i as int] != texts_of(b@)[i as int]);
            }
            return false;
        }
        i = i + 1;
    }
    proof {
        assert(texts_of(a@) =~= texts_of(b@));
    }
    true
}

/// Keeps the first row of each group of rows with the same values under the columns (as
/// `GROUP BY` does here), and then at most `limit` rows (as `LIMIT` does).
pub fn group_and_limit(rows: Vec<Row>, group_by: &Option<Vec<String>>, limit: Option<usize>) -> (r: Vec<Row>)
    ensures
        row_views(r@) == grouped_limited(
            row_views(rows@),
            match group_by {
                Some(g) => Some(texts_of(g@)),
                None => None,
            },
            limit,
        ),
{
    let ghost rv = row_views(rows@);
    let mut result: Vec<Row>;
    match group_by {
        Some(cols) => {
            let ghost cs = texts_of(cols@);
            let mut seen: Vec<Vec<String>> = Vec::new();
            let mut out: Vec<Row> = Vec::new();
            let mut i: usize = 0;
            while i < rows.len()
                invariant
                    rv == row_views(rows@),
                    cs == texts_of(cols@),
                    i <= rows@.len(),
                    seen@.len() == i,
                    forall|j: int| 0 <= j < i ==> texts_of((#[trigger] seen@[j])@) == group_key(rv[j], cs),
                    row_views(out@) == first_of_groups(rv.subrange(0, i as int), cs),
                decreases rows@.len() - i,
            {
                let k = key_of(&rows[i], cols);
                let mut dup = false;
                let mut j: usize = 0;
                while j < seen.len()
                    invariant
                        i <= rows@.len(),
                        i < rows@.len(),
                        seen@.len() == i,
                        j <= seen@.len(),
                        dup == exists|x: int| 0 <= x < j && texts_of((#[trigger] seen@[x])@) == texts_of(k@),
                    decreases seen@.len() - j,
                {
                    if same_key(&seen[j], &k) {
                        dup = true;
                    }
                    j = j + 1;
                }
                proof {
                    let sub = rv.subrange(0, i + 1);
                    assert(sub.drop_last() =~= rv.subrange(0, i as int));
                    assert(sub.last() == rv[i as int]);
                    assert(dup == exists|x: int| 0 <= x < sub.len() - 1 && group_key(#[trigger] sub[x], cs) == group_key(sub.last(), cs)) by {
                        if dup {
                            let x = choose|x: int| 0 <= x < j && texts_of((#[trigger] seen@[x])@) == texts_of(k@);
                            assert(sub[x] == rv[x]);
                        }
                        if exists|x: int| 0 <= x < sub.len() - 1 && group_key(#[trigger] sub[x], cs) == group_key(sub.last(), cs) {
                            let x = choose|x: int| 0 <= x < sub.len() - 1 && group_key(#[trigger] sub[x], cs) == group_key(sub.last(), cs);
                            assert(sub[x] == rv[x]);
                            assert(texts_of(seen@[x]@) == texts_of(k@));
                        }
                    }
                }
                if !dup {
                    let ghost prev = row_views(out@);
                    out.push(rows[i].duplicate());
                    proof {
                        assert(row_views(out@) =~= prev.push(rv[i as int]));
                    }
                }
                seen.push(k);
                i = i + 1;
            }
            proof {
                assert(rv.subrange(0, i as int) =~= rv);
            }
            result = out;
        },
        None => {
            result = rows;
        },
    }
    match limit {
        Some(n) => {
            if n < result.len() {
                let ghost g = row_views(result@);
                result.truncate(n);
                proof {
                    assert(row_views(result@) =~= g.subrange(0, n as int));
                }
            }
        },
        None => {},
    }
    result
}


/// The value the row holds in the column, or the empty text.
pub open spec fn key_value(row: Map<Seq<char>, Seq<char>>, col: Option<Seq<char>>) -> Seq<char> {
    match col {
        Some(c) => if row.dom().contains(c) {
            row[c]
        } else {
            seq![]
        },
        None => seq![],
    }
}

/// What an `UPDATE` logs within transaction `id`: for each row that satisfies the condition,
/// in order, the undo operation (the key the updated row holds in the first column, and the
/// old row) and the log line (with the old and the new row as JSON).
pub open spec fn update_log(
    rows: Seq<Map<Seq<char>, Seq<char>>>,
    asg: Seq<(Seq<char>, Seq<char>)>,
    cond: Option<crate::ast::SpecCondition>,
    nums: Seq<(String, NumOrder)>,
    table: Seq<char>,
    col: Option<Seq<char>>,
    id: u64,
) -> (Seq<SpecUndoOp>, Seq<Seq<char>>)
    decreases rows.len(),
{
    if rows.len() == 0 {
        (seq![], seq![])
    } else {
        let prev = update_log(rows.drop_last(), asg, cond, nums, table, col, id);
        let r = rows.last();
        if condition_holds(r, cond, nums) {
            let nr = assigned(r, asg);
            let k = key_value(nr, col);
            (
                prev.0.push(SpecUndoOp::Update { table, key: k, pos: (rows.len() - 1) as nat, old_value: r }),
                prev.1.push(crate::wal::fields_line("UPDATE"@, id, seq![table, k, json_object_text(r), json_object_text(nr)])),
            )
        } else {
            prev
        }
    }
}

/// What a `DELETE` logs within transaction `id`: for each row that satisfies the condition,
/// in order, the undo operation (the key the row holds in the first column, and the row)
/// and the log line (with the row as JSON).
pub open spec fn delete_log(
    rows: Seq<Map<Seq<char>, Seq<char>>>,
    cond: Option<crate::ast::SpecCondition>,
    nums: Seq<(String, NumOrder)>,
    table: Seq<char>,
    col: Option<Seq<char>>,
    id: u64,
) -> (Seq<SpecUndoOp>, Seq<Seq<char>>)
    decreases rows.len(),
{
    if rows.len() == 0 {
        (seq![], seq![])
    } else {
        let prev = delete_log(rows.drop_last(), cond, nums, table, col, id);
        let r = rows.last();
        if condition_holds(r, cond, nums) {
            let k = key_value(r, col);
            (
                prev.0.push(
                    SpecUndoOp::Delete { table, key: k, pos: kept_rows(rows.drop_last(), cond, nums).len(), old_value: r },
                ),
                prev.1.push(crate::wal::fields_line("DELETE"@, id, seq![table, k, json_object_text(r)])),
            )
        } else {
            prev
        }
    }
}

/// The transaction manager after logging: outside a transaction unchanged; within one, with
/// the undo operations and the log lines added.
pub open spec fn logged_all(
    before: TransactionManager,
    after: TransactionManager,
    log: (Seq<SpecUndoOp>, Seq<Seq<char>>),
) -> bool {
    &&& before.active_txn is None ==> after.same_state(&before) && after.same_log(&before)
    &&& before.active_txn is Some ==> {
        &&& after.next_txn_id == before.next_txn_id
        &&& after.active_txn == before.active_txn
        &&& undo_views(after.undo_log@) == undo_views(before.undo_log@) + log.0
        &&& after.wal.log_path() == before.wal.log_path()
        &&& after.wal.lines() == before.wal.lines() + log.1
    }
}

/// The transaction's number, or 0 outside one.
pub open spec fn txn_number(t: TransactionManager) -> u64 {
    match t.active_txn {
        Some(id) => id,
        None => 0,
    }
}

/// The value the row holds in the column, or the empty text.
fn key_in(row: &Row, col: Option<&str>) -> (k: String)
    ensures
        k@ == key_value(row@, match col { Some(c) => Some(c@), None => None }),
{
    match col {
        Some(c) => match row.get(c) {
            Some(v) => v.clone(),
            None => String::new(),
        },
        None => String::new(),
    }
}

/// The statement executor: the tables, the transaction manager, and the disk writes called
/// for and not yet handed out.
pub struct Executor {
    tables: Vec<TableData>,
    txn: TransactionManager,
    disk: DiskManager,
    pending: Vec<DiskAction>,
}


/// A `SELECT` whose rows are ready for ordering: the rows that satisfy the condition, and
/// the rest of the query.
pub struct SelectJob {
    pub rows: Vec<Row>,
    pub table: String,
    pub columns: Vec<SelectColumn>,
    pub join: Option<Join>,
    pub order_by: Option<OrderBy>,
    pub group_by: Option<Vec<String>>,
    pub limit: Option<usize>,
}

/// What running a statement gives: its message, or a `SELECT` whose rows still have to be
/// ordered, grouped, limited and drawn.
pub enum Outcome {
    Done(String),
    Rows(SelectJob),
}

/// The message or error of an outcome (of a finished statement).
pub open spec fn outcome_text(r: Result<Outcome, String>) -> Result<String, String> {
    match r {
        Ok(Outcome::Done(s)) => Ok(s),
        Ok(Outcome::Rows(_)) => vstd::pervasive::arbitrary(),
        Err(e) => Err(e),
    }
}

/// What an outcome of a `SELECT` says `exec_select` gave.
pub open spec fn outcome_selected(r: Result<Outcome, String>) -> Result<Vec<Row>, String> {
    match r {
        Ok(Outcome::Done(_)) => vstd::pervasive::arbitrary(),
        Ok(Outcome::Rows(job)) => Ok(job.rows),
        Err(e) => Err(e),
    }
}

/// What a statement needs of the state to run without failing: an `INSERT` of no values
/// goes to a table with columns; a `BEGIN` has a next number to give.
pub open spec fn runnable(ex: Executor, stmt: Statement) -> bool {
    match stmt {
        Statement::Insert { table, values } => values@.len() == 0 && ex.tables().dom().contains(table@)
            ==> ex.tables()[table@].columns.len() > 0,
        Statement::Begin => ex.transactions().active_txn is None ==> ex.transactions().next_txn_id < u64::MAX,
        _ => true,
    }
}

/// What running the statement does: that of the matching `exec_` operation; a `SELECT`
/// changes nothing and gives what `exec_select` gives, its rows along with the rest of the
/// query.
pub open spec fn executed(before: Executor, after: Executor, stmt: Statement, nums: NumericOrders, r: Result<Outcome, String>) -> bool {
    match stmt {
        Statement::Select { table, columns, condition, join, order_by, group_by, limit } => {
            &&& after == before
            &&& !(r matches Ok(Outcome::Done(_)))
            &&& selected(before, table, condition, join, nums, outcome_selected(r))
            &&& r matches Ok(Outcome::Rows(job)) ==> job.table == table && job.columns == columns
                && job.join == join && job.order_by == order_by && job.group_by == group_by
                && job.limit == limit
        },
        _ => {
            &&& !(r matches Ok(Outcome::Rows(_)))
            &&& match stmt {
                Statement::CreateTable { name, columns } => created(before, after, name, columns, outcome_text(r)),
                Statement::DropTable { name } => dropped(before, after, name, outcome_text(r)),
                Statement::Insert { table, values } => inserted(before, after, table, values, outcome_text(r)),
                Statement::Update { table, assignments, condition } => updated(
                    before,
                    after,
                    table,
                    assignments,
                    condition,
                    nums,
                    outcome_text(r),
                ),
                Statement::Delete { table, condition } => deleted(before, after, table, condition, nums, outcome_text(r)),
                Statement::Begin => began(before, after, outcome_text(r)),
                Statement::Commit => committed(before, after, outcome_text(r)),
                Statement::Rollback => rolled_back_all(before, after, outcome_text(r)),
                Statement::AlterTable { table, action } => altered(before, after, table, action, outcome_text(r)),
                _ => true,
            }
        },
    }
}


/// The entries an index of rows read from disk gets: for each row with a value in the first
/// column, that value and the row as JSON.
pub open spec fn first_column_entries(rows: Seq<Map<Seq<char>, Seq<char>>>, cols: Seq<Seq<char>>) -> Seq<Entry>
    decreases rows.len(),
{
    if rows.len() == 0 {
        seq![]
    } else {
        let prev = first_column_entries(rows.drop_last(), cols);
        if cols.len() > 0 && rows.last().dom().contains(cols[0]) {
            prev.push((rows.last()[cols[0]], json_object_text(rows.last())))
        } else {
            prev
        }
    }
}

/// No two rows hold the same value in the first column.
pub open spec fn first_column_distinct(rows: Seq<Map<Seq<char>, Seq<char>>>, cols: Seq<Seq<char>>) -> bool {
    cols.len() > 0 ==> forall|i: int, j: int|
        0 <= i < j < rows.len() && (#[trigger] rows[i]).dom().contains(cols[0]) && (#[trigger] rows[j]).dom().contains(
            cols[0],
        ) ==> rows[i][cols[0]] != rows[j][cols[0]]
}

/// Each entry of the first column's index comes from a row that holds its key there.
proof fn lemma_first_column_entry(rows: Seq<Map<Seq<char>, Seq<char>>>, cols: Seq<Seq<char>>, e: Entry)
    requires
        first_column_entries(rows, cols).contains(e),
    ensures
        cols.len() > 0,
        exists|j: int| 0 <= j < rows.len() && (#[trigger] rows[j]).dom().contains(cols[0]) && rows[j][cols[0]] == e.0,
    decreases rows.len(),
{
    let d = rows.drop_last();
    let prev = first_column_entries(d, cols);
    if cols.len() > 0 && rows.last().dom().contains(cols[0]) {
        let cur = prev.push((rows.last()[cols[0]], json_object_text(rows.last())));
        let k = choose|k: int| 0 <= k < cur.len() && cur[k] == e;
        if k < prev.len() {
            assert(prev[k] == cur[k]);
            lemma_first_column_entry(d, cols, e);
            let j = choose|j: int| 0 <= j < d.len() && (#[trigger] d[j]).dom().contains(cols[0]) && d[j][cols[0]] == e.0;
            assert(rows[j] == d[j]);
        } else {
            assert(rows[rows.len() - 1] == rows.last());
        }
    } else {
        lemma_first_column_entry(d, cols, e);
        let j = choose|j: int| 0 <= j < d.len() && (#[trigger] d[j]).dom().contains(cols[0]) && d[j][cols[0]] == e.0;
        assert(rows[j] == d[j]);
    }
}

/// A finished statement's result as an outcome.
fn done(r: Result<String, String>) -> (o: Result<Outcome, String>)
    ensures
        outcome_text(o) == r,
        !(o matches Ok(Outcome::Rows(_))),
{
    match r {
        Ok(s) => Ok(Outcome::Done(s)),
        Err(e) => Err(e),
    }
}

/// What `exec_create` does.
pub open spec fn created(before: Executor, after: Executor, name: String, columns: Vec<ColumnDef>, r: Result<String, String>) -> bool {
    &&& (after.transactions() == before.transactions())
    &&& (before.tables().dom().contains(name@) ==> {
        &&& r matches Err(e) && e@ == exists_msg(name@)
        &&& after.tables() == before.tables()
        &&& after.disk_actions() == before.disk_actions()
    })
    &&& (!before.tables().dom().contains(name@) ==> {
        &&& r matches Ok(m) && m@ == quoted("Table '"@, name@, "' created."@)
        &&& after.tables() == before.tables().insert(
            name@,
            SpecTable {
                columns: columns@.map_values(|c: ColumnDef| c@),
                rows: seq![],
                index: seq![],
                index_ordered: true,
            },
        )
        &&& after.disk_actions() == before.disk_actions().push(
            SpecDiskAction::SaveSchema(name@, column_names(columns@.map_values(|c: ColumnDef| c@))),
        )
    })
}

/// What `exec_drop` does.
pub open spec fn dropped(before: Executor, after: Executor, name: String, r: Result<String, String>) -> bool {
    &&& (after.transactions() == before.transactions())
    &&& (!before.tables().dom().contains(name@) ==> {
        &&& r matches Err(e) && e@ == not_found_msg(name@)
        &&& after.tables() == before.tables()
        &&& after.disk_actions() == before.disk_actions()
    })
    &&& (before.tables().dom().contains(name@) ==> {
        &&& r matches Ok(m) && m@ == quoted("Table '"@, name@, "' dropped."@)
        &&& after.tables() == before.tables().remove(name@)
        &&& after.disk_actions() == before.disk_actions().push(
            SpecDiskAction::DeleteTable(name@),
        )
    })
}

/// What `exec_insert` does.
pub open spec fn inserted(before: Executor, after: Executor, table: String, values: Vec<String>, r: Result<String, String>) -> bool {
    &&& (!before.tables().dom().contains(table@) ==> {
        &&& r matches Err(e) && e@ == not_found_msg(table@)
        &&& after == before
    })
    &&& (before.tables().dom().contains(table@) && values@.len() != before.tables()[table@].columns.len() ==> {
        &&& r matches Err(e) && e@ == "Column count mismatch: expected "@ + decimal(
            before.tables()[table@].columns.len(),
        ) + ", got "@ + decimal(values@.len())
        &&& after == before
    })
    &&& (before.tables().dom().contains(table@) && values@.len() == before.tables()[table@].columns.len() ==> {
        let t = before.tables()[table@];
        let row = zip_row(column_names(t.columns), texts_of(values@));
        let key = values@[0]@;
        let entry = (key, json_object_text(row));
        let nt = after.tables()[table@];
        &&& r matches Ok(m) && m@ == "1 row inserted."@
        &&& after.tables().dom() =~= before.tables().dom()
        &&& after.tables().remove(table@) =~= before.tables().remove(table@)
        &&& nt.columns == t.columns
        &&& nt.rows == t.rows.push(row)
        &&& nt.index.to_multiset() == t.index.to_multiset().insert(entry)
        &&& t.index_ordered && crate::btree::misses(t.index, key) ==> nt.index_ordered
            && exists|i: int| 0 <= i <= t.index.len() && nt.index == t.index.insert(i, entry)
        &&& insert_logged(before.transactions(), after.transactions(), table@, key, t.rows.len(), json_object_text(row))
        &&& after.disk_actions() == if after.transactions().active_txn is None {
            before.disk_actions().push(SpecDiskAction::SaveTable(table@))
        } else {
            before.disk_actions()
        }
    })
}

/// What `exec_update` does.
pub open spec fn updated(before: Executor, after: Executor, table: String, assignments: Vec<(String, String)>, condition: Option<Condition>, nums: NumericOrders, r: Result<String, String>) -> bool {
    &&& (!before.tables().dom().contains(table@) ==> {
        &&& r matches Err(e) && e@ == not_found_msg(table@)
        &&& after == before
    })
    &&& (before.tables().dom().contains(table@) ==> {
        let t = before.tables()[table@];
        let cond = crate::ast::opt_condition_view(condition);
        let nt = after.tables()[table@];
        &&& r matches Ok(m) && m@ == decimal(count_matching(t.rows, cond, nums.entries@)) + " row(s) updated."@
        &&& after.tables().dom() =~= before.tables().dom()
        &&& after.tables().remove(table@) =~= before.tables().remove(table@)
        &&& nt.columns == t.columns
        &&& nt.rows == updated_rows(t.rows, crate::ast::pairs_view(assignments@), cond, nums.entries@)
        &&& index_of_rows(nt.index, nt.rows, key_column(t.columns))
        &&& keys_distinct(nt.rows, key_column(t.columns)) ==> nt.index_ordered
        &&& logged_all(before.transactions(), after.transactions(), update_log(
            t.rows,
            crate::ast::pairs_view(assignments@),
            cond,
            nums.entries@,
            table@,
            key_column(t.columns),
            txn_number(before.transactions()),
        ))
        &&& after.disk_actions() == before.disk_actions().push(SpecDiskAction::SaveTable(table@))
    })
}

/// What `exec_delete` does.
pub open spec fn deleted(before: Executor, after: Executor, table: String, condition: Option<Condition>, nums: NumericOrders, r: Result<String, String>) -> bool {
    &&& (!before.tables().dom().contains(table@) ==> {
        &&& r matches Err(e) && e@ == not_found_msg(table@)
        &&& after == before
    })
    &&& (before.tables().dom().contains(table@) ==> {
        let t = before.tables()[table@];
        let cond = crate::ast::opt_condition_view(condition);
        let nt = after.tables()[table@];
        &&& r matches Ok(m) && m@ == decimal(count_matching(t.rows, cond, nums.entries@)) + " row(s) deleted."@
        &&& after.tables().dom() =~= before.tables().dom()
        &&& after.tables().remove(table@) =~= before.tables().remove(table@)
        &&& nt.columns == t.columns
        &&& nt.rows == kept_rows(t.rows, cond, nums.entries@)
        &&& index_of_rows(nt.index, nt.rows, key_column(t.columns))
        &&& keys_distinct(nt.rows, key_column(t.columns)) ==> nt.index_ordered
        &&& logged_all(before.transactions(), after.transactions(), delete_log(
            t.rows,
            cond,
            nums.entries@,
            table@,
            key_column(t.columns),
            txn_number(before.transactions()),
        ))
        &&& after.disk_actions() == before.disk_actions().push(SpecDiskAction::SaveTable(table@))
    })
}

/// What `exec_begin` does.
pub open spec fn began(before: Executor, after: Executor, r: Result<String, String>) -> bool {
    &&& (after.tables() == before.tables())
    &&& (after.disk_actions() == before.disk_actions())
    &&& (before.transactions().active_txn is Some ==> {
        &&& r matches Err(e) && e@ == crate::txn::already_active_msg()
        &&& after.transactions().same_state(&before.transactions())
        &&& after.transactions().same_log(&before.transactions())
    })
    &&& (before.transactions().active_txn is None ==> {
        let id = before.transactions().next_txn_id;
        &&& r matches Ok(m) && m@ == "Transaction "@ + decimal(id as nat) + " started."@
        &&& after.transactions().next_txn_id == id + 1
        &&& after.transactions().active_txn == Some(id)
        &&& after.transactions().undo_log@.len() == 0
        &&& after.transactions().wal.log_path() == before.transactions().wal.log_path()
        &&& after.transactions().wal.lines() == before.transactions().wal.lines().push(
            crate::wal::fields_line("BEGIN"@, id, seq![]),
        )
    })
}

/// What `exec_commit` does.
pub open spec fn committed(before: Executor, after: Executor, r: Result<String, String>) -> bool {
    &&& (after.tables() == before.tables())
    &&& (before.transactions().active_txn is None ==> after.disk_actions() == before.disk_actions())
    &&& (before.transactions().active_txn is Some ==> after.disk_actions() == before.disk_actions()
        + saves_of(undo_views(before.transactions().undo_log@), before.tables().dom()))
    &&& (before.transactions().active_txn is None ==> {
        &&& r matches Err(e) && e@ == no_active_msg()
        &&& after.transactions().same_state(&before.transactions())
        &&& after.transactions().same_log(&before.transactions())
    })
    &&& (before.transactions().active_txn matches Some(id) ==> {
        &&& r matches Ok(m) && m@ == "Transaction committed."@
        &&& after.transactions().next_txn_id == before.transactions().next_txn_id
        &&& after.transactions().active_txn is None
        &&& after.transactions().undo_log@.len() == 0
        &&& after.transactions().wal.log_path() == before.transactions().wal.log_path()
        &&& after.transactions().wal.lines() == before.transactions().wal.lines().push(
            crate::wal::fields_line("COMMIT"@, id, seq![]),
        )
    })
}

/// What `exec_rollback` does.
pub open spec fn rolled_back_all(before: Executor, after: Executor, r: Result<String, String>) -> bool {
    &&& (before.transactions().active_txn is None ==> {
        &&& r matches Err(e) && e@ == no_active_msg()
        &&& after.tables() == before.tables()
        &&& after.disk_actions() == before.disk_actions()
        &&& after.transactions().same_state(&before.transactions())
        &&& after.transactions().same_log(&before.transactions())
    })
    &&& (before.transactions().active_txn matches Some(id) ==> {
        let ops = undo_views(before.transactions().undo_log@).reverse();
        &&& r matches Ok(m) && m@ == "Transaction rolled back."@
        &&& after.tables().dom() =~= before.tables().dom()
        &&& forall|k: Seq<char>|
            #[trigger] before.tables().dom().contains(k) ==> table_rolled_back(
                before.tables()[k],
                after.tables()[k],
                k,
                ops,
            )
        &&& after.disk_actions() == before.disk_actions() + saves_of(ops, before.tables().dom())
        &&& after.transactions().next_txn_id == before.transactions().next_txn_id
        &&& after.transactions().active_txn is None
        &&& after.transactions().undo_log@.len() == 0
        &&& after.transactions().wal.log_path() == before.transactions().wal.log_path()
        &&& after.transactions().wal.lines() == before.transactions().wal.lines().push(
            crate::wal::fields_line("ABORT"@, id, seq![]),
        )
    })
}

/// What `exec_alter` does.
pub open spec fn altered(before: Executor, after: Executor, table: String, action: AlterAction, r: Result<String, String>) -> bool {
    &&& (after.transactions() == before.transactions())
    &&& (!before.tables().dom().contains(table@) ==> {
        &&& r matches Err(e) && e@ == not_found_msg(table@)
        &&& after == before
    })
    &&& (before.tables().dom().contains(table@) ==> {
        let t = before.tables()[table@];
        let nt = after.tables()[table@];
        &&& r matches Ok(m) && m@ == altered_msg(table@, action@)
        &&& after.tables().dom() =~= before.tables().dom()
        &&& after.tables().remove(table@) =~= before.tables().remove(table@)
        &&& nt.columns == altered_columns(t.columns, action@)
        &&& nt.rows == t.rows.map_values(|row: Map<Seq<char>, Seq<char>>| altered_row(row, action@))
        &&& nt.index == t.index
        &&& nt.index_ordered == t.index_ordered
        &&& after.disk_actions() == before.disk_actions().push(
            SpecDiskAction::SaveSchema(table@, column_names(nt.columns)),
        ).push(SpecDiskAction::SaveTable(table@))
    })
}

/// What `exec_select` gives: the rows of the table, joined with those of the joined table
/// where there is one, that satisfy the condition; refused when a table is missing.
pub open spec fn selected(
    ex: Executor,
    table: String,
    condition: Option<Condition>,
    join: Option<Join>,
    nums: NumericOrders,
    r: Result<Vec<Row>, String>,
) -> bool {
    let cond = crate::ast::opt_condition_view(condition);
    let tables = ex.tables();
    &&& !tables.contains_key(table@) ==> (r matches Err(e) && e@ == not_found_msg(table@))
    &&& tables.contains_key(table@) ==> match join {
        Some(j) => if tables.contains_key(j.table@) {
            r matches Ok(rs) && row_views(rs@) == matching_rows(
                join_rows(tables[table@].rows, tables[j.table@].rows, j.left_col@, j.right_col@),
                cond,
                nums.entries@,
            )
        } else {
            r matches Err(e) && e@ == not_found_msg(j.table@)
        },
        None => r matches Ok(rs) && row_views(rs@) == matching_rows(tables[table@].rows, cond, nums.entries@),
    }
}

impl Executor {
    /// Table names are distinct, and each index holds rows written as JSON.
    pub closed spec fn wf(&self) -> bool {
        &&& distinct_tables(self.tables@)
        &&& forall|i: int| 0 <= i < self.tables@.len() ==> all_json(#[trigger] self.tables@[i].index@)
    }

    /// The tables by name.
    pub closed spec fn tables(&self) -> Map<Seq<char>, SpecTable> {
        tables_map(self.tables@)
    }

    /// The transaction manager.
    pub closed spec fn transactions(&self) -> TransactionManager {
        self.txn
    }

    /// The disk writes called for and not yet handed out, oldest first.
    pub closed spec fn disk_actions(&self) -> Seq<SpecDiskAction> {
        action_views(self.pending@)
    }

    /// An executor without tables, no transaction active, nothing to write.
    pub fn empty() -> (e: Self)
        ensures
            e.wf(),
            e.tables() == Map::<Seq<char>, SpecTable>::empty(),
            e.disk_actions() == Seq::<SpecDiskAction>::empty(),
            e.transactions().next_txn_id == 1,
            e.transactions().active_txn is None,
            e.transactions().undo_log@.len() == 0,
            e.transactions().wal.log_path() == "data/wal.log"@,
            e.transactions().wal.lines() == Seq::<Seq<char>>::empty(),
    {
        let e = Executor {
            tables: Vec::new(),
            txn: TransactionManager::new(),
            disk: DiskManager::new(),
            pending: Vec::new(),
        };
        proof {
            assert(e.tables() =~= Map::<Seq<char>, SpecTable>::empty());
            assert(e.disk_actions() =~= Seq::<SpecDiskAction>::empty());
        }
        e
    }

    /// Hands out the disk writes called for so far, oldest first.
    pub fn take_disk_actions(&mut self) -> (actions: Vec<DiskAction>)
        requires
            old(self).wf(),
        ensures
            final(self).wf(),
            action_views(actions@) == old(self).disk_actions(),
            final(self).disk_actions() == Seq::<SpecDiskAction>::empty(),
            final(self).tables() == old(self).tables(),
            final(self).transactions() == old(self).transactions(),
    {
        let mut out: Vec<DiskAction> = Vec::new();
        std::mem::swap(&mut out, &mut self.pending);
        proof {
            assert(self.disk_actions() =~= Seq::<SpecDiskAction>::empty());
        }
        out
    }

    /// Hands out the log lines written so far, oldest first, to be appended to the log file.
    pub fn take_log_lines(&mut self) -> (lines: Vec<String>)
        requires
            old(self).wf(),
        ensures
            final(self).wf(),
            lines@.map_values(|l: String| l@) == old(self).transactions().wal.lines(),
            final(self).transactions().wal.lines() == Seq::<Seq<char>>::empty(),
            final(self).transactions().wal.log_path() == old(self).transactions().wal.log_path(),
            final(self).transactions().same_state(&old(self).transactions()),
            final(self).tables() == old(self).tables(),
            final(self).disk_actions() == old(self).disk_actions(),
    {
        self.txn.wal.take_lines()
    }

    /// The transaction manager.
    pub fn txn(&self) -> (t: &TransactionManager)
        ensures
            *t == self.transactions(),
    {
        &self.txn
    }

    /// The file the log goes to.
    pub fn log_path(&self) -> (p: &str)
        ensures
            p@ == self.transactions().wal.log_path(),
    {
        self.txn.wal.path()
    }

    /// Creates an empty table; refused when one of that name exists.
    pub fn exec_create(&mut self, name: String, columns: Vec<ColumnDef>) -> (r: Result<String, String>)
        requires
            old(self).wf(),
        ensures
            final(self).wf(),
            created(*old(self), *final(self), name, columns, r),
    {
        if self.find(name.as_str()).is_some() {
            return Err(quote("Table '", name.as_str(), "' already exists"));
        }
        let col_names = names_of(&columns);
        let msg = quote("Table '", name.as_str(), "' created.");
        let action = DiskAction::SaveSchema(String::from_str(name.as_str()), col_names);
        let t = TableData { name, columns, rows: Vec::new(), index: BPlusTree::new() };
        proof {
            lemma_tables_push(self.tables@, t);
            assert(row_views(t.rows@) =~= Seq::<Map<Seq<char>, Seq<char>>>::empty());
            assert(t@ == SpecTable {
                columns: t.columns@.map_values(|c: ColumnDef| c@),
                rows: seq![],
                index: seq![],
                index_ordered: true,
            });
        }
        let ghost before = self.tables@;
        self.tables.push(t);
        let ghost pend = self.pending@;
        self.pending.push(action);
        proof {
            assert(self.tables@ == before.push(t));
            assert forall|i: int| 0 <= i < self.tables@.len() implies all_json(#[trigger] self.tables@[i].index@) by {
                if i < before.len() {
                    assert(self.tables@[i] == before[i]);
                }
            }
            assert(action_views(self.pending@) =~= action_views(pend).push(action@));
        }
        Ok(msg)
    }

    /// Drops the table; refused when there is none of that name.
    pub fn exec_drop(&mut self, name: String) -> (r: Result<String, String>)
        requires
            old(self).wf(),
        ensures
            final(self).wf(),
            dropped(*old(self), *final(self), name, r),
    {
        let i = match self.find(name.as_str()) {
            Some(i) => i,
            None => {
                return Err(not_found(name.as_str()));
            },
        };
        let ghost before = self.tables@;
        proof {
            lemma_tables_remove(before, i as int);
        }
        self.tables.remove(i);
        let msg = quote("Table '", name.as_str(), "' dropped.");
        let ghost pend = self.pending@;
        self.pending.push(DiskAction::DeleteTable(name));
        proof {
            assert forall|j: int| 0 <= j < self.tables@.len() implies all_json(#[trigger] self.tables@[j].index@) by {
                let j0 = if j < i { j } else { j + 1 };
                assert(self.tables@[j] == before[j0]);
            }
            assert(action_views(self.pending@) =~= action_views(pend).push(SpecDiskAction::DeleteTable(name@)));
        }
        Ok(msg)
    }

    /// Adds a row that sets each column of the table to the value at its position, indexed
    /// under the first value and logged within a transaction; outside one, the table is to
    /// be saved. Refused when there is no such table or the number of values differs from
    /// the number of columns.
    pub fn exec_insert(&mut self, table: String, values: Vec<String>) -> (r: Result<String, String>)
        requires
            old(self).wf(),
            values@.len() == 0 && old(self).tables().dom().contains(table@) ==> old(self).tables()[table@].columns.len() > 0,
        ensures
            final(self).wf(),
            inserted(*old(self), *final(self), table, values, r),
    {
        let i = match self.find(table.as_str()) {
            Some(i) => i,
            None => {
                return Err(not_found(table.as_str()));
            },
        };
        let ncols = self.tables[i].columns.len();
        if values.len() != ncols {
            let mut e = String::new();
            push_text(&mut e, "Column count mismatch: expected ");
            push_decimal(&mut e, ncols as u64);
            push_text(&mut e, ", got ");
            push_decimal(&mut e, values.len() as u64);
            proof {
                assert(e@ =~= "Column count mismatch: expected "@ + decimal(ncols as nat) + ", got "@ + decimal(values@.len()));
            }
            return Err(e);
        }
        let ghost before = self.tables@;
        let ghost old_t = before[i as int];
        let row = build_row(&self.tables[i].columns, &values);
        let key = values[0].clone();
        let val_json = row_to_json(&row);
        let pos = self.tables[i].rows.len();
        self.txn.log_insert(table.as_str(), key.as_str(), pos, val_json.as_str());
        let mut t = self.tables.remove(i);
        assert(t == old_t);
        index_add(&mut t.index, key, &row);
        let ghost rows_before = t.rows@;
        t.rows.push(row);
        proof {
            assert(row_views(t.rows@) =~= row_views(rows_before).push(row@));
            assert(before.remove(i as int).insert(i as int, t) =~= before.update(i as int, t));
            lemma_tables_update(before, i as int, t);
            lemma_tables_map(before);
        }
        self.tables.insert(i, t);
        proof {
            assert forall|j: int| 0 <= j < self.tables@.len() implies all_json(#[trigger] self.tables@[j].index@) by {
                if j != i {
                    assert(self.tables@[j] == before[j]);
                }
            }
            assert(self.tables()[table@] == t@);
        }
        if !self.txn.is_active() {
            let ghost pend = self.pending@;
            self.pending.push(DiskAction::SaveTable(table));
            proof {
                assert(action_views(self.pending@) =~= action_views(pend).push(SpecDiskAction::SaveTable(table@)));
            }
        }
        Ok(String::from_str("1 row inserted."))
    }

    /// Sets the assignments in every row of the table that satisfies the condition, and
    /// builds the index anew, each row under one of its values; the table is to be saved.
    /// Refused when there is no such table.
    pub fn exec_update(
        &mut self,
        table: String,
        assignments: Vec<(String, String)>,
        condition: Option<Condition>,
        nums: &NumericOrders,
    ) -> (r: Result<String, String>)
        requires
            old(self).wf(),
        ensures
            final(self).wf(),
            updated(*old(self), *final(self), table, assignments, condition, *nums, r),
    {
        let i = match self.find(table.as_str()) {
            Some(i) => i,
            None => {
                return Err(not_found(table.as_str()));
            },
        };
        let ghost before = self.tables@;
        let ghost cond = crate::ast::opt_condition_view(condition);
        let ghost asg = crate::ast::pairs_view(assignments@);
        let mut t = self.tables.remove(i);
        let ghost rv = row_views(t.rows@);
        let ghost txn0 = self.txn;
        let ghost col = key_column(t@.columns);
        let ghost id = txn_number(txn0);
        let key_col: Option<&str> = if t.columns.len() > 0 {
            Some(t.columns[0].name.as_str())
        } else {
            None
        };
        assert((match key_col { Some(c) => Some(c@), None => None::<Seq<char>> }) == col);
        let mut new_rows: Vec<Row> = Vec::new();
        let mut count: usize = 0;
        let mut j: usize = 0;
        let ghost tables_mid = self.tables@;
        let ghost pend0 = self.pending@;
        proof {
            assert(undo_views(txn0.undo_log@) + Seq::<SpecUndoOp>::empty() =~= undo_views(txn0.undo_log@));
            assert(txn0.wal.lines() + Seq::<Seq<char>>::empty() =~= txn0.wal.lines());
        }
        while j < t.rows.len()
            invariant
                rv == row_views(t.rows@),
                cond == crate::ast::opt_condition_view(condition),
                asg == crate::ast::pairs_view(assignments@),
                col == (match key_col { Some(c) => Some(c@), None => None::<Seq<char>> }),
                id == txn_number(txn0),
                j <= t.rows@.len(),
                new_rows@.len() == j,
                count as nat == count_matching(rv.subrange(0, j as int), cond, nums.entries@),
                forall|k: int| 0 <= k < j ==> (#[trigger] new_rows@[k])@ == updated_rows(rv, asg, cond, nums.entries@)[k],
                logged_all(txn0, self.txn, update_log(rv.subrange(0, j as int), asg, cond, nums.entries@, table@, col, id)),
                self.tables@ == tables_mid,
                self.pending@ == pend0,
            decreases t.rows@.len() - j,
        {
            let mut row = t.rows[j].duplicate();
            let hit = matches_condition(&row, &condition, nums);
            let ghost prev_txn = self.txn;
            proof {
                let sub = rv.subrange(0, j + 1);
                assert(sub.drop_last() =~= rv.subrange(0, j as int));
                assert(sub.last() == rv[j as int]);
                lemma_count_bound(rv.subrange(0, j as int), cond, nums.entries@);
            }
            if hit {
                let old_row = row.duplicate();
                assign_all(&mut row, &assignments);
                let key = key_in(&row, key_col);
                let new_json = row_to_json(&row);
                self.txn.log_update(table.as_str(), key.as_str(), j, old_row, new_json.as_str());
                proof {
                    let l0 = update_log(rv.subrange(0, j as int), asg, cond, nums.entries@, table@, col, id);
                    if txn0.active_txn is Some {
                        assert(undo_views(self.txn.undo_log@) =~= undo_views(txn0.undo_log@) + update_log(rv.subrange(0, j + 1), asg, cond, nums.entries@, table@, col, id).0);
                        assert(self.txn.wal.lines() =~= txn0.wal.lines() + update_log(rv.subrange(0, j + 1), asg, cond, nums.entries@, table@, col, id).1);
                    }
                }
                count = count + 1;
            }
            new_rows.push(row);
            j = j + 1;
        }
        proof {
            assert(rv.subrange(0, j as int) =~= rv);
            assert(row_views(new_rows@) =~= updated_rows(rv, asg, cond, nums.entries@));
        }
        t.rows = new_rows;
        t.index = rebuild_index(&t.rows, &t.columns);
        proof {
            assert(before.remove(i as int).insert(i as int, t) =~= before.update(i as int, t));
            lemma_tables_update(before, i as int, t);
        }
        self.tables.insert(i, t);
        proof {
            assert forall|k: int| 0 <= k < self.tables@.len() implies all_json(#[trigger] self.tables@[k].index@) by {
                if k != i {
                    assert(self.tables@[k] == before[k]);
                }
            }
            assert(self.tables()[table@] == t@);
        }
        let ghost pend = self.pending@;
        self.pending.push(DiskAction::SaveTable(table));
        proof {
            assert(action_views(self.pending@) =~= action_views(pend).push(SpecDiskAction::SaveTable(table@)));
        }
        Ok(counted(count, " row(s) updated."))
    }

    /// Removes the rows of the table that satisfy the condition, and builds the index anew,
    /// each row under one of its values; the table is to be saved. Refused when there is no
    /// such table.
    pub fn exec_delete(&mut self, table: String, condition: Option<Condition>, nums: &NumericOrders) -> (r: Result<String, String>)
        requires
            old(self).wf(),
        ensures
            final(self).wf(),
            deleted(*old(self), *final(self), table, condition, *nums, r),
    {
        let i = match self.find(table.as_str()) {
            Some(i) => i,
            None => {
                return Err(not_found(table.as_str()));
            },
        };
        let ghost before = self.tables@;
        let ghost cond = crate::ast::opt_condition_view(condition);
        let mut t = self.tables.remove(i);
        let ghost rv = row_views(t.rows@);
        let ghost txn0 = self.txn;
        let ghost col = key_column(t@.columns);
        let ghost id = txn_number(txn0);
        let key_col: Option<&str> = if t.columns.len() > 0 {
            Some(t.columns[0].name.as_str())
        } else {
            None
        };
        assert((match key_col { Some(c) => Some(c@), None => None::<Seq<char>> }) == col);
        let mut kept: Vec<Row> = Vec::new();
        let mut deleted: usize = 0;
        let mut j: usize = 0;
        let ghost tables_mid = self.tables@;
        let ghost pend0 = self.pending@;
        proof {
            assert(undo_views(txn0.undo_log@) + Seq::<SpecUndoOp>::empty() =~= undo_views(txn0.undo_log@));
            assert(txn0.wal.lines() + Seq::<Seq<char>>::empty() =~= txn0.wal.lines());
        }
        while j < t.rows.len()
            invariant
                rv == row_views(t.rows@),
                cond == crate::ast::opt_condition_view(condition),
                col == (match key_col { Some(c) => Some(c@), None => None::<Seq<char>> }),
                id == txn_number(txn0),
                j <= t.rows@.len(),
                deleted as nat == count_matching(rv.subrange(0, j as int), cond, nums.entries@),
                row_views(kept@) == kept_rows(rv.subrange(0, j as int), cond, nums.entries@),
                logged_all(txn0, self.txn, delete_log(rv.subrange(0, j as int), cond, nums.entries@, table@, col, id)),
                self.tables@ == tables_mid,
                self.pending@ == pend0,
            decreases t.rows@.len() - j,
        {
            let hit = matches_condition(&t.rows[j], &condition, nums);
            proof {
                let sub = rv.subrange(0, j + 1);
                assert(sub.drop_last() =~= rv.subrange(0, j as int));
                assert(sub.last() == rv[j as int]);
                lemma_count_bound(rv.subrange(0, j as int), cond, nums.entries@);
            }
            if hit {
                let key = key_in(&t.rows[j], key_col);
                self.txn.log_delete(table.as_str(), key.as_str(), kept.len(), t.rows[j].duplicate());
                proof {
                    if txn0.active_txn is Some {
                        assert(undo_views(self.txn.undo_log@) =~= undo_views(txn0.undo_log@) + delete_log(rv.subrange(0, j + 1), cond, nums.entries@, table@, col, id).0);
                        assert(self.txn.wal.lines() =~= txn0.wal.lines() + delete_log(rv.subrange(0, j + 1), cond, nums.entries@, table@, col, id).1);
                    }
                }
                deleted = deleted + 1;
            } else {
                let ghost prev = kept@;
                kept.push(t.rows[j].duplicate());
                proof {
                    assert(row_views(kept@) =~= row_views(prev).push(rv[j as int]));
                }
            }
            j = j + 1;
        }
        proof {
            assert(rv.subrange(0, j as int) =~= rv);
        }
        t.rows = kept;
        t.index = rebuild_index(&t.rows, &t.columns);
        proof {
            assert(before.remove(i as int).insert(i as int, t) =~= before.update(i as int, t));
            lemma_tables_update(before, i as int, t);
        }
        self.tables.insert(i, t);
        proof {
            assert forall|k: int| 0 <= k < self.tables@.len() implies all_json(#[trigger] self.tables@[k].index@) by {
                if k != i {
                    assert(self.tables@[k] == before[k]);
                }
            }
            assert(self.tables()[table@] == t@);
        }
        let ghost pend = self.pending@;
        self.pending.push(DiskAction::SaveTable(table));
        proof {
            assert(action_views(self.pending@) =~= action_views(pend).push(SpecDiskAction::SaveTable(table@)));
        }
        Ok(counted(deleted, " row(s) deleted."))
    }

    /// Starts a transaction; refused while one is active.
    pub fn exec_begin(&mut self) -> (r: Result<String, String>)
        requires
            old(self).wf(),
            old(self).transactions().active_txn is None ==> old(self).transactions().next_txn_id < u64::MAX,
        ensures
            final(self).wf(),
            began(*old(self), *final(self), r),
    {
        let id = self.txn.begin()?;
        let mut m = String::new();
        push_text(&mut m, "Transaction ");
        push_decimal(&mut m, id);
        push_text(&mut m, " started.");
        proof {
            assert(m@ =~= "Transaction "@ + decimal(id as nat) + " started."@);
        }
        Ok(m)
    }

    /// Commits the active transaction; refused when none is active.
    pub fn exec_commit(&mut self) -> (r: Result<String, String>)
        requires
            old(self).wf(),
        ensures
            final(self).wf(),
            committed(*old(self), *final(self), r),
    {
        let ghost ops = undo_views(self.txn.undo_log@);
        let ghost dom = self.tables().dom();
        let ghost pend0 = self.disk_actions();
        let mut names: Vec<String> = Vec::new();
        let mut n: usize = 0;
        proof {
            assert(pend0 + saves_of(ops.subrange(0, 0), dom) =~= pend0);
        }
        while n < self.txn.undo_log.len()
            invariant
                self.wf(),
                ops == undo_views(self.txn.undo_log@),
                dom == self.tables().dom(),
                n <= ops.len(),
                names@.map_values(|x: String| SpecDiskAction::SaveTable(x@)) == saves_of(ops.subrange(0, n as int), dom),
            decreases ops.len() - n,
        {
            let name: &String = match &self.txn.undo_log[n] {
                UndoOp::Insert { table, .. } => table,
                UndoOp::Update { table, .. } => table,
                UndoOp::Delete { table, .. } => table,
            };
            proof {
                let next = ops.subrange(0, n + 1);
                assert(next.drop_last() =~= ops.subrange(0, n as int));
                assert(next.last() == ops[n as int]);
                assert(name@ == op_table(ops[n as int]));
            }
            if self.find(name.as_str()).is_some() {
                let ghost prev = names@;
                names.push(String::from_str(name.as_str()));
                proof {
                    assert(names@.map_values(|x: String| SpecDiskAction::SaveTable(x@)) =~= prev.map_values(
                        |x: String| SpecDiskAction::SaveTable(x@),
                    ).push(SpecDiskAction::SaveTable(name@)));
                }
            }
            n = n + 1;
        }
        proof {
            assert(ops.subrange(0, n as int) =~= ops);
        }
        self.txn.commit()?;
        let ghost txn1 = self.txn;
        let ghost tables1 = self.tables@;
        let mut k: usize = 0;
        let ghost saves = saves_of(ops, dom);
        while k < names.len()
            invariant
                self.wf(),
                k <= names@.len(),
                saves.len() == names@.len(),
                saves == names@.map_values(|x: String| SpecDiskAction::SaveTable(x@)),
                self.disk_actions() == pend0 + saves.subrange(0, k as int),
                self.txn == txn1,
                self.tables@ == tables1,
            decreases names@.len() - k,
        {
            let ghost prev = self.pending@;
            self.pending.push(DiskAction::SaveTable(String::from_str(names[k].as_str())));
            proof {
                assert(action_views(self.pending@) =~= action_views(prev).push(SpecDiskAction::SaveTable(names@[k as int]@)));
                assert(saves.subrange(0, k + 1) =~= saves.subrange(0, k as int).push(saves[k as int]));
            }
            k = k + 1;
        }
        proof {
            assert(saves.subrange(0, k as int) =~= saves);
        }
        Ok(String::from_str("Transaction committed."))
    }

    /// Rolls the active transaction back: its undo operations are applied, the last one
    /// first, to the tables that are still there, and each such table is to be saved;
    /// refused when none is active.
    pub fn exec_rollback(&mut self) -> (r: Result<String, String>)
        requires
            old(self).wf(),
        ensures
            final(self).wf(),
            rolled_back_all(*old(self), *final(self), r),
    {
        let ghost start = self.tables();
        let ghost start_pending = self.disk_actions();
        let ops = self.txn.abort()?;
        let ghost opsv = undo_views(ops@);
        let ghost txn_after = self.txn;
        proof {
            lemma_tables_map(self.tables@);
            assert forall|k: Seq<char>| #[trigger] start.dom().contains(k) implies table_rolled_back(
                start[k],
                self.tables()[k],
                k,
                opsv.subrange(0, 0),
            ) by {}
            assert(start_pending + saves_of(opsv.subrange(0, 0), start.dom()) =~= start_pending);
        }
        let mut n: usize = 0;
        while n < ops.len()
            invariant
                self.wf(),
                opsv == undo_views(ops@),
                n <= ops@.len(),
                self.txn == txn_after,
                self.tables().dom() == start.dom(),
                forall|k: Seq<char>|
                    #[trigger] start.dom().contains(k) ==> table_rolled_back(
                        start[k],
                        self.tables()[k],
                        k,
                        opsv.subrange(0, n as int),
                    ),
                self.disk_actions() == start_pending + saves_of(opsv.subrange(0, n as int), start.dom()),
            decreases ops@.len() - n,
        {
            let ghost op = opsv[n as int];
            let ghost prefix = opsv.subrange(0, n as int);
            let ghost next = opsv.subrange(0, n + 1);
            proof {
                assert(next.drop_last() =~= prefix);
                assert(next.last() == op);
                assert(op == ops@[n as int]@);
            }
            let name: &String = match &ops[n] {
                UndoOp::Insert { table, .. } => table,
                UndoOp::Update { table, .. } => table,
                UndoOp::Delete { table, .. } => table,
            };
            proof {
                assert(name@ == op_table(op));
            }
            match self.find(name.as_str()) {
                None => {
                    proof {
                        assert forall|k: Seq<char>| #[trigger] start.dom().contains(k) implies table_rolled_back(
                            start[k],
                            self.tables()[k],
                            k,
                            next,
                        ) by {
                            assert(k != name@);
                            assert(rolled_back(start[k].rows, k, next) == rolled_back(start[k].rows, k, prefix));
                            assert(touches(next, k) == touches(prefix, k));
                        }
                        assert(saves_of(next, start.dom()) == saves_of(prefix, start.dom()));
                    }
                },
                Some(i) => {
                    let ghost before = self.tables@;
                    let ghost cur = self.tables()[name@];
                    let mut t = self.tables.remove(i);
                    proof {
                        assert(t@ == cur);
                        assert(cur.rows == rolled_back(start[name@].rows, name@, prefix));
                    }
                    let ghost rv = row_views(t.rows@);
                    match &ops[n] {
                        UndoOp::Insert { table: _, key: _, pos } => {
                            if *pos < t.rows.len() {
                                t.rows.remove(*pos);
                                proof {
                                    assert(row_views(t.rows@) =~= rv.remove(*pos as int));
                                }
                            }
                        },
                        UndoOp::Update { table: _, key: _, pos, old_value } => {
                            if *pos < t.rows.len() {
                                t.rows.set(*pos, old_value.duplicate());
                                proof {
                                    assert(row_views(t.rows@) =~= rv.update(*pos as int, old_value@));
                                }
                            }
                        },
                        UndoOp::Delete { table: _, key: _, pos, old_value } => {
                            if *pos <= t.rows.len() {
                                t.rows.insert(*pos, old_value.duplicate());
                                proof {
                                    assert(row_views(t.rows@) =~= rv.insert(*pos as int, old_value@));
                                }
                            }
                        },
                    }
                    t.index = rebuild_index(&t.rows, &t.columns);
                    proof {
                        assert(t.name@ == name@);
                        assert(before.remove(i as int).insert(i as int, t) =~= before.update(i as int, t));
                        lemma_tables_update(before, i as int, t);
                        lemma_tables_map(before);
                    }
                    self.tables.insert(i, t);
                    let ghost pend = self.pending@;
                    self.pending.push(DiskAction::SaveTable(String::from_str(name.as_str())));
                    proof {
                        assert forall|k: int| 0 <= k < self.tables@.len() implies all_json(#[trigger] self.tables@[k].index@) by {
                            if k != i {
                                assert(self.tables@[k] == before[k]);
                            }
                        }
                        assert(start.dom().contains(name@));
                        assert(saves_of(next, start.dom()) =~= saves_of(prefix, start.dom()).push(SpecDiskAction::SaveTable(op_table(op))));
                        assert(action_views(self.pending@) =~= action_views(pend).push(SpecDiskAction::SaveTable(name@)));
                        assert(self.disk_actions() =~= start_pending + saves_of(next, start.dom()));
                        assert forall|k: Seq<char>| #[trigger] start.dom().contains(k) implies table_rolled_back(
                            start[k],
                            self.tables()[k],
                            k,
                            next,
                        ) by {
                            if k != name@ {
                                assert(self.tables()[k] == tables_map(before)[k]);
                                assert(rolled_back(start[k].rows, k, next) == rolled_back(start[k].rows, k, prefix));
                                assert(touches(next, k) == touches(prefix, k));
                            } else {
                                assert(self.tables()[k] == t@);
                                assert(rolled_back(start[k].rows, k, next) == undo_rows(cur.rows, op));
                                assert(touches(next, k));
                            }
                        }
                    }
                },
            }
            n = n + 1;
        }
        proof {
            assert(opsv.subrange(0, n as int) =~= opsv);
        }
        Ok(String::from_str("Transaction rolled back."))
    }

    /// Adds, drops or renames a column of the table, in its columns and in every row; the
    /// schema and the table are to be saved. Refused when there is no such table.
    pub fn exec_alter(&mut self, table: String, action: AlterAction) -> (r: Result<String, String>)
        requires
            old(self).wf(),
        ensures
            final(self).wf(),
            altered(*old(self), *final(self), table, action, r),
    {
        let i = match self.find(table.as_str()) {
            Some(i) => i,
            None => {
                return Err(not_found(table.as_str()));
            },
        };
        let ghost before = self.tables@;
        let mut t = self.tables.remove(i);
        let ghost cv = t.columns@.map_values(|c: ColumnDef| c@);
        let ghost rv = row_views(t.rows@);
        let ghost act = action@;
        let mut cols: Vec<ColumnDef> = Vec::new();
        let mut rows: Vec<Row> = Vec::new();
        let msg: String;
        match &action {
            AlterAction::AddColumn(col) => {
                let mut j: usize = 0;
                while j < t.columns.len()
                    invariant
                        cv == t.columns@.map_values(|c: ColumnDef| c@),
                        j <= t.columns@.len(),
                        cols@.map_values(|c: ColumnDef| c@) == cv.subrange(0, j as int),
                    decreases t.columns@.len() - j,
                {
                    let c = ColumnDef { name: t.columns[j].name.clone(), data_type: t.columns[j].data_type };
                    let ghost prev = cols@;
                    cols.push(c);
                    proof {
                        assert(cols@.map_values(|c: ColumnDef| c@) =~= prev.map_values(|c: ColumnDef| c@).push(cv[j as int]));
                        assert(cv.subrange(0, j + 1) =~= cv.subrange(0, j as int).push(cv[j as int]));
                    }
                    j = j + 1;
                }
                let ghost prev = cols@;
                cols.push(ColumnDef { name: col.name.clone(), data_type: col.data_type });
                proof {
                    assert(cv.subrange(0, j as int) =~= cv);
                    assert(cols@.map_values(|c: ColumnDef| c@) =~= prev.map_values(|c: ColumnDef| c@).push(col@));
                }
                let mut k: usize = 0;
                while k < t.rows.len()
                    invariant
                        rv == row_views(t.rows@),
                        act == action@,
                        action == AlterAction::AddColumn(*col),
                        k <= t.rows@.len(),
                        rows@.len() == k,
                        forall|x: int| 0 <= x < k ==> (#[trigger] rows@[x])@ == altered_row(rv[x], act),
                    decreases t.rows@.len() - k,
                {
                    let mut row = t.rows[k].duplicate();
                    row.insert(col.name.clone(), String::new());
                    rows.push(row);
                    k = k + 1;
                }
                let mut m = String::new();
                push_text(&mut m, "Column '");
                push_text(&mut m, col.name.as_str());
                push_text(&mut m, "' added to '");
                push_text(&mut m, table.as_str());
                push_text(&mut m, "'.");
                msg = m;
            },
            AlterAction::DropColumn(name) => {
                let mut j: usize = 0;
                while j < t.columns.len()
                    invariant
                        cv == t.columns@.map_values(|c: ColumnDef| c@),
                        j <= t.columns@.len(),
                        cols@.map_values(|c: ColumnDef| c@) == without_column(cv.subrange(0, j as int), name@),
                    decreases t.columns@.len() - j,
                {
                    proof {
                        let sub = cv.subrange(0, j + 1);
                        assert(sub.drop_last() =~= cv.subrange(0, j as int));
                        assert(sub.last() == cv[j as int]);
                    }
                    if !same_text(t.columns[j].name.as_str(), name.as_str()) {
                        let c = ColumnDef { name: t.columns[j].name.clone(), data_type: t.columns[j].data_type };
                        let ghost prev = cols@;
                        cols.push(c);
                        proof {
                            assert(cols@.map_values(|c: ColumnDef| c@) =~= prev.map_values(|c: ColumnDef| c@).push(cv[j as int]));
                        }
                    }
                    j = j + 1;
                }
                proof {
                    assert(cv.subrange(0, j as int) =~= cv);
                }
                let mut k: usize = 0;
                while k < t.rows.len()
                    invariant
                        rv == row_views(t.rows@),
                        act == action@,
                        action == AlterAction::DropColumn(*name),
                        k <= t.rows@.len(),
                        rows@.len() == k,
                        forall|x: int| 0 <= x < k ==> (#[trigger] rows@[x])@ == altered_row(rv[x], act),
                    decreases t.rows@.len() - k,
                {
                    let mut row = t.rows[k].duplicate();
                    row.remove(name.as_str());
                    rows.push(row);
                    k = k + 1;
                }
                let mut m = String::new();
                push_text(&mut m, "Column '");
                push_text(&mut m, name.as_str());
                push_text(&mut m, "' dropped from '");
                push_text(&mut m, table.as_str());
                push_text(&mut m, "'.");
                msg = m;
            },
            AlterAction::RenameColumn { from, to } => {
                let mut j: usize = 0;
                while j < t.columns.len()
                    invariant
                        cv == t.columns@.map_values(|c: ColumnDef| c@),
                        act == action@,
                        action == (AlterAction::RenameColumn { from: *from, to: *to }),
                        j <= t.columns@.len(),
                        cols@.len() == j,
                        forall|x: int| 0 <= x < j ==> (#[trigger] cols@[x])@ == altered_columns(cv, act)[x],
                    decreases t.columns@.len() - j,
                {
                    let name = if same_text(t.columns[j].name.as_str(), from.as_str()) {
                        to.clone()
                    } else {
                        t.columns[j].name.clone()
                    };
                    cols.push(ColumnDef { name, data_type: t.columns[j].data_type });
                    j = j + 1;
                }
                let mut k: usize = 0;
                while k < t.rows.len()
                    invariant
                        rv == row_views(t.rows@),
                        act == action@,
                        action == (AlterAction::RenameColumn { from: *from, to: *to }),
                        k <= t.rows@.len(),
                        rows@.len() == k,
                        forall|x: int| 0 <= x < k ==> (#[trigger] rows@[x])@ == altered_row(rv[x], act),
                    decreases t.rows@.len() - k,
                {
                    let mut row = t.rows[k].duplicate();
                    match row.remove(from.as_str()) {
                        Some(v) => {
                            row.insert(to.clone(), v);
                        },
                        None => {
                            proof {
                                assert(row@.remove(from@) =~= row@);
                            }
                        },
                    }
                    rows.push(row);
                    k = k + 1;
                }
                let mut m = String::new();
                push_text(&mut m, "Column '");
                push_text(&mut m, from.as_str());
                push_text(&mut m, "' renamed to '");
                push_text(&mut m, to.as_str());
                push_text(&mut m, "' in '");
                push_text(&mut m, table.as_str());
                push_text(&mut m, "'.");
                msg = m;
            },
        }
        proof {
            assert(cols@.map_values(|c: ColumnDef| c@) =~= altered_columns(cv, act));
            assert(row_views(rows@) =~= rv.map_values(|row: Map<Seq<char>, Seq<char>>| altered_row(row, act)));
            assert(msg@ =~= altered_msg(table@, act));
        }
        let names = names_of(&cols);
        t.columns = cols;
        t.rows = rows;
        proof {
            assert(before.remove(i as int).insert(i as int, t) =~= before.update(i as int, t));
            lemma_tables_update(before, i as int, t);
        }
        self.tables.insert(i, t);
        proof {
            assert forall|k: int| 0 <= k < self.tables@.len() implies all_json(#[trigger] self.tables@[k].index@) by {
                if k != i {
                    assert(self.tables@[k] == before[k]);
                }
            }
            assert(self.tables()[table@] == t@);
        }
        let ghost pend = self.pending@;
        self.pending.push(DiskAction::SaveSchema(String::from_str(table.as_str()), names));
        self.pending.push(DiskAction::SaveTable(table));
        proof {
            assert(action_views(self.pending@) =~= action_views(pend).push(
                SpecDiskAction::SaveSchema(table@, column_names(t@.columns)),
            ).push(SpecDiskAction::SaveTable(table@)));
        }
        Ok(msg)
    }

    /// The text of a result: with rows, a table of the shown columns (with `*`, those of the
    /// table and then those of the joined table) and the number of rows; without, a note.
    pub fn format_result(&self, result: Vec<Row>, columns: Vec<SelectColumn>, table: String, join: Option<Join>) -> (r: Result<String, String>)
        requires
            self.wf(),
            result@.len() > 0 && has_star(select_views(columns@)) ==> {
                &&& self.tables().dom().contains(table@)
                &&& join matches Some(j) ==> self.tables().dom().contains(j.table@)
            },
        ensures
            r matches Ok(s) && s@ == result_text(
                shown_columns(
                    select_views(columns@),
                    if self.tables().dom().contains(table@) {
                        column_names(self.tables()[table@].columns)
                    } else {
                        seq![]
                    },
                    match join {
                        Some(j) => if self.tables().dom().contains(j.table@) {
                            Some(column_names(self.tables()[j.table@].columns))
                        } else {
                            Some(seq![])
                        },
                        None => None,
                    },
                ),
                row_views(result@),
            ),
    {
        if result.len() == 0 {
            return Ok(String::from_str("0 rows returned."));
        }
        let names: Vec<String> = if has_all(&columns) {
            let left = match self.column_names_of(table.as_str()) {
                Some(c) => c,
                None => {
                    proof {
                        assert(false);
                    }
                    Vec::new()
                },
            };
            match &join {
                Some(j) => {
                    let right = match self.column_names_of(j.table.as_str()) {
                        Some(c) => c,
                        None => {
                            proof {
                                assert(false);
                            }
                            Vec::new()
                        },
                    };
                    let mut all = left;
                    let ghost l = texts_of(all@);
                    let mut k: usize = 0;
                    while k < right.len()
                        invariant
                            k <= right@.len(),
                            texts_of(all@) == l + texts_of(right@).subrange(0, k as int),
                        decreases right@.len() - k,
                    {
                        let ghost prev = all@;
                        all.push(right[k].clone());
                        proof {
                            assert(texts_of(all@) =~= texts_of(prev).push(right@[k as int]@));
                            assert(texts_of(right@).subrange(0, k + 1) =~= texts_of(right@).subrange(0, k as int).push(right@[k as int]@));
                            assert(texts_of(all@) =~= l + texts_of(right@).subrange(0, k + 1));
                        }
                        k = k + 1;
                    }
                    proof {
                        assert(texts_of(right@).subrange(0, k as int) =~= texts_of(right@));
                    }
                    all
                },
                None => left,
            }
        } else {
            plain_columns(&columns)
        };
        Ok(draw_rows(&names, &result))
    }

    /// A `SELECT` up to its ordering: the rows of the table, joined with those of the
    /// joined table where there is one, that satisfy the condition. Refused when a table is
    /// missing.
    pub fn exec_select(
        &self,
        table: &String,
        condition: &Option<Condition>,
        join: &Option<Join>,
        nums: &NumericOrders,
    ) -> (r: Result<Vec<Row>, String>)
        requires
            self.wf(),
        ensures
            selected(*self, *table, *condition, *join, *nums, r),
    {
        let i = match self.find(table.as_str()) {
            Some(i) => i,
            None => {
                return Err(not_found(table.as_str()));
            },
        };
        let left = &self.tables[i].rows;
        match join {
            Some(j) => {
                let k = match self.find(j.table.as_str()) {
                    Some(k) => k,
                    None => {
                        return Err(not_found(j.table.as_str()));
                    },
                };
                let joined = join_all(left, &self.tables[k].rows, j.left_col.as_str(), j.right_col.as_str());
                Ok(filter_matching(joined, condition, nums))
            },
            None => {
                let mut copy: Vec<Row> = Vec::new();
                let mut x: usize = 0;
                while x < left.len()
                    invariant
                        x <= left@.len(),
                        row_views(copy@) == row_views(left@).subrange(0, x as int),
                    decreases left@.len() - x,
                {
                    let ghost prev = row_views(copy@);
                    copy.push(left[x].duplicate());
                    proof {
                        assert(row_views(copy@) =~= prev.push(left@[x as int]@));
                        assert(row_views(left@).subrange(0, x + 1) =~= row_views(left@).subrange(0, x as int).push(left@[x as int]@));
                    }
                    x = x + 1;
                }
                proof {
                    assert(row_views(left@).subrange(0, x as int) =~= row_views(left@));
                }
                Ok(filter_matching(copy, condition, nums))
            },
        }
    }

    /// Runs the statement.
    pub fn execute(&mut self, stmt: Statement, nums: &NumericOrders) -> (r: Result<Outcome, String>)
        requires
            old(self).wf(),
            runnable(*old(self), stmt),
        ensures
            final(self).wf(),
            executed(*old(self), *final(self), stmt, *nums, r),
    {
        match stmt {
            Statement::Begin => done(self.exec_begin()),
            Statement::Commit => done(self.exec_commit()),
            Statement::Rollback => done(self.exec_rollback()),
            Statement::CreateTable { name, columns } => done(self.exec_create(name, columns)),
            Statement::DropTable { name } => done(self.exec_drop(name)),
            Statement::Insert { table, values } => done(self.exec_insert(table, values)),
            Statement::Select { table, columns, condition, join, order_by, group_by, limit } => {
                match self.exec_select(&table, &condition, &join, nums) {
                    Ok(rows) => Ok(
                        Outcome::Rows(SelectJob { rows, table, columns, join, order_by, group_by, limit }),
                    ),
                    Err(e) => Err(e),
                }
            },
            Statement::Update { table, assignments, condition } => done(
                self.exec_update(table, assignments, condition, nums),
            ),
            Statement::Delete { table, condition } => done(self.exec_delete(table, condition, nums)),
            Statement::AlterTable { table, action } => done(self.exec_alter(table, action)),
        }
    }

    /// Adds a table read from disk, every column of type `TEXT`, with its rows, each indexed
    /// under its value in the first column (a row without one is not indexed). Where a
    /// table of that name is there already, its columns stay and its rows and index are
    /// replaced.
    pub fn load_table(&mut self, name: String, columns: Vec<String>, rows: Vec<Row>)
        requires
            old(self).wf(),
        ensures
            final(self).wf(),
            final(self).transactions() == old(self).transactions(),
            final(self).disk_actions() == old(self).disk_actions(),
            final(self).tables().dom() == old(self).tables().dom().insert(name@),
            final(self).tables().remove(name@) == old(self).tables().remove(name@),
            ({
                let nt = final(self).tables()[name@];
                &&& nt.columns == if old(self).tables().dom().contains(name@) {
                    old(self).tables()[name@].columns
                } else {
                    texts_of(columns@).map_values(|c: Seq<char>| SpecColumnDef { name: c, data_type: DataType::Text })
                }
                &&& nt.rows == row_views(rows@)
                &&& nt.index.to_multiset() == first_column_entries(row_views(rows@), texts_of(columns@)).to_multiset()
                &&& first_column_distinct(row_views(rows@), texts_of(columns@)) ==> nt.index_ordered
            }),
    {
        let mut index = BPlusTree::new();
        let ghost rv = row_views(rows@);
        let ghost cs = texts_of(columns@);
        proof {
            assert(first_column_entries(rv.subrange(0, 0), cs) =~= Seq::<Entry>::empty());
        }
        let mut i: usize = 0;
        while i < rows.len()
            invariant
                rv == row_views(rows@),
                cs == texts_of(columns@),
                i <= rows@.len(),
                all_json(index@),
                index@.to_multiset() == first_column_entries(rv.subrange(0, i as int), cs).to_multiset(),
                first_column_distinct(rv, cs) ==> index.is_ordered(),
            decreases rows@.len() - i,
        {
            proof {
                let sub = rv.subrange(0, i + 1);
                assert(sub.drop_last() =~= rv.subrange(0, i as int));
                assert(sub.last() == rv[i as int]);
            }
            if columns.len() > 0 {
                match rows[i].get(columns[0].as_str()) {
                    Some(key) => {
                        proof {
                            if first_column_distinct(rv, cs) {
                                assert forall|j: int| 0 <= j < index@.len() implies (#[trigger] index@[j]).0 != key@ by {
                                    let e = index@[j];
                                    assert(index@.to_multiset().count(e) > 0);
                                    let sub = rv.subrange(0, i as int);
                                    assert(first_column_entries(sub, cs).to_multiset().count(e) > 0);
                                    lemma_first_column_entry(sub, cs, e);
                                    let q = choose|q: int| 0 <= q < sub.len() && (#[trigger] sub[q]).dom().contains(cs[0]) && sub[q][cs[0]] == e.0;
                                    assert(sub[q] == rv[q]);
                                    assert(rv[i as int] == rows@[i as int]@);
                                    assert(cs[0] == columns@[0]@);
                                }
                            }
                        }
                        index_add(&mut index, key.clone(), &rows[i]);
                    },
                    None => {},
                }
            }
            i = i + 1;
        }
        proof {
            assert(rv.subrange(0, i as int) =~= rv);
        }
        let ghost before = self.tables@;
        proof {
            lemma_tables_map(before);
        }
        match self.find(name.as_str()) {
            Some(k) => {
                let mut t = self.tables.remove(k);
                t.rows = rows;
                t.index = index;
                proof {
                    assert(before.remove(k as int).insert(k as int, t) =~= before.update(k as int, t));
                    lemma_tables_update(before, k as int, t);
                }
                self.tables.insert(k, t);
                proof {
                    assert forall|x: int| 0 <= x < self.tables@.len() implies all_json(#[trigger] self.tables@[x].index@) by {
                        if x != k {
                            assert(self.tables@[x] == before[x]);
                        }
                    }
                    assert(self.tables()[name@] == t@);
                    assert(self.tables().remove(name@) =~= tables_map(before).remove(name@));
                    assert(self.tables().dom() =~= tables_map(before).dom().insert(name@));
                }
            },
            None => {
                let mut cols: Vec<ColumnDef> = Vec::new();
                let mut j: usize = 0;
                while j < columns.len()
                    invariant
                        cs == texts_of(columns@),
                        j <= columns@.len(),
                        cols@.map_values(|c: ColumnDef| c@) == cs.subrange(0, j as int).map_values(
                            |c: Seq<char>| SpecColumnDef { name: c, data_type: DataType::Text },
                        ),
                    decreases columns@.len() - j,
                {
                    let ghost prev = cols@;
                    cols.push(ColumnDef { name: columns[j].clone(), data_type: DataType::Text });
                    proof {
                        let f = |c: Seq<char>| SpecColumnDef { name: c, data_type: DataType::Text };
                        assert(cols@.map_values(|c: ColumnDef| c@) =~= prev.map_values(|c: ColumnDef| c@).push(
                            f(columns@[j as int]@),
                        ));
                        assert(cs.subrange(0, j + 1) =~= cs.subrange(0, j as int).push(cs[j as int]));
                        assert(cs.subrange(0, j + 1).map_values(f) =~= cs.subrange(0, j as int).map_values(f).push(
                            f(cs[j as int]),
                        ));
                    }
                    j = j + 1;
                }
                proof {
                    assert(cs.subrange(0, j as int) =~= cs);
                }
                let t = TableData { name, columns: cols, rows, index };
                proof {
                    lemma_tables_push(before, t);
                }
                self.tables.push(t);
                proof {
                    assert forall|x: int| 0 <= x < self.tables@.len() implies all_json(#[trigger] self.tables@[x].index@) by {
                        if x < before.len() {
                            assert(self.tables@[x] == before[x]);
                        }
                    }
                    assert(self.tables().remove(t.name@) =~= tables_map(before).remove(t.name@));
                    assert(self.tables().dom() =~= tables_map(before).dom().insert(t.name@));
                }
            },
        }
    }

    /// Where the table of that name sits.
    fn find(&self, name: &str) -> (r: Option<usize>)
        requires
            self.wf(),
        ensures
            r matches Some(i) ==> i < self.tables@.len() && self.tables@[i as int].name@ == name@,
            r is None <==> !self.tables().dom().contains(name@),
            r matches Some(i) ==> self.tables()[name@] == self.tables@[i as int]@,
    {
        proof {
            lemma_tables_map(self.tables@);
        }
        let mut i: usize = 0;
        while i < self.tables.len()
            invariant
                self.wf(),
                i <= self.tables@.len(),
                forall|j: int| 0 <= j < i ==> (#[trigger] self.tables@[j]).name@ != name@,
            decreases self.tables@.len() - i,
        {
            if same_text(self.tables[i].name.as_str(), name) {
                proof {
                    lemma_tables_map(self.tables@);
                    assert(self.tables@[i as int].name@ == name@);
                }
                return Some(i);
            }
            i = i + 1;
        }
        None
    }

    /// The rows of the table, if there is one of that name.
    pub fn rows_of(&self, name: &str) -> (r: Option<&Vec<Row>>)
        requires
            self.wf(),
        ensures
            r is Some <==> self.tables().dom().contains(name@),
            r matches Some(rows) ==> row_views(rows@) == self.tables()[name@].rows,
    {
        match self.find(name) {
            Some(i) => Some(&self.tables[i].rows),
            None => None,
        }
    }

    /// The column names of the table, if there is one of that name.
    pub fn column_names_of(&self, name: &str) -> (r: Option<Vec<String>>)
        requires
            self.wf(),
        ensures
            r is Some <==> self.tables().dom().contains(name@),
            r matches Some(cols) ==> texts_of(cols@) == column_names(self.tables()[name@].columns),
    {
        match self.find(name) {
            Some(i) => Some(names_of(&self.tables[i].columns)),
            None => None,
        }
    }
}

/// The names of the columns.
pub fn names_of(cols: &Vec<ColumnDef>) -> (r: Vec<String>)
    ensures
        texts_of(r@) == column_names(cols@.map_values(|c: ColumnDef| c@)),
{
    let mut r: Vec<String> = Vec::new();
    let mut i: usize = 0;
    while i < cols.len()
        invariant
            i <= cols@.len(),
            r@.len() == i,
            forall|j: int| 0 <= j < i ==> (#[trigger] r@[j])@ == cols@[j].name@,
        decreases cols@.len() - i,
    {
        r.push(cols[i].name.clone());
        i = i + 1;
    }
    proof {
        assert(texts_of(r@) =~= column_names(cols@.map_values(|c: ColumnDef| c@)));
    }
    r
}


/// Insert, then select: a row inserted with value `v` in column `c` is among the rows that
/// a `SELECT ... WHERE c = v` finds, after those found before.
pub proof fn law_insert_then_select(
    rows: Seq<Map<Seq<char>, Seq<char>>>,
    row: Map<Seq<char>, Seq<char>>,
    c: Seq<char>,
    v: Seq<char>,
    nums: Seq<(String, NumOrder)>,
)
    requires
        row.dom().contains(c),
        row[c] == v,
    ensures
        ({
            let cond = Some(crate::ast::SpecCondition { column: c, operator: Operator::Eq, value: v });
            matching_rows(rows.push(row), cond, nums) == matching_rows(rows, cond, nums).push(row)
        }),
{
    assert(rows.push(row).drop_last() =~= rows);
    assert(rows.push(row).last() == row);
}

/// COMMIT saves exactly the tables that the transaction's operations changed and that are
/// still there: each of them is saved, and nothing else is.
pub proof fn law_commit_saves_changed_tables(ops: Seq<SpecUndoOp>, tables: Set<Seq<char>>)
    ensures
        forall|k: int|
            0 <= k < ops.len() && tables.contains(op_table(#[trigger] ops[k])) ==> saves_of(
                ops,
                tables,
            ).contains(SpecDiskAction::SaveTable(op_table(ops[k]))),
        forall|x: SpecDiskAction|
            #[trigger] saves_of(ops, tables).contains(x) ==> exists|k: int|
                0 <= k < ops.len() && tables.contains(op_table(#[trigger] ops[k])) && x
                    == SpecDiskAction::SaveTable(op_table(ops[k])),
    decreases ops.len(),
{
    if ops.len() > 0 {
        let d = ops.drop_last();
        law_commit_saves_changed_tables(d, tables);
        let s = saves_of(ops, tables);
        let sd = saves_of(d, tables);
        assert forall|k: int|
            0 <= k < ops.len() && tables.contains(op_table(#[trigger] ops[k])) implies s.contains(
            SpecDiskAction::SaveTable(op_table(ops[k])),
        ) by {
            if k < ops.len() - 1 {
                assert(ops[k] == d[k]);
                let i = choose|i: int| 0 <= i < sd.len() && sd[i] == SpecDiskAction::SaveTable(op_table(d[k]));
                if tables.contains(op_table(ops.last())) {
                    assert(s[i] == sd[i]);
                }
            } else {
                assert(s.last() == SpecDiskAction::SaveTable(op_table(ops.last())));
                assert(s[s.len() - 1] == SpecDiskAction::SaveTable(op_table(ops[k])));
            }
        }
        assert forall|x: SpecDiskAction| #[trigger] s.contains(x) implies exists|k: int|
            0 <= k < ops.len() && tables.contains(op_table(#[trigger] ops[k])) && x
                == SpecDiskAction::SaveTable(op_table(ops[k])) by {
            let i = choose|i: int| 0 <= i < s.len() && s[i] == x;
            if i < sd.len() {
                assert(sd[i] == s[i]);
                assert(sd.contains(x));
                let k = choose|k: int|
                    0 <= k < d.len() && tables.contains(op_table(#[trigger] d[k])) && x
                        == SpecDiskAction::SaveTable(op_table(d[k]));
                assert(ops[k] == d[k]);
            } else {
                assert(ops[ops.len() - 1] == ops.last());
            }
        }
    }
}

/// `BEGIN`, an `INSERT` into a table, then `COMMIT`: the commit succeeds, the table keeps
/// the new row, and the table is saved, once, when the commit is made.
pub proof fn law_begin_insert_commit(
    e0: Executor,
    e1: Executor,
    e2: Executor,
    e3: Executor,
    table: String,
    values: Vec<String>,
    r1: Result<String, String>,
    r2: Result<String, String>,
    r3: Result<String, String>,
)
    requires
        e0.transactions().active_txn is None,
        began(e0, e1, r1),
        inserted(e1, e2, table, values, r2),
        committed(e2, e3, r3),
        e0.tables().dom().contains(table@),
        values@.len() == e0.tables()[table@].columns.len(),
        values@.len() > 0,
    ensures
        r3 matches Ok(m) && m@ == "Transaction committed."@,
        e3.tables()[table@].rows == e0.tables()[table@].rows.push(
            zip_row(column_names(e0.tables()[table@].columns), texts_of(values@)),
        ),
        e3.disk_actions() == e0.disk_actions().push(SpecDiskAction::SaveTable(table@)),
{
    let op = SpecUndoOp::Insert { table: table@, key: values@[0]@, pos: e0.tables()[table@].rows.len() };
    assert(undo_views(e2.transactions().undo_log@) =~= seq![op]);
    assert(seq![op].drop_last() =~= Seq::<SpecUndoOp>::empty());
    assert(seq![op].last() == op);
    assert(e2.tables().dom().contains(table@));
    assert(op_table(op) == table@);
    assert(saves_of(seq![op].drop_last(), e2.tables().dom()) =~= Seq::<SpecDiskAction>::empty());
    assert(saves_of(seq![op], e2.tables().dom()) =~= seq![SpecDiskAction::SaveTable(table@)]);
    assert(e3.disk_actions() =~= e0.disk_actions().push(SpecDiskAction::SaveTable(table@)));
}

/// The undo operations of the active transaction, in the order a rollback applies them.
pub open spec fn pending_undo(ex: Executor) -> Seq<SpecUndoOp> {
    undo_views(ex.transactions().undo_log@).reverse()
}

/// Rolling back now gives the tables `start`: the same tables, with the same columns, and
/// each table's rows, once the pending undo operations are applied, those of `start`.
pub open spec fn restores(ex: Executor, start: Map<Seq<char>, SpecTable>) -> bool {
    &&& ex.tables().dom() == start.dom()
    &&& forall|k: Seq<char>|
        #[trigger] start.dom().contains(k) ==> ex.tables()[k].columns == start[k].columns && rolled_back(
            ex.tables()[k].rows,
            k,
            pending_undo(ex),
        ) == start[k].rows
}

/// Applying two runs of undo operations one after the other.
proof fn lemma_rolled_back_concat(
    rows: Seq<Map<Seq<char>, Seq<char>>>,
    table: Seq<char>,
    a: Seq<SpecUndoOp>,
    b: Seq<SpecUndoOp>,
)
    ensures
        rolled_back(rows, table, a + b) == rolled_back(rolled_back(rows, table, a), table, b),
    decreases b.len(),
{
    if b.len() == 0 {
        assert(a + b =~= a);
    } else {
        lemma_rolled_back_concat(rows, table, a, b.drop_last());
        assert((a + b).drop_last() =~= a + b.drop_last());
        assert((a + b).last() == b.last());
    }
}

/// Undo operations of other tables leave a table's rows alone.
proof fn lemma_rolled_back_other(rows: Seq<Map<Seq<char>, Seq<char>>>, table: Seq<char>, a: Seq<SpecUndoOp>)
    requires
        forall|i: int| 0 <= i < a.len() ==> op_table(#[trigger] a[i]) != table,
    ensures
        rolled_back(rows, table, a) == rows,
    decreases a.len(),
{
    if a.len() > 0 {
        assert(a.last() == a[a.len() - 1]);
        lemma_rolled_back_other(rows, table, a.drop_last());
    }
}

/// The operations an `UPDATE` logs, the last first, give back the rows it updated.
proof fn lemma_update_undone(
    rows: Seq<Map<Seq<char>, Seq<char>>>,
    asg: Seq<(Seq<char>, Seq<char>)>,
    cond: Option<crate::ast::SpecCondition>,
    nums: Seq<(String, NumOrder)>,
    table: Seq<char>,
    col: Option<Seq<char>>,
    id: u64,
    j: int,
)
    requires
        0 <= j <= rows.len(),
    ensures
        rolled_back(
            updated_rows(rows.subrange(0, j), asg, cond, nums) + rows.subrange(j, rows.len() as int),
            table,
            update_log(rows.subrange(0, j), asg, cond, nums, table, col, id).0.reverse(),
        ) == rows,
    decreases j,
{
    let pre = rows.subrange(0, j);
    let cur = updated_rows(pre, asg, cond, nums) + rows.subrange(j, rows.len() as int);
    if j == 0 {
        assert(update_log(pre, asg, cond, nums, table, col, id).0.reverse() =~= Seq::<SpecUndoOp>::empty());
        assert(cur =~= rows);
    } else {
        let p = rows.subrange(0, j - 1);
        let prev = updated_rows(p, asg, cond, nums) + rows.subrange(j - 1, rows.len() as int);
        lemma_update_undone(rows, asg, cond, nums, table, col, id, j - 1);
        assert(pre.drop_last() =~= p);
        assert(pre.last() == rows[j - 1]);
        let lp = update_log(p, asg, cond, nums, table, col, id).0;
        if condition_holds(rows[j - 1], cond, nums) {
            let op = SpecUndoOp::Update {
                table,
                key: key_value(assigned(rows[j - 1], asg), col),
                pos: (j - 1) as nat,
                old_value: rows[j - 1],
            };
            assert(update_log(pre, asg, cond, nums, table, col, id).0.reverse() =~= seq![op] + lp.reverse());
            lemma_rolled_back_concat(cur, table, seq![op], lp.reverse());
            assert(seq![op].drop_last() =~= Seq::<SpecUndoOp>::empty());
            assert(seq![op].last() == op);
            assert(rolled_back(cur, table, Seq::<SpecUndoOp>::empty()) == cur);
            assert(op_table(op) == table);
            assert(rolled_back(cur, table, seq![op]) == undo_rows(cur, op));
            assert(cur.update(j - 1, rows[j - 1]) =~= prev);
        } else {
            assert(update_log(pre, asg, cond, nums, table, col, id).0 == lp);
            assert(cur =~= prev);
        }
    }
}

/// The operations a `DELETE` logs, the last first, give back the rows it deleted, each
/// where it stood.
proof fn lemma_delete_undone(
    rows: Seq<Map<Seq<char>, Seq<char>>>,
    cond: Option<crate::ast::SpecCondition>,
    nums: Seq<(String, NumOrder)>,
    table: Seq<char>,
    col: Option<Seq<char>>,
    id: u64,
    j: int,
)
    requires
        0 <= j <= rows.len(),
    ensures
        rolled_back(
            kept_rows(rows.subrange(0, j), cond, nums) + rows.subrange(j, rows.len() as int),
            table,
            delete_log(rows.subrange(0, j), cond, nums, table, col, id).0.reverse(),
        ) == rows,
    decreases j,
{
    let pre = rows.subrange(0, j);
    let cur = kept_rows(pre, cond, nums) + rows.subrange(j, rows.len() as int);
    if j == 0 {
        assert(delete_log(pre, cond, nums, table, col, id).0.reverse() =~= Seq::<SpecUndoOp>::empty());
        assert(cur =~= rows);
    } else {
        let p = rows.subrange(0, j - 1);
        let prev = kept_rows(p, cond, nums) + rows.subrange(j - 1, rows.len() as int);
        lemma_delete_undone(rows, cond, nums, table, col, id, j - 1);
        assert(pre.drop_last() =~= p);
        assert(pre.last() == rows[j - 1]);
        let lp = delete_log(p, cond, nums, table, col, id).0;
        let kp = kept_rows(p, cond, nums);
        if condition_holds(rows[j - 1], cond, nums) {
            let op = SpecUndoOp::Delete {
                table,
                key: key_value(rows[j - 1], col),
                pos: kp.len(),
                old_value: rows[j - 1],
            };
            assert(delete_log(pre, cond, nums, table, col, id).0.reverse() =~= seq![op] + lp.reverse());
            lemma_rolled_back_concat(cur, table, seq![op], lp.reverse());
            assert(seq![op].drop_last() =~= Seq::<SpecUndoOp>::empty());
            assert(seq![op].last() == op);
            assert(rolled_back(cur, table, Seq::<SpecUndoOp>::empty()) == cur);
            assert(op_table(op) == table);
            assert(rolled_back(cur, table, seq![op]) == undo_rows(cur, op));
            assert(cur.insert(kp.len() as int, rows[j - 1]) =~= prev);
        } else {
            assert(delete_log(pre, cond, nums, table, col, id).0 == lp);
            assert(cur =~= prev);
        }
    }
}

/// A statement that changes rows within the transaction keeps the tables that a rollback
/// gives: an `INSERT`, `UPDATE`, `DELETE` or `SELECT`, whether it succeeds or not.
pub proof fn law_change_keeps_restore(
    before: Executor,
    after: Executor,
    stmt: Statement,
    nums: NumericOrders,
    r: Result<Outcome, String>,
    start: Map<Seq<char>, SpecTable>,
)
    requires
        restores(before, start),
        before.transactions().active_txn is Some,
        stmt is Insert || stmt is Update || stmt is Delete || stmt is Select,
        executed(before, after, stmt, nums, r),
    ensures
        restores(after, start),
        after.transactions().active_txn == before.transactions().active_txn,
{
    let old_ops = pending_undo(before);
    match stmt {
        Statement::Select { .. } => {},
        Statement::Insert { table, values } => {
            if before.tables().dom().contains(table@) && values@.len() == before.tables()[table@].columns.len() {
                let t = before.tables()[table@];
                let row = zip_row(column_names(t.columns), texts_of(values@));
                let op = SpecUndoOp::Insert { table: table@, key: values@[0]@, pos: t.rows.len() };
                assert(pending_undo(after) =~= seq![op] + old_ops);
                assert forall|k: Seq<char>| #[trigger] start.dom().contains(k) implies after.tables()[k].columns
                    == start[k].columns && rolled_back(after.tables()[k].rows, k, pending_undo(after))
                    == start[k].rows by {
                    let nrows = after.tables()[k].rows;
                    lemma_rolled_back_concat(nrows, k, seq![op], old_ops);
                    assert(seq![op].drop_last() =~= Seq::<SpecUndoOp>::empty());
                    assert(seq![op].last() == op);
                    assert(rolled_back(nrows, k, Seq::<SpecUndoOp>::empty()) == nrows);
                    assert(op_table(op) == table@);
                    if k == table@ {
                        assert(nrows == t.rows.push(row));
                        assert(rolled_back(nrows, k, seq![op]) == undo_rows(nrows, op));
                        assert(t.rows.push(row).remove(t.rows.len() as int) =~= t.rows);
                    } else {
                        assert(after.tables().remove(table@)[k] == before.tables().remove(table@)[k]);
                    }
                }
            }
        },
        Statement::Update { table, assignments, condition } => {
            if before.tables().dom().contains(table@) {
                let t = before.tables()[table@];
                let cond = crate::ast::opt_condition_view(condition);
                let asg = crate::ast::pairs_view(assignments@);
                let col = key_column(t.columns);
                let id = txn_number(before.transactions());
                let log = update_log(t.rows, asg, cond, nums.entries@, table@, col, id).0;
                assert(pending_undo(after) =~= log.reverse() + old_ops);
                lemma_update_log_tables(t.rows, asg, cond, nums.entries@, table@, col, id);
                assert forall|k: Seq<char>| #[trigger] start.dom().contains(k) implies after.tables()[k].columns
                    == start[k].columns && rolled_back(after.tables()[k].rows, k, pending_undo(after))
                    == start[k].rows by {
                    let nrows = after.tables()[k].rows;
                    lemma_rolled_back_concat(nrows, k, log.reverse(), old_ops);
                    if k == table@ {
                        lemma_update_undone(t.rows, asg, cond, nums.entries@, table@, col, id, t.rows.len() as int);
                        assert(t.rows.subrange(0, t.rows.len() as int) =~= t.rows);
                        assert(updated_rows(t.rows, asg, cond, nums.entries@) + t.rows.subrange(
                            t.rows.len() as int,
                            t.rows.len() as int,
                        ) =~= nrows);
                    } else {
                        assert(after.tables().remove(table@)[k] == before.tables().remove(table@)[k]);
                        assert forall|i: int| 0 <= i < log.reverse().len() implies op_table(#[trigger] log.reverse()[i]) != k by {
                            assert(log.reverse()[i] == log[log.len() - 1 - i]);
                        }
                        lemma_rolled_back_other(nrows, k, log.reverse());
                    }
                }
            }
        },
        Statement::Delete { table, condition } => {
            if before.tables().dom().contains(table@) {
                let t = before.tables()[table@];
                let cond = crate::ast::opt_condition_view(condition);
                let col = key_column(t.columns);
                let id = txn_number(before.transactions());
                let log = delete_log(t.rows, cond, nums.entries@, table@, col, id).0;
                assert(pending_undo(after) =~= log.reverse() + old_ops);
                lemma_delete_log_tables(t.rows, cond, nums.entries@, table@, col, id);
                assert forall|k: Seq<char>| #[trigger] start.dom().contains(k) implies after.tables()[k].columns
                    == start[k].columns && rolled_back(after.tables()[k].rows, k, pending_undo(after))
                    == start[k].rows by {
                    let nrows = after.tables()[k].rows;
                    lemma_rolled_back_concat(nrows, k, log.reverse(), old_ops);
                    if k == table@ {
                        lemma_delete_undone(t.rows, cond, nums.entries@, table@, col, id, t.rows.len() as int);
                        assert(t.rows.subrange(0, t.rows.len() as int) =~= t.rows);
                        assert(kept_rows(t.rows, cond, nums.entries@) + t.rows.subrange(
                            t.rows.len() as int,
                            t.rows.len() as int,
                        ) =~= nrows);
                    } else {
                        assert(after.tables().remove(table@)[k] == before.tables().remove(table@)[k]);
                        assert forall|i: int| 0 <= i < log.reverse().len() implies op_table(#[trigger] log.reverse()[i]) != k by {
                            assert(log.reverse()[i] == log[log.len() - 1 - i]);
                        }
                        lemma_rolled_back_other(nrows, k, log.reverse());
                    }
                }
            }
        },
        _ => {},
    }
}

proof fn lemma_update_log_tables(
    rows: Seq<Map<Seq<char>, Seq<char>>>,
    asg: Seq<(Seq<char>, Seq<char>)>,
    cond: Option<crate::ast::SpecCondition>,
    nums: Seq<(String, NumOrder)>,
    table: Seq<char>,
    col: Option<Seq<char>>,
    id: u64,
)
    ensures
        forall|i: int|
            0 <= i < update_log(rows, asg, cond, nums, table, col, id).0.len() ==> op_table(
                #[trigger] update_log(rows, asg, cond, nums, table, col, id).0[i],
            ) == table,
    decreases rows.len(),
{
    if rows.len() > 0 {
        lemma_update_log_tables(rows.drop_last(), asg, cond, nums, table, col, id);
        let prev = update_log(rows.drop_last(), asg, cond, nums, table, col, id).0;
        let cur = update_log(rows, asg, cond, nums, table, col, id).0;
        assert forall|i: int| 0 <= i < cur.len() implies op_table(#[trigger] cur[i]) == table by {
            if i < prev.len() {
                assert(cur[i] == prev[i]);
            }
        }
    }
}

proof fn lemma_delete_log_tables(
    rows: Seq<Map<Seq<char>, Seq<char>>>,
    cond: Option<crate::ast::SpecCondition>,
    nums: Seq<(String, NumOrder)>,
    table: Seq<char>,
    col: Option<Seq<char>>,
    id: u64,
)
    ensures
        forall|i: int|
            0 <= i < delete_log(rows, cond, nums, table, col, id).0.len() ==> op_table(
                #[trigger] delete_log(rows, cond, nums, table, col, id).0[i],
            ) == table,
    decreases rows.len(),
{
    if rows.len() > 0 {
        lemma_delete_log_tables(rows.drop_last(), cond, nums, table, col, id);
        let prev = delete_log(rows.drop_last(), cond, nums, table, col, id).0;
        let cur = delete_log(rows, cond, nums, table, col, id).0;
        assert forall|i: int| 0 <= i < cur.len() implies op_table(#[trigger] cur[i]) == table by {
            if i < prev.len() {
                assert(cur[i] == prev[i]);
            }
        }
    }
}

/// `BEGIN` starts a transaction whose rollback gives the tables as they are.
pub proof fn law_begin_restores(before: Executor, after: Executor, r: Result<String, String>)
    requires
        before.transactions().active_txn is None,
        began(before, after, r),
    ensures
        after.transactions().active_txn is Some,
        restores(after, before.tables()),
{
    assert(pending_undo(after) =~= Seq::<SpecUndoOp>::empty());
}

/// `ROLLBACK` gives the tables that the transaction's undo operations give: it succeeds,
/// ends the transaction, and leaves every table with the columns and rows of `start`.
pub proof fn law_rollback_restores(
    before: Executor,
    after: Executor,
    r: Result<String, String>,
    start: Map<Seq<char>, SpecTable>,
)
    requires
        before.transactions().active_txn is Some,
        restores(before, start),
        rolled_back_all(before, after, r),
    ensures
        r matches Ok(m) && m@ == "Transaction rolled back."@,
        after.transactions().active_txn is None,
        after.tables().dom() == start.dom(),
        forall|k: Seq<char>|
            #[trigger] start.dom().contains(k) ==> after.tables()[k].rows == start[k].rows
                && after.tables()[k].columns == start[k].columns,
{
    assert forall|k: Seq<char>| #[trigger] start.dom().contains(k) implies after.tables()[k].rows == start[k].rows
        && after.tables()[k].columns == start[k].columns by {
        assert(before.tables().dom().contains(k));
        assert(table_rolled_back(before.tables()[k], after.tables()[k], k, pending_undo(before)));
    }
}

/// After `BEGIN`, any run of `INSERT`, `UPDATE`, `DELETE` and `SELECT` statements, and
/// `ROLLBACK`, the rollback succeeds, no transaction is active, and every table has the
/// columns and rows it had before `BEGIN`. The states are those before and after each
/// statement, as `execute` gives them.
pub proof fn law_rollback_gives_back_begin(
    states: Seq<Executor>,
    stmts: Seq<Statement>,
    nums: Seq<NumericOrders>,
    results: Seq<Result<Outcome, String>>,
)
    requires
        stmts.len() >= 2,
        states.len() == stmts.len() + 1,
        nums.len() == stmts.len(),
        results.len() == stmts.len(),
        states[0].transactions().active_txn is None,
        stmts[0] is Begin,
        stmts.last() is Rollback,
        forall|i: int|
            0 < i < stmts.len() - 1 ==> (#[trigger] stmts[i] is Insert || stmts[i] is Update || stmts[i] is Delete
                || stmts[i] is Select),
        forall|i: int| 0 <= i < stmts.len() ==> executed(states[i], states[i + 1], #[trigger] stmts[i], nums[i], results[i]),
    ensures
        results.last() matches Ok(Outcome::Done(m)) && m@ == "Transaction rolled back."@,
        states.last().transactions().active_txn is None,
        states.last().tables().dom() == states[0].tables().dom(),
        forall|k: Seq<char>|
            #[trigger] states[0].tables().dom().contains(k) ==> states.last().tables()[k].rows
                == states[0].tables()[k].rows && states.last().tables()[k].columns == states[0].tables()[k].columns,
{
    let start = states[0].tables();
    let n = stmts.len() - 1;
    assert(executed(states[0], states[1], stmts[0], nums[0], results[0]));
    law_begin_restores(states[0], states[1], outcome_text(results[0]));
    lemma_run_restores(states, stmts, nums, results, start, n);
    assert(stmts[n] == stmts.last());
    assert(executed(states[n], states[n + 1], stmts[n], nums[n], results[n]));
    law_rollback_restores(states[n], states[n + 1], outcome_text(results[n]), start);
    assert(states[n + 1] == states.last());
    assert(results[n] == results.last());
}

/// Along a run of statements that change rows, each state's rollback gives `start`.
proof fn lemma_run_restores(
    states: Seq<Executor>,
    stmts: Seq<Statement>,
    nums: Seq<NumericOrders>,
    results: Seq<Result<Outcome, String>>,
    start: Map<Seq<char>, SpecTable>,
    i: int,
)
    requires
        1 <= i < stmts.len(),
        states.len() == stmts.len() + 1,
        nums.len() == stmts.len(),
        results.len() == stmts.len(),
        states[1].transactions().active_txn is Some,
        restores(states[1], start),
        forall|j: int|
            0 < j < stmts.len() - 1 ==> (#[trigger] stmts[j] is Insert || stmts[j] is Update || stmts[j] is Delete
                || stmts[j] is Select),
        forall|j: int| 0 <= j < stmts.len() ==> executed(states[j], states[j + 1], #[trigger] stmts[j], nums[j], results[j]),
    ensures
        states[i].transactions().active_txn is Some,
        restores(states[i], start),
    decreases i,
{
    if i > 1 {
        lemma_run_restores(states, stmts, nums, results, start, i - 1);
        assert(executed(states[i - 1], states[i], stmts[i - 1], nums[i - 1], results[i - 1]));
        law_change_keeps_restore(states[i - 1], states[i], stmts[i - 1], nums[i - 1], results[i - 1], start);
    }
}

/// A statement other than `BEGIN`, `COMMIT` and `ROLLBACK` keeps the active transaction.
proof fn lemma_keeps_txn(before: Executor, after: Executor, stmt: Statement, nums: NumericOrders, r: Result<Outcome, String>)
    requires
        !(stmt is Begin || stmt is Commit || stmt is Rollback),
        executed(before, after, stmt, nums, r),
    ensures
        after.transactions().active_txn == before.transactions().active_txn,
{
    match stmt {
        Statement::Insert { table, values } => {
            if before.tables().dom().contains(table@) && values@.len() == before.tables()[table@].columns.len() {
                assert(insert_logged(
                    before.transactions(),
                    after.transactions(),
                    table@,
                    values@[0]@,
                    before.tables()[table@].rows.len(),
                    json_object_text(zip_row(column_names(before.tables()[table@].columns), texts_of(values@))),
                ));
            }
        },
        _ => {},
    }
}

/// Along a run of such statements the transaction stays active.
proof fn lemma_run_keeps_txn(
    states: Seq<Executor>,
    stmts: Seq<Statement>,
    nums: Seq<NumericOrders>,
    results: Seq<Result<Outcome, String>>,
    i: int,
)
    requires
        1 <= i < stmts.len(),
        states.len() == stmts.len() + 1,
        nums.len() == stmts.len(),
        results.len() == stmts.len(),
        states[1].transactions().active_txn is Some,
        forall|j: int| 0 < j < stmts.len() - 1 ==> !(#[trigger] stmts[j] is Begin || stmts[j] is Commit || stmts[j] is Rollback),
        forall|j: int| 0 <= j < stmts.len() ==> executed(states[j], states[j + 1], #[trigger] stmts[j], nums[j], results[j]),
    ensures
        states[i].transactions().active_txn is Some,
    decreases i,
{
    if i > 1 {
        lemma_run_keeps_txn(states, stmts, nums, results, i - 1);
        assert(executed(states[i - 1], states[i], stmts[i - 1], nums[i - 1], results[i - 1]));
        lemma_keeps_txn(states[i - 1], states[i], stmts[i - 1], nums[i - 1], results[i - 1]);
    }
}

/// After `BEGIN`, any run of statements other than `BEGIN`, `COMMIT` and `ROLLBACK` (tables
/// created, altered or dropped among them), and `ROLLBACK`: the rollback succeeds and no
/// transaction is active afterwards.
pub proof fn law_rollback_always_ends(
    states: Seq<Executor>,
    stmts: Seq<Statement>,
    nums: Seq<NumericOrders>,
    results: Seq<Result<Outcome, String>>,
)
    requires
        stmts.len() >= 2,
        states.len() == stmts.len() + 1,
        nums.len() == stmts.len(),
        results.len() == stmts.len(),
        states[0].transactions().active_txn is None,
        stmts[0] is Begin,
        stmts.last() is Rollback,
        forall|i: int| 0 < i < stmts.len() - 1 ==> !(#[trigger] stmts[i] is Begin || stmts[i] is Commit || stmts[i] is Rollback),
        forall|i: int| 0 <= i < stmts.len() ==> executed(states[i], states[i + 1], #[trigger] stmts[i], nums[i], results[i]),
    ensures
        results.last() matches Ok(Outcome::Done(m)) && m@ == "Transaction rolled back."@,
        states.last().transactions().active_txn is None,
{
    let n = stmts.len() - 1;
    assert(executed(states[0], states[1], stmts[0], nums[0], results[0]));
    lemma_run_keeps_txn(states, stmts, nums, results, n);
    assert(stmts[n] == stmts.last());
    assert(executed(states[n], states[n + 1], stmts[n], nums[n], results[n]));
    assert(states[n + 1] == states.last());
    assert(results[n] == results.last());
}

/// Where every row holds the column and no two rows hold the same value there, a
/// `WHERE column = v` scan selects the one row that holds `v`, or none.
proof fn lemma_matching_one(
    rows: Seq<Map<Seq<char>, Seq<char>>>,
    c: Seq<char>,
    v: Seq<char>,
    nums: Seq<(String, NumOrder)>,
)
    requires
        forall|i: int| 0 <= i < rows.len() ==> (#[trigger] rows[i]).dom().contains(c),
        keys_distinct(rows, Some(c)),
    ensures
        ({
            let m = matching_rows(rows, Some(crate::ast::SpecCondition { column: c, operator: Operator::Eq, value: v }), nums);
            &&& (forall|j: int| 0 <= j < rows.len() ==> (#[trigger] rows[j])[c] != v) ==> m.len() == 0
            &&& forall|j: int| 0 <= j < rows.len() && (#[trigger] rows[j])[c] == v ==> m == seq![rows[j]]
        }),
    decreases rows.len(),
{
    let cond = Some(crate::ast::SpecCondition { column: c, operator: Operator::Eq, value: v });
    if rows.len() > 0 {
        let d = rows.drop_last();
        assert forall|i: int, j: int| 0 <= i < j < d.len() implies key_value(#[trigger] d[i], Some(c)) != key_value(#[trigger] d[j], Some(c)) by {
            assert(d[i] == rows[i] && d[j] == rows[j]);
        }
        lemma_matching_one(d, c, v, nums);
        let last = rows.len() - 1;
        assert(rows.last() == rows[last]);
        assert forall|j: int| 0 <= j < rows.len() && (#[trigger] rows[j])[c] == v implies matching_rows(rows, cond, nums) == seq![rows[j]] by {
            if j < last {
                assert(d[j] == rows[j]);
                assert(key_value(rows[j], Some(c)) != key_value(rows[last], Some(c)));
            } else {
                assert forall|i: int| 0 <= i < d.len() implies (#[trigger] d[i])[c] != v by {
                    assert(d[i] == rows[i]);
                    assert(key_value(rows[i], Some(c)) != key_value(rows[last], Some(c)));
                }
                assert(matching_rows(d, cond, nums).len() == 0);
                assert(matching_rows(rows, cond, nums) =~= seq![rows[j]]);
            }
        }
        if forall|j: int| 0 <= j < rows.len() ==> (#[trigger] rows[j])[c] != v {
            assert forall|i: int| 0 <= i < d.len() implies (#[trigger] d[i])[c] != v by {
                assert(d[i] == rows[i]);
            }
        }
    }
}

/// The index of a table answers a look-up as a scan does: where every row holds the
/// first column `c` and no two rows hold the same value there, looking up `v` in an index
/// built from the rows gives the JSON of the one row that `WHERE c = v` selects, and
/// nothing where it selects none.
pub proof fn law_index_agrees_with_scan(
    index: Seq<Entry>,
    rows: Seq<Map<Seq<char>, Seq<char>>>,
    c: Seq<char>,
    v: Seq<char>,
    nums: Seq<(String, NumOrder)>,
)
    requires
        index_of_rows(index, rows, Some(c)),
        forall|i: int| 0 <= i < rows.len() ==> (#[trigger] rows[i]).dom().contains(c),
        keys_distinct(rows, Some(c)),
    ensures
        ({
            let m = matching_rows(rows, Some(crate::ast::SpecCondition { column: c, operator: Operator::Eq, value: v }), nums);
            &&& m.len() <= 1
            &&& lookup(index, v) == if m.len() == 1 {
                Some(json_object_text(m[0]))
            } else {
                None
            }
        }),
{
    let s = Seq::new(rows.len(), |j: int| (key_value(rows[j], Some(c)), json_object_text(rows[j])));
    lemma_matching_one(rows, c, v, nums);
    crate::btree::lemma_lookup_some(index, v);
    if exists|j: int| 0 <= j < rows.len() && (#[trigger] rows[j])[c] == v {
        let j = choose|j: int| 0 <= j < rows.len() && (#[trigger] rows[j])[c] == v;
        let e = s[j];
        assert(s.to_multiset().count(e) > 0);
        assert(index.to_multiset().count(e) > 0);
        assert(index.contains(e));
        if lookup(index, v) is None {
            let q = choose|q: int| 0 <= q < index.len() && index[q] == e;
            assert(index[q].0 == v);
        }
        let w = lookup(index, v)->0;
        assert(index.contains((v, w)));
        assert(index.to_multiset().count((v, w)) > 0);
        assert(s.to_multiset().count((v, w)) > 0);
        assert(s.contains((v, w)));
        let q = choose|q: int| 0 <= q < s.len() && s[q] == (v, w);
        if q != j {
            if q < j {
                assert(key_value(rows[q], Some(c)) != key_value(rows[j], Some(c)));
            } else {
                assert(key_value(rows[j], Some(c)) != key_value(rows[q], Some(c)));
            }
        }
    } else {
        assert forall|q: int| 0 <= q < index.len() implies (#[trigger] index[q]).0 != v by {
            let e = index[q];
            assert(index.to_multiset().count(e) > 0);
            assert(s.to_multiset().count(e) > 0);
            assert(s.contains(e));
            let w = choose|w: int| 0 <= w < s.len() && s[w] == e;
            assert(rows[w][c] != v);
        }
        crate::btree::lemma_lookup_misses(index, v);
    }
}

/// The order the numeric comparisons give a text is that of its first entry, and there is
/// none for a text without an entry.
pub proof fn law_num_order_first_entry(entries: Seq<(String, NumOrder)>, v: Seq<char>)
    ensures
        forall|i: int|
            0 <= i < entries.len() && (#[trigger] entries[i]).0@ == v && (forall|j: int| 0 <= j < i ==> (#[trigger] entries[j]).0@ != v)
                ==> num_order(entries, v) == Some(entries[i].1),
        (forall|j: int| 0 <= j < entries.len() ==> (#[trigger] entries[j]).0@ != v) ==> num_order(entries, v) is None,
    decreases entries.len(),
{
    if entries.len() > 0 {
        let d = entries.drop_first();
        law_num_order_first_entry(d, v);
        assert forall|i: int|
            0 <= i < entries.len() && (#[trigger] entries[i]).0@ == v && (forall|j: int| 0 <= j < i ==> (#[trigger] entries[j]).0@ != v)
            implies num_order(entries, v) == Some(entries[i].1) by {
            if i > 0 {
                assert(entries[0].0@ != v);
                assert(d[i - 1] == entries[i]);
                assert forall|j: int| 0 <= j < i - 1 implies (#[trigger] d[j]).0@ != v by {
                    assert(d[j] == entries[j + 1]);
                }
            }
        }
        if forall|j: int| 0 <= j < entries.len() ==> (#[trigger] entries[j]).0@ != v {
            assert(entries[0].0@ != v);
            assert forall|j: int| 0 <= j < d.len() implies (#[trigger] d[j]).0@ != v by {
                assert(d[j] == entries[j + 1]);
            }
        }
    }
}

/// What a WHERE condition means for a row: no condition holds of every row; a condition on
/// a column the row lacks holds of none; otherwise `=` and `!=` compare the texts, and `>`,
/// `<`, `>=`, `<=` compare the row's value with the condition's value as numbers: `>=`
/// holds when it compares greater or equal, `<=` when less or equal, so a value equal to
/// the bound satisfies both; a value that is no number satisfies none of the four.
pub proof fn law_condition_meaning(
    row: Map<Seq<char>, Seq<char>>,
    column: Seq<char>,
    operator: Operator,
    value: Seq<char>,
    nums: Seq<(String, NumOrder)>,
)
    ensures
        condition_holds(row, None, nums),
        !row.dom().contains(column) ==> !condition_holds(
            row,
            Some(crate::ast::SpecCondition { column, operator, value }),
            nums,
        ),
        row.dom().contains(column) ==> ({
            let holds = condition_holds(row, Some(crate::ast::SpecCondition { column, operator, value }), nums);
            let o = num_order(nums, row[column]);
            &&& operator == Operator::Eq ==> (holds <==> row[column] == value)
            &&& operator == Operator::Ne ==> (holds <==> row[column] != value)
            &&& operator == Operator::Gt ==> (holds <==> o == Some(NumOrder::Greater))
            &&& operator == Operator::Lt ==> (holds <==> o == Some(NumOrder::Less))
            &&& operator == Operator::Gte ==> (holds <==> (o == Some(NumOrder::Greater) || o == Some(NumOrder::Equal)))
            &&& operator == Operator::Lte ==> (holds <==> (o == Some(NumOrder::Less) || o == Some(NumOrder::Equal)))
        }),
{
}

/// How the conditions relate: `>=` is `>` or numeric equality, `<=` is `<` or numeric
/// equality, `!=` is the negation of `=`, and for a value that reads as a number `>=` is
/// the negation of `<` and `<=` the negation of `>`.
pub proof fn law_conditions_relate(
    row: Map<Seq<char>, Seq<char>>,
    column: Seq<char>,
    value: Seq<char>,
    nums: Seq<(String, NumOrder)>,
)
    ensures
        ({
            let h = |op: Operator| condition_holds(row, Some(crate::ast::SpecCondition { column, operator: op, value }), nums);
            let eq_num = row.dom().contains(column) && num_order(nums, row[column]) == Some(NumOrder::Equal);
            &&& h(Operator::Gte) <==> (h(Operator::Gt) || eq_num)
            &&& h(Operator::Lte) <==> (h(Operator::Lt) || eq_num)
            &&& row.dom().contains(column) ==> (h(Operator::Ne) <==> !h(Operator::Eq))
            &&& (row.dom().contains(column) && num_order(nums, row[column]) is Some) ==> {
                &&& h(Operator::Gte) <==> !h(Operator::Lt)
                &&& h(Operator::Lte) <==> !h(Operator::Gt)
            }
        }),
{
}

/// The rows a condition selects are exactly the rows that satisfy it, in their order; the
/// rows a `DELETE` keeps are exactly the others.
pub proof fn law_selection_is_filter(
    rows: Seq<Map<Seq<char>, Seq<char>>>,
    cond: Option<crate::ast::SpecCondition>,
    nums: Seq<(String, NumOrder)>,
)
    ensures
        matching_rows(rows, cond, nums) == rows.filter(|r: Map<Seq<char>, Seq<char>>| condition_holds(r, cond, nums)),
        kept_rows(rows, cond, nums) == rows.filter(|r: Map<Seq<char>, Seq<char>>| !condition_holds(r, cond, nums)),
        count_matching(rows, cond, nums) == matching_rows(rows, cond, nums).len(),
    decreases rows.len(),
{
    reveal(Seq::filter);
    if rows.len() > 0 {
        law_selection_is_filter(rows.drop_last(), cond, nums);
    }
}

/// The rows a left row gives in a join: one merged row (the left row's columns, overridden
/// by the right row's) for every right row whose join value agrees with it, in the right
/// table's order; so as many as there are such right rows.
pub proof fn law_join_one_row(
    l: Map<Seq<char>, Seq<char>>,
    right: Seq<Map<Seq<char>, Seq<char>>>,
    lc: Seq<char>,
    rc: Seq<char>,
)
    ensures
        join_one(l, right, lc, rc) == right.filter(|r: Map<Seq<char>, Seq<char>>| value_at(l, lc) == value_at(r, rc)).map_values(
            |r: Map<Seq<char>, Seq<char>>| l.union_prefer_right(r),
        ),
        join_one(l, right, lc, rc).len() == right.filter(
            |r: Map<Seq<char>, Seq<char>>| value_at(l, lc) == value_at(r, rc),
        ).len(),
    decreases right.len(),
{
    reveal(Seq::filter);
    let p = |r: Map<Seq<char>, Seq<char>>| value_at(l, lc) == value_at(r, rc);
    let f = |r: Map<Seq<char>, Seq<char>>| l.union_prefer_right(r);
    if right.len() > 0 {
        law_join_one_row(l, right.drop_last(), lc, rc);
        let prev = right.drop_last().filter(p);
        if p(right.last()) {
            assert(prev.push(right.last()).map_values(f) =~= prev.map_values(f).push(f(right.last())));
        }
    }
}

/// A join takes the left rows in order: the join of two runs of left rows one after the
/// other is the join of the first followed by that of the second, and one left row gives
/// its own merged rows.
pub proof fn law_join_rows_in_left_order(
    a: Seq<Map<Seq<char>, Seq<char>>>,
    b: Seq<Map<Seq<char>, Seq<char>>>,
    right: Seq<Map<Seq<char>, Seq<char>>>,
    lc: Seq<char>,
    rc: Seq<char>,
)
    ensures
        join_rows(a + b, right, lc, rc) == join_rows(a, right, lc, rc) + join_rows(b, right, lc, rc),
        forall|l: Map<Seq<char>, Seq<char>>| #[trigger] join_rows(seq![l], right, lc, rc) == join_one(l, right, lc, rc),
    decreases b.len(),
{
    assert forall|l: Map<Seq<char>, Seq<char>>| #[trigger] join_rows(seq![l], right, lc, rc) == join_one(l, right, lc, rc) by {
        assert(seq![l].drop_last() =~= Seq::<Map<Seq<char>, Seq<char>>>::empty());
        assert(join_rows(Seq::<Map<Seq<char>, Seq<char>>>::empty(), right, lc, rc) + join_one(l, right, lc, rc) =~= join_one(l, right, lc, rc));
    }
    if b.len() == 0 {
        assert(a + b =~= a);
        assert(join_rows(a, right, lc, rc) + join_rows(b, right, lc, rc) =~= join_rows(a, right, lc, rc));
    } else {
        law_join_rows_in_left_order(a, b.drop_last(), right, lc, rc);
        assert((a + b).drop_last() =~= a + b.drop_last());
        assert((a + b).last() == b.last());
        assert(join_rows(a + b, right, lc, rc) =~= join_rows(a, right, lc, rc) + join_rows(b, right, lc, rc));
    }
}

proof fn lemma_assigned_dom(row: Map<Seq<char>, Seq<char>>, asg: Seq<(Seq<char>, Seq<char>)>, col: Seq<char>)
    ensures
        assigned(row, asg).dom().contains(col) <==> (row.dom().contains(col) || exists|k: int|
            0 <= k < asg.len() && (#[trigger] asg[k]).0 == col),
    decreases asg.len(),
{
    if asg.len() > 0 {
        let d = asg.drop_last();
        let n = asg.len() - 1;
        lemma_assigned_dom(row, d, col);
        assert(asg.last() == asg[n]);
        if exists|k: int| 0 <= k < d.len() && (#[trigger] d[k]).0 == col {
            let k = choose|k: int| 0 <= k < d.len() && (#[trigger] d[k]).0 == col;
            assert(asg[k] == d[k]);
        }
        if exists|k: int| 0 <= k < asg.len() && (#[trigger] asg[k]).0 == col {
            let k = choose|k: int| 0 <= k < asg.len() && (#[trigger] asg[k]).0 == col;
            if k < n {
                assert(d[k] == asg[k]);
            }
        }
    }
}

proof fn lemma_assigned_last(row: Map<Seq<char>, Seq<char>>, asg: Seq<(Seq<char>, Seq<char>)>, k: int)
    requires
        0 <= k < asg.len(),
        forall|m: int| k < m < asg.len() ==> (#[trigger] asg[m]).0 != asg[k].0,
    ensures
        assigned(row, asg).dom().contains(asg[k].0),
        assigned(row, asg)[asg[k].0] == asg[k].1,
    decreases asg.len(),
{
    let d = asg.drop_last();
    let n = asg.len() - 1;
    assert(asg.last() == asg[n]);
    if k < n {
        assert(asg[n].0 != asg[k].0);
        assert(d[k] == asg[k]);
        assert forall|m: int| k < m < d.len() implies (#[trigger] d[m]).0 != d[k].0 by {
            assert(d[m] == asg[m]);
        }
        lemma_assigned_last(row, d, k);
    }
}

proof fn lemma_assigned_other(row: Map<Seq<char>, Seq<char>>, asg: Seq<(Seq<char>, Seq<char>)>, col: Seq<char>)
    requires
        forall|k: int| 0 <= k < asg.len() ==> (#[trigger] asg[k]).0 != col,
        row.dom().contains(col),
    ensures
        assigned(row, asg)[col] == row[col],
    decreases asg.len(),
{
    if asg.len() > 0 {
        let d = asg.drop_last();
        assert(asg.last() == asg[asg.len() - 1]);
        assert forall|k: int| 0 <= k < d.len() implies (#[trigger] d[k]).0 != col by {
            assert(d[k] == asg[k]);
        }
        lemma_assigned_other(row, d, col);
    }
}

/// What the SET list of an `UPDATE` does to a row: each assigned column holds the value of
/// its last assignment; every other column keeps its value; the row gains exactly the
/// assigned columns it lacked.
pub proof fn law_assignments(row: Map<Seq<char>, Seq<char>>, asg: Seq<(Seq<char>, Seq<char>)>, col: Seq<char>)
    ensures
        assigned(row, asg).dom().contains(col) <==> (row.dom().contains(col) || exists|k: int|
            0 <= k < asg.len() && (#[trigger] asg[k]).0 == col),
        forall|k: int|
            0 <= k < asg.len() && (#[trigger] asg[k]).0 == col && (forall|m: int| k < m < asg.len() ==> (#[trigger] asg[m]).0 != col)
                ==> assigned(row, asg)[col] == asg[k].1,
        (forall|k: int| 0 <= k < asg.len() ==> (#[trigger] asg[k]).0 != col) && row.dom().contains(col) ==> assigned(row, asg)[col]
            == row[col],
{
    lemma_assigned_dom(row, asg, col);
    assert forall|k: int|
        0 <= k < asg.len() && (#[trigger] asg[k]).0 == col && (forall|m: int| k < m < asg.len() ==> (#[trigger] asg[m]).0 != col)
        implies assigned(row, asg)[col] == asg[k].1 by {
        lemma_assigned_last(row, asg, k);
    }
    if (forall|k: int| 0 <= k < asg.len() ==> (#[trigger] asg[k]).0 != col) && row.dom().contains(col) {
        lemma_assigned_other(row, asg, col);
    }
}

/// An `UPDATE` changes only the rows that satisfy its condition, and each of those by its
/// SET list; the others stay as they were.
pub proof fn law_update_rows(
    rows: Seq<Map<Seq<char>, Seq<char>>>,
    asg: Seq<(Seq<char>, Seq<char>)>,
    cond: Option<crate::ast::SpecCondition>,
    nums: Seq<(String, NumOrder)>,
)
    ensures
        updated_rows(rows, asg, cond, nums).len() == rows.len(),
        forall|j: int|
            0 <= j < rows.len() && !condition_holds(#[trigger] rows[j], cond, nums) ==> updated_rows(rows, asg, cond, nums)[j]
                == rows[j],
        forall|j: int, col: Seq<char>|
            0 <= j < rows.len() && condition_holds(#[trigger] rows[j], cond, nums) && (forall|m: int|
                0 <= m < asg.len() ==> (#[trigger] asg[m]).0 != col) ==> (#[trigger] updated_rows(rows, asg, cond, nums)[j].dom().contains(col)
                == rows[j].dom().contains(col)) && (rows[j].dom().contains(col) ==> updated_rows(rows, asg, cond, nums)[j][col]
                == rows[j][col]),
        forall|j: int, k: int|
            0 <= j < rows.len() && condition_holds(#[trigger] rows[j], cond, nums) && 0 <= k < asg.len() && (forall|m: int|
                k < m < asg.len() ==> (#[trigger] asg[m]).0 != asg[k].0) ==> (#[trigger] updated_rows(rows, asg, cond, nums)[j].dom().contains(asg[k].0))
                && updated_rows(rows, asg, cond, nums)[j][asg[k].0] == asg[k].1,
{
    assert forall|j: int, col: Seq<char>|
        0 <= j < rows.len() && condition_holds(#[trigger] rows[j], cond, nums) && (forall|m: int|
            0 <= m < asg.len() ==> (#[trigger] asg[m]).0 != col) implies (#[trigger] updated_rows(rows, asg, cond, nums)[j].dom().contains(col)
            == rows[j].dom().contains(col)) && (rows[j].dom().contains(col) ==> updated_rows(rows, asg, cond, nums)[j][col]
            == rows[j][col]) by {
        law_assignments(rows[j], asg, col);
    }
    assert forall|j: int, k: int|
        0 <= j < rows.len() && condition_holds(#[trigger] rows[j], cond, nums) && 0 <= k < asg.len() && (forall|m: int|
            k < m < asg.len() ==> (#[trigger] asg[m]).0 != asg[k].0) implies (#[trigger] updated_rows(rows, asg, cond, nums)[j].dom().contains(asg[k].0))
            && updated_rows(rows, asg, cond, nums)[j][asg[k].0] == asg[k].1 by {
        law_assignments(rows[j], asg, asg[k].0);
    }
}

/// The row of an `INSERT` holds exactly the table's columns, each with the value at its
/// position (for a name that occurs again later, the later one's).
pub proof fn law_insert_row(names: Seq<Seq<char>>, values: Seq<Seq<char>>)
    requires
        names.len() <= values.len(),
    ensures
        forall|c: Seq<char>| #[trigger] zip_row(names, values).dom().contains(c) <==> names.contains(c),
        forall|k: int|
            0 <= k < names.len() && (forall|m: int| k < m < names.len() ==> #[trigger] names[m] != names[k]) ==> zip_row(names, values)[#[trigger] names[k]]
                == values[k],
    decreases names.len(),
{
    if names.len() > 0 {
        let d = names.drop_last();
        let n = names.len() - 1;
        law_insert_row(d, values);
        assert(names.last() == names[n]);
        assert forall|c: Seq<char>| #[trigger] zip_row(names, values).dom().contains(c) <==> names.contains(c) by {
            assert(zip_row(d, values).dom().contains(c) <==> d.contains(c));
            if c == names[n] {
                assert(names[n] == names[n]);
                assert(names.contains(names[n]));
            }
            if names.contains(c) && c != names[n] {
                let k = choose|k: int| 0 <= k < names.len() && names[k] == c;
                assert(d[k] == names[k]);
            }
            if d.contains(c) {
                let k = choose|k: int| 0 <= k < d.len() && d[k] == c;
                assert(names[k] == d[k]);
            }
        }
        assert forall|k: int|
            0 <= k < names.len() && (forall|m: int| k < m < names.len() ==> #[trigger] names[m] != names[k]) implies zip_row(names, values)[#[trigger] names[k]]
            == values[k] by {
            if k < n {
                assert(names[n] != names[k]);
                assert(d[k] == names[k]);
                assert forall|m: int| k < m < d.len() implies #[trigger] d[m] != d[k] by {
                    assert(d[m] == names[m]);
                }
            }
        }
    }
}

/// `LIMIT n` keeps the first `n` rows (all of them where there are fewer), in order; without
/// `GROUP BY` and `LIMIT` the rows stay as they are.
pub proof fn law_limit_keeps_first(
    rows: Seq<Map<Seq<char>, Seq<char>>>,
    group_by: Option<Seq<Seq<char>>>,
    n: usize,
)
    ensures
        grouped_limited(rows, None, None) == rows,
        grouped_limited(rows, None, Some(n)).len() == if n < rows.len() { n as int } else { rows.len() as int },
        forall|j: int| 0 <= j < grouped_limited(rows, None, Some(n)).len() ==> #[trigger] grouped_limited(rows, None, Some(n))[j] == rows[j],
        grouped_limited(rows, group_by, Some(n)).len() <= n,
        grouped_limited(rows, group_by, Some(n)) == grouped_limited(rows, group_by, None).subrange(
            0,
            if n < grouped_limited(rows, group_by, None).len() { n as int } else { grouped_limited(rows, group_by, None).len() as int },
        ),
{
    let g = grouped_limited(rows, group_by, None);
    if n >= g.len() {
        assert(g.subrange(0, g.len() as int) =~= g);
    }
    if n >= rows.len() {
        assert(rows.subrange(0, rows.len() as int) =~= rows);
    }
}

/// The first row of its group: no earlier row has the same values in the grouping columns.
pub open spec fn first_in_group(rows: Seq<Map<Seq<char>, Seq<char>>>, cols: Seq<Seq<char>>, j: int) -> bool {
    forall|i: int| 0 <= i < j ==> group_key(#[trigger] rows[i], cols) != group_key(rows[j], cols)
}

/// `GROUP BY` keeps one row per group: the first row of each group is kept, every row kept
/// is the first of its group, and no two kept rows share their grouping values.
pub proof fn law_group_by_first_rows(rows: Seq<Map<Seq<char>, Seq<char>>>, cols: Seq<Seq<char>>)
    ensures
        forall|j: int| 0 <= j < rows.len() && first_in_group(rows, cols, j) ==> first_of_groups(rows, cols).contains(#[trigger] rows[j]),
        forall|x: Map<Seq<char>, Seq<char>>|
            #[trigger] first_of_groups(rows, cols).contains(x) ==> exists|j: int|
                0 <= j < rows.len() && first_in_group(rows, cols, j) && x == #[trigger] rows[j],
        forall|a: int, b: int|
            0 <= a < b < first_of_groups(rows, cols).len() ==> group_key(#[trigger] first_of_groups(rows, cols)[a], cols) != group_key(
                #[trigger] first_of_groups(rows, cols)[b],
                cols,
            ),
    decreases rows.len(),
{
    if rows.len() > 0 {
        let d = rows.drop_last();
        let n = rows.len() - 1;
        law_group_by_first_rows(d, cols);
        let prev = first_of_groups(d, cols);
        let cur = first_of_groups(rows, cols);
        assert(rows.last() == rows[n]);
        assert forall|j: int| 0 <= j < d.len() implies first_in_group(rows, cols, j) == first_in_group(d, cols, j) by {
            assert(d[j] == rows[j]);
            assert forall|i: int| 0 <= i < j implies d[i] == rows[i] by {}
        }
        let dup = exists|j: int| 0 <= j < rows.len() - 1 && group_key(#[trigger] rows[j], cols) == group_key(rows.last(), cols);
        assert(dup <==> !first_in_group(rows, cols, n));
        assert forall|j: int| 0 <= j < rows.len() && first_in_group(rows, cols, j) implies cur.contains(#[trigger] rows[j]) by {
            if j < n {
                assert(d[j] == rows[j]);
                assert(prev.contains(d[j]));
                let q = choose|q: int| 0 <= q < prev.len() && prev[q] == d[j];
                if !dup {
                    assert(cur[q] == prev[q]);
                }
            } else {
                assert(cur[cur.len() - 1] == rows[n]);
            }
        }
        assert forall|x: Map<Seq<char>, Seq<char>>| #[trigger] cur.contains(x) implies exists|j: int|
            0 <= j < rows.len() && first_in_group(rows, cols, j) && x == #[trigger] rows[j] by {
            let q = choose|q: int| 0 <= q < cur.len() && cur[q] == x;
            if q < prev.len() {
                assert(cur[q] == prev[q]);
                assert(prev.contains(x));
                let j = choose|j: int| 0 <= j < d.len() && first_in_group(d, cols, j) && x == #[trigger] d[j];
                assert(rows[j] == d[j]);
            } else {
                assert(x == rows[n]);
            }
        }
        assert forall|a: int, b: int|
            0 <= a < b < cur.len() implies group_key(#[trigger] cur[a], cols) != group_key(#[trigger] cur[b], cols) by {
            if b < prev.len() {
                assert(cur[a] == prev[a] && cur[b] == prev[b]);
            } else {
                assert(!dup);
                assert(cur[a] == prev[a]);
                assert(prev.contains(prev[a]));
                let j = choose|j: int| 0 <= j < d.len() && first_in_group(d, cols, j) && prev[a] == #[trigger] d[j];
                assert(rows[j] == d[j]);
                assert(cur[b] == rows[n]);
            }
        }
    }
}

/// What `ALTER TABLE` does to a row: `ADD COLUMN` gives it the new column with the empty
/// text and keeps every other value; `DROP COLUMN` takes the column away and keeps the
/// rest; `RENAME COLUMN` moves the value to the new name and keeps the rest.
pub proof fn law_alter_row(row: Map<Seq<char>, Seq<char>>, c: SpecColumnDef, from: Seq<char>, to: Seq<char>, other: Seq<char>)
    ensures
        altered_row(row, SpecAlterAction::AddColumn(c)).dom().contains(c.name),
        altered_row(row, SpecAlterAction::AddColumn(c))[c.name] == Seq::<char>::empty(),
        other != c.name && row.dom().contains(other) ==> altered_row(row, SpecAlterAction::AddColumn(c)).dom().contains(other)
            && altered_row(row, SpecAlterAction::AddColumn(c))[other] == row[other],
        !altered_row(row, SpecAlterAction::DropColumn(from)).dom().contains(from),
        other != from ==> (altered_row(row, SpecAlterAction::DropColumn(from)).dom().contains(other) == row.dom().contains(other)),
        other != from && row.dom().contains(other) ==> altered_row(row, SpecAlterAction::DropColumn(from))[other] == row[other],
        row.dom().contains(from) ==> altered_row(row, SpecAlterAction::RenameColumn { from, to }).dom().contains(to)
            && altered_row(row, SpecAlterAction::RenameColumn { from, to })[to] == row[from],
        row.dom().contains(from) && from != to ==> !altered_row(row, SpecAlterAction::RenameColumn { from, to }).dom().contains(from),
        other != from && other != to && row.dom().contains(other) ==> altered_row(
            row,
            SpecAlterAction::RenameColumn { from, to },
        ).dom().contains(other) && altered_row(row, SpecAlterAction::RenameColumn { from, to })[other] == row[other],
{
}

/// The columns a result shows without `*`: the plain columns of the select list, in order.
pub proof fn law_named_columns(cols: Seq<SpecSelectColumn>)
    ensures
        named_columns(cols) == cols.filter(|c: SpecSelectColumn| c is Column).map_values(|c: SpecSelectColumn| c->Column_0),
    decreases cols.len(),
{
    reveal(Seq::filter);
    if cols.len() > 0 {
        law_named_columns(cols.drop_last());
        let p = |c: SpecSelectColumn| c is Column;
        let f = |c: SpecSelectColumn| c->Column_0;
        let prev = cols.drop_last().filter(p);
        if p(cols.last()) {
            assert(prev.push(cols.last()).map_values(f) =~= prev.map_values(f).push(f(cols.last())));
        }
    }
}

/// What a `SELECT` without a join gives: the table's rows that satisfy the condition, in
/// the table's order, and no others; a missing table is an error.
pub proof fn law_select_rows(
    ex: Executor,
    table: String,
    condition: Option<Condition>,
    nums: NumericOrders,
    r: Result<Vec<Row>, String>,
)
    requires
        selected(ex, table, condition, None, nums, r),
    ensures
        !ex.tables().dom().contains(table@) ==> r is Err,
        ex.tables().dom().contains(table@) ==> (r matches Ok(rs) && row_views(rs@) == ex.tables()[table@].rows.filter(
            |x: Map<Seq<char>, Seq<char>>| condition_holds(x, crate::ast::opt_condition_view(condition), nums.entries@),
        )),
{
    if ex.tables().dom().contains(table@) {
        law_selection_is_filter(ex.tables()[table@].rows, crate::ast::opt_condition_view(condition), nums.entries@);
    }
}

/// Creating a table and then dropping it gives back the tables there were.
pub proof fn law_create_then_drop(
    e0: Executor,
    e1: Executor,
    e2: Executor,
    name: String,
    columns: Vec<ColumnDef>,
    r1: Result<String, String>,
    r2: Result<String, String>,
)
    requires
        !e0.tables().dom().contains(name@),
        created(e0, e1, name, columns, r1),
        dropped(e1, e2, name, r2),
    ensures
        r1 is Ok,
        r2 is Ok,
        e2.tables() == e0.tables(),
{
    assert(e2.tables() =~= e0.tables());
}

/// A created table has the columns given and no rows; creating one that is there already
/// fails and changes no table.
pub proof fn law_create_table(
    before: Executor,
    after: Executor,
    name: String,
    columns: Vec<ColumnDef>,
    r: Result<String, String>,
)
    requires
        created(before, after, name, columns, r),
    ensures
        before.tables().dom().contains(name@) ==> r is Err && after.tables() == before.tables(),
        !before.tables().dom().contains(name@) ==> {
            &&& r is Ok
            &&& after.tables().dom() == before.tables().dom().insert(name@)
            &&& after.tables()[name@].rows.len() == 0
            &&& after.tables()[name@].columns.len() == columns@.len()
            &&& forall|k: int| 0 <= k < columns@.len() ==> after.tables()[name@].columns[k] == (#[trigger] columns@[k])@
            &&& forall|t: Seq<char>| t != name@ && before.tables().dom().contains(t) ==> #[trigger] after.tables()[t] == before.tables()[t]
        },
{
}

/// An `INSERT` with one value per column adds one row at the end of the table, holding
/// exactly the table's columns, each with the value at its position (the columns' names
/// being distinct); the other rows and tables stay as they were.
pub proof fn law_insert_adds_row(
    before: Executor,
    after: Executor,
    table: String,
    values: Vec<String>,
    r: Result<String, String>,
)
    requires
        inserted(before, after, table, values, r),
        before.tables().dom().contains(table@),
        values@.len() == before.tables()[table@].columns.len(),
    ensures
        r is Ok,
        ({
            let t = before.tables()[table@];
            let nt = after.tables()[table@];
            let row = nt.rows.last();
            &&& nt.rows.len() == t.rows.len() + 1
            &&& nt.rows.drop_last() == t.rows
            &&& forall|c: Seq<char>| #[trigger] row.dom().contains(c) <==> exists|k: int| 0 <= k < t.columns.len() && (#[trigger] t.columns[k]).name == c
            &&& forall|k: int|
                0 <= k < t.columns.len() && (forall|m: int| 0 <= m < t.columns.len() && m != k ==> (#[trigger] t.columns[m]).name != t.columns[k].name)
                    ==> row[(#[trigger] t.columns[k]).name] == values@[k]@
        }),
{
    let t = before.tables()[table@];
    let names = column_names(t.columns);
    let vals = texts_of(values@);
    law_insert_row(names, vals);
    let nt = after.tables()[table@];
    assert(nt.rows == t.rows.push(zip_row(names, vals)));
    assert(nt.rows.drop_last() =~= t.rows);
    let row = nt.rows.last();
    assert forall|c: Seq<char>| #[trigger] row.dom().contains(c) <==> exists|k: int| 0 <= k < t.columns.len() && (#[trigger] t.columns[k]).name == c by {
        if row.dom().contains(c) {
            assert(names.contains(c));
            let k = choose|k: int| 0 <= k < names.len() && names[k] == c;
            assert(t.columns[k].name == names[k]);
        }
        if exists|k: int| 0 <= k < t.columns.len() && (#[trigger] t.columns[k]).name == c {
            let k = choose|k: int| 0 <= k < t.columns.len() && (#[trigger] t.columns[k]).name == c;
            assert(names[k] == c);
            assert(names.contains(c));
        }
    }
    assert forall|k: int|
        0 <= k < t.columns.len() && (forall|m: int| 0 <= m < t.columns.len() && m != k ==> (#[trigger] t.columns[m]).name != t.columns[k].name)
        implies row[(#[trigger] t.columns[k]).name] == values@[k]@ by {
        assert forall|m: int| k < m < names.len() implies #[trigger] names[m] != names[k] by {
            assert(names[m] == t.columns[m].name);
            assert(t.columns[m].name != t.columns[k].name);
        }
        assert(names[k] == t.columns[k].name);
        assert(vals[k] == values@[k]@);
    }
}

/// A `DELETE` leaves exactly the rows that do not satisfy its condition, in order, and
/// reports how many went: the table's rows before, less those after.
pub proof fn law_delete_rows(
    before: Executor,
    after: Executor,
    table: String,
    condition: Option<Condition>,
    nums: NumericOrders,
    r: Result<String, String>,
)
    requires
        deleted(before, after, table, condition, nums, r),
        before.tables().dom().contains(table@),
    ensures
        ({
            let cond = crate::ast::opt_condition_view(condition);
            let rows = before.tables()[table@].rows;
            let nrows = after.tables()[table@].rows;
            &&& nrows == rows.filter(|x: Map<Seq<char>, Seq<char>>| !condition_holds(x, cond, nums.entries@))
            &&& r matches Ok(m) && m@ == decimal((rows.len() - nrows.len()) as nat) + " row(s) deleted."@
        }),
{
    let cond = crate::ast::opt_condition_view(condition);
    let rows = before.tables()[table@].rows;
    law_selection_is_filter(rows, cond, nums.entries@);
    lemma_count_bound(rows, cond, nums.entries@);
}

/// An `UPDATE` keeps the number of rows and reports how many satisfied its condition.
pub proof fn law_update_count(
    before: Executor,
    after: Executor,
    table: String,
    assignments: Vec<(String, String)>,
    condition: Option<Condition>,
    nums: NumericOrders,
    r: Result<String, String>,
)
    requires
        updated(before, after, table, assignments, condition, nums, r),
        before.tables().dom().contains(table@),
    ensures
        ({
            let cond = crate::ast::opt_condition_view(condition);
            let rows = before.tables()[table@].rows;
            &&& after.tables()[table@].rows.len() == rows.len()
            &&& r matches Ok(m) && m@ == decimal(
                rows.filter(|x: Map<Seq<char>, Seq<char>>| condition_holds(x, cond, nums.entries@)).len(),
            ) + " row(s) updated."@
        }),
{
    let cond = crate::ast::opt_condition_view(condition);
    law_selection_is_filter(before.tables()[table@].rows, cond, nums.entries@);
}

/// What `ALTER TABLE` does to the columns: `ADD COLUMN` appends the new one, `DROP COLUMN`
/// keeps exactly the columns of other names in order, and `RENAME COLUMN` gives each column
/// of the old name the new name, keeping its type and place.
pub proof fn law_alter_columns(cols: Seq<SpecColumnDef>, c: SpecColumnDef, from: Seq<char>, to: Seq<char>)
    ensures
        altered_columns(cols, SpecAlterAction::AddColumn(c)) == cols.push(c),
        altered_columns(cols, SpecAlterAction::DropColumn(from)) == cols.filter(|x: SpecColumnDef| x.name != from),
        altered_columns(cols, SpecAlterAction::RenameColumn { from, to }).len() == cols.len(),
        forall|j: int|
            0 <= j < cols.len() ==> (#[trigger] altered_columns(cols, SpecAlterAction::RenameColumn { from, to })[j]).data_type
                == cols[j].data_type && altered_columns(cols, SpecAlterAction::RenameColumn { from, to })[j].name == (if cols[j].name
                == from { to } else { cols[j].name }),
{
    lemma_without_column(cols, from);
}

proof fn lemma_without_column(cols: Seq<SpecColumnDef>, n: Seq<char>)
    ensures
        without_column(cols, n) == cols.filter(|x: SpecColumnDef| x.name != n),
    decreases cols.len(),
{
    reveal(Seq::filter);
    if cols.len() > 0 {
        lemma_without_column(cols.drop_last(), n);
    }
}

/// When two rows join: their values in the two columns are the same, or neither row has
/// its column.
pub proof fn law_join_values(l: Map<Seq<char>, Seq<char>>, r: Map<Seq<char>, Seq<char>>, lc: Seq<char>, rc: Seq<char>)
    ensures
        (value_at(l, lc) == value_at(r, rc)) <==> ((l.dom().contains(lc) && r.dom().contains(rc) && l[lc] == r[rc]) || (
        !l.dom().contains(lc) && !r.dom().contains(rc))),
{
}

/// The values a row is grouped by: its value in each grouping column, in order, the empty
/// text where it lacks the column; rows with the same such values are in one group.
pub proof fn law_group_values(row: Map<Seq<char>, Seq<char>>, cols: Seq<Seq<char>>)
    ensures
        group_key(row, cols).len() == cols.len(),
        forall|i: int| 0 <= i < cols.len() && row.dom().contains(cols[i]) ==> #[trigger] group_key(row, cols)[i] == row[cols[i]],
        forall|i: int| 0 <= i < cols.len() && !row.dom().contains(cols[i]) ==> #[trigger] group_key(row, cols)[i] == Seq::<char>::empty(),
{
}

/// What a `SELECT` with a join gives: of the joined rows (each left row merged with every
/// right row that agrees with it on the join columns), those that satisfy the condition,
/// in order; a missing table is an error.
pub proof fn law_select_join_rows(
    ex: Executor,
    table: String,
    condition: Option<Condition>,
    j: Join,
    nums: NumericOrders,
    r: Result<Vec<Row>, String>,
)
    requires
        selected(ex, table, condition, Some(j), nums, r),
    ensures
        !(ex.tables().dom().contains(table@) && ex.tables().dom().contains(j.table@)) ==> r is Err,
        ex.tables().dom().contains(table@) && ex.tables().dom().contains(j.table@) ==> (r matches Ok(rs) && row_views(rs@)
            == join_rows(ex.tables()[table@].rows, ex.tables()[j.table@].rows, j.left_col@, j.right_col@).filter(
            |x: Map<Seq<char>, Seq<char>>| condition_holds(x, crate::ast::opt_condition_view(condition), nums.entries@),
        )),
{
    if ex.tables().dom().contains(table@) && ex.tables().dom().contains(j.table@) {
        law_selection_is_filter(
            join_rows(ex.tables()[table@].rows, ex.tables()[j.table@].rows, j.left_col@, j.right_col@),
            crate::ast::opt_condition_view(condition),
            nums.entries@,
        );
    }
}

} // verus!
