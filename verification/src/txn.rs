//! Transactions: at most one active at a time, with the operations to undo on rollback.

use vstd::prelude::*;
use crate::row::{Row, row_to_json, json_object_text};
use crate::wal::{Wal, LogRecord, fields_line};

verus! {

/// What undoes one change of the active transaction: the table, the key the row holds in
/// its first column, and the row's position in the table right after the change (for a
/// deletion, the position the row had right before it).
#[derive(Debug)]
pub enum UndoOp {
    Insert { table: String, key: String, pos: usize },
    Update { table: String, key: String, pos: usize, old_value: Row },
    Delete { table: String, key: String, pos: usize, old_value: Row },
}

/// An undo operation with its texts and row as values.
pub enum SpecUndoOp {
    Insert { table: Seq<char>, key: Seq<char>, pos: nat },
    Update { table: Seq<char>, key: Seq<char>, pos: nat, old_value: Map<Seq<char>, Seq<char>> },
    Delete { table: Seq<char>, key: Seq<char>, pos: nat, old_value: Map<Seq<char>, Seq<char>> },
}

impl View for UndoOp {
    type V = SpecUndoOp;

    open spec fn view(&self) -> SpecUndoOp {
        match self {
            UndoOp::Insert { table, key, pos } => SpecUndoOp::Insert {
                table: table@,
                key: key@,
                pos: *pos as nat,
            },
            UndoOp::Update { table, key, pos, old_value } => SpecUndoOp::Update {
                table: table@,
                key: key@,
                pos: *pos as nat,
                old_value: old_value@,
            },
            UndoOp::Delete { table, key, pos, old_value } => SpecUndoOp::Delete {
                table: table@,
                key: key@,
                pos: *pos as nat,
                old_value: old_value@,
            },
        }
    }
}

pub open spec fn undo_views(s: Seq<UndoOp>) -> Seq<SpecUndoOp> {
    s.map_values(|o: UndoOp| o@)
}

pub struct TransactionManager {
    pub next_txn_id: u64,
    pub active_txn: Option<u64>,
    pub undo_log: Vec<UndoOp>,
    pub wal: Wal,
}

/// Message of `begin` while a transaction is active.
pub open spec fn already_active_msg() -> Seq<char> {
    "Transaction already active. COMMIT or ROLLBACK first."@
}

/// Message of `commit` and `abort` while no transaction is active.
pub open spec fn no_active_msg() -> Seq<char> {
    "No active transaction."@
}

/// What `log_insert` does: outside a transaction nothing; within one, the `INSERT` line is
/// logged and the insertion is remembered to be taken back.
pub open spec fn insert_logged(
    before: TransactionManager,
    after: TransactionManager,
    table: Seq<char>,
    key: Seq<char>,
    pos: nat,
    value: Seq<char>,
) -> bool {
    &&& before.active_txn is None ==> after.same_state(&before) && after.same_log(&before)
    &&& before.active_txn matches Some(id) ==> {
        &&& after.next_txn_id == before.next_txn_id
        &&& after.active_txn == before.active_txn
        &&& undo_views(after.undo_log@) == undo_views(before.undo_log@).push(
            SpecUndoOp::Insert { table, key, pos },
        )
        &&& after.wal.log_path() == before.wal.log_path()
        &&& after.wal.lines() == before.wal.lines().push(
            fields_line("INSERT"@, id, seq![table, key, value]),
        )
    }
}

impl TransactionManager {
    /// The state apart from the log: the next number, the active transaction and its undo
    /// operations.
    pub open spec fn same_state(&self, other: &Self) -> bool {
        &&& self.next_txn_id == other.next_txn_id
        &&& self.active_txn == other.active_txn
        &&& undo_views(self.undo_log@) == undo_views(other.undo_log@)
    }

    /// The log goes to the same file and holds the same lines.
    pub open spec fn same_log(&self, other: &Self) -> bool {
        &&& self.wal.log_path() == other.wal.log_path()
        &&& self.wal.lines() == other.wal.lines()
    }

    /// No transaction active; the first one gets number 1; the log goes to `data/wal.log`.
    pub fn new() -> (t: Self)
        ensures
            t.next_txn_id == 1,
            t.active_txn is None,
            t.undo_log@.len() == 0,
            t.wal.log_path() == "data/wal.log"@,
            t.wal.lines() == Seq::<Seq<char>>::empty(),
    {
        TransactionManager {
            next_txn_id: 1,
            active_txn: None,
            undo_log: Vec::new(),
            wal: Wal::new("data/wal.log"),
        }
    }

    /// Starts a transaction with the next number and logs `BEGIN`; refused while one is
    /// active.
    pub fn begin(&mut self) -> (r: Result<u64, String>)
        requires
            old(self).active_txn is None ==> old(self).next_txn_id < u64::MAX,
        ensures
            old(self).active_txn is Some ==> {
                &&& r matches Err(e) && e@ == already_active_msg()
                &&& final(self).same_state(old(self))
                &&& final(self).same_log(old(self))
            },
            old(self).active_txn is None ==> {
                &&& r == Ok::<u64, String>(old(self).next_txn_id)
                &&& final(self).next_txn_id == old(self).next_txn_id + 1
                &&& final(self).active_txn == Some(old(self).next_txn_id)
                &&& final(self).undo_log@.len() == 0
                &&& final(self).wal.log_path() == old(self).wal.log_path()
                &&& final(self).wal.lines() == old(self).wal.lines().push(
                    fields_line("BEGIN"@, old(self).next_txn_id, seq![]),
                )
            },
    {
        if self.active_txn.is_some() {
            return Err(String::from_str("Transaction already active. COMMIT or ROLLBACK first."));
        }
        let txn_id = self.next_txn_id;
        self.next_txn_id = self.next_txn_id + 1;
        self.active_txn = Some(txn_id);
        self.undo_log.clear();
        self.wal.log(LogRecord::Begin(txn_id));
        Ok(txn_id)
    }

    /// Ends the active transaction, logging `COMMIT`; refused when none is active.
    pub fn commit(&mut self) -> (r: Result<(), String>)
        ensures
            old(self).active_txn is None ==> {
                &&& r matches Err(e) && e@ == no_active_msg()
                &&& final(self).same_state(old(self))
                &&& final(self).same_log(old(self))
            },
            old(self).active_txn matches Some(id) ==> {
                &&& r is Ok
                &&& final(self).next_txn_id == old(self).next_txn_id
                &&& final(self).active_txn is None
                &&& final(self).undo_log@.len() == 0
                &&& final(self).wal.log_path() == old(self).wal.log_path()
                &&& final(self).wal.lines() == old(self).wal.lines().push(
                    fields_line("COMMIT"@, id, seq![]),
                )
            },
    {
        let txn_id = match self.active_txn {
            Some(id) => id,
            None => {
                return Err(String::from_str("No active transaction."));
            },
        };
        self.wal.log(LogRecord::Commit(txn_id));
        self.active_txn = None;
        self.undo_log.clear();
        Ok(())
    }

    /// Ends the active transaction, logging `ABORT`, and hands out its undo operations,
    /// the last one first; refused when none is active.
    pub fn abort(&mut self) -> (r: Result<Vec<UndoOp>, String>)
        ensures
            old(self).active_txn is None ==> {
                &&& r matches Err(e) && e@ == no_active_msg()
                &&& final(self).same_state(old(self))
                &&& final(self).same_log(old(self))
            },
            old(self).active_txn matches Some(id) ==> {
                &&& r matches Ok(ops) && undo_views(ops@) == undo_views(old(self).undo_log@).reverse()
                &&& final(self).next_txn_id == old(self).next_txn_id
                &&& final(self).active_txn is None
                &&& final(self).undo_log@.len() == 0
                &&& final(self).wal.log_path() == old(self).wal.log_path()
                &&& final(self).wal.lines() == old(self).wal.lines().push(
                    fields_line("ABORT"@, id, seq![]),
                )
            },
    {
        let txn_id = match self.active_txn {
            Some(id) => id,
            None => {
                return Err(String::from_str("No active transaction."));
            },
        };
        self.wal.log(LogRecord::Abort(txn_id));
        self.active_txn = None;
        let ghost all = undo_views(self.undo_log@);
        let mut ops: Vec<UndoOp> = Vec::new();
        while self.undo_log.len() > 0
            invariant
                all.len() == undo_views(self.undo_log@).len() + ops@.len(),
                undo_views(self.undo_log@) == all.subrange(0, self.undo_log@.len() as int),
                undo_views(ops@) == all.subrange(self.undo_log@.len() as int, all.len() as int).reverse(),
                self.next_txn_id == old(self).next_txn_id,
                self.active_txn is None,
                self.wal.log_path() == old(self).wal.log_path(),
                self.wal.lines() == old(self).wal.lines().push(fields_line("ABORT"@, txn_id, seq![])),
            decreases self.undo_log@.len(),
        {
            let ghost n = self.undo_log@.len();
            let ghost before = self.undo_log@;
            let ghost before_ops = ops@;
            let op = self.undo_log.pop().unwrap();
            ops.push(op);
            proof {
                assert(self.undo_log@ =~= before.drop_last());
                assert(undo_views(self.undo_log@) =~= undo_views(before).drop_last());
                assert(undo_views(self.undo_log@) =~= all.subrange(0, n - 1));
                assert(undo_views(ops@) =~= undo_views(before_ops).push(op@));
                assert(op == before[n - 1]);
                assert(undo_views(before)[n - 1] == before[n - 1]@);
                assert(undo_views(before)[n - 1] == all[n - 1]);
                assert(all.subrange(n - 1, all.len() as int).reverse() =~= all.subrange(
                    n as int,
                    all.len() as int,
                ).reverse().push(all[n - 1]));
            }
        }
        proof {
            assert(all.subrange(0, all.len() as int) =~= all);
        }
        Ok(ops)
    }

    /// Within a transaction, logs the insertion and remembers to take it back; outside one,
    /// does nothing.
    pub fn log_insert(&mut self, table: &str, key: &str, pos: usize, value: &str)
        ensures
            insert_logged(*old(self), *final(self), table@, key@, pos as nat, value@),
    {
        if let Some(txn_id) = self.active_txn {
            self.wal.log(
                LogRecord::Insert {
                    txn_id,
                    table: String::from_str(table),
                    key: String::from_str(key),
                    value: String::from_str(value),
                },
            );
            let ghost before = self.undo_log@;
            self.undo_log.push(UndoOp::Insert { table: String::from_str(table), key: String::from_str(key), pos });
            proof {
                assert(undo_views(self.undo_log@) =~= undo_views(before).push(
                    SpecUndoOp::Insert { table: table@, key: key@, pos: pos as nat },
                ));
            }
        }
    }

    /// Within a transaction, logs the update (the old row as JSON) and remembers the old
    /// row; outside one, does nothing.
    pub fn log_update(&mut self, table: &str, key: &str, pos: usize, old_value: Row, new_value: &str)
        ensures
            old(self).active_txn is None ==> final(self).same_state(old(self)) && final(self).same_log(old(self)),
            old(self).active_txn matches Some(id) ==> {
                &&& final(self).next_txn_id == old(self).next_txn_id
                &&& final(self).active_txn == old(self).active_txn
                &&& undo_views(final(self).undo_log@) == undo_views(old(self).undo_log@).push(
                    SpecUndoOp::Update { table: table@, key: key@, pos: pos as nat, old_value: old_value@ },
                )
                &&& final(self).wal.log_path() == old(self).wal.log_path()
                &&& final(self).wal.lines() == old(self).wal.lines().push(
                    fields_line(
                        "UPDATE"@,
                        id,
                        seq![table@, key@, json_object_text(old_value@), new_value@],
                    ),
                )
            },
    {
        if let Some(txn_id) = self.active_txn {
            let json = row_to_json(&old_value);
            self.wal.log(
                LogRecord::Update {
                    txn_id,
                    table: String::from_str(table),
                    key: String::from_str(key),
                    old_value: json,
                    new_value: String::from_str(new_value),
                },
            );
            let ghost before = self.undo_log@;
            let ghost row = old_value@;
            self.undo_log.push(
                UndoOp::Update { table: String::from_str(table), key: String::from_str(key), pos, old_value },
            );
            proof {
                assert(undo_views(self.undo_log@) =~= undo_views(before).push(
                    SpecUndoOp::Update { table: table@, key: key@, pos: pos as nat, old_value: row },
                ));
            }
        }
    }

    /// Within a transaction, logs the deletion (the old row as JSON) and remembers the old
    /// row; outside one, does nothing.
    pub fn log_delete(&mut self, table: &str, key: &str, pos: usize, old_value: Row)
        ensures
            old(self).active_txn is None ==> final(self).same_state(old(self)) && final(self).same_log(old(self)),
            old(self).active_txn matches Some(id) ==> {
                &&& final(self).next_txn_id == old(self).next_txn_id
                &&& final(self).active_txn == old(self).active_txn
                &&& undo_views(final(self).undo_log@) == undo_views(old(self).undo_log@).push(
                    SpecUndoOp::Delete { table: table@, key: key@, pos: pos as nat, old_value: old_value@ },
                )
                &&& final(self).wal.log_path() == old(self).wal.log_path()
                &&& final(self).wal.lines() == old(self).wal.lines().push(
                    fields_line("DELETE"@, id, seq![table@, key@, json_object_text(old_value@)]),
                )
            },
    {
        if let Some(txn_id) = self.active_txn {
            let json = row_to_json(&old_value);
            self.wal.log(
                LogRecord::Delete {
                    txn_id,
                    table: String::from_str(table),
                    key: String::from_str(key),
                    old_value: json,
                },
            );
            let ghost before = self.undo_log@;
            let ghost row = old_value@;
            self.undo_log.push(
                UndoOp::Delete { table: String::from_str(table), key: String::from_str(key), pos, old_value },
            );
            proof {
                assert(undo_views(self.undo_log@) =~= undo_views(before).push(
                    SpecUndoOp::Delete { table: table@, key: key@, pos: pos as nat, old_value: row },
                ));
            }
        }
    }

    /// Whether a transaction is active.
    pub fn is_active(&self) -> (b: bool)
        ensures
            b == self.active_txn is Some,
    {
        self.active_txn.is_some()
    }
}

} // verus!
