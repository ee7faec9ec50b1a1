//! The write-ahead log: one text line per record, kept until they are written out.

use vstd::prelude::*;
use crate::text::{push_char, push_text};

verus! {

/// A record of the write-ahead log.
#[derive(Debug)]
pub enum LogRecord {
    Begin(u64),
    Commit(u64),
    Abort(u64),
    Insert { txn_id: u64, table: String, key: String, value: String },
    Update { txn_id: u64, table: String, key: String, old_value: String, new_value: String },
    Delete { txn_id: u64, table: String, key: String, old_value: String },
}

/// The character of a decimal digit.
pub open spec fn digit_char(d: nat) -> char {
    (d + 48) as char
}

/// The decimal numeral of `n`, without leading zeros.
pub open spec fn decimal(n: nat) -> Seq<char>
    decreases n,
{
    if n < 10 {
        seq![digit_char(n)]
    } else {
        decimal(n / 10).push(digit_char(n % 10))
    }
}

/// The line of a record with the kind word and the fields: the word, then each field after
/// a single space, then a line break.
pub open spec fn fields_line(word: Seq<char>, txn_id: u64, fields: Seq<Seq<char>>) -> Seq<char> {
    word + " "@ + decimal(txn_id as nat) + fields.fold_left(Seq::<char>::empty(), |acc: Seq<char>, f: Seq<char>| acc + " "@ + f) + "\n"@
}

/// The line that the record takes in the log: its kind, then its fields separated by
/// single spaces, then a line break.
pub open spec fn record_line(r: LogRecord) -> Seq<char> {
    match r {
        LogRecord::Begin(id) => fields_line("BEGIN"@, id, seq![]),
        LogRecord::Commit(id) => fields_line("COMMIT"@, id, seq![]),
        LogRecord::Abort(id) => fields_line("ABORT"@, id, seq![]),
        LogRecord::Insert { txn_id, table, key, value } => fields_line(
            "INSERT"@,
            txn_id,
            seq![table@, key@, value@],
        ),
        LogRecord::Update { txn_id, table, key, old_value, new_value } => fields_line(
            "UPDATE"@,
            txn_id,
            seq![table@, key@, old_value@, new_value@],
        ),
        LogRecord::Delete { txn_id, table, key, old_value } => fields_line(
            "DELETE"@,
            txn_id,
            seq![table@, key@, old_value@],
        ),
    }
}

fn digit(d: u64) -> (c: char)
    requires
        d < 10,
    ensures
        c == digit_char(d as nat),
{
    let b: u8 = d as u8;
    (b + 48u8) as char
}

/// Appends the decimal numeral of `n`.
pub fn push_decimal(s: &mut String, n: u64)
    ensures
        final(s)@ == old(s)@ + decimal(n as nat),
    decreases n,
{
    if n >= 10 {
        push_decimal(s, n / 10);
    }
    push_char(s, digit(n % 10));
    proof {
        if n >= 10 {
            assert(old(s)@ + decimal(n as nat) =~= old(s)@ + decimal((n / 10) as nat) + seq![
                digit_char((n % 10) as nat),
            ]);
        } else {
            assert(old(s)@ + decimal(n as nat) =~= old(s)@.push(digit_char((n % 10) as nat)));
        }
    }
}


/// Appends a space and then each field after a space of its own.
fn push_fields(s: &mut String, fields: &Vec<&str>)
    ensures
        final(s)@ == old(s)@ + fields@.map_values(|f: &str| f@).fold_left(
            Seq::<char>::empty(),
            |acc: Seq<char>, f: Seq<char>| acc + " "@ + f,
        ),
{
    let ghost fs = fields@.map_values(|f: &str| f@);
    let ghost start = s@;
    let mut i: usize = 0;
    while i < fields.len()
        invariant
            i <= fields@.len(),
            fs == fields@.map_values(|f: &str| f@),
            s@ == start + fs.subrange(0, i as int).fold_left(
                Seq::<char>::empty(),
                |acc: Seq<char>, f: Seq<char>| acc + " "@ + f,
            ),
        decreases fields@.len() - i,
    {
        let ghost prev = s@;
        push_text(s, " ");
        push_text(s, fields[i]);
        proof {
            let f = |acc: Seq<char>, f: Seq<char>| acc + " "@ + f;
            let sub = fs.subrange(0, i + 1);
            assert(sub.drop_last() =~= fs.subrange(0, i as int));
            assert(sub.last() == fields@[i as int]@);
            sub.lemma_fold_left_split(Seq::<char>::empty(), f, i as int);
            assert(sub.subrange(0, i as int) =~= fs.subrange(0, i as int));
            assert(sub.subrange(i as int, i + 1) =~= seq![fields@[i as int]@]);
            reveal_with_fuel(Seq::fold_left, 2);
            assert(seq![fields@[i as int]@].fold_left(sub.subrange(0, i as int).fold_left(Seq::<char>::empty(), f), f)
                == f(sub.subrange(0, i as int).fold_left(Seq::<char>::empty(), f), fields@[i as int]@));
            assert(s@ =~= start + sub.fold_left(Seq::<char>::empty(), f));
        }
        i = i + 1;
    }
    proof {
        assert(fs.subrange(0, i as int) =~= fs);
    }
}

/// Appends the record's line: the kind word, the transaction number and the fields.
fn push_line(s: &mut String, word: &str, txn_id: u64, fields: Vec<&str>)
    ensures
        final(s)@ == old(s)@ + fields_line(word@, txn_id, fields@.map_values(|f: &str| f@)),
{
    push_text(s, word);
    push_text(s, " ");
    push_decimal(s, txn_id);
    push_fields(s, &fields);
    push_text(s, "\n");
    proof {
        assert(s@ =~= old(s)@ + fields_line(word@, txn_id, fields@.map_values(|f: &str| f@)));
    }
}

/// The record's line in the log.
pub fn log_line(record: &LogRecord) -> (line: String)
    ensures
        line@ == record_line(*record),
{
    let mut s = String::new();
    match record {
        LogRecord::Begin(id) => {
            let fields: Vec<&str> = Vec::new();
            push_line(&mut s, "BEGIN", *id, fields);
            proof {
                assert(fields@.map_values(|f: &str| f@) =~= seq![]);
            }
        },
        LogRecord::Commit(id) => {
            let fields: Vec<&str> = Vec::new();
            push_line(&mut s, "COMMIT", *id, fields);
            proof {
                assert(fields@.map_values(|f: &str| f@) =~= seq![]);
            }
        },
        LogRecord::Abort(id) => {
            let fields: Vec<&str> = Vec::new();
            push_line(&mut s, "ABORT", *id, fields);
            proof {
                assert(fields@.map_values(|f: &str| f@) =~= seq![]);
            }
        },
        LogRecord::Insert { txn_id, table, key, value } => {
            let fields: Vec<&str> = vec![table.as_str(), key.as_str(), value.as_str()];
            proof {
                assert(fields@.map_values(|f: &str| f@) =~= seq![table@, key@, value@]);
            }
            push_line(&mut s, "INSERT", *txn_id, fields);
        },
        LogRecord::Update { txn_id, table, key, old_value, new_value } => {
            let fields: Vec<&str> = vec![table.as_str(), key.as_str(), old_value.as_str(), new_value.as_str()];
            proof {
                assert(fields@.map_values(|f: &str| f@) =~= seq![table@, key@, old_value@, new_value@]);
            }
            push_line(&mut s, "UPDATE", *txn_id, fields);
        },
        LogRecord::Delete { txn_id, table, key, old_value } => {
            let fields: Vec<&str> = vec![table.as_str(), key.as_str(), old_value.as_str()];
            proof {
                assert(fields@.map_values(|f: &str| f@) =~= seq![table@, key@, old_value@]);
            }
            push_line(&mut s, "DELETE", *txn_id, fields);
        },
    }
    proof {
        assert(s@ =~= record_line(*record));
    }
    s
}

/// The log: the file it goes to, and the lines logged and not yet written there.
pub struct Wal {
    path: String,
    pending: Vec<String>,
}

impl Wal {
    /// The file the log goes to.
    pub closed spec fn log_path(&self) -> Seq<char> {
        self.path@
    }

    /// The lines logged and not yet handed out to be written, oldest first.
    pub closed spec fn lines(&self) -> Seq<Seq<char>> {
        self.pending@.map_values(|l: String| l@)
    }

    /// A log that goes to the file at `path`, with nothing logged yet.
    pub fn new(path: &str) -> (w: Self)
        ensures
            w.log_path() == path@,
            w.lines() == Seq::<Seq<char>>::empty(),
    {
        let w = Wal { path: String::from_str(path), pending: Vec::new() };
        proof {
            assert(w.lines() =~= Seq::<Seq<char>>::empty());
        }
        w
    }

    /// Logs the record: its line is added after the others.
    pub fn log(&mut self, record: LogRecord)
        ensures
            final(self).log_path() == old(self).log_path(),
            final(self).lines() == old(self).lines().push(record_line(record)),
    {
        let line = log_line(&record);
        self.pending.push(line);
        proof {
            assert(self.lines() =~= old(self).lines().push(record_line(record)));
        }
    }

    /// The file the log goes to.
    pub fn path(&self) -> (p: &str)
        ensures
            p@ == self.log_path(),
    {
        self.path.as_str()
    }

    /// Hands out the lines logged so far, oldest first, to be written to the file.
    pub fn take_lines(&mut self) -> (lines: Vec<String>)
        ensures
            lines@.map_values(|l: String| l@) == old(self).lines(),
            final(self).lines() == Seq::<Seq<char>>::empty(),
            final(self).log_path() == old(self).log_path(),
    {
        let mut out: Vec<String> = Vec::new();
        std::mem::swap(&mut out, &mut self.pending);
        proof {
            assert(self.lines() =~= Seq::<Seq<char>>::empty());
        }
        out
    }
}

/// A log line: it starts with its kind word, a space and the transaction's number, ends
/// with a line break, and each further field is written after a single space, in order:
/// adding a field puts it, after a space, just before the line break.
pub proof fn law_log_line(word: Seq<char>, txn_id: u64, fields: Seq<Seq<char>>, f: Seq<char>)
    ensures
        fields_line(word, txn_id, fields).subrange(0, (word.len() + 1 + decimal(txn_id as nat).len()) as int) == word + " "@ + decimal(
            txn_id as nat,
        ),
        fields_line(word, txn_id, fields).last() == '\n',
        fields_line(word, txn_id, fields.push(f)) == fields_line(word, txn_id, fields).drop_last() + " "@ + f + "\n"@,
        fields_line(word, txn_id, seq![]) == word + " "@ + decimal(txn_id as nat) + "\n"@,
{
    reveal_strlit(" ");
    reveal_strlit("\n");
    let g = |acc: Seq<char>, x: Seq<char>| acc + " "@ + x;
    let head = word + " "@ + decimal(txn_id as nat);
    let body = fields.fold_left(Seq::<char>::empty(), g);
    assert(fields.push(f).drop_last() =~= fields);
    assert(fields.push(f).fold_left(Seq::<char>::empty(), g) == g(body, f));
    let line = fields_line(word, txn_id, fields);
    assert(line == head + body + "\n"@);
    assert(line.subrange(0, head.len() as int) =~= head);
    assert(line.drop_last() =~= head + body);
    assert(fields_line(word, txn_id, fields.push(f)) =~= line.drop_last() + " "@ + f + "\n"@);
    assert(Seq::<Seq<char>>::empty().fold_left(Seq::<char>::empty(), g) == Seq::<char>::empty());
    assert(fields_line(word, txn_id, seq![]) =~= head + "\n"@);
}

} // verus!
