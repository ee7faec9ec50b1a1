//! Query results drawn as text tables.

use vstd::prelude::*;
use vstd::utf8::encode_utf8;
use crate::row::Row;
use crate::text::push_char;
use crate::wal::{decimal, push_decimal};
use crate::text::{is_ascii_digit, is_ascii_letter, push_text};

verus! {

/// Length of the text in bytes, as `str::len` reports it (the length of its UTF-8
/// encoding, as a `usize`).
pub open spec fn byte_len(s: Seq<char>) -> nat {
    (encode_utf8(s).len() as usize) as nat
}

/// `n` spaces.
pub open spec fn spaces(n: nat) -> Seq<char> {
    Seq::new(n, |i: int| ' ')
}

/// `n` dashes.
pub open spec fn dashes(n: nat) -> Seq<char> {
    Seq::new(n, |i: int| '-')
}

/// The text filled with spaces on the right up to `w` characters, as `{:w$}` writes it.
pub open spec fn padded(s: Seq<char>, w: nat) -> Seq<char> {
    if s.len() < w {
        s + spaces((w - s.len()) as nat)
    } else {
        s
    }
}

/// The text filled with spaces on the left up to `w` characters, as `{:>w$}` writes it.
pub open spec fn padded_left(s: Seq<char>, w: nat) -> Seq<char> {
    if s.len() < w {
        spaces((w - s.len()) as nat) + s
    } else {
        s
    }
}

/// Digits with at most one decimal point among them, and at least one digit.
pub open spec fn unsigned_number(t: Seq<char>) -> bool {
    &&& forall|i: int| 0 <= i < t.len() ==> is_ascii_digit(#[trigger] t[i]) || t[i] == '.'
    &&& exists|i: int| 0 <= i < t.len() && is_ascii_digit(#[trigger] t[i])
    &&& forall|i: int, j: int| 0 <= i < j < t.len() && #[trigger] t[i] == '.' ==> #[trigger] t[j] != '.'
}

/// A number as the table shows it: an unsigned number, with a minus sign or not.
pub open spec fn numeric(s: Seq<char>) -> bool {
    if s.len() > 0 && s[0] == '-' {
        unsigned_number(s.drop_first())
    } else {
        unsigned_number(s)
    }
}

/// A value in its cell: numbers to the right, other text to the left, where `data` holds
/// (a row of a result table); every text to the left otherwise (a header line, and both
/// lines of aggregate results).
pub open spec fn aligned(s: Seq<char>, w: nat, data: bool) -> Seq<char> {
    if data && numeric(s) {
        padded_left(s, w)
    } else {
        padded(s, w)
    }
}

/// The parts with `sep` between each two of them.
pub open spec fn joined(parts: Seq<Seq<char>>, sep: Seq<char>) -> Seq<char>
    decreases parts.len(),
{
    if parts.len() == 0 {
        seq![]
    } else if parts.len() == 1 {
        parts[0]
    } else {
        joined(parts.drop_last(), sep) + sep + parts.last()
    }
}

/// The cells of a line: each text aligned in its column's width, with a space on either
/// side.
pub open spec fn cells(texts: Seq<Seq<char>>, widths: Seq<nat>, data: bool) -> Seq<Seq<char>> {
    Seq::new(texts.len(), |i: int| " "@ + aligned(texts[i], widths[i], data) + " "@)
}

/// A line of the table: the cells between bars.
pub open spec fn framed(texts: Seq<Seq<char>>, widths: Seq<nat>, data: bool) -> Seq<char> {
    "|"@ + joined(cells(texts, widths, data), "|"@) + "|"@
}

/// A border line: for each column, dashes two longer than its width, between pluses.
pub open spec fn border(widths: Seq<nat>) -> Seq<char> {
    "+"@ + joined(Seq::new(widths.len(), |i: int| dashes(widths[i] + 2)), "+"@) + "+"@
}

/// Width of a value in a column: its length in bytes, or 0 where the row lacks the column.
pub open spec fn cell_width(row: Map<Seq<char>, Seq<char>>, col: Seq<char>) -> nat {
    if row.dom().contains(col) {
        byte_len(row[col])
    } else {
        0
    }
}

pub open spec fn max_nat(a: nat, b: nat) -> nat {
    if a < b {
        b
    } else {
        a
    }
}

/// The widest value of the column among the rows.
pub open spec fn widest_cell(rows: Seq<Map<Seq<char>, Seq<char>>>, col: Seq<char>) -> nat
    decreases rows.len(),
{
    if rows.len() == 0 {
        0
    } else {
        max_nat(widest_cell(rows.drop_last(), col), cell_width(rows.last(), col))
    }
}

/// Width of a column: its name's length or its widest value, whichever is more.
pub open spec fn column_width(rows: Seq<Map<Seq<char>, Seq<char>>>, col: Seq<char>) -> nat {
    max_nat(byte_len(col), widest_cell(rows, col))
}

pub open spec fn column_widths(rows: Seq<Map<Seq<char>, Seq<char>>>, cols: Seq<Seq<char>>) -> Seq<nat> {
    Seq::new(cols.len(), |i: int| column_width(rows, cols[i]))
}

/// The row's values under the columns, the empty text where it lacks one.
pub open spec fn row_texts(row: Map<Seq<char>, Seq<char>>, cols: Seq<Seq<char>>) -> Seq<Seq<char>> {
    Seq::new(
        cols.len(),
        |i: int|
            if row.dom().contains(cols[i]) {
                row[cols[i]]
            } else {
                seq![]
            },
    )
}

/// One framed line per row, each followed by a line break.
pub open spec fn body(rows: Seq<Map<Seq<char>, Seq<char>>>, cols: Seq<Seq<char>>, widths: Seq<nat>) -> Seq<char>
    decreases rows.len(),
{
    if rows.len() == 0 {
        seq![]
    } else {
        body(rows.drop_last(), cols, widths) + framed(row_texts(rows.last(), cols), widths, true)
            + "\n"@
    }
}

/// The line under a result with rows: "N rows returned.".
pub open spec fn count_line(n: nat) -> Seq<char> {
    decimal(n) + " rows returned."@
}

/// The text of a result with rows: border, header, border, one line per row, border, and
/// the number of rows.
pub open spec fn rows_table(cols: Seq<Seq<char>>, rows: Seq<Map<Seq<char>, Seq<char>>>) -> Seq<char> {
    let ws = column_widths(rows, cols);
    border(ws) + "\n"@ + framed(cols, ws, false) + "\n"@ + border(ws) + "\n"@ + body(rows, cols, ws)
        + border(ws) + "\n"@ + count_line(rows.len())
}

/// The text of aggregate results: border, the labels, border, the values, border; every
/// cell filled on the right.
pub open spec fn aggregates_table(labels: Seq<Seq<char>>, values: Seq<Seq<char>>) -> Seq<char> {
    let ws = Seq::new(labels.len(), |i: int| max_nat(byte_len(labels[i]), byte_len(values[i])));
    border(ws) + "\n"@ + framed(labels, ws, false) + "\n"@ + border(ws) + "\n"@ + framed(values, ws, false)
        + "\n"@
        + border(ws)
}

pub open spec fn row_views(rows: Seq<Row>) -> Seq<Map<Seq<char>, Seq<char>>> {
    rows.map_values(|r: Row| r@)
}

pub open spec fn texts_of(v: Seq<String>) -> Seq<Seq<char>> {
    v.map_values(|s: String| s@)
}

pub open spec fn nats_of(v: Seq<usize>) -> Seq<nat> {
    v.map_values(|w: usize| w as nat)
}

/// Whether the text is a number that a data cell shows to the right.
pub fn is_numeric(s: &str) -> (b: bool)
    ensures
        b == numeric(s@),
{
    let n = s.unicode_len();
    let st: usize = if n > 0 && s.get_char(0) == '-' {
        1
    } else {
        0
    };
    let ghost t = if st == 1 {
        s@.drop_first()
    } else {
        s@
    };
    assert(t =~= s@.subrange(st as int, n as int));
    assert(numeric(s@) == unsigned_number(t));
    let mut i: usize = st;
    let mut digit_seen = false;
    let mut dot_seen = false;
    while i < n
        invariant
            n == s@.len(),
            st <= i <= n,
            st <= 1,
            t == s@.subrange(st as int, n as int),
            numeric(s@) == unsigned_number(t),
            forall|k: int| st <= k < i ==> is_ascii_digit(#[trigger] s@[k]) || s@[k] == '.',
            digit_seen <==> exists|k: int| st <= k < i && is_ascii_digit(#[trigger] s@[k]),
            dot_seen <==> exists|k: int| st <= k < i && #[trigger] s@[k] == '.',
            forall|a: int, b: int| st <= a < b < i && #[trigger] s@[a] == '.' ==> #[trigger] s@[b] != '.',
        decreases n - i,
    {
        let c = s.get_char(i);
        if '0' <= c && c <= '9' {
            digit_seen = true;
        } else if c == '.' {
            if dot_seen {
                proof {
                    let k = choose|k: int| st <= k < i && #[trigger] s@[k] == '.';
                    assert(t[k - st] == '.' && t[i - st] == '.');
                }
                return false;
            }
            dot_seen = true;
        } else {
            proof {
                assert(t[i - st] == s@[i as int]);
                assert(!(is_ascii_digit(t[i - st]) || t[i - st] == '.'));
            }
            return false;
        }
        i = i + 1;
    }
    proof {
        if digit_seen {
            let k = choose|k: int| st <= k < i && is_ascii_digit(#[trigger] s@[k]);
            assert(is_ascii_digit(t[k - st]));
        } else {
            assert forall|k: int| 0 <= k < t.len() implies !is_ascii_digit(#[trigger] t[k]) by {
                assert(t[k] == s@[k + st]);
            }
        }
        assert forall|k: int| 0 <= k < t.len() implies is_ascii_digit(#[trigger] t[k]) || t[k] == '.' by {
            assert(t[k] == s@[k + st]);
        }
        assert forall|a: int, b: int| 0 <= a < b < t.len() && #[trigger] t[a] == '.' implies #[trigger] t[b] != '.' by {
            assert(t[a] == s@[a + st]);
            assert(t[b] == s@[b + st]);
        }
    }
    digit_seen
}

/// Appends the text and spaces up to `w` characters: the spaces after the text, or before
/// it where `right` holds.
fn push_padded(out: &mut String, s: &str, w: usize, right: bool)
    ensures
        final(out)@ == old(out)@ + if right {
            padded_left(s@, w as nat)
        } else {
            padded(s@, w as nat)
        },
{
    if !right {
        push_text(out, s);
    }
    let mut count = s.unicode_len();
    let ghost base = out@;
    while count < w
        invariant
            s@.len() <= count <= w || (count == s@.len() && count >= w),
            count >= s@.len(),
            out@ == base + spaces((count - s@.len()) as nat),
        decreases w - count,
    {
        push_char(out, ' ');
        proof {
            assert(spaces((count + 1 - s@.len()) as nat) =~= spaces((count - s@.len()) as nat).push(' '));
        }
        count = count + 1;
    }
    if right {
        push_text(out, s);
    }
    proof {
        if s@.len() < w {
            assert(count == w);
        } else {
            assert(count == s@.len());
            assert(spaces(0) =~= Seq::<char>::empty());
        }
        if right {
            assert(out@ =~= old(out)@ + padded_left(s@, w as nat));
        } else {
            assert(out@ =~= old(out)@ + padded(s@, w as nat));
        }
    }
}

proof fn lemma_joined_push(parts: Seq<Seq<char>>, sep: Seq<char>, p: Seq<char>)
    ensures
        joined(parts.push(p), sep) == if parts.len() == 0 {
            p
        } else {
            joined(parts, sep) + sep + p
        },
{
    assert(parts.push(p).drop_last() =~= parts);
}

/// Appends a framed line of the texts at the widths.
fn push_framed(out: &mut String, texts: &Vec<&str>, widths: &Vec<usize>, data: bool)
    requires
        texts@.len() == widths@.len(),
    ensures
        final(out)@ == old(out)@ + framed(texts@.map_values(|t: &str| t@), nats_of(widths@), data),
{
    let ghost ts = texts@.map_values(|t: &str| t@);
    let ghost ws = nats_of(widths@);
    let ghost cs = cells(ts, ws, data);
    push_text(out, "|");
    let ghost base = out@;
    let mut i: usize = 0;
    while i < texts.len()
        invariant
            texts@.len() == widths@.len(),
            ts == texts@.map_values(|t: &str| t@),
            ws == nats_of(widths@),
            cs == cells(ts, ws, data),
            i <= texts@.len(),
            out@ == base + joined(cs.subrange(0, i as int), "|"@),
        decreases texts@.len() - i,
    {
        let ghost prev = out@;
        if i > 0 {
            push_text(out, "|");
        }
        push_text(out, " ");
        let right = data && is_numeric(texts[i]);
        push_padded(out, texts[i], widths[i], right);
        push_text(out, " ");
        proof {
            assert(cs.subrange(0, i + 1) =~= cs.subrange(0, i as int).push(cs[i as int]));
            lemma_joined_push(cs.subrange(0, i as int), "|"@, cs[i as int]);
            assert(cs[i as int] == " "@ + aligned(texts@[i as int]@, widths@[i as int] as nat, data) + " "@);
            assert(out@ =~= base + joined(cs.subrange(0, i + 1), "|"@));
        }
        i = i + 1;
    }
    push_text(out, "|");
    proof {
        assert(cs.subrange(0, i as int) =~= cs);
        assert(out@ =~= old(out)@ + framed(ts, ws, data));
    }
}

/// Appends a border line for the widths.
fn push_border(out: &mut String, widths: &Vec<usize>)
    ensures
        final(out)@ == old(out)@ + border(nats_of(widths@)),
{
    let ghost ws = nats_of(widths@);
    let ghost ds = Seq::new(ws.len(), |i: int| dashes(ws[i] + 2));
    push_text(out, "+");
    let ghost base = out@;
    let mut i: usize = 0;
    while i < widths.len()
        invariant
            ws == nats_of(widths@),
            ds == Seq::new(ws.len(), |i: int| dashes(ws[i] + 2)),
            i <= widths@.len(),
            out@ == base + joined(ds.subrange(0, i as int), "+"@),
        decreases widths@.len() - i,
    {
        let ghost prev = out@;
        if i > 0 {
            push_text(out, "+");
        }
        let ghost before_dashes = out@;
        push_text(out, "--");
        proof {
            reveal_strlit("--");
            assert(dashes(2) =~= "--"@);
        }
        let mut k: usize = 0;
        while k < widths[i]
            invariant
                i < widths@.len(),
                k <= widths@[i as int],
                out@ == before_dashes + dashes((k + 2) as nat),
            decreases widths@[i as int] - k,
        {
            push_char(out, '-');
            proof {
                assert(dashes((k + 3) as nat) =~= dashes((k + 2) as nat).push('-'));
            }
            k = k + 1;
        }
        proof {
            assert(ds[i as int] == dashes((widths@[i as int] + 2) as nat));
            assert(ds.subrange(0, i + 1) =~= ds.subrange(0, i as int).push(ds[i as int]));
            lemma_joined_push(ds.subrange(0, i as int), "+"@, ds[i as int]);
            assert(out@ =~= base + joined(ds.subrange(0, i + 1), "+"@));
        }
        i = i + 1;
    }
    push_text(out, "+");
    proof {
        assert(ds.subrange(0, i as int) =~= ds);
        assert(out@ =~= old(out)@ + border(ws));
    }
}

/// The widths of the columns over the rows.
fn widths_over(cols: &Vec<String>, rows: &Vec<Row>) -> (ws: Vec<usize>)
    ensures
        nats_of(ws@) == column_widths(row_views(rows@), texts_of(cols@)),
{
    let ghost rv = row_views(rows@);
    let mut ws: Vec<usize> = Vec::new();
    let mut c: usize = 0;
    while c < cols.len()
        invariant
            rv == row_views(rows@),
            c <= cols@.len(),
            ws@.len() == c,
            forall|j: int| 0 <= j < c ==> (#[trigger] ws@[j]) as nat == column_width(rv, cols@[j]@),
        decreases cols@.len() - c,
    {
        let col = cols[c].as_str();
        let mut w = col.len();
        let mut widest: usize = 0;
        let mut r: usize = 0;
        while r < rows.len()
            invariant
                rv == row_views(rows@),
                c < cols@.len(),
                col@ == cols@[c as int]@,
                r <= rows@.len(),
                widest as nat == widest_cell(rv.subrange(0, r as int), col@),
            decreases rows@.len() - r,
        {
            let cw = match rows[r].get(col) {
                Some(v) => v.as_str().len(),
                None => 0,
            };
            proof {
                let sub = rv.subrange(0, r + 1);
                assert(sub.drop_last() =~= rv.subrange(0, r as int));
                assert(sub.last() == rows@[r as int]@);
                assert(cw as nat == cell_width(rows@[r as int]@, col@));
            }
            if cw > widest {
                widest = cw;
            }
            r = r + 1;
        }
        proof {
            assert(rv.subrange(0, r as int) =~= rv);
        }
        if widest > w {
            w = widest;
        }
        ws.push(w);
        c = c + 1;
    }
    proof {
        assert(nats_of(ws@) =~= column_widths(rv, texts_of(cols@)));
    }
    ws
}

/// The row's values under the columns, the empty text where it lacks one.
fn texts_in_row<'a>(row: &'a Row, cols: &'a Vec<String>) -> (t: Vec<&'a str>)
    ensures
        t@.map_values(|x: &str| x@) == row_texts(row@, texts_of(cols@)),
{
    let mut t: Vec<&str> = Vec::new();
    let mut i: usize = 0;
    while i < cols.len()
        invariant
            i <= cols@.len(),
            t@.len() == i,
            forall|j: int|
                0 <= j < i ==> (#[trigger] t@[j])@ == row_texts(row@, texts_of(cols@))[j],
        decreases cols@.len() - i,
    {
        match row.get(cols[i].as_str()) {
            Some(v) => t.push(v.as_str()),
            None => t.push(""),
        }
        proof {
            reveal_strlit("");
        }
        i = i + 1;
    }
    proof {
        assert(t@.map_values(|x: &str| x@) =~= row_texts(row@, texts_of(cols@)));
    }
    t
}

fn strs_of<'a>(v: &'a Vec<String>) -> (t: Vec<&'a str>)
    ensures
        t@.map_values(|x: &str| x@) == texts_of(v@),
{
    let mut t: Vec<&str> = Vec::new();
    let mut i: usize = 0;
    while i < v.len()
        invariant
            i <= v@.len(),
            t@.len() == i,
            forall|j: int| 0 <= j < i ==> (#[trigger] t@[j])@ == v@[j]@,
        decreases v@.len() - i,
    {
        t.push(v[i].as_str());
        i = i + 1;
    }
    proof {
        assert(t@.map_values(|x: &str| x@) =~= texts_of(v@));
    }
    t
}

/// Draws the rows as a table of the columns, with the number of rows below it.
pub fn draw_rows(cols: &Vec<String>, rows: &Vec<Row>) -> (s: String)
    ensures
        s@ == rows_table(texts_of(cols@), row_views(rows@)),
{
    let ghost cv = texts_of(cols@);
    let ghost rv = row_views(rows@);
    let ws = widths_over(cols, rows);
    let mut out = String::new();
    push_border(&mut out, &ws);
    push_text(&mut out, "\n");
    let names = strs_of(cols);
    push_framed(&mut out, &names, &ws, false);
    push_text(&mut out, "\n");
    push_border(&mut out, &ws);
    push_text(&mut out, "\n");
    let ghost before_body = out@;
    let mut r: usize = 0;
    while r < rows.len()
        invariant
            cv == texts_of(cols@),
            rv == row_views(rows@),
            nats_of(ws@) == column_widths(rv, cv),
            ws@.len() == cols@.len(),
            r <= rows@.len(),
            out@ == before_body + body(rv.subrange(0, r as int), cv, nats_of(ws@)),
        decreases rows@.len() - r,
    {
        let line = texts_in_row(&rows[r], cols);
        assert(line@.map_values(|x: &str| x@).len() == line@.len());
        push_framed(&mut out, &line, &ws, true);
        push_text(&mut out, "\n");
        proof {
            let sub = rv.subrange(0, r + 1);
            assert(sub.drop_last() =~= rv.subrange(0, r as int));
            assert(sub.last() == rows@[r as int]@);
            assert(out@ =~= before_body + body(sub, cv, nats_of(ws@)));
        }
        r = r + 1;
    }
    push_border(&mut out, &ws);
    push_text(&mut out, "\n");
    push_decimal(&mut out, rows.len() as u64);
    push_text(&mut out, " rows returned.");
    proof {
        assert(rv.subrange(0, r as int) =~= rv);
        assert(out@ =~= rows_table(cv, rv));
    }
    out
}

/// Draws aggregate results: one column per (label, value) pair.
pub fn draw_aggregates(results: &Vec<(String, String)>) -> (s: String)
    ensures
        s@ == aggregates_table(
            results@.map_values(|p: (String, String)| p.0@),
            results@.map_values(|p: (String, String)| p.1@),
        ),
{
    let ghost ls = results@.map_values(|p: (String, String)| p.0@);
    let ghost vs = results@.map_values(|p: (String, String)| p.1@);
    let mut ws: Vec<usize> = Vec::new();
    let mut labels: Vec<&str> = Vec::new();
    let mut values: Vec<&str> = Vec::new();
    let mut i: usize = 0;
    while i < results.len()
        invariant
            i <= results@.len(),
            ws@.len() == i,
            labels@.len() == i,
            values@.len() == i,
            forall|j: int|
                0 <= j < i ==> (#[trigger] ws@[j]) as nat == max_nat(
                    byte_len(results@[j].0@),
                    byte_len(results@[j].1@),
                ),
            forall|j: int| 0 <= j < i ==> (#[trigger] labels@[j])@ == results@[j].0@,
            forall|j: int| 0 <= j < i ==> (#[trigger] values@[j])@ == results@[j].1@,
        decreases results@.len() - i,
    {
        let a = results[i].0.as_str().len();
        let b = results[i].1.as_str().len();
        ws.push(if a < b { b } else { a });
        labels.push(results[i].0.as_str());
        values.push(results[i].1.as_str());
        i = i + 1;
    }
    let mut out = String::new();
    push_border(&mut out, &ws);
    push_text(&mut out, "\n");
    push_framed(&mut out, &labels, &ws, false);
    push_text(&mut out, "\n");
    push_border(&mut out, &ws);
    push_text(&mut out, "\n");
    push_framed(&mut out, &values, &ws, false);
    push_text(&mut out, "\n");
    push_border(&mut out, &ws);
    proof {
        let wsv = Seq::new(ls.len(), |j: int| max_nat(byte_len(ls[j]), byte_len(vs[j])));
        assert(nats_of(ws@) =~= wsv);
        assert forall|j: int| 0 <= j < ls.len() implies labels@.map_values(|t: &str| t@)[j] == ls[j]
            && values@.map_values(|t: &str| t@)[j] == vs[j] by {
            assert(labels@[j]@ == results@[j].0@);
            assert(values@[j]@ == results@[j].1@);
        }
        assert(labels@.map_values(|t: &str| t@) =~= ls);
        assert(values@.map_values(|t: &str| t@) =~= vs);
        assert(out@ =~= aggregates_table(ls, vs));
    }
    out
}

/// Filling a cell: on the right, the text comes first and spaces follow up to the width; on
/// the left, the spaces come first and the text ends the cell; either way the cell is as
/// wide as the width, or as the text where that is wider.
pub proof fn law_padding(s: Seq<char>, w: nat)
    ensures
        padded(s, w).len() == if s.len() < w { w } else { s.len() },
        padded_left(s, w).len() == if s.len() < w { w } else { s.len() },
        padded(s, w).subrange(0, s.len() as int) == s,
        padded_left(s, w).subrange(padded_left(s, w).len() - s.len(), padded_left(s, w).len() as int) == s,
        forall|k: int| s.len() <= k < padded(s, w).len() ==> #[trigger] padded(s, w)[k] == ' ',
        forall|k: int| 0 <= k < padded_left(s, w).len() - s.len() ==> #[trigger] padded_left(s, w)[k] == ' ',
{
    if s.len() < w {
        assert(padded(s, w).subrange(0, s.len() as int) =~= s);
        let p = padded_left(s, w);
        assert(p.subrange(p.len() - s.len(), p.len() as int) =~= s);
    } else {
        assert(s.subrange(0, s.len() as int) =~= s);
        let p = padded_left(s, w);
        assert(p.subrange(p.len() - s.len(), p.len() as int) =~= s);
    }
}

/// Which values count as numbers: one or more digits with at most one `.` among them, with
/// or without a leading `-`. A text holding a letter, or an empty one, is none; a text of
/// digits alone is one.
pub proof fn law_numeric(s: Seq<char>)
    ensures
        s.len() == 0 ==> !numeric(s),
        (exists|k: int| 0 <= k < s.len() && is_ascii_letter(#[trigger] s[k])) ==> !numeric(s),
        s.len() > 0 && (forall|k: int| 0 <= k < s.len() ==> is_ascii_digit(#[trigger] s[k])) ==> numeric(s),
        numeric(s) ==> exists|k: int| 0 <= k < s.len() && is_ascii_digit(#[trigger] s[k]),
{
    if exists|k: int| 0 <= k < s.len() && is_ascii_letter(#[trigger] s[k]) {
        let k = choose|k: int| 0 <= k < s.len() && is_ascii_letter(#[trigger] s[k]);
        if s.len() > 0 && s[0] == '-' {
            assert(k > 0);
            assert(s.drop_first()[k - 1] == s[k]);
        }
    }
    if s.len() > 0 && (forall|k: int| 0 <= k < s.len() ==> is_ascii_digit(#[trigger] s[k])) {
        assert(is_ascii_digit(s[0]));
        assert(s[0] != '-');
    }
    if numeric(s) {
        if s.len() > 0 && s[0] == '-' {
            let t = s.drop_first();
            let k = choose|k: int| 0 <= k < t.len() && is_ascii_digit(#[trigger] t[k]);
            assert(s[k + 1] == t[k]);
        }
    }
}

/// In a row of a result table a number fills its cell from the left with spaces and other
/// text from the right; in a header line, or a line of aggregate results, every text
/// fills from the right.
pub proof fn law_alignment(s: Seq<char>, w: nat)
    ensures
        numeric(s) ==> aligned(s, w, true) == padded_left(s, w),
        !numeric(s) ==> aligned(s, w, true) == padded(s, w),
        aligned(s, w, false) == padded(s, w),
{
}

/// A column is as wide as its name or its widest value, whichever is more: no narrower than
/// either, and as wide as one of them.
pub proof fn law_column_width(rows: Seq<Map<Seq<char>, Seq<char>>>, col: Seq<char>)
    ensures
        column_width(rows, col) >= byte_len(col),
        forall|j: int| 0 <= j < rows.len() && (#[trigger] rows[j]).dom().contains(col) ==> column_width(rows, col) >= byte_len(rows[j][col]),
        column_width(rows, col) == byte_len(col) || exists|j: int|
            0 <= j < rows.len() && (#[trigger] rows[j]).dom().contains(col) && column_width(rows, col) == byte_len(rows[j][col]),
{
    lemma_widest_cell(rows, col);
}

proof fn lemma_widest_cell(rows: Seq<Map<Seq<char>, Seq<char>>>, col: Seq<char>)
    ensures
        forall|j: int| 0 <= j < rows.len() && (#[trigger] rows[j]).dom().contains(col) ==> widest_cell(rows, col) >= byte_len(rows[j][col]),
        widest_cell(rows, col) == 0 || exists|j: int|
            0 <= j < rows.len() && (#[trigger] rows[j]).dom().contains(col) && widest_cell(rows, col) == byte_len(rows[j][col]),
    decreases rows.len(),
{
    if rows.len() > 0 {
        let d = rows.drop_last();
        let n = rows.len() - 1;
        lemma_widest_cell(d, col);
        assert(rows.last() == rows[n]);
        assert forall|j: int| 0 <= j < rows.len() && (#[trigger] rows[j]).dom().contains(col) implies widest_cell(rows, col)
            >= byte_len(rows[j][col]) by {
            if j < n {
                assert(d[j] == rows[j]);
            }
        }
        if widest_cell(rows, col) != 0 {
            if widest_cell(rows, col) == widest_cell(d, col) && widest_cell(d, col) != 0 {
                let j = choose|j: int| 0 <= j < d.len() && (#[trigger] d[j]).dom().contains(col) && widest_cell(d, col) == byte_len(d[j][col]);
                assert(rows[j] == d[j]);
            }
        }
    }
}

proof fn lemma_joined_same_lengths(a: Seq<Seq<char>>, b: Seq<Seq<char>>, sa: Seq<char>, sb: Seq<char>)
    requires
        a.len() == b.len(),
        sa.len() == sb.len(),
        forall|i: int| 0 <= i < a.len() ==> (#[trigger] a[i]).len() == b[i].len(),
    ensures
        joined(a, sa).len() == joined(b, sb).len(),
    decreases a.len(),
{
    if a.len() > 1 {
        let da = a.drop_last();
        let db = b.drop_last();
        assert forall|i: int| 0 <= i < da.len() implies (#[trigger] da[i]).len() == db[i].len() by {
            assert(da[i] == a[i] && db[i] == b[i]);
        }
        lemma_joined_same_lengths(da, db, sa, sb);
        assert(a.last() == a[a.len() - 1] && b.last() == b[b.len() - 1]);
    } else if a.len() == 1 {
        assert(a[0].len() == b[0].len());
    }
}

/// The lines of a table line up: a line of cells whose texts fit their columns' widths is
/// exactly as long as the border line drawn for those widths, whatever the alignment.
pub proof fn law_lines_line_up(texts: Seq<Seq<char>>, widths: Seq<nat>, data: bool)
    requires
        texts.len() == widths.len(),
        forall|i: int| 0 <= i < texts.len() ==> (#[trigger] texts[i]).len() <= widths[i],
    ensures
        framed(texts, widths, data).len() == border(widths).len(),
{
    let cs = cells(texts, widths, data);
    let ds = Seq::new(widths.len(), |i: int| dashes(widths[i] + 2));
    assert forall|i: int| 0 <= i < cs.len() implies (#[trigger] cs[i]).len() == ds[i].len() by {
        law_padding(texts[i], widths[i]);
        reveal_strlit(" ");
        assert(" "@.len() == 1);
        assert(cs[i] == " "@ + aligned(texts[i], widths[i], data) + " "@);
        assert(aligned(texts[i], widths[i], data).len() == widths[i]);
        assert(ds[i] == dashes(widths[i] + 2));
    }
    reveal_strlit("|");
    reveal_strlit("+");
    assert("|"@.len() == 1 && "+"@.len() == 1);
    lemma_joined_same_lengths(cs, ds, "|"@, "+"@);
}

} // verus!
