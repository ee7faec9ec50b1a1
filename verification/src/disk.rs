//! Where tables and their schemas are kept on disk: one `.rdb` file for the rows and one JSON
//! file for the column names of each table, under `data/`.

use vstd::prelude::*;
use crate::text::{chars_of, push_char};
use crate::text::push_text;
use crate::render::texts_of;

verus! {

/// File name ending of a schema file.
pub open spec fn schema_suffix() -> Seq<char> {
    ".schema.json"@
}

/// Whether `s` ends with `suffix`.
pub open spec fn ends_with(s: Seq<char>, suffix: Seq<char>) -> bool {
    s.len() >= suffix.len() && s.subrange(s.len() - suffix.len(), s.len() as int) == suffix
}

/// `s` with every occurrence of `pat` taken out, scanning from the left (as `str::replace`
/// with an empty replacement does).
pub open spec fn remove_all(s: Seq<char>, pat: Seq<char>) -> Seq<char>
    decreases s.len(),
{
    if s.len() == 0 {
        s
    } else if pat.len() > 0 && s.len() >= pat.len() && s.subrange(0, pat.len() as int) == pat {
        remove_all(s.skip(pat.len() as int), pat)
    } else {
        seq![s[0]] + remove_all(s.skip(1), pat)
    }
}

/// Whether `pat` occurs in `s` at position `i`.
fn occurs_at(s: &Vec<char>, pat: &Vec<char>, i: usize) -> (b: bool)
    requires
        i <= s@.len(),
    ensures
        b == (i + pat@.len() <= s@.len() && s@.subrange(i as int, i + pat@.len()) == pat@),
{
    if pat.len() > s.len() - i {
        return false;
    }
    let mut j: usize = 0;
    while j < pat.len()
        invariant
            i + pat@.len() <= s.len(),
            j <= pat@.len(),
            forall|k: int| 0 <= k < j ==> s@[i + k] == pat@[k],
        decreases pat@.len() - j,
    {
        if s[i + j] != pat[j] {
            assert(s@.subrange(i as int, i + pat@.len())[j as int] != pat@[j as int]);
            return false;
        }
        j = j + 1;
    }
    assert(s@.subrange(i as int, i + pat@.len()) =~= pat@);
    true
}

/// `s` with every occurrence of `pat` taken out.
pub fn remove_occurrences(s: &str, pat: &str) -> (r: String)
    ensures
        r@ == remove_all(s@, pat@),
{
    let cs = chars_of(s);
    let ps = chars_of(pat);
    let mut out = String::new();
    let mut i: usize = 0;
    assert(cs@.skip(0) =~= cs@);
    assert(out@ + remove_all(cs@, ps@) =~= remove_all(cs@, ps@));
    while i < cs.len()
        invariant
            cs@ == s@,
            ps@ == pat@,
            i <= cs@.len(),
            out@ + remove_all(cs@.skip(i as int), ps@) == remove_all(cs@, ps@),
        decreases cs@.len() - i,
    {
        let ghost rest = cs@.skip(i as int);
        if ps.len() > 0 && occurs_at(&cs, &ps, i) {
            proof {
                assert(rest.subrange(0, ps@.len() as int) =~= cs@.subrange(i as int, i + ps@.len()));
                assert(rest.skip(ps@.len() as int) =~= cs@.skip(i + ps@.len()));
            }
            i = i + ps.len();
        } else {
            let ghost prev = out@;
            push_char(&mut out, cs[i]);
            proof {
                if ps@.len() > 0 && rest.len() >= ps@.len() {
                    assert(rest.subrange(0, ps@.len() as int) =~= cs@.subrange(i as int, i + ps@.len()));
                }
                assert(rest.skip(1) =~= cs@.skip(i + 1));
                assert(rest[0] == cs@[i as int]);
                assert(out@ + remove_all(cs@.skip(i + 1), ps@) =~= prev + remove_all(rest, ps@));
            }
            i = i + 1;
        }
    }
    proof {
        assert(cs@.skip(i as int).len() == 0);
        assert(out@ + remove_all(cs@.skip(i as int), ps@) =~= out@);
    }
    out
}

/// What `serde_json::to_string_pretty` writes for a list of column names (a JSON array of
/// strings, one per line).
pub uninterp spec fn names_json_text(names: Seq<Seq<char>>) -> Seq<char>;

/// What `serde_json::from_str` reads from a text as a list of strings: the strings of a JSON
/// array of strings, or none where the text is not one.
pub uninterp spec fn names_of_json(s: Seq<char>) -> Option<Seq<Seq<char>>>;

/// Calls `serde_json::to_string_pretty` on the names. Writing a list of strings cannot
/// fail, and `serde_json::from_str` reads the text back as the same names.
#[verifier::external_body]
fn schema_json(columns: &Vec<String>) -> (s: String)
    ensures
        s@ == names_json_text(texts_of(columns@)),
        names_of_json(s@) == Some(texts_of(columns@)),
{
    serde_json::to_string_pretty(columns).unwrap()
}

/// Calls `serde_json::from_str` for a list of strings; its error becomes none.
#[verifier::external_body]
fn schema_of_json(text: &str) -> (r: Option<Vec<String>>)
    ensures
        match r {
            Some(v) => names_of_json(text@) == Some(texts_of(v@)),
            None => names_of_json(text@) is None,
        },
{
    serde_json::from_str(text).ok()
}

/// Keeps tables and schemas under `data/`.
pub struct DiskManager;

impl DiskManager {
    pub fn new() -> (d: Self) {
        DiskManager
    }

    /// The file of the table's rows: `data/<table>.rdb`.
    pub fn table_path(table: &str) -> (p: String)
        ensures
            p@ == "data/"@ + table@ + ".rdb"@,
    {
        let mut p = String::new();
        push_text(&mut p, "data/");
        push_text(&mut p, table);
        push_text(&mut p, ".rdb");
        p
    }

    /// The file of the table's column names: `data/<table>.schema.json`.
    pub fn schema_path(table: &str) -> (p: String)
        ensures
            p@ == "data/"@ + table@ + schema_suffix(),
    {
        let mut p = String::new();
        push_text(&mut p, "data/");
        push_text(&mut p, table);
        push_text(&mut p, ".schema.json");
        p
    }

    /// The text of a schema file: the column names as a JSON array, which reads back as
    /// the same names.
    pub fn schema_text(columns: &Vec<String>) -> (s: String)
        ensures
            s@ == names_json_text(texts_of(columns@)),
            names_of_json(s@) == Some(texts_of(columns@)),
    {
        schema_json(columns)
    }

    /// The column names a schema file's text holds; none where it is no JSON array of
    /// strings.
    pub fn schema_columns(text: &str) -> (r: Option<Vec<String>>)
        ensures
            match r {
                Some(v) => names_of_json(text@) == Some(texts_of(v@)),
                None => names_of_json(text@) is None,
            },
    {
        schema_of_json(text)
    }

    /// The table whose schema a file of `data/` holds: for a name ending in `.schema.json`,
    /// the name with every `.schema.json` taken out; for any other name, none.
    pub fn table_of_schema_file(name: &str) -> (r: Option<String>)
        ensures
            r is Some <==> ends_with(name@, schema_suffix()),
            r matches Some(t) ==> t@ == remove_all(name@, schema_suffix()),
    {
        let suffix = ".schema.json";
        proof {
            reveal_strlit(".schema.json");
        }
        let n = name.unicode_len();
        let m = suffix.unicode_len();
        if n < m {
            return None;
        }
        let cs = chars_of(name);
        let ps = chars_of(suffix);
        if occurs_at(&cs, &ps, n - m) {
            Some(remove_occurrences(name, suffix))
        } else {
            None
        }
    }
}


/// The name of a table's schema file gives the table back: for a table name without a `.`,
/// the schema file `<table>.schema.json` ends in `.schema.json`, and taking every
/// `.schema.json` out of it leaves the table name.
pub proof fn law_schema_file_gives_table(t: Seq<char>)
    requires
        forall|i: int| 0 <= i < t.len() ==> t[i] != '.',
    ensures
        ends_with(t + schema_suffix(), schema_suffix()),
        remove_all(t + schema_suffix(), schema_suffix()) == t,
    decreases t.len(),
{
    let p = schema_suffix();
    reveal_strlit(".schema.json");
    let s = t + p;
    assert(s.subrange(s.len() - p.len(), s.len() as int) =~= p);
    if t.len() == 0 {
        assert(s =~= p);
        assert(s.subrange(0, p.len() as int) =~= p);
        assert(s.skip(p.len() as int) =~= Seq::<char>::empty());
        assert(remove_all(s, p) == remove_all(s.skip(p.len() as int), p));
        assert(remove_all(Seq::<char>::empty(), p) == Seq::<char>::empty());
        assert(t =~= Seq::<char>::empty());
    } else {
        let rest = t.skip(1);
        assert forall|i: int| 0 <= i < rest.len() implies rest[i] != '.' by {
            assert(rest[i] == t[i + 1]);
        }
        law_schema_file_gives_table(rest);
        assert(s[0] == t[0]);
        assert(s.subrange(0, p.len() as int)[0] != p[0]);
        assert(s.skip(1) =~= rest + p);
        assert(remove_all(s, p) == seq![s[0]] + remove_all(s.skip(1), p));
        assert(remove_all(s.skip(1), p) == rest);
        assert(seq![t[0]] + rest =~= t);
        assert(remove_all(s, p) == t);
    }
}

} // verus!
