//! The `.rdb` file of a table's rows, in a binary layout of its own.
//!
//! A file is the four bytes `RDB1`, then the number of rows, then each row: its number of
//! (name, value) pairs, then each pair's name and value. A number takes eight bytes, the
//! most significant first; a text is its length in bytes, written as such a number, and
//! then its UTF-8 bytes.

use vstd::prelude::*;
use vstd::utf8::{decode_utf8, encode_utf8, valid_utf8};
use vstd::utf8::{encode_utf8_decode_utf8, encode_utf8_valid_utf8};
use crate::row::{text_pairs_map, Row};

verus! {

/// The bytes `RDB1` that open a file.
pub open spec fn magic() -> Seq<u8> {
    seq![82u8, 68u8, 66u8, 49u8]
}

/// The eight bytes of a number, the most significant first.
pub open spec fn be64(n: u64) -> Seq<u8> {
    seq![
        (n >> 56u64) as u8,
        (n >> 48u64) as u8,
        (n >> 40u64) as u8,
        (n >> 32u64) as u8,
        (n >> 24u64) as u8,
        (n >> 16u64) as u8,
        (n >> 8u64) as u8,
        n as u8,
    ]
}

/// The number that the eight bytes from `i` on stand for, the most significant first.
pub open spec fn u64_at(b: Seq<u8>, i: int) -> u64 {
    ((b[i] as u64) << 56u64) | ((b[i + 1] as u64) << 48u64) | ((b[i + 2] as u64) << 40u64) | ((
    b[i + 3] as u64) << 32u64) | ((b[i + 4] as u64) << 24u64) | ((b[i + 5] as u64) << 16u64) | ((
    b[i + 6] as u64) << 8u64) | (b[i + 7] as u64)
}

/// A text: its length in bytes, then its UTF-8 bytes.
pub open spec fn text_bytes(s: Seq<char>) -> Seq<u8> {
    be64(encode_utf8(s).len() as u64) + encode_utf8(s)
}

/// The (name, value) pairs one after the other.
pub open spec fn pairs_bytes(ps: Seq<(Seq<char>, Seq<char>)>) -> Seq<u8>
    decreases ps.len(),
{
    if ps.len() == 0 {
        seq![]
    } else {
        text_bytes(ps[0].0) + text_bytes(ps[0].1) + pairs_bytes(ps.drop_first())
    }
}

/// A row: its number of pairs, then the pairs.
pub open spec fn row_bytes(ps: Seq<(Seq<char>, Seq<char>)>) -> Seq<u8> {
    be64(ps.len() as u64) + pairs_bytes(ps)
}

/// The rows one after the other.
pub open spec fn rows_bytes(t: Seq<Seq<(Seq<char>, Seq<char>)>>) -> Seq<u8>
    decreases t.len(),
{
    if t.len() == 0 {
        seq![]
    } else {
        row_bytes(t[0]) + rows_bytes(t.drop_first())
    }
}

/// A whole file: `RDB1`, the number of rows, the rows.
pub open spec fn table_bytes(t: Seq<Seq<(Seq<char>, Seq<char>)>>) -> Seq<u8> {
    magic() + be64(t.len() as u64) + rows_bytes(t)
}

/// The rows' pairs, in order.
pub open spec fn pair_seqs(rows: Seq<Row>) -> Seq<Seq<(Seq<char>, Seq<char>)>> {
    rows.map_values(|r: Row| r.pair_seq())
}

/// Each length and count fits in the eight bytes that hold it.
pub open spec fn table_fits(t: Seq<Seq<(Seq<char>, Seq<char>)>>) -> bool {
    &&& t.len() <= u64::MAX
    &&& forall|q: int| 0 <= q < t.len() ==> (#[trigger] t[q]).len() <= u64::MAX
    &&& forall|q: int, k: int|
        0 <= q < t.len() && 0 <= k < t[q].len() ==> encode_utf8((#[trigger] t[q][k]).0).len() <= u64::MAX
            && encode_utf8(t[q][k].1).len() <= u64::MAX
}

// ---------------------------------------------------------------------------
// Reading a file: each reader takes the bytes and a position, and gives what it read and
// the position after it, or nothing where the bytes do not hold what it reads.
// ---------------------------------------------------------------------------

/// A number at `i`.
pub open spec fn read_u64(b: Seq<u8>, i: int) -> Option<u64> {
    if 0 <= i && i + 8 <= b.len() {
        Some(u64_at(b, i))
    } else {
        None
    }
}

/// A text at `i`: a length, then as many bytes of valid UTF-8.
pub open spec fn read_text(b: Seq<u8>, i: int) -> Option<(Seq<char>, int)> {
    match read_u64(b, i) {
        None => None,
        Some(n) => if i + 8 + n <= b.len() && valid_utf8(b.subrange(i + 8, i + 8 + n)) {
            Some((decode_utf8(b.subrange(i + 8, i + 8 + n)), i + 8 + n))
        } else {
            None
        },
    }
}

/// `n` pairs of texts at `i`.
pub open spec fn read_pairs(b: Seq<u8>, i: int, n: nat) -> Option<(Seq<(Seq<char>, Seq<char>)>, int)>
    decreases n,
{
    if n == 0 {
        Some((seq![], i))
    } else {
        match read_text(b, i) {
            None => None,
            Some((k, j)) => match read_text(b, j) {
                None => None,
                Some((v, j)) => after(seq![(k, v)], read_pairs(b, j, (n - 1) as nat)),
            },
        }
    }
}

/// A row at `i`: a count, then as many pairs.
pub open spec fn read_row(b: Seq<u8>, i: int) -> Option<(Seq<(Seq<char>, Seq<char>)>, int)> {
    match read_u64(b, i) {
        None => None,
        Some(n) => read_pairs(b, i + 8, n as nat),
    }
}

/// `n` rows at `i`.
pub open spec fn read_rows(b: Seq<u8>, i: int, n: nat) -> Option<(Seq<Seq<(Seq<char>, Seq<char>)>>, int)>
    decreases n,
{
    if n == 0 {
        Some((seq![], i))
    } else {
        match read_row(b, i) {
            None => None,
            Some((r, j)) => after(seq![r], read_rows(b, j, (n - 1) as nat)),
        }
    }
}

/// A whole file: `RDB1`, a count, as many rows, and nothing after them.
pub open spec fn read_table(b: Seq<u8>) -> Option<Seq<Seq<(Seq<char>, Seq<char>)>>> {
    if b.len() >= 4 && b.subrange(0, 4) == magic() {
        match read_u64(b, 4) {
            None => None,
            Some(n) => match read_rows(b, 12, n as nat) {
                Some((t, j)) => if j == b.len() {
                    Some(t)
                } else {
                    None
                },
                None => None,
            },
        }
    } else {
        None
    }
}

/// What was read before, put in front of what is read after it.
pub open spec fn after<A>(prefix: Seq<A>, r: Option<(Seq<A>, int)>) -> Option<(Seq<A>, int)> {
    match r {
        Some((xs, j)) => Some((prefix + xs, j)),
        None => None,
    }
}

/// The rows are those of the pairs, one for one.
pub open spec fn rows_are(rows: Seq<Row>, t: Seq<Seq<(Seq<char>, Seq<char>)>>) -> bool {
    &&& rows.len() == t.len()
    &&& forall|q: int| 0 <= q < t.len() ==> (#[trigger] rows[q])@ == text_pairs_map(t[q])
}


proof fn lemma_after_after<A>(a: Seq<A>, c: Seq<A>, r: Option<(Seq<A>, int)>)
    ensures
        after(a, after(c, r)) == after(a + c, r),
{
    if let Some((xs, j)) = r {
        assert(a + (c + xs) =~= (a + c) + xs);
    }
}

proof fn lemma_u64_bytes(n: u64)
    ensures
        ((((n >> 56u64) as u8) as u64) << 56u64) | ((((n >> 48u64) as u8) as u64) << 48u64) | ((((n
            >> 40u64) as u8) as u64) << 40u64) | ((((n >> 32u64) as u8) as u64) << 32u64) | ((((n
            >> 24u64) as u8) as u64) << 24u64) | ((((n >> 16u64) as u8) as u64) << 16u64) | ((((n
            >> 8u64) as u8) as u64) << 8u64) | ((n as u8) as u64) == n,
{
    assert(((((n >> 56u64) as u8) as u64) << 56u64) | ((((n >> 48u64) as u8) as u64) << 48u64) | ((((n
        >> 40u64) as u8) as u64) << 40u64) | ((((n >> 32u64) as u8) as u64) << 32u64) | ((((n
        >> 24u64) as u8) as u64) << 24u64) | ((((n >> 16u64) as u8) as u64) << 16u64) | ((((n
        >> 8u64) as u8) as u64) << 8u64) | ((n as u8) as u64) == n) by (bit_vector);
}

/// Where `x + y` stands at `i`, `x` stands at `i` and `y` after it.
proof fn lemma_split(b: Seq<u8>, i: int, x: Seq<u8>, y: Seq<u8>)
    requires
        0 <= i,
        i + x.len() + y.len() <= b.len(),
        b.subrange(i, i + x.len() + y.len()) == x + y,
    ensures
        b.subrange(i, i + x.len()) == x,
        b.subrange(i + x.len(), i + x.len() + y.len()) == y,
{
    assert(b.subrange(i, i + x.len()) =~= (x + y).subrange(0, x.len() as int));
    assert(b.subrange(i + x.len(), i + x.len() + y.len()) =~= (x + y).subrange(
        x.len() as int,
        (x.len() + y.len()) as int,
    ));
}

proof fn lemma_read_be64(b: Seq<u8>, i: int, n: u64)
    requires
        0 <= i,
        i + 8 <= b.len(),
        b.subrange(i, i + 8) == be64(n),
    ensures
        read_u64(b, i) == Some(n),
{
    let s = b.subrange(i, i + 8);
    assert(b[i] == s[0] && b[i + 1] == s[1] && b[i + 2] == s[2] && b[i + 3] == s[3]);
    assert(b[i + 4] == s[4] && b[i + 5] == s[5] && b[i + 6] == s[6] && b[i + 7] == s[7]);
    lemma_u64_bytes(n);
}

proof fn lemma_read_text(b: Seq<u8>, i: int, s: Seq<char>)
    requires
        0 <= i,
        encode_utf8(s).len() <= u64::MAX,
        i + text_bytes(s).len() <= b.len(),
        b.subrange(i, i + text_bytes(s).len()) == text_bytes(s),
    ensures
        read_text(b, i) == Some((s, i + text_bytes(s).len())),
{
    let e = encode_utf8(s);
    let n = e.len() as u64;
    lemma_split(b, i, be64(n), e);
    lemma_read_be64(b, i, n);
    encode_utf8_valid_utf8(s);
    encode_utf8_decode_utf8(s);
}

proof fn lemma_read_pairs(b: Seq<u8>, i: int, ps: Seq<(Seq<char>, Seq<char>)>)
    requires
        0 <= i,
        forall|k: int|
            0 <= k < ps.len() ==> encode_utf8((#[trigger] ps[k]).0).len() <= u64::MAX && encode_utf8(
                ps[k].1,
            ).len() <= u64::MAX,
        i + pairs_bytes(ps).len() <= b.len(),
        b.subrange(i, i + pairs_bytes(ps).len()) == pairs_bytes(ps),
    ensures
        read_pairs(b, i, ps.len()) == Some((ps, i + pairs_bytes(ps).len())),
    decreases ps.len(),
{
    if ps.len() > 0 {
        let kb = text_bytes(ps[0].0);
        let vb = text_bytes(ps[0].1);
        let rest = ps.drop_first();
        let rb = pairs_bytes(rest);
        assert(pairs_bytes(ps) == kb + vb + rb);
        lemma_split(b, i, kb + vb, rb);
        lemma_split(b, i, kb, vb);
        lemma_read_text(b, i, ps[0].0);
        lemma_read_text(b, i + kb.len(), ps[0].1);
        assert forall|k: int| 0 <= k < rest.len() implies encode_utf8((#[trigger] rest[k]).0).len()
            <= u64::MAX && encode_utf8(rest[k].1).len() <= u64::MAX by {
            assert(rest[k] == ps[k + 1]);
        }
        lemma_read_pairs(b, i + kb.len() + vb.len(), rest);
        assert(seq![(ps[0].0, ps[0].1)] + rest =~= ps);
    } else {
        assert(pairs_bytes(ps).len() == 0);
    }
}

proof fn lemma_read_rows(b: Seq<u8>, i: int, t: Seq<Seq<(Seq<char>, Seq<char>)>>)
    requires
        0 <= i,
        table_fits(t),
        i + rows_bytes(t).len() <= b.len(),
        b.subrange(i, i + rows_bytes(t).len()) == rows_bytes(t),
    ensures
        read_rows(b, i, t.len()) == Some((t, i + rows_bytes(t).len())),
    decreases t.len(),
{
    if t.len() > 0 {
        let ps = t[0];
        let rest = t.drop_first();
        let hb = be64(ps.len() as u64);
        let pb = pairs_bytes(ps);
        let rb = rows_bytes(rest);
        assert(rows_bytes(t) == hb + pb + rb);
        lemma_split(b, i, hb + pb, rb);
        lemma_split(b, i, hb, pb);
        lemma_read_be64(b, i, ps.len() as u64);
        assert forall|k: int| 0 <= k < ps.len() implies encode_utf8((#[trigger] ps[k]).0).len()
            <= u64::MAX && encode_utf8(ps[k].1).len() <= u64::MAX by {
            assert(t[0][k] == ps[k]);
        }
        lemma_read_pairs(b, i + 8, ps);
        assert(table_fits(rest)) by {
            assert forall|q: int| 0 <= q < rest.len() implies (#[trigger] rest[q]).len() <= u64::MAX by {
                assert(rest[q] == t[q + 1]);
            }
            assert forall|q: int, k: int| 0 <= q < rest.len() && 0 <= k < rest[q].len() implies encode_utf8(
                (#[trigger] rest[q][k]).0,
            ).len() <= u64::MAX && encode_utf8(rest[q][k].1).len() <= u64::MAX by {
                assert(rest[q] == t[q + 1]);
                assert(rest[q][k] == t[q + 1][k]);
            }
        }
        lemma_read_rows(b, i + hb.len() + pb.len(), rest);
        assert(seq![ps] + rest =~= t);
    } else {
        assert(rows_bytes(t).len() == 0);
    }
}

/// A file written for some rows reads back as those rows, where every length and count fits
/// in eight bytes.
pub proof fn law_table_bytes_read_back(t: Seq<Seq<(Seq<char>, Seq<char>)>>)
    requires
        table_fits(t),
    ensures
        read_table(table_bytes(t)) == Some(t),
{
    let b = table_bytes(t);
    let hb = magic() + be64(t.len() as u64);
    let rb = rows_bytes(t);
    assert(b.subrange(0, b.len() as int) =~= b);
    lemma_split(b, 0, hb, rb);
    lemma_split(b, 0, magic(), be64(t.len() as u64));
    lemma_read_be64(b, 4, t.len() as u64);
    lemma_read_rows(b, 12, t);
}


proof fn lemma_pairs_bytes_push(ps: Seq<(Seq<char>, Seq<char>)>, p: (Seq<char>, Seq<char>))
    ensures
        pairs_bytes(ps.push(p)) == pairs_bytes(ps) + text_bytes(p.0) + text_bytes(p.1),
    decreases ps.len(),
{
    if ps.len() == 0 {
        assert(ps.push(p).drop_first() =~= Seq::<(Seq<char>, Seq<char>)>::empty());
        assert(ps.push(p)[0] == p);
        assert(pairs_bytes(ps.push(p).drop_first()) == Seq::<u8>::empty());
        assert(pairs_bytes(ps.push(p)) =~= text_bytes(p.0) + text_bytes(p.1));
        assert(pairs_bytes(ps) + text_bytes(p.0) + text_bytes(p.1) =~= text_bytes(p.0) + text_bytes(p.1));
    } else {
        assert(ps.push(p).drop_first() =~= ps.drop_first().push(p));
        lemma_pairs_bytes_push(ps.drop_first(), p);
        assert(ps.push(p)[0] == ps[0]);
        assert(pairs_bytes(ps.push(p)) =~= pairs_bytes(ps) + text_bytes(p.0) + text_bytes(p.1));
    }
}

proof fn lemma_rows_bytes_push(t: Seq<Seq<(Seq<char>, Seq<char>)>>, r: Seq<(Seq<char>, Seq<char>)>)
    ensures
        rows_bytes(t.push(r)) == rows_bytes(t) + row_bytes(r),
    decreases t.len(),
{
    if t.len() == 0 {
        assert(t.push(r).drop_first() =~= Seq::<Seq<(Seq<char>, Seq<char>)>>::empty());
        assert(t.push(r)[0] == r);
        assert(rows_bytes(t.push(r).drop_first()) == Seq::<u8>::empty());
        assert(rows_bytes(t.push(r)) =~= row_bytes(r));
        assert(rows_bytes(t) + row_bytes(r) =~= row_bytes(r));
    } else {
        assert(t.push(r).drop_first() =~= t.drop_first().push(r));
        lemma_rows_bytes_push(t.drop_first(), r);
        assert(t.push(r)[0] == t[0]);
        assert(rows_bytes(t.push(r)) =~= rows_bytes(t) + row_bytes(r));
    }
}

/// Appends the eight bytes of the number.
fn push_u64(out: &mut Vec<u8>, n: u64)
    ensures
        final(out)@ == old(out)@ + be64(n),
{
    out.push((n >> 56u64) as u8);
    out.push((n >> 48u64) as u8);
    out.push((n >> 40u64) as u8);
    out.push((n >> 32u64) as u8);
    out.push((n >> 24u64) as u8);
    out.push((n >> 16u64) as u8);
    out.push((n >> 8u64) as u8);
    out.push(n as u8);
    assert(out@ =~= old(out)@ + be64(n));
}

/// Appends the text: its length, then its UTF-8 bytes.
fn push_text_bytes(out: &mut Vec<u8>, s: &str)
    ensures
        final(out)@ == old(out)@ + text_bytes(s@),
{
    let b = s.as_bytes();
    push_u64(out, b.len() as u64);
    let ghost base = out@;
    let mut k: usize = 0;
    while k < b.len()
        invariant
            k <= b@.len(),
            out@ == base + b@.subrange(0, k as int),
        decreases b@.len() - k,
    {
        out.push(b[k]);
        assert(b@.subrange(0, k + 1) =~= b@.subrange(0, k as int).push(b@[k as int]));
        k = k + 1;
    }
    assert(b@.subrange(0, k as int) =~= b@);
    assert(out@ =~= old(out)@ + text_bytes(s@));
}

/// The `.rdb` bytes of the rows: `RDB1`, the number of rows, and each row's pairs in the
/// order the row holds them.
pub fn encode_table(rows: &Vec<Row>) -> (b: Vec<u8>)
    ensures
        b@ == table_bytes(pair_seqs(rows@)),
{
    let ghost t = pair_seqs(rows@);
    let mut out: Vec<u8> = Vec::new();
    out.push(82u8);
    out.push(68u8);
    out.push(66u8);
    out.push(49u8);
    push_u64(&mut out, rows.len() as u64);
    let ghost base = out@;
    assert(base =~= magic() + be64(t.len() as u64));
    assert(t.subrange(0, 0) =~= Seq::<Seq<(Seq<char>, Seq<char>)>>::empty());
    let mut r: usize = 0;
    while r < rows.len()
        invariant
            t == pair_seqs(rows@),
            r <= rows@.len(),
            out@ == base + rows_bytes(t.subrange(0, r as int)),
        decreases rows@.len() - r,
    {
        let ps = rows[r].to_pairs();
        let ghost pv = ps@.map_values(|p: (String, String)| (p.0@, p.1@));
        assert(pv == t[r as int]);
        let ghost row_start = out@;
        push_u64(&mut out, ps.len() as u64);
        let ghost pairs_start = out@;
        assert(pv.subrange(0, 0) =~= Seq::<(Seq<char>, Seq<char>)>::empty());
        let mut k: usize = 0;
        while k < ps.len()
            invariant
                pv == ps@.map_values(|p: (String, String)| (p.0@, p.1@)),
                k <= ps@.len(),
                out@ == pairs_start + pairs_bytes(pv.subrange(0, k as int)),
            decreases ps@.len() - k,
        {
            push_text_bytes(&mut out, ps[k].0.as_str());
            push_text_bytes(&mut out, ps[k].1.as_str());
            proof {
                assert(pv.subrange(0, k + 1) =~= pv.subrange(0, k as int).push(pv[k as int]));
                lemma_pairs_bytes_push(pv.subrange(0, k as int), pv[k as int]);
                assert(out@ =~= pairs_start + pairs_bytes(pv.subrange(0, k + 1)));
            }
            k = k + 1;
        }
        proof {
            assert(pv.subrange(0, k as int) =~= pv);
            assert(t.subrange(0, r + 1) =~= t.subrange(0, r as int).push(t[r as int]));
            lemma_rows_bytes_push(t.subrange(0, r as int), t[r as int]);
            assert(out@ =~= base + rows_bytes(t.subrange(0, r + 1)));
        }
        r = r + 1;
    }
    assert(t.subrange(0, r as int) =~= t);
    out
}

/// Calls `String::from_utf8`: the text whose UTF-8 encoding the bytes are, or an error
/// (here nothing) where they are not valid UTF-8.
#[verifier::external_body]
fn utf8_text(v: Vec<u8>) -> (r: Option<String>)
    ensures
        r is Some <==> valid_utf8(v@),
        r matches Some(s) ==> s@ == decode_utf8(v@),
{
    String::from_utf8(v).ok()
}

/// The number at `i`.
fn u64_from(b: &Vec<u8>, i: usize) -> (r: Option<u64>)
    ensures
        r == read_u64(b@, i as int),
{
    if i <= b.len() && b.len() - i >= 8 {
        Some(((b[i] as u64) << 56u64) | ((b[i + 1] as u64) << 48u64) | ((b[i + 2] as u64) << 40u64) | ((
        b[i + 3] as u64) << 32u64) | ((b[i + 4] as u64) << 24u64) | ((b[i + 5] as u64) << 16u64) | ((
        b[i + 6] as u64) << 8u64) | (b[i + 7] as u64))
    } else {
        None
    }
}

/// The text at `i`, and the position after it.
fn text_from(b: &Vec<u8>, i: usize) -> (r: Option<(String, usize)>)
    ensures
        match r {
            Some((s, j)) => read_text(b@, i as int) == Some((s@, j as int)),
            None => read_text(b@, i as int) is None,
        },
{
    let n = match u64_from(b, i) {
        Some(n) => n,
        None => return None,
    };
    let len = b.len();
    assert(i + 8 <= len);
    let start = i + 8;
    if n > (b.len() - start) as u64 {
        return None;
    }
    let end = start + n as usize;
    let mut v: Vec<u8> = Vec::new();
    let mut k: usize = start;
    while k < end
        invariant
            start <= k <= end,
            end <= b@.len(),
            v@ == b@.subrange(start as int, k as int),
        decreases end - k,
    {
        v.push(b[k]);
        assert(b@.subrange(start as int, k + 1) =~= b@.subrange(start as int, k as int).push(b@[k as int]));
        k = k + 1;
    }
    match utf8_text(v) {
        Some(s) => Some((s, end)),
        None => None,
    }
}

pub open spec fn pair_texts(v: Seq<(String, String)>) -> Seq<(Seq<char>, Seq<char>)> {
    v.map_values(|p: (String, String)| (p.0@, p.1@))
}

/// `n` pairs at `i`, and the position after them.
fn pairs_from(b: &Vec<u8>, i: usize, n: u64) -> (r: Option<(Vec<(String, String)>, usize)>)
    ensures
        match r {
            Some((ps, j)) => read_pairs(b@, i as int, n as nat) == Some((pair_texts(ps@), j as int)),
            None => read_pairs(b@, i as int, n as nat) is None,
        },
{
    let mut ps: Vec<(String, String)> = Vec::new();
    let mut pos = i;
    let mut k: u64 = 0;
    assert(pair_texts(ps@) =~= Seq::<(Seq<char>, Seq<char>)>::empty());
    while k < n
        invariant
            k <= n,
            after(pair_texts(ps@), read_pairs(b@, pos as int, (n - k) as nat)) == read_pairs(
                b@,
                i as int,
                n as nat,
            ),
        decreases n - k,
    {
        let (name, p1) = match text_from(b, pos) {
            Some(x) => x,
            None => return None,
        };
        let (value, p2) = match text_from(b, p1) {
            Some(x) => x,
            None => return None,
        };
        proof {
            lemma_after_after(
                pair_texts(ps@),
                seq![(name@, value@)],
                read_pairs(b@, p2 as int, (n - k - 1) as nat),
            );
        }
        let ghost before = pair_texts(ps@);
        ps.push((name, value));
        assert(pair_texts(ps@) =~= before + seq![(name@, value@)]);
        pos = p2;
        k = k + 1;
    }
    assert(pair_texts(ps@) + Seq::<(Seq<char>, Seq<char>)>::empty() =~= pair_texts(ps@));
    Some((ps, pos))
}

/// `n` rows at `i`, and the position after them.
fn rows_from(b: &Vec<u8>, i: usize, n: u64) -> (r: Option<(Vec<Row>, usize)>)
    ensures
        match r {
            Some((rows, j)) => read_rows(b@, i as int, n as nat) matches Some((t, e)) && e == j
                && rows_are(rows@, t),
            None => read_rows(b@, i as int, n as nat) is None,
        },
{
    let mut rows: Vec<Row> = Vec::new();
    let ghost mut t: Seq<Seq<(Seq<char>, Seq<char>)>> = seq![];
    let mut pos = i;
    let mut k: u64 = 0;
    while k < n
        invariant
            k <= n,
            rows_are(rows@, t),
            after(t, read_rows(b@, pos as int, (n - k) as nat)) == read_rows(b@, i as int, n as nat),
        decreases n - k,
    {
        let m = match u64_from(b, pos) {
            Some(m) => m,
            None => return None,
        };
        let len = b.len();
        assert(pos + 8 <= len);
        let (ps, p2) = match pairs_from(b, pos + 8, m) {
            Some(x) => x,
            None => return None,
        };
        proof {
            lemma_after_after(t, seq![pair_texts(ps@)], read_rows(b@, p2 as int, (n - k - 1) as nat));
        }
        let ghost pv = pair_texts(ps@);
        let row = Row::from_pairs(ps);
        proof {
            crate::row::lemma_pairs_map_of_texts(ps@);
        }
        let ghost prev_rows = rows@;
        let ghost prev_t = t;
        rows.push(row);
        proof {
            t = t + seq![pv];
            assert forall|q: int| 0 <= q < t.len() implies (#[trigger] rows@[q])@ == text_pairs_map(t[q]) by {
                if q < t.len() - 1 {
                    assert(rows@[q] == prev_rows[q]);
                    assert(t[q] == prev_t[q]);
                }
            }
        }
        pos = p2;
        k = k + 1;
    }
    assert(t + Seq::<Seq<(Seq<char>, Seq<char>)>>::empty() =~= t);
    Some((rows, pos))
}


/// The rows that `.rdb` bytes hold; none where the bytes are not such a file (a wrong
/// opening, a count or length past the end, text that is not UTF-8, or bytes left over).
pub fn decode_table(b: &Vec<u8>) -> (r: Option<Vec<Row>>)
    ensures
        match r {
            Some(rows) => read_table(b@) matches Some(t) && rows_are(rows@, t),
            None => read_table(b@) is None,
        },
{
    let len = b.len();
    if len < 4 || b[0] != 82u8 || b[1] != 68u8 || b[2] != 66u8 || b[3] != 49u8 {
        proof {
            if b@.len() >= 4 && b@.subrange(0, 4) == magic() {
                assert(b@[0] == b@.subrange(0, 4)[0]);
                assert(b@[1] == b@.subrange(0, 4)[1]);
                assert(b@[2] == b@.subrange(0, 4)[2]);
                assert(b@[3] == b@.subrange(0, 4)[3]);
            }
        }
        return None;
    }
    assert(b@.subrange(0, 4) =~= magic());
    let n = match u64_from(b, 4) {
        Some(n) => n,
        None => return None,
    };
    match rows_from(b, 12, n) {
        Some((rows, j)) => if j == len {
            Some(rows)
        } else {
            None
        },
        None => None,
    }
}

/// A table saved and read back has the same rows, where every length and count fits in
/// eight bytes.
pub proof fn law_saved_rows_read_back(rows: Seq<Row>)
    requires
        table_fits(pair_seqs(rows)),
    ensures
        read_table(table_bytes(pair_seqs(rows))) == Some(pair_seqs(rows)),
        forall|q: int| 0 <= q < rows.len() ==> text_pairs_map(#[trigger] pair_seqs(rows)[q]) == rows[q]@,
{
    law_table_bytes_read_back(pair_seqs(rows));
    assert forall|q: int| 0 <= q < rows.len() implies text_pairs_map(#[trigger] pair_seqs(rows)[q])
        == rows[q]@ by {
        crate::row::lemma_row_of_pairs(rows[q]);
    }
}


proof fn lemma_bytes_u64(a0: u8, a1: u8, a2: u8, a3: u8, a4: u8, a5: u8, a6: u8, a7: u8)
    ensures
        ({
            let x = ((a0 as u64) << 56u64) | ((a1 as u64) << 48u64) | ((a2 as u64) << 40u64) | ((
            a3 as u64) << 32u64) | ((a4 as u64) << 24u64) | ((a5 as u64) << 16u64) | ((a6 as u64)
                << 8u64) | (a7 as u64);
            &&& (x >> 56u64) as u8 == a0
            &&& (x >> 48u64) as u8 == a1
            &&& (x >> 40u64) as u8 == a2
            &&& (x >> 32u64) as u8 == a3
            &&& (x >> 24u64) as u8 == a4
            &&& (x >> 16u64) as u8 == a5
            &&& (x >> 8u64) as u8 == a6
            &&& x as u8 == a7
        }),
{
    assert({
        let x = ((a0 as u64) << 56u64) | ((a1 as u64) << 48u64) | ((a2 as u64) << 40u64) | ((
        a3 as u64) << 32u64) | ((a4 as u64) << 24u64) | ((a5 as u64) << 16u64) | ((a6 as u64)
            << 8u64) | (a7 as u64);
        &&& (x >> 56u64) as u8 == a0
        &&& (x >> 48u64) as u8 == a1
        &&& (x >> 40u64) as u8 == a2
        &&& (x >> 32u64) as u8 == a3
        &&& (x >> 24u64) as u8 == a4
        &&& (x >> 16u64) as u8 == a5
        &&& (x >> 8u64) as u8 == a6
        &&& x as u8 == a7
    }) by (bit_vector);
}

proof fn lemma_u64_read_back(b: Seq<u8>, i: int)
    requires
        read_u64(b, i) is Some,
    ensures
        b.subrange(i, i + 8) == be64(read_u64(b, i)->0),
{
    lemma_bytes_u64(b[i], b[i + 1], b[i + 2], b[i + 3], b[i + 4], b[i + 5], b[i + 6], b[i + 7]);
    assert(b.subrange(i, i + 8) =~= be64(read_u64(b, i)->0));
}

proof fn lemma_text_read_back(b: Seq<u8>, i: int)
    requires
        read_text(b, i) is Some,
    ensures
        ({
            let (s, j) = read_text(b, i)->0;
            &&& i <= j <= b.len()
            &&& encode_utf8(s).len() <= u64::MAX
            &&& b.subrange(i, j) == text_bytes(s)
        }),
{
    let n = read_u64(b, i)->0;
    let x = b.subrange(i + 8, i + 8 + n);
    let (s, j) = read_text(b, i)->0;
    lemma_u64_read_back(b, i);
    vstd::utf8::decode_utf8_encode_utf8(x);
    assert(encode_utf8(s) == x);
    assert(b.subrange(i, j) =~= b.subrange(i, i + 8) + x);
}

proof fn lemma_pairs_read_back(b: Seq<u8>, i: int, n: nat)
    requires
        0 <= i <= b.len(),
        read_pairs(b, i, n) is Some,
    ensures
        ({
            let (ps, j) = read_pairs(b, i, n)->0;
            &&& i <= j <= b.len()
            &&& ps.len() == n
            &&& forall|k: int|
                0 <= k < ps.len() ==> encode_utf8((#[trigger] ps[k]).0).len() <= u64::MAX && encode_utf8(
                    ps[k].1,
                ).len() <= u64::MAX
            &&& b.subrange(i, j) == pairs_bytes(ps)
        }),
    decreases n,
{
    if n == 0 {
        assert(b.subrange(i, i) =~= Seq::<u8>::empty());
    } else {
        let (k, j1) = read_text(b, i)->0;
        let (v, j2) = read_text(b, j1)->0;
        lemma_text_read_back(b, i);
        lemma_text_read_back(b, j1);
        lemma_pairs_read_back(b, j2, (n - 1) as nat);
        let (rest, j3) = read_pairs(b, j2, (n - 1) as nat)->0;
        let ps = seq![(k, v)] + rest;
        assert(ps.drop_first() =~= rest);
        assert(ps[0] == (k, v));
        assert forall|q: int| 0 <= q < ps.len() implies encode_utf8((#[trigger] ps[q]).0).len()
            <= u64::MAX && encode_utf8(ps[q].1).len() <= u64::MAX by {
            if q > 0 {
                assert(ps[q] == rest[q - 1]);
            }
        }
        assert(b.subrange(i, j3) =~= b.subrange(i, j1) + b.subrange(j1, j2) + b.subrange(j2, j3));
    }
}

proof fn lemma_rows_read_back(b: Seq<u8>, i: int, n: nat)
    requires
        0 <= i <= b.len(),
        read_rows(b, i, n) is Some,
    ensures
        ({
            let (t, j) = read_rows(b, i, n)->0;
            &&& i <= j <= b.len()
            &&& t.len() == n
            &&& forall|q: int| 0 <= q < t.len() ==> (#[trigger] t[q]).len() <= u64::MAX
            &&& forall|q: int, k: int|
                0 <= q < t.len() && 0 <= k < t[q].len() ==> encode_utf8((#[trigger] t[q][k]).0).len()
                    <= u64::MAX && encode_utf8(t[q][k].1).len() <= u64::MAX
            &&& b.subrange(i, j) == rows_bytes(t)
        }),
    decreases n,
{
    if n == 0 {
        assert(b.subrange(i, i) =~= Seq::<u8>::empty());
    } else {
        let m = read_u64(b, i)->0;
        lemma_u64_read_back(b, i);
        lemma_pairs_read_back(b, i + 8, m as nat);
        let (ps, j1) = read_row(b, i)->0;
        lemma_rows_read_back(b, j1, (n - 1) as nat);
        let (rest, j2) = read_rows(b, j1, (n - 1) as nat)->0;
        let t = seq![ps] + rest;
        assert(t.drop_first() =~= rest);
        assert(t[0] == ps);
        assert((ps.len() as u64) == m);
        assert(b.subrange(i, j1) =~= b.subrange(i, i + 8) + b.subrange(i + 8, j1));
        assert(b.subrange(i, j1) == row_bytes(ps));
        assert forall|q: int| 0 <= q < t.len() implies (#[trigger] t[q]).len() <= u64::MAX by {
            if q > 0 {
                assert(t[q] == rest[q - 1]);
            }
        }
        assert forall|q: int, k: int| 0 <= q < t.len() && 0 <= k < t[q].len() implies encode_utf8(
            (#[trigger] t[q][k]).0,
        ).len() <= u64::MAX && encode_utf8(t[q][k].1).len() <= u64::MAX by {
            if q > 0 {
                assert(t[q] == rest[q - 1]);
            }
        }
        assert(b.subrange(i, j2) =~= b.subrange(i, j1) + b.subrange(j1, j2));
    }
}

/// Only a file written for some rows is read: bytes that read as rows are exactly the bytes
/// written for those rows.
pub proof fn law_read_table_gives_its_bytes(b: Seq<u8>)
    requires
        read_table(b) is Some,
    ensures
        table_fits(read_table(b)->0),
        b == table_bytes(read_table(b)->0),
{
    let n = read_u64(b, 4)->0;
    lemma_u64_read_back(b, 4);
    lemma_rows_read_back(b, 12, n as nat);
    let t = read_table(b)->0;
    assert(b.subrange(0, 4) + b.subrange(4, 12) + b.subrange(12, b.len() as int) =~= b);
}

} // verus!
