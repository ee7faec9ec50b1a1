//! A table row: a map from column names to text values.

use vstd::prelude::*;
use crate::text::same_text;
use std::collections::BTreeMap;

verus! {

/// The map that a list of (name, value) pairs stands for; a later pair wins over an earlier
/// one with the same name.
pub open spec fn pairs_map(s: Seq<(String, String)>) -> Map<Seq<char>, Seq<char>>
    decreases s.len(),
{
    if s.len() == 0 {
        Map::empty()
    } else {
        pairs_map(s.drop_last()).insert(s.last().0@, s.last().1@)
    }
}

/// The map that a list of (name, value) texts stands for; a later pair wins over an earlier
/// one with the same name.
pub open spec fn text_pairs_map(s: Seq<(Seq<char>, Seq<char>)>) -> Map<Seq<char>, Seq<char>>
    decreases s.len(),
{
    if s.len() == 0 {
        Map::empty()
    } else {
        text_pairs_map(s.drop_last()).insert(s.last().0, s.last().1)
    }
}

/// The map of a list of pairs depends on their texts alone.
pub proof fn lemma_pairs_map_of_texts(s: Seq<(String, String)>)
    ensures
        pairs_map(s) == text_pairs_map(s.map_values(|p: (String, String)| (p.0@, p.1@))),
    decreases s.len(),
{
    if s.len() > 0 {
        lemma_pairs_map_of_texts(s.drop_last());
        assert(s.drop_last().map_values(|p: (String, String)| (p.0@, p.1@)) =~= s.map_values(
            |p: (String, String)| (p.0@, p.1@),
        ).drop_last());
    }
}

/// No name occurs twice among the pairs.
pub open spec fn distinct_names(s: Seq<(String, String)>) -> bool {
    forall|i: int, j: int| 0 <= i < j < s.len() ==> (#[trigger] s[i]).0@ != (#[trigger] s[j]).0@
}

/// The names of the map are those of the pairs; with distinct names each pair's value is
/// the one the map gives its name.
pub proof fn lemma_pairs_map(s: Seq<(String, String)>)
    ensures
        pairs_map(s).dom().finite(),
        forall|k: Seq<char>|
            #[trigger] pairs_map(s).dom().contains(k) <==> exists|i: int|
                0 <= i < s.len() && (#[trigger] s[i]).0@ == k,
        distinct_names(s) ==> forall|i: int|
            0 <= i < s.len() ==> pairs_map(s)[(#[trigger] s[i]).0@] == s[i].1@,
    decreases s.len(),
{
    if s.len() > 0 {
        let d = s.drop_last();
        lemma_pairs_map(d);
        assert forall|k: Seq<char>| #[trigger] pairs_map(s).dom().contains(k) <==> exists|i: int|
            0 <= i < s.len() && (#[trigger] s[i]).0@ == k by {
            if pairs_map(s).dom().contains(k) && k != s.last().0@ {
                let i = choose|i: int| 0 <= i < d.len() && (#[trigger] d[i]).0@ == k;
                assert(s[i] == d[i]);
            }
            if exists|i: int| 0 <= i < s.len() && (#[trigger] s[i]).0@ == k {
                let i = choose|i: int| 0 <= i < s.len() && (#[trigger] s[i]).0@ == k;
                if i < d.len() {
                    assert(s[i] == d[i]);
                }
            }
        }
        if distinct_names(s) {
            assert(distinct_names(d)) by {
                assert forall|i: int, j: int| 0 <= i < j < d.len() implies (#[trigger] d[i]).0@
                    != (#[trigger] d[j]).0@ by {
                    assert(d[i] == s[i] && d[j] == s[j]);
                }
            }
            assert forall|i: int| 0 <= i < s.len() implies pairs_map(s)[(#[trigger] s[i]).0@]
                == s[i].1@ by {
                if i < d.len() {
                    assert(s[i] == d[i]);
                    assert(d[i].0@ != s.last().0@);
                }
            }
        }
    }
}

/// A row: named text values, each name at most once.
#[derive(Debug)]
pub struct Row {
    pairs: Vec<(String, String)>,
}

impl View for Row {
    type V = Map<Seq<char>, Seq<char>>;

    closed spec fn view(&self) -> Map<Seq<char>, Seq<char>> {
        pairs_map(self.pairs@)
    }
}

impl Row {
    #[verifier::type_invariant]
    closed spec fn wf(self) -> bool {
        distinct_names(self.pairs@)
    }

    /// The row's (name, value) pairs in the order they were first set.
    pub closed spec fn pair_seq(&self) -> Seq<(Seq<char>, Seq<char>)> {
        self.pairs@.map_values(|p: (String, String)| (p.0@, p.1@))
    }

    /// A row without values.
    pub fn new() -> (r: Self)
        ensures
            r@ == Map::<Seq<char>, Seq<char>>::empty(),
    {
        Row { pairs: Vec::new() }
    }

    /// Where the name sits among the pairs.
    fn position(&self, name: &str) -> (r: Option<usize>)
        ensures
            r matches Some(i) ==> i < self.pairs@.len() && self.pairs@[i as int].0@ == name@,
            r is None ==> forall|i: int| 0 <= i < self.pairs@.len() ==> (#[trigger] self.pairs@[i]).0@ != name@,
    {
        let mut i: usize = 0;
        while i < self.pairs.len()
            invariant
                i <= self.pairs@.len(),
                forall|j: int| 0 <= j < i ==> (#[trigger] self.pairs@[j]).0@ != name@,
            decreases self.pairs@.len() - i,
        {
            if same_text(self.pairs[i].0.as_str(), name) {
                return Some(i);
            }
            i = i + 1;
        }
        None
    }

    /// The value under the name, if the row has it.
    pub fn get(&self, name: &str) -> (r: Option<&String>)
        ensures
            r is Some <==> self@.dom().contains(name@),
            r matches Some(v) ==> v@ == self@[name@],
    {
        proof {
            use_type_invariant(self);
            lemma_pairs_map(self.pairs@);
        }
        match self.position(name) {
            Some(i) => Some(&self.pairs[i].1),
            None => None,
        }
    }

    /// Sets the value under the name, replacing the one it had.
    pub fn insert(&mut self, name: String, value: String)
        ensures
            final(self)@ == old(self)@.insert(name@, value@),
    {
        proof {
            use_type_invariant(&*self);
            lemma_pairs_map(self.pairs@);
        }
        let ghost before = self.pairs@;
        let ghost k = name@;
        let ghost v = value@;
        match self.position(name.as_str()) {
            Some(i) => {
                let mut pairs = Vec::new();
                std::mem::swap(&mut pairs, &mut self.pairs);
                pairs.set(i, (name, value));
                proof {
                    let after = pairs@;
                    assert(distinct_names(after)) by {
                        assert forall|a: int, b: int| 0 <= a < b < after.len() implies (
                        #[trigger] after[a]).0@ != (#[trigger] after[b]).0@ by {
                            if a != i && b != i {
                                assert(after[a] == before[a] && after[b] == before[b]);
                            } else if a == i {
                                assert(after[b] == before[b]);
                            } else {
                                assert(after[a] == before[a]);
                            }
                        }
                    }
                    lemma_pairs_map(after);
                    assert(pairs_map(after) =~= pairs_map(before).insert(k, v)) by {
                        assert forall|x: Seq<char>| #[trigger] pairs_map(after).dom().contains(x)
                            <==> pairs_map(before).insert(k, v).dom().contains(x) by {
                            if pairs_map(after).dom().contains(x) {
                                let j = choose|j: int| 0 <= j < after.len() && (#[trigger] after[j]).0@ == x;
                                if j != i {
                                    assert(after[j] == before[j]);
                                }
                            }
                            if pairs_map(before).dom().contains(x) {
                                let j = choose|j: int| 0 <= j < before.len() && (#[trigger] before[j]).0@ == x;
                                if j != i {
                                    assert(after[j] == before[j]);
                                }
                            }
                            assert(after[i as int].0@ == k);
                        }
                        assert forall|x: Seq<char>| #[trigger] pairs_map(after).dom().contains(x) implies pairs_map(
                            after,
                        )[x] == pairs_map(before).insert(k, v)[x] by {
                            let j = choose|j: int| 0 <= j < after.len() && (#[trigger] after[j]).0@ == x;
                            if j != i {
                                assert(after[j] == before[j]);
                            }
                        }
                    }
                }
                self.pairs = pairs;
            },
            None => {
                let mut pairs = Vec::new();
                std::mem::swap(&mut pairs, &mut self.pairs);
                pairs.push((name, value));
                proof {
                    let after = pairs@;
                    assert(after.drop_last() =~= before);
                    assert(distinct_names(after)) by {
                        assert forall|a: int, b: int| 0 <= a < b < after.len() implies (
                        #[trigger] after[a]).0@ != (#[trigger] after[b]).0@ by {
                            assert(after[a] == before[a]);
                            if b < before.len() {
                                assert(after[b] == before[b]);
                            }
                        }
                    }
                }
                self.pairs = pairs;
            },
        }
    }

    /// Takes the name and its value out of the row; gives back the value it had.
    pub fn remove(&mut self, name: &str) -> (r: Option<String>)
        ensures
            final(self)@ == old(self)@.remove(name@),
            r is Some <==> old(self)@.dom().contains(name@),
            r matches Some(v) ==> v@ == old(self)@[name@],
    {
        proof {
            use_type_invariant(&*self);
            lemma_pairs_map(self.pairs@);
        }
        let ghost before = self.pairs@;
        let ghost k = name@;
        match self.position(name) {
            Some(i) => {
                let mut pairs = Vec::new();
                std::mem::swap(&mut pairs, &mut self.pairs);
                let (_, v) = pairs.remove(i);
                proof {
                    let after = pairs@;
                    assert(after =~= before.remove(i as int));
                    assert(distinct_names(after)) by {
                        assert forall|a: int, b: int| 0 <= a < b < after.len() implies (
                        #[trigger] after[a]).0@ != (#[trigger] after[b]).0@ by {
                            let a0 = if a < i { a } else { a + 1 };
                            let b0 = if b < i { b } else { b + 1 };
                            assert(after[a] == before[a0] && after[b] == before[b0]);
                        }
                    }
                    lemma_pairs_map(after);
                    assert(pairs_map(after) =~= pairs_map(before).remove(k)) by {
                        assert forall|x: Seq<char>| #[trigger] pairs_map(after).dom().contains(x)
                            <==> pairs_map(before).remove(k).dom().contains(x) by {
                            if pairs_map(after).dom().contains(x) {
                                let j = choose|j: int| 0 <= j < after.len() && (#[trigger] after[j]).0@ == x;
                                let j0 = if j < i { j } else { j + 1 };
                                assert(after[j] == before[j0]);
                            }
                            if pairs_map(before).remove(k).dom().contains(x) {
                                let j = choose|j: int| 0 <= j < before.len() && (#[trigger] before[j]).0@ == x;
                                assert(j != i);
                                let j1 = if j < i { j } else { j - 1 };
                                assert(after[j1] == before[j]);
                            }
                        }
                        assert forall|x: Seq<char>| #[trigger] pairs_map(after).dom().contains(x) implies pairs_map(
                            after,
                        )[x] == pairs_map(before).remove(k)[x] by {
                            let j = choose|j: int| 0 <= j < after.len() && (#[trigger] after[j]).0@ == x;
                            let j0 = if j < i { j } else { j + 1 };
                            assert(after[j] == before[j0]);
                        }
                    }
                }
                self.pairs = pairs;
                Some(v)
            },
            None => {
                proof {
                    assert(pairs_map(before).remove(k) =~= pairs_map(before));
                }
                None
            },
        }
    }

    /// Sets every name of `other` to its value there, as `HashMap::extend` does.
    pub fn extend(&mut self, other: &Row)
        ensures
            final(self)@ == old(self)@.union_prefer_right(other@),
    {
        proof {
            use_type_invariant(other);
            lemma_pairs_map(other.pairs@);
        }
        let ghost start = self@;
        let mut i: usize = 0;
        while i < other.pairs.len()
            invariant
                i <= other.pairs@.len(),
                distinct_names(other.pairs@),
                self@ == start.union_prefer_right(pairs_map(other.pairs@.subrange(0, i as int))),
            decreases other.pairs@.len() - i,
        {
            let name = other.pairs[i].0.clone();
            let value = other.pairs[i].1.clone();
            let ghost prev = self@;
            self.insert(name, value);
            proof {
                let sub = other.pairs@.subrange(0, i + 1);
                assert(sub.drop_last() =~= other.pairs@.subrange(0, i as int));
                assert(sub.last() == other.pairs@[i as int]);
                assert(self@ =~= start.union_prefer_right(pairs_map(sub)));
            }
            i = i + 1;
        }
        proof {
            assert(other.pairs@.subrange(0, i as int) =~= other.pairs@);
        }
    }

    /// A copy of the row.
    pub fn duplicate(&self) -> (r: Row)
        ensures
            r@ == self@,
            r.pair_seq() == self.pair_seq(),
    {
        proof {
            use_type_invariant(self);
        }
        let mut pairs: Vec<(String, String)> = Vec::new();
        let mut i: usize = 0;
        while i < self.pairs.len()
            invariant
                i <= self.pairs@.len(),
                pairs@.len() == i,
                forall|j: int|
                    0 <= j < i ==> (#[trigger] pairs@[j]).0@ == self.pairs@[j].0@ && pairs@[j].1@
                        == self.pairs@[j].1@,
            decreases self.pairs@.len() - i,
        {
            pairs.push((self.pairs[i].0.clone(), self.pairs[i].1.clone()));
            i = i + 1;
        }
        proof {
            lemma_same_pairs(pairs@, self.pairs@);
        }
        Row { pairs }
    }

    /// The (name, value) pairs, in the order they were first set.
    pub fn to_pairs(&self) -> (r: Vec<(String, String)>)
        ensures
            r@.map_values(|p: (String, String)| (p.0@, p.1@)) == self.pair_seq(),
    {
        let c = self.duplicate();
        proof {
            assert(c.pairs@.map_values(|p: (String, String)| (p.0@, p.1@)) =~= self.pair_seq());
        }
        c.pairs
    }

    /// The row that setting each pair in turn gives (a later pair wins over an earlier one).
    pub fn from_pairs(pairs: Vec<(String, String)>) -> (r: Row)
        ensures
            r@ == pairs_map(pairs@),
    {
        let mut row = Row::new();
        let mut i: usize = 0;
        while i < pairs.len()
            invariant
                i <= pairs@.len(),
                row@ == pairs_map(pairs@.subrange(0, i as int)),
            decreases pairs@.len() - i,
        {
            row.insert(pairs[i].0.clone(), pairs[i].1.clone());
            proof {
                let sub = pairs@.subrange(0, i + 1);
                assert(sub.drop_last() =~= pairs@.subrange(0, i as int));
                assert(sub.last() == pairs@[i as int]);
            }
            i = i + 1;
        }
        proof {
            assert(pairs@.subrange(0, i as int) =~= pairs@);
        }
        row
    }
}

/// A row is the map of its pairs.
pub proof fn lemma_row_of_pairs(r: Row)
    ensures
        r@ == text_pairs_map(r.pair_seq()),
{
    lemma_pairs_map_of_texts(r.pairs@);
}

/// A row has finitely many names.
pub proof fn lemma_row_finite(r: Row)
    ensures
        r@.dom().finite(),
{
    lemma_pairs_map(r.pairs@);
}

/// Pairs with the same names and values stand for the same map and keep distinct names.
proof fn lemma_same_pairs(a: Seq<(String, String)>, b: Seq<(String, String)>)
    requires
        a.len() == b.len(),
        forall|j: int| 0 <= j < a.len() ==> (#[trigger] a[j]).0@ == b[j].0@ && a[j].1@ == b[j].1@,
    ensures
        pairs_map(a) == pairs_map(b),
        distinct_names(b) ==> distinct_names(a),
        a.map_values(|p: (String, String)| (p.0@, p.1@)) == b.map_values(
            |p: (String, String)| (p.0@, p.1@),
        ),
    decreases a.len(),
{
    if a.len() > 0 {
        lemma_same_pairs(a.drop_last(), b.drop_last());
    }
    if distinct_names(b) {
        assert forall|i: int, j: int| 0 <= i < j < a.len() implies (#[trigger] a[i]).0@
            != (#[trigger] a[j]).0@ by {
            assert(b[i].0@ != b[j].0@);
        }
    }
    assert(a.map_values(|p: (String, String)| (p.0@, p.1@)) =~= b.map_values(
        |p: (String, String)| (p.0@, p.1@),
    ));
}


/// The text `serde_json::to_string` gives for a JSON object with these members, written in
/// the order of their names (as it writes a `BTreeMap<String, String>`).
pub uninterp spec fn json_object_text(m: Map<Seq<char>, Seq<char>>) -> Seq<char>;

/// Writes the row as a JSON object with `serde_json::to_string`, its members in the order
/// of their names; the text is named by `json_object_text`. Writing a map with text keys
/// does not fail.
#[verifier::external_body]
pub(crate) fn row_to_json(row: &Row) -> (s: String)
    ensures
        s@ == json_object_text(row@),
{
    let map: BTreeMap<String, String> = row.pairs.iter().cloned().collect();
    serde_json::to_string(&map).unwrap()
}


} // verus!
