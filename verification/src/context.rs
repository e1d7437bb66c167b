//! A table from keys to values, both of them text.

use crate::text::same_text;
use vstd::prelude::*;

verus! {

/// The views of some key and value pairs.
pub open spec fn pair_texts(pairs: Seq<(String, String)>) -> Seq<(Seq<char>, Seq<char>)> {
    pairs.map_values(|p: (String, String)| (p.0@, p.1@))
}

/// The table that inserting `pairs` from left to right gives: a later pair replaces
/// an earlier one with the same key.
pub open spec fn pairs_map<V>(pairs: Seq<(Seq<char>, V)>) -> Map<Seq<char>, V>
    decreases pairs.len(),
{
    if pairs.len() == 0 {
        Map::empty()
    } else {
        pairs_map(pairs.drop_last()).insert(pairs.last().0, pairs.last().1)
    }
}

/// No key occurs twice.
pub open spec fn distinct_keys<V>(pairs: Seq<(Seq<char>, V)>) -> bool {
    forall|i: int, j: int|
        0 <= i < j < pairs.len() ==> (#[trigger] pairs[i]).0 != (#[trigger] pairs[j]).0
}

/// The table of `pairs` has exactly their keys.
pub proof fn lemma_pairs_map_domain<V>(pairs: Seq<(Seq<char>, V)>, key: Seq<char>)
    ensures
        pairs_map(pairs).dom().contains(key) <==> exists|i: int|
            0 <= i < pairs.len() && (#[trigger] pairs[i]).0 == key,
    decreases pairs.len(),
{
    if pairs.len() > 0 {
        let front = pairs.drop_last();
        lemma_pairs_map_domain(front, key);
        assert forall|i: int| 0 <= i < front.len() implies #[trigger] front[i] == pairs[i] by {}
        if pairs_map(pairs).dom().contains(key) {
            if pairs.last().0 == key {
                assert(pairs[pairs.len() - 1].0 == key);
            } else {
                let i = choose|i: int| 0 <= i < front.len() && (#[trigger] front[i]).0 == key;
                assert(pairs[i].0 == key);
            }
        }
        if exists|i: int| 0 <= i < pairs.len() && (#[trigger] pairs[i]).0 == key {
            let i = choose|i: int| 0 <= i < pairs.len() && (#[trigger] pairs[i]).0 == key;
            if i < front.len() {
                assert(front[i].0 == key);
            }
        }
    }
}

/// A pair behind which its key does not occur again gives the value of that key.
pub proof fn lemma_pairs_map_value<V>(pairs: Seq<(Seq<char>, V)>, i: int)
    requires
        0 <= i < pairs.len(),
        forall|j: int| i < j < pairs.len() ==> (#[trigger] pairs[j]).0 != pairs[i].0,
    ensures
        pairs_map(pairs).dom().contains(pairs[i].0),
        pairs_map(pairs)[pairs[i].0] == pairs[i].1,
    decreases pairs.len(),
{
    let front = pairs.drop_last();
    if i < front.len() {
        assert(pairs[pairs.len() - 1].0 != pairs[i].0);
        assert forall|j: int| i < j < front.len() implies (#[trigger] front[j]).0 != front[i].0 by {
            assert(front[j] == pairs[j]);
        }
        lemma_pairs_map_value(front, i);
    }
}

/// The views of pairs are the characters of both their strings, one view for each pair.
pub proof fn law_views_of_pairs(pairs: Seq<(String, String)>)
    ensures
        pair_texts(pairs).len() == pairs.len(),
        forall|i: int|
            0 <= i < pairs.len() ==> #[trigger] pair_texts(pairs)[i] == (
                pairs[i].0@,
                pairs[i].1@,
            ),
{
}

/// Where keys are distinct, no two pairs have the same key.
pub proof fn law_distinct_keys_differ<V>(pairs: Seq<(Seq<char>, V)>)
    ensures
        distinct_keys(pairs) <==> forall|i: int, j: int|
            0 <= i < pairs.len() && 0 <= j < pairs.len() && (#[trigger] pairs[i]).0 == (
            #[trigger] pairs[j]).0 ==> i == j,
{
}

/// A later pair replaces an earlier one with its key and leaves all other keys as they were.
pub proof fn law_later_pairs_replace<V>(pairs: Seq<(Seq<char>, V)>, key: Seq<char>, value: V)
    ensures
        pairs_map(Seq::<(Seq<char>, V)>::empty()) == Map::<Seq<char>, V>::empty(),
        pairs_map(pairs.push((key, value))).dom().contains(key),
        pairs_map(pairs.push((key, value)))[key] == value,
        forall|other: Seq<char>|
            other != key ==> (#[trigger] pairs_map(pairs.push((key, value))).dom().contains(other)
                <==> pairs_map(pairs).dom().contains(other)) && (pairs_map(pairs).dom().contains(
                other,
            ) ==> pairs_map(pairs.push((key, value)))[other] == pairs_map(pairs)[other]),
{
    assert(pairs.push((key, value)).drop_last() =~= pairs);
}

/// Replacing the value of the one pair that holds a key is inserting that key anew.
proof fn lemma_pairs_map_update<V>(pairs: Seq<(Seq<char>, V)>, i: int, value: V)
    requires
        distinct_keys(pairs),
        0 <= i < pairs.len(),
    ensures
        pairs_map(pairs.update(i, (pairs[i].0, value))) == pairs_map(pairs).insert(
            pairs[i].0,
            value,
        ),
    decreases pairs.len(),
{
    let key = pairs[i].0;
    let changed = pairs.update(i, (key, value));
    let front = pairs.drop_last();
    if i < front.len() {
        assert(changed.drop_last() =~= front.update(i, (key, value)));
        assert(distinct_keys(front)) by {
            assert forall|a: int, b: int| 0 <= a < b < front.len() implies (
            #[trigger] front[a]).0 != (#[trigger] front[b]).0 by {
                assert(pairs[a].0 != pairs[b].0);
            }
        }
        lemma_pairs_map_update(front, i, value);
        assert(pairs[i].0 != pairs[pairs.len() - 1].0);
        assert(pairs_map(changed) =~= pairs_map(pairs).insert(key, value));
    } else {
        assert(changed.drop_last() =~= front);
        assert(pairs_map(changed) =~= pairs_map(pairs).insert(key, value));
    }
}

/// A table from text to text.
#[derive(Debug)]
pub struct Context {
    entries: Vec<(String, String)>,
}

impl View for Context {
    type V = Map<Seq<char>, Seq<char>>;

    closed spec fn view(&self) -> Map<Seq<char>, Seq<char>> {
        pairs_map(pair_texts(self.entries@))
    }
}

impl Context {
    /// No key has two entries.
    #[verifier::type_invariant]
    spec fn keys_are_distinct(self) -> bool {
        distinct_keys(pair_texts(self.entries@))
    }

    /// The empty table.
    pub fn new() -> (r: Context)
        ensures
            r@ == Map::<Seq<char>, Seq<char>>::empty(),
    {
        Context { entries: Vec::new() }
    }

    /// The place of the entry with the key `key`.
    fn position(entries: &Vec<(String, String)>, key: &str) -> (r: Option<usize>)
        ensures
            match r {
                Some(i) => i < entries@.len() && entries@[i as int].0@ == key@,
                None => forall|i: int|
                    0 <= i < entries@.len() ==> (#[trigger] entries@[i]).0@ != key@,
            },
    {
        let n: usize = entries.len();
        let mut i: usize = 0;
        while i < n
            invariant
                i <= n,
                n == entries@.len(),
                forall|j: int| 0 <= j < i ==> (#[trigger] entries@[j]).0@ != key@,
            decreases n - i,
        {
            if same_text(entries[i].0.as_str(), key) {
                return Some(i);
            }
            i += 1;
        }
        None
    }

    /// Gives `key` the value `value`, in place of the one it may have had.
    pub fn insert(&mut self, key: String, value: String)
        ensures
            final(self)@ == old(self)@.insert(key@, value@),
    {
        proof {
            use_type_invariant(&*self);
        }
        let mut entries: Vec<(String, String)> = Vec::new();
        std::mem::swap(&mut entries, &mut self.entries);
        let ghost before = pair_texts(entries@);
        match Self::position(&entries, key.as_str()) {
            Some(i) => {
                proof {
                    lemma_pairs_map_update(before, i as int, value@);
                }
                entries.set(i, (key, value));
                assert(pair_texts(entries@) =~= before.update(
                    i as int,
                    (before[i as int].0, value@),
                ));
            },
            None => {
                let ghost added = (key@, value@);
                proof {
                    assert forall|j: int| 0 <= j < before.len() implies (
                    #[trigger] before[j]).0 != added.0 by {
                        assert(entries@[j].0@ != added.0);
                    }
                }
                entries.push((key, value));
                assert(pair_texts(entries@) =~= before.push(added));
                assert(before.push(added).drop_last() =~= before);
            },
        }
        self.entries = entries;
    }

    /// The value of `key`.
    pub fn get(&self, key: &str) -> (r: Option<&str>)
        ensures
            match r {
                Some(value) => self@.dom().contains(key@) && value@ == self@[key@],
                None => !self@.dom().contains(key@),
            },
    {
        proof {
            use_type_invariant(self);
        }
        let ghost pairs = pair_texts(self.entries@);
        match Self::position(&self.entries, key) {
            Some(i) => {
                proof {
                    assert(pairs[i as int] == (key@, self.entries@[i as int].1@));
                    lemma_pairs_map_value(pairs, i as int);
                }
                Some(self.entries[i].1.as_str())
            },
            None => {
                proof {
                    lemma_pairs_map_domain(pairs, key@);
                    assert forall|j: int| 0 <= j < pairs.len() implies (
                    #[trigger] pairs[j]).0 != key@ by {
                        assert(self.entries@[j].0@ != key@);
                    }
                }
                None
            },
        }
    }

    /// The entries, each key once.
    pub fn entries(&self) -> (r: &Vec<(String, String)>)
        ensures
            pairs_map(pair_texts(r@)) == self@,
            distinct_keys(pair_texts(r@)),
    {
        proof {
            use_type_invariant(self);
        }
        &self.entries
    }
}

} // verus!
