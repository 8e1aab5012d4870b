//! Word frequency tables: how often each (lower-cased) word occurs.

use vstd::prelude::*;
use vstd::multiset::Multiset;

use crate::index::WordIndex;
use crate::text::{string_views, words, lower_case, split_words, to_lowercase};

verus! {

broadcast use vstd::seq_lib::group_to_multiset_ensures;

/// The frequency table of a sequence of words: each word that occurs maps to
/// the number of its occurrences.
pub open spec fn frequency_of(ws: Seq<Seq<char>>) -> Map<Seq<char>, nat> {
    Map::new(|k: Seq<char>| ws.contains(k), |k: Seq<char>| ws.to_multiset().count(k))
}

/// The lower-cased forms of a sequence of words.
pub open spec fn lowercase_all(ws: Seq<Seq<char>>) -> Seq<Seq<char>> {
    ws.map_values(|w: Seq<char>| lower_case(w))
}

/// A table from words to the number of times they occur. Each word occurs
/// in it once, with a positive count.
#[derive(Debug)]
pub struct WordFrequency {
    keys: Vec<String>,
    counts: Vec<usize>,
    index: WordIndex,
}

impl View for WordFrequency {
    type V = Map<Seq<char>, nat>;

    closed spec fn view(&self) -> Map<Seq<char>, nat> {
        Map::new(
            |k: Seq<char>| self.keys_view().contains(k),
            |k: Seq<char>| self.counts@[self.keys_view().index_of(k)] as nat,
        )
    }
}

impl WordFrequency {
    /// The words of the table, in the order in which they were first seen.
    pub closed spec fn keys_view(&self) -> Seq<Seq<char>> {
        string_views(self.keys@)
    }

    #[verifier::type_invariant]
    closed spec fn well_formed(&self) -> bool {
        &&& self.keys@.len() == self.counts@.len()
        &&& self.keys_view().no_duplicates()
        &&& forall|i: int| 0 <= i < self.counts@.len() ==> #[trigger] self.counts@[i] > 0
        &&& self.index.indexes(self.keys_view())
    }

    /// A table holds finitely many words.
    pub proof fn lemma_finite(&self)
        ensures
            self@.dom().finite(),
    {
        assert(self@.dom() =~= self.keys_view().to_set());
        vstd::seq_lib::seq_to_set_is_finite(self.keys_view());
    }

    /// The words of the table are its keys, each listed once.
    proof fn lemma_keys(&self)
        requires
            self.well_formed(),
        ensures
            self.keys_view().no_duplicates(),
            self.keys_view().len() == self@.dom().len(),
            forall|k: Seq<char>| self@.contains_key(k) <==> self.keys_view().contains(k),
            forall|i: int|
                0 <= i < self.keys_view().len() ==> self@.contains_key(
                    #[trigger] self.keys_view()[i],
                ),
            self@.dom().finite(),
    {
        assert(self@.dom() =~= self.keys_view().to_set());
        self.keys_view().unique_seq_to_set();
        assert forall|i: int| 0 <= i < self.keys_view().len() implies self@.contains_key(
            #[trigger] self.keys_view()[i],
        ) by {
            assert(self.keys_view().contains(self.keys_view()[i]));
        }
    }

    /// The empty table.
    pub fn new() -> (table: Self)
        ensures
            table@ == Map::<Seq<char>, nat>::empty(),
    {
        let keys: Vec<String> = Vec::new();
        assert(string_views(keys@) =~= Seq::<Seq<char>>::empty());
        let table = WordFrequency { keys, counts: Vec::new(), index: WordIndex::new() };
        assert(table@ =~= Map::<Seq<char>, nat>::empty());
        table
    }

    /// The number of distinct words in the table.
    pub fn len(&self) -> (n: usize)
        ensures
            n == self@.dom().len(),
            n == self.keys_view().len(),
            self.keys_view().no_duplicates(),
            self@.dom().finite(),
            forall|k: Seq<char>| self@.contains_key(k) <==> self.keys_view().contains(k),
    {
        proof {
            use_type_invariant(self);
            self.lemma_keys();
        }
        self.keys.len()
    }

    /// The `i`-th word of the table.
    pub fn word(&self, i: usize) -> (w: &String)
        requires
            i < self.keys_view().len(),
        ensures
            w@ == self.keys_view()[i as int],
            self@.contains_key(w@),
    {
        proof {
            use_type_invariant(self);
            self.lemma_keys();
        }
        &self.keys[i]
    }

    /// How often the `i`-th word of the table occurs.
    pub fn count(&self, i: usize) -> (c: usize)
        requires
            i < self.keys_view().len(),
        ensures
            c == self@[self.keys_view()[i as int]],
    {
        proof {
            use_type_invariant(self);
            self.lemma_index(i as int);
        }
        self.counts[i]
    }

    proof fn lemma_index(&self, i: int)
        requires
            self.well_formed(),
            0 <= i < self.keys_view().len(),
        ensures
            self.keys_view().index_of(self.keys_view()[i]) == i,
    {
        let k = self.keys_view()[i];
        assert(self.keys_view().contains(k));
        let j = self.keys_view().index_of(k);
        assert(self.keys_view()[j] == k);
    }

    /// How often `word` occurs, or `None` where it does not occur.
    pub fn get(&self, word: &str) -> (c: Option<usize>)
        ensures
            match c {
                Some(c) => self@.contains_key(word@) && self@[word@] == c,
                None => !self@.contains_key(word@),
            },
    {
        proof {
            use_type_invariant(self);
        }
        match self.index.find(&self.keys, word) {
            Some(i) => {
                proof {
                    self.lemma_index(i as int);
                }
                Some(self.counts[i])
            },
            None => None,
        }
    }

    /// The table that gives `counts[i]` for `words[i]`, where the words are
    /// distinct, the counts positive and the two lists equally long; `None`
    /// otherwise.
    pub fn from_pairs(words: Vec<String>, counts: Vec<usize>) -> (table: Option<Self>)
        ensures
            match table {
                Some(t) => {
                    &&& words@.len() == counts@.len()
                    &&& string_views(words@).no_duplicates()
                    &&& forall|i: int| 0 <= i < counts@.len() ==> #[trigger] counts@[i] > 0
                    &&& t.keys_view() == string_views(words@)
                    &&& forall|i: int|
                        0 <= i < counts@.len() ==> t@[string_views(words@)[i]] == counts@[i]
                    &&& forall|k: Seq<char>| t@.contains_key(k) <==> string_views(words@).contains(k)
                },
                None => !(words@.len() == counts@.len() && string_views(words@).no_duplicates() && (
                forall|i: int| 0 <= i < counts@.len() ==> #[trigger] counts@[i] > 0)),
            },
    {
        if words.len() != counts.len() {
            return None;
        }
        let n = words.len();
        let mut keys: Vec<String> = Vec::new();
        let mut index = WordIndex::new();
        assert(string_views(keys@) =~= Seq::<Seq<char>>::empty());
        for i in 0..n
            invariant
                n == words@.len() == counts@.len(),
                forall|j: int| 0 <= j < i ==> #[trigger] counts@[j] > 0,
                string_views(keys@) == string_views(words@).take(i as int),
                string_views(keys@).no_duplicates(),
                index.indexes(string_views(keys@)),
        {
            if counts[i] == 0 {
                return None;
            }
            let ghost kv = string_views(keys@);
            match index.find(&keys, words[i].as_str()) {
                Some(j) => {
                    proof {
                        assert(kv.len() == keys@.len());
                        assert(kv.len() == i);
                        assert(kv[j as int] == string_views(words@).take(i as int)[j as int]);
                        assert(string_views(words@)[j as int] == kv[j as int]);
                        assert(string_views(words@)[j as int] == string_views(words@)[i as int]);
                        assert(!string_views(words@).no_duplicates());
                    }
                    return None;
                },
                None => {
                    keys.push(words[i].clone());
                    assert(string_views(keys@) =~= kv.push(words@[i as int]@));
                    assert(string_views(keys@).drop_last() =~= kv);
                    assert(string_views(words@).take(i + 1) =~= kv.push(words@[i as int]@));
                    index.add_last(&keys);
                    proof {
                        assert forall|a: int, b: int|
                            0 <= a < string_views(keys@).len() && 0 <= b < string_views(keys@).len()
                                && a != b implies string_views(keys@)[a] != string_views(
                            keys@,
                        )[b] by {
                            if a < kv.len() && b < kv.len() {
                                assert(kv[a] != kv[b]);
                            } else if a == kv.len() {
                                assert(kv.contains(kv[b]));
                            } else {
                                assert(kv.contains(kv[a]));
                            }
                        }
                    }
                },
            }
        }
        assert(string_views(words@).take(n as int) =~= string_views(words@));
        let table = WordFrequency { keys, counts, index };
        proof {
            assert forall|i: int| 0 <= i < table.counts@.len() implies table@[string_views(
                words@,
            )[i]] == table.counts@[i] by {
                table.lemma_index(i);
            }
        }
        Some(table)
    }

    /// The frequency table of `ws`.
    pub fn tally(ws: &Vec<String>) -> (table: Self)
        ensures
            table@ == frequency_of(string_views(ws@)),
    {
        let ghost all = string_views(ws@);
        let mut keys: Vec<String> = Vec::new();
        let mut counts: Vec<usize> = Vec::new();
        let mut index = WordIndex::new();
        assert(string_views(keys@) =~= Seq::<Seq<char>>::empty());
        let n = ws.len();
        for i in 0..n
            invariant
                n == ws@.len(),
                all == string_views(ws@),
                index.indexes(string_views(keys@)),
                keys@.len() == counts@.len(),
                string_views(keys@).no_duplicates(),
                forall|j: int| 0 <= j < counts@.len() ==> #[trigger] counts@[j] > 0,
                forall|j: int|
                    0 <= j < counts@.len() ==> #[trigger] counts@[j] == all.take(
                        i as int,
                    ).to_multiset().count(string_views(keys@)[j]),
                forall|k: Seq<char>|
                    all.take(i as int).contains(k) <==> string_views(keys@).contains(k),
        {
            let ghost prefix = all.take(i as int);
            let ghost kv = string_views(keys@);
            assert(all.take(i + 1) =~= prefix.push(ws@[i as int]@));
            proof {
                lemma_push_contains(prefix, ws@[i as int]@);
            }
            match index.find(&keys, ws[i].as_str()) {
                Some(j) => {
                    proof {
                        vstd::multiset::axiom_count_le_len(prefix.to_multiset(), kv[j as int]);
                        vstd::seq_lib::to_multiset_len(prefix);
                        assert(kv[j as int] == ws@[i as int]@);
                        assert(kv.contains(ws@[i as int]@));
                    }
                    let c = counts[j] + 1;
                    counts.set(j, c);
                    assert(string_views(keys@) == kv);
                    assert forall|k: Seq<char>|
                        all.take(i + 1).contains(k) <==> string_views(keys@).contains(k) by {
                        assert(prefix.contains(k) <==> kv.contains(k));
                    }
                },
                None => {
                    keys.push(ws[i].clone());
                    counts.push(1);
                    assert(string_views(keys@) =~= kv.push(ws@[i as int]@));
                    assert(string_views(keys@).drop_last() =~= kv);
                    index.add_last(&keys);
                    proof {
                        lemma_push_contains(kv, ws@[i as int]@);
                    }
                    assert forall|k: Seq<char>|
                        all.take(i + 1).contains(k) <==> string_views(keys@).contains(k) by {
                        assert(prefix.contains(k) <==> kv.contains(k));
                    }
                },
            }
        }
        assert(all.take(n as int) =~= all);
        let table = WordFrequency { keys, counts, index };
        proof {
            assert forall|k: Seq<char>| table@.contains_key(k) implies table@[k]
                == all.to_multiset().count(k) by {
                let j = table.keys_view().index_of(k);
                assert(table.keys_view().contains(k));
                assert(table.keys_view()[j] == k);
            }
        }
        assert(table@ =~= frequency_of(all));
        table
    }
}

/// What a sequence holds after a push: what it held, and the new item.
proof fn lemma_push_contains(s: Seq<Seq<char>>, w: Seq<char>)
    ensures
        forall|k: Seq<char>| #[trigger] s.push(w).contains(k) <==> (s.contains(k) || k == w),
{
    assert forall|k: Seq<char>| #[trigger] s.push(w).contains(k) <==> (s.contains(k) || k == w) by {
        if s.push(w).contains(k) && k != w {
            let m = choose|m: int| 0 <= m < s.len() + 1 && s.push(w)[m] == k;
            assert(s[m] == k);
        }
        if s.contains(k) {
            let m = choose|m: int| 0 <= m < s.len() && s[m] == k;
            assert(s.push(w)[m] == k);
        }
        if k == w {
            assert(s.push(w)[s.len() as int] == k);
        }
    }
}

/// The frequency table of the lower-cased words of `content`.
pub fn word_frequency(content: &str) -> (table: WordFrequency)
    ensures
        table@ == frequency_of(lowercase_all(words(content@))),
{
    let ws = split_words(content);
    let mut lowered: Vec<String> = Vec::new();
    let n = ws.len();
    for i in 0..n
        invariant
            n == ws@.len(),
            string_views(ws@) == words(content@),
            string_views(lowered@) == lowercase_all(string_views(ws@).take(i as int)),
    {
        let ghost prev = lowered@;
        let lower = to_lowercase(ws[i].as_str());
        lowered.push(lower);
        assert(string_views(lowered@) =~= string_views(prev).push(lower@));
        assert(string_views(ws@).take(i + 1) =~= string_views(ws@).take(i as int).push(
            ws@[i as int]@,
        ));
        assert(lowercase_all(string_views(ws@).take(i + 1)) =~= lowercase_all(
            string_views(ws@).take(i as int),
        ).push(lower_case(ws@[i as int]@)));
    }
    assert(string_views(ws@).take(n as int) =~= string_views(ws@));
    WordFrequency::tally(&lowered)
}

/// A frequency table holds each word that occurs, and nothing else; each
/// count is at least one; taken as a multiset the table is the words
/// themselves, so its counts add up to the number of words.
pub proof fn law_frequency_counts(ws: Seq<Seq<char>>)
    ensures
        frequency_of(ws).dom() == ws.to_set(),
        frequency_of(ws).dom().finite(),
        forall|k: Seq<char>|
            #[trigger] frequency_of(ws).contains_key(k) ==> 1 <= frequency_of(ws)[k] <= ws.len(),
        Multiset::from_map(frequency_of(ws)) == ws.to_multiset(),
        Multiset::from_map(frequency_of(ws)).len() == ws.len(),
{
    broadcast use vstd::multiset::group_multiset_axioms;

    let f = frequency_of(ws);
    assert(f.dom() =~= ws.to_set());
    vstd::seq_lib::seq_to_set_is_finite(ws);
    vstd::seq_lib::to_multiset_len(ws);
    assert forall|k: Seq<char>| #[trigger] f.contains_key(k) implies 1 <= f[k] <= ws.len() by {
        vstd::multiset::axiom_count_le_len(ws.to_multiset(), k);
    }
    assert forall|k: Seq<char>|
        Multiset::from_map(f).count(k) == ws.to_multiset().count(k) by {
        if f.contains_key(k) {
        } else {
            assert(!ws.contains(k));
        }
    }
    assert(Multiset::from_map(f) =~= ws.to_multiset());
}

/// Each word is counted under its lower-case form: the lower-cased words
/// are the words, one for one, each lower-cased; so the lower-case form of
/// every word is a key of their frequency table.
pub proof fn law_counted_in_lower_case(ws: Seq<Seq<char>>)
    ensures
        lowercase_all(ws).len() == ws.len(),
        forall|i: int| 0 <= i < ws.len() ==> #[trigger] lowercase_all(ws)[i] == lower_case(ws[i]),
        forall|i: int|
            0 <= i < ws.len() ==> #[trigger] frequency_of(lowercase_all(ws)).contains_key(
                lower_case(ws[i]),
            ),
{
    assert forall|i: int| 0 <= i < ws.len() implies #[trigger] frequency_of(
        lowercase_all(ws),
    ).contains_key(lower_case(ws[i])) by {
        assert(lowercase_all(ws)[i] == lower_case(ws[i]));
        assert(lowercase_all(ws).contains(lower_case(ws[i])));
    }
}

} // verus!
