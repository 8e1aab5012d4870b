//! A hash index over a list of distinct words: for each hash value, the
//! positions of the words with that hash.

use std::collections::HashMap;

use vstd::prelude::*;

use crate::text::string_views;

verus! {

broadcast use vstd::std_specs::hash::group_hash_axioms;

/// A polynomial hash of the characters of a word.
pub open spec fn word_hash(s: Seq<char>) -> u64
    decreases s.len(),
{
    if s.len() == 0 {
        0xcbf2_9ce4_8422_2325u64
    } else {
        word_hash(s.drop_last()).wrapping_mul(0x100_0000_01b3u64).wrapping_add(s.last() as u64)
    }
}

/// The hash of `w`.
pub fn hash_of(w: &str) -> (h: u64)
    ensures
        h == word_hash(w@),
{
    let ghost s = w@;
    let mut h: u64 = 0xcbf2_9ce4_8422_2325u64;
    for c in it: w.chars()
        invariant
            it.seq() == s,
            h == word_hash(s.take(it.index() as int)),
    {
        let ghost i = it.index() as int;
        assert(s.take(i + 1).drop_last() =~= s.take(i));
        h = h.wrapping_mul(0x100_0000_01b3u64).wrapping_add(c as u64);
    }
    assert(s.take(s.len() as int) =~= s);
    h
}

/// Positions of words by their hash.
#[derive(Debug)]
pub struct WordIndex {
    buckets: HashMap<u64, Vec<usize>>,
}

impl WordIndex {
    /// The index lists each position of `kv` under its word's hash, and
    /// lists nothing else.
    pub closed spec fn indexes(&self, kv: Seq<Seq<char>>) -> bool {
        &&& forall|i: int|
            0 <= i < kv.len() ==> {
                &&& #[trigger] self.buckets@.contains_key(word_hash(kv[i]))
                &&& self.buckets@[word_hash(kv[i])]@.contains(i as usize)
            }
        &&& forall|h: u64, j: int|
            #![trigger self.buckets@[h]@[j]]
            self.buckets@.contains_key(h) && 0 <= j < self.buckets@[h]@.len() ==> {
                &&& self.buckets@[h]@[j] < kv.len()
                &&& word_hash(kv[self.buckets@[h]@[j] as int]) == h
            }
    }

    /// An index of no words.
    pub fn new() -> (index: Self)
        ensures
            index.indexes(Seq::empty()),
    {
        WordIndex { buckets: HashMap::new() }
    }

    /// The position of `w` among `keys`, if it is one of them.
    pub fn find(&self, keys: &Vec<String>, w: &str) -> (pos: Option<usize>)
        requires
            self.indexes(string_views(keys@)),
        ensures
            match pos {
                Some(i) => i < keys@.len() && string_views(keys@)[i as int] == w@,
                None => !string_views(keys@).contains(w@),
            },
    {
        let h = hash_of(w);
        let target = String::from_str(w);
        let key_count = keys.len();
        match self.buckets.get(&h) {
            None => {
                proof {
                    if string_views(keys@).contains(w@) {
                        let i = choose|i: int|
                            0 <= i < string_views(keys@).len() && string_views(keys@)[i] == w@;
                        assert(self.buckets@.contains_key(word_hash(string_views(keys@)[i])));
                    }
                }
                None
            },
            Some(bucket) => {
                let n = bucket.len();
                for j in 0..n
                    invariant
                        n == bucket@.len(),
                        self.indexes(string_views(keys@)),
                        self.buckets@.contains_key(h),
                        self.buckets@[h] == *bucket,
                        h == word_hash(w@),
                        target@ == w@,
                        forall|m: int| 0 <= m < j ==> string_views(keys@)[bucket@[m] as int] != w@,
                {
                    let p = bucket[j];
                    assert(self.buckets@[h]@[j as int] == p);
                    if keys[p] == target {
                        return Some(p);
                    }
                }
                proof {
                    if string_views(keys@).contains(w@) {
                        let i = choose|i: int|
                            0 <= i < string_views(keys@).len() && string_views(keys@)[i] == w@;
                        assert(self.buckets@[word_hash(string_views(keys@)[i])]@.contains(
                            i as usize,
                        ));
                        let m = choose|m: int| 0 <= m < bucket@.len() && bucket@[m] == i as usize;
                        assert(string_views(keys@)[bucket@[m] as int] == w@);
                    }
                }
                None
            },
        }
    }

    /// Lists the last word of `keys`, which the index did not yet cover.
    pub fn add_last(&mut self, keys: &Vec<String>)
        requires
            keys@.len() > 0,
            old(self).indexes(string_views(keys@).drop_last()),
        ensures
            final(self).indexes(string_views(keys@)),
    {
        let p = keys.len() - 1;
        let h = hash_of(keys[p].as_str());
        let ghost kv = string_views(keys@);
        let ghost before = self.buckets@;
        let mut bucket = match self.buckets.remove(&h) {
            Some(b) => b,
            None => Vec::new(),
        };
        let ghost old_bucket = bucket@;
        assert(before.contains_key(h) ==> old_bucket == before[h]@);
        assert(!before.contains_key(h) ==> old_bucket == Seq::<usize>::empty());
        bucket.push(p);
        self.buckets.insert(h, bucket);
        assert(self.buckets@ == before.insert(h, bucket));
        assert(kv.drop_last().len() == p);
        assert forall|i: int| 0 <= i < kv.len() implies {
            &&& #[trigger] self.buckets@.contains_key(word_hash(kv[i]))
            &&& self.buckets@[word_hash(kv[i])]@.contains(i as usize)
        } by {
            if i == p {
                assert(bucket@[bucket@.len() - 1] == p);
            } else {
                assert(kv.drop_last()[i] == kv[i]);
                assert(before.contains_key(word_hash(kv[i])));
                assert(before[word_hash(kv[i])]@.contains(i as usize));
                if word_hash(kv[i]) == h {
                    let m = choose|m: int|
                        0 <= m < old_bucket.len() && old_bucket[m] == i as usize;
                    assert(bucket@[m] == i as usize);
                }
            }
        }
        assert forall|g: u64, j: int|
            #![trigger self.buckets@[g]@[j]]
            self.buckets@.contains_key(g) && 0 <= j < self.buckets@[g]@.len() implies {
            &&& self.buckets@[g]@[j] < kv.len()
            &&& word_hash(kv[self.buckets@[g]@[j] as int]) == g
        } by {
            if g == h {
                if j < old_bucket.len() {
                    assert(bucket@[j] == old_bucket[j]);
                    assert(before[h]@[j] == old_bucket[j]);
                    assert(kv.drop_last()[old_bucket[j] as int] == kv[old_bucket[j] as int]);
                }
            } else {
                assert(before[g]@[j] == self.buckets@[g]@[j]);
                assert(kv.drop_last()[before[g]@[j] as int] == kv[before[g]@[j] as int]);
            }
        }
    }
}

} // verus!
