//! The word database: a multiset of the identifier words of every buffer
//! that uses it. Buffers remove the words of lines an edit touches and add
//! the words of the lines the edit leaves behind, so the database always
//! mirrors the buffer contents.

use vstd::prelude::*;
use vstd::multiset::Multiset;

verus! {

/// Multiset of identifier words, stored as a list with duplicates.
pub struct WordDatabase {
    words: Vec<Vec<u8>>,
}

impl View for WordDatabase {
    type V = Multiset<Seq<u8>>;

    closed spec fn view(&self) -> Multiset<Seq<u8>> {
        self.words@.map_values(|w: Vec<u8>| w@).to_multiset()
    }
}

impl WordDatabase {
    pub fn new() -> (r: Self)
        ensures
            r@ == Multiset::<Seq<u8>>::empty(),
    {
        let r = Self { words: Vec::new() };
        proof {
            assert(r.words@.map_values(|w: Vec<u8>| w@) =~= Seq::<Seq<u8>>::empty());
            Seq::<Seq<u8>>::empty().to_multiset_ensures();
            assert(r@.len() == 0);
            assert(r@ =~= Multiset::<Seq<u8>>::empty());
        }
        r
    }

    /// Record one occurrence of `word`.
    pub fn add(&mut self, word: &[u8])
        ensures
            final(self)@ == old(self)@.insert(word@),
    {
        let w = crate::text::copy_range(word, 0, word.len());
        let ghost prior = self.words@.map_values(|x: Vec<u8>| x@);
        self.words.push(w);
        proof {
            assert(w@ =~= word@);
            assert(self.words@.map_values(|x: Vec<u8>| x@) =~= prior.push(word@));
            prior.to_multiset_ensures();
        }
    }

    /// Forget one occurrence of `word`; absent words are left alone.
    pub fn remove(&mut self, word: &[u8])
        ensures
            old(self)@.contains(word@) ==> final(self)@ == old(self)@.remove(word@),
            !old(self)@.contains(word@) ==> final(self)@ == old(self)@,
    {
        let ghost prior = self.words@.map_values(|x: Vec<u8>| x@);
        let mut i: usize = 0;
        let n = self.words.len();
        while i < n
            invariant
                n == self.words@.len(),
                i <= n,
                prior == self.words@.map_values(|x: Vec<u8>| x@),
                *self == *old(self),
                forall|j: int| 0 <= j < i ==> (#[trigger] self.words@[j])@ != word@,
            decreases n - i,
        {
            if bytes_eq(self.words[i].as_slice(), word) {
                let ghost removed_word = self.words@[i as int]@;
                self.words.remove(i);
                proof {
                    assert(removed_word == word@);
                    assert(self.words@.map_values(|x: Vec<u8>| x@)
                        =~= prior.remove(i as int));
                    prior.to_multiset_ensures();
                    assert(prior[i as int] == word@);
                    assert(prior.contains(word@));
                }
                return;
            }
            i = i + 1;
        }
        proof {
            prior.to_multiset_ensures();
            if prior.contains(word@) {
                let j = choose|j: int| 0 <= j < prior.len() && prior[j] == word@;
                assert(self.words@[j]@ == word@);
                assert(false);
            }
            assert(old(self)@.count(word@) == 0);
        }
    }

    /// How many occurrences of `word` are recorded.
    pub fn count(&self, word: &[u8]) -> (r: usize)
        ensures
            r == self@.count(word@),
    {
        let mut i: usize = 0;
        let n = self.words.len();
        let mut c: usize = 0;
        proof {
            let all = self.words@.map_values(|x: Vec<u8>| x@);
            assert(all.take(0) =~= Seq::<Seq<u8>>::empty());
            Seq::<Seq<u8>>::empty().to_multiset_ensures();
        }
        while i < n
            invariant
                n == self.words@.len(),
                i <= n,
                c == self.words@.map_values(|x: Vec<u8>| x@).take(i as int)
                    .to_multiset().count(word@),
                c <= i,
            decreases n - i,
        {
            let ghost all = self.words@.map_values(|x: Vec<u8>| x@);
            if bytes_eq(self.words[i].as_slice(), word) {
                c = c + 1;
            }
            proof {
                assert(all.take(i + 1 as int) =~= all.take(i as int).push(all[i as int]));
                all.take(i as int).to_multiset_ensures();
                vstd::multiset::lemma_insert_increases_count_by_1(
                    all.take(i as int).to_multiset(), all[i as int]);
                if all[i as int] != word@ {
                    vstd::multiset::lemma_insert_other_elements_unchanged(
                        all.take(i as int).to_multiset(), all[i as int], word@);
                }
            }
            i = i + 1;
        }
        proof {
            let all = self.words@.map_values(|x: Vec<u8>| x@);
            assert(all.take(n as int) =~= all);
        }
        c
    }
}

/// Byte-for-byte equality of two slices.
pub fn bytes_eq(a: &[u8], b: &[u8]) -> (r: bool)
    ensures
        r == (a@ == b@),
{
    if a.len() != b.len() {
        proof {
            assert(a@.len() != b@.len());
        }
        return false;
    }
    let mut i: usize = 0;
    while i < a.len()
        invariant
            a@.len() == b@.len(),
            i <= a@.len(),
            forall|j: int| 0 <= j < i ==> a@[j] == b@[j],
        decreases a@.len() - i,
    {
        if a[i] != b[i] {
            return false;
        }
        i = i + 1;
    }
    proof {
        assert(a@ =~= b@);
    }
    true
}

} // verus!
