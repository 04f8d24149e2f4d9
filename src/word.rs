//! Words of the general vocabulary and the in-memory vocabulary read from an
//! embedding file.
use vstd::prelude::*;
use vstd::utf8::encode_utf8;
use vstd::string::StringSliceAdditionalSpecFns;
use crate::text::compare_bytes;

verus! {

/// Words are represented by a lookup table; this is an index into it.
/// More common words have smaller indices.
#[derive(PartialEq, Eq, Structural, Debug, Copy, Clone, Hash, PartialOrd, Ord)]
pub struct WordIndex(pub u32);

/// What every vocabulary offers: its size, the text of a word, and the index
/// of a text.
pub trait WordSource {
    /// The bytes of each word, by index.
    spec fn vocabulary(&self) -> Seq<Seq<u8>>;

    /// The value is in a usable state.
    spec fn well_formed(&self) -> bool;

    /// Lookups by text find every word that is present, at its last
    /// position.
    spec fn lookup_complete(&self) -> bool;

    /// The number of words.
    fn len(&self) -> (r: usize)
        requires
            self.well_formed(),
        ensures
            r == self.vocabulary().len(),
    ;

    /// The text of the word.
    fn word(&self, index: WordIndex) -> (r: &str)
        requires
            self.well_formed(),
            index.0 < self.vocabulary().len(),
        ensures
            r.spec_bytes() == self.vocabulary()[index.0 as int],
    ;

    /// The index of the word with this text.
    fn index(&self, word: &str) -> (r: Option<WordIndex>)
        requires
            self.well_formed(),
        ensures
            r matches Some(i) ==> i.0 < self.vocabulary().len() && self.vocabulary()[i.0 as int]
                == word.spec_bytes(),
            r is None && self.lookup_complete() ==> forall|i: int|
                0 <= i < self.vocabulary().len() ==> self.vocabulary()[i] != word.spec_bytes(),
            r is Some && self.lookup_complete() ==> forall|j: int|
                r.unwrap().0 < j < self.vocabulary().len() ==> self.vocabulary()[j] != word.spec_bytes(),
    ;
}

/// A vocabulary held in memory, in load order.
pub struct MemoryWords {
    words: Vec<String>,
}

/// `i` is the last position holding `w`.
pub open spec fn last_occurrence(v: Seq<Seq<u8>>, w: Seq<u8>, i: int) -> bool {
    0 <= i < v.len() && v[i] == w && forall|j: int| i < j < v.len() ==> v[j] != w
}

impl MemoryWords {
    pub closed spec fn words_view(&self) -> Seq<Seq<u8>> {
        Seq::new(self.words@.len(), |i: int| encode_utf8(self.words@[i]@))
    }

    /// An empty vocabulary.
    pub fn new() -> (r: MemoryWords)
        ensures
            r.words_view() == Seq::<Seq<u8>>::empty(),
            r.well_formed(),
    {
        let r = MemoryWords { words: Vec::new() };
        assert(r.words_view() =~= Seq::<Seq<u8>>::empty());
        r
    }

    /// Append a word; its index is the previous length. A word added twice
    /// is found at its later index.
    pub fn add(&mut self, s: &str) -> (r: WordIndex)
        requires
            old(self).words_view().len() < u32::MAX,
        ensures
            final(self).well_formed(),
            r.0 == old(self).words_view().len(),
            final(self).words_view() == old(self).words_view().push(s.spec_bytes()),
    {
        let res = WordIndex(self.words.len() as u32);
        let owned = s.to_owned();
        self.words.push(owned);
        assert(self.words_view() =~= old(self).words_view().push(s.spec_bytes()));
        res
    }

    pub proof fn lemma_len_bound(&self)
        requires
            self.well_formed(),
        ensures
            self.words_view().len() <= u32::MAX,
    {
    }

    /// Every word is valid UTF-8.
    pub proof fn lemma_words_utf8(&self)
        ensures
            forall|i: int| 0 <= i < self.words_view().len() ==> vstd::utf8::valid_utf8(#[trigger] self.words_view()[i]),
    {
        assert forall|i: int| 0 <= i < self.words_view().len() implies vstd::utf8::valid_utf8(#[trigger] self.words_view()[i]) by {
            vstd::utf8::encode_utf8_valid_utf8(self.words@[i]@);
        }
    }

    fn find_last(&self, word: &str) -> (r: Option<WordIndex>)
        requires
            self.words@.len() <= u32::MAX,
        ensures
            r matches Some(i) ==> last_occurrence(self.words_view(), word.spec_bytes(), i.0 as int),
            r is None <==> forall|i: int|
                0 <= i < self.words_view().len() ==> self.words_view()[i] != word.spec_bytes(),
    {
        let target = word.as_bytes();
        let mut i: usize = self.words.len();
        while i > 0
            invariant
                i <= self.words@.len(),
                self.words@.len() <= u32::MAX,
                target@ == word.spec_bytes(),
                forall|j: int| i <= j < self.words_view().len() ==> self.words_view()[j] != target@,
            decreases i,
        {
            i = i - 1;
            let candidate = self.words[i].as_str().as_bytes();
            if compare_bytes(candidate, target) == 0 {
                assert(self.words_view()[i as int] == target@);
                return Some(WordIndex(i as u32));
            }
        }
        None
    }
}

impl WordSource for MemoryWords {
    open spec fn vocabulary(&self) -> Seq<Seq<u8>> {
        self.words_view()
    }

    closed spec fn well_formed(&self) -> bool {
        self.words@.len() <= u32::MAX
    }

    open spec fn lookup_complete(&self) -> bool {
        true
    }

    fn len(&self) -> (r: usize) {
        self.words.len()
    }

    fn word(&self, index: WordIndex) -> (r: &str) {
        self.words[index.0 as usize].as_str()
    }

    /// Finds the last word with this text, as a lookup table filled in load
    /// order would.
    fn index(&self, word: &str) -> (r: Option<WordIndex>) {
        self.find_last(word)
    }
}

/// The words of `v` are pairwise distinct.
pub open spec fn all_distinct(v: Seq<Seq<u8>>) -> bool {
    forall|i: int, j: int| 0 <= i < j < v.len() ==> v[i] != v[j]
}

/// Looking up the text of a word gives back that word's index, in any
/// vocabulary without repeated words: whatever `index` returns for the text
/// of word `w` under its contract is `Some(w)`.
pub proof fn lemma_index_of_word(v: Seq<Seq<u8>>, w: int, r: Option<WordIndex>)
    requires
        all_distinct(v),
        0 <= w < v.len(),
        r matches Some(i) ==> i.0 < v.len() && v[i.0 as int] == v[w],
        r is None ==> forall|i: int| 0 <= i < v.len() ==> v[i] != v[w],
    ensures
        r == Some(WordIndex(w as u32)),
{
    if r is None {
        let t = w;
        assert(v[t] != v[w]);
    }
    if let Some(i) = r {
        if i.0 as int != w {
            if (i.0 as int) < w {
                assert(v[i.0 as int] != v[w]);
            } else {
                assert(v[w] != v[i.0 as int]);
            }
        }
    }
}

} // verus!
