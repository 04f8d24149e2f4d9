//! Questions as the store keeps them: an internal identifier and the token
//! classes that a question contains.
use vstd::prelude::*;
use vstd::string::StringSliceAdditionalSpecFns;
use vstd::utf8::encode_utf8;
use crate::listed_keywords::{ListedKeywordIndex, ListedKeywords};
use crate::sentences::{SentencePart, TokenizedSentence, prepared, tiles};
use crate::text::compare_bytes;
use crate::word::WordIndex;
use crate::word_file::{WordsInFile, file_words};

verus! {

/// The identifier the store gives a question: 0, 1, 2, ... in insertion
/// order.
#[derive(PartialEq, Eq, Structural, Debug, Copy, Clone, Hash)]
pub struct InternalQuestionId(pub u32);

/// Words of the general vocabulary with an index up to this are too common
/// to be indexed.
pub const STOPWORD_LIMIT: u32 = 400;

/// A question and the distinct token classes found in it.
pub struct ParsedQuestion {
    pub question: String,
    pub keywords: Vec<ListedKeywordIndex>,
    pub known_words: Vec<WordIndex>,
    pub unique_words: Vec<String>,
}

/// The keyword classes among `parts`.
pub open spec fn keywords_in(parts: Seq<SentencePart>) -> Set<ListedKeywordIndex> {
    Set::new(|k: ListedKeywordIndex| parts.contains(SentencePart::Listed(k)))
}

/// The known words among `parts` that are rare enough to index.
pub open spec fn indexed_words_in(parts: Seq<SentencePart>) -> Set<WordIndex> {
    Set::new(|w: WordIndex| parts.contains(SentencePart::Known(w)) && w.0 > STOPWORD_LIMIT)
}

/// The unknown literals among `parts`, as bytes.
pub open spec fn literals_in(parts: Seq<SentencePart>) -> Set<Seq<u8>> {
    Set::new(
        |b: Seq<u8>|
            exists|x: int|
                0 <= x < parts.len() && (#[trigger] parts[x]) is Unknown && encode_utf8(
                    parts[x]->Unknown_0@,
                ) == b,
    )
}

pub open spec fn literal_bytes(v: Seq<String>) -> Seq<Seq<u8>> {
    v.map_values(|s: String| encode_utf8(s@))
}

impl ParsedQuestion {
    /// The question's classes: each list without repeats, holding exactly
    /// the classes of `parts`.
    pub open spec fn summarizes(&self, parts: Seq<SentencePart>) -> bool {
        &&& self.keywords@.no_duplicates()
        &&& self.keywords@.to_set() == keywords_in(parts)
        &&& self.known_words@.no_duplicates()
        &&& self.known_words@.to_set() == indexed_words_in(parts)
        &&& literal_bytes(self.unique_words@).no_duplicates()
        &&& literal_bytes(self.unique_words@).to_set() == literals_in(parts)
    }

    /// Collects the distinct token classes of a tokenized question.
    #[verifier::rlimit(60)]
    pub fn from_parts(question: String, parts: &Vec<SentencePart>) -> (r: ParsedQuestion)
        ensures
            r.question@ == question@,
            r.summarizes(parts@),
    {
        let mut keywords: Vec<ListedKeywordIndex> = Vec::new();
        let mut known_words: Vec<WordIndex> = Vec::new();
        let mut unique_words: Vec<String> = Vec::new();
        let mut x: usize = 0;
        while x < parts.len()
            invariant
                x <= parts@.len(),
                keywords@.no_duplicates(),
                keywords@.to_set() == keywords_in(parts@.take(x as int)),
                known_words@.no_duplicates(),
                known_words@.to_set() == indexed_words_in(parts@.take(x as int)),
                literal_bytes(unique_words@).no_duplicates(),
                literal_bytes(unique_words@).to_set() == literals_in(parts@.take(x as int)),
            decreases parts@.len() - x,
        {
            let ghost before = parts@.take(x as int);
            let ghost after = parts@.take(x as int + 1);
            assert(after =~= before.push(parts@[x as int]));
            match &parts[x] {
                SentencePart::Listed(k) => {
                    let ghost old_keywords = keywords@;
                    if !contains_keyword(&keywords, *k) {
                        keywords.push(*k);
                    }
                    proof {
                        lemma_keywords_step(before, after, *k);
                        lemma_push_absent(old_keywords, keywords@, *k);
                        lemma_parts_same_known(before, after, parts@[x as int]);
                        lemma_parts_same_literals(before, after, parts@[x as int]);
                    }
                },
                SentencePart::Known(w) => {
                    let ghost old_known = known_words@;
                    if w.0 > STOPWORD_LIMIT && !contains_word(&known_words, *w) {
                        known_words.push(*w);
                    }
                    proof {
                        lemma_known_step(before, after, *w);
                        if w.0 > STOPWORD_LIMIT {
                            lemma_push_absent(old_known, known_words@, *w);
                        }
                        lemma_parts_same_keywords(before, after, parts@[x as int]);
                        lemma_parts_same_literals(before, after, parts@[x as int]);
                    }
                },
                SentencePart::Unknown(s) => {
                    let ghost old_unique = unique_words@;
                    if !contains_literal(&unique_words, s.as_str()) {
                        let owned = s.clone();
                        unique_words.push(owned);
                    }
                    proof {
                        if unique_words@.len() > old_unique.len() {
                            assert(unique_words@.take(old_unique.len() as int) =~= old_unique);
                        }
                        lemma_literals_step(before, after, old_unique, unique_words@, s@);
                        lemma_parts_same_keywords(before, after, parts@[x as int]);
                        lemma_parts_same_known(before, after, parts@[x as int]);
                    }
                },
            }
            x = x + 1;
        }
        assert(parts@.take(parts@.len() as int) =~= parts@);
        ParsedQuestion { question, keywords, known_words, unique_words }
    }
}

proof fn lemma_push_absent<A>(old_v: Seq<A>, new_v: Seq<A>, a: A)
    requires
        old_v.no_duplicates(),
        new_v == if old_v.contains(a) {
            old_v
        } else {
            old_v.push(a)
        },
    ensures
        new_v.no_duplicates(),
        new_v.to_set() == old_v.to_set().insert(a),
{
    if !old_v.contains(a) {
        assert forall|i: int, j: int| 0 <= i < j < new_v.len() implies new_v[i] != new_v[j] by {
            if j == old_v.len() {
                assert(old_v[i] == new_v[i]);
            }
        }
        assert forall|c: A| new_v.to_set().contains(c) implies old_v.to_set().insert(a).contains(c) by {
            if c != a {
                let i = choose|i: int| 0 <= i < new_v.len() && new_v[i] == c;
                assert(old_v[i] == c);
            }
        }
        assert forall|c: A| old_v.to_set().insert(a).contains(c) implies new_v.to_set().contains(c) by {
            if c == a {
                assert(new_v[old_v.len() as int] == a);
            } else {
                let i = choose|i: int| 0 <= i < old_v.len() && old_v[i] == c;
                assert(new_v[i] == c);
            }
        }
    } else {
        assert forall|c: A| old_v.to_set().insert(a).contains(c) implies new_v.to_set().contains(c) by {
        }
    }
    assert(new_v.to_set() =~= old_v.to_set().insert(a));
}

proof fn lemma_keywords_step(before: Seq<SentencePart>, after: Seq<SentencePart>, k: ListedKeywordIndex)
    requires
        after == before.push(SentencePart::Listed(k)),
    ensures
        keywords_in(after) == keywords_in(before).insert(k),
{
    assert forall|c: ListedKeywordIndex| keywords_in(after).contains(c) implies keywords_in(before).insert(k).contains(c) by {
        if c != k {
            let y = choose|y: int| 0 <= y < after.len() && after[y] == SentencePart::Listed(c);
            assert(before[y] == after[y]);
        }
    }
    assert forall|c: ListedKeywordIndex| keywords_in(before).insert(k).contains(c) implies keywords_in(after).contains(c) by {
        if c == k {
            assert(after[before.len() as int] == SentencePart::Listed(c));
        } else {
            let y = choose|y: int| 0 <= y < before.len() && before[y] == SentencePart::Listed(c);
            assert(after[y] == before[y]);
        }
    }
    assert(keywords_in(after) =~= keywords_in(before).insert(k));
}

proof fn lemma_known_step(before: Seq<SentencePart>, after: Seq<SentencePart>, w: WordIndex)
    requires
        after == before.push(SentencePart::Known(w)),
    ensures
        indexed_words_in(after) == if w.0 > STOPWORD_LIMIT {
            indexed_words_in(before).insert(w)
        } else {
            indexed_words_in(before)
        },
{
    let expected = if w.0 > STOPWORD_LIMIT {
        indexed_words_in(before).insert(w)
    } else {
        indexed_words_in(before)
    };
    assert forall|c: WordIndex| indexed_words_in(after).contains(c) implies expected.contains(c) by {
        if c != w {
            let y = choose|y: int| 0 <= y < after.len() && after[y] == SentencePart::Known(c);
            assert(before[y] == after[y]);
        }
    }
    assert forall|c: WordIndex| expected.contains(c) implies indexed_words_in(after).contains(c) by {
        if c == w {
            assert(after[before.len() as int] == SentencePart::Known(c));
        } else {
            let y = choose|y: int| 0 <= y < before.len() && before[y] == SentencePart::Known(c);
            assert(after[y] == before[y]);
        }
    }
    assert(indexed_words_in(after) =~= expected);
}

proof fn lemma_parts_same_keywords(before: Seq<SentencePart>, after: Seq<SentencePart>, p: SentencePart)
    requires
        after == before.push(p),
        !(p is Listed),
    ensures
        keywords_in(after) == keywords_in(before),
{
    assert forall|c: ListedKeywordIndex| keywords_in(after).contains(c) implies keywords_in(before).contains(c) by {
        let y = choose|y: int| 0 <= y < after.len() && after[y] == SentencePart::Listed(c);
        assert(before[y] == after[y]);
    }
    assert forall|c: ListedKeywordIndex| keywords_in(before).contains(c) implies keywords_in(after).contains(c) by {
        let y = choose|y: int| 0 <= y < before.len() && before[y] == SentencePart::Listed(c);
        assert(after[y] == before[y]);
    }
    assert(keywords_in(after) =~= keywords_in(before));
}

proof fn lemma_parts_same_known(before: Seq<SentencePart>, after: Seq<SentencePart>, p: SentencePart)
    requires
        after == before.push(p),
        !(p is Known),
    ensures
        indexed_words_in(after) == indexed_words_in(before),
{
    assert forall|c: WordIndex| indexed_words_in(after).contains(c) implies indexed_words_in(before).contains(c) by {
        let y = choose|y: int| 0 <= y < after.len() && after[y] == SentencePart::Known(c);
        assert(before[y] == after[y]);
    }
    assert forall|c: WordIndex| indexed_words_in(before).contains(c) implies indexed_words_in(after).contains(c) by {
        let y = choose|y: int| 0 <= y < before.len() && before[y] == SentencePart::Known(c);
        assert(after[y] == before[y]);
    }
    assert(indexed_words_in(after) =~= indexed_words_in(before));
}

proof fn lemma_parts_same_literals(before: Seq<SentencePart>, after: Seq<SentencePart>, p: SentencePart)
    requires
        after == before.push(p),
        !(p is Unknown),
    ensures
        literals_in(after) == literals_in(before),
{
    assert forall|b: Seq<u8>| literals_in(after).contains(b) implies literals_in(before).contains(b) by {
        let y = choose|y: int|
            0 <= y < after.len() && (#[trigger] after[y]) is Unknown && encode_utf8(after[y]->Unknown_0@) == b;
        assert(before[y] == after[y]);
    }
    assert forall|b: Seq<u8>| literals_in(before).contains(b) implies literals_in(after).contains(b) by {
        let y = choose|y: int|
            0 <= y < before.len() && (#[trigger] before[y]) is Unknown && encode_utf8(before[y]->Unknown_0@) == b;
        assert(after[y] == before[y]);
    }
    assert(literals_in(after) =~= literals_in(before));
}

proof fn lemma_literals_step(
    before: Seq<SentencePart>,
    after: Seq<SentencePart>,
    old_unique: Seq<String>,
    new_unique: Seq<String>,
    text: Seq<char>,
)
    requires
        after.len() == before.len() + 1,
        forall|y: int| 0 <= y < before.len() ==> after[y] == before[y],
        after.last() is Unknown && after.last()->Unknown_0@ == text,
        literal_bytes(old_unique).no_duplicates(),
        literal_bytes(old_unique).to_set() == literals_in(before),
        literal_bytes(old_unique).contains(encode_utf8(text)) ==> new_unique == old_unique,
        !literal_bytes(old_unique).contains(encode_utf8(text)) ==> new_unique.len() == old_unique.len() + 1
            && new_unique.take(old_unique.len() as int) == old_unique && new_unique.last()@ == text,
    ensures
        literal_bytes(new_unique).no_duplicates(),
        literal_bytes(new_unique).to_set() == literals_in(after),
{
    let t = encode_utf8(text);
    if !literal_bytes(old_unique).contains(t) {
        assert(literal_bytes(new_unique) =~= literal_bytes(old_unique).push(t)) by {
            assert forall|j: int| 0 <= j < old_unique.len() implies new_unique[j] == old_unique[j] by {
                assert(new_unique.take(old_unique.len() as int)[j] == new_unique[j]);
            }
        }
    }
    assert forall|b: Seq<u8>| literals_in(after).contains(b) implies literal_bytes(new_unique).to_set().contains(b) by {
        let y = choose|y: int|
            0 <= y < after.len() && (#[trigger] after[y]) is Unknown && encode_utf8(after[y]->Unknown_0@) == b;
        if y < before.len() {
            assert(before[y] == after[y]);
            assert(literals_in(before).contains(b));
            assert(literal_bytes(old_unique).contains(b));
            let j = choose|j: int| 0 <= j < literal_bytes(old_unique).len() && literal_bytes(old_unique)[j] == b;
            if !literal_bytes(old_unique).contains(t) {
                assert(literal_bytes(new_unique)[j] == b);
            }
        } else {
            assert(b == t);
            if !literal_bytes(old_unique).contains(t) {
                assert(literal_bytes(new_unique).last() == t);
            }
        }
    }
    assert forall|b: Seq<u8>| literal_bytes(new_unique).to_set().contains(b) implies literals_in(after).contains(b) by {
        let j = choose|j: int| 0 <= j < literal_bytes(new_unique).len() && literal_bytes(new_unique)[j] == b;
        if j < old_unique.len() {
            if !literal_bytes(old_unique).contains(t) {
                assert(literal_bytes(old_unique)[j] == b);
            }
            assert(literal_bytes(old_unique).contains(b));
            assert(literals_in(before).contains(b));
            let y = choose|y: int|
                0 <= y < before.len() && (#[trigger] before[y]) is Unknown && encode_utf8(before[y]->Unknown_0@) == b;
            assert(after[y] == before[y]);
        } else {
            assert(after[after.len() - 1] == after.last());
        }
    }
    assert(literal_bytes(new_unique).to_set() =~= literals_in(after));
}

impl ParsedQuestion {
    /// Tokenizes a question and collects its distinct token classes.
    pub fn new(question: String, words: &WordsInFile, keywords: &ListedKeywords) -> (r: ParsedQuestion)
        requires
            words.wf(),
        ensures
            r.question@ == question@,
            exists|parts: Seq<SentencePart>, spans: Seq<(int, int, int)>|
                tiles(
                    encode_utf8(prepared(question@)),
                    parts,
                    spans,
                    file_words(words.bytes()),
                    keywords.classes(),
                ) && r.summarizes(parts),
    {
        let tokenized = TokenizedSentence::tokenize(question.as_str(), words, keywords);
        let r = ParsedQuestion::from_parts(question, &tokenized.parts);
        proof {
            let spans = choose|spans: Seq<(int, int, int)>|
                tiles(
                    encode_utf8(prepared(r.question@)),
                    tokenized.parts@,
                    spans,
                    file_words(words.bytes()),
                    keywords.classes(),
                );
            assert(tiles(
                encode_utf8(prepared(r.question@)),
                tokenized.parts@,
                spans,
                file_words(words.bytes()),
                keywords.classes(),
            ) && r.summarizes(tokenized.parts@));
        }
        r
    }
}

fn contains_keyword(v: &Vec<ListedKeywordIndex>, k: ListedKeywordIndex) -> (r: bool)
    ensures
        r == v@.contains(k),
{
    let mut i: usize = 0;
    while i < v.len()
        invariant
            i <= v@.len(),
            forall|j: int| 0 <= j < i ==> v@[j] != k,
        decreases v@.len() - i,
    {
        if v[i] == k {
            return true;
        }
        i = i + 1;
    }
    false
}

fn contains_word(v: &Vec<WordIndex>, w: WordIndex) -> (r: bool)
    ensures
        r == v@.contains(w),
{
    let mut i: usize = 0;
    while i < v.len()
        invariant
            i <= v@.len(),
            forall|j: int| 0 <= j < i ==> v@[j] != w,
        decreases v@.len() - i,
    {
        if v[i] == w {
            return true;
        }
        i = i + 1;
    }
    false
}

fn contains_literal(v: &Vec<String>, s: &str) -> (r: bool)
    ensures
        r == literal_bytes(v@).contains(s.spec_bytes()),
{
    let target = s.as_bytes();
    let mut i: usize = 0;
    while i < v.len()
        invariant
            i <= v@.len(),
            target@ == s.spec_bytes(),
            forall|j: int| 0 <= j < i ==> literal_bytes(v@)[j] != target@,
        decreases v@.len() - i,
    {
        if compare_bytes(v[i].as_str().as_bytes(), target) == 0 {
            assert(literal_bytes(v@)[i as int] == target@);
            return true;
        }
        i = i + 1;
    }
    false
}

} // verus!
