//! The in-memory question store: question texts, external identifiers and
//! three inverted indexes from token classes to the questions holding them.
//! It is rebuilt from an append-only log, one record per question.
use vstd::prelude::*;
use std::collections::HashMap;
use vstd::std_specs::hash::group_hash_axioms;
use vstd::string::StringSliceAdditionalSpecFns;
use vstd::utf8::encode_utf8;
use crate::database_backend::{InternalQuestionId, ParsedQuestion, indexed_words_in, keywords_in,
    literal_bytes, literals_in};
use crate::sentences::{SentencePart, lemma_tiles_agree, prepared, same_class, tiles};
use crate::listed_keywords::ListedKeywordIndex;
use crate::text::{compare_bytes, first_char, skip_first_char};
use vstd::string::StringExecFns;
use crate::word::WordIndex;

verus! {

broadcast use group_hash_axioms;

/// `list` grows by `id` unless `id` is already its last element.
pub open spec fn appended(list: Seq<InternalQuestionId>, id: InternalQuestionId) -> Seq<InternalQuestionId> {
    if list.len() > 0 && list.last() == id {
        list
    } else {
        list.push(id)
    }
}

/// Identifiers strictly increasing and below `bound`.
pub open spec fn ascending_below(list: Seq<InternalQuestionId>, bound: nat) -> bool {
    &&& forall|x: int| 0 <= x < list.len() ==> (#[trigger] list[x]).0 < bound
    &&& forall|x: int, y: int| 0 <= x < y < list.len() ==> list[x].0 < list[y].0
}

/// `after` is `before` with one more question: its text, its external
/// identifier, and its identifier appended to the posting lists of its
/// keyword classes, known words and literals.
pub open spec fn added(
    before: FlatfileDatabaseBackend,
    after: FlatfileDatabaseBackend,
    question: Seq<char>,
    external_id: u32,
    keywords: Set<ListedKeywordIndex>,
    known: Set<WordIndex>,
    literals: Set<Seq<u8>>,
) -> bool {
    let id = InternalQuestionId(before.count() as u32);
    &&& after.texts() == before.texts().push(question)
    &&& after.external() == before.external().push(external_id)
    &&& forall|k: usize|
        #[trigger] after.keyword_list(k) == if keywords.contains(ListedKeywordIndex(k)) {
            appended(before.keyword_list(k), id)
        } else {
            before.keyword_list(k)
        }
    &&& forall|w: u32|
        #[trigger] after.known_list(w) == if known.contains(WordIndex(w)) {
            appended(before.known_list(w), id)
        } else {
            before.known_list(w)
        }
    &&& forall|b: Seq<u8>|
        #[trigger] after.unique_list(b) == if literals.contains(b) {
            appended(before.unique_list(b), id)
        } else {
            before.unique_list(b)
        }
}

/// `after` is `before` with the question `text` added, indexed under the
/// token classes of its tokenization.
pub open spec fn added_text(
    before: FlatfileDatabaseBackend,
    after: FlatfileDatabaseBackend,
    text: Seq<char>,
    external_id: u32,
    words: Seq<Seq<u8>>,
    classes: Seq<Seq<Seq<u8>>>,
) -> bool {
    exists|parts: Seq<SentencePart>, spans: Seq<(int, int, int)>|
        tiles(encode_utf8(prepared(text)), parts, spans, words, classes) && added(
            before,
            after,
            text,
            external_id,
            keywords_in(parts),
            indexed_words_in(parts),
            literals_in(parts),
        )
}

/// Two stores hold the same questions and the same posting lists.
pub open spec fn same_state(a: FlatfileDatabaseBackend, b: FlatfileDatabaseBackend) -> bool {
    &&& a.texts() == b.texts()
    &&& a.external() == b.external()
    &&& forall|k: usize| #[trigger] a.keyword_list(k) == b.keyword_list(k)
    &&& forall|w: u32| #[trigger] a.known_list(w) == b.known_list(w)
    &&& forall|x: Seq<u8>| #[trigger] a.unique_list(x) == b.unique_list(x)
}

/// Replaying a log is a fixed point: from equal states, adding the same
/// record (same text, identifier and token classes) gives equal states and
/// the same internal identifier, so replaying the records of a store into a
/// fresh store rebuilds it exactly.
pub proof fn lemma_replay_same_state(
    a0: FlatfileDatabaseBackend,
    b0: FlatfileDatabaseBackend,
    a1: FlatfileDatabaseBackend,
    b1: FlatfileDatabaseBackend,
    question: Seq<char>,
    external_id: u32,
    keywords: Set<ListedKeywordIndex>,
    known: Set<WordIndex>,
    literals: Set<Seq<u8>>,
)
    requires
        same_state(a0, b0),
        added(a0, a1, question, external_id, keywords, known, literals),
        added(b0, b1, question, external_id, keywords, known, literals),
    ensures
        same_state(a1, b1),
        a0.count() == b0.count(),
{
    assert forall|k: usize| #[trigger] a1.keyword_list(k) == b1.keyword_list(k) by {
        assert(a0.keyword_list(k) == b0.keyword_list(k));
    }
    assert forall|w: u32| #[trigger] a1.known_list(w) == b1.known_list(w) by {
        assert(a0.known_list(w) == b0.known_list(w));
    }
    assert forall|x: Seq<u8>| #[trigger] a1.unique_list(x) == b1.unique_list(x) by {
        assert(a0.unique_list(x) == b0.unique_list(x));
    }
}

proof fn lemma_same_classes(p1: Seq<SentencePart>, p2: Seq<SentencePart>)
    requires
        p1.len() == p2.len(),
        forall|x: int| 0 <= x < p1.len() ==> same_class(#[trigger] p1[x], p2[x]),
    ensures
        keywords_in(p1) == keywords_in(p2),
        indexed_words_in(p1) == indexed_words_in(p2),
        literals_in(p1) == literals_in(p2),
{
    assert forall|k: ListedKeywordIndex| keywords_in(p1).contains(k) <==> keywords_in(p2).contains(k) by {
        if p1.contains(SentencePart::Listed(k)) {
            let y = choose|y: int| 0 <= y < p1.len() && p1[y] == SentencePart::Listed(k);
            assert(same_class(p1[y], p2[y]));
            assert(p2[y] == SentencePart::Listed(k));
        }
        if p2.contains(SentencePart::Listed(k)) {
            let y = choose|y: int| 0 <= y < p2.len() && p2[y] == SentencePart::Listed(k);
            assert(same_class(p1[y], p2[y]));
            assert(p1[y] == SentencePart::Listed(k));
        }
    }
    assert forall|w: WordIndex| indexed_words_in(p1).contains(w) <==> indexed_words_in(p2).contains(w) by {
        if p1.contains(SentencePart::Known(w)) {
            let y = choose|y: int| 0 <= y < p1.len() && p1[y] == SentencePart::Known(w);
            assert(same_class(p1[y], p2[y]));
            assert(p2[y] == SentencePart::Known(w));
        }
        if p2.contains(SentencePart::Known(w)) {
            let y = choose|y: int| 0 <= y < p2.len() && p2[y] == SentencePart::Known(w);
            assert(same_class(p1[y], p2[y]));
            assert(p1[y] == SentencePart::Known(w));
        }
    }
    assert forall|b: Seq<u8>| literals_in(p1).contains(b) <==> literals_in(p2).contains(b) by {
        if literals_in(p1).contains(b) {
            let y = choose|y: int| 0 <= y < p1.len() && (#[trigger] p1[y]) is Unknown && encode_utf8(p1[y]->Unknown_0@) == b;
            assert(same_class(p1[y], p2[y]));
        }
        if literals_in(p2).contains(b) {
            let y = choose|y: int| 0 <= y < p2.len() && (#[trigger] p2[y]) is Unknown && encode_utf8(p2[y]->Unknown_0@) == b;
            assert(same_class(p1[y], p2[y]));
        }
    }
    assert(keywords_in(p1) =~= keywords_in(p2));
    assert(indexed_words_in(p1) =~= indexed_words_in(p2));
    assert(literals_in(p1) =~= literals_in(p2));
}

/// Replaying a log rebuilds the store: from equal states, replaying the same
/// record (same text and external identifier) against a vocabulary without
/// repeated words gives equal states, posting list for posting list, and the
/// same internal identifier.
pub proof fn lemma_replay_text_same_state(
    a0: FlatfileDatabaseBackend,
    b0: FlatfileDatabaseBackend,
    a1: FlatfileDatabaseBackend,
    b1: FlatfileDatabaseBackend,
    text: Seq<char>,
    external_id: u32,
    words: Seq<Seq<u8>>,
    classes: Seq<Seq<Seq<u8>>>,
)
    requires
        same_state(a0, b0),
        crate::word::all_distinct(words),
        added_text(a0, a1, text, external_id, words, classes),
        added_text(b0, b1, text, external_id, words, classes),
    ensures
        same_state(a1, b1),
        a0.count() == b0.count(),
{
    let t = encode_utf8(prepared(text));
    let (p1, s1) = choose|parts: Seq<SentencePart>, spans: Seq<(int, int, int)>|
        tiles(t, parts, spans, words, classes) && added(
            a0,
            a1,
            text,
            external_id,
            keywords_in(parts),
            indexed_words_in(parts),
            literals_in(parts),
        );
    let (p2, s2) = choose|parts: Seq<SentencePart>, spans: Seq<(int, int, int)>|
        tiles(t, parts, spans, words, classes) && added(
            b0,
            b1,
            text,
            external_id,
            keywords_in(parts),
            indexed_words_in(parts),
            literals_in(parts),
        );
    lemma_tiles_agree(t, p1, s1, p2, s2, words, classes);
    lemma_same_classes(p1, p2);
    lemma_replay_same_state(
        a0,
        b0,
        a1,
        b1,
        text,
        external_id,
        keywords_in(p1),
        indexed_words_in(p1),
        literals_in(p1),
    );
}

/// The question store.
pub struct FlatfileDatabaseBackend {
    questions: Vec<String>,
    external_ids: Vec<u32>,
    containing_keyword: HashMap<usize, Vec<InternalQuestionId>>,
    containing_known_word: HashMap<u32, Vec<InternalQuestionId>>,
    unique_keys: Vec<String>,
    unique_lists: Vec<Vec<InternalQuestionId>>,
}

impl FlatfileDatabaseBackend {
    /// The text of each question, by internal identifier.
    pub closed spec fn texts(&self) -> Seq<Seq<char>> {
        self.questions@.map_values(|q: String| q@)
    }

    /// The external identifier of each question, by internal identifier.
    pub closed spec fn external(&self) -> Seq<u32> {
        self.external_ids@
    }

    /// The questions holding keyword class `k`, in insertion order.
    pub closed spec fn keyword_list(&self, k: usize) -> Seq<InternalQuestionId> {
        if self.containing_keyword@.contains_key(k) {
            self.containing_keyword@[k]@
        } else {
            Seq::empty()
        }
    }

    /// The questions holding known word `w`, in insertion order.
    pub closed spec fn known_list(&self, w: u32) -> Seq<InternalQuestionId> {
        if self.containing_known_word@.contains_key(w) {
            self.containing_known_word@[w]@
        } else {
            Seq::empty()
        }
    }

    /// The questions holding the unknown literal `b`, in insertion order.
    pub closed spec fn unique_list(&self, b: Seq<u8>) -> Seq<InternalQuestionId> {
        let keys = literal_bytes(self.unique_keys@);
        if keys.contains(b) {
            self.unique_lists@[choose|j: int| 0 <= j < keys.len() && keys[j] == b]@
        } else {
            Seq::empty()
        }
    }

    proof fn lemma_unique_at(&self, j0: int)
        requires
            literal_bytes(self.unique_keys@).no_duplicates(),
            0 <= j0 < self.unique_keys@.len(),
        ensures
            self.unique_list(literal_bytes(self.unique_keys@)[j0]) == self.unique_lists@[j0]@,
    {
        let keys = literal_bytes(self.unique_keys@);
        let b = keys[j0];
        assert(keys.contains(b));
        let j = choose|j: int| 0 <= j < keys.len() && keys[j] == b;
        assert(j == j0);
    }

    /// Where the literal `s` is among the keys of the literal index.
    fn find_literal(&self, s: &str) -> (r: Option<usize>)
        requires
            self.unique_keys@.len() == self.unique_lists@.len(),
        ensures
            r matches Some(j) ==> j < self.unique_keys@.len() && literal_bytes(self.unique_keys@)[j as int]
                == s.spec_bytes(),
            r is None ==> !literal_bytes(self.unique_keys@).contains(s.spec_bytes()),
    {
        let target = s.as_bytes();
        let mut j: usize = 0;
        while j < self.unique_keys.len()
            invariant
                j <= self.unique_keys@.len(),
                target@ == s.spec_bytes(),
                forall|x: int| 0 <= x < j ==> literal_bytes(self.unique_keys@)[x] != target@,
            decreases self.unique_keys@.len() - j,
        {
            if compare_bytes(self.unique_keys[j].as_str().as_bytes(), target) == 0 {
                return Some(j);
            }
            j = j + 1;
        }
        None
    }

    pub closed spec fn wf(&self) -> bool {
        &&& self.questions@.len() == self.external_ids@.len()
        &&& self.questions@.len() < u32::MAX
        &&& self.unique_keys@.len() == self.unique_lists@.len()
        &&& literal_bytes(self.unique_keys@).no_duplicates()
        &&& forall|k: usize| ascending_below(#[trigger] self.keyword_list(k), self.questions@.len())
        &&& forall|w: u32| ascending_below(#[trigger] self.known_list(w), self.questions@.len())
        &&& forall|j: int|
            0 <= j < self.unique_lists@.len() ==> ascending_below(
                #[trigger] self.unique_lists@[j]@,
                self.questions@.len(),
            )
    }

    /// The number of questions.
    pub open spec fn count(&self) -> nat {
        self.texts().len()
    }

    /// An empty store.
    pub fn new() -> (r: FlatfileDatabaseBackend)
        ensures
            r.wf(),
            r.texts() == Seq::<Seq<char>>::empty(),
            r.external() == Seq::<u32>::empty(),
            forall|k: usize| #[trigger] r.keyword_list(k) == Seq::<InternalQuestionId>::empty(),
            forall|w: u32| #[trigger] r.known_list(w) == Seq::<InternalQuestionId>::empty(),
            forall|b: Seq<u8>| #[trigger] r.unique_list(b) == Seq::<InternalQuestionId>::empty(),
    {
        let r = FlatfileDatabaseBackend {
            questions: Vec::new(),
            external_ids: Vec::new(),
            containing_keyword: HashMap::new(),
            containing_known_word: HashMap::new(),
            unique_keys: Vec::new(),
            unique_lists: Vec::new(),
        };
        assert(r.texts() =~= Seq::<Seq<char>>::empty());
        r
    }

    /// The number of questions.
    pub fn len(&self) -> (r: usize)
        requires
            self.wf(),
        ensures
            r == self.count(),
    {
        self.questions.len()
    }

    /// Stores a parsed question under the next internal identifier and adds
    /// that identifier to the posting list of each of its token classes,
    /// never twice in a row.
    #[verifier::rlimit(60)]
    pub fn add_work(&mut self, question: ParsedQuestion, external_id: u32) -> (r: InternalQuestionId)
        requires
            old(self).wf(),
            old(self).count() + 1 < u32::MAX,
        ensures
            final(self).wf(),
            r.0 == old(self).count(),
            added(
                *old(self),
                *final(self),
                question.question@,
                external_id,
                question.keywords@.to_set(),
                question.known_words@.to_set(),
                literal_bytes(question.unique_words@).to_set(),
            ),
    {
        let id = InternalQuestionId(self.questions.len() as u32);
        let ghost n = self.questions@.len();
        let mut i: usize = 0;
        while i < question.keywords.len()
            invariant
                0 <= i <= question.keywords@.len(),
                n == old(self).questions@.len(),
                id.0 == n,
                self.questions == old(self).questions,
                self.external_ids == old(self).external_ids,
                self.containing_known_word == old(self).containing_known_word,
                self.unique_keys == old(self).unique_keys,
                self.unique_lists == old(self).unique_lists,
                forall|k: usize|
                    ascending_below(#[trigger] self.keyword_list(k), n + 1),
                forall|k: usize|
                    #[trigger] self.keyword_list(k) == if question.keywords@.take(i as int).contains(
                        ListedKeywordIndex(k),
                    ) {
                        appended(old(self).keyword_list(k), id)
                    } else {
                        old(self).keyword_list(k)
                    },
            decreases question.keywords@.len() - i,
        {
            let key = question.keywords[i].0;
            let ghost before = self.keyword_list(key);
            let ghost map0 = self.containing_keyword@;
            let ghost prior = *self;
            let mut list = match self.containing_keyword.remove(&key) {
                Some(l) => l,
                None => Vec::new(),
            };
            assert(list@ == before);
            if list.len() == 0 || list[list.len() - 1] != id {
                list.push(id);
            }
            assert(list@ == appended(before, id));
            self.containing_keyword.insert(key, list);
            proof {
                assert(self.containing_keyword@ == map0.remove(key).insert(key, list));
                assert forall|k: usize| k != key implies #[trigger] self.keyword_list(k) == prior.keyword_list(k) by {
                    assert(self.containing_keyword@.contains_key(k) == map0.contains_key(k));
                    if map0.contains_key(k) {
                        assert(self.containing_keyword@[k] == map0[k]);
                    }
                }
                assert(self.keyword_list(key) == list@);
                assert(question.keywords@.take(i as int + 1) =~= question.keywords@.take(i as int).push(
                    ListedKeywordIndex(key),
                ));
                assert forall|k: usize| #[trigger] self.keyword_list(k) == if question.keywords@.take(i as int + 1).contains(ListedKeywordIndex(k)) {
                    appended(old(self).keyword_list(k), id)
                } else {
                    old(self).keyword_list(k)
                } by {
                    if k == key {
                        assert(question.keywords@.take(i as int + 1)[i as int] == ListedKeywordIndex(k));
                        if question.keywords@.take(i as int).contains(ListedKeywordIndex(k)) {
                            assert(before == appended(old(self).keyword_list(k), id));
                        }
                    } else {
                        assert(self.keyword_list(k) == prior.keyword_list(k));
                        if question.keywords@.take(i as int + 1).contains(ListedKeywordIndex(k)) {
                            let y = choose|y: int| 0 <= y < i + 1 && #[trigger] question.keywords@.take(i as int + 1)[y] == ListedKeywordIndex(k);
                            assert(question.keywords@.take(i as int)[y] == ListedKeywordIndex(k));
                        }
                        if question.keywords@.take(i as int).contains(ListedKeywordIndex(k)) {
                            let y = choose|y: int| 0 <= y < i && #[trigger] question.keywords@.take(i as int)[y] == ListedKeywordIndex(k);
                            assert(question.keywords@.take(i as int + 1)[y] == ListedKeywordIndex(k));
                        }
                    }
                }
                assert forall|k: usize| ascending_below(#[trigger] self.keyword_list(k), n + 1) by {
                    if k == key {
                        assert(ascending_below(before, n + 1));
                    }
                }
            }
            i = i + 1;
        }
        assert(question.keywords@.take(question.keywords@.len() as int) =~= question.keywords@);
        let ghost after_keywords = self.containing_keyword;
        assert forall|w: u32| ascending_below(#[trigger] self.known_list(w), n + 1) by {
            assert(self.known_list(w) == old(self).known_list(w));
            assert(ascending_below(old(self).known_list(w), n));
        }
        let mut i: usize = 0;
        while i < question.known_words.len()
            invariant
                0 <= i <= question.known_words@.len(),
                n == old(self).questions@.len(),
                id.0 == n,
                self.questions == old(self).questions,
                self.external_ids == old(self).external_ids,
                self.unique_keys == old(self).unique_keys,
                self.unique_lists == old(self).unique_lists,
                self.containing_keyword == after_keywords,
                forall|k: usize|
                    #[trigger] self.keyword_list(k) == if question.keywords@.contains(ListedKeywordIndex(k)) {
                        appended(old(self).keyword_list(k), id)
                    } else {
                        old(self).keyword_list(k)
                    },
                forall|k: usize| ascending_below(#[trigger] self.keyword_list(k), n + 1),
                forall|w: u32| ascending_below(#[trigger] self.known_list(w), n + 1),
                forall|w: u32|
                    #[trigger] self.known_list(w) == if question.known_words@.take(i as int).contains(WordIndex(w)) {
                        appended(old(self).known_list(w), id)
                    } else {
                        old(self).known_list(w)
                    },
            decreases question.known_words@.len() - i,
        {
            let key = question.known_words[i].0;
            let ghost before = self.known_list(key);
            let ghost map0 = self.containing_known_word@;
            let ghost prior = *self;
            let mut list = match self.containing_known_word.remove(&key) {
                Some(l) => l,
                None => Vec::new(),
            };
            assert(list@ == before);
            if list.len() == 0 || list[list.len() - 1] != id {
                list.push(id);
            }
            assert(list@ == appended(before, id));
            self.containing_known_word.insert(key, list);
            proof {
                assert(self.containing_known_word@ == map0.remove(key).insert(key, list));
                assert forall|w: u32| w != key implies #[trigger] self.known_list(w) == prior.known_list(w) by {
                    assert(self.containing_known_word@.contains_key(w) == map0.contains_key(w));
                    if map0.contains_key(w) {
                        assert(self.containing_known_word@[w] == map0[w]);
                    }
                }
                assert(self.known_list(key) == list@);
                assert(question.known_words@.take(i as int + 1) =~= question.known_words@.take(i as int).push(
                    WordIndex(key),
                ));
                assert forall|w: u32| #[trigger] self.known_list(w) == if question.known_words@.take(i as int + 1).contains(WordIndex(w)) {
                    appended(old(self).known_list(w), id)
                } else {
                    old(self).known_list(w)
                } by {
                    if w == key {
                        assert(question.known_words@.take(i as int + 1)[i as int] == WordIndex(w));
                        if question.known_words@.take(i as int).contains(WordIndex(w)) {
                            assert(before == appended(old(self).known_list(w), id));
                        }
                    } else {
                        assert(self.known_list(w) == prior.known_list(w));
                        if question.known_words@.take(i as int + 1).contains(WordIndex(w)) {
                            let y = choose|y: int| 0 <= y < i + 1 && #[trigger] question.known_words@.take(i as int + 1)[y] == WordIndex(w);
                            assert(question.known_words@.take(i as int)[y] == WordIndex(w));
                        }
                        if question.known_words@.take(i as int).contains(WordIndex(w)) {
                            let y = choose|y: int| 0 <= y < i && #[trigger] question.known_words@.take(i as int)[y] == WordIndex(w);
                            assert(question.known_words@.take(i as int + 1)[y] == WordIndex(w));
                        }
                    }
                }
                assert forall|w: u32| ascending_below(#[trigger] self.known_list(w), n + 1) by {
                    if w == key {
                        assert(ascending_below(before, n + 1));
                    }
                }
                assert forall|k: usize| #[trigger] self.keyword_list(k) == prior.keyword_list(k) by {}
            }
            i = i + 1;
        }
        assert(question.known_words@.take(question.known_words@.len() as int) =~= question.known_words@);
        let ghost after_known = self.containing_known_word;
        assert forall|j: int| 0 <= j < self.unique_lists@.len() implies ascending_below(
            #[trigger] self.unique_lists@[j]@,
            n + 1,
        ) by {
            assert(ascending_below(self.unique_lists@[j]@, n));
        }
        let mut i: usize = 0;
        while i < question.unique_words.len()
            invariant
                0 <= i <= question.unique_words@.len(),
                n == old(self).questions@.len(),
                id.0 == n,
                self.questions == old(self).questions,
                self.external_ids == old(self).external_ids,
                self.containing_keyword == after_keywords,
                self.containing_known_word == after_known,
                forall|k: usize|
                    #[trigger] self.keyword_list(k) == if question.keywords@.contains(ListedKeywordIndex(k)) {
                        appended(old(self).keyword_list(k), id)
                    } else {
                        old(self).keyword_list(k)
                    },
                forall|k: usize| ascending_below(#[trigger] self.keyword_list(k), n + 1),
                forall|w: u32| ascending_below(#[trigger] self.known_list(w), n + 1),
                forall|w: u32|
                    #[trigger] self.known_list(w) == if question.known_words@.contains(WordIndex(w)) {
                        appended(old(self).known_list(w), id)
                    } else {
                        old(self).known_list(w)
                    },
                self.unique_keys@.len() == self.unique_lists@.len(),
                literal_bytes(self.unique_keys@).no_duplicates(),
                forall|j: int|
                    0 <= j < self.unique_lists@.len() ==> ascending_below(
                        #[trigger] self.unique_lists@[j]@,
                        n + 1,
                    ),
                forall|b: Seq<u8>|
                    #[trigger] self.unique_list(b) == if literal_bytes(question.unique_words@).take(i as int).contains(b) {
                        appended(old(self).unique_list(b), id)
                    } else {
                        old(self).unique_list(b)
                    },
            decreases question.unique_words@.len() - i,
        {
            let word = question.unique_words[i].as_str();
            let ghost wb = word.spec_bytes();
            let ghost prior = *self;
            let ghost seen = literal_bytes(question.unique_words@).take(i as int);
            let ghost seen_next = literal_bytes(question.unique_words@).take(i as int + 1);
            assert(seen_next =~= seen.push(wb));
            match self.find_literal(word) {
                Some(j) => {
                    let ghost before = self.unique_lists@[j as int]@;
                    proof {
                        prior.lemma_unique_at(j as int);
                    }
                    let last_is_id = self.unique_lists[j].len() > 0
                        && self.unique_lists[j][self.unique_lists[j].len() - 1] == id;
                    if !last_is_id {
                        self.unique_lists[j].push(id);
                    }
                    proof {
                        assert(self.unique_lists@[j as int]@ == appended(before, id));
                        assert(self.unique_keys == prior.unique_keys);
                        self.lemma_unique_at(j as int);
                        assert forall|b: Seq<u8>| #[trigger] self.unique_list(b) == if seen_next.contains(b) {
                            appended(old(self).unique_list(b), id)
                        } else {
                            old(self).unique_list(b)
                        } by {
                            let keys = literal_bytes(self.unique_keys@);
                            if b == wb {
                                assert(seen_next[i as int] == b);
                                assert(prior.unique_list(b) == before);
                                assert(self.unique_list(b) == appended(before, id));
                            } else {
                                assert(self.unique_list(b) == prior.unique_list(b)) by {
                                    if keys.contains(b) {
                                        let j1 = choose|j1: int| 0 <= j1 < keys.len() && keys[j1] == b;
                                        self.lemma_unique_at(j1);
                                        prior.lemma_unique_at(j1);
                                        assert(self.unique_lists@[j1] == prior.unique_lists@[j1]);
                                    }
                                }
                                if keys.contains(b) {
                                    let j1 = choose|j1: int| 0 <= j1 < keys.len() && keys[j1] == b;
                                    self.lemma_unique_at(j1);
                                    prior.lemma_unique_at(j1);
                                    assert(self.unique_lists@[j1] == prior.unique_lists@[j1]);
                                }
                                if seen_next.contains(b) {
                                    let y = choose|y: int| 0 <= y < seen_next.len() && seen_next[y] == b;
                                    assert(seen[y] == b);
                                }
                                if seen.contains(b) {
                                    let y = choose|y: int| 0 <= y < seen.len() && seen[y] == b;
                                    assert(seen_next[y] == b);
                                }
                            }
                        }
                        assert forall|x: int|
                            0 <= x < self.unique_lists@.len() implies ascending_below(
                            #[trigger] self.unique_lists@[x]@,
                            n + 1,
                        ) by {
                            if x == j {
                                assert(ascending_below(before, n + 1));
                            } else {
                                assert(self.unique_lists@[x] == prior.unique_lists@[x]);
                            }
                        }
                    }
                },
                None => {
                    let owned = word.to_owned();
                    let mut list: Vec<InternalQuestionId> = Vec::new();
                    list.push(id);
                    self.unique_keys.push(owned);
                    self.unique_lists.push(list);
                    proof {
                        let old_keys = literal_bytes(prior.unique_keys@);
                        let keys = literal_bytes(self.unique_keys@);
                        assert(keys =~= old_keys.push(wb));
                        assert forall|x: int, y: int| 0 <= x < y < keys.len() implies keys[x] != keys[y] by {
                            if y == old_keys.len() {
                                assert(old_keys[x] == keys[x]);
                            }
                        }
                        let last = self.unique_keys@.len() - 1;
                        self.lemma_unique_at(last);
                        assert(keys[last] == wb);
                        assert forall|b: Seq<u8>| #[trigger] self.unique_list(b) == if seen_next.contains(b) {
                            appended(old(self).unique_list(b), id)
                        } else {
                            old(self).unique_list(b)
                        } by {
                            if b == wb {
                                assert(seen_next[i as int] == b);
                                assert(prior.unique_list(b) == Seq::<InternalQuestionId>::empty());
                                assert(self.unique_list(b) == self.unique_lists@[last]@);
                                if seen.contains(b) {
                                    assert(prior.unique_list(b) == appended(old(self).unique_list(b), id));
                                }
                                assert(self.unique_lists@[last]@ =~= seq![id]);
                            } else {
                                if keys.contains(b) {
                                    let j1 = choose|j1: int| 0 <= j1 < keys.len() && keys[j1] == b;
                                    self.lemma_unique_at(j1);
                                    assert(j1 < old_keys.len());
                                    assert(old_keys[j1] == b);
                                    prior.lemma_unique_at(j1);
                                    assert(self.unique_lists@[j1] == prior.unique_lists@[j1]);
                                } else {
                                    assert(!old_keys.contains(b)) by {
                                        if old_keys.contains(b) {
                                            let j1 = choose|j1: int| 0 <= j1 < old_keys.len() && old_keys[j1] == b;
                                            assert(keys[j1] == b);
                                        }
                                    }
                                }
                                assert(self.unique_list(b) == prior.unique_list(b));
                                if seen_next.contains(b) {
                                    let y = choose|y: int| 0 <= y < seen_next.len() && seen_next[y] == b;
                                    assert(seen[y] == b);
                                }
                                if seen.contains(b) {
                                    let y = choose|y: int| 0 <= y < seen.len() && seen[y] == b;
                                    assert(seen_next[y] == b);
                                }
                            }
                        }
                        assert forall|x: int|
                            0 <= x < self.unique_lists@.len() implies ascending_below(
                            #[trigger] self.unique_lists@[x]@,
                            n + 1,
                        ) by {
                            if x < last {
                                assert(self.unique_lists@[x] == prior.unique_lists@[x]);
                            }
                        }
                    }
                },
            }
            proof {
                assert forall|k: usize| #[trigger] self.keyword_list(k) == prior.keyword_list(k) by {}
                assert forall|w: u32| #[trigger] self.known_list(w) == prior.known_list(w) by {}
            }
            i = i + 1;
        }
        assert(literal_bytes(question.unique_words@).take(question.unique_words@.len() as int)
            =~= literal_bytes(question.unique_words@));
        let ghost before_push = *self;
        self.questions.push(question.question);
        self.external_ids.push(external_id);
        assert(self.texts() =~= old(self).texts().push(question.question@));
        assert forall|k: usize| #[trigger] self.keyword_list(k) == before_push.keyword_list(k) by {}
        assert forall|w: u32| #[trigger] self.known_list(w) == before_push.known_list(w) by {}
        assert forall|b: Seq<u8>| #[trigger] self.unique_list(b) == before_push.unique_list(b) by {}
        proof {
            assert forall|k: usize| #[trigger] question.keywords@.to_set().contains(ListedKeywordIndex(k))
                == question.keywords@.contains(ListedKeywordIndex(k)) by {}
            assert forall|w: u32| #[trigger] question.known_words@.to_set().contains(WordIndex(w))
                == question.known_words@.contains(WordIndex(w)) by {}
        }
        id
    }
}

impl FlatfileDatabaseBackend {
    /// Every posting list holds identifiers of stored questions only.
    pub proof fn lemma_lists_below(&self)
        requires
            self.wf(),
        ensures
            self.count() < u32::MAX,
            forall|k: usize, y: int|
                0 <= y < self.keyword_list(k).len() ==> (#[trigger] self.keyword_list(k)[y]).0 < self.count(),
            forall|w: u32, y: int|
                0 <= y < self.known_list(w).len() ==> (#[trigger] self.known_list(w)[y]).0 < self.count(),
            forall|b: Seq<u8>, y: int|
                0 <= y < self.unique_list(b).len() ==> (#[trigger] self.unique_list(b)[y]).0 < self.count(),
    {
        assert forall|k: usize, y: int|
            0 <= y < self.keyword_list(k).len() implies (#[trigger] self.keyword_list(k)[y]).0 < self.count() by {
            assert(ascending_below(self.keyword_list(k), self.questions@.len()));
        }
        assert forall|w: u32, y: int|
            0 <= y < self.known_list(w).len() implies (#[trigger] self.known_list(w)[y]).0 < self.count() by {
            assert(ascending_below(self.known_list(w), self.questions@.len()));
        }
        assert forall|b: Seq<u8>, y: int|
            0 <= y < self.unique_list(b).len() implies (#[trigger] self.unique_list(b)[y]).0 < self.count() by {
            let keys = literal_bytes(self.unique_keys@);
            if keys.contains(b) {
                let j = choose|j: int| 0 <= j < keys.len() && keys[j] == b;
                assert(ascending_below(self.unique_lists@[j]@, self.questions@.len()));
            }
        }
    }

    /// The questions holding a curated keyword class.
    pub fn sentences_containing_listed_word(&self, word: ListedKeywordIndex) -> (r: Option<
        &Vec<InternalQuestionId>,
    >)
        ensures
            r matches Some(l) ==> l@ == self.keyword_list(word.0),
            r is None <==> self.keyword_list(word.0) == Seq::<InternalQuestionId>::empty(),
    {
        match self.containing_keyword.get(&word.0) {
            Some(l) => if l.len() > 0 {
                Some(l)
            } else {
                assert(l@ =~= Seq::<InternalQuestionId>::empty());
                None
            },
            None => None,
        }
    }

    /// The questions holding a word of the general vocabulary.
    pub fn sentences_containing_general_lexicon_word(&self, word: WordIndex) -> (r: Option<
        &Vec<InternalQuestionId>,
    >)
        ensures
            r matches Some(l) ==> l@ == self.known_list(word.0),
            r is None <==> self.known_list(word.0) == Seq::<InternalQuestionId>::empty(),
    {
        match self.containing_known_word.get(&word.0) {
            Some(l) => if l.len() > 0 {
                Some(l)
            } else {
                assert(l@ =~= Seq::<InternalQuestionId>::empty());
                None
            },
            None => None,
        }
    }

    /// The questions holding an unknown literal.
    pub fn sentences_containing_unknown_word(&self, word: &str) -> (r: Option<&Vec<InternalQuestionId>>)
        requires
            self.wf(),
        ensures
            r matches Some(l) ==> l@ == self.unique_list(word.spec_bytes()),
            r is None <==> self.unique_list(word.spec_bytes()) == Seq::<InternalQuestionId>::empty(),
    {
        match self.find_literal(word) {
            Some(j) => {
                proof {
                    self.lemma_unique_at(j as int);
                }
                if self.unique_lists[j].len() > 0 {
                    Some(&self.unique_lists[j])
                } else {
                    assert(self.unique_lists@[j as int]@ =~= Seq::<InternalQuestionId>::empty());
                    None
                }
            },
            None => None,
        }
    }

    /// The text of every question, by internal identifier.
    pub fn get_all_questions(&self) -> (r: Vec<String>)
        ensures
            r@.map_values(|q: String| q@) == self.texts(),
    {
        let mut res: Vec<String> = Vec::new();
        let mut i: usize = 0;
        while i < self.questions.len()
            invariant
                i <= self.questions@.len(),
                res@.len() == i,
                forall|y: int| 0 <= y < i ==> (#[trigger] res@[y])@ == self.questions@[y]@,
            decreases self.questions@.len() - i,
        {
            res.push(self.questions[i].clone());
            i = i + 1;
        }
        assert(res@.map_values(|q: String| q@) =~= self.texts());
        res
    }

    /// The text of the first question stored under an external identifier.
    pub fn lookup(&self, id: u32) -> (r: Option<String>)
        requires
            self.wf(),
        ensures
            r matches Some(q) ==> exists|i: int|
                0 <= i < self.count() && self.external()[i] == id && q@ == self.texts()[i] && forall|j: int|
                    0 <= j < i ==> self.external()[j] != id,
            r is None ==> !self.external().contains(id),
    {
        let mut i: usize = 0;
        while i < self.external_ids.len()
            invariant
                i <= self.external_ids@.len(),
                self.questions@.len() == self.external_ids@.len(),
                forall|j: int| 0 <= j < i ==> self.external_ids@[j] != id,
            decreases self.external_ids@.len() - i,
        {
            if self.external_ids[i] == id {
                let q = self.questions[i].clone();
                assert(q@ == self.texts()[i as int]);
                return Some(q);
            }
            i = i + 1;
        }
        None
    }

    /// The external identifier of each ranked question, in the same order.
    pub fn convert_internal_ids_to_external_ids(&self, ranked: &Vec<(InternalQuestionId, u64)>) -> (r:
        Option<Vec<(u32, u64)>>)
        requires
            self.wf(),
        ensures
            r is Some <==> forall|x: int| 0 <= x < ranked@.len() ==> (#[trigger] ranked@[x]).0.0 < self.count(),
            r matches Some(v) ==> v@.len() == ranked@.len() && forall|x: int|
                0 <= x < v@.len() ==> (#[trigger] v@[x]) == (self.external()[ranked@[x].0.0 as int], ranked@[x].1),
    {
        let mut res: Vec<(u32, u64)> = Vec::new();
        let mut x: usize = 0;
        while x < ranked.len()
            invariant
                x <= ranked@.len(),
                self.questions@.len() == self.external_ids@.len(),
                forall|y: int| 0 <= y < x ==> (#[trigger] ranked@[y]).0.0 < self.count(),
                res@.len() == x,
                forall|y: int|
                    0 <= y < x ==> (#[trigger] res@[y]) == (self.external()[ranked@[y].0.0 as int], ranked@[y].1),
            decreases ranked@.len() - x,
        {
            let (id, score) = ranked[x];
            if id.0 as usize >= self.external_ids.len() {
                return None;
            }
            res.push((self.external_ids[id.0 as usize], score));
            x = x + 1;
        }
        Some(res)
    }

    /// Empties the store.
    pub fn clear_all_reinitialize(&mut self)
        ensures
            final(self).wf(),
            final(self).texts() == Seq::<Seq<char>>::empty(),
            final(self).external() == Seq::<u32>::empty(),
            forall|k: usize| #[trigger] final(self).keyword_list(k) == Seq::<InternalQuestionId>::empty(),
            forall|w: u32| #[trigger] final(self).known_list(w) == Seq::<InternalQuestionId>::empty(),
            forall|b: Seq<u8>| #[trigger] final(self).unique_list(b) == Seq::<InternalQuestionId>::empty(),
    {
        *self = FlatfileDatabaseBackend::new();
    }
}

/// The character of a decimal digit.
pub open spec fn digit_char(d: nat) -> char {
    seq!['0', '1', '2', '3', '4', '5', '6', '7', '8', '9'][d as int]
}

/// The decimal text of `n`, without leading zeros.
pub open spec fn decimal(n: nat) -> Seq<char>
    decreases n,
{
    if n < 10 {
        seq![digit_char(n)]
    } else {
        decimal(n / 10).push(digit_char(n % 10))
    }
}

/// The value of a string of decimal digits.
pub open spec fn digits_value(cs: Seq<char>) -> nat
    decreases cs.len(),
{
    if cs.len() == 0 {
        0
    } else {
        digits_value(cs.drop_last()) * 10 + ((cs.last() as u32) - 48) as nat
    }
}

pub open spec fn is_digit(c: char) -> bool {
    '0' <= c <= '9'
}

/// `cs` without a leading plus sign.
pub open spec fn sign_dropped(cs: Seq<char>) -> Seq<char> {
    if cs.len() > 0 && cs[0] == '+' {
        cs.drop_first()
    } else {
        cs
    }
}

/// What `u32::from_str` gives for `cs`: an optional plus sign, then at least
/// one digit, with a value that fits.
pub open spec fn parsed_u32(cs: Seq<char>) -> Option<u32> {
    let body = sign_dropped(cs);
    if body.len() > 0 && (forall|x: int| 0 <= x < body.len() ==> is_digit(#[trigger] body[x]))
        && digits_value(body) <= u32::MAX {
        Some(digits_value(body) as u32)
    } else {
        None
    }
}

/// The log record of a question: its external identifier in decimal, a tab,
/// and the question with newlines as spaces.
pub open spec fn record_of(id: u32, question: Seq<char>) -> Seq<char> {
    decimal(id as nat) + seq!['\t'] + crate::text::newlines_to_spaces(question)
}

/// The text of one decimal digit.
fn digit_text(d: u32) -> (r: &'static str)
    requires
        d < 10,
    ensures
        r@ == seq![digit_char(d as nat)],
{
    match d {
        0 => {
            proof {
                reveal_strlit("0");
            }
            "0"
        },
        1 => {
            proof {
                reveal_strlit("1");
            }
            "1"
        },
        2 => {
            proof {
                reveal_strlit("2");
            }
            "2"
        },
        3 => {
            proof {
                reveal_strlit("3");
            }
            "3"
        },
        4 => {
            proof {
                reveal_strlit("4");
            }
            "4"
        },
        5 => {
            proof {
                reveal_strlit("5");
            }
            "5"
        },
        6 => {
            proof {
                reveal_strlit("6");
            }
            "6"
        },
        7 => {
            proof {
                reveal_strlit("7");
            }
            "7"
        },
        8 => {
            proof {
                reveal_strlit("8");
            }
            "8"
        },
        _ => {
            proof {
                reveal_strlit("9");
            }
            "9"
        },
    }
}

/// The decimal text of `n`.
pub fn decimal_text(n: u32) -> (r: String)
    ensures
        r@ == decimal(n as nat),
    decreases n,
{
    if n < 10 {
        String::from_str(digit_text(n))
    } else {
        let mut r = decimal_text(n / 10);
        r.append(digit_text(n % 10));
        r
    }
}

/// The line that the log holds for a question, without its line end.
pub fn log_record(id: u32, question: &str) -> (r: String)
    ensures
        r@ == record_of(id, question@),
{
    let text = crate::text::replace_newlines(question);
    let mut r = decimal_text(id);
    proof {
        reveal_strlit("\t");
    }
    r.append("\t");
    r.append(text.as_str());
    r
}

/// The position of the first tab in `cs`, or its length.
pub open spec fn first_tab(cs: Seq<char>) -> int
    decreases cs.len(),
{
    if cs.len() == 0 {
        0
    } else if cs[0] == '\t' {
        0
    } else {
        1 + first_tab(cs.drop_first())
    }
}

proof fn lemma_first_tab(cs: Seq<char>, t: int)
    requires
        0 <= t <= cs.len(),
        forall|x: int| 0 <= x < t ==> cs[x] != '\t',
        t == cs.len() || cs[t] == '\t',
    ensures
        first_tab(cs) == t,
    decreases t,
{
    if t > 0 {
        lemma_first_tab(cs.drop_first(), t - 1);
    }
}

proof fn lemma_digits_prefix(body: Seq<char>, j: int)
    requires
        0 <= j <= body.len(),
        forall|x: int| 0 <= x < body.len() ==> is_digit(#[trigger] body[x]),
    ensures
        digits_value(body.take(j)) <= digits_value(body),
    decreases body.len() - j,
{
    if j < body.len() {
        lemma_digits_prefix(body, j + 1);
        assert(body.take(j + 1).drop_last() =~= body.take(j));
    } else {
        assert(body.take(j) =~= body);
    }
}

/// `u32::from_str` on decimal text: an optional plus sign, then digits.
pub fn parse_u32(s: &str) -> (r: Option<u32>)
    ensures
        r == parsed_u32(s@),
{
    let mut body = s;
    if let Some(c) = first_char(s) {
        if c == '+' {
            body = skip_first_char(s);
        }
    }
    let ghost b = body@;
    assert(b == sign_dropped(s@));
    if first_char(body).is_none() {
        return None;
    }
    let mut rest = body;
    let ghost i: int = 0;
    let mut value: u64 = 0;
    loop
        invariant
            0 <= i <= b.len(),
            b.len() > 0,
            b == sign_dropped(s@),
            rest@ == b.skip(i),
            forall|x: int| 0 <= x < i ==> is_digit(#[trigger] b[x]),
            value == digits_value(b.take(i)),
            value <= u32::MAX,
        decreases rest@.len(),
    {
        match first_char(rest) {
            None => {
                assert(b.take(i) =~= b);
                return Some(value as u32);
            },
            Some(c) => {
                assert(b[i] == c);
                assert(b.take(i + 1).drop_last() =~= b.take(i));
                if !('0' <= c && c <= '9') {
                    assert(!is_digit(b[i]));
                    assert(!(forall|x: int| 0 <= x < b.len() ==> is_digit(#[trigger] b[x])));
                    assert(parsed_u32(s@) is None);
                    return None;
                }
                let next = value * 10 + (c as u32 - 48) as u64;
                if next > 0xFFFF_FFFFu64 {
                    proof {
                        assert(b.take(i + 1).last() == c);
                        assert(digits_value(b.take(i + 1)) == next);
                        if forall|x: int| 0 <= x < b.len() ==> is_digit(#[trigger] b[x]) {
                            lemma_digits_prefix(b, i + 1);
                            assert(digits_value(b) > u32::MAX);
                        }
                        assert(parsed_u32(s@) is None);
                    }
                    return None;
                }
                value = next;
                rest = skip_first_char(rest);
                proof {
                    i = i + 1;
                    assert(rest@ =~= b.skip(i));
                }
            },
        }
    }
}

/// Splits a log line at its first tab into the external identifier and the
/// question; `None` where there is no tab or the identifier is not a `u32`.
pub fn parse_record(line: &str) -> (r: Option<(u32, String)>)
    ensures
        r is Some <==> first_tab(line@) < line@.len() && parsed_u32(line@.take(first_tab(line@))) is Some,
        r matches Some((id, q)) ==> parsed_u32(line@.take(first_tab(line@))) == Some(id) && q@ == line@.skip(
            first_tab(line@) + 1,
        ),
{
    let mut rest = line;
    let ghost t: int = 0;
    let mut pos: usize = 0;
    let total = line.as_bytes().len();
    loop
        invariant
            0 <= t <= line@.len(),
            rest@ == line@.skip(t),
            forall|x: int| 0 <= x < t ==> line@[x] != '\t',
            pos == encode_utf8(line@.take(t)).len(),
            total == line.spec_bytes().len(),
        ensures
            0 <= t < line@.len(),
            rest@ == line@.skip(t),
            line@[t] == '\t',
            forall|x: int| 0 <= x < t ==> line@[x] != '\t',
            pos == encode_utf8(line@.take(t)).len(),
        decreases rest@.len(),
    {
        match first_char(rest) {
            None => {
                proof {
                    lemma_first_tab(line@, t);
                }
                return None;
            },
            Some(c) => {
                if c == '\t' {
                    assert(line@[t] == c);
                    break;
                }
                let w = crate::text::char_len(c);
                proof {
                    assert(line@[t] == c);
                    crate::text::lemma_prefix_boundary(line@, t + 1);
                    assert(line@.take(t + 1) =~= line@.take(t) + seq![c]);
                    crate::text::lemma_encode_concat(line@.take(t), seq![c]);
                    let one = seq![c];
                    assert(one.drop_first() =~= Seq::<char>::empty());
                    assert(encode_utf8(one.drop_first()) =~= Seq::<u8>::empty());
                    assert(encode_utf8(one) =~= vstd::utf8::encode_scalar(c as u32));
                }
                pos = pos + w;
                rest = skip_first_char(rest);
                proof {
                    t = t + 1;
                    assert(rest@ =~= line@.skip(t));
                }
            },
        }
    }
    proof {
        assert(line@[t] == '\t');
        lemma_first_tab(line@, t);
        crate::text::lemma_prefix_boundary(line@, t);
        vstd::utf8::encode_utf8_valid_utf8(line@);
    }
    let (head, _) = line.split_at(pos);
    proof {
        vstd::utf8::encode_utf8_decode_utf8(head@);
        vstd::utf8::encode_utf8_decode_utf8(line@.take(t));
    }
    let after = skip_first_char(rest);
    proof {
        assert(after@ =~= line@.skip(t + 1));
    }
    match parse_u32(head) {
        Some(id) => Some((id, after.to_owned())),
        None => None,
    }
}

proof fn lemma_decimal(n: nat)
    ensures
        decimal(n).len() > 0,
        forall|x: int| 0 <= x < decimal(n).len() ==> is_digit(#[trigger] decimal(n)[x]),
        digits_value(decimal(n)) == n,
    decreases n,
{
    reveal_with_fuel(decimal, 1);
    if n >= 10 {
        lemma_decimal(n / 10);
        let d = decimal(n);
        assert(d.drop_last() =~= decimal(n / 10));
        let last = digit_char(n % 10);
        assert(is_digit(last) && (last as u32) - 48 == n % 10) by {
            assert(n % 10 < 10);
        }
        assert(d.last() == last);
        assert(digits_value(d) == digits_value(d.drop_last()) * 10 + ((d.last() as u32) - 48) as nat);
        assert((n / 10) * 10 + n % 10 == n);
    } else {
        let last = digit_char(n);
        let d = decimal(n);
        assert(is_digit(last) && (last as u32) - 48 == n);
        assert(d.drop_last() =~= Seq::<char>::empty());
        assert(d.last() == last);
        assert(digits_value(d) == digits_value(d.drop_last()) * 10 + ((d.last() as u32) - 48) as nat);
    }
}

/// A log record reads back as the identifier and question it was written
/// from, with the question's newlines as spaces.
pub proof fn lemma_record_round_trip(id: u32, question: Seq<char>)
    ensures
        first_tab(record_of(id, question)) < record_of(id, question).len(),
        parsed_u32(record_of(id, question).take(first_tab(record_of(id, question)))) == Some(id),
        record_of(id, question).skip(first_tab(record_of(id, question)) + 1)
            == crate::text::newlines_to_spaces(question),
{
    lemma_decimal(id as nat);
    let d = decimal(id as nat);
    let r = record_of(id, question);
    assert forall|x: int| 0 <= x < d.len() implies r[x] != '\t' by {
        assert(r[x] == d[x]);
        assert(is_digit(d[x]));
    }
    assert(r[d.len() as int] == '\t');
    lemma_first_tab(r, d.len() as int);
    assert(r.take(d.len() as int) =~= d);
    assert(r.skip(d.len() as int + 1) =~= crate::text::newlines_to_spaces(question));
    assert(d[0] != '+') by {
        assert(is_digit(d[0]));
    }
}

/// Why a log line could not be replayed.
#[derive(PartialEq, Eq, Structural, Debug, Copy, Clone)]
pub enum LogError {
    /// The line has no tab, or its identifier is not a `u32`.
    Format,
    /// The store holds as many questions as identifiers allow.
    Full,
}

impl FlatfileDatabaseBackend {
    /// Tokenizes a question and stores it under the next internal identifier.
    pub fn add_text(
        &mut self,
        text: String,
        external_id: u32,
        words: &crate::word_file::WordsInFile,
        keywords: &crate::listed_keywords::ListedKeywords,
    ) -> (r: InternalQuestionId)
        requires
            old(self).wf(),
            words.wf(),
            old(self).count() + 1 < u32::MAX,
        ensures
            final(self).wf(),
            r.0 == old(self).count(),
            added_text(
                *old(self),
                *final(self),
                text@,
                external_id,
                crate::word_file::file_words(words.bytes()),
                keywords.classes(),
            ),
    {
        let ghost t = text@;
        let parsed = ParsedQuestion::new(text, words, keywords);
        let ghost pq = parsed;
        let r = self.add_work(parsed, external_id);
        proof {
            let (parts, spans) = choose|parts: Seq<SentencePart>, spans: Seq<(int, int, int)>|
                tiles(
                    encode_utf8(prepared(t)),
                    parts,
                    spans,
                    crate::word_file::file_words(words.bytes()),
                    keywords.classes(),
                ) && pq.summarizes(parts);
            assert(tiles(
                encode_utf8(prepared(t)),
                parts,
                spans,
                crate::word_file::file_words(words.bytes()),
                keywords.classes(),
            ) && added(
                *old(self),
                *self,
                t,
                external_id,
                keywords_in(parts),
                indexed_words_in(parts),
                literals_in(parts),
            ));
        }
        r
    }

    /// Re-adds the question of one log line, as at startup.
    pub fn replay_line(
        &mut self,
        line: &str,
        words: &crate::word_file::WordsInFile,
        keywords: &crate::listed_keywords::ListedKeywords,
    ) -> (r: Result<InternalQuestionId, LogError>)
        requires
            old(self).wf(),
            words.wf(),
        ensures
            final(self).wf(),
            r == Err::<InternalQuestionId, LogError>(LogError::Format) <==> !(first_tab(line@) < line@.len()
                && parsed_u32(line@.take(first_tab(line@))) is Some),
            r == Err::<InternalQuestionId, LogError>(LogError::Full) <==> (first_tab(line@) < line@.len()
                && parsed_u32(line@.take(first_tab(line@))) is Some && old(self).count() + 1 >= u32::MAX),
            r is Err ==> *final(self) == *old(self),
            r matches Ok(id) ==> id.0 == old(self).count() && added_text(
                *old(self),
                *final(self),
                line@.skip(first_tab(line@) + 1),
                parsed_u32(line@.take(first_tab(line@)))->0,
                crate::word_file::file_words(words.bytes()),
                keywords.classes(),
            ),
    {
        match parse_record(line) {
            None => Err(LogError::Format),
            Some((external_id, question)) => {
                if self.questions.len() >= 0xFFFF_FFFEusize {
                    return Err(LogError::Full);
                }
                Ok(self.add_text(question, external_id, words, keywords))
            },
        }
    }
}

} // verus!
