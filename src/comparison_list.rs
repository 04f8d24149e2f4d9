//! Scoring stored questions against a query: each query token credits the
//! questions in its posting list, and a known word also credits, at a
//! weight scaled by similarity, the questions holding its stored neighbours,
//! each question at most once per token.
use vstd::prelude::*;
use vstd::string::StringSliceAdditionalSpecFns;
use vstd::utf8::encode_utf8;
use crate::database_backend::InternalQuestionId;
use crate::flatfile_database_backend::{FlatfileDatabaseBackend, added, appended};
use crate::listed_keywords::ListedKeywordIndex;
use crate::near_words::WordAndValue;
use crate::sentences::{SentencePart, TokenizedSentence};
use crate::word::WordIndex;
use crate::word_file::{WordsInFile, count_of, neighbours_of};

verus! {

/// Points for a curated keyword shared with a question.
pub const SCORE_KEYWORD: u32 = 10;

/// Points for an unknown literal shared with a question.
pub const SCORE_UNIQUE: u32 = 10;

/// Known words with an index up to this are not scored.
pub const SCORED_WORD_LIMIT: u32 = 100;

/// The points for a known word: the rarer (the larger its index), the more.
pub open spec fn known_weight(index: u32) -> u32 {
    if index < 100 {
        1
    } else if index < 500 {
        2
    } else if index < 1000 {
        3
    } else if index < 10000 {
        4
    } else if index < 100000 {
        6
    } else {
        8
    }
}

pub fn score_known(word: WordIndex) -> (r: u32)
    ensures
        r == known_weight(word.0),
{
    if word.0 < 100 {
        1
    } else if word.0 < 500 {
        2
    } else if word.0 < 1000 {
        3
    } else if word.0 < 10000 {
        4
    } else if word.0 < 100000 {
        6
    } else {
        8
    }
}

/// Points given to one question: `points`, times the `f32` similarity with
/// bits `similarity` when the credit comes from a neighbouring word.
#[derive(PartialEq, Eq, Structural, Debug, Copy, Clone)]
pub struct Credit {
    pub id: InternalQuestionId,
    pub points: u32,
    pub similarity: Option<u32>,
}

/// One credit of `points`, scaled by `similarity` if any, for each
/// question of `list`.
pub open spec fn credits_for(list: Seq<InternalQuestionId>, points: u32, similarity: Option<u32>) -> Seq<
    Credit,
> {
    list.map_values(|id: InternalQuestionId| Credit { id, points, similarity })
}

/// One credit of `points` for each question of `list`.
pub open spec fn plain_credits(list: Seq<InternalQuestionId>, points: u32) -> Seq<Credit> {
    credits_for(list, points, None)
}

/// Candidates of a known word: those holding the word itself, then those
/// holding each neighbour in turn, with the neighbour's similarity.
pub open spec fn neighbour_stream(
    store: FlatfileDatabaseBackend,
    neighbours: Seq<WordAndValue>,
    points: u32,
) -> Seq<Credit>
    decreases neighbours.len(),
{
    if neighbours.len() == 0 {
        Seq::empty()
    } else {
        let last = neighbours.last();
        neighbour_stream(store, neighbours.drop_last(), points) + credits_for(
            store.known_list(last.word.0),
            points,
            Some(last.value),
        )
    }
}

/// The credits of `stream` for questions not credited earlier in it.
pub open spec fn first_credits(stream: Seq<Credit>) -> Seq<Credit>
    decreases stream.len(),
{
    if stream.len() == 0 {
        Seq::empty()
    } else {
        let rest = first_credits(stream.drop_last());
        if exists|y: int| 0 <= y < stream.len() - 1 && stream[y].id == stream.last().id {
            rest
        } else {
            rest.push(stream.last())
        }
    }
}

/// The credits that one query token gives.
pub open spec fn token_credits(store: FlatfileDatabaseBackend, d: Seq<u8>, p: SentencePart) -> Seq<Credit> {
    match p {
        SentencePart::Listed(k) => plain_credits(store.keyword_list(k.0), SCORE_KEYWORD),
        SentencePart::Known(w) => if w.0 <= SCORED_WORD_LIMIT {
            Seq::empty()
        } else {
            first_credits(
                plain_credits(store.known_list(w.0), known_weight(w.0)) + neighbour_stream(
                    store,
                    neighbours_of(d, w.0),
                    known_weight(w.0),
                ),
            )
        },
        SentencePart::Unknown(s) => plain_credits(store.unique_list(encode_utf8(s@)), SCORE_UNIQUE),
    }
}

/// The credits of all query tokens, in order.
pub open spec fn query_credits(store: FlatfileDatabaseBackend, d: Seq<u8>, parts: Seq<SentencePart>) -> Seq<
    Credit,
>
    decreases parts.len(),
{
    if parts.len() == 0 {
        Seq::empty()
    } else {
        query_credits(store, d, parts.drop_last()) + token_credits(store, d, parts.last())
    }
}

proof fn lemma_stream_below(store: FlatfileDatabaseBackend, neighbours: Seq<WordAndValue>, points: u32)
    requires
        forall|w: u32, y: int| 0 <= y < store.known_list(w).len() ==> (#[trigger] store.known_list(w)[y]).0 < store.count(),
    ensures
        forall|y: int|
            0 <= y < neighbour_stream(store, neighbours, points).len() ==> (#[trigger] neighbour_stream(
                store,
                neighbours,
                points,
            )[y]).id.0 < store.count(),
    decreases neighbours.len(),
{
    if neighbours.len() > 0 {
        lemma_stream_below(store, neighbours.drop_last(), points);
        let front = neighbour_stream(store, neighbours.drop_last(), points);
        let last = neighbours.last();
        let tail = credits_for(store.known_list(last.word.0), points, Some(last.value));
        assert forall|y: int|
            0 <= y < neighbour_stream(store, neighbours, points).len() implies (#[trigger] neighbour_stream(
            store,
            neighbours,
            points,
        )[y]).id.0 < store.count() by {
            if y < front.len() {
                assert(neighbour_stream(store, neighbours, points)[y] == front[y]);
            } else {
                assert(neighbour_stream(store, neighbours, points)[y] == tail[y - front.len()]);
                assert(tail[y - front.len()].id == store.known_list(last.word.0)[y - front.len()]);
            }
        }
    }
}

fn push_plain(out: &mut Vec<Credit>, list: Option<&Vec<InternalQuestionId>>, points: u32)
    ensures
        final(out)@ == old(out)@ + plain_credits(
            match list {
                Some(l) => l@,
                None => Seq::empty(),
            },
            points,
        ),
{
    if let Some(l) = list {
        let mut x: usize = 0;
        let ghost start = out@;
        while x < l.len()
            invariant
                x <= l@.len(),
                out@ == start + plain_credits(l@.take(x as int), points),
            decreases l@.len() - x,
        {
            out.push(Credit { id: l[x], points, similarity: None });
            x = x + 1;
            assert(plain_credits(l@.take(x as int), points) =~= plain_credits(l@.take(x as int - 1), points).push(
                Credit { id: l@[x - 1], points, similarity: None },
            ));
        }
        assert(l@.take(l@.len() as int) =~= l@);
    } else {
        assert(plain_credits(Seq::<InternalQuestionId>::empty(), points) =~= Seq::<Credit>::empty());
        assert(out@ =~= old(out)@ + Seq::<Credit>::empty());
    }
}

/// The credits of `stream` for questions not credited earlier in it.
#[verifier::rlimit(60)]
fn keep_first_credits(stream: &Vec<Credit>, total: usize) -> (r: Vec<Credit>)
    requires
        forall|y: int| 0 <= y < stream@.len() ==> (#[trigger] stream@[y]).id.0 < total,
    ensures
        r@ == first_credits(stream@),
{
    let mut seen: Vec<bool> = Vec::new();
    let mut t: usize = 0;
    while t < total
        invariant
            t <= total,
            seen@.len() == t,
            forall|y: int| 0 <= y < t ==> !(#[trigger] seen@[y]),
        decreases total - t,
    {
        seen.push(false);
        t = t + 1;
    }
    let mut credits: Vec<Credit> = Vec::new();
    let mut x: usize = 0;
    while x < stream.len()
        invariant
            x <= stream@.len(),
            seen@.len() == total,
            credits@ == first_credits(stream@.take(x as int)),
            forall|y: int| 0 <= y < stream@.len() ==> (#[trigger] stream@[y]).id.0 < total,
            forall|i: int|
                0 <= i < total ==> (#[trigger] seen@[i] <==> exists|y: int|
                    0 <= y < x && stream@[y].id.0 == i),
        decreases stream@.len() - x,
    {
        let c = stream[x];
        let ghost prefix = stream@.take(x as int + 1);
        proof {
            assert(prefix.drop_last() =~= stream@.take(x as int));
            assert(prefix.last() == c);
            assert(c.id.0 < total);
            if seen@[c.id.0 as int] {
                let y = choose|y: int| 0 <= y < x && stream@[y].id.0 == c.id.0;
                assert(prefix[y].id == prefix.last().id);
            } else {
                assert(!exists|y: int| 0 <= y < prefix.len() - 1 && prefix[y].id == prefix.last().id) by {
                    if exists|y: int| 0 <= y < prefix.len() - 1 && prefix[y].id == prefix.last().id {
                        let y = choose|y: int| 0 <= y < prefix.len() - 1 && prefix[y].id == prefix.last().id;
                        assert(stream@[y].id.0 == c.id.0);
                    }
                }
            }
        }
        if !seen[c.id.0 as usize] {
            seen.set(c.id.0 as usize, true);
            credits.push(c);
        }
        x = x + 1;
        proof {
            assert forall|i: int|
                0 <= i < total implies (#[trigger] seen@[i] <==> exists|y: int|
                    0 <= y < x && stream@[y].id.0 == i) by {
                if i == c.id.0 {
                    assert(stream@[x - 1].id.0 == i);
                } else {
                    if exists|y: int| 0 <= y < x && stream@[y].id.0 == i {
                        let y = choose|y: int| 0 <= y < x && stream@[y].id.0 == i;
                        assert(y < x - 1);
                    }
                }
            }
        }
    }
    assert(stream@.take(stream@.len() as int) =~= stream@);
    credits
}

/// The credits of a known word, counting each question once.
#[verifier::rlimit(60)]
fn known_credits(
    store: &FlatfileDatabaseBackend,
    words: &WordsInFile,
    w: WordIndex,
) -> (r: Vec<Credit>)
    requires
        store.wf(),
        words.wf(),
        w.0 < count_of(words.bytes()),
    ensures
        r@ == first_credits(
            plain_credits(store.known_list(w.0), known_weight(w.0)) + neighbour_stream(
                *store,
                neighbours_of(words.bytes(), w.0),
                known_weight(w.0),
            ),
        ),
{
    let points = score_known(w);
    let mut stream: Vec<Credit> = Vec::new();
    push_plain(&mut stream, store.sentences_containing_general_lexicon_word(w), points);
    assert(stream@ =~= plain_credits(store.known_list(w.0), points));
    let neighbours = words.synonyms(w);
    assert(neighbours@ =~= neighbours_of(words.bytes(), w.0));
    let ghost base = stream@;
    let mut s: usize = 0;
    while s < neighbours.len()
        invariant
            s <= neighbours@.len(),
            stream@ == base + neighbour_stream(*store, neighbours@.take(s as int), points),
        decreases neighbours@.len() - s,
    {
        let e = neighbours[s];
        let ghost before = stream@;
        if let Some(l) = store.sentences_containing_general_lexicon_word(e.word) {
            let mut x: usize = 0;
            while x < l.len()
                invariant
                    x <= l@.len(),
                    stream@ == before + credits_for(l@.take(x as int), points, Some(e.value)),
                decreases l@.len() - x,
            {
                stream.push(Credit { id: l[x], points, similarity: Some(e.value) });
                x = x + 1;
                assert(credits_for(l@.take(x as int), points, Some(e.value)) =~= credits_for(
                    l@.take(x as int - 1),
                    points,
                    Some(e.value),
                ).push(Credit { id: l@[x - 1], points, similarity: Some(e.value) }));
            }
            assert(l@.take(l@.len() as int) =~= l@);
        } else {
            assert(credits_for(store.known_list(e.word.0), points, Some(e.value)) =~= Seq::<Credit>::empty());
        }
        s = s + 1;
        proof {
            assert(neighbours@.take(s as int).drop_last() =~= neighbours@.take(s as int - 1));
            assert(stream@ =~= base + neighbour_stream(*store, neighbours@.take(s as int), points));
        }
    }
    assert(neighbours@.take(neighbours@.len() as int) =~= neighbours@);
    let total = store.len();
    proof {
        store.lemma_lists_below();
        lemma_stream_below(*store, neighbours@, points);
        assert forall|y: int| 0 <= y < stream@.len() implies (#[trigger] stream@[y]).id.0 < total by {
            if y < base.len() {
                assert(stream@[y] == base[y]);
                assert(base[y].id == store.known_list(w.0)[y]);
            } else {
                assert(stream@[y] == neighbour_stream(*store, neighbours@, points)[y - base.len()]);
            }
        }
    }
    keep_first_credits(&stream, total)
}

/// Every part names known words of the file.
pub open spec fn known_in_file(parts: Seq<SentencePart>, d: Seq<u8>) -> bool {
    forall|x: int| 0 <= x < parts.len() ==> ((#[trigger] parts[x]) is Known ==> parts[x]->Known_0.0 < count_of(d))
}

/// The credits that the tokens of a query give, token by token.
pub fn score_parts(store: &FlatfileDatabaseBackend, words: &WordsInFile, parts: &Vec<SentencePart>) -> (r: Vec<
    Credit,
>)
    requires
        store.wf(),
        words.wf(),
        known_in_file(parts@, words.bytes()),
    ensures
        r@ == query_credits(*store, words.bytes(), parts@),
{
    let mut out: Vec<Credit> = Vec::new();
    let mut x: usize = 0;
    while x < parts.len()
        invariant
            store.wf(),
            words.wf(),
            known_in_file(parts@, words.bytes()),
            x <= parts@.len(),
            out@ == query_credits(*store, words.bytes(), parts@.take(x as int)),
        decreases parts@.len() - x,
    {
        let ghost before = out@;
        proof {
            assert(parts@.take(x as int + 1).drop_last() =~= parts@.take(x as int));
            assert(parts@.take(x as int + 1).last() == parts@[x as int]);
        }
        match &parts[x] {
            SentencePart::Listed(k) => {
                push_plain(&mut out, store.sentences_containing_listed_word(*k), SCORE_KEYWORD);
            },
            SentencePart::Known(w) => {
                if w.0 > SCORED_WORD_LIMIT {
                    let credits = known_credits(store, words, *w);
                    let mut y: usize = 0;
                    while y < credits.len()
                        invariant
                            y <= credits@.len(),
                            out@ == before + credits@.take(y as int),
                        decreases credits@.len() - y,
                    {
                        out.push(credits[y]);
                        y = y + 1;
                        assert(credits@.take(y as int) =~= credits@.take(y as int - 1).push(credits@[y - 1]));
                    }
                    assert(credits@.take(credits@.len() as int) =~= credits@);
                } else {
                    assert(out@ =~= before + Seq::<Credit>::empty());
                }
            },
            SentencePart::Unknown(word) => {
                push_plain(&mut out, store.sentences_containing_unknown_word(word.as_str()), SCORE_UNIQUE);
            },
        }
        x = x + 1;
    }
    assert(parts@.take(parts@.len() as int) =~= parts@);
    out
}

/// Tokenizes a query and returns the credits its tokens give to stored
/// questions, in query order.
pub fn find_similar_credits(
    store: &FlatfileDatabaseBackend,
    question: &str,
    words: &WordsInFile,
    keywords: &crate::listed_keywords::ListedKeywords,
) -> (r: Vec<Credit>)
    requires
        store.wf(),
        words.wf(),
    ensures
        exists|parts: Seq<SentencePart>, spans: Seq<(int, int, int)>|
            crate::sentences::tiles(
                encode_utf8(crate::sentences::prepared(question@)),
                parts,
                spans,
                crate::word_file::file_words(words.bytes()),
                keywords.classes(),
            ) && r@ == query_credits(*store, words.bytes(), parts),
{
    let tokenized = TokenizedSentence::tokenize(question, words, keywords);
    proof {
        let spans = choose|spans: Seq<(int, int, int)>|
            crate::sentences::tiles(
                encode_utf8(crate::sentences::prepared(question@)),
                tokenized.parts@,
                spans,
                crate::word_file::file_words(words.bytes()),
                keywords.classes(),
            );
        assert forall|x: int| 0 <= x < tokenized.parts@.len() && (#[trigger] tokenized.parts@[x]) is Known
            implies tokenized.parts@[x]->Known_0.0 < count_of(words.bytes()) by {
            assert(crate::sentences::span_ok(
                encode_utf8(crate::sentences::prepared(question@)),
                tokenized.parts@[x],
                spans[x],
                crate::word_file::file_words(words.bytes()),
                keywords.classes(),
            ));
        }
    }
    let r = score_parts(store, words, &tokenized.parts);
    proof {
        let spans = choose|spans: Seq<(int, int, int)>|
            crate::sentences::tiles(
                encode_utf8(crate::sentences::prepared(question@)),
                tokenized.parts@,
                spans,
                crate::word_file::file_words(words.bytes()),
                keywords.classes(),
            );
        assert(crate::sentences::tiles(
            encode_utf8(crate::sentences::prepared(question@)),
            tokenized.parts@,
            spans,
            crate::word_file::file_words(words.bytes()),
            keywords.classes(),
        ) && r@ == query_credits(*store, words.bytes(), tokenized.parts@));
    }
    r
}

/// Within the credits of one known word, no question is credited twice, and
/// every credit is one of its candidates.
pub proof fn lemma_credited_once(stream: Seq<Credit>)
    ensures
        forall|x: int, y: int|
            0 <= x < y < first_credits(stream).len() ==> first_credits(stream)[x].id != first_credits(
                stream,
            )[y].id,
        forall|x: int| 0 <= x < first_credits(stream).len() ==> stream.contains(#[trigger] first_credits(stream)[x]),
    decreases stream.len(),
{
    if stream.len() > 0 {
        let front = stream.drop_last();
        lemma_credited_once(front);
        let rest = first_credits(front);
        assert forall|x: int| 0 <= x < rest.len() implies stream.contains(#[trigger] rest[x]) by {
            let y = choose|y: int| 0 <= y < front.len() && front[y] == rest[x];
            assert(stream[y] == rest[x]);
        }
        if !exists|y: int| 0 <= y < stream.len() - 1 && stream[y].id == stream.last().id {
            let r = rest.push(stream.last());
            assert forall|x: int, y: int| 0 <= x < y < r.len() implies r[x].id != r[y].id by {
                if y == rest.len() {
                    assert(stream.contains(rest[x]));
                    let z = choose|z: int| 0 <= z < stream.len() && stream[z] == rest[x];
                    assert(front.contains(rest[x]));
                    let z2 = choose|z2: int| 0 <= z2 < front.len() && front[z2] == rest[x];
                    assert(stream[z2] == front[z2]);
                }
            }
            assert(stream[stream.len() - 1] == stream.last());
        }
    }
}

/// A key that orders `f64` bit patterns as the numbers they stand for;
/// negative zero gets the key of positive zero, since the two are equal.
pub open spec fn float64_order(bits: u64) -> u64 {
    if bits == 0x8000_0000_0000_0000u64 {
        0x8000_0000_0000_0000u64
    } else if bits & 0x8000_0000_0000_0000u64 != 0 {
        !bits
    } else {
        bits | 0x8000_0000_0000_0000u64
    }
}

fn float64_order_exec(bits: u64) -> (r: u64)
    ensures
        r == float64_order(bits),
{
    if bits == 0x8000_0000_0000_0000u64 {
        0x8000_0000_0000_0000u64
    } else if bits & 0x8000_0000_0000_0000u64 != 0 {
        !bits
    } else {
        bits | 0x8000_0000_0000_0000u64
    }
}

/// `a` ranks before `b`: a higher score, or the same score and an earlier
/// question.
pub open spec fn ranks_before(a: (InternalQuestionId, u64), b: (InternalQuestionId, u64)) -> bool {
    float64_order(a.1) > float64_order(b.1) || (float64_order(a.1) == float64_order(b.1) && a.0.0 < b.0.0)
}

/// Orders questions by score (given as `f64` bits), highest first, ties to
/// the earlier question.
pub fn extract_ordered(scores: &Vec<(InternalQuestionId, u64)>) -> (r: Vec<(InternalQuestionId, u64)>)
    ensures
        r@.to_multiset() == scores@.to_multiset(),
        forall|x: int, y: int| 0 <= x < y < r@.len() ==> !ranks_before(r@[y], r@[x]),
{
    let mut out: Vec<(InternalQuestionId, u64)> = Vec::new();
    let mut i: usize = 0;
    proof {
        broadcast use vstd::seq_lib::group_to_multiset_ensures;
    }
    while i < scores.len()
        invariant
            i <= scores@.len(),
            out@.to_multiset() == scores@.take(i as int).to_multiset(),
            forall|x: int, y: int| 0 <= x < y < out@.len() ==> !ranks_before(out@[y], out@[x]),
        decreases scores@.len() - i,
    {
        let e = scores[i];
        let key = float64_order_exec(e.1);
        let mut p: usize = out.len();
        loop
            invariant
                p <= out@.len(),
                key == float64_order(e.1),
                forall|x: int| p <= x < out@.len() ==> ranks_before(e, #[trigger] out@[x]),
            ensures
                p <= out@.len(),
                forall|x: int| p <= x < out@.len() ==> ranks_before(e, #[trigger] out@[x]),
                p == 0 || !ranks_before(e, out@[p - 1]),
            decreases p,
        {
            if p == 0 {
                break;
            }
            let k = float64_order_exec(out[p - 1].1);
            if !(key > k || (key == k && e.0.0 < out[p - 1].0.0)) {
                break;
            }
            p = p - 1;
        }
        let ghost s = out@;
        proof {
            assert forall|x: int| 0 <= x < p implies !ranks_before(e, #[trigger] s[x]) by {
                if x < p - 1 {
                    assert(!ranks_before(s[p - 1], s[x]));
                }
            }
        }
        out.insert(p, e);
        proof {
            broadcast use vstd::seq_lib::group_to_multiset_ensures;
            vstd::seq_lib::to_multiset_insert(s, p as int, e);
            assert(scores@.take(i as int + 1) =~= scores@.take(i as int).push(e));
            assert forall|x: int, y: int| 0 <= x < y < out@.len() implies !ranks_before(out@[y], out@[x]) by {
                if x < p && y > p {
                    assert(out@[x] == s[x] && out@[y] == s[y - 1]);
                } else if x < p && y == p {
                    assert(out@[x] == s[x]);
                } else if x == p {
                    assert(out@[y] == s[y - 1]);
                } else if y < p {
                    assert(out@[x] == s[x] && out@[y] == s[y]);
                } else {
                    assert(out@[x] == s[x - 1] && out@[y] == s[y - 1]);
                }
            }
        }
        i = i + 1;
    }
    assert(scores@.take(scores@.len() as int) =~= scores@);
    out
}

/// Adds a question to the store under the next internal identifier, with
/// its newlines turned into spaces.
pub fn add_question(
    store: &mut FlatfileDatabaseBackend,
    question: &str,
    external_id: u32,
    words: &WordsInFile,
    keywords: &crate::listed_keywords::ListedKeywords,
) -> (r: InternalQuestionId)
    requires
        old(store).wf(),
        words.wf(),
        old(store).count() + 1 < u32::MAX,
    ensures
        final(store).wf(),
        r.0 == old(store).count(),
        crate::flatfile_database_backend::added_text(
            *old(store),
            *final(store),
            crate::text::newlines_to_spaces(question@),
            external_id,
            crate::word_file::file_words(words.bytes()),
            keywords.classes(),
        ),
{
    let text = crate::text::replace_newlines(question);
    store.add_text(text, external_id, words, keywords)
}

/// Credits to questions other than `n`.
pub open spec fn not_for(n: InternalQuestionId) -> spec_fn(Credit) -> bool {
    |c: Credit| c.id != n
}

proof fn lemma_filter_keeps_all(s: Seq<Credit>, n: InternalQuestionId)
    requires
        forall|y: int| 0 <= y < s.len() ==> (#[trigger] s[y]).id != n,
    ensures
        s.filter(not_for(n)) == s,
    decreases s.len(),
{
    reveal(Seq::filter);
    if s.len() > 0 {
        lemma_filter_keeps_all(s.drop_last(), n);
        assert(s.drop_last().push(s.last()) =~= s);
    }
}

/// A posting list that gained `n` gives, apart from `n`, the credits it gave.
proof fn lemma_appended_credits(
    list: Seq<InternalQuestionId>,
    n: InternalQuestionId,
    grew: bool,
    points: u32,
    similarity: Option<u32>,
)
    requires
        forall|y: int| 0 <= y < list.len() ==> (#[trigger] list[y]).0 < n.0,
    ensures
        credits_for(if grew { appended(list, n) } else { list }, points, similarity).filter(not_for(n))
            == credits_for(list, points, similarity),
{
    reveal(Seq::filter);
    let before = credits_for(list, points, similarity);
    lemma_filter_keeps_all(before, n);
    if grew {
        if list.len() > 0 {
            assert(list.last() == list[list.len() - 1]);
        }
        let after = credits_for(list.push(n), points, similarity);
        assert(after.drop_last() =~= before);
        assert(!(not_for(n))(after.last()));
    }
}

/// Removing the credits of `n` commutes with keeping first credits only.
proof fn lemma_first_credits_without(s: Seq<Credit>, n: InternalQuestionId)
    ensures
        first_credits(s).filter(not_for(n)) == first_credits(s.filter(not_for(n))),
    decreases s.len(),
{
    reveal(Seq::filter);
    if s.len() > 0 {
        let t = s.drop_last();
        let x = s.last();
        let p = not_for(n);
        lemma_first_credits_without(t, n);
        let r = first_credits(t);
        assert(r.push(x).drop_last() =~= r);
        assert(r.push(x).last() == x);
        let earlier = exists|y: int| 0 <= y < s.len() - 1 && s[y].id == x.id;
        if x.id == n {
            assert(s.filter(p) == t.filter(p));
            assert(!p(x));
            assert(first_credits(s).filter(p) == r.filter(p));
        } else {
            assert(p(x));
            let tf = t.filter(p);
            let u = tf.push(x);
            assert(s.filter(p) == u);
            assert(u.drop_last() =~= tf);
            assert(u.last() == x);
            let earlier_f = exists|y: int| 0 <= y < u.len() - 1 && u[y].id == x.id;
            assert(earlier == earlier_f) by {
                if earlier {
                    let y = choose|y: int| 0 <= y < s.len() - 1 && s[y].id == x.id;
                    assert(t[y] == s[y]);
                    t.lemma_filter_contains(p, y);
                    assert(tf.contains(t[y]));
                    let z = choose|z: int| 0 <= z < tf.len() && tf[z] == t[y];
                    assert(u[z] == tf[z]);
                }
                if earlier_f {
                    let y = choose|y: int| 0 <= y < u.len() - 1 && u[y].id == x.id;
                    assert(u[y] == tf[y]);
                    assert(tf.contains(tf[y]));
                    t.lemma_filter_contains_rev(p, tf[y]);
                    let z = choose|z: int| 0 <= z < t.len() && t[z] == tf[y];
                    assert(s[z] == t[z]);
                }
            }
            if earlier {
                assert(first_credits(s) == r);
                assert(first_credits(u) == first_credits(tf));
            } else {
                assert(first_credits(s) == r.push(x));
                assert(first_credits(u) == first_credits(tf).push(x));
                assert(r.push(x).filter(p) == r.filter(p).push(x));
            }
        }
    }
}

proof fn lemma_neighbour_stream_without(
    before: FlatfileDatabaseBackend,
    after: FlatfileDatabaseBackend,
    neighbours: Seq<WordAndValue>,
    points: u32,
    n: InternalQuestionId,
    known: Set<WordIndex>,
)
    requires
        forall|w: u32, y: int|
            0 <= y < before.known_list(w).len() ==> (#[trigger] before.known_list(w)[y]).0 < n.0,
        forall|w: u32|
            #[trigger] after.known_list(w) == if known.contains(WordIndex(w)) {
                appended(before.known_list(w), n)
            } else {
                before.known_list(w)
            },
    ensures
        neighbour_stream(after, neighbours, points).filter(not_for(n)) == neighbour_stream(
            before,
            neighbours,
            points,
        ),
    decreases neighbours.len(),
{
    if neighbours.len() > 0 {
        let last = neighbours.last();
        lemma_neighbour_stream_without(before, after, neighbours.drop_last(), points, n, known);
        lemma_appended_credits(
            before.known_list(last.word.0),
            n,
            known.contains(WordIndex(last.word.0)),
            points,
            Some(last.value),
        );
        Seq::filter_distributes_over_add(
            neighbour_stream(after, neighbours.drop_last(), points),
            credits_for(after.known_list(last.word.0), points, Some(last.value)),
            not_for(n),
        );
    }
}

/// Adding a question changes nothing that a query credits to the questions
/// already stored: apart from the new question's credits, the credits are
/// the same, in the same order, so their scores and relative ranking stay.
#[verifier::rlimit(60)]
pub proof fn lemma_insertion_keeps_credits(
    before: FlatfileDatabaseBackend,
    after: FlatfileDatabaseBackend,
    question: Seq<char>,
    external_id: u32,
    keywords: Set<ListedKeywordIndex>,
    known: Set<WordIndex>,
    literals: Set<Seq<u8>>,
    d: Seq<u8>,
    parts: Seq<SentencePart>,
)
    requires
        before.wf(),
        added(before, after, question, external_id, keywords, known, literals),
    ensures
        query_credits(after, d, parts).filter(not_for(InternalQuestionId(before.count() as u32)))
            == query_credits(before, d, parts),
    decreases parts.len(),
{
    reveal(Seq::filter);
    let n = InternalQuestionId(before.count() as u32);
    before.lemma_lists_below();
    if parts.len() > 0 {
        lemma_insertion_keeps_credits(before, after, question, external_id, keywords, known, literals, d, parts.drop_last());
        let p = parts.last();
        Seq::filter_distributes_over_add(
            query_credits(after, d, parts.drop_last()),
            token_credits(after, d, p),
            not_for(n),
        );
        match p {
            SentencePart::Listed(k) => {
                lemma_appended_credits(before.keyword_list(k.0), n, keywords.contains(ListedKeywordIndex(k.0)), SCORE_KEYWORD, None);
            },
            SentencePart::Known(w) => {
                if w.0 > SCORED_WORD_LIMIT {
                    let pts = known_weight(w.0);
                    let ns = neighbours_of(d, w.0);
                    lemma_appended_credits(before.known_list(w.0), n, known.contains(WordIndex(w.0)), pts, None);
                    lemma_neighbour_stream_without(before, after, ns, pts, n, known);
                    let stream = plain_credits(after.known_list(w.0), pts) + neighbour_stream(after, ns, pts);
                    Seq::filter_distributes_over_add(
                        plain_credits(after.known_list(w.0), pts),
                        neighbour_stream(after, ns, pts),
                        not_for(n),
                    );
                    lemma_first_credits_without(stream, n);
                }
            },
            SentencePart::Unknown(s) => {
                let b = encode_utf8(s@);
                lemma_appended_credits(before.unique_list(b), n, literals.contains(b), SCORE_UNIQUE, None);
            },
        }
    }
}

} // verus!
