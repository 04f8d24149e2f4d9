//! Splitting text into curated keywords, known words and unknown literals.
use vstd::prelude::*;
use vstd::string::StringSliceAdditionalSpecFns;
use vstd::utf8::encode_utf8;
use crate::listed_keywords::{ListedKeywordIndex, ListedKeywords, first_match, no_match};
use crate::text::{all_blank, first_char, is_whitespace, lemma_encode_concat,
    lemma_prefix_boundary, lemma_token_bounds, lemma_trim_end_prefix, lemma_trim_start_head, lower_of, raw_token_chars,
    skip_raw_token, to_lowercase, token_chars, trim_end, trim_end_chars, trim_start,
    trim_start_chars};
use crate::word::{WordIndex, all_distinct};
use crate::text::is_prefix;
use crate::word_file::{WordsInFile, file_words};
pub use crate::text::len_next_token;

verus! {

/// One token of a sentence.
#[derive(PartialEq, Eq, Debug)]
pub enum SentencePart {
    /// A curated keyword class.
    Listed(ListedKeywordIndex),
    /// A word of the general vocabulary.
    Known(WordIndex),
    /// Text found in neither.
    Unknown(String),
}

/// A sentence as a sequence of tokens.
pub struct TokenizedSentence {
    pub parts: Vec<SentencePart>,
}

/// The characters that tokenization works on: the text in lower case,
/// without leading or trailing whitespace.
pub open spec fn prepared(text: Seq<char>) -> Seq<char> {
    trim_end_chars(trim_start_chars(lower_of(text)))
}

/// `b` is the encoding of whitespace characters.
pub open spec fn blank(b: Seq<u8>) -> bool {
    exists|cs: Seq<char>| all_blank(cs) && encode_utf8(cs) == b
}

/// No keyword class offers a usable match at the start of `rest`: the first
/// matching class, if any, matches with an empty form or one that ends
/// inside a character.
pub open spec fn no_keyword_at(classes: Seq<Seq<Seq<u8>>>, rest: Seq<u8>) -> bool {
    forall|c: int, f: int|
        0 <= c < classes.len() && (forall|c2: int| 0 <= c2 < c ==> no_match(#[trigger] classes[c2], rest))
            && #[trigger] first_match(classes[c], rest, f) ==> classes[c][f].len() == 0
            || !vstd::utf8::is_char_boundary(rest, classes[c][f].len() as int)
}

/// No word that starts `rest` is longer than `n` bytes.
pub open spec fn longest_word_at(words: Seq<Seq<u8>>, rest: Seq<u8>, n: int) -> bool {
    forall|i: int| 0 <= i < words.len() && is_prefix(#[trigger] words[i], rest) ==> words[i].len() <= n
}

/// What part `p` says of the first `n` bytes of `rest`, which it consumed.
pub open spec fn part_stands_for(
    p: SentencePart,
    rest: Seq<u8>,
    n: int,
    words: Seq<Seq<u8>>,
    classes: Seq<Seq<Seq<u8>>>,
) -> bool {
    match p {
        SentencePart::Listed(k) => k.0 < classes.len() && (forall|c: int|
            0 <= c < k.0 ==> no_match(#[trigger] classes[c], rest)) && vstd::utf8::is_char_boundary(rest, n)
            && exists|f: int| first_match(classes[k.0 as int], rest, f) && classes[k.0 as int][f].len() == n,
        SentencePart::Known(w) => no_keyword_at(classes, rest) && w.0 < words.len() && words[w.0 as int]
            == rest.subrange(0, n) && n > 0 && longest_word_at(words, rest, n),
        SentencePart::Unknown(lit) => no_keyword_at(classes, rest) && longest_word_at(words, rest, 0)
            && exists|chars: Seq<char>|
            encode_utf8(chars) == rest && encode_utf8(chars.take(token_chars(chars))) == encode_utf8(
                lit@,
            ) && n == encode_utf8(chars.take(raw_token_chars(chars))).len(),
    }
}

/// A part consumed `t[span.0 .. span.1)`, then whitespace up to `span.2`.
pub open spec fn span_ok(
    t: Seq<u8>,
    p: SentencePart,
    span: (int, int, int),
    words: Seq<Seq<u8>>,
    classes: Seq<Seq<Seq<u8>>>,
) -> bool {
    &&& 0 <= span.0 < span.1 <= span.2 <= t.len()
    &&& blank(t.subrange(span.1, span.2))
    &&& span.2 == t.len() || starts_solid(t.skip(span.2))
    &&& part_stands_for(p, t.skip(span.0), span.1 - span.0, words, classes)
}

/// `b` encodes text whose first character is not whitespace.
pub open spec fn starts_solid(b: Seq<u8>) -> bool {
    exists|cs: Seq<char>| encode_utf8(cs) == b && cs.len() > 0 && !is_whitespace(cs[0])
}

/// Part `x` consumed `t[spans[x].0 .. spans[x].1)`, followed by whitespace
/// up to `spans[x].2`, where the next part starts; together they cover `t`.
pub open spec fn tiles(
    t: Seq<u8>,
    parts: Seq<SentencePart>,
    spans: Seq<(int, int, int)>,
    words: Seq<Seq<u8>>,
    classes: Seq<Seq<Seq<u8>>>,
) -> bool {
    &&& spans.len() == parts.len()
    &&& parts.len() == 0 ==> t.len() == 0
    &&& parts.len() > 0 ==> spans[0].0 == 0 && spans.last().2 == t.len()
    &&& forall|x: int| 0 <= x < spans.len() - 1 ==> #[trigger] spans[x].2 == spans[x + 1].0
    &&& forall|x: int| 0 <= x < spans.len() ==> span_ok(t, parts[x], #[trigger] spans[x], words, classes)
}

proof fn lemma_trim_step(t: Seq<u8>, end: int, rest: Seq<char>, next: Seq<char>, n: int)
    requires
        0 <= end <= t.len(),
        encode_utf8(rest) == t.skip(end),
        0 <= n <= rest.len(),
        all_blank(rest.take(n)),
        rest == rest.take(n) + next,
    ensures
        end + encode_utf8(rest.take(n)).len() <= t.len(),
        encode_utf8(next) == t.skip(end + encode_utf8(rest.take(n)).len()),
        blank(t.subrange(end, end + encode_utf8(rest.take(n)).len())),
{
    lemma_encode_concat(rest.take(n), next);
    let gap = encode_utf8(rest.take(n));
    assert(encode_utf8(rest) == gap + encode_utf8(next));
    let u = t.skip(end);
    assert(u.subrange(0, gap.len() as int) =~= gap);
    assert(t.subrange(end, end + gap.len()) =~= u.subrange(0, gap.len() as int));
    assert(encode_utf8(next) =~= u.skip(gap.len() as int));
    assert(encode_utf8(next) =~= t.skip(end + gap.len()));
}

proof fn lemma_no_keyword(classes: Seq<Seq<Seq<u8>>>, rest: Seq<u8>, found: Option<(ListedKeywordIndex, usize)>)
    requires
        found matches Some((k, n)) ==> k.0 < classes.len() && (forall|c: int|
            0 <= c < k.0 ==> no_match(#[trigger] classes[c], rest)) && exists|f: int|
            first_match(classes[k.0 as int], rest, f) && n == classes[k.0 as int][f].len(),
        found is None ==> forall|c: int| 0 <= c < classes.len() ==> no_match(#[trigger] classes[c], rest),
    ensures
        (found is None || found.unwrap().1 == 0 || !vstd::utf8::is_char_boundary(
            rest,
            found.unwrap().1 as int,
        )) ==> no_keyword_at(classes, rest),
{
    if found is None || found.unwrap().1 == 0 || !vstd::utf8::is_char_boundary(rest, found.unwrap().1 as int) {
        assert forall|c: int, f: int|
            0 <= c < classes.len() && (forall|c2: int| 0 <= c2 < c ==> no_match(#[trigger] classes[c2], rest))
                && #[trigger] first_match(classes[c], rest, f) implies classes[c][f].len() == 0
                || !vstd::utf8::is_char_boundary(rest, classes[c][f].len() as int) by {
            assert(crate::listed_keywords::form_matches(classes[c][f], rest));
            if let Some((k, n)) = found {
                let g = choose|g: int| first_match(classes[k.0 as int], rest, g) && n == classes[k.0 as int][g].len();
                if c < k.0 {
                    assert(no_match(classes[c], rest));
                } else if c > k.0 {
                    assert(no_match(classes[k.0 as int], rest));
                    assert(crate::listed_keywords::form_matches(classes[k.0 as int][g], rest));
                } else {
                    if f < g {
                        assert(!crate::listed_keywords::form_matches(classes[c][f], rest));
                    } else if g < f {
                        assert(!crate::listed_keywords::form_matches(classes[c][g], rest));
                    }
                }
            } else {
                assert(no_match(classes[c], rest));
            }
        }
    }
}

proof fn lemma_unknown_part(
    left: Seq<char>,
    b: Seq<u8>,
    literal: Seq<char>,
    rest: Seq<char>,
    rest_bytes: Seq<u8>,
)
    requires
        b == encode_utf8(left),
        left.len() > 0,
        !is_whitespace(left[0]),
        encode_utf8(literal) == b.subrange(0, encode_utf8(left.take(token_chars(left))).len() as int),
        rest == left.skip(raw_token_chars(left)),
        rest_bytes == encode_utf8(rest),
    ensures
        rest_bytes.len() < b.len(),
        rest_bytes == b.skip(b.len() - rest_bytes.len()),
        encode_utf8(left.take(token_chars(left))) == encode_utf8(literal),
        b.len() - rest_bytes.len() == encode_utf8(left.take(raw_token_chars(left))).len(),
{
    lemma_token_bounds(left);
    lemma_prefix_boundary(left, token_chars(left));
    let raw = raw_token_chars(left);
    lemma_prefix_boundary(left, raw);
    assert(left =~= left.take(raw) + left.skip(raw));
    lemma_encode_concat(left.take(raw), left.skip(raw));
    let take_len = encode_utf8(left.take(raw)).len() as int;
    assert(b.skip(take_len) =~= encode_utf8(left.skip(raw)));
    vstd::utf8::char_is_scalar(left[0]);
    assert(left.take(raw) =~= seq![left[0]] + left.take(raw).drop_first());
    lemma_encode_concat(seq![left[0]], left.take(raw).drop_first());
}

/// The part that starts `left`, and what remains after it.
#[verifier::rlimit(60)]
fn next_part<'a>(left: &'a str, words: &WordsInFile, keywords: &ListedKeywords) -> (r: (
    SentencePart,
    &'a str,
))
    requires
        words.wf(),
        left@.len() > 0,
        !is_whitespace(left@[0]),
    ensures
        r.1.spec_bytes().len() < left.spec_bytes().len(),
        r.1.spec_bytes() == left.spec_bytes().skip(
            left.spec_bytes().len() - r.1.spec_bytes().len(),
        ),
        part_stands_for(
            r.0,
            left.spec_bytes(),
            left.spec_bytes().len() - r.1.spec_bytes().len(),
            file_words(words.bytes()),
            keywords.classes(),
        ),
{
    let ghost b = left.spec_bytes();
    let ghost ws = file_words(words.bytes());
    let ghost classes = keywords.classes();
    proof {
        vstd::utf8::encode_utf8_valid_utf8(left@);
    }
    let found = keywords.find_keyword_starting(left);
    proof {
        lemma_no_keyword(classes, b, found);
    }
    if let Some((k, n)) = found {
        if n > 0 && left.is_char_boundary(n) {
            let (_, after) = left.split_at(n);
            proof {
                let f = choose|f: int|
                    crate::listed_keywords::first_match(classes[k.0 as int], b, f) && n
                        == classes[k.0 as int][f].len();
                assert(after.spec_bytes() =~= b.skip(n as int));
                assert(crate::listed_keywords::first_match(classes[k.0 as int], b, f));
            }
            return (SentencePart::Listed(k), after);
        }
    }
    let found_word = words.index_starting(left);
    proof {
        words.lemma_valid();
        if let Some((w, n)) = found_word {
            assert(b.subrange(0, n as int) =~= ws[w.0 as int]);
            crate::text::lemma_utf8_prefix_boundary(b, n as int);
        }
    }
    if let Some((w, n)) = found_word {
        if n > 0 && left.is_char_boundary(n) {
            let (_, after) = left.split_at(n);
            proof {
                assert(after.spec_bytes() =~= b.skip(n as int));
                assert(b.subrange(0, n as int) =~= ws[w.0 as int]);
            }
            return (SentencePart::Known(w), after);
        }
    }
    let len = len_next_token(left);
    proof {
        lemma_token_bounds(left@);
        lemma_prefix_boundary(left@, token_chars(left@));
    }
    let (literal, _) = left.split_at(len);
    let owned = literal.to_owned();
    let rest = skip_raw_token(left);
    proof {
        lemma_unknown_part(left@, b, literal@, rest@, rest.spec_bytes());
        assert(encode_utf8(owned@) == literal.spec_bytes());
        assert(part_stands_for(
            SentencePart::Unknown(owned),
            b,
            b.len() - rest.spec_bytes().len(),
            ws,
            classes,
        ));
    }
    (SentencePart::Unknown(owned), rest)
}

impl TokenizedSentence {
    /// Splits lower-cased, trimmed text: at each point a curated keyword if
    /// one starts there, else the longest known word found there, else the
    /// next run of non-whitespace characters as an unknown literal without
    /// its trailing punctuation.
    #[verifier::rlimit(60)]
    pub fn tokenize(text: &str, words: &WordsInFile, keywords: &ListedKeywords) -> (r: TokenizedSentence)
        requires
            words.wf(),
        ensures
            exists|spans: Seq<(int, int, int)>|
                tiles(
                    encode_utf8(prepared(text@)),
                    r.parts@,
                    spans,
                    file_words(words.bytes()),
                    keywords.classes(),
                ),
    {
        let lower = to_lowercase(text);
        let start = trim_start(lower.as_str());
        let trimmed = trim_end(start);
        proof {
            lemma_trim_start_head(lower@);
            lemma_trim_end_prefix(start@);
        }
        let ghost t = encode_utf8(prepared(text@));
        let ghost ws = file_words(words.bytes());
        let ghost classes = keywords.classes();
        let mut parts: Vec<SentencePart> = Vec::new();
        let mut left = trimmed;
        let ghost mut pos: int = 0;
        let ghost mut spans: Seq<(int, int, int)> = Seq::empty();
        assert(t.skip(0) =~= t);
        while !left.is_empty()
            invariant
                words.wf(),
                ws == file_words(words.bytes()),
                classes == keywords.classes(),
                t == encode_utf8(prepared(text@)),
                0 <= pos <= t.len(),
                left.spec_bytes() == t.skip(pos),
                left.spec_bytes() == encode_utf8(left@),
                left@.len() > 0 ==> !is_whitespace(left@[0]),
                spans.len() == parts@.len(),
                parts@.len() == 0 ==> pos == 0,
                parts@.len() > 0 ==> spans[0].0 == 0 && spans.last().2 == pos,
                forall|x: int| 0 <= x < spans.len() - 1 ==> #[trigger] spans[x].2 == spans[x + 1].0,
                forall|x: int|
                    0 <= x < spans.len() ==> span_ok(t, parts@[x], #[trigger] spans[x], ws, classes),
            decreases left.spec_bytes().len(),
        {
            let ghost before = left.spec_bytes();
            let (part, rest) = next_part(left, words, keywords);
            parts.push(part);
            let ghost end: int = pos + (before.len() - rest.spec_bytes().len());
            proof {
                assert(rest.spec_bytes() =~= t.skip(end));
            }
            let next = trim_start(rest);
            proof {
                let n = choose|n: int|
                    0 <= n <= rest@.len() && all_blank(#[trigger] rest@.take(n)) && rest@ == rest@.take(n) + next@;
                lemma_trim_step(t, end, rest@, next@, n);
                lemma_trim_start_head(rest@);
                let new_pos = end + encode_utf8(rest@.take(n)).len();
                if next@.len() > 0 {
                    assert(encode_utf8(next@) == t.skip(new_pos) && next@.len() > 0 && !is_whitespace(next@[0]));
                } else {
                    assert(encode_utf8(next@) =~= Seq::<u8>::empty());
                    assert(new_pos == t.len());
                }
                assert(span_ok(t, parts@.last(), (pos, end, new_pos), ws, classes));
                let old_spans = spans;
                spans = spans.push((pos, end, new_pos));
                assert forall|x: int| 0 <= x < spans.len() implies span_ok(t, parts@[x], #[trigger] spans[x], ws, classes) by {
                    if x < old_spans.len() {
                        assert(spans[x] == old_spans[x]);
                    }
                }
                pos = new_pos;
            }
            left = next;
        }
        proof {
            assert(left@ =~= Seq::<char>::empty());
            assert(encode_utf8(left@) =~= Seq::<u8>::empty());
            assert(pos == t.len());
            assert(tiles(t, parts@, spans, ws, classes));
        }
        let r = TokenizedSentence { parts };
        assert(tiles(t, r.parts@, spans, ws, classes));
        r
    }
}

/// Two tokens name the same token class.
pub open spec fn same_class(p: SentencePart, q: SentencePart) -> bool {
    match (p, q) {
        (SentencePart::Listed(a), SentencePart::Listed(b)) => a == b,
        (SentencePart::Known(a), SentencePart::Known(b)) => a == b,
        (SentencePart::Unknown(a), SentencePart::Unknown(b)) => encode_utf8(a@) == encode_utf8(b@),
        _ => false,
    }
}

proof fn lemma_encode_injective(a: Seq<char>, b: Seq<char>)
    requires
        encode_utf8(a) == encode_utf8(b),
    ensures
        a == b,
{
    vstd::utf8::encode_utf8_decode_utf8(a);
    vstd::utf8::encode_utf8_decode_utf8(b);
}

/// Two parts that start at the same place consume the same bytes, name the
/// same class, and are followed by the same whitespace.
proof fn lemma_part_agree(
    t: Seq<u8>,
    p: SentencePart,
    sp: (int, int, int),
    q: SentencePart,
    sq: (int, int, int),
    words: Seq<Seq<u8>>,
    classes: Seq<Seq<Seq<u8>>>,
)
    requires
        span_ok(t, p, sp, words, classes),
        span_ok(t, q, sq, words, classes),
        sp.0 == sq.0,
        all_distinct(words),
    ensures
        same_class(p, q),
        sp.1 == sq.1,
        sp.2 == sq.2,
{
    let r = t.skip(sp.0);
    let n1 = sp.1 - sp.0;
    let n2 = sq.1 - sq.0;
    match p {
        SentencePart::Listed(k1) => {
            let f1 = choose|f: int| first_match(classes[k1.0 as int], r, f) && classes[k1.0 as int][f].len() == n1;
            match q {
                SentencePart::Listed(k2) => {
                    let f2 = choose|f: int| first_match(classes[k2.0 as int], r, f) && classes[k2.0 as int][f].len() == n2;
                    if k1.0 < k2.0 {
                        assert(no_match(classes[k1.0 as int], r));
                        assert(crate::listed_keywords::form_matches(classes[k1.0 as int][f1], r));
                    } else if k2.0 < k1.0 {
                        assert(no_match(classes[k2.0 as int], r));
                        assert(crate::listed_keywords::form_matches(classes[k2.0 as int][f2], r));
                    } else {
                        if f1 < f2 {
                            assert(crate::listed_keywords::form_matches(classes[k1.0 as int][f1], r));
                        } else if f2 < f1 {
                            assert(crate::listed_keywords::form_matches(classes[k2.0 as int][f2], r));
                        }
                    }
                },
                _ => {
                    assert(no_keyword_at(classes, r));
                    assert(first_match(classes[k1.0 as int], r, f1));
                },
            }
        },
        SentencePart::Known(w1) => {
            assert(is_prefix(words[w1.0 as int], r));
            match q {
                SentencePart::Listed(k2) => {
                    let f2 = choose|f: int| first_match(classes[k2.0 as int], r, f) && classes[k2.0 as int][f].len() == n2;
                    assert(first_match(classes[k2.0 as int], r, f2));
                },
                SentencePart::Known(w2) => {
                    assert(is_prefix(words[w2.0 as int], r));
                    assert(n1 == n2);
                    if w1.0 < w2.0 {
                        assert(words[w1.0 as int] != words[w2.0 as int]);
                    } else if w2.0 < w1.0 {
                        assert(words[w2.0 as int] != words[w1.0 as int]);
                    }
                },
                SentencePart::Unknown(_) => {},
            }
        },
        SentencePart::Unknown(l1) => {
            let c1 = choose|chars: Seq<char>|
                encode_utf8(chars) == r && encode_utf8(chars.take(token_chars(chars))) == encode_utf8(l1@) && n1
                    == encode_utf8(chars.take(raw_token_chars(chars))).len();
            match q {
                SentencePart::Listed(k2) => {
                    let f2 = choose|f: int| first_match(classes[k2.0 as int], r, f) && classes[k2.0 as int][f].len() == n2;
                    assert(first_match(classes[k2.0 as int], r, f2));
                },
                SentencePart::Known(w2) => {
                    assert(is_prefix(words[w2.0 as int], r));
                },
                SentencePart::Unknown(l2) => {
                    let c2 = choose|chars: Seq<char>|
                        encode_utf8(chars) == r && encode_utf8(chars.take(token_chars(chars))) == encode_utf8(l2@)
                            && n2 == encode_utf8(chars.take(raw_token_chars(chars))).len();
                    lemma_encode_injective(c1, c2);
                },
            }
        },
    }
    // the whitespace that follows ends at the same place
    let b = sp.1;
    if sp.2 != sq.2 {
        let (lo, hi) = if sp.2 < sq.2 { (sp.2, sq.2) } else { (sq.2, sp.2) };
        let ws_lo = choose|cs: Seq<char>| all_blank(cs) && encode_utf8(cs) == t.subrange(b, lo);
        let ws_hi = choose|cs: Seq<char>| all_blank(cs) && encode_utf8(cs) == t.subrange(b, hi);
        let after = choose|cs: Seq<char>| encode_utf8(cs) == t.skip(lo) && cs.len() > 0 && !is_whitespace(cs[0]);
        lemma_encode_concat(ws_lo, after);
        assert(t.skip(b) =~= t.subrange(b, lo) + t.skip(lo));
        if hi < t.len() {
            let after_hi = choose|cs: Seq<char>| encode_utf8(cs) == t.skip(hi) && cs.len() > 0 && !is_whitespace(cs[0]);
            lemma_encode_concat(ws_hi, after_hi);
            assert(t.skip(b) =~= t.subrange(b, hi) + t.skip(hi));
            lemma_encode_injective(ws_lo + after, ws_hi + after_hi);
            let x = ws_lo.len() as int;
            if x >= ws_hi.len() {
                assert(ws_hi =~= (ws_lo + after).take(ws_hi.len() as int));
                assert(ws_lo + after =~= ws_hi + (ws_lo + after).skip(ws_hi.len() as int));
                lemma_encode_concat(ws_hi, (ws_lo + after).skip(ws_hi.len() as int));
                assert((ws_lo + after).take(x) =~= ws_lo);
                assert(ws_lo =~= ws_hi + ws_lo.skip(ws_hi.len() as int));
                lemma_encode_concat(ws_hi, ws_lo.skip(ws_hi.len() as int));
            } else {
                assert((ws_lo + after)[x] == after[0]);
                assert((ws_hi + after_hi)[x] == ws_hi[x]);
            }
        } else {
            assert(t.skip(hi) =~= Seq::<u8>::empty());
            assert(t.skip(b) =~= t.subrange(b, hi));
            lemma_encode_injective(ws_lo + after, ws_hi);
            assert((ws_lo + after)[ws_lo.len() as int] == after[0]);
        }
    }
}

/// The tiling of a text is unique up to the classes that its parts name:
/// tokenization has one outcome.
pub proof fn lemma_tiles_agree(
    t: Seq<u8>,
    p1: Seq<SentencePart>,
    s1: Seq<(int, int, int)>,
    p2: Seq<SentencePart>,
    s2: Seq<(int, int, int)>,
    words: Seq<Seq<u8>>,
    classes: Seq<Seq<Seq<u8>>>,
)
    requires
        tiles(t, p1, s1, words, classes),
        tiles(t, p2, s2, words, classes),
        all_distinct(words),
    ensures
        p1.len() == p2.len(),
        forall|x: int| 0 <= x < p1.len() ==> same_class(#[trigger] p1[x], p2[x]),
{
    let m = if p1.len() < p2.len() { p1.len() as int } else { p2.len() as int };
    lemma_agree_prefix(t, p1, s1, p2, s2, words, classes, m);
    if p1.len() != p2.len() {
        if m == 0 {
            if p1.len() == 0 {
                assert(span_ok(t, p2[0], s2[0], words, classes));
            } else {
                assert(span_ok(t, p1[0], s1[0], words, classes));
            }
        } else if p1.len() < p2.len() {
            assert(s1[m - 1] == s1.last());
            assert(s2[m - 1].2 == s2[m].0);
            assert(span_ok(t, p2[m], s2[m], words, classes));
        } else {
            assert(s2[m - 1] == s2.last());
            assert(s1[m - 1].2 == s1[m].0);
            assert(span_ok(t, p1[m], s1[m], words, classes));
        }
    }
}

proof fn lemma_agree_prefix(
    t: Seq<u8>,
    p1: Seq<SentencePart>,
    s1: Seq<(int, int, int)>,
    p2: Seq<SentencePart>,
    s2: Seq<(int, int, int)>,
    words: Seq<Seq<u8>>,
    classes: Seq<Seq<Seq<u8>>>,
    x: int,
)
    requires
        tiles(t, p1, s1, words, classes),
        tiles(t, p2, s2, words, classes),
        all_distinct(words),
        0 <= x <= p1.len(),
        x <= p2.len(),
    ensures
        forall|y: int| 0 <= y < x ==> s1[y] == s2[y] && same_class(#[trigger] p1[y], p2[y]),
    decreases x,
{
    if x > 0 {
        let y = x - 1;
        lemma_agree_prefix(t, p1, s1, p2, s2, words, classes, y);
        if y > 0 {
            assert(s1[y - 1].2 == s1[y].0);
            assert(s2[y - 1].2 == s2[y].0);
            assert(s1[y - 1] == s2[y - 1]);
        }
        assert(span_ok(t, p1[y], s1[y], words, classes));
        assert(span_ok(t, p2[y], s2[y], words, classes));
        lemma_part_agree(t, p1[y], s1[y], p2[y], s2[y], words, classes);
    }
}

} // verus!
