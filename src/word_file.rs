//! The indexed word file: for each word its nearest neighbours with their
//! similarities, an alphabetical index and the words' text, laid out so that
//! any of it can be read in place.
//!
//! Layout, little endian throughout:
//! - 4 bytes: ASCII "WORD"; 4 bytes: number of words N; 4 bytes: neighbours
//!   per word k;
//! - N * k * 8 bytes: for each word, k pairs (word index, f32 similarity bits),
//!   best first;
//! - N * 4 bytes: the word indices in byte-lexicographic order of their text;
//! - N * 4 bytes: for each word, the offset of its text in the string table;
//! - 4 bytes: L, the length of the string table; L bytes: the texts, each
//!   ended by a zero byte.
use vstd::prelude::*;
use vstd::bytes::{lemma_auto_spec_u32_to_from_le_bytes, spec_u32_from_le_bytes, spec_u32_to_le_bytes,
    u32_from_le_bytes, u32_to_le_bytes};
use vstd::slice::slice_subrange;
use vstd::string::StringSliceAdditionalSpecFns;
use vstd::utf8::valid_utf8;
use crate::near_words::{WordAndValue, float_order, float_order_exec, nearest_row};
use crate::text::{bytes_lt, compare_bytes, first_difference,
    is_prefix, lemma_lt_asymmetric, lemma_lt_first_difference, lemma_lt_irreflexive, lemma_lt_total, lemma_lt_transitive,
    lemma_prefix_lt};
use crate::word::{MemoryWords, WordIndex, WordSource, all_distinct};

verus! {

/// The little-endian `u32` at `pos`.
pub open spec fn le_u32_at(d: Seq<u8>, pos: int) -> u32 {
    spec_u32_from_le_bytes(d.subrange(pos, pos + 4))
}

pub open spec fn count_of(d: Seq<u8>) -> int {
    le_u32_at(d, 4) as int
}

pub open spec fn width_of(d: Seq<u8>) -> int {
    le_u32_at(d, 8) as int
}

pub open spec fn alpha_start(d: Seq<u8>) -> int {
    12 + count_of(d) * width_of(d) * 8
}

pub open spec fn offsets_start(d: Seq<u8>) -> int {
    alpha_start(d) + count_of(d) * 4
}

pub open spec fn strings_start(d: Seq<u8>) -> int {
    offsets_start(d) + count_of(d) * 4 + 4
}

pub open spec fn strings_len(d: Seq<u8>) -> int {
    le_u32_at(d, offsets_start(d) + count_of(d) * 4) as int
}

pub open spec fn strings_end(d: Seq<u8>) -> int {
    strings_start(d) + strings_len(d)
}

/// The fixed header and the section sizes that it implies fit in the bytes.
pub open spec fn header_ok(d: Seq<u8>) -> bool {
    &&& d.len() >= 12
    &&& d.subrange(0, 4) =~= seq![87u8, 79u8, 82u8, 68u8]
    &&& strings_start(d) <= d.len()
    &&& strings_end(d) <= d.len()
}

/// Neighbour `s` of word `i`.
pub open spec fn synonym_at(d: Seq<u8>, i: int, s: int) -> WordAndValue {
    let o = 12 + (i * width_of(d) + s) * 8;
    WordAndValue { word: WordIndex(le_u32_at(d, o)), value: le_u32_at(d, o + 4) }
}

/// The stored neighbours of word `w`.
pub open spec fn neighbours_of(d: Seq<u8>, w: u32) -> Seq<WordAndValue> {
    Seq::new(width_of(d) as nat, |s: int| synonym_at(d, w as int, s))
}

/// Position `j` of the alphabetical index.
pub open spec fn alpha_at(d: Seq<u8>, j: int) -> u32 {
    le_u32_at(d, alpha_start(d) + 4 * j)
}

/// Where the text of word `i` starts.
pub open spec fn text_start(d: Seq<u8>, i: int) -> int {
    strings_start(d) + le_u32_at(d, offsets_start(d) + 4 * i) as int
}

/// The first zero byte at or after `p` and before `end`, or `end`.
pub open spec fn zero_from(d: Seq<u8>, p: int, end: int) -> int
    decreases end - p,
{
    if p >= end {
        end
    } else if d[p] == 0 {
        p
    } else {
        zero_from(d, p + 1, end)
    }
}

/// The text of word `i` ends with a zero byte inside the string table.
pub open spec fn text_terminated(d: Seq<u8>, i: int) -> bool {
    text_start(d, i) < strings_end(d) && zero_from(d, text_start(d, i), strings_end(d))
        < strings_end(d)
}

/// The bytes of word `i`, up to its terminator.
pub open spec fn stored_word(d: Seq<u8>, i: int) -> Seq<u8> {
    d.subrange(text_start(d, i), zero_from(d, text_start(d, i), strings_end(d)))
}

/// Every part of the file can be located.
pub open spec fn structure_ok(d: Seq<u8>) -> bool {
    &&& header_ok(d)
    &&& forall|j: int| 0 <= j < count_of(d) ==> alpha_at(d, j) < count_of(d)
    &&& forall|i: int| 0 <= i < count_of(d) ==> text_terminated(d, i)
}

/// The bytes are an indexed word file.
pub open spec fn valid_word_file(d: Seq<u8>) -> bool {
    &&& structure_ok(d)
    &&& all_utf8(d)
    &&& ordered_ok(d)
}

/// The words come in strictly increasing order through the alphabetical
/// index, and every row of neighbours is well formed.
pub open spec fn ordered_ok(d: Seq<u8>) -> bool {
    &&& strict_index(file_words(d), file_alpha(d))
    &&& forall|i: int| 0 <= i < count_of(d) ==> row_ok(#[trigger] neighbours_of(d, i as u32), i, count_of(d))
}

/// `alpha` lists every index of `words` once, their texts in strictly
/// increasing byte-lexicographic order.
pub open spec fn strict_index(words: Seq<Seq<u8>>, alpha: Seq<u32>) -> bool {
    &&& alpha.len() == words.len()
    &&& forall|j: int| 0 <= j < alpha.len() ==> alpha[j] < words.len()
    &&& forall|i: int| 0 <= i < words.len() ==> #[trigger] alpha.contains(i as u32)
    &&& forall|j1: int, j2: int|
        0 <= j1 < j2 < alpha.len() ==> bytes_lt(#[trigger] words[alpha[j1] as int], #[trigger] words[alpha[j2] as int])
}

/// The neighbours of word `i` among `n` words: each another word, none
/// twice, similarities from highest to lowest.
pub open spec fn row_ok(row: Seq<WordAndValue>, i: int, n: int) -> bool {
    &&& forall|s: int| 0 <= s < row.len() ==> (#[trigger] row[s]).word.0 < n && row[s].word.0 != i
    &&& forall|s1: int, s2: int|
        0 <= s1 < s2 < row.len() ==> (#[trigger] row[s1]).word != (#[trigger] row[s2]).word && float_order(
            row[s1].value,
        ) >= float_order(row[s2].value)
}

/// A strict index is sorted, lists each word exactly once, and its words
/// are distinct.
pub proof fn lemma_strict_index(words: Seq<Seq<u8>>, alpha: Seq<u32>)
    requires
        strict_index(words, alpha),
        words.len() <= u32::MAX,
    ensures
        sorted_index(words, alpha),
        alpha.no_duplicates(),
        all_distinct(words),
{
    assert forall|j1: int, j2: int| 0 <= j1 < alpha.len() && 0 <= j2 < alpha.len() && j1 != j2 implies alpha[j1]
        != alpha[j2] by {
        if j1 < j2 {
            lemma_lt_asymmetric(words[alpha[j1] as int], words[alpha[j2] as int]);
        } else {
            lemma_lt_asymmetric(words[alpha[j2] as int], words[alpha[j1] as int]);
        }
    }
    assert forall|j1: int, j2: int| 0 <= j1 < j2 < alpha.len() implies !bytes_lt(
        words[alpha[j2] as int],
        words[alpha[j1] as int],
    ) by {
        lemma_lt_asymmetric(words[alpha[j1] as int], words[alpha[j2] as int]);
    }
    assert forall|i1: int, i2: int| 0 <= i1 < i2 < words.len() implies words[i1] != words[i2] by {
        assert(alpha.contains(i1 as u32));
        assert(alpha.contains(i2 as u32));
        let j1 = choose|j: int| 0 <= j < alpha.len() && alpha[j] == i1 as u32;
        let j2 = choose|j: int| 0 <= j < alpha.len() && alpha[j] == i2 as u32;
        assert(j1 != j2);
        if j1 < j2 {
            lemma_lt_asymmetric(words[alpha[j1] as int], words[alpha[j2] as int]);
        } else {
            lemma_lt_asymmetric(words[alpha[j2] as int], words[alpha[j1] as int]);
        }
    }
}

/// Whether a row of neighbours of word `i` among `n` words is well formed.
pub fn row_valid(row: &Vec<WordAndValue>, i: u32, n: usize) -> (r: bool)
    ensures
        r == row_ok(row@, i as int, n as int),
{
    let mut s2: usize = 0;
    while s2 < row.len()
        invariant
            s2 <= row@.len(),
            forall|s: int| 0 <= s < s2 ==> (#[trigger] row@[s]).word.0 < n && row@[s].word.0 != i,
            forall|s1: int, s3: int|
                0 <= s1 < s3 < s2 ==> (#[trigger] row@[s1]).word != (#[trigger] row@[s3]).word && float_order(
                    row@[s1].value,
                ) >= float_order(row@[s3].value),
        decreases row@.len() - s2,
    {
        let e = row[s2];
        if e.word.0 as usize >= n || e.word.0 == i {
            return false;
        }
        let key = float_order_exec(e.value);
        let mut s1: usize = 0;
        while s1 < s2
            invariant
                s1 <= s2 < row@.len(),
                e == row@[s2 as int],
                key == float_order(e.value),
                forall|s: int| 0 <= s < s1 ==> (#[trigger] row@[s]).word != e.word && float_order(row@[s].value) >= key,
            decreases s2 - s1,
        {
            let f = row[s1];
            if f.word.0 == e.word.0 || float_order_exec(f.value) < key {
                return false;
            }
            s1 = s1 + 1;
        }
        s2 = s2 + 1;
    }
    true
}



/// Every word of the file is UTF-8.
pub open spec fn all_utf8(d: Seq<u8>) -> bool {
    forall|i: int| 0 <= i < count_of(d) ==> valid_utf8(stored_word(d, i))
}

/// The words of the file, by index.
pub open spec fn file_words(d: Seq<u8>) -> Seq<Seq<u8>> {
    Seq::new(count_of(d) as nat, |i: int| stored_word(d, i))
}

/// The alphabetical index of the file.
pub open spec fn file_alpha(d: Seq<u8>) -> Seq<u32> {
    Seq::new(count_of(d) as nat, |j: int| alpha_at(d, j))
}

/// `alpha` lists the indices of `words` in byte-lexicographic order of their
/// text, each index at least once.
pub open spec fn sorted_index(words: Seq<Seq<u8>>, alpha: Seq<u32>) -> bool {
    &&& alpha.len() == words.len()
    &&& forall|j: int| 0 <= j < alpha.len() ==> alpha[j] < words.len()
    &&& forall|i: int| 0 <= i < words.len() ==> #[trigger] alpha.contains(i as u32)
    &&& forall|j1: int, j2: int|
        0 <= j1 < j2 < alpha.len() ==> !bytes_lt(
            words[alpha[j2] as int],
            words[alpha[j1] as int],
        )
}

proof fn lemma_magic(d: Seq<u8>)
    requires
        d.len() >= 4,
    ensures
        (d.subrange(0, 4) =~= seq![87u8, 79u8, 82u8, 68u8]) <==> (d[0] == 87u8 && d[1] == 79u8
            && d[2] == 82u8 && d[3] == 68u8),
{
    let m = d.subrange(0, 4);
    assert(m[0] == d[0] && m[1] == d[1] && m[2] == d[2] && m[3] == d[3]);
}

/// Why bytes are not an indexed word file.
#[derive(PartialEq, Eq, Structural, Debug, Copy, Clone)]
pub enum WordFileError {
    /// Missing magic, sections that do not fit, an index out of range, or a
    /// text without terminator.
    Format,
    /// A word's text is not UTF-8.
    Encoding,
}

/// Relies on std::str::from_utf8: it accepts exactly the valid UTF-8 byte
/// strings, and the text it returns has those bytes.
#[verifier::external_body]
fn utf8_text(b: &[u8]) -> (r: Option<&str>)
    ensures
        r is Some <==> valid_utf8(b@),
        r matches Some(s) ==> s.spec_bytes() == b@,
{
    std::str::from_utf8(b).ok()
}

fn read_u32(d: &Vec<u8>, pos: usize) -> (r: u32)
    requires
        pos + 4 <= d@.len(),
    ensures
        r == le_u32_at(d@, pos as int),
{
    let _ = d.len();
    u32_from_le_bytes(slice_subrange(d.as_slice(), pos, pos + 4))
}

/// The first zero byte in `[p, end)`, or `end`.
fn find_zero(d: &Vec<u8>, p: usize, end: usize) -> (r: usize)
    requires
        p <= end <= d@.len(),
    ensures
        r == zero_from(d@, p as int, end as int),
        p <= r <= end,
        forall|q: int| p <= q < r ==> d@[q] != 0,
{
    let mut q = p;
    while q < end && d[q] != 0
        invariant
            p <= q <= end <= d@.len(),
            zero_from(d@, q as int, end as int) == zero_from(d@, p as int, end as int),
            forall|x: int| p <= x < q ==> d@[x] != 0,
        decreases end - q,
    {
        q = q + 1;
    }
    q
}

/// A word file held in memory.
pub struct WordsInFile {
    data: Vec<u8>,
    number_words: usize,
    num_synonyms: usize,
    alphabetic_order_start: usize,
    offsets_start: usize,
    strings_start: usize,
    strings_end: usize,
}

impl WordsInFile {
    /// The bytes of the file.
    pub closed spec fn bytes(&self) -> Seq<u8> {
        self.data@
    }

    pub closed spec fn wf(&self) -> bool {
        &&& self.located()
        &&& valid_word_file(self.data@)
    }

    /// Every part of the file can be located, through the offsets kept.
    closed spec fn located(&self) -> bool {
        &&& structure_ok(self.data@)
        &&& all_utf8(self.data@)
        &&& self.number_words == count_of(self.data@)
        &&& self.num_synonyms == width_of(self.data@)
        &&& self.alphabetic_order_start == alpha_start(self.data@)
        &&& self.offsets_start == offsets_start(self.data@)
        &&& self.strings_start == strings_start(self.data@)
        &&& self.strings_end == strings_end(self.data@)
    }

    /// Checks the bytes of a word file and keeps them.
    #[verifier::rlimit(60)]
    pub fn read_word_file(data: Vec<u8>) -> (r: Result<WordsInFile, WordFileError>)
        ensures
            r is Ok <==> valid_word_file(data@),
            r == Err::<WordsInFile, WordFileError>(WordFileError::Encoding) <==> structure_ok(data@)
                && !all_utf8(data@),
            r == Err::<WordsInFile, WordFileError>(WordFileError::Format) <==> !structure_ok(data@) || (
            all_utf8(data@) && !ordered_ok(data@)),
            r matches Ok(w) ==> w.wf() && w.bytes() == data@,
    {
        if data.len() < 12 {
            return Err(WordFileError::Format);
        }
        proof {
            lemma_magic(data@);
        }
        if !(data[0] == 87u8 && data[1] == 79u8 && data[2] == 82u8 && data[3] == 68u8) {
            return Err(WordFileError::Format);
        }
        let n = read_u32(&data, 4);
        let k = read_u32(&data, 8);
        let len = data.len() as u128;
        proof {
            assert((n as u128) * (k as u128) <= 0xFFFF_FFFFu128 * 0xFFFF_FFFFu128)
                by (nonlinear_arith)
                requires
                    n <= 0xFFFF_FFFFu32,
                    k <= 0xFFFF_FFFFu32,
            ;
        }
        let alpha = 12u128 + (n as u128) * (k as u128) * 8u128;
        let offsets = alpha + (n as u128) * 4u128;
        let strings = offsets + (n as u128) * 4u128 + 4u128;
        if strings > len {
            return Err(WordFileError::Format);
        }
        let strings_len = read_u32(&data, (offsets + (n as u128) * 4u128) as usize);
        if strings + (strings_len as u128) > len {
            return Err(WordFileError::Format);
        }
        let number_words = n as usize;
        let alpha_pos = alpha as usize;
        let offsets_pos = offsets as usize;
        let strings_pos = strings as usize;
        let strings_stop = (strings + (strings_len as u128)) as usize;
        assert(header_ok(data@));
        let mut j: usize = 0;
        while j < number_words
            invariant
                header_ok(data@),
                number_words == count_of(data@),
                alpha_pos == alpha_start(data@),
                offsets_pos == offsets_start(data@),
                j <= number_words,
                forall|x: int| 0 <= x < j ==> alpha_at(data@, x) < count_of(data@),
            decreases number_words - j,
        {
            let a = read_u32(&data, alpha_pos + 4 * j);
            if a as usize >= number_words {
                assert(!(alpha_at(data@, j as int) < count_of(data@)));
                assert(!structure_ok(data@));
                return Err(WordFileError::Format);
            }
            j = j + 1;
        }
        let mut i: usize = 0;
        while i < number_words
            invariant
                header_ok(data@),
                number_words == count_of(data@),
                offsets_pos == offsets_start(data@),
                strings_pos == strings_start(data@),
                strings_stop == strings_end(data@),
                forall|x: int| 0 <= x < count_of(data@) ==> alpha_at(data@, x) < count_of(data@),
                i <= number_words,
                forall|x: int| 0 <= x < i ==> text_terminated(data@, x),
            decreases number_words - i,
        {
            let offset = read_u32(&data, offsets_pos + 4 * i);
            if offset as usize >= strings_stop - strings_pos {
                assert(!text_terminated(data@, i as int));
                assert(!structure_ok(data@));
                return Err(WordFileError::Format);
            }
            let start = strings_pos + offset as usize;
            let end = find_zero(&data, start, strings_stop);
            if end == strings_stop {
                assert(!text_terminated(data@, i as int));
                assert(!structure_ok(data@));
                return Err(WordFileError::Format);
            }
            i = i + 1;
        }
        assert(structure_ok(data@));
        let mut i: usize = 0;
        while i < number_words
            invariant
                structure_ok(data@),
                number_words == count_of(data@),
                offsets_pos == offsets_start(data@),
                strings_pos == strings_start(data@),
                strings_stop == strings_end(data@),
                i <= number_words,
                forall|x: int| 0 <= x < i ==> valid_utf8(stored_word(data@, x)),
            decreases number_words - i,
        {
            let offset = read_u32(&data, offsets_pos + 4 * i);
            assert(text_terminated(data@, i as int));
            let start = strings_pos + offset as usize;
            let end = find_zero(&data, start, strings_stop);
            let text = slice_subrange(data.as_slice(), start, end);
            if utf8_text(text).is_none() {
                assert(!valid_utf8(stored_word(data@, i as int)));
                return Err(WordFileError::Encoding);
            }
            i = i + 1;
        }
        let file = WordsInFile {
            data,
            number_words,
            num_synonyms: k as usize,
            alphabetic_order_start: alpha_pos,
            offsets_start: offsets_pos,
            strings_start: strings_pos,
            strings_end: strings_stop,
        };
        if file.check_sorted() && file.check_rows() {
            Ok(file)
        } else {
            Err(WordFileError::Format)
        }
    }

    /// Whether the alphabetical index lists every word, in strictly
    /// increasing byte order.
    #[verifier::rlimit(60)]
    fn check_sorted(&self) -> (r: bool)
        requires
            self.located(),
        ensures
            r == strict_index(file_words(self.bytes()), file_alpha(self.bytes())),
    {
        let ghost words = file_words(self.data@);
        let ghost alpha = file_alpha(self.data@);
        let n = self.number_words;
        let mut j: usize = 1;
        while j < n
            invariant
                self.located(),
                words == file_words(self.data@),
                alpha == file_alpha(self.data@),
                n == count_of(self.data@),
                1 <= j,
                j <= n || n == 0,
                forall|x1: int, x2: int|
                    0 <= x1 < x2 < j && x2 < n ==> bytes_lt(#[trigger] words[alpha[x1] as int], #[trigger] words[alpha[x2] as int]),
            decreases n - j,
        {
            let cur = self.word_bytes(self.alpha(j).0 as usize);
            let prev = self.word_bytes(self.alpha(j - 1).0 as usize);
            if compare_bytes(prev, cur) >= 0 {
                assert(!strict_index(words, alpha)) by {
                    assert(!bytes_lt(words[alpha[j - 1] as int], words[alpha[j as int] as int]));
                }
                return false;
            }
            proof {
                let a = words[alpha[j as int] as int];
                let p = words[alpha[j - 1] as int];
                assert forall|x1: int, x2: int|
                    0 <= x1 < x2 < j + 1 && x2 < n implies bytes_lt(#[trigger] words[alpha[x1] as int], #[trigger] words[alpha[x2] as int]) by {
                    if x2 == j && x1 < j - 1 {
                        lemma_lt_transitive(words[alpha[x1] as int], p, a);
                    }
                }
            }
            j = j + 1;
        }
        let mut seen: Vec<bool> = Vec::new();
        let mut i: usize = 0;
        while i < n
            invariant
                i <= n,
                seen@.len() == i,
                forall|x: int| 0 <= x < i ==> !(#[trigger] seen@[x]),
            decreases n - i,
        {
            seen.push(false);
            i = i + 1;
        }
        let mut j: usize = 0;
        while j < n
            invariant
                self.located(),
                alpha == file_alpha(self.data@),
                n == count_of(self.data@),
                j <= n,
                seen@.len() == n,
                forall|x: int| 0 <= x < n ==> (#[trigger] seen@[x] <==> exists|y: int| 0 <= y < j && alpha[y] == x),
            decreases n - j,
        {
            let a = self.alpha(j).0 as usize;
            seen.set(a, true);
            proof {
                assert forall|x: int| 0 <= x < n implies (#[trigger] seen@[x] <==> exists|y: int| 0 <= y < j + 1 && alpha[y] == x) by {
                    if x == a {
                        assert(alpha[j as int] == x);
                    } else if exists|y: int| 0 <= y < j + 1 && alpha[y] == x {
                        let y = choose|y: int| 0 <= y < j + 1 && alpha[y] == x;
                        assert(y < j);
                    }
                }
            }
            j = j + 1;
        }
        let mut i: usize = 0;
        while i < n
            invariant
                self.located(),
                alpha == file_alpha(self.data@),
                words == file_words(self.data@),
                n == count_of(self.data@),
                i <= n,
                seen@.len() == n,
                forall|x: int| 0 <= x < n ==> (#[trigger] seen@[x] <==> exists|y: int| 0 <= y < n && alpha[y] == x),
                forall|x: int| 0 <= x < i ==> #[trigger] alpha.contains(x as u32),
            decreases n - i,
        {
            if !seen[i] {
                assert(!alpha.contains(i as u32));
                return false;
            }
            proof {
                let y = choose|y: int| 0 <= y < n && alpha[y] == i;
                assert(alpha[y] == i as u32);
            }
            i = i + 1;
        }
        proof {
            assert forall|x: int| 0 <= x < alpha.len() implies alpha[x] < words.len() by {
                assert(alpha_at(self.data@, x) < count_of(self.data@));
            }
        }
        true
    }

    /// The bytes of word `i`, without its terminator.
    fn word_bytes(&self, i: usize) -> (r: &[u8])
        requires
            self.located(),
            i < count_of(self.bytes()),
        ensures
            r@ == stored_word(self.bytes(), i as int),
    {
        let offset = read_u32(&self.data, self.offsets_start + 4 * i);
        assert(text_terminated(self.data@, i as int));
        let start = self.strings_start + offset as usize;
        let end = find_zero(&self.data, start, self.strings_end);
        slice_subrange(self.data.as_slice(), start, end)
    }

    /// Position `j` of the alphabetical index.
    fn alpha(&self, j: usize) -> (r: WordIndex)
        requires
            self.located(),
            j < count_of(self.bytes()),
        ensures
            r.0 == alpha_at(self.bytes(), j as int),
            r.0 < count_of(self.bytes()),
    {
        assert(alpha_at(self.data@, j as int) < count_of(self.data@));
        WordIndex(read_u32(&self.data, self.alphabetic_order_start + 4 * j))
    }

    /// A file that was read is sorted, and its words are UTF-8.
    pub proof fn lemma_valid(&self)
        requires
            self.wf(),
        ensures
            self.sorted(),
            all_distinct(file_words(self.bytes())),
            forall|i: int| 0 <= i < count_of(self.bytes()) ==> valid_utf8(#[trigger] file_words(self.bytes())[i]),
            forall|i: int|
                0 <= i < count_of(self.bytes()) ==> row_ok(
                    #[trigger] neighbours_of(self.bytes(), i as u32),
                    i,
                    count_of(self.bytes()),
                ),
    {
        lemma_strict_index(file_words(self.data@), file_alpha(self.data@));
    }

    /// Whether every row of neighbours is well formed.
    fn check_rows(&self) -> (r: bool)
        requires
            self.located(),
        ensures
            r == forall|i: int|
                0 <= i < count_of(self.bytes()) ==> row_ok(
                    #[trigger] neighbours_of(self.bytes(), i as u32),
                    i,
                    count_of(self.bytes()),
                ),
    {
        let n = self.number_words;
        let mut i: usize = 0;
        while i < n
            invariant
                self.located(),
                n == count_of(self.data@),
                i <= n,
                forall|x: int| 0 <= x < i ==> row_ok(#[trigger] neighbours_of(self.data@, x as u32), x, n as int),
            decreases n - i,
        {
            let row = self.read_row(WordIndex(i as u32));
            assert(row@ =~= neighbours_of(self.data@, i as u32));
            if !row_valid(&row, i as u32, n) {
                return false;
            }
            i = i + 1;
        }
        true
    }

    /// The number of neighbours stored for each word.
    pub fn num_synonyms(&self) -> (r: usize)
        requires
            self.wf(),
        ensures
            r == width_of(self.bytes()),
    {
        self.num_synonyms
    }

    /// The stored neighbours of a word, best first.
    pub fn synonyms(&self, word: WordIndex) -> (r: Vec<WordAndValue>)
        requires
            self.wf(),
            word.0 < count_of(self.bytes()),
        ensures
            r@ == Seq::new(
                width_of(self.bytes()) as nat,
                |s: int| synonym_at(self.bytes(), word.0 as int, s),
            ),
            row_ok(r@, word.0 as int, count_of(self.bytes())),
    {
        proof {
            self.lemma_valid();
            let wi = word.0 as int;
            assert(row_ok(neighbours_of(self.data@, wi as u32), wi, count_of(self.data@)));
            assert(wi as u32 == word.0);
        }
        let r = self.read_row(word);
        assert(r@ =~= neighbours_of(self.data@, word.0));
        r
    }

    fn read_row(&self, word: WordIndex) -> (r: Vec<WordAndValue>)
        requires
            self.located(),
            word.0 < count_of(self.bytes()),
        ensures
            r@ == Seq::new(
                width_of(self.bytes()) as nat,
                |s: int| synonym_at(self.bytes(), word.0 as int, s),
            ),
    {
        let i = word.0 as usize;
        let k = self.num_synonyms;
        let mut res: Vec<WordAndValue> = Vec::new();
        let mut s: usize = 0;
        proof {
            assert(i * k + k <= count_of(self.data@) * k) by (nonlinear_arith)
                requires
                    i < count_of(self.data@),
                    k >= 0,
            ;
        }
        while s < k
            invariant
                self.located(),
                k == width_of(self.data@),
                i < count_of(self.data@),
                i * k + k <= count_of(self.data@) * k,
                s <= k,
                res@ == Seq::new(s as nat, |x: int| synonym_at(self.data@, i as int, x)),
            decreases k - s,
        {
            let o = 12 + (i * k + s) * 8;
            let w = read_u32(&self.data, o);
            let v = read_u32(&self.data, o + 4);
            res.push(WordAndValue { word: WordIndex(w), value: v });
            s = s + 1;
            assert(res@ =~= Seq::new(s as nat, |x: int| synonym_at(self.data@, i as int, x)));
        }
        res
    }
}

impl WordsInFile {
    /// The alphabetical index of the file is sorted and covers every word.
    pub open spec fn sorted(&self) -> bool {
        sorted_index(file_words(self.bytes()), file_alpha(self.bytes()))
    }

    /// The number of positions in `[low, high)` of the alphabetical index,
    /// counted from `low`, whose words sort at or before `u`.
    fn upper_bound(&self, u: &[u8], low: usize, high: usize) -> (pos: usize)
        requires
            self.wf(),
            low <= high <= count_of(self.bytes()),
        ensures
            low <= pos <= high,
            self.sorted() ==> forall|j: int|
                low <= j < pos ==> !bytes_lt(u@, #[trigger] file_words(self.bytes())[file_alpha(self.bytes())[j] as int]),
            self.sorted() ==> forall|j: int|
                pos <= j < high ==> bytes_lt(u@, #[trigger] file_words(self.bytes())[file_alpha(self.bytes())[j] as int]),
    {
        let ghost words = file_words(self.data@);
        let ghost alpha = file_alpha(self.data@);
        let mut lo = low;
        let mut hi = high;
        while lo < hi
            invariant
                self.wf(),
                words == file_words(self.data@),
                alpha == file_alpha(self.data@),
                low <= lo <= hi <= high <= count_of(self.data@),
                self.sorted() ==> forall|j: int| low <= j < lo ==> !bytes_lt(u@, #[trigger] words[alpha[j] as int]),
                self.sorted() ==> forall|j: int| hi <= j < high ==> bytes_lt(u@, #[trigger] words[alpha[j] as int]),
            decreases hi - lo,
        {
            let mid = lo + (hi - lo) / 2;
            let wi = self.alpha(mid);
            let mid_word = self.word_bytes(wi.0 as usize);
            assert(mid_word@ == words[alpha[mid as int] as int]);
            let c = compare_bytes(u, mid_word);
            proof {
                if self.sorted() {
                    let m = mid as int;
                    if c < 0 {
                        assert forall|j: int| mid <= j < high implies bytes_lt(u@, #[trigger] words[alpha[j] as int]) by {
                            if j > m {
                                assert(!bytes_lt(words[alpha[j] as int], words[alpha[m] as int]));
                                lemma_lt_total(words[alpha[j] as int], words[alpha[m] as int]);
                                if words[alpha[j] as int] != words[alpha[m] as int] {
                                    lemma_lt_transitive(u@, words[alpha[m] as int], words[alpha[j] as int]);
                                }
                            }
                        }
                    } else {
                        assert forall|j: int| low <= j <= mid implies !bytes_lt(u@, #[trigger] words[alpha[j] as int]) by {
                            if j < m && bytes_lt(u@, words[alpha[j] as int]) {
                                assert(!bytes_lt(words[alpha[m] as int], words[alpha[j] as int]));
                                lemma_lt_total(words[alpha[j] as int], words[alpha[m] as int]);
                                if words[alpha[j] as int] != words[alpha[m] as int] {
                                    lemma_lt_transitive(u@, words[alpha[j] as int], words[alpha[m] as int]);
                                }
                            }
                        }
                    }
                }
            }
            if c < 0 {
                hi = mid;
            } else {
                lo = mid + 1;
            }
        }
        lo
    }

    /// The longest word that is a prefix of the given text, with its length
    /// in bytes; `None` when no word is.
    pub fn index_starting(&self, word: &str) -> (r: Option<(WordIndex, usize)>)
        requires
            self.wf(),
        ensures
            r matches Some((i, n)) ==> i.0 < count_of(self.bytes()) && n == file_words(
                self.bytes(),
            )[i.0 as int].len() && is_prefix(file_words(self.bytes())[i.0 as int], word.spec_bytes()),
            r is None <==> forall|i: int|
                0 <= i < count_of(self.bytes()) ==> !is_prefix(
                    #[trigger] file_words(self.bytes())[i],
                    word.spec_bytes(),
                ),
            r is Some ==> forall|i: int|
                0 <= i < count_of(self.bytes()) && is_prefix(#[trigger] file_words(self.bytes())[i], word.spec_bytes())
                    ==> file_words(self.bytes())[i].len() <= r.unwrap().1,
    {
        let r = self.index_starting_between(word, 0, self.number_words);
        proof {
            self.lemma_valid();
            let words = file_words(self.data@);
            let alpha = file_alpha(self.data@);
            assert(self.sorted());
            assert forall|i: int| 0 <= i < count_of(self.data@) && is_prefix(#[trigger] words[i], word.spec_bytes())
                implies r is Some && words[i].len() <= r.unwrap().1 by {
                assert(alpha.contains(i as u32));
                let j = choose|j: int| 0 <= j < alpha.len() && alpha[j] == i as u32;
                assert(words[alpha[j] as int] == words[i]);
            }
        }
        r
    }

    /// Like `index_starting`, over the words at positions `[low, high)` of
    /// the alphabetical index: finds the last word that sorts at or before
    /// the text; if it is not a prefix, the longest prefix lies within their
    /// common start, so the search goes on with that shorter text.
    #[verifier::rlimit(60)]
    fn index_starting_between(&self, word: &str, low: usize, high: usize) -> (r: Option<(WordIndex, usize)>)
        requires
            self.wf(),
            low <= high <= count_of(self.bytes()),
        ensures
            r matches Some((i, n)) ==> (exists|j: int| low <= j < high && file_alpha(self.bytes())[j] == i.0)
                && i.0 < count_of(self.bytes()) && n == file_words(self.bytes())[i.0 as int].len() && is_prefix(
                file_words(self.bytes())[i.0 as int],
                word.spec_bytes(),
            ),
            self.sorted() && r is None ==> forall|j: int|
                low <= j < high ==> !is_prefix(
                    #[trigger] file_words(self.bytes())[file_alpha(self.bytes())[j] as int],
                    word.spec_bytes(),
                ),
            self.sorted() && r is Some ==> forall|j: int|
                low <= j < high && is_prefix(
                    #[trigger] file_words(self.bytes())[file_alpha(self.bytes())[j] as int],
                    word.spec_bytes(),
                ) ==> file_words(self.bytes())[file_alpha(self.bytes())[j] as int].len() <= r.unwrap().1,
    {
        let ghost words = file_words(self.data@);
        let ghost alpha = file_alpha(self.data@);
        let target = word.as_bytes();
        let ghost t = target@;
        let mut m: usize = target.len();
        loop
            invariant
                self.wf(),
                words == file_words(self.data@),
                alpha == file_alpha(self.data@),
                low <= high <= count_of(self.data@),
                t == word.spec_bytes(),
                target@ == t,
                m <= t.len(),
                self.sorted() ==> forall|j: int|
                    low <= j < high && is_prefix(#[trigger] words[alpha[j] as int], t) ==> words[alpha[j] as int].len() <= m,
            decreases m,
        {
            let u = slice_subrange(target, 0, m);
            let pos = self.upper_bound(u, low, high);
            if pos == low {
                proof {
                    if self.sorted() {
                        assert forall|j: int| low <= j < high implies !is_prefix(#[trigger] words[alpha[j] as int], t) by {
                            let x = words[alpha[j] as int];
                            if is_prefix(x, t) {
                                assert(is_prefix(x, u@)) by {
                                    assert(u@.subrange(0, x.len() as int) =~= t.subrange(0, x.len() as int));
                                }
                                if x.len() < u@.len() {
                                    lemma_prefix_lt(x, u@);
                                    lemma_lt_asymmetric(x, u@);
                                } else {
                                    assert(x =~= u@);
                                    lemma_lt_irreflexive(x);
                                }
                            }
                        }
                    }
                }
                return None;
            }
            let wi = self.alpha(pos - 1);
            let v = self.word_bytes(wi.0 as usize);
            assert(v@ == words[alpha[pos - 1] as int]);
            let c = first_difference(u, v);
            proof {
                lemma_lt_first_difference(u@, v@, c as int);
                lemma_lt_first_difference(v@, u@, c as int);
            }
            if c == v.len() {
                proof {
                    assert(is_prefix(v@, t)) by {
                        assert(t.subrange(0, v@.len() as int) =~= u@.subrange(0, c as int));
                        assert(v@.subrange(0, c as int) =~= v@);
                    }
                    if self.sorted() {
                        assert forall|j: int| low <= j < high && is_prefix(#[trigger] words[alpha[j] as int], t)
                            implies words[alpha[j] as int].len() <= v@.len() by {
                            let x = words[alpha[j] as int];
                            if x.len() > v@.len() {
                                assert(is_prefix(x, u@)) by {
                                    assert(u@.subrange(0, x.len() as int) =~= t.subrange(0, x.len() as int));
                                }
                                assert(is_prefix(v@, x)) by {
                                    assert(x.subrange(0, v@.len() as int) =~= t.subrange(0, v@.len() as int));
                                }
                                lemma_prefix_lt(v@, x);
                                if j >= pos {
                                    if x.len() < u@.len() {
                                        lemma_prefix_lt(x, u@);
                                        lemma_lt_asymmetric(x, u@);
                                    } else {
                                        assert(x =~= u@);
                                        lemma_lt_irreflexive(x);
                                    }
                                } else if j < pos - 1 {
                                    assert(!bytes_lt(words[alpha[pos - 1] as int], words[alpha[j] as int]));
                                } else {
                                    lemma_lt_irreflexive(x);
                                }
                            }
                        }
                    }
                }
                return Some((wi, v.len()));
            }
            if c >= m {
                // only where the index is not sorted
                proof {
                    if self.sorted() {
                        assert(!bytes_lt(u@, v@));
                        assert(false);
                    }
                }
                return None;
            }
            proof {
                if self.sorted() {
                    assert(!bytes_lt(u@, v@));
                    assert(v@[c as int] < u@[c as int]);
                    assert forall|j: int| low <= j < high && is_prefix(#[trigger] words[alpha[j] as int], t)
                        implies words[alpha[j] as int].len() <= c by {
                        let x = words[alpha[j] as int];
                        if x.len() > c {
                            assert(is_prefix(x, u@)) by {
                                assert(u@.subrange(0, x.len() as int) =~= t.subrange(0, x.len() as int));
                            }
                            assert(x[c as int] == u@[c as int]);
                            assert(x.subrange(0, c as int) =~= v@.subrange(0, c as int)) by {
                                assert(x.subrange(0, c as int) =~= u@.subrange(0, c as int));
                            }
                            lemma_lt_first_difference(v@, x, c as int);
                            assert(bytes_lt(v@, x));
                            if j >= pos {
                                if x.len() < u@.len() {
                                    lemma_prefix_lt(x, u@);
                                    lemma_lt_asymmetric(x, u@);
                                } else {
                                    assert(x =~= u@);
                                    lemma_lt_irreflexive(x);
                                }
                            } else if j < pos - 1 {
                                assert(!bytes_lt(words[alpha[pos - 1] as int], words[alpha[j] as int]));
                            } else {
                                lemma_lt_irreflexive(x);
                            }
                        }
                    }
                }
            }
            m = c;
        }
    }
}

impl WordSource for WordsInFile {
    open spec fn vocabulary(&self) -> Seq<Seq<u8>> {
        file_words(self.bytes())
    }

    open spec fn well_formed(&self) -> bool {
        self.wf()
    }

    open spec fn lookup_complete(&self) -> bool {
        true
    }

    fn len(&self) -> (r: usize) {
        self.number_words
    }

    fn word(&self, index: WordIndex) -> (r: &str) {
        let b = self.word_bytes(index.0 as usize);
        assert(valid_utf8(stored_word(self.data@, index.0 as int)));
        let text = utf8_text(b);
        match text {
            Some(s) => s,
            None => "",
        }
    }

    /// Binary search over the alphabetical index.
    fn index(&self, word: &str) -> (r: Option<WordIndex>) {
        proof {
            self.lemma_valid();
        }
        let ghost words = file_words(self.data@);
        let ghost alpha = file_alpha(self.data@);
        let target = word.as_bytes();
        let mut low: usize = 0;
        let mut high: usize = self.number_words;
        while low < high
            invariant
                self.wf(),
                words == file_words(self.data@),
                alpha == file_alpha(self.data@),
                target@ == word.spec_bytes(),
                all_distinct(words),
                self.sorted(),
                low <= high <= count_of(self.data@),
                self.sorted() ==> forall|j: int|
                    0 <= j < low ==> bytes_lt(#[trigger] words[alpha[j] as int], target@),
                self.sorted() ==> forall|j: int|
                    high <= j < count_of(self.data@) ==> bytes_lt(
                        target@,
                        #[trigger] words[alpha[j] as int],
                    ),
            decreases high - low,
        {
            let mid = low + (high - low) / 2;
            let wi = self.alpha(mid);
            let mid_word = self.word_bytes(wi.0 as usize);
            assert(mid_word@ == words[alpha[mid as int] as int]);
            let c = compare_bytes(target, mid_word);
            if c == 0 {
                proof {
                    assert forall|j: int| wi.0 < j < words.len() implies words[j] != word.spec_bytes() by {
                        assert(words[wi.0 as int] == word.spec_bytes());
                        assert(words[wi.0 as int] != words[j]);
                    }
                }
                return Some(wi);
            }
            proof {
                if self.sorted() {
                    let m = mid as int;
                    if c < 0 {
                        assert forall|j: int| mid <= j < count_of(self.data@) implies bytes_lt(
                            target@,
                            #[trigger] words[alpha[j] as int],
                        ) by {
                            if j > m {
                                assert(!bytes_lt(words[alpha[j] as int], words[alpha[m] as int]));
                                lemma_lt_total(words[alpha[j] as int], words[alpha[m] as int]);
                                if words[alpha[j] as int] != words[alpha[m] as int] {
                                    lemma_lt_transitive(target@, words[alpha[m] as int], words[alpha[j] as int]);
                                }
                            }
                        }
                    } else {
                        assert forall|j: int| 0 <= j <= mid implies bytes_lt(
                            #[trigger] words[alpha[j] as int],
                            target@,
                        ) by {
                            if j < m {
                                assert(!bytes_lt(words[alpha[m] as int], words[alpha[j] as int]));
                                lemma_lt_total(words[alpha[j] as int], words[alpha[m] as int]);
                                if words[alpha[j] as int] != words[alpha[m] as int] {
                                    lemma_lt_transitive(words[alpha[j] as int], words[alpha[m] as int], target@);
                                }
                            }
                        }
                    }
                }
            }
            if c < 0 {
                high = mid;
            } else {
                low = mid + 1;
            }
        }
        proof {
            if self.sorted() {
                assert forall|i: int| 0 <= i < words.len() implies words[i] != target@ by {
                    assert(alpha.contains(i as u32));
                    let j = choose|j: int| 0 <= j < alpha.len() && alpha[j] == i as u32;
                    assert(words[alpha[j] as int] == words[i]);
                    if j < low {
                        lemma_lt_asymmetric(words[alpha[j] as int], target@);
                    } else {
                        lemma_lt_asymmetric(target@, words[alpha[j] as int]);
                    }
                }
            }
        }
        None
    }
}

/// The bytes of the string table for `words`: each text and a zero byte.
pub open spec fn table_len(words: Seq<Seq<u8>>) -> int
    decreases words.len(),
{
    if words.len() == 0 {
        0
    } else {
        table_len(words.drop_last()) + words.last().len() + 1
    }
}

proof fn lemma_table_len_grows(words: Seq<Seq<u8>>, i: int)
    requires
        0 <= i < words.len(),
    ensures
        table_len(words.take(i + 1)) == table_len(words.take(i)) + words[i].len() + 1,
{
    assert(words.take(i + 1).drop_last() =~= words.take(i));
}

proof fn lemma_table_len_mono(words: Seq<Seq<u8>>, i: int, j: int)
    requires
        0 <= i <= j <= words.len(),
    ensures
        table_len(words.take(i)) <= table_len(words.take(j)),
    decreases j - i,
{
    if i < j {
        lemma_table_len_grows(words, j - 1);
        lemma_table_len_mono(words, i, j - 1);
    }
}

/// Appending bytes keeps every `u32` already written.
proof fn lemma_extend_keeps(old_d: Seq<u8>, new_d: Seq<u8>)
    requires
        old_d.len() <= new_d.len(),
        new_d.subrange(0, old_d.len() as int) == old_d,
    ensures
        forall|pos: int| 0 <= pos && pos + 4 <= old_d.len() ==> #[trigger] le_u32_at(new_d, pos) == le_u32_at(old_d, pos),
        forall|pos: int| 0 <= pos < old_d.len() ==> #[trigger] new_d[pos] == old_d[pos],
        old_d.len() >= 4 ==> new_d.subrange(0, 4) == old_d.subrange(0, 4),
{
    if old_d.len() >= 4 {
        assert(new_d.subrange(0, 4) =~= old_d.subrange(0, 4)) by {
            assert forall|x: int| 0 <= x < 4 implies new_d.subrange(0, 4)[x] == old_d.subrange(0, 4)[x] by {
                assert(new_d.subrange(0, old_d.len() as int)[x] == new_d[x]);
            }
        }
    }
    assert forall|pos: int| 0 <= pos && pos + 4 <= old_d.len() implies #[trigger] le_u32_at(new_d, pos) == le_u32_at(old_d, pos) by {
        assert(new_d.subrange(pos, pos + 4) =~= old_d.subrange(pos, pos + 4));
    }
    assert forall|pos: int| 0 <= pos < old_d.len() implies #[trigger] new_d[pos] == old_d[pos] by {
        assert(new_d.subrange(0, old_d.len() as int)[pos] == new_d[pos]);
    }
}

fn push_u32(out: &mut Vec<u8>, x: u32)
    ensures
        final(out)@.len() == old(out)@.len() + 4,
        final(out)@.subrange(0, old(out)@.len() as int) == old(out)@,
        le_u32_at(final(out)@, old(out)@.len() as int) == x,
{
    let b = u32_to_le_bytes(x);
    out.push(b[0]);
    out.push(b[1]);
    out.push(b[2]);
    out.push(b[3]);
    proof {
        lemma_auto_spec_u32_to_from_le_bytes();
        let n = old(out)@.len() as int;
        assert(out@.subrange(n, n + 4) =~= b@);
        assert(out@.subrange(0, n) =~= old(out)@);
    }
}

/// The first zero byte from `p` is at `p + len` when the `len` bytes before
/// it are not zero.
proof fn lemma_zero_at(d: Seq<u8>, p: int, len: int, end: int)
    requires
        0 <= p,
        0 <= len,
        p + len < end <= d.len(),
        d[p + len] == 0,
        forall|x: int| p <= x < p + len ==> d[x] != 0,
    ensures
        zero_from(d, p, end) == p + len,
    decreases len,
{
    if len > 0 {
        lemma_zero_at(d, p + 1, len - 1, end);
    }
}

/// Relies on slice::sort_by with the lexicographic order of byte slices:
/// the indices are permuted so that their texts come in byte-lexicographic
/// order.
#[verifier::external_body]
fn sort_by_text(order: &mut Vec<u32>, texts: &Vec<&[u8]>)
    requires
        forall|j: int| 0 <= j < old(order)@.len() ==> (#[trigger] old(order)@[j]) < texts@.len(),
    ensures
        final(order)@.to_multiset() == old(order)@.to_multiset(),
        forall|x: int, y: int|
            0 <= x < y < final(order)@.len() ==> !bytes_lt(
                texts@[final(order)@[y] as int]@,
                texts@[final(order)@[x] as int]@,
            ),
{
    order.sort_by(|a, b| texts[*a as usize].cmp(texts[*b as usize]))
}

/// Lays out the word file for a vocabulary whose word `i` has the
/// neighbours `synonyms[i]`; `None` when the string table is too large for
/// 32-bit fields, a word is repeated, or a row of neighbours is not well
/// formed.
#[verifier::rlimit(60)]
pub fn write_word_file(words: &MemoryWords, synonyms: &Vec<Vec<WordAndValue>>, num_synonyms: u32) -> (r:
    Option<Vec<u8>>)
    requires
        words.well_formed(),
        synonyms@.len() == words.vocabulary().len(),
        forall|i: int| 0 <= i < synonyms@.len() ==> (#[trigger] synonyms@[i])@.len() == num_synonyms,
        forall|i: int, x: int|
            0 <= i < words.vocabulary().len() && 0 <= x < words.vocabulary()[i].len() ==> (#[trigger] words.vocabulary()[i][x]) != 0,
    ensures
        r is Some <==> table_len(words.vocabulary()) <= u32::MAX && all_distinct(words.vocabulary()) && forall|i: int|
            0 <= i < synonyms@.len() ==> row_ok(#[trigger] synonyms@[i]@, i, synonyms@.len() as int),
        r matches Some(d) ==> {
            &&& valid_word_file(d@)
            &&& strict_index(words.vocabulary(), file_alpha(d@))
            &&& count_of(d@) == words.vocabulary().len()
            &&& width_of(d@) == num_synonyms
            &&& file_words(d@) == words.vocabulary()
            &&& forall|i: int, s: int|
                0 <= i < count_of(d@) && 0 <= s < num_synonyms ==> #[trigger] synonym_at(d@, i, s)
                    == synonyms@[i]@[s]
            &&& sorted_index(words.vocabulary(), file_alpha(d@))
            &&& d@.len() == strings_end(d@)
            &&& strings_len(d@) == table_len(words.vocabulary())
            &&& forall|i: int|
                0 <= i < count_of(d@) ==> #[trigger] le_u32_at(d@, offsets_start(d@) + 4 * i) == table_len(
                    words.vocabulary().take(i),
                )
        },
{
    let ghost vocab = words.vocabulary();
    let n = words.len();
    proof {
        words.lemma_len_bound();
        words.lemma_words_utf8();
    }
    // the string table must fit in 32-bit offsets
    let mut table: u64 = 0;
    let mut i: usize = 0;
    while i < n
        invariant
            n == vocab.len() <= u32::MAX,
            words.well_formed(),
            vocab == words.vocabulary(),
            i <= n,
            table == table_len(vocab.take(i as int)),
            table <= u32::MAX,
        decreases n - i,
    {
        let len = words.word(WordIndex(i as u32)).as_bytes().len();
        proof {
            lemma_table_len_grows(vocab, i as int);
        }
        if len as u64 >= 0xFFFF_FFFFu64 - table {
            proof {
                lemma_table_len_mono(vocab, i as int + 1, n as int);
                assert(vocab.take(n as int) =~= vocab);
            }
            return None;
        }
        table = table + len as u64 + 1;
        i = i + 1;
    }
    assert(vocab.take(n as int) =~= vocab);
    let mut out: Vec<u8> = Vec::new();
    out.push(87u8);
    out.push(79u8);
    out.push(82u8);
    out.push(68u8);
    let ghost magic = out@;
    assert(magic =~= seq![87u8, 79u8, 82u8, 68u8]);
    push_u32(&mut out, n as u32);
    let ghost first = out@;
    push_u32(&mut out, num_synonyms);
    proof {
        lemma_extend_keeps(magic, first);
        lemma_extend_keeps(first, out@);
        assert(magic.subrange(0, 4) =~= magic);
    }
    let ghost k = num_synonyms as int;
    let mut i: usize = 0;
    while i < n
        invariant
            n == vocab.len() <= u32::MAX,
            synonyms@.len() == n,
            forall|j: int| 0 <= j < synonyms@.len() ==> (#[trigger] synonyms@[j])@.len() == num_synonyms,
            k == num_synonyms,
            i <= n,
            out@.len() == 12 + i * k * 8,
            out@.subrange(0, 4) =~= seq![87u8, 79u8, 82u8, 68u8],
            le_u32_at(out@, 4) == n,
            le_u32_at(out@, 8) == num_synonyms,
            forall|a: int, b: int|
                0 <= a < i && 0 <= b < k ==> le_u32_at(out@, 12 + (a * k + b) * 8) == synonyms@[a]@[b].word.0
                    && le_u32_at(out@, 12 + (a * k + b) * 8 + 4) == synonyms@[a]@[b].value,
        decreases n - i,
    {
        let row = &synonyms[i];
        let mut s: usize = 0;
        while s < row.len()
            invariant
                n == vocab.len() <= u32::MAX,
                k == num_synonyms,
                row@.len() == k,
                i < n,
                s <= k,
                row@ == synonyms@[i as int]@,
                out@.len() == 12 + (i * k + s) * 8,
                out@.subrange(0, 4) =~= seq![87u8, 79u8, 82u8, 68u8],
                le_u32_at(out@, 4) == n,
                le_u32_at(out@, 8) == num_synonyms,
                forall|a: int, b: int|
                    0 <= a < i && 0 <= b < k ==> le_u32_at(out@, 12 + (a * k + b) * 8) == synonyms@[a]@[b].word.0
                        && le_u32_at(out@, 12 + (a * k + b) * 8 + 4) == synonyms@[a]@[b].value,
                forall|b: int|
                    0 <= b < s ==> le_u32_at(out@, 12 + (i * k + b) * 8) == synonyms@[i as int]@[b].word.0
                        && le_u32_at(out@, 12 + (i * k + b) * 8 + 4) == synonyms@[i as int]@[b].value,
            decreases k - s,
        {
            let ghost before = out@;
            push_u32(&mut out, row[s].word.0);
            let ghost middle = out@;
            push_u32(&mut out, row[s].value);
            proof {
                lemma_extend_keeps(before, middle);
                lemma_extend_keeps(middle, out@);
                assert forall|a: int, b: int| 0 <= a < i && 0 <= b < k implies le_u32_at(out@, 12 + (a * k + b) * 8)
                    == synonyms@[a]@[b].word.0 && le_u32_at(out@, 12 + (a * k + b) * 8 + 4) == synonyms@[a]@[b].value by {
                    assert((a * k + b) * 8 + 8 <= (i * k) * 8) by (nonlinear_arith)
                        requires 0 <= a < i, 0 <= b < k;
                }
                assert forall|b: int| 0 <= b < s + 1 implies le_u32_at(out@, 12 + (i * k + b) * 8)
                    == synonyms@[i as int]@[b].word.0 && le_u32_at(out@, 12 + (i * k + b) * 8 + 4)
                    == synonyms@[i as int]@[b].value by {
                    if b < s {
                        assert((i * k + b) * 8 + 8 <= (i * k + s) * 8) by (nonlinear_arith)
                            requires 0 <= b < s;
                    }
                }
            }
            s = s + 1;
        }
        proof {
            assert((i * k + k) * 8 == (i + 1) * k * 8) by (nonlinear_arith);
            assert forall|a: int, b: int| 0 <= a < i + 1 && 0 <= b < k implies le_u32_at(out@, 12 + (a * k + b) * 8)
                == synonyms@[a]@[b].word.0 && le_u32_at(out@, 12 + (a * k + b) * 8 + 4) == synonyms@[a]@[b].value by {
            }
        }
        i = i + 1;
    }
    assert(alpha_start(out@) == out@.len()) by {
        assert(count_of(out@) == n && width_of(out@) == k);
    }
    // alphabetical index
    let mut texts: Vec<&[u8]> = Vec::new();
    let mut order: Vec<u32> = Vec::new();
    let mut i: usize = 0;
    while i < n
        invariant
            n == vocab.len() <= u32::MAX,
            words.well_formed(),
            vocab == words.vocabulary(),
            i <= n,
            texts@.len() == i,
            order@ == Seq::new(i as nat, |j: int| j as u32),
            forall|j: int| 0 <= j < i ==> (#[trigger] texts@[j])@ == vocab[j],
        decreases n - i,
    {
        texts.push(words.word(WordIndex(i as u32)).as_bytes());
        order.push(i as u32);
        i = i + 1;
        assert(order@ =~= Seq::new(i as nat, |j: int| j as u32));
    }
    let ghost initial = order@;
    sort_by_text(&mut order, &texts);
    proof {
        broadcast use vstd::seq_lib::group_to_multiset_ensures;
        assert forall|x: int| 0 <= x < vocab.len() implies #[trigger] order@.contains(x as u32) by {
            assert(initial[x] == x as u32);
            assert(initial.contains(x as u32));
            assert(initial.to_multiset().count(x as u32) > 0);
        }
        assert forall|j: int| 0 <= j < order@.len() implies (#[trigger] order@[j]) < vocab.len() by {
            assert(order@.contains(order@[j]));
            assert(initial.to_multiset().count(order@[j]) > 0);
            assert(initial.contains(order@[j]));
        }
        assert(order@.len() == n) by {
            assert(order@.to_multiset().len() == initial.to_multiset().len());
        }
        assert forall|j1: int, j2: int| 0 <= j1 < j2 < order@.len() implies !bytes_lt(
            vocab[order@[j2] as int],
            vocab[order@[j1] as int],
        ) by {
            assert(texts@[order@[j2] as int]@ == vocab[order@[j2] as int]);
            assert(texts@[order@[j1] as int]@ == vocab[order@[j1] as int]);
        }
        assert((n as int) * k * 8 >= 0) by (nonlinear_arith)
            requires k >= 0;
        assert(initial.no_duplicates());
        initial.lemma_multiset_has_no_duplicates();
        order@.lemma_multiset_has_no_duplicates_conv();
    }
    let ghost alpha_pos = out@.len() as int;
    let mut j: usize = 0;
    while j < n
        invariant
            n == vocab.len() <= u32::MAX,
            order@.len() == n,
            forall|x: int| 0 <= x < vocab.len() ==> #[trigger] order@.contains(x as u32),
            forall|x: int| 0 <= x < order@.len() ==> (#[trigger] order@[x]) < vocab.len(),
            forall|j1: int, j2: int| 0 <= j1 < j2 < order@.len() ==> !bytes_lt(
                vocab[order@[j2] as int],
                vocab[order@[j1] as int],
            ),
            (n as int) * k * 8 >= 0,
            order@.no_duplicates(),
            texts@.len() == n,
            forall|x: int| 0 <= x < n ==> (#[trigger] texts@[x])@ == vocab[x],
            j <= n,
            out@.len() == alpha_pos + 4 * j,
            alpha_pos == 12 + n * k * 8,
            out@.subrange(0, 4) =~= seq![87u8, 79u8, 82u8, 68u8],
            le_u32_at(out@, 4) == n,
            le_u32_at(out@, 8) == num_synonyms,
            forall|a: int, b: int|
                0 <= a < n && 0 <= b < k ==> le_u32_at(out@, 12 + (a * k + b) * 8) == synonyms@[a]@[b].word.0
                    && le_u32_at(out@, 12 + (a * k + b) * 8 + 4) == synonyms@[a]@[b].value,
            forall|x: int| 0 <= x < j ==> le_u32_at(out@, alpha_pos + 4 * x) == order@[x],
        decreases n - j,
    {
        let ghost before = out@;
        push_u32(&mut out, order[j]);
        proof {
            lemma_extend_keeps(before, out@);
            assert forall|a: int, b: int| 0 <= a < n && 0 <= b < k implies le_u32_at(out@, 12 + (a * k + b) * 8)
                == synonyms@[a]@[b].word.0 && le_u32_at(out@, 12 + (a * k + b) * 8 + 4) == synonyms@[a]@[b].value by {
                assert((a * k + b) * 8 + 8 <= n * k * 8) by (nonlinear_arith)
                    requires 0 <= a < n, 0 <= b < k;
            }
        }
        j = j + 1;
    }
    // offsets of the texts
    let ghost offsets_pos = out@.len() as int;
    let mut offset: u32 = 0;
    let mut i: usize = 0;
    while i < n
        invariant
            n == vocab.len() <= u32::MAX,
            words.well_formed(),
            vocab == words.vocabulary(),
            order@.len() == n,
            forall|x: int| 0 <= x < vocab.len() ==> #[trigger] order@.contains(x as u32),
            forall|x: int| 0 <= x < order@.len() ==> (#[trigger] order@[x]) < vocab.len(),
            forall|j1: int, j2: int| 0 <= j1 < j2 < order@.len() ==> !bytes_lt(
                vocab[order@[j2] as int],
                vocab[order@[j1] as int],
            ),
            (n as int) * k * 8 >= 0,
            order@.no_duplicates(),
            texts@.len() == n,
            forall|x: int| 0 <= x < n ==> (#[trigger] texts@[x])@ == vocab[x],
            table == table_len(vocab),
            table <= u32::MAX,
            i <= n,
            offset == table_len(vocab.take(i as int)),
            out@.len() == offsets_pos + 4 * i,
            offsets_pos == alpha_pos + 4 * n,
            alpha_pos == 12 + n * k * 8,
            out@.subrange(0, 4) =~= seq![87u8, 79u8, 82u8, 68u8],
            le_u32_at(out@, 4) == n,
            le_u32_at(out@, 8) == num_synonyms,
            forall|a: int, b: int|
                0 <= a < n && 0 <= b < k ==> le_u32_at(out@, 12 + (a * k + b) * 8) == synonyms@[a]@[b].word.0
                    && le_u32_at(out@, 12 + (a * k + b) * 8 + 4) == synonyms@[a]@[b].value,
            forall|x: int| 0 <= x < n ==> le_u32_at(out@, alpha_pos + 4 * x) == order@[x],
            forall|x: int| 0 <= x < i ==> le_u32_at(out@, offsets_pos + 4 * x) == table_len(vocab.take(x)),
        decreases n - i,
    {
        let ghost before = out@;
        push_u32(&mut out, offset);
        let len = words.word(WordIndex(i as u32)).as_bytes().len();
        proof {
            lemma_extend_keeps(before, out@);
            assert forall|a: int, b: int| 0 <= a < n && 0 <= b < k implies le_u32_at(out@, 12 + (a * k + b) * 8)
                == synonyms@[a]@[b].word.0 && le_u32_at(out@, 12 + (a * k + b) * 8 + 4) == synonyms@[a]@[b].value by {
                assert((a * k + b) * 8 + 8 <= n * k * 8) by (nonlinear_arith)
                    requires 0 <= a < n, 0 <= b < k;
            }
            lemma_table_len_grows(vocab, i as int);
            lemma_table_len_mono(vocab, i as int + 1, n as int);
            assert(vocab.take(n as int) =~= vocab);
        }
        offset = offset + len as u32 + 1;
        i = i + 1;
    }
    let ghost before_len = out@;
    push_u32(&mut out, table as u32);
    proof {
        lemma_extend_keeps(before_len, out@);
        assert forall|a: int, b: int| 0 <= a < n && 0 <= b < k implies le_u32_at(out@, 12 + (a * k + b) * 8)
            == synonyms@[a]@[b].word.0 && le_u32_at(out@, 12 + (a * k + b) * 8 + 4) == synonyms@[a]@[b].value by {
            assert((a * k + b) * 8 + 8 <= n * k * 8) by (nonlinear_arith)
                requires 0 <= a < n, 0 <= b < k;
        }
    }
    // the texts
    let ghost strings_pos = out@.len() as int;
    let mut i: usize = 0;
    while i < n
        invariant
            n == vocab.len() <= u32::MAX,
            words.well_formed(),
            vocab == words.vocabulary(),
            order@.len() == n,
            forall|x: int| 0 <= x < vocab.len() ==> #[trigger] order@.contains(x as u32),
            forall|x: int| 0 <= x < order@.len() ==> (#[trigger] order@[x]) < vocab.len(),
            forall|j1: int, j2: int| 0 <= j1 < j2 < order@.len() ==> !bytes_lt(
                vocab[order@[j2] as int],
                vocab[order@[j1] as int],
            ),
            (n as int) * k * 8 >= 0,
            order@.no_duplicates(),
            texts@.len() == n,
            forall|x: int| 0 <= x < n ==> (#[trigger] texts@[x])@ == vocab[x],
            table == table_len(vocab),
            table <= u32::MAX,
            forall|x: int, y: int|
                0 <= x < vocab.len() && 0 <= y < vocab[x].len() ==> (#[trigger] vocab[x][y]) != 0,
            i <= n,
            out@.len() == strings_pos + table_len(vocab.take(i as int)),
            strings_pos == offsets_pos + 4 * n + 4,
            offsets_pos == alpha_pos + 4 * n,
            alpha_pos == 12 + n * k * 8,
            out@.subrange(0, 4) =~= seq![87u8, 79u8, 82u8, 68u8],
            le_u32_at(out@, 4) == n,
            le_u32_at(out@, 8) == num_synonyms,
            forall|a: int, b: int|
                0 <= a < n && 0 <= b < k ==> le_u32_at(out@, 12 + (a * k + b) * 8) == synonyms@[a]@[b].word.0
                    && le_u32_at(out@, 12 + (a * k + b) * 8 + 4) == synonyms@[a]@[b].value,
            forall|x: int| 0 <= x < n ==> le_u32_at(out@, alpha_pos + 4 * x) == order@[x],
            forall|x: int| 0 <= x < n ==> le_u32_at(out@, offsets_pos + 4 * x) == table_len(vocab.take(x)),
            le_u32_at(out@, offsets_pos + 4 * n) == table,
            forall|x: int, y: int|
                0 <= x < i && 0 <= y < vocab[x].len() ==> #[trigger] out@[strings_pos + table_len(vocab.take(x)) + y]
                    == vocab[x][y],
            forall|x: int| 0 <= x < i ==> #[trigger] out@[strings_pos + table_len(vocab.take(x)) + vocab[x].len()] == 0,
        decreases n - i,
    {
        let text = words.word(WordIndex(i as u32)).as_bytes();
        let ghost start = out@.len() as int;
        let ghost before = out@;
        let mut y: usize = 0;
        while y < text.len()
            invariant
                y <= text@.len(),
                text@ == vocab[i as int],
                before.len() == start,
                out@.len() == start + y,
                out@.subrange(0, start) == before,
                forall|z: int| 0 <= z < y ==> #[trigger] out@[start + z] == text@[z],
            decreases text@.len() - y,
        {
            let ghost prev = out@;
            out.push(text[y]);
            proof {
                assert(out@.subrange(0, start) =~= prev.subrange(0, start));
                assert(out@[start + y as int] == text@[y as int]);
                assert forall|z: int| 0 <= z < y implies #[trigger] out@[start + z] == text@[z] by {
                    assert(out@[start + z] == prev[start + z]);
                }
            }
            y = y + 1;
        }
        let ghost filled = out@;
        out.push(0u8);
        proof {
            assert(out@.subrange(0, start) =~= filled.subrange(0, start));
            lemma_extend_keeps(before, out@);
            lemma_table_len_grows(vocab, i as int);
            assert forall|a: int, b: int| 0 <= a < n && 0 <= b < k implies le_u32_at(out@, 12 + (a * k + b) * 8)
                == synonyms@[a]@[b].word.0 && le_u32_at(out@, 12 + (a * k + b) * 8 + 4) == synonyms@[a]@[b].value by {
                assert((a * k + b) * 8 + 8 <= n * k * 8) by (nonlinear_arith)
                    requires 0 <= a < n, 0 <= b < k;
            }
            assert forall|x: int, z: int|
                0 <= x < i + 1 && 0 <= z < vocab[x].len() implies #[trigger] out@[strings_pos + table_len(vocab.take(x)) + z]
                == vocab[x][z] by {
                if x < i {
                    lemma_table_len_grows(vocab, x);
                    lemma_table_len_mono(vocab, x + 1, i as int);
                    assert(out@[strings_pos + table_len(vocab.take(x)) + z] == before[strings_pos + table_len(vocab.take(x)) + z]);
                }
            }
            assert forall|x: int| 0 <= x < i + 1 implies #[trigger] out@[strings_pos + table_len(vocab.take(x)) + vocab[x].len()] == 0 by {
                if x < i {
                    lemma_table_len_grows(vocab, x);
                    lemma_table_len_mono(vocab, x + 1, i as int);
                    assert(out@[strings_pos + table_len(vocab.take(x)) + vocab[x].len()] == before[strings_pos + table_len(vocab.take(x)) + vocab[x].len()]);
                }
            }
        }
        i = i + 1;
    }
    proof {
        let d = out@;
        assert(vocab.take(n as int) =~= vocab);
        assert(count_of(d) == n);
        assert(width_of(d) == k);
        assert(alpha_start(d) == alpha_pos);
        assert(offsets_start(d) == offsets_pos);
        assert(strings_start(d) == strings_pos);
        assert(strings_len(d) == table);
        assert(strings_end(d) == d.len());
        assert(header_ok(d));
        assert forall|x: int| 0 <= x < n implies text_terminated(d, x) && stored_word(d, x) == vocab[x] by {
            let st = strings_pos + table_len(vocab.take(x));
            assert(text_start(d, x) == st);
            lemma_table_len_grows(vocab, x);
            lemma_table_len_mono(vocab, x + 1, n as int);
            assert(forall|z: int| st <= z < st + vocab[x].len() ==> d[z] != 0) by {
                assert forall|z: int| st <= z < st + vocab[x].len() implies d[z] != 0 by {
                    assert(d[strings_pos + table_len(vocab.take(x)) + (z - st)] == vocab[x][z - st]);
                }
            }
            lemma_zero_at(d, st, vocab[x].len() as int, d.len() as int);
            assert(stored_word(d, x) =~= vocab[x]) by {
                assert forall|z: int| 0 <= z < vocab[x].len() implies stored_word(d, x)[z] == vocab[x][z] by {
                    assert(d[strings_pos + table_len(vocab.take(x)) + z] == vocab[x][z]);
                }
            }
        }
        assert forall|j: int| 0 <= j < count_of(d) implies alpha_at(d, j) < count_of(d) by {
            assert(le_u32_at(d, alpha_pos + 4 * j) == order@[j]);
        }
        assert(structure_ok(d));
        assert(file_words(d) =~= vocab);
        assert(file_alpha(d) =~= order@) by {
            assert forall|j: int| 0 <= j < n implies file_alpha(d)[j] == order@[j] by {
                assert(le_u32_at(d, alpha_pos + 4 * j) == order@[j]);
            }
        }
        assert forall|i: int, s: int|
            0 <= i < count_of(d) && 0 <= s < num_synonyms implies #[trigger] synonym_at(d, i, s) == synonyms@[i]@[s] by {
        }
        assert forall|j1: int, j2: int| 0 <= j1 < j2 < order@.len() implies !bytes_lt(
            vocab[order@[j2] as int],
            vocab[order@[j1] as int],
        ) by {
            assert(texts@[order@[j2] as int]@ == vocab[order@[j2] as int]);
            assert(texts@[order@[j1] as int]@ == vocab[order@[j1] as int]);
        }
    }
    // every word once
    let mut j: usize = 1;
    while j < n
        invariant
            n == vocab.len(),
            vocab == words.vocabulary(),
            order@.len() == n,
            order@.no_duplicates(),
            texts@.len() == n,
            forall|x: int| 0 <= x < n ==> (#[trigger] texts@[x])@ == vocab[x],
            forall|x: int| 0 <= x < order@.len() ==> (#[trigger] order@[x]) < vocab.len(),
            forall|j1: int, j2: int| 0 <= j1 < j2 < order@.len() ==> !bytes_lt(
                vocab[order@[j2] as int],
                vocab[order@[j1] as int],
            ),
            1 <= j,
            j <= n || n == 0,
            forall|x1: int, x2: int|
                0 <= x1 < x2 < j && x2 < n ==> bytes_lt(#[trigger] vocab[order@[x1] as int], #[trigger] vocab[order@[x2] as int]),
        decreases n - j,
    {
        let prev = texts[order[j - 1] as usize];
        let cur = texts[order[j] as usize];
        if compare_bytes(prev, cur) >= 0 {
            proof {
                let a = order@[j - 1] as int;
                let b = order@[j as int] as int;
                assert(!bytes_lt(vocab[b], vocab[a]));
                lemma_lt_total(vocab[a], vocab[b]);
                assert(order@[j - 1] != order@[j as int]);
                if a < b {
                    assert(vocab[a] == vocab[b]);
                } else {
                    assert(vocab[b] == vocab[a]);
                }
                assert(!all_distinct(vocab));
            }
            return None;
        }
        proof {
            let a = vocab[order@[j as int] as int];
            let p = vocab[order@[j - 1] as int];
            assert forall|x1: int, x2: int|
                0 <= x1 < x2 < j + 1 && x2 < n implies bytes_lt(#[trigger] vocab[order@[x1] as int], #[trigger] vocab[order@[x2] as int]) by {
                if x2 == j && x1 < j - 1 {
                    lemma_lt_transitive(vocab[order@[x1] as int], p, a);
                }
            }
        }
        j = j + 1;
    }
    // every row of neighbours well formed
    let mut i: usize = 0;
    while i < n
        invariant
            n == vocab.len() == synonyms@.len(),
            n <= u32::MAX,
            vocab == words.vocabulary(),
            i <= n,
            forall|x: int| 0 <= x < i ==> row_ok(#[trigger] synonyms@[x]@, x, n as int),
        decreases n - i,
    {
        if !row_valid(&synonyms[i], i as u32, n) {
            assert(!row_ok(synonyms@[i as int]@, i as int, synonyms@.len() as int));
            return None;
        }
        i = i + 1;
    }
    proof {
        let d = out@;
        assert(strict_index(vocab, order@));
        lemma_strict_index(vocab, order@);
        assert(sorted_index(vocab, order@));
        assert(strict_index(file_words(d), file_alpha(d)));
        assert forall|x: int| 0 <= x < count_of(d) implies row_ok(#[trigger] neighbours_of(d, x as u32), x, count_of(d)) by {
            assert(neighbours_of(d, x as u32) =~= synonyms@[x]@);
        }
        assert(valid_word_file(d));
    }
    Some(out)
}

/// In a file without repeated words, looking up the text of word `i` for
/// the longest prefix gives word `i` and its whole length, for any result
/// that meets the contract of `index_starting` on a sorted file.
pub proof fn lemma_whole_word_found(words: Seq<Seq<u8>>, i: int, r: Option<(WordIndex, usize)>)
    requires
        all_distinct(words),
        0 <= i < words.len(),
        r matches Some((w, n)) ==> w.0 < words.len() && n == words[w.0 as int].len() && is_prefix(
            words[w.0 as int],
            words[i],
        ),
        r is Some,
        forall|x: int| 0 <= x < words.len() && is_prefix(#[trigger] words[x], words[i]) ==> words[x].len() <= r.unwrap().1,
    ensures
        r == Some((WordIndex(i as u32), words[i].len() as usize)),
{
    let (w, n) = r.unwrap();
    assert(is_prefix(words[i], words[i])) by {
        assert(words[i].subrange(0, words[i].len() as int) =~= words[i]);
    }
    assert(words[w.0 as int] =~= words[i]) by {
        assert(words[i].subrange(0, n as int) =~= words[i]);
    }
    if w.0 as int != i {
        if (w.0 as int) < i {
            assert(words[w.0 as int] != words[i]);
        } else {
            assert(words[i] != words[w.0 as int]);
        }
    }
}

/// The neighbours read back from a built file are the rows it was built
/// from.
pub proof fn lemma_read_back_rows(d: Seq<u8>, rows: Seq<Seq<WordAndValue>>, k: int)
    requires
        width_of(d) == k,
        rows.len() == count_of(d),
        count_of(d) <= u32::MAX,
        forall|i: int| 0 <= i < rows.len() ==> (#[trigger] rows[i]).len() == k,
        forall|i: int, s: int| 0 <= i < count_of(d) && 0 <= s < k ==> #[trigger] synonym_at(d, i, s) == rows[i][s],
    ensures
        forall|i: int| 0 <= i < rows.len() ==> #[trigger] neighbours_of(d, i as u32) == rows[i],
{
    assert forall|i: int| 0 <= i < rows.len() implies #[trigger] neighbours_of(d, i as u32) == rows[i] by {
        assert(neighbours_of(d, i as u32) =~= rows[i]);
    }
}

/// Build then read: when each row holds the nearest neighbours of its word
/// under the given similarities, the neighbours read back from the built
/// file are those nearest neighbours.
pub proof fn lemma_build_then_read(d: Seq<u8>, rows: Seq<Seq<WordAndValue>>, similarities: Seq<Seq<u32>>, k: int)
    requires
        width_of(d) == k,
        rows.len() == count_of(d),
        count_of(d) <= u32::MAX,
        similarities.len() == rows.len(),
        forall|i: int| 0 <= i < rows.len() ==> (#[trigger] rows[i]).len() == k,
        forall|i: int| 0 <= i < rows.len() ==> nearest_row(similarities[i], i, k, #[trigger] rows[i]),
        forall|i: int, s: int| 0 <= i < count_of(d) && 0 <= s < k ==> #[trigger] synonym_at(d, i, s) == rows[i][s],
    ensures
        forall|i: int|
            0 <= i < rows.len() ==> nearest_row(similarities[i], i, k, #[trigger] neighbours_of(d, i as u32)),
{
    lemma_read_back_rows(d, rows, k);
    assert forall|i: int| 0 <= i < rows.len() implies nearest_row(similarities[i], i, k, #[trigger] neighbours_of(d, i as u32)) by {
        assert(neighbours_of(d, i as u32) == rows[i]);
    }
}

} // verus!
