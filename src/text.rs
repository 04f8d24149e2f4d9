//! Byte strings: lexicographic order, prefixes, and the few character
//! classifications that the tokenizer needs.
use vstd::prelude::*;
use vstd::string::StringSliceAdditionalSpecFns;
use vstd::utf8::{encode_scalar, encode_utf8, encode_utf8_first_scalar, is_char_boundary, valid_utf8,
    encode_utf8_decode_utf8, pop_first_scalar, length_of_first_scalar};

verus! {

/// Byte-lexicographic strict order: `a` sorts before `b`.
pub open spec fn bytes_lt(a: Seq<u8>, b: Seq<u8>) -> bool
    decreases a.len(),
{
    if a.len() == 0 {
        b.len() > 0
    } else if b.len() == 0 {
        false
    } else if a[0] != b[0] {
        a[0] < b[0]
    } else {
        bytes_lt(a.drop_first(), b.drop_first())
    }
}

/// `p` is a prefix of `s`.
pub open spec fn is_prefix(p: Seq<u8>, s: Seq<u8>) -> bool {
    p.len() <= s.len() && s.subrange(0, p.len() as int) =~= p
}

pub proof fn lemma_lt_irreflexive(a: Seq<u8>)
    ensures
        !bytes_lt(a, a),
    decreases a.len(),
{
    if a.len() > 0 {
        lemma_lt_irreflexive(a.drop_first());
    }
}

pub proof fn lemma_lt_asymmetric(a: Seq<u8>, b: Seq<u8>)
    requires
        bytes_lt(a, b),
    ensures
        !bytes_lt(b, a),
        a != b,
    decreases a.len(),
{
    if a.len() > 0 && b.len() > 0 && a[0] == b[0] {
        lemma_lt_asymmetric(a.drop_first(), b.drop_first());
    }
    if a == b {
        lemma_lt_irreflexive(a);
    }
}

pub proof fn lemma_lt_transitive(a: Seq<u8>, b: Seq<u8>, c: Seq<u8>)
    requires
        bytes_lt(a, b),
        bytes_lt(b, c),
    ensures
        bytes_lt(a, c),
    decreases a.len(),
{
    if a.len() > 0 && b.len() > 0 && c.len() > 0 && a[0] == b[0] && b[0] == c[0] {
        lemma_lt_transitive(a.drop_first(), b.drop_first(), c.drop_first());
    }
}

pub proof fn lemma_lt_total(a: Seq<u8>, b: Seq<u8>)
    ensures
        bytes_lt(a, b) || bytes_lt(b, a) || a == b,
    decreases a.len(),
{
    if a.len() > 0 && b.len() > 0 && a[0] == b[0] {
        lemma_lt_total(a.drop_first(), b.drop_first());
        if a.drop_first() == b.drop_first() {
            assert(a =~= seq![a[0]] + a.drop_first());
            assert(b =~= seq![b[0]] + b.drop_first());
        }
    } else if a.len() == 0 && b.len() == 0 {
        assert(a =~= b);
    }
}

/// Two byte strings that agree before `d` and differ at `d` are ordered by
/// their bytes at `d`; if one ends at `d`, it is the smaller.
pub proof fn lemma_lt_first_difference(a: Seq<u8>, b: Seq<u8>, d: int)
    requires
        0 <= d <= a.len(),
        d <= b.len(),
        a.subrange(0, d) =~= b.subrange(0, d),
        d == a.len() || d == b.len() || a[d] != b[d],
    ensures
        bytes_lt(a, b) <==> (if d == a.len() {
            d < b.len()
        } else if d == b.len() {
            false
        } else {
            a[d] < b[d]
        }),
    decreases d,
{
    if d > 0 {
        assert(a[0] == a.subrange(0, d)[0]);
        assert(b[0] == b.subrange(0, d)[0]);
        assert(a.drop_first().subrange(0, d - 1) =~= a.subrange(0, d).drop_first());
        assert(b.drop_first().subrange(0, d - 1) =~= b.subrange(0, d).drop_first());
        lemma_lt_first_difference(a.drop_first(), b.drop_first(), d - 1);
    }
}

/// A proper prefix sorts before the longer string.
pub proof fn lemma_prefix_lt(p: Seq<u8>, s: Seq<u8>)
    requires
        is_prefix(p, s),
        p.len() < s.len(),
    ensures
        bytes_lt(p, s),
{
    assert(p.subrange(0, p.len() as int) =~= p);
    lemma_lt_first_difference(p, s, p.len() as int);
}

/// The first position at which `a` and `b` differ, or the length of the
/// shorter one where one is a prefix of the other.
pub fn first_difference(a: &[u8], b: &[u8]) -> (d: usize)
    ensures
        d <= a@.len(),
        d <= b@.len(),
        a@.subrange(0, d as int) =~= b@.subrange(0, d as int),
        d == a@.len() || d == b@.len() || a@[d as int] != b@[d as int],
{
    let mut d: usize = 0;
    while d < a.len() && d < b.len() && a[d] == b[d]
        invariant
            d <= a@.len(),
            d <= b@.len(),
            a@.subrange(0, d as int) =~= b@.subrange(0, d as int),
        decreases a@.len() - d,
    {
        d = d + 1;
    }
    d
}

/// Byte-lexicographic comparison: -1, 0 or 1.
pub fn compare_bytes(a: &[u8], b: &[u8]) -> (r: i8)
    ensures
        r == 0 <==> a@ == b@,
        r < 0 <==> bytes_lt(a@, b@),
        r > 0 <==> bytes_lt(b@, a@),
{
    let d = first_difference(a, b);
    proof {
        lemma_lt_first_difference(a@, b@, d as int);
        lemma_lt_first_difference(b@, a@, d as int);
    }
    if d == a.len() && d == b.len() {
        assert(a@ =~= a@.subrange(0, d as int));
        assert(b@ =~= b@.subrange(0, d as int));
        0
    } else if d == a.len() || (d < b.len() && a[d] < b[d]) {
        -1
    } else {
        1
    }
}

/// Relies on char::is_alphanumeric: the Unicode Alphabetic or Numeric
/// property, a function of the character alone.
#[verifier::external_body]
pub(crate) fn char_is_alphanumeric(c: char) -> (r: bool)
    ensures
        r == is_alphanumeric(c),
{
    c.is_alphanumeric()
}

/// Whether `c` has the Unicode White_Space property.
pub fn char_is_whitespace(c: char) -> (r: bool)
    ensures
        r == is_whitespace(c),
{
    let v = c as u32;
    (0x09 <= v && v <= 0x0D) || v == 0x20 || v == 0x85 || v == 0xA0 || v == 0x1680 || (0x2000 <= v
        && v <= 0x200A) || v == 0x2028 || v == 0x2029 || v == 0x202F || v == 0x205F || v == 0x3000
}

pub uninterp spec fn is_alphanumeric(c: char) -> bool;

/// The Unicode White_Space property: tab, line feed, vertical tab, form
/// feed, carriage return, space, next line, no-break space, ogham space
/// mark, the spaces U+2000 to U+200A, line and paragraph separators, narrow
/// no-break space, medium mathematical space and ideographic space.
pub open spec fn is_whitespace(c: char) -> bool {
    let v = c as u32;
    (0x09 <= v <= 0x0D) || v == 0x20 || v == 0x85 || v == 0xA0 || v == 0x1680 || (0x2000 <= v <= 0x200A)
        || v == 0x2028 || v == 0x2029 || v == 0x202F || v == 0x205F || v == 0x3000
}

/// The first character of `s`, if any.
pub fn first_char(s: &str) -> (r: Option<char>)
    ensures
        s@.len() == 0 ==> r is None,
        s@.len() > 0 ==> r == Some(s@[0]),
{
    let mut chars = s.chars();
    chars.next()
}

pub uninterp spec fn lower_of(s: Seq<char>) -> Seq<char>;

/// Relies on str::to_lowercase: the lower case of every character, a
/// function of the text alone.
#[verifier::external_body]
pub(crate) fn to_lowercase(s: &str) -> (r: String)
    ensures
        r@ == lower_of(s@),
{
    s.to_lowercase()
}

/// `cs` without its trailing whitespace.
pub open spec fn trim_end_chars(cs: Seq<char>) -> Seq<char>
    decreases cs.len(),
{
    if cs.len() > 0 && is_whitespace(cs.last()) {
        trim_end_chars(cs.drop_last())
    } else {
        cs
    }
}

/// `cs` without its leading whitespace.
pub open spec fn trim_start_chars(cs: Seq<char>) -> Seq<char>
    decreases cs.len(),
{
    if cs.len() > 0 && is_whitespace(cs[0]) {
        trim_start_chars(cs.drop_first())
    } else {
        cs
    }
}

/// Every character of `cs` is whitespace.
pub open spec fn all_blank(cs: Seq<char>) -> bool {
    forall|x: int| 0 <= x < cs.len() ==> is_whitespace(#[trigger] cs[x])
}

/// Relies on str::trim_end: the text without its trailing characters that
/// have the Unicode White_Space property.
#[verifier::external_body]
pub(crate) fn trim_end(s: &str) -> (r: &str)
    ensures
        r@ == trim_end_chars(s@),
{
    s.trim_end()
}

pub proof fn lemma_encode_concat(a: Seq<char>, b: Seq<char>)
    ensures
        encode_utf8(a + b) == encode_utf8(a) + encode_utf8(b),
    decreases a.len(),
{
    if a.len() == 0 {
        assert(a + b =~= b);
        assert(encode_utf8(a) + encode_utf8(b) =~= encode_utf8(b));
    } else {
        assert((a + b).drop_first() =~= a.drop_first() + b);
        lemma_encode_concat(a.drop_first(), b);
        assert(encode_utf8(a + b) =~= encode_scalar(a[0] as u32) + encode_utf8(a.drop_first() + b));
    }
}

/// The number of bytes of the UTF-8 encoding of `c`.
pub fn char_len(c: char) -> (r: usize)
    ensures
        r == encode_scalar(c as u32).len(),
        1 <= r <= 4,
{
    let v = c as u32;
    if v <= 0x7F {
        1
    } else if v <= 0x7FF {
        2
    } else if v <= 0xFFFF {
        proof {
            vstd::utf8::char_is_scalar(c);
        }
        3
    } else {
        proof {
            vstd::utf8::char_is_scalar(c);
        }
        4
    }
}

/// `s` without its first character.
pub fn skip_first_char(s: &str) -> (r: &str)
    requires
        s@.len() > 0,
    ensures
        r@ == s@.drop_first(),
        r.spec_bytes() == s.spec_bytes().subrange(
            encode_scalar(s@[0] as u32).len() as int,
            s.spec_bytes().len() as int,
        ),
{
    let c = first_char(s);
    let w = char_len(c.unwrap());
    proof {
        let bytes = s.spec_bytes();
        encode_utf8_first_scalar(s@);
        vstd::utf8::encode_utf8_valid_utf8(s@);
        vstd::utf8::encode_utf8_valid_utf8(s@.drop_first());
        assert(bytes =~= encode_scalar(s@[0] as u32) + encode_utf8(s@.drop_first()));
        assert(pop_first_scalar(bytes) =~= encode_utf8(s@.drop_first()));
        assert(is_char_boundary(pop_first_scalar(bytes), 0));
        assert(is_char_boundary(bytes, w as int));
    }
    let (_, rest) = s.split_at(w);
    proof {
        let bytes = s.spec_bytes();
        assert(rest.spec_bytes() =~= encode_utf8(s@.drop_first()));
        encode_utf8_decode_utf8(rest@);
        encode_utf8_decode_utf8(s@.drop_first());
    }
    rest
}

/// `s` without its leading whitespace.
pub fn trim_start(s: &str) -> (r: &str)
    ensures
        r@ == trim_start_chars(s@),
        exists|n: int|
            0 <= n <= s@.len() && all_blank(#[trigger] s@.take(n)) && s@ == s@.take(n) + r@,
{
    let mut left = s;
    let ghost n: int = 0;
    loop
        invariant
            0 <= n <= s@.len(),
            s@ == s@.take(n) + left@,
            all_blank(s@.take(n)),
            trim_start_chars(left@) == trim_start_chars(s@),
        decreases left@.len(),
    {
        let c = first_char(left);
        match c {
            Some(ch) => {
                if !char_is_whitespace(ch) {
                    return left;
                }
                let ghost before = left@;
                left = skip_first_char(left);
                proof {
                    assert(s@.take(n + 1) =~= s@.take(n).push(ch));
                    assert(s@[n] == before[0]);
                    assert(s@ =~= s@.take(n + 1) + left@);
                    n = n + 1;
                }
            },
            None => {
                assert(left@ =~= Seq::<char>::empty());
                return left;
            },
        }
    }
}

/// The number of characters before the first whitespace.
pub open spec fn raw_token_chars(cs: Seq<char>) -> int
    decreases cs.len(),
{
    if cs.len() == 0 || is_whitespace(cs[0]) {
        0
    } else {
        1 + raw_token_chars(cs.drop_first())
    }
}

/// The number of characters up to and including the last alphanumeric one,
/// or zero.
pub open spec fn alnum_end(cs: Seq<char>) -> int
    decreases cs.len(),
{
    if cs.len() == 0 {
        0
    } else if is_alphanumeric(cs.last()) {
        cs.len() as int
    } else {
        alnum_end(cs.drop_last())
    }
}

/// The characters of the next token: the run before whitespace without its
/// trailing punctuation, or the whole run if it has no alphanumeric
/// character.
pub open spec fn token_chars(cs: Seq<char>) -> int {
    let raw = cs.take(raw_token_chars(cs));
    if alnum_end(raw) == 0 {
        raw.len() as int
    } else {
        alnum_end(raw)
    }
}

proof fn lemma_raw_token_chars(cs: Seq<char>, i: int)
    requires
        0 <= i <= cs.len(),
        forall|x: int| 0 <= x < i ==> !is_whitespace(#[trigger] cs[x]),
        i == cs.len() || is_whitespace(cs[i]),
    ensures
        raw_token_chars(cs) == i,
    decreases i,
{
    if i > 0 {
        assert(!is_whitespace(cs[0]));
        assert forall|x: int| 0 <= x < i - 1 implies !is_whitespace(#[trigger] cs.drop_first()[x]) by {
            assert(cs.drop_first()[x] == cs[x + 1]);
        }
        lemma_raw_token_chars(cs.drop_first(), i - 1);
    }
}

/// Length in bytes of the next token: the text up to the first whitespace,
/// without trailing punctuation unless it holds nothing else.
pub fn len_next_token(s: &str) -> (r: usize)
    ensures
        r == encode_utf8(s@.take(token_chars(s@))).len(),
{
    let total = s.as_bytes().len();
    let mut left = s;
    let ghost i: int = 0;
    let mut pos: usize = 0;
    let mut alnum_pos: usize = 0;
    let ghost alnum_i: int = 0;
    loop
        invariant
            0 <= i <= s@.len(),
            left@ == s@.skip(i),
            forall|x: int| 0 <= x < i ==> !is_whitespace(#[trigger] s@[x]),
            pos == encode_utf8(s@.take(i)).len(),
            alnum_i == alnum_end(s@.take(i)),
            alnum_pos == encode_utf8(s@.take(alnum_i)).len(),
            0 <= alnum_i <= i,
            total == s.spec_bytes().len(),
            s.spec_bytes() == encode_utf8(s@),
        decreases left@.len(),
    {
        let c = first_char(left);
        let stop = match c {
            Some(ch) => char_is_whitespace(ch),
            None => true,
        };
        if stop {
            proof {
                lemma_raw_token_chars(s@, i);
                assert(s@.take(i).take(alnum_i) =~= s@.take(alnum_i));
            }
            if alnum_pos == 0 {
                proof {
                    if alnum_i > 0 {
                        assert(alnum_end(s@.take(i)) > 0);
                        lemma_alnum_end_nonempty(s@.take(i));
                        lemma_encode_nonempty(s@.take(alnum_i));
                    }
                }
                return pos;
            } else {
                return alnum_pos;
            }
        }
        let ch = c.unwrap();
        let w = char_len(ch);
        let ghost before = left@;
        proof {
            assert(s@[i] == before[0]);
            assert(s@.take(i + 1) =~= s@.take(i) + seq![ch]);
            lemma_encode_concat(s@.take(i), seq![ch]);
            let one = seq![ch];
            assert(one[0] == ch);
            assert(one.drop_first() =~= Seq::<char>::empty());
            assert(encode_utf8(one.drop_first()) =~= Seq::<u8>::empty());
            assert(encode_utf8(one) =~= encode_scalar(ch as u32));
            lemma_encode_concat(s@.take(i + 1), s@.skip(i + 1));
            assert(s@ =~= s@.take(i + 1) + s@.skip(i + 1));
            assert(s@.take(i + 1).drop_last() =~= s@.take(i));
        }
        pos = pos + w;
        if char_is_alphanumeric(ch) {
            alnum_pos = pos;
            proof {
                alnum_i = i + 1;
            }
        }
        left = skip_first_char(left);
        proof {
            i = i + 1;
            assert(left@ =~= s@.skip(i));
        }
    }
}

proof fn lemma_alnum_end_nonempty(cs: Seq<char>)
    requires
        alnum_end(cs) > 0,
    ensures
        alnum_end(cs) <= cs.len(),
        is_alphanumeric(cs[alnum_end(cs) - 1]),
    decreases cs.len(),
{
    if !is_alphanumeric(cs.last()) {
        lemma_alnum_end_nonempty(cs.drop_last());
    }
}

proof fn lemma_encode_nonempty(cs: Seq<char>)
    requires
        cs.len() > 0,
    ensures
        encode_utf8(cs).len() > 0,
{
    vstd::utf8::char_is_scalar(cs[0]);
}

/// The encoding of any first characters of a text ends on a character
/// boundary.
pub proof fn lemma_prefix_boundary(cs: Seq<char>, j: int)
    requires
        0 <= j <= cs.len(),
    ensures
        is_char_boundary(encode_utf8(cs), encode_utf8(cs.take(j)).len() as int),
        encode_utf8(cs.take(j)).len() <= encode_utf8(cs).len(),
        encode_utf8(cs).subrange(0, encode_utf8(cs.take(j)).len() as int) == encode_utf8(cs.take(j)),
    decreases j,
{
    vstd::utf8::encode_utf8_valid_utf8(cs);
    assert(cs =~= cs.take(j) + cs.skip(j));
    lemma_encode_concat(cs.take(j), cs.skip(j));
    assert(encode_utf8(cs).subrange(0, encode_utf8(cs.take(j)).len() as int) =~= encode_utf8(cs.take(j)));
    if j > 0 {
        let rest = cs.drop_first();
        encode_utf8_first_scalar(cs);
        vstd::utf8::encode_utf8_valid_utf8(rest);
        let bytes = encode_utf8(cs);
        assert(bytes =~= encode_scalar(cs[0] as u32) + encode_utf8(rest));
        assert(pop_first_scalar(bytes) =~= encode_utf8(rest));
        lemma_prefix_boundary(rest, j - 1);
        assert(cs.take(j) =~= seq![cs[0]] + rest.take(j - 1));
        lemma_encode_concat(seq![cs[0]], rest.take(j - 1));
        let one = seq![cs[0]];
        assert(one.drop_first() =~= Seq::<char>::empty());
        assert(encode_utf8(one.drop_first()) =~= Seq::<u8>::empty());
        assert(encode_utf8(one) =~= encode_scalar(cs[0] as u32));
    }
}

/// `s` without the run of characters before its first whitespace.
pub fn skip_raw_token(s: &str) -> (r: &str)
    ensures
        r@ == s@.skip(raw_token_chars(s@)),
        0 <= raw_token_chars(s@) <= s@.len(),
{
    let mut left = s;
    let ghost i: int = 0;
    loop
        invariant
            0 <= i <= s@.len(),
            left@ == s@.skip(i),
            forall|x: int| 0 <= x < i ==> !is_whitespace(#[trigger] s@[x]),
        decreases left@.len(),
    {
        let c = first_char(left);
        let stop = match c {
            Some(ch) => char_is_whitespace(ch),
            None => true,
        };
        if stop {
            proof {
                lemma_raw_token_chars(s@, i);
            }
            return left;
        }
        proof {
            assert(s@[i] == left@[0]);
        }
        left = skip_first_char(left);
        proof {
            i = i + 1;
            assert(left@ =~= s@.skip(i));
        }
    }
}

pub proof fn lemma_trim_start_head(cs: Seq<char>)
    ensures
        trim_start_chars(cs).len() > 0 ==> !is_whitespace(trim_start_chars(cs)[0]),
    decreases cs.len(),
{
    if cs.len() > 0 && is_whitespace(cs[0]) {
        lemma_trim_start_head(cs.drop_first());
    }
}

pub proof fn lemma_trim_end_prefix(cs: Seq<char>)
    ensures
        trim_end_chars(cs).len() <= cs.len(),
        trim_end_chars(cs) =~= cs.take(trim_end_chars(cs).len() as int),
    decreases cs.len(),
{
    if cs.len() > 0 && is_whitespace(cs.last()) {
        lemma_trim_end_prefix(cs.drop_last());
    }
}

pub proof fn lemma_token_bounds(cs: Seq<char>)
    ensures
        0 <= token_chars(cs) <= raw_token_chars(cs) <= cs.len(),
        cs.len() > 0 && !is_whitespace(cs[0]) ==> raw_token_chars(cs) > 0,
{
    lemma_raw_bounds(cs);
    lemma_alnum_end_bounds(cs.take(raw_token_chars(cs)));
    if cs.len() > 0 && !is_whitespace(cs[0]) {
        lemma_raw_bounds(cs.drop_first());
        assert(raw_token_chars(cs) == 1 + raw_token_chars(cs.drop_first()));
    }
}

proof fn lemma_raw_bounds(cs: Seq<char>)
    ensures
        0 <= raw_token_chars(cs) <= cs.len(),
    decreases cs.len(),
{
    if cs.len() > 0 && !is_whitespace(cs[0]) {
        lemma_raw_bounds(cs.drop_first());
    }
}

proof fn lemma_alnum_end_bounds(cs: Seq<char>)
    ensures
        0 <= alnum_end(cs) <= cs.len(),
    decreases cs.len(),
{
    if cs.len() > 0 && !is_alphanumeric(cs.last()) {
        lemma_alnum_end_bounds(cs.drop_last());
    }
}

/// `cs` with every newline replaced by a space.
pub open spec fn newlines_to_spaces(cs: Seq<char>) -> Seq<char> {
    cs.map_values(|c: char| if c == '\n' { ' ' } else { c })
}

/// Relies on str::replace: every newline becomes a space.
#[verifier::external_body]
pub(crate) fn replace_newlines(s: &str) -> (r: String)
    ensures
        r@ == newlines_to_spaces(s@),
{
    s.replace('\n', " ")
}

/// A UTF-8 text that starts a UTF-8 text ends on one of its character
/// boundaries.
pub proof fn lemma_utf8_prefix_boundary(b: Seq<u8>, n: int)
    requires
        valid_utf8(b),
        0 <= n <= b.len(),
        valid_utf8(b.subrange(0, n)),
    ensures
        is_char_boundary(b, n),
    decreases n,
{
    if n > 0 {
        let p = b.subrange(0, n);
        assert(p[0] == b[0]);
        let l = length_of_first_scalar(p);
        assert(l == length_of_first_scalar(b));
        assert(l <= n);
        assert(pop_first_scalar(p) =~= pop_first_scalar(b).subrange(0, n - l));
        lemma_utf8_prefix_boundary(pop_first_scalar(b), n - l);
    }
}

} // verus!
