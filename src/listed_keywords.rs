//! Curated keywords: each class lists surface forms of one concept ("covid",
//! "covid-19", "coronavirus"), matched without regard to ASCII case.
use vstd::prelude::*;
use vstd::string::StringSliceAdditionalSpecFns;
use vstd::utf8::encode_utf8;

verus! {

/// One class of surface forms; the first is the canonical one.
pub struct ListedKeyword(pub Vec<String>);

/// The position of a class in the table.
#[derive(PartialEq, Eq, Structural, Debug, Copy, Clone, Hash)]
pub struct ListedKeywordIndex(pub usize);

/// The table of keyword classes, in load order.
pub struct ListedKeywords {
    keywords: Vec<ListedKeyword>,
}

/// ASCII lower case of a byte.
pub open spec fn ascii_lower(b: u8) -> u8 {
    if 65 <= b <= 90 {
        (b + 32) as u8
    } else {
        b
    }
}

/// `form` equals the start of `s` up to ASCII case.
pub open spec fn form_matches(form: Seq<u8>, s: Seq<u8>) -> bool {
    &&& form.len() <= s.len()
    &&& forall|x: int| 0 <= x < form.len() ==> ascii_lower(#[trigger] s[x]) == ascii_lower(form[x])
}

/// The first of `forms` that matches the start of `s`.
pub open spec fn first_match(forms: Seq<Seq<u8>>, s: Seq<u8>, f: int) -> bool {
    &&& 0 <= f < forms.len()
    &&& form_matches(forms[f], s)
    &&& forall|g: int| 0 <= g < f ==> !form_matches(#[trigger] forms[g], s)
}

pub open spec fn no_match(forms: Seq<Seq<u8>>, s: Seq<u8>) -> bool {
    forall|g: int| 0 <= g < forms.len() ==> !form_matches(#[trigger] forms[g], s)
}

fn lower_byte(b: u8) -> (r: u8)
    ensures
        r == ascii_lower(b),
{
    if 65 <= b && b <= 90 {
        b + 32
    } else {
        b
    }
}

/// Whether `form` equals the start of `s` up to ASCII case.
fn starts_with_ignore_case(s: &[u8], form: &[u8]) -> (r: bool)
    ensures
        r == form_matches(form@, s@),
{
    if s.len() < form.len() {
        return false;
    }
    let mut x: usize = 0;
    while x < form.len()
        invariant
            form@.len() <= s@.len(),
            x <= form@.len(),
            forall|y: int| 0 <= y < x ==> ascii_lower(#[trigger] s@[y]) == ascii_lower(form@[y]),
        decreases form@.len() - x,
    {
        if lower_byte(s[x]) != lower_byte(form[x]) {
            return false;
        }
        x = x + 1;
    }
    true
}

impl ListedKeyword {
    /// The bytes of each surface form.
    pub open spec fn forms(&self) -> Seq<Seq<u8>> {
        Seq::new(self.0@.len(), |i: int| encode_utf8(self.0@[i]@))
    }

    /// The length in bytes of the first surface form that `s` starts with,
    /// ignoring ASCII case.
    pub fn find_keyword_starting(&self, s: &str) -> (r: Option<usize>)
        ensures
            r matches Some(n) ==> exists|f: int|
                first_match(self.forms(), s.spec_bytes(), f) && n == self.forms()[f].len(),
            r is None ==> no_match(self.forms(), s.spec_bytes()),
    {
        let text = s.as_bytes();
        let mut f: usize = 0;
        while f < self.0.len()
            invariant
                text@ == s.spec_bytes(),
                f <= self.forms().len(),
                forall|g: int| 0 <= g < f ==> !form_matches(#[trigger] self.forms()[g], text@),
            decreases self.0@.len() - f,
        {
            let form = self.0[f].as_str().as_bytes();
            assert(form@ == self.forms()[f as int]);
            if starts_with_ignore_case(text, form) {
                assert(first_match(self.forms(), text@, f as int));
                return Some(form.len());
            }
            f = f + 1;
        }
        None
    }
}

/// The surface forms of every class, as bytes.
pub open spec fn classes_of(keywords: Seq<ListedKeyword>) -> Seq<Seq<Seq<u8>>> {
    Seq::new(keywords.len(), |i: int| keywords[i].forms())
}

/// The cells of each record of a CSV text, read with records of any length
/// and no header row; `None` where the text is not CSV.
pub uninterp spec fn csv_rows(text: Seq<u8>) -> Option<Seq<Seq<Seq<char>>>>;

/// The cells of `rows` as bytes.
pub open spec fn form_bytes(rows: Seq<Seq<Seq<char>>>) -> Seq<Seq<Seq<u8>>> {
    rows.map_values(|row: Seq<Seq<char>>| row.map_values(|cell: Seq<char>| encode_utf8(cell)))
}

/// Relies on csv's `ReaderBuilder` (flexible, without headers) reading
/// records from bytes: each record's cells, which depend on the bytes alone,
/// or `None` at the first error.
#[verifier::external_body]
fn read_csv_rows(text: &[u8]) -> (r: Option<Vec<ListedKeyword>>)
    ensures
        r is Some <==> csv_rows(text@) is Some,
        r matches Some(rows) ==> classes_of(rows@) == form_bytes(csv_rows(text@)->0),
{
    let mut reader = csv::ReaderBuilder::new().flexible(true).has_headers(false).from_reader(text);
    let mut rows = Vec::new();
    for record in reader.records() {
        match record {
            Ok(cells) => rows.push(ListedKeyword(cells.iter().map(|c| c.to_string()).collect())),
            Err(_) => return None,
        }
    }
    Some(rows)
}

impl ListedKeywords {
    pub closed spec fn classes(&self) -> Seq<Seq<Seq<u8>>> {
        classes_of(self.keywords@)
    }

    /// A table of the given classes.
    pub fn new(keywords: Vec<ListedKeyword>) -> (r: ListedKeywords)
        ensures
            r.classes() == classes_of(keywords@),
    {
        ListedKeywords { keywords }
    }

    /// The table read from CSV text: one class per record, one surface form
    /// per cell; `None` where the text is not CSV.
    pub fn load(text: &[u8]) -> (r: Option<ListedKeywords>)
        ensures
            r is Some <==> csv_rows(text@) is Some,
            r matches Some(k) ==> k.classes() == form_bytes(csv_rows(text@)->0),
    {
        match read_csv_rows(text) {
            Some(keywords) => Some(ListedKeywords { keywords }),
            None => None,
        }
    }

    /// The number of classes.
    pub fn len(&self) -> (r: usize)
        ensures
            r == self.classes().len(),
    {
        self.keywords.len()
    }

    /// The first class, in load order, with a surface form that `s` starts
    /// with (ignoring ASCII case), and the length of that form in bytes.
    pub fn find_keyword_starting(&self, s: &str) -> (r: Option<(ListedKeywordIndex, usize)>)
        ensures
            r matches Some((k, n)) ==> k.0 < self.classes().len() && (forall|c: int|
                0 <= c < k.0 ==> no_match(#[trigger] self.classes()[c], s.spec_bytes())) && exists|f: int|
                first_match(self.classes()[k.0 as int], s.spec_bytes(), f) && n
                    == self.classes()[k.0 as int][f].len(),
            r is None ==> forall|c: int|
                0 <= c < self.classes().len() ==> no_match(#[trigger] self.classes()[c], s.spec_bytes()),
    {
        let mut i: usize = 0;
        while i < self.keywords.len()
            invariant
                i <= self.classes().len(),
                forall|c: int| 0 <= c < i ==> no_match(#[trigger] self.classes()[c], s.spec_bytes()),
            decreases self.keywords@.len() - i,
        {
            assert(self.classes()[i as int] == self.keywords@[i as int].forms());
            if let Some(used) = self.keywords[i].find_keyword_starting(s) {
                return Some((ListedKeywordIndex(i), used));
            }
            i = i + 1;
        }
        None
    }

    /// The number of surface forms of a class.
    pub fn class_size(&self, index: ListedKeywordIndex) -> (r: usize)
        requires
            index.0 < self.classes().len(),
        ensures
            r == self.classes()[index.0 as int].len(),
    {
        assert(self.classes()[index.0 as int] == self.keywords@[index.0 as int].forms());
        self.keywords[index.0].0.len()
    }

    /// The canonical form of a class: its first.
    pub fn canonical(&self, index: ListedKeywordIndex) -> (r: &str)
        requires
            index.0 < self.classes().len(),
            self.classes()[index.0 as int].len() > 0,
        ensures
            r.spec_bytes() == self.classes()[index.0 as int][0],
    {
        assert(self.classes()[index.0 as int] == self.keywords@[index.0 as int].forms());
        self.keywords[index.0].0[0].as_str()
    }
}

} // verus!
