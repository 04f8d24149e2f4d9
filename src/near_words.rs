//! Keeping the best few of a stream of scored words.
use vstd::prelude::*;
use crate::word::WordIndex;

verus! {

/// A word with a 32-bit value: the bit pattern of an `f32` similarity when
/// read from a word file, or an ordering key when selecting neighbours.
#[derive(PartialEq, Eq, Structural, Debug, Copy, Clone)]
pub struct WordAndValue {
    pub word: WordIndex,
    pub value: u32,
}

/// The order in which kept items are listed: by value, then by word.
pub open spec fn item_lt(a: WordAndValue, b: WordAndValue) -> bool {
    a.value < b.value || (a.value == b.value && a.word.0 < b.word.0)
}

pub open spec fn sorted_items(s: Seq<WordAndValue>) -> bool {
    forall|x: int, y: int| 0 <= x < y < s.len() ==> !item_lt(s[y], s[x])
}

/// `s` with `w` inserted at `p`.
pub open spec fn inserted_at(s: Seq<WordAndValue>, w: WordAndValue, p: int) -> Seq<WordAndValue> {
    s.subrange(0, p) + seq![w] + s.subrange(p, s.len() as int)
}

/// `p` is where `w` goes in the sorted `s`: after every item that does not
/// sort after it.
pub open spec fn insertion_point(s: Seq<WordAndValue>, w: WordAndValue, p: int) -> bool {
    &&& 0 <= p <= s.len()
    &&& forall|x: int| 0 <= x < p ==> !item_lt(w, #[trigger] s[x])
    &&& forall|x: int| p <= x < s.len() ==> item_lt(w, #[trigger] s[x])
}

/// Stores the items with the smallest values seen, at most `n` of them.
pub struct SmallestN {
    n: usize,
    values: Vec<WordAndValue>,
}

impl SmallestN {
    /// The items kept, smallest first.
    pub closed spec fn kept(&self) -> Seq<WordAndValue> {
        self.values@
    }

    /// How many items are kept at most.
    pub closed spec fn capacity(&self) -> nat {
        self.n as nat
    }

    pub closed spec fn wf(&self) -> bool {
        self.values@.len() <= self.n && sorted_items(self.values@)
    }

    pub fn new(n: usize) -> (r: SmallestN)
        ensures
            r.wf(),
            r.capacity() == n,
            r.kept() == Seq::<WordAndValue>::empty(),
    {
        SmallestN { n, values: Vec::new() }
    }

    /// Keeps `w` if fewer than `n` items are kept or if its value is below
    /// the largest kept value; the largest item then leaves.
    pub fn add(&mut self, w: WordAndValue)
        requires
            old(self).wf(),
        ensures
            final(self).wf(),
            final(self).capacity() == old(self).capacity(),
            ({
                let s = old(self).kept();
                let keep = s.len() < old(self).capacity() || (s.len() > 0 && w.value < s.last().value);
                if keep {
                    exists|p: int|
                        insertion_point(s, w, p) && final(self).kept() == if s.len()
                            < old(self).capacity() {
                            inserted_at(s, w, p)
                        } else {
                            inserted_at(s, w, p).drop_last()
                        }
                } else {
                    final(self).kept() == s
                }
            }),
    {
        let len = self.values.len();
        let keep = len < self.n || (len > 0 && w.value < self.values[len - 1].value);
        if !keep {
            return;
        }
        let mut p: usize = len;
        while p > 0 && (w.value < self.values[p - 1].value || (w.value == self.values[p - 1].value
            && w.word.0 < self.values[p - 1].word.0))
            invariant
                p <= len == self.values@.len(),
                self.values@ == old(self).values@,
                sorted_items(self.values@),
                forall|x: int| p <= x < len ==> item_lt(w, #[trigger] self.values@[x]),
            decreases p,
        {
            p = p - 1;
        }
        proof {
            assert forall|x: int| 0 <= x < p implies !item_lt(w, #[trigger] self.values@[x]) by {
                if x < p - 1 {
                    assert(!item_lt(self.values@[p - 1], self.values@[x]));
                }
            }
        }
        let ghost s = self.values@;
        self.values.insert(p, w);
        assert(self.values@ =~= inserted_at(s, w, p as int));
        if self.values.len() > self.n {
            self.values.pop();
        }
        proof {
            let t = inserted_at(s, w, p as int);
            assert(insertion_point(s, w, p as int));
            if s.len() < self.n {
                assert(self.values@ =~= t);
            } else {
                assert(self.values@ =~= t.drop_last());
            }
            assert forall|x: int, y: int|
                0 <= x < y < self.values@.len() implies !item_lt(self.values@[y], self.values@[x]) by {
                assert(self.values@[x] == t[x]);
                assert(self.values@[y] == t[y]);
                if x < p && y > p {
                    assert(t[y] == s[y - 1]);
                    assert(t[x] == s[x]);
                }
                if x == p as int {
                    assert(t[y] == s[y - 1]);
                }
                if y == p as int {
                    assert(t[x] == s[x]);
                }
                if y < p {
                    assert(t[x] == s[x] && t[y] == s[y]);
                }
                if x > p {
                    assert(t[x] == s[x - 1] && t[y] == s[y - 1]);
                }
            }
        }
    }

    /// The kept items, smallest first.
    pub fn into_sorted_vec(self) -> (r: Vec<WordAndValue>)
        requires
            self.wf(),
        ensures
            r@ == self.kept(),
            sorted_items(r@),
    {
        self.values
    }
}

/// A key that orders `f32` bit patterns as the numbers they stand for;
/// negative zero gets the key of positive zero, since the two are equal.
pub open spec fn float_order(bits: u32) -> u32 {
    if bits == 0x8000_0000u32 {
        0x8000_0000u32
    } else if bits & 0x8000_0000u32 != 0 {
        !bits
    } else {
        bits | 0x8000_0000u32
    }
}

pub(crate) fn float_order_exec(bits: u32) -> (r: u32)
    ensures
        r == float_order(bits),
{
    if bits == 0x8000_0000u32 {
        0x8000_0000u32
    } else if bits & 0x8000_0000u32 != 0 {
        !bits
    } else {
        bits | 0x8000_0000u32
    }
}

/// The key under which a neighbour with similarity bits `bits` is kept: the
/// more similar, the smaller.
pub open spec fn closeness_key(bits: u32) -> u32 {
    !float_order(bits)
}

/// Neighbour `j` as offered to the selection.
pub open spec fn candidate(similarities: Seq<u32>, j: int) -> WordAndValue {
    WordAndValue { word: WordIndex(j as u32), value: closeness_key(similarities[j]) }
}

/// `row` holds the `k` most similar words to word `i` other than itself,
/// most similar first, ties to the smaller index, given the similarity of
/// `i` to every word.
pub open spec fn nearest_row(similarities: Seq<u32>, i: int, k: int, row: Seq<WordAndValue>) -> bool {
    let keys = row.map_values(|e: WordAndValue| WordAndValue { word: e.word, value: closeness_key(e.value) });
    &&& row.len() == if k < similarities.len() - 1 { k } else { similarities.len() - 1 }
    &&& forall|x: int| 0 <= x < row.len() ==> {
        &&& (#[trigger] row[x]).word.0 < similarities.len()
        &&& row[x].word.0 != i
        &&& row[x].value == similarities[row[x].word.0 as int]
    }
    &&& forall|x: int, y: int| 0 <= x < y < row.len() ==> item_lt(keys[x], keys[y])
    &&& forall|j: int|
        0 <= j < similarities.len() && j != i && !keys.contains(#[trigger] candidate(similarities, j))
            ==> row.len() == k && (k == 0 || item_lt(keys[k - 1], candidate(similarities, j)))
}

/// What the selection holds after offering the words before `j`.
pub open spec fn selection_state(sims: Seq<u32>, i: int, k: int, j: int, kept: Seq<WordAndValue>) -> bool {
    &&& forall|x: int|
        0 <= x < kept.len() ==> (#[trigger] kept[x]) == candidate(sims, kept[x].word.0 as int)
            && kept[x].word.0 < j && kept[x].word.0 != i
    &&& forall|x: int, y: int| 0 <= x < y < kept.len() ==> item_lt(kept[x], kept[y])
    &&& kept.len() == if k < j - (if i < j { 1int } else { 0 }) { k } else { j - (if i < j { 1int } else { 0 }) }
    &&& forall|m: int| 0 <= m < j && m != i && absent(kept, m) ==> #[trigger] beaten(sims, k, kept, m)
}

/// No kept item is word `m`.
pub open spec fn absent(kept: Seq<WordAndValue>, m: int) -> bool {
    forall|x: int| 0 <= x < kept.len() ==> kept[x].word.0 != m
}

/// Word `m` was left out because `k` better items are kept.
pub open spec fn beaten(sims: Seq<u32>, k: int, kept: Seq<WordAndValue>, m: int) -> bool {
    kept.len() == k && (k == 0 || item_lt(kept.last(), candidate(sims, m)))
}

proof fn lemma_item_lt_transitive(a: WordAndValue, b: WordAndValue, c: WordAndValue)
    requires
        item_lt(a, b),
        item_lt(b, c),
    ensures
        item_lt(a, c),
{
}

#[verifier::rlimit(60)]
proof fn lemma_selection_step(
    sims: Seq<u32>,
    i: int,
    k: int,
    j: int,
    s: Seq<WordAndValue>,
    t: Seq<WordAndValue>,
)
    requires
        0 <= j < sims.len() <= u32::MAX,
        j != i,
        k >= 0,
        selection_state(sims, i, k, j, s),
        ({
            let c = candidate(sims, j);
            let keep = s.len() < k || (s.len() > 0 && c.value < s.last().value);
            if keep {
                exists|p: int|
                    insertion_point(s, c, p) && t == if s.len() < k {
                        inserted_at(s, c, p)
                    } else {
                        inserted_at(s, c, p).drop_last()
                    }
            } else {
                t == s
            }
        }),
    ensures
        selection_state(sims, i, k, j + 1, t),
{
    let c = candidate(sims, j);
    let keep = s.len() < k || (s.len() > 0 && c.value < s.last().value);
    if !keep {
        assert forall|m: int|
            0 <= m < j + 1 && m != i && absent(t, m) implies #[trigger] beaten(sims, k, t, m) by {
            if m == j && k > 0 {
                assert(s.last() == s[s.len() - 1]);
                assert(s.last().word.0 < j);
            }
        }
    } else {
        let p = choose|p: int|
            insertion_point(s, c, p) && t == if s.len() < k {
                inserted_at(s, c, p)
            } else {
                inserted_at(s, c, p).drop_last()
            };
        let u = inserted_at(s, c, p);
        assert forall|x: int| 0 <= x < u.len() implies (#[trigger] u[x]) == candidate(
            sims,
            u[x].word.0 as int,
        ) && u[x].word.0 < j + 1 && u[x].word.0 != i by {
            if x < p {
                assert(u[x] == s[x]);
            } else if x > p {
                assert(u[x] == s[x - 1]);
            }
        }
        assert forall|x: int, y: int| 0 <= x < y < u.len() implies item_lt(u[x], u[y]) by {
            if x < p && y > p {
                assert(u[x] == s[x] && u[y] == s[y - 1]);
                assert(!item_lt(c, s[x]));
                assert(item_lt(c, s[y - 1]));
                lemma_item_lt_transitive(s[x], c, s[y - 1]);
            } else if x < p && y == p {
                assert(u[x] == s[x]);
                assert(!item_lt(c, s[x]));
                assert(s[x].word.0 < j);
            } else if x == p {
                assert(u[y] == s[y - 1]);
            } else if y < p {
                assert(u[x] == s[x] && u[y] == s[y]);
            } else {
                assert(u[x] == s[x - 1] && u[y] == s[y - 1]);
            }
        }
        if s.len() < k {
            assert(t == u);
            assert forall|m: int|
                0 <= m < j + 1 && m != i && absent(t, m) implies #[trigger] beaten(sims, k, t, m) by {
                if m == j {
                    assert(t[p].word.0 == j);
                } else {
                    assert(absent(s, m)) by {
                        assert forall|x: int| 0 <= x < s.len() implies s[x].word.0 != m by {
                            if x < p {
                                assert(t[x] == s[x]);
                            } else {
                                assert(t[x + 1] == s[x]);
                            }
                        }
                    }
                    assert(beaten(sims, k, s, m));
                }
            }
        } else {
            assert(s.len() > 0);
            assert(item_lt(c, s.last()));
            assert(p < s.len()) by {
                if p == s.len() {
                    assert(!item_lt(c, s[s.len() - 1]));
                }
            }
            assert(u.last() == s.last());
            assert(t =~= u.drop_last());
            assert(item_lt(t.last(), s.last())) by {
                assert(t.last() == u[u.len() - 2]);
            }
            assert forall|x: int| 0 <= x < t.len() implies (#[trigger] t[x]) == candidate(
                sims,
                t[x].word.0 as int,
            ) && t[x].word.0 < j + 1 && t[x].word.0 != i by {
                assert(t[x] == u[x]);
            }
            assert forall|x: int, y: int| 0 <= x < y < t.len() implies item_lt(t[x], t[y]) by {
                assert(t[x] == u[x] && t[y] == u[y]);
            }
            assert forall|m: int|
                0 <= m < j + 1 && m != i && absent(t, m) implies #[trigger] beaten(sims, k, t, m) by {
                if m == j {
                    assert(t[p].word.0 == j);
                } else if m == s.last().word.0 {
                    assert(s.last() == candidate(sims, m)) by {
                        assert(s.last() == s[s.len() - 1]);
                    }
                } else {
                    assert(absent(s, m)) by {
                        assert forall|x: int| 0 <= x < s.len() implies s[x].word.0 != m by {
                            if x == s.len() - 1 {
                            } else if x < p {
                                assert(t[x] == s[x]);
                            } else {
                                assert(t[x + 1] == u[x + 1]);
                                assert(u[x + 1] == s[x]);
                            }
                        }
                    }
                    assert(beaten(sims, k, s, m));
                    lemma_item_lt_transitive(t.last(), s.last(), candidate(sims, m));
                }
            }
        }
    }
}

/// The `k` words most similar to word `i`, other than itself, most similar
/// first, given the similarity of `i` to every word as `f32` bits.
#[verifier::rlimit(60)]
pub fn nearest_synonyms(i: usize, similarities: &Vec<u32>, k: usize) -> (r: Vec<WordAndValue>)
    requires
        similarities@.len() <= u32::MAX,
        i < similarities@.len(),
    ensures
        nearest_row(similarities@, i as int, k as int, r@),
{
    let n = similarities.len();
    let mut best = SmallestN::new(k);
    let mut j: usize = 0;
    while j < n
        invariant
            n == similarities@.len() <= u32::MAX,
            i < n,
            j <= n,
            best.wf(),
            best.capacity() == k,
            selection_state(similarities@, i as int, k as int, j as int, best.kept()),
        decreases n - j,
    {
        if j != i {
            let value = !float_order_exec(similarities[j]);
            let ghost s = best.kept();
            let c = WordAndValue { word: WordIndex(j as u32), value };
            assert(c == candidate(similarities@, j as int));
            best.add(c);
            proof {
                lemma_selection_step(similarities@, i as int, k as int, j as int, s, best.kept());
            }
        } else {
            proof {
                let s = best.kept();
                assert forall|m: int|
                    0 <= m < j + 1 && m != i && absent(s, m) implies #[trigger] beaten(similarities@, k as int, s, m) by {
                    assert(m < j);
                }
            }
        }
        j = j + 1;
    }
    let kept = best.into_sorted_vec();
    let mut row: Vec<WordAndValue> = Vec::new();
    let mut x: usize = 0;
    while x < kept.len()
        invariant
            n == similarities@.len(),
            i < n,
            selection_state(similarities@, i as int, k as int, n as int, kept@),
            x <= kept@.len(),
            row@.len() == x,
            forall|y: int|
                0 <= y < x ==> (#[trigger] row@[y]).word == kept@[y].word && row@[y].value
                    == similarities@[kept@[y].word.0 as int],
        decreases kept@.len() - x,
    {
        let w = kept[x].word;
        row.push(WordAndValue { word: w, value: similarities[w.0 as usize] });
        x = x + 1;
    }
    proof {
        let keys = row@.map_values(
            |e: WordAndValue| WordAndValue { word: e.word, value: closeness_key(e.value) },
        );
        assert(keys =~= kept@);
        assert forall|m: int|
            0 <= m < n && m != i && !keys.contains(#[trigger] candidate(similarities@, m)) implies row@.len()
            == k && (k == 0 || item_lt(keys[k - 1], candidate(similarities@, m))) by {
            if !absent(kept@, m) {
                let x = choose|x: int| 0 <= x < kept@.len() && kept@[x].word.0 == m;
                assert(keys[x] == candidate(similarities@, m));
            } else {
                assert(beaten(similarities@, k as int, kept@, m));
            }
        }
    }
    row
}

/// A selected row never holds the word itself, holds no word twice, and
/// lists its similarities from highest to lowest.
pub proof fn lemma_row_shape(similarities: Seq<u32>, i: int, k: int, row: Seq<WordAndValue>)
    requires
        nearest_row(similarities, i, k, row),
    ensures
        forall|x: int| 0 <= x < row.len() ==> (#[trigger] row[x]).word.0 != i,
        forall|x: int, y: int| 0 <= x < y < row.len() ==> row[x].word != row[y].word,
        forall|x: int, y: int|
            0 <= x < y < row.len() ==> float_order(row[x].value) >= float_order(row[y].value),
{
    let keys = row.map_values(|e: WordAndValue| WordAndValue { word: e.word, value: closeness_key(e.value) });
    assert forall|x: int, y: int| 0 <= x < y < row.len() implies row[x].word != row[y].word
        && float_order(row[x].value) >= float_order(row[y].value) by {
        assert(item_lt(keys[x], keys[y]));
        let a = float_order(row[x].value);
        let b = float_order(row[y].value);
        assert(!a <= !b ==> a >= b) by (bit_vector);
        if row[x].word == row[y].word {
            assert(row[x].value == row[y].value);
        }
    }
}

} // verus!
