use word_comparison::comparison_list::{
    add_question, find_similar_credits, extract_ordered, score_known, Credit,
};
use word_comparison::database_backend::InternalQuestionId;
use word_comparison::flatfile_database_backend::{
    decimal_text, log_record, parse_record, parse_u32, FlatfileDatabaseBackend, LogError,
};
use word_comparison::listed_keywords::{ListedKeyword, ListedKeywordIndex, ListedKeywords};
use word_comparison::near_words::{nearest_synonyms, SmallestN, WordAndValue};
use word_comparison::sentences::{len_next_token, SentencePart, TokenizedSentence};
use word_comparison::word::{MemoryWords, WordIndex, WordSource};
use word_comparison::word_file::{write_word_file, WordFileError, WordsInFile};

/// The vocabulary of the scenarios: the named words at their indices, and
/// fillers elsewhere that are a prefix of nothing queried.
fn scenario_words() -> WordsInFile {
    let named: Vec<(usize, &str)> = vec![
        (50, "is"),
        (60, "the"),
        (120, "vaccine"),
        (250, "phone"),
        (600, "network"),
        (1500, "cat"),
        (9000, "wood"),
        (60000, "wherefore"),
    ];
    let mut words = MemoryWords::new();
    for i in 0..=60000usize {
        let text = match named.iter().find(|(at, _)| *at == i) {
            Some((_, w)) => w.to_string(),
            None => format!("qq{:05}", i),
        };
        words.add(&text);
    }
    let mut rows: Vec<Vec<WordAndValue>> = Vec::new();
    for i in 0..=60000u32 {
        let row = match i {
            250 => vec![WordAndValue { word: WordIndex(600), value: 0.9f32.to_bits() }],
            1500 => vec![WordAndValue { word: WordIndex(9000), value: 0.5f32.to_bits() }],
            0 => vec![WordAndValue { word: WordIndex(1), value: 0.0f32.to_bits() }],
            _ => vec![WordAndValue { word: WordIndex(0), value: 0.0f32.to_bits() }],
        };
        rows.push(row);
    }
    let bytes = write_word_file(&words, &rows, 1).expect("small vocabulary");
    WordsInFile::read_word_file(bytes).expect("built file is valid")
}

fn scenario_keywords() -> ListedKeywords {
    ListedKeywords::new(vec![ListedKeyword(vec![
        "covid".to_string(),
        "covid-19".to_string(),
        "coronavirus".to_string(),
    ])])
}

/// Sums the credits per question in the order given, then ranks them and
/// maps them to external identifiers.
fn ranked(store: &FlatfileDatabaseBackend, credits: &[Credit]) -> Vec<(u32, f64)> {
    let mut totals: Vec<(InternalQuestionId, f64)> = Vec::new();
    for c in credits {
        let weight = match c.similarity {
            Some(bits) => c.points as f64 * f32::from_bits(bits) as f64,
            None => c.points as f64,
        };
        match totals.iter_mut().find(|(id, _)| *id == c.id) {
            Some(entry) => entry.1 += weight,
            None => totals.push((c.id, weight)),
        }
    }
    let scores: Vec<(InternalQuestionId, u64)> = totals
        .into_iter()
        .filter(|(_, s)| *s != 0.0)
        .map(|(id, s)| (id, s.to_bits()))
        .collect();
    let order = extract_ordered(&scores);
    store
        .convert_internal_ids_to_external_ids(&order)
        .expect("ids are stored")
        .into_iter()
        .map(|(id, bits)| (id, f64::from_bits(bits)))
        .collect()
}

fn similar(store: &FlatfileDatabaseBackend, q: &str, words: &WordsInFile, keywords: &ListedKeywords) -> Vec<(u32, f64)> {
    let credits = find_similar_credits(store, q, words, keywords);
    ranked(store, &credits)
}

#[test]
fn it_works() {
    assert_eq!(2 + 2, 4);
}

#[test]
fn tokenize_mixed_sentence() {
    let words = scenario_words();
    let keywords = scenario_keywords();
    let t = TokenizedSentence::tokenize("Is the covid-19 vaccine safe?", &words, &keywords);
    // "covid" is the first form of the class, so it matches before "covid-19"
    // and the rest of that run becomes a literal.
    assert_eq!(
        t.parts,
        vec![
            SentencePart::Known(WordIndex(50)),
            SentencePart::Known(WordIndex(60)),
            SentencePart::Listed(ListedKeywordIndex(0)),
            SentencePart::Unknown("-19".to_string()),
            SentencePart::Known(WordIndex(120)),
            SentencePart::Unknown("safe".to_string()),
        ]
    );
}

#[test]
fn tokenize_upper_case_and_spacing() {
    let words = scenario_words();
    let keywords = scenario_keywords();
    let t = TokenizedSentence::tokenize("  CAT\n\tWOOD?!  ", &words, &keywords);
    assert_eq!(
        t.parts,
        vec![
            SentencePart::Known(WordIndex(1500)),
            SentencePart::Known(WordIndex(9000)),
            SentencePart::Unknown("?!".to_string()),
        ]
    );
    let empty = TokenizedSentence::tokenize("   ", &words, &keywords);
    assert!(empty.parts.is_empty());
}

#[test]
fn longest_prefix_with_trailing_punctuation() {
    let words = scenario_words();
    assert_eq!(words.index_starting("wood?"), Some((WordIndex(9000), 4)));
    assert_eq!(words.index_starting("where?"), None);
    assert_eq!(words.index_starting("wherefore?"), Some((WordIndex(60000), 9)));
}

#[test]
fn exact_lookup_after_build() {
    let words = scenario_words();
    for i in [0u32, 50, 60, 120, 250, 600, 1500, 9000, 12345, 60000] {
        let text = words.word(WordIndex(i)).to_string();
        assert_eq!(words.index(&text), Some(WordIndex(i)));
        assert_eq!(words.index_starting(&text), Some((WordIndex(i), text.len())));
    }
    assert_eq!(words.index("wher"), None);
    assert_eq!(words.len(), 60001);
}

#[test]
fn synonyms_read_back() {
    let words = scenario_words();
    assert_eq!(words.num_synonyms(), 1);
    assert_eq!(
        words.synonyms(WordIndex(250)),
        vec![WordAndValue { word: WordIndex(600), value: 0.9f32.to_bits() }]
    );
}

#[test]
fn insert_and_retrieve() {
    let words = scenario_words();
    let keywords = scenario_keywords();
    let mut store = FlatfileDatabaseBackend::new();
    let id = add_question(&mut store, "covid vaccine", 7, &words, &keywords);
    assert_eq!(id, InternalQuestionId(0));
    assert_eq!(similar(&store, "covid", &words, &keywords), vec![(7, 10.0)]);
    // "vaccine" has index 120, at most the stopword limit of 400, so it is
    // not indexed and shares nothing with the stored question.
    assert_eq!(similar(&store, "vaccine", &words, &keywords), vec![]);
    assert_eq!(store.lookup(7), Some("covid vaccine".to_string()));
    assert_eq!(store.lookup(8), None);
    assert_eq!(store.get_all_questions(), vec!["covid vaccine".to_string()]);
}

#[test]
fn synonym_expansion_with_stopword_limit() {
    let words = scenario_words();
    let keywords = scenario_keywords();
    let mut store = FlatfileDatabaseBackend::new();
    add_question(&mut store, "phone", 1, &words, &keywords);
    add_question(&mut store, "network", 2, &words, &keywords);
    add_question(&mut store, "phone network", 3, &words, &keywords);
    // "phone" (250) is not indexed; its neighbour "network" (600) is, and
    // credits at weight 2 (index below 500) times the similarity 0.9.
    let w = 2.0 * 0.9f32 as f64;
    assert_eq!(similar(&store, "phone", &words, &keywords), vec![(2, w), (3, w)]);
}

#[test]
fn synonym_expansion_counts_each_question_once() {
    let words = scenario_words();
    let keywords = scenario_keywords();
    let mut store = FlatfileDatabaseBackend::new();
    add_question(&mut store, "cat", 1, &words, &keywords);
    add_question(&mut store, "wood", 2, &words, &keywords);
    add_question(&mut store, "cat wood", 3, &words, &keywords);
    let credits = find_similar_credits(&store, "cat", &words, &keywords);
    assert_eq!(
        credits,
        vec![
            Credit { id: InternalQuestionId(0), points: 4, similarity: None },
            Credit { id: InternalQuestionId(2), points: 4, similarity: None },
            Credit { id: InternalQuestionId(1), points: 4, similarity: Some(0.5f32.to_bits()) },
        ]
    );
    assert_eq!(similar(&store, "cat", &words, &keywords), vec![(1, 4.0), (3, 4.0), (2, 2.0)]);
}

#[test]
fn stopword_exclusion() {
    let words = scenario_words();
    let keywords = scenario_keywords();
    let mut store = FlatfileDatabaseBackend::new();
    add_question(&mut store, "is the cat", 1, &words, &keywords);
    assert_eq!(similar(&store, "is the", &words, &keywords), vec![]);
}

#[test]
fn replay_determinism() {
    let words = scenario_words();
    let keywords = scenario_keywords();
    let mut store = FlatfileDatabaseBackend::new();
    add_question(&mut store, "covid vaccine", 7, &words, &keywords);
    let before = similar(&store, "covid", &words, &keywords);
    let line = log_record(7, "covid vaccine");
    let mut reopened = FlatfileDatabaseBackend::new();
    assert_eq!(reopened.replay_line(&line, &words, &keywords), Ok(InternalQuestionId(0)));
    assert_eq!(similar(&reopened, "covid", &words, &keywords), before);
    assert_eq!(reopened.len(), 1);
    assert_eq!(reopened.replay_line("no tab here", &words, &keywords), Err(LogError::Format));
    assert_eq!(reopened.len(), 1);
}

#[test]
fn unknown_literals_are_indexed() {
    let words = scenario_words();
    let keywords = scenario_keywords();
    let mut store = FlatfileDatabaseBackend::new();
    add_question(&mut store, "#scomo ear", 5, &words, &keywords);
    assert_eq!(similar(&store, "scomo's #scomo!", &words, &keywords), vec![(5, 10.0)]);
    assert!(store.sentences_containing_unknown_word("#scomo").is_some());
    store.clear_all_reinitialize();
    assert_eq!(store.len(), 0);
    assert!(store.sentences_containing_unknown_word("#scomo").is_none());
}

#[test]
fn log_records() {
    assert_eq!(log_record(7, "a\nb"), "7\ta b");
    assert_eq!(parse_record("7\tq\tr"), Some((7, "q\tr".to_string())));
    assert_eq!(parse_record("+5\tq"), Some((5, "q".to_string())));
    assert_eq!(parse_record("x\tq"), None);
    assert_eq!(parse_record("no tab"), None);
    assert_eq!(parse_record("4294967296\tq"), None);
    assert_eq!(parse_u32("4294967295"), Some(4294967295));
    assert_eq!(parse_u32(""), None);
    assert_eq!(parse_u32("+"), None);
}

#[test]
fn next_token_length() {
    assert_eq!(len_next_token("safe?"), 4);
    assert_eq!(len_next_token("#tag! more"), 4);
    assert_eq!(len_next_token("... x"), 3);
    assert_eq!(len_next_token("ab cd"), 2);
    assert_eq!(len_next_token(" ab"), 0);
    assert_eq!(len_next_token("héllo,"), 6);
}

#[test]
fn keyword_matching() {
    let keywords = scenario_keywords();
    assert_eq!(keywords.find_keyword_starting("COVID-19 x"), Some((ListedKeywordIndex(0), 5)));
    assert_eq!(keywords.find_keyword_starting("coronavirus"), Some((ListedKeywordIndex(0), 11)));
    assert_eq!(keywords.find_keyword_starting("cov"), None);
    assert_eq!(keywords.canonical(ListedKeywordIndex(0)), "covid");
    assert_eq!(keywords.class_size(ListedKeywordIndex(0)), 3);
    let one = ListedKeyword(vec!["5g".to_string(), "covid".to_string()]);
    assert_eq!(one.find_keyword_starting("Covid"), Some(5));
}

#[test]
fn keywords_from_csv() {
    let k = ListedKeywords::load(b"covid,covid-19,coronavirus\n5g,5 g\n").expect("csv");
    assert_eq!(k.len(), 2);
    assert_eq!(k.canonical(ListedKeywordIndex(1)), "5g");
    assert_eq!(k.find_keyword_starting("5 g towers"), Some((ListedKeywordIndex(1), 3)));
    assert!(ListedKeywords::load(b"\xff\xfe,x\n").is_none());
}

#[test]
fn word_file_errors() {
    assert_eq!(WordsInFile::read_word_file(vec![1, 2, 3]).err(), Some(WordFileError::Format));
    let mut bad_magic = vec![b'W', b'O', b'R', b'X'];
    bad_magic.extend_from_slice(&[0u8; 12]);
    assert_eq!(WordsInFile::read_word_file(bad_magic).err(), Some(WordFileError::Format));
    let mut words = MemoryWords::new();
    words.add("ab");
    let bytes = write_word_file(&words, &vec![vec![]], 0).expect("one word");
    let mut broken = bytes.clone();
    let n = broken.len();
    broken[n - 2] = 0xFF;
    assert_eq!(WordsInFile::read_word_file(broken).err(), Some(WordFileError::Encoding));
    let mut cut = bytes.clone();
    cut.pop();
    assert_eq!(WordsInFile::read_word_file(cut).err(), Some(WordFileError::Format));
    let ok = WordsInFile::read_word_file(bytes).expect("valid");
    assert_eq!(ok.word(WordIndex(0)), "ab");
}

#[test]
fn word_file_layout() {
    let mut words = MemoryWords::new();
    words.add("b");
    words.add("a");
    let rows = vec![
        vec![WordAndValue { word: WordIndex(1), value: 7 }],
        vec![WordAndValue { word: WordIndex(0), value: 9 }],
    ];
    let bytes = write_word_file(&words, &rows, 1).expect("fits");
    let mut expected: Vec<u8> = b"WORD".to_vec();
    for x in [2u32, 1, 1, 7, 0, 9, 1, 0, 0, 2, 4] {
        expected.extend_from_slice(&x.to_le_bytes());
    }
    expected.extend_from_slice(b"b\0a\0");
    assert_eq!(bytes, expected);
}

#[test]
fn memory_words_lookup() {
    let mut words = MemoryWords::new();
    assert_eq!(words.add("x"), WordIndex(0));
    assert_eq!(words.add("y"), WordIndex(1));
    assert_eq!(words.add("x"), WordIndex(2));
    assert_eq!(words.index("x"), Some(WordIndex(2)));
    assert_eq!(words.index("y"), Some(WordIndex(1)));
    assert_eq!(words.index("z"), None);
    assert_eq!(words.word(WordIndex(1)), "y");
    assert_eq!(words.len(), 3);
}

#[test]
fn nearest_neighbours() {
    let sims: Vec<u32> = [1.0f32, 0.5, 0.9, -0.2, 0.5].iter().map(|f| f.to_bits()).collect();
    let row = nearest_synonyms(0, &sims, 2);
    assert_eq!(
        row,
        vec![
            WordAndValue { word: WordIndex(2), value: 0.9f32.to_bits() },
            WordAndValue { word: WordIndex(1), value: 0.5f32.to_bits() },
        ]
    );
    let all = nearest_synonyms(2, &sims, 10);
    let order: Vec<u32> = all.iter().map(|e| e.word.0).collect();
    assert_eq!(order, vec![0, 1, 4, 3]);
    assert!(nearest_synonyms(0, &sims, 0).is_empty());
}

#[test]
fn smallest_n_keeps_smallest() {
    let mut s = SmallestN::new(2);
    for (w, v) in [(0u32, 5u32), (1, 3), (2, 9), (3, 1), (4, 3)] {
        s.add(WordAndValue { word: WordIndex(w), value: v });
    }
    let kept: Vec<(u32, u32)> = s.into_sorted_vec().iter().map(|e| (e.word.0, e.value)).collect();
    assert_eq!(kept, vec![(3, 1), (1, 3)]);
}

#[test]
fn ranking_order() {
    let scores = vec![
        (InternalQuestionId(0), 1.0f64.to_bits()),
        (InternalQuestionId(1), 3.0f64.to_bits()),
        (InternalQuestionId(2), 1.0f64.to_bits()),
        (InternalQuestionId(3), (-2.0f64).to_bits()),
    ];
    let r: Vec<u32> = extract_ordered(&scores).iter().map(|(id, _)| id.0).collect();
    assert_eq!(r, vec![1, 0, 2, 3]);
}

#[test]
fn known_word_weights() {
    assert_eq!(score_known(WordIndex(99)), 1);
    assert_eq!(score_known(WordIndex(120)), 2);
    assert_eq!(score_known(WordIndex(600)), 3);
    assert_eq!(score_known(WordIndex(9000)), 4);
    assert_eq!(score_known(WordIndex(60000)), 6);
    assert_eq!(score_known(WordIndex(100000)), 8);
}

fn file_of(texts: &[&str]) -> WordsInFile {
    let mut words = MemoryWords::new();
    for t in texts {
        words.add(t);
    }
    let rows: Vec<Vec<WordAndValue>> = texts.iter().map(|_| vec![]).collect();
    WordsInFile::read_word_file(write_word_file(&words, &rows, 0).expect("fits")).expect("valid")
}

#[test]
fn longest_prefix_is_found_past_longer_words() {
    let words = file_of(&["a", "ab", "abc", "abd", "abe"]);
    assert_eq!(words.index_starting("abz"), Some((WordIndex(1), 2)));
    assert_eq!(words.index_starting("abcd"), Some((WordIndex(2), 3)));
    assert_eq!(words.index_starting("b"), None);
    let words = file_of(&["0", "1", "a", "ab", "abc"]);
    assert_eq!(words.index_starting("abx"), Some((WordIndex(3), 2)));
    let words = file_of(&["where", "wherefore", "wood"]);
    assert_eq!(words.index_starting("where?"), Some((WordIndex(0), 5)));
}

#[test]
fn unsorted_index_is_rejected() {
    let mut words = MemoryWords::new();
    words.add("a");
    words.add("b");
    let mut bytes = write_word_file(&words, &vec![vec![], vec![]], 0).expect("fits");
    // the alphabetical index follows the 12-byte header: swap its entries
    let (x, y) = (bytes[12], bytes[16]);
    bytes[12] = y;
    bytes[16] = x;
    assert_eq!(WordsInFile::read_word_file(bytes).err(), Some(WordFileError::Format));
}

#[test]
fn decimal_identifiers() {
    assert_eq!(decimal_text(0), "0");
    assert_eq!(decimal_text(1907), "1907");
    assert_eq!(decimal_text(4294967295), "4294967295");
}

#[test]
fn zero_scores_tie_by_question() {
    let scores = vec![
        (InternalQuestionId(1), 0.0f64.to_bits()),
        (InternalQuestionId(0), (-0.0f64).to_bits()),
    ];
    let r: Vec<u32> = extract_ordered(&scores).iter().map(|(id, _)| id.0).collect();
    assert_eq!(r, vec![0, 1]);
}

#[test]
fn repeated_words_and_bad_rows_are_refused() {
    let mut words = MemoryWords::new();
    words.add("a");
    words.add("a");
    assert!(write_word_file(&words, &vec![vec![], vec![]], 0).is_none());
    let mut words = MemoryWords::new();
    words.add("a");
    words.add("b");
    let own = vec![
        vec![WordAndValue { word: WordIndex(0), value: 0 }],
        vec![WordAndValue { word: WordIndex(0), value: 0 }],
    ];
    assert!(write_word_file(&words, &own, 1).is_none());
    let missing = vec![
        vec![WordAndValue { word: WordIndex(2), value: 0 }],
        vec![WordAndValue { word: WordIndex(0), value: 0 }],
    ];
    assert!(write_word_file(&words, &missing, 1).is_none());
    let mut words = MemoryWords::new();
    words.add("a");
    words.add("b");
    words.add("c");
    let ascending = vec![
        vec![
            WordAndValue { word: WordIndex(1), value: 0.1f32.to_bits() },
            WordAndValue { word: WordIndex(2), value: 0.9f32.to_bits() },
        ],
        vec![
            WordAndValue { word: WordIndex(0), value: 0.9f32.to_bits() },
            WordAndValue { word: WordIndex(2), value: 0.1f32.to_bits() },
        ],
        vec![
            WordAndValue { word: WordIndex(0), value: 0.9f32.to_bits() },
            WordAndValue { word: WordIndex(1), value: 0.1f32.to_bits() },
        ],
    ];
    assert!(write_word_file(&words, &ascending, 2).is_none());
    let mut good = ascending.clone();
    good[0].swap(0, 1);
    assert!(write_word_file(&words, &good, 2).is_some());
}
