use sentiment::classify::{classify, evaluate, parse_sentences, CorpusError, EvalError, Evaluation};
use sentiment::model::{aggregate, count_labels, count_word, sentence_has, train, Sentiment, SentimentCount};
use sentiment::natural::Natural;
use sentiment::table::{
    encode_row, encode_table, format_line, format_preprocessed, format_table, get_vocab, load_table,
    split_line, table_header, TableError,
};
use sentiment::text::{
    normalize_line, normalize_word, parse_label, parse_sentence, split_ascii_whitespace, LineError,
    Sentence,
};
use sentiment::vocab::{build_vocabulary, insert_sorted, lex_less};

fn strings(v: &[&str]) -> Vec<String> {
    v.iter().map(|s| s.to_string()).collect()
}

fn corpus(lines: &[&str]) -> Vec<Sentence> {
    parse_sentences(&strings(lines)).unwrap()
}

fn scenario_a() -> Vec<Sentence> {
    corpus(&["i love this movie 1", "i hate this movie 0"])
}

fn counts(good: usize, bad: usize) -> SentimentCount {
    SentimentCount { good, bad }
}

#[test]
fn scenario_a_vocabulary_and_counts() {
    let sents = scenario_a();
    let vocab = build_vocabulary(&sents);
    assert_eq!(vocab, strings(&["hate", "i", "love", "movie", "this"]));
    let m = train(&sents);
    assert_eq!(m.get(&"love".to_string()), Some(counts(1, 0)));
    assert_eq!(m.get(&"hate".to_string()), Some(counts(0, 1)));
    for w in ["movie", "i", "this"] {
        assert_eq!(m.get(&w.to_string()), Some(counts(1, 1)));
    }
    assert_eq!(m.get(&"1".to_string()), None);
    assert_eq!(m.get(&"0".to_string()), None);
    assert_eq!(m.vocab_size(), 5);
    assert_eq!(m.totals(), counts(1, 1));
}

#[test]
fn scenario_b_classifies_good() {
    let m = train(&scenario_a());
    let v = classify(&m, &strings(&["i", "love", "this"]), counts(1, 1));
    assert_eq!(v, Sentiment::Good);
}

#[test]
fn scenario_c_empty_test_set_is_rejected() {
    let m = train(&scenario_a());
    assert_eq!(evaluate(&m, &Vec::new()), Err(EvalError::EmptyTestSet));
}

#[test]
fn classify_bad_sentence_and_unseen_words() {
    let m = train(&scenario_a());
    assert_eq!(classify(&m, &strings(&["i", "hate", "this"]), counts(1, 1)), Sentiment::Bad);
    // Unseen words weigh 1 on both sides: the scores tie, and a tie is Bad.
    assert_eq!(classify(&m, &strings(&["zebra", "quokka"]), counts(1, 1)), Sentiment::Bad);
    assert_eq!(classify(&m, &[], counts(1, 1)), Sentiment::Bad);
}

#[test]
fn classify_divides_by_the_totals() {
    let m = train(&scenario_a());
    // score_good = 1 / 1, score_bad = 1 / 2: Good.
    assert_eq!(classify(&m, &strings(&["movie"]), counts(1, 2)), Sentiment::Good);
    // score_good = 1 / 3, score_bad = 1 / 2: Bad.
    assert_eq!(classify(&m, &strings(&["movie"]), counts(3, 2)), Sentiment::Bad);
    // No Good training sentence: a non-zero good score wins, a zero one loses.
    assert_eq!(classify(&m, &strings(&["movie"]), counts(0, 2)), Sentiment::Good);
    assert_eq!(classify(&m, &strings(&["hate"]), counts(0, 2)), Sentiment::Bad);
}

#[test]
fn classify_handles_products_beyond_machine_words() {
    let mut lines = Vec::new();
    for _ in 0..40 {
        lines.push("great great film 1");
    }
    for _ in 0..39 {
        lines.push("great film 0");
    }
    let m = train(&corpus(&lines));
    // great: good 40, bad 39; film: good 40, bad 39. Twenty-five of them overflow u128.
    let mut words = Vec::new();
    for _ in 0..25 {
        words.push("great".to_string());
    }
    assert_eq!(classify(&m, &words, m.totals()), Sentiment::Good);
    // Totals weigh against Good enough to turn it.
    assert_eq!(classify(&m, &words, counts(usize::MAX, 1)), Sentiment::Bad);
}

#[test]
fn classify_is_deterministic() {
    let m = train(&scenario_a());
    let s = strings(&["i", "love", "movie", "unknown"]);
    let a = classify(&m, &s, m.totals());
    let b = classify(&m, &s, m.totals());
    assert_eq!(a, b);
}

#[test]
fn evaluate_counts_correct_verdicts() {
    let m = train(&scenario_a());
    let tests = corpus(&["i love this 1", "i hate this 0", "i love it 0", "movie 1"]);
    // "movie" ties (1 * 1 vs 1 * 1) and is Bad, so only the first two are right.
    assert_eq!(evaluate(&m, &tests), Ok(Evaluation { correct: 2, total: 4 }));
}

#[test]
fn vocabulary_sorted_unique_without_empty() {
    let sents = corpus(&["Zeta!! alpha , alpha beta 1", "--- beta GAMMA 0", "b a 1", "ab a 0"]);
    let v = build_vocabulary(&sents);
    assert_eq!(v, strings(&["a", "ab", "alpha", "b", "beta", "gamma", "zeta"]));
    for w in v.windows(2) {
        assert!(w[0] < w[1]);
    }
    assert!(v.iter().all(|w| !w.is_empty()));
}

#[test]
fn vocabulary_keeps_first_word_without_punctuation_chunk() {
    let sents = corpus(&["apple banana 1"]);
    assert_eq!(build_vocabulary(&sents), strings(&["apple", "banana"]));
    assert_eq!(build_vocabulary(&Vec::new()), Vec::<String>::new());
}

#[test]
fn insert_sorted_places_and_skips() {
    let mut v = strings(&["b", "d"]);
    insert_sorted(&mut v, "c".to_string());
    insert_sorted(&mut v, "a".to_string());
    insert_sorted(&mut v, "e".to_string());
    insert_sorted(&mut v, "c".to_string());
    assert_eq!(v, strings(&["a", "b", "c", "d", "e"]));
}

#[test]
fn lex_less_orders_like_string() {
    let pairs = [("a", "b"), ("a", "ab"), ("", "a"), ("b", "ab"), ("é", "z"), ("z", "é"), ("x", "x")];
    for (a, b) in pairs {
        assert_eq!(lex_less(a, b), a < b, "{} {}", a, b);
    }
}

#[test]
fn normalize_strips_and_lowercases() {
    assert_eq!(normalize_word("Hello,"), "hello");
    assert_eq!(normalize_word("a-b"), "ab");
    assert_eq!(normalize_word("!!!"), "");
    assert_eq!(normalize_word("CAFÉ"), "café");
    assert_eq!(normalize_word("x2Y"), "x2y");
    assert_eq!(normalize_line("  Hi ,  THERE\tfriend!\n"), strings(&["hi", "", "there", "friend"]));
    assert_eq!(normalize_line(""), Vec::<String>::new());
}

#[test]
fn normalize_is_idempotent() {
    let once = normalize_line("It's GREAT -- really, Truly 10/10");
    let twice: Vec<String> = once.iter().map(|t| normalize_word(t)).collect();
    assert_eq!(once, twice);
    let again = normalize_line(&once.join(" "));
    let nonempty: Vec<String> = once.into_iter().filter(|t| !t.is_empty()).collect();
    assert_eq!(again, nonempty);
}

#[test]
fn split_on_ascii_whitespace_only() {
    assert_eq!(split_ascii_whitespace(" a\tb\r\nc  d\x0ce "), strings(&["a", "b", "c", "d", "e"]));
    assert_eq!(split_ascii_whitespace("a\u{a0}b"), strings(&["a\u{a0}b"]));
    assert_eq!(split_ascii_whitespace("a\x0bb"), strings(&["a\x0bb"]));
    assert_eq!(split_ascii_whitespace("   "), Vec::<String>::new());
}

#[test]
fn labels_parse_as_numbers() {
    assert_eq!(parse_label("1"), Some(true));
    assert_eq!(parse_label("0"), Some(false));
    assert_eq!(parse_label("001"), Some(true));
    assert_eq!(parse_label("2"), Some(false));
    assert_eq!(parse_label(""), None);
    assert_eq!(parse_label("x"), None);
    assert_eq!(parse_label("18446744073709551615"), Some(false));
    assert_eq!(parse_label("18446744073709551616"), None);
}

#[test]
fn sentence_errors() {
    assert_eq!(parse_sentence("   ").unwrap_err(), LineError::NoFields);
    assert_eq!(parse_sentence("good movie yes").unwrap_err(), LineError::BadLabel);
    let s = parse_sentence("Good, movie! 1").unwrap();
    assert_eq!(s.words, strings(&["good", "movie"]));
    assert!(s.good);
    let s = parse_sentence("0").unwrap();
    assert!(s.words.is_empty());
    assert!(!s.good);
    let e = parse_sentences(&strings(&["a 1", "b 0", "", "c 1"])).unwrap_err();
    assert_eq!(e, CorpusError { line: 2, error: LineError::NoFields });
}

#[test]
fn feature_rows_have_vocabulary_width_plus_label() {
    let sents = corpus(&["a b 1", "c 0", "0", "b b b 1"]);
    let (rows, header) = get_vocab(&sents);
    assert_eq!(header, strings(&["a", "b", "c", "classlabel"]));
    assert_eq!(rows.len(), 4);
    for r in &rows {
        assert_eq!(r.len(), header.len());
    }
    assert_eq!(rows[0], strings(&["1", "1", "0", "1"]));
    assert_eq!(rows[1], strings(&["0", "0", "1", "0"]));
    assert_eq!(rows[2], strings(&["0", "0", "0", "0"]));
    assert_eq!(rows[3], strings(&["0", "1", "0", "1"]));
}

#[test]
fn encode_row_marks_membership() {
    let vocab = strings(&["hate", "i", "love"]);
    let s = parse_sentence("I love LOVE 1").unwrap();
    assert_eq!(encode_row(&vocab, &s), strings(&["0", "1", "1", "1"]));
    assert_eq!(table_header(&vocab), strings(&["hate", "i", "love", "classlabel"]));
    assert_eq!(encode_table(&vocab, &vec![s]).len(), 1);
}

#[test]
fn count_sums_match_containing_sentences() {
    let sents = corpus(&["a b 1", "a 0", "a a 1", "b 0", "c 1"]);
    let vocab = build_vocabulary(&sents);
    for w in &vocab {
        let c = count_word(w, &sents);
        let containing = sents.iter().filter(|s| sentence_has(s, w)).count();
        assert_eq!(c.good + c.bad, containing);
    }
    assert_eq!(count_word(&"a".to_string(), &sents), counts(2, 1));
    assert_eq!(count_word(&"zzz".to_string(), &sents), counts(0, 0));
    assert_eq!(count_labels(&sents), counts(3, 2));
}

#[test]
fn aggregate_skips_words_never_seen() {
    let sents = corpus(&["a 1", "b 0"]);
    let m = aggregate(&strings(&["a", "b", "z"]), &sents);
    assert_eq!(m.get(&"a".to_string()), Some(counts(1, 0)));
    assert_eq!(m.get(&"b".to_string()), Some(counts(0, 1)));
    assert_eq!(m.get(&"z".to_string()), None);
    assert_eq!(m.vocab_size(), 3);
}

#[test]
fn table_round_trip_gives_same_model() {
    let sents = corpus(&["i love this movie 1", "i hate this movie 0", "what a film 1", "meh 0"]);
    let direct = train(&sents);
    let (rows, header) = get_vocab(&sents);
    let vocab: Vec<String> = header[..header.len() - 1].to_vec();
    let lines = format_table(&header, &rows);
    let loaded = load_table(&lines).unwrap();
    let from_cells = format_preprocessed(header.clone(), rows.clone());
    for w in vocab.iter().chain(["nope".to_string()].iter()) {
        assert_eq!(loaded.get(w), direct.get(w));
        assert_eq!(from_cells.get(w), direct.get(w));
    }
    assert_eq!(loaded.totals(), direct.totals());
    assert_eq!(loaded.vocab_size(), direct.vocab_size());
    assert_eq!(from_cells.totals(), counts(2, 2));
}

#[test]
fn table_lines_format_and_split() {
    let cells = strings(&["hate", "i", "classlabel"]);
    let line = format_line(&cells);
    assert_eq!(line, "hate, i, classlabel");
    assert_eq!(split_line(&line), cells);
    assert_eq!(split_line(""), strings(&[""]));
    assert_eq!(split_line("a,b, c"), strings(&["a,b", "c"]));
    let lines = format_table(&strings(&["w", "classlabel"]), &vec![strings(&["1", "0"])]);
    assert_eq!(lines, strings(&["w, classlabel", "1, 0"]));
}

#[test]
fn load_table_errors() {
    assert!(matches!(load_table(&Vec::new()), Err(TableError::NoHeader)));
    assert!(matches!(
        load_table(&strings(&["a, a, classlabel", "1, 1, 1"])),
        Err(TableError::DuplicateWord)
    ));
    assert!(matches!(
        load_table(&strings(&["a, b, classlabel", "1, 1, 1", "1, 0"])),
        Err(TableError::RowWidth(2))
    ));
}

#[test]
fn into_storage_cells() {
    assert_eq!(Sentiment::Good.into_storage(), "1");
    assert_eq!(Sentiment::Bad.into_storage(), "0");
}

#[test]
fn natural_multiplies_and_compares() {
    let mut a = Natural::from_usize(usize::MAX);
    a.mul_usize(usize::MAX);
    a.mul_usize(3);
    let mut b = Natural::from_usize(usize::MAX);
    b.mul_usize(usize::MAX);
    b.mul_usize(2);
    assert!(a.greater(&b));
    assert!(!b.greater(&a));
    assert!(!a.greater(&a));
    let mut z = Natural::from_usize(5);
    z.mul_usize(0);
    assert!(!z.greater(&Natural::from_usize(0)));
    assert!(Natural::from_usize(1).greater(&z));
}
