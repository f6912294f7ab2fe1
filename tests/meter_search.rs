use meter_search::{next_fetch_action, FetchAction};
use meter_search::{
    cmu_dict_from_text, enumerate, process_cmu_entry, search, trochaic_tetrameter, Dictionary,
    Pronunciation, SearchError, Sentence, Syllable, Word,
};

fn pron(s: &str) -> Pronunciation {
    Pronunciation::from_str(s).unwrap()
}

fn options(words: &[&[&str]]) -> Vec<Vec<Pronunciation>> {
    words.iter().map(|w| w.iter().map(|p| pron(p)).collect()).collect()
}

fn stress_string(opts: &[Vec<Pronunciation>], choice: &[usize]) -> String {
    let mut s = String::new();
    for (k, &j) in choice.iter().enumerate() {
        s.push_str(&opts[k][j].to_digits());
    }
    s
}

#[test]
fn enumeration_yields_single_complete_assignment() {
    let opts = options(&[&["10"], &["10"]]);
    let e = enumerate(&opts, 4, 100);
    assert_eq!(e.assignments, vec![vec![0, 0]]);
    assert!(!e.truncated);
    assert_eq!(stress_string(&opts, &e.assignments[0]), "1010");
}

#[test]
fn pruning_keeps_only_short_branch() {
    let opts = options(&[&["1", "10"], &["0"]]);
    let e = enumerate(&opts, 2, 100);
    assert_eq!(e.assignments, vec![vec![0, 0]]);
    // One leaf is enough to exhaust the search: the longer branch is never completed.
    let e1 = enumerate(&opts, 2, 1);
    assert_eq!(e1.assignments, vec![vec![0, 0]]);
    assert!(!e1.truncated);
}

#[test]
fn every_assignment_sums_to_target() {
    let opts = options(&[&["1", "10", "102"], &["0", "01"], &["1", "10"]]);
    let e = enumerate(&opts, 4, 1000);
    assert_eq!(
        e.assignments,
        vec![vec![0, 0, 1], vec![0, 1, 0], vec![1, 0, 0]]
    );
    for a in &e.assignments {
        let total: usize = a.iter().enumerate().map(|(k, &j)| opts[k][j].len()).sum();
        assert_eq!(total, 4);
    }
}

#[test]
fn enumeration_with_no_reachable_total_is_empty() {
    let opts = options(&[&["1"], &["1"]]);
    let e = enumerate(&opts, 3, 10);
    assert!(e.assignments.is_empty());
    assert!(!e.truncated);
    let none = enumerate(&Vec::new(), 0, 10);
    assert_eq!(none.assignments, vec![Vec::<usize>::new()]);
}

#[test]
fn enumeration_budget_truncates() {
    let opts = options(&[&["1", "1"], &["1", "1"]]);
    let e = enumerate(&opts, 2, 3);
    assert_eq!(e.assignments, vec![vec![0, 0], vec![0, 1], vec![1, 0]]);
    assert!(e.truncated);
    let full = enumerate(&opts, 2, 4);
    assert_eq!(full.assignments.len(), 4);
    assert!(!full.truncated);
}

#[test]
fn meter_matching_trochaic() {
    let t = trochaic_tetrameter();
    assert_eq!(t.len(), 8);
    assert_eq!(meter_search::meter::matches(&pron("10101010").syllables, &t), Ok(true));
    assert_eq!(meter_search::meter::matches(&pron("01010101").syllables, &t), Ok(false));
    assert_eq!(meter_search::meter::matches(&pron("11111111").syllables, &t), Ok(false));
    // Secondary stress fills a stressed position.
    assert_eq!(meter_search::meter::matches(&pron("20202020").syllables, &t), Ok(true));
    assert_eq!(meter_search::meter::matches(&pron("12101010").syllables, &t), Ok(false));
}

#[test]
fn meter_length_mismatch_is_an_error() {
    let t = trochaic_tetrameter();
    let r = meter_search::meter::matches(&pron("1010").syllables, &t);
    assert!(r.is_err());
    let e = r.unwrap_err();
    assert_eq!(e.sequence_len, 4);
    assert_eq!(e.template_len, 8);
}

#[test]
fn pronunciation_reads_stress_digits() {
    let p = pron("AH0 B AW1 T");
    assert_eq!(p.syllables, vec![Syllable::Unstressed, Syllable::PrimaryStress]);
    assert_eq!(p.len(), 2);
    assert_eq!(p.to_digits(), "01");
    assert!(Pronunciation::from_str("AH3").is_none());
    assert_eq!(Syllable::from_char('2'), Some(Syllable::SecondaryStress));
    assert_eq!(Syllable::from_char('x'), None);
}

const DICT: &str = ";;; a comment line\n\
A  AH0\n\
A(2)  EY1\n\
HELLO  HH AH0 L OW1\n\
WORLD  W ER1 L D\n\
PSST  P S T\n";

#[test]
fn loader_builds_dictionary() {
    let d = cmu_dict_from_text(DICT).unwrap();
    let a = d.lookup("A").unwrap();
    assert_eq!(a.len(), 2);
    assert_eq!(a[0].to_digits(), "0");
    assert_eq!(a[1].to_digits(), "1");
    assert_eq!(d.lookup("HELLO").unwrap()[0].to_digits(), "01");
    assert!(d.contains("WORLD"));
    // An entry without a stressed phoneme has no syllable and is not listed.
    assert!(!d.contains("PSST"));
    assert!(d.lookup("A(2)").is_none());
}

#[test]
fn loader_handles_crlf_and_missing_final_newline() {
    let d = cmu_dict_from_text("GO  G OW1\r\nTO  T UW1").unwrap();
    assert_eq!(d.lookup("GO").unwrap()[0].to_digits(), "1");
    assert_eq!(d.lookup("TO").unwrap()[0].to_digits(), "1");
}

#[test]
fn loader_rejects_malformed_lines() {
    let e = cmu_dict_from_text("GOOD  G UH1 D\nBAD G AE1 D\n").unwrap_err();
    assert_eq!(e.line, "BAD G AE1 D");
    let e = cmu_dict_from_text("ODD  AA3 D\n").unwrap_err();
    assert_eq!(e.line, "ODD  AA3 D");
}

#[test]
fn entry_parsing() {
    let (w, p) = process_cmu_entry("ABOUT(2)  AH0 B AW1 T").unwrap();
    assert_eq!(w, "ABOUT");
    assert_eq!(p.to_digits(), "01");
    let word = Word::from_cmu_entry("ZEBRA  Z IY1 B R AH0").unwrap();
    assert_eq!(word.word, "ZEBRA");
    assert_eq!(word.pronunciation.to_digits(), "10");
    assert!(Word::from_cmu_entry("NOSEPARATOR").is_err());
}

#[test]
fn dictionary_add_appends() {
    let mut d = Dictionary::new();
    assert!(!d.contains("X"));
    d.add(String::from("X"), pron("1"));
    d.add(String::from("X"), pron("10"));
    let v = d.lookup("X").unwrap();
    assert_eq!(v.len(), 2);
    assert_eq!(v[1].to_digits(), "10");
}

#[test]
fn sentence_normalisation() {
    let s = Sentence::new("Hello, world!  it's - 42nd");
    assert_eq!(s.words(), &vec!["HELLO".to_string(), "WORLD".to_string(), "ITS".to_string(), "42ND".to_string()]);
    assert_eq!(s.len(), 4);
    assert_eq!(s.as_str(), "Hello, world!  it's - 42nd");
    assert_eq!(Sentence::new("   ").len(), 0);
}

#[test]
fn words_in_dictionary() {
    let d = cmu_dict_from_text(DICT).unwrap();
    assert!(Sentence::new("hello world").all_words_in_dict(&d));
    assert!(!Sentence::new("hello zorp world").all_words_in_dict(&d));
}

#[test]
fn unknown_word_aborts_search() {
    let d = cmu_dict_from_text(DICT).unwrap();
    let s = Sentence::new("hello zorp world");
    let t = trochaic_tetrameter();
    match search(&s, &d, 8, &t, 100) {
        Err(SearchError::UnknownWord(w)) => assert_eq!(w, "ZORP"),
        _ => panic!("expected an unknown word"),
    }
    match s.n_syllable_pronunciations(&d, 8, 100) {
        Err(SearchError::UnknownWord(w)) => assert_eq!(w, "ZORP"),
        _ => panic!("expected an unknown word"),
    }
}

#[test]
fn template_length_mismatch_is_rejected() {
    let d = cmu_dict_from_text(DICT).unwrap();
    let s = Sentence::new("zorp");
    match search(&s, &d, 4, &trochaic_tetrameter(), 100) {
        Err(SearchError::TemplateLengthMismatch { template_len, target }) => {
            assert_eq!(template_len, 8);
            assert_eq!(target, 4);
        }
        _ => panic!("expected a length mismatch"),
    }
}

const FOO: &str = "FOO  AH0 AH1 AH0 AH1 AH0 AH1 AH0 AH1\n\
FOO(2)  AH1 AH0 AH1 AH0 AH1 AH0 AH1 AH0\n";

#[test]
fn truncated_search_may_miss_a_match() {
    let d = cmu_dict_from_text(FOO).unwrap();
    let s = Sentence::new("foo");
    let r = s.turtle_trochaic_tetrameter(&d, 1).unwrap();
    assert!(r.truncated);
    assert!(r.matches.is_empty());
    let r = s.turtle_trochaic_tetrameter(&d, 2).unwrap();
    assert!(!r.truncated);
    assert_eq!(r.matches, vec![vec![1]]);
}

#[test]
fn trochaic_search_over_several_words() {
    let d = cmu_dict_from_text(
        "TURTLE  T ER1 T AH0 L\nPOWER  P AW1 ER0\nHEROES  HH IH1 R OW0 Z\nNINJA  N IH1 N JH AH0\nA  AH0\nA(2)  EY1\n",
    )
    .unwrap();
    let s = Sentence::new("Ninja turtle power heroes");
    let r = s.turtle_trochaic_tetrameter(&d, 100).unwrap();
    assert!(!r.truncated);
    assert_eq!(r.matches, vec![vec![0, 0, 0, 0]]);
    let e = s.n_syllable_pronunciations(&d, 8, 100).unwrap();
    assert_eq!(e.assignments.len(), 1);
    let s = Sentence::new("a turtle");
    let r = s.turtle_trochaic_tetrameter(&d, 100).unwrap();
    assert!(r.matches.is_empty());
}

#[test]
fn fetch_backoff_decisions() {
    assert_eq!(next_fetch_action(0, 5, true), FetchAction::Done);
    assert_eq!(next_fetch_action(0, 5, false), FetchAction::Wait { retry: 1, seconds: 2 });
    assert_eq!(next_fetch_action(3, 5, false), FetchAction::Wait { retry: 4, seconds: 16 });
    assert_eq!(next_fetch_action(5, 5, false), FetchAction::GiveUp);
    assert_eq!(next_fetch_action(40, 200, false), FetchAction::Wait { retry: 41, seconds: u32::MAX });
}

#[test]
fn dead_end_leaves_count_against_budget() {
    // Every option has an even number of syllables and the target is odd, so
    // the one leaf reached misses the target.
    let opts = options(&[&["10", "1010"], &["10", "1010"]]);
    let none = enumerate(&opts, 5, 0);
    assert!(none.truncated);
    assert!(none.assignments.is_empty());
    let one = enumerate(&opts, 5, 1);
    assert!(!one.truncated);
    assert!(one.assignments.is_empty());
    let single = options(&[&["10", "1010"]]);
    let e = enumerate(&single, 3, 0);
    assert!(e.truncated);
    assert!(!enumerate(&single, 3, 1).truncated);
}

#[test]
fn only_numbered_variants_are_merged() {
    let (w, _) = process_cmu_entry("A(B)  AH1").unwrap();
    assert_eq!(w, "A(B)");
    let (w, _) = process_cmu_entry("()  P AA1 R").unwrap();
    assert_eq!(w, "()");
    let (w, _) = process_cmu_entry("X()  EH1 K S").unwrap();
    assert_eq!(w, "X()");
    let (w, _) = process_cmu_entry(")  P AA1 R").unwrap();
    assert_eq!(w, ")");
    let (w, _) = process_cmu_entry("WORD(12)  W ER1 D").unwrap();
    assert_eq!(w, "WORD");
    let d = cmu_dict_from_text("GO  G OW1\nGO(2)  G OW0\nGO(X)  G OW2\n").unwrap();
    assert_eq!(d.lookup("GO").unwrap().len(), 2);
    assert_eq!(d.lookup("GO(X)").unwrap()[0].to_digits(), "2");
}

#[test]
fn sentence_splits_on_unicode_whitespace() {
    let s = Sentence::new("hello\u{3000}world\u{a0}x\tY\u{2028}z");
    assert_eq!(
        s.words(),
        &vec!["HELLO".to_string(), "WORLD".to_string(), "X".to_string(), "Y".to_string(), "Z".to_string()]
    );
}
