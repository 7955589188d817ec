use sbs::constraints::{mark_chars, ConstraintSet};
use sbs::dictionary::normalize_entry;
use sbs::{
    Config, Dictionary, DictionaryClient, DictionaryConfig, MatchSet, SbsError, Solver,
    ValidationSummary, WordEntry,
};

fn sorted(m: MatchSet) -> Vec<String> {
    let mut v = m.into_words();
    v.sort();
    v
}

fn solve(config: Config, words: &[&str]) -> Vec<String> {
    let dict = Dictionary::from_words(words);
    sorted(Solver::new(config).solve(&dict).expect("Solver failed"))
}

#[test]
fn scenario_default_bounds() {
    let config = Config::new().with_letters("abcdefg").with_present("a");
    let got = solve(config, &["bad", "fade", "faced", "zzzz", "bed"]);
    assert_eq!(got, vec!["faced", "fade"]);
}

#[test]
fn match_set_membership() {
    let config = Config::new().with_letters("abcdefg").with_present("a");
    let dict = Dictionary::from_words(&["bad", "fade", "faced", "zzzz", "bed"]);
    let m = Solver::new(config).solve(&dict).expect("Solver failed");
    assert_eq!(m.len(), 2);
    assert!(!m.is_empty());
    assert!(m.contains("fade") && m.contains("faced"));
    assert!(!m.contains("fad") && !m.contains("bed") && !m.contains(""));
}

#[test]
fn scenario_repeat_cap() {
    let mut config = Config::new().with_letters("ab").with_present("a");
    config.minimal_word_length = Some(2);
    config.repeats = Some(1);
    let got = solve(config, &["aa", "ab"]);
    assert_eq!(got, vec!["ab"]);
}

#[test]
fn scenario_start_only_letter() {
    let mut config = Config::new().with_letters("Ware").with_present("a");
    config.case_sensitive = Some(true);
    config.minimal_word_length = Some(3);
    let got = solve(config, &["war", "raw", "ware", "area"]);
    assert_eq!(got, vec!["area", "war", "ware"]);
}

#[test]
fn scenario_required_leading_letter() {
    let mut config = Config::new().with_letters("Ware").with_present("W");
    config.case_sensitive = Some(true);
    config.minimal_word_length = Some(3);
    let got = solve(config, &["war", "raw", "ware", "area", "era"]);
    assert_eq!(got, vec!["war", "ware"]);
}

#[test]
fn scenario_two_leading_letters_rejected() {
    let r = ConstraintSet::derive("ABcde", "AB", true, 4, usize::MAX, None);
    assert!(matches!(r, Err(SbsError::ConfigError(_))));
    let ok = ConstraintSet::derive("ABcde", "AB", false, 4, usize::MAX, None);
    assert!(ok.is_ok());
}

#[test]
fn scenario_length_window() {
    let mut config = Config::new().with_letters("abcde").with_present("a");
    config.minimal_word_length = Some(3);
    config.maximal_word_length = Some(4);
    let got = solve(config, &["ab", "abc", "abcd", "abcde"]);
    assert_eq!(got, vec!["abc", "abcd"]);
}

#[test]
fn found_words_hold_required_and_fit_bounds() {
    let mut config = Config::new().with_letters("abcdefg").with_present("fd");
    config.minimal_word_length = Some(3);
    config.maximal_word_length = Some(5);
    let got = solve(
        config,
        &["fad", "fade", "faded", "bead", "cafe", "deaf", "ad", "facade"],
    );
    assert_eq!(got, vec!["deaf", "fad", "fade", "faded"]);
    for w in &got {
        assert!(w.contains('f') && w.contains('d'));
        assert!(w.len() >= 3 && w.len() <= 5);
    }
}

#[test]
fn found_words_begin_with_leading_letter() {
    let mut config = Config::new().with_letters("Walrus").with_present("W");
    config.case_sensitive = Some(true);
    config.minimal_word_length = Some(3);
    let got = solve(config, &["wall", "laws", "slaw", "walrus", "awl", "was"]);
    assert_eq!(got, vec!["wall", "walrus", "was"]);
    for w in &got {
        assert!(w.starts_with('w'));
    }
}

#[test]
fn found_words_respect_repeat_cap() {
    let mut config = Config::new().with_letters("abl").with_present("a");
    config.minimal_word_length = Some(2);
    config.repeats = Some(2);
    let got = solve(config, &["aaa", "aab", "abba", "ball", "balla", "aa"]);
    assert_eq!(got, vec!["aa", "aab", "abba", "ball", "balla"]);
}

#[test]
fn start_only_letter_never_later() {
    let mut config = Config::new().with_letters("Wareo").with_present("a");
    config.case_sensitive = Some(true);
    config.minimal_word_length = Some(3);
    let got = solve(config, &["wore", "arrow", "awe", "area", "war", "wow"]);
    assert_eq!(got, vec!["area", "war"]);
    for w in &got {
        assert!(!w[1..].contains('w'));
    }
}

#[test]
fn same_search_twice_same_words() {
    let config = Config::new().with_letters("abcdefg").with_present("a");
    let solver = Solver::new(config);
    let dict = Dictionary::from_words(&["fade", "faced", "bead", "cafe", "face", "dab"]);
    let first = sorted(solver.solve(&dict).expect("Solver failed"));
    let second = sorted(solver.solve(&dict).expect("Solver failed"));
    assert_eq!(first, second);
    assert_eq!(first, vec!["bead", "cafe", "face", "faced", "fade"]);
}

#[test]
fn missing_letters_is_config_error() {
    let config = Config::new().with_present("a");
    let dict = Dictionary::from_words(&["abcd"]);
    let r = Solver::new(config).solve(&dict);
    assert!(matches!(r, Err(SbsError::ConfigError(_))));
}

#[test]
fn missing_present_is_config_error() {
    let config = Config::new().with_letters("abcd");
    let dict = Dictionary::from_words(&["abcd"]);
    let r = Solver::new(config).solve(&dict);
    assert!(matches!(r, Err(SbsError::ConfigError(_))));
}

#[test]
fn error_message_names_the_rule() {
    let mut config = Config::new().with_letters("ABcde").with_present("AB");
    config.case_sensitive = Some(true);
    let dict = Dictionary::from_words(&["abcd"]);
    let e = Solver::new(config).solve(&dict).unwrap_err();
    assert_eq!(
        e.to_string(),
        "Configuration error: At most one uppercase required letter allowed in case-sensitive mode"
    );
}

#[test]
fn empty_index_finds_nothing() {
    let config = Config::new().with_letters("abc").with_present("a");
    let dict = Dictionary::new();
    let r = Solver::new(config).solve(&dict).expect("Solver failed");
    assert!(r.is_empty());
}

#[test]
fn zero_repeat_cap_finds_nothing() {
    let mut config = Config::new().with_letters("abc").with_present("a");
    config.repeats = Some(0);
    config.minimal_word_length = Some(1);
    let got = solve(config, &["a", "ab", "abc"]);
    assert!(got.is_empty());
}

#[test]
fn empty_word_with_no_requirements() {
    let mut config = Config::new().with_letters("ab").with_present("");
    config.minimal_word_length = Some(0);
    let got = solve(config, &["", "ab", "c"]);
    assert_eq!(got, vec!["", "ab"]);
}

#[test]
fn required_letter_outside_letters_finds_nothing() {
    let config = Config::new().with_letters("abcdefg").with_present("z");
    let got = solve(config, &["faced", "zzzz"]);
    assert!(got.is_empty());
}

#[test]
fn duplicate_words_are_found_once() {
    let mut config = Config::new().with_letters("abc").with_present("a");
    config.minimal_word_length = Some(2);
    let dict = Dictionary::from_words(&["cab", "cab", "ab", "ab"]);
    let m = Solver::new(config).solve(&dict).expect("Solver failed");
    assert_eq!(m.len(), 2);
    assert_eq!(sorted(m), vec!["ab", "cab"]);
}

#[test]
fn uppercase_letters_lowered_without_case_sensitivity() {
    let mut config = Config::new().with_letters("ÀBC").with_present("À");
    config.minimal_word_length = Some(3);
    let got = solve(config, &["àbc", "abc", "bàc"]);
    assert_eq!(got, vec!["bàc", "àbc"]);
}

#[test]
fn constraint_sets_from_raw_strings() {
    let cs = ConstraintSet::derive("Wware", "Wl", true, 3, 9, Some(2)).unwrap();
    let mut allowed = cs.allowed.clone();
    allowed.sort();
    assert_eq!(allowed, vec!['a', 'e', 'r', 'w']);
    let mut anywhere = cs.anywhere.clone();
    anywhere.sort();
    assert_eq!(anywhere, vec!['a', 'e', 'r', 'w']);
    let mut required = cs.required.clone();
    required.sort();
    assert_eq!(required, vec!['l', 'w']);
    assert_eq!(cs.required_start, Some('w'));
    assert_eq!((cs.min_len, cs.max_len, cs.max_repeats), (3, 9, Some(2)));

    let cs = ConstraintSet::derive("Ware", "a", true, 4, 9, None).unwrap();
    let mut anywhere = cs.anywhere.clone();
    anywhere.sort();
    assert_eq!(anywhere, vec!['a', 'e', 'r']);
    assert_eq!(cs.required_start, None);

    let cs = ConstraintSet::derive("AbA", "B", false, 4, 9, None).unwrap();
    let mut allowed = cs.allowed.clone();
    allowed.sort();
    assert_eq!(allowed, vec!['a', 'b']);
    assert_eq!(cs.required, vec!['b']);
    assert_eq!(cs.required_start, None);
}

#[test]
fn word_source_lines_are_normalized() {
    assert_eq!(normalize_entry("  Hello \t"), Some("hello".to_string()));
    assert_eq!(normalize_entry("ÉCOLE"), Some("école".to_string()));
    assert_eq!(normalize_entry("it's"), None);
    assert_eq!(normalize_entry("   "), None);
    assert_eq!(normalize_entry("abc1"), None);
}

#[test]
fn index_from_word_source_lines() {
    let dict = Dictionary::from_lines(&[" Fade", "", "bad-word", "FACED ", "x2"]);
    let mut config = Config::new().with_letters("abcdefg").with_present("a");
    config.minimal_word_length = Some(1);
    let r = sorted(Solver::new(config).solve(&dict).expect("Solver failed"));
    assert_eq!(r, vec!["faced", "fade"]);
}

#[test]
fn configuration_starts_with_defaults() {
    let c = Config::new();
    assert!(c.letters.is_none() && c.present.is_none());
    assert_eq!(c.size, Some(7));
    assert_eq!(c.minimal_word_length, Some(4));
    assert_eq!(c.maximal_word_length, None);
    assert_eq!(c.repeats, None);
    assert_eq!(c.dictionary, "data/dictionary.txt");
    let d = Config::default();
    assert_eq!(d.dictionary, "data/dictionary.txt");
    let c = c.with_letters("xyz").with_present("y");
    assert_eq!(c.letters.as_deref(), Some("xyz"));
    assert_eq!(c.present.as_deref(), Some("y"));
    assert_eq!(c.size, Some(7));
}

#[test]
fn summary_keeps_confirmed_entries() {
    let mut s = ValidationSummary::start(3);
    s.record(Some(WordEntry {
        word: "apple".to_string(),
        definition: "A fruit".to_string(),
        url: "https://example.com/apple".to_string(),
    }));
    s.record(None);
    s.record(Some(WordEntry {
        word: "banana".to_string(),
        definition: "Another fruit".to_string(),
        url: "https://example.com/banana".to_string(),
    }));
    assert_eq!(s.candidates, 3);
    assert_eq!(s.validated, 2);
    assert_eq!(s.entries[0].word, "apple");
    assert_eq!(s.entries[1].word, "banana");
}

#[test]
fn unknown_validator_name_is_rejected() {
    let r = sbs::ValidatorKind::from_name("Wordnik");
    assert!(matches!(r, Err(SbsError::ValidationError(_))));
}

#[test]
fn dictionary_client_confirms_words() {
    let client = DictionaryClient::new(DictionaryConfig {
        id: "fd".to_string(),
        name: "Free".to_string(),
        api: "https://example.com".to_string(),
    });
    assert_eq!(client.validate("apple").unwrap(), true);
}

#[test]
fn marked_letters_give_constraints() {
    let letters = vec![(true, 'w'), (false, 'a'), (false, 'r'), (false, 'e'), (false, 'a')];
    let present = vec![(true, 'w'), (false, 'l')];
    let cs = ConstraintSet::from_marked(&letters, &present, 3, 8, Some(2)).unwrap();
    let mut allowed = cs.allowed.clone();
    allowed.sort();
    assert_eq!(allowed, vec!['a', 'e', 'r', 'w']);
    let mut anywhere = cs.anywhere.clone();
    anywhere.sort();
    assert_eq!(anywhere, vec!['a', 'e', 'r']);
    let mut required = cs.required.clone();
    required.sort();
    assert_eq!(required, vec!['l', 'w']);
    assert_eq!(cs.required_start, Some('w'));

    let two = vec![(true, 'a'), (false, 'c'), (true, 'b')];
    let r = ConstraintSet::from_marked(&letters, &two, 3, 8, None);
    assert!(matches!(r, Err(SbsError::ConfigError(_))));
}

#[test]
fn lowered_strings_give_constraints() {
    let cs = ConstraintSet::from_lowered("abca", "ca", 2, 5, None);
    let mut allowed = cs.allowed.clone();
    allowed.sort();
    assert_eq!(allowed, vec!['a', 'b', 'c']);
    assert_eq!(cs.allowed.len(), 3);
    let mut required = cs.required.clone();
    required.sort();
    assert_eq!(required, vec!['a', 'c']);
    assert_eq!(cs.required_start, None);
}

#[test]
fn request_strings_read_as_marks() {
    assert_eq!(
        mark_chars("WaÉ1"),
        vec![(true, 'w'), (false, 'a'), (true, 'é'), (false, '1')]
    );
}
