use root_frequency_counter::corpus::{build_corpus, tokenize_line, Corpus};
use root_frequency_counter::matcher::{count_range, match_root, starts_with};
use root_frequency_counter::roots::build_root_set;

fn strings(items: &[&str]) -> Vec<String> {
    items.iter().map(|s| s.to_string()).collect()
}

#[test]
fn root_set_is_sorted_by_length_then_lex() {
    let rs = build_root_set(&strings(&["run", "running", "jump"]));
    assert_eq!(rs.roots, strings(&["running", "jump", "run"]));
}

#[test]
fn root_set_ties_break_alphabetically() {
    let rs = build_root_set(&strings(&["bat", "art", "cat", "be"]));
    assert_eq!(rs.roots, strings(&["art", "bat", "cat", "be"]));
}

#[test]
fn root_set_build_is_idempotent() {
    let once = build_root_set(&strings(&["a", "bb", "ab", "b", "bb"]));
    let twice = build_root_set(&once.roots);
    assert_eq!(once.roots, twice.roots);
}

#[test]
fn root_set_keeps_duplicates_and_empty_lines() {
    let rs = build_root_set(&strings(&["run", "", "run"]));
    assert_eq!(rs.roots, strings(&["run", "run", ""]));
}

#[test]
fn empty_root_collects_otherwise_unmatched_words() {
    let rs = build_root_set(&strings(&["run", ""]));
    let corpus = Corpus { words: strings(&["runner", "fly", "jumps"]) };
    let pc = count_range(&rs, &corpus, 0, 3);
    // Order is ["run", ""]: the empty root is every word's fallback.
    assert_eq!(pc.counts, vec![1, 2]);
}

#[test]
fn starts_with_is_prefix_match() {
    assert!(starts_with("running", "run"));
    assert!(starts_with("run", "run"));
    assert!(starts_with("anything", ""));
    assert!(!starts_with("run", "running"));
    assert!(!starts_with("Running", "run"));
}

#[test]
fn word_matches_first_root_in_order() {
    let rs = build_root_set(&strings(&["run", "running", "jump"]));
    // Order is ["running", "jump", "run"].
    assert_eq!(match_root(&rs, "running"), Some(0));
    assert_eq!(match_root(&rs, "runner"), Some(2));
    assert_eq!(match_root(&rs, "jumps"), Some(1));
    assert_eq!(match_root(&rs, "fly"), None);
}

#[test]
fn longest_root_wins() {
    let rs = build_root_set(&strings(&["r", "ru", "run"]));
    // Order is ["run", "ru", "r"]: the most specific prefix is chosen.
    assert_eq!(match_root(&rs, "running"), Some(0));
    assert_eq!(match_root(&rs, "rust"), Some(1));
    assert_eq!(match_root(&rs, "red"), Some(2));
}

#[test]
fn duplicate_roots_collapse_to_first_slot() {
    let rs = build_root_set(&strings(&["run", "run"]));
    let corpus = Corpus { words: strings(&["runner", "running"]) };
    let pc = count_range(&rs, &corpus, 0, 2);
    assert_eq!(pc.counts, vec![2, 0]);
}

#[test]
fn tokenize_splits_on_whitespace_runs() {
    assert_eq!(tokenize_line("running runner\tjumps"), strings(&["running", "runner", "jumps"]));
    assert_eq!(tokenize_line("  spaced   out  "), strings(&["spaced", "out"]));
    assert_eq!(tokenize_line(""), Vec::<String>::new());
    assert_eq!(tokenize_line(" \t "), Vec::<String>::new());
}

#[test]
fn tokenize_treats_unicode_whitespace_as_a_separator() {
    // U+00A0 (no-break space) and U+2003 (em space) have the Unicode
    // White_Space property; U+00B7 (middle dot) does not.
    assert_eq!(tokenize_line("a\u{00A0}b\u{2003}c"), strings(&["a", "b", "c"]));
    assert_eq!(tokenize_line("a\u{00B7}b"), strings(&["a\u{00B7}b"]));
}

#[test]
fn corpus_keeps_words_in_line_order() {
    let corpus = build_corpus(&strings(&["running runner", "", "jumps  jumping", "fly"]));
    assert_eq!(corpus.words, strings(&["running", "runner", "jumps", "jumping", "fly"]));
}

#[test]
fn count_range_tallies_one_chunk() {
    let rs = build_root_set(&strings(&["run", "running", "jump"]));
    let corpus = Corpus { words: strings(&["running", "runner", "jumps", "jumping", "fly"]) };
    let pc = count_range(&rs, &corpus, 0, 5);
    // Slots follow root-set order ["running", "jump", "run"].
    assert_eq!(pc.counts, vec![1, 2, 1]);
    assert_eq!(pc.words_seen, 5);
}

#[test]
fn count_range_of_empty_chunk_is_all_zero() {
    let rs = build_root_set(&strings(&["run", "jump"]));
    let corpus = Corpus { words: strings(&["running"]) };
    let pc = count_range(&rs, &corpus, 1, 1);
    assert_eq!(pc.counts, vec![0, 0]);
    assert_eq!(pc.words_seen, 0);
}
