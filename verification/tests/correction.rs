use spellcheck::checker::{SpellChecker, VocabularyError};
use spellcheck::entry::{render_corrected, WordList};
use spellcheck::token::Token;

#[test]
fn empty_vocabulary_fails() {
    let err = SpellChecker::new("\n   \n\t\n").unwrap_err();
    assert_eq!(err, VocabularyError::EmptyVocabulary);
}

#[test]
fn membership_is_exact() {
    let checker = SpellChecker::new("dog\ncat\ncart\n").unwrap();
    assert!(checker.contains_word("cat"));
    assert!(checker.contains_word("cart"));
    assert!(checker.contains_word("dog"));
    assert!(!checker.contains_word("cet"));
    assert!(!checker.contains_word("car"));
    assert!(!checker.contains_word("Cat"));
    assert!(!checker.contains_word(""));
}

#[test]
fn membership_tolerates_duplicates() {
    let checker = SpellChecker::new("cat\ncat\ndog\n").unwrap();
    assert!(checker.contains_word("cat"));
    assert!(!checker.contains_word("cart"));
}

#[test]
fn known_word_passes_through() {
    let checker = SpellChecker::new("cat\ndog\ncart\n").unwrap();
    assert_eq!(checker.correct_word("cat"), "cat");
    assert_eq!(checker.correct_word("dog"), "dog");
}

#[test]
fn nearest_word_within_one_edit_wins() {
    let checker = SpellChecker::new("cat\ndog\ncart\n").unwrap();
    assert_eq!(checker.correct_word("cet"), "cat");
    assert_eq!(checker.correct_word("dag"), "dog");
}

#[test]
fn ties_keep_the_lexicographically_smallest() {
    let checker = SpellChecker::new("ab\naa\n").unwrap();
    assert_eq!(checker.correct_word("ac"), "aa");
}

#[test]
fn global_minimum_without_close_candidate() {
    let checker = SpellChecker::new("xy\nabcd\n").unwrap();
    assert_eq!(checker.correct_word("ab"), "abcd");
}

#[test]
fn distance_is_computed_over_whole_words() {
    let checker = SpellChecker::new("sitting\nxxxxxxxxxx\n").unwrap();
    assert_eq!(checker.correct_word("kitten"), "sitting");
}

#[test]
fn single_entry_vocabulary_always_answers() {
    let checker = SpellChecker::new("dog\n").unwrap();
    assert_eq!(checker.correct_word("cat"), "dog");
}

#[test]
fn correcting_entry_keeps_id_and_separators() {
    let checker = SpellChecker::new("cat\ndog\ncart\n").unwrap();
    let entry = WordList::parse_line(1, "0001 cet/dag").unwrap();
    assert!(matches!(&entry.tokens[0], Token::Word(w) if w == "cet"));
    assert!(matches!(&entry.tokens[1], Token::Separator('/')));
    assert!(matches!(&entry.tokens[2], Token::Word(w) if w == "dag"));
    let corrected = checker.correct_word_list(&entry);
    assert_eq!(corrected.id, "0001");
    assert_eq!(corrected.tokens.len(), 3);
    assert_eq!(corrected.render(), "0001 cat/dog");
}

#[test]
fn end_to_end_single_line() {
    let checker = SpellChecker::new("cat\ndog\ncart\n").unwrap();
    let entries = WordList::parse_content("0001 cet/dag\n").unwrap();
    let corrected: Vec<WordList> =
        entries.iter().map(|e| checker.correct_word_list(e)).collect();
    assert_eq!(render_corrected(&corrected), "0001 cat/dog\n");
}

#[test]
fn repeated_calls_agree() {
    let checker = SpellChecker::new("cat\ndog\ncart\n").unwrap();
    let first = checker.correct_word("cet");
    let second = checker.correct_word("cet");
    assert_eq!(first, second);
}

#[test]
fn vocabulary_order_in_file_does_not_matter() {
    let a = SpellChecker::new("cart\ncat\ndog\n").unwrap();
    let b = SpellChecker::new("dog\ncart\ncat\n").unwrap();
    assert_eq!(a.correct_word("cet"), b.correct_word("cet"));
    assert_eq!(a.correct_word("ca"), b.correct_word("ca"));
}
