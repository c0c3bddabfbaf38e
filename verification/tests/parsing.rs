use spellcheck::entry::{render_corrected, ParseError, WordList};
use spellcheck::token::Token;

#[test]
fn tokenize_simple_line() {
    let tokens = WordList::parse_tokens("cet/dag");
    assert_eq!(tokens.len(), 3);
    assert!(matches!(&tokens[0], Token::Word(w) if w == "cet"));
    assert!(matches!(&tokens[1], Token::Separator('/')));
    assert!(matches!(&tokens[2], Token::Word(w) if w == "dag"));
}

#[test]
fn tokenize_empty_content() {
    let tokens = WordList::parse_tokens("");
    assert_eq!(tokens.len(), 0);
}

#[test]
fn tokenize_separators_only() {
    let tokens = WordList::parse_tokens(" / ");
    assert_eq!(tokens.len(), 3);
    assert!(matches!(&tokens[0], Token::Separator(' ')));
    assert!(matches!(&tokens[1], Token::Separator('/')));
    assert!(matches!(&tokens[2], Token::Separator(' ')));
}

#[test]
fn round_trip_preserves_layout() {
    let line = "0001 a  b//c x";
    let entry = WordList::parse_line(1, line).unwrap();
    assert_eq!(entry.render(), line);
}

#[test]
fn round_trip_trailing_separator() {
    let line = "0002 cat/dog/";
    let entry = WordList::parse_line(1, line).unwrap();
    assert_eq!(entry.render(), line);
}

#[test]
fn rejects_short_line() {
    let err = WordList::parse_line(1, "12").unwrap_err();
    assert_eq!(err, ParseError::TooShort { line_number: 1, text: "12".to_string() });
}

#[test]
fn rejects_four_char_line() {
    let err = WordList::parse_line(7, "1234").unwrap_err();
    assert_eq!(err, ParseError::TooShort { line_number: 7, text: "1234".to_string() });
}

#[test]
fn rejects_non_digit_id() {
    let err = WordList::parse_line(1, "12ab hello").unwrap_err();
    assert_eq!(err, ParseError::InvalidId { line_number: 1, text: "12ab".to_string() });
}

#[test]
fn rejects_content_free_line() {
    let err = WordList::parse_line(1, "1234 / /").unwrap_err();
    assert_eq!(err, ParseError::NoValidWords { line_number: 1, text: "1234 / /".to_string() });
}

#[test]
fn rejects_empty_content() {
    let err = WordList::parse_line(3, "1234 ").unwrap_err();
    assert_eq!(err, ParseError::NoValidWords { line_number: 3, text: "1234 ".to_string() });
}

#[test]
fn fifth_character_is_skipped_not_validated() {
    let entry = WordList::parse_line(1, "0001xcat").unwrap();
    assert_eq!(entry.id, "0001");
    assert_eq!(entry.render(), "0001 cat");
}

#[test]
fn parse_content_collects_entries_in_order() {
    let entries = WordList::parse_content("0001 cat\n0002 dog\n").unwrap();
    assert_eq!(entries.len(), 2);
    assert_eq!(entries[0].id, "0001");
    assert_eq!(entries[1].id, "0002");
}

#[test]
fn parse_content_trims_lines() {
    let entries = WordList::parse_content("  0001 cat  \n").unwrap();
    assert_eq!(entries.len(), 1);
    assert_eq!(entries[0].render(), "0001 cat");
}

#[test]
fn parse_content_empty_input() {
    let err = WordList::parse_content("").unwrap_err();
    assert_eq!(err, ParseError::EmptyFile);
}

#[test]
fn parse_content_blank_only_input() {
    let err = WordList::parse_content("   \n\t\n \n").unwrap_err();
    assert_eq!(err, ParseError::EmptyFile);
}

#[test]
fn blank_lines_are_tolerated() {
    let with_blanks = WordList::parse_content("0001 cat\n\n\n0002 dog\n\n").unwrap();
    let without = WordList::parse_content("0001 cat\n0002 dog").unwrap();
    assert_eq!(with_blanks.len(), without.len());
    for (a, b) in with_blanks.iter().zip(without.iter()) {
        assert_eq!(a.render(), b.render());
    }
}

#[test]
fn error_line_numbers_count_blank_lines() {
    let err = WordList::parse_content("\n\n12\n").unwrap_err();
    assert_eq!(err, ParseError::TooShort { line_number: 3, text: "12".to_string() });
}

#[test]
fn first_bad_line_wins() {
    let err = WordList::parse_content("0001 cat\nxxxx oops\n12\n").unwrap_err();
    assert_eq!(err, ParseError::InvalidId { line_number: 2, text: "xxxx".to_string() });
}

#[test]
fn render_corrected_appends_newline_after_every_entry() {
    let entries = WordList::parse_content("0001 cat\n0002 dog/fox\n").unwrap();
    let out = render_corrected(&entries);
    assert_eq!(out, "0001 cat\n0002 dog/fox\n");
}
