//! Entries: one parsed line of the word file, and the parser that builds them.
//!
//! A raw line is `DDDD<sep><word content>`: a four-digit identifier, one
//! skipped character, and then words separated by spaces and slashes. The
//! parser keeps the separators as tokens so that the corrected entry can be
//! written back in exactly the original layout.

use vstd::prelude::*;
use crate::chars::{digit_char, is_digit_char, is_separator_char, separator_char};
use crate::lines::{numbered_clean, split_lines, split_to_lines, str_views, trim, trim_str};
use crate::token::{
    all_wf, has_content, has_word, lemma_has_word_iff_content, lemma_no_adjacent_push,
    lemma_tokens_text_push, no_adjacent_words, tokenization_of, tokens_text, Token,
};

verus! {

/// Why a line, or a whole file, was rejected.
#[derive(Debug, Clone, PartialEq)]
pub enum ParseError {
    /// The line has fewer than five characters.
    TooShort { line_number: usize, text: String },
    /// The first four characters are not all ASCII digits.
    InvalidId { line_number: usize, text: String },
    /// The word content holds separators only.
    NoValidWords { line_number: usize, text: String },
    /// No non-blank line was left to parse.
    EmptyFile,
}

/// One parsed entry: its four-digit identifier and its token sequence.
#[derive(Debug)]
pub struct WordList {
    pub id: String,
    pub tokens: Vec<Token>,
}

/// The first four characters are ASCII digits.
pub open spec fn id_ok(l: Seq<char>) -> bool {
    forall|i: int| 0 <= i < 4 ==> is_digit_char(#[trigger] l[i])
}

/// A trimmed line that parses: long enough, digit identifier, and at least
/// one word character after position 4.
pub open spec fn line_ok(l: Seq<char>) -> bool {
    l.len() >= 5 && id_ok(l) && has_content(l.skip(5))
}

/// `e` is exactly the error that line `l`, standing at 1-based position
/// `number`, is rejected with. The checks run in a fixed order and the first
/// failure wins.
pub open spec fn parse_error_of_line(e: ParseError, number: int, l: Seq<char>) -> bool {
    match e {
        ParseError::TooShort { line_number, text } => l.len() < 5 && line_number as int == number
            && text@ == l,
        ParseError::InvalidId { line_number, text } => l.len() >= 5 && !id_ok(l) && line_number
            as int == number && text@ == l.subrange(0, 4),
        ParseError::NoValidWords { line_number, text } => l.len() >= 5 && id_ok(l) && !has_content(
            l.skip(5),
        ) && line_number as int == number && text@ == l,
        ParseError::EmptyFile => false,
    }
}

impl WordList {
    pub open spec fn wf(self) -> bool {
        &&& self.id@.len() == 4
        &&& (forall|i: int| 0 <= i < 4 ==> is_digit_char(#[trigger] self.id@[i]))
        &&& all_wf(self.tokens@)
        &&& has_word(self.tokens@)
    }

    /// The text this entry serializes to: the identifier, one space, then
    /// every token's text in order.
    pub open spec fn rendered(self) -> Seq<char> {
        self.id@ + seq![' '] + tokens_text(self.tokens@)
    }

    /// Split word content into word and separator tokens; concatenating the
    /// tokens' texts in order gives back `words_part` exactly.
    pub fn parse_tokens(words_part: &str) -> (r: Vec<Token>)
        ensures
            tokenization_of(r@, words_part@),
    {
        let s = words_part;
        let n = s.unicode_len();
        let mut tokens: Vec<Token> = Vec::new();
        let mut wstart: usize = 0;
        let mut i: usize = 0;
        proof {
            assert(tokens_text(tokens@) =~= s@.take(0));
        }
        while i < n
            invariant
                0 <= wstart <= i <= n,
                n == s@.len(),
                all_wf(tokens@),
                no_adjacent_words(tokens@),
                tokens@.len() > 0 ==> !tokens@.last().is_word(),
                tokens_text(tokens@) == s@.take(wstart as int),
                forall|j: int| wstart <= j < i ==> !is_separator_char(#[trigger] s@[j]),
            decreases n - i,
        {
            let c = s.get_char(i);
            if separator_char(c) {
                if wstart < i {
                    let word = s.substring_char(wstart, i).to_owned();
                    proof {
                        let t = Token::Word(word);
                        assert(t.wf());
                        lemma_no_adjacent_push(tokens@, t);
                        lemma_tokens_text_push(tokens@, t);
                        assert(s@.take(wstart as int) + s@.subrange(wstart as int, i as int) =~= s@.take(i as int));
                    }
                    tokens.push(Token::Word(word));
                }
                proof {
                    let t = Token::Separator(c);
                    assert(t.wf());
                    lemma_no_adjacent_push(tokens@, t);
                    lemma_tokens_text_push(tokens@, t);
                    assert(s@.take(i as int) + seq![c] =~= s@.take(i + 1));
                }
                tokens.push(Token::Separator(c));
                wstart = i + 1;
            }
            i = i + 1;
        }
        if wstart < n {
            let word = s.substring_char(wstart, n).to_owned();
            proof {
                let t = Token::Word(word);
                assert(t.wf());
                lemma_no_adjacent_push(tokens@, t);
                lemma_tokens_text_push(tokens@, t);
                assert(s@.take(wstart as int) + s@.subrange(wstart as int, n as int) =~= s@.take(n as int));
            }
            tokens.push(Token::Word(word));
        }
        proof {
            assert(s@.take(n as int) =~= s@);
        }
        tokens
    }

    /// Parse one trimmed line under its 1-based position in the file.
    ///
    /// The checks run in a fixed order and the first failure wins: length,
    /// then the digit identifier, then the presence of at least one word.
    pub fn parse_line(line_number: usize, line: &str) -> (r: Result<WordList, ParseError>)
        ensures
            ({
                let l = line@;
                match r {
                    Ok(wl) => line_ok(l) && wl.wf() && wl.id@ == l.subrange(0, 4)
                        && tokenization_of(wl.tokens@, l.skip(5)),
                    Err(e) => parse_error_of_line(e, line_number as int, l),
                }
            }),
    {
        let n = line.unicode_len();
        if n < 5 {
            return Err(ParseError::TooShort { line_number, text: line.to_owned() });
        }
        let id = line.substring_char(0, 4).to_owned();
        let mut all_digits = true;
        let mut k: usize = 0;
        while k < 4
            invariant
                0 <= k <= 4,
                n >= 5,
                n == line@.len(),
                all_digits == (forall|j: int| 0 <= j < k ==> is_digit_char(#[trigger] line@[j])),
            decreases 4 - k,
        {
            let d = digit_char(line.get_char(k));
            proof {
                if all_digits && d {
                    assert(forall|j: int| 0 <= j < k + 1 ==> is_digit_char(#[trigger] line@[j]));
                }
                if !all_digits {
                    let j = choose|j: int| 0 <= j < k && !is_digit_char(#[trigger] line@[j]);
                    assert(!is_digit_char(line@[j]));
                }
            }
            all_digits = all_digits && d;
            k = k + 1;
        }
        if !all_digits {
            return Err(ParseError::InvalidId { line_number, text: id });
        }
        let words_part = line.substring_char(5, n);
        let tokens = Self::parse_tokens(words_part);
        proof {
            assert(words_part@ =~= line@.skip(5));
        }
        let mut has_w = false;
        let mut k2: usize = 0;
        while k2 < tokens.len()
            invariant
                0 <= k2 <= tokens@.len(),
                has_w == (exists|i: int| 0 <= i < k2 && (#[trigger] tokens@[i]).is_word()),
            decreases tokens@.len() - k2,
        {
            let is_w = match &tokens[k2] {
                Token::Word(_) => true,
                Token::Separator(_) => false,
            };
            proof {
                if is_w {
                    assert(tokens@[k2 as int].is_word());
                }
                if has_w {
                    let i = choose|i: int| 0 <= i < k2 && (#[trigger] tokens@[i]).is_word();
                    assert(0 <= i < k2 + 1 && tokens@[i].is_word());
                }
            }
            has_w = has_w || is_w;
            k2 = k2 + 1;
        }
        proof {
            assert(has_w == has_word(tokens@));
            lemma_has_word_iff_content(tokens@);
        }
        if !has_w {
            return Err(ParseError::NoValidWords { line_number, text: line.to_owned() });
        }
        proof {
            assert(id@ == line@.subrange(0, 4));
            assert(forall|i: int| 0 <= i < 4 ==> is_digit_char(#[trigger] id@[i]));
        }
        Ok(WordList { id, tokens })
    }

    /// Parse a whole entry file. Every trimmed non-blank line must parse, in
    /// order, and at least one entry must come out; the first bad line wins.
    pub fn parse_content(content: &str) -> (r: Result<Vec<WordList>, ParseError>)
        ensures
            ({
                let pairs = entry_lines(content@);
                match r {
                    Ok(es) => {
                        &&& pairs.len() > 0
                        &&& es@.len() == pairs.len()
                        &&& (forall|k: int|
                            0 <= k < pairs.len() ==> line_ok((#[trigger] pairs[k]).1))
                        &&& (forall|k: int|
                            0 <= k < pairs.len() ==> (#[trigger] es@[k]).wf() && es@[k].id@
                                == pairs[k].1.subrange(0, 4) && tokenization_of(
                                es@[k].tokens@,
                                pairs[k].1.skip(5),
                            ))
                    },
                    Err(ParseError::EmptyFile) => pairs.len() == 0,
                    Err(e) => exists|k: int|
                        #![auto]
                        first_bad_at(pairs, k) && parse_error_of_line(e, pairs[k].0, pairs[k].1),
                }
            }),
    {
        let lines = split_to_lines(content);
        let ghost lv = str_views(lines@);
        let ghost pairs = numbered_clean(lv, 1);
        let mut entries: Vec<WordList> = Vec::new();
        let ghost mut done = numbered_clean(lv.take(0), 1);
        let mut k: usize = 0;
        proof {
            assert(lv.take(0) =~= Seq::<Seq<char>>::empty());
            assert(done =~= Seq::<(int, Seq<char>)>::empty());
        }
        while k < lines.len()
            invariant
                0 <= k <= lines@.len(),
                lv == str_views(lines@),
                lv == split_lines(content@),
                pairs == numbered_clean(lv, 1),
                done == numbered_clean(lv.take(k as int), 1),
                entries@.len() == done.len(),
                forall|i: int| 0 <= i < done.len() ==> line_ok((#[trigger] done[i]).1),
                forall|i: int|
                    0 <= i < done.len() ==> (#[trigger] entries@[i]).wf() && entries@[i].id@
                        == done[i].1.subrange(0, 4) && tokenization_of(
                        entries@[i].tokens@,
                        done[i].1.skip(5),
                    ),
            decreases lines@.len() - k,
        {
            let line_ref = &lines[k];
            let trimmed = trim_str(line_ref.as_str());
            proof {
                assert(lv[k as int] == lines@[k as int]@);
                assert(trimmed@ == trim(lv[k as int]));
                assert(lv.take(k + 1) =~= lv.take(k as int) + seq![lv[k as int]]);
                crate::lines::lemma_numbered_clean_concat(
                    lv.take(k as int),
                    seq![lv[k as int]],
                    1,
                );
                crate::lines::lemma_numbered_clean_one(lv[k as int], 1 + k as int);
                assert(lv.take(k as int).len() == k as int);
            }
            if trimmed.unicode_len() > 0 {
                let ln = k + 1;
                let parsed = Self::parse_line(ln, trimmed);
                proof {
                    let contribution = seq![(1 + k as int, trim(lv[k as int]))];
                    assert(numbered_clean(lv.take(k + 1), 1) == done + contribution);
                }
                match parsed {
                    Ok(wl) => {
                        entries.push(wl);
                        proof {
                            done = done.push((1 + k as int, trim(lv[k as int])));
                            assert(numbered_clean(lv.take(k + 1), 1) =~= done);
                        }
                    },
                    Err(e) => {
                        proof {
                            let kb = done.len() as int;
                            assert(lv =~= lv.take(k as int) + lv.skip(k as int));
                            crate::lines::lemma_numbered_clean_concat(
                                lv.take(k as int),
                                lv.skip(k as int),
                                1,
                            );
                            assert(lv.skip(k as int) =~= seq![lv[k as int]] + lv.skip(k + 1));
                            crate::lines::lemma_numbered_clean_concat(
                                seq![lv[k as int]],
                                lv.skip(k + 1),
                                1 + k as int,
                            );
                            let contribution = seq![(1 + k as int, trim(lv[k as int]))];
                            assert(numbered_clean(lv.skip(k as int), 1 + k as int) == contribution
                                + numbered_clean(lv.skip(k + 1), 1 + k as int + 1));
                            assert(pairs == done + numbered_clean(lv.skip(k as int), 1 + k as int));
                            assert(pairs[kb] == (1 + k as int, trim(lv[k as int])));
                            assert(forall|m: int| 0 <= m < kb ==> pairs[m] == done[m]);
                            assert(!line_ok(trim(lv[k as int])));
                            assert(first_bad_at(pairs, kb));
                            assert(pairs[kb].1 == trimmed@);
                            assert(pairs[kb].0 == ln as int);
                            assert(parse_error_of_line(e, ln as int, trimmed@));
                            assert(parse_error_of_line(e, pairs[kb].0, pairs[kb].1));
                            assert(!(e matches ParseError::EmptyFile));
                            assert(pairs == entry_lines(content@));
                            assert(exists|kk: int|
                                #![auto]
                                first_bad_at(entry_lines(content@), kk) && parse_error_of_line(
                                    e,
                                    entry_lines(content@)[kk].0,
                                    entry_lines(content@)[kk].1,
                                ));
                        }
                        return Err(e);
                    },
                }
            } else {
                proof {
                    assert(numbered_clean(lv.take(k + 1), 1) =~= done);
                    done = numbered_clean(lv.take(k + 1), 1);
                }
            }
            k = k + 1;
        }
        proof {
            assert(lv.take(lines@.len() as int) =~= lv);
        }
        if entries.len() == 0 {
            return Err(ParseError::EmptyFile);
        }
        Ok(entries)
    }

    /// Serialize this entry: the identifier, a space, then every token.
    pub fn render(&self) -> (r: String)
        ensures
            r@ == self.rendered(),
    {
        let mut out = self.id.clone();
        push_char(&mut out, ' ');
        proof {
            assert(self.tokens@.take(0) =~= Seq::<Token>::empty());
            assert(out@ =~= self.id@ + seq![' '] + tokens_text(self.tokens@.take(0)));
        }
        let mut i: usize = 0;
        while i < self.tokens.len()
            invariant
                0 <= i <= self.tokens@.len(),
                out@ == self.id@ + seq![' '] + tokens_text(self.tokens@.take(i as int)),
            decreases self.tokens@.len() - i,
        {
            proof {
                lemma_tokens_text_push(self.tokens@.take(i as int), self.tokens@[i as int]);
                assert(self.tokens@.take(i + 1) =~= self.tokens@.take(i as int).push(
                    self.tokens@[i as int],
                ));
            }
            match &self.tokens[i] {
                Token::Word(w) => out.append(w.as_str()),
                Token::Separator(c) => push_char(&mut out, *c),
            }
            proof {
                assert(out@ =~= self.id@ + seq![' '] + tokens_text(self.tokens@.take(i + 1)));
            }
            i = i + 1;
        }
        proof {
            assert(self.tokens@.take(self.tokens@.len() as int) =~= self.tokens@);
        }
        out
    }
}

/// Round trip: parsing keeps every character of the line. An entry parsed
/// from a line whose fifth character is the expected space renders back to
/// exactly that line: the tokens reproduce the word content, separators
/// included, and the identifier and the space come first.
pub proof fn lemma_parse_render_round_trip(wl: WordList, l: Seq<char>)
    requires
        l.len() >= 5,
        l[4] == ' ',
        wl.id@ == l.subrange(0, 4),
        tokenization_of(wl.tokens@, l.skip(5)),
    ensures
        wl.rendered() == l,
{
    assert(wl.rendered() =~= l);
}

/// The trimmed non-blank lines of the entry file, each under its original
/// 1-based line position.
pub open spec fn entry_lines(content: Seq<char>) -> Seq<(int, Seq<char>)> {
    numbered_clean(split_lines(content), 1)
}

/// `k` indexes the first line that does not parse.
pub open spec fn first_bad_at(pairs: Seq<(int, Seq<char>)>, k: int) -> bool {
    &&& 0 <= k < pairs.len()
    &&& !line_ok(pairs[k].1)
    &&& forall|m: int| 0 <= m < k ==> line_ok((#[trigger] pairs[m]).1)
}

/// Relies on String::push: appends exactly the one character.
#[verifier::external_body]
fn push_char(s: &mut String, c: char)
    ensures
        final(s)@ == old(s)@.push(c),
{
    s.push(c);
}

/// The serialized output: every entry's rendering, each followed by a newline.
pub open spec fn rendered_lines(es: Seq<WordList>) -> Seq<char>
    decreases es.len(),
{
    if es.len() == 0 {
        Seq::empty()
    } else {
        es[0].rendered() + seq!['\n'] + rendered_lines(es.drop_first())
    }
}

proof fn lemma_rendered_lines_push(es: Seq<WordList>, e: WordList)
    ensures
        rendered_lines(es.push(e)) == rendered_lines(es) + e.rendered() + seq!['\n'],
    decreases es.len(),
{
    if es.len() == 0 {
        assert(es.push(e)[0] == e);
        assert(es.push(e).drop_first() =~= Seq::<WordList>::empty());
        assert(rendered_lines(es.push(e)) == e.rendered() + seq!['\n'] + rendered_lines(
            Seq::<WordList>::empty(),
        ));
        assert(e.rendered() + seq!['\n'] + Seq::<char>::empty() =~= e.rendered() + seq!['\n']);
        assert(rendered_lines(es) + e.rendered() + seq!['\n'] =~= e.rendered() + seq!['\n']);
    } else {
        assert(es.push(e).drop_first() =~= es.drop_first().push(e));
        lemma_rendered_lines_push(es.drop_first(), e);
        assert(es.push(e)[0] == es[0]);
        assert(es[0].rendered() + seq!['\n'] + (rendered_lines(es.drop_first()) + e.rendered()
            + seq!['\n']) =~= (es[0].rendered() + seq!['\n'] + rendered_lines(es.drop_first()))
            + e.rendered() + seq!['\n']);
    }
}

/// Serialize a whole run of corrected entries, one line each, every line
/// closed by a newline.
pub fn render_corrected(entries: &Vec<WordList>) -> (r: String)
    ensures
        r@ == rendered_lines(entries@),
{
    let mut out = String::new();
    proof {
        assert(entries@.take(0) =~= Seq::<WordList>::empty());
        assert(out@ =~= rendered_lines(entries@.take(0)));
    }
    let mut i: usize = 0;
    while i < entries.len()
        invariant
            0 <= i <= entries@.len(),
            out@ == rendered_lines(entries@.take(i as int)),
        decreases entries@.len() - i,
    {
        proof {
            lemma_rendered_lines_push(entries@.take(i as int), entries@[i as int]);
            assert(entries@.take(i + 1) =~= entries@.take(i as int).push(entries@[i as int]));
        }
        let e = &entries[i];
        let line = e.render();
        out.append(line.as_str());
        push_char(&mut out, '\n');
        proof {
            assert(out@ =~= rendered_lines(entries@.take(i + 1)));
        }
        i = i + 1;
    }
    proof {
        assert(entries@.take(entries@.len() as int) =~= entries@);
    }
    out
}

} // verus!
