//! Tokens: the typed pieces of a line's word content.
//!
//! A token is either a maximal run of non-separator characters (a word) or a
//! single separator character. Concatenating the texts of a line's tokens in
//! order reproduces the line's word content exactly.

use vstd::prelude::*;
use crate::chars::is_separator_char;

verus! {

#[derive(Debug, Clone)]
pub enum Token {
    Word(String),
    Separator(char),
}

impl Token {
    /// The characters this token stands for in the original text.
    pub open spec fn text(self) -> Seq<char> {
        match self {
            Token::Word(w) => w@,
            Token::Separator(c) => seq![c],
        }
    }

    pub open spec fn is_word(self) -> bool {
        self matches Token::Word(_)
    }

    /// A word is non-empty and free of separators; a separator is one of the
    /// two delimiter characters.
    pub open spec fn wf(self) -> bool {
        match self {
            Token::Word(w) => w@.len() > 0 && (forall|i: int|
                0 <= i < w@.len() ==> !is_separator_char(w@[i])),
            Token::Separator(c) => is_separator_char(c),
        }
    }
}

/// The concatenation of the token texts, in order.
pub open spec fn tokens_text(ts: Seq<Token>) -> Seq<char>
    decreases ts.len(),
{
    if ts.len() == 0 {
        Seq::empty()
    } else {
        ts[0].text() + tokens_text(ts.drop_first())
    }
}

pub open spec fn all_wf(ts: Seq<Token>) -> bool {
    forall|i: int| 0 <= i < ts.len() ==> (#[trigger] ts[i]).wf()
}

pub open spec fn has_word(ts: Seq<Token>) -> bool {
    exists|i: int| 0 <= i < ts.len() && (#[trigger] ts[i]).is_word()
}

/// At least one character of `s` is not a separator.
pub open spec fn has_content(s: Seq<char>) -> bool {
    exists|j: int| 0 <= j < s.len() && !is_separator_char(#[trigger] s[j])
}

/// Words are maximal: two words never stand side by side.
pub open spec fn no_adjacent_words(ts: Seq<Token>) -> bool {
    forall|i: int|
        0 <= i < ts.len() - 1 ==> !((#[trigger] ts[i]).is_word() && ts[i + 1].is_word())
}

/// `ts` is the tokenization of `s`: well-formed maximal tokens whose texts
/// concatenate to `s`. This fixes every token's kind and text: words are cut
/// exactly at the separators.
pub open spec fn tokenization_of(ts: Seq<Token>, s: Seq<char>) -> bool {
    &&& all_wf(ts)
    &&& tokens_text(ts) == s
    &&& no_adjacent_words(ts)
}

/// Length of the leading run of non-separator characters of `s`.
pub open spec fn word_run(s: Seq<char>) -> nat
    decreases s.len(),
{
    if s.len() == 0 {
        0
    } else if is_separator_char(s[0]) {
        0
    } else {
        1 + word_run(s.drop_first())
    }
}

proof fn lemma_word_run(s: Seq<char>)
    ensures
        word_run(s) <= s.len(),
        forall|j: int| 0 <= j < word_run(s) ==> !is_separator_char(s[j]),
        word_run(s) < s.len() ==> is_separator_char(s[word_run(s) as int]),
    decreases s.len(),
{
    if s.len() > 0 && !is_separator_char(s[0]) {
        lemma_word_run(s.drop_first());
        let m = word_run(s);
        assert forall|j: int| 0 <= j < m implies !is_separator_char(s[j]) by {
            if j > 0 {
                assert(s[j] == s.drop_first()[j - 1]);
            }
        }
        if m < s.len() {
            assert(s[m as int] == s.drop_first()[m - 1]);
        }
    }
}

proof fn lemma_tokens_text_len_zero(ts: Seq<Token>)
    requires
        all_wf(ts),
        tokens_text(ts).len() == 0,
    ensures
        ts.len() == 0,
{
    if ts.len() > 0 {
        assert(ts[0].wf());
        assert(ts[0].text().len() >= 1);
        assert(tokens_text(ts).len() == ts[0].text().len() + tokens_text(ts.drop_first()).len());
    }
}

/// A non-empty text forces its head token: a separator character starts a
/// separator token, anything else starts a word token that runs to the next
/// separator; the remaining tokens tokenize the remaining text.
proof fn lemma_head_token(ts: Seq<Token>, s: Seq<char>)
    requires
        tokenization_of(ts, s),
        s.len() > 0,
    ensures
        ts.len() > 0,
        is_separator_char(s[0]) ==> !ts[0].is_word() && ts[0].text() == seq![s[0]]
            && tokenization_of(ts.drop_first(), s.skip(1)),
        !is_separator_char(s[0]) ==> ts[0].is_word() && ts[0].text() == s.take(word_run(s) as int)
            && tokenization_of(ts.drop_first(), s.skip(word_run(s) as int)),
{
    if ts.len() == 0 {
        lemma_tokens_text_len_zero(ts);
    }
    let tail = ts.drop_first();
    let rest = tokens_text(tail);
    assert(s == ts[0].text() + rest);
    assert forall|i: int| 0 <= i < tail.len() implies (#[trigger] tail[i]).wf() by {
        assert(tail[i] == ts[i + 1]);
    }
    assert forall|i: int| 0 <= i < tail.len() - 1 implies !((#[trigger] tail[i]).is_word()
        && tail[i + 1].is_word()) by {
        assert(tail[i] == ts[i + 1]);
        assert(tail[i + 1] == ts[i + 2]);
    }
    if is_separator_char(s[0]) {
        match ts[0] {
            Token::Word(w) => {
                assert(s[0] == w@[0]);
                assert(!is_separator_char(w@[0]));
            },
            Token::Separator(c) => {
                assert(s[0] == c);
                assert(rest =~= s.skip(1));
            },
        }
    } else {
        lemma_word_run(s);
        let m = word_run(s) as int;
        match ts[0] {
            Token::Separator(c) => {
                assert(s[0] == c);
                assert(ts[0].wf());
            },
            Token::Word(w) => {
                let k = w@.len() as int;
                assert(k >= 1);
                assert(forall|j: int| 0 <= j < k ==> s[j] == w@[j]);
                if k > m {
                    assert(m < s.len());
                    assert(is_separator_char(s[m]));
                    assert(!is_separator_char(w@[m]));
                }
                if k < m {
                    assert(!is_separator_char(s[k]));
                    assert(rest.len() > 0);
                    if tail.len() == 0 {
                        lemma_tokens_text_len_zero(tail);
                    }
                    assert(rest[0] == s[k]);
                    match tail[0] {
                        Token::Word(w2) => {
                            assert(tail[0] == ts[1]);
                            assert(ts[0].is_word() && ts[1].is_word());
                        },
                        Token::Separator(c2) => {
                            assert(rest == tail[0].text() + tokens_text(tail.drop_first()));
                            assert(rest[0] == c2);
                            assert(tail[0].wf());
                        },
                    }
                }
                assert(k == m);
                assert(w@ =~= s.take(m));
                assert(rest =~= s.skip(m));
            },
        }
    }
}

/// A text has only one tokenization: two token sequences that both tokenize
/// `s` agree in length and, token by token, in kind and text.
pub proof fn lemma_tokenization_unique(ts1: Seq<Token>, ts2: Seq<Token>, s: Seq<char>)
    requires
        tokenization_of(ts1, s),
        tokenization_of(ts2, s),
    ensures
        ts1.len() == ts2.len(),
        forall|i: int|
            0 <= i < ts1.len() ==> (#[trigger] ts1[i]).is_word() == ts2[i].is_word()
                && ts1[i].text() == ts2[i].text(),
    decreases s.len(),
{
    if s.len() == 0 {
        lemma_tokens_text_len_zero(ts1);
        lemma_tokens_text_len_zero(ts2);
    } else {
        lemma_head_token(ts1, s);
        lemma_head_token(ts2, s);
        if is_separator_char(s[0]) {
            lemma_tokenization_unique(ts1.drop_first(), ts2.drop_first(), s.skip(1));
        } else {
            lemma_word_run(s);
            assert(word_run(s) >= 1);
            lemma_tokenization_unique(
                ts1.drop_first(),
                ts2.drop_first(),
                s.skip(word_run(s) as int),
            );
        }
        assert(ts1.drop_first().len() == ts2.drop_first().len());
        assert forall|i: int| 0 <= i < ts1.len() implies (#[trigger] ts1[i]).is_word()
            == ts2[i].is_word() && ts1[i].text() == ts2[i].text() by {
            if i > 0 {
                assert(ts1[i] == ts1.drop_first()[i - 1]);
                assert(ts2[i] == ts2.drop_first()[i - 1]);
            }
        }
    }
}

pub proof fn lemma_no_adjacent_push(ts: Seq<Token>, t: Token)
    requires
        no_adjacent_words(ts),
        ts.len() > 0 && t.is_word() ==> !ts.last().is_word(),
    ensures
        no_adjacent_words(ts.push(t)),
{
    let p = ts.push(t);
    assert forall|i: int| 0 <= i < p.len() - 1 implies !((#[trigger] p[i]).is_word() && p[i
        + 1].is_word()) by {
        if i < ts.len() - 1 {
            assert(p[i] == ts[i]);
            assert(p[i + 1] == ts[i + 1]);
        } else {
            assert(i == ts.len() - 1);
            assert(p[i] == ts[i]);
            assert(p[i + 1] == t);
        }
    }
}

pub proof fn lemma_tokens_text_push(ts: Seq<Token>, t: Token)
    ensures
        tokens_text(ts.push(t)) == tokens_text(ts) + t.text(),
    decreases ts.len(),
{
    if ts.len() == 0 {
        assert(ts.push(t)[0] == t);
        assert(ts.push(t).drop_first() =~= Seq::<Token>::empty());
        assert(tokens_text(ts.push(t)) == t.text() + tokens_text(Seq::<Token>::empty()));
        assert(t.text() + Seq::<char>::empty() =~= t.text());
        assert(tokens_text(ts) + t.text() =~= t.text());
    } else {
        assert(ts.push(t).drop_first() =~= ts.drop_first().push(t));
        lemma_tokens_text_push(ts.drop_first(), t);
        assert(ts.push(t)[0] == ts[0]);
        assert(ts[0].text() + (tokens_text(ts.drop_first()) + t.text()) =~= (ts[0].text()
            + tokens_text(ts.drop_first())) + t.text());
    }
}

/// Among well-formed tokens, some token is a word exactly when the joint text
/// holds some non-separator character.
pub proof fn lemma_has_word_iff_content(ts: Seq<Token>)
    requires
        all_wf(ts),
    ensures
        has_word(ts) <==> has_content(tokens_text(ts)),
    decreases ts.len(),
{
    if ts.len() == 0 {
    } else {
        let tail = ts.drop_first();
        assert forall|i: int| 0 <= i < tail.len() implies (#[trigger] tail[i]).wf() by {
            assert(tail[i] == ts[i + 1]);
        }
        lemma_has_word_iff_content(tail);
        let head = ts[0];
        let text = tokens_text(ts);
        let rest = tokens_text(tail);
        assert(text == head.text() + rest);
        match head {
            Token::Word(w) => {
                assert(has_word(ts)) by {
                    assert((ts[0]).is_word());
                }
                assert(has_content(text)) by {
                    assert(text[0] == w@[0]);
                    assert(!is_separator_char(text[0]));
                }
            },
            Token::Separator(c) => {
                assert(head.text() =~= seq![c]);
                assert(text.len() == 1 + rest.len());
                assert(text[0] == c);
                assert(forall|j: int| 1 <= j < text.len() ==> text[j] == rest[j - 1]);
                assert(has_word(ts) <==> has_word(tail)) by {
                    if has_word(ts) {
                        let i = choose|i: int| 0 <= i < ts.len() && (#[trigger] ts[i]).is_word();
                        assert(ts[i].is_word());
                        assert(i != 0);
                        assert(tail[i - 1] == ts[i]);
                        assert(has_word(tail));
                    }
                    if has_word(tail) {
                        let i = choose|i: int|
                            0 <= i < tail.len() && (#[trigger] tail[i]).is_word();
                        assert(ts[i + 1] == tail[i]);
                        assert(has_word(ts));
                    }
                }
                assert(has_content(text) <==> has_content(rest)) by {
                    if has_content(text) {
                        let j = choose|j: int|
                            0 <= j < text.len() && !is_separator_char(#[trigger] text[j]);
                        assert(j != 0);
                        assert(rest[j - 1] == text[j]);
                        assert(has_content(rest));
                    }
                    if has_content(rest) {
                        let j = choose|j: int|
                            0 <= j < rest.len() && !is_separator_char(#[trigger] rest[j]);
                        assert(text[j + 1] == rest[j]);
                        assert(has_content(text));
                    }
                }
            },
        }
    }
}

} // verus!
