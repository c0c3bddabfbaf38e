//! The spell checker: a sorted vocabulary with exact lookup and
//! nearest-word correction under edit distance.

use vstd::prelude::*;
use crate::distance::{edit_distance, lemma_edit_distance_zero, levenshtein_distance};
use crate::entry::WordList;
use crate::lines::{cleaned, split_lines, split_to_lines, str_views, trim};
use crate::lines::{lemma_cleaned_concat, lemma_cleaned_one, trim_str};
use crate::order::{
    lemma_str_le_antisymmetric, lemma_str_le_total, lemma_str_le_transitive, str_compare, str_le,
};
use crate::token::Token;

verus! {

broadcast use vstd::seq_lib::group_to_multiset_ensures;

/// Why the vocabulary could not be built.
#[derive(Debug, Clone, PartialEq)]
pub enum VocabularyError {
    /// The vocabulary file holds no non-blank line.
    EmptyVocabulary,
}

/// The usable words of the vocabulary file: its trimmed non-blank lines, in
/// file order.
pub open spec fn vocabulary_lines(content: Seq<char>) -> Seq<Seq<char>> {
    cleaned(split_lines(content))
}

pub open spec fn sorted_strs(d: Seq<Seq<char>>) -> bool {
    forall|i: int, j: int| 0 <= i <= j < d.len() ==> str_le(#[trigger] d[i], #[trigger] d[j])
}

/// The index the vocabulary scan settles on for a word `w` that is not in
/// the vocabulary `d`: distances strictly improve up to `j`, and either `j`
/// is within the early-exit threshold of one edit, or no later entry does
/// better. Exactly one index satisfies this.
pub open spec fn candidate_chosen(w: Seq<char>, d: Seq<Seq<char>>, j: int) -> bool {
    &&& 0 <= j < d.len()
    &&& edit_distance(w, d[j]) < usize::MAX
    &&& forall|i: int| 0 <= i < j ==> edit_distance(w, #[trigger] d[i]) > edit_distance(w, d[j])
    &&& (edit_distance(w, d[j]) <= 1 || forall|i: int|
        j < i < d.len() ==> edit_distance(w, #[trigger] d[i]) >= edit_distance(w, d[j]))
}

/// The word the corrector returns for `w` over the vocabulary `d`: `w`
/// itself when the vocabulary holds it, else the entry the scan settles on.
/// Only when every entry stands at least `usize::MAX` edits away — beyond
/// any real string — does no entry qualify and the word stay as it is.
pub open spec fn corrected(w: Seq<char>, d: Seq<Seq<char>>) -> Seq<char> {
    if d.contains(w) {
        w
    } else if exists|j: int| candidate_chosen(w, d, j) {
        d[choose|j: int| candidate_chosen(w, d, j)]
    } else {
        w
    }
}

/// How one corrected token relates to its original: word texts are
/// corrected, separators are copied unchanged.
pub open spec fn token_corrected(orig: Token, res: Token, d: Seq<Seq<char>>) -> bool {
    match orig {
        Token::Word(wd) => res matches Token::Word(cw) && cw@ == corrected(wd@, d),
        Token::Separator(c) => res matches Token::Separator(rc) && rc == c,
    }
}

proof fn lemma_candidate_unique(w: Seq<char>, d: Seq<Seq<char>>, j1: int, j2: int)
    requires
        !d.contains(w),
        candidate_chosen(w, d, j1),
        candidate_chosen(w, d, j2),
    ensures
        j1 == j2,
{
    assert forall|i: int| 0 <= i < d.len() implies edit_distance(w, #[trigger] d[i]) >= 1 by {
        lemma_edit_distance_zero(w, d[i]);
        if d[i] == w {
            assert(d.contains(w));
        }
    }
    if j1 < j2 {
        assert(edit_distance(w, d[j1]) > edit_distance(w, d[j2]));
        if edit_distance(w, d[j1]) <= 1 {
            assert(edit_distance(w, d[j2]) == 0);
            assert(false);
        } else {
            assert(edit_distance(w, d[j2]) >= edit_distance(w, d[j1]));
            assert(false);
        }
    }
    if j2 < j1 {
        assert(edit_distance(w, d[j2]) > edit_distance(w, d[j1]));
        if edit_distance(w, d[j2]) <= 1 {
            assert(edit_distance(w, d[j1]) == 0);
            assert(false);
        } else {
            assert(edit_distance(w, d[j1]) >= edit_distance(w, d[j2]));
            assert(false);
        }
    }
}

/// The corrector and its vocabulary: an immutable sorted sequence of words,
/// never empty.
#[derive(Debug)]
pub struct SpellChecker {
    dictionary: Vec<String>,
}

impl View for SpellChecker {
    type V = Seq<Seq<char>>;

    closed spec fn view(&self) -> Seq<Seq<char>> {
        str_views(self.dictionary@)
    }
}

/// Sort words into ascending lexicographic order, keeping duplicates.
fn sort_strings(input: Vec<String>) -> (r: Vec<String>)
    ensures
        sorted_strs(str_views(r@)),
        str_views(r@).to_multiset() == str_views(input@).to_multiset(),
{
    let mut out: Vec<String> = Vec::new();
    let mut k: usize = 0;
    proof {
        assert(str_views(input@.take(0)) =~= Seq::<Seq<char>>::empty());
        assert(str_views(out@) =~= Seq::<Seq<char>>::empty());
    }
    while k < input.len()
        invariant
            0 <= k <= input@.len(),
            sorted_strs(str_views(out@)),
            str_views(out@).to_multiset() == str_views(input@.take(k as int)).to_multiset(),
        decreases input@.len() - k,
    {
        let w = input[k].clone();
        let ghost old_out = str_views(out@);
        let mut p: usize = 0;
        let mut scanning = true;
        while p < out.len() && scanning
            invariant
                0 <= k < input@.len(),
                0 <= p <= out@.len(),
                old_out == str_views(out@),
                w@ == input@[k as int]@,
                forall|i: int| 0 <= i < p ==> str_le(#[trigger] old_out[i], w@),
                !scanning ==> p < out@.len() && str_le(w@, old_out[p as int]) && w@ != old_out[
                    p as int
                ],
            decreases out@.len() - p + (if scanning {
                1int
            } else {
                0int
            }),
        {
            proof {
                assert(old_out[p as int] == out@[p as int]@);
            }
            let c = str_compare(out[p].as_str(), w.as_str());
            if c <= 0 {
                proof {
                    if c == 0 {
                        lemma_str_le_total(old_out[p as int], w@);
                    }
                    assert(str_le(old_out[p as int], w@));
                }
                p = p + 1;
            } else {
                scanning = false;
            }
        }
        proof {
            let ov = str_views(out@);
            let nv = ov.insert(p as int, w@);
            assert(str_views(out@.insert(p as int, w)) =~= nv);
            assert forall|i: int, j: int| 0 <= i <= j < nv.len() implies str_le(
                #[trigger] nv[i],
                #[trigger] nv[j],
            ) by {
                lemma_str_le_total(w@, w@);
                if i < p && j == p {
                    assert(nv[i] == ov[i]);
                    assert(str_le(ov[i], w@));
                } else if i < p && j > p {
                    assert(nv[i] == ov[i]);
                    assert(nv[j] == ov[j - 1]);
                } else if i == p && j > p {
                    assert(nv[j] == ov[j - 1]);
                    assert(!scanning);
                    assert(str_le(w@, ov[p as int]));
                    assert(str_le(ov[p as int], ov[j - 1]));
                    lemma_str_le_transitive(w@, ov[p as int], ov[j - 1]);
                } else if i < p && j < p {
                    assert(nv[i] == ov[i]);
                    assert(nv[j] == ov[j]);
                } else if i > p && j > p {
                    assert(nv[i] == ov[i - 1]);
                    assert(nv[j] == ov[j - 1]);
                }
            }
            assert(input@.take(k + 1) =~= input@.take(k as int).push(input@[k as int]));
            assert(str_views(input@.take(k as int).push(input@[k as int])) =~= str_views(
                input@.take(k as int),
            ).push(input@[k as int]@));
        }
        out.insert(p, w);
        k = k + 1;
    }
    proof {
        assert(input@.take(input@.len() as int) =~= input@);
    }
    out
}

impl SpellChecker {
    #[verifier::type_invariant]
    spec fn well_formed(self) -> bool {
        sorted_strs(str_views(self.dictionary@)) && self.dictionary@.len() > 0
    }

    /// Build the checker from the raw text of the vocabulary file: trim the
    /// lines, drop the blank ones, sort the rest. An empty result is a hard
    /// construction error.
    pub fn new(dict_content: &str) -> (r: Result<SpellChecker, VocabularyError>)
        ensures
            match r {
                Ok(c) => vocabulary_lines(dict_content@).len() > 0 && sorted_strs(c@)
                    && c@.to_multiset() == vocabulary_lines(dict_content@).to_multiset() && (
                forall|wx: Seq<char>|
                    c@.contains(wx) <==> vocabulary_lines(dict_content@).contains(wx)),
                Err(e) => e == VocabularyError::EmptyVocabulary && vocabulary_lines(
                    dict_content@,
                ).len() == 0,
            },
    {
        let lines = split_to_lines(dict_content);
        let ghost lv = str_views(lines@);
        let mut words: Vec<String> = Vec::new();
        let mut k: usize = 0;
        proof {
            assert(lv.take(0) =~= Seq::<Seq<char>>::empty());
            assert(str_views(words@) =~= cleaned(lv.take(0)));
        }
        while k < lines.len()
            invariant
                0 <= k <= lines@.len(),
                lv == str_views(lines@),
                lv == split_lines(dict_content@),
                str_views(words@) == cleaned(lv.take(k as int)),
            decreases lines@.len() - k,
        {
            let line_ref = &lines[k];
            let trimmed = trim_str(line_ref.as_str());
            proof {
                assert(lv[k as int] == lines@[k as int]@);
                assert(trimmed@ == trim(lv[k as int]));
                assert(lv.take(k + 1) =~= lv.take(k as int) + seq![lv[k as int]]);
                lemma_cleaned_concat(lv.take(k as int), seq![lv[k as int]]);
                lemma_cleaned_one(lv[k as int]);
            }
            if trimmed.unicode_len() > 0 {
                let owned = trimmed.to_owned();
                proof {
                    assert(str_views(words@.push(owned)) =~= str_views(words@).push(owned@));
                    assert(str_views(words@).push(trim(lv[k as int])) =~= cleaned(lv.take(k + 1)));
                }
                words.push(owned);
            } else {
                proof {
                    assert(cleaned(lv.take(k + 1)) =~= str_views(words@));
                }
            }
            k = k + 1;
        }
        proof {
            assert(lv.take(lines@.len() as int) =~= lv);
        }
        if words.len() == 0 {
            proof {
                assert(vocabulary_lines(dict_content@) =~= str_views(words@));
            }
            return Err(VocabularyError::EmptyVocabulary);
        }
        let ghost word_views = str_views(words@);
        let sorted = sort_strings(words);
        proof {
            assert(str_views(sorted@).to_multiset().len() == str_views(sorted@).len());
            assert(word_views.to_multiset().len() == word_views.len());
            assert(str_views(sorted@).len() > 0);
            let sv = str_views(sorted@);
            assert forall|wx: Seq<char>| sv.contains(wx) <==> word_views.contains(wx) by {
                assert(sv.contains(wx) <==> sv.to_multiset().count(wx) > 0);
                assert(word_views.contains(wx) <==> word_views.to_multiset().count(wx) > 0);
            }
        }
        Ok(SpellChecker { dictionary: sorted })
    }

    /// How many words the vocabulary holds, duplicates counted.
    pub fn word_count(&self) -> (r: usize)
        ensures
            r == self@.len(),
    {
        self.dictionary.len()
    }

    /// Exact membership of `word` in the vocabulary, by binary search over
    /// the sorted words.
    pub fn contains_word(&self, word: &str) -> (r: bool)
        ensures
            r == self@.contains(word@),
    {
        proof {
            use_type_invariant(&*self);
        }
        let ghost d = self@;
        let mut lo: usize = 0;
        let mut hi: usize = self.dictionary.len();
        while lo < hi
            invariant
                0 <= lo <= hi <= d.len(),
                d == self@,
                sorted_strs(d),
                d.len() == self.dictionary@.len(),
                forall|i: int| 0 <= i < d.len() && #[trigger] d[i] == word@ ==> lo <= i < hi,
            decreases hi - lo,
        {
            let mid = lo + (hi - lo) / 2;
            let c = str_compare(word, self.dictionary[mid].as_str());
            if c == 0 {
                proof {
                    assert(d[mid as int] == word@);
                    assert(d.contains(word@));
                }
                return true;
            } else if c < 0 {
                proof {
                    assert forall|i: int| mid <= i < d.len() implies d[i] != word@ by {
                        assert(str_le(d[mid as int], d[i]));
                        if d[i] == word@ {
                            lemma_str_le_antisymmetric(word@, d[mid as int]);
                        }
                    }
                }
                hi = mid;
            } else {
                proof {
                    assert forall|i: int| 0 <= i <= mid implies d[i] != word@ by {
                        assert(str_le(d[i], d[mid as int]));
                        if d[i] == word@ {
                            lemma_str_le_antisymmetric(word@, d[mid as int]);
                        }
                    }
                }
                lo = mid + 1;
            }
        }
        proof {
            if d.contains(word@) {
                let i = choose|i: int| 0 <= i < d.len() && d[i] == word@;
                assert(lo <= i < hi);
            }
        }
        false
    }

    /// Correct one word against the vocabulary.
    ///
    /// A word the vocabulary holds passes through unchanged. Any other word
    /// is replaced by the entry the sorted scan settles on: the running best
    /// is replaced only on strict improvement, and the scan stops at the
    /// first entry within one edit. The result is a pure function of the
    /// word and the vocabulary, and its edit distance from the input is the
    /// minimum the vocabulary offers.
    pub fn correct_word(&self, word: &str) -> (r: String)
        ensures
            r@ == corrected(word@, self@),
            self@.contains(word@) ==> r@ == word@,
            (exists|i: int|
                0 <= i < self@.len() && edit_distance(word@, #[trigger] self@[i]) <= 1)
                ==> edit_distance(word@, r@) <= 1,
            forall|i: int|
                0 <= i < self@.len() ==> edit_distance(word@, #[trigger] self@[i])
                    >= edit_distance(word@, r@),
    {
        let ghost d = self@;
        let ghost w = word@;
        if self.contains_word(word) {
            proof {
                lemma_edit_distance_zero(w, w);
            }
            return word.to_owned();
        }
        proof {
            assert forall|t: int| 0 <= t < d.len() implies edit_distance(
                w,
                #[trigger] d[t],
            ) >= 1 by {
                lemma_edit_distance_zero(w, d[t]);
                if d[t] == w {
                    assert(d.contains(w));
                }
            }
        }
        let mut best = word.to_owned();
        let mut min_d: usize = usize::MAX;
        let ghost mut bj: int = -1;
        let mut i: usize = 0;
        while i < self.dictionary.len() && min_d > 1
            invariant
                0 <= i <= d.len(),
                d == self@,
                w == word@,
                !d.contains(w),
                d.len() == self.dictionary@.len(),
                forall|t: int| 0 <= t < d.len() ==> edit_distance(w, #[trigger] d[t]) >= 1,
                bj == -1 ==> best@ == w && min_d == usize::MAX && (forall|t: int|
                    0 <= t < i ==> edit_distance(w, #[trigger] d[t]) >= usize::MAX),
                bj != -1 ==> 0 <= bj < i && best@ == d[bj] && min_d as nat == edit_distance(
                    w,
                    d[bj],
                ) && min_d < usize::MAX,
                bj != -1 ==> (forall|t: int|
                    0 <= t < bj ==> edit_distance(w, #[trigger] d[t]) > min_d as nat),
                bj != -1 ==> (forall|t: int|
                    bj < t < i ==> edit_distance(w, #[trigger] d[t]) >= min_d as nat),
                min_d <= 1 ==> bj != -1 && i == bj + 1,
            decreases d.len() - i,
        {
            let dist = levenshtein_distance(word, self.dictionary[i].as_str());
            if dist < min_d {
                min_d = dist;
                best = self.dictionary[i].clone();
                proof {
                    bj = i as int;
                }
            }
            i = i + 1;
        }
        proof {
            if bj == -1 {
                assert(min_d == usize::MAX);
                assert(i == d.len());
                assert(forall|j: int| !candidate_chosen(w, d, j));
                assert(corrected(w, d) == w);
                if exists|t: int| 0 <= t < d.len() && edit_distance(w, #[trigger] d[t]) <= 1 {
                    let t = choose|t: int|
                        0 <= t < d.len() && edit_distance(w, #[trigger] d[t]) <= 1;
                    assert(edit_distance(w, d[t]) >= usize::MAX);
                    assert(false);
                }
                lemma_edit_distance_zero(w, w);
            } else {
                assert(candidate_chosen(w, d, bj)) by {
                    if min_d > 1 {
                        assert(i == d.len());
                    }
                }
                let cj = choose|j: int| candidate_chosen(w, d, j);
                assert(candidate_chosen(w, d, cj));
                lemma_candidate_unique(w, d, bj, cj);
                assert(corrected(w, d) == d[bj]);
                assert(edit_distance(w, best@) == min_d as nat);
                if exists|t: int| 0 <= t < d.len() && edit_distance(w, #[trigger] d[t]) <= 1 {
                    let t = choose|t: int|
                        0 <= t < d.len() && edit_distance(w, #[trigger] d[t]) <= 1;
                    if min_d > 1 {
                        assert(i == d.len());
                        if t < bj {
                            assert(edit_distance(w, d[t]) > min_d as nat);
                        } else if t > bj {
                            assert(edit_distance(w, d[t]) >= min_d as nat);
                        }
                        assert(false);
                    }
                }
                assert forall|t: int| 0 <= t < d.len() implies edit_distance(
                    w,
                    #[trigger] d[t],
                ) >= edit_distance(w, best@) by {
                    if min_d <= 1 {
                        assert(min_d as nat >= 1);
                        assert(edit_distance(w, d[t]) >= 1);
                    } else {
                        assert(i == d.len());
                    }
                }
            }
        }
        best
    }

    /// Correct a whole entry: every word token is corrected, every
    /// separator token and the identifier are copied unchanged, in order.
    pub fn correct_word_list(&self, word_list: &WordList) -> (r: WordList)
        ensures
            r.id@ == word_list.id@,
            r.tokens@.len() == word_list.tokens@.len(),
            forall|i: int|
                0 <= i < word_list.tokens@.len() ==> token_corrected(
                    #[trigger] word_list.tokens@[i],
                    r.tokens@[i],
                    self@,
                ),
    {
        let mut toks: Vec<Token> = Vec::new();
        let mut i: usize = 0;
        while i < word_list.tokens.len()
            invariant
                0 <= i <= word_list.tokens@.len(),
                toks@.len() == i,
                forall|t: int|
                    0 <= t < i ==> token_corrected(
                        #[trigger] word_list.tokens@[t],
                        toks@[t],
                        self@,
                    ),
            decreases word_list.tokens@.len() - i,
        {
            match &word_list.tokens[i] {
                Token::Word(wd) => {
                    let cw = self.correct_word(wd.as_str());
                    toks.push(Token::Word(cw));
                },
                Token::Separator(c) => {
                    toks.push(Token::Separator(*c));
                },
            }
            i = i + 1;
        }
        WordList { id: word_list.id.clone(), tokens: toks }
    }
}

} // verus!
