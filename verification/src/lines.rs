//! Splitting raw text into lines and stripping blank space from their ends.
//!
//! Both input files are line oriented: the vocabulary keeps every trimmed
//! non-blank line, and the entry file parses every trimmed non-blank line
//! under its original (1-based) line position.

use vstd::prelude::*;
use crate::chars::{blank_char, is_blank_char};

verus! {

pub open spec fn trim_start(s: Seq<char>) -> Seq<char>
    decreases s.len(),
{
    if s.len() > 0 && is_blank_char(s[0]) {
        trim_start(s.drop_first())
    } else {
        s
    }
}

pub open spec fn trim_end(s: Seq<char>) -> Seq<char>
    decreases s.len(),
{
    if s.len() > 0 && is_blank_char(s.last()) {
        trim_end(s.drop_last())
    } else {
        s
    }
}

/// A line with blank characters removed from both ends.
pub open spec fn trim(s: Seq<char>) -> Seq<char> {
    trim_end(trim_start(s))
}

proof fn lemma_trim_start_at(s: Seq<char>, a: int)
    requires
        0 <= a <= s.len(),
        forall|j: int| 0 <= j < a ==> is_blank_char(s[j]),
        a < s.len() ==> !is_blank_char(s[a]),
    ensures
        trim_start(s) == s.skip(a),
    decreases a,
{
    if a == 0 {
        assert(s.skip(0) =~= s);
    } else {
        assert(is_blank_char(s[0]));
        lemma_trim_start_at(s.drop_first(), a - 1);
        assert(s.drop_first().skip(a - 1) =~= s.skip(a));
    }
}

proof fn lemma_trim_end_at(s: Seq<char>, b: int)
    requires
        0 <= b <= s.len(),
        forall|j: int| b <= j < s.len() ==> is_blank_char(s[j]),
        b > 0 ==> !is_blank_char(s[b - 1]),
    ensures
        trim_end(s) == s.take(b),
    decreases s.len(),
{
    if b == s.len() {
        assert(s.take(b) =~= s);
    } else {
        assert(is_blank_char(s.last()));
        lemma_trim_end_at(s.drop_last(), b);
        assert(s.drop_last().take(b) =~= s.take(b));
    }
}

/// Strip blank characters from both ends of a string slice.
pub fn trim_str<'a>(s: &'a str) -> (r: &'a str)
    ensures
        r@ == trim(s@),
{
    let n = s.unicode_len();
    let mut a: usize = 0;
    while a < n && blank_char(s.get_char(a))
        invariant
            0 <= a <= n,
            n == s@.len(),
            forall|j: int| 0 <= j < a ==> is_blank_char(s@[j]),
        decreases n - a,
    {
        a = a + 1;
    }
    let mut b: usize = n;
    while b > a && blank_char(s.get_char(b - 1))
        invariant
            a <= b <= n,
            n == s@.len(),
            forall|j: int| b <= j < n ==> is_blank_char(s@[j]),
        decreases b,
    {
        b = b - 1;
    }
    proof {
        lemma_trim_start_at(s@, a as int);
        if a < n {
            assert(!is_blank_char(s@[a as int]));
            assert(a < b);
            assert(!is_blank_char(s@[b - 1]));
            lemma_trim_end_at(s@.skip(a as int), b - a);
            assert(s@.skip(a as int).take(b - a) =~= s@.subrange(a as int, b as int));
        } else {
            assert(s@.skip(a as int).len() == 0);
            assert(trim(s@) =~= s@.subrange(a as int, b as int));
        }
    }
    s.substring_char(a, b)
}

/// Index of the first newline in `s`, or `s.len()` if there is none.
pub open spec fn first_newline(s: Seq<char>) -> nat
    decreases s.len(),
{
    if s.len() == 0 {
        0
    } else if s[0] == '\n' {
        0
    } else {
        1 + first_newline(s.drop_first())
    }
}

pub proof fn lemma_first_newline(s: Seq<char>)
    ensures
        first_newline(s) <= s.len(),
        first_newline(s) < s.len() ==> s[first_newline(s) as int] == '\n',
        forall|j: int| 0 <= j < first_newline(s) ==> s[j] != '\n',
    decreases s.len(),
{
    if s.len() > 0 && s[0] != '\n' {
        lemma_first_newline(s.drop_first());
        let k = first_newline(s);
        assert forall|j: int| 0 <= j < k implies s[j] != '\n' by {
            if j > 0 {
                assert(s[j] == s.drop_first()[j - 1]);
            }
        }
        if k < s.len() {
            assert(s[k as int] == s.drop_first()[k - 1]);
        }
    }
}

/// The lines of `s`, split at every newline; always at least one line.
pub open spec fn split_lines(s: Seq<char>) -> Seq<Seq<char>>
    decreases s.len(),
{
    let k = first_newline(s);
    if k >= s.len() {
        seq![s]
    } else {
        seq![s.take(k as int)] + split_lines(s.skip(k as int + 1))
    }
}

/// The views of a sequence of owned strings.
pub open spec fn str_views(v: Seq<String>) -> Seq<Seq<char>> {
    v.map_values(|s: String| s@)
}

/// Split a text into its lines.
pub fn split_to_lines(content: &str) -> (r: Vec<String>)
    ensures
        str_views(r@) == split_lines(content@),
{
    let n = content.unicode_len();
    let mut out: Vec<String> = Vec::new();
    let mut start: usize = 0;
    let mut i: usize = 0;
    proof {
        assert(content@.skip(0) =~= content@);
        assert(str_views(out@) =~= Seq::<Seq<char>>::empty());
        assert(Seq::<Seq<char>>::empty() + split_lines(content@) =~= split_lines(content@));
    }
    while i < n
        invariant
            0 <= start <= i <= n,
            n == content@.len(),
            split_lines(content@) == str_views(out@) + split_lines(content@.skip(start as int)),
            forall|j: int| start <= j < i ==> content@[j] != '\n',
        decreases n - i,
    {
        let c = content.get_char(i);
        if c == '\n' {
            let piece = content.substring_char(start, i).to_owned();
            proof {
                let rest = content@.skip(start as int);
                lemma_first_newline(rest);
                assert(rest[i - start] == '\n');
                assert(forall|j: int| 0 <= j < i - start ==> rest[j] != '\n');
                assert(first_newline(rest) == i - start) by {
                    let k = first_newline(rest);
                    if k < i - start {
                        assert(rest[k as int] == '\n');
                    }
                    if k > i - start {
                        assert(rest[i - start] != '\n');
                    }
                }
                assert(rest.take(i - start) =~= piece@);
                assert(rest.skip(i - start + 1) =~= content@.skip(i + 1));
                assert(str_views(out@.push(piece)) =~= str_views(out@).push(piece@));
                assert(str_views(out@).push(piece@) + split_lines(content@.skip(i + 1))
                    =~= str_views(out@) + (seq![piece@] + split_lines(content@.skip(i + 1))));
                assert(split_lines(rest) == seq![piece@] + split_lines(content@.skip(i + 1)));
            }
            out.push(piece);
            start = i + 1;
        }
        i = i + 1;
    }
    let piece = content.substring_char(start, n).to_owned();
    proof {
        let rest = content@.skip(start as int);
        lemma_first_newline(rest);
        assert(forall|j: int| 0 <= j < rest.len() ==> rest[j] != '\n');
        assert(first_newline(rest) == rest.len()) by {
            let k = first_newline(rest);
            if k < rest.len() {
                assert(rest[k as int] == '\n');
            }
        }
        assert(split_lines(rest) == seq![rest]);
        assert(rest =~= piece@);
        assert(str_views(out@.push(piece)) =~= str_views(out@).push(piece@));
        assert(str_views(out@) + seq![piece@] =~= str_views(out@).push(piece@));
    }
    out.push(piece);
    out
}

/// The trimmed non-blank lines, in order.
pub open spec fn cleaned(ls: Seq<Seq<char>>) -> Seq<Seq<char>>
    decreases ls.len(),
{
    if ls.len() == 0 {
        Seq::empty()
    } else if trim(ls[0]).len() > 0 {
        seq![trim(ls[0])] + cleaned(ls.drop_first())
    } else {
        cleaned(ls.drop_first())
    }
}

/// The trimmed non-blank lines, each paired with its 1-based position among
/// all lines (blank lines counted), positions starting at `start`.
pub open spec fn numbered_clean(ls: Seq<Seq<char>>, start: int) -> Seq<(int, Seq<char>)>
    decreases ls.len(),
{
    if ls.len() == 0 {
        Seq::empty()
    } else if trim(ls[0]).len() > 0 {
        seq![(start, trim(ls[0]))] + numbered_clean(ls.drop_first(), start + 1)
    } else {
        numbered_clean(ls.drop_first(), start + 1)
    }
}

pub proof fn lemma_cleaned_concat(x: Seq<Seq<char>>, y: Seq<Seq<char>>)
    ensures
        cleaned(x + y) == cleaned(x) + cleaned(y),
    decreases x.len(),
{
    if x.len() == 0 {
        assert(x + y =~= y);
        assert(cleaned(x) + cleaned(y) =~= cleaned(y));
    } else {
        assert((x + y).drop_first() =~= x.drop_first() + y);
        lemma_cleaned_concat(x.drop_first(), y);
        assert((x + y)[0] == x[0]);
        if trim(x[0]).len() > 0 {
            assert(seq![trim(x[0])] + (cleaned(x.drop_first()) + cleaned(y)) =~= (seq![trim(x[0])]
                + cleaned(x.drop_first())) + cleaned(y));
        }
    }
}

pub proof fn lemma_numbered_clean_concat(x: Seq<Seq<char>>, y: Seq<Seq<char>>, start: int)
    ensures
        numbered_clean(x + y, start) == numbered_clean(x, start) + numbered_clean(
            y,
            start + x.len(),
        ),
    decreases x.len(),
{
    if x.len() == 0 {
        assert(x + y =~= y);
        assert(numbered_clean(x, start) + numbered_clean(y, start) =~= numbered_clean(y, start));
    } else {
        assert((x + y).drop_first() =~= x.drop_first() + y);
        lemma_numbered_clean_concat(x.drop_first(), y, start + 1);
        assert((x + y)[0] == x[0]);
        if trim(x[0]).len() > 0 {
            assert(seq![(start, trim(x[0]))] + (numbered_clean(x.drop_first(), start + 1)
                + numbered_clean(y, start + x.len())) =~= (seq![(start, trim(x[0]))]
                + numbered_clean(x.drop_first(), start + 1)) + numbered_clean(y, start + x.len()));
        }
    }
}

pub proof fn lemma_cleaned_one(l: Seq<char>)
    ensures
        trim(l).len() > 0 ==> cleaned(seq![l]) == seq![trim(l)],
        trim(l).len() == 0 ==> cleaned(seq![l]) == Seq::<Seq<char>>::empty(),
{
    let s = seq![l];
    assert(s[0] == l);
    assert(s.drop_first() =~= Seq::<Seq<char>>::empty());
    assert(cleaned(Seq::<Seq<char>>::empty()) == Seq::<Seq<char>>::empty());
    assert(cleaned(s.drop_first()) == Seq::<Seq<char>>::empty());
    if trim(l).len() > 0 {
        assert(cleaned(s) == seq![trim(l)] + Seq::<Seq<char>>::empty());
        assert(seq![trim(l)] + Seq::<Seq<char>>::empty() =~= seq![trim(l)]);
    } else {
        assert(cleaned(s) == Seq::<Seq<char>>::empty());
    }
}

/// Dropping the line numbers from the numbered clean lines leaves exactly
/// the clean lines; the numbering offset plays no part in the content.
pub proof fn lemma_numbered_clean_texts(ls: Seq<Seq<char>>, start: int)
    ensures
        numbered_clean(ls, start).map_values(|p: (int, Seq<char>)| p.1) == cleaned(ls),
    decreases ls.len(),
{
    let f = |p: (int, Seq<char>)| p.1;
    if ls.len() == 0 {
        assert(numbered_clean(ls, start).map_values(f) =~= cleaned(ls));
    } else {
        lemma_numbered_clean_texts(ls.drop_first(), start + 1);
        if trim(ls[0]).len() > 0 {
            assert((seq![(start, trim(ls[0]))] + numbered_clean(ls.drop_first(), start
                + 1)).map_values(f) =~= seq![trim(ls[0])] + numbered_clean(
                ls.drop_first(),
                start + 1,
            ).map_values(f));
        }
    }
}

/// Blank-line tolerance: inserting a line that trims to nothing changes
/// the clean lines not at all.
pub proof fn lemma_cleaned_ignores_blank(ls: Seq<Seq<char>>, p: int, blank: Seq<char>)
    requires
        0 <= p <= ls.len(),
        trim(blank).len() == 0,
    ensures
        cleaned(ls.insert(p, blank)) == cleaned(ls),
{
    assert(ls.insert(p, blank) =~= ls.take(p) + (seq![blank] + ls.skip(p)));
    lemma_cleaned_concat(ls.take(p), seq![blank] + ls.skip(p));
    lemma_cleaned_concat(seq![blank], ls.skip(p));
    lemma_cleaned_one(blank);
    assert(Seq::<Seq<char>>::empty() + cleaned(ls.skip(p)) =~= cleaned(ls.skip(p)));
    lemma_cleaned_concat(ls.take(p), ls.skip(p));
    assert(ls.take(p) + ls.skip(p) =~= ls);
}

/// Blank-line tolerance over the numbered lines: a file with one more blank
/// line holds the same trimmed non-blank lines, in the same order; only the
/// line numbers attached to what follows the insertion move.
pub proof fn lemma_blank_line_tolerance(ls: Seq<Seq<char>>, p: int, blank: Seq<char>, start: int)
    requires
        0 <= p <= ls.len(),
        trim(blank).len() == 0,
    ensures
        numbered_clean(ls.insert(p, blank), start).map_values(|q: (int, Seq<char>)| q.1)
            == numbered_clean(ls, start).map_values(|q: (int, Seq<char>)| q.1),
{
    lemma_numbered_clean_texts(ls.insert(p, blank), start);
    lemma_numbered_clean_texts(ls, start);
    lemma_cleaned_ignores_blank(ls, p, blank);
}

pub proof fn lemma_numbered_clean_one(l: Seq<char>, start: int)
    ensures
        trim(l).len() > 0 ==> numbered_clean(seq![l], start) == seq![(start, trim(l))],
        trim(l).len() == 0 ==> numbered_clean(seq![l], start) == Seq::<(int, Seq<char>)>::empty(),
{
    let s = seq![l];
    assert(s[0] == l);
    assert(s.drop_first() =~= Seq::<Seq<char>>::empty());
    assert(numbered_clean(Seq::<Seq<char>>::empty(), start + 1) == Seq::<(int, Seq<char>)>::empty());
    assert(numbered_clean(s.drop_first(), start + 1) == Seq::<(int, Seq<char>)>::empty());
    if trim(l).len() > 0 {
        assert(numbered_clean(s, start) == seq![(start, trim(l))] + Seq::<(int, Seq<char>)>::empty());
        assert(seq![(start, trim(l))] + Seq::<(int, Seq<char>)>::empty() =~= seq![(start, trim(l))]);
    } else {
        assert(numbered_clean(s, start) == Seq::<(int, Seq<char>)>::empty());
    }
}

} // verus!
