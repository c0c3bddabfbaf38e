//! Levenshtein edit distance between character sequences.

use vstd::prelude::*;

verus! {

/// The minimum number of single-character insertions, deletions and
/// substitutions that turn `a` into `b`.
pub open spec fn edit_distance(a: Seq<char>, b: Seq<char>) -> nat
    decreases a.len() + b.len(),
{
    if a.len() == 0 {
        b.len()
    } else if b.len() == 0 {
        a.len()
    } else {
        let head_cost: nat = if a[0] == b[0] {
            0
        } else {
            1
        };
        let subst = edit_distance(a.drop_first(), b.drop_first()) + head_cost;
        let del = edit_distance(a.drop_first(), b) + 1;
        let ins = edit_distance(a, b.drop_first()) + 1;
        if subst <= del && subst <= ins {
            subst
        } else if del <= ins {
            del
        } else {
            ins
        }
    }
}

/// The distance is zero exactly between equal sequences.
pub proof fn lemma_edit_distance_zero(a: Seq<char>, b: Seq<char>)
    ensures
        (edit_distance(a, b) == 0) <==> (a == b),
    decreases a.len() + b.len(),
{
    if a.len() == 0 {
        if b.len() == 0 {
            assert(a =~= b);
        }
    } else if b.len() == 0 {
    } else {
        lemma_edit_distance_zero(a.drop_first(), b.drop_first());
        if a[0] == b[0] {
            if edit_distance(a, b) == 0 {
                assert(a.drop_first() == b.drop_first());
                assert forall|i: int| 0 <= i < a.len() implies a[i] == b[i] by {
                    if i > 0 {
                        assert(a[i] == a.drop_first()[i - 1]);
                        assert(b[i] == b.drop_first()[i - 1]);
                    }
                }
                assert(a =~= b);
            }
            if a == b {
                assert(a.drop_first() == b.drop_first());
                assert(edit_distance(a, b) == 0);
            }
        } else {
            assert(a != b);
            assert(edit_distance(a, b) > 0);
        }
    }
}

/// Relies on strsim::levenshtein: the Levenshtein edit distance over the
/// characters of the two strings, as `edit_distance` defines it.
#[verifier::external_body]
pub(crate) fn levenshtein_distance(a: &str, b: &str) -> (r: usize)
    ensures
        r as nat == edit_distance(a@, b@),
{
    strsim::levenshtein(a, b)
}

} // verus!
