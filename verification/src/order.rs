//! Lexicographic order on character sequences.
//!
//! The vocabulary is kept sorted under this order, which is the code-point
//! order that Rust's own string comparison follows.

use vstd::prelude::*;

verus! {

/// `a` comes no later than `b` in lexicographic code-point order.
pub open spec fn str_le(a: Seq<char>, b: Seq<char>) -> bool
    decreases a.len(),
{
    if a.len() == 0 {
        true
    } else if b.len() == 0 {
        false
    } else if a[0] != b[0] {
        a[0] < b[0]
    } else {
        str_le(a.drop_first(), b.drop_first())
    }
}

pub proof fn lemma_str_le_total(a: Seq<char>, b: Seq<char>)
    ensures
        str_le(a, b) || str_le(b, a),
    decreases a.len(),
{
    if a.len() != 0 && b.len() != 0 && a[0] == b[0] {
        lemma_str_le_total(a.drop_first(), b.drop_first());
    }
}

pub proof fn lemma_str_le_antisymmetric(a: Seq<char>, b: Seq<char>)
    requires
        str_le(a, b),
        str_le(b, a),
    ensures
        a == b,
    decreases a.len(),
{
    if a.len() == 0 {
        assert(b.len() == 0);
        assert(a =~= b);
    } else {
        assert(a[0] == b[0]);
        lemma_str_le_antisymmetric(a.drop_first(), b.drop_first());
        assert(a.drop_first().len() == b.drop_first().len());
        assert(a.len() == b.len());
        assert forall|i: int| 0 <= i < a.len() implies a[i] == b[i] by {
            if i > 0 {
                assert(a[i] == a.drop_first()[i - 1]);
                assert(b[i] == b.drop_first()[i - 1]);
            }
        }
        assert(a =~= b);
    }
}

pub proof fn lemma_str_le_transitive(a: Seq<char>, b: Seq<char>, c: Seq<char>)
    requires
        str_le(a, b),
        str_le(b, c),
    ensures
        str_le(a, c),
    decreases a.len(),
{
    if a.len() != 0 && b.len() != 0 && c.len() != 0 && a[0] == b[0] && b[0] == c[0] {
        lemma_str_le_transitive(a.drop_first(), b.drop_first(), c.drop_first());
    }
}

/// Equal prefixes of length `i` leave the comparison to the remainders.
pub proof fn lemma_str_le_common_prefix(a: Seq<char>, b: Seq<char>, i: int)
    requires
        0 <= i <= a.len(),
        i <= b.len(),
        forall|j: int| 0 <= j < i ==> a[j] == b[j],
    ensures
        str_le(a, b) == str_le(a.skip(i), b.skip(i)),
    decreases i,
{
    if i == 0 {
        assert(a.skip(0) =~= a);
        assert(b.skip(0) =~= b);
    } else {
        assert(a[0] == b[0]);
        lemma_str_le_common_prefix(a.drop_first(), b.drop_first(), i - 1);
        assert(a.drop_first().skip(i - 1) =~= a.skip(i));
        assert(b.drop_first().skip(i - 1) =~= b.skip(i));
    }
}

/// Three-way comparison of two strings in lexicographic code-point order.
pub fn str_compare(a: &str, b: &str) -> (r: i8)
    ensures
        r == -1i8 || r == 0i8 || r == 1i8,
        (r == 0i8) <==> (a@ == b@),
        (r == -1i8) <==> (str_le(a@, b@) && a@ != b@),
        (r == 1i8) <==> (str_le(b@, a@) && b@ != a@),
{
    let la = a.unicode_len();
    let lb = b.unicode_len();
    let mut i: usize = 0;
    while i < la && i < lb
        invariant
            0 <= i <= la,
            0 <= i <= lb,
            la == a@.len(),
            lb == b@.len(),
            forall|j: int| 0 <= j < i ==> a@[j] == b@[j],
        decreases la - i,
    {
        let ca = a.get_char(i);
        let cb = b.get_char(i);
        if ca < cb {
            proof {
                lemma_str_le_common_prefix(a@, b@, i as int);
                lemma_str_le_common_prefix(b@, a@, i as int);
                assert(a@.skip(i as int)[0] == ca);
                assert(b@.skip(i as int)[0] == cb);
                assert(a@[i as int] != b@[i as int]);
            }
            return -1;
        }
        if cb < ca {
            proof {
                lemma_str_le_common_prefix(a@, b@, i as int);
                lemma_str_le_common_prefix(b@, a@, i as int);
                assert(a@.skip(i as int)[0] == ca);
                assert(b@.skip(i as int)[0] == cb);
                assert(a@[i as int] != b@[i as int]);
            }
            return 1;
        }
        assert(ca == cb);
        i = i + 1;
    }
    proof {
        lemma_str_le_common_prefix(a@, b@, i as int);
        lemma_str_le_common_prefix(b@, a@, i as int);
    }
    if la < lb {
        proof {
            assert(a@.skip(i as int).len() == 0);
            assert(b@.skip(i as int).len() > 0);
        }
        -1
    } else if la > lb {
        proof {
            assert(b@.skip(i as int).len() == 0);
            assert(a@.skip(i as int).len() > 0);
        }
        1
    } else {
        proof {
            assert(a@ =~= b@);
        }
        0
    }
}

} // verus!
