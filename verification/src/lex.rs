//! Lexicographic order on strings, compared character by character by code
//! point. Dates (`YYYY-MM-DD`) and month keys (`YYYY-MM`) are ordered this
//! way, which coincides with chronological order for well-formed values.

use vstd::prelude::*;

verus! {

/// Outcome of a three-way string comparison.
#[derive(Clone, Copy, Debug, PartialEq, Eq, Structural)]
pub enum StrCmp {
    Lt,
    Eq,
    Gt,
}

/// Strict lexicographic order on character sequences by code point.
pub open spec fn lex_lt(a: Seq<char>, b: Seq<char>) -> bool
    decreases a.len() + b.len(),
{
    if b.len() == 0 {
        false
    } else if a.len() == 0 {
        true
    } else if a[0] != b[0] {
        (a[0] as int) < (b[0] as int)
    } else {
        lex_lt(a.drop_first(), b.drop_first())
    }
}

/// `s` is strictly ascending under `lex_lt`; in particular it has no
/// repeated element.
pub open spec fn strictly_asc(s: Seq<Seq<char>>) -> bool {
    forall|i: int, j: int| 0 <= i < j < s.len() ==> lex_lt(s[i], s[j])
}

/// `s` is strictly descending under `lex_lt`; in particular it has no
/// repeated element.
pub open spec fn strictly_desc(s: Seq<Seq<char>>) -> bool {
    forall|i: int, j: int| 0 <= i < j < s.len() ==> lex_lt(s[j], s[i])
}

pub proof fn lemma_lex_irreflexive(a: Seq<char>)
    ensures
        !lex_lt(a, a),
    decreases a.len(),
{
    if a.len() > 0 {
        lemma_lex_irreflexive(a.drop_first());
    }
}

pub proof fn lemma_lex_asymmetric(a: Seq<char>, b: Seq<char>)
    requires
        lex_lt(a, b),
    ensures
        !lex_lt(b, a),
        a != b,
    decreases a.len() + b.len(),
{
    if b.len() == 0 {
    } else if a.len() == 0 {
        assert(a.len() != b.len());
    } else if a[0] != b[0] {
    } else {
        lemma_lex_asymmetric(a.drop_first(), b.drop_first());
        if a == b {
            assert(a.drop_first() == b.drop_first());
        }
    }
}

pub proof fn lemma_lex_transitive(a: Seq<char>, b: Seq<char>, c: Seq<char>)
    requires
        lex_lt(a, b),
        lex_lt(b, c),
    ensures
        lex_lt(a, c),
    decreases a.len() + b.len() + c.len(),
{
    if a.len() == 0 {
    } else if a[0] == b[0] && b[0] == c[0] {
        lemma_lex_transitive(a.drop_first(), b.drop_first(), c.drop_first());
    }
}

pub proof fn lemma_lex_total(a: Seq<char>, b: Seq<char>)
    ensures
        lex_lt(a, b) || lex_lt(b, a) || a == b,
    decreases a.len() + b.len(),
{
    if a.len() == 0 && b.len() == 0 {
        assert(a =~= b);
    } else if a.len() == 0 {
        assert(lex_lt(a, b));
    } else if b.len() == 0 {
        assert(lex_lt(b, a));
    } else if a[0] != b[0] {
        assert((a[0] as int) != (b[0] as int));
        assert(lex_lt(a, b) || lex_lt(b, a));
    } else {
        lemma_lex_total(a.drop_first(), b.drop_first());
        if a.drop_first() == b.drop_first() {
            assert forall|k: int| 0 <= k < a.len() implies a[k] == b[k] by {
                if k > 0 {
                    assert(a.drop_first()[k - 1] == b.drop_first()[k - 1]);
                }
            }
            assert(a =~= b);
        }
    }
}

/// When the first `i` characters agree, the comparison of `a` and `b` is
/// decided at position `i`.
pub proof fn lemma_lex_at(a: Seq<char>, b: Seq<char>, i: int)
    requires
        0 <= i <= a.len(),
        i <= b.len(),
        forall|k: int| 0 <= k < i ==> a[k] == b[k],
    ensures
        (i < a.len() && i < b.len() && (a[i] as int) < (b[i] as int)) ==> lex_lt(a, b),
        (i == a.len() && i < b.len()) ==> lex_lt(a, b),
        (i == a.len() && i == b.len()) ==> a == b,
    decreases i,
{
    if i == 0 {
        if a.len() == 0 && b.len() == 0 {
            assert(a =~= b);
        }
    } else {
        assert(a[0] == b[0]);
        assert forall|k: int| 0 <= k < i - 1 implies a.drop_first()[k] == b.drop_first()[k] by {
            assert(a[k + 1] == b[k + 1]);
        }
        lemma_lex_at(a.drop_first(), b.drop_first(), i - 1);
        if i < a.len() && i < b.len() {
            assert(a.drop_first()[i - 1] == a[i]);
            assert(b.drop_first()[i - 1] == b[i]);
        }
        if i == a.len() && i == b.len() && a.drop_first() == b.drop_first() {
            assert(a =~= b);
        }
    }
}

/// Three-way comparison of two strings in lexicographic code-point order.
pub fn str_compare(a: &str, b: &str) -> (c: StrCmp)
    ensures
        (c == StrCmp::Lt) <==> lex_lt(a@, b@),
        (c == StrCmp::Eq) <==> (a@ == b@),
        (c == StrCmp::Gt) <==> lex_lt(b@, a@),
{
    let alen = a.unicode_len();
    let blen = b.unicode_len();
    let mut i: usize = 0;
    while i < alen && i < blen
        invariant
            i <= alen,
            i <= blen,
            alen == a@.len(),
            blen == b@.len(),
            forall|k: int| 0 <= k < i ==> a@[k] == b@[k],
        decreases alen - i,
    {
        let ca = a.get_char(i);
        let cb = b.get_char(i);
        if ca == cb {
            i += 1;
        } else if (ca as u32) < (cb as u32) {
            proof {
                lemma_lex_at(a@, b@, i as int);
                lemma_lex_asymmetric(a@, b@);
            }
            return StrCmp::Lt;
        } else {
            proof {
                lemma_lex_at(b@, a@, i as int);
                lemma_lex_asymmetric(b@, a@);
            }
            return StrCmp::Gt;
        }
    }
    if alen < blen {
        proof {
            lemma_lex_at(a@, b@, i as int);
            lemma_lex_asymmetric(a@, b@);
        }
        StrCmp::Lt
    } else if blen < alen {
        proof {
            lemma_lex_at(b@, a@, i as int);
            lemma_lex_asymmetric(b@, a@);
        }
        StrCmp::Gt
    } else {
        proof {
            lemma_lex_at(a@, b@, i as int);
            lemma_lex_irreflexive(a@);
        }
        StrCmp::Eq
    }
}

/// String equality through [`str_compare`].
pub fn str_eq(a: &str, b: &str) -> (r: bool)
    ensures
        r == (a@ == b@),
{
    str_compare(a, b) == StrCmp::Eq
}

} // verus!
