//! Lexicographic order on character sequences, used to keep the record
//! store's entries in a canonical order.

use vstd::prelude::*;
use vstd::string::StrSliceExecFns;

verus! {

/// Strict lexicographic order on character sequences, comparing characters by
/// their Unicode scalar value.
pub open spec fn lex_lt(a: Seq<char>, b: Seq<char>) -> bool
    decreases a.len(),
{
    if b.len() == 0 {
        false
    } else if a.len() == 0 {
        true
    } else if (a[0] as u32) < (b[0] as u32) {
        true
    } else if (a[0] as u32) == (b[0] as u32) {
        lex_lt(a.drop_first(), b.drop_first())
    } else {
        false
    }
}

/// The order is irreflexive.
pub proof fn lemma_lex_irreflexive(a: Seq<char>)
    ensures
        !lex_lt(a, a),
    decreases a.len(),
{
    if a.len() > 0 {
        lemma_lex_irreflexive(a.drop_first());
    }
}

/// Two sequences are equal, or one is strictly below the other.
pub proof fn lemma_lex_connected(a: Seq<char>, b: Seq<char>)
    ensures
        a == b || lex_lt(a, b) || lex_lt(b, a),
    decreases a.len(),
{
    if a.len() == 0 || b.len() == 0 {
        if a.len() == b.len() {
            assert(a =~= b);
        }
    } else if (a[0] as u32) == (b[0] as u32) {
        vstd::utf8::char_u32_cast(a[0], a[0] as u32);
        vstd::utf8::char_u32_cast(b[0], b[0] as u32);
        lemma_lex_connected(a.drop_first(), b.drop_first());
        if a.drop_first() == b.drop_first() {
            assert forall|i: int| 0 <= i < a.len() implies a[i] == b[i] by {
                if i > 0 {
                    assert(a[i] == a.drop_first()[i - 1]);
                    assert(b[i] == b.drop_first()[i - 1]);
                }
            }
            assert(a =~= b);
        }
    }
}

/// The order is asymmetric; in particular, strictly ordered sequences differ.
pub proof fn lemma_lex_asymmetric(a: Seq<char>, b: Seq<char>)
    requires
        lex_lt(a, b),
    ensures
        !lex_lt(b, a),
        a != b,
    decreases a.len(),
{
    if a.len() > 0 && b.len() > 0 && (a[0] as u32) == (b[0] as u32) {
        lemma_lex_asymmetric(a.drop_first(), b.drop_first());
        assert(a != b) by {
            if a == b {
                assert(a.drop_first() =~= b.drop_first());
            }
        }
    } else {
        assert(a != b) by {
            lemma_lex_irreflexive(a);
        }
    }
}

/// The order is transitive.
pub proof fn lemma_lex_transitive(a: Seq<char>, b: Seq<char>, c: Seq<char>)
    requires
        lex_lt(a, b),
        lex_lt(b, c),
    ensures
        lex_lt(a, c),
    decreases a.len(),
{
    if a.len() > 0 && b.len() > 0 && c.len() > 0 && (a[0] as u32) == (b[0] as u32) && (b[0] as u32)
        == (c[0] as u32) {
        lemma_lex_transitive(a.drop_first(), b.drop_first(), c.drop_first());
    }
}

/// If two sequences agree on their first `i` characters, their order is
/// decided by the remainders.
pub proof fn lemma_lex_common_prefix(a: Seq<char>, b: Seq<char>, i: int)
    requires
        0 <= i <= a.len(),
        i <= b.len(),
        a.take(i) == b.take(i),
    ensures
        lex_lt(a, b) == lex_lt(a.skip(i), b.skip(i)),
    decreases i,
{
    if i > 0 {
        assert(a.take(i)[0] == a[0]);
        assert(b.take(i)[0] == b[0]);
        assert(a.drop_first().take(i - 1) =~= a.take(i).drop_first());
        assert(b.drop_first().take(i - 1) =~= b.take(i).drop_first());
        lemma_lex_common_prefix(a.drop_first(), b.drop_first(), i - 1);
        assert(a.drop_first().skip(i - 1) =~= a.skip(i));
        assert(b.drop_first().skip(i - 1) =~= b.skip(i));
    } else {
        assert(a.skip(0) =~= a);
        assert(b.skip(0) =~= b);
    }
}

/// Decides the strict lexicographic order on two strings.
pub fn str_lt(a: &str, b: &str) -> (r: bool)
    ensures
        r == lex_lt(a@, b@),
{
    let a_len = a.unicode_len();
    let b_len = b.unicode_len();
    let mut i: usize = 0;
    proof {
        assert(a@.take(0) =~= b@.take(0));
    }
    loop
        invariant
            i <= a_len,
            i <= b_len,
            a_len == a@.len(),
            b_len == b@.len(),
            a@.take(i as int) == b@.take(i as int),
        decreases a_len - i,
    {
        if i == a_len || i == b_len {
            proof {
                lemma_lex_common_prefix(a@, b@, i as int);
            }
            return a_len < b_len;
        }
        let ca = a.get_char(i);
        let cb = b.get_char(i);
        if (ca as u32) != (cb as u32) {
            proof {
                lemma_lex_common_prefix(a@, b@, i as int);
                assert(a@.skip(i as int)[0] == a@[i as int]);
                assert(b@.skip(i as int)[0] == b@[i as int]);
            }
            return (ca as u32) < (cb as u32);
        }
        proof {
            vstd::utf8::char_u32_cast(ca, ca as u32);
            vstd::utf8::char_u32_cast(cb, cb as u32);
            assert(a@.take(i + 1 as int) =~= b@.take(i + 1 as int));
        }
        i = i + 1;
    }
}

/// `p` is a prefix of `s`.
pub open spec fn is_prefix(p: Seq<char>, s: Seq<char>) -> bool {
    p.len() <= s.len() && p == s.take(p.len() as int)
}

/// Decides whether the string `s` starts with the string `p`.
pub fn str_starts_with(s: &str, p: &str) -> (r: bool)
    ensures
        r == is_prefix(p@, s@),
{
    let s_len = s.unicode_len();
    let p_len = p.unicode_len();
    if p_len > s_len {
        proof {
            assert(!is_prefix(p@, s@));
        }
        return false;
    }
    let mut i: usize = 0;
    proof {
        assert(p@.take(0) =~= s@.take(0));
    }
    while i < p_len
        invariant
            i <= p_len <= s_len,
            p_len == p@.len(),
            s_len == s@.len(),
            p@.take(i as int) == s@.take(i as int),
        decreases p_len - i,
    {
        let cp = p.get_char(i);
        let cs = s.get_char(i);
        if cp != cs {
            proof {
                assert(!is_prefix(p@, s@)) by {
                    if is_prefix(p@, s@) {
                        assert(p@[i as int] == s@.take(p@.len() as int)[i as int]);
                    }
                }
            }
            return false;
        }
        proof {
            assert(p@.take(i + 1 as int) =~= s@.take(i + 1 as int));
        }
        i = i + 1;
    }
    proof {
        assert(p@.take(p_len as int) =~= p@);
    }
    true
}

/// Decides equality of two strings, seen as character sequences.
pub fn str_eq(a: &str, b: &str) -> (r: bool)
    ensures
        r == (a@ == b@),
{
    let below = str_lt(a, b);
    let above = str_lt(b, a);
    proof {
        lemma_lex_connected(a@, b@);
        if lex_lt(a@, b@) {
            lemma_lex_asymmetric(a@, b@);
        }
        if lex_lt(b@, a@) {
            lemma_lex_asymmetric(b@, a@);
        }
    }
    !below && !above
}

} // verus!
