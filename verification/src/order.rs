//! Lexicographic order on character sequences, by code point, which for
//! UTF-8 strings agrees with the byte order `String` sorts by.

use vstd::prelude::*;

verus! {

/// Strict lexicographic order: the empty sequence comes first, otherwise the
/// first differing position decides, and a proper prefix precedes.
pub open spec fn lex_lt(a: Seq<char>, b: Seq<char>) -> bool
    decreases a.len(),
{
    if b.len() == 0 {
        false
    } else if a.len() == 0 {
        true
    } else if (a[0] as u32) < (b[0] as u32) {
        true
    } else if a[0] != b[0] {
        false
    } else {
        lex_lt(a.skip(1), b.skip(1))
    }
}

/// Each entry strictly precedes the next: sorted, with no duplicate entries.
pub open spec fn strictly_sorted(s: Seq<Seq<char>>) -> bool {
    forall|i: int, j: int| 0 <= i < j < s.len() ==> lex_lt(s[i], s[j])
}

proof fn lemma_head_tail_eq<T>(a: Seq<T>, b: Seq<T>)
    requires
        a.len() > 0,
        b.len() > 0,
        a[0] == b[0],
        a.skip(1) == b.skip(1),
    ensures
        a == b,
{
    assert(a.skip(1).len() == a.len() - 1);
    assert(b.skip(1).len() == b.len() - 1);
    assert(a.len() == b.len());
    assert forall|i: int| 0 <= i < a.len() implies a[i] == b[i] by {
        if i > 0 {
            assert(a.skip(1)[i - 1] == a[i]);
            assert(b.skip(1)[i - 1] == b[i]);
        }
    }
    assert(a =~= b);
}

/// Of two sequences, exactly one of these holds: the first precedes, they are
/// equal, or the second precedes.
pub proof fn lemma_lex_trichotomy(a: Seq<char>, b: Seq<char>)
    ensures
        lex_lt(a, b) || a == b || lex_lt(b, a),
        lex_lt(a, b) ==> a != b && !lex_lt(b, a),
        a == b ==> !lex_lt(a, b),
    decreases a.len(),
{
    if a.len() == 0 && b.len() == 0 {
        assert(a =~= b);
    } else if a.len() == 0 || b.len() == 0 {
    } else if a[0] == b[0] {
        lemma_lex_trichotomy(a.skip(1), b.skip(1));
        if a.skip(1) == b.skip(1) {
            lemma_head_tail_eq(a, b);
        }
        if a == b {
            assert(a.skip(1) =~= b.skip(1));
        }
    } else {
        vstd::utf8::char_u32_cast(a[0], a[0] as u32);
        vstd::utf8::char_u32_cast(b[0], b[0] as u32);
    }
}

/// Strict lexicographic order is transitive.
pub proof fn lemma_lex_transitive(a: Seq<char>, b: Seq<char>, c: Seq<char>)
    requires
        lex_lt(a, b),
        lex_lt(b, c),
    ensures
        lex_lt(a, c),
    decreases a.len(),
{
    if a.len() == 0 {
    } else if a[0] == b[0] && b[0] == c[0] {
        lemma_lex_transitive(a.skip(1), b.skip(1), c.skip(1));
    }
}

proof fn lemma_strictly_sorted_skip(s: Seq<Seq<char>>)
    requires
        s.len() > 0,
        strictly_sorted(s),
    ensures
        strictly_sorted(s.skip(1)),
        forall|t: Seq<char>| s.skip(1).contains(t) ==> s.contains(t) && t != s[0],
{
    assert forall|i: int, j: int| 0 <= i < j < s.skip(1).len() implies lex_lt(
        s.skip(1)[i],
        s.skip(1)[j],
    ) by {
        assert(s.skip(1)[i] == s[i + 1]);
        assert(s.skip(1)[j] == s[j + 1]);
    }
    assert forall|t: Seq<char>| s.skip(1).contains(t) implies s.contains(t) && t != s[0] by {
        let i = choose|i: int| 0 <= i < s.skip(1).len() && s.skip(1)[i] == t;
        assert(s[i + 1] == t);
        assert(lex_lt(s[0], s[i + 1]));
        lemma_lex_trichotomy(s[0], t);
    }
}

/// A strictly sorted sequence is determined by the set of its entries: two
/// strictly sorted sequences with the same members are equal.
pub proof fn lemma_strictly_sorted_unique(a: Seq<Seq<char>>, b: Seq<Seq<char>>)
    requires
        strictly_sorted(a),
        strictly_sorted(b),
        forall|t: Seq<char>| a.contains(t) <==> b.contains(t),
    ensures
        a == b,
    decreases a.len(),
{
    if a.len() == 0 && b.len() == 0 {
        assert(a =~= b);
    } else if a.len() == 0 {
        assert(b.contains(b[0]));
        assert(a.contains(b[0]));
    } else if b.len() == 0 {
        assert(a.contains(a[0]));
        assert(b.contains(a[0]));
    } else {
        assert(a.contains(a[0]));
        assert(b.contains(b[0]));
        lemma_lex_trichotomy(a[0], b[0]);
        if a[0] != b[0] {
            if lex_lt(a[0], b[0]) {
                assert(b.contains(a[0]));
                let i = choose|i: int| 0 <= i < b.len() && b[i] == a[0];
                if i > 0 {
                    assert(lex_lt(b[0], b[i]));
                    lemma_lex_transitive(a[0], b[0], b[i]);
                    lemma_lex_trichotomy(a[0], b[i]);
                }
            } else {
                assert(a.contains(b[0]));
                let j = choose|j: int| 0 <= j < a.len() && a[j] == b[0];
                if j > 0 {
                    assert(lex_lt(a[0], a[j]));
                    lemma_lex_transitive(b[0], a[0], a[j]);
                    lemma_lex_trichotomy(b[0], a[j]);
                }
            }
        }
        lemma_strictly_sorted_skip(a);
        lemma_strictly_sorted_skip(b);
        assert forall|t: Seq<char>| a.skip(1).contains(t) <==> b.skip(1).contains(t) by {
            if a.skip(1).contains(t) {
                assert(a.contains(t) && t != a[0]);
                assert(b.contains(t));
                let k = choose|k: int| 0 <= k < b.len() && b[k] == t;
                assert(k != 0);
                assert(b.skip(1)[k - 1] == t);
                assert(b.skip(1).contains(t));
            }
            if b.skip(1).contains(t) {
                assert(b.contains(t) && t != b[0]);
                assert(a.contains(t));
                let k = choose|k: int| 0 <= k < a.len() && a[k] == t;
                assert(k != 0);
                assert(a.skip(1)[k - 1] == t);
                assert(a.skip(1).contains(t));
            }
        }
        lemma_strictly_sorted_unique(a.skip(1), b.skip(1));
        lemma_head_tail_eq(a, b);
    }
}

/// Compares two strings in strict lexicographic order by code point.
pub fn str_lt(a: &String, b: &String) -> (r: bool)
    ensures
        r == lex_lt(a@, b@),
{
    let alen = a.as_str().unicode_len();
    let blen = b.as_str().unicode_len();
    let mut i: usize = 0;
    proof {
        assert(a@.skip(0) =~= a@);
        assert(b@.skip(0) =~= b@);
    }
    while i < alen && i < blen
        invariant
            0 <= i <= alen,
            0 <= i <= blen,
            alen == a@.len(),
            blen == b@.len(),
            lex_lt(a@, b@) == lex_lt(a@.skip(i as int), b@.skip(i as int)),
        decreases alen - i,
    {
        let ca = a.as_str().get_char(i);
        let cb = b.as_str().get_char(i);
        if (ca as u32) < (cb as u32) {
            proof {
                assert(a@.skip(i as int)[0] == ca);
                assert(b@.skip(i as int)[0] == cb);
            }
            return true;
        }
        if ca != cb {
            proof {
                assert(a@.skip(i as int)[0] == ca);
                assert(b@.skip(i as int)[0] == cb);
            }
            return false;
        }
        proof {
            assert(a@.skip(i as int)[0] == ca);
            assert(b@.skip(i as int)[0] == cb);
            assert(a@.skip(i as int).skip(1) =~= a@.skip(i + 1));
            assert(b@.skip(i as int).skip(1) =~= b@.skip(i + 1));
        }
        i = i + 1;
    }
    proof {
        assert(a@.skip(i as int).len() == alen - i);
        assert(b@.skip(i as int).len() == blen - i);
    }
    alen < blen
}

} // verus!
