//! Lexicographic order on names, compared character by character as Unicode
//! code points. Output lines are sorted by this order, and the sorted-set
//! representation of collected names relies on it.

use vstd::prelude::*;

verus! {

/// `a` is strictly below `b` lexicographically, comparing from position `i`
/// onward. An exhausted `a` that is a proper prefix of `b` is below `b`.
pub open spec fn lex_lt_from(a: Seq<char>, b: Seq<char>, i: int) -> bool
    recommends
        0 <= i <= a.len(),
        i <= b.len(),
    decreases a.len() - i,
{
    if i >= b.len() {
        false
    } else if i >= a.len() {
        true
    } else if a[i] != b[i] {
        (a[i] as u32) < (b[i] as u32)
    } else {
        lex_lt_from(a, b, i + 1)
    }
}

/// `a` is strictly below `b` in lexicographic order of code points.
pub open spec fn lex_lt(a: Seq<char>, b: Seq<char>) -> bool {
    lex_lt_from(a, b, 0)
}

/// The sequence is strictly increasing, so it holds each name at most once.
pub open spec fn sorted_unique(s: Seq<Seq<char>>) -> bool {
    forall|p: int, q: int| 0 <= p < q < s.len() ==> lex_lt(s[p], s[q])
}

proof fn lemma_lex_lt_from_asymmetric(a: Seq<char>, b: Seq<char>, i: int)
    requires
        0 <= i <= a.len(),
        i <= b.len(),
    ensures
        !(lex_lt_from(a, b, i) && lex_lt_from(b, a, i)),
    decreases a.len() - i,
{
    if i < a.len() && i < b.len() && a[i] == b[i] {
        lemma_lex_lt_from_asymmetric(a, b, i + 1);
    }
}

/// Distinct characters have distinct code points: the cast to `u32` can be
/// inverted.
proof fn lemma_char_code_injective(c: char, d: char)
    requires
        (c as u32) == (d as u32),
    ensures
        c == d,
{
    vstd::utf8::char_u32_cast(c, c as u32);
    vstd::utf8::char_u32_cast(d, d as u32);
}

proof fn lemma_lex_lt_from_transitive(a: Seq<char>, b: Seq<char>, c: Seq<char>, i: int)
    requires
        0 <= i <= a.len(),
        i <= b.len(),
        i <= c.len(),
        lex_lt_from(a, b, i),
        lex_lt_from(b, c, i),
    ensures
        lex_lt_from(a, c, i),
    decreases a.len() - i,
{
    if i < a.len() && i < b.len() && i < c.len() && a[i] == b[i] && b[i] == c[i] {
        lemma_lex_lt_from_transitive(a, b, c, i + 1);
    }
}

/// Two names are never each strictly below the other; in particular no name
/// is below itself.
pub proof fn lemma_lex_lt_asymmetric(a: Seq<char>, b: Seq<char>)
    ensures
        !(lex_lt(a, b) && lex_lt(b, a)),
{
    lemma_lex_lt_from_asymmetric(a, b, 0);
}

/// The order is transitive.
pub proof fn lemma_lex_lt_transitive(a: Seq<char>, b: Seq<char>, c: Seq<char>)
    requires
        lex_lt(a, b),
        lex_lt(b, c),
    ensures
        lex_lt(a, c),
{
    lemma_lex_lt_from_transitive(a, b, c, 0);
}

/// A sorted set without duplicates never holds the same name twice.
pub proof fn lemma_sorted_unique_distinct(s: Seq<Seq<char>>)
    requires
        sorted_unique(s),
    ensures
        forall|p: int, q: int| 0 <= p < q < s.len() ==> s[p] != s[q],
{
    assert forall|p: int, q: int| 0 <= p < q < s.len() implies s[p] != s[q] by {
        lemma_lex_lt_asymmetric(s[p], s[q]);
    }
}

/// A set of names has exactly one sorted duplicate-free listing: two such
/// listings with the same members are identical.
pub proof fn lemma_sorted_unique_canonical(s: Seq<Seq<char>>, t: Seq<Seq<char>>)
    requires
        sorted_unique(s),
        sorted_unique(t),
        forall|x: Seq<char>| #[trigger] s.contains(x) <==> #[trigger] t.contains(x),
    ensures
        s =~= t,
    decreases s.len(),
{
    if s.len() == 0 {
        if t.len() > 0 {
            assert(t.contains(t[0]));
            assert(s.contains(t[0]));
        }
    } else if t.len() == 0 {
        assert(s.contains(s[0]));
        assert(t.contains(s[0]));
    } else {
        assert(s.contains(s[0]));
        assert(t.contains(s[0]));
        let k = choose|k: int| 0 <= k < t.len() && t[k] == s[0];
        if k > 0 {
            assert(t.contains(t[0]));
            assert(s.contains(t[0]));
            let m = choose|m: int| 0 <= m < s.len() && s[m] == t[0];
            if m > 0 {
                assert(lex_lt(s[0], s[m]));
                assert(lex_lt(t[0], t[k]));
                lemma_lex_lt_transitive(s[0], s[m], t[k]);
                lemma_lex_lt_asymmetric(s[0], t[k]);
            } else {
                assert(lex_lt(t[0], t[k]));
                lemma_lex_lt_asymmetric(t[0], t[k]);
            }
        }
        assert(s[0] == t[0]);
        let s1 = s.drop_first();
        let t1 = t.drop_first();
        assert forall|x: Seq<char>| #[trigger] s1.contains(x) implies t1.contains(x) by {
            let i = choose|i: int| 0 <= i < s1.len() && s1[i] == x;
            assert(s[i + 1] == x);
            assert(s.contains(x));
            assert(t.contains(x));
            let j = choose|j: int| 0 <= j < t.len() && t[j] == x;
            assert(lex_lt(s[0], s[i + 1]));
            lemma_lex_lt_asymmetric(s[0], s[i + 1]);
            assert(j != 0);
            assert(t1[j - 1] == x);
        }
        assert forall|x: Seq<char>| #[trigger] t1.contains(x) implies s1.contains(x) by {
            let i = choose|i: int| 0 <= i < t1.len() && t1[i] == x;
            assert(t[i + 1] == x);
            assert(t.contains(x));
            assert(s.contains(x));
            let j = choose|j: int| 0 <= j < s.len() && s[j] == x;
            assert(lex_lt(t[0], t[i + 1]));
            lemma_lex_lt_asymmetric(t[0], t[i + 1]);
            assert(j != 0);
            assert(s1[j - 1] == x);
        }
        lemma_sorted_unique_canonical(s1, t1);
        assert forall|p: int| 0 <= p < s.len() implies s[p] == t[p] by {
            if p > 0 {
                assert(s1[p - 1] == t1[p - 1]);
            }
        }
    }
}

/// Three-way outcome of comparing two names.
#[derive(Clone, Copy, PartialEq, Eq, Debug)]
pub enum NameCmp {
    Less,
    Equal,
    Greater,
}

/// Compares two names in lexicographic code-point order.
pub fn str_cmp(a: &str, b: &str) -> (r: NameCmp)
    ensures
        r is Less <==> lex_lt(a@, b@),
        r is Equal <==> a@ == b@,
        r is Greater <==> lex_lt(b@, a@),
{
    let alen = a.unicode_len();
    let blen = b.unicode_len();
    let mut i: usize = 0;
    while i < alen && i < blen
        invariant
            i <= alen,
            i <= blen,
            alen == a@.len(),
            blen == b@.len(),
            forall|j: int| 0 <= j < i ==> a@[j] == b@[j],
            lex_lt(a@, b@) == lex_lt_from(a@, b@, i as int),
            lex_lt(b@, a@) == lex_lt_from(b@, a@, i as int),
        decreases alen - i,
    {
        let ca = a.get_char(i);
        let cb = b.get_char(i);
        if (ca as u32) < (cb as u32) {
            return NameCmp::Less;
        } else if (cb as u32) < (ca as u32) {
            return NameCmp::Greater;
        } else {
            proof {
                lemma_char_code_injective(ca, cb);
            }
            i = i + 1;
        }
    }
    if alen < blen {
        NameCmp::Less
    } else if blen < alen {
        NameCmp::Greater
    } else {
        proof {
            assert(a@ =~= b@);
        }
        NameCmp::Equal
    }
}

} // verus!
