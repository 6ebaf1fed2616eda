//! The symmetric difference of the two sides' executable-name sets: every
//! name present in exactly one of them, in lexicographic order, tagged with
//! the side that holds it.

use vstd::prelude::*;

use crate::names::ExecutableSet;
use crate::order::NameCmp;
use crate::order::lemma_lex_lt_asymmetric;
use crate::order::lemma_lex_lt_transitive;
use crate::order::lemma_sorted_unique_canonical;
use crate::order::lex_lt;
use crate::order::sorted_unique;
use crate::order::str_cmp;

verus! {

broadcast use vstd::seq_lib::lemma_seq_contains_after_push;

/// The side of the comparison a differing name belongs to.
#[derive(Clone, Copy, PartialEq, Eq, Structural, Debug)]
pub enum Origin {
    /// The name is only in the first path list's set.
    First,
    /// The name is only in the second path list's set.
    Second,
}

/// A name present in exactly one of the two sets, tagged with its side.
pub struct DifferenceEntry {
    pub name: String,
    pub origin: Origin,
}

/// The names of the entries, in order.
pub open spec fn entry_names(es: Seq<DifferenceEntry>) -> Seq<Seq<char>> {
    es.map_values(|e: DifferenceEntry| e.name@)
}

proof fn lemma_entry_names_push(es: Seq<DifferenceEntry>, e: DifferenceEntry)
    ensures
        entry_names(es.push(e)) =~= entry_names(es).push(e.name@),
{
}

/// One step of membership in a growing prefix: the names of `s.take(i + 1)`
/// are those of `s.take(i)` and `s[i]`.
proof fn lemma_take_step(s: Seq<Seq<char>>, i: int, x: Seq<char>)
    requires
        0 <= i < s.len(),
    ensures
        s.take(i + 1).contains(x) <==> (s.take(i).contains(x) || x == s[i]),
{
    let t = s.take(i + 1);
    let u = s.take(i);
    if t.contains(x) {
        let k = t.index_of(x);
        if k < i {
            assert(u[k] == x);
        } else {
            assert(x == s[i]);
        }
    }
    if u.contains(x) {
        let k = u.index_of(x);
        assert(t[k] == x);
    }
    if x == s[i] {
        assert(t[i] == x);
    }
}

/// `es` lists, in strictly increasing order, exactly the names in one of `a`
/// and `b` but not the other, each tagged with the side that holds it.
pub open spec fn is_symmetric_difference(
    a: Seq<Seq<char>>,
    b: Seq<Seq<char>>,
    es: Seq<DifferenceEntry>,
) -> bool {
    &&& sorted_unique(entry_names(es))
    &&& forall|x: Seq<char>|
        #[trigger] entry_names(es).contains(x) <==> (a.contains(x) != b.contains(x))
    &&& forall|k: int|
        0 <= k < es.len() ==> ((#[trigger] es[k]).origin is First <==> a.contains(es[k].name@))
    &&& forall|k: int|
        0 <= k < es.len() ==> ((#[trigger] es[k]).origin is Second <==> b.contains(es[k].name@))
}

/// Computes the symmetric difference of the two sides' sets, tagging each
/// name with the side it came from, in lexicographic order of the names.
#[verifier::rlimit(40)]
pub fn symmetric_difference(a: &ExecutableSet, b: &ExecutableSet) -> (r: Vec<DifferenceEntry>)
    requires
        a.wf(),
        b.wf(),
    ensures
        is_symmetric_difference(a@, b@, r@),
{
    let mut out: Vec<DifferenceEntry> = Vec::new();
    let mut i: usize = 0;
    let mut j: usize = 0;
    let alen = a.len();
    let blen = b.len();
    proof {
        assert(a@.take(0) =~= Seq::<Seq<char>>::empty());
        assert(b@.take(0) =~= Seq::<Seq<char>>::empty());
        assert(entry_names(out@) =~= Seq::<Seq<char>>::empty());
    }
    while i < alen || j < blen
        invariant
            a.wf(),
            b.wf(),
            alen == a@.len(),
            blen == b@.len(),
            i <= alen,
            j <= blen,
            sorted_unique(entry_names(out@)),
            forall|m: int|
                0 <= m < out@.len() && i < alen ==> lex_lt(
                    #[trigger] entry_names(out@)[m],
                    a@[i as int],
                ),
            forall|m: int|
                0 <= m < out@.len() && j < blen ==> lex_lt(
                    #[trigger] entry_names(out@)[m],
                    b@[j as int],
                ),
            forall|k: int| 0 <= k < j && i < alen ==> lex_lt(#[trigger] b@[k], a@[i as int]),
            forall|k: int| 0 <= k < i && j < blen ==> lex_lt(#[trigger] a@[k], b@[j as int]),
            forall|x: Seq<char>|
                #[trigger] entry_names(out@).contains(x) <==> (a@.take(i as int).contains(x)
                    != b@.take(j as int).contains(x)),
            forall|k: int|
                0 <= k < out@.len() ==> ((#[trigger] out@[k]).origin is First <==> a@.contains(
                    out@[k].name@,
                )),
            forall|k: int|
                0 <= k < out@.len() ==> ((#[trigger] out@[k]).origin is Second <==> b@.contains(
                    out@[k].name@,
                )),
        decreases alen - i + blen - j,
    {
        let ghost pre = out@;
        let ghost pi = i as int;
        let ghost pj = j as int;
        let emit_first: bool;
        let emit_second: bool;
        if i < alen && j < blen {
            let c = str_cmp(a.name_at(i).as_str(), b.name_at(j).as_str());
            match c {
                NameCmp::Less => {
                    emit_first = true;
                    emit_second = false;
                },
                NameCmp::Greater => {
                    emit_first = false;
                    emit_second = true;
                },
                NameCmp::Equal => {
                    emit_first = false;
                    emit_second = false;
                },
            }
        } else if i < alen {
            emit_first = true;
            emit_second = false;
        } else {
            emit_first = false;
            emit_second = true;
        }
        if emit_first {
            // the head of `a` is below everything left in `b`
            let e = DifferenceEntry { name: a.name_at(i).clone(), origin: Origin::First };
            out.push(e);
            i = i + 1;
            proof {
                let x = a@[pi];
                lemma_entry_names_push(pre, e);
                assert forall|k: int| 0 <= k < blen implies b@[k] != x by {
                    if k < pj {
                        lemma_lex_lt_asymmetric(b@[k], x);
                    } else {
                        if k > pj {
                            lemma_lex_lt_transitive(x, b@[pj], b@[k]);
                        }
                        lemma_lex_lt_asymmetric(x, b@[k]);
                    }
                }
                assert(!b@.contains(x)) by {
                    if b@.contains(x) {
                        let k = choose|k: int| 0 <= k < b@.len() && b@[k] == x;
                        assert(b@[k] != x);
                    }
                }
                assert(!b@.take(pj).contains(x)) by {
                    if b@.take(pj).contains(x) {
                        let k = b@.take(pj).index_of(x);
                        assert(b@[k] != x);
                    }
                }
                assert(a@.contains(x));
                assert forall|y: Seq<char>|
                    #[trigger] entry_names(out@).contains(y) <==> (a@.take(i as int).contains(y)
                        != b@.take(j as int).contains(y)) by {
                    lemma_take_step(a@, pi, y);
                    assert(entry_names(out@) == entry_names(pre).push(x));
                }
                assert forall|m: int|
                    0 <= m < out@.len() && i < alen implies lex_lt(
                        #[trigger] entry_names(out@)[m],
                        a@[i as int],
                    ) by {
                    if m < pre.len() {
                        lemma_lex_lt_transitive(entry_names(pre)[m], x, a@[pi + 1]);
                    }
                }
                assert forall|m: int|
                    0 <= m < out@.len() && j < blen implies lex_lt(
                        #[trigger] entry_names(out@)[m],
                        b@[j as int],
                    ) by {
                    assert(lex_lt(x, b@[pj]));
                }
                assert forall|k: int| 0 <= k < j && i < alen implies lex_lt(
                    #[trigger] b@[k],
                    a@[i as int],
                ) by {
                    lemma_lex_lt_transitive(b@[k], x, a@[pi + 1]);
                }
            }
        } else if emit_second {
            // the head of `b` is below everything left in `a`
            let e = DifferenceEntry { name: b.name_at(j).clone(), origin: Origin::Second };
            out.push(e);
            j = j + 1;
            proof {
                let x = b@[pj];
                lemma_entry_names_push(pre, e);
                assert forall|k: int| 0 <= k < alen implies a@[k] != x by {
                    if k < pi {
                        lemma_lex_lt_asymmetric(a@[k], x);
                    } else {
                        if k > pi {
                            lemma_lex_lt_transitive(x, a@[pi], a@[k]);
                        }
                        lemma_lex_lt_asymmetric(x, a@[k]);
                    }
                }
                assert(!a@.contains(x)) by {
                    if a@.contains(x) {
                        let k = choose|k: int| 0 <= k < a@.len() && a@[k] == x;
                        assert(a@[k] != x);
                    }
                }
                assert(!a@.take(pi).contains(x)) by {
                    if a@.take(pi).contains(x) {
                        let k = a@.take(pi).index_of(x);
                        assert(a@[k] != x);
                    }
                }
                assert(b@.contains(x));
                assert forall|y: Seq<char>|
                    #[trigger] entry_names(out@).contains(y) <==> (a@.take(i as int).contains(y)
                        != b@.take(j as int).contains(y)) by {
                    lemma_take_step(b@, pj, y);
                    assert(entry_names(out@) == entry_names(pre).push(x));
                }
                assert forall|m: int|
                    0 <= m < out@.len() && j < blen implies lex_lt(
                        #[trigger] entry_names(out@)[m],
                        b@[j as int],
                    ) by {
                    if m < pre.len() {
                        lemma_lex_lt_transitive(entry_names(pre)[m], x, b@[pj + 1]);
                    }
                }
                assert forall|m: int|
                    0 <= m < out@.len() && i < alen implies lex_lt(
                        #[trigger] entry_names(out@)[m],
                        a@[i as int],
                    ) by {
                    assert(lex_lt(x, a@[pi]));
                }
                assert forall|k: int| 0 <= k < i && j < blen implies lex_lt(
                    #[trigger] a@[k],
                    b@[j as int],
                ) by {
                    lemma_lex_lt_transitive(a@[k], x, b@[pj + 1]);
                }
            }
        } else {
            // the same name heads both sides: it is in the intersection
            i = i + 1;
            j = j + 1;
            proof {
                let x = a@[pi];
                assert(b@[pj] == x);
                assert(!entry_names(out@).contains(x)) by {
                    if entry_names(out@).contains(x) {
                        let m = choose|m: int|
                            0 <= m < entry_names(out@).len() && entry_names(out@)[m] == x;
                        lemma_lex_lt_asymmetric(entry_names(out@)[m], x);
                    }
                }
                assert forall|y: Seq<char>|
                    #[trigger] entry_names(out@).contains(y) <==> (a@.take(i as int).contains(y)
                        != b@.take(j as int).contains(y)) by {
                    lemma_take_step(a@, pi, y);
                    lemma_take_step(b@, pj, y);
                }
                assert forall|m: int|
                    0 <= m < out@.len() && i < alen implies lex_lt(
                        #[trigger] entry_names(out@)[m],
                        a@[i as int],
                    ) by {
                    lemma_lex_lt_transitive(entry_names(out@)[m], x, a@[pi + 1]);
                }
                assert forall|m: int|
                    0 <= m < out@.len() && j < blen implies lex_lt(
                        #[trigger] entry_names(out@)[m],
                        b@[j as int],
                    ) by {
                    lemma_lex_lt_transitive(entry_names(out@)[m], b@[pj], b@[pj + 1]);
                }
                assert forall|k: int| 0 <= k < j && i < alen implies lex_lt(
                    #[trigger] b@[k],
                    a@[i as int],
                ) by {
                    if k < pj {
                        lemma_lex_lt_transitive(b@[k], x, a@[pi + 1]);
                    }
                }
                assert forall|k: int| 0 <= k < i && j < blen implies lex_lt(
                    #[trigger] a@[k],
                    b@[j as int],
                ) by {
                    if k < pi {
                        lemma_lex_lt_transitive(a@[k], b@[pj], b@[pj + 1]);
                    }
                }
            }
        }
    }
    proof {
        assert(a@.take(i as int) =~= a@);
        assert(b@.take(j as int) =~= b@);
    }
    out
}

/// A name both sides hold is never reported: the symmetric difference is
/// disjoint from the intersection.
pub proof fn lemma_difference_disjoint_from_intersection(
    a: Seq<Seq<char>>,
    b: Seq<Seq<char>>,
    es: Seq<DifferenceEntry>,
)
    requires
        is_symmetric_difference(a, b, es),
    ensures
        forall|x: Seq<char>|
            a.contains(x) && b.contains(x) ==> !(#[trigger] entry_names(es).contains(x)),
{
}

/// Two listings of the symmetric difference of the same two sets agree entry
/// by entry: the comparison is a function of the two sets alone, so repeating
/// it over unchanged inputs reproduces the same result.
pub proof fn lemma_difference_deterministic(
    a: Seq<Seq<char>>,
    b: Seq<Seq<char>>,
    e1: Seq<DifferenceEntry>,
    e2: Seq<DifferenceEntry>,
)
    requires
        is_symmetric_difference(a, b, e1),
        is_symmetric_difference(a, b, e2),
    ensures
        e1.len() == e2.len(),
        forall|k: int|
            0 <= k < e1.len() ==> (#[trigger] e1[k]).name@ == e2[k].name@ && e1[k].origin
                == e2[k].origin,
{
    assert forall|x: Seq<char>|
        #[trigger] entry_names(e1).contains(x) <==> #[trigger] entry_names(e2).contains(x) by {}
    lemma_sorted_unique_canonical(entry_names(e1), entry_names(e2));
    assert forall|k: int|
        0 <= k < e1.len() implies (#[trigger] e1[k]).name@ == e2[k].name@ && e1[k].origin
        == e2[k].origin by {
        assert(entry_names(e1)[k] == entry_names(e2)[k]);
        assert(e1[k].name@ == e2[k].name@);
        assert(e1[k].origin is First <==> a.contains(e1[k].name@));
        assert(e2[k].origin is First <==> a.contains(e2[k].name@));
        if e1[k].origin is First {
            assert(e1[k].origin == Origin::First);
            assert(e2[k].origin == Origin::First);
        } else {
            assert(e1[k].origin == Origin::Second);
            assert(e2[k].origin == Origin::Second);
        }
    }
}

} // verus!
