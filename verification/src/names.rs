//! The sorted set of executable base names collected from one side's
//! directories. Names are kept in a strictly increasing listing, so the set
//! holds no duplicate and its order is the order of the output.

use vstd::prelude::*;

use crate::order::NameCmp;
use crate::order::lemma_lex_lt_transitive;
use crate::order::lex_lt;
use crate::order::sorted_unique;
use crate::order::str_cmp;

verus! {

/// The names in a vector of strings, seen as character sequences.
pub open spec fn name_views(v: Seq<String>) -> Seq<Seq<char>> {
    v.map_values(|s: String| s@)
}


proof fn lemma_sorted_insert(pre: Seq<Seq<char>>, i: int, x: Seq<char>)
    requires
        sorted_unique(pre),
        0 <= i <= pre.len(),
        forall|j: int| 0 <= j < i ==> lex_lt(#[trigger] pre[j], x),
        i < pre.len() ==> lex_lt(x, pre[i]),
    ensures
        sorted_unique(pre.insert(i, x)),
        forall|y: Seq<char>| #[trigger] pre.insert(i, x).contains(y) <==> pre.contains(y) || y == x,
{
    pre.insert_ensures(i, x);
    let cur = pre.insert(i, x);
    assert forall|p: int, q: int| 0 <= p < q < cur.len() implies lex_lt(cur[p], cur[q]) by {
        if p < i && q < i {
        } else if p < i && q == i {
        } else if p == i && q > i {
            assert(cur[q] == pre[q - 1]);
            if q - 1 > i {
                lemma_lex_lt_transitive(x, pre[i], pre[q - 1]);
            }
        } else if p < i && q > i {
            assert(cur[q] == pre[q - 1]);
            if q - 1 == i {
                lemma_lex_lt_transitive(pre[p], x, cur[q]);
            } else {
                assert(lex_lt(pre[p], pre[q - 1]));
            }
        } else if p > i && q > i {
            assert(cur[p] == pre[p - 1]);
            assert(cur[q] == pre[q - 1]);
        }
    }
    assert forall|y: Seq<char>| #[trigger] cur.contains(y) implies (pre.contains(y) || y == x) by {
        let k = cur.index_of(y);
        if k < i {
            assert(pre[k] == y);
        } else if k > i {
            assert(pre[k - 1] == y);
        }
    }
    assert forall|y: Seq<char>| pre.contains(y) || y == x implies #[trigger] cur.contains(y) by {
        if pre.contains(y) {
            let k = pre.index_of(y);
            if k < i {
                assert(cur[k] == y);
            } else {
                assert(cur[k + 1] == y);
            }
        } else {
            assert(cur[i] == x);
        }
    }
}

/// A set of executable base names, one entry per name, in lexicographic
/// order.
pub struct ExecutableSet {
    names: Vec<String>,
}

impl View for ExecutableSet {
    type V = Seq<Seq<char>>;

    closed spec fn view(&self) -> Seq<Seq<char>> {
        name_views(self.names@)
    }
}

impl ExecutableSet {
    /// The listing is sorted with no duplicate: the invariant every
    /// constructor establishes and every method keeps.
    pub open spec fn wf(&self) -> bool {
        sorted_unique(self@)
    }

    /// The empty set.
    pub fn new() -> (r: Self)
        ensures
            r.wf(),
            r@ == Seq::<Seq<char>>::empty(),
    {
        let r = ExecutableSet { names: Vec::new() };
        proof {
            assert(r@ =~= Seq::<Seq<char>>::empty());
        }
        r
    }

    /// How many names the set holds.
    pub fn len(&self) -> (n: usize)
        ensures
            n == self@.len(),
    {
        self.names.len()
    }

    /// The name at position `i` of the sorted listing.
    pub fn name_at(&self, i: usize) -> (s: &String)
        requires
            i < self@.len(),
        ensures
            s@ == self@[i as int],
    {
        &self.names[i]
    }

    /// The number of names strictly below `name`; every name from that
    /// position on is at or above `name`.
    fn lower_bound(&self, name: &str) -> (i: usize)
        requires
            self.wf(),
        ensures
            i <= self@.len(),
            forall|j: int| 0 <= j < i ==> lex_lt(self@[j], name@),
            i < self@.len() ==> !lex_lt(self@[i as int], name@),
    {
        let mut i: usize = 0;
        while i < self.names.len()
            invariant
                self.wf(),
                i <= self@.len(),
                forall|j: int| 0 <= j < i ==> lex_lt(self@[j], name@),
            ensures
                i <= self@.len(),
                forall|j: int| 0 <= j < i ==> lex_lt(self@[j], name@),
                i == self@.len() || !lex_lt(self@[i as int], name@),
            decreases self@.len() - i,
        {
            let c = str_cmp(self.names[i].as_str(), name);
            match c {
                NameCmp::Less => {
                    i = i + 1;
                },
                _ => {
                    break;
                },
            }
        }
        i
    }

    /// Inserts `name`. The set afterwards holds exactly the old names and
    /// `name`, still sorted and duplicate-free; inserting a name the set
    /// already holds leaves it unchanged.
    pub fn insert(&mut self, name: String)
        requires
            old(self).wf(),
        ensures
            final(self).wf(),
            forall|x: Seq<char>|
                #[trigger] final(self)@.contains(x) <==> old(self)@.contains(x) || x == name@,
    {
        let i = self.lower_bound(name.as_str());
        if i < self.names.len() {
            let c = str_cmp(self.names[i].as_str(), name.as_str());
            match c {
                NameCmp::Equal => {
                    proof {
                        assert(self@[i as int] == name@);
                        assert(self@.contains(name@));
                    }
                    return;
                },
                _ => {},
            }
        }
        proof {
            if i < self@.len() {
                assert(lex_lt(name@, self@[i as int]));
            }
        }
        let ghost prior = self.names@;
        self.names.insert(i, name);
        proof {
            lemma_sorted_insert(name_views(prior), i as int, name@);
            assert(self@ =~= name_views(prior).insert(i as int, name@)) by {
                prior.insert_ensures(i as int, name);
                name_views(prior).insert_ensures(i as int, name@);
                assert(self@ =~= name_views(prior.insert(i as int, name)));
            }
        }
    }

    /// Builds the set of a side's collected names: the listing the
    /// directories produced, with duplicates collapsed. The set holds a name
    /// exactly when the listing holds it.
    pub fn from_names(list: &Vec<String>) -> (r: Self)
        ensures
            r.wf(),
            forall|x: Seq<char>|
                #[trigger] r@.contains(x) <==> name_views(list@).contains(x),
    {
        let mut r = ExecutableSet::new();
        let mut i: usize = 0;
        while i < list.len()
            invariant
                r.wf(),
                i <= list@.len(),
                forall|x: Seq<char>|
                    #[trigger] r@.contains(x) <==> name_views(list@).take(i as int).contains(x),
            decreases list@.len() - i,
        {
            let name = list[i].clone();
            proof {
                assert(name@ == name_views(list@)[i as int]);
            }
            r.insert(name);
            proof {
                let pre = name_views(list@).take(i as int);
                let cur = name_views(list@).take(i as int + 1);
                assert(cur.drop_last() =~= pre);
                assert(cur.last() == name_views(list@)[i as int]);
                assert forall|x: Seq<char>| #[trigger] cur.contains(x) implies
                    (pre.contains(x) || x == name_views(list@)[i as int]) by {
                    let k = choose|k: int| 0 <= k < cur.len() && cur[k] == x;
                    if k < i {
                        assert(pre[k] == x);
                    }
                }
                assert forall|x: Seq<char>|
                    pre.contains(x) || x == name_views(list@)[i as int] implies
                    #[trigger] cur.contains(x) by {
                    if pre.contains(x) {
                        let k = choose|k: int| 0 <= k < pre.len() && pre[k] == x;
                        assert(cur[k] == x);
                    } else {
                        assert(cur[i as int] == x);
                    }
                }
            }
            i = i + 1;
        }
        proof {
            assert(name_views(list@).take(i as int) =~= name_views(list@));
        }
        r
    }
}

/// A set of executable names never lists a name twice, however many
/// directories contributed it.
pub proof fn lemma_set_no_duplicates(s: &ExecutableSet)
    requires
        s.wf(),
    ensures
        forall|p: int, q: int| 0 <= p < q < s@.len() ==> s@[p] != s@[q],
{
    crate::order::lemma_sorted_unique_distinct(s@);
}

} // verus!
