//! Turning the tagged names of the symmetric difference into output lines.
//! The polarity is fixed: a name unique to the first path list appears bare,
//! a name unique to the second is prefixed with a single tab.

use vstd::prelude::*;

use crate::diff::DifferenceEntry;
use crate::diff::Origin;
use crate::diff::entry_names;
use crate::diff::is_symmetric_difference;
use crate::diff::lemma_difference_deterministic;
use crate::order::lex_lt;
use crate::order::sorted_unique;

verus! {

/// The output line for one entry: the bare name for the first side, the name
/// behind one tab for the second.
pub open spec fn line_of(e: DifferenceEntry) -> Seq<char> {
    if e.origin is First {
        e.name@
    } else {
        seq!['\t'] + e.name@
    }
}

/// The output lines for a listing of the difference, in order.
pub open spec fn lines_of(es: Seq<DifferenceEntry>) -> Seq<Seq<char>> {
    es.map_values(|e: DifferenceEntry| line_of(e))
}

/// Renders the entries of the symmetric difference, one line each, in the
/// order given.
pub fn format_entries(es: &Vec<DifferenceEntry>) -> (r: Vec<String>)
    ensures
        r@.len() == es@.len(),
        forall|k: int| 0 <= k < es@.len() ==> (#[trigger] r@[k])@ == line_of(es@[k]),
{
    let mut r: Vec<String> = Vec::new();
    let mut i: usize = 0;
    while i < es.len()
        invariant
            i <= es@.len(),
            r@.len() == i,
            forall|k: int| 0 <= k < i ==> (#[trigger] r@[k])@ == line_of(es@[k]),
        decreases es@.len() - i,
    {
        let e = &es[i];
        let line = match e.origin {
            Origin::First => e.name.clone(),
            Origin::Second => {
                let mut s = String::from_str("\t");
                s.append(e.name.as_str());
                proof {
                    reveal_strlit("\t");
                    assert(s@ =~= seq!['\t'] + e.name@);
                }
                s
            },
        };
        r.push(line);
        i = i + 1;
    }
    r
}

/// Running the comparison twice over unchanged sets prints the very same
/// lines: the output is a function of the two sets alone.
pub proof fn lemma_output_deterministic(
    a: Seq<Seq<char>>,
    b: Seq<Seq<char>>,
    e1: Seq<DifferenceEntry>,
    e2: Seq<DifferenceEntry>,
)
    requires
        is_symmetric_difference(a, b, e1),
        is_symmetric_difference(a, b, e2),
    ensures
        lines_of(e1) =~= lines_of(e2),
{
    lemma_difference_deterministic(a, b, e1, e2);
}

/// The order invariant of the output: the bare names behind the lines come
/// in strictly increasing lexicographic order, whatever tab prefixes the
/// lines carry.
pub proof fn lemma_lines_strictly_increasing(es: Seq<DifferenceEntry>)
    requires
        sorted_unique(entry_names(es)),
    ensures
        forall|p: int, q: int|
            0 <= p < q < es.len() ==> lex_lt(#[trigger] es[p].name@, #[trigger] es[q].name@),
{
    assert forall|p: int, q: int|
        0 <= p < q < es.len() implies lex_lt(#[trigger] es[p].name@, #[trigger] es[q].name@) by {
        assert(entry_names(es)[p] == es[p].name@);
        assert(entry_names(es)[q] == es[q].name@);
    }
}

} // verus!
