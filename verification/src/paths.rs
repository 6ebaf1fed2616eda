//! Splitting a colon-separated path list into its directory paths. An empty
//! list is one empty path; each colon ends the piece before it, so repeated
//! or trailing colons produce empty pieces. Empty or malformed pieces are no
//! error here: the directory scan simply finds nothing behind them.

use vstd::prelude::*;

use crate::names::name_views;

verus! {

/// The pieces of `s` split on `:`.
pub open spec fn split_colon(s: Seq<char>) -> Seq<Seq<char>>
    decreases s.len(),
{
    if s.len() == 0 {
        seq![Seq::<char>::empty()]
    } else {
        let init = split_colon(s.drop_last());
        if s.last() == ':' {
            init.push(Seq::<char>::empty())
        } else {
            init.update(init.len() - 1, init.last().push(s.last()))
        }
    }
}

/// Splitting always yields at least one piece.
pub proof fn lemma_split_colon_len(s: Seq<char>)
    ensures
        split_colon(s).len() >= 1,
    decreases s.len(),
{
    if s.len() > 0 {
        lemma_split_colon_len(s.drop_last());
    }
}

/// Splits a path list on `:` into its directory paths.
pub fn split_path_list(s: &str) -> (r: Vec<String>)
    ensures
        name_views(r@) == split_colon(s@),
{
    let n = s.unicode_len();
    let mut r: Vec<String> = Vec::new();
    let mut start: usize = 0;
    let mut i: usize = 0;
    proof {
        assert(s@.take(0) =~= Seq::<char>::empty());
        assert(split_colon(s@.take(0)) =~= seq![Seq::<char>::empty()]);
        assert(name_views(r@).push(s@.subrange(0, 0)) =~= seq![Seq::<char>::empty()]);
    }
    while i < n
        invariant
            start <= i <= n,
            n == s@.len(),
            split_colon(s@.take(i as int)) =~= name_views(r@).push(
                s@.subrange(start as int, i as int),
            ),
        decreases n - i,
    {
        let ghost pre_r = r@;
        let ghost pre_start = start as int;
        let c = s.get_char(i);
        if c == ':' {
            let piece = String::from_str(s.substring_char(start, i));
            r.push(piece);
            start = i + 1;
        }
        i = i + 1;
        proof {
            let t = s@.take(i as int);
            lemma_split_colon_len(t.drop_last());
            assert(t.drop_last() =~= s@.take(i as int - 1));
            assert(t.last() == s@[i as int - 1]);
            let init = split_colon(t.drop_last());
            assert(init =~= name_views(pre_r).push(s@.subrange(pre_start, i as int - 1)));
            if c == ':' {
                assert(split_colon(t) =~= init.push(Seq::<char>::empty()));
                assert(name_views(r@) =~= name_views(pre_r).push(
                    s@.subrange(pre_start, i as int - 1),
                ));
                assert(s@.subrange(start as int, i as int) =~= Seq::<char>::empty());
                assert(split_colon(t) =~= name_views(r@).push(
                    s@.subrange(start as int, i as int),
                ));
            } else {
                assert(split_colon(t) =~= init.update(init.len() - 1, init.last().push(t.last())));
                assert(init.last() == s@.subrange(pre_start, i as int - 1));
                assert(s@.subrange(pre_start, i as int - 1).push(s@[i as int - 1]) =~= s@.subrange(
                    pre_start,
                    i as int,
                ));
                assert(split_colon(t) =~= name_views(r@).push(
                    s@.subrange(start as int, i as int),
                ));
            }
        }
    }
    let piece = String::from_str(s.substring_char(start, n));
    r.push(piece);
    proof {
        assert(s@.take(n as int) =~= s@);
        assert(name_views(r@) =~= split_colon(s@));
    }
    r
}

} // verus!
