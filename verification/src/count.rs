//! Counting lemmas for lists of distinct indices.

use vstd::prelude::*;
use vstd::set_lib::{lemma_int_range, lemma_len_subset, set_int_range};
use crate::text::distinct;

verus! {

/// Every element of `s` is an index below `n`.
pub open spec fn below(s: Seq<int>, n: int) -> bool {
    forall|k: int| 0 <= k < s.len() ==> 0 <= #[trigger] s[k] < n
}

/// A list of distinct indices below `n` has at most `n` elements; fewer
/// where an index is missing from it, and exactly `n` where none is.
pub proof fn lemma_distinct_below(s: Seq<int>, n: int)
    requires
        0 <= n,
        distinct(s),
        below(s, n),
    ensures
        s.len() <= n,
        (exists|p: int| 0 <= p < n && !s.contains(p)) ==> s.len() < n,
        (forall|p: int| 0 <= p < n ==> s.contains(p)) ==> s.len() == n,
{
    assert(s.no_duplicates());
    s.unique_seq_to_set();
    lemma_int_range(0, n);
    let all = set_int_range(0, n);
    assert(s.to_set().subset_of(all)) by {
        assert forall|x: int| s.to_set().contains(x) implies all.contains(x) by {
            let k = choose|k: int| 0 <= k < s.len() && s[k] == x;
            assert(0 <= s[k] < n);
        }
    }
    lemma_len_subset(s.to_set(), all);
    if exists|p: int| 0 <= p < n && !s.contains(p) {
        let p = choose|p: int| 0 <= p < n && !s.contains(p);
        assert(s.to_set().subset_of(all.remove(p)));
        lemma_len_subset(s.to_set(), all.remove(p));
    }
    if forall|p: int| 0 <= p < n ==> s.contains(p) {
        assert(s.to_set() =~= all);
    }
}

} // verus!
