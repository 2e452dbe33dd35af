//! Facts about filtering a sequence, as the contracts of this crate use it.

use vstd::prelude::*;
use crate::cell::{ascending, universe};

verus! {

/// Extending the range of candidates by one extends the filtered list by
/// that candidate, or leaves it alone.
pub proof fn lemma_universe_filter_step(n: nat, keep: spec_fn(usize) -> bool)
    requires
        n <= usize::MAX,
    ensures
        universe(n + 1).filter(keep) == if keep(n as usize) {
            universe(n).filter(keep).push(n as usize)
        } else {
            universe(n).filter(keep)
        },
        universe(0).filter(keep) == Seq::<usize>::empty(),
{
    reveal(Seq::filter);
    assert(universe(n + 1).drop_last() =~= universe(n));
}

/// The candidates of a range that pass a filter come out in ascending
/// order, and each of them lies in the range.
pub proof fn lemma_universe_filter_ascending(n: nat, keep: spec_fn(usize) -> bool)
    requires
        n <= usize::MAX,
    ensures
        ascending(universe(n).filter(keep)),
        forall|i: int|
            0 <= i < universe(n).filter(keep).len() ==> (#[trigger] universe(n).filter(keep)[i]) < n,
    decreases n,
{
    if n == 0 {
        lemma_universe_filter_step(0, keep);
    } else {
        lemma_universe_filter_ascending((n - 1) as nat, keep);
        lemma_universe_filter_step((n - 1) as nat, keep);
    }
}

/// Filtering by two predicates that agree on every item gives the same list.
pub proof fn lemma_filter_same<A>(s: Seq<A>, p: spec_fn(A) -> bool, q: spec_fn(A) -> bool)
    requires
        forall|i: int| 0 <= i < s.len() ==> p(#[trigger] s[i]) == q(s[i]),
    ensures
        s.filter(p) == s.filter(q),
    decreases s.len(),
{
    reveal(Seq::filter);
    if s.len() > 0 {
        let front = s.drop_last();
        assert forall|i: int| 0 <= i < front.len() implies p(#[trigger] front[i]) == q(front[i]) by {
            assert(front[i] == s[i]);
        }
        lemma_filter_same(front, p, q);
    }
}

/// Filtering by a predicate that holds of every item changes nothing.
pub proof fn lemma_filter_all<A>(s: Seq<A>, p: spec_fn(A) -> bool)
    requires
        forall|i: int| 0 <= i < s.len() ==> p(#[trigger] s[i]),
    ensures
        s.filter(p) == s,
    decreases s.len(),
{
    reveal(Seq::filter);
    if s.len() > 0 {
        let front = s.drop_last();
        assert forall|i: int| 0 <= i < front.len() implies p(#[trigger] front[i]) by {
            assert(front[i] == s[i]);
        }
        lemma_filter_all(front, p);
        assert(front.push(s.last()) =~= s);
    }
}

/// Filtering twice is filtering once by both predicates.
pub proof fn lemma_filter_twice<A>(
    s: Seq<A>,
    p: spec_fn(A) -> bool,
    q: spec_fn(A) -> bool,
    both: spec_fn(A) -> bool,
)
    requires
        forall|i: int| 0 <= i < s.len() ==> both(#[trigger] s[i]) == (p(s[i]) && q(s[i])),
    ensures
        s.filter(p).filter(q) == s.filter(both),
    decreases s.len(),
{
    reveal(Seq::filter);
    if s.len() > 0 {
        let front = s.drop_last();
        assert forall|i: int| 0 <= i < front.len() implies both(#[trigger] front[i]) == (p(front[i])
            && q(front[i])) by {
            assert(front[i] == s[i]);
        }
        lemma_filter_twice(front, p, q, both);
        if p(s.last()) {
            // The last item passed the first filter, so it is the last item
            // that the second filter looks at.
            assert(front.filter(p).push(s.last()).drop_last() =~= front.filter(p));
        }
    }
}

/// A filtered list holds exactly the items that pass, of the list it was
/// made from.
pub proof fn lemma_filter_members<A>(s: Seq<A>, p: spec_fn(A) -> bool, x: A)
    ensures
        s.filter(p).contains(x) <==> s.contains(x) && p(x),
    decreases s.len(),
{
    reveal(Seq::filter);
    if s.len() > 0 {
        let front = s.drop_last();
        lemma_filter_members(front, p, x);
        assert(s =~= front.push(s.last()));
        if s.contains(x) && x != s.last() {
            let w = choose|w: int| 0 <= w < s.len() && s[w] == x;
            assert(front[w] == x);
        }
        if front.filter(p).contains(x) {
            let at = choose|at: int| 0 <= at < front.filter(p).len() && front.filter(p)[at] == x;
            assert(s.filter(p)[at] == x);
        }
        if p(s.last()) {
            assert(s.filter(p)[front.filter(p).len() as int] == s.last());
        }
    }
}

} // verus!
