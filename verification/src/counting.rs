use vstd::prelude::*;

verus! {

/// Number of `i` in `0..n` that satisfy `p`.
pub open spec fn count_where(n: int, p: spec_fn(int) -> bool) -> nat
    decreases n,
{
    if n <= 0 {
        0
    } else {
        count_where(n - 1, p) + if p(n - 1) { 1nat } else { 0nat }
    }
}

/// Sum of `f(i)` over `i` in `0..n`.
pub open spec fn sum_of(n: int, f: spec_fn(int) -> nat) -> nat
    decreases n,
{
    if n <= 0 {
        0
    } else {
        sum_of(n - 1, f) + f(n - 1)
    }
}

pub open spec fn clamp_usize(v: nat) -> usize {
    if v > usize::MAX { usize::MAX } else { v as usize }
}

pub proof fn lemma_count_bound(n: int, p: spec_fn(int) -> bool)
    requires
        n >= 0,
    ensures
        count_where(n, p) <= n,
    decreases n,
{
    if n > 0 {
        lemma_count_bound(n - 1, p);
    }
}

/// Counts depend only on the predicate below `n`.
pub proof fn lemma_count_where_same(n: int, p: spec_fn(int) -> bool, q: spec_fn(int) -> bool)
    requires
        forall|i: int| 0 <= i < n ==> #[trigger] p(i) == q(i),
    ensures
        count_where(n, p) == count_where(n, q),
    decreases n,
{
    if n > 0 {
        lemma_count_where_same(n - 1, p, q);
    }
}

/// The `i` in `0..n` that satisfy `p`, in increasing order.
pub open spec fn positions(n: int, p: spec_fn(int) -> bool) -> Seq<int>
    decreases n,
{
    if n <= 0 {
        Seq::empty()
    } else {
        let r = positions(n - 1, p);
        if p(n - 1) { r.push(n - 1) } else { r }
    }
}

/// The positions are increasing, below `n`, satisfy `p`, and include every
/// such `i`.
pub proof fn lemma_positions(n: int, p: spec_fn(int) -> bool)
    requires
        n >= 0,
    ensures
        forall|a: int, b: int| 0 <= a < b < positions(n, p).len() ==> positions(n, p)[a] < positions(n, p)[b],
        forall|a: int| 0 <= a < positions(n, p).len() ==> 0 <= #[trigger] positions(n, p)[a] < n && p(positions(n, p)[a]),
        forall|i: int| 0 <= i < n && p(i) ==> #[trigger] positions(n, p).contains(i),
        positions(n, p).len() <= n,
    decreases n,
{
    if n > 0 {
        lemma_positions(n - 1, p);
        let r = positions(n - 1, p);
        assert forall|i: int| 0 <= i < n && p(i) implies #[trigger] positions(n, p).contains(i) by {
            if i < n - 1 {
                assert(r.contains(i));
                let k = choose|k: int| 0 <= k < r.len() && r[k] == i;
                assert(positions(n, p)[k] == i);
            } else {
                assert(positions(n, p)[r.len() as int] == i);
            }
        }
    }
}

/// Positions depend only on the predicate below `n`.
pub proof fn lemma_positions_ext(n: int, p: spec_fn(int) -> bool, q: spec_fn(int) -> bool)
    requires
        forall|i: int| 0 <= i < n ==> #[trigger] p(i) == q(i),
    ensures
        positions(n, p) == positions(n, q),
    decreases n,
{
    if n > 0 {
        lemma_positions_ext(n - 1, p, q);
    }
}

/// Every element of a filtered sequence is an element of the sequence.
pub proof fn lemma_filter_subset<A>(s: Seq<A>, p: spec_fn(A) -> bool, i: int)
    requires
        0 <= i < s.filter(p).len(),
    ensures
        s.contains(s.filter(p)[i]),
    decreases s.len(),
{
    reveal(Seq::filter);
    if s.len() > 0 {
        let t = s.drop_last();
        if i < t.filter(p).len() {
            lemma_filter_subset(t, p, i);
            let k = choose|k: int| 0 <= k < t.len() && t[k] == t.filter(p)[i];
            assert(s[k] == t[k]);
        } else {
            assert(s.filter(p)[i] == s.last());
            assert(s[s.len() - 1] == s.last());
        }
    }
}

} // verus!
