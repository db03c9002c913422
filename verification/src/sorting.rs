use vstd::prelude::*;

verus! {

/// `p` lists each position below `n` exactly once.
pub open spec fn is_perm(p: Seq<int>, n: nat) -> bool {
    &&& p.len() == n
    &&& forall|i: int| 0 <= i < p.len() ==> 0 <= #[trigger] p[i] < n
    &&& forall|i: int, j: int| 0 <= i < j < p.len() ==> #[trigger] p[i] != #[trigger] p[j]
}

/// `a` is a rearrangement of `b`.
pub open spec fn permutes<A>(a: Seq<A>, b: Seq<A>) -> bool {
    exists|p: Seq<int>| is_perm(p, b.len()) && a.len() == b.len() && forall|i: int| 0 <= i < a.len() ==> #[trigger] a[i] == b[p[i]]
}

/// No later element ranks before an earlier one.
pub open spec fn sorted_by<A>(s: Seq<A>, lt: spec_fn(A, A) -> bool) -> bool {
    forall|i: int, j: int| 0 <= i < j < s.len() ==> !lt(#[trigger] s[j], #[trigger] s[i])
}

/// `lt` is a strict order.
pub open spec fn strict_order<A>(lt: spec_fn(A, A) -> bool) -> bool {
    &&& forall|a: A, b: A| #[trigger] lt(a, b) ==> !lt(b, a)
    &&& forall|a: A, b: A, c: A| #[trigger] lt(a, b) && #[trigger] lt(b, c) ==> lt(a, c)
}

/// A rearrangement keeps what holds of every element.
pub proof fn lemma_permutes_map<A, B>(a: Seq<A>, b: Seq<A>, f: spec_fn(A) -> B)
    requires
        permutes(a, b),
    ensures
        permutes(a.map_values(f), b.map_values(f)),
{
    let p = choose|p: Seq<int>| is_perm(p, b.len()) && a.len() == b.len() && forall|i: int| 0 <= i < a.len() ==> #[trigger] a[i] == b[p[i]];
    let am = a.map_values(f);
    let bm = b.map_values(f);
    assert(is_perm(p, bm.len()));
    assert forall|i: int| 0 <= i < am.len() implies #[trigger] am[i] == bm[p[i]] by {
        assert(a[i] == b[p[i]]);
    }
    assert(is_perm(p, bm.len()) && am.len() == bm.len() && forall|i: int| 0 <= i < am.len() ==> #[trigger] am[i] == bm[p[i]]);
}

/// Every element of a rearrangement comes from the original, and every
/// element of the original occurs in it.
pub proof fn lemma_permutes_members<A>(a: Seq<A>, b: Seq<A>)
    requires
        permutes(a, b),
    ensures
        forall|i: int| 0 <= i < a.len() ==> b.contains(#[trigger] a[i]),
        forall|j: int| 0 <= j < b.len() ==> a.contains(#[trigger] b[j]),
{
    let p = choose|p: Seq<int>| is_perm(p, b.len()) && a.len() == b.len() && forall|i: int| 0 <= i < a.len() ==> #[trigger] a[i] == b[p[i]];
    assert forall|i: int| 0 <= i < a.len() implies b.contains(#[trigger] a[i]) by {
        assert(b[p[i]] == a[i]);
    }
    assert forall|j: int| 0 <= j < b.len() implies a.contains(#[trigger] b[j]) by {
        lemma_perm_onto(p, b.len(), j);
        let i = choose|i: int| 0 <= i < p.len() && p[i] == j;
        assert(a[i] == b[j]);
    }
}

/// A rearrangement of elements with distinct keys has distinct keys.
pub proof fn lemma_permutes_distinct<A, K>(a: Seq<A>, b: Seq<A>, key: spec_fn(A) -> K)
    requires
        permutes(a, b),
        forall|i: int, j: int| 0 <= i < j < b.len() ==> key(#[trigger] b[i]) != key(#[trigger] b[j]),
    ensures
        forall|i: int, j: int| 0 <= i < j < a.len() ==> key(#[trigger] a[i]) != key(#[trigger] a[j]),
{
    let p = choose|p: Seq<int>| is_perm(p, b.len()) && a.len() == b.len() && forall|i: int| 0 <= i < a.len() ==> #[trigger] a[i] == b[p[i]];
    assert forall|i: int, j: int| 0 <= i < j < a.len() implies key(#[trigger] a[i]) != key(#[trigger] a[j]) by {
        assert(a[i] == b[p[i]] && a[j] == b[p[j]]);
        assert(p[i] != p[j]);
        if p[i] < p[j] {
            assert(key(b[p[i]]) != key(b[p[j]]));
        } else {
            assert(key(b[p[j]]) != key(b[p[i]]));
        }
    }
}

/// A permutation reaches every position.
pub proof fn lemma_perm_onto(p: Seq<int>, n: nat, j: int)
    requires
        is_perm(p, n),
        0 <= j < n,
    ensures
        exists|i: int| 0 <= i < p.len() && p[i] == j,
{
    if !(exists|i: int| 0 <= i < p.len() && p[i] == j) {
        let s = vstd::set_lib::set_int_range(0, n as int).remove(j);
        vstd::set_lib::lemma_int_range(0, n as int);
        lemma_perm_into(p, s, n);
    }
}

pub proof fn lemma_perm_into(p: Seq<int>, s: Set<int>, n: nat)
    requires
        forall|i: int| 0 <= i < p.len() ==> s.contains(#[trigger] p[i]),
        forall|i: int, j: int| 0 <= i < j < p.len() ==> #[trigger] p[i] != #[trigger] p[j],
        s.finite(),
    ensures
        p.len() <= s.len(),
    decreases p.len(),
{
    if p.len() > 0 {
        let q = p.drop_last();
        let t = s.remove(p.last());
        assert forall|i: int| 0 <= i < q.len() implies t.contains(#[trigger] q[i]) by {
            assert(q[i] == p[i]);
            assert(p[i] != p[p.len() - 1]);
        }
        assert forall|i: int, j: int| 0 <= i < j < q.len() implies #[trigger] q[i] != #[trigger] q[j] by {
            assert(q[i] == p[i] && q[j] == p[j]);
        }
        lemma_perm_into(q, t, n);
    }
}

/// Sorts by `less`, which computes the strict order `lt`: the result is a
/// rearrangement of `v` in which no element ranks before an earlier one.
pub fn sort_by<T, F: Fn(&T, &T) -> bool>(v: Vec<T>, less: F, Ghost(lt): Ghost<spec_fn(T, T) -> bool>) -> (r: Vec<T>)
    requires
        forall|a: &T, b: &T| #[trigger] less.requires((a, b)),
        forall|a: &T, b: &T, x: bool| less.ensures((a, b), x) ==> x == lt(*a, *b),
        strict_order(lt),
    ensures
        permutes(r@, v@),
        sorted_by(r@, lt),
{
    let ghost orig = v@;
    let mut rest = v;
    let mut out: Vec<T> = Vec::new();
    let ghost mut p: Seq<int> = Seq::empty();
    while rest.len() > 0
        invariant
            forall|a: &T, b: &T| #[trigger] less.requires((a, b)),
            forall|a: &T, b: &T, x: bool| less.ensures((a, b), x) ==> x == lt(*a, *b),
            strict_order(lt),
            rest@.len() <= orig.len(),
            rest@ == orig.take(rest@.len() as int),
            out@.len() + rest@.len() == orig.len(),
            p.len() == out@.len(),
            forall|i: int| 0 <= i < p.len() ==> rest@.len() <= #[trigger] p[i] < orig.len(),
            forall|i: int, j: int| 0 <= i < j < p.len() ==> #[trigger] p[i] != #[trigger] p[j],
            forall|i: int| 0 <= i < out@.len() ==> #[trigger] out@[i] == orig[p[i]],
            sorted_by(out@, lt),
        decreases rest.len(),
    {
        let ghost k = rest@.len() - 1;
        let x = rest.pop().unwrap();
        assert(rest@ == orig.take(k));
        assert(x == orig[k]);
        let mut i: usize = 0;
        loop
            invariant
                forall|a: &T, b: &T| #[trigger] less.requires((a, b)),
                forall|a: &T, b: &T, y: bool| less.ensures((a, b), y) ==> y == lt(*a, *b),
                i <= out@.len(),
                forall|m: int| 0 <= m < i ==> !lt(x, #[trigger] out@[m]),
            ensures
                i <= out@.len(),
                forall|m: int| 0 <= m < i ==> !lt(x, #[trigger] out@[m]),
                i < out@.len() ==> lt(x, out@[i as int]),
            decreases out.len() - i,
        {
            if i >= out.len() {
                break;
            }
            if less(&x, &out[i]) {
                break;
            }
            i = i + 1;
        }
        let ghost before = out@;
        out.insert(i, x);
        proof {
            let q = p.insert(i as int, k);
            assert forall|m: int| 0 <= m < out@.len() implies #[trigger] out@[m] == orig[q[m]] by {
                if m < i {
                    assert(out@[m] == before[m]);
                } else if m > i {
                    assert(out@[m] == before[m - 1]);
                }
            }
            assert forall|a: int, b: int| 0 <= a < b < q.len() implies #[trigger] q[a] != #[trigger] q[b] by {
                if a < i && b > i {
                    assert(q[b] == p[b - 1]);
                } else if a > i {
                    assert(q[a] == p[a - 1] && q[b] == p[b - 1]);
                } else if b < i {
                } else if a == i {
                    assert(q[b] == p[b - 1]);
                } else {
                    assert(q[a] == p[a]);
                }
            }
            assert forall|m: int| 0 <= m < q.len() implies rest@.len() <= #[trigger] q[m] < orig.len() by {
                if m < i {
                } else if m > i {
                    assert(q[m] == p[m - 1]);
                }
            }
            assert forall|a: int, b: int| 0 <= a < b < out@.len() implies !lt(#[trigger] out@[b], #[trigger] out@[a]) by {
                if b < i {
                    assert(out@[a] == before[a] && out@[b] == before[b]);
                } else if b == i {
                    assert(out@[a] == before[a]);
                } else if a > i {
                    assert(out@[a] == before[a - 1] && out@[b] == before[b - 1]);
                } else if a == i {
                    assert(out@[b] == before[b - 1]);
                    assert(lt(x, before[i as int]));
                    if b - 1 > i {
                        assert(!lt(before[b - 1], before[i as int]));
                    }
                } else {
                    assert(out@[a] == before[a] && out@[b] == before[b - 1]);
                }
            }
            p = q;
        }
    }
    proof {
        assert(is_perm(p, orig.len()));
    }
    out
}

} // verus!
