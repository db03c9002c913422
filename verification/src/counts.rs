use vstd::prelude::*;
use crate::text::{
    Order3, seq_order, text_order, lemma_seq_order_equal, lemma_seq_order_flip, lemma_seq_order_trans,
};
use crate::counting::clamp_usize;

verus! {

/// A pair of texts, as the key of a weighted edge.
pub type TextPair = (Seq<char>, Seq<char>);

/// Lexicographic order of text pairs: by the first text, then by the second.
pub open spec fn pair_order(a: TextPair, b: TextPair) -> Order3 {
    match seq_order(a.0, b.0) {
        Order3::Equal => seq_order(a.1, b.1),
        o => o,
    }
}

pub open spec fn pair_less(a: TextPair, b: TextPair) -> bool {
    pair_order(a, b) == Order3::Less
}

pub proof fn lemma_pair_order(a: TextPair, b: TextPair, c: TextPair)
    ensures
        pair_order(a, b) == Order3::Equal <==> a == b,
        pair_less(a, b) <==> pair_order(b, a) == Order3::Greater,
        pair_less(a, b) && pair_less(b, c) ==> pair_less(a, c),
{
    lemma_seq_order_equal(a.0, b.0);
    lemma_seq_order_equal(a.1, b.1);
    lemma_seq_order_equal(b.0, c.0);
    lemma_seq_order_flip(a.0, b.0);
    lemma_seq_order_flip(b.0, a.0);
    lemma_seq_order_flip(a.1, b.1);
    lemma_seq_order_flip(b.1, a.1);
    if pair_less(a, b) && pair_less(b, c) {
        if seq_order(a.0, b.0) == Order3::Less && seq_order(b.0, c.0) == Order3::Less {
            lemma_seq_order_trans(a.0, b.0, c.0);
        } else if seq_order(a.0, b.0) == Order3::Less {
            assert(b.0 == c.0);
        } else if seq_order(b.0, c.0) == Order3::Less {
            assert(a.0 == b.0);
        } else {
            assert(a.0 == b.0 && b.0 == c.0);
            lemma_seq_order_trans(a.1, b.1, c.1);
        }
    }
}

/// An edge between two labelled nodes with its weight.
pub struct WeightedEdge {
    pub source: String,
    pub target: String,
    pub weight: usize,
}

impl WeightedEdge {
    pub open spec fn key(self) -> TextPair {
        (self.source@, self.target@)
    }
}

/// Keys strictly increase along the list.
pub open spec fn keys_sorted(es: Seq<WeightedEdge>) -> bool {
    forall|i: int, j: int| 0 <= i < j < es.len() ==> pair_less(#[trigger] es[i].key(), #[trigger] es[j].key())
}

/// `es` lists the keys of `m` in increasing order, each with its count
/// (saturated at `usize::MAX`).
pub open spec fn counted(es: Seq<WeightedEdge>, m: Map<TextPair, nat>) -> bool {
    &&& keys_sorted(es)
    &&& forall|i: int|
        0 <= i < es.len() ==> m.dom().contains(#[trigger] es[i].key()) && es[i].weight == clamp_usize(
            m[es[i].key()],
        )
    &&& forall|k: TextPair| #[trigger] m.dom().contains(k) ==> exists|i: int| 0 <= i < es.len() && es[i].key() == k
}

/// `m` with `w` more at `k`.
pub open spec fn bump(m: Map<TextPair, nat>, k: TextPair, w: nat) -> Map<TextPair, nat> {
    m.insert(k, if m.dom().contains(k) { m[k] + w } else { w })
}

/// Pointwise sum of two count maps.
pub open spec fn map_sum(a: Map<TextPair, nat>, b: Map<TextPair, nat>) -> Map<TextPair, nat> {
    Map::new(
        |k: TextPair| a.dom().contains(k) || b.dom().contains(k),
        |k: TextPair|
            (if a.dom().contains(k) { a[k] } else { 0nat }) + (if b.dom().contains(k) { b[k] } else { 0nat }),
    )
}

/// How often each pair occurs in a stream.
pub open spec fn count_map(s: Seq<TextPair>) -> Map<TextPair, nat> {
    Map::new(|k: TextPair| s.contains(k), |k: TextPair| s.to_multiset().count(k))
}

pub proof fn lemma_count_map_push(s: Seq<TextPair>, k: TextPair)
    ensures
        count_map(s.push(k)) == bump(count_map(s), k, 1),
{
    broadcast use vstd::seq_lib::to_multiset_build, vstd::multiset::group_multiset_axioms;
    assert forall|x: TextPair| s.push(k).contains(x) <==> (s.contains(x) || x == k) by {
        if s.push(k).contains(x) {
            let i = choose|i: int| 0 <= i < s.push(k).len() && s.push(k)[i] == x;
            if i < s.len() {
                assert(s[i] == x);
            }
        }
        if s.contains(x) {
            let i = choose|i: int| 0 <= i < s.len() && s[i] == x;
            assert(s.push(k)[i] == x);
        }
        if x == k {
            assert(s.push(k)[s.len() as int] == x);
        }
    }
    assert forall|x: TextPair| !s.contains(x) implies s.to_multiset().count(x) == 0 by {
        vstd::seq_lib::to_multiset_contains(s, x);
        if s.to_multiset().count(x) > 0 {
            assert(s.to_multiset().contains(x));
        }
    }
    assert(count_map(s.push(k)) =~= bump(count_map(s), k, 1));
}

pub proof fn lemma_count_map_concat(a: Seq<TextPair>, b: Seq<TextPair>)
    ensures
        count_map(a + b) == map_sum(count_map(a), count_map(b)),
    decreases b.len(),
{
    if b.len() == 0 {
        assert(a + b =~= a);
        assert(count_map(a + b) =~= map_sum(count_map(a), count_map(b)));
    } else {
        let bl = b.drop_last();
        lemma_count_map_concat(a, bl);
        assert(a + b =~= (a + bl).push(b.last()));
        assert(b =~= bl.push(b.last()));
        lemma_count_map_push(a + bl, b.last());
        lemma_count_map_push(bl, b.last());
        assert(count_map(a + b) =~= map_sum(count_map(a), count_map(b)));
    }
}

/// Saturating addition agrees with the saturated sum.
pub proof fn lemma_clamp_add(a: nat, b: nat)
    ensures
        clamp_usize(a + b) == (if clamp_usize(a) + clamp_usize(b) > usize::MAX {
            usize::MAX as int
        } else {
            clamp_usize(a) + clamp_usize(b)
        }),
{
}

/// Three-way comparison of two text pairs.
pub fn pair_compare(a0: &str, a1: &str, b0: &str, b1: &str) -> (r: Order3)
    ensures
        r == pair_order((a0@, a1@), (b0@, b1@)),
{
    match text_order(a0, b0) {
        Order3::Equal => text_order(a1, b1),
        o => o,
    }
}

fn key_less(e: &WeightedEdge, source: &str, target: &str) -> (r: bool)
    ensures
        r == pair_less(e.key(), (source@, target@)),
{
    pair_compare(e.source.as_str(), e.target.as_str(), source, target) == Order3::Less
}

fn key_equal(e: &WeightedEdge, source: &str, target: &str) -> (r: bool)
    ensures
        r == (pair_order(e.key(), (source@, target@)) == Order3::Equal),
{
    pair_compare(e.source.as_str(), e.target.as_str(), source, target) == Order3::Equal
}

/// Adds `w` (the saturated value of `tw`) to the count of `(source, target)`.
pub fn add_weight(
    es: &mut Vec<WeightedEdge>,
    source: &str,
    target: &str,
    w: usize,
    Ghost(m): Ghost<Map<TextPair, nat>>,
    Ghost(tw): Ghost<nat>,
)
    requires
        counted(old(es)@, m),
        w == clamp_usize(tw),
    ensures
        counted(final(es)@, bump(m, (source@, target@), tw)),
{
    let ghost k = (source@, target@);
    let mut i: usize = 0;
    loop
        invariant
            counted(es@, m),
            i <= es@.len(),
            forall|j: int| 0 <= j < i ==> pair_less(#[trigger] es@[j].key(), k),
            es@ == old(es)@,
            k == (source@, target@),
        ensures
            counted(es@, m),
            i <= es@.len(),
            forall|j: int| 0 <= j < i ==> pair_less(#[trigger] es@[j].key(), k),
            es@ == old(es)@,
            i < es@.len() ==> !pair_less(es@[i as int].key(), k),
        decreases es.len() - i,
    {
        if i >= es.len() {
            break;
        }
        if !key_less(&es[i], source, target) {
            break;
        }
        i = i + 1;
    }
    let ghost m2 = bump(m, k, tw);
    let ghost old_es = es@;
    if i < es.len() && key_equal(&es[i], source, target) {
        proof {
            lemma_pair_order(es@[i as int].key(), k, k);
            lemma_clamp_add(m[k], tw);
        }
        let nw = es[i].weight.saturating_add(w);
        let e = WeightedEdge { source: es[i].source.clone(), target: es[i].target.clone(), weight: nw };
        es.set(i, e);
        proof {
            assert(es@ == old_es.update(i as int, e));
            assert forall|j: int| 0 <= j < es@.len() implies #[trigger] es@[j].key() == old_es[j].key() by {}
            assert forall|j: int| 0 <= j < es@.len() && j != i implies old_es[j].key() != k by {
                lemma_pair_order(old_es[j].key(), old_es[i as int].key(), k);
                if j < i {
                    assert(pair_less(old_es[j].key(), old_es[i as int].key()));
                } else {
                    assert(pair_less(old_es[i as int].key(), old_es[j].key()));
                    lemma_pair_order(old_es[i as int].key(), old_es[j].key(), k);
                }
            }
            assert forall|x: TextPair| #[trigger] m2.dom().contains(x) implies exists|j: int| 0 <= j < es@.len() && es@[j].key() == x by {
                if x != k {
                    assert(m.dom().contains(x));
                    let j = choose|j: int| 0 <= j < old_es.len() && old_es[j].key() == x;
                    assert(es@[j].key() == x);
                } else {
                    assert(es@[i as int].key() == x);
                }
            }
        }
    } else {
        proof {
            if i < old_es.len() {
                lemma_pair_order(old_es[i as int].key(), k, k);
                lemma_pair_order(k, old_es[i as int].key(), k);
            }
            assert forall|j: int| i <= j < old_es.len() implies pair_less(k, #[trigger] old_es[j].key()) by {
                lemma_pair_order(k, old_es[i as int].key(), old_es[j].key());
            }
            assert(!m.dom().contains(k)) by {
                if m.dom().contains(k) {
                    let j = choose|j: int| 0 <= j < old_es.len() && old_es[j].key() == k;
                    lemma_pair_order(k, k, k);
                    if j < i {
                        assert(pair_less(old_es[j].key(), k));
                    } else {
                        assert(pair_less(k, old_es[j].key()));
                    }
                }
            }
        }
        let e = WeightedEdge { source: crate::text::owned(source), target: crate::text::owned(target), weight: w };
        es.insert(i, e);
        proof {
            assert(es@ == old_es.insert(i as int, e));
            assert forall|x: int, y: int| 0 <= x < y < es@.len() implies pair_less(#[trigger] es@[x].key(), #[trigger] es@[y].key()) by {
                if y < i {
                    assert(es@[x] == old_es[x] && es@[y] == old_es[y]);
                } else if y == i {
                    assert(es@[x] == old_es[x]);
                } else if x < i {
                    assert(es@[x] == old_es[x] && es@[y] == old_es[y - 1]);
                    lemma_pair_order(old_es[x].key(), k, old_es[y - 1].key());
                } else if x == i {
                    assert(es@[y] == old_es[y - 1]);
                } else {
                    assert(es@[x] == old_es[x - 1] && es@[y] == old_es[y - 1]);
                }
            }
            assert forall|j: int| 0 <= j < es@.len() implies m2.dom().contains(#[trigger] es@[j].key()) && es@[j].weight
                == clamp_usize(m2[es@[j].key()]) by {
                if j < i {
                    assert(es@[j] == old_es[j]);
                    assert(old_es[j].key() != k) by { lemma_pair_order(k, k, k); }
                } else if j > i {
                    assert(es@[j] == old_es[j - 1]);
                    assert(old_es[j - 1].key() != k) by { lemma_pair_order(k, k, k); }
                }
            }
            assert forall|x: TextPair| #[trigger] m2.dom().contains(x) implies exists|j: int| 0 <= j < es@.len() && es@[j].key() == x by {
                if x != k {
                    assert(m.dom().contains(x));
                    let j = choose|j: int| 0 <= j < old_es.len() && old_es[j].key() == x;
                    if j < i {
                        assert(es@[j].key() == x);
                    } else {
                        assert(es@[j + 1].key() == x);
                    }
                } else {
                    assert(es@[i as int].key() == x);
                }
            }
        }
    }
}

/// Counts of the first `n` entries of `es`.
pub open spec fn prefix_counts(m: Map<TextPair, nat>, es: Seq<WeightedEdge>, n: int) -> Map<TextPair, nat> {
    m.restrict(Set::new(|k: TextPair| exists|i: int| 0 <= i < n && es[i].key() == k))
}

/// Adds the counts listed in `source` to those in `target`.
pub fn merge_counts(
    target: &mut Vec<WeightedEdge>,
    source: &Vec<WeightedEdge>,
    Ghost(mt): Ghost<Map<TextPair, nat>>,
    Ghost(ms): Ghost<Map<TextPair, nat>>,
)
    requires
        counted(old(target)@, mt),
        counted(source@, ms),
    ensures
        counted(final(target)@, map_sum(mt, ms)),
{
    let mut j: usize = 0;
    assert(map_sum(mt, prefix_counts(ms, source@, 0)) =~= mt);
    while j < source.len()
        invariant
            counted(source@, ms),
            j <= source@.len(),
            counted(target@, map_sum(mt, prefix_counts(ms, source@, j as int))),
        decreases source.len() - j,
    {
        let e = &source[j];
        let ghost kj = e.key();
        let ghost before = map_sum(mt, prefix_counts(ms, source@, j as int));
        add_weight(target, e.source.as_str(), e.target.as_str(), e.weight, Ghost(before), Ghost(ms[kj]));
        proof {
            assert forall|i: int| 0 <= i < j implies source@[i].key() != kj by {
                lemma_pair_order(source@[i].key(), kj, kj);
            }
            assert(!prefix_counts(ms, source@, j as int).dom().contains(kj));
            assert(bump(before, kj, ms[kj]) =~= map_sum(mt, prefix_counts(ms, source@, j + 1)));
        }
        j = j + 1;
    }
    proof {
        assert forall|k: TextPair| ms.dom().contains(k) implies prefix_counts(ms, source@, source@.len() as int).dom().contains(k) by {
            let i = choose|i: int| 0 <= i < source@.len() && source@[i].key() == k;
        }
        assert(prefix_counts(ms, source@, source@.len() as int) =~= ms);
    }
}

/// Texts strictly increase along the list.
pub open spec fn texts_sorted(v: Seq<String>) -> bool {
    forall|i: int, j: int| 0 <= i < j < v.len() ==> seq_order(#[trigger] v[i]@, #[trigger] v[j]@) == Order3::Less
}

/// The texts of a list, as a set.
pub open spec fn text_set(v: Seq<String>) -> Set<Seq<char>> {
    Set::new(|t: Seq<char>| exists|i: int| 0 <= i < v.len() && v[i]@ == t)
}

/// Adds a text to a sorted list of distinct texts.
pub fn insert_text(v: &mut Vec<String>, t: &str)
    requires
        texts_sorted(old(v)@),
    ensures
        texts_sorted(final(v)@),
        text_set(final(v)@) == text_set(old(v)@).insert(t@),
{
    let mut i: usize = 0;
    loop
        invariant
            texts_sorted(v@),
            i <= v@.len(),
            forall|j: int| 0 <= j < i ==> seq_order(#[trigger] v@[j]@, t@) == Order3::Less,
            v@ == old(v)@,
        ensures
            texts_sorted(v@),
            i <= v@.len(),
            forall|j: int| 0 <= j < i ==> seq_order(#[trigger] v@[j]@, t@) == Order3::Less,
            v@ == old(v)@,
            i < v@.len() ==> seq_order(v@[i as int]@, t@) != Order3::Less,
        decreases v.len() - i,
    {
        if i >= v.len() {
            break;
        }
        if text_order(v[i].as_str(), t) != Order3::Less {
            break;
        }
        i = i + 1;
    }
    let ghost old_v = v@;
    if i < v.len() && text_order(v[i].as_str(), t) == Order3::Equal {
        proof {
            lemma_seq_order_equal(old_v[i as int]@, t@);
            assert(text_set(v@) =~= text_set(old_v).insert(t@));
        }
        return;
    }
    proof {
        if i < old_v.len() {
            lemma_seq_order_flip(old_v[i as int]@, t@);
            lemma_seq_order_flip(t@, old_v[i as int]@);
            lemma_seq_order_equal(old_v[i as int]@, t@);
        }
        assert forall|j: int| i <= j < old_v.len() implies seq_order(t@, #[trigger] old_v[j]@) == Order3::Less by {
            if j > i {
                lemma_seq_order_trans(t@, old_v[i as int]@, old_v[j]@);
            }
        }
    }
    v.insert(i, crate::text::owned(t));
    proof {
        assert forall|x: int, y: int| 0 <= x < y < v@.len() implies seq_order(#[trigger] v@[x]@, #[trigger] v@[y]@) == Order3::Less by {
            if y < i {
            } else if y == i {
            } else if x < i {
                assert(v@[y] == old_v[y - 1]);
                lemma_seq_order_trans(old_v[x]@, t@, old_v[y - 1]@);
            } else if x == i {
                assert(v@[y] == old_v[y - 1]);
            } else {
                assert(v@[x] == old_v[x - 1] && v@[y] == old_v[y - 1]);
            }
        }
        assert forall|u: Seq<char>| text_set(v@).contains(u) <==> text_set(old_v).insert(t@).contains(u) by {
            if text_set(v@).contains(u) {
                let j = choose|j: int| 0 <= j < v@.len() && v@[j]@ == u;
                if j < i {
                    assert(old_v[j]@ == u);
                } else if j > i {
                    assert(old_v[j - 1]@ == u);
                }
            }
            if text_set(old_v).contains(u) {
                let j = choose|j: int| 0 <= j < old_v.len() && old_v[j]@ == u;
                if j < i {
                    assert(v@[j]@ == u);
                } else {
                    assert(v@[j + 1]@ == u);
                }
            }
            if u == t@ {
                assert(v@[i as int]@ == u);
            }
        }
        assert(text_set(v@) =~= text_set(old_v).insert(t@));
    }
}

} // verus!
