use vstd::prelude::*;
use crate::pool::Symbol;
use crate::model::{Event, Object, Relationship, object_index_ok};

verus! {

/// Number of times `v` occurs in `s`.
pub open spec fn occurrences(s: Seq<usize>, v: usize) -> nat
    decreases s.len(),
{
    if s.len() == 0 {
        0
    } else {
        occurrences(s.drop_last(), v) + if s.last() == v { 1nat } else { 0nat }
    }
}

/// Number of relationships that point at `id`.
pub open spec fn rel_count(rels: Seq<Relationship>, id: Symbol) -> nat
    decreases rels.len(),
{
    if rels.len() == 0 {
        0
    } else {
        rel_count(rels.drop_last(), id) + if rels.last().object_id == id { 1nat } else { 0nat }
    }
}

/// `(time, position)` of event `a` is at most that of event `b`.
pub open spec fn event_before_eq(events: Seq<Event>, a: usize, b: usize) -> bool {
    events[a as int].time_ms < events[b as int].time_ms || (events[a as int].time_ms
        == events[b as int].time_ms && a <= b)
}

/// Positions ordered by event time, ties by position.
pub open spec fn time_sorted(events: Seq<Event>, lc: Seq<usize>) -> bool {
    forall|a: int, b: int| 0 <= a < b < lc.len() ==> event_before_eq(events, #[trigger] lc[a], #[trigger] lc[b])
}

/// `lc` is the lifecycle of the object `id` among `events`: each event
/// position occurs once per relationship of that event to the object, and
/// the positions are ordered by (time, position).
pub open spec fn is_lifecycle(events: Seq<Event>, id: Symbol, lc: Seq<usize>) -> bool {
    &&& time_sorted(events, lc)
    &&& forall|k: int| 0 <= k < lc.len() ==> #[trigger] lc[k] < events.len()
    &&& forall|j: usize| #[trigger] occurrences(lc, j) == if j < events.len() {
        rel_count(events[j as int].relationships@, id)
    } else {
        0
    }
}

proof fn lemma_occurrences_push(s: Seq<usize>, x: usize, v: usize)
    ensures
        occurrences(s.push(x), v) == occurrences(s, v) + if x == v { 1nat } else { 0nat },
{
    assert(s.push(x).drop_last() =~= s);
}

proof fn lemma_occurrences_insert(s: Seq<usize>, p: int, x: usize, v: usize)
    requires
        0 <= p <= s.len(),
    ensures
        occurrences(s.insert(p, x), v) == occurrences(s, v) + if x == v { 1nat } else { 0nat },
    decreases s.len(),
{
    if p == s.len() {
        assert(s.insert(p, x) =~= s.push(x));
        lemma_occurrences_push(s, x, v);
    } else {
        let t = s.drop_last();
        lemma_occurrences_insert(t, p, x, v);
        assert(s.insert(p, x) =~= t.insert(p, x).push(s.last()));
        lemma_occurrences_push(t.insert(p, x), s.last(), v);
    }
}

proof fn lemma_rel_count_push(rels: Seq<Relationship>, r: Relationship, id: Symbol)
    ensures
        rel_count(rels.push(r), id) == rel_count(rels, id) + if r.object_id == id { 1nat } else { 0nat },
{
    assert(rels.push(r).drop_last() =~= rels);
}

proof fn lemma_occurrences_absent(s: Seq<usize>, v: usize)
    requires
        forall|k: int| 0 <= k < s.len() ==> s[k] != v,
    ensures
        occurrences(s, v) == 0,
    decreases s.len(),
{
    if s.len() > 0 {
        lemma_occurrences_absent(s.drop_last(), v);
    }
}

proof fn lemma_occurrences_positive(s: Seq<usize>, v: usize)
    requires
        occurrences(s, v) > 0,
    ensures
        exists|k: int| 0 <= k < s.len() && s[k] == v,
    decreases s.len(),
{
    if s.last() != v {
        lemma_occurrences_positive(s.drop_last(), v);
        let k = choose|k: int| 0 <= k < s.drop_last().len() && s.drop_last()[k] == v;
        assert(s[k] == v);
    } else {
        assert(s[s.len() - 1] == v);
    }
}

/// Inserts event position `j` into a lifecycle after every entry whose time is
/// at most that of `j`; all entries are positions at most `j`.
fn insert_sorted(events: &Vec<Event>, lc: &mut Vec<usize>, j: usize)
    requires
        j < events@.len(),
        time_sorted(events@, old(lc)@),
        forall|k: int| 0 <= k < old(lc)@.len() ==> #[trigger] old(lc)@[k] <= j,
        forall|k: int| 0 <= k < old(lc)@.len() ==> #[trigger] old(lc)@[k] < events@.len(),
    ensures
        time_sorted(events@, final(lc)@),
        exists|p: int| 0 <= p <= old(lc)@.len() && final(lc)@ == old(lc)@.insert(p, j),
{
    let t = events[j].time_ms;
    let mut p = lc.len();
    while p > 0 && events[lc[p - 1]].time_ms > t
        invariant
            p <= lc@.len(),
            lc@ == old(lc)@,
            j < events@.len(),
            t == events@[j as int].time_ms,
            time_sorted(events@, lc@),
            forall|k: int| 0 <= k < lc@.len() ==> #[trigger] lc@[k] <= j,
            forall|k: int| p <= k < lc@.len() ==> events@[#[trigger] lc@[k] as int].time_ms > t,
            forall|k: int| 0 <= k < lc@.len() ==> #[trigger] lc@[k] < events@.len(),
        decreases p,
    {
        p = p - 1;
    }
    let ghost before = lc@;
    lc.insert(p, j);
    proof {
        let after = lc@;
        assert(after =~= before.insert(p as int, j));
        assert forall|a: int, b: int| 0 <= a < b < after.len() implies event_before_eq(
            events@,
            #[trigger] after[a],
            #[trigger] after[b],
        ) by {
            if a < p && b < p {
                assert(after[a] == before[a] && after[b] == before[b]);
            } else if a < p && b == p {
                assert(after[a] == before[a]);
                assert(event_before_eq(events@, before[a], before[p - 1]) || a == p - 1);
            } else if a < p && b > p {
                assert(after[a] == before[a] && after[b] == before[b - 1]);
            } else if a == p {
                assert(after[b] == before[b - 1]);
                assert(events@[before[b - 1] as int].time_ms > t);
            } else {
                assert(after[a] == before[a - 1] && after[b] == before[b - 1]);
            }
        }
    }
}


/// Objects equal up to their lifecycles.
pub open spec fn same_but_lifecycle(a: Object, b: Object) -> bool {
    a.id == b.id && a.type_symbol == b.type_symbol && a.attributes@ == b.attributes@ && a.relationships@
        == b.relationships@
}

/// Count of relationships to `id` among the first `upto` events, plus those in
/// the first `r` relationships of event `upto`.
pub open spec fn partial_count(events: Seq<Event>, id: Symbol, x: usize, upto: usize, r: nat) -> nat {
    if x < upto {
        rel_count(events[x as int].relationships@, id)
    } else if x == upto && upto < events.len() {
        rel_count(events[x as int].relationships@.take(r as int), id)
    } else {
        0
    }
}

/// Fills the lifecycle of every object from scratch: each object gets the
/// positions of the events related to it, ordered by (time, position).
pub fn build_lifecycles(events: &Vec<Event>, objects: &mut Vec<Object>, index: &Vec<Option<usize>>)
    requires
        object_index_ok(index@, old(objects)@),
        forall|i: int| 0 <= i < old(objects)@.len() ==> (#[trigger] old(objects)@[i]).lifecycle@.len() == 0,
    ensures
        final(objects)@.len() == old(objects)@.len(),
        forall|i: int|
            0 <= i < final(objects)@.len() ==> same_but_lifecycle(#[trigger] final(objects)@[i], old(objects)@[i])
                && is_lifecycle(events@, final(objects)@[i].id, final(objects)@[i].lifecycle@),
{
    let ghost ev = events@;
    let mut j: usize = 0;
    while j < events.len()
        invariant
            j <= ev.len(),
            ev == events@,
            objects@.len() == old(objects)@.len(),
            object_index_ok(index@, old(objects)@),
            forall|i: int| 0 <= i < objects@.len() ==> same_but_lifecycle(#[trigger] objects@[i], old(objects)@[i]),
            forall|i: int| 0 <= i < objects@.len() ==> {
                let lc = (#[trigger] objects@[i]).lifecycle@;
                &&& time_sorted(ev, lc)
                &&& forall|k: int| 0 <= k < lc.len() ==> #[trigger] lc[k] < j
                &&& forall|x: usize| #[trigger] occurrences(lc, x) == partial_count(ev, objects@[i].id, x, j, 0)
            },
        decreases events.len() - j,
    {
        let rels = &events[j].relationships;
        let mut r: usize = 0;
        while r < rels.len()
            invariant
                j < ev.len(),
                ev == events@,
                r <= rels@.len(),
                rels@ == ev[j as int].relationships@,
                objects@.len() == old(objects)@.len(),
                object_index_ok(index@, old(objects)@),
                forall|i: int| 0 <= i < objects@.len() ==> same_but_lifecycle(#[trigger] objects@[i], old(objects)@[i]),
                forall|i: int| 0 <= i < objects@.len() ==> {
                    let lc = (#[trigger] objects@[i]).lifecycle@;
                    &&& time_sorted(ev, lc)
                    &&& forall|k: int| 0 <= k < lc.len() ==> #[trigger] lc[k] <= j
                    &&& forall|x: usize| #[trigger] occurrences(lc, x) == partial_count(ev, objects@[i].id, x, j, r as nat)
                },
            decreases rels.len() - r,
        {
            let target = rels[r].object_id;
            let ghost before = objects@;
            proof {
                assert(rels@.take(r + 1) =~= rels@.take(r as int).push(rels@[r as int]));
            }
            let found: Option<usize> = if target.0 < index.len() { index[target.0] } else { None };
            match found {
                Some(pos) => {
                    proof {
                        assert(target.0 < index@.len() && index@[target.0 as int] == Some(pos));
                    }
                    insert_sorted(events, &mut objects[pos].lifecycle, j);
                    proof {
                        assert forall|i: int| 0 <= i < objects@.len() implies {
                            let lc = (#[trigger] objects@[i]).lifecycle@;
                            &&& time_sorted(ev, lc)
                            &&& forall|k: int| 0 <= k < lc.len() ==> #[trigger] lc[k] <= j
                            &&& forall|x: usize| #[trigger] occurrences(lc, x) == partial_count(ev, objects@[i].id, x, j, (r + 1) as nat)
                        } by {
                            let lc = objects@[i].lifecycle@;
                            let id = objects@[i].id;
                            lemma_rel_count_push(rels@.take(r as int), rels@[r as int], id);
                            if i == pos {
                                let p = choose|p: int| 0 <= p <= before[i].lifecycle@.len() && lc == before[i].lifecycle@.insert(p, j);
                                assert forall|k: int| 0 <= k < lc.len() implies #[trigger] lc[k] <= j by {
                                    if k < p { assert(lc[k] == before[i].lifecycle@[k]); }
                                    else if k > p { assert(lc[k] == before[i].lifecycle@[k - 1]); }
                                }
                                assert forall|x: usize| #[trigger] occurrences(lc, x) == partial_count(ev, id, x, j, (r + 1) as nat) by {
                                    lemma_occurrences_insert(before[i].lifecycle@, p, j, x);
                                    assert(occurrences(before[i].lifecycle@, x) == partial_count(ev, id, x, j, r as nat));
                                }
                            } else {
                                assert(objects@[i] == before[i]);
                                assert(old(objects)@[i].id == id);
                                if id == target {
                                    assert(objects.len() == objects@.len());
                                    assert((i as usize) as int == i);
                                    assert(index@[id.0 as int] == Some(i as usize));
                                    assert(index@[target.0 as int] == Some(pos));
                                    assert(false);
                                }
                                assert forall|x: usize| #[trigger] occurrences(lc, x) == partial_count(ev, id, x, j, (r + 1) as nat) by {
                                    assert(occurrences(before[i].lifecycle@, x) == partial_count(ev, id, x, j, r as nat));
                                }
                            }
                        }
                    }
                },
                None => {
                    proof {
                        assert forall|i: int| 0 <= i < objects@.len() implies {
                            let lc = (#[trigger] objects@[i]).lifecycle@;
                            forall|x: usize| #[trigger] occurrences(lc, x) == partial_count(ev, objects@[i].id, x, j, (r + 1) as nat)
                        } by {
                            let id = objects@[i].id;
                            lemma_rel_count_push(rels@.take(r as int), rels@[r as int], id);
                            assert(id != target) by {
                                assert(old(objects)@[i].id == id);
                                assert(index@[old(objects)@[i].id.0 as int] == Some(i as usize));
                            }
                            assert forall|x: usize| #[trigger] occurrences(objects@[i].lifecycle@, x) == partial_count(ev, id, x, j, (r + 1) as nat) by {
                                assert(occurrences(before[i].lifecycle@, x) == partial_count(ev, id, x, j, r as nat));
                            }
                        }
                    }
                },
            }
            r = r + 1;
        }
        proof {
            assert(rels@.take(rels@.len() as int) =~= rels@);
            assert forall|i: int| 0 <= i < objects@.len() implies {
                let lc = (#[trigger] objects@[i]).lifecycle@;
                &&& forall|k: int| 0 <= k < lc.len() ==> #[trigger] lc[k] < j + 1
                &&& forall|x: usize| #[trigger] occurrences(lc, x) == partial_count(ev, objects@[i].id, x, (j + 1) as usize, 0)
            } by {
                let lc = objects@[i].lifecycle@;
                assert forall|x: usize| #[trigger] occurrences(lc, x) == partial_count(ev, objects@[i].id, x, (j + 1) as usize, 0) by {
                    assert(occurrences(lc, x) == partial_count(ev, objects@[i].id, x, j, r as nat));
                    if x == j + 1 && j + 1 < ev.len() {
                        assert(ev[x as int].relationships@.take(0) =~= Seq::<Relationship>::empty());
                    }
                }
            }
        }
        j = j + 1;
    }
    proof {
        assert forall|i: int| 0 <= i < objects@.len() implies is_lifecycle(ev, (#[trigger] objects@[i]).id, objects@[i].lifecycle@) by {
            let lc = objects@[i].lifecycle@;
            assert forall|x: usize| #[trigger] occurrences(lc, x) == if x < ev.len() {
                rel_count(ev[x as int].relationships@, objects@[i].id)
            } else {
                0
            } by {
                assert(occurrences(lc, x) == partial_count(ev, objects@[i].id, x, j, 0));
            }
        }
    }
}

} // verus!
