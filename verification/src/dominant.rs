use vstd::prelude::*;
use crate::pool::Symbol;
use crate::model::{CompactOcelLog, object_ok};
use crate::text::{owned, str_eq, seq_less, text_order, Order3, lemma_seq_order_equal, lemma_seq_order_flip, lemma_seq_order_trans};
use crate::features::type_count;
use crate::lifecycle_detail::lifecycle_states;

verus! {

/// How often `t` occurs among the first `k` entries.
pub open spec fn times(s: Seq<Option<Seq<char>>>, t: Seq<char>, k: int) -> nat
    decreases k,
{
    if k <= 0 {
        0
    } else {
        times(s, t, k - 1) + if s[k - 1] == Some(t) { 1nat } else { 0nat }
    }
}

/// The last position of `t` among the first `k` entries, -1 if none.
pub open spec fn last_at(s: Seq<Option<Seq<char>>>, t: Seq<char>, k: int) -> int
    decreases k,
{
    if k <= 0 {
        -1
    } else if s[k - 1] == Some(t) {
        k - 1
    } else {
        last_at(s, t, k - 1)
    }
}

/// `t` is the dominant state of `s`: it occurs, and every other state that
/// occurs does so less often, or as often but last before it.
pub open spec fn dominant(s: Seq<Option<Seq<char>>>, t: Seq<char>) -> bool {
    let n = s.len() as int;
    &&& times(s, t, n) > 0
    &&& forall|t2: Seq<char>| t2 != t && #[trigger] times(s, t2, n) > 0 ==> times(s, t2, n) < times(s, t, n)
        || (times(s, t2, n) == times(s, t, n) && last_at(s, t2, n) < last_at(s, t, n))
}

/// A state with its count and last position so far.
struct StateTally {
    state: String,
    count: usize,
    last: usize,
}

proof fn lemma_times_bounds(s: Seq<Option<Seq<char>>>, t: Seq<char>, k: int)
    requires
        0 <= k <= s.len(),
    ensures
        times(s, t, k) <= k,
        times(s, t, k) > 0 <==> last_at(s, t, k) >= 0,
        last_at(s, t, k) < k,
        last_at(s, t, k) >= -1,
        last_at(s, t, k) >= 0 ==> s[last_at(s, t, k)] == Some(t),
    decreases k,
{
    if k > 0 {
        lemma_times_bounds(s, t, k - 1);
    }
}

impl CompactOcelLog {
    /// The state the object at `o` spends most lifecycle events in; ties go
    /// to the state seen last.
    pub fn dominant_object_state(&self, o: usize, st: Symbol) -> (r: Option<String>)
        requires
            self.wf(),
            o < self.objects@.len(),
        ensures
            match r {
                Some(t) => dominant(lifecycle_states(*self, self.objects@[o as int].lifecycle@, Some(st)), t@),
                None => forall|t: Seq<char>| times(
                    lifecycle_states(*self, self.objects@[o as int].lifecycle@, Some(st)),
                    t,
                    self.objects@[o as int].lifecycle@.len() as int,
                ) == 0,
            },
    {
        let lc = &self.objects[o].lifecycle;
        let ghost s = lifecycle_states(*self, lc@, Some(st));
        proof { assert(object_ok(self.pool@.len(), self.events@.len(), self.objects@[o as int])); }
        let mut tallies: Vec<StateTally> = Vec::new();
        let mut p: usize = 0;
        while p < lc.len()
            invariant
                self.wf(),
                o < self.objects@.len(),
                *lc == self.objects@[o as int].lifecycle,
                forall|k: int| 0 <= k < lc@.len() ==> #[trigger] lc@[k] < self.events@.len(),
                s == lifecycle_states(*self, lc@, Some(st)),
                p <= lc@.len(),
                forall|i: int, j: int| 0 <= i < j < tallies@.len() ==> #[trigger] tallies@[i].state@ != #[trigger] tallies@[j].state@,
                forall|i: int| 0 <= i < tallies@.len() ==> (#[trigger] tallies@[i]).count == times(s, tallies@[i].state@, p as int)
                    && tallies@[i].last as int == last_at(s, tallies@[i].state@, p as int) && tallies@[i].count > 0,
                forall|t: Seq<char>| #[trigger] times(s, t, p as int) > 0 ==> exists|i: int| 0 <= i < tallies@.len() && tallies@[i].state@ == t,
            decreases lc.len() - p,
        {
            proof { lemma_times_bounds(s, Seq::empty(), p as int); }
            match self.event_state(lc[p], st) {
                Some(t) => {
                    let ghost tv = t@;
                    proof {
                        assert(s[p as int] == Some(tv));
                    }
                    let mut i: usize = 0;
                    let mut found = false;
                    while i < tallies.len()
                        invariant
                            i <= tallies@.len(),
                            forall|j: int| 0 <= j < i ==> (#[trigger] tallies@[j]).state@ != tv,
                            found ==> i < tallies@.len() && tallies@[i as int].state@ == tv,
                            t@ == tv,
                        ensures
                            forall|j: int| 0 <= j < i ==> (#[trigger] tallies@[j]).state@ != tv,
                            found ==> i < tallies@.len() && tallies@[i as int].state@ == tv,
                            !found ==> i == tallies@.len(),
                        decreases tallies.len() - i,
                    {
                        if str_eq(tallies[i].state.as_str(), t) {
                            found = true;
                            break;
                        }
                        i = i + 1;
                    }
                    let ghost before = tallies@;
                    if found {
                        proof { lemma_times_bounds(s, tv, p as int); }
                        let c = tallies[i].count;
                        let e = StateTally { state: owned(t), count: c + 1, last: p };
                        tallies.set(i, e);
                        proof {
                            assert forall|j: int| 0 <= j < tallies@.len() implies (#[trigger] tallies@[j]).count == times(s, tallies@[j].state@, p + 1)
                                && tallies@[j].last as int == last_at(s, tallies@[j].state@, p + 1) && tallies@[j].count > 0 by {
                                if j != i {
                                    assert(tallies@[j] == before[j]);
                                    if j < i {
                                        assert(before[j].state@ != tv);
                                    } else {
                                        assert(before[i as int].state@ != before[j].state@);
                                    }
                                }
                            }
                            assert forall|a: int, b: int| 0 <= a < b < tallies@.len() implies #[trigger] tallies@[a].state@ != #[trigger] tallies@[b].state@ by {
                                assert(before[a].state@ != before[b].state@);
                            }
                            assert forall|x: Seq<char>| #[trigger] times(s, x, p + 1) > 0 implies exists|j: int| 0 <= j < tallies@.len() && tallies@[j].state@ == x by {
                                if x == tv {
                                    assert(tallies@[i as int].state@ == x);
                                } else {
                                    assert(times(s, x, p as int) > 0);
                                    let j = choose|j: int| 0 <= j < before.len() && before[j].state@ == x;
                                    assert(tallies@[j].state@ == x);
                                }
                            }
                        }
                    } else {
                        proof {
                            lemma_times_bounds(s, tv, p as int);
                            assert(times(s, tv, p as int) == 0) by {
                                if times(s, tv, p as int) > 0 {
                                    let j = choose|j: int| 0 <= j < before.len() && before[j].state@ == tv;
                                }
                            }
                        }
                        tallies.push(StateTally { state: owned(t), count: 1, last: p });
                        proof {
                            assert forall|j: int| 0 <= j < tallies@.len() implies (#[trigger] tallies@[j]).count == times(s, tallies@[j].state@, p + 1)
                                && tallies@[j].last as int == last_at(s, tallies@[j].state@, p + 1) && tallies@[j].count > 0 by {
                                if j < before.len() {
                                    assert(tallies@[j] == before[j]);
                                    assert(before[j].state@ != tv);
                                } else {
                                    assert(last_at(s, tv, p as int) == -1);
                                }
                            }
                            assert forall|a: int, b: int| 0 <= a < b < tallies@.len() implies #[trigger] tallies@[a].state@ != #[trigger] tallies@[b].state@ by {
                                if b < before.len() {
                                    assert(before[a].state@ != before[b].state@);
                                }
                            }
                            assert forall|x: Seq<char>| #[trigger] times(s, x, p + 1) > 0 implies exists|j: int| 0 <= j < tallies@.len() && tallies@[j].state@ == x by {
                                if x == tv {
                                    assert(tallies@[before.len() as int].state@ == x);
                                } else {
                                    assert(times(s, x, p as int) > 0);
                                    let j = choose|j: int| 0 <= j < before.len() && before[j].state@ == x;
                                    assert(tallies@[j].state@ == x);
                                }
                            }
                        }
                    }
                },
                None => {
                    proof {
                        assert(s[p as int] is None);
                        assert forall|j: int| 0 <= j < tallies@.len() implies (#[trigger] tallies@[j]).count == times(s, tallies@[j].state@, p + 1)
                            && tallies@[j].last as int == last_at(s, tallies@[j].state@, p + 1) && tallies@[j].count > 0 by {}
                        assert forall|x: Seq<char>| #[trigger] times(s, x, p + 1) > 0 implies exists|j: int| 0 <= j < tallies@.len() && tallies@[j].state@ == x by {
                            assert(times(s, x, p as int) > 0);
                        }
                    }
                },
            }
            p = p + 1;
        }
        let n = lc.len();
        if tallies.len() == 0 {
            return None;
        }
        let mut best: usize = 0;
        let mut j: usize = 1;
        while j < tallies.len()
            invariant
                s.len() == n,
                tallies@.len() > 0,
                1 <= j <= tallies@.len(),
                best < j,
                forall|i: int, k: int| 0 <= i < k < tallies@.len() ==> #[trigger] tallies@[i].state@ != #[trigger] tallies@[k].state@,
                forall|i: int| 0 <= i < tallies@.len() ==> (#[trigger] tallies@[i]).count == times(s, tallies@[i].state@, n as int)
                    && tallies@[i].last as int == last_at(s, tallies@[i].state@, n as int) && tallies@[i].count > 0,
                forall|i: int| 0 <= i < j && i != best ==> (#[trigger] tallies@[i]).count < tallies@[best as int].count
                    || (tallies@[i].count == tallies@[best as int].count && tallies@[i].last < tallies@[best as int].last),
            decreases tallies.len() - j,
        {
            proof {
                lemma_distinct_last(s, tallies@[j as int].state@, tallies@[best as int].state@, n as int);
            }
            if tallies[j].count > tallies[best].count
                || (tallies[j].count == tallies[best].count && tallies[j].last > tallies[best].last) {
                best = j;
            }
            j = j + 1;
        }
        let r = owned(tallies[best].state.as_str());
        proof {
            let t = tallies@[best as int].state@;
            assert forall|t2: Seq<char>| t2 != t && #[trigger] times(s, t2, n as int) > 0 implies times(s, t2, n as int) < times(s, t, n as int)
                || (times(s, t2, n as int) == times(s, t, n as int) && last_at(s, t2, n as int) < last_at(s, t, n as int)) by {
                let i = choose|i: int| 0 <= i < tallies@.len() && tallies@[i].state@ == t2;
                assert(i != best);
            }
        }
        Some(r)
    }
}

/// Different states last occur at different positions.
proof fn lemma_distinct_last(s: Seq<Option<Seq<char>>>, a: Seq<char>, b: Seq<char>, n: int)
    requires
        0 <= n <= s.len(),
        a != b,
        times(s, a, n) > 0,
        times(s, b, n) > 0,
    ensures
        last_at(s, a, n) != last_at(s, b, n),
{
    lemma_times_bounds(s, a, n);
    lemma_times_bounds(s, b, n);
}


/// `t` is the most frequent activity of the window, the first in name
/// order among equally frequent ones.
pub open spec fn dominant_activity(log: CompactOcelLog, evs: Seq<usize>, t: Seq<char>) -> bool {
    let n = evs.len() as int;
    &&& type_count(log, evs, t, n) > 0
    &&& forall|t2: Seq<char>| t2 != t && #[trigger] type_count(log, evs, t2, n) > 0 ==> type_count(log, evs, t2, n) < type_count(log, evs, t, n)
        || (type_count(log, evs, t2, n) == type_count(log, evs, t, n) && seq_less(t, t2))
}

/// An activity with its count so far.
struct ActivityTally {
    activity: String,
    count: usize,
}

proof fn lemma_type_count_bound(log: CompactOcelLog, evs: Seq<usize>, t: Seq<char>, k: int)
    requires
        0 <= k <= evs.len(),
    ensures
        type_count(log, evs, t, k) <= k,
    decreases k,
{
    if k > 0 {
        lemma_type_count_bound(log, evs, t, k - 1);
    }
}

impl CompactOcelLog {
    /// The most frequent activity of a window; ties go to the first name.
    pub fn dominant_window_activity(&self, evs: &Vec<usize>) -> (r: Option<String>)
        requires
            self.wf(),
            forall|k: int| 0 <= k < evs@.len() ==> #[trigger] evs@[k] < self.events@.len(),
        ensures
            match r {
                Some(t) => dominant_activity(*self, evs@, t@),
                None => evs@.len() == 0,
            },
    {
        let mut tallies: Vec<ActivityTally> = Vec::new();
        let mut p: usize = 0;
        while p < evs.len()
            invariant
                self.wf(),
                forall|k: int| 0 <= k < evs@.len() ==> #[trigger] evs@[k] < self.events@.len(),
                p <= evs@.len(),
                forall|i: int, j: int| 0 <= i < j < tallies@.len() ==> #[trigger] tallies@[i].activity@ != #[trigger] tallies@[j].activity@,
                forall|i: int| 0 <= i < tallies@.len() ==> (#[trigger] tallies@[i]).count == type_count(*self, evs@, tallies@[i].activity@, p as int)
                    && tallies@[i].count > 0,
                forall|t: Seq<char>| #[trigger] type_count(*self, evs@, t, p as int) > 0 ==> exists|i: int| 0 <= i < tallies@.len() && tallies@[i].activity@ == t,
            decreases evs.len() - p,
        {
            let e = &self.events[evs[p]];
            proof { assert(crate::model::event_ok(self.pool@.len(), *e)); }
            let t = self.pool.resolve(e.type_symbol);
            let ghost tv = t@;
            let mut i: usize = 0;
            let mut found = false;
            while i < tallies.len()
                invariant
                    i <= tallies@.len(),
                    forall|j: int| 0 <= j < i ==> (#[trigger] tallies@[j]).activity@ != tv,
                    found ==> i < tallies@.len() && tallies@[i as int].activity@ == tv,
                    t@ == tv,
                ensures
                    forall|j: int| 0 <= j < i ==> (#[trigger] tallies@[j]).activity@ != tv,
                    found ==> i < tallies@.len() && tallies@[i as int].activity@ == tv,
                    !found ==> i == tallies@.len(),
                decreases tallies.len() - i,
            {
                if str_eq(tallies[i].activity.as_str(), t) {
                    found = true;
                    break;
                }
                i = i + 1;
            }
            let ghost before = tallies@;
            proof { lemma_type_count_bound(*self, evs@, tv, p as int); }
            if found {
                let c = tallies[i].count;
                tallies.set(i, ActivityTally { activity: owned(t), count: c + 1 });
                proof {
                    assert forall|j: int| 0 <= j < tallies@.len() implies (#[trigger] tallies@[j]).count == type_count(*self, evs@, tallies@[j].activity@, p + 1)
                        && tallies@[j].count > 0 by {
                        if j != i {
                            assert(tallies@[j] == before[j]);
                            if j < i {
                                assert(before[j].activity@ != tv);
                            } else {
                                assert(before[i as int].activity@ != before[j].activity@);
                            }
                        }
                    }
                    assert forall|a: int, b: int| 0 <= a < b < tallies@.len() implies #[trigger] tallies@[a].activity@ != #[trigger] tallies@[b].activity@ by {
                        assert(before[a].activity@ != before[b].activity@);
                    }
                    assert forall|x: Seq<char>| #[trigger] type_count(*self, evs@, x, p + 1) > 0 implies exists|j: int| 0 <= j < tallies@.len() && tallies@[j].activity@ == x by {
                        if x == tv {
                            assert(tallies@[i as int].activity@ == x);
                        } else {
                            assert(type_count(*self, evs@, x, p as int) > 0);
                            let j = choose|j: int| 0 <= j < before.len() && before[j].activity@ == x;
                            assert(tallies@[j].activity@ == x);
                        }
                    }
                }
            } else {
                proof {
                    assert(type_count(*self, evs@, tv, p as int) == 0) by {
                        if type_count(*self, evs@, tv, p as int) > 0 {
                            let j = choose|j: int| 0 <= j < before.len() && before[j].activity@ == tv;
                        }
                    }
                }
                tallies.push(ActivityTally { activity: owned(t), count: 1 });
                proof {
                    assert forall|j: int| 0 <= j < tallies@.len() implies (#[trigger] tallies@[j]).count == type_count(*self, evs@, tallies@[j].activity@, p + 1)
                        && tallies@[j].count > 0 by {
                        if j < before.len() {
                            assert(tallies@[j] == before[j]);
                            assert(before[j].activity@ != tv);
                        }
                    }
                    assert forall|a: int, b: int| 0 <= a < b < tallies@.len() implies #[trigger] tallies@[a].activity@ != #[trigger] tallies@[b].activity@ by {
                        if b < before.len() {
                            assert(before[a].activity@ != before[b].activity@);
                        }
                    }
                    assert forall|x: Seq<char>| #[trigger] type_count(*self, evs@, x, p + 1) > 0 implies exists|j: int| 0 <= j < tallies@.len() && tallies@[j].activity@ == x by {
                        if x == tv {
                            assert(tallies@[before.len() as int].activity@ == x);
                        } else {
                            assert(type_count(*self, evs@, x, p as int) > 0);
                            let j = choose|j: int| 0 <= j < before.len() && before[j].activity@ == x;
                            assert(tallies@[j].activity@ == x);
                        }
                    }
                }
            }
            p = p + 1;
        }
        let n = evs.len();
        if tallies.len() == 0 {
            proof {
                if evs@.len() > 0 {
                    let e0 = self.events@[evs@[0] as int];
                    let t0 = self.text(e0.type_symbol);
                    lemma_type_count_positive(*self, evs@, 0, evs@.len() as int);
                }
            }
            return None;
        }
        let mut best: usize = 0;
        let mut j: usize = 1;
        while j < tallies.len()
            invariant
                tallies@.len() > 0,
                1 <= j <= tallies@.len(),
                best < j,
                forall|i: int, k: int| 0 <= i < k < tallies@.len() ==> #[trigger] tallies@[i].activity@ != #[trigger] tallies@[k].activity@,
                forall|i: int| 0 <= i < j && i != best ==> (#[trigger] tallies@[i]).count < tallies@[best as int].count
                    || (tallies@[i].count == tallies@[best as int].count && seq_less(tallies@[best as int].activity@, tallies@[i].activity@)),
            decreases tallies.len() - j,
        {
            let a = &tallies[j];
            let b = &tallies[best];
            proof {
                lemma_seq_order_equal(a.activity@, b.activity@);
                lemma_seq_order_flip(a.activity@, b.activity@);
                lemma_seq_order_flip(b.activity@, a.activity@);
                assert(a.activity@ != b.activity@);
            }
            if a.count > b.count || (a.count == b.count && text_order(a.activity.as_str(), b.activity.as_str()) == Order3::Less) {
                proof {
                    let nb = j as int;
                    assert forall|i: int| 0 <= i < j + 1 && i != nb implies (#[trigger] tallies@[i]).count < tallies@[nb].count
                        || (tallies@[i].count == tallies@[nb].count && seq_less(tallies@[nb].activity@, tallies@[i].activity@)) by {
                        if i != best {
                            if tallies@[i].count == tallies@[best as int].count && tallies@[best as int].count == tallies@[nb].count {
                                lemma_seq_order_trans(tallies@[nb].activity@, tallies@[best as int].activity@, tallies@[i].activity@);
                            }
                        }
                    }
                }
                best = j;
            }
            j = j + 1;
        }
        let r = owned(tallies[best].activity.as_str());
        proof {
            let t = tallies@[best as int].activity@;
            assert forall|t2: Seq<char>| t2 != t && #[trigger] type_count(*self, evs@, t2, n as int) > 0 implies type_count(*self, evs@, t2, n as int) < type_count(*self, evs@, t, n as int)
                || (type_count(*self, evs@, t2, n as int) == type_count(*self, evs@, t, n as int) && seq_less(t, t2)) by {
                let i = choose|i: int| 0 <= i < tallies@.len() && tallies@[i].activity@ == t2;
                assert(i != best);
            }
        }
        Some(r)
    }
}

/// A non-empty window counts its first event's activity.
proof fn lemma_type_count_positive(log: CompactOcelLog, evs: Seq<usize>, q: int, k: int)
    requires
        0 <= q < k <= evs.len(),
    ensures
        type_count(log, evs, log.text(log.events@[evs[q] as int].type_symbol), k) > 0,
    decreases k,
{
    if k - 1 > q {
        lemma_type_count_positive(log, evs, q, k - 1);
    }
}
} // verus!
