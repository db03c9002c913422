use vstd::prelude::*;
use crate::pool::Symbol;
use crate::model::CompactOcelLog;
use crate::counts::{TextPair, pair_order, pair_less, lemma_pair_order, pair_compare};
use crate::filtering::copy_vec;
use crate::text::{
    Order3, owned, str_eq, text_contains, lower_text, seq_contains_text, ascii_lower, text_order, seq_less,
    lemma_seq_order_flip, lemma_seq_order_trans,
};
use crate::episodes::{runs, states_of, state_episodes};
use crate::counts::{texts_sorted, text_set, insert_text};
use crate::log_ops::{pairs_view, symbol_of};
use crate::error::OcelError;
use crate::counting::count_where;
use crate::patterns::object_sl;
use crate::sorting::{sort_by, permutes, sorted_by, strict_order, lemma_permutes_members, lemma_permutes_distinct};

verus! {

/// `b - a`, but never below zero and at most `i64::MAX`.
pub open spec fn elapsed(a: i64, b: i64) -> i64 {
    let d = b as int - a as int;
    if d < 0 {
        0
    } else if d > i64::MAX {
        i64::MAX
    } else {
        d as i64
    }
}

/// Milliseconds from `a` to `b`, at least zero and saturated at `i64::MAX`.
pub fn elapsed_ms(a: i64, b: i64) -> (r: i64)
    ensures
        r == elapsed(a, b),
{
    if b <= a {
        0
    } else {
        match b.checked_sub(a) {
            Some(d) => d,
            None => i64::MAX,
        }
    }
}

/// Sum of durations, saturated at `i64::MAX`.
pub open spec fn total_of(ds: Seq<i64>) -> int
    decreases ds.len(),
{
    if ds.len() == 0 {
        0
    } else {
        let t = total_of(ds.drop_last()) + ds.last();
        if t > i64::MAX {
            i64::MAX as int
        } else {
            t
        }
    }
}

/// The durations of the samples with key `k`, in sample order.
pub open spec fn durations_of<K>(s: Seq<(K, i64, int)>, k: K) -> Seq<i64>
    decreases s.len(),
{
    if s.len() == 0 {
        Seq::empty()
    } else {
        let r = durations_of(s.drop_last(), k);
        if s.last().0 == k {
            r.push(s.last().1)
        } else {
            r
        }
    }
}

/// The objects (by position) of the samples with key `k`.
pub open spec fn objects_of<K>(s: Seq<(K, i64, int)>, k: K) -> Set<int>
    decreases s.len(),
{
    if s.len() == 0 {
        Set::empty()
    } else {
        let r = objects_of(s.drop_last(), k);
        if s.last().0 == k {
            r.insert(s.last().2)
        } else {
            r
        }
    }
}

/// The keys of the samples.
pub open spec fn keys_of<K>(s: Seq<(K, i64, int)>) -> Set<K> {
    Set::new(|k: K| exists|i: int| 0 <= i < s.len() && s[i].0 == k)
}

pub proof fn lemma_objects_of_finite<K>(s: Seq<(K, i64, int)>, k: K)
    ensures
        objects_of(s, k).finite(),
        forall|o: int| #[trigger] objects_of(s, k).contains(o) ==> exists|i: int| 0 <= i < s.len() && s[i].0 == k && s[i].2 == o,
    decreases s.len(),
{
    if s.len() > 0 {
        lemma_objects_of_finite(s.drop_last(), k);
        assert forall|o: int| #[trigger] objects_of(s, k).contains(o) implies exists|i: int| 0 <= i < s.len() && s[i].0 == k && s[i].2 == o by {
            if objects_of(s.drop_last(), k).contains(o) {
                let i = choose|i: int| 0 <= i < s.len() - 1 && s.drop_last()[i].0 == k && s.drop_last()[i].2 == o;
                assert(s[i] == s.drop_last()[i]);
            } else {
                assert(s[s.len() - 1].2 == o);
            }
        }
    }
}

/// Time of the event at position `p` of a stateful lifecycle.
pub open spec fn sl_time(log: CompactOcelLog, sl: Seq<(usize, Seq<char>)>, p: int) -> i64 {
    log.events@[sl[p].0 as int].time_ms
}

/// The episodes of the object at `o`.
pub open spec fn object_runs(log: CompactOcelLog, st: Symbol, o: int) -> Seq<(Seq<char>, int, int)> {
    runs(states_of(object_sl(log, o, st)))
}

/// The state changes of the object at `o`: the states left and entered,
/// the time from the start of one episode to the start of the next, and
/// the object.
pub open spec fn object_transitions(log: CompactOcelLog, st: Symbol, o: int) -> Seq<(TextPair, i64, int)> {
    let sl = object_sl(log, o, st);
    let eps = object_runs(log, st, o);
    Seq::new(
        if eps.len() == 0 { 0nat } else { (eps.len() - 1) as nat },
        |i: int| ((eps[i].0, eps[i + 1].0), elapsed(sl_time(log, sl, eps[i].1), sl_time(log, sl, eps[i + 1].1)), o),
    )
}

/// End of the `i`-th episode: the start of the next one, or for the last
/// episode its own last event.
pub open spec fn episode_end(log: CompactOcelLog, sl: Seq<(usize, Seq<char>)>, eps: Seq<(Seq<char>, int, int)>, i: int) -> i64 {
    if i + 1 < eps.len() {
        sl_time(log, sl, eps[i + 1].1)
    } else {
        sl_time(log, sl, eps[i].2)
    }
}

/// The episodes of the object at `o` with their dwell times.
pub open spec fn object_dwells(log: CompactOcelLog, st: Symbol, o: int) -> Seq<(Seq<char>, i64, int)> {
    let sl = object_sl(log, o, st);
    let eps = object_runs(log, st, o);
    Seq::new(eps.len(), |i: int| (eps[i].0, elapsed(sl_time(log, sl, eps[i].1), episode_end(log, sl, eps, i)), o))
}

/// The samples of the first `n` objects of type `ot`.
pub open spec fn transition_samples(log: CompactOcelLog, st: Symbol, ot: Symbol, n: int) -> Seq<(TextPair, i64, int)>
    decreases n,
{
    if n <= 0 {
        Seq::empty()
    } else if log.objects@[n - 1].type_symbol == ot {
        transition_samples(log, st, ot, n - 1) + object_transitions(log, st, n - 1)
    } else {
        transition_samples(log, st, ot, n - 1)
    }
}

/// The dwell samples of the first `n` objects of type `ot`.
pub open spec fn dwell_samples(log: CompactOcelLog, st: Symbol, ot: Symbol, n: int) -> Seq<(Seq<char>, i64, int)>
    decreases n,
{
    if n <= 0 {
        Seq::empty()
    } else if log.objects@[n - 1].type_symbol == ot {
        dwell_samples(log, st, ot, n - 1) + object_dwells(log, st, n - 1)
    } else {
        dwell_samples(log, st, ot, n - 1)
    }
}

/// Durations of one group of samples, with the number of distinct objects
/// behind them.
pub struct DurationGroup {
    pub from_state: String,
    pub to_state: String,
    pub durations: Vec<i64>,
    pub total_duration_ms: i64,
    pub object_count: usize,
    pub last_object: usize,
}

impl DurationGroup {
    pub open spec fn key(self) -> TextPair {
        (self.from_state@, self.to_state@)
    }
}

/// `gs` groups the samples `s` by key: one group per key, each with the
/// durations of its samples in order, their saturated total and the number
/// of distinct objects behind them.
pub open spec fn grouped(gs: Seq<DurationGroup>, s: Seq<(TextPair, i64, int)>) -> bool {
    &&& forall|i: int, j: int| 0 <= i < j < gs.len() ==> #[trigger] gs[i].key() != #[trigger] gs[j].key()
    &&& forall|i: int| 0 <= i < gs.len() ==> keys_of(s).contains(#[trigger] gs[i].key())
    &&& forall|k: TextPair| #[trigger] keys_of(s).contains(k) ==> exists|i: int| 0 <= i < gs.len() && gs[i].key() == k
    &&& forall|i: int| 0 <= i < gs.len() ==> {
        let g = #[trigger] gs[i];
        &&& g.durations@ == durations_of(s, g.key())
        &&& g.total_duration_ms == total_of(g.durations@)
        &&& g.object_count == objects_of(s, g.key()).len()
        &&& objects_of(s, g.key()).contains(g.last_object as int)
        &&& forall|o: int| #[trigger] objects_of(s, g.key()).contains(o) ==> 0 <= o <= g.last_object
    }
}

proof fn lemma_total_bounds(ds: Seq<i64>)
    requires
        forall|i: int| 0 <= i < ds.len() ==> ds[i] >= 0,
    ensures
        0 <= total_of(ds) <= i64::MAX,
    decreases ds.len(),
{
    if ds.len() > 0 {
        lemma_total_bounds(ds.drop_last());
    }
}

proof fn lemma_durations_nonneg<K>(s: Seq<(K, i64, int)>, k: K)
    requires
        forall|i: int| 0 <= i < s.len() ==> (#[trigger] s[i]).1 >= 0,
    ensures
        forall|i: int| 0 <= i < durations_of(s, k).len() ==> #[trigger] durations_of(s, k)[i] >= 0,
    decreases s.len(),
{
    if s.len() > 0 {
        let d = s.drop_last();
        assert forall|i: int| 0 <= i < d.len() implies (#[trigger] d[i]).1 >= 0 by {
            assert(d[i] == s[i]);
        }
        lemma_durations_nonneg(d, k);
        let r = durations_of(s, k);
        let q = durations_of(d, k);
        assert forall|i: int| 0 <= i < r.len() implies #[trigger] r[i] >= 0 by {
            if i < q.len() {
                assert(r[i] == q[i]);
            } else {
                assert(s[s.len() - 1].1 >= 0);
            }
        }
    }
}

/// Adds one sample to the groups.
fn add_sample(
    gs: &mut Vec<DurationGroup>,
    from: &str,
    to: &str,
    d: i64,
    o: usize,
    Ghost(s): Ghost<Seq<(TextPair, i64, int)>>,
)
    requires
        grouped(old(gs)@, s),
        d >= 0,
        forall|i: int| 0 <= i < s.len() ==> (#[trigger] s[i]).1 >= 0 && s[i].2 <= o,
        o < usize::MAX,
    ensures
        grouped(final(gs)@, s.push(((from@, to@), d, o as int))),
{
    let ghost k: TextPair = (from@, to@);
    let ghost t = s.push((k, d, o as int));
    assert(t.drop_last() == s);
    proof {
        assert forall|i: int| 0 <= i < t.len() implies (#[trigger] t[i]).1 >= 0 by {
            if i < s.len() {
                assert(t[i] == s[i]);
            }
        }
        assert forall|k2: TextPair| #[trigger] keys_of(t).contains(k2) == (keys_of(s).contains(k2) || k2 == k) by {
            if keys_of(t).contains(k2) && k2 != k {
                let i = choose|i: int| 0 <= i < t.len() && t[i].0 == k2;
                assert(t[i] == s[i]);
            }
            if keys_of(s).contains(k2) {
                let i = choose|i: int| 0 <= i < s.len() && s[i].0 == k2;
                assert(t[i] == s[i]);
            }
            if k2 == k {
                assert(t[s.len() as int].0 == k);
            }
        }
    }
    let mut i: usize = 0;
    let mut found = false;
    while i < gs.len()
        invariant
            i <= gs@.len(),
            gs@ == old(gs)@,
            forall|j: int| 0 <= j < i ==> (#[trigger] gs@[j]).key() != k,
            found ==> i < gs@.len() && gs@[i as int].key() == k,
            k == (from@, to@),
        ensures
            found ==> i < gs@.len() && gs@[i as int].key() == k,
            !found ==> i == gs@.len(),
            forall|j: int| 0 <= j < i ==> (#[trigger] gs@[j]).key() != k,
            gs@ == old(gs)@,
        decreases gs.len() - i,
    {
        let a = str_eq(gs[i].from_state.as_str(), from);
        let b = str_eq(gs[i].to_state.as_str(), to);
        proof {
            let g = gs@[i as int];
            assert(a == (g.from_state@ == from@));
            assert(b == (g.to_state@ == to@));
            assert(g.key() == (g.from_state@, g.to_state@));
            if a && b {
                assert(g.key() == k);
            } else {
                assert(g.key().0 != k.0 || g.key().1 != k.1);
            }
        }
        if a && b {
            found = true;
            break;
        }
        i = i + 1;
    }
    let ghost before = gs@;
    if found {
        let ghost g0 = gs@[i as int];
        proof {
            lemma_durations_nonneg(s, k);
            lemma_total_bounds(g0.durations@.push(d));
            lemma_objects_of_finite(s, k);
        }
        let total = gs[i].total_duration_ms;
        let new_total: i64 = if total > i64::MAX - d { i64::MAX } else { total + d };
        let last = gs[i].last_object;
        let count = gs[i].object_count;
        let new_count: usize = if last == o {
            count
        } else {
            proof {
                let set = objects_of(s, k);
                assert forall|x: int| #[trigger] set.contains(x) implies vstd::set_lib::set_int_range(0, last as int + 1).contains(x) by {}
                vstd::set_lib::lemma_int_range(0, last as int + 1);
                vstd::set_lib::lemma_len_subset(set, vstd::set_lib::set_int_range(0, last as int + 1));
            }
            count + 1
        };
        gs[i].durations.push(d);
        gs[i].total_duration_ms = new_total;
        gs[i].object_count = new_count;
        gs[i].last_object = o;
        proof {
            let set = objects_of(s, k);
            assert(objects_of(t, k) == set.insert(o as int));
            if last != o {
                assert(set.contains(last as int));
                let w = choose|w: int| 0 <= w < s.len() && s[w].0 == k && s[w].2 == last as int;
                assert(last as int <= o);
                assert(!set.contains(o as int));
            } else {
                assert(set.insert(o as int) == set);
            }
            assert forall|j: int| 0 <= j < gs@.len() implies {
                let g = #[trigger] gs@[j];
                &&& g.durations@ == durations_of(t, g.key())
                &&& g.total_duration_ms == total_of(g.durations@)
                &&& g.object_count == objects_of(t, g.key()).len()
                &&& objects_of(t, g.key()).contains(g.last_object as int)
                &&& forall|x: int| #[trigger] objects_of(t, g.key()).contains(x) ==> 0 <= x <= g.last_object
            } by {
                if j != i {
                    assert(gs@[j] == before[j]);
                    assert(before[j].key() != k);
                    lemma_objects_of_finite(s, before[j].key());
                } else {
                    let g = gs@[j];
                    assert(g0.key() == k);
                    assert(g.key() == k);
                    assert(g.durations@ == g0.durations@.push(d));
                    assert(durations_of(t, k) == durations_of(s, k).push(d));
                    assert(g.durations@.drop_last() == g0.durations@);
                    assert(g.total_duration_ms == total_of(g.durations@));
                    assert(objects_of(t, k) == set.insert(o as int));
                    assert(g.object_count == objects_of(t, g.key()).len());
                    assert forall|x: int| #[trigger] objects_of(t, g.key()).contains(x) implies 0 <= x <= g.last_object by {
                        if x != o as int {
                            assert(set.contains(x));
                        }
                    }
                }
            }
            assert forall|a: int, b: int| 0 <= a < b < gs@.len() implies #[trigger] gs@[a].key() != #[trigger] gs@[b].key() by {
                assert(before[a].key() != before[b].key());
            }
            assert forall|j: int| 0 <= j < gs@.len() implies keys_of(t).contains(#[trigger] gs@[j].key()) by {
                assert(keys_of(s).contains(before[j].key()));
            }
            assert forall|k2: TextPair| #[trigger] keys_of(t).contains(k2) implies exists|j: int| 0 <= j < gs@.len() && gs@[j].key() == k2 by {
                if k2 != k {
                    let j = choose|j: int| 0 <= j < before.len() && before[j].key() == k2;
                    assert(gs@[j].key() == k2);
                } else {
                    assert(gs@[i as int].key() == k2);
                }
            }
        }
    } else {
        proof {
            assert(!keys_of(s).contains(k)) by {
                if keys_of(s).contains(k) {
                    let j = choose|j: int| 0 <= j < before.len() && before[j].key() == k;
                }
            }
            assert(durations_of(s, k) =~= Seq::<i64>::empty()) by {
                lemma_no_key(s, k);
            }
            assert(objects_of(s, k) =~= Set::<int>::empty()) by {
                lemma_no_key(s, k);
            }
        }
        let mut ds: Vec<i64> = Vec::new();
        ds.push(d);
        let g = DurationGroup {
            from_state: owned(from),
            to_state: owned(to),
            durations: ds,
            total_duration_ms: d,
            object_count: 1,
            last_object: o,
        };
        gs.push(g);
        proof {
            assert(objects_of(t, k) == Set::<int>::empty().insert(o as int));
            assert(Set::<int>::empty().insert(o as int).len() == 1);
            assert(total_of(seq![d]) == d) by {
                assert(seq![d].drop_last() =~= Seq::<i64>::empty());
                assert(seq![d].last() == d);
                assert(total_of(Seq::<i64>::empty()) == 0);
            }
            assert(durations_of(t, k) =~= seq![d]);
            assert forall|j: int| 0 <= j < gs@.len() implies {
                let g = #[trigger] gs@[j];
                &&& g.durations@ == durations_of(t, g.key())
                &&& g.total_duration_ms == total_of(g.durations@)
                &&& g.object_count == objects_of(t, g.key()).len()
                &&& objects_of(t, g.key()).contains(g.last_object as int)
                &&& forall|x: int| #[trigger] objects_of(t, g.key()).contains(x) ==> 0 <= x <= g.last_object
            } by {
                if j < before.len() {
                    assert(gs@[j] == before[j]);
                    assert(keys_of(s).contains(before[j].key()));
                }
            }
            assert forall|a: int, b: int| 0 <= a < b < gs@.len() implies #[trigger] gs@[a].key() != #[trigger] gs@[b].key() by {
                if b < before.len() {
                    assert(before[a].key() != before[b].key());
                } else {
                    assert(keys_of(s).contains(before[a].key()));
                }
            }
            assert forall|j: int| 0 <= j < gs@.len() implies keys_of(t).contains(#[trigger] gs@[j].key()) by {
                if j < before.len() {
                    assert(keys_of(s).contains(before[j].key()));
                }
            }
            assert forall|k2: TextPair| #[trigger] keys_of(t).contains(k2) implies exists|j: int| 0 <= j < gs@.len() && gs@[j].key() == k2 by {
                if k2 != k {
                    let j = choose|j: int| 0 <= j < before.len() && before[j].key() == k2;
                    assert(gs@[j].key() == k2);
                } else {
                    assert(gs@[before.len() as int].key() == k2);
                }
            }
        }
    }
}

proof fn lemma_no_key<K>(s: Seq<(K, i64, int)>, k: K)
    requires
        !keys_of(s).contains(k),
    ensures
        durations_of(s, k) == Seq::<i64>::empty(),
        objects_of(s, k) == Set::<int>::empty(),
    decreases s.len(),
{
    if s.len() > 0 {
        let d = s.drop_last();
        assert(!keys_of(d).contains(k)) by {
            if keys_of(d).contains(k) {
                let i = choose|i: int| 0 <= i < d.len() && d[i].0 == k;
                assert(s[i] == d[i]);
            }
        }
        assert(s[s.len() - 1].0 != k);
        lemma_no_key(d, k);
    }
}


/// Statistics of a sorted list of durations.
pub struct DurationStats {
    pub sample_count: usize,
    pub min_duration_ms: Option<i64>,
    pub median_duration_ms: Option<i64>,
    pub max_duration_ms: Option<i64>,
}

/// Ascending order of durations.
pub open spec fn duration_less(a: i64, b: i64) -> bool {
    a < b
}

/// `ds` is `samples` sorted ascending, and `stats` its count, least,
/// middle (the element at half the length, rounded down) and greatest
/// value.
pub open spec fn stats_of(ds: Seq<i64>, samples: Seq<i64>, stats: DurationStats) -> bool {
    &&& permutes(ds, samples)
    &&& sorted_by(ds, |a: i64, b: i64| duration_less(a, b))
    &&& stats.sample_count == ds.len()
    &&& stats.min_duration_ms == if ds.len() == 0 { None } else { Some(ds[0]) }
    &&& stats.median_duration_ms == if ds.len() == 0 { None } else { Some(ds[(ds.len() / 2) as int]) }
    &&& stats.max_duration_ms == if ds.len() == 0 { None } else { Some(ds.last()) }
}

fn duration_precedes(a: &i64, b: &i64) -> (r: bool)
    ensures
        r == duration_less(*a, *b),
{
    *a < *b
}

/// Sorts durations and takes their count, least, middle and greatest value.
pub fn duration_stats(durations: Vec<i64>) -> (r: (Vec<i64>, DurationStats))
    ensures
        stats_of(r.0@, durations@, r.1),
{
    let ghost lt = |a: i64, b: i64| duration_less(a, b);
    let sorted = sort_by(durations, duration_precedes, Ghost(lt));
    let n = sorted.len();
    let stats = if n == 0 {
        DurationStats { sample_count: 0, min_duration_ms: None, median_duration_ms: None, max_duration_ms: None }
    } else {
        DurationStats {
            sample_count: n,
            min_duration_ms: Some(sorted[0]),
            median_duration_ms: Some(sorted[n / 2]),
            max_duration_ms: Some(sorted[n - 1]),
        }
    };
    (sorted, stats)
}

/// One kind of state change with its durations (sorted ascending) and the
/// number of distinct objects that made it.
pub struct StateTransitionKpiRow {
    pub from_state: String,
    pub to_state: String,
    pub object_count: usize,
    pub durations: Vec<i64>,
    pub stats: DurationStats,
}

impl StateTransitionKpiRow {
    pub open spec fn key(self) -> TextPair {
        (self.from_state@, self.to_state@)
    }
}

/// One state with its dwell times (sorted ascending), their saturated
/// total and the number of distinct objects that dwelt in it.
pub struct StateDwellKpiRow {
    pub state: String,
    pub object_count: usize,
    pub total_duration_ms: i64,
    pub durations: Vec<i64>,
    pub stats: DurationStats,
}

/// More frequent transitions first, then by state names.
pub open spec fn transition_before(a: StateTransitionKpiRow, b: StateTransitionKpiRow) -> bool {
    a.stats.sample_count > b.stats.sample_count || (a.stats.sample_count == b.stats.sample_count && pair_less(a.key(), b.key()))
}

/// Longer total dwell first, then by state name.
pub open spec fn dwell_before(a: StateDwellKpiRow, b: StateDwellKpiRow) -> bool {
    a.total_duration_ms > b.total_duration_ms || (a.total_duration_ms == b.total_duration_ms && seq_less(a.state@, b.state@))
}

/// The median of a row, zero when it has none.
pub open spec fn median_or_zero(r: StateTransitionKpiRow) -> i64 {
    match r.stats.median_duration_ms {
        Some(m) => m,
        None => 0,
    }
}

/// Longer median first, then more frequent, then by state names.
pub open spec fn recovery_before(a: StateTransitionKpiRow, b: StateTransitionKpiRow) -> bool {
    median_or_zero(a) > median_or_zero(b) || (median_or_zero(a) == median_or_zero(b) && transition_before(a, b))
}

pub proof fn lemma_transition_order()
    ensures
        strict_order(|a: StateTransitionKpiRow, b: StateTransitionKpiRow| transition_before(a, b)),
        strict_order(|a: StateTransitionKpiRow, b: StateTransitionKpiRow| recovery_before(a, b)),
{
    assert forall|a: StateTransitionKpiRow, b: StateTransitionKpiRow| transition_before(a, b) implies !transition_before(b, a) by {
        lemma_pair_order(a.key(), b.key(), a.key());
    }
    assert forall|a: StateTransitionKpiRow, b: StateTransitionKpiRow, c: StateTransitionKpiRow|
        transition_before(a, b) && transition_before(b, c) implies transition_before(a, c) by {
        lemma_pair_order(a.key(), b.key(), c.key());
    }
}

pub proof fn lemma_dwell_order()
    ensures
        strict_order(|a: StateDwellKpiRow, b: StateDwellKpiRow| dwell_before(a, b)),
{
    assert forall|a: StateDwellKpiRow, b: StateDwellKpiRow| dwell_before(a, b) implies !dwell_before(b, a) by {
        lemma_seq_order_flip(a.state@, b.state@);
    }
    assert forall|a: StateDwellKpiRow, b: StateDwellKpiRow, c: StateDwellKpiRow|
        dwell_before(a, b) && dwell_before(b, c) implies dwell_before(a, c) by {
        if seq_less(a.state@, b.state@) && seq_less(b.state@, c.state@) {
            lemma_seq_order_trans(a.state@, b.state@, c.state@);
        }
    }
}

fn transition_precedes(a: &StateTransitionKpiRow, b: &StateTransitionKpiRow) -> (r: bool)
    ensures
        r == transition_before(*a, *b),
{
    a.stats.sample_count > b.stats.sample_count || (a.stats.sample_count == b.stats.sample_count
        && pair_compare(a.from_state.as_str(), a.to_state.as_str(), b.from_state.as_str(), b.to_state.as_str()) == Order3::Less)
}

fn dwell_precedes(a: &StateDwellKpiRow, b: &StateDwellKpiRow) -> (r: bool)
    ensures
        r == dwell_before(*a, *b),
{
    a.total_duration_ms > b.total_duration_ms || (a.total_duration_ms == b.total_duration_ms
        && text_order(a.state.as_str(), b.state.as_str()) == Order3::Less)
}

fn recovery_precedes(a: &StateTransitionKpiRow, b: &StateTransitionKpiRow) -> (r: bool)
    ensures
        r == recovery_before(*a, *b),
{
    let ma = match a.stats.median_duration_ms {
        Some(m) => m,
        None => 0,
    };
    let mb = match b.stats.median_duration_ms {
        Some(m) => m,
        None => 0,
    };
    ma > mb || (ma == mb && transition_precedes(a, b))
}

/// A row and a copy of it hold the same values.
pub open spec fn same_row(a: StateTransitionKpiRow, b: StateTransitionKpiRow) -> bool {
    &&& a.key() == b.key()
    &&& a.object_count == b.object_count
    &&& a.durations@ == b.durations@
    &&& a.stats == b.stats
}

fn copy_row(r: &StateTransitionKpiRow) -> (c: StateTransitionKpiRow)
    ensures
        same_row(c, *r),
{
    StateTransitionKpiRow {
        from_state: owned(r.from_state.as_str()),
        to_state: owned(r.to_state.as_str()),
        object_count: r.object_count,
        durations: copy_vec(&r.durations),
        stats: DurationStats {
            sample_count: r.stats.sample_count,
            min_duration_ms: r.stats.min_duration_ms,
            median_duration_ms: r.stats.median_duration_ms,
            max_duration_ms: r.stats.max_duration_ms,
        },
    }
}

/// A change into a state whose name speaks of recovery: the target differs
/// from the source and its lower-cased name contains `normal`,
/// `available` or `standard`.
pub open spec fn recovers(from: Seq<char>, to: Seq<char>) -> bool {
    &&& from != to
    &&& {
        let t = ascii_lower(to);
        seq_contains_text(t, "normal"@) || seq_contains_text(t, "available"@) || seq_contains_text(t, "standard"@)
    }
}

/// Whether a change from `from_state` to `to_state` is a recovery.
pub fn is_recovery_transition(from_state: &str, to_state: &str) -> (r: bool)
    ensures
        r == recovers(from_state@, to_state@),
{
    if str_eq(from_state, to_state) {
        return false;
    }
    let to = lower_text(to_state);
    proof {
        reveal_strlit("normal");
        reveal_strlit("available");
        reveal_strlit("standard");
    }
    text_contains(to.as_str(), "normal") || text_contains(to.as_str(), "available") || text_contains(to.as_str(), "standard")
}

/// `rows` describe the transition samples `s`: one row per kind of state
/// change, each with its sorted durations, their statistics and the number
/// of distinct objects, more frequent kinds first, then by state names.
pub open spec fn transition_rows(rows: Seq<StateTransitionKpiRow>, s: Seq<(TextPair, i64, int)>) -> bool {
    &&& forall|i: int, j: int| 0 <= i < j < rows.len() ==> (#[trigger] rows[i]).key() != (#[trigger] rows[j]).key()
    &&& forall|i: int| 0 <= i < rows.len() ==> keys_of(s).contains(#[trigger] rows[i].key())
    &&& forall|k: TextPair| #[trigger] keys_of(s).contains(k) ==> exists|i: int| 0 <= i < rows.len() && rows[i].key() == k
    &&& forall|i: int| 0 <= i < rows.len() ==> {
        let r = #[trigger] rows[i];
        &&& stats_of(r.durations@, durations_of(s, r.key()), r.stats)
        &&& r.object_count == objects_of(s, r.key()).len()
    }
    &&& sorted_by(rows, |a: StateTransitionKpiRow, b: StateTransitionKpiRow| transition_before(a, b))
}

/// `rows` describe the dwell samples `s`: one row per state, each with its
/// sorted dwell times, their saturated total (summed in sample order), their
/// statistics and the number of distinct objects, longer totals first, then
/// by state name.
pub open spec fn dwell_rows(rows: Seq<StateDwellKpiRow>, s: Seq<(Seq<char>, i64, int)>) -> bool {
    &&& forall|i: int, j: int| 0 <= i < j < rows.len() ==> (#[trigger] rows[i]).state@ != (#[trigger] rows[j]).state@
    &&& forall|i: int| 0 <= i < rows.len() ==> keys_of(s).contains(#[trigger] rows[i].state@)
    &&& forall|k: Seq<char>| #[trigger] keys_of(s).contains(k) ==> exists|i: int| 0 <= i < rows.len() && rows[i].state@ == k
    &&& forall|i: int| 0 <= i < rows.len() ==> {
        let r = #[trigger] rows[i];
        &&& stats_of(r.durations@, durations_of(s, r.state@), r.stats)
        &&& r.total_duration_ms == total_of(durations_of(s, r.state@))
        &&& r.object_count == objects_of(s, r.state@).len()
    }
    &&& sorted_by(rows, |a: StateDwellKpiRow, b: StateDwellKpiRow| dwell_before(a, b))
}

/// Dwell samples keyed by their state and the empty text.
pub open spec fn keyed(s: Seq<(Seq<char>, i64, int)>) -> Seq<(TextPair, i64, int)> {
    s.map_values(|x: (Seq<char>, i64, int)| ((x.0, Seq::<char>::empty()), x.1, x.2))
}

pub proof fn lemma_keyed(s: Seq<(Seq<char>, i64, int)>, t: Seq<char>)
    ensures
        durations_of(keyed(s), (t, Seq::<char>::empty())) == durations_of(s, t),
        objects_of(keyed(s), (t, Seq::<char>::empty())) == objects_of(s, t),
        keys_of(keyed(s)).contains((t, Seq::<char>::empty())) == keys_of(s).contains(t),
        forall|k: TextPair| #[trigger] keys_of(keyed(s)).contains(k) ==> k.1 == Seq::<char>::empty(),
    decreases s.len(),
{
    if s.len() > 0 {
        lemma_keyed(s.drop_last(), t);
        assert(keyed(s).drop_last() == keyed(s.drop_last()));
    }
    if keys_of(s).contains(t) {
        let i = choose|i: int| 0 <= i < s.len() && s[i].0 == t;
        assert(keyed(s)[i].0 == (t, Seq::<char>::empty()));
    }
    if keys_of(keyed(s)).contains((t, Seq::<char>::empty())) {
        let i = choose|i: int| 0 <= i < keyed(s).len() && keyed(s)[i].0 == (t, Seq::<char>::empty());
        assert(s[i].0 == t);
    }
    assert forall|k: TextPair| #[trigger] keys_of(keyed(s)).contains(k) implies k.1 == Seq::<char>::empty() by {
        let i = choose|i: int| 0 <= i < keyed(s).len() && keyed(s)[i].0 == k;
    }
}

/// The transition rows of grouped samples.
fn transition_rows_of(gs: &Vec<DurationGroup>, Ghost(s): Ghost<Seq<(TextPair, i64, int)>>) -> (rows: Vec<StateTransitionKpiRow>)
    requires
        grouped(gs@, s),
    ensures
        transition_rows(rows@, s),
{
    let mut out: Vec<StateTransitionKpiRow> = Vec::new();
    let mut i: usize = 0;
    while i < gs.len()
        invariant
            grouped(gs@, s),
            i <= gs@.len(),
            out@.len() == i,
            forall|j: int| 0 <= j < i ==> {
                let r = #[trigger] out@[j];
                &&& r.key() == gs@[j].key()
                &&& stats_of(r.durations@, durations_of(s, r.key()), r.stats)
                &&& r.object_count == objects_of(s, r.key()).len()
            },
        decreases gs.len() - i,
    {
        let g = &gs[i];
        let (ds, stats) = duration_stats(copy_vec(&g.durations));
        out.push(StateTransitionKpiRow {
            from_state: owned(g.from_state.as_str()),
            to_state: owned(g.to_state.as_str()),
            object_count: g.object_count,
            durations: ds,
            stats,
        });
        i = i + 1;
    }
    let ghost lt = |a: StateTransitionKpiRow, b: StateTransitionKpiRow| transition_before(a, b);
    proof { lemma_transition_order(); }
    let rows = sort_by(out, transition_precedes, Ghost(lt));
    proof {
        let u = out@;
        lemma_permutes_members(rows@, u);
        assert forall|a: int, b: int| 0 <= a < b < u.len() implies (|r: StateTransitionKpiRow| r.key())(#[trigger] u[a])
            != (|r: StateTransitionKpiRow| r.key())(#[trigger] u[b]) by {
            assert(gs@[a].key() != gs@[b].key());
        }
        lemma_permutes_distinct(rows@, u, |r: StateTransitionKpiRow| r.key());
        assert forall|x: int, y: int| 0 <= x < y < rows@.len() implies (#[trigger] rows@[x]).key() != (#[trigger] rows@[y]).key() by {
            assert((|r: StateTransitionKpiRow| r.key())(rows@[x]) != (|r: StateTransitionKpiRow| r.key())(rows@[y]));
        }
        assert forall|x: int| 0 <= x < rows@.len() implies keys_of(s).contains(#[trigger] rows@[x].key()) by {
            assert(u.contains(rows@[x]));
            let j = choose|j: int| 0 <= j < u.len() && u[j] == rows@[x];
            assert(keys_of(s).contains(gs@[j].key()));
        }
        assert forall|k: TextPair| #[trigger] keys_of(s).contains(k) implies exists|x: int| 0 <= x < rows@.len() && rows@[x].key() == k by {
            let j = choose|j: int| 0 <= j < gs@.len() && gs@[j].key() == k;
            assert(rows@.contains(u[j]));
            let x = choose|x: int| 0 <= x < rows@.len() && rows@[x] == u[j];
            assert(rows@[x].key() == k);
        }
        assert forall|x: int| 0 <= x < rows@.len() implies {
            let r = #[trigger] rows@[x];
            &&& stats_of(r.durations@, durations_of(s, r.key()), r.stats)
            &&& r.object_count == objects_of(s, r.key()).len()
        } by {
            assert(u.contains(rows@[x]));
            let j = choose|j: int| 0 <= j < u.len() && u[j] == rows@[x];
        }
    }
    rows
}

/// The dwell rows of grouped dwell samples.
fn dwell_rows_of(gs: &Vec<DurationGroup>, Ghost(s): Ghost<Seq<(Seq<char>, i64, int)>>) -> (rows: Vec<StateDwellKpiRow>)
    requires
        grouped(gs@, keyed(s)),
    ensures
        dwell_rows(rows@, s),
{
    let ghost e = Seq::<char>::empty();
    let mut out: Vec<StateDwellKpiRow> = Vec::new();
    let mut i: usize = 0;
    while i < gs.len()
        invariant
            grouped(gs@, keyed(s)),
            e == Seq::<char>::empty(),
            i <= gs@.len(),
            out@.len() == i,
            forall|j: int| 0 <= j < i ==> {
                let r = #[trigger] out@[j];
                &&& gs@[j].key() == (r.state@, e)
                &&& stats_of(r.durations@, durations_of(s, r.state@), r.stats)
                &&& r.total_duration_ms == total_of(durations_of(s, r.state@))
                &&& r.object_count == objects_of(s, r.state@).len()
            },
        decreases gs.len() - i,
    {
        let g = &gs[i];
        proof {
            assert(keys_of(keyed(s)).contains(g.key()));
            lemma_keyed(s, g.from_state@);
        }
        let (ds, stats) = duration_stats(copy_vec(&g.durations));
        out.push(StateDwellKpiRow {
            state: owned(g.from_state.as_str()),
            object_count: g.object_count,
            total_duration_ms: g.total_duration_ms,
            durations: ds,
            stats,
        });
        i = i + 1;
    }
    let ghost lt = |a: StateDwellKpiRow, b: StateDwellKpiRow| dwell_before(a, b);
    proof { lemma_dwell_order(); }
    let rows = sort_by(out, dwell_precedes, Ghost(lt));
    proof {
        let u = out@;
        lemma_permutes_members(rows@, u);
        assert forall|a: int, b: int| 0 <= a < b < u.len() implies (|r: StateDwellKpiRow| r.state@)(#[trigger] u[a])
            != (|r: StateDwellKpiRow| r.state@)(#[trigger] u[b]) by {
            assert(gs@[a].key() != gs@[b].key());
        }
        lemma_permutes_distinct(rows@, u, |r: StateDwellKpiRow| r.state@);
        assert forall|x: int, y: int| 0 <= x < y < rows@.len() implies (#[trigger] rows@[x]).state@ != (#[trigger] rows@[y]).state@ by {
            assert((|r: StateDwellKpiRow| r.state@)(rows@[x]) != (|r: StateDwellKpiRow| r.state@)(rows@[y]));
        }
        assert forall|x: int| 0 <= x < rows@.len() implies keys_of(s).contains(#[trigger] rows@[x].state@) by {
            assert(u.contains(rows@[x]));
            let j = choose|j: int| 0 <= j < u.len() && u[j] == rows@[x];
            assert(keys_of(keyed(s)).contains(gs@[j].key()));
            lemma_keyed(s, rows@[x].state@);
        }
        assert forall|k: Seq<char>| #[trigger] keys_of(s).contains(k) implies exists|x: int| 0 <= x < rows@.len() && rows@[x].state@ == k by {
            lemma_keyed(s, k);
            let j = choose|j: int| 0 <= j < gs@.len() && gs@[j].key() == (k, e);
            assert(rows@.contains(u[j]));
            let x = choose|x: int| 0 <= x < rows@.len() && rows@[x] == u[j];
            assert(rows@[x].state@ == k);
        }
        assert forall|x: int| 0 <= x < rows@.len() implies {
            let r = #[trigger] rows@[x];
            &&& stats_of(r.durations@, durations_of(s, r.state@), r.stats)
            &&& r.total_duration_ms == total_of(durations_of(s, r.state@))
            &&& r.object_count == objects_of(s, r.state@).len()
        } by {
            assert(u.contains(rows@[x]));
            let j = choose|j: int| 0 <= j < u.len() && u[j] == rows@[x];
        }
    }
    rows
}

/// `r` copies a recovery row of `rows`.
pub open spec fn copied_recovery(r: StateTransitionKpiRow, rows: Seq<StateTransitionKpiRow>) -> bool {
    exists|j: int| 0 <= j < rows.len() && same_row(r, #[trigger] rows[j]) && recovers(rows[j].from_state@, rows[j].to_state@)
}

/// Some row of `rec` copies `r`.
pub open spec fn copied_into(r: StateTransitionKpiRow, rec: Seq<StateTransitionKpiRow>) -> bool {
    exists|i: int| 0 <= i < rec.len() && same_row(#[trigger] rec[i], r)
}

/// `rec` holds copies of the rows of `rows` whose change is a recovery,
/// each once, longer medians first, then more frequent, then by state
/// names.
pub open spec fn recovery_rows(rec: Seq<StateTransitionKpiRow>, rows: Seq<StateTransitionKpiRow>) -> bool {
    &&& forall|i: int| 0 <= i < rec.len() ==> #[trigger] copied_recovery(rec[i], rows)
    &&& forall|j: int| 0 <= j < rows.len() && recovers(rows[j].from_state@, rows[j].to_state@) ==> #[trigger] copied_into(rows[j], rec)
    &&& forall|i: int, j: int| 0 <= i < j < rec.len() ==> (#[trigger] rec[i]).key() != (#[trigger] rec[j]).key()
    &&& sorted_by(rec, |a: StateTransitionKpiRow, b: StateTransitionKpiRow| recovery_before(a, b))
}

/// The recovery rows among transition rows with distinct kinds.
fn recovery_rows_of(rows: &Vec<StateTransitionKpiRow>) -> (rec: Vec<StateTransitionKpiRow>)
    requires
        forall|i: int, j: int| 0 <= i < j < rows@.len() ==> (#[trigger] rows@[i]).key() != (#[trigger] rows@[j]).key(),
    ensures
        recovery_rows(rec@, rows@),
{
    let mut out: Vec<StateTransitionKpiRow> = Vec::new();
    let ghost mut pos: Seq<int> = Seq::empty();
    let mut i: usize = 0;
    while i < rows.len()
        invariant
            forall|a: int, b: int| 0 <= a < b < rows@.len() ==> (#[trigger] rows@[a]).key() != (#[trigger] rows@[b]).key(),
            i <= rows@.len(),
            pos.len() == out@.len(),
            forall|x: int| 0 <= x < out@.len() ==> 0 <= #[trigger] pos[x] < i && same_row(out@[x], rows@[pos[x]])
                && recovers(rows@[pos[x]].from_state@, rows@[pos[x]].to_state@),
            forall|x: int, y: int| 0 <= x < y < out@.len() ==> #[trigger] pos[x] < #[trigger] pos[y],
            forall|j: int| 0 <= j < i && recovers(rows@[j].from_state@, rows@[j].to_state@) ==> exists|x: int| 0 <= x < out@.len() && pos[x] == j,
        decreases rows.len() - i,
    {
        if is_recovery_transition(rows[i].from_state.as_str(), rows[i].to_state.as_str()) {
            out.push(copy_row(&rows[i]));
            let ghost old_pos = pos;
            proof {
                pos = pos.push(i as int);
                assert forall|j: int| 0 <= j < i + 1 && recovers(rows@[j].from_state@, rows@[j].to_state@) implies exists|x: int| 0 <= x < out@.len() && pos[x] == j by {
                    if j < i {
                        let x = choose|x: int| 0 <= x < old_pos.len() && old_pos[x] == j;
                        assert(pos[x] == j);
                    } else {
                        assert(pos[out@.len() - 1] == j);
                    }
                }
            }
        }
        i = i + 1;
    }
    let ghost lt = |a: StateTransitionKpiRow, b: StateTransitionKpiRow| recovery_before(a, b);
    proof { lemma_transition_order(); }
    let ghost u = out@;
    let rec = sort_by(out, recovery_precedes, Ghost(lt));
    proof {
        lemma_permutes_members(rec@, u);
        assert forall|a: int, b: int| 0 <= a < b < u.len() implies (|r: StateTransitionKpiRow| r.key())(#[trigger] u[a])
            != (|r: StateTransitionKpiRow| r.key())(#[trigger] u[b]) by {
            assert(rows@[pos[a]].key() != rows@[pos[b]].key());
        }
        lemma_permutes_distinct(rec@, u, |r: StateTransitionKpiRow| r.key());
        assert forall|x: int, y: int| 0 <= x < y < rec@.len() implies (#[trigger] rec@[x]).key() != (#[trigger] rec@[y]).key() by {
            assert((|r: StateTransitionKpiRow| r.key())(rec@[x]) != (|r: StateTransitionKpiRow| r.key())(rec@[y]));
        }
        assert forall|x: int| 0 <= x < rec@.len() implies #[trigger] copied_recovery(rec@[x], rows@) by {
            assert(u.contains(rec@[x]));
            let y = choose|y: int| 0 <= y < u.len() && u[y] == rec@[x];
            assert(same_row(rec@[x], rows@[pos[y]]));
        }
        assert forall|j: int| 0 <= j < rows@.len() && recovers(rows@[j].from_state@, rows@[j].to_state@) implies #[trigger] copied_into(rows@[j], rec@) by {
            let y = choose|y: int| 0 <= y < u.len() && pos[y] == j;
            assert(rec@.contains(u[y]));
            let x = choose|x: int| 0 <= x < rec@.len() && rec@[x] == u[y];
            assert(same_row(rec@[x], rows@[j]));
        }
    }
    rec
}

/// The last episode of an object: its state, when it was entered, the last
/// event in it, how long it has lasted and how many events it spans.
pub struct StuckStateRow {
    pub object_id: String,
    pub state: String,
    pub entered_time_ms: i64,
    pub last_time_ms: i64,
    pub duration_ms: i64,
    pub event_count: usize,
}

/// `r` describes the last episode of the object at `o`.
pub open spec fn stuck_row_of(r: StuckStateRow, log: CompactOcelLog, st: Symbol, o: int) -> bool {
    let sl = object_sl(log, o, st);
    let eps = object_runs(log, st, o);
    let e = eps.last();
    &&& eps.len() > 0
    &&& r.object_id@ == log.text(log.objects@[o].id)
    &&& r.state@ == e.0
    &&& r.entered_time_ms == sl_time(log, sl, e.1)
    &&& r.last_time_ms == sl_time(log, sl, e.2)
    &&& r.duration_ms == elapsed(r.entered_time_ms, r.last_time_ms)
    &&& r.event_count == e.2 - e.1 + 1
}

/// The ranking key of the last episode of the object at `o`.
pub open spec fn stuck_key(log: CompactOcelLog, st: Symbol, o: int) -> (i64, Seq<char>) {
    let sl = object_sl(log, o, st);
    let e = object_runs(log, st, o).last();
    (elapsed(sl_time(log, sl, e.1), sl_time(log, sl, e.2)), log.text(log.objects@[o].id))
}

/// Longer durations first, then by object id.
pub open spec fn stuck_key_before(a: (i64, Seq<char>), b: (i64, Seq<char>)) -> bool {
    a.0 > b.0 || (a.0 == b.0 && seq_less(a.1, b.1))
}

pub open spec fn stuck_before(a: StuckStateRow, b: StuckStateRow) -> bool {
    stuck_key_before((a.duration_ms, a.object_id@), (b.duration_ms, b.object_id@))
}

fn stuck_precedes(a: &StuckStateRow, b: &StuckStateRow) -> (r: bool)
    ensures
        r == stuck_before(*a, *b),
{
    a.duration_ms > b.duration_ms || (a.duration_ms == b.duration_ms
        && text_order(a.object_id.as_str(), b.object_id.as_str()) == Order3::Less)
}

pub proof fn lemma_stuck_order()
    ensures
        strict_order(|a: StuckStateRow, b: StuckStateRow| stuck_before(a, b)),
{
    assert forall|a: StuckStateRow, b: StuckStateRow| stuck_before(a, b) implies !stuck_before(b, a) by {
        lemma_seq_order_flip(a.object_id@, b.object_id@);
    }
    assert forall|a: StuckStateRow, b: StuckStateRow, c: StuckStateRow|
        stuck_before(a, b) && stuck_before(b, c) implies stuck_before(a, c) by {
        if seq_less(a.object_id@, b.object_id@) && seq_less(b.object_id@, c.object_id@) {
            lemma_seq_order_trans(a.object_id@, b.object_id@, c.object_id@);
        }
    }
}

/// Positions, in order, of the first `n` objects of type `ot` whose
/// lifecycle carries a state.
pub open spec fn stateful_objects(log: CompactOcelLog, st: Symbol, ot: Symbol, n: int) -> Seq<int>
    decreases n,
{
    if n <= 0 {
        Seq::empty()
    } else {
        let r = stateful_objects(log, st, ot, n - 1);
        if log.objects@[n - 1].type_symbol == ot && object_sl(log, n - 1, st).len() > 0 {
            r.push(n - 1)
        } else {
            r
        }
    }
}

/// `r` describes the last episode of one of the objects `objs`.
pub open spec fn stuck_row_among(r: StuckStateRow, log: CompactOcelLog, st: Symbol, objs: Seq<int>) -> bool {
    exists|j: int| 0 <= j < objs.len() && stuck_row_of(r, log, st, #[trigger] objs[j])
}

/// No row of `stuck` is about the object at `o`.
pub open spec fn left_out(stuck: Seq<StuckStateRow>, log: CompactOcelLog, o: int) -> bool {
    forall|i: int| 0 <= i < stuck.len() ==> (#[trigger] stuck[i]).object_id@ != log.text(log.objects@[o].id)
}

/// `stuck` ranks the last episodes of the objects `objs` by duration
/// (longest first, then by object id) and keeps the first `limit`.
pub open spec fn stuck_rows(stuck: Seq<StuckStateRow>, log: CompactOcelLog, st: Symbol, objs: Seq<int>, limit: nat) -> bool {
    &&& stuck.len() == if limit < objs.len() { limit } else { objs.len() }
    &&& forall|i: int| 0 <= i < stuck.len() ==> #[trigger] stuck_row_among(stuck[i], log, st, objs)
    &&& forall|i: int, j: int| 0 <= i < j < stuck.len() ==> (#[trigger] stuck[i]).object_id@ != (#[trigger] stuck[j]).object_id@
    &&& sorted_by(stuck, |a: StuckStateRow, b: StuckStateRow| stuck_before(a, b))
    &&& forall|j: int| 0 <= j < objs.len() && #[trigger] left_out(stuck, log, objs[j]) ==> forall|i: int| 0 <= i < stuck.len()
        ==> !stuck_key_before(stuck_key(log, st, objs[j]), (#[trigger] stuck[i].duration_ms, stuck[i].object_id@))
}

/// Ranks the collected rows and keeps the first `limit`.
fn rank_stuck(
    rows: Vec<StuckStateRow>,
    limit: usize,
    Ghost(log): Ghost<CompactOcelLog>,
    Ghost(st): Ghost<Symbol>,
    Ghost(objs): Ghost<Seq<int>>,
) -> (r: Vec<StuckStateRow>)
    requires
        rows@.len() == objs.len(),
        forall|i: int| 0 <= i < rows@.len() ==> stuck_row_of(#[trigger] rows@[i], log, st, objs[i]),
        forall|i: int, j: int| 0 <= i < j < rows@.len() ==> (#[trigger] rows@[i]).object_id@ != (#[trigger] rows@[j]).object_id@,
    ensures
        stuck_rows(r@, log, st, objs, limit as nat),
{
    let ghost lt = |a: StuckStateRow, b: StuckStateRow| stuck_before(a, b);
    proof { lemma_stuck_order(); }
    let ghost u = rows@;
    let mut sorted = sort_by(rows, stuck_precedes, Ghost(lt));
    let ghost full = sorted@;
    sorted.truncate(limit);
    proof {
        let p = choose|p: Seq<int>| crate::sorting::is_perm(p, u.len()) && full.len() == u.len() && forall|i: int| 0 <= i < full.len() ==> #[trigger] full[i] == u[p[i]];
        assert(sorted@ == full.take(sorted@.len() as int));
        assert forall|i: int| 0 <= i < sorted@.len() implies #[trigger] stuck_row_among(sorted@[i], log, st, objs) by {
            assert(sorted@[i] == full[i]);
            assert(full[i] == u[p[i]]);
            assert(stuck_row_of(u[p[i]], log, st, objs[p[i]]));
        }
        assert forall|i: int, j: int| 0 <= i < j < sorted@.len() implies (#[trigger] sorted@[i]).object_id@ != (#[trigger] sorted@[j]).object_id@ by {
            assert(sorted@[i] == full[i] && sorted@[j] == full[j]);
            assert(p[i] != p[j]);
            if p[i] < p[j] {
                assert(u[p[i]].object_id@ != u[p[j]].object_id@);
            } else {
                assert(u[p[j]].object_id@ != u[p[i]].object_id@);
            }
        }
        assert forall|i: int, j: int| 0 <= i < j < sorted@.len() implies !lt(#[trigger] sorted@[j], #[trigger] sorted@[i]) by {
            assert(sorted@[i] == full[i] && sorted@[j] == full[j]);
        }
        assert forall|j: int| 0 <= j < objs.len() && #[trigger] left_out(sorted@, log, objs[j]) implies forall|i: int| 0 <= i < sorted@.len()
            ==> !stuck_key_before(stuck_key(log, st, objs[j]), (#[trigger] sorted@[i].duration_ms, sorted@[i].object_id@)) by {
            crate::sorting::lemma_perm_onto(p, u.len(), j);
            let m = choose|m: int| 0 <= m < p.len() && p[m] == j;
            assert(full[m] == u[j]);
            assert(stuck_row_of(u[j], log, st, objs[j]));
            assert((full[m].duration_ms, full[m].object_id@) == stuck_key(log, st, objs[j]));
            if m < sorted@.len() {
                assert(sorted@[m] == full[m]);
                assert(sorted@[m].object_id@ != log.text(log.objects@[objs[j]].id));
            }
            assert forall|i: int| 0 <= i < sorted@.len() implies !stuck_key_before(stuck_key(log, st, objs[j]), (#[trigger] sorted@[i].duration_ms, sorted@[i].object_id@)) by {
                assert(sorted@[i] == full[i]);
                assert(i < m);
                assert(!lt(full[m], full[i]));
            }
        }
    }
    sorted
}

/// The states that the stateful lifecycles of the first `n` objects of type
/// `ot` pass through.
pub open spec fn state_texts(log: CompactOcelLog, st: Symbol, ot: Symbol, n: int) -> Set<Seq<char>> {
    Set::new(|t: Seq<char>| exists|a: int, b: int| 0 <= a < n && log.objects@[a].type_symbol == ot
        && 0 <= b < object_sl(log, a, st).len() && #[trigger] object_sl(log, a, st)[b].1 == t)
}

/// The states seen before entry `q` of the lifecycle of the object at `o`.
spec fn seen_states(log: CompactOcelLog, st: Symbol, ot: Symbol, o: int, q: int) -> Set<Seq<char>> {
    Set::new(|t: Seq<char>| exists|a: int, b: int| 0 <= a <= o && log.objects@[a].type_symbol == ot
        && 0 <= b < object_sl(log, a, st).len() && (a < o || b < q) && #[trigger] object_sl(log, a, st)[b].1 == t)
}

proof fn lemma_sample_bounds(log: CompactOcelLog, st: Symbol, ot: Symbol, n: int)
    ensures
        forall|i: int| 0 <= i < transition_samples(log, st, ot, n).len() ==>
            (#[trigger] transition_samples(log, st, ot, n)[i]).1 >= 0 && 0 <= transition_samples(log, st, ot, n)[i].2 < n,
        forall|i: int| 0 <= i < dwell_samples(log, st, ot, n).len() ==>
            (#[trigger] dwell_samples(log, st, ot, n)[i]).1 >= 0 && 0 <= dwell_samples(log, st, ot, n)[i].2 < n,
        forall|i: int| 0 <= i < stateful_objects(log, st, ot, n).len() ==> 0 <= #[trigger] stateful_objects(log, st, ot, n)[i] < n,
        n >= 0 ==> stateful_objects(log, st, ot, n).len() <= n,
    decreases n,
{
    if n > 0 {
        lemma_sample_bounds(log, st, ot, n - 1);
        let t0 = transition_samples(log, st, ot, n - 1);
        let d0 = dwell_samples(log, st, ot, n - 1);
        let t = transition_samples(log, st, ot, n);
        let d = dwell_samples(log, st, ot, n);
        assert forall|i: int| 0 <= i < t.len() implies (#[trigger] t[i]).1 >= 0 && 0 <= t[i].2 < n by {
            if i < t0.len() {
                assert(t[i] == t0[i]);
            }
        }
        assert forall|i: int| 0 <= i < d.len() implies (#[trigger] d[i]).1 >= 0 && 0 <= d[i].2 < n by {
            if i < d0.len() {
                assert(d[i] == d0[i]);
            }
        }
        let s0 = stateful_objects(log, st, ot, n - 1);
        let s1 = stateful_objects(log, st, ot, n);
        assert forall|i: int| 0 <= i < s1.len() implies 0 <= #[trigger] s1[i] < n by {
            if i < s0.len() {
                assert(s1[i] == s0[i]);
            }
        }
    }
}

/// Object positions with distinct ids have distinct id texts.
proof fn lemma_object_ids(log: CompactOcelLog, a: int, b: int)
    requires
        log.wf(),
        0 <= a < log.objects@.len(),
        0 <= b < log.objects@.len(),
        a != b,
    ensures
        log.text(log.objects@[a].id) != log.text(log.objects@[b].id),
{
    let ia = log.objects@[a].id;
    let ib = log.objects@[b].id;
    assert(crate::model::object_index_ok(log.object_index@, log.objects@));
    assert(log.objects.len() == log.objects@.len());
    let oa = log.objects@[a];
    let ob = log.objects@[b];
    assert(oa.id.0 < log.object_index@.len() && log.object_index@[oa.id.0 as int] == Some(a as usize));
    assert(ob.id.0 < log.object_index@.len() && log.object_index@[ob.id.0 as int] == Some(b as usize));
    assert(ia != ib);
    log.pool.lemma_wf_distinct();
    assert(crate::model::object_ok(log.pool@.len(), log.events@.len(), log.objects@[a]));
    assert(crate::model::object_ok(log.pool@.len(), log.events@.len(), log.objects@[b]));
}

/// `rows` describe the last episodes of the objects `objs`, in order.
pub open spec fn stuck_collected(rows: Seq<StuckStateRow>, log: CompactOcelLog, st: Symbol, objs: Seq<int>) -> bool {
    &&& rows.len() == objs.len()
    &&& forall|i: int| 0 <= i < rows.len() ==> stuck_row_of(#[trigger] rows[i], log, st, objs[i])
}

impl CompactOcelLog {
    /// Adds the states, episodes, state changes and last episode of the
    /// object at `o` (of type `ot`) to what was gathered of the objects
    /// before it.
    fn add_object_kpis(
        &self,
        o: usize,
        st: Symbol,
        Ghost(ot): Ghost<Symbol>,
        tg: &mut Vec<DurationGroup>,
        dg: &mut Vec<DurationGroup>,
        stuck: &mut Vec<StuckStateRow>,
        states: &mut Vec<String>,
    ) -> (stateful: bool)
        requires
            self.wf(),
            o < self.objects@.len(),
            self.objects@[o as int].type_symbol == ot,
            grouped(old(tg)@, transition_samples(*self, st, ot, o as int)),
            grouped(old(dg)@, keyed(dwell_samples(*self, st, ot, o as int))),
            stuck_collected(old(stuck)@, *self, st, stateful_objects(*self, st, ot, o as int)),
            texts_sorted(old(states)@),
            text_set(old(states)@) == state_texts(*self, st, ot, o as int),
        ensures
            grouped(final(tg)@, transition_samples(*self, st, ot, o + 1)),
            grouped(final(dg)@, keyed(dwell_samples(*self, st, ot, o + 1))),
            stuck_collected(final(stuck)@, *self, st, stateful_objects(*self, st, ot, o + 1)),
            texts_sorted(final(states)@),
            text_set(final(states)@) == state_texts(*self, st, ot, o + 1),
            stateful == (object_sl(*self, o as int, st).len() > 0),
    {
        let ghost log = *self;
        let ghost oi = o as int;
        let sl = self.stateful_lifecycle(o, st);
        let ghost slv = object_sl(log, oi, st);
        assert(pairs_view(sl@) == slv);
        proof {
            assert(seen_states(log, st, ot, oi, 0) =~= state_texts(log, st, ot, oi)) by {
                assert forall|t: Seq<char>| #[trigger] seen_states(log, st, ot, oi, 0).contains(t) implies state_texts(log, st, ot, oi).contains(t) by {
                    let (a, b) = choose|a: int, b: int| 0 <= a <= oi && log.objects@[a].type_symbol == ot
                        && 0 <= b < object_sl(log, a, st).len() && (a < oi || b < 0) && #[trigger] object_sl(log, a, st)[b].1 == t;
                }
                assert forall|t: Seq<char>| #[trigger] state_texts(log, st, ot, oi).contains(t) implies seen_states(log, st, ot, oi, 0).contains(t) by {
                    let (a, b) = choose|a: int, b: int| 0 <= a < oi && log.objects@[a].type_symbol == ot
                        && 0 <= b < object_sl(log, a, st).len() && #[trigger] object_sl(log, a, st)[b].1 == t;
                }
            }
        }
        let mut p: usize = 0;
        while p < sl.len()
            invariant
                log == *self,
                oi == o,
                o < log.objects@.len(),
                log.objects@[oi].type_symbol == ot,
                slv == object_sl(log, oi, st),
                pairs_view(sl@) == slv,
                p <= sl@.len(),
                texts_sorted(states@),
                text_set(states@) == seen_states(log, st, ot, oi, p as int),
            decreases sl.len() - p,
        {
            insert_text(states, sl[p].1.as_str());
            proof {
                let x = slv[p as int].1;
                assert(x == sl@[p as int].1@);
                assert(seen_states(log, st, ot, oi, p + 1) =~= seen_states(log, st, ot, oi, p as int).insert(x)) by {
                    assert(object_sl(log, oi, st)[p as int].1 == x);
                    assert forall|t: Seq<char>| #[trigger] seen_states(log, st, ot, oi, p + 1).contains(t) implies seen_states(log, st, ot, oi, p as int).insert(x).contains(t) by {
                        let (a, b) = choose|a: int, b: int| 0 <= a <= oi && log.objects@[a].type_symbol == ot
                            && 0 <= b < object_sl(log, a, st).len() && (a < oi || b < p + 1) && #[trigger] object_sl(log, a, st)[b].1 == t;
                        if !(a == oi && b == p) {
                            assert(seen_states(log, st, ot, oi, p as int).contains(t));
                        }
                    }
                }
            }
            p = p + 1;
        }
        proof {
            assert(seen_states(log, st, ot, oi, sl@.len() as int) =~= state_texts(log, st, ot, oi + 1)) by {
                assert forall|t: Seq<char>| #[trigger] seen_states(log, st, ot, oi, sl@.len() as int).contains(t) implies state_texts(log, st, ot, oi + 1).contains(t) by {
                    let (a, b) = choose|a: int, b: int| 0 <= a <= oi && log.objects@[a].type_symbol == ot
                        && 0 <= b < object_sl(log, a, st).len() && (a < oi || b < sl@.len()) && #[trigger] object_sl(log, a, st)[b].1 == t;
                }
                assert forall|t: Seq<char>| #[trigger] state_texts(log, st, ot, oi + 1).contains(t) implies seen_states(log, st, ot, oi, sl@.len() as int).contains(t) by {
                    let (a, b) = choose|a: int, b: int| 0 <= a < oi + 1 && log.objects@[a].type_symbol == ot
                        && 0 <= b < object_sl(log, a, st).len() && #[trigger] object_sl(log, a, st)[b].1 == t;
                }
            }
            assert(states_of(slv) =~= sl@.map_values(|x: (usize, String)| x.1@));
            lemma_sample_bounds(log, st, ot, oi);
        }
        let ghost t0 = transition_samples(log, st, ot, oi);
        let ghost d0 = dwell_samples(log, st, ot, oi);
        let ghost ots = object_transitions(log, st, oi);
        let ghost ods = object_dwells(log, st, oi);
        let ghost rs = object_runs(log, st, oi);
        if sl.len() == 0 {
            proof {
                assert(states_of(slv) =~= Seq::<Seq<char>>::empty());
                assert(rs =~= Seq::<(Seq<char>, int, int)>::empty());
                assert(ots =~= Seq::<(TextPair, i64, int)>::empty());
                assert(ods =~= Seq::<(Seq<char>, i64, int)>::empty());
                assert(transition_samples(log, st, ot, oi + 1) =~= t0);
                assert(dwell_samples(log, st, ot, oi + 1) =~= d0);
            }
            return false;
        }
        let eps = state_episodes(&sl);
        proof {
            crate::episodes::lemma_runs_maximal(states_of(slv));
            assert(crate::episodes::episodes_view(eps@) == rs);
            assert(rs.len() == eps@.len());
            assert(self.objects.len() == self.objects@.len());
        }
        let n_eps = eps.len();
        let ghost e = Seq::<char>::empty();
        proof { reveal_strlit(""); }
        let mut q: usize = 0;
        while q < n_eps
            invariant
                log == *self,
                log.wf(),
                oi == o,
                o < log.objects@.len(),
                o < usize::MAX,
                slv == object_sl(log, oi, st),
                pairs_view(sl@) == slv,
                forall|k: int| 0 <= k < sl@.len() ==> #[trigger] sl@[k].0 < log.events@.len(),
                rs == object_runs(log, st, oi),
                rs == runs(states_of(slv)),
                crate::episodes::maximal_runs(states_of(slv), rs),
                crate::episodes::episodes_view(eps@) == rs,
                n_eps == eps@.len(),
                n_eps > 0,
                e == Seq::<char>::empty(),
                ""@ == e,
                ots == object_transitions(log, st, oi),
                ods == object_dwells(log, st, oi),
                t0 == transition_samples(log, st, ot, oi),
                d0 == dwell_samples(log, st, ot, oi),
                forall|i: int| 0 <= i < t0.len() ==> (#[trigger] t0[i]).1 >= 0 && 0 <= t0[i].2 < oi,
                forall|i: int| 0 <= i < d0.len() ==> (#[trigger] d0[i]).1 >= 0 && 0 <= d0[i].2 < oi,
                q <= n_eps,
                grouped(tg@, t0 + ots.take(if q == 0 { 0 } else { q - 1 })),
                grouped(dg@, keyed(d0 + ods.take(q as int))),
            decreases n_eps - q,
        {
            let ep = &eps[q];
            proof {
                assert(ep.view3() == rs[q as int]);
                assert(0 <= rs[q as int].1 <= rs[q as int].2 < states_of(slv).len());
            }
            let start_t = self.events[sl[ep.start].0].time_ms;
            let end_t = if q + 1 < n_eps {
                proof {
                    assert(eps@[q + 1].view3() == rs[q + 1]);
                    assert(0 <= rs[q + 1].1 <= rs[q + 1].2 < states_of(slv).len());
                }
                self.events[sl[eps[q + 1].start].0].time_ms
            } else {
                self.events[sl[ep.end].0].time_ms
            };
            let d = elapsed_ms(start_t, end_t);
            let ghost ds = keyed(d0 + ods.take(q as int));
            proof {
                assert(sl_time(log, slv, rs[q as int].1) == start_t);
                assert(episode_end(log, slv, rs, q as int) == end_t);
                assert(ods[q as int] == (rs[q as int].0, d, oi));
                assert forall|i: int| 0 <= i < ds.len() implies (#[trigger] ds[i]).1 >= 0 && ds[i].2 <= o by {
                    if i < d0.len() {
                        assert(ds[i].2 == d0[i].2);
                    } else {
                        assert(ds[i].2 == ods[i - d0.len()].2);
                    }
                }
            }
            add_sample(dg, ep.state.as_str(), "", d, o, Ghost(ds));
            proof {
                assert(ds.push(((ep.state@, ""@), d, o as int)) =~= keyed(d0 + ods.take(q + 1)));
            }
            if q > 0 {
                let prev = &eps[q - 1];
                proof {
                    assert(prev.view3() == rs[q - 1]);
                    assert(0 <= rs[q - 1].1 <= rs[q - 1].2 < states_of(slv).len());
                }
                let t_prev = self.events[sl[prev.start].0].time_ms;
                let d2 = elapsed_ms(t_prev, start_t);
                let ghost ts = t0 + ots.take(q - 1);
                proof {
                    assert(ots[q - 1] == ((rs[q - 1].0, rs[q as int].0), d2, oi));
                    assert forall|i: int| 0 <= i < ts.len() implies (#[trigger] ts[i]).1 >= 0 && ts[i].2 <= o by {
                        if i < t0.len() {
                            assert(ts[i] == t0[i]);
                        } else {
                            assert(ts[i] == ots[i - t0.len()]);
                        }
                    }
                }
                add_sample(tg, prev.state.as_str(), ep.state.as_str(), d2, o, Ghost(ts));
                proof {
                    assert(ts.push(((prev.state@, ep.state@), d2, o as int)) =~= t0 + ots.take(q as int));
                }
            }
            q = q + 1;
        }
        let last = &eps[n_eps - 1];
        proof {
            assert(last.view3() == rs[n_eps - 1]);
            assert(0 <= rs[n_eps - 1].1 <= rs[n_eps - 1].2 < states_of(slv).len());
            assert(crate::model::object_ok(log.pool@.len(), log.events@.len(), log.objects@[oi]));
        }
        let entered = self.events[sl[last.start].0].time_ms;
        let last_t = self.events[sl[last.end].0].time_ms;
        let row = StuckStateRow {
            object_id: owned(self.pool.resolve(self.objects[o].id)),
            state: owned(last.state.as_str()),
            entered_time_ms: entered,
            last_time_ms: last_t,
            duration_ms: elapsed_ms(entered, last_t),
            event_count: last.end - last.start + 1,
        };
        let ghost before = stuck@;
        stuck.push(row);
        proof {
            assert(ots.take(n_eps - 1) =~= ots);
            assert(ods.take(n_eps as int) =~= ods);
            assert(transition_samples(log, st, ot, oi + 1) == t0 + ots);
            assert(dwell_samples(log, st, ot, oi + 1) == d0 + ods);
            let objs = stateful_objects(log, st, ot, oi + 1);
            assert(objs == stateful_objects(log, st, ot, oi).push(oi));
            assert(stuck_row_of(stuck@[before.len() as int], log, st, oi));
            assert forall|i: int| 0 <= i < stuck@.len() implies stuck_row_of(#[trigger] stuck@[i], log, st, objs[i]) by {
                if i < before.len() {
                    assert(stuck@[i] == before[i]);
                }
            }
        }
        true
    }
}

/// What to measure: the object type (by name) and how many last episodes to
/// rank.
pub struct StateTransitionKpiRequest {
    pub object_type: Option<String>,
    pub stuck_limit: Option<usize>,
}

/// Transition, dwell, recovery and stuck-state figures of one object type.
pub struct StateTransitionKpis {
    pub object_type: String,
    pub object_count: usize,
    pub stateful_object_count: usize,
    pub states: Vec<String>,
    pub transitions: Vec<StateTransitionKpiRow>,
    pub dwell: Vec<StateDwellKpiRow>,
    pub recovery: Vec<StateTransitionKpiRow>,
    pub stuck: Vec<StuckStateRow>,
}

/// The object type measured: the requested one when its name is interned,
/// else the leading object type of the state labels, else the type of the
/// first object.
pub open spec fn kpi_object_type(log: CompactOcelLog, req: StateTransitionKpiRequest) -> Option<Symbol> {
    let by_name = match req.object_type {
        Some(t) => symbol_of(log, t@),
        None => None,
    };
    if by_name is Some {
        by_name
    } else if log.state_leading_object_type is Some {
        log.state_leading_object_type
    } else if log.objects@.len() > 0 {
        Some(log.objects@[0].type_symbol)
    } else {
        None
    }
}

/// The number of last episodes to keep: 15 unless requested, within 1 to 100.
pub open spec fn stuck_limit_of(req: StateTransitionKpiRequest) -> nat {
    let l = match req.stuck_limit {
        Some(l) => l as nat,
        None => 15nat,
    };
    if l < 1 {
        1
    } else if l > 100 {
        100
    } else {
        l
    }
}

/// The figures for the object type `ot` under the state attribute `st`.
pub open spec fn kpis_ok(k: StateTransitionKpis, log: CompactOcelLog, st: Symbol, ot: Symbol, limit: nat) -> bool {
    let n = log.objects@.len() as int;
    &&& k.object_type@ == log.text(ot)
    &&& k.object_count == count_where(n, |o: int| log.objects@[o].type_symbol == ot)
    &&& k.stateful_object_count == stateful_objects(log, st, ot, n).len()
    &&& texts_sorted(k.states@)
    &&& text_set(k.states@) == state_texts(log, st, ot, n)
    &&& transition_rows(k.transitions@, transition_samples(log, st, ot, n))
    &&& dwell_rows(k.dwell@, dwell_samples(log, st, ot, n))
    &&& recovery_rows(k.recovery@, k.transitions@)
    &&& stuck_rows(k.stuck@, log, st, stateful_objects(log, st, ot, n), limit)
}

impl CompactOcelLog {
    /// Transition counts and durations, dwell times, recovery transitions
    /// and the longest-lasting last episodes of the objects of one type.
    pub fn state_transition_kpis(&self, request: &StateTransitionKpiRequest) -> (r: Result<StateTransitionKpis, OcelError>)
        requires
            self.wf(),
        ensures
            match r {
                Ok(k) => symbol_of(*self, "state"@) matches Some(st) && kpi_object_type(*self, *request) matches Some(ot)
                    && kpis_ok(k, *self, st, ot, stuck_limit_of(*request)),
                Err(e) => match symbol_of(*self, "state"@) {
                    None => e.message@ == "event state attribute is missing; apply a state query first"@,
                    Some(_) => kpi_object_type(*self, *request) is None
                        && e.message@ == "no object type is available for transition KPIs"@,
                },
            },
    {
        proof { reveal_strlit("state"); }
        let st = match self.symbol_for_value("state") {
            Some(s) => s,
            None => {
                return Err(OcelError::new(owned("event state attribute is missing; apply a state query first")));
            },
        };
        let by_name = match &request.object_type {
            Some(t) => self.symbol_for_value(t.as_str()),
            None => None,
        };
        let ot = match by_name {
            Some(s) => s,
            None => match self.state_leading_object_type {
                Some(s) => s,
                None => {
                    if self.objects.len() > 0 {
                        self.objects[0].type_symbol
                    } else {
                        return Err(OcelError::new(owned("no object type is available for transition KPIs")));
                    }
                },
            },
        };
        proof {
            if self.objects@.len() > 0 {
                assert(crate::model::object_ok(self.pool@.len(), self.events@.len(), self.objects@[0]));
            }
        }
        let object_type = owned(self.pool.resolve(ot));
        let requested = match request.stuck_limit {
            Some(l) => l,
            None => 15,
        };
        let limit: usize = if requested < 1 {
            1
        } else if requested > 100 {
            100
        } else {
            requested
        };
        let mut tg: Vec<DurationGroup> = Vec::new();
        let mut dg: Vec<DurationGroup> = Vec::new();
        let mut collected: Vec<StuckStateRow> = Vec::new();
        let mut states: Vec<String> = Vec::new();
        let mut object_count: usize = 0;
        let mut stateful_count: usize = 0;
        let ghost typed = |o: int| self.objects@[o].type_symbol == ot;
        proof {
            assert(state_texts(*self, st, ot, 0) =~= Set::<Seq<char>>::empty());
            assert(text_set(states@) =~= Set::<Seq<char>>::empty());
            assert(keyed(dwell_samples(*self, st, ot, 0)) =~= Seq::<(TextPair, i64, int)>::empty());
        }
        let mut o: usize = 0;
        while o < self.objects.len()
            invariant
                self.wf(),
                o <= self.objects@.len(),
                typed == |o: int| self.objects@[o].type_symbol == ot,
                object_count == count_where(o as int, typed),
                object_count <= o,
                stateful_count <= o,
                stateful_count == stateful_objects(*self, st, ot, o as int).len(),
                grouped(tg@, transition_samples(*self, st, ot, o as int)),
                grouped(dg@, keyed(dwell_samples(*self, st, ot, o as int))),
                stuck_collected(collected@, *self, st, stateful_objects(*self, st, ot, o as int)),
                texts_sorted(states@),
                text_set(states@) == state_texts(*self, st, ot, o as int),
            decreases self.objects.len() - o,
        {
            proof { lemma_sample_bounds(*self, st, ot, o as int); }
            if self.objects[o].type_symbol == ot {
                object_count = object_count + 1;
                let stateful = self.add_object_kpis(o, st, Ghost(ot), &mut tg, &mut dg, &mut collected, &mut states);
                if stateful {
                    stateful_count = stateful_count + 1;
                }
            } else {
                proof {
                    assert(transition_samples(*self, st, ot, o + 1) == transition_samples(*self, st, ot, o as int));
                    assert(dwell_samples(*self, st, ot, o + 1) == dwell_samples(*self, st, ot, o as int));
                    assert(state_texts(*self, st, ot, o + 1) =~= state_texts(*self, st, ot, o as int)) by {
                        assert forall|t: Seq<char>| #[trigger] state_texts(*self, st, ot, o + 1).contains(t) implies state_texts(*self, st, ot, o as int).contains(t) by {
                            let (a, b) = choose|a: int, b: int| 0 <= a < o + 1 && self.objects@[a].type_symbol == ot
                                && 0 <= b < object_sl(*self, a, st).len() && #[trigger] object_sl(*self, a, st)[b].1 == t;
                        }
                    }
                }
            }
            o = o + 1;
        }
        let ghost n = self.objects@.len() as int;
        let ghost objs = stateful_objects(*self, st, ot, n);
        proof {
            lemma_sample_bounds(*self, st, ot, n);
            assert forall|i: int, j: int| 0 <= i < j < collected@.len() implies (#[trigger] collected@[i]).object_id@ != (#[trigger] collected@[j]).object_id@ by {
                lemma_stateful_objects_increase(*self, st, ot, n);
                lemma_object_ids(*self, objs[i], objs[j]);
            }
        }
        let transitions = transition_rows_of(&tg, Ghost(transition_samples(*self, st, ot, n)));
        let dwell = dwell_rows_of(&dg, Ghost(dwell_samples(*self, st, ot, n)));
        let recovery = recovery_rows_of(&transitions);
        let stuck = rank_stuck(collected, limit, Ghost(*self), Ghost(st), Ghost(objs));
        Ok(StateTransitionKpis {
            object_type,
            object_count,
            stateful_object_count: stateful_count,
            states,
            transitions,
            dwell,
            recovery,
            stuck,
        })
    }
}

proof fn lemma_stateful_objects_increase(log: CompactOcelLog, st: Symbol, ot: Symbol, n: int)
    ensures
        forall|i: int, j: int| 0 <= i < j < stateful_objects(log, st, ot, n).len() ==>
            #[trigger] stateful_objects(log, st, ot, n)[i] < #[trigger] stateful_objects(log, st, ot, n)[j],
    decreases n,
{
    if n > 0 {
        lemma_stateful_objects_increase(log, st, ot, n - 1);
        lemma_sample_bounds(log, st, ot, n - 1);
        let s0 = stateful_objects(log, st, ot, n - 1);
        let s1 = stateful_objects(log, st, ot, n);
        assert forall|i: int, j: int| 0 <= i < j < s1.len() implies #[trigger] s1[i] < #[trigger] s1[j] by {
            if j < s0.len() {
                assert(s1[i] == s0[i] && s1[j] == s0[j]);
            } else {
                assert(s1[i] == s0[i]);
            }
        }
    }
}
} // verus!
