use vstd::prelude::*;
use crate::pool::Symbol;
use crate::model::CompactOcelLog;
use crate::text::{owned, str_eq};
use crate::episodes::states_of;
use crate::patterns::object_sl;
use crate::log_ops::{pairs_view, symbol_of, event_state_of};
use crate::kpis::{sl_time, DurationStats};
use crate::sorting::{sort_by, permutes, sorted_by, strict_order, is_perm};
use crate::counts::{TextPair, WeightedEdge, counted, count_map, lemma_count_map_push, add_weight, pair_less, lemma_pair_order};
use crate::counting::clamp_usize;
use crate::counts::{texts_sorted, text_set, insert_text};
use crate::error::OcelError;

verus! {

/// Position of the first `t` at or after `from` in `s`.
pub open spec fn first_at(s: Seq<Seq<char>>, from: int, t: Seq<char>) -> Option<int>
    decreases s.len() - from,
{
    if from < 0 || from >= s.len() {
        None
    } else if s[from] == t {
        Some(from)
    } else {
        first_at(s, from + 1, t)
    }
}

/// `b - a`, saturated at the bounds of `i64`.
pub open spec fn diff(a: i64, b: i64) -> i64 {
    let d = b as int - a as int;
    if d > i64::MAX {
        i64::MAX
    } else if d < i64::MIN {
        i64::MIN
    } else {
        d as i64
    }
}

/// `b - a`, saturated at the bounds of `i64`.
pub fn diff_ms(a: i64, b: i64) -> (r: i64)
    ensures
        r == diff(a, b),
{
    match b.checked_sub(a) {
        Some(d) => d,
        None => if b > a {
            i64::MAX
        } else {
            i64::MIN
        },
    }
}

/// A measured passage: object id, start, middle and (for a round trip) end
/// time, and its duration.
pub type PerfView = (Seq<char>, i64, i64, Option<i64>, i64);

/// The passage that starts at entry `p` of the stateful lifecycle of the
/// object at `o`: the entry is in state `from`, the first later entry in
/// `to` is its middle and, for a round trip, the first entry in `from`
/// after the middle its end. None when an entry is missing or the duration
/// (start to end, or to middle) is negative.
pub open spec fn passage_at(
    log: CompactOcelLog,
    st: Symbol,
    o: int,
    from: Seq<char>,
    to: Seq<char>,
    rt: bool,
    p: int,
) -> Option<PerfView> {
    let sl = object_sl(log, o, st);
    let s = states_of(sl);
    if s[p] != from {
        None
    } else {
        match first_at(s, p + 1, to) {
            None => None,
            Some(m) => {
                let start = sl_time(log, sl, p);
                let middle = sl_time(log, sl, m);
                let end: Option<Option<i64>> = if rt {
                    match first_at(s, m + 1, from) {
                        None => None,
                        Some(e) => Some(Some(sl_time(log, sl, e))),
                    }
                } else {
                    Some(None)
                };
                match end {
                    None => None,
                    Some(end) => {
                        let d = diff(start, match end { Some(x) => x, None => middle });
                        if d < 0 {
                            None
                        } else {
                            Some((log.text(log.objects@[o].id), start, middle, end, d))
                        }
                    },
                }
            },
        }
    }
}

/// The passages of the object at `o` that start before entry `p`.
pub open spec fn passages_upto(
    log: CompactOcelLog,
    st: Symbol,
    o: int,
    from: Seq<char>,
    to: Seq<char>,
    rt: bool,
    p: int,
) -> Seq<PerfView>
    decreases p,
{
    if p <= 0 {
        Seq::empty()
    } else {
        let r = passages_upto(log, st, o, from, to, rt, p - 1);
        match passage_at(log, st, o, from, to, rt, p - 1) {
            Some(x) => r.push(x),
            None => r,
        }
    }
}

/// The passages of the first `n` objects of type `ot`, object by object.
pub open spec fn passages(
    log: CompactOcelLog,
    st: Symbol,
    ot: Symbol,
    from: Seq<char>,
    to: Seq<char>,
    rt: bool,
    n: int,
) -> Seq<PerfView>
    decreases n,
{
    if n <= 0 {
        Seq::empty()
    } else {
        let r = passages(log, st, ot, from, to, rt, n - 1);
        if log.objects@[n - 1].type_symbol == ot {
            r + passages_upto(log, st, n - 1, from, to, rt, object_sl(log, n - 1, st).len() as int)
        } else {
            r
        }
    }
}

/// One measured passage.
pub struct TimePerformanceSample {
    pub object_id: String,
    pub start_time_ms: i64,
    pub middle_time_ms: i64,
    pub end_time_ms: Option<i64>,
    pub duration_ms: i64,
}

impl TimePerformanceSample {
    pub open spec fn view5(self) -> PerfView {
        (self.object_id@, self.start_time_ms, self.middle_time_ms, self.end_time_ms, self.duration_ms)
    }
}

/// The passages from one state to another, shortest first.
pub struct TimePerformanceSpectrum {
    pub object_type: String,
    pub from_state: String,
    pub to_state: String,
    pub roundtrip: bool,
    pub samples: Vec<TimePerformanceSample>,
    pub stats: DurationStats,
}

/// `r` holds the passages `all` ordered by duration, passages of equal
/// duration in their order in `all`.
pub open spec fn sorted_passages(r: Seq<TimePerformanceSample>, all: Seq<PerfView>) -> bool {
    exists|p: Seq<int>| #[trigger] is_perm(p, all.len()) && r.len() == all.len()
        && (forall|i: int| 0 <= i < r.len() ==> (#[trigger] r[i]).view5() == all[p[i]])
        && (forall|i: int, j: int| 0 <= i < j < r.len() ==> (#[trigger] r[i]).duration_ms < (#[trigger] r[j]).duration_ms
            || (r[i].duration_ms == r[j].duration_ms && p[i] < p[j]))
}

/// The statistics of durations already in ascending order.
pub open spec fn sample_stats(r: Seq<TimePerformanceSample>, stats: DurationStats) -> bool {
    &&& stats.sample_count == r.len()
    &&& stats.min_duration_ms == if r.len() == 0 { None } else { Some(r[0].duration_ms) }
    &&& stats.median_duration_ms == if r.len() == 0 { None } else { Some(r[(r.len() / 2) as int].duration_ms) }
    &&& stats.max_duration_ms == if r.len() == 0 { None } else { Some(r.last().duration_ms) }
}

/// `r` is the passage spectrum from `from` to `to` of the objects of type
/// `ot`.
pub open spec fn spectrum_ok(
    r: TimePerformanceSpectrum,
    log: CompactOcelLog,
    st: Symbol,
    ot: Symbol,
    from: Seq<char>,
    to: Seq<char>,
    rt: bool,
) -> bool {
    &&& r.object_type@ == log.text(ot)
    &&& r.from_state@ == from
    &&& r.to_state@ == to
    &&& r.roundtrip == rt
    &&& sorted_passages(r.samples@, passages(log, st, ot, from, to, rt, log.objects@.len() as int))
    &&& sample_stats(r.samples@, r.stats)
}

/// First position at or after `from` whose state is `t`.
fn find_state(sl: &Vec<(usize, String)>, from: usize, t: &str) -> (r: Option<usize>)
    ensures
        match r {
            Some(m) => first_at(states_of(pairs_view(sl@)), from as int, t@) == Some(m as int) && from <= m < sl@.len(),
            None => first_at(states_of(pairs_view(sl@)), from as int, t@) is None,
        },
{
    let ghost s = states_of(pairs_view(sl@));
    let mut i = from;
    while i < sl.len()
        invariant
            s == states_of(pairs_view(sl@)),
            from <= i,
            first_at(s, from as int, t@) == first_at(s, i as int, t@),
        decreases sl.len() - i,
    {
        assert(s[i as int] == sl@[i as int].1@);
        if str_eq(sl[i].1.as_str(), t) {
            return Some(i);
        }
        i = i + 1;
    }
    None
}


/// The views of samples.
pub open spec fn sample_views(s: Seq<TimePerformanceSample>) -> Seq<PerfView> {
    s.map_values(|x: TimePerformanceSample| x.view5())
}

/// Shorter first; equal durations by their position.
pub open spec fn tagged_before(a: (usize, TimePerformanceSample), b: (usize, TimePerformanceSample)) -> bool {
    a.1.duration_ms < b.1.duration_ms || (a.1.duration_ms == b.1.duration_ms && a.0 < b.0)
}

fn tagged_precedes(a: &(usize, TimePerformanceSample), b: &(usize, TimePerformanceSample)) -> (r: bool)
    ensures
        r == tagged_before(*a, *b),
{
    a.1.duration_ms < b.1.duration_ms || (a.1.duration_ms == b.1.duration_ms && a.0 < b.0)
}

fn copy_sample(x: &TimePerformanceSample) -> (r: TimePerformanceSample)
    ensures
        r.view5() == x.view5(),
{
    TimePerformanceSample {
        object_id: owned(x.object_id.as_str()),
        start_time_ms: x.start_time_ms,
        middle_time_ms: x.middle_time_ms,
        end_time_ms: x.end_time_ms,
        duration_ms: x.duration_ms,
    }
}

/// Orders samples by duration, keeping the order of equal durations.
fn sort_samples(v: Vec<TimePerformanceSample>) -> (r: Vec<TimePerformanceSample>)
    ensures
        sorted_passages(r@, sample_views(v@)),
{
    let ghost all = sample_views(v@);
    let mut tagged: Vec<(usize, TimePerformanceSample)> = Vec::new();
    let mut rest = v;
    let ghost orig = rest@;
    let mut i: usize = 0;
    while i < rest.len()
        invariant
            rest@ == orig,
            all == sample_views(orig),
            i <= orig.len(),
            tagged@.len() == i,
            forall|k: int| 0 <= k < i ==> (#[trigger] tagged@[k]).0 == k && tagged@[k].1.view5() == all[k],
        decreases rest.len() - i,
    {
        tagged.push((i, copy_sample(&rest[i])));
        i = i + 1;
    }
    let ghost lt = |a: (usize, TimePerformanceSample), b: (usize, TimePerformanceSample)| tagged_before(a, b);
    let ghost u = tagged@;
    let sorted = sort_by(tagged, tagged_precedes, Ghost(lt));
    let mut out: Vec<TimePerformanceSample> = Vec::new();
    let mut j: usize = 0;
    while j < sorted.len()
        invariant
            j <= sorted@.len(),
            out@.len() == j,
            forall|k: int| 0 <= k < j ==> (#[trigger] out@[k]).view5() == sorted@[k].1.view5() && out@[k].duration_ms == sorted@[k].1.duration_ms,
        decreases sorted.len() - j,
    {
        out.push(copy_sample(&sorted[j].1));
        j = j + 1;
    }
    proof {
        let q = choose|q: Seq<int>| is_perm(q, u.len()) && sorted@.len() == u.len() && forall|k: int| 0 <= k < sorted@.len() ==> #[trigger] sorted@[k] == u[q[k]];
        assert forall|k: int| 0 <= k < out@.len() implies (#[trigger] out@[k]).view5() == all[q[k]] by {
            assert(sorted@[k] == u[q[k]]);
        }
        assert forall|a: int, b: int| 0 <= a < b < out@.len() implies (#[trigger] out@[a]).duration_ms < (#[trigger] out@[b]).duration_ms
            || (out@[a].duration_ms == out@[b].duration_ms && q[a] < q[b]) by {
            assert(sorted@[a] == u[q[a]] && sorted@[b] == u[q[b]]);
            assert(!lt(sorted@[b], sorted@[a]));
            assert(q[a] != q[b]);
        }
        assert(is_perm(q, all.len()));
    }
    out
}

impl CompactOcelLog {
    /// Adds the passages of the object at `o`.
    fn add_object_passages(
        &self,
        o: usize,
        st: Symbol,
        from: &str,
        to: &str,
        rt: bool,
        out: &mut Vec<TimePerformanceSample>,
    )
        requires
            self.wf(),
            o < self.objects@.len(),
        ensures
            sample_views(final(out)@) == sample_views(old(out)@) + passages_upto(
                *self,
                st,
                o as int,
                from@,
                to@,
                rt,
                object_sl(*self, o as int, st).len() as int,
            ),
    {
        let sl = self.stateful_lifecycle(o, st);
        let ghost s = states_of(pairs_view(sl@));
        let ghost slv = object_sl(*self, o as int, st);
        proof {
            assert(crate::model::object_ok(self.pool@.len(), self.events@.len(), self.objects@[o as int]));
            assert(sample_views(out@) + passages_upto(*self, st, o as int, from@, to@, rt, 0) =~= sample_views(out@));
        }
        let mut p: usize = 0;
        while p < sl.len()
            invariant
                self.wf(),
                o < self.objects@.len(),
                slv == object_sl(*self, o as int, st),
                pairs_view(sl@) == slv,
                s == states_of(slv),
                forall|k: int| 0 <= k < sl@.len() ==> #[trigger] sl@[k].0 < self.events@.len(),
                p <= sl@.len(),
                sample_views(out@) == sample_views(old(out)@) + passages_upto(*self, st, o as int, from@, to@, rt, p as int),
            decreases sl.len() - p,
        {
            let ghost before = out@;
            let ghost want = passage_at(*self, st, o as int, from@, to@, rt, p as int);
            assert(s[p as int] == sl@[p as int].1@);
            if str_eq(sl[p].1.as_str(), from) {
                match find_state(&sl, p + 1, to) {
                    None => {},
                    Some(m) => {
                        let start = self.events[sl[p].0].time_ms;
                        let middle = self.events[sl[m].0].time_ms;
                        let end: Option<Option<i64>> = if rt {
                            match find_state(&sl, m + 1, from) {
                                None => None,
                                Some(e) => Some(Some(self.events[sl[e].0].time_ms)),
                            }
                        } else {
                            Some(None)
                        };
                        match end {
                            None => {},
                            Some(end_time) => {
                                let until = match end_time {
                                    Some(x) => x,
                                    None => middle,
                                };
                                let d = diff_ms(start, until);
                                if d >= 0 {
                                    out.push(TimePerformanceSample {
                                        object_id: owned(self.pool.resolve(self.objects[o].id)),
                                        start_time_ms: start,
                                        middle_time_ms: middle,
                                        end_time_ms: end_time,
                                        duration_ms: d,
                                    });
                                    proof {
                                        assert(sample_views(out@) =~= sample_views(before).push(want->0));
                                    }
                                }
                            },
                        }
                    },
                }
            }
            proof {
                let pu = passages_upto(*self, st, o as int, from@, to@, rt, p as int);
                if want is Some {
                    assert(sample_views(out@) =~= sample_views(before).push(want->0));
                    assert(sample_views(old(out)@) + pu.push(want->0) =~= (sample_views(old(out)@) + pu).push(want->0));
                } else {
                    assert(out@ == before);
                }
            }
            p = p + 1;
        }
    }

    /// The passages from `from_state` to `to_state` (and back, for a round
    /// trip) of the objects of one type, shortest first.
    pub fn state_transition_performance(
        &self,
        object_type: Symbol,
        state_attribute: Symbol,
        from_state: &str,
        to_state: &str,
        roundtrip: bool,
    ) -> (r: TimePerformanceSpectrum)
        requires
            self.wf(),
            object_type.0 < self.pool@.len(),
        ensures
            spectrum_ok(r, *self, state_attribute, object_type, from_state@, to_state@, roundtrip),
    {
        let mut all: Vec<TimePerformanceSample> = Vec::new();
        let mut o: usize = 0;
        while o < self.objects.len()
            invariant
                self.wf(),
                o <= self.objects@.len(),
                sample_views(all@) == passages(*self, state_attribute, object_type, from_state@, to_state@, roundtrip, o as int),
            decreases self.objects.len() - o,
        {
            if self.objects[o].type_symbol == object_type {
                self.add_object_passages(o, state_attribute, from_state, to_state, roundtrip, &mut all);
            }
            o = o + 1;
        }
        let samples = sort_samples(all);
        let n = samples.len();
        let stats = if n == 0 {
            DurationStats { sample_count: 0, min_duration_ms: None, median_duration_ms: None, max_duration_ms: None }
        } else {
            DurationStats {
                sample_count: n,
                min_duration_ms: Some(samples[0].duration_ms),
                median_duration_ms: Some(samples[n / 2].duration_ms),
                max_duration_ms: Some(samples[n - 1].duration_ms),
            }
        };
        TimePerformanceSpectrum {
            object_type: owned(self.pool.resolve(object_type)),
            from_state: owned(from_state),
            to_state: owned(to_state),
            roundtrip,
            samples,
            stats,
        }
    }
}

/// The changes between neighbouring differing states in a sequence of
/// states, up to position `i`.
pub open spec fn changes_upto(s: Seq<Seq<char>>, i: int) -> Seq<TextPair>
    decreases i,
{
    if i <= 0 || i >= s.len() {
        Seq::empty()
    } else {
        let r = changes_upto(s, i - 1);
        if s[i - 1] != s[i] {
            r.push((s[i - 1], s[i]))
        } else {
            r
        }
    }
}

/// The changes of state of the first `n` objects of type `ot`.
pub open spec fn state_changes(log: CompactOcelLog, st: Symbol, ot: Symbol, n: int) -> Seq<TextPair>
    decreases n,
{
    if n <= 0 {
        Seq::empty()
    } else {
        let r = state_changes(log, st, ot, n - 1);
        if log.objects@[n - 1].type_symbol == ot {
            let s = states_of(object_sl(log, n - 1, st));
            r + changes_upto(s, s.len() - 1)
        } else {
            r
        }
    }
}

/// `k` is the most frequent change (by count saturated at `usize::MAX`),
/// the least in name order among equally frequent ones.
pub open spec fn most_frequent(m: Map<TextPair, nat>, k: TextPair) -> bool {
    &&& m.dom().contains(k)
    &&& forall|k2: TextPair| #[trigger] m.dom().contains(k2) ==> clamp_usize(m[k2]) < clamp_usize(m[k])
        || (clamp_usize(m[k2]) == clamp_usize(m[k]) && !pair_less(k2, k))
}

impl CompactOcelLog {
    /// The most frequent change between two different neighbouring states
    /// in the stateful lifecycles of the objects of one type.
    pub fn most_frequent_state_transition(&self, object_type: Symbol, state_attribute: Symbol) -> (r: Option<(String, String)>)
        requires
            self.wf(),
        ensures
            match r {
                Some(p) => most_frequent(count_map(state_changes(*self, state_attribute, object_type, self.objects@.len() as int)), (p.0@, p.1@)),
                None => state_changes(*self, state_attribute, object_type, self.objects@.len() as int).len() == 0,
            },
    {
        let mut es: Vec<WeightedEdge> = Vec::new();
        proof {
            assert(count_map(Seq::<TextPair>::empty()) =~= Map::<TextPair, nat>::empty());
        }
        let mut o: usize = 0;
        while o < self.objects.len()
            invariant
                self.wf(),
                o <= self.objects@.len(),
                counted(es@, count_map(state_changes(*self, state_attribute, object_type, o as int))),
            decreases self.objects.len() - o,
        {
            if self.objects[o].type_symbol == object_type {
                let sl = self.stateful_lifecycle(o, state_attribute);
                let ghost s = states_of(object_sl(*self, o as int, state_attribute));
                let ghost base = state_changes(*self, state_attribute, object_type, o as int);
                proof {
                    assert(pairs_view(sl@) == object_sl(*self, o as int, state_attribute));
                    assert(base + changes_upto(s, 0) =~= base);
                }
                let mut i: usize = 1;
                while i < sl.len()
                    invariant
                        s == states_of(pairs_view(sl@)),
                        1 <= i,
                        i <= sl@.len() || sl@.len() == 0,
                        counted(es@, count_map(base + changes_upto(s, i - 1))),
                    decreases sl.len() - i,
                {
                    assert(s[i - 1] == sl@[i - 1].1@ && s[i as int] == sl@[i as int].1@);
                    if !str_eq(sl[i - 1].1.as_str(), sl[i].1.as_str()) {
                        let ghost prev = base + changes_upto(s, i - 1);
                        proof {
                            lemma_count_map_push(prev, (s[i - 1], s[i as int]));
                        }
                        add_weight(&mut es, sl[i - 1].1.as_str(), sl[i].1.as_str(), 1, Ghost(count_map(prev)), Ghost(1nat));
                        assert(base + changes_upto(s, i as int) =~= prev.push((s[i - 1], s[i as int])));
                    } else {
                        assert(base + changes_upto(s, i as int) =~= base + changes_upto(s, i - 1));
                    }
                    i = i + 1;
                }
                proof {
                    if sl@.len() == 0 {
                        assert(changes_upto(s, s.len() - 1) =~= Seq::<TextPair>::empty());
                        assert(changes_upto(s, 0) =~= Seq::<TextPair>::empty());
                    }
                }
            }
            o = o + 1;
        }
        let ghost m = count_map(state_changes(*self, state_attribute, object_type, self.objects@.len() as int));
        if es.len() == 0 {
            proof {
                let sc = state_changes(*self, state_attribute, object_type, self.objects@.len() as int);
                if sc.len() > 0 {
                    assert(m.dom().contains(sc[0]));
                }
            }
            return None;
        }
        let mut best: usize = 0;
        let mut j: usize = 1;
        while j < es.len()
            invariant
                counted(es@, m),
                es@.len() > 0,
                best < es@.len(),
                1 <= j <= es@.len(),
                best < j,
                forall|x: int| 0 <= x < j ==> (#[trigger] es@[x]).weight < es@[best as int].weight
                    || (es@[x].weight == es@[best as int].weight && best <= x),
            decreases es.len() - j,
        {
            if es[j].weight > es[best].weight {
                best = j;
            }
            j = j + 1;
        }
        let e = &es[best];
        proof {
            let k = e.key();
            assert forall|k2: TextPair| #[trigger] m.dom().contains(k2) implies clamp_usize(m[k2]) < clamp_usize(m[k])
                || (clamp_usize(m[k2]) == clamp_usize(m[k]) && !pair_less(k2, k)) by {
                let x = choose|x: int| 0 <= x < es@.len() && es@[x].key() == k2;
                assert(es@[x].weight == clamp_usize(m[k2]));
                assert(es@[best as int].weight == clamp_usize(m[k]));
                lemma_pair_order(k2, k, k2);
                lemma_pair_order(k, k2, k);
                if x < best {
                    assert(es@[x].weight < es@[best as int].weight);
                } else if x > best {
                    assert(pair_less(es@[best as int].key(), es@[x].key()));
                } else {
                    assert(k2 == k);
                }
            }
        }
        Some((owned(e.source.as_str()), owned(e.target.as_str())))
    }
}

/// What the time perspective looks at.
pub struct TimePerspectiveRequest {
    pub object_type: Option<String>,
    pub buckets: Option<usize>,
    pub from_state: Option<String>,
    pub to_state: Option<String>,
    pub roundtrip: bool,
}

/// The integer part of the time perspective: the time range of the events,
/// the states, the stateful events in event order, the number of time
/// buckets and the passage spectrum between the chosen states.
pub struct TimePerspectiveInputs {
    pub object_type: String,
    pub event_min_ms: i64,
    pub event_max_ms: i64,
    pub states: Vec<String>,
    pub stateful_events: Vec<(i64, String)>,
    pub bucket_count: usize,
    pub performance: TimePerformanceSpectrum,
}

/// The object type looked at: the requested one when its name is interned,
/// else the leading object type of the state labels, else the type of the
/// first object.
pub open spec fn chosen_object_type(log: CompactOcelLog, requested: Option<String>) -> Option<Symbol> {
    let by_name = match requested {
        Some(t) => symbol_of(log, t@),
        None => None,
    };
    if by_name is Some {
        by_name
    } else if log.state_leading_object_type is Some {
        log.state_leading_object_type
    } else if log.objects@.len() > 0 {
        Some(log.objects@[0].type_symbol)
    } else {
        None
    }
}

/// The (time, state) pairs of the first `n` events that carry a state.
pub open spec fn stateful_events_upto(log: CompactOcelLog, st: Symbol, n: int) -> Seq<(i64, Seq<char>)>
    decreases n,
{
    if n <= 0 {
        Seq::empty()
    } else {
        let r = stateful_events_upto(log, st, n - 1);
        match event_state_of(log, log.events@[n - 1], st) {
            Some(t) => r.push((log.events@[n - 1].time_ms, t)),
            None => r,
        }
    }
}

/// The states of all events.
pub open spec fn event_states(log: CompactOcelLog, st: Symbol) -> Set<Seq<char>> {
    Set::new(|t: Seq<char>| exists|i: int| 0 <= i < log.events@.len() && event_state_of(log, log.events@[i], st) == Some(t))
}

/// Least event time, 0 without events.
pub open spec fn min_time(log: CompactOcelLog, n: int) -> i64
    decreases n,
{
    if n <= 0 {
        0
    } else if n == 1 {
        log.events@[0].time_ms
    } else {
        let m = min_time(log, n - 1);
        if log.events@[n - 1].time_ms < m { log.events@[n - 1].time_ms } else { m }
    }
}

/// Greatest event time, 0 without events.
pub open spec fn max_time(log: CompactOcelLog, n: int) -> i64
    decreases n,
{
    if n <= 0 {
        0
    } else if n == 1 {
        log.events@[0].time_ms
    } else {
        let m = max_time(log, n - 1);
        if log.events@[n - 1].time_ms > m { log.events@[n - 1].time_ms } else { m }
    }
}

/// The requested bucket count, 24 by default, within 4 to 96.
pub open spec fn bucket_count_of(req: TimePerspectiveRequest) -> usize {
    let b = match req.buckets {
        Some(b) => b,
        None => 24usize,
    };
    if b < 4 {
        4
    } else if b > 96 {
        96
    } else {
        b
    }
}

/// The first state of the sorted states other than `avoid`.
pub open spec fn first_other(states: Seq<String>, avoid: Option<Seq<char>>) -> Option<Seq<char>> {
    if exists|i: int| 0 <= i < states.len() && Some(states[i]@) != avoid {
        let i = choose|i: int| 0 <= i < states.len() && Some(states[i]@) != avoid
            && forall|j: int| 0 <= j < i ==> Some(states[j]@) == avoid;
        Some(states[i]@)
    } else {
        None
    }
}

/// The state a passage starts from: the requested one, else the source of
/// the most frequent change, else the first state.
pub open spec fn chosen_from(req: TimePerspectiveRequest, frequent: Option<(Seq<char>, Seq<char>)>, states: Seq<String>) -> Option<Seq<char>> {
    match req.from_state {
        Some(f) => Some(f@),
        None => match frequent {
            Some(p) => Some(p.0),
            None => first_other(states, None),
        },
    }
}

/// The state a passage goes to: the requested one unless it is the source,
/// else the target of the most frequent change unless it is the source,
/// else the first other state.
pub open spec fn chosen_to(
    req: TimePerspectiveRequest,
    frequent: Option<(Seq<char>, Seq<char>)>,
    states: Seq<String>,
    from: Option<Seq<char>>,
) -> Option<Seq<char>> {
    let requested = match req.to_state {
        Some(t) => if Some(t@) != from { Some(t@) } else { None },
        None => None,
    };
    if requested is Some {
        requested
    } else {
        let by_frequency = match frequent {
            Some(p) => if Some(p.1) != from { Some(p.1) } else { None },
            None => None,
        };
        if by_frequency is Some {
            by_frequency
        } else {
            first_other(states, from)
        }
    }
}

/// The first `i` states are all `av`.
pub open spec fn all_avoided(states: Seq<String>, av: Option<Seq<char>>, i: int) -> bool {
    forall|j: int| 0 <= j < i ==> Some((#[trigger] states[j])@) == av
}

proof fn lemma_first_other(states: Seq<String>, av: Option<Seq<char>>, i: int)
    requires
        0 <= i < states.len(),
        Some(states[i]@) != av,
        all_avoided(states, av, i),
    ensures
        first_other(states, av) == Some(states[i]@),
{
    let c = choose|c: int| 0 <= c < states.len() && Some(states[c]@) != av
        && forall|j: int| 0 <= j < c ==> Some(states[j]@) == av;
    if c < i {
        assert(Some(states[c]@) == av);
    } else if c > i {
        assert(Some(states[i]@) == av);
    }
}

fn first_other_state(states: &Vec<String>, avoid: &Option<String>) -> (r: Option<String>)
    ensures
        match r {
            Some(t) => first_other(states@, match avoid { Some(a) => Some(a@), None => None }) == Some(t@),
            None => first_other(states@, match avoid { Some(a) => Some(a@), None => None }) is None,
        },
{
    let ghost av = match avoid { Some(a) => Some(a@), None => None::<Seq<char>> };
    let mut i: usize = 0;
    while i < states.len()
        invariant
            av == match avoid { Some(a) => Some(a@), None => None::<Seq<char>> },
            i <= states@.len(),
            all_avoided(states@, av, i as int),
        decreases states.len() - i,
    {
        let same = match avoid {
            Some(a) => str_eq(states[i].as_str(), a.as_str()),
            None => false,
        };
        if !same {
            proof {
                lemma_first_other(states@, av, i as int);
            }
            return Some(owned(states[i].as_str()));
        }
        i = i + 1;
    }
    None
}

impl CompactOcelLog {
    /// The symbol of the object type looked at.
    pub fn choose_object_type(&self, requested: &Option<String>) -> (r: Option<Symbol>)
        requires
            self.wf(),
        ensures
            r == chosen_object_type(*self, *requested),
            r matches Some(s) ==> s.0 < self.pool@.len(),
    {
        let by_name = match requested {
            Some(t) => self.symbol_for_value(t.as_str()),
            None => None,
        };
        proof {
            if self.objects@.len() > 0 {
                assert(crate::model::object_ok(self.pool@.len(), self.events@.len(), self.objects@[0]));
            }
        }
        match by_name {
            Some(s) => Some(s),
            None => match self.state_leading_object_type {
                Some(s) => Some(s),
                None => if self.objects.len() > 0 {
                    Some(self.objects[0].type_symbol)
                } else {
                    None
                },
            },
        }
    }
}

/// The most frequent change of state of the objects of type `ot`, if any.
pub open spec fn frequent_change(log: CompactOcelLog, st: Symbol, ot: Symbol) -> Option<TextPair> {
    let m = count_map(state_changes(log, st, ot, log.objects@.len() as int));
    if exists|k: TextPair| most_frequent(m, k) {
        Some(choose|k: TextPair| most_frequent(m, k))
    } else {
        None
    }
}

proof fn lemma_most_frequent_unique(m: Map<TextPair, nat>, a: TextPair, b: TextPair)
    requires
        most_frequent(m, a),
        most_frequent(m, b),
    ensures
        a == b,
{
    assert(m.dom().contains(a) && m.dom().contains(b));
    lemma_pair_order(a, b, a);
    lemma_pair_order(b, a, b);
    crate::text::lemma_seq_order_flip(a.0, b.0);
    crate::text::lemma_seq_order_flip(a.1, b.1);
}

/// Whether the passage spectrum is the empty one for the object type.
pub open spec fn empty_spectrum(r: TimePerformanceSpectrum, log: CompactOcelLog, ot: Symbol, rt: bool) -> bool {
    &&& r.object_type@ == log.text(ot)
    &&& r.from_state@ == Seq::<char>::empty()
    &&& r.to_state@ == Seq::<char>::empty()
    &&& r.roundtrip == rt
    &&& r.samples@.len() == 0
    &&& r.stats == DurationStats { sample_count: 0, min_duration_ms: None, median_duration_ms: None, max_duration_ms: None }
}

/// The time perspective inputs for the state attribute `st` and object type
/// `ot`.
pub open spec fn perspective_ok(t: TimePerspectiveInputs, log: CompactOcelLog, st: Symbol, ot: Symbol, req: TimePerspectiveRequest) -> bool {
    let ne = log.events@.len() as int;
    let frequent = frequent_change(log, st, ot);
    let from = chosen_from(req, frequent, t.states@);
    let to = chosen_to(req, frequent, t.states@, from);
    &&& t.object_type@ == log.text(ot)
    &&& t.event_min_ms == min_time(log, ne)
    &&& t.event_max_ms == max_time(log, ne)
    &&& texts_sorted(t.states@)
    &&& text_set(t.states@) == event_states(log, st)
    &&& t.stateful_events@.map_values(|p: (i64, String)| (p.0, p.1@)) == stateful_events_upto(log, st, ne)
    &&& t.bucket_count == bucket_count_of(req)
    &&& match (from, to) {
        (Some(f), Some(g)) => spectrum_ok(t.performance, log, st, ot, f, g, req.roundtrip),
        _ => empty_spectrum(t.performance, log, ot, req.roundtrip),
    }
}

impl CompactOcelLog {
    /// Time range, states, stateful events and the passage spectrum between
    /// the requested (or most frequent) pair of states.
    pub fn time_perspective_inputs(&self, request: &TimePerspectiveRequest) -> (r: Result<TimePerspectiveInputs, OcelError>)
        requires
            self.wf(),
        ensures
            match r {
                Ok(t) => symbol_of(*self, "state"@) matches Some(st) && chosen_object_type(*self, request.object_type) matches Some(ot)
                    && perspective_ok(t, *self, st, ot, *request),
                Err(e) => match symbol_of(*self, "state"@) {
                    None => e.message@ == "event state attribute is missing; apply a state query first"@,
                    Some(_) => chosen_object_type(*self, request.object_type) is None
                        && e.message@ == "no object type is available for time perspective"@,
                },
            },
    {
        proof { reveal_strlit("state"); reveal_strlit(""); }
        let st = match self.symbol_for_value("state") {
            Some(s) => s,
            None => {
                return Err(OcelError::new(owned("event state attribute is missing; apply a state query first")));
            },
        };
        let ot = match self.choose_object_type(&request.object_type) {
            Some(s) => s,
            None => {
                return Err(OcelError::new(owned("no object type is available for time perspective")));
            },
        };
        let object_type = owned(self.pool.resolve(ot));
        let mut event_min: i64 = 0;
        let mut event_max: i64 = 0;
        let mut states: Vec<String> = Vec::new();
        let mut stateful_events: Vec<(i64, String)> = Vec::new();
        proof {
            assert(text_set(states@) =~= Set::<Seq<char>>::empty());
        }
        let mut i: usize = 0;
        while i < self.events.len()
            invariant
                self.wf(),
                i <= self.events@.len(),
                event_min == min_time(*self, i as int),
                event_max == max_time(*self, i as int),
                texts_sorted(states@),
                text_set(states@) == Set::new(|t: Seq<char>| exists|k: int| 0 <= k < i && event_state_of(*self, self.events@[k], st) == Some(t)),
                stateful_events@.map_values(|p: (i64, String)| (p.0, p.1@)) == stateful_events_upto(*self, st, i as int),
            decreases self.events.len() - i,
        {
            let t = self.events[i].time_ms;
            if i == 0 {
                event_min = t;
                event_max = t;
            } else {
                if t < event_min {
                    event_min = t;
                }
                if t > event_max {
                    event_max = t;
                }
            }
            let ghost before = text_set(states@);
            let ghost old_events = stateful_events@;
            match self.event_state(i, st) {
                Some(state) => {
                    insert_text(&mut states, state);
                    stateful_events.push((t, owned(state)));
                    proof {
                        assert(stateful_events@.map_values(|p: (i64, String)| (p.0, p.1@))
                            =~= old_events.map_values(|p: (i64, String)| (p.0, p.1@)).push((t, state@)));
                    }
                },
                None => {},
            }
            proof {
                let e = self.events@[i as int];
                assert(text_set(states@) =~= Set::new(|x: Seq<char>| exists|k: int| 0 <= k < i + 1 && event_state_of(*self, self.events@[k], st) == Some(x))) by {
                    assert forall|x: Seq<char>| #[trigger] text_set(states@).contains(x) implies exists|k: int| 0 <= k < i + 1 && event_state_of(*self, self.events@[k], st) == Some(x) by {
                        if before.contains(x) {
                            let k = choose|k: int| 0 <= k < i && event_state_of(*self, self.events@[k], st) == Some(x);
                        } else {
                            assert(event_state_of(*self, e, st) == Some(x));
                        }
                    }
                    assert forall|x: Seq<char>| (exists|k: int| 0 <= k < i + 1 && event_state_of(*self, self.events@[k], st) == Some(x)) implies #[trigger] text_set(states@).contains(x) by {
                        let k = choose|k: int| 0 <= k < i + 1 && event_state_of(*self, self.events@[k], st) == Some(x);
                        if k < i {
                            assert(before.contains(x));
                        }
                    }
                }
            }
            i = i + 1;
        }
        proof {
            assert(Set::new(|t: Seq<char>| exists|k: int| 0 <= k < self.events@.len() && event_state_of(*self, self.events@[k], st) == Some(t))
                =~= event_states(*self, st));
        }
        let requested = match request.buckets {
            Some(b) => b,
            None => 24,
        };
        let bucket_count: usize = if requested < 4 {
            4
        } else if requested > 96 {
            96
        } else {
            requested
        };
        let frequent = self.most_frequent_state_transition(ot, st);
        let ghost fq = frequent_change(*self, st, ot);
        proof {
            let m = count_map(state_changes(*self, st, ot, self.objects@.len() as int));
            match &frequent {
                Some(p) => {
                    let k = choose|k: TextPair| most_frequent(m, k);
                    lemma_most_frequent_unique(m, k, (p.0@, p.1@));
                },
                None => {
                    if exists|k: TextPair| most_frequent(m, k) {
                        let k = choose|k: TextPair| most_frequent(m, k);
                        let sc = state_changes(*self, st, ot, self.objects@.len() as int);
                        assert(sc.contains(k));
                    }
                },
            }
        }
        let from: Option<String> = match &request.from_state {
            Some(f) => Some(owned(f.as_str())),
            None => match &frequent {
                Some(p) => Some(owned(p.0.as_str())),
                None => first_other_state(&states, &None),
            },
        };
        let ghost from_v = match &from { Some(f) => Some(f@), None => None::<Seq<char>> };
        assert(from_v == chosen_from(*request, fq, states@));
        let by_request: Option<String> = match &request.to_state {
            Some(t) => {
                let same = match &from {
                    Some(f) => str_eq(t.as_str(), f.as_str()),
                    None => false,
                };
                if same { None } else { Some(owned(t.as_str())) }
            },
            None => None,
        };
        let to: Option<String> = match by_request {
            Some(t) => Some(t),
            None => {
                let by_frequency: Option<String> = match &frequent {
                    Some(p) => {
                        let same = match &from {
                            Some(f) => str_eq(p.1.as_str(), f.as_str()),
                            None => false,
                        };
                        if same { None } else { Some(owned(p.1.as_str())) }
                    },
                    None => None,
                };
                match by_frequency {
                    Some(t) => Some(t),
                    None => first_other_state(&states, &from),
                }
            },
        };
        assert(match &to { Some(t) => Some(t@), None => None::<Seq<char>> } == chosen_to(*request, fq, states@, from_v));
        let performance = match (&from, &to) {
            (Some(f), Some(g)) => self.state_transition_performance(ot, st, f.as_str(), g.as_str(), request.roundtrip),
            _ => TimePerformanceSpectrum {
                object_type: owned(self.pool.resolve(ot)),
                from_state: owned(""),
                to_state: owned(""),
                roundtrip: request.roundtrip,
                samples: Vec::new(),
                stats: DurationStats { sample_count: 0, min_duration_ms: None, median_duration_ms: None, max_duration_ms: None },
            },
        };
        let res = TimePerspectiveInputs {
            object_type,
            event_min_ms: event_min,
            event_max_ms: event_max,
            states,
            stateful_events,
            bucket_count,
            performance,
        };
        proof {
            let ne = self.events@.len() as int;
            assert(res.object_type@ == self.text(ot));
            assert(res.event_min_ms == min_time(*self, ne));
            assert(res.event_max_ms == max_time(*self, ne));
            assert(text_set(res.states@) == event_states(*self, st));
            assert(res.stateful_events@.map_values(|p: (i64, String)| (p.0, p.1@)) == stateful_events_upto(*self, st, ne));
            assert(res.bucket_count == bucket_count_of(*request));
            let from_s = chosen_from(*request, fq, res.states@);
            let to_s = chosen_to(*request, fq, res.states@, from_s);
            assert(from_s == from_v);
            match (from_s, to_s) {
                (Some(f), Some(g)) => assert(spectrum_ok(res.performance, *self, st, ot, f, g, request.roundtrip)),
                _ => {
                    assert(""@ =~= Seq::<char>::empty());
                    assert(empty_spectrum(res.performance, *self, ot, request.roundtrip));
                },
            }
        }
        Ok(res)
    }
}
} // verus!
