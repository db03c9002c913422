use vstd::prelude::*;
use crate::model::{CompactOcelLog, TimedAttribute, AttrValue, Relationship, object_ok, event_ok, relationships_ok};
use crate::pool::Symbol;
use crate::counts::{texts_sorted, text_set, insert_text};
use crate::filter::lc_types;
use crate::patterns::{related_types, type_of_id};
use crate::filter::value_label;
use crate::counting::clamp_usize;
use crate::counts::TextPair;
use crate::options::{TextAttributeOption, gathered, values_of, add_option};
use crate::text::{str_eq, Order3, seq_order, seq_less, text_order, owned, lemma_seq_order_equal, lemma_seq_order_flip, lemma_seq_order_trans};

verus! {

/// The latest value of the attribute `name` among the first `k` timed
/// attributes that are not later than `t`: a later (or equally timed,
/// later listed) value replaces an earlier one.
pub open spec fn latest_upto(log: CompactOcelLog, attrs: Seq<TimedAttribute>, t: i64, name: Seq<char>, k: int) -> Option<(i64, AttrValue)>
    decreases k,
{
    if k <= 0 {
        None
    } else {
        let r = latest_upto(log, attrs, t, name, k - 1);
        let a = attrs[k - 1];
        if a.time_ms <= t && log.text(a.name) == name && match r { Some(p) => a.time_ms >= p.0, None => true } {
            Some((a.time_ms, a.value))
        } else {
            r
        }
    }
}

/// The latest value of an attribute, with its time.
pub struct LatestValue {
    pub name: String,
    pub time_ms: i64,
    pub value: AttrValue,
}

/// The names increase strictly.
pub open spec fn names_sorted(v: Seq<LatestValue>) -> bool {
    forall|i: int, j: int| 0 <= i < j < v.len() ==> seq_less(#[trigger] v[i].name@, #[trigger] v[j].name@)
}

/// `v` lists, by name, the latest value of every attribute among the first
/// `k` that is not later than `t`.
pub open spec fn latest_listed(log: CompactOcelLog, attrs: Seq<TimedAttribute>, t: i64, k: int, v: Seq<LatestValue>) -> bool {
    &&& names_sorted(v)
    &&& forall|i: int| 0 <= i < v.len() ==> latest_upto(log, attrs, t, (#[trigger] v[i]).name@, k) == Some((v[i].time_ms, v[i].value))
    &&& forall|n: Seq<char>| #[trigger] latest_upto(log, attrs, t, n, k) is Some ==> exists|i: int| 0 <= i < v.len() && v[i].name@ == n
}


/// Attribute `k` is not later than `t`: the latest values of the first
/// `k + 1` attributes differ from those of the first `k` at its name only.
proof fn lemma_latest_step(log: CompactOcelLog, av: Seq<TimedAttribute>, t: i64, k: int, n: Seq<char>)
    requires
        0 <= k < av.len(),
        log.text(av[k].name) != n || av[k].time_ms > t,
    ensures
        latest_upto(log, av, t, n, k + 1) == latest_upto(log, av, t, n, k),
{
}

/// A later attribute leaves the latest values as they were.
proof fn lemma_listed_skip(log: CompactOcelLog, av: Seq<TimedAttribute>, t: i64, k: int, v: Seq<LatestValue>)
    requires
        0 <= k < av.len(),
        av[k].time_ms > t,
        latest_listed(log, av, t, k, v),
    ensures
        latest_listed(log, av, t, k + 1, v),
{
    assert forall|i: int| 0 <= i < v.len() implies latest_upto(log, av, t, (#[trigger] v[i]).name@, k + 1) == Some((v[i].time_ms, v[i].value)) by {
        lemma_latest_step(log, av, t, k, v[i].name@);
    }
    assert forall|n: Seq<char>| #[trigger] latest_upto(log, av, t, n, k + 1) is Some implies exists|i: int| 0 <= i < v.len() && v[i].name@ == n by {
        lemma_latest_step(log, av, t, k, n);
    }
}

/// Replaces the entry at `i`, which has the attribute's name, when the
/// attribute is at least as late.
fn replace_latest(
    out: &mut Vec<LatestValue>,
    i: usize,
    nm: &str,
    a: TimedAttribute,
    Ghost(log): Ghost<CompactOcelLog>,
    Ghost(av): Ghost<Seq<TimedAttribute>>,
    Ghost(time_ms): Ghost<i64>,
    Ghost(k): Ghost<int>,
)
    requires
        0 <= k < av.len(),
        av[k] == a,
        a.time_ms <= time_ms,
        log.text(a.name) == nm@,
        i < old(out)@.len(),
        old(out)@[i as int].name@ == nm@,
        latest_listed(log, av, time_ms, k, old(out)@),
        forall|j: int| 0 <= j < old(out)@.len() ==> crate::model::value_ok(log.pool@.len(), (#[trigger] old(out)@[j]).value),
        crate::model::value_ok(log.pool@.len(), a.value),
    ensures
        latest_listed(log, av, time_ms, k + 1, final(out)@),
        forall|j: int| 0 <= j < final(out)@.len() ==> crate::model::value_ok(log.pool@.len(), (#[trigger] final(out)@[j]).value),
{
    let ghost before = out@;
    let ghost name = nm@;
    if a.time_ms >= out[i].time_ms {
        out.set(i, LatestValue { name: owned(nm), time_ms: a.time_ms, value: a.value });
    }
    proof {
        assert forall|j: int| 0 <= j < out@.len() implies latest_upto(log, av, time_ms, (#[trigger] out@[j]).name@, k + 1)
            == Some((out@[j].time_ms, out@[j].value)) by {
            if j != i {
                assert(out@[j] == before[j]);
                assert(before[j].name@ != name) by {
                    lemma_seq_order_equal(before[j].name@, name);
                    lemma_seq_order_equal(before[i as int].name@, before[j].name@);
                    lemma_seq_order_equal(before[j].name@, before[i as int].name@);
                    if j < i {
                        assert(seq_less(before[j].name@, before[i as int].name@));
                    } else {
                        assert(seq_less(before[i as int].name@, before[j].name@));
                    }
                }
                lemma_latest_step(log, av, time_ms, k, before[j].name@);
            }
        }
        assert forall|x: int, y: int| 0 <= x < y < out@.len() implies seq_less(#[trigger] out@[x].name@, #[trigger] out@[y].name@) by {
            assert(seq_less(before[x].name@, before[y].name@));
        }
        assert forall|n: Seq<char>| #[trigger] latest_upto(log, av, time_ms, n, k + 1) is Some implies exists|j: int| 0 <= j < out@.len() && out@[j].name@ == n by {
            if n != name {
                lemma_latest_step(log, av, time_ms, k, n);
                let j = choose|j: int| 0 <= j < before.len() && before[j].name@ == n;
                assert(out@[j].name@ == n);
            } else {
                assert(out@[i as int].name@ == n);
            }
        }
    }
}

/// Inserts the attribute at `i`, where its name belongs and is missing.
#[verifier::rlimit(40)]
fn insert_latest(
    out: &mut Vec<LatestValue>,
    i: usize,
    nm: &str,
    a: TimedAttribute,
    Ghost(log): Ghost<CompactOcelLog>,
    Ghost(av): Ghost<Seq<TimedAttribute>>,
    Ghost(time_ms): Ghost<i64>,
    Ghost(k): Ghost<int>,
)
    requires
        0 <= k < av.len(),
        av[k] == a,
        a.time_ms <= time_ms,
        log.text(a.name) == nm@,
        i <= old(out)@.len(),
        forall|j: int| 0 <= j < i ==> seq_less(#[trigger] old(out)@[j].name@, nm@),
        i < old(out)@.len() ==> seq_less(nm@, old(out)@[i as int].name@),
        latest_listed(log, av, time_ms, k, old(out)@),
        forall|j: int| 0 <= j < old(out)@.len() ==> crate::model::value_ok(log.pool@.len(), (#[trigger] old(out)@[j]).value),
        crate::model::value_ok(log.pool@.len(), a.value),
    ensures
        latest_listed(log, av, time_ms, k + 1, final(out)@),
        forall|j: int| 0 <= j < final(out)@.len() ==> crate::model::value_ok(log.pool@.len(), (#[trigger] final(out)@[j]).value),
{
    let ghost before = out@;
    let ghost name = nm@;
    proof {
        assert forall|j: int| 0 <= j < before.len() implies (#[trigger] before[j]).name@ != name by {
            lemma_seq_order_equal(before[j].name@, name);
            lemma_seq_order_equal(name, before[j].name@);
            if j > i {
                assert(seq_less(before[i as int].name@, before[j].name@));
                lemma_seq_order_trans(name, before[i as int].name@, before[j].name@);
            }
        }
        assert(latest_upto(log, av, time_ms, name, k) is None) by {
            if latest_upto(log, av, time_ms, name, k) is Some {
                let j = choose|j: int| 0 <= j < before.len() && before[j].name@ == name;
            }
        }
    }
    out.insert(i, LatestValue { name: owned(nm), time_ms: a.time_ms, value: a.value });
    proof {
        assert forall|j: int| 0 <= j < out@.len() implies latest_upto(log, av, time_ms, (#[trigger] out@[j]).name@, k + 1)
            == Some((out@[j].time_ms, out@[j].value)) by {
            if j < i {
                assert(out@[j] == before[j]);
                lemma_latest_step(log, av, time_ms, k, before[j].name@);
            } else if j > i {
                assert(out@[j] == before[j - 1]);
                lemma_latest_step(log, av, time_ms, k, before[j - 1].name@);
            }
        }
        assert forall|x: int, y: int| 0 <= x < y < out@.len() implies seq_less(#[trigger] out@[x].name@, #[trigger] out@[y].name@) by {
            if y < i {
                assert(seq_less(before[x].name@, before[y].name@));
            } else if y == i {
                assert(seq_less(before[x].name@, name));
            } else if x == i {
                assert(out@[y] == before[y - 1]);
                if y - 1 > i {
                    assert(seq_less(before[i as int].name@, before[y - 1].name@));
                    lemma_seq_order_trans(name, before[i as int].name@, before[y - 1].name@);
                }
            } else if x > i {
                assert(seq_less(before[x - 1].name@, before[y - 1].name@));
            } else {
                assert(out@[y] == before[y - 1]);
                if y - 1 > x {
                    assert(seq_less(before[x].name@, before[y - 1].name@));
                }
            }
        }
        assert forall|n: Seq<char>| #[trigger] latest_upto(log, av, time_ms, n, k + 1) is Some implies exists|j: int| 0 <= j < out@.len() && out@[j].name@ == n by {
            if n != name {
                lemma_latest_step(log, av, time_ms, k, n);
                let j = choose|j: int| 0 <= j < before.len() && before[j].name@ == n;
                if j < i {
                    assert(out@[j].name@ == n);
                } else {
                    assert(out@[j + 1].name@ == n);
                }
            } else {
                assert(out@[i as int].name@ == n);
            }
        }
        assert forall|j: int| 0 <= j < out@.len() implies crate::model::value_ok(log.pool@.len(), (#[trigger] out@[j]).value) by {
            if j < i {
                assert(out@[j] == before[j]);
            } else if j > i {
                assert(out@[j] == before[j - 1]);
            }
        }
    }
}

/// Records attribute `k` (not later than `t`) in the latest values.
fn record_latest(
    out: &mut Vec<LatestValue>,
    nm: &str,
    a: TimedAttribute,
    Ghost(log): Ghost<CompactOcelLog>,
    Ghost(av): Ghost<Seq<TimedAttribute>>,
    time_ms: i64,
    Ghost(k): Ghost<int>,
)
    requires
        0 <= k < av.len(),
        av[k] == a,
        log.text(a.name) == nm@,
        latest_listed(log, av, time_ms, k, old(out)@),
        forall|i: int| 0 <= i < old(out)@.len() ==> crate::model::value_ok(log.pool@.len(), (#[trigger] old(out)@[i]).value),
        crate::model::value_ok(log.pool@.len(), a.value),
    ensures
        latest_listed(log, av, time_ms, k + 1, final(out)@),
        forall|i: int| 0 <= i < final(out)@.len() ==> crate::model::value_ok(log.pool@.len(), (#[trigger] final(out)@[i]).value),
{
    if a.time_ms > time_ms {
        proof { lemma_listed_skip(log, av, time_ms, k, out@); }
        return;
    }
    let mut i: usize = 0;
    loop
        invariant
            i <= out@.len(),
            out@ == old(out)@,
            forall|j: int| 0 <= j < i ==> seq_less(#[trigger] out@[j].name@, nm@),
        ensures
            i <= out@.len(),
            out@ == old(out)@,
            forall|j: int| 0 <= j < i ==> seq_less(#[trigger] out@[j].name@, nm@),
            i < out@.len() ==> !seq_less(out@[i as int].name@, nm@),
        decreases out.len() - i,
    {
        if i >= out.len() {
            break;
        }
        if text_order(out[i].name.as_str(), nm) != Order3::Less {
            break;
        }
        i = i + 1;
    }
    if i < out.len() && text_order(out[i].name.as_str(), nm) == Order3::Equal {
        proof { lemma_seq_order_equal(out@[i as int].name@, nm@); }
        replace_latest(out, i, nm, a, Ghost(log), Ghost(av), Ghost(time_ms), Ghost(k));
    } else {
        proof {
            if i < out@.len() {
                lemma_seq_order_flip(nm@, out@[i as int].name@);
                lemma_seq_order_equal(out@[i as int].name@, nm@);
            }
        }
        insert_latest(out, i, nm, a, Ghost(log), Ghost(av), Ghost(time_ms), Ghost(k));
    }
}

impl CompactOcelLog {
    /// The latest value, not later than `time_ms`, of each attribute of the
    /// object at `o`, by attribute name.
    pub fn latest_attribute_values_at(&self, o: usize, time_ms: i64) -> (r: Vec<LatestValue>)
        requires
            self.wf(),
            o < self.objects@.len(),
        ensures
            latest_listed(*self, self.objects@[o as int].attributes@, time_ms, self.objects@[o as int].attributes@.len() as int, r@),
            forall|i: int| 0 <= i < r@.len() ==> crate::model::value_ok(self.pool@.len(), (#[trigger] r@[i]).value),
    {
        let attrs = &self.objects[o].attributes;
        let ghost av = attrs@;
        proof { assert(object_ok(self.pool@.len(), self.events@.len(), self.objects@[o as int])); }
        let mut out: Vec<LatestValue> = Vec::new();
        let mut k: usize = 0;
        while k < attrs.len()
            invariant
                self.wf(),
                av == attrs@,
                crate::model::timed_attributes_ok(self.pool@.len(), av),
                k <= av.len(),
                latest_listed(*self, av, time_ms, k as int, out@),
                forall|i: int| 0 <= i < out@.len() ==> crate::model::value_ok(self.pool@.len(), (#[trigger] out@[i]).value),
            decreases attrs.len() - k,
        {
            let a = attrs[k];
            proof {
                assert(av[k as int] == a);
                assert(crate::model::sym_ok(self.pool@.len(), av[k as int].name) && crate::model::value_ok(self.pool@.len(), av[k as int].value));
            }
            let nm = self.pool.resolve(a.name);
            record_latest(&mut out, nm, a, Ghost(*self), Ghost(av), time_ms, Ghost(k as int));
            k = k + 1;
        }
        out
    }
}


/// The elements of a sequence with one more element.
pub proof fn lemma_push_set<A>(s: Seq<A>, x: A)
    ensures
        s.push(x).to_set() == s.to_set().insert(x),
{
    assert forall|a: A| s.push(x).to_set().contains(a) == s.to_set().insert(x).contains(a) by {
        if s.push(x).contains(a) && a != x {
            let i = choose|i: int| 0 <= i < s.push(x).len() && s.push(x)[i] == a;
            assert(s[i] == a);
        }
        if s.contains(a) {
            let i = choose|i: int| 0 <= i < s.len() && s[i] == a;
            assert(s.push(x)[i] == a);
        }
        if a == x {
            assert(s.push(x)[s.len() as int] == a);
        }
    }
    assert(s.push(x).to_set() =~= s.to_set().insert(x));
}

/// The activities of the lifecycle of the object at `o`.
pub open spec fn object_activities(log: CompactOcelLog, o: int) -> Set<Seq<char>> {
    lc_types(log, log.objects@[o].lifecycle@).to_set()
}

/// The types of the objects related to the first `p` lifecycle events of
/// the object at `o`.
pub open spec fn lifecycle_related(log: CompactOcelLog, o: int, p: int) -> Set<Seq<char>>
    decreases p,
{
    if p <= 0 {
        Set::empty()
    } else {
        let ob = log.objects@[o];
        lifecycle_related(log, o, p - 1) + related_types(log, ob.id, log.events@[ob.lifecycle@[p - 1] as int].relationships@).to_set()
    }
}

/// The types of the objects related to the object at `o`, through its
/// lifecycle events or directly.
pub open spec fn object_related(log: CompactOcelLog, o: int) -> Set<Seq<char>> {
    let ob = log.objects@[o];
    lifecycle_related(log, o, ob.lifecycle@.len() as int) + related_types(log, ob.id, ob.relationships@).to_set()
}

/// The activities of the first `k` listed objects.
pub open spec fn activity_set(log: CompactOcelLog, objs: Seq<usize>, k: int) -> Set<Seq<char>>
    decreases k,
{
    if k <= 0 {
        Set::empty()
    } else {
        activity_set(log, objs, k - 1) + object_activities(log, objs[k - 1] as int)
    }
}

/// The related object types of the first `k` listed objects.
pub open spec fn related_set(log: CompactOcelLog, objs: Seq<usize>, k: int) -> Set<Seq<char>>
    decreases k,
{
    if k <= 0 {
        Set::empty()
    } else {
        related_set(log, objs, k - 1) + object_related(log, objs[k - 1] as int)
    }
}

impl CompactOcelLog {
    /// Adds the types of the objects that `rels` point to (other than
    /// `lead`) to a sorted set of texts.
    fn add_related_types(&self, lead: Symbol, rels: &Vec<Relationship>, types: &mut Vec<String>)
        requires
            self.wf(),
            relationships_ok(self.pool@.len(), rels@),
            texts_sorted(old(types)@),
        ensures
            texts_sorted(final(types)@),
            text_set(final(types)@) == text_set(old(types)@) + related_types(*self, lead, rels@).to_set(),
    {
        let mut k: usize = 0;
        proof {
            assert(related_types(*self, lead, rels@.take(0)).to_set() =~= Set::<Seq<char>>::empty());
            assert(text_set(old(types)@) + Set::<Seq<char>>::empty() =~= text_set(old(types)@));
        }
        while k < rels.len()
            invariant
                self.wf(),
                relationships_ok(self.pool@.len(), rels@),
                k <= rels@.len(),
                texts_sorted(types@),
                text_set(types@) == text_set(old(types)@) + related_types(*self, lead, rels@.take(k as int)).to_set(),
            decreases rels.len() - k,
        {
            let r = rels[k];
            let ghost before = text_set(types@);
            let ghost prev = related_types(*self, lead, rels@.take(k as int));
            proof {
                assert(rels@.take(k + 1).drop_last() =~= rels@.take(k as int));
                assert(rels@.take(k + 1).last() == r);
            }
            if r.object_id != lead {
                match self.related_type(r.object_id) {
                    Some(t) => {
                        insert_text(types, t);
                        proof {
                            assert(related_types(*self, lead, rels@.take(k + 1)) == prev.push(t@));
                            lemma_push_set(prev, t@);
                            assert(text_set(types@) =~= text_set(old(types)@) + prev.push(t@).to_set());
                        }
                    },
                    None => {
                        assert(related_types(*self, lead, rels@.take(k + 1)) == prev);
                    },
                }
            } else {
                assert(related_types(*self, lead, rels@.take(k + 1)) == prev);
            }
            k = k + 1;
        }
        proof {
            assert(rels@.take(rels@.len() as int) =~= rels@);
        }
    }

    /// The activities and related object types of the listed objects, each
    /// as a sorted list of distinct texts.
    pub fn feature_types(&self, objs: &Vec<usize>) -> (r: (Vec<String>, Vec<String>))
        requires
            self.wf(),
            forall|k: int| 0 <= k < objs@.len() ==> #[trigger] objs@[k] < self.objects@.len(),
        ensures
            texts_sorted(r.0@),
            text_set(r.0@) == activity_set(*self, objs@, objs@.len() as int),
            texts_sorted(r.1@),
            text_set(r.1@) == related_set(*self, objs@, objs@.len() as int),
    {
        let mut acts: Vec<String> = Vec::new();
        let mut rels: Vec<String> = Vec::new();
        proof {
            assert(text_set(acts@) =~= Set::<Seq<char>>::empty());
        }
        let mut k: usize = 0;
        while k < objs.len()
            invariant
                self.wf(),
                forall|q: int| 0 <= q < objs@.len() ==> #[trigger] objs@[q] < self.objects@.len(),
                k <= objs@.len(),
                texts_sorted(acts@),
                text_set(acts@) == activity_set(*self, objs@, k as int),
                texts_sorted(rels@),
                text_set(rels@) == related_set(*self, objs@, k as int),
            decreases objs.len() - k,
        {
            let o = objs[k];
            let ob = &self.objects[o];
            let lc = &ob.lifecycle;
            let ghost a0 = text_set(acts@);
            let ghost r0 = text_set(rels@);
            proof {
                assert(object_ok(self.pool@.len(), self.events@.len(), *ob));
                assert(lc_types(*self, lc@).take(0).to_set() =~= Set::<Seq<char>>::empty());
                assert(a0 + Set::<Seq<char>>::empty() =~= a0);
                assert(r0 + Set::<Seq<char>>::empty() =~= r0);
            }
            let mut p: usize = 0;
            while p < lc.len()
                invariant
                    self.wf(),
                    o < self.objects@.len(),
                    *ob == self.objects@[o as int],
                    *lc == ob.lifecycle,
                    forall|q: int| 0 <= q < lc@.len() ==> #[trigger] lc@[q] < self.events@.len(),
                    p <= lc@.len(),
                    texts_sorted(acts@),
                    text_set(acts@) == a0 + lc_types(*self, lc@).take(p as int).to_set(),
                    texts_sorted(rels@),
                    text_set(rels@) == r0 + lifecycle_related(*self, o as int, p as int),
                decreases lc.len() - p,
            {
                let e = &self.events[lc[p]];
                proof { assert(event_ok(self.pool@.len(), *e)); }
                let t = self.pool.resolve(e.type_symbol);
                let ghost ts = lc_types(*self, lc@);
                insert_text(&mut acts, t);
                proof {
                    assert(ts.take(p + 1) =~= ts.take(p as int).push(t@));
                    lemma_push_set(ts.take(p as int), t@);
                    assert(text_set(acts@) =~= a0 + ts.take(p + 1).to_set());
                }
                let ghost rb = text_set(rels@);
                self.add_related_types(ob.id, &e.relationships, &mut rels);
                proof {
                    assert(text_set(rels@) =~= r0 + lifecycle_related(*self, o as int, p + 1));
                }
                p = p + 1;
            }
            let ghost rb = text_set(rels@);
            self.add_related_types(ob.id, &ob.relationships, &mut rels);
            proof {
                assert(lc_types(*self, lc@).take(lc@.len() as int) =~= lc_types(*self, lc@));
                assert(text_set(acts@) =~= activity_set(*self, objs@, k + 1));
                assert(text_set(rels@) =~= related_set(*self, objs@, k + 1));
            }
            k = k + 1;
        }
        (acts, rels)
    }
}

/// The latest value of attribute `n` of the object at `o`.
pub open spec fn latest_of(log: CompactOcelLog, o: int, n: Seq<char>) -> Option<(i64, AttrValue)> {
    let attrs = log.objects@[o].attributes@;
    latest_upto(log, attrs, i64::MAX, n, attrs.len() as int)
}


/// The names of an object's attributes.
pub open spec fn object_names(log: CompactOcelLog, o: int) -> Set<Seq<char>> {
    Set::new(|n: Seq<char>| latest_of(log, o, n) is Some)
}

/// The names of an object's attributes whose latest value is not a string.
pub open spec fn object_numeric(log: CompactOcelLog, o: int) -> Set<Seq<char>> {
    Set::new(|n: Seq<char>| match latest_of(log, o, n) {
        Some(p) => !(p.1 is String),
        None => false,
    })
}

/// The latest string value of attribute `n` of an object, as a set.
pub open spec fn object_categories(log: CompactOcelLog, o: int, n: Seq<char>) -> Set<Seq<char>> {
    Set::new(|c: Seq<char>| match latest_of(log, o, n) {
        Some(p) => match p.1 {
            AttrValue::String(s) => log.text(s) == c,
            _ => false,
        },
        None => false,
    })
}

/// The names of the first `i` listed values.
pub open spec fn listed_names(lv: Seq<LatestValue>, i: int) -> Set<Seq<char>> {
    Set::new(|n: Seq<char>| exists|j: int| 0 <= j < i && #[trigger] lv[j].name@ == n)
}

/// The names of the first `i` listed values that are not strings.
pub open spec fn listed_numeric(lv: Seq<LatestValue>, i: int) -> Set<Seq<char>> {
    Set::new(|n: Seq<char>| exists|j: int| 0 <= j < i && #[trigger] lv[j].name@ == n && !(lv[j].value is String))
}

/// The string values of `n` among the first `i` listed values.
pub open spec fn listed_categories(log: CompactOcelLog, lv: Seq<LatestValue>, i: int, n: Seq<char>) -> Set<Seq<char>> {
    Set::new(|c: Seq<char>| exists|j: int| 0 <= j < i && #[trigger] lv[j].name@ == n && match lv[j].value {
        AttrValue::String(v) => log.text(v) == c,
        _ => false,
    })
}

/// The attribute names of the first `k` listed objects.
pub open spec fn name_set(log: CompactOcelLog, objs: Seq<usize>, k: int) -> Set<Seq<char>>
    decreases k,
{
    if k <= 0 {
        Set::empty()
    } else {
        name_set(log, objs, k - 1) + object_names(log, objs[k - 1] as int)
    }
}

/// The attribute names whose latest value is not a string for some of the
/// first `k` listed objects.
pub open spec fn numeric_set(log: CompactOcelLog, objs: Seq<usize>, k: int) -> Set<Seq<char>>
    decreases k,
{
    if k <= 0 {
        Set::empty()
    } else {
        numeric_set(log, objs, k - 1) + object_numeric(log, objs[k - 1] as int)
    }
}

/// The latest string values of attribute `n` of the first `k` listed
/// objects.
pub open spec fn category_set(log: CompactOcelLog, objs: Seq<usize>, k: int, n: Seq<char>) -> Set<Seq<char>>
    decreases k,
{
    if k <= 0 {
        Set::empty()
    } else {
        category_set(log, objs, k - 1, n) + object_categories(log, objs[k - 1] as int, n)
    }
}

/// What the latest attribute values of some objects hold: the names, the
/// names with a non-string value, and the string values by name.
pub struct AttributeSummary {
    pub names: Vec<String>,
    pub numeric: Vec<String>,
    pub categories: Vec<TextAttributeOption>,
}

/// `a` summarises the latest attribute values of the first `k` listed
/// objects, with `s` the string values seen.
pub open spec fn summarised(log: CompactOcelLog, objs: Seq<usize>, k: int, a: AttributeSummary, s: Seq<(TextPair, Seq<char>)>) -> bool {
    &&& texts_sorted(a.names@)
    &&& text_set(a.names@) == name_set(log, objs, k)
    &&& texts_sorted(a.numeric@)
    &&& text_set(a.numeric@) == numeric_set(log, objs, k)
    &&& gathered(a.categories@, s)
    &&& forall|n: Seq<char>| #[trigger] values_of(s, (Seq::<char>::empty(), n)) == category_set(log, objs, k, n)
    &&& forall|i: int| 0 <= i < s.len() ==> (#[trigger] s[i]).0.0 == Seq::<char>::empty()
}

proof fn lemma_values_of_push(s: Seq<(TextPair, Seq<char>)>, x: (TextPair, Seq<char>), k: TextPair)
    ensures
        values_of(s.push(x), k) == if x.0 == k { values_of(s, k).insert(x.1) } else { values_of(s, k) },
{
    assert forall|v: Seq<char>| s.push(x).contains((k, v)) == (s.contains((k, v)) || x == (k, v)) by {
        if s.push(x).contains((k, v)) && x != (k, v) {
            let i = choose|i: int| 0 <= i < s.push(x).len() && s.push(x)[i] == (k, v);
            assert(s[i] == (k, v));
        }
        if s.contains((k, v)) {
            let i = choose|i: int| 0 <= i < s.len() && s[i] == (k, v);
            assert(s.push(x)[i] == (k, v));
        }
        if x == (k, v) {
            assert(s.push(x)[s.len() as int] == x);
        }
    }
    if x.0 == k {
        assert forall|v: Seq<char>| values_of(s.push(x), k).contains(v) == values_of(s, k).insert(x.1).contains(v) by {
            assert(x == (k, x.1));
            assert(s.push(x).contains((k, v)) == (s.contains((k, v)) || x == (k, v)));
        }
        assert(values_of(s.push(x), k) =~= values_of(s, k).insert(x.1));
    } else {
        assert(values_of(s.push(x), k) =~= values_of(s, k));
    }
}

impl CompactOcelLog {
    /// Adds the latest attribute values of the object at `o` to a summary.
    #[verifier::rlimit(60)]
    fn summarise_object(
        &self,
        o: usize,
        a: &mut AttributeSummary,
        Ghost(objs): Ghost<Seq<usize>>,
        Ghost(k): Ghost<int>,
        Ghost(s0): Ghost<Seq<(TextPair, Seq<char>)>>,
    ) -> (s: Ghost<Seq<(TextPair, Seq<char>)>>)
        requires
            self.wf(),
            0 <= k < objs.len(),
            objs[k] == o,
            o < self.objects@.len(),
            summarised(*self, objs, k, *old(a), s0),
        ensures
            summarised(*self, objs, k + 1, *final(a), s@),
    {
        let lv = self.latest_attribute_values_at(o, i64::MAX);
        let ghost n0 = text_set(a.names@);
        let ghost m0 = text_set(a.numeric@);
        let ghost mut s = s0;
        let ghost empty = Seq::<char>::empty();
        proof {
            reveal_strlit("");
            assert(n0 + listed_names(lv@, 0) =~= n0);
            assert(m0 + listed_numeric(lv@, 0) =~= m0);
            assert forall|n: Seq<char>| #[trigger] values_of(s, (empty, n)) == category_set(*self, objs, k, n) + listed_categories(*self, lv@, 0, n) by {
                assert(category_set(*self, objs, k, n) + listed_categories(*self, lv@, 0, n) =~= category_set(*self, objs, k, n));
            }
        }
        let mut i: usize = 0;
        while i < lv.len()
            invariant
                self.wf(),
                o < self.objects@.len(),
                0 <= k < objs.len(),
                objs[k] == o,
                empty == Seq::<char>::empty(),
                ""@ == empty,
                latest_listed(*self, self.objects@[o as int].attributes@, i64::MAX, self.objects@[o as int].attributes@.len() as int, lv@),
                forall|j: int| 0 <= j < lv@.len() ==> crate::model::value_ok(self.pool@.len(), (#[trigger] lv@[j]).value),
                i <= lv@.len(),
                texts_sorted(a.names@),
                text_set(a.names@) == n0 + listed_names(lv@, i as int),
                n0 == name_set(*self, objs, k),
                texts_sorted(a.numeric@),
                text_set(a.numeric@) == m0 + listed_numeric(lv@, i as int),
                m0 == numeric_set(*self, objs, k),
                gathered(a.categories@, s),
                forall|n: Seq<char>| #[trigger] values_of(s, (empty, n)) == category_set(*self, objs, k, n) + listed_categories(*self, lv@, i as int, n),
                forall|j: int| 0 <= j < s.len() ==> (#[trigger] s[j]).0.0 == empty,
            decreases lv.len() - i,
        {
            let e = &lv[i];
            insert_text(&mut a.names, e.name.as_str());
            proof {
                assert(listed_names(lv@, i + 1) =~= listed_names(lv@, i as int).insert(e.name@));
                assert(text_set(a.names@) =~= n0 + listed_names(lv@, i + 1));
            }
            match e.value {
                AttrValue::String(v) => {
                    proof { assert(crate::model::value_ok(self.pool@.len(), lv@[i as int].value)); }
                    let ghost sb = s;
                    add_option(&mut a.categories, "", e.name.as_str(), self.pool.resolve(v), Ghost(s));
                    proof {
                        s = s.push(((empty, e.name@), self.text(v)));
                        assert forall|n: Seq<char>| #[trigger] values_of(s, (empty, n)) == category_set(*self, objs, k, n) + listed_categories(*self, lv@, i + 1, n) by {
                            lemma_values_of_push(sb, ((empty, e.name@), self.text(v)), (empty, n));
                            if n == e.name@ {
                                assert(listed_categories(*self, lv@, i + 1, n) =~= listed_categories(*self, lv@, i as int, n).insert(self.text(v)));
                            } else {
                                assert(listed_categories(*self, lv@, i + 1, n) =~= listed_categories(*self, lv@, i as int, n));
                            }
                            assert(values_of(s, (empty, n)) =~= category_set(*self, objs, k, n) + listed_categories(*self, lv@, i + 1, n));
                        }
                        assert forall|j: int| 0 <= j < s.len() implies (#[trigger] s[j]).0.0 == empty by {
                            if j < sb.len() {
                                assert(s[j] == sb[j]);
                            }
                        }
                        assert(listed_numeric(lv@, i + 1) =~= listed_numeric(lv@, i as int));
                    }
                },
                _ => {
                    insert_text(&mut a.numeric, e.name.as_str());
                    proof {
                        assert(listed_numeric(lv@, i + 1) =~= listed_numeric(lv@, i as int).insert(e.name@));
                        assert(text_set(a.numeric@) =~= m0 + listed_numeric(lv@, i + 1));
                        assert forall|n: Seq<char>| #[trigger] values_of(s, (empty, n)) == category_set(*self, objs, k, n) + listed_categories(*self, lv@, i + 1, n) by {
                            assert(listed_categories(*self, lv@, i + 1, n) =~= listed_categories(*self, lv@, i as int, n));
                        }
                    }
                },
            }
            i = i + 1;
        }
        proof {
            lemma_latest_sets(*self, o as int, lv@);
            assert(listed_names(lv@, 0) =~= Set::<Seq<char>>::empty());
            assert(text_set(a.names@) =~= name_set(*self, objs, k + 1));
            assert(text_set(a.numeric@) =~= numeric_set(*self, objs, k + 1));
            assert forall|n: Seq<char>| #[trigger] values_of(s, (empty, n)) == category_set(*self, objs, k + 1, n) by {
                assert(values_of(s, (empty, n)) =~= category_set(*self, objs, k + 1, n));
            }
        }
        Ghost(s)
    }
}

/// The latest values listed for an object give its names, its non-string
/// names and its string values.
proof fn lemma_latest_sets(log: CompactOcelLog, o: int, lv: Seq<LatestValue>)
    requires
        latest_listed(log, log.objects@[o].attributes@, i64::MAX, log.objects@[o].attributes@.len() as int, lv),
    ensures
        listed_names(lv, lv.len() as int) == object_names(log, o),
        listed_numeric(lv, lv.len() as int) == object_numeric(log, o),
        forall|n: Seq<char>| #[trigger] listed_categories(log, lv, lv.len() as int, n) == object_categories(log, o, n),
{
    assert(listed_names(lv, lv.len() as int) =~= object_names(log, o));
    assert(listed_numeric(lv, lv.len() as int) =~= object_numeric(log, o)) by {
        assert forall|n: Seq<char>| #[trigger] object_numeric(log, o).contains(n) implies listed_numeric(lv, lv.len() as int).contains(n) by {
            let j = choose|j: int| 0 <= j < lv.len() && lv[j].name@ == n;
            assert(latest_of(log, o, lv[j].name@) == Some((lv[j].time_ms, lv[j].value)));
        }
    }
    assert forall|n: Seq<char>| #[trigger] listed_categories(log, lv, lv.len() as int, n) == object_categories(log, o, n) by {
        assert forall|c: Seq<char>| #[trigger] object_categories(log, o, n).contains(c) implies listed_categories(log, lv, lv.len() as int, n).contains(c) by {
            let j = choose|j: int| 0 <= j < lv.len() && lv[j].name@ == n;
            assert(latest_of(log, o, lv[j].name@) == Some((lv[j].time_ms, lv[j].value)));
        }
        assert(listed_categories(log, lv, lv.len() as int, n) =~= object_categories(log, o, n));
    }
}


/// A column of the object feature table.
pub enum FeatureColumn {
    Activity(String),
    RelatedObjectType(String),
    NumericAttribute(String),
    CategoricalAttribute(String, String),
}

/// What a column holds, as mathematical values.
pub enum ColumnView {
    Activity(Seq<char>),
    RelatedObjectType(Seq<char>),
    NumericAttribute(Seq<char>),
    CategoricalAttribute(Seq<char>, Seq<char>),
}

impl FeatureColumn {
    pub open spec fn view_of(self) -> ColumnView {
        match self {
            FeatureColumn::Activity(t) => ColumnView::Activity(t@),
            FeatureColumn::RelatedObjectType(t) => ColumnView::RelatedObjectType(t@),
            FeatureColumn::NumericAttribute(n) => ColumnView::NumericAttribute(n@),
            FeatureColumn::CategoricalAttribute(n, v) => ColumnView::CategoricalAttribute(n@, v@),
        }
    }
}

/// One attribute of the feature table: whether some latest value is not a
/// string, and its latest string values in increasing order.
pub struct AttributeColumns {
    pub name: String,
    pub numeric: bool,
    pub categories: Vec<String>,
}

/// The columns of one attribute: one per string value when there are fewer
/// than 50 of them, none when there are more; else one numeric column when
/// some value is not a string.
pub open spec fn attribute_columns(a: AttributeColumns) -> Seq<ColumnView> {
    let cats = a.categories@;
    if cats.len() > 0 {
        if cats.len() < 50 {
            cats.map_values(|c: String| ColumnView::CategoricalAttribute(a.name@, c@))
        } else {
            Seq::empty()
        }
    } else if a.numeric {
        seq![ColumnView::NumericAttribute(a.name@)]
    } else {
        Seq::empty()
    }
}

/// The columns of the first `k` attributes.
pub open spec fn all_attribute_columns(attrs: Seq<AttributeColumns>, k: int) -> Seq<ColumnView>
    decreases k,
{
    if k <= 0 {
        Seq::empty()
    } else {
        all_attribute_columns(attrs, k - 1) + attribute_columns(attrs[k - 1])
    }
}

/// The feature table's columns with what they were made from.
pub struct FeatureEncoder {
    pub activities: Vec<String>,
    pub related: Vec<String>,
    pub attributes: Vec<AttributeColumns>,
    pub columns: Vec<FeatureColumn>,
}

/// The views of columns.
pub open spec fn columns_view(v: Seq<FeatureColumn>) -> Seq<ColumnView> {
    v.map_values(|c: FeatureColumn| c.view_of())
}

/// `e` describes the features of the listed objects: their activities and
/// related object types, their attributes in name order with the
/// non-string flag and string values of each, and the columns these give,
/// in that order.
pub open spec fn encoder_ok(log: CompactOcelLog, objs: Seq<usize>, e: FeatureEncoder) -> bool {
    let n = objs.len() as int;
    &&& texts_sorted(e.activities@)
    &&& text_set(e.activities@) == activity_set(log, objs, n)
    &&& texts_sorted(e.related@)
    &&& text_set(e.related@) == related_set(log, objs, n)
    &&& forall|i: int, j: int| 0 <= i < j < e.attributes@.len() ==> seq_less(#[trigger] e.attributes@[i].name@, #[trigger] e.attributes@[j].name@)
    &&& Set::new(|t: Seq<char>| exists|i: int| 0 <= i < e.attributes@.len() && #[trigger] e.attributes@[i].name@ == t) == name_set(log, objs, n)
    &&& forall|i: int| 0 <= i < e.attributes@.len() ==> {
        let a = #[trigger] e.attributes@[i];
        &&& a.numeric == numeric_set(log, objs, n).contains(a.name@)
        &&& texts_sorted(a.categories@)
        &&& text_set(a.categories@) == category_set(log, objs, n, a.name@)
    }
    &&& columns_view(e.columns@) == e.activities@.map_values(|t: String| ColumnView::Activity(t@))
        + e.related@.map_values(|t: String| ColumnView::RelatedObjectType(t@))
        + all_attribute_columns(e.attributes@, e.attributes@.len() as int)
}

impl CompactOcelLog {
    /// Summarises the latest attribute values of the listed objects.
    fn attribute_summary(&self, objs: &Vec<usize>) -> (r: (AttributeSummary, Ghost<Seq<(TextPair, Seq<char>)>>))
        requires
            self.wf(),
            forall|k: int| 0 <= k < objs@.len() ==> #[trigger] objs@[k] < self.objects@.len(),
        ensures
            summarised(*self, objs@, objs@.len() as int, r.0, r.1@),
    {
        let mut a = AttributeSummary { names: Vec::new(), numeric: Vec::new(), categories: Vec::new() };
        let ghost mut s: Seq<(TextPair, Seq<char>)> = Seq::empty();
        proof {
            assert(text_set(a.names@) =~= Set::<Seq<char>>::empty());
            assert(text_set(a.numeric@) =~= Set::<Seq<char>>::empty());
            assert forall|n: Seq<char>| #[trigger] values_of(s, (Seq::<char>::empty(), n)) == category_set(*self, objs@, 0, n) by {
                assert(values_of(s, (Seq::<char>::empty(), n)) =~= Set::<Seq<char>>::empty());
            }
        }
        let mut k: usize = 0;
        while k < objs.len()
            invariant
                self.wf(),
                forall|q: int| 0 <= q < objs@.len() ==> #[trigger] objs@[q] < self.objects@.len(),
                k <= objs@.len(),
                summarised(*self, objs@, k as int, a, s),
            decreases objs.len() - k,
        {
            let g = self.summarise_object(objs[k], &mut a, Ghost(objs@), Ghost(k as int), Ghost(s));
            proof { s = g@; }
            k = k + 1;
        }
        (a, Ghost(s))
    }

    /// The columns of the feature table of the listed objects: their
    /// activities, their related object types, then their attributes.
    pub fn feature_encoder(&self, objs: &Vec<usize>) -> (e: FeatureEncoder)
        requires
            self.wf(),
            forall|k: int| 0 <= k < objs@.len() ==> #[trigger] objs@[k] < self.objects@.len(),
        ensures
            encoder_ok(*self, objs@, e),
    {
        let (activities, related) = self.feature_types(objs);
        let (summary, Ghost(s)) = self.attribute_summary(objs);
        let ghost n = objs@.len() as int;
        let ghost empty = Seq::<char>::empty();
        proof { reveal_strlit(""); }
        let names = &summary.names;
        let mut attributes: Vec<AttributeColumns> = Vec::new();
        let mut i: usize = 0;
        while i < names.len()
            invariant
                summarised(*self, objs@, n, summary, s),
                n == objs@.len(),
                *names == summary.names,
                empty == Seq::<char>::empty(),
                ""@ == empty,
                i <= names@.len(),
                attributes@.len() == i,
                forall|x: int| 0 <= x < i ==> (#[trigger] attributes@[x]).name@ == names@[x]@,
                forall|x: int| 0 <= x < i ==> {
                    let a = #[trigger] attributes@[x];
                    &&& a.numeric == numeric_set(*self, objs@, n).contains(a.name@)
                    &&& texts_sorted(a.categories@)
                    &&& text_set(a.categories@) == category_set(*self, objs@, n, a.name@)
                },
            decreases names.len() - i,
        {
            let name = names[i].as_str();
            let numeric = crate::filter::contains_text(&summary.numeric, name);
            proof {
                assert(crate::patterns::texts(summary.numeric@).contains(name@) == text_set(summary.numeric@).contains(name@)) by {
                    if crate::patterns::texts(summary.numeric@).contains(name@) {
                        let j = choose|j: int| 0 <= j < summary.numeric@.len() && crate::patterns::texts(summary.numeric@)[j] == name@;
                        assert(summary.numeric@[j]@ == name@);
                    }
                    if text_set(summary.numeric@).contains(name@) {
                        let j = choose|j: int| 0 <= j < summary.numeric@.len() && summary.numeric@[j]@ == name@;
                        assert(crate::patterns::texts(summary.numeric@)[j] == name@);
                    }
                }
            }
            let cats = summary.categories_of(name, Ghost(s));
            attributes.push(AttributeColumns { name: crate::text::owned(name), numeric, categories: cats });
            i = i + 1;
        }
        let mut columns: Vec<FeatureColumn> = Vec::new();
        let mut j: usize = 0;
        while j < activities.len()
            invariant
                j <= activities@.len(),
                columns_view(columns@) == activities@.take(j as int).map_values(|t: String| ColumnView::Activity(t@)),
            decreases activities.len() - j,
        {
            let ghost before = columns@;
            let col = FeatureColumn::Activity(crate::text::owned(activities[j].as_str()));
            proof { assert(col.view_of() == ColumnView::Activity(activities@[j as int]@)); }
            columns.push(col);
            proof {
                assert(columns_view(columns@) =~= columns_view(before).push(ColumnView::Activity(activities@[j as int]@)));
                assert(activities@.take(j + 1).map_values(|t: String| ColumnView::Activity(t@))
                    =~= activities@.take(j as int).map_values(|t: String| ColumnView::Activity(t@)).push(ColumnView::Activity(activities@[j as int]@)));
            }
            j = j + 1;
        }
        let ghost acts_cols = columns_view(columns@);
        let mut j: usize = 0;
        while j < related.len()
            invariant
                j <= related@.len(),
                columns_view(columns@) == acts_cols + related@.take(j as int).map_values(|t: String| ColumnView::RelatedObjectType(t@)),
            decreases related.len() - j,
        {
            let ghost before = columns@;
            let col = FeatureColumn::RelatedObjectType(crate::text::owned(related[j].as_str()));
            proof { assert(col.view_of() == ColumnView::RelatedObjectType(related@[j as int]@)); }
            columns.push(col);
            proof {
                assert(columns_view(columns@) =~= columns_view(before).push(ColumnView::RelatedObjectType(related@[j as int]@)));
                assert(related@.take(j + 1).map_values(|t: String| ColumnView::RelatedObjectType(t@))
                    =~= related@.take(j as int).map_values(|t: String| ColumnView::RelatedObjectType(t@)).push(ColumnView::RelatedObjectType(related@[j as int]@)));
                assert(acts_cols + related@.take(j + 1).map_values(|t: String| ColumnView::RelatedObjectType(t@))
                    =~= (acts_cols + related@.take(j as int).map_values(|t: String| ColumnView::RelatedObjectType(t@))).push(ColumnView::RelatedObjectType(related@[j as int]@)));
            }
            j = j + 1;
        }
        let ghost head = columns_view(columns@);
        let mut x: usize = 0;
        while x < attributes.len()
            invariant
                x <= attributes@.len(),
                columns_view(columns@) == head + all_attribute_columns(attributes@, x as int),
            decreases attributes.len() - x,
        {
            let a = &attributes[x];
            let ghost before = columns_view(columns@);
            let c = a.categories.len();
            if c > 0 {
                if c < 50 {
                    let mut y: usize = 0;
                    while y < c
                        invariant
                            c == a.categories@.len(),
                            y <= c,
                            columns_view(columns@) == before + a.categories@.take(y as int).map_values(|v: String| ColumnView::CategoricalAttribute(a.name@, v@)),
                        decreases c - y,
                    {
                        let ghost prev = columns@;
                        let col = FeatureColumn::CategoricalAttribute(crate::text::owned(a.name.as_str()), crate::text::owned(a.categories[y].as_str()));
                        let ghost cv = ColumnView::CategoricalAttribute(a.name@, a.categories@[y as int]@);
                        proof { assert(col.view_of() == cv); }
                        columns.push(col);
                        proof {
                            assert(columns_view(columns@) =~= columns_view(prev).push(cv));
                            assert(a.categories@.take(y + 1).map_values(|v: String| ColumnView::CategoricalAttribute(a.name@, v@))
                                =~= a.categories@.take(y as int).map_values(|v: String| ColumnView::CategoricalAttribute(a.name@, v@)).push(cv));
                            assert(before + a.categories@.take(y + 1).map_values(|v: String| ColumnView::CategoricalAttribute(a.name@, v@))
                                =~= (before + a.categories@.take(y as int).map_values(|v: String| ColumnView::CategoricalAttribute(a.name@, v@))).push(cv));
                        }
                        y = y + 1;
                    }
                    proof {
                        assert(a.categories@.take(c as int) =~= a.categories@);
                    }
                }
            } else if a.numeric {
                let ghost prev = columns@;
                let col = FeatureColumn::NumericAttribute(crate::text::owned(a.name.as_str()));
                proof { assert(col.view_of() == ColumnView::NumericAttribute(a.name@)); }
                columns.push(col);
                proof {
                    assert(columns_view(columns@) =~= columns_view(prev).push(ColumnView::NumericAttribute(a.name@)));
                }
            }
            proof {
                assert(attributes@[x as int] == *a);
                assert(all_attribute_columns(attributes@, x + 1) == all_attribute_columns(attributes@, x as int) + attribute_columns(*a));
                if c > 0 && c < 50 {
                    assert(columns_view(columns@) =~= before + attribute_columns(*a));
                } else if c > 0 {
                    assert(columns_view(columns@) =~= before + attribute_columns(*a));
                } else if a.numeric {
                    assert(columns_view(columns@) =~= before + attribute_columns(*a));
                } else {
                    assert(columns_view(columns@) =~= before + attribute_columns(*a));
                }
                assert(columns_view(columns@) =~= head + all_attribute_columns(attributes@, x + 1));
            }
            x = x + 1;
        }
        proof {
            assert(activities@.take(activities@.len() as int) =~= activities@);
            assert(related@.take(related@.len() as int) =~= related@);
            assert forall|p: int, q: int| 0 <= p < q < attributes@.len() implies seq_less(#[trigger] attributes@[p].name@, #[trigger] attributes@[q].name@) by {
                assert(crate::text::seq_order(names@[p]@, names@[q]@) == Order3::Less);
            }
            assert(Set::new(|t: Seq<char>| exists|p: int| 0 <= p < attributes@.len() && #[trigger] attributes@[p].name@ == t) =~= name_set(*self, objs@, n)) by {
                assert forall|t: Seq<char>| #[trigger] name_set(*self, objs@, n).contains(t) implies exists|p: int| 0 <= p < attributes@.len() && #[trigger] attributes@[p].name@ == t by {
                    assert(text_set(names@).contains(t));
                    let p = choose|p: int| 0 <= p < names@.len() && names@[p]@ == t;
                    assert(attributes@[p].name@ == t);
                }
                assert forall|t: Seq<char>| (exists|p: int| 0 <= p < attributes@.len() && #[trigger] attributes@[p].name@ == t) implies name_set(*self, objs@, n).contains(t) by {
                    let p = choose|p: int| 0 <= p < attributes@.len() && #[trigger] attributes@[p].name@ == t;
                    assert(text_set(names@).contains(names@[p]@));
                }
            }
        }
        FeatureEncoder { activities, related, attributes, columns }
    }
}

impl AttributeSummary {
    /// The sorted string values of attribute `name`.
    fn categories_of(&self, name: &str, Ghost(s): Ghost<Seq<(TextPair, Seq<char>)>>) -> (r: Vec<String>)
        requires
            gathered(self.categories@, s),
            forall|j: int| 0 <= j < s.len() ==> (#[trigger] s[j]).0.0 == Seq::<char>::empty(),
        ensures
            texts_sorted(r@),
            text_set(r@) == values_of(s, (Seq::<char>::empty(), name@)),
    {
        proof { reveal_strlit(""); }
        let mut i: usize = 0;
        while i < self.categories.len()
            invariant
                gathered(self.categories@, s),
                i <= self.categories@.len(),
                ""@ == Seq::<char>::empty(),
                forall|x: int| 0 <= x < i ==> (#[trigger] self.categories@[x]).key() != (Seq::<char>::empty(), name@),
            decreases self.categories.len() - i,
        {
            let o = &self.categories[i];
            if crate::text::str_eq(o.scope.as_str(), "") && crate::text::str_eq(o.name.as_str(), name) {
                proof { assert(o.key() == (Seq::<char>::empty(), name@)); }
                let r = copy_strings(&o.values);
                proof {
                    assert(text_set(r@) =~= text_set(o.values@)) by {
                        assert forall|t: Seq<char>| text_set(r@).contains(t) == text_set(o.values@).contains(t) by {
                            if text_set(r@).contains(t) {
                                let j = choose|j: int| 0 <= j < r@.len() && r@[j]@ == t;
                                assert(o.values@[j]@ == t);
                            }
                            if text_set(o.values@).contains(t) {
                                let j = choose|j: int| 0 <= j < o.values@.len() && o.values@[j]@ == t;
                                assert(r@[j]@ == t);
                            }
                        }
                    }
                }
                return r;
            }
            i = i + 1;
        }
        proof {
            let k = (Seq::<char>::empty(), name@);
            assert(values_of(s, k) =~= Set::<Seq<char>>::empty()) by {
                assert forall|v: Seq<char>| !values_of(s, k).contains(v) by {
                    if s.contains((k, v)) {
                        let x = choose|x: int| 0 <= x < s.len() && s[x] == (k, v);
                        assert(crate::options::listed(self.categories@, s[x].0));
                        let y = choose|y: int| 0 <= y < self.categories@.len() && #[trigger] self.categories@[y].key() == s[x].0;
                    }
                }
            }
            assert(text_set(Seq::<String>::empty()) =~= Set::<Seq<char>>::empty());
        }
        Vec::new()
    }
}

/// A copy of a list of texts.
pub fn copy_strings(v: &Vec<String>) -> (r: Vec<String>)
    ensures
        r@.len() == v@.len(),
        forall|i: int| 0 <= i < r@.len() ==> (#[trigger] r@[i])@ == v@[i]@,
{
    let mut r: Vec<String> = Vec::new();
    let mut i: usize = 0;
    while i < v.len()
        invariant
            i <= v@.len(),
            r@.len() == i,
            forall|j: int| 0 <= j < i ==> (#[trigger] r@[j])@ == v@[j]@,
        decreases v.len() - i,
    {
        r.push(owned(v[i].as_str()));
        i = i + 1;
    }
    r
}

/// A cell of a feature vector, before it is read as a number: a count, the
/// latest value of an attribute (if any), or whether the latest value of an
/// attribute has a given label.
pub enum FeatureCell {
    Count(usize),
    Value(Option<AttrValue>),
    Flag(bool),
}

/// How many of the events have type `t`.
pub open spec fn type_count(log: CompactOcelLog, evs: Seq<usize>, t: Seq<char>, k: int) -> nat
    decreases k,
{
    if k <= 0 {
        0
    } else {
        type_count(log, evs, t, k - 1) + if log.text(log.events@[evs[k - 1] as int].type_symbol) == t { 1nat } else { 0nat }
    }
}

/// The ids of the objects of type `t` that `rels` point to, other than `own`.
pub open spec fn related_ids(log: CompactOcelLog, own: Symbol, rels: Seq<Relationship>, t: Seq<char>) -> Set<Symbol> {
    Set::new(|id: Symbol| id != own && type_of_id(log, id) == Some(t)
        && exists|k: int| 0 <= k < rels.len() && #[trigger] rels[k].object_id == id)
}

/// The ids of the objects of type `t` related to the window's events or to
/// the object at `o` itself.
pub open spec fn window_related(log: CompactOcelLog, o: int, evs: Seq<usize>, t: Seq<char>) -> Set<Symbol> {
    let ob = log.objects@[o];
    Set::new(|id: Symbol| related_ids(log, ob.id, ob.relationships@, t).contains(id)
        || exists|p: int| 0 <= p < evs.len() && #[trigger] related_ids(log, ob.id, log.events@[evs[p] as int].relationships@, t).contains(id))
}

/// The cell of a column for a window of the object at `o` whose attribute
/// values are read at time `at`.
pub open spec fn cell_ok(log: CompactOcelLog, o: int, evs: Seq<usize>, at: i64, c: ColumnView, v: FeatureCell) -> bool {
    let attrs = log.objects@[o].attributes@;
    match c {
        ColumnView::Activity(t) => v == FeatureCell::Count(clamp_usize(type_count(log, evs, t, evs.len() as int))),
        ColumnView::RelatedObjectType(t) => window_related(log, o, evs, t).finite()
            && v == FeatureCell::Count(window_related(log, o, evs, t).len() as usize),
        ColumnView::NumericAttribute(n) => v == FeatureCell::Value(match latest_upto(log, attrs, at, n, attrs.len() as int) {
            Some(p) => Some(p.1),
            None => None,
        }),
        ColumnView::CategoricalAttribute(n, label) => v == FeatureCell::Flag(match latest_upto(log, attrs, at, n, attrs.len() as int) {
            Some(p) => value_label(log, p.1) == label,
            None => false,
        }),
    }
}

impl CompactOcelLog {
    /// Adds to `ids` the objects of type `t` that `rels` point to, other
    /// than `own`, each once.
    fn add_related_ids(&self, own: Symbol, rels: &Vec<Relationship>, t: &str, ids: &mut Vec<Symbol>, Ghost(base): Ghost<Set<Symbol>>)
        requires
            self.wf(),
            relationships_ok(self.pool@.len(), rels@),
            old(ids)@.no_duplicates(),
            old(ids)@.to_set() == base,
        ensures
            final(ids)@.no_duplicates(),
            final(ids)@.to_set() == base + related_ids(*self, own, rels@, t@),
    {
        let mut k: usize = 0;
        proof {
            assert(base + related_ids(*self, own, rels@.take(0), t@) =~= base);
        }
        while k < rels.len()
            invariant
                self.wf(),
                relationships_ok(self.pool@.len(), rels@),
                k <= rels@.len(),
                ids@.no_duplicates(),
                ids@.to_set() == base + related_ids(*self, own, rels@.take(k as int), t@),
            decreases rels.len() - k,
        {
            let r = rels[k];
            let ghost before = ids@;
            let mut take = false;
            if r.object_id != own {
                match self.related_type(r.object_id) {
                    Some(rt) => {
                        if str_eq(rt, t) {
                            take = true;
                        }
                    },
                    None => {},
                }
            }
            if take {
                let mut present = false;
                let mut q: usize = 0;
                while q < ids.len()
                    invariant
                        q <= ids@.len(),
                        ids@ == before,
                        present == exists|x: int| 0 <= x < q && ids@[x] == r.object_id,
                    decreases ids.len() - q,
                {
                    if ids[q] == r.object_id {
                        present = true;
                    }
                    q = q + 1;
                }
                if !present {
                    ids.push(r.object_id);
                }
                proof {
                    if !present {
                        lemma_push_set(before, r.object_id);
                    } else {
                        let x = choose|x: int| 0 <= x < q && ids@[x] == r.object_id;
                        assert(before.to_set().contains(r.object_id));
                    }
                }
            }
            proof {
                assert(rels@.take(k + 1).drop_last() =~= rels@.take(k as int));
                assert(rels@.take(k + 1)[k as int] == r);
                assert(ids@.to_set() =~= base + related_ids(*self, own, rels@.take(k + 1), t@)) by {
                    assert forall|id: Symbol| related_ids(*self, own, rels@.take(k + 1), t@).contains(id)
                        == (related_ids(*self, own, rels@.take(k as int), t@).contains(id) || (take && id == r.object_id)) by {
                        if related_ids(*self, own, rels@.take(k + 1), t@).contains(id) {
                            let x = choose|x: int| 0 <= x < k + 1 && #[trigger] rels@.take(k + 1)[x].object_id == id;
                            if x < k {
                                assert(rels@.take(k as int)[x].object_id == id);
                            }
                        }
                        if related_ids(*self, own, rels@.take(k as int), t@).contains(id) {
                            let x = choose|x: int| 0 <= x < k && #[trigger] rels@.take(k as int)[x].object_id == id;
                            assert(rels@.take(k + 1)[x].object_id == id);
                        }
                        if take && id == r.object_id {
                            assert(rels@.take(k + 1)[k as int].object_id == id);
                        }
                    }
                }
            }
            k = k + 1;
        }
        proof {
            assert(rels@.take(rels@.len() as int) =~= rels@);
        }
    }

    /// How many distinct objects of type `t` the window's events, or the
    /// object at `o` itself, are related to.
    pub fn window_related_count(&self, o: usize, evs: &Vec<usize>, t: &str) -> (n: usize)
        requires
            self.wf(),
            o < self.objects@.len(),
            forall|k: int| 0 <= k < evs@.len() ==> #[trigger] evs@[k] < self.events@.len(),
        ensures
            window_related(*self, o as int, evs@, t@).finite(),
            n == window_related(*self, o as int, evs@, t@).len(),
    {
        let ob = &self.objects[o];
        proof { assert(object_ok(self.pool@.len(), self.events@.len(), *ob)); }
        let mut ids: Vec<Symbol> = Vec::new();
        proof {
            assert(ids@.to_set() =~= Set::<Symbol>::empty());
        }
        self.add_related_ids(ob.id, &ob.relationships, t, &mut ids, Ghost(Set::empty()));
        let ghost first = related_ids(*self, ob.id, ob.relationships@, t@);
        proof {
            assert(Set::<Symbol>::empty() + first =~= first);
        }
        let mut p: usize = 0;
        while p < evs.len()
            invariant
                self.wf(),
                o < self.objects@.len(),
                *ob == self.objects@[o as int],
                forall|k: int| 0 <= k < evs@.len() ==> #[trigger] evs@[k] < self.events@.len(),
                first == related_ids(*self, ob.id, ob.relationships@, t@),
                p <= evs@.len(),
                ids@.no_duplicates(),
                ids@.to_set() == Set::new(|id: Symbol| first.contains(id)
                    || exists|q: int| 0 <= q < p && #[trigger] related_ids(*self, ob.id, self.events@[evs@[q] as int].relationships@, t@).contains(id)),
            decreases evs.len() - p,
        {
            let e = &self.events[evs[p]];
            proof { assert(event_ok(self.pool@.len(), *e)); }
            let ghost base = ids@.to_set();
            self.add_related_ids(ob.id, &e.relationships, t, &mut ids, Ghost(base));
            proof {
                assert(ids@.to_set() =~= Set::new(|id: Symbol| first.contains(id)
                    || exists|q: int| 0 <= q < p + 1 && #[trigger] related_ids(*self, ob.id, self.events@[evs@[q] as int].relationships@, t@).contains(id))) by {
                    assert forall|id: Symbol| (exists|q: int| 0 <= q < p + 1 && #[trigger] related_ids(*self, ob.id, self.events@[evs@[q] as int].relationships@, t@).contains(id))
                        == ((exists|q: int| 0 <= q < p && #[trigger] related_ids(*self, ob.id, self.events@[evs@[q] as int].relationships@, t@).contains(id))
                            || related_ids(*self, ob.id, e.relationships@, t@).contains(id)) by {
                        if related_ids(*self, ob.id, e.relationships@, t@).contains(id) {
                            assert(related_ids(*self, ob.id, self.events@[evs@[p as int] as int].relationships@, t@).contains(id));
                        }
                    }
                }
            }
            p = p + 1;
        }
        proof {
            assert(ids@.to_set() =~= window_related(*self, o as int, evs@, t@));
            ids@.unique_seq_to_set();
            vstd::seq_lib::seq_to_set_is_finite(ids@);
        }
        ids.len()
    }

    /// How many of the window's events have type `t` (saturated).
    pub fn window_type_count(&self, evs: &Vec<usize>, t: &str) -> (n: usize)
        requires
            self.wf(),
            forall|k: int| 0 <= k < evs@.len() ==> #[trigger] evs@[k] < self.events@.len(),
        ensures
            n == clamp_usize(type_count(*self, evs@, t@, evs@.len() as int)),
    {
        let mut n: usize = 0;
        let mut p: usize = 0;
        while p < evs.len()
            invariant
                self.wf(),
                forall|k: int| 0 <= k < evs@.len() ==> #[trigger] evs@[k] < self.events@.len(),
                p <= evs@.len(),
                n == clamp_usize(type_count(*self, evs@, t@, p as int)),
            decreases evs.len() - p,
        {
            let e = &self.events[evs[p]];
            proof { assert(event_ok(self.pool@.len(), *e)); }
            if str_eq(self.pool.resolve(e.type_symbol), t) {
                n = n.saturating_add(1);
            }
            p = p + 1;
        }
        n
    }
}

/// The value listed under `n`, if any.
fn find_latest(
    lv: &Vec<LatestValue>,
    n: &str,
    Ghost(log): Ghost<CompactOcelLog>,
    Ghost(attrs): Ghost<Seq<TimedAttribute>>,
    Ghost(at): Ghost<i64>,
) -> (r: Option<AttrValue>)
    requires
        latest_listed(log, attrs, at, attrs.len() as int, lv@),
    ensures
        r == match latest_upto(log, attrs, at, n@, attrs.len() as int) {
            Some(p) => Some(p.1),
            None => None::<AttrValue>,
        },
{
    let mut i: usize = 0;
    while i < lv.len()
        invariant
            latest_listed(log, attrs, at, attrs.len() as int, lv@),
            i <= lv@.len(),
            forall|j: int| 0 <= j < i ==> (#[trigger] lv@[j]).name@ != n@,
        decreases lv.len() - i,
    {
        if str_eq(lv[i].name.as_str(), n) {
            return Some(lv[i].value);
        }
        i = i + 1;
    }
    proof {
        if latest_upto(log, attrs, at, n@, attrs.len() as int) is Some {
            let j = choose|j: int| 0 <= j < lv@.len() && lv@[j].name@ == n@;
        }
    }
    None
}

impl CompactOcelLog {
    /// The feature cells of a window of the object at `o`, one per column,
    /// with attribute values read at time `at`.
    pub fn encode_feature_cells(&self, o: usize, evs: &Vec<usize>, at: i64, columns: &Vec<FeatureColumn>) -> (r: Vec<FeatureCell>)
        requires
            self.wf(),
            o < self.objects@.len(),
            forall|k: int| 0 <= k < evs@.len() ==> #[trigger] evs@[k] < self.events@.len(),
        ensures
            r@.len() == columns@.len(),
            forall|i: int| 0 <= i < r@.len() ==> cell_ok(*self, o as int, evs@, at, columns@[i].view_of(), #[trigger] r@[i]),
    {
        let lv = self.latest_attribute_values_at(o, at);
        let ghost attrs = self.objects@[o as int].attributes@;
        let mut out: Vec<FeatureCell> = Vec::new();
        let mut i: usize = 0;
        while i < columns.len()
            invariant
                self.wf(),
                o < self.objects@.len(),
                attrs == self.objects@[o as int].attributes@,
                forall|k: int| 0 <= k < evs@.len() ==> #[trigger] evs@[k] < self.events@.len(),
                latest_listed(*self, attrs, at, attrs.len() as int, lv@),
                forall|j: int| 0 <= j < lv@.len() ==> crate::model::value_ok(self.pool@.len(), (#[trigger] lv@[j]).value),
                i <= columns@.len(),
                out@.len() == i,
                forall|j: int| 0 <= j < i ==> cell_ok(*self, o as int, evs@, at, columns@[j].view_of(), #[trigger] out@[j]),
            decreases columns.len() - i,
        {
            let cell = match &columns[i] {
                FeatureColumn::Activity(t) => FeatureCell::Count(self.window_type_count(evs, t.as_str())),
                FeatureColumn::RelatedObjectType(t) => FeatureCell::Count(self.window_related_count(o, evs, t.as_str())),
                FeatureColumn::NumericAttribute(n) => FeatureCell::Value(find_latest(&lv, n.as_str(), Ghost(*self), Ghost(attrs), Ghost(at))),
                FeatureColumn::CategoricalAttribute(n, label) => {
                    let found = find_latest(&lv, n.as_str(), Ghost(*self), Ghost(attrs), Ghost(at));
                    match found {
                        Some(v) => {
                            proof {
                                let j = choose|j: int| 0 <= j < lv@.len() && lv@[j].name@ == n@;
                                assert(latest_upto(*self, attrs, at, lv@[j].name@, attrs.len() as int) == Some((lv@[j].time_ms, lv@[j].value)));
                                assert(crate::model::value_ok(self.pool@.len(), lv@[j].value));
                            }
                            let text = self.attr_value_label(v);
                            FeatureCell::Flag(str_eq(text.as_str(), label.as_str()))
                        },
                        None => FeatureCell::Flag(false),
                    }
                },
            };
            out.push(cell);
            i = i + 1;
        }
        out
    }
}

/// The label of a column of the feature table.
pub open spec fn column_text(c: ColumnView) -> Seq<char> {
    match c {
        ColumnView::Activity(t) => "activity."@ + t,
        ColumnView::RelatedObjectType(t) => "related_objects."@ + t,
        ColumnView::NumericAttribute(n) => "attribute."@ + n,
        ColumnView::CategoricalAttribute(n, v) => "attribute."@ + n + "="@ + v,
    }
}

/// The label of a column of the feature table.
pub fn column_label(c: &FeatureColumn) -> (r: String)
    ensures
        r@ == column_text(c.view_of()),
{
    proof {
        reveal_strlit("activity.");
        reveal_strlit("related_objects.");
        reveal_strlit("attribute.");
        reveal_strlit("=");
    }
    match c {
        FeatureColumn::Activity(t) => {
            let mut r = owned("activity.");
            crate::text::push_text(&mut r, t.as_str());
            r
        },
        FeatureColumn::RelatedObjectType(t) => {
            let mut r = owned("related_objects.");
            crate::text::push_text(&mut r, t.as_str());
            r
        },
        FeatureColumn::NumericAttribute(n) => {
            let mut r = owned("attribute.");
            crate::text::push_text(&mut r, n.as_str());
            r
        },
        FeatureColumn::CategoricalAttribute(n, v) => {
            let mut r = owned("attribute.");
            crate::text::push_text(&mut r, n.as_str());
            crate::text::push_text(&mut r, "=");
            crate::text::push_text(&mut r, v.as_str());
            r
        },
    }
}

/// The time at which a window reads attribute values: that of its last
/// event, or the end of time for an empty window.
pub open spec fn window_time(log: CompactOcelLog, evs: Seq<usize>) -> i64 {
    if evs.len() == 0 {
        i64::MAX
    } else {
        log.events@[evs.last() as int].time_ms
    }
}

impl CompactOcelLog {
    /// The time at which a window reads attribute values.
    pub fn window_attribute_time(&self, evs: &Vec<usize>) -> (t: i64)
        requires
            forall|k: int| 0 <= k < evs@.len() ==> #[trigger] evs@[k] < self.events@.len(),
        ensures
            t == window_time(*self, evs@),
    {
        if evs.len() == 0 {
            i64::MAX
        } else {
            self.events[evs[evs.len() - 1]].time_ms
        }
    }
}

/// The characters with every double quote doubled.
pub open spec fn doubled_quotes(s: Seq<char>) -> Seq<char>
    decreases s.len(),
{
    if s.len() == 0 {
        s
    } else {
        let r = doubled_quotes(s.drop_last());
        if s.last() == '"' { r + seq!['"', '"'] } else { r.push(s.last()) }
    }
}

/// A CSV field: quoted, with quotes doubled, when it holds a comma, a quote
/// or a line break; else as it is.
pub open spec fn csv_field(s: Seq<char>) -> Seq<char> {
    if s.contains(',') || s.contains('"') || s.contains('\n') || s.contains('\r') {
        seq!['"'] + doubled_quotes(s) + seq!['"']
    } else {
        s
    }
}

/// Writes a text as a CSV field.
pub fn csv_escape(value: &str) -> (r: String)
    ensures
        r@ == csv_field(value@),
{
    let cs = crate::text::str_chars(value);
    let mut special = false;
    let mut i: usize = 0;
    while i < cs.len()
        invariant
            cs@ == value@,
            i <= cs@.len(),
            special == exists|j: int| 0 <= j < i && (cs@[j] == ',' || cs@[j] == '"' || cs@[j] == '\n' || cs@[j] == '\r'),
        decreases cs.len() - i,
    {
        let c = cs[i];
        if c == ',' || c == '"' || c == '\n' || c == '\r' {
            special = true;
        }
        i = i + 1;
    }
    proof {
        assert(special == (value@.contains(',') || value@.contains('"') || value@.contains('\n') || value@.contains('\r'))) by {
            if special {
                let j = choose|j: int| 0 <= j < cs@.len() && (cs@[j] == ',' || cs@[j] == '"' || cs@[j] == '\n' || cs@[j] == '\r');
                assert(value@[j] == cs@[j]);
            }
            if value@.contains(',') {
                let j = choose|j: int| 0 <= j < value@.len() && value@[j] == ',';
                assert(cs@[j] == ',');
            }
            if value@.contains('"') {
                let j = choose|j: int| 0 <= j < value@.len() && value@[j] == '"';
                assert(cs@[j] == '"');
            }
            if value@.contains('\n') {
                let j = choose|j: int| 0 <= j < value@.len() && value@[j] == '\n';
                assert(cs@[j] == '\n');
            }
            if value@.contains('\r') {
                let j = choose|j: int| 0 <= j < value@.len() && value@[j] == '\r';
                assert(cs@[j] == '\r');
            }
        }
    }
    if !special {
        return owned(value);
    }
    let mut out: Vec<char> = Vec::new();
    out.push('"');
    let mut i: usize = 0;
    while i < cs.len()
        invariant
            cs@ == value@,
            i <= cs@.len(),
            out@ == seq!['"'] + doubled_quotes(cs@.take(i as int)),
        decreases cs.len() - i,
    {
        let c = cs[i];
        proof {
            assert(cs@.take(i + 1).drop_last() =~= cs@.take(i as int));
            assert(cs@.take(i + 1).last() == c);
        }
        if c == '"' {
            out.push('"');
            out.push('"');
            assert(out@ =~= seq!['"'] + doubled_quotes(cs@.take(i + 1)));
        } else {
            out.push(c);
            assert(out@ =~= seq!['"'] + doubled_quotes(cs@.take(i + 1)));
        }
        i = i + 1;
    }
    out.push('"');
    proof {
        assert(cs@.take(cs@.len() as int) =~= cs@);
        assert(out@ =~= seq!['"'] + doubled_quotes(value@) + seq!['"']);
    }
    crate::text::string_from_chars(out.as_slice())
}

/// The names of the timed attributes of the object at `o`.
pub open spec fn attr_names(log: CompactOcelLog, o: int) -> Set<Seq<char>> {
    Set::new(|n: Seq<char>| exists|i: int| 0 <= i < log.objects@[o].attributes@.len() && #[trigger] log.text(log.objects@[o].attributes@[i].name) == n)
}

/// The names of the timed attributes of the object at `o` with a value
/// that is not a string.
pub open spec fn attr_numeric(log: CompactOcelLog, o: int) -> Set<Seq<char>> {
    Set::new(|n: Seq<char>| exists|i: int| 0 <= i < log.objects@[o].attributes@.len() && #[trigger] log.text(log.objects@[o].attributes@[i].name) == n
        && !(log.objects@[o].attributes@[i].value is String))
}

/// The string values of attribute `n` of the object at `o`.
pub open spec fn attr_categories(log: CompactOcelLog, o: int, n: Seq<char>) -> Set<Seq<char>> {
    Set::new(|c: Seq<char>| exists|i: int| 0 <= i < log.objects@[o].attributes@.len() && #[trigger] log.text(log.objects@[o].attributes@[i].name) == n
        && match log.objects@[o].attributes@[i].value {
            AttrValue::String(v) => log.text(v) == c,
            _ => false,
        })
}

/// The attribute names of the first `k` listed objects.
pub open spec fn all_names(log: CompactOcelLog, objs: Seq<usize>, k: int) -> Set<Seq<char>>
    decreases k,
{
    if k <= 0 { Set::empty() } else { all_names(log, objs, k - 1) + attr_names(log, objs[k - 1] as int) }
}

/// The attribute names with a non-string value among the first `k` listed
/// objects.
pub open spec fn all_numeric(log: CompactOcelLog, objs: Seq<usize>, k: int) -> Set<Seq<char>>
    decreases k,
{
    if k <= 0 { Set::empty() } else { all_numeric(log, objs, k - 1) + attr_numeric(log, objs[k - 1] as int) }
}

/// The string values of attribute `n` among the first `k` listed objects.
pub open spec fn all_categories(log: CompactOcelLog, objs: Seq<usize>, k: int, n: Seq<char>) -> Set<Seq<char>>
    decreases k,
{
    if k <= 0 { Set::empty() } else { all_categories(log, objs, k - 1, n) + attr_categories(log, objs[k - 1] as int, n) }
}

/// A way to colour the cells of a state map.
pub struct ColorOption {
    pub id: String,
    pub label: String,
    pub kind: String,
}

pub open spec fn option_view(o: ColorOption) -> (Seq<char>, Seq<char>, Seq<char>) {
    (o.id@, o.label@, o.kind@)
}

/// The colour option of one attribute: numeric when all its values are
/// numbers, categorical when it has fewer than 50 string values, none
/// otherwise.
pub open spec fn attribute_option(name: Seq<char>, numeric: bool, cats: nat) -> Seq<(Seq<char>, Seq<char>, Seq<char>)> {
    if numeric && cats == 0 {
        seq![("attribute::"@ + name, name, "numeric"@)]
    } else if cats > 0 && cats < 50 {
        seq![("attribute::"@ + name, name, "categorical"@)]
    } else {
        Seq::empty()
    }
}

/// The colour options of the first `k` names.
pub open spec fn attribute_options(names: Seq<String>, numeric: Set<Seq<char>>, cats: spec_fn(Seq<char>) -> Set<Seq<char>>, k: int) -> Seq<(Seq<char>, Seq<char>, Seq<char>)>
    decreases k,
{
    if k <= 0 {
        Seq::empty()
    } else {
        attribute_options(names, numeric, cats, k - 1) + attribute_option(names[k - 1]@, numeric.contains(names[k - 1]@), cats(names[k - 1]@).len())
    }
}

/// The names of the first `i` attributes.
pub open spec fn prefix_names(log: CompactOcelLog, av: Seq<TimedAttribute>, i: int) -> Set<Seq<char>> {
    Set::new(|n: Seq<char>| exists|j: int| 0 <= j < i && #[trigger] log.text(av[j].name) == n)
}

/// The names of the first `i` attributes with a value that is not a string.
pub open spec fn prefix_numeric(log: CompactOcelLog, av: Seq<TimedAttribute>, i: int) -> Set<Seq<char>> {
    Set::new(|n: Seq<char>| exists|j: int| 0 <= j < i && #[trigger] log.text(av[j].name) == n && !(av[j].value is String))
}

/// The string values of attribute `n` among the first `i` attributes.
pub open spec fn prefix_categories(log: CompactOcelLog, av: Seq<TimedAttribute>, i: int, n: Seq<char>) -> Set<Seq<char>> {
    Set::new(|c: Seq<char>| exists|j: int| 0 <= j < i && #[trigger] log.text(av[j].name) == n && match av[j].value {
        AttrValue::String(v) => log.text(v) == c,
        _ => false,
    })
}

impl CompactOcelLog {
    /// Adds the attributes of the object at `o` to the names, non-string
    /// names and string values gathered so far.
    #[verifier::rlimit(60)]
    fn gather_attributes(
        &self,
        o: usize,
        a: &mut AttributeSummary,
        Ghost(objs): Ghost<Seq<usize>>,
        Ghost(k): Ghost<int>,
        Ghost(s0): Ghost<Seq<(TextPair, Seq<char>)>>,
    ) -> (s: Ghost<Seq<(TextPair, Seq<char>)>>)
        requires
            self.wf(),
            0 <= k < objs.len(),
            objs[k] == o,
            o < self.objects@.len(),
            texts_sorted(old(a).names@),
            text_set(old(a).names@) == all_names(*self, objs, k),
            texts_sorted(old(a).numeric@),
            text_set(old(a).numeric@) == all_numeric(*self, objs, k),
            gathered(old(a).categories@, s0),
            forall|n: Seq<char>| #[trigger] values_of(s0, (Seq::<char>::empty(), n)) == all_categories(*self, objs, k, n),
            forall|i: int| 0 <= i < s0.len() ==> (#[trigger] s0[i]).0.0 == Seq::<char>::empty(),
        ensures
            texts_sorted(final(a).names@),
            text_set(final(a).names@) == all_names(*self, objs, k + 1),
            texts_sorted(final(a).numeric@),
            text_set(final(a).numeric@) == all_numeric(*self, objs, k + 1),
            gathered(final(a).categories@, s@),
            forall|n: Seq<char>| #[trigger] values_of(s@, (Seq::<char>::empty(), n)) == all_categories(*self, objs, k + 1, n),
            forall|i: int| 0 <= i < s@.len() ==> (#[trigger] s@[i]).0.0 == Seq::<char>::empty(),
    {
        let attrs = &self.objects[o].attributes;
        let ghost av = attrs@;
        proof { assert(object_ok(self.pool@.len(), self.events@.len(), self.objects@[o as int])); }
        let ghost n0 = text_set(a.names@);
        let ghost m0 = text_set(a.numeric@);
        let ghost mut s = s0;
        let ghost empty = Seq::<char>::empty();
        proof {
            reveal_strlit("");
            assert(n0 + prefix_names(*self, av, 0) =~= n0);
            assert(m0 + prefix_numeric(*self, av, 0) =~= m0);
            assert forall|n: Seq<char>| #[trigger] values_of(s, (empty, n)) == all_categories(*self, objs, k, n) + prefix_categories(*self, av, 0, n) by {
                assert(all_categories(*self, objs, k, n) + prefix_categories(*self, av, 0, n) =~= all_categories(*self, objs, k, n));
            }
        }
        let mut i: usize = 0;
        while i < attrs.len()
            invariant
                self.wf(),
                o < self.objects@.len(),
                0 <= k < objs.len(),
                objs[k] == o,
                av == attrs@,
                av == self.objects@[o as int].attributes@,
                crate::model::timed_attributes_ok(self.pool@.len(), av),
                empty == Seq::<char>::empty(),
                ""@ == empty,
                i <= av.len(),
                texts_sorted(a.names@),
                text_set(a.names@) == n0 + prefix_names(*self, av, i as int),
                n0 == all_names(*self, objs, k),
                texts_sorted(a.numeric@),
                text_set(a.numeric@) == m0 + prefix_numeric(*self, av, i as int),
                m0 == all_numeric(*self, objs, k),
                gathered(a.categories@, s),
                forall|n: Seq<char>| #[trigger] values_of(s, (empty, n)) == all_categories(*self, objs, k, n) + prefix_categories(*self, av, i as int, n),
                forall|j: int| 0 <= j < s.len() ==> (#[trigger] s[j]).0.0 == empty,
            decreases attrs.len() - i,
        {
            let at = attrs[i];
            proof {
                assert(av[i as int] == at);
                assert(crate::model::timed_attributes_ok(self.pool@.len(), av));
                assert(crate::model::sym_ok(self.pool@.len(), av[i as int].name));
                assert(crate::model::value_ok(self.pool@.len(), av[i as int].value));
            }
            let name = self.pool.resolve(at.name);
            insert_text(&mut a.names, name);
            proof {
                assert(self.text(av[i as int].name) == name@);
                assert forall|x: Seq<char>| prefix_names(*self, av, i + 1).contains(x) == prefix_names(*self, av, i as int).insert(name@).contains(x) by {
                    if x == name@ {
                        assert(self.text(av[i as int].name) == x);
                    }
                    if prefix_names(*self, av, i + 1).contains(x) && x != name@ {
                        let j = choose|j: int| 0 <= j < i + 1 && #[trigger] self.text(av[j].name) == x;
                        assert(j != i);
                    }
                }
                assert(prefix_names(*self, av, i + 1) =~= prefix_names(*self, av, i as int).insert(name@));
                assert(text_set(a.names@) =~= n0 + prefix_names(*self, av, i + 1));
            }
            match at.value {
                AttrValue::String(v) => {
                    let ghost sb = s;
                    add_option(&mut a.categories, "", name, self.pool.resolve(v), Ghost(s));
                    proof {
                        s = s.push(((empty, name@), self.text(v)));
                        assert forall|n: Seq<char>| #[trigger] values_of(s, (empty, n)) == all_categories(*self, objs, k, n) + prefix_categories(*self, av, i + 1, n) by {
                            lemma_values_of_push(sb, ((empty, name@), self.text(v)), (empty, n));
                            if n == name@ {
                                assert(prefix_categories(*self, av, i + 1, n) =~= prefix_categories(*self, av, i as int, n).insert(self.text(v)));
                            } else {
                                assert(prefix_categories(*self, av, i + 1, n) =~= prefix_categories(*self, av, i as int, n));
                            }
                            assert(values_of(s, (empty, n)) =~= all_categories(*self, objs, k, n) + prefix_categories(*self, av, i + 1, n));
                        }
                        assert forall|j: int| 0 <= j < s.len() implies (#[trigger] s[j]).0.0 == empty by {
                            if j < sb.len() {
                                assert(s[j] == sb[j]);
                            }
                        }
                        assert(prefix_numeric(*self, av, i + 1) =~= prefix_numeric(*self, av, i as int));
                    }
                },
                _ => {
                    insert_text(&mut a.numeric, name);
                    proof {
                        assert(prefix_numeric(*self, av, i + 1) =~= prefix_numeric(*self, av, i as int).insert(name@));
                        assert(text_set(a.numeric@) =~= m0 + prefix_numeric(*self, av, i + 1));
                        assert forall|n: Seq<char>| #[trigger] values_of(s, (empty, n)) == all_categories(*self, objs, k, n) + prefix_categories(*self, av, i + 1, n) by {
                            assert(prefix_categories(*self, av, i + 1, n) =~= prefix_categories(*self, av, i as int, n));
                        }
                    }
                },
            }
            i = i + 1;
        }
        proof {
            assert(prefix_names(*self, av, av.len() as int) =~= attr_names(*self, o as int));
            assert(prefix_numeric(*self, av, av.len() as int) =~= attr_numeric(*self, o as int));
            assert(text_set(a.names@) =~= all_names(*self, objs, k + 1));
            assert(text_set(a.numeric@) =~= all_numeric(*self, objs, k + 1));
            assert forall|n: Seq<char>| #[trigger] values_of(s, (empty, n)) == all_categories(*self, objs, k + 1, n) by {
                assert(prefix_categories(*self, av, av.len() as int, n) =~= attr_categories(*self, o as int, n));
                assert(values_of(s, (empty, n)) =~= all_categories(*self, objs, k + 1, n));
            }
        }
        Ghost(s)
    }
}

/// A sorted list of distinct texts has as many texts as its set.
proof fn lemma_sorted_len(v: Seq<String>)
    requires
        texts_sorted(v),
    ensures
        text_set(v).finite(),
        text_set(v).len() == v.len(),
{
    let w = v.map_values(|t: String| t@);
    assert(w.no_duplicates()) by {
        assert forall|i: int, j: int| 0 <= i < w.len() && 0 <= j < w.len() && i != j implies w[i] != w[j] by {
            lemma_seq_order_equal(v[i]@, v[j]@);
            lemma_seq_order_equal(v[j]@, v[i]@);
            if i < j {
                assert(seq_order(v[i]@, v[j]@) == Order3::Less);
            } else {
                assert(seq_order(v[j]@, v[i]@) == Order3::Less);
            }
        }
    }
    w.unique_seq_to_set();
    assert(text_set(v) =~= w.to_set()) by {
        assert forall|t: Seq<char>| text_set(v).contains(t) == w.to_set().contains(t) by {
            if text_set(v).contains(t) {
                let i = choose|i: int| 0 <= i < v.len() && v[i]@ == t;
                assert(w[i] == t);
            }
            if w.contains(t) {
                let i = choose|i: int| 0 <= i < w.len() && w[i] == t;
                assert(v[i]@ == t);
            }
        }
    }
    vstd::seq_lib::seq_to_set_is_finite(w);
}

/// `r` offers the window count and one option per attribute of the listed
/// objects, in name order, as `attribute_options` says.
pub open spec fn color_options_ok(log: CompactOcelLog, objs: Seq<usize>, r: Seq<ColorOption>) -> bool {
    exists|names: Seq<String>| #[trigger] texts_sorted(names) && text_set(names) == all_names(log, objs, objs.len() as int)
        && r.map_values(|o: ColorOption| option_view(o)) == seq![("__window_count"@, "Assigned windows"@, "count"@)]
            + attribute_options(names, all_numeric(log, objs, objs.len() as int), |n: Seq<char>| all_categories(log, objs, objs.len() as int, n), names.len() as int)
}

impl CompactOcelLog {
    /// The ways to colour a state map of the listed objects: by window
    /// count, or by an attribute that is numeric or has few string values.
    pub fn state_detection_color_options(&self, objs: &Vec<usize>) -> (r: Vec<ColorOption>)
        requires
            self.wf(),
            forall|k: int| 0 <= k < objs@.len() ==> #[trigger] objs@[k] < self.objects@.len(),
        ensures
            color_options_ok(*self, objs@, r@),
    {
        let mut a = AttributeSummary { names: Vec::new(), numeric: Vec::new(), categories: Vec::new() };
        let ghost mut s: Seq<(TextPair, Seq<char>)> = Seq::empty();
        proof {
            assert(text_set(a.names@) =~= Set::<Seq<char>>::empty());
            assert(text_set(a.numeric@) =~= Set::<Seq<char>>::empty());
            assert forall|n: Seq<char>| #[trigger] values_of(s, (Seq::<char>::empty(), n)) == all_categories(*self, objs@, 0, n) by {
                assert(values_of(s, (Seq::<char>::empty(), n)) =~= Set::<Seq<char>>::empty());
            }
        }
        let mut k: usize = 0;
        while k < objs.len()
            invariant
                self.wf(),
                forall|q: int| 0 <= q < objs@.len() ==> #[trigger] objs@[q] < self.objects@.len(),
                k <= objs@.len(),
                texts_sorted(a.names@),
                text_set(a.names@) == all_names(*self, objs@, k as int),
                texts_sorted(a.numeric@),
                text_set(a.numeric@) == all_numeric(*self, objs@, k as int),
                gathered(a.categories@, s),
                forall|n: Seq<char>| #[trigger] values_of(s, (Seq::<char>::empty(), n)) == all_categories(*self, objs@, k as int, n),
                forall|i: int| 0 <= i < s.len() ==> (#[trigger] s[i]).0.0 == Seq::<char>::empty(),
            decreases objs.len() - k,
        {
            let g = self.gather_attributes(objs[k], &mut a, Ghost(objs@), Ghost(k as int), Ghost(s));
            proof { s = g@; }
            k = k + 1;
        }
        let ghost n = objs@.len() as int;
        let ghost num = all_numeric(*self, objs@, n);
        let ghost cats = |t: Seq<char>| all_categories(*self, objs@, n, t);
        proof {
            reveal_strlit("__window_count");
            reveal_strlit("Assigned windows");
            reveal_strlit("count");
            reveal_strlit("attribute::");
            reveal_strlit("numeric");
            reveal_strlit("categorical");
        }
        let mut out: Vec<ColorOption> = Vec::new();
        out.push(ColorOption { id: owned("__window_count"), label: owned("Assigned windows"), kind: owned("count") });
        let ghost first = seq![("__window_count"@, "Assigned windows"@, "count"@)];
        proof {
            assert(out@.map_values(|o: ColorOption| option_view(o)) =~= first + attribute_options(a.names@, num, cats, 0));
        }
        let mut i: usize = 0;
        while i < a.names.len()
            invariant
                texts_sorted(a.names@),
                gathered(a.categories@, s),
                forall|t: Seq<char>| #[trigger] values_of(s, (Seq::<char>::empty(), t)) == all_categories(*self, objs@, n, t),
                forall|j: int| 0 <= j < s.len() ==> (#[trigger] s[j]).0.0 == Seq::<char>::empty(),
                text_set(a.numeric@) == num,
                cats == |t: Seq<char>| all_categories(*self, objs@, n, t),
                first == seq![("__window_count"@, "Assigned windows"@, "count"@)],
                "attribute::"@ == seq!['a', 't', 't', 'r', 'i', 'b', 'u', 't', 'e', ':', ':'],
                "numeric"@ == seq!['n', 'u', 'm', 'e', 'r', 'i', 'c'],
                "categorical"@ == seq!['c', 'a', 't', 'e', 'g', 'o', 'r', 'i', 'c', 'a', 'l'],
                i <= a.names@.len(),
                out@.map_values(|o: ColorOption| option_view(o)) == first + attribute_options(a.names@, num, cats, i as int),
            decreases a.names.len() - i,
        {
            let name = a.names[i].as_str();
            let numeric = crate::filter::contains_text(&a.numeric, name);
            let values = a.categories_of(name, Ghost(s));
            let c = values.len();
            proof {
                lemma_sorted_len(values@);
                assert(crate::patterns::texts(a.numeric@).contains(name@) == num.contains(name@)) by {
                    if crate::patterns::texts(a.numeric@).contains(name@) {
                        let j = choose|j: int| 0 <= j < a.numeric@.len() && crate::patterns::texts(a.numeric@)[j] == name@;
                        assert(a.numeric@[j]@ == name@);
                    }
                    if text_set(a.numeric@).contains(name@) {
                        let j = choose|j: int| 0 <= j < a.numeric@.len() && a.numeric@[j]@ == name@;
                        assert(crate::patterns::texts(a.numeric@)[j] == name@);
                    }
                }
                assert(cats(name@).len() == c);
            }
            let ghost before = out@;
            if numeric && c == 0 {
                let mut id = owned("attribute::");
                crate::text::push_text(&mut id, name);
                out.push(ColorOption { id, label: owned(name), kind: owned("numeric") });
            } else if c > 0 && c < 50 {
                let mut id = owned("attribute::");
                crate::text::push_text(&mut id, name);
                out.push(ColorOption { id, label: owned(name), kind: owned("categorical") });
            }
            proof {
                assert(out@.map_values(|o: ColorOption| option_view(o)) =~= before.map_values(|o: ColorOption| option_view(o))
                    + attribute_option(a.names@[i as int]@, num.contains(a.names@[i as int]@), cats(a.names@[i as int]@).len()));
            }
            i = i + 1;
        }
        proof {
            assert(texts_sorted(a.names@) && text_set(a.names@) == all_names(*self, objs@, n)
                && out@.map_values(|o: ColorOption| option_view(o)) == seq![("__window_count"@, "Assigned windows"@, "count"@)]
                    + attribute_options(a.names@, all_numeric(*self, objs@, n), |t: Seq<char>| all_categories(*self, objs@, n, t), a.names@.len() as int));
        }
        out
    }
}

/// How the cells of a state map are coloured.
pub enum ColorMetric {
    WindowCount,
    NumericAttribute(String),
    CategoricalAttribute(String),
}

/// What a colouring holds, as mathematical values.
pub enum MetricView {
    WindowCount,
    NumericAttribute(Seq<char>),
    CategoricalAttribute(Seq<char>),
}

/// The attribute an option names: its id after `attribute::`, else its
/// label.
pub open spec fn option_attribute(o: (Seq<char>, Seq<char>, Seq<char>)) -> Seq<char> {
    let p = "attribute::"@;
    if p.len() <= o.0.len() && o.0.take(p.len() as int) == p {
        o.0.skip(p.len() as int)
    } else {
        o.1
    }
}

/// The colouring asked for: the window count unless the id names an
/// option, which gives a numeric or categorical colouring by its kind.
pub open spec fn metric_for(requested: Option<Seq<char>>, options: Seq<(Seq<char>, Seq<char>, Seq<char>)>) -> MetricView {
    match requested {
        None => MetricView::WindowCount,
        Some(id) => if id == "__window_count"@ {
            MetricView::WindowCount
        } else if exists|i: int| 0 <= i < options.len() && options[i].0 == id {
            let i = choose|i: int| 0 <= i < options.len() && options[i].0 == id && forall|j: int| 0 <= j < i ==> options[j].0 != id;
            if options[i].2 == "numeric"@ {
                MetricView::NumericAttribute(option_attribute(options[i]))
            } else if options[i].2 == "categorical"@ {
                MetricView::CategoricalAttribute(option_attribute(options[i]))
            } else {
                MetricView::WindowCount
            }
        } else {
            MetricView::WindowCount
        },
    }
}

impl ColorMetric {
    pub open spec fn view_of(self) -> MetricView {
        match self {
            ColorMetric::WindowCount => MetricView::WindowCount,
            ColorMetric::NumericAttribute(n) => MetricView::NumericAttribute(n@),
            ColorMetric::CategoricalAttribute(n) => MetricView::CategoricalAttribute(n@),
        }
    }

    /// The id of the colouring.
    pub fn id(&self) -> (r: String)
        ensures
            r@ == match self.view_of() {
                MetricView::WindowCount => "__window_count"@,
                MetricView::NumericAttribute(n) => "attribute::"@ + n,
                MetricView::CategoricalAttribute(n) => "attribute::"@ + n,
            },
    {
        proof {
            reveal_strlit("__window_count");
            reveal_strlit("attribute::");
        }
        match self {
            ColorMetric::WindowCount => owned("__window_count"),
            ColorMetric::NumericAttribute(n) | ColorMetric::CategoricalAttribute(n) => {
                let mut r = owned("attribute::");
                crate::text::push_text(&mut r, n.as_str());
                r
            },
        }
    }
}

/// The views of colour options.
pub open spec fn options_view(v: Seq<ColorOption>) -> Seq<(Seq<char>, Seq<char>, Seq<char>)> {
    v.map_values(|o: ColorOption| option_view(o))
}

/// The colouring asked for by id, among the options offered.
pub fn resolve_color_metric(requested: Option<&str>, options: &Vec<ColorOption>) -> (r: ColorMetric)
    ensures
        r.view_of() == metric_for(
            match requested { Some(t) => Some(t@), None => None },
            options_view(options@),
        ),
{
    let ghost ov = options_view(options@);
    proof {
        reveal_strlit("__window_count");
        reveal_strlit("attribute::");
        reveal_strlit("numeric");
        reveal_strlit("categorical");
    }
    let ghost rv = match requested { Some(t) => Some(t@), None => None::<Seq<char>> };
    let req = match requested {
        None => return ColorMetric::WindowCount,
        Some(t) => t,
    };
    if str_eq(req, "__window_count") {
        return ColorMetric::WindowCount;
    }
    let mut i: usize = 0;
    while i < options.len()
        invariant
            rv == Some(req@),
            rv == match requested { Some(t) => Some(t@), None => None::<Seq<char>> },
            req@ != "__window_count"@,
            i <= options@.len(),
            ov == options_view(options@),
            forall|j: int| 0 <= j < i ==> #[trigger] ov[j].0 != req@,
        decreases options.len() - i,
    {
        if str_eq(options[i].id.as_str(), req) {
            let o = &options[i];
            proof {
                reveal_strlit("__window_count");
                reveal_strlit("attribute::");
                reveal_strlit("numeric");
                reveal_strlit("categorical");
                assert(ov[i as int].0 == req@);
                assert(forall|j: int| 0 <= j < i ==> ov[j].0 != req@);
                assert(exists|c: int| 0 <= c < ov.len() && ov[c].0 == req@ && forall|j: int| 0 <= j < c ==> ov[j].0 != req@);
                let c = choose|c: int| 0 <= c < ov.len() && ov[c].0 == req@ && forall|j: int| 0 <= j < c ==> ov[j].0 != req@;
                assert(c == i) by {
                    if c < i {
                        assert(ov[c].0 != req@);
                    } else if c > i {
                        assert(ov[i as int].0 != req@);
                    }
                }
            }
            let prefix = "attribute::";
            let name = if crate::text::text_starts_with(o.id.as_str(), prefix) {
                let id_chars = crate::text::str_chars(o.id.as_str());
                proof {
                    reveal_strlit("attribute::");
                    assert("attribute::"@.len() == 11);
                    assert(id_chars@.len() >= 11);
                    assert(id_chars@.subrange(11, 11) =~= Seq::<char>::empty());
                }
                let mut rest: Vec<char> = Vec::new();
                let mut q: usize = 11;
                while q < id_chars.len()
                    invariant
                        11 <= q <= id_chars@.len(),
                        rest@ == id_chars@.subrange(11, q as int),
                    decreases id_chars.len() - q,
                {
                    rest.push(id_chars[q]);
                    proof {
                        assert(rest@ =~= id_chars@.subrange(11, q + 1));
                    }
                    q = q + 1;
                }
                proof {
                    assert(id_chars@.subrange(11, id_chars@.len() as int) =~= id_chars@.skip(11));
                    assert(rest@ == o.id@.skip(11));
                }
                crate::text::string_from_chars(rest.as_slice())
            } else {
                owned(o.label.as_str())
            };
            proof {
                assert(ov[i as int] == option_view(*o));
                assert(name@ == option_attribute(ov[i as int]));
            }
            if str_eq(o.kind.as_str(), "numeric") {
                proof {
                    assert(ov[i as int].2 == "numeric"@);
                    assert(metric_for(rv, ov) == MetricView::NumericAttribute(name@));
                }
                return ColorMetric::NumericAttribute(name);
            } else if str_eq(o.kind.as_str(), "categorical") {
                return ColorMetric::CategoricalAttribute(name);
            } else {
                return ColorMetric::WindowCount;
            }
        }
        i = i + 1;
    }
    ColorMetric::WindowCount
}
} // verus!
