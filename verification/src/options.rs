use vstd::prelude::*;
use crate::model::{CompactOcelLog, Attribute, TimedAttribute, AttrValue};
use crate::text::{Order3, owned, seq_order, lemma_seq_order_equal, lemma_seq_order_flip, lemma_seq_order_trans};
use crate::counts::{TextPair, pair_less, pair_compare, lemma_pair_order, texts_sorted, text_set, insert_text};

verus! {

/// The (scope and name, value) pairs of the string attributes among the
/// first `k` of `attrs`.
pub open spec fn string_pairs(log: CompactOcelLog, scope: Seq<char>, attrs: Seq<Attribute>, k: int) -> Seq<(TextPair, Seq<char>)>
    decreases k,
{
    if k <= 0 {
        Seq::empty()
    } else {
        let r = string_pairs(log, scope, attrs, k - 1);
        match attrs[k - 1].value {
            AttrValue::String(s) => r.push(((scope, log.text(attrs[k - 1].name)), log.text(s))),
            _ => r,
        }
    }
}

/// The same for timed attributes.
pub open spec fn timed_string_pairs(log: CompactOcelLog, scope: Seq<char>, attrs: Seq<TimedAttribute>, k: int) -> Seq<(TextPair, Seq<char>)>
    decreases k,
{
    if k <= 0 {
        Seq::empty()
    } else {
        let r = timed_string_pairs(log, scope, attrs, k - 1);
        match attrs[k - 1].value {
            AttrValue::String(s) => r.push(((scope, log.text(attrs[k - 1].name)), log.text(s))),
            _ => r,
        }
    }
}

/// The string attribute values of the first `n` events, in order.
pub open spec fn event_pairs(log: CompactOcelLog, n: int) -> Seq<(TextPair, Seq<char>)>
    decreases n,
{
    if n <= 0 {
        Seq::empty()
    } else {
        let attrs = log.events@[n - 1].attributes@;
        event_pairs(log, n - 1) + string_pairs(log, "event"@, attrs, attrs.len() as int)
    }
}

/// The string attribute values of the first `n` objects, in order.
pub open spec fn object_pairs(log: CompactOcelLog, n: int) -> Seq<(TextPair, Seq<char>)>
    decreases n,
{
    if n <= 0 {
        Seq::empty()
    } else {
        let attrs = log.objects@[n - 1].attributes@;
        object_pairs(log, n - 1) + timed_string_pairs(log, "object"@, attrs, attrs.len() as int)
    }
}

/// All string attribute values of the log with their scope and name.
pub open spec fn option_pairs(log: CompactOcelLog) -> Seq<(TextPair, Seq<char>)> {
    event_pairs(log, log.events@.len() as int) + object_pairs(log, log.objects@.len() as int)
}

/// The values paired with `k` in `s`.
pub open spec fn values_of(s: Seq<(TextPair, Seq<char>)>, k: TextPair) -> Set<Seq<char>> {
    Set::new(|v: Seq<char>| s.contains((k, v)))
}

/// Some pair of `s` has key `k`.
pub open spec fn key_in(s: Seq<(TextPair, Seq<char>)>, k: TextPair) -> bool {
    exists|i: int| 0 <= i < s.len() && #[trigger] s[i].0 == k
}

/// The values of one string attribute of events or objects.
pub struct TextAttributeOption {
    pub scope: String,
    pub name: String,
    pub values: Vec<String>,
}

impl TextAttributeOption {
    pub open spec fn key(self) -> TextPair {
        (self.scope@, self.name@)
    }
}

/// Some option has key `k`.
pub open spec fn listed(opts: Seq<TextAttributeOption>, k: TextPair) -> bool {
    exists|i: int| 0 <= i < opts.len() && #[trigger] opts[i].key() == k
}

/// `opts` lists the keys of `s` in increasing order, each with the sorted
/// distinct values paired with it.
pub open spec fn gathered(opts: Seq<TextAttributeOption>, s: Seq<(TextPair, Seq<char>)>) -> bool {
    &&& forall|i: int, j: int| 0 <= i < j < opts.len() ==> pair_less(#[trigger] opts[i].key(), #[trigger] opts[j].key())
    &&& forall|i: int| 0 <= i < opts.len() ==> key_in(s, #[trigger] opts[i].key())
    &&& forall|i: int| 0 <= i < s.len() ==> listed(opts, #[trigger] s[i].0)
    &&& forall|i: int| 0 <= i < opts.len() ==> texts_sorted(#[trigger] opts[i].values@)
        && text_set(opts[i].values@) == values_of(s, opts[i].key())
}

/// `opts` lists the keys of `s` in increasing order, each with the first
/// 200 of its distinct values in increasing order.
pub open spec fn text_options_ok(opts: Seq<TextAttributeOption>, s: Seq<(TextPair, Seq<char>)>) -> bool {
    &&& forall|i: int, j: int| 0 <= i < j < opts.len() ==> pair_less(#[trigger] opts[i].key(), #[trigger] opts[j].key())
    &&& forall|i: int| 0 <= i < opts.len() ==> key_in(s, #[trigger] opts[i].key())
    &&& forall|i: int| 0 <= i < s.len() ==> listed(opts, #[trigger] s[i].0)
    &&& forall|i: int| 0 <= i < opts.len() ==> #[trigger] first_values(opts[i].values@, values_of(s, opts[i].key()))
}

/// `v` holds the least 200 texts of `set`, in increasing order.
pub open spec fn first_values(v: Seq<String>, set: Set<Seq<char>>) -> bool {
    exists|full: Seq<String>| #[trigger] texts_sorted(full) && text_set(full) == set
        && v == full.take(if full.len() < 200 { full.len() as int } else { 200 })
}

proof fn lemma_push_pair(s: Seq<(TextPair, Seq<char>)>, k: TextPair, v: Seq<char>)
    ensures
        forall|k2: TextPair| #[trigger] key_in(s.push((k, v)), k2) == (key_in(s, k2) || k2 == k),
        values_of(s.push((k, v)), k) == values_of(s, k).insert(v),
        forall|k2: TextPair| k2 != k ==> #[trigger] values_of(s.push((k, v)), k2) == values_of(s, k2),
{
    let t = s.push((k, v));
    assert forall|k2: TextPair| #[trigger] key_in(t, k2) == (key_in(s, k2) || k2 == k) by {
        if key_in(t, k2) && k2 != k {
            let i = choose|i: int| 0 <= i < t.len() && #[trigger] t[i].0 == k2;
            assert(s[i] == t[i]);
        }
        if key_in(s, k2) {
            let i = choose|i: int| 0 <= i < s.len() && #[trigger] s[i].0 == k2;
            assert(t[i] == s[i]);
        }
        if k2 == k {
            assert(t[s.len() as int].0 == k);
        }
    }
    assert forall|k2: TextPair, x: Seq<char>| #[trigger] t.contains((k2, x)) == (s.contains((k2, x)) || (k2, x) == (k, v)) by {
        if t.contains((k2, x)) && (k2, x) != (k, v) {
            let i = choose|i: int| 0 <= i < t.len() && t[i] == (k2, x);
            assert(s[i] == t[i]);
        }
        if s.contains((k2, x)) {
            let i = choose|i: int| 0 <= i < s.len() && s[i] == (k2, x);
            assert(t[i] == s[i]);
        }
        if (k2, x) == (k, v) {
            assert(t[s.len() as int] == (k, v));
        }
    }
    assert(values_of(t, k) =~= values_of(s, k).insert(v));
    assert forall|k2: TextPair| k2 != k implies #[trigger] values_of(t, k2) == values_of(s, k2) by {
        assert(values_of(t, k2) =~= values_of(s, k2));
    }
}

/// Adds one value under one key.
pub(crate) fn add_option(
    opts: &mut Vec<TextAttributeOption>,
    scope: &str,
    name: &str,
    value: &str,
    Ghost(s): Ghost<Seq<(TextPair, Seq<char>)>>,
)
    requires
        gathered(old(opts)@, s),
    ensures
        gathered(final(opts)@, s.push(((scope@, name@), value@))),
{
    let ghost k: TextPair = (scope@, name@);
    let ghost t = s.push((k, value@));
    proof { lemma_push_pair(s, k, value@); }
    let mut i: usize = 0;
    loop
        invariant
            i <= opts@.len(),
            opts@ == old(opts)@,
            k == (scope@, name@),
            forall|j: int| 0 <= j < i ==> pair_less(#[trigger] opts@[j].key(), k),
        ensures
            i <= opts@.len(),
            opts@ == old(opts)@,
            forall|j: int| 0 <= j < i ==> pair_less(#[trigger] opts@[j].key(), k),
            i < opts@.len() ==> !pair_less(opts@[i as int].key(), k),
        decreases opts.len() - i,
    {
        if i >= opts.len() {
            break;
        }
        if pair_compare(opts[i].scope.as_str(), opts[i].name.as_str(), scope, name) != Order3::Less {
            break;
        }
        i = i + 1;
    }
    let ghost before = opts@;
    let found = i < opts.len() && pair_compare(opts[i].scope.as_str(), opts[i].name.as_str(), scope, name) == Order3::Equal;
    if found {
        proof {
            lemma_pair_order(before[i as int].key(), k, k);
        }
        let mut values: Vec<String> = Vec::new();
        std::mem::swap(&mut values, &mut opts[i].values);
        insert_text(&mut values, value);
        std::mem::swap(&mut values, &mut opts[i].values);
        proof {
            assert(opts@[i as int].key() == k);
            assert forall|j: int| 0 <= j < opts@.len() implies texts_sorted(#[trigger] opts@[j].values@)
                && text_set(opts@[j].values@) == values_of(t, opts@[j].key()) by {
                if j != i {
                    assert(opts@[j] == before[j]);
                    lemma_pair_order(before[j].key(), k, before[i as int].key());
                    lemma_pair_order(before[i as int].key(), before[j].key(), k);
                    if j > i {
                        assert(pair_less(before[i as int].key(), before[j].key()));
                    }
                }
            }
            assert forall|a: int, b: int| 0 <= a < b < opts@.len() implies pair_less(#[trigger] opts@[a].key(), #[trigger] opts@[b].key()) by {
                assert(pair_less(before[a].key(), before[b].key()));
            }
            assert forall|j: int| 0 <= j < opts@.len() implies key_in(t, #[trigger] opts@[j].key()) by {
                assert(key_in(s, before[j].key()));
            }
            assert forall|x: int| 0 <= x < t.len() implies listed(opts@, #[trigger] t[x].0) by {
                if x < s.len() {
                    assert(t[x] == s[x]);
                    assert(listed(before, s[x].0));
                    let j = choose|j: int| 0 <= j < before.len() && #[trigger] before[j].key() == s[x].0;
                    assert(opts@[j].key() == before[j].key());
                } else {
                    assert(opts@[i as int].key() == t[x].0);
                }
            }
        }
    } else {
        proof {
            lemma_pair_order(k, k, k);
            assert(!key_in(s, k)) by {
                if key_in(s, k) {
                    let x = choose|x: int| 0 <= x < s.len() && #[trigger] s[x].0 == k;
                    assert(listed(before, s[x].0));
                    let j = choose|j: int| 0 <= j < before.len() && #[trigger] before[j].key() == s[x].0;
                    if j >= i {
                        lemma_pair_order(before[i as int].key(), k, before[j].key());
                        lemma_pair_order(k, before[i as int].key(), k);
                        if j > i {
                            assert(pair_less(before[i as int].key(), before[j].key()));
                        }
                    }
                }
            }
            assert(values_of(s, k) =~= Set::<Seq<char>>::empty()) by {
                assert forall|v: Seq<char>| !values_of(s, k).contains(v) by {
                    if s.contains((k, v)) {
                        let x = choose|x: int| 0 <= x < s.len() && s[x] == (k, v);
                        assert(s[x].0 == k);
                    }
                }
            }
        }
        let mut values: Vec<String> = Vec::new();
        insert_text(&mut values, value);
        proof {
            assert(text_set(Seq::<String>::empty()) =~= Set::<Seq<char>>::empty());
        }
        opts.insert(i, TextAttributeOption { scope: owned(scope), name: owned(name), values });
        proof {
            assert forall|j: int| 0 <= j < opts@.len() implies texts_sorted(#[trigger] opts@[j].values@)
                && text_set(opts@[j].values@) == values_of(t, opts@[j].key()) by {
                if j < i {
                    assert(opts@[j] == before[j]);
                    assert(before[j].key() != k);
                } else if j > i {
                    assert(opts@[j] == before[j - 1]);
                    assert(key_in(s, before[j - 1].key()));
                }
            }
            assert forall|a: int, b: int| 0 <= a < b < opts@.len() implies pair_less(#[trigger] opts@[a].key(), #[trigger] opts@[b].key()) by {
                if b < i {
                    assert(pair_less(before[a].key(), before[b].key()));
                } else if b == i {
                    assert(pair_less(before[a].key(), k));
                } else if a == i {
                    let kb = before[b - 1].key();
                    assert(opts@[b] == before[b - 1]);
                    assert(i < before.len());
                    lemma_pair_order(k, before[i as int].key(), kb);
                    lemma_pair_order(before[i as int].key(), k, kb);
                    if b - 1 > i {
                        assert(pair_less(before[i as int].key(), kb));
                    }
                    assert(before[i as int].key() != k);
                } else if a > i {
                    assert(pair_less(before[a - 1].key(), before[b - 1].key()));
                } else {
                    assert(opts@[b] == before[b - 1]);
                    if b - 1 > a {
                        assert(pair_less(before[a].key(), before[b - 1].key()));
                    }
                }
            }
            assert forall|j: int| 0 <= j < opts@.len() implies key_in(t, #[trigger] opts@[j].key()) by {
                if j < i {
                    assert(key_in(s, before[j].key()));
                } else if j > i {
                    assert(key_in(s, before[j - 1].key()));
                }
            }
            assert forall|x: int| 0 <= x < t.len() implies listed(opts@, #[trigger] t[x].0) by {
                if x < s.len() {
                    assert(t[x] == s[x]);
                    assert(listed(before, s[x].0));
                    let j = choose|j: int| 0 <= j < before.len() && #[trigger] before[j].key() == s[x].0;
                    if j < i {
                        assert(opts@[j].key() == before[j].key());
                    } else {
                        assert(opts@[j + 1].key() == before[j].key());
                    }
                } else {
                    assert(opts@[i as int].key() == t[x].0);
                }
            }
        }
    }
}


/// What the filter can be set to: the type names, the string attribute
/// values and the time range of the events.
pub struct FilterOptions {
    pub event_types: Vec<String>,
    pub object_types: Vec<String>,
    pub text_attributes: Vec<TextAttributeOption>,
    pub time_min_ms: Option<i64>,
    pub time_max_ms: Option<i64>,
}

/// The least event time, if there are events.
pub open spec fn least_time(log: CompactOcelLog) -> Option<i64> {
    if log.events@.len() == 0 {
        None
    } else {
        Some(crate::perf::min_time(log, log.events@.len() as int))
    }
}

/// The greatest event time, if there are events.
pub open spec fn greatest_time(log: CompactOcelLog) -> Option<i64> {
    if log.events@.len() == 0 {
        None
    } else {
        Some(crate::perf::max_time(log, log.events@.len() as int))
    }
}

impl CompactOcelLog {
    /// The values of the string attributes of events and objects, by scope
    /// and name, at most 200 per attribute.
    pub fn text_attribute_options(&self) -> (r: Vec<TextAttributeOption>)
        requires
            self.wf(),
        ensures
            text_options_ok(r@, option_pairs(*self)),
    {
        let mut opts: Vec<TextAttributeOption> = Vec::new();
        proof {
            reveal_strlit("event");
            reveal_strlit("object");
        }
        let mut i: usize = 0;
        while i < self.events.len()
            invariant
                self.wf(),
                i <= self.events@.len(),
                gathered(opts@, event_pairs(*self, i as int)),
            decreases self.events.len() - i,
        {
            let e = &self.events[i];
            let ghost base = event_pairs(*self, i as int);
            proof {
                assert(crate::model::event_ok(self.pool@.len(), *e));
                assert(base + string_pairs(*self, "event"@, e.attributes@, 0) =~= base);
            }
            let mut k: usize = 0;
            while k < e.attributes.len()
                invariant
                    self.wf(),
                    i < self.events@.len(),
                    *e == self.events@[i as int],
                    crate::model::event_ok(self.pool@.len(), *e),
                    k <= e.attributes@.len(),
                    base == event_pairs(*self, i as int),
                    gathered(opts@, base + string_pairs(*self, "event"@, e.attributes@, k as int)),
                decreases e.attributes.len() - k,
            {
                let a = e.attributes[k];
                proof { assert(crate::model::sym_ok(self.pool@.len(), a.name) && crate::model::value_ok(self.pool@.len(), a.value)); }
                match a.value {
                    AttrValue::String(v) => {
                        let ghost prev = base + string_pairs(*self, "event"@, e.attributes@, k as int);
                        add_option(&mut opts, "event", self.pool.resolve(a.name), self.pool.resolve(v), Ghost(prev));
                        assert(base + string_pairs(*self, "event"@, e.attributes@, k + 1)
                            =~= prev.push((("event"@, self.text(a.name)), self.text(v))));
                    },
                    _ => {
                        assert(string_pairs(*self, "event"@, e.attributes@, k + 1) == string_pairs(*self, "event"@, e.attributes@, k as int));
                    },
                }
                k = k + 1;
            }
            i = i + 1;
        }
        let ghost evs = event_pairs(*self, self.events@.len() as int);
        proof {
            assert(evs + object_pairs(*self, 0) =~= evs);
        }
        let mut i: usize = 0;
        while i < self.objects.len()
            invariant
                self.wf(),
                i <= self.objects@.len(),
                evs == event_pairs(*self, self.events@.len() as int),
                gathered(opts@, evs + object_pairs(*self, i as int)),
            decreases self.objects.len() - i,
        {
            let o = &self.objects[i];
            let ghost base = evs + object_pairs(*self, i as int);
            proof {
                assert(crate::model::object_ok(self.pool@.len(), self.events@.len(), *o));
                assert(base + timed_string_pairs(*self, "object"@, o.attributes@, 0) =~= base);
            }
            let mut k: usize = 0;
            while k < o.attributes.len()
                invariant
                    self.wf(),
                    i < self.objects@.len(),
                    *o == self.objects@[i as int],
                    crate::model::object_ok(self.pool@.len(), self.events@.len(), *o),
                    k <= o.attributes@.len(),
                    base == evs + object_pairs(*self, i as int),
                    gathered(opts@, base + timed_string_pairs(*self, "object"@, o.attributes@, k as int)),
                decreases o.attributes.len() - k,
            {
                let a = o.attributes[k];
                proof {
                    assert(crate::model::timed_attributes_ok(self.pool@.len(), o.attributes@));
                    assert(crate::model::sym_ok(self.pool@.len(), a.name) && crate::model::value_ok(self.pool@.len(), a.value));
                }
                match a.value {
                    AttrValue::String(v) => {
                        let ghost prev = base + timed_string_pairs(*self, "object"@, o.attributes@, k as int);
                        add_option(&mut opts, "object", self.pool.resolve(a.name), self.pool.resolve(v), Ghost(prev));
                        assert(base + timed_string_pairs(*self, "object"@, o.attributes@, k + 1)
                            =~= prev.push((("object"@, self.text(a.name)), self.text(v))));
                    },
                    _ => {
                        assert(timed_string_pairs(*self, "object"@, o.attributes@, k + 1)
                            == timed_string_pairs(*self, "object"@, o.attributes@, k as int));
                    },
                }
                k = k + 1;
            }
            proof {
                assert(evs + object_pairs(*self, i + 1) =~= base + timed_string_pairs(*self, "object"@, o.attributes@, o.attributes@.len() as int));
            }
            i = i + 1;
        }
        let ghost all = option_pairs(*self);
        let ghost gathered_opts = opts@;
        let mut j: usize = 0;
        while j < opts.len()
            invariant
                gathered(gathered_opts, all),
                opts@.len() == gathered_opts.len(),
                j <= opts@.len(),
                forall|x: int| 0 <= x < opts@.len() ==> (#[trigger] opts@[x]).key() == gathered_opts[x].key(),
                forall|x: int| 0 <= x < j ==> #[trigger] first_values(opts@[x].values@, values_of(all, opts@[x].key())),
                forall|x: int| j <= x < opts@.len() ==> #[trigger] opts@[x].values@ == gathered_opts[x].values@,
            decreases opts.len() - j,
        {
            let ghost full = opts@[j as int].values@;
            let mut values: Vec<String> = Vec::new();
            std::mem::swap(&mut values, &mut opts[j].values);
            values.truncate(200);
            std::mem::swap(&mut values, &mut opts[j].values);
            proof {
                assert(texts_sorted(full) && text_set(full) == values_of(all, gathered_opts[j as int].key()));
                assert(opts@[j as int].values@ == full.take(if full.len() < 200 { full.len() as int } else { 200 }));
                assert(first_values(opts@[j as int].values@, values_of(all, opts@[j as int].key())));
            }
            j = j + 1;
        }
        proof {
            assert forall|x: int, y: int| 0 <= x < y < opts@.len() implies pair_less(#[trigger] opts@[x].key(), #[trigger] opts@[y].key()) by {
                assert(pair_less(gathered_opts[x].key(), gathered_opts[y].key()));
            }
            assert forall|x: int| 0 <= x < opts@.len() implies key_in(all, #[trigger] opts@[x].key()) by {
                assert(key_in(all, gathered_opts[x].key()));
            }
            assert forall|x: int| 0 <= x < all.len() implies listed(opts@, #[trigger] all[x].0) by {
                assert(listed(gathered_opts, all[x].0));
                let y = choose|y: int| 0 <= y < gathered_opts.len() && #[trigger] gathered_opts[y].key() == all[x].0;
                assert(opts@[y].key() == all[x].0);
            }
        }
        opts
    }

    /// Type names, string attribute values and the event time range.
    pub fn filter_options(&self) -> (r: FilterOptions)
        requires
            self.wf(),
        ensures
            r.event_types@.map_values(|t: String| t@) == self.event_types@.map_values(|t: crate::model::TypeDef| self.text(t.name)),
            r.object_types@.map_values(|t: String| t@) == self.object_types@.map_values(|t: crate::model::TypeDef| self.text(t.name)),
            text_options_ok(r.text_attributes@, option_pairs(*self)),
            r.time_min_ms == least_time(*self),
            r.time_max_ms == greatest_time(*self),
    {
        let event_types = self.type_name_list(&self.event_types);
        let object_types = self.type_name_list(&self.object_types);
        let text_attributes = self.text_attribute_options();
        let mut lo: i64 = 0;
        let mut hi: i64 = 0;
        let mut i: usize = 0;
        while i < self.events.len()
            invariant
                i <= self.events@.len(),
                lo == crate::perf::min_time(*self, i as int),
                hi == crate::perf::max_time(*self, i as int),
            decreases self.events.len() - i,
        {
            let t = self.events[i].time_ms;
            if i == 0 {
                lo = t;
                hi = t;
            } else {
                if t < lo {
                    lo = t;
                }
                if t > hi {
                    hi = t;
                }
            }
            i = i + 1;
        }
        let (time_min_ms, time_max_ms) = if self.events.len() == 0 {
            (None, None)
        } else {
            (Some(lo), Some(hi))
        };
        FilterOptions { event_types, object_types, text_attributes, time_min_ms, time_max_ms }
    }
}
} // verus!
