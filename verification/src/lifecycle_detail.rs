use vstd::prelude::*;
use crate::text::{
    owned, str_eq, text_order, Order3, seq_less, int_text, int_to_text, seq_contains_text, ascii_lower, lower_text,
    text_contains, push_text,
};
use crate::pool::Symbol;
use crate::model::{CompactOcelLog, Relationship, Event, Attribute, AttrValue};
use crate::json::{Json, JsonValue, items_model, members_model, add_member, add_item, text_value, object};
use crate::export_json::attributes_json;
use crate::log_ops::{event_state_of, symbol_of};
use crate::json::{collect, array};
use crate::error::OcelError;
use crate::patterns::type_of_id;
use crate::counting::clamp_usize;

verus! {

/// The bands of a sequence of optional states: maximal runs of neighbouring
/// entries with the same state, as (state, first, last position); entries
/// without a state belong to no band and end the band before them.
pub open spec fn bands(s: Seq<Option<Seq<char>>>) -> Seq<(Seq<char>, int, int)>
    decreases s.len(),
{
    if s.len() == 0 {
        Seq::empty()
    } else {
        let r = bands(s.drop_last());
        let n = s.len() - 1;
        match s[n] {
            None => r,
            Some(t) => if n > 0 && s[n - 1] == Some(t) && r.len() > 0 {
                r.update(r.len() - 1, (t, r.last().1, n))
            } else {
                r.push((t, n, n))
            },
        }
    }
}

/// A band of equal states: the state and its first and last position.
pub struct StateBand {
    pub state: String,
    pub start: usize,
    pub end: usize,
}

pub open spec fn bands_view(v: Seq<StateBand>) -> Seq<(Seq<char>, int, int)> {
    v.map_values(|b: StateBand| (b.state@, b.start as int, b.end as int))
}

pub open spec fn options_view(v: Seq<Option<String>>) -> Seq<Option<Seq<char>>> {
    v.map_values(|o: Option<String>| match o {
        Some(t) => Some(t@),
        None => None,
    })
}

proof fn lemma_bands_shape(s: Seq<Option<Seq<char>>>)
    ensures
        forall|i: int| 0 <= i < bands(s).len() ==> 0 <= #[trigger] bands(s)[i].1 <= bands(s)[i].2 < s.len(),
        bands(s).len() > 0 ==> bands(s).last().2 <= s.len() - 1,
        s.len() > 0 && s.last() is Some ==> bands(s).len() > 0 && bands(s).last().2 == s.len() - 1
            && Some(bands(s).last().0) == s.last(),
    decreases s.len(),
{
    if s.len() > 0 {
        let d = s.drop_last();
        lemma_bands_shape(d);
        let r = bands(d);
        let b = bands(s);
        let n = s.len() - 1;
        assert forall|i: int| 0 <= i < b.len() implies 0 <= #[trigger] b[i].1 <= b[i].2 < s.len() by {
            if i < r.len() && !(s[n] is Some && n > 0 && s[n - 1] == s[n] && r.len() > 0 && i == r.len() - 1) {
                assert(b[i] == r[i]);
            }
        }
    }
}

/// Every band starts no later than it ends, and ends before `n`.
pub open spec fn bands_within(v: Seq<StateBand>, n: int) -> bool {
    forall|k: int| 0 <= k < v.len() ==> (#[trigger] v[k]).start <= v[k].end && v[k].end < n
}

/// Splits the states of a lifecycle into bands of equal states.
#[verifier::rlimit(30)]
pub fn lifecycle_state_bands(states: &Vec<Option<String>>) -> (r: Vec<StateBand>)
    ensures
        bands_view(r@) == bands(options_view(states@)),
        forall|i: int| 0 <= i < r@.len() ==> 0 <= #[trigger] r@[i].start <= r@[i].end < states@.len(),
{
    let ghost s = options_view(states@);
    let mut out: Vec<StateBand> = Vec::new();
    let mut i: usize = 0;
    assert(bands_view(out@) =~= bands(s.take(0)));
    while i < states.len()
        invariant
            s == options_view(states@),
            i <= states@.len(),
            bands_view(out@) == bands(s.take(i as int)),
            bands_within(out@, i as int),
        decreases states.len() - i,
    {
        let ghost t = s.take(i + 1);
        let ghost old_out = out@;
        proof {
            assert(t.drop_last() =~= s.take(i as int));
            lemma_bands_shape(s.take(i as int));
        }
        match &states[i] {
            None => {
                assert(bands_view(out@) =~= bands(t));
                assert forall|k: int| 0 <= k < out@.len() implies 0 <= #[trigger] out@[k].start <= out@[k].end < i + 1 by {}
            },
            Some(st) => {
                let n = out.len();
                let extend = i > 0 && n > 0 && match &states[i - 1] {
                    Some(p) => str_eq(p.as_str(), st.as_str()),
                    None => false,
                };
                proof {
                    assert(t[i as int] == Some(st@));
                    if i > 0 {
                        assert(t[i - 1] == s[i - 1]);
                    }
                }
                if extend {
                    let last = &out[n - 1];
                    let b = StateBand { state: owned(last.state.as_str()), start: last.start, end: i };
                    proof {
                        let r0 = bands(s.take(i as int));
                        assert(s.take(i as int).last() == Some(st@));
                        assert(r0.last().2 == i - 1);
                        assert(r0.last().0 == st@);
                        assert(bands_view(out@)[n - 1] == r0[n - 1]);
                    }
                    out.set(n - 1, b);
                    proof {
                        assert(bands_view(out@) =~= bands(t));
                        assert forall|k: int| 0 <= k < out@.len() implies 0 <= #[trigger] out@[k].start <= out@[k].end < i + 1 by {
                            if k < n - 1 {
                                assert(out@[k] == old_out[k]);
                            } else {
                                assert(0 <= old_out[k].start <= old_out[k].end);
                                assert(out@[k].start == old_out[k].start);
                            }
                        }
                    }
                } else {
                    out.push(StateBand { state: owned(st.as_str()), start: i, end: i });
                    assert(bands_view(out@) =~= bands(t));
                    assert forall|k: int| 0 <= k < out@.len() implies 0 <= #[trigger] out@[k].start <= out@[k].end < i + 1 by {
                        if k < n {
                            assert(out@[k] == old_out[k]);
                        }
                    }
                }
            },
        }
        assert(bands_within(out@, i + 1));
        i = i + 1;
    }
    assert(s.take(states@.len() as int) =~= s);
    out
}


/// The relationships of an event to objects of the log other than `own`:
/// (object id, qualifier), in order.
pub open spec fn related_entries(log: CompactOcelLog, own: Symbol, rels: Seq<Relationship>) -> Seq<(Symbol, Symbol)>
    decreases rels.len(),
{
    if rels.len() == 0 {
        Seq::empty()
    } else {
        let rest = related_entries(log, own, rels.drop_last());
        let r = rels.last();
        if r.object_id != own && type_of_id(log, r.object_id) is Some {
            rest.push((r.object_id, r.qualifier))
        } else {
            rest
        }
    }
}

/// JSON of a related object of an event.
pub open spec fn related_json(log: CompactOcelLog, e: (Symbol, Symbol)) -> Json {
    Json::Object(seq![
        ("object_id"@, Json::Str(log.text(e.0))),
        ("object_type"@, Json::Str(type_of_id(log, e.0)->0)),
        ("qualifier"@, Json::Str(log.text(e.1))),
    ])
}

/// Related-object entries of the events at the first `k` lifecycle
/// positions, as (object id position, qualifier text).
pub open spec fn related_stream(log: CompactOcelLog, own: Symbol, lc: Seq<usize>, k: int) -> Seq<(usize, Seq<char>)>
    decreases k,
{
    if k <= 0 {
        Seq::empty()
    } else {
        related_stream(log, own, lc, k - 1) + related_entries(log, own, log.events@[lc[k - 1] as int].relationships@).map_values(
            |e: (Symbol, Symbol)| (e.0.0, log.text(e.1)),
        )
    }
}

/// Number of occurrences of `k` in `s`.
pub open spec fn occurrences(s: Seq<(usize, Seq<char>)>, k: (usize, Seq<char>)) -> nat
    decreases s.len(),
{
    if s.len() == 0 {
        0
    } else {
        occurrences(s.drop_last(), k) + if s.last() == k { 1nat } else { 0nat }
    }
}

/// Order of related-object keys: by object id symbol, then by qualifier.
pub open spec fn key_less(a: (usize, Seq<char>), b: (usize, Seq<char>)) -> bool {
    a.0 < b.0 || (a.0 == b.0 && seq_less(a.1, b.1))
}

/// How often an object was related to the lifecycle under one qualifier.
pub struct RelatedCount {
    pub object_id: Symbol,
    pub qualifier: String,
    pub object_type: String,
    pub event_count: usize,
}

impl RelatedCount {
    pub open spec fn key(self) -> (usize, Seq<char>) {
        (self.object_id.0, self.qualifier@)
    }
}

/// Some entry of `cs` has key `k`.
pub open spec fn has_key(cs: Seq<RelatedCount>, k: (usize, Seq<char>)) -> bool {
    exists|j: int| 0 <= j < cs.len() && #[trigger] cs[j].key() == k
}

/// `cs` counts the keys of `s`: strictly increasing keys, exactly those of
/// `s`, each with its number of occurrences (saturated at `usize::MAX`) and
/// the type of its object.
pub open spec fn related_counted(log: CompactOcelLog, cs: Seq<RelatedCount>, s: Seq<(usize, Seq<char>)>) -> bool {
    &&& forall|i: int, j: int| 0 <= i < j < cs.len() ==> key_less(#[trigger] cs[i].key(), #[trigger] cs[j].key())
    &&& forall|i: int| 0 <= i < cs.len() ==> s.contains(#[trigger] cs[i].key())
    &&& forall|i: int| 0 <= i < s.len() ==> #[trigger] has_key(cs, s[i])
    &&& forall|i: int| 0 <= i < cs.len() ==> {
        let c = #[trigger] cs[i];
        &&& c.event_count == clamp_usize(occurrences(s, c.key()))
        &&& type_of_id(log, c.object_id) == Some(c.object_type@)
    }
}

proof fn lemma_occurrences_absent(s: Seq<(usize, Seq<char>)>, k: (usize, Seq<char>))
    requires
        !s.contains(k),
    ensures
        occurrences(s, k) == 0,
    decreases s.len(),
{
    if s.len() > 0 {
        assert(!s.drop_last().contains(k)) by {
            if s.drop_last().contains(k) {
                let i = choose|i: int| 0 <= i < s.drop_last().len() && s.drop_last()[i] == k;
                assert(s[i] == k);
            }
        }
        assert(s[s.len() - 1] != k);
        lemma_occurrences_absent(s.drop_last(), k);
    }
}

/// Counts one more occurrence of (`id`, `qualifier`).
fn add_related(
    cs: &mut Vec<RelatedCount>,
    id: Symbol,
    qualifier: &str,
    object_type: &str,
    Ghost(log): Ghost<CompactOcelLog>,
    Ghost(s): Ghost<Seq<(usize, Seq<char>)>>,
)
    requires
        related_counted(log, old(cs)@, s),
        type_of_id(log, id) == Some(object_type@),
    ensures
        related_counted(log, final(cs)@, s.push((id.0, qualifier@))),
{
    let ghost k = (id.0, qualifier@);
    let ghost t = s.push(k);
    proof {
        assert(t.drop_last() == s);
        assert forall|x: (usize, Seq<char>)| t.contains(x) == (s.contains(x) || x == k) by {
            if t.contains(x) && x != k {
                let i = choose|i: int| 0 <= i < t.len() && t[i] == x;
                assert(s[i] == x);
            }
            if s.contains(x) {
                let i = choose|i: int| 0 <= i < s.len() && s[i] == x;
                assert(t[i] == x);
            }
            if x == k {
                assert(t[s.len() as int] == x);
            }
        }
    }
    let mut i: usize = 0;
    loop
        invariant
            i <= cs@.len(),
            cs@ == old(cs)@,
            k == (id.0, qualifier@),
            forall|j: int| 0 <= j < i ==> key_less(#[trigger] cs@[j].key(), k),
        ensures
            i <= cs@.len(),
            cs@ == old(cs)@,
            forall|j: int| 0 <= j < i ==> key_less(#[trigger] cs@[j].key(), k),
            i < cs@.len() ==> !key_less(cs@[i as int].key(), k),
        decreases cs.len() - i,
    {
        if i >= cs.len() {
            break;
        }
        let c = &cs[i];
        let less = c.object_id.0 < id.0 || (c.object_id.0 == id.0 && text_order(c.qualifier.as_str(), qualifier) == Order3::Less);
        if !less {
            break;
        }
        i = i + 1;
    }
    let ghost before = cs@;
    let found = i < cs.len() && cs[i].object_id.0 == id.0 && str_eq(cs[i].qualifier.as_str(), qualifier);
    if found {
        let n = cs[i].event_count;
        let c = RelatedCount {
            object_id: cs[i].object_id,
            qualifier: owned(cs[i].qualifier.as_str()),
            object_type: owned(cs[i].object_type.as_str()),
            event_count: n.saturating_add(1),
        };
        cs.set(i, c);
        proof {
            assert(before[i as int].key() == k);
            assert forall|j: int| 0 <= j < cs@.len() implies {
                let c = #[trigger] cs@[j];
                &&& c.event_count == clamp_usize(occurrences(t, c.key()))
                &&& type_of_id(log, c.object_id) == Some(c.object_type@)
            } by {
                if j != i {
                    assert(cs@[j] == before[j]);
                    assert(before[j].key() != k) by {
                        lemma_key_less(k, before[j].key(), k);
                        if j > i {
                            assert(key_less(before[i as int].key(), before[j].key()));
                        }
                    }
                }
            }
            assert forall|a: int, b: int| 0 <= a < b < cs@.len() implies key_less(#[trigger] cs@[a].key(), #[trigger] cs@[b].key()) by {
                assert(key_less(before[a].key(), before[b].key()));
            }
            assert forall|j: int| 0 <= j < cs@.len() implies t.contains(#[trigger] cs@[j].key()) by {
                assert(s.contains(before[j].key()));
            }
            assert forall|x: int| 0 <= x < t.len() implies #[trigger] has_key(cs@, t[x]) by {
                if x < s.len() {
                    assert(t[x] == s[x]);
                    assert(has_key(before, s[x]));
                    let j = choose|j: int| 0 <= j < before.len() && #[trigger] before[j].key() == s[x];
                    assert(cs@[j].key() == before[j].key());
                } else {
                    assert(cs@[i as int].key() == t[x]);
                }
            }
        }
    } else {
        proof {
            assert(!s.contains(k)) by {
                if s.contains(k) {
                    let x = choose|x: int| 0 <= x < s.len() && s[x] == k;
                    assert(has_key(before, s[x]));
                    let j = choose|j: int| 0 <= j < before.len() && #[trigger] before[j].key() == s[x];
                    lemma_key_less(k, k, k);
                    if j >= i {
                        lemma_key_less(before[i as int].key(), k, before[j].key());
                        if j > i {
                            assert(key_less(before[i as int].key(), before[j].key()));
                        }
                    }
                }
            }
            lemma_occurrences_absent(s, k);
        }
        cs.insert(i, RelatedCount { object_id: id, qualifier: owned(qualifier), object_type: owned(object_type), event_count: 1 });
        proof {
            assert forall|j: int| 0 <= j < cs@.len() implies {
                let c = #[trigger] cs@[j];
                &&& c.event_count == clamp_usize(occurrences(t, c.key()))
                &&& type_of_id(log, c.object_id) == Some(c.object_type@)
            } by {
                if j < i {
                    assert(cs@[j] == before[j]);
                    assert(before[j].key() != k) by {
                        lemma_key_less(k, k, k);
                    }
                } else if j > i {
                    assert(cs@[j] == before[j - 1]);
                    assert(s.contains(before[j - 1].key()));
                }
            }
            assert forall|a: int, b: int| 0 <= a < b < cs@.len() implies key_less(#[trigger] cs@[a].key(), #[trigger] cs@[b].key()) by {
                if b < i {
                    assert(key_less(before[a].key(), before[b].key()));
                } else if b == i {
                    assert(key_less(before[a].key(), k));
                } else if a == i {
                    assert(cs@[b] == before[b - 1]);
                    let kb = before[b - 1].key();
                    assert(s.contains(kb));
                    if i < before.len() {
                        assert(!key_less(before[i as int].key(), k));
                        if b - 1 > i {
                            assert(key_less(before[i as int].key(), kb));
                        }
                    }
                    lemma_key_less(k, before[i as int].key(), kb);
                    lemma_key_less(before[i as int].key(), k, kb);
                } else if a > i {
                    assert(key_less(before[a - 1].key(), before[b - 1].key()));
                } else {
                    assert(cs@[b] == before[b - 1]);
                    if b - 1 > a {
                        assert(key_less(before[a].key(), before[b - 1].key()));
                    }
                }
            }
            assert forall|j: int| 0 <= j < cs@.len() implies t.contains(#[trigger] cs@[j].key()) by {
                if j < i {
                    assert(s.contains(before[j].key()));
                } else if j > i {
                    assert(s.contains(before[j - 1].key()));
                }
            }
            assert forall|x: int| 0 <= x < t.len() implies #[trigger] has_key(cs@, t[x]) by {
                if x < s.len() {
                    assert(t[x] == s[x]);
                    assert(has_key(before, s[x]));
                    let j = choose|j: int| 0 <= j < before.len() && #[trigger] before[j].key() == s[x];
                    if j < i {
                        assert(cs@[j].key() == before[j].key());
                    } else {
                        assert(cs@[j + 1].key() == before[j].key());
                    }
                } else {
                    assert(cs@[i as int].key() == t[x]);
                }
            }
        }
    }
}

/// `key_less` is a strict total order.
proof fn lemma_key_less(a: (usize, Seq<char>), b: (usize, Seq<char>), c: (usize, Seq<char>))
    ensures
        !key_less(a, a),
        key_less(a, b) ==> !key_less(b, a),
        key_less(a, b) && key_less(b, c) ==> key_less(a, c),
        a != b ==> key_less(a, b) || key_less(b, a),
{
    crate::text::lemma_seq_order_equal(a.1, a.1);
    crate::text::lemma_seq_order_equal(a.1, b.1);
    crate::text::lemma_seq_order_flip(a.1, b.1);
    crate::text::lemma_seq_order_flip(b.1, a.1);
    if key_less(a, b) && key_less(b, c) && a.0 == b.0 && b.0 == c.0 {
        crate::text::lemma_seq_order_trans(a.1, b.1, c.1);
    }
}

/// The decimal text of a numeric value.
pub open spec fn number_text(log: CompactOcelLog, v: AttrValue) -> Seq<char> {
    match v {
        AttrValue::Integer(i) => int_text(i as int),
        AttrValue::Float(s) => log.text(s),
        _ => Seq::empty(),
    }
}

/// An attribute is a stock reading: its lower-cased name contains `stock`
/// and its value is a number.
pub open spec fn is_stock(log: CompactOcelLog, a: Attribute) -> bool {
    &&& seq_contains_text(ascii_lower(log.text(a.name)), "stock"@)
    &&& (a.value is Integer || a.value is Float)
}

/// JSON of a stock reading of an event.
pub open spec fn stock_json(log: CompactOcelLog, e: Event, a: Attribute) -> Json {
    Json::Object(seq![
        ("name"@, Json::Str(log.text(a.name))),
        ("time_ms"@, Json::Int(e.time_ms as int)),
        ("value"@, Json::Float(number_text(log, a.value))),
        ("event_id"@, Json::Str(log.text(e.id))),
    ])
}

/// The stock readings among the first `k` attributes of an event.
pub open spec fn stock_upto(log: CompactOcelLog, e: Event, k: int) -> Seq<Json>
    decreases k,
{
    if k <= 0 {
        Seq::empty()
    } else {
        let r = stock_upto(log, e, k - 1);
        let a = e.attributes@[k - 1];
        if is_stock(log, a) {
            r.push(stock_json(log, e, a))
        } else {
            r
        }
    }
}

/// The stock readings of an event, in attribute order.
pub open spec fn event_stock(log: CompactOcelLog, e: Event) -> Seq<Json> {
    stock_upto(log, e, e.attributes@.len() as int)
}

/// The related objects of an event, as JSON.
pub open spec fn event_related_json(log: CompactOcelLog, own: Symbol, e: Event) -> Seq<Json> {
    related_entries(log, own, e.relationships@).map_values(|x: (Symbol, Symbol)| related_json(log, x))
}

/// The state of an event under the state attribute, if there is one.
pub open spec fn state_json(log: CompactOcelLog, e: Event, st: Option<Symbol>) -> Json {
    match st {
        Some(s) => match event_state_of(log, e, s) {
            Some(t) => Json::Str(t),
            None => Json::Null,
        },
        None => Json::Null,
    }
}

/// JSON of an event in the lifecycle of the object with id `own`, or the
/// first attribute value that cannot be written.
pub open spec fn event_detail(log: CompactOcelLog, own: Symbol, e: Event, st: Option<Symbol>) -> Result<Json, Seq<char>> {
    match attributes_json(log, e.attributes@) {
        Err(m) => Err(m),
        Ok(xs) => Ok(Json::Object(seq![
            ("event_id"@, Json::Str(log.text(e.id))),
            ("event_type"@, Json::Str(log.text(e.type_symbol))),
            ("time_ms"@, Json::Int(e.time_ms as int)),
            ("state"@, state_json(log, e, st)),
            ("attributes"@, Json::Array(xs)),
            ("related_objects"@, Json::Array(event_related_json(log, own, e))),
        ])),
    }
}

impl CompactOcelLog {
    /// Appends the related objects of event `ei` (other than `own`) as JSON
    /// items and counts them.
    fn add_event_related(
        &self,
        own: Symbol,
        ei: usize,
        items: &mut Vec<JsonValue>,
        cs: &mut Vec<RelatedCount>,
        Ghost(s): Ghost<Seq<(usize, Seq<char>)>>,
    )
        requires
            self.wf(),
            ei < self.events@.len(),
            related_counted(*self, old(cs)@, s),
        ensures
            items_model(final(items)@) == items_model(old(items)@) + event_related_json(*self, own, self.events@[ei as int]),
            related_counted(
                *self,
                final(cs)@,
                s + related_entries(*self, own, self.events@[ei as int].relationships@).map_values(
                    |e: (Symbol, Symbol)| (e.0.0, self.text(e.1)),
                ),
            ),
    {
        let e = &self.events[ei];
        let ghost rels = e.relationships@;
        let ghost f = |e: (Symbol, Symbol)| (e.0.0, self.text(e.1));
        let ghost g = |x: (Symbol, Symbol)| related_json(*self, x);
        proof {
            assert(crate::model::event_ok(self.pool@.len(), *e));
            assert(related_entries(*self, own, rels.take(0)).map_values(f) =~= Seq::<(usize, Seq<char>)>::empty());
            assert(s + related_entries(*self, own, rels.take(0)).map_values(f) =~= s);
            assert(items_model(items@) + related_entries(*self, own, rels.take(0)).map_values(g) =~= items_model(items@));
        }
        let mut k: usize = 0;
        while k < e.relationships.len()
            invariant
                self.wf(),
                ei < self.events@.len(),
                *e == self.events@[ei as int],
                rels == e.relationships@,
                crate::model::relationships_ok(self.pool@.len(), rels),
                f == |e: (Symbol, Symbol)| (e.0.0, self.text(e.1)),
                g == |x: (Symbol, Symbol)| related_json(*self, x),
                k <= rels.len(),
                items_model(items@) == items_model(old(items)@) + related_entries(*self, own, rels.take(k as int)).map_values(g),
                related_counted(*self, cs@, s + related_entries(*self, own, rels.take(k as int)).map_values(f)),
            decreases e.relationships.len() - k,
        {
            let r = e.relationships[k];
            let ghost prefix = related_entries(*self, own, rels.take(k as int));
            proof {
                assert(rels.take(k + 1).drop_last() =~= rels.take(k as int));
                assert(rels.take(k + 1).last() == r);
                assert(crate::model::sym_ok(self.pool@.len(), r.object_id) && crate::model::sym_ok(self.pool@.len(), r.qualifier));
            }
            if r.object_id != own {
                match self.related_type(r.object_id) {
                    Some(t) => {
                        let mut members: Vec<(String, JsonValue)> = Vec::new();
                        add_member(&mut members, "object_id", text_value(self.pool.resolve(r.object_id)));
                        add_member(&mut members, "object_type", text_value(t));
                        add_member(&mut members, "qualifier", text_value(self.pool.resolve(r.qualifier)));
                        let item = object(members);
                        proof {
                            reveal_strlit("object_id");
                            reveal_strlit("object_type");
                            reveal_strlit("qualifier");
                            assert(item.model() == related_json(*self, (r.object_id, r.qualifier))) by {
                                assert(members_model(members@) =~= seq![
                                    ("object_id"@, Json::Str(self.text(r.object_id))),
                                    ("object_type"@, Json::Str(type_of_id(*self, r.object_id)->0)),
                                    ("qualifier"@, Json::Str(self.text(r.qualifier))),
                                ]);
                            }
                        }
                        add_item(items, item);
                        add_related(cs, r.object_id, self.pool.resolve(r.qualifier), t, Ghost(*self), Ghost(s + prefix.map_values(f)));
                        proof {
                            let np = related_entries(*self, own, rels.take(k + 1));
                            assert(np == prefix.push((r.object_id, r.qualifier)));
                            assert(np.map_values(f) =~= prefix.map_values(f).push((r.object_id.0, self.text(r.qualifier))));
                            assert(s + np.map_values(f) =~= (s + prefix.map_values(f)).push((r.object_id.0, self.text(r.qualifier))));
                            assert(np.map_values(g) =~= prefix.map_values(g).push(related_json(*self, (r.object_id, r.qualifier))));
                            assert(items_model(old(items)@) + np.map_values(g)
                                =~= (items_model(old(items)@) + prefix.map_values(g)).push(related_json(*self, (r.object_id, r.qualifier))));
                        }
                    },
                    None => {},
                }
            }
            k = k + 1;
        }
        proof {
            assert(rels.take(rels.len() as int) =~= rels);
        }
    }

    /// Appends the stock readings of event `ei` as JSON items.
    fn add_event_stock(&self, ei: usize, items: &mut Vec<JsonValue>)
        requires
            self.wf(),
            ei < self.events@.len(),
        ensures
            items_model(final(items)@) == items_model(old(items)@) + event_stock(*self, self.events@[ei as int]),
    {
        let e = &self.events[ei];
        proof {
            assert(crate::model::event_ok(self.pool@.len(), *e));
            reveal_strlit("stock");
            assert(items_model(items@) + stock_upto(*self, *e, 0) =~= items_model(items@));
        }
        let mut k: usize = 0;
        while k < e.attributes.len()
            invariant
                self.wf(),
                ei < self.events@.len(),
                *e == self.events@[ei as int],
                crate::model::event_ok(self.pool@.len(), *e),
                crate::model::attributes_ok(self.pool@.len(), e.attributes@),
                "stock"@ == seq!['s', 't', 'o', 'c', 'k'],
                k <= e.attributes@.len(),
                items_model(items@) == items_model(old(items)@) + stock_upto(*self, *e, k as int),
            decreases e.attributes.len() - k,
        {
            let a = e.attributes[k];
            proof {
                assert(crate::model::sym_ok(self.pool@.len(), a.name) && crate::model::value_ok(self.pool@.len(), a.value));
            }
            let name = self.pool.resolve(a.name);
            let lower = lower_text(name);
            let numeric: Option<String> = match a.value {
                AttrValue::Integer(i) => Some(int_to_text(i)),
                AttrValue::Float(sym) => Some(owned(self.pool.resolve(sym))),
                _ => None,
            };
            if text_contains(lower.as_str(), "stock") {
                match numeric {
                    Some(v) => {
                        let mut members: Vec<(String, JsonValue)> = Vec::new();
                        add_member(&mut members, "name", text_value(name));
                        add_member(&mut members, "time_ms", JsonValue::Int(e.time_ms));
                        add_member(&mut members, "value", JsonValue::Float(v));
                        add_member(&mut members, "event_id", text_value(self.pool.resolve(e.id)));
                        let item = object(members);
                        proof {
                            reveal_strlit("name");
                            reveal_strlit("time_ms");
                            reveal_strlit("value");
                            reveal_strlit("event_id");
                            assert(members_model(members@) =~= stock_json(*self, *e, a)->Object_0);
                        }
                        let ghost before = items_model(items@);
                        add_item(items, item);
                        proof {
                            assert(items_model(old(items)@) + stock_upto(*self, *e, k + 1)
                                =~= (items_model(old(items)@) + stock_upto(*self, *e, k as int)).push(stock_json(*self, *e, a)));
                        }
                    },
                    None => {},
                }
            }
            k = k + 1;
        }
    }
}

/// The states of the events of a lifecycle under the state attribute.
pub open spec fn lifecycle_states(log: CompactOcelLog, lc: Seq<usize>, st: Option<Symbol>) -> Seq<Option<Seq<char>>> {
    lc.map_values(|ei: usize| match st {
        Some(s) => event_state_of(log, log.events@[ei as int], s),
        None => None,
    })
}

/// JSON of a band of equal states in a lifecycle.
pub open spec fn band_json(log: CompactOcelLog, lc: Seq<usize>, b: (Seq<char>, int, int)) -> Json {
    let first = log.events@[lc[b.1] as int];
    let last = log.events@[lc[b.2] as int];
    Json::Object(seq![
        ("state"@, Json::Str(b.0)),
        ("start_time_ms"@, Json::Int(first.time_ms as int)),
        ("end_time_ms"@, Json::Int(last.time_ms as int)),
        ("event_count"@, Json::Int(b.2 - b.1 + 1)),
        ("start_event_id"@, Json::Str(log.text(first.id))),
        ("end_event_id"@, Json::Str(log.text(last.id))),
    ])
}

/// The stock readings of the events at the first `k` lifecycle positions.
pub open spec fn lifecycle_stock(log: CompactOcelLog, lc: Seq<usize>, k: int) -> Seq<Json>
    decreases k,
{
    if k <= 0 {
        Seq::empty()
    } else {
        lifecycle_stock(log, lc, k - 1) + event_stock(log, log.events@[lc[k - 1] as int])
    }
}

/// JSON of a related object with how often it was related under a
/// qualifier.
pub open spec fn summary_item(log: CompactOcelLog, k: (usize, Seq<char>), s: Seq<(usize, Seq<char>)>) -> Json {
    Json::Object(seq![
        ("object_id"@, Json::Str(log.pool@[k.0 as int])),
        ("object_type"@, Json::Str(type_of_id(log, Symbol(k.0))->0)),
        ("qualifier"@, Json::Str(k.1)),
        ("event_count"@, Json::Int(clamp_usize(occurrences(s, k)) as int)),
    ])
}

/// `ks` lists the distinct keys of `s` in increasing order.
pub open spec fn keys_listed(ks: Seq<(usize, Seq<char>)>, s: Seq<(usize, Seq<char>)>) -> bool {
    &&& forall|i: int, j: int| 0 <= i < j < ks.len() ==> key_less(#[trigger] ks[i], #[trigger] ks[j])
    &&& forall|i: int| 0 <= i < ks.len() ==> s.contains(#[trigger] ks[i])
    &&& forall|x: (usize, Seq<char>)| #[trigger] s.contains(x) ==> ks.contains(x)
}

/// The event details of the lifecycle of the object at `o`.
pub open spec fn detail_events(log: CompactOcelLog, o: int) -> Result<Seq<Json>, Seq<char>> {
    let ob = log.objects@[o];
    let lc = ob.lifecycle@;
    collect(Seq::new(lc.len(), |i: int| event_detail(log, ob.id, log.events@[lc[i] as int], symbol_of(log, "state"@))))
}

/// `j` is the lifecycle detail of the object at `o`: its id and type, the
/// number and time range of its events, each event with its state,
/// attributes and related objects, the bands of equal states, the stock
/// readings and the related objects counted by object and qualifier.
pub open spec fn detail_ok(log: CompactOcelLog, o: int, j: Json) -> bool {
    let ob = log.objects@[o];
    let lc = ob.lifecycle@;
    let s = related_stream(log, ob.id, lc, lc.len() as int);
    &&& detail_events(log, o) is Ok
    &&& exists|ks: Seq<(usize, Seq<char>)>| #[trigger] keys_listed(ks, s) && j == Json::Object(seq![
        ("object_id"@, Json::Str(log.text(ob.id))),
        ("object_type"@, Json::Str(log.text(ob.type_symbol))),
        ("event_count"@, Json::Int(lc.len() as int)),
        ("event_min_ms"@, if lc.len() == 0 { Json::Null } else { Json::Int(log.events@[lc[0] as int].time_ms as int) }),
        ("event_max_ms"@, if lc.len() == 0 { Json::Null } else { Json::Int(log.events@[lc.last() as int].time_ms as int) }),
        ("events"@, Json::Array(detail_events(log, o)->Ok_0)),
        ("state_bands"@, Json::Array(bands(lifecycle_states(log, lc, symbol_of(log, "state"@))).map_values(
            |b: (Seq<char>, int, int)| band_json(log, lc, b),
        ))),
        ("stock_points"@, Json::Array(lifecycle_stock(log, lc, lc.len() as int))),
        ("related_objects"@, Json::Array(ks.map_values(|k: (usize, Seq<char>)| summary_item(log, k, s)))),
    ])
}

/// What the events of a lifecycle give: their details, states, stock
/// readings and related-object counts.
pub struct LifecycleParts {
    pub events: Vec<JsonValue>,
    pub states: Vec<Option<String>>,
    pub stock: Vec<JsonValue>,
    pub related: Vec<RelatedCount>,
}

impl CompactOcelLog {
    /// Goes through the lifecycle of the object at `o`.
    #[verifier::rlimit(60)]
    fn lifecycle_parts(&self, o: usize) -> (r: Result<LifecycleParts, OcelError>)
        requires
            self.wf(),
            o < self.objects@.len(),
        ensures
            match r {
                Ok(p) => {
                    let ob = self.objects@[o as int];
                    let lc = ob.lifecycle@;
                    &&& detail_events(*self, o as int) == Ok::<Seq<Json>, Seq<char>>(items_model(p.events@))
                    &&& options_view(p.states@) == lifecycle_states(*self, lc, symbol_of(*self, "state"@))
                    &&& items_model(p.stock@) == lifecycle_stock(*self, lc, lc.len() as int)
                    &&& related_counted(*self, p.related@, related_stream(*self, ob.id, lc, lc.len() as int))
                },
                Err(e) => detail_events(*self, o as int) == Err::<Seq<Json>, Seq<char>>(e.message@),
            },
    {
        let ob = &self.objects[o];
        let lc = &ob.lifecycle;
        let own = ob.id;
        proof { reveal_strlit("state"); }
        let st = self.symbol_for_value("state");
        let ghost sts = symbol_of(*self, "state"@);
        let ghost rs = Seq::new(lc@.len(), |i: int| event_detail(*self, own, self.events@[lc@[i] as int], sts));
        let mut events: Vec<JsonValue> = Vec::new();
        let mut states: Vec<Option<String>> = Vec::new();
        let mut stock: Vec<JsonValue> = Vec::new();
        let mut related: Vec<RelatedCount> = Vec::new();
        proof {
            assert(crate::model::object_ok(self.pool@.len(), self.events@.len(), *ob));
            assert(rs.take(0) =~= Seq::<Result<Json, Seq<char>>>::empty());
            assert(items_model(events@) =~= Seq::<Json>::empty());
            assert(options_view(states@) =~= lifecycle_states(*self, lc@, sts).take(0));
            assert(items_model(stock@) =~= Seq::<Json>::empty());
            assert(related_stream(*self, own, lc@, 0) =~= Seq::<(usize, Seq<char>)>::empty());
        }
        let mut p: usize = 0;
        while p < lc.len()
            invariant
                self.wf(),
                o < self.objects@.len(),
                *ob == self.objects@[o as int],
                *lc == ob.lifecycle,
                own == ob.id,
                st == sts,
                sts == symbol_of(*self, "state"@),
                forall|k: int| 0 <= k < lc@.len() ==> #[trigger] lc@[k] < self.events@.len(),
                rs == Seq::new(lc@.len(), |i: int| event_detail(*self, own, self.events@[lc@[i] as int], sts)),
                p <= lc@.len(),
                collect(rs.take(p as int)) == Ok::<Seq<Json>, Seq<char>>(items_model(events@)),
                options_view(states@) == lifecycle_states(*self, lc@, sts).take(p as int),
                items_model(stock@) == lifecycle_stock(*self, lc@, p as int),
                related_counted(*self, related@, related_stream(*self, own, lc@, p as int)),
            decreases lc.len() - p,
        {
            proof { crate::json::lemma_collect_step(rs, p as int); }
            let ei = lc[p];
            let e = &self.events[ei];
            proof { assert(crate::model::event_ok(self.pool@.len(), *e)); }
            let attrs = match self.attributes_to_json(&e.attributes) {
                Ok(a) => a,
                Err(err) => {
                    proof { crate::json::lemma_collect_stuck(rs, p + 1); }
                    return Err(err);
                },
            };
            let state: Option<String> = match st {
                Some(sym) => match self.event_state(ei, sym) {
                    Some(t) => Some(owned(t)),
                    None => None,
                },
                None => None,
            };
            let state_value = match &state {
                Some(t) => text_value(t.as_str()),
                None => JsonValue::Null,
            };
            let mut rel_items: Vec<JsonValue> = Vec::new();
            let ghost before_stream = related_stream(*self, own, lc@, p as int);
            self.add_event_related(own, ei, &mut rel_items, &mut related, Ghost(before_stream));
            self.add_event_stock(ei, &mut stock);
            let mut members: Vec<(String, JsonValue)> = Vec::new();
            add_member(&mut members, "event_id", text_value(self.pool.resolve(e.id)));
            add_member(&mut members, "event_type", text_value(self.pool.resolve(e.type_symbol)));
            add_member(&mut members, "time_ms", JsonValue::Int(e.time_ms));
            add_member(&mut members, "state", state_value);
            add_member(&mut members, "attributes", attrs);
            add_member(&mut members, "related_objects", array(rel_items));
            let item = object(members);
            proof {
                reveal_strlit("event_id");
                reveal_strlit("event_type");
                reveal_strlit("time_ms");
                reveal_strlit("state");
                reveal_strlit("attributes");
                reveal_strlit("related_objects");
                assert(items_model(Seq::<JsonValue>::empty()) =~= Seq::<Json>::empty());
                assert(Seq::<Json>::empty() + event_related_json(*self, own, *e) =~= event_related_json(*self, own, *e));
                assert(rs[p as int] == event_detail(*self, own, *e, sts));
                assert(item.model() == event_detail(*self, own, *e, sts)->Ok_0) by {
                    assert(members_model(members@) =~= event_detail(*self, own, *e, sts)->Ok_0->Object_0);
                }
            }
            add_item(&mut events, item);
            let ghost old_states = states@;
            states.push(state);
            proof {
                let want = lifecycle_states(*self, lc@, sts);
                assert(want[p as int] == match state { Some(t) => Some(t@), None => None::<Seq<char>> });
                assert(options_view(states@) =~= options_view(old_states).push(want[p as int]));
                assert(want.take(p + 1) =~= want.take(p as int).push(want[p as int]));
                assert(related_stream(*self, own, lc@, p + 1) == before_stream + related_entries(*self, own, e.relationships@).map_values(
                    |x: (Symbol, Symbol)| (x.0.0, self.text(x.1)),
                ));
            }
            p = p + 1;
        }
        proof {
            assert(rs.take(lc@.len() as int) =~= rs);
            assert(lifecycle_states(*self, lc@, sts).take(lc@.len() as int) =~= lifecycle_states(*self, lc@, sts));
        }
        Ok(LifecycleParts { events, states, stock, related })
    }
}

impl CompactOcelLog {
    /// Events, state bands, stock readings and related objects of the
    /// object with the given id.
    pub fn object_lifecycle_detail_json(&self, object_id: &str) -> (r: Result<JsonValue, OcelError>)
        requires
            self.wf(),
        ensures
            match r {
                Ok(j) => exists|o: int| 0 <= o < self.objects@.len() && self.text(self.objects@[o].id) == object_id@
                    && #[trigger] detail_ok(*self, o, j.model()),
                Err(e) => {
                    ||| (forall|o: int| 0 <= o < self.objects@.len() ==> self.text(self.objects@[o].id) != object_id@)
                        && e.message@ == "object id '"@ + object_id@ + "' was not found in the active log"@
                    ||| exists|o: int| 0 <= o < self.objects@.len() && self.text(self.objects@[o].id) == object_id@
                        && #[trigger] detail_events(*self, o) == Err::<Seq<Json>, Seq<char>>(e.message@)
                },
            },
    {
        let o = match self.find_object(object_id) {
            Some(o) => o,
            None => {
                proof {
                    reveal_strlit("object id '");
                    reveal_strlit("' was not found in the active log");
                }
                let mut m = owned("object id '");
                push_text(&mut m, object_id);
                push_text(&mut m, "' was not found in the active log");
                return Err(OcelError::new(m));
            },
        };
        let parts = self.lifecycle_parts(o)?;
        let ob = &self.objects[o];
        let lc = &ob.lifecycle;
        let ghost sts = symbol_of(*self, "state"@);
        let ghost s = related_stream(*self, ob.id, lc@, lc@.len() as int);
        proof {
            assert(crate::model::object_ok(self.pool@.len(), self.events@.len(), *ob));
        }
        let bands_found = lifecycle_state_bands(&parts.states);
        let mut band_items: Vec<JsonValue> = Vec::new();
        let ghost bs = bands(lifecycle_states(*self, lc@, sts));
        let mut k: usize = 0;
        while k < bands_found.len()
            invariant
                self.wf(),
                o < self.objects@.len(),
                *ob == self.objects@[o as int],
                *lc == ob.lifecycle,
                forall|x: int| 0 <= x < lc@.len() ==> #[trigger] lc@[x] < self.events@.len(),
                bands_view(bands_found@) == bs,
                bs == bands(lifecycle_states(*self, lc@, sts)),
                options_view(parts.states@) == lifecycle_states(*self, lc@, sts),
                forall|x: int| 0 <= x < bands_found@.len() ==> 0 <= #[trigger] bands_found@[x].start <= bands_found@[x].end < parts.states@.len(),
                k <= bands_found@.len(),
                items_model(band_items@) == bs.take(k as int).map_values(|b: (Seq<char>, int, int)| band_json(*self, lc@, b)),
            decreases bands_found.len() - k,
        {
            let b = &bands_found[k];
            proof {
                assert(0 <= bands_found@[k as int].start <= bands_found@[k as int].end < parts.states@.len());
                assert(parts.states.len() == parts.states@.len());
                assert(parts.states@.len() == lc@.len()) by {
                    assert(options_view(parts.states@).len() == lifecycle_states(*self, lc@, sts).len());
                }
                assert(bs[k as int] == (b.state@, b.start as int, b.end as int));
            }
            let first = &self.events[lc[b.start]];
            let last = &self.events[lc[b.end]];
            proof {
                assert(crate::model::event_ok(self.pool@.len(), *first));
                assert(crate::model::event_ok(self.pool@.len(), *last));
            }
            let mut members: Vec<(String, JsonValue)> = Vec::new();
            add_member(&mut members, "state", text_value(b.state.as_str()));
            add_member(&mut members, "start_time_ms", JsonValue::Int(first.time_ms));
            add_member(&mut members, "end_time_ms", JsonValue::Int(last.time_ms));
            add_member(&mut members, "event_count", JsonValue::Count(b.end - b.start + 1));
            add_member(&mut members, "start_event_id", text_value(self.pool.resolve(first.id)));
            add_member(&mut members, "end_event_id", text_value(self.pool.resolve(last.id)));
            let item = object(members);
            proof {
                reveal_strlit("state");
                reveal_strlit("start_time_ms");
                reveal_strlit("end_time_ms");
                reveal_strlit("event_count");
                reveal_strlit("start_event_id");
                reveal_strlit("end_event_id");
                assert(members_model(members@) =~= band_json(*self, lc@, bs[k as int])->Object_0);
            }
            let ghost before = items_model(band_items@);
            add_item(&mut band_items, item);
            proof {
                assert(bs.take(k + 1).map_values(|b: (Seq<char>, int, int)| band_json(*self, lc@, b))
                    =~= bs.take(k as int).map_values(|b: (Seq<char>, int, int)| band_json(*self, lc@, b)).push(band_json(*self, lc@, bs[k as int])));
            }
            k = k + 1;
        }
        proof {
            assert(bs.take(bs.len() as int) =~= bs);
        }
        let cs = &parts.related;
        let mut related_items: Vec<JsonValue> = Vec::new();
        let mut j: usize = 0;
        while j < cs.len()
            invariant
                self.wf(),
                related_counted(*self, cs@, s),
                j <= cs@.len(),
                items_model(related_items@) == cs@.take(j as int).map_values(|c: RelatedCount| summary_item(*self, c.key(), s)),
            decreases cs.len() - j,
        {
            let c = &cs[j];
            proof {
                assert(type_of_id(*self, c.object_id) is Some);
                let x = choose|x: int| 0 <= x < self.objects@.len() && self.objects@[x].id == c.object_id;
                assert(crate::model::object_ok(self.pool@.len(), self.events@.len(), self.objects@[x]));
            }
            let mut members: Vec<(String, JsonValue)> = Vec::new();
            add_member(&mut members, "object_id", text_value(self.pool.resolve(c.object_id)));
            add_member(&mut members, "object_type", text_value(c.object_type.as_str()));
            add_member(&mut members, "qualifier", text_value(c.qualifier.as_str()));
            add_member(&mut members, "event_count", JsonValue::Count(c.event_count));
            let item = object(members);
            proof {
                reveal_strlit("object_id");
                reveal_strlit("object_type");
                reveal_strlit("qualifier");
                reveal_strlit("event_count");
                assert(Symbol(c.key().0) == c.object_id);
                assert(members_model(members@) =~= summary_item(*self, c.key(), s)->Object_0);
            }
            add_item(&mut related_items, item);
            proof {
                assert(cs@.take(j + 1).map_values(|c: RelatedCount| summary_item(*self, c.key(), s))
                    =~= cs@.take(j as int).map_values(|c: RelatedCount| summary_item(*self, c.key(), s)).push(summary_item(*self, c.key(), s)));
            }
            j = j + 1;
        }
        let n = lc.len();
        let min_value = if n == 0 {
            JsonValue::Null
        } else {
            JsonValue::Int(self.events[lc[0]].time_ms)
        };
        let max_value = if n == 0 {
            JsonValue::Null
        } else {
            JsonValue::Int(self.events[lc[n - 1]].time_ms)
        };
        let mut members: Vec<(String, JsonValue)> = Vec::new();
        add_member(&mut members, "object_id", text_value(self.pool.resolve(ob.id)));
        add_member(&mut members, "object_type", text_value(self.pool.resolve(ob.type_symbol)));
        add_member(&mut members, "event_count", JsonValue::Count(n));
        add_member(&mut members, "event_min_ms", min_value);
        add_member(&mut members, "event_max_ms", max_value);
        add_member(&mut members, "events", array(parts.events));
        add_member(&mut members, "state_bands", array(band_items));
        add_member(&mut members, "stock_points", array(parts.stock));
        add_member(&mut members, "related_objects", array(related_items));
        let result = object(members);
        proof {
            reveal_strlit("object_id");
            reveal_strlit("object_type");
            reveal_strlit("event_count");
            reveal_strlit("event_min_ms");
            reveal_strlit("event_max_ms");
            reveal_strlit("events");
            reveal_strlit("state_bands");
            reveal_strlit("stock_points");
            reveal_strlit("related_objects");
            let ks = cs@.map_values(|c: RelatedCount| c.key());
            assert(cs@.take(cs@.len() as int) =~= cs@);
            assert(keys_listed(ks, s)) by {
                assert forall|x: (usize, Seq<char>)| #[trigger] s.contains(x) implies ks.contains(x) by {
                    let i = choose|i: int| 0 <= i < s.len() && s[i] == x;
                    assert(has_key(cs@, s[i]));
                    let jj = choose|jj: int| 0 <= jj < cs@.len() && #[trigger] cs@[jj].key() == s[i];
                    assert(ks[jj] == x);
                }
            }
            assert(ks.map_values(|k: (usize, Seq<char>)| summary_item(*self, k, s))
                =~= cs@.map_values(|c: RelatedCount| summary_item(*self, c.key(), s)));
            let lcv = lc@;
            let want = Json::Object(seq![
                ("object_id"@, Json::Str(self.text(ob.id))),
                ("object_type"@, Json::Str(self.text(ob.type_symbol))),
                ("event_count"@, Json::Int(lcv.len() as int)),
                ("event_min_ms"@, if lcv.len() == 0 { Json::Null } else { Json::Int(self.events@[lcv[0] as int].time_ms as int) }),
                ("event_max_ms"@, if lcv.len() == 0 { Json::Null } else { Json::Int(self.events@[lcv.last() as int].time_ms as int) }),
                ("events"@, Json::Array(detail_events(*self, o as int)->Ok_0)),
                ("state_bands"@, Json::Array(bands(lifecycle_states(*self, lcv, sts)).map_values(
                    |b: (Seq<char>, int, int)| band_json(*self, lcv, b),
                ))),
                ("stock_points"@, Json::Array(lifecycle_stock(*self, lcv, lcv.len() as int))),
                ("related_objects"@, Json::Array(ks.map_values(|k: (usize, Seq<char>)| summary_item(*self, k, s)))),
            ]);
            assert(members_model(members@) =~= want->Object_0);
            assert(result.model() == want);
            assert(detail_ok(*self, o as int, result.model()));
        }
        Ok(result)
    }
}
} // verus!
