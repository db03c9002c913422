use vstd::prelude::*;
use crate::error::OcelError;
use crate::pool::{StringPool, Symbol};
use crate::model::{
    CompactOcelLog, Event, Object, Attribute, AttrValue, AttrType, AttributeDef, TypeDef,
    object_index_ok, sym_ok, type_def_ok, event_ok, object_ok, attributes_ok,
};
use crate::json::{JsonValue, Json, member, object};
use crate::text::{owned, push_text, str_eq};
use crate::counting::{count_where, sum_of, clamp_usize, lemma_count_bound};

verus! {

/// The event has an attribute whose name is `name`.
pub open spec fn event_has_attr(log: CompactOcelLog, e: Event, name: Seq<char>) -> bool {
    exists|k: int| 0 <= k < e.attributes@.len() && log.text(e.attributes@[k].name) == name
}

/// Number of events that carry an attribute named `name`.
pub open spec fn events_with_attr(log: CompactOcelLog, name: Seq<char>) -> nat {
    count_where(log.events@.len() as int, |i: int| event_has_attr(log, log.events@[i], name))
}

pub open spec fn e2o_count(log: CompactOcelLog) -> nat {
    sum_of(log.events@.len() as int, |i: int| log.events@[i].relationships@.len())
}

pub open spec fn o2o_count(log: CompactOcelLog) -> nat {
    sum_of(log.objects@.len() as int, |i: int| log.objects@[i].relationships@.len())
}

pub open spec fn objects_with_lifecycle(log: CompactOcelLog) -> nat {
    count_where(log.objects@.len() as int, |i: int| log.objects@[i].lifecycle@.len() > 0)
}

/// The state of an event: the text of its first string attribute named by
/// `state` (attributes named `state` with other value types are skipped).
pub open spec fn event_state_of(log: CompactOcelLog, e: Event, state: Symbol) -> Option<Seq<char>> {
    if exists|k: int| 0 <= k < e.attributes@.len() && e.attributes@[k].name == state && e.attributes@[k].value is String {
        let k = choose|k: int| 0 <= k < e.attributes@.len() && e.attributes@[k].name == state
            && e.attributes@[k].value is String
            && forall|m: int| 0 <= m < k ==> !(e.attributes@[m].name == state && e.attributes@[m].value is String);
        Some(log.text(e.attributes@[k].value->String_0))
    } else {
        None
    }
}

/// Counts produced by `summary_json`, as a JSON object.
pub open spec fn summary_model(log: CompactOcelLog) -> Json {
    Json::Object(seq![
        ("source_format"@, Json::Str(log.format.name())),
        ("event_types"@, Json::Int(log.event_types@.len() as int)),
        ("object_types"@, Json::Int(log.object_types@.len() as int)),
        ("events"@, Json::Int(log.events@.len() as int)),
        ("objects"@, Json::Int(log.objects@.len() as int)),
        ("e2o_relationships"@, Json::Int(clamp_usize(e2o_count(log)) as int)),
        ("o2o_relationships"@, Json::Int(clamp_usize(o2o_count(log)) as int)),
        ("interned_strings"@, Json::Int(log.pool@.len() as int)),
        ("objects_with_lifecycle"@, Json::Int(objects_with_lifecycle(log) as int)),
        ("stateful_events"@, Json::Int(events_with_attr(log, "state"@) as int)),
    ])
}

/// The symbol of an interned text.
pub open spec fn symbol_of(log: CompactOcelLog, t: Seq<char>) -> Option<Symbol> {
    if log.pool@.contains(t) {
        Some(Symbol((choose|i: int| 0 <= i < log.pool@.len() && log.pool@[i] == t) as usize))
    } else {
        None
    }
}

impl CompactOcelLog {
    /// Symbol of an already interned string.
    pub fn symbol_for_value(&self, value: &str) -> (r: Option<Symbol>)
        requires
            self.wf(),
        ensures
            r == symbol_of(*self, value@),
            match r {
                Some(s) => s.0 < self.pool@.len() && self.text(s) == value@,
                None => !self.pool@.contains(value@),
            },
    {
        let r = self.pool.lookup(value);
        proof {
            if let Some(s) = r {
                self.pool.lemma_wf_distinct();
                assert(self.pool@[s.0 as int] == value@);
                let i = choose|i: int| 0 <= i < self.pool@.len() && self.pool@[i] == value@;
                assert(i == s.0 as int);
            }
        }
        r
    }

    /// Number of events that carry an attribute named `attribute_name`.
    pub fn count_events_with_attribute(&self, attribute_name: &str) -> (n: usize)
        requires
            self.wf(),
        ensures
            n == events_with_attr(*self, attribute_name@),
    {
        let ghost p = |i: int| event_has_attr(*self, self.events@[i], attribute_name@);
        let sym = self.pool.lookup(attribute_name);
        let mut n: usize = 0;
        let mut i: usize = 0;
        while i < self.events.len()
            invariant
                self.wf(),
                i <= self.events@.len(),
                n == count_where(i as int, p),
                p == |i: int| event_has_attr(*self, self.events@[i], attribute_name@),
                match sym {
                    Some(s) => s.0 < self.pool@.len() && self.text(s) == attribute_name@,
                    None => !self.pool@.contains(attribute_name@),
                },
            decreases self.events.len() - i,
        {
            proof { lemma_count_bound(i as int, p); }
            let mut found = false;
            if let Some(s) = sym {
                let attrs = &self.events[i].attributes;
                let mut k: usize = 0;
                while k < attrs.len()
                    invariant
                        self.wf(),
                        i < self.events@.len(),
                        attrs@ == self.events@[i as int].attributes@,
                        k <= attrs@.len(),
                        s.0 < self.pool@.len() && self.text(s) == attribute_name@,
                        found == exists|m: int| 0 <= m < k && self.text(attrs@[m].name) == attribute_name@,
                    decreases attrs.len() - k,
                {
                    proof {
                        assert(event_ok(self.pool@.len(), self.events@[i as int]));
                        assert(sym_ok(self.pool@.len(), attrs@[k as int].name));
                        self.pool.lemma_wf_distinct();
                        if attrs@[k as int].name != s {
                            assert(self.pool@[attrs@[k as int].name.0 as int] != self.pool@[s.0 as int]);
                        }
                    }
                    if attrs[k].name == s {
                        found = true;
                    }
                    k = k + 1;
                }
            } else {
                proof {
                    assert(event_ok(self.pool@.len(), self.events@[i as int]));
                    assert forall|m: int| 0 <= m < self.events@[i as int].attributes@.len() implies self.text(self.events@[i as int].attributes@[m].name) != attribute_name@ by {
                        assert(sym_ok(self.pool@.len(), self.events@[i as int].attributes@[m].name));
                    }
                }
            }
            assert(found == p(i as int));
            if found {
                n = n + 1;
            }
            i = i + 1;
        }
        n
    }

    /// Summary counts of the log.
    pub fn summary_json(&self) -> (j: JsonValue)
        requires
            self.wf(),
        ensures
            j.model() == summary_model(*self),
    {
        let ghost fe = |i: int| self.events@[i].relationships@.len();
        let mut e2o: usize = 0;
        let mut i: usize = 0;
        while i < self.events.len()
            invariant
                i <= self.events@.len(),
                e2o == clamp_usize(sum_of(i as int, fe)),
                fe == |i: int| self.events@[i].relationships@.len(),
            decreases self.events.len() - i,
        {
            e2o = e2o.saturating_add(self.events[i].relationships.len());
            i = i + 1;
        }
        let ghost fo = |i: int| self.objects@[i].relationships@.len();
        let ghost pl = |i: int| self.objects@[i].lifecycle@.len() > 0;
        let mut o2o: usize = 0;
        let mut with_lifecycle: usize = 0;
        let mut i: usize = 0;
        while i < self.objects.len()
            invariant
                i <= self.objects@.len(),
                o2o == clamp_usize(sum_of(i as int, fo)),
                with_lifecycle == count_where(i as int, pl),
                fo == |i: int| self.objects@[i].relationships@.len(),
                pl == |i: int| self.objects@[i].lifecycle@.len() > 0,
            decreases self.objects.len() - i,
        {
            proof { lemma_count_bound(i as int, pl); }
            o2o = o2o.saturating_add(self.objects[i].relationships.len());
            if self.objects[i].lifecycle.len() > 0 {
                with_lifecycle = with_lifecycle + 1;
            }
            i = i + 1;
        }
        proof { reveal_strlit("state"); }
        let stateful = self.count_events_with_attribute("state");
        let mut members: Vec<(String, JsonValue)> = Vec::new();
        members.push(member("source_format", JsonValue::Str(owned(self.format.as_str()))));
        members.push(member("event_types", JsonValue::Count(self.event_types.len())));
        members.push(member("object_types", JsonValue::Count(self.object_types.len())));
        members.push(member("events", JsonValue::Count(self.events.len())));
        members.push(member("objects", JsonValue::Count(self.objects.len())));
        members.push(member("e2o_relationships", JsonValue::Count(e2o)));
        members.push(member("o2o_relationships", JsonValue::Count(o2o)));
        members.push(member("interned_strings", JsonValue::Count(self.pool.len())));
        members.push(member("objects_with_lifecycle", JsonValue::Count(with_lifecycle)));
        members.push(member("stateful_events", JsonValue::Count(stateful)));
        let j = object(members);
        proof {
            reveal_strlit("source_format");
            reveal_strlit("event_types");
            reveal_strlit("object_types");
            reveal_strlit("events");
            reveal_strlit("objects");
            reveal_strlit("e2o_relationships");
            reveal_strlit("o2o_relationships");
            reveal_strlit("interned_strings");
            reveal_strlit("objects_with_lifecycle");
            reveal_strlit("stateful_events");
            reveal_with_fuel(JsonValue::model, 2);
            let ms = j.model()->Object_0;
            let want = summary_model(*self)->Object_0;
            assert(ms.len() == want.len());
            assert forall|k: int| 0 <= k < ms.len() implies ms[k] == want[k] by {
                assert(members@[k].1.model() == want[k].1);
            }
            assert(ms =~= want);
        }
        j
    }
}


/// Some object type of the log is named `t`.
pub open spec fn has_object_type(log: CompactOcelLog, t: Seq<char>) -> bool {
    exists|k: int| 0 <= k < log.object_types@.len() && log.text(log.object_types@[k].name) == t
}

/// The lifecycle entries that carry a state, with their state texts.
pub open spec fn stateful_seq(log: CompactOcelLog, lc: Seq<usize>, state: Symbol) -> Seq<(usize, Seq<char>)>
    decreases lc.len(),
{
    if lc.len() == 0 {
        Seq::empty()
    } else {
        let rest = stateful_seq(log, lc.drop_last(), state);
        match event_state_of(log, log.events@[lc.last() as int], state) {
            Some(st) => rest.push((lc.last(), st)),
            None => rest,
        }
    }
}

pub open spec fn pairs_view(v: Seq<(usize, String)>) -> Seq<(usize, Seq<char>)> {
    v.map_values(|p: (usize, String)| (p.0, p.1@))
}

impl CompactOcelLog {
    /// Symbol of the object type named `object_type`.
    pub fn object_type_symbol(&self, object_type: &str) -> (r: Option<Symbol>)
        requires
            self.wf(),
        ensures
            match r {
                Some(s) => s.0 < self.pool@.len() && self.text(s) == object_type@ && has_object_type(*self, object_type@),
                None => !has_object_type(*self, object_type@),
            },
    {
        let mut k: usize = 0;
        while k < self.object_types.len()
            invariant
                self.wf(),
                k <= self.object_types@.len(),
                forall|x: int| 0 <= x < k ==> self.text(self.object_types@[x].name) != object_type@,
            decreases self.object_types.len() - k,
        {
            let name = self.object_types[k].name;
            proof { assert(type_def_ok(self.pool@.len(), self.object_types@[k as int])); }
            if str_eq(self.pool.resolve(name), object_type) {
                return Some(name);
            }
            k = k + 1;
        }
        None
    }

    /// State of an event under the state attribute `state`.
    pub fn event_state(&self, event_index: usize, state: Symbol) -> (r: Option<&str>)
        requires
            self.wf(),
            event_index < self.events@.len(),
        ensures
            match r {
                Some(t) => event_state_of(*self, self.events@[event_index as int], state) == Some(t@),
                None => event_state_of(*self, self.events@[event_index as int], state) is None,
            },
    {
        let e = &self.events[event_index];
        let mut k: usize = 0;
        while k < e.attributes.len()
            invariant
                self.wf(),
                event_index < self.events@.len(),
                *e == self.events@[event_index as int],
                k <= e.attributes@.len(),
                forall|m: int| 0 <= m < k ==> !(e.attributes@[m].name == state && e.attributes@[m].value is String),
            decreases e.attributes.len() - k,
        {
            let a = e.attributes[k];
            if a.name == state {
                if let AttrValue::String(v) = a.value {
                    proof {
                        assert(event_ok(self.pool@.len(), *e));
                        assert(crate::model::value_ok(self.pool@.len(), e.attributes@[k as int].value));
                        let kk = choose|kk: int| 0 <= kk < e.attributes@.len() && e.attributes@[kk].name == state
                            && e.attributes@[kk].value is String
                            && forall|m: int| 0 <= m < kk ==> !(e.attributes@[m].name == state && e.attributes@[m].value is String);
                        assert(kk == k) by {
                            if kk < k {}
                            if kk > k {
                                assert(!(e.attributes@[k as int].name == state && e.attributes@[k as int].value is String));
                            }
                        }
                    }
                    return Some(self.pool.resolve(v));
                }
            }
            k = k + 1;
        }
        None
    }

    /// Lifecycle entries of an object that carry a state, with their states.
    pub fn stateful_lifecycle(&self, object_index: usize, state: Symbol) -> (r: Vec<(usize, String)>)
        requires
            self.wf(),
            object_index < self.objects@.len(),
        ensures
            pairs_view(r@) == stateful_seq(*self, self.objects@[object_index as int].lifecycle@, state),
            forall|k: int| 0 <= k < r@.len() ==> #[trigger] r@[k].0 < self.events@.len(),
    {
        let lc = &self.objects[object_index].lifecycle;
        let mut out: Vec<(usize, String)> = Vec::new();
        let mut k: usize = 0;
        while k < lc.len()
            invariant
                self.wf(),
                object_index < self.objects@.len(),
                lc@ == self.objects@[object_index as int].lifecycle@,
                k <= lc@.len(),
                pairs_view(out@) == stateful_seq(*self, lc@.take(k as int), state),
                forall|x: int| 0 <= x < out@.len() ==> #[trigger] out@[x].0 < self.events@.len(),
            decreases lc.len() - k,
        {
            let ei = lc[k];
            proof {
                assert(object_ok(self.pool@.len(), self.events@.len(), self.objects@[object_index as int]));
                assert(lc@.take(k + 1).drop_last() =~= lc@.take(k as int));
            }
            match self.event_state(ei, state) {
                Some(st) => {
                    out.push((ei, owned(st)));
                    assert(pairs_view(out@) =~= stateful_seq(*self, lc@.take(k + 1), state));
                },
                None => {},
            }
            k = k + 1;
        }
        assert(lc@.take(lc@.len() as int) =~= lc@);
        out
    }

    /// Position of the object whose id text is `object_id`.
    pub fn find_object(&self, object_id: &str) -> (r: Option<usize>)
        requires
            self.wf(),
        ensures
            match r {
                Some(i) => i < self.objects@.len() && self.text(self.objects@[i as int].id) == object_id@,
                None => forall|i: int| 0 <= i < self.objects@.len() ==> self.text(self.objects@[i].id) != object_id@,
            },
    {
        match self.pool.lookup(object_id) {
            Some(sym) => {
                let r = self.object_position(sym);
                proof {
                    if r is None {
                        self.pool.lemma_wf_distinct();
                        assert forall|i: int| 0 <= i < self.objects@.len() implies self.text(self.objects@[i].id) != object_id@ by {
                            assert(object_ok(self.pool@.len(), self.events@.len(), self.objects@[i]));
                            assert(self.objects@[i].id != sym);
                        }
                    }
                }
                r
            },
            None => {
                proof {
                    assert forall|i: int| 0 <= i < self.objects@.len() implies self.text(self.objects@[i].id) != object_id@ by {
                        assert(object_ok(self.pool@.len(), self.events@.len(), self.objects@[i]));
                    }
                }
                None
            },
        }
    }

    /// Ids of the events in an object's lifecycle, in lifecycle order.
    pub fn lifecycle_json(&self, object_id: &str) -> (r: Result<JsonValue, OcelError>)
        requires
            self.wf(),
        ensures
            match r {
                Ok(j) => exists|i: int| 0 <= i < self.objects@.len() && self.text(self.objects@[i].id) == object_id@
                    && j.model() == Json::Array(self.objects@[i].lifecycle@.map_values(|e: usize| Json::Str(self.text(self.events@[e as int].id)))),
                Err(e) => (forall|i: int| 0 <= i < self.objects@.len() ==> self.text(self.objects@[i].id) != object_id@)
                    && e.message@ == "object id '"@ + object_id@ + "' was not found in the log"@,
            },
    {
        match self.find_object(object_id) {
            None => {
                proof { reveal_strlit("object id '"); reveal_strlit("' was not found in the log"); }
                let mut m = owned("object id '");
                push_text(&mut m, object_id);
                push_text(&mut m, "' was not found in the log");
                Err(OcelError::new(m))
            },
            Some(i) => {
                let lc = &self.objects[i].lifecycle;
                let mut items: Vec<JsonValue> = Vec::new();
                let mut k: usize = 0;
                while k < lc.len()
                    invariant
                        self.wf(),
                        i < self.objects@.len(),
                        lc@ == self.objects@[i as int].lifecycle@,
                        k <= lc@.len(),
                        items@.len() == k,
                        forall|x: int| 0 <= x < k ==> #[trigger] items@[x] == JsonValue::Str(items@[x]->Str_0)
                            && items@[x]->Str_0@ == self.text(self.events@[lc@[x] as int].id),
                    decreases lc.len() - k,
                {
                    proof {
                        assert(object_ok(self.pool@.len(), self.events@.len(), self.objects@[i as int]));
                        assert(event_ok(self.pool@.len(), self.events@[lc@[k as int] as int]));
                    }
                    let e = lc[k];
                    items.push(JsonValue::Str(owned(self.pool.resolve(self.events[e].id))));
                    k = k + 1;
                }
                let j = JsonValue::Array(items);
                proof {
                    reveal_with_fuel(JsonValue::model, 2);
                    assert(j.model()->Array_0 =~= lc@.map_values(|e: usize| Json::Str(self.text(self.events@[e as int].id))));
                }
                Ok(j)
            },
        }
    }
}

} // verus!
