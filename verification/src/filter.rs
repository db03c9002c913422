use vstd::prelude::*;
use crate::pool::Symbol;
use crate::model::{
    CompactOcelLog, TypeDef, Event, Object, Attribute, TimedAttribute, Relationship, AttrValue, AttributeDef,
    type_def_ok, event_ok, object_ok, sym_ok, value_ok, attributes_ok, timed_attributes_ok, relationships_ok,
    object_index_ok,
};
use crate::text::{owned, str_eq, int_text, int_to_text};
use crate::patterns::{PatternFilter, object_shows_pattern, texts};
use crate::lifecycle::{build_lifecycles, is_lifecycle, same_but_lifecycle};

verus! {

/// A directly-follows edge that a selected object must show.
pub struct DfEdgeFilter {
    pub source: String,
    pub target: String,
}

/// Keeps objects with an attribute value among `values`; `scope` is
/// `object` for the object's own attributes, anything else for the
/// attributes of the events of its lifecycle.
pub struct TextAttributeFilter {
    pub scope: String,
    pub name: String,
    pub values: Vec<String>,
}

/// Which part of a log to keep.
pub struct OcelFilterRequest {
    /// Event types to keep; none named keeps all.
    pub event_types: Vec<String>,
    /// Object types to keep; none named keeps all.
    pub object_types: Vec<String>,
    /// Activities every selected object's lifecycle must visit.
    pub df_nodes: Vec<String>,
    /// Directly-follows steps every selected object's lifecycle must take.
    pub df_edges: Vec<DfEdgeFilter>,
    pub text_attributes: Vec<TextAttributeFilter>,
    pub patterns: Vec<PatternFilter>,
    /// Earliest event time kept, in milliseconds.
    pub time_start_ms: Option<i64>,
    /// Latest event time kept, in milliseconds.
    pub time_end_ms: Option<i64>,
}

pub open spec fn has_object_predicates(f: OcelFilterRequest) -> bool {
    f.df_nodes@.len() > 0 || f.df_edges@.len() > 0 || f.text_attributes@.len() > 0 || f.patterns@.len() > 0
}

pub open spec fn has_time_predicate(f: OcelFilterRequest) -> bool {
    f.time_start_ms is Some || f.time_end_ms is Some
}

pub open spec fn accepts_time(f: OcelFilterRequest, t: i64) -> bool {
    &&& match f.time_start_ms {
        Some(s) => s <= t,
        None => true,
    }
    &&& match f.time_end_ms {
        Some(e) => t <= e,
        None => true,
    }
}

impl OcelFilterRequest {
    /// Whether the request has a predicate on objects.
    pub fn has_object_predicates(&self) -> (r: bool)
        ensures
            r == has_object_predicates(*self),
    {
        self.df_nodes.len() > 0 || self.df_edges.len() > 0 || self.text_attributes.len() > 0 || self.patterns.len() > 0
    }

    /// Whether the request bounds event times.
    pub fn has_time_predicate(&self) -> (r: bool)
        ensures
            r == has_time_predicate(*self),
    {
        self.time_start_ms.is_some() || self.time_end_ms.is_some()
    }

    /// Whether an event time lies within the bounds.
    pub fn accepts_time(&self, t: i64) -> (r: bool)
        ensures
            r == accepts_time(*self, t),
    {
        let after = match self.time_start_ms {
            Some(s) => s <= t,
            None => true,
        };
        let before = match self.time_end_ms {
            Some(e) => t <= e,
            None => true,
        };
        after && before
    }

    /// The request that keeps every type of `log` and has no predicate.
    pub fn all_for(log: &CompactOcelLog) -> (r: OcelFilterRequest)
        requires
            log.wf(),
        ensures
            texts(r.event_types@) == type_names(*log, log.event_types@),
            texts(r.object_types@) == type_names(*log, log.object_types@),
            !has_object_predicates(r),
            !has_time_predicate(r),
    {
        OcelFilterRequest {
            event_types: log.type_name_list(&log.event_types),
            object_types: log.type_name_list(&log.object_types),
            df_nodes: Vec::new(),
            df_edges: Vec::new(),
            text_attributes: Vec::new(),
            patterns: Vec::new(),
            time_start_ms: None,
            time_end_ms: None,
        }
    }
}

/// Names of types, in order.
pub open spec fn type_names(log: CompactOcelLog, ts: Seq<TypeDef>) -> Seq<Seq<char>> {
    ts.map_values(|t: TypeDef| log.text(t.name))
}

/// The type names a request selects: those it names, or all types of the log.
pub open spec fn selection(log: CompactOcelLog, ts: Seq<TypeDef>, req: Seq<String>) -> Seq<Seq<char>> {
    if req.len() == 0 {
        type_names(log, ts)
    } else {
        texts(req)
    }
}

/// Every type of the log is among the selected names.
pub open spec fn all_selected(log: CompactOcelLog, ts: Seq<TypeDef>, req: Seq<String>) -> bool {
    forall|k: int| 0 <= k < ts.len() ==> selection(log, ts, req).contains(#[trigger] log.text(ts[k].name))
}

/// Text of an attribute value as attribute filters compare it.
pub open spec fn value_label(log: CompactOcelLog, v: AttrValue) -> Seq<char> {
    match v {
        AttrValue::String(s) => log.text(s),
        AttrValue::Time(ms) => int_text(ms as int),
        AttrValue::Integer(i) => int_text(i as int),
        AttrValue::Float(s) => log.text(s),
        AttrValue::Boolean(b) => if b { "true"@ } else { "false"@ },
    }
}

impl CompactOcelLog {
    /// Names of the given types, in order.
    pub fn type_name_list(&self, ts: &Vec<TypeDef>) -> (r: Vec<String>)
        requires
            self.wf(),
            forall|k: int| 0 <= k < ts@.len() ==> type_def_ok(self.pool@.len(), #[trigger] ts@[k]),
        ensures
            texts(r@) == type_names(*self, ts@),
    {
        let mut out: Vec<String> = Vec::new();
        let mut k: usize = 0;
        while k < ts.len()
            invariant
                self.wf(),
                forall|x: int| 0 <= x < ts@.len() ==> type_def_ok(self.pool@.len(), #[trigger] ts@[x]),
                k <= ts@.len(),
                texts(out@) == type_names(*self, ts@.take(k as int)),
            decreases ts.len() - k,
        {
            proof { assert(type_def_ok(self.pool@.len(), ts@[k as int])); }
            let ghost before = out@;
            out.push(owned(self.pool.resolve(ts[k].name)));
            proof {
                assert(texts(out@) =~= texts(before).push(self.text(ts@[k as int].name)));
                assert(ts@.take(k + 1) =~= ts@.take(k as int).push(ts@[k as int]));
                assert(texts(out@) =~= type_names(*self, ts@.take(k + 1)));
            }
            k = k + 1;
        }
        assert(ts@.take(ts@.len() as int) =~= ts@);
        out
    }

    /// Text of an attribute value as attribute filters compare it.
    pub fn attr_value_label(&self, v: AttrValue) -> (r: String)
        requires
            self.wf(),
            value_ok(self.pool@.len(), v),
        ensures
            r@ == value_label(*self, v),
    {
        match v {
            AttrValue::String(s) => owned(self.pool.resolve(s)),
            AttrValue::Time(ms) => int_to_text(ms),
            AttrValue::Integer(i) => int_to_text(i),
            AttrValue::Float(s) => owned(self.pool.resolve(s)),
            AttrValue::Boolean(b) => if b { owned("true") } else { owned("false") },
        }
    }

    /// The type names a request selects.
    pub fn selection_names(&self, ts: &Vec<TypeDef>, req: &Vec<String>) -> (r: Vec<String>)
        requires
            self.wf(),
            forall|k: int| 0 <= k < ts@.len() ==> type_def_ok(self.pool@.len(), #[trigger] ts@[k]),
        ensures
            texts(r@) == selection(*self, ts@, req@),
    {
        if req.len() == 0 {
            self.type_name_list(ts)
        } else {
            let mut out: Vec<String> = Vec::new();
            let mut k: usize = 0;
            while k < req.len()
                invariant
                    k <= req@.len(),
                    texts(out@) == texts(req@.take(k as int)),
                decreases req.len() - k,
            {
                let ghost before = out@;
                out.push(owned(req[k].as_str()));
                proof {
                    assert(texts(out@) =~= texts(before).push(req@[k as int]@));
                    assert(req@.take(k + 1) =~= req@.take(k as int).push(req@[k as int]));
                    assert(texts(out@) =~= texts(req@.take(k + 1)));
                }
                k = k + 1;
            }
            assert(req@.take(req@.len() as int) =~= req@);
            out
        }
    }
}

/// Whether a text occurs in a list.
pub fn contains_text(v: &Vec<String>, t: &str) -> (r: bool)
    ensures
        r == texts(v@).contains(t@),
{
    let mut i: usize = 0;
    while i < v.len()
        invariant
            i <= v@.len(),
            forall|k: int| 0 <= k < i ==> v@[k]@ != t@,
        decreases v.len() - i,
    {
        if str_eq(v[i].as_str(), t) {
            assert(texts(v@)[i as int] == t@);
            return true;
        }
        i = i + 1;
    }
    proof {
        if texts(v@).contains(t@) {
            let k = choose|k: int| 0 <= k < texts(v@).len() && texts(v@)[k] == t@;
            assert(v@[k]@ == t@);
        }
    }
    false
}

/// Whether every type is named in `names`.
pub fn covers_types(log: &CompactOcelLog, ts: &Vec<TypeDef>, names: &Vec<String>) -> (r: bool)
    requires
        log.wf(),
        forall|k: int| 0 <= k < ts@.len() ==> type_def_ok(log.pool@.len(), #[trigger] ts@[k]),
    ensures
        r == forall|k: int| 0 <= k < ts@.len() ==> texts(names@).contains(#[trigger] log.text(ts@[k].name)),
{
    let mut k: usize = 0;
    while k < ts.len()
        invariant
            log.wf(),
            forall|x: int| 0 <= x < ts@.len() ==> type_def_ok(log.pool@.len(), #[trigger] ts@[x]),
            k <= ts@.len(),
            forall|x: int| 0 <= x < k ==> texts(names@).contains(#[trigger] log.text(ts@[x].name)),
        decreases ts.len() - k,
    {
        assert(type_def_ok(log.pool@.len(), ts@[k as int]));
        let name = log.pool.resolve(ts[k].name);
        assert(name@ == log.text(ts@[k as int].name));
        if !contains_text(names, name) {
            assert(!texts(names@).contains(log.text(ts@[k as int].name)));
            return false;
        }
        k = k + 1;
    }
    true
}

/// Activity names along a lifecycle.
pub open spec fn lc_types(log: CompactOcelLog, lc: Seq<usize>) -> Seq<Seq<char>> {
    lc.map_values(|e: usize| log.text(log.events@[e as int].type_symbol))
}

/// The lifecycle takes the step `a` then `b` directly.
pub open spec fn steps(log: CompactOcelLog, lc: Seq<usize>, a: Seq<char>, b: Seq<char>) -> bool {
    exists|k: int| 0 <= k && k + 1 < lc.len() && #[trigger] lc_types(log, lc)[k] == a && lc_types(log, lc)[k + 1] == b
}

/// Some attribute is named `name` and has a value among `values`.
pub open spec fn attr_hit(log: CompactOcelLog, attrs: Seq<Attribute>, name: Seq<char>, values: Seq<Seq<char>>) -> bool {
    exists|x: int| 0 <= x < attrs.len() && log.text(#[trigger] attrs[x].name) == name && values.contains(value_label(log, attrs[x].value))
}

pub open spec fn timed_attr_hit(log: CompactOcelLog, attrs: Seq<TimedAttribute>, name: Seq<char>, values: Seq<Seq<char>>) -> bool {
    exists|x: int| 0 <= x < attrs.len() && log.text(#[trigger] attrs[x].name) == name && values.contains(value_label(log, attrs[x].value))
}

/// The object at `oi` passes an attribute filter.
pub open spec fn text_filter_ok(log: CompactOcelLog, oi: int, ta: TextAttributeFilter) -> bool {
    let o = log.objects@[oi];
    if ta.values@.len() == 0 {
        true
    } else if ta.scope@ == "object"@ {
        timed_attr_hit(log, o.attributes@, ta.name@, texts(ta.values@))
    } else {
        exists|k: int| 0 <= k < o.lifecycle@.len() && attr_hit(log, log.events@[#[trigger] o.lifecycle@[k] as int].attributes@, ta.name@, texts(ta.values@))
    }
}

/// The object at `oi` passes every object predicate of the request.
pub open spec fn object_satisfies(log: CompactOcelLog, oi: int, f: OcelFilterRequest) -> bool {
    let lc = log.objects@[oi].lifecycle@;
    &&& forall|n: int| 0 <= n < f.df_nodes@.len() ==> lc_types(log, lc).contains(#[trigger] f.df_nodes@[n]@)
    &&& forall|n: int| 0 <= n < f.df_edges@.len() ==> steps(log, lc, (#[trigger] f.df_edges@[n]).source@, f.df_edges@[n].target@)
    &&& forall|n: int| 0 <= n < f.text_attributes@.len() ==> text_filter_ok(log, oi, #[trigger] f.text_attributes@[n])
    &&& forall|n: int| 0 <= n < f.patterns@.len() ==> object_shows_pattern(log, oi, #[trigger] f.patterns@[n])
}

impl CompactOcelLog {
    fn lifecycle_visits(&self, oi: usize, name: &str) -> (r: bool)
        requires
            self.wf(),
            oi < self.objects@.len(),
        ensures
            r == lc_types(*self, self.objects@[oi as int].lifecycle@).contains(name@),
    {
        let lc = &self.objects[oi].lifecycle;
        let ghost ts = lc_types(*self, lc@);
        proof { assert(object_ok(self.pool@.len(), self.events@.len(), self.objects@[oi as int])); }
        let mut k: usize = 0;
        while k < lc.len()
            invariant
                self.wf(),
                oi < self.objects@.len(),
                lc@ == self.objects@[oi as int].lifecycle@,
                ts == lc_types(*self, lc@),
                k <= lc@.len(),
                forall|x: int| 0 <= x < k ==> ts[x] != name@,
            decreases lc.len() - k,
        {
            proof {
                assert(object_ok(self.pool@.len(), self.events@.len(), self.objects@[oi as int]));
                assert(lc@[k as int] < self.events@.len());
                assert(event_ok(self.pool@.len(), self.events@[lc@[k as int] as int]));
            }
            if str_eq(self.pool.resolve(self.events[lc[k]].type_symbol), name) {
                assert(ts[k as int] == name@);
                return true;
            }
            k = k + 1;
        }
        proof {
            if ts.contains(name@) {
                let x = choose|x: int| 0 <= x < ts.len() && ts[x] == name@;
            }
        }
        false
    }

    fn lifecycle_steps(&self, oi: usize, a: &str, b: &str) -> (r: bool)
        requires
            self.wf(),
            oi < self.objects@.len(),
        ensures
            r == steps(*self, self.objects@[oi as int].lifecycle@, a@, b@),
    {
        let lc = &self.objects[oi].lifecycle;
        let ghost ts = lc_types(*self, lc@);
        if lc.len() < 2 {
            return false;
        }
        let mut k: usize = 0;
        while k + 1 < lc.len()
            invariant
                self.wf(),
                oi < self.objects@.len(),
                lc@ == self.objects@[oi as int].lifecycle@,
                ts == lc_types(*self, lc@),
                lc@.len() >= 2,
                k + 1 <= lc@.len(),
                forall|x: int| 0 <= x < k ==> !(#[trigger] ts[x] == a@ && ts[x + 1] == b@),
            decreases lc.len() - k,
        {
            proof {
                assert(object_ok(self.pool@.len(), self.events@.len(), self.objects@[oi as int]));
                assert(lc@[k as int] < self.events@.len());
                assert(lc@[k + 1] < self.events@.len());
                assert(event_ok(self.pool@.len(), self.events@[lc@[k as int] as int]));
                assert(event_ok(self.pool@.len(), self.events@[lc@[k + 1] as int]));
            }
            if str_eq(self.pool.resolve(self.events[lc[k]].type_symbol), a)
                && str_eq(self.pool.resolve(self.events[lc[k + 1]].type_symbol), b) {
                assert(ts[k as int] == a@ && ts[k + 1] == b@);
                return true;
            }
            k = k + 1;
        }
        proof {
            if steps(*self, lc@, a@, b@) {
                let x = choose|x: int| 0 <= x && x + 1 < lc@.len() && #[trigger] ts[x] == a@ && ts[x + 1] == b@;
                assert(!(ts[x] == a@ && ts[x + 1] == b@));
            }
        }
        false
    }

    fn attributes_hit(&self, attrs: &Vec<Attribute>, name: &str, values: &Vec<String>) -> (r: bool)
        requires
            self.wf(),
            attributes_ok(self.pool@.len(), attrs@),
        ensures
            r == attr_hit(*self, attrs@, name@, texts(values@)),
    {
        let mut x: usize = 0;
        while x < attrs.len()
            invariant
                self.wf(),
                attributes_ok(self.pool@.len(), attrs@),
                x <= attrs@.len(),
                forall|y: int| 0 <= y < x ==> !(self.text(#[trigger] attrs@[y].name) == name@ && texts(values@).contains(value_label(*self, attrs@[y].value))),
            decreases attrs.len() - x,
        {
            let a = attrs[x];
            proof { assert(sym_ok(self.pool@.len(), attrs@[x as int].name)); }
            if str_eq(self.pool.resolve(a.name), name) {
                let label = self.attr_value_label(a.value);
                if contains_text(values, label.as_str()) {
                    return true;
                }
            }
            x = x + 1;
        }
        false
    }

    fn timed_attributes_hit(&self, attrs: &Vec<TimedAttribute>, name: &str, values: &Vec<String>) -> (r: bool)
        requires
            self.wf(),
            timed_attributes_ok(self.pool@.len(), attrs@),
        ensures
            r == timed_attr_hit(*self, attrs@, name@, texts(values@)),
    {
        let mut x: usize = 0;
        while x < attrs.len()
            invariant
                self.wf(),
                timed_attributes_ok(self.pool@.len(), attrs@),
                x <= attrs@.len(),
                forall|y: int| 0 <= y < x ==> !(self.text(#[trigger] attrs@[y].name) == name@ && texts(values@).contains(value_label(*self, attrs@[y].value))),
            decreases attrs.len() - x,
        {
            let a = attrs[x];
            proof { assert(sym_ok(self.pool@.len(), attrs@[x as int].name)); }
            if str_eq(self.pool.resolve(a.name), name) {
                let label = self.attr_value_label(a.value);
                if contains_text(values, label.as_str()) {
                    return true;
                }
            }
            x = x + 1;
        }
        false
    }

    /// Whether the object at `oi` passes an attribute filter.
    pub fn object_matches_text_attribute(&self, oi: usize, ta: &TextAttributeFilter) -> (r: bool)
        requires
            self.wf(),
            oi < self.objects@.len(),
        ensures
            r == text_filter_ok(*self, oi as int, *ta),
    {
        if ta.values.len() == 0 {
            return true;
        }
        let o = &self.objects[oi];
        proof { assert(object_ok(self.pool@.len(), self.events@.len(), self.objects@[oi as int])); }
        if str_eq(ta.scope.as_str(), "object") {
            return self.timed_attributes_hit(&o.attributes, ta.name.as_str(), &ta.values);
        }
        let lc = &o.lifecycle;
        let mut k: usize = 0;
        while k < lc.len()
            invariant
                self.wf(),
                oi < self.objects@.len(),
                *o == self.objects@[oi as int],
                lc@ == o.lifecycle@,
                ta.values@.len() != 0,
                ta.scope@ != "object"@,
                k <= lc@.len(),
                forall|y: int| 0 <= y < k ==> !attr_hit(*self, self.events@[#[trigger] lc@[y] as int].attributes@, ta.name@, texts(ta.values@)),
            decreases lc.len() - k,
        {
            proof {
                assert(object_ok(self.pool@.len(), self.events@.len(), self.objects@[oi as int]));
                assert(lc@[k as int] < self.events@.len());
                assert(event_ok(self.pool@.len(), self.events@[lc@[k as int] as int]));
            }
            if self.attributes_hit(&self.events[lc[k]].attributes, ta.name.as_str(), &ta.values) {
                proof {
                    let o2 = self.objects@[oi as int];
                    assert(o2.lifecycle@[k as int] == lc@[k as int]);
                    assert(attr_hit(*self, self.events@[o2.lifecycle@[k as int] as int].attributes@, ta.name@, texts(ta.values@)));
                }
                return true;
            }
            k = k + 1;
        }
        false
    }

    /// Whether the object at `oi` passes every object predicate of `f`.
    pub fn object_satisfies_filter(&self, oi: usize, f: &OcelFilterRequest) -> (r: bool)
        requires
            self.wf(),
            oi < self.objects@.len(),
        ensures
            r == object_satisfies(*self, oi as int, *f),
    {
        let mut n: usize = 0;
        while n < f.df_nodes.len()
            invariant
                self.wf(),
                oi < self.objects@.len(),
                n <= f.df_nodes@.len(),
                forall|x: int| 0 <= x < n ==> lc_types(*self, self.objects@[oi as int].lifecycle@).contains(#[trigger] f.df_nodes@[x]@),
            decreases f.df_nodes.len() - n,
        {
            if !self.lifecycle_visits(oi, f.df_nodes[n].as_str()) {
                return false;
            }
            n = n + 1;
        }
        let mut n: usize = 0;
        while n < f.df_edges.len()
            invariant
                self.wf(),
                oi < self.objects@.len(),
                n <= f.df_edges@.len(),
                forall|x: int| 0 <= x < f.df_nodes@.len() ==> lc_types(*self, self.objects@[oi as int].lifecycle@).contains(#[trigger] f.df_nodes@[x]@),
                forall|x: int| 0 <= x < n ==> steps(*self, self.objects@[oi as int].lifecycle@, (#[trigger] f.df_edges@[x]).source@, f.df_edges@[x].target@),
            decreases f.df_edges.len() - n,
        {
            if !self.lifecycle_steps(oi, f.df_edges[n].source.as_str(), f.df_edges[n].target.as_str()) {
                return false;
            }
            n = n + 1;
        }
        let mut n: usize = 0;
        while n < f.text_attributes.len()
            invariant
                self.wf(),
                oi < self.objects@.len(),
                n <= f.text_attributes@.len(),
                forall|x: int| 0 <= x < f.df_nodes@.len() ==> lc_types(*self, self.objects@[oi as int].lifecycle@).contains(#[trigger] f.df_nodes@[x]@),
                forall|x: int| 0 <= x < f.df_edges@.len() ==> steps(*self, self.objects@[oi as int].lifecycle@, (#[trigger] f.df_edges@[x]).source@, f.df_edges@[x].target@),
                forall|x: int| 0 <= x < n ==> text_filter_ok(*self, oi as int, #[trigger] f.text_attributes@[x]),
            decreases f.text_attributes.len() - n,
        {
            if !self.object_matches_text_attribute(oi, &f.text_attributes[n]) {
                return false;
            }
            n = n + 1;
        }
        let mut n: usize = 0;
        while n < f.patterns.len()
            invariant
                self.wf(),
                oi < self.objects@.len(),
                n <= f.patterns@.len(),
                forall|x: int| 0 <= x < f.df_nodes@.len() ==> lc_types(*self, self.objects@[oi as int].lifecycle@).contains(#[trigger] f.df_nodes@[x]@),
                forall|x: int| 0 <= x < f.df_edges@.len() ==> steps(*self, self.objects@[oi as int].lifecycle@, (#[trigger] f.df_edges@[x]).source@, f.df_edges@[x].target@),
                forall|x: int| 0 <= x < f.text_attributes@.len() ==> text_filter_ok(*self, oi as int, #[trigger] f.text_attributes@[x]),
                forall|x: int| 0 <= x < n ==> object_shows_pattern(*self, oi as int, #[trigger] f.patterns@[x]),
            decreases f.patterns.len() - n,
        {
            if !self.object_matches_pattern_filter(oi, &f.patterns[n]) {
                return false;
            }
            n = n + 1;
        }
        true
    }
}

} // verus!
