use vstd::prelude::*;
use crate::error::OcelError;
use crate::model::{
    CompactOcelLog, TypeDef, Attribute, TimedAttribute, Relationship, AttrValue, AttributeDef, Event,
    Object, type_def_ok, event_ok, object_ok, sym_ok, value_ok, attributes_ok, timed_attributes_ok,
    relationships_ok,
};
use crate::json::{
    Json, JsonValue, object, array, add_member, add_item, text_value, members_model, items_model,
    collect, lemma_collect_stuck, lemma_collect_step,
};
use crate::text::owned;
use crate::export_xml::time_xml;

verus! {

/// JSON of an attribute declaration.
pub open spec fn attr_def_json(log: CompactOcelLog, d: AttributeDef) -> Json {
    Json::Object(seq![("name"@, Json::Str(log.text(d.name))), ("type"@, Json::Str(d.attr_type.name()))])
}

/// JSON of a type declaration.
pub open spec fn type_json(log: CompactOcelLog, t: TypeDef) -> Json {
    Json::Object(
        seq![
            ("name"@, Json::Str(log.text(t.name))),
            ("attributes"@, Json::Array(Seq::new(t.attributes@.len(), |i: int| attr_def_json(log, t.attributes@[i])))),
        ],
    )
}

pub open spec fn types_json(log: CompactOcelLog, ts: Seq<TypeDef>) -> Seq<Json> {
    Seq::new(ts.len(), |i: int| type_json(log, ts[i]))
}

/// JSON of an attribute value, or why it cannot be written.
pub open spec fn value_json(log: CompactOcelLog, v: AttrValue) -> Result<Json, Seq<char>> {
    match v {
        AttrValue::String(s) => Ok(Json::Str(log.text(s))),
        AttrValue::Time(ms) => match time_xml(ms) {
            Ok(t) => Ok(Json::Str(t)),
            Err(e) => Err(e),
        },
        AttrValue::Integer(i) => Ok(Json::Int(i as int)),
        AttrValue::Float(s) => Ok(Json::Float(log.text(s))),
        AttrValue::Boolean(b) => Ok(Json::Bool(b)),
    }
}

pub open spec fn attribute_json(log: CompactOcelLog, a: Attribute) -> Result<Json, Seq<char>> {
    match value_json(log, a.value) {
        Err(e) => Err(e),
        Ok(v) => Ok(Json::Object(seq![("name"@, Json::Str(log.text(a.name))), ("value"@, v)])),
    }
}

pub open spec fn timed_attribute_json(log: CompactOcelLog, a: TimedAttribute) -> Result<Json, Seq<char>> {
    match time_xml(a.time_ms) {
        Err(e) => Err(e),
        Ok(t) => match value_json(log, a.value) {
            Err(e) => Err(e),
            Ok(v) => Ok(Json::Object(seq![("name"@, Json::Str(log.text(a.name))), ("time"@, Json::Str(t)), ("value"@, v)])),
        },
    }
}

pub open spec fn attributes_json(log: CompactOcelLog, attrs: Seq<Attribute>) -> Result<Seq<Json>, Seq<char>> {
    collect(Seq::new(attrs.len(), |i: int| attribute_json(log, attrs[i])))
}

pub open spec fn timed_attributes_json(log: CompactOcelLog, attrs: Seq<TimedAttribute>) -> Result<Seq<Json>, Seq<char>> {
    collect(Seq::new(attrs.len(), |i: int| timed_attribute_json(log, attrs[i])))
}

pub open spec fn relationship_json(log: CompactOcelLog, r: Relationship) -> Json {
    Json::Object(seq![("objectId"@, Json::Str(log.text(r.object_id))), ("qualifier"@, Json::Str(log.text(r.qualifier)))])
}

pub open spec fn relationships_json(log: CompactOcelLog, rs: Seq<Relationship>) -> Seq<Json> {
    Seq::new(rs.len(), |i: int| relationship_json(log, rs[i]))
}

/// JSON of an event, or the first value that cannot be written.
pub open spec fn event_json(log: CompactOcelLog, e: Event) -> Result<Json, Seq<char>> {
    match time_xml(e.time_ms) {
        Err(m) => Err(m),
        Ok(t) => match attributes_json(log, e.attributes@) {
            Err(m) => Err(m),
            Ok(xs) => Ok(Json::Object(
                seq![
                    ("id"@, Json::Str(log.text(e.id))),
                    ("type"@, Json::Str(log.text(e.type_symbol))),
                    ("time"@, Json::Str(t)),
                    ("attributes"@, Json::Array(xs)),
                    ("relationships"@, Json::Array(relationships_json(log, e.relationships@))),
                ],
            )),
        },
    }
}

/// JSON of an object, or the first value that cannot be written.
pub open spec fn object_json(log: CompactOcelLog, o: Object) -> Result<Json, Seq<char>> {
    match timed_attributes_json(log, o.attributes@) {
        Err(m) => Err(m),
        Ok(xs) => Ok(Json::Object(
            seq![
                ("id"@, Json::Str(log.text(o.id))),
                ("type"@, Json::Str(log.text(o.type_symbol))),
                ("attributes"@, Json::Array(xs)),
                ("relationships"@, Json::Array(relationships_json(log, o.relationships@))),
            ],
        )),
    }
}

/// The OCEL 2.0 JSON document of the log, or the message of the first value
/// that cannot be written.
pub open spec fn json_export(log: CompactOcelLog) -> Result<Json, Seq<char>> {
    match collect(Seq::new(log.events@.len(), |i: int| event_json(log, log.events@[i]))) {
        Err(m) => Err(m),
        Ok(evs) => match collect(Seq::new(log.objects@.len(), |i: int| object_json(log, log.objects@[i]))) {
            Err(m) => Err(m),
            Ok(obs) => Ok(Json::Object(
                seq![
                    ("eventTypes"@, Json::Array(types_json(log, log.event_types@))),
                    ("objectTypes"@, Json::Array(types_json(log, log.object_types@))),
                    ("events"@, Json::Array(evs)),
                    ("objects"@, Json::Array(obs)),
                ],
            )),
        },
    }
}

impl CompactOcelLog {
    fn type_def_to_json(&self, t: &TypeDef) -> (j: JsonValue)
        requires
            self.wf(),
            type_def_ok(self.pool@.len(), *t),
        ensures
            j.model() == type_json(*self, *t),
    {
        let mut items: Vec<JsonValue> = Vec::new();
        let mut k: usize = 0;
        while k < t.attributes.len()
            invariant
                self.wf(),
                type_def_ok(self.pool@.len(), *t),
                k <= t.attributes@.len(),
                items_model(items@) =~= Seq::new(k as nat, |i: int| attr_def_json(*self, t.attributes@[i])),
            decreases t.attributes.len() - k,
        {
            let d = t.attributes[k];
            assert(sym_ok(self.pool@.len(), t.attributes@[k as int].name));
            let mut ms: Vec<(String, JsonValue)> = Vec::new();
            add_member(&mut ms, "name", text_value(self.pool.resolve(d.name)));
            add_member(&mut ms, "type", text_value(d.attr_type.as_str()));
            let o = object(ms);
            assert(members_model(ms@) =~= seq![("name"@, Json::Str(self.text(d.name))), ("type"@, Json::Str(d.attr_type.name()))]);
            add_item(&mut items, o);
            k = k + 1;
        }
        let mut ms: Vec<(String, JsonValue)> = Vec::new();
        add_member(&mut ms, "name", text_value(self.pool.resolve(t.name)));
        add_member(&mut ms, "attributes", array(items));
        let j = object(ms);
        assert(members_model(ms@) =~= type_json(*self, *t)->Object_0);
        j
    }

    fn types_to_json(&self, ts: &Vec<TypeDef>) -> (j: JsonValue)
        requires
            self.wf(),
            forall|k: int| 0 <= k < ts@.len() ==> type_def_ok(self.pool@.len(), #[trigger] ts@[k]),
        ensures
            j.model() == Json::Array(types_json(*self, ts@)),
    {
        let mut items: Vec<JsonValue> = Vec::new();
        let mut k: usize = 0;
        while k < ts.len()
            invariant
                self.wf(),
                forall|x: int| 0 <= x < ts@.len() ==> type_def_ok(self.pool@.len(), #[trigger] ts@[x]),
                k <= ts@.len(),
                items_model(items@) =~= Seq::new(k as nat, |i: int| type_json(*self, ts@[i])),
            decreases ts.len() - k,
        {
            add_item(&mut items, self.type_def_to_json(&ts[k]));
            k = k + 1;
        }
        array(items)
    }

    /// JSON of an attribute value.
    pub fn attr_value_to_json(&self, v: AttrValue) -> (r: Result<JsonValue, OcelError>)
        requires
            self.wf(),
            value_ok(self.pool@.len(), v),
        ensures
            match r {
                Ok(j) => value_json(*self, v) == Ok::<Json, Seq<char>>(j.model()),
                Err(e) => value_json(*self, v) == Err::<Json, Seq<char>>(e.message@),
            },
    {
        match v {
            AttrValue::String(s) => Ok(text_value(self.pool.resolve(s))),
            AttrValue::Time(ms) => {
                let t = self.time_text(ms)?;
                Ok(JsonValue::Str(t))
            },
            AttrValue::Integer(i) => Ok(JsonValue::Int(i)),
            AttrValue::Float(s) => Ok(JsonValue::Float(owned(self.pool.resolve(s)))),
            AttrValue::Boolean(b) => Ok(JsonValue::Bool(b)),
        }
    }

    pub(crate) fn attributes_to_json(&self, attrs: &Vec<Attribute>) -> (r: Result<JsonValue, OcelError>)
        requires
            self.wf(),
            attributes_ok(self.pool@.len(), attrs@),
        ensures
            match r {
                Ok(j) => attributes_json(*self, attrs@) == Ok::<Seq<Json>, Seq<char>>(j.model()->Array_0) && j.model() is Array,
                Err(e) => attributes_json(*self, attrs@) == Err::<Seq<Json>, Seq<char>>(e.message@),
            },
    {
        let ghost rs = Seq::new(attrs@.len(), |i: int| attribute_json(*self, attrs@[i]));
        let mut items: Vec<JsonValue> = Vec::new();
        let mut k: usize = 0;
        assert(rs.take(0) =~= Seq::<Result<Json, Seq<char>>>::empty());
        assert(items_model(items@) =~= Seq::<Json>::empty());
        while k < attrs.len()
            invariant
                self.wf(),
                attributes_ok(self.pool@.len(), attrs@),
                k <= attrs@.len(),
                rs == Seq::new(attrs@.len(), |i: int| attribute_json(*self, attrs@[i])),
                collect(rs.take(k as int)) == Ok::<Seq<Json>, Seq<char>>(items_model(items@)),
            decreases attrs.len() - k,
        {
            proof { lemma_collect_step(rs, k as int); }
            let a = attrs[k];
            assert(sym_ok(self.pool@.len(), attrs@[k as int].name));
            let v = match self.attr_value_to_json(a.value) {
                Ok(v) => v,
                Err(e) => {
                    proof { lemma_collect_stuck(rs, k + 1); }
                    return Err(e);
                },
            };
            let mut ms: Vec<(String, JsonValue)> = Vec::new();
            add_member(&mut ms, "name", text_value(self.pool.resolve(a.name)));
            add_member(&mut ms, "value", v);
            let o = object(ms);
            assert(members_model(ms@) =~= attribute_json(*self, a)->Ok_0->Object_0);
            add_item(&mut items, o);
            k = k + 1;
        }
        assert(rs.take(attrs@.len() as int) =~= rs);
        Ok(array(items))
    }

    fn timed_attributes_to_json(&self, attrs: &Vec<TimedAttribute>) -> (r: Result<JsonValue, OcelError>)
        requires
            self.wf(),
            timed_attributes_ok(self.pool@.len(), attrs@),
        ensures
            match r {
                Ok(j) => timed_attributes_json(*self, attrs@) == Ok::<Seq<Json>, Seq<char>>(j.model()->Array_0) && j.model() is Array,
                Err(e) => timed_attributes_json(*self, attrs@) == Err::<Seq<Json>, Seq<char>>(e.message@),
            },
    {
        let ghost rs = Seq::new(attrs@.len(), |i: int| timed_attribute_json(*self, attrs@[i]));
        let mut items: Vec<JsonValue> = Vec::new();
        let mut k: usize = 0;
        assert(rs.take(0) =~= Seq::<Result<Json, Seq<char>>>::empty());
        assert(items_model(items@) =~= Seq::<Json>::empty());
        while k < attrs.len()
            invariant
                self.wf(),
                timed_attributes_ok(self.pool@.len(), attrs@),
                k <= attrs@.len(),
                rs == Seq::new(attrs@.len(), |i: int| timed_attribute_json(*self, attrs@[i])),
                collect(rs.take(k as int)) == Ok::<Seq<Json>, Seq<char>>(items_model(items@)),
            decreases attrs.len() - k,
        {
            proof { lemma_collect_step(rs, k as int); }
            let a = attrs[k];
            assert(sym_ok(self.pool@.len(), attrs@[k as int].name));
            let t = match self.time_text(a.time_ms) {
                Ok(t) => t,
                Err(e) => {
                    proof { lemma_collect_stuck(rs, k + 1); }
                    return Err(e);
                },
            };
            let v = match self.attr_value_to_json(a.value) {
                Ok(v) => v,
                Err(e) => {
                    proof { lemma_collect_stuck(rs, k + 1); }
                    return Err(e);
                },
            };
            let mut ms: Vec<(String, JsonValue)> = Vec::new();
            add_member(&mut ms, "name", text_value(self.pool.resolve(a.name)));
            add_member(&mut ms, "time", JsonValue::Str(t));
            add_member(&mut ms, "value", v);
            let o = object(ms);
            assert(members_model(ms@) =~= timed_attribute_json(*self, a)->Ok_0->Object_0);
            add_item(&mut items, o);
            k = k + 1;
        }
        assert(rs.take(attrs@.len() as int) =~= rs);
        Ok(array(items))
    }

    fn relationships_to_json(&self, rels: &Vec<Relationship>) -> (j: JsonValue)
        requires
            self.wf(),
            relationships_ok(self.pool@.len(), rels@),
        ensures
            j.model() == Json::Array(relationships_json(*self, rels@)),
    {
        let mut items: Vec<JsonValue> = Vec::new();
        let mut k: usize = 0;
        while k < rels.len()
            invariant
                self.wf(),
                relationships_ok(self.pool@.len(), rels@),
                k <= rels@.len(),
                items_model(items@) =~= Seq::new(k as nat, |i: int| relationship_json(*self, rels@[i])),
            decreases rels.len() - k,
        {
            let r = rels[k];
            assert(sym_ok(self.pool@.len(), rels@[k as int].object_id));
            let mut ms: Vec<(String, JsonValue)> = Vec::new();
            add_member(&mut ms, "objectId", text_value(self.pool.resolve(r.object_id)));
            add_member(&mut ms, "qualifier", text_value(self.pool.resolve(r.qualifier)));
            let o = object(ms);
            assert(members_model(ms@) =~= relationship_json(*self, r)->Object_0);
            add_item(&mut items, o);
            k = k + 1;
        }
        array(items)
    }

    fn event_to_json(&self, e: &Event) -> (r: Result<JsonValue, OcelError>)
        requires
            self.wf(),
            event_ok(self.pool@.len(), *e),
        ensures
            match r {
                Ok(j) => event_json(*self, *e) == Ok::<Json, Seq<char>>(j.model()),
                Err(x) => event_json(*self, *e) == Err::<Json, Seq<char>>(x.message@),
            },
    {
        let t = self.time_text(e.time_ms)?;
        let attrs = self.attributes_to_json(&e.attributes)?;
        let ghost am = attrs.model();
        let mut ms: Vec<(String, JsonValue)> = Vec::new();
        add_member(&mut ms, "id", text_value(self.pool.resolve(e.id)));
        add_member(&mut ms, "type", text_value(self.pool.resolve(e.type_symbol)));
        add_member(&mut ms, "time", JsonValue::Str(t));
        add_member(&mut ms, "attributes", attrs);
        add_member(&mut ms, "relationships", self.relationships_to_json(&e.relationships));
        let j = object(ms);
        assert(members_model(ms@) =~= event_json(*self, *e)->Ok_0->Object_0);
        Ok(j)
    }

    fn object_to_json(&self, o: &Object) -> (r: Result<JsonValue, OcelError>)
        requires
            self.wf(),
            object_ok(self.pool@.len(), self.events@.len(), *o),
        ensures
            match r {
                Ok(j) => object_json(*self, *o) == Ok::<Json, Seq<char>>(j.model()),
                Err(x) => object_json(*self, *o) == Err::<Json, Seq<char>>(x.message@),
            },
    {
        let attrs = self.timed_attributes_to_json(&o.attributes)?;
        let mut ms: Vec<(String, JsonValue)> = Vec::new();
        add_member(&mut ms, "id", text_value(self.pool.resolve(o.id)));
        add_member(&mut ms, "type", text_value(self.pool.resolve(o.type_symbol)));
        add_member(&mut ms, "attributes", attrs);
        add_member(&mut ms, "relationships", self.relationships_to_json(&o.relationships));
        let j = object(ms);
        assert(members_model(ms@) =~= object_json(*self, *o)->Ok_0->Object_0);
        Ok(j)
    }

    /// The log as an OCEL 2.0 JSON document.
    pub fn export_json(&self) -> (r: Result<JsonValue, OcelError>)
        requires
            self.wf(),
        ensures
            match r {
                Ok(j) => json_export(*self) == Ok::<Json, Seq<char>>(j.model()),
                Err(e) => json_export(*self) == Err::<Json, Seq<char>>(e.message@),
            },
    {
        let ghost er = Seq::new(self.events@.len(), |i: int| event_json(*self, self.events@[i]));
        let mut evs: Vec<JsonValue> = Vec::new();
        let mut k: usize = 0;
        assert(er.take(0) =~= Seq::<Result<Json, Seq<char>>>::empty());
        assert(items_model(evs@) =~= Seq::<Json>::empty());
        while k < self.events.len()
            invariant
                self.wf(),
                k <= self.events@.len(),
                er == Seq::new(self.events@.len(), |i: int| event_json(*self, self.events@[i])),
                collect(er.take(k as int)) == Ok::<Seq<Json>, Seq<char>>(items_model(evs@)),
            decreases self.events.len() - k,
        {
            proof { lemma_collect_step(er, k as int); }
            assert(event_ok(self.pool@.len(), self.events@[k as int]));
            let j = match self.event_to_json(&self.events[k]) {
                Ok(j) => j,
                Err(e) => {
                    proof { lemma_collect_stuck(er, k + 1); }
                    return Err(e);
                },
            };
            add_item(&mut evs, j);
            k = k + 1;
        }
        assert(er.take(self.events@.len() as int) =~= er);
        let ghost orr = Seq::new(self.objects@.len(), |i: int| object_json(*self, self.objects@[i]));
        let mut obs: Vec<JsonValue> = Vec::new();
        k = 0;
        assert(orr.take(0) =~= Seq::<Result<Json, Seq<char>>>::empty());
        assert(items_model(obs@) =~= Seq::<Json>::empty());
        while k < self.objects.len()
            invariant
                self.wf(),
                k <= self.objects@.len(),
                orr == Seq::new(self.objects@.len(), |i: int| object_json(*self, self.objects@[i])),
                er == Seq::new(self.events@.len(), |i: int| event_json(*self, self.events@[i])),
                collect(er) == Ok::<Seq<Json>, Seq<char>>(items_model(evs@)),
                collect(orr.take(k as int)) == Ok::<Seq<Json>, Seq<char>>(items_model(obs@)),
            decreases self.objects.len() - k,
        {
            proof { lemma_collect_step(orr, k as int); }
            assert(object_ok(self.pool@.len(), self.events@.len(), self.objects@[k as int]));
            let j = match self.object_to_json(&self.objects[k]) {
                Ok(j) => j,
                Err(e) => {
                    proof { lemma_collect_stuck(orr, k + 1); }
                    return Err(e);
                },
            };
            add_item(&mut obs, j);
            k = k + 1;
        }
        assert(orr.take(self.objects@.len() as int) =~= orr);
        let mut ms: Vec<(String, JsonValue)> = Vec::new();
        add_member(&mut ms, "eventTypes", self.types_to_json(&self.event_types));
        add_member(&mut ms, "objectTypes", self.types_to_json(&self.object_types));
        add_member(&mut ms, "events", array(evs));
        add_member(&mut ms, "objects", array(obs));
        let j = object(ms);
        proof {
            let want = seq![
                ("eventTypes"@, Json::Array(types_json(*self, self.event_types@))),
                ("objectTypes"@, Json::Array(types_json(*self, self.object_types@))),
                ("events"@, Json::Array(items_model(evs@))),
                ("objects"@, Json::Array(items_model(obs@))),
            ];
            assert(collect(er) == Ok::<Seq<Json>, Seq<char>>(items_model(evs@)));
            assert(collect(orr) == Ok::<Seq<Json>, Seq<char>>(items_model(obs@)));
            assert(json_export(*self) == Ok::<Json, Seq<char>>(Json::Object(want)));
            assert(members_model(ms@) =~= want);
            assert(j.model() == Json::Object(want));
        }
        Ok(j)
    }
}

} // verus!
