use vstd::prelude::*;
use vstd::hash_map::StringHashMap;
use crate::error::OcelError;
use crate::pool::{StringPool, Symbol};
use crate::model::{
    OcelFormat, AttrType, AttrValue, TypeDef, Attribute, TimedAttribute, Relationship, Event, Object,
    CompactOcelLog, object_index_ok, sym_ok, value_ok, type_def_ok, event_ok, object_ok,
    relationships_ok, attributes_ok, timed_attributes_ok,
};
use crate::text::{push_text, owned};
use crate::timefmt::{parse_timestamp_ms, timestamp_of};
use crate::source::{SourceLog, SourceType, SourceEvent, SourceObject, SourceRelationship, FloatReadings, FloatParse, convert, value_mirrors,
    new_in, lemma_new_in_step, lemma_new_in_intern, lemma_new_in_subset};
use crate::compact::{
    pool_extends, types_ok, type_mirrors, declared_type, attribute_mirrors, timed_attribute_mirrors,
    relationships_mirror, compact_type_def, compact_attributes, compact_timed_attributes,
    compact_relationships, type_text_set, attrs_text_set, timed_attrs_text_set, rels_text_set,
    type_refusal, attrs_refusal, timed_attrs_refusal,
};
use crate::lifecycle::{build_lifecycles, is_lifecycle, same_but_lifecycle};

verus! {

pub open spec fn type_known(types: Seq<SourceType>, t: Seq<char>) -> bool {
    exists|k: int| 0 <= k < types.len() && types[k].name@ == t
}

pub open spec fn object_known(src: SourceLog, id: Seq<char>) -> bool {
    exists|k: int| 0 <= k < src.objects@.len() && src.objects@[k].id@ == id
}

pub open spec fn rels_known(src: SourceLog, rels: Seq<SourceRelationship>) -> bool {
    forall|i: int| 0 <= i < rels.len() ==> object_known(src, #[trigger] rels[i].object_id@)
}

/// An event refers to a declared type and to known objects, and its time and
/// attribute values convert.
pub open spec fn source_event_ok(src: SourceLog, readings: Map<Seq<char>, FloatParse>, e: SourceEvent) -> bool {
    &&& type_known(src.event_types@, e.event_type@)
    &&& rels_known(src, e.relationships@)
    &&& timestamp_of(e.time@) is Some
    &&& forall|a: int| 0 <= a < e.attributes@.len() ==> convert(
        (#[trigger] e.attributes@[a]).value,
        declared_type(src.event_types@, e.event_type@, e.attributes@[a].name@),
        readings,
    ) is Ok
}

/// An object refers to a declared type and to known objects, and its
/// attribute times and values convert.
pub open spec fn source_object_ok(src: SourceLog, readings: Map<Seq<char>, FloatParse>, o: SourceObject) -> bool {
    &&& type_known(src.object_types@, o.object_type@)
    &&& rels_known(src, o.relationships@)
    &&& forall|a: int| 0 <= a < o.attributes@.len() ==> timestamp_of((#[trigger] o.attributes@[a]).time@) is Some
        && convert(
        o.attributes@[a].value,
        declared_type(src.object_types@, o.object_type@, o.attributes@[a].name@),
        readings,
    ) is Ok
}

/// The source passes every check of the importer.
pub open spec fn source_ok(src: SourceLog, readings: Map<Seq<char>, FloatParse>) -> bool {
    &&& types_ok(src.event_types@)
    &&& types_ok(src.object_types@)
    &&& forall|i: int, j: int| 0 <= i < j < src.objects@.len() ==> src.objects@[i].id@ != src.objects@[j].id@
    &&& forall|i: int, j: int| 0 <= i < j < src.events@.len() ==> src.events@[i].id@ != src.events@[j].id@
    &&& forall|i: int| 0 <= i < src.events@.len() ==> source_event_ok(src, readings, #[trigger] src.events@[i])
    &&& forall|i: int| 0 <= i < src.objects@.len() ==> source_object_ok(src, readings, #[trigger] src.objects@[i])
}

/// The compact event stands for the source event.
pub open spec fn event_mirrors(pool: Seq<Seq<char>>, e: Event, s: SourceEvent, types: Seq<SourceType>, readings: Map<Seq<char>, FloatParse>) -> bool {
    &&& e.id.0 < pool.len() && pool[e.id.0 as int] == s.id@
    &&& e.type_symbol.0 < pool.len() && pool[e.type_symbol.0 as int] == s.event_type@
    &&& timestamp_of(s.time@) == Some(e.time_ms)
    &&& e.attributes@.len() == s.attributes@.len()
    &&& forall|a: int| 0 <= a < e.attributes@.len() ==> attribute_mirrors(
        pool,
        #[trigger] e.attributes@[a],
        s.attributes@[a],
        declared_type(types, s.event_type@, s.attributes@[a].name@),
        readings,
    )
    &&& relationships_mirror(pool, e.relationships@, s.relationships@)
}

/// The compact object stands for the source object (lifecycle aside).
pub open spec fn object_mirrors(pool: Seq<Seq<char>>, o: Object, s: SourceObject, types: Seq<SourceType>, readings: Map<Seq<char>, FloatParse>) -> bool {
    &&& o.id.0 < pool.len() && pool[o.id.0 as int] == s.id@
    &&& o.type_symbol.0 < pool.len() && pool[o.type_symbol.0 as int] == s.object_type@
    &&& o.attributes@.len() == s.attributes@.len()
    &&& forall|a: int| 0 <= a < o.attributes@.len() ==> timed_attribute_mirrors(
        pool,
        #[trigger] o.attributes@[a],
        s.attributes@[a],
        declared_type(types, s.object_type@, s.attributes@[a].name@),
        readings,
    )
    &&& relationships_mirror(pool, o.relationships@, s.relationships@)
}

/// The log is the import of the source.
pub open spec fn log_mirrors(log: CompactOcelLog, src: SourceLog, readings: Map<Seq<char>, FloatParse>, format: OcelFormat) -> bool {
    let pool = log.pool@;
    &&& log.format == format
    &&& log.state_leading_object_type is None
    &&& log.event_types@.len() == src.event_types@.len()
    &&& forall|k: int| 0 <= k < log.event_types@.len() ==> type_mirrors(pool, #[trigger] log.event_types@[k], src.event_types@[k])
    &&& log.object_types@.len() == src.object_types@.len()
    &&& forall|k: int| 0 <= k < log.object_types@.len() ==> type_mirrors(pool, #[trigger] log.object_types@[k], src.object_types@[k])
    &&& log.events@.len() == src.events@.len()
    &&& forall|k: int| 0 <= k < log.events@.len() ==> event_mirrors(pool, #[trigger] log.events@[k], src.events@[k], src.event_types@, readings)
    &&& log.objects@.len() == src.objects@.len()
    &&& forall|k: int| 0 <= k < log.objects@.len() ==> object_mirrors(pool, #[trigger] log.objects@[k], src.objects@[k], src.object_types@, readings)
    &&& forall|k: int| 0 <= k < log.objects@.len() ==> is_lifecycle(log.events@, (#[trigger] log.objects@[k]).id, log.objects@[k].lifecycle@)
}

proof fn lemma_type_mirrors_extends(p: Seq<Seq<char>>, q: Seq<Seq<char>>, d: TypeDef, t: SourceType)
    requires type_mirrors(p, d, t), pool_extends(p, q),
    ensures type_mirrors(q, d, t),
{
}

proof fn lemma_rels_mirror_extends(p: Seq<Seq<char>>, q: Seq<Seq<char>>, rs: Seq<Relationship>, ss: Seq<SourceRelationship>)
    requires relationships_mirror(p, rs, ss), pool_extends(p, q),
    ensures relationships_mirror(q, rs, ss),
{
}

proof fn lemma_event_mirrors_extends(p: Seq<Seq<char>>, q: Seq<Seq<char>>, e: Event, s: SourceEvent, types: Seq<SourceType>, readings: Map<Seq<char>, FloatParse>)
    requires event_mirrors(p, e, s, types, readings), pool_extends(p, q),
    ensures event_mirrors(q, e, s, types, readings),
{
    assert forall|a: int| 0 <= a < e.attributes@.len() implies attribute_mirrors(
        q,
        #[trigger] e.attributes@[a],
        s.attributes@[a],
        declared_type(types, s.event_type@, s.attributes@[a].name@),
        readings,
    ) by {
        assert(attribute_mirrors(p, e.attributes@[a], s.attributes@[a], declared_type(types, s.event_type@, s.attributes@[a].name@), readings));
    }
}

proof fn lemma_object_mirrors_extends(p: Seq<Seq<char>>, q: Seq<Seq<char>>, o: Object, s: SourceObject, types: Seq<SourceType>, readings: Map<Seq<char>, FloatParse>)
    requires object_mirrors(p, o, s, types, readings), pool_extends(p, q),
    ensures object_mirrors(q, o, s, types, readings),
{
    assert forall|a: int| 0 <= a < o.attributes@.len() implies timed_attribute_mirrors(
        q,
        #[trigger] o.attributes@[a],
        s.attributes@[a],
        declared_type(types, s.object_type@, s.attributes@[a].name@),
        readings,
    ) by {
        assert(timed_attribute_mirrors(p, o.attributes@[a], s.attributes@[a], declared_type(types, s.object_type@, s.attributes@[a].name@), readings));
    }
}

fn message2(a: &str, b: &str, c: &str) -> (m: String)
    ensures m@ == a@ + b@ + c@,
{
    let mut m = owned(a);
    push_text(&mut m, b);
    push_text(&mut m, c);
    m
}

fn message4(a: &str, b: &str, c: &str, d: &str, e: &str) -> (m: String)
    ensures m@ == a@ + b@ + c@ + d@ + e@,
{
    let mut m = owned(a);
    push_text(&mut m, b);
    push_text(&mut m, c);
    push_text(&mut m, d);
    push_text(&mut m, e);
    m
}

/// Validates and interns a list of source types; names must be distinct.
/// `msg` reports a fault of a list of types labelled `label`: a name that
/// occurs twice, or a fault of one type.
pub open spec fn types_refusal(types: Seq<SourceType>, label: Seq<char>, msg: Seq<char>) -> bool {
    ||| exists|i: int, j: int| 0 <= i < j < types.len() && #[trigger] types[i].name@ == #[trigger] types[j].name@
        && msg == "duplicate "@ + label + " '"@ + types[j].name@ + "'"@
    ||| exists|k: int| 0 <= k < types.len() && type_refusal(#[trigger] types[k], label, msg)
}

/// `msg` reports a relationship of the `kind` with id `owner` to an object
/// id that no object has.
pub open spec fn rels_refusal(src: SourceLog, rels: Seq<SourceRelationship>, kind: Seq<char>, owner: Seq<char>, msg: Seq<char>) -> bool {
    exists|i: int| 0 <= i < rels.len() && !object_known(src, (#[trigger] rels[i]).object_id@)
        && msg == kind + " '"@ + owner + "' references unknown object '"@ + rels[i].object_id@ + "'"@
}

/// `msg` is one of the importer's messages, and reports a fault that the
/// source has: a fault of its types, an id that occurs twice, a reference
/// to an unknown type or object, a time that does not read, or a value
/// that does not convert.
pub open spec fn import_refusal(src: SourceLog, readings: Map<Seq<char>, FloatParse>, msg: Seq<char>) -> bool {
    let os = src.objects@;
    let es = src.events@;
    ||| types_refusal(src.event_types@, "event type"@, msg)
    ||| types_refusal(src.object_types@, "object type"@, msg)
    ||| exists|i: int, j: int| 0 <= i < j < os.len() && #[trigger] os[i].id@ == #[trigger] os[j].id@
        && msg == "duplicate object id '"@ + os[j].id@ + "'"@
    ||| exists|k: int| 0 <= k < os.len() && !type_known(src.object_types@, (#[trigger] os[k]).object_type@)
        && msg == "object '"@ + os[k].id@ + "' references unknown object type '"@ + os[k].object_type@ + "'"@
    ||| exists|i: int, j: int| 0 <= i < j < es.len() && #[trigger] es[i].id@ == #[trigger] es[j].id@
        && msg == "duplicate event id '"@ + es[j].id@ + "'"@
    ||| exists|k: int| 0 <= k < es.len() && !type_known(src.event_types@, (#[trigger] es[k]).event_type@)
        && msg == "event '"@ + es[k].id@ + "' references unknown event type '"@ + es[k].event_type@ + "'"@
    ||| exists|k: int| 0 <= k < os.len() && rels_refusal(src, (#[trigger] os[k]).relationships@, "object"@, os[k].id@, msg)
    ||| exists|k: int| 0 <= k < es.len() && rels_refusal(src, (#[trigger] es[k]).relationships@, "event"@, es[k].id@, msg)
    ||| exists|k: int| 0 <= k < es.len() && timestamp_of((#[trigger] es[k]).time@) is None
        && msg == crate::timefmt::bad_timestamp_message(es[k].time@)
    ||| exists|k: int| 0 <= k < es.len() && attrs_refusal((#[trigger] es[k]).attributes@, src.event_types@, es[k].event_type@, readings, msg)
    ||| exists|k: int| 0 <= k < os.len() && timed_attrs_refusal((#[trigger] os[k]).attributes@, src.object_types@, os[k].object_type@, readings, msg)
}

/// The texts of a list of source types.
pub open spec fn types_text_set(types: Seq<SourceType>) -> Set<Seq<char>> {
    Set::new(|x: Seq<char>| exists|k: int| 0 <= k < types.len() && type_text_set(#[trigger] types[k]).contains(x))
}

/// The texts of a source event: its id, its type, and the texts of its
/// attributes and relationships.
pub open spec fn event_text_set(e: SourceEvent, types: Seq<SourceType>, readings: Map<Seq<char>, FloatParse>) -> Set<Seq<char>> {
    Set::new(|x: Seq<char>| x == e.id@ || x == e.event_type@
        || attrs_text_set(e.attributes@, types, e.event_type@, readings).contains(x)
        || rels_text_set(e.relationships@).contains(x))
}

/// The texts of a source object, as for [`event_text_set`].
pub open spec fn object_text_set(o: SourceObject, types: Seq<SourceType>, readings: Map<Seq<char>, FloatParse>) -> Set<Seq<char>> {
    Set::new(|x: Seq<char>| x == o.id@ || x == o.object_type@
        || timed_attrs_text_set(o.attributes@, types, o.object_type@, readings).contains(x)
        || rels_text_set(o.relationships@).contains(x))
}

/// Every text of a source log: what the pool of its compact log may hold.
pub open spec fn source_texts(src: SourceLog, readings: Map<Seq<char>, FloatParse>) -> Set<Seq<char>> {
    Set::new(|x: Seq<char>|
        types_text_set(src.event_types@).contains(x)
        || types_text_set(src.object_types@).contains(x)
        || (exists|k: int| 0 <= k < src.events@.len() && event_text_set(#[trigger] src.events@[k], src.event_types@, readings).contains(x))
        || (exists|k: int| 0 <= k < src.objects@.len() && object_text_set(#[trigger] src.objects@[k], src.object_types@, readings).contains(x)))
}

/// The pool of `log` holds only texts of `src`.
pub open spec fn pool_from_source(log: CompactOcelLog, src: SourceLog, readings: Map<Seq<char>, FloatParse>) -> bool {
    forall|i: int| 0 <= i < log.pool@.len() ==> source_texts(src, readings).contains(#[trigger] log.pool@[i])
}

fn compact_types(types: &Vec<SourceType>, pool: &mut StringPool, label: &str) -> (r: Result<Vec<TypeDef>, OcelError>)
    requires
        old(pool).wf(),
    ensures
        final(pool).wf(),
        pool_extends(old(pool)@, final(pool)@),
        new_in(old(pool)@, final(pool)@, types_text_set(types@)),
        match r {
            Ok(ds) => types_ok(types@) && ds@.len() == types@.len() && forall|k: int| 0 <= k < ds@.len() ==> type_mirrors(final(pool)@, #[trigger] ds@[k], types@[k]),
            Err(e) => !types_ok(types@) && types_refusal(types@, label@, e.message@),
        },
{
    let mut names: StringHashMap<usize> = StringHashMap::new();
    let mut out: Vec<TypeDef> = Vec::new();
    let mut k: usize = 0;
    while k < types.len()
        invariant
            k <= types@.len(),
            pool.wf(),
            pool_extends(old(pool)@, pool@),
            new_in(old(pool)@, pool@, types_text_set(types@)),
            out@.len() == k,
            forall|x: int| 0 <= x < k ==> type_mirrors(pool@, #[trigger] out@[x], types@[x]),
            forall|x: int, y: int| 0 <= x < y < k ==> types@[x].name@ != types@[y].name@,
            forall|x: int| 0 <= x < k ==> crate::compact::source_type_ok(#[trigger] types@[x]),
            forall|t: Seq<char>| #[trigger] names@.contains_key(t) <==> exists|x: int| 0 <= x < k && types@[x].name@ == t,
        decreases types.len() - k,
    {
        let t = &types[k];
        if names.contains_key(t.name.as_str()) {
            proof {
                reveal_strlit("duplicate "); reveal_strlit(" '"); reveal_strlit("'");
                let x = choose|x: int| 0 <= x < k && types@[x].name@ == t.name@;
                assert(types@[k as int] == *t);
                assert(types@[x].name@ == types@[k as int].name@);
            }
            let m = message4("duplicate ", label, " '", t.name.as_str(), "'");
            return Err(OcelError::new(m));
        }
        names.insert(owned(t.name.as_str()), k);
        let ghost p0 = pool@;
        let d = compact_type_def(t, pool, label);
        proof {
            assert forall|x: Seq<char>| type_text_set(*t).contains(x) implies types_text_set(types@).contains(x) by {
                assert(types@[k as int] == *t);
            }
            lemma_new_in_subset(p0, pool@, type_text_set(*t), types_text_set(types@));
            lemma_new_in_step(old(pool)@, p0, pool@, types_text_set(types@));
        }
        let d = match d {
            Ok(d) => d,
            Err(e) => {
                assert(types@[k as int] == *t);
                assert(type_refusal(types@[k as int], label@, e.message@));
                return Err(e);
            },
        };
        proof {
            assert forall|x: int| 0 <= x < k implies type_mirrors(pool@, #[trigger] out@[x], types@[x]) by {
                lemma_type_mirrors_extends(p0, pool@, out@[x], types@[x]);
            }
        }
        out.push(d);
        k = k + 1;
    }
    Ok(out)
}


fn type_name_set(types: &Vec<SourceType>) -> (m: StringHashMap<usize>)
    ensures
        forall|t: Seq<char>| #[trigger] m@.contains_key(t) <==> type_known(types@, t),
{
    let mut m: StringHashMap<usize> = StringHashMap::new();
    let mut k: usize = 0;
    while k < types.len()
        invariant
            k <= types@.len(),
            forall|t: Seq<char>| #[trigger] m@.contains_key(t) <==> exists|x: int| 0 <= x < k && types@[x].name@ == t,
        decreases types.len() - k,
    {
        m.insert(owned(types[k].name.as_str()), k);
        k = k + 1;
    }
    m
}

/// Checks that every relationship points at a known object id.
fn check_relationships(
    rels: &Vec<SourceRelationship>,
    ids: &StringHashMap<usize>,
    src: &SourceLog,
    owner_kind: &str,
    owner_id: &str,
) -> (r: Result<(), OcelError>)
    requires
        forall|t: Seq<char>| #[trigger] ids@.contains_key(t) <==> object_known(*src, t),
    ensures
        r is Ok <==> rels_known(*src, rels@),
        match r {
            Ok(_) => true,
            Err(e) => rels_refusal(*src, rels@, owner_kind@, owner_id@, e.message@),
        },
{
    let mut i: usize = 0;
    while i < rels.len()
        invariant
            i <= rels@.len(),
            forall|t: Seq<char>| #[trigger] ids@.contains_key(t) <==> object_known(*src, t),
            forall|x: int| 0 <= x < i ==> object_known(*src, #[trigger] rels@[x].object_id@),
        decreases rels.len() - i,
    {
        if !ids.contains_key(rels[i].object_id.as_str()) {
            proof { reveal_strlit("' references unknown object '"); reveal_strlit("'"); reveal_strlit(" '"); }
            let mut m = owned(owner_kind);
            push_text(&mut m, " '");
            push_text(&mut m, owner_id);
            push_text(&mut m, "' references unknown object '");
            push_text(&mut m, rels[i].object_id.as_str());
            push_text(&mut m, "'");
            return Err(OcelError::new(m));
        }
        i = i + 1;
    }
    Ok(())
}

/// Validates a source log and builds the compact log: types, objects and
/// events are interned in order and every object gets its lifecycle.
pub fn from_source(src: &SourceLog, format: OcelFormat, readings: &FloatReadings) -> (r: Result<CompactOcelLog, OcelError>)
    ensures
        match r {
            Ok(log) => source_ok(*src, readings.table@) && log.wf() && log_mirrors(log, *src, readings.table@, format)
                && pool_from_source(log, *src, readings.table@),
            Err(e) => !source_ok(*src, readings.table@) && import_refusal(*src, readings.table@, e.message@),
        },
{
    let ghost rd = readings.table@;
    let ghost all = source_texts(*src, readings.table@);
    let mut pool = StringPool::new();
    let ghost e0 = pool@;
    proof { reveal_strlit("event type"); reveal_strlit("object type"); }
    let event_types = match compact_types(&src.event_types, &mut pool, "event type") {
        Ok(d) => d,
        Err(e) => return Err(e),
    };
    let ghost p0 = pool@;
    proof {
        lemma_new_in_subset(e0, p0, types_text_set(src.event_types@), all);
    }
    let object_types = match compact_types(&src.object_types, &mut pool, "object type") {
        Ok(d) => d,
        Err(e) => return Err(e),
    };
    proof {
        lemma_new_in_subset(p0, pool@, types_text_set(src.object_types@), all);
        lemma_new_in_step(e0, p0, pool@, all);
    }
    proof {
        assert forall|x: int| 0 <= x < event_types@.len() implies type_mirrors(pool@, #[trigger] event_types@[x], src.event_types@[x]) by {
            lemma_type_mirrors_extends(p0, pool@, event_types@[x], src.event_types@[x]);
        }
    }
    let event_type_names = type_name_set(&src.event_types);
    let object_type_names = type_name_set(&src.object_types);

    // Object ids are distinct and refer to declared object types.
    let mut object_ids: StringHashMap<usize> = StringHashMap::new();
    let mut k: usize = 0;
    while k < src.objects.len()
        invariant
            k <= src.objects@.len(),
            forall|t: Seq<char>| #[trigger] object_type_names@.contains_key(t) <==> type_known(src.object_types@, t),
            forall|t: Seq<char>| #[trigger] object_ids@.contains_key(t) <==> exists|x: int| 0 <= x < k && src.objects@[x].id@ == t,
            forall|x: int, y: int| 0 <= x < y < k ==> src.objects@[x].id@ != src.objects@[y].id@,
            forall|x: int| 0 <= x < k ==> type_known(src.object_types@, #[trigger] src.objects@[x].object_type@),
        decreases src.objects.len() - k,
    {
        let o = &src.objects[k];
        if object_ids.contains_key(o.id.as_str()) {
            proof { reveal_strlit("duplicate object id '"); reveal_strlit("'"); }
            return Err(OcelError::new(message2("duplicate object id '", o.id.as_str(), "'")));
        }
        if !object_type_names.contains_key(o.object_type.as_str()) {
            proof { reveal_strlit("object '"); reveal_strlit("' references unknown object type '"); reveal_strlit("'"); }
            return Err(OcelError::new(message4("object '", o.id.as_str(), "' references unknown object type '", o.object_type.as_str(), "'")));
        }
        object_ids.insert(owned(o.id.as_str()), k);
        k = k + 1;
    }
    proof {
        assert forall|t: Seq<char>| #[trigger] object_ids@.contains_key(t) <==> object_known(*src, t) by {}
    }

    // Event ids are distinct, refer to declared event types and known objects.
    let mut event_ids: StringHashMap<usize> = StringHashMap::new();
    let mut k: usize = 0;
    while k < src.events.len()
        invariant
            k <= src.events@.len(),
            forall|t: Seq<char>| #[trigger] event_type_names@.contains_key(t) <==> type_known(src.event_types@, t),
            forall|t: Seq<char>| #[trigger] object_ids@.contains_key(t) <==> object_known(*src, t),
            forall|t: Seq<char>| #[trigger] event_ids@.contains_key(t) <==> exists|x: int| 0 <= x < k && src.events@[x].id@ == t,
            forall|x: int, y: int| 0 <= x < y < k ==> src.events@[x].id@ != src.events@[y].id@,
            forall|x: int| 0 <= x < k ==> type_known(src.event_types@, #[trigger] src.events@[x].event_type@),
            forall|x: int| 0 <= x < k ==> rels_known(*src, #[trigger] src.events@[x].relationships@),
            forall|x: int, y: int| 0 <= x < y < src.objects@.len() ==> src.objects@[x].id@ != src.objects@[y].id@,
            forall|x: int| 0 <= x < src.objects@.len() ==> type_known(src.object_types@, #[trigger] src.objects@[x].object_type@),
        decreases src.events.len() - k,
    {
        let e = &src.events[k];
        if event_ids.contains_key(e.id.as_str()) {
            proof { reveal_strlit("duplicate event id '"); reveal_strlit("'"); }
            return Err(OcelError::new(message2("duplicate event id '", e.id.as_str(), "'")));
        }
        if !event_type_names.contains_key(e.event_type.as_str()) {
            proof { reveal_strlit("event '"); reveal_strlit("' references unknown event type '"); reveal_strlit("'"); }
            return Err(OcelError::new(message4("event '", e.id.as_str(), "' references unknown event type '", e.event_type.as_str(), "'")));
        }
        proof { reveal_strlit("event"); }
        match check_relationships(&e.relationships, &object_ids, src, "event", e.id.as_str()) {
            Ok(()) => {},
            Err(err) => return Err(err),
        }
        event_ids.insert(owned(e.id.as_str()), k);
        k = k + 1;
    }

    // Objects.
    let mut objects: Vec<Object> = Vec::new();
    let mut k: usize = 0;
    while k < src.objects.len()
        invariant
            k <= src.objects@.len(),
            pool.wf(),
            types_ok(src.object_types@),
            forall|t: Seq<char>| #[trigger] object_ids@.contains_key(t) <==> object_known(*src, t),
            objects@.len() == k,
            forall|x: int| 0 <= x < k ==> object_mirrors(pool@, #[trigger] objects@[x], src.objects@[x], src.object_types@, rd),
            forall|x: int| 0 <= x < k ==> (#[trigger] objects@[x]).lifecycle@.len() == 0,
            forall|x: int| 0 <= x < k ==> source_object_ok_but_type(*src, rd, #[trigger] src.objects@[x]),
            rd == readings.table@,
            forall|x: int, y: int| 0 <= x < y < src.objects@.len() ==> src.objects@[x].id@ != src.objects@[y].id@,
            forall|x: int| 0 <= x < src.objects@.len() ==> type_known(src.object_types@, #[trigger] src.objects@[x].object_type@),
            forall|x: int, y: int| 0 <= x < y < src.events@.len() ==> src.events@[x].id@ != src.events@[y].id@,
            types_ok(src.event_types@),
            types_ok(src.object_types@),
            forall|x: int| 0 <= x < src.events@.len() ==> type_known(src.event_types@, #[trigger] src.events@[x].event_type@),
            forall|x: int| 0 <= x < src.events@.len() ==> rels_known(*src, #[trigger] src.events@[x].relationships@),
            event_types@.len() == src.event_types@.len(),
            forall|x: int| 0 <= x < event_types@.len() ==> type_mirrors(pool@, #[trigger] event_types@[x], src.event_types@[x]),
            object_types@.len() == src.object_types@.len(),
            forall|x: int| 0 <= x < object_types@.len() ==> type_mirrors(pool@, #[trigger] object_types@[x], src.object_types@[x]),
            all == source_texts(*src, rd),
            e0.len() == 0,
            new_in(e0, pool@, all),
        decreases src.objects.len() - k,
    {
        let so = &src.objects[k];
        proof { reveal_strlit("object"); }
        match check_relationships(&so.relationships, &object_ids, src, "object", so.id.as_str()) {
            Ok(()) => {},
            Err(err) => return Err(err),
        }
        let ghost p1 = pool@;
        let ghost os = object_text_set(*so, src.object_types@, rd);
        proof {
            assert(src.objects@[k as int] == *so);
            assert forall|x: Seq<char>| os.contains(x) implies all.contains(x) by {
                assert(object_text_set(src.objects@[k as int], src.object_types@, rd).contains(x));
            }
            assert(os.contains(so.id@));
            assert(os.contains(so.object_type@));
        }
        let id = pool.intern(so.id.as_str());
        proof { lemma_new_in_intern(p1, pool@, so.id@, all); lemma_new_in_step(e0, p1, pool@, all); }
        let ghost p2 = pool@;
        let type_symbol = pool.intern(so.object_type.as_str());
        proof { lemma_new_in_intern(p2, pool@, so.object_type@, all); lemma_new_in_step(e0, p2, pool@, all); }
        let ghost p3 = pool@;
        let attributes = compact_timed_attributes(&so.attributes, &src.object_types, so.object_type.as_str(), readings, &mut pool);
        proof {
            let ts = timed_attrs_text_set(so.attributes@, src.object_types@, so.object_type@, rd);
            assert forall|x: Seq<char>| ts.contains(x) implies all.contains(x) by {
                assert(os.contains(x));
            }
            lemma_new_in_subset(p3, pool@, ts, all);
            lemma_new_in_step(e0, p3, pool@, all);
        }
        let attributes = match attributes {
            Ok(a) => a,
            Err(e) => return Err(e),
        };
        let ghost p4 = pool@;
        let relationships = compact_relationships(&so.relationships, &mut pool);
        proof {
            let rs = rels_text_set(so.relationships@);
            assert forall|x: Seq<char>| rs.contains(x) implies all.contains(x) by {
                assert(os.contains(x));
            }
            lemma_new_in_subset(p4, pool@, rs, all);
            lemma_new_in_step(e0, p4, pool@, all);
        }
        proof {
            assert forall|x: int| 0 <= x < k implies object_mirrors(pool@, #[trigger] objects@[x], src.objects@[x], src.object_types@, rd) by {
                lemma_object_mirrors_extends(p1, pool@, objects@[x], src.objects@[x], src.object_types@, rd);
            }
            assert forall|x: int| 0 <= x < event_types@.len() implies type_mirrors(pool@, #[trigger] event_types@[x], src.event_types@[x]) by {
                lemma_type_mirrors_extends(p1, pool@, event_types@[x], src.event_types@[x]);
            }
            assert forall|x: int| 0 <= x < object_types@.len() implies type_mirrors(pool@, #[trigger] object_types@[x], src.object_types@[x]) by {
                lemma_type_mirrors_extends(p1, pool@, object_types@[x], src.object_types@[x]);
            }
        }
        proof {
            assert forall|a: int| 0 <= a < so.attributes@.len() implies timestamp_of((#[trigger] so.attributes@[a]).time@) is Some
                && convert(so.attributes@[a].value, declared_type(src.object_types@, so.object_type@, so.attributes@[a].name@), rd) is Ok by {
                assert(timed_attribute_mirrors(pool@, attributes@[a], so.attributes@[a], declared_type(src.object_types@, so.object_type@, so.attributes@[a].name@), rd));
            }
            assert(source_object_ok_but_type(*src, rd, *so));
        }
        objects.push(Object { id, type_symbol, attributes, relationships, lifecycle: Vec::new() });
        proof {
            assert(objects@[k as int].lifecycle@.len() == 0);
        }
        k = k + 1;
    }

    // Events.
    let mut events: Vec<Event> = Vec::new();
    let mut k: usize = 0;
    while k < src.events.len()
        invariant
            k <= src.events@.len(),
            pool.wf(),
            types_ok(src.event_types@),
            events@.len() == k,
            forall|x: int| 0 <= x < k ==> event_mirrors(pool@, #[trigger] events@[x], src.events@[x], src.event_types@, rd),
            forall|x: int| 0 <= x < k ==> source_event_ok(*src, rd, #[trigger] src.events@[x]),
            forall|x: int| 0 <= x < src.events@.len() ==> type_known(src.event_types@, #[trigger] src.events@[x].event_type@),
            forall|x: int| 0 <= x < src.events@.len() ==> rels_known(*src, #[trigger] src.events@[x].relationships@),
            rd == readings.table@,
            forall|x: int, y: int| 0 <= x < y < src.objects@.len() ==> src.objects@[x].id@ != src.objects@[y].id@,
            forall|x: int| 0 <= x < src.objects@.len() ==> type_known(src.object_types@, #[trigger] src.objects@[x].object_type@),
            forall|x: int, y: int| 0 <= x < y < src.events@.len() ==> src.events@[x].id@ != src.events@[y].id@,
            types_ok(src.event_types@),
            types_ok(src.object_types@),
            forall|x: int| 0 <= x < src.objects@.len() ==> source_object_ok_but_type(*src, rd, #[trigger] src.objects@[x]),
            objects@.len() == src.objects@.len(),
            forall|x: int| 0 <= x < objects@.len() ==> object_mirrors(pool@, #[trigger] objects@[x], src.objects@[x], src.object_types@, rd),
            forall|x: int| 0 <= x < objects@.len() ==> (#[trigger] objects@[x]).lifecycle@.len() == 0,
            event_types@.len() == src.event_types@.len(),
            forall|x: int| 0 <= x < event_types@.len() ==> type_mirrors(pool@, #[trigger] event_types@[x], src.event_types@[x]),
            object_types@.len() == src.object_types@.len(),
            forall|x: int| 0 <= x < object_types@.len() ==> type_mirrors(pool@, #[trigger] object_types@[x], src.object_types@[x]),
            all == source_texts(*src, rd),
            e0.len() == 0,
            new_in(e0, pool@, all),
        decreases src.events.len() - k,
    {
        let se = &src.events[k];
        let time_ms = match parse_timestamp_ms(se.time.as_str()) {
            Ok(t) => t,
            Err(e) => return Err(e),
        };
        let ghost p1 = pool@;
        let ghost es = event_text_set(*se, src.event_types@, rd);
        proof {
            assert(src.events@[k as int] == *se);
            assert forall|x: Seq<char>| es.contains(x) implies all.contains(x) by {
                assert(event_text_set(src.events@[k as int], src.event_types@, rd).contains(x));
            }
            assert(es.contains(se.id@));
            assert(es.contains(se.event_type@));
        }
        let id = pool.intern(se.id.as_str());
        proof { lemma_new_in_intern(p1, pool@, se.id@, all); lemma_new_in_step(e0, p1, pool@, all); }
        let ghost p2 = pool@;
        let type_symbol = pool.intern(se.event_type.as_str());
        proof { lemma_new_in_intern(p2, pool@, se.event_type@, all); lemma_new_in_step(e0, p2, pool@, all); }
        let ghost p3 = pool@;
        let attributes = compact_attributes(&se.attributes, &src.event_types, se.event_type.as_str(), readings, &mut pool);
        proof {
            let ts = attrs_text_set(se.attributes@, src.event_types@, se.event_type@, rd);
            assert forall|x: Seq<char>| ts.contains(x) implies all.contains(x) by {
                assert(es.contains(x));
            }
            lemma_new_in_subset(p3, pool@, ts, all);
            lemma_new_in_step(e0, p3, pool@, all);
        }
        let attributes = match attributes {
            Ok(a) => a,
            Err(e) => return Err(e),
        };
        let ghost p4 = pool@;
        let relationships = compact_relationships(&se.relationships, &mut pool);
        proof {
            let rs = rels_text_set(se.relationships@);
            assert forall|x: Seq<char>| rs.contains(x) implies all.contains(x) by {
                assert(es.contains(x));
            }
            lemma_new_in_subset(p4, pool@, rs, all);
            lemma_new_in_step(e0, p4, pool@, all);
        }
        proof {
            assert forall|x: int| 0 <= x < k implies event_mirrors(pool@, #[trigger] events@[x], src.events@[x], src.event_types@, rd) by {
                lemma_event_mirrors_extends(p1, pool@, events@[x], src.events@[x], src.event_types@, rd);
            }
            assert forall|x: int| 0 <= x < objects@.len() implies object_mirrors(pool@, #[trigger] objects@[x], src.objects@[x], src.object_types@, rd) by {
                lemma_object_mirrors_extends(p1, pool@, objects@[x], src.objects@[x], src.object_types@, rd);
            }
            assert forall|x: int| 0 <= x < event_types@.len() implies type_mirrors(pool@, #[trigger] event_types@[x], src.event_types@[x]) by {
                lemma_type_mirrors_extends(p1, pool@, event_types@[x], src.event_types@[x]);
            }
            assert forall|x: int| 0 <= x < object_types@.len() implies type_mirrors(pool@, #[trigger] object_types@[x], src.object_types@[x]) by {
                lemma_type_mirrors_extends(p1, pool@, object_types@[x], src.object_types@[x]);
            }
        }
        proof {
            assert forall|a: int| 0 <= a < se.attributes@.len() implies convert((#[trigger] se.attributes@[a]).value, declared_type(src.event_types@, se.event_type@, se.attributes@[a].name@), rd) is Ok by {
                assert(attribute_mirrors(pool@, attributes@[a], se.attributes@[a], declared_type(src.event_types@, se.event_type@, se.attributes@[a].name@), rd));
            }
            assert(source_event_ok(*src, rd, *se));
        }
        events.push(Event { id, type_symbol, time_ms, attributes, relationships });
        k = k + 1;
    }

    // Object index: every object id symbol points at its object.
    let mut object_index: Vec<Option<usize>> = Vec::new();
    let n = pool.len();
    let mut s: usize = 0;
    while s < n
        invariant
            s <= n,
            object_index@.len() == s,
            forall|x: int| 0 <= x < s ==> object_index@[x] is None,
        decreases n - s,
    {
        object_index.push(None);
        s = s + 1;
    }
    let mut k: usize = 0;
    while k < objects.len()
        invariant
            k <= objects@.len(),
            object_index@.len() == n,
            n == pool@.len(),
            pool.wf(),
            objects@.len() == src.objects@.len(),
            forall|x: int, y: int| 0 <= x < y < src.objects@.len() ==> src.objects@[x].id@ != src.objects@[y].id@,
            forall|x: int| 0 <= x < objects@.len() ==> object_mirrors(pool@, #[trigger] objects@[x], src.objects@[x], src.object_types@, rd),
            forall|x: int| 0 <= x < k ==> object_index@[(#[trigger] objects@[x]).id.0 as int] == Some(x as usize),
            forall|t: int| 0 <= t < n && (#[trigger] object_index@[t]) is Some ==> object_index@[t]->0 < k && objects@[object_index@[t]->0 as int].id.0 == t,
        decreases objects.len() - k,
    {
        let id = objects[k].id;
        proof {
            assert(object_mirrors(pool@, objects@[k as int], src.objects@[k as int], src.object_types@, rd));
            assert forall|x: int| 0 <= x < k implies objects@[x].id != id by {
                assert(object_mirrors(pool@, objects@[x], src.objects@[x], src.object_types@, rd));
            }
        }
        object_index.set(id.0, Some(k));
        k = k + 1;
    }
    let ghost objects_before = objects@;
    build_lifecycles(&events, &mut objects, &object_index);
    let log = CompactOcelLog {
        format,
        pool,
        event_types,
        object_types,
        events,
        objects,
        object_index,
        state_leading_object_type: None,
    };
    proof {
        let pl = log.pool@;
        let n2 = pl.len();
        assert forall|x: int| 0 <= x < log.objects@.len() implies object_mirrors(pl, #[trigger] log.objects@[x], src.objects@[x], src.object_types@, rd) by {
            assert(same_but_lifecycle(log.objects@[x], objects_before[x]));
            assert(object_mirrors(pl, objects_before[x], src.objects@[x], src.object_types@, rd));
            assert(log.objects@[x].attributes@ == objects_before[x].attributes@);
            assert(log.objects@[x].relationships@ == objects_before[x].relationships@);
        }
        assert forall|x: int| 0 <= x < src.objects@.len() implies source_object_ok(*src, rd, #[trigger] src.objects@[x]) by {
            assert(source_object_ok_but_type(*src, rd, src.objects@[x]));
        }
        assert forall|k2: int| 0 <= k2 < log.event_types@.len() implies type_def_ok(n2, #[trigger] log.event_types@[k2]) by {
            assert(type_mirrors(pl, log.event_types@[k2], src.event_types@[k2]));
        }
        assert forall|k2: int| 0 <= k2 < log.object_types@.len() implies type_def_ok(n2, #[trigger] log.object_types@[k2]) by {
            assert(type_mirrors(pl, log.object_types@[k2], src.object_types@[k2]));
        }
        assert forall|k2: int| 0 <= k2 < log.events@.len() implies event_ok(n2, #[trigger] log.events@[k2]) by {
            let e = log.events@[k2];
            assert(event_mirrors(pl, e, src.events@[k2], src.event_types@, rd));
            assert forall|a: int| 0 <= a < e.attributes@.len() implies sym_ok(n2, #[trigger] e.attributes@[a].name) && value_ok(n2, e.attributes@[a].value) by {
                assert(attribute_mirrors(pl, e.attributes@[a], src.events@[k2].attributes@[a], declared_type(src.event_types@, src.events@[k2].event_type@, src.events@[k2].attributes@[a].name@), rd));
            }
        }
        assert forall|k2: int| 0 <= k2 < log.objects@.len() implies object_ok(n2, log.events@.len(), #[trigger] log.objects@[k2]) by {
            let o = log.objects@[k2];
            assert(object_mirrors(pl, o, src.objects@[k2], src.object_types@, rd));
            assert(is_lifecycle(log.events@, o.id, o.lifecycle@));
            assert forall|a: int| 0 <= a < o.attributes@.len() implies sym_ok(n2, #[trigger] o.attributes@[a].name) && value_ok(n2, o.attributes@[a].value) by {
                assert(timed_attribute_mirrors(pl, o.attributes@[a], src.objects@[k2].attributes@[a], declared_type(src.object_types@, src.objects@[k2].object_type@, src.objects@[k2].attributes@[a].name@), rd));
            }
        }
        assert(object_index_ok(log.object_index@, log.objects@)) by {
            assert forall|i: int| 0 <= i < log.objects@.len() implies (#[trigger] log.objects@[i]).id.0 < log.object_index@.len()
                && log.object_index@[log.objects@[i].id.0 as int] == Some(i as usize) by {
                assert(log.objects@[i].id == objects_before[i].id);
                assert(object_mirrors(pl, objects_before[i], src.objects@[i], src.object_types@, rd));
            }
            assert forall|t: int| 0 <= t < log.object_index@.len() && (#[trigger] log.object_index@[t]) is Some implies log.object_index@[t]->0 < log.objects@.len()
                && log.objects@[log.object_index@[t]->0 as int].id.0 == t by {
                let i = log.object_index@[t]->0 as int;
                assert(log.objects@[i].id == objects_before[i].id);
            }
        }
    }
    Ok(log)
}

/// An object refers to known objects and its attribute times and values convert.
pub open spec fn source_object_ok_but_type(src: SourceLog, readings: Map<Seq<char>, FloatParse>, o: SourceObject) -> bool {
    &&& rels_known(src, o.relationships@)
    &&& forall|a: int| 0 <= a < o.attributes@.len() ==> timestamp_of((#[trigger] o.attributes@[a]).time@) is Some
        && convert(
        o.attributes@[a].value,
        declared_type(src.object_types@, o.object_type@, o.attributes@[a].name@),
        readings,
    ) is Ok
}

} // verus!
