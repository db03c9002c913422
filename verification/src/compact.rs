use vstd::prelude::*;
use vstd::hash_map::StringHashMap;
use crate::error::OcelError;
use crate::pool::{StringPool, Symbol};
use crate::model::{AttrType, AttrValue, AttributeDef, TypeDef, Attribute, TimedAttribute, Relationship};
use crate::text::{push_text, owned, str_eq};
use crate::timefmt::{parse_timestamp_ms, timestamp_of};
use crate::source::{
    SourceType, SourceAttribute, SourceTimedAttribute, SourceRelationship, SourceAttributeDef,
    FloatReadings, Scalar, parse_attr_type, convert, value_mirrors, compact_value, attr_type_from,
    FloatParse, new_in, value_text_set, lemma_new_in_step, lemma_new_in_intern, lemma_new_in_subset,
};

verus! {

/// The pool only grew; existing symbols keep their text.
pub open spec fn pool_extends(before: Seq<Seq<char>>, after: Seq<Seq<char>>) -> bool {
    after.len() >= before.len() && forall|k: int| 0 <= k < before.len() ==> #[trigger] after[k] == before[k]
}

pub open spec fn attr_names(t: SourceType) -> Seq<Seq<char>> {
    t.attributes@.map_values(|a: SourceAttributeDef| a.name@)
}

/// A source type whose attribute names are distinct and whose attribute
/// types are all known.
pub open spec fn source_type_ok(t: SourceType) -> bool {
    &&& forall|i: int, j: int| 0 <= i < j < t.attributes@.len() ==> t.attributes@[i].name@ != t.attributes@[j].name@
    &&& forall|i: int| 0 <= i < t.attributes@.len() ==> parse_attr_type(#[trigger] t.attributes@[i].attr_type@) is Some
}

/// The compact type `d` stands for the source type `t`.
pub open spec fn type_mirrors(pool: Seq<Seq<char>>, d: TypeDef, t: SourceType) -> bool {
    &&& d.name.0 < pool.len()
    &&& pool[d.name.0 as int] == t.name@
    &&& d.attributes@.len() == t.attributes@.len()
    &&& forall|i: int| 0 <= i < d.attributes@.len() ==> {
        &&& (#[trigger] d.attributes@[i]).name.0 < pool.len()
        &&& pool[d.attributes@[i].name.0 as int] == t.attributes@[i].name@
        &&& parse_attr_type(t.attributes@[i].attr_type@) == Some(d.attributes@[i].attr_type)
    }
}

/// The texts of a source type: its name and its attribute names.
pub open spec fn type_text_set(t: SourceType) -> Set<Seq<char>> {
    Set::new(|x: Seq<char>| x == t.name@ || exists|a: int| 0 <= a < t.attributes@.len() && #[trigger] t.attributes@[a].name@ == x)
}

/// The texts of source attributes: their names and the texts their values
/// convert to.
pub open spec fn attrs_text_set(
    attrs: Seq<SourceAttribute>,
    types: Seq<SourceType>,
    label: Seq<char>,
    readings: Map<Seq<char>, FloatParse>,
) -> Set<Seq<char>> {
    Set::new(|x: Seq<char>| exists|i: int| 0 <= i < attrs.len() && (#[trigger] attrs[i].name@ == x
        || value_text_set(attrs[i].value, declared_type(types, label, attrs[i].name@), readings).contains(x)))
}

/// The texts of timed source attributes, as for [`attrs_text_set`].
pub open spec fn timed_attrs_text_set(
    attrs: Seq<SourceTimedAttribute>,
    types: Seq<SourceType>,
    label: Seq<char>,
    readings: Map<Seq<char>, FloatParse>,
) -> Set<Seq<char>> {
    Set::new(|x: Seq<char>| exists|i: int| 0 <= i < attrs.len() && (#[trigger] attrs[i].name@ == x
        || value_text_set(attrs[i].value, declared_type(types, label, attrs[i].name@), readings).contains(x)))
}

/// The texts of source relationships: object ids and qualifiers.
pub open spec fn rels_text_set(rs: Seq<SourceRelationship>) -> Set<Seq<char>> {
    Set::new(|x: Seq<char>| exists|i: int| 0 <= i < rs.len() && (#[trigger] rs[i].object_id@ == x || rs[i].qualifier@ == x))
}

/// `msg` reports a fault of the source type: an attribute name that occurs
/// twice, or an attribute type that is not known.
pub open spec fn type_refusal(t: SourceType, label: Seq<char>, msg: Seq<char>) -> bool {
    ||| exists|a: int, b: int| 0 <= a < b < t.attributes@.len() && #[trigger] t.attributes@[a].name@ == #[trigger] t.attributes@[b].name@
        && msg == "duplicate attribute '"@ + t.attributes@[b].name@ + "' on "@ + label + " '"@ + t.name@ + "'"@
    ||| exists|a: int| 0 <= a < t.attributes@.len() && parse_attr_type(#[trigger] t.attributes@[a].attr_type@) is None
        && msg == "unsupported attribute type '"@ + t.attributes@[a].attr_type@ + "'"@
}

/// `msg` reports an attribute value that does not convert.
pub open spec fn attrs_refusal(
    attrs: Seq<SourceAttribute>,
    types: Seq<SourceType>,
    label: Seq<char>,
    readings: Map<Seq<char>, FloatParse>,
    msg: Seq<char>,
) -> bool {
    exists|i: int| 0 <= i < attrs.len()
        && convert((#[trigger] attrs[i]).value, declared_type(types, label, attrs[i].name@), readings) == Err::<Scalar, Seq<char>>(msg)
}

/// `msg` reports a timed attribute whose time does not read or whose value
/// does not convert.
pub open spec fn timed_attrs_refusal(
    attrs: Seq<SourceTimedAttribute>,
    types: Seq<SourceType>,
    label: Seq<char>,
    readings: Map<Seq<char>, FloatParse>,
    msg: Seq<char>,
) -> bool {
    exists|i: int| 0 <= i < attrs.len() && {
        ||| (timestamp_of((#[trigger] attrs[i]).time@) is None && msg == crate::timefmt::bad_timestamp_message(attrs[i].time@))
        ||| convert(attrs[i].value, declared_type(types, label, attrs[i].name@), readings) == Err::<Scalar, Seq<char>>(msg)
    }
}

/// Validates and interns one source type.
pub fn compact_type_def(source_type: &SourceType, pool: &mut StringPool, type_label: &str) -> (r: Result<TypeDef, OcelError>)
    requires
        old(pool).wf(),
    ensures
        final(pool).wf(),
        pool_extends(old(pool)@, final(pool)@),
        new_in(old(pool)@, final(pool)@, type_text_set(*source_type)),
        match r {
            Ok(d) => source_type_ok(*source_type) && type_mirrors(final(pool)@, d, *source_type),
            Err(e) => !source_type_ok(*source_type) && type_refusal(*source_type, type_label@, e.message@),
        },
{
    let mut seen: StringHashMap<usize> = StringHashMap::new();
    let mut attributes: Vec<AttributeDef> = Vec::new();
    let mut i: usize = 0;
    let n = source_type.attributes.len();
    while i < n
        invariant
            n == source_type.attributes@.len(),
            i <= n,
            pool.wf(),
            pool_extends(old(pool)@, pool@),
            new_in(old(pool)@, pool@, type_text_set(*source_type)),
            attributes@.len() == i,
            forall|a: int, b: int| 0 <= a < b < i ==> source_type.attributes@[a].name@ != source_type.attributes@[b].name@,
            forall|a: int| 0 <= a < i ==> parse_attr_type(#[trigger] source_type.attributes@[a].attr_type@) is Some,
            forall|k: Seq<char>| #[trigger] seen@.contains_key(k) <==> exists|a: int| 0 <= a < i && source_type.attributes@[a].name@ == k,
            forall|a: int| 0 <= a < i ==> {
                &&& (#[trigger] attributes@[a]).name.0 < pool@.len()
                &&& pool@[attributes@[a].name.0 as int] == source_type.attributes@[a].name@
                &&& parse_attr_type(source_type.attributes@[a].attr_type@) == Some(attributes@[a].attr_type)
            },
        decreases n - i,
    {
        let attribute = &source_type.attributes[i];
        if seen.contains_key(attribute.name.as_str()) {
            proof {
                let a = choose|a: int| 0 <= a < i && source_type.attributes@[a].name@ == attribute.name@;
                assert(source_type.attributes@[i as int] == *attribute);
                assert(source_type.attributes@[a].name@ == source_type.attributes@[i as int].name@);
                reveal_strlit("duplicate attribute '");
                reveal_strlit("' on ");
                reveal_strlit(" '");
                reveal_strlit("'");
            }
            let mut m = owned("duplicate attribute '");
            push_text(&mut m, attribute.name.as_str());
            push_text(&mut m, "' on ");
            push_text(&mut m, type_label);
            push_text(&mut m, " '");
            push_text(&mut m, source_type.name.as_str());
            push_text(&mut m, "'");
            return Err(OcelError::new(m));
        }
        let attr_type = match attr_type_from(attribute.attr_type.as_str()) {
            Ok(t) => t,
            Err(e) => {
                assert(source_type.attributes@[i as int] == *attribute);
                return Err(e);
            },
        };
        seen.insert(owned(attribute.name.as_str()), i);
        let ghost p1 = pool@;
        let name = pool.intern(attribute.name.as_str());
        proof {
            assert(type_text_set(*source_type).contains(attribute.name@));
            lemma_new_in_intern(p1, pool@, attribute.name@, type_text_set(*source_type));
            lemma_new_in_step(old(pool)@, p1, pool@, type_text_set(*source_type));
        }
        attributes.push(AttributeDef { name, attr_type });
        proof {
            assert forall|a: int, b: int| 0 <= a < b < i + 1 implies source_type.attributes@[a].name@ != source_type.attributes@[b].name@ by {
                if b == i {
                    assert(seen@.contains_key(source_type.attributes@[a].name@) == false ==> false) by {
                        if !seen@.contains_key(source_type.attributes@[a].name@) {
                        }
                    }
                }
            }
        }
        i = i + 1;
    }
    let ghost p1 = pool@;
    let name = pool.intern(source_type.name.as_str());
    proof {
        assert(type_text_set(*source_type).contains(source_type.name@));
        lemma_new_in_intern(p1, pool@, source_type.name@, type_text_set(*source_type));
        lemma_new_in_step(old(pool)@, p1, pool@, type_text_set(*source_type));
    }
    Ok(TypeDef { name, attributes })
}


/// Type names are distinct and every type is well formed.
pub open spec fn types_ok(types: Seq<SourceType>) -> bool {
    &&& forall|i: int, j: int| 0 <= i < j < types.len() ==> types[i].name@ != types[j].name@
    &&& forall|i: int| 0 <= i < types.len() ==> source_type_ok(#[trigger] types[i])
}

pub open spec fn declares(types: Seq<SourceType>, t: Seq<char>, a: Seq<char>, k: int, j: int) -> bool {
    0 <= k < types.len() && types[k].name@ == t && 0 <= j < types[k].attributes@.len()
        && types[k].attributes@[j].name@ == a
}

/// Declared type of attribute `a` on the type named `t`, if any.
pub open spec fn declared_type(types: Seq<SourceType>, t: Seq<char>, a: Seq<char>) -> Option<AttrType> {
    if exists|k: int, j: int| declares(types, t, a, k, j) {
        let (k, j) = choose|k: int, j: int| declares(types, t, a, k, j);
        parse_attr_type(types[k].attributes@[j].attr_type@)
    } else {
        None
    }
}

/// Looks up the declared type of an attribute on a named type.
pub fn lookup_declared(types: &Vec<SourceType>, t: &str, a: &str) -> (r: Option<AttrType>)
    requires
        types_ok(types@),
    ensures
        r == declared_type(types@, t@, a@),
{
    let mut k: usize = 0;
    while k < types.len()
        invariant
            k <= types@.len(),
            types_ok(types@),
            forall|x: int| 0 <= x < k ==> types@[x].name@ != t@,
        decreases types.len() - k,
    {
        if str_eq(types[k].name.as_str(), t) {
            let attrs = &types[k].attributes;
            let mut j: usize = 0;
            while j < attrs.len()
                invariant
                    k < types@.len(),
                    types_ok(types@),
                    types@[k as int].name@ == t@,
                    forall|x: int| 0 <= x < k ==> types@[x].name@ != t@,
                    attrs@ == types@[k as int].attributes@,
                    j <= attrs@.len(),
                    forall|y: int| 0 <= y < j ==> attrs@[y].name@ != a@,
                decreases attrs.len() - j,
            {
                if str_eq(attrs[j].name.as_str(), a) {
                    let r = attr_type_from(attrs[j].attr_type.as_str());
                    proof {
                        assert(declares(types@, t@, a@, k as int, j as int));
                        let (k2, j2) = choose|k2: int, j2: int| declares(types@, t@, a@, k2, j2);
                        assert(k2 == k) by {
                            if k2 < k { assert(types@[k2].name@ != t@); }
                            if k2 > k { assert(types@[k as int].name@ != types@[k2].name@); }
                        }
                        assert(j2 == j) by {
                            assert(source_type_ok(types@[k as int]));
                            if j2 < j { assert(attrs@[j2].name@ != a@); }
                            if j2 > j { assert(attrs@[j as int].name@ != attrs@[j2].name@); }
                        }
                    }
                    return match r {
                        Ok(ty) => Some(ty),
                        Err(_) => None,
                    };
                }
                j = j + 1;
            }
            proof {
                assert forall|k2: int, j2: int| !declares(types@, t@, a@, k2, j2) by {
                    if declares(types@, t@, a@, k2, j2) {
                        if k2 < k { assert(types@[k2].name@ != t@); }
                        if k2 > k { assert(types@[k as int].name@ != types@[k2].name@); }
                        assert(attrs@[j2].name@ != a@);
                    }
                }
            }
            return None;
        }
        k = k + 1;
    }
    None
}

/// The compact attribute stands for the source attribute.
pub open spec fn attribute_mirrors(
    pool: Seq<Seq<char>>,
    a: Attribute,
    s: SourceAttribute,
    declared: Option<AttrType>,
    readings: Map<Seq<char>, crate::source::FloatParse>,
) -> bool {
    &&& a.name.0 < pool.len()
    &&& pool[a.name.0 as int] == s.name@
    &&& convert(s.value, declared, readings) matches Ok(c) && value_mirrors(pool, a.value, c)
}

/// The compact timed attribute stands for the source attribute.
pub open spec fn timed_attribute_mirrors(
    pool: Seq<Seq<char>>,
    a: TimedAttribute,
    s: SourceTimedAttribute,
    declared: Option<AttrType>,
    readings: Map<Seq<char>, crate::source::FloatParse>,
) -> bool {
    &&& a.name.0 < pool.len()
    &&& pool[a.name.0 as int] == s.name@
    &&& timestamp_of(s.time@) == Some(a.time_ms)
    &&& convert(s.value, declared, readings) matches Ok(c) && value_mirrors(pool, a.value, c)
}

proof fn lemma_value_mirrors_extends(pool: Seq<Seq<char>>, pool2: Seq<Seq<char>>, v: AttrValue, c: Scalar)
    requires
        value_mirrors(pool, v, c),
        pool_extends(pool, pool2),
    ensures
        value_mirrors(pool2, v, c),
{
}

/// Converts and interns a list of event attributes.
pub fn compact_attributes(
    source_attributes: &Vec<SourceAttribute>,
    types: &Vec<SourceType>,
    type_label: &str,
    readings: &FloatReadings,
    pool: &mut StringPool,
) -> (r: Result<Vec<Attribute>, OcelError>)
    requires
        old(pool).wf(),
        types_ok(types@),
    ensures
        final(pool).wf(),
        pool_extends(old(pool)@, final(pool)@),
        new_in(old(pool)@, final(pool)@, attrs_text_set(source_attributes@, types@, type_label@, readings.table@)),
        match r {
            Ok(v) => v@.len() == source_attributes@.len() && forall|i: int| 0 <= i < v@.len() ==> attribute_mirrors(
                final(pool)@,
                #[trigger] v@[i],
                source_attributes@[i],
                declared_type(types@, type_label@, source_attributes@[i].name@),
                readings.table@,
            ),
            Err(e) => exists|i: int| 0 <= i < source_attributes@.len() && (convert(
                (#[trigger] source_attributes@[i]).value,
                declared_type(types@, type_label@, source_attributes@[i].name@),
                readings.table@,
            ) is Err) && attrs_refusal(source_attributes@, types@, type_label@, readings.table@, e.message@),
        },
{
    let mut out: Vec<Attribute> = Vec::new();
    let mut i: usize = 0;
    while i < source_attributes.len()
        invariant
            i <= source_attributes@.len(),
            pool.wf(),
            types_ok(types@),
            pool_extends(old(pool)@, pool@),
            new_in(old(pool)@, pool@, attrs_text_set(source_attributes@, types@, type_label@, readings.table@)),
            out@.len() == i,
            forall|k: int| 0 <= k < i ==> attribute_mirrors(
                pool@,
                #[trigger] out@[k],
                source_attributes@[k],
                declared_type(types@, type_label@, source_attributes@[k].name@),
                readings.table@,
            ),
        decreases source_attributes.len() - i,
    {
        let sa = &source_attributes[i];
        let declared = lookup_declared(types, type_label, sa.name.as_str());
        let ghost p0 = pool@;
        let value = match compact_value(&sa.value, declared, readings, pool) {
            Ok(v) => v,
            Err(e) => return Err(e),
        };
        let ghost set = attrs_text_set(source_attributes@, types@, type_label@, readings.table@);
        proof {
            let vs = value_text_set(sa.value, declared, readings.table@);
            assert forall|x: Seq<char>| vs.contains(x) implies set.contains(x) by {
                assert(source_attributes@[i as int] == *sa);
            }
            lemma_new_in_subset(p0, pool@, vs, set);
            lemma_new_in_step(old(pool)@, p0, pool@, set);
        }
        let ghost p1 = pool@;
        let name = pool.intern(sa.name.as_str());
        proof {
            assert(source_attributes@[i as int].name@ == sa.name@);
            assert(set.contains(sa.name@));
            lemma_new_in_intern(p1, pool@, sa.name@, set);
            lemma_new_in_step(old(pool)@, p1, pool@, set);
        }
        proof {
            assert forall|k: int| 0 <= k < i implies attribute_mirrors(
                pool@,
                #[trigger] out@[k],
                source_attributes@[k],
                declared_type(types@, type_label@, source_attributes@[k].name@),
                readings.table@,
            ) by {
                let c = convert(source_attributes@[k].value, declared_type(types@, type_label@, source_attributes@[k].name@), readings.table@)->Ok_0;
                lemma_value_mirrors_extends(p0, pool@, out@[k].value, c);
            }
            let c = convert(sa.value, declared, readings.table@)->Ok_0;
        }
        out.push(Attribute { name, value });
        i = i + 1;
    }
    Ok(out)
}

/// Converts and interns a list of object attributes with their times.
pub fn compact_timed_attributes(
    source_attributes: &Vec<SourceTimedAttribute>,
    types: &Vec<SourceType>,
    type_label: &str,
    readings: &FloatReadings,
    pool: &mut StringPool,
) -> (r: Result<Vec<TimedAttribute>, OcelError>)
    requires
        old(pool).wf(),
        types_ok(types@),
    ensures
        final(pool).wf(),
        pool_extends(old(pool)@, final(pool)@),
        new_in(old(pool)@, final(pool)@, timed_attrs_text_set(source_attributes@, types@, type_label@, readings.table@)),
        match r {
            Ok(v) => v@.len() == source_attributes@.len() && forall|i: int| 0 <= i < v@.len() ==> timed_attribute_mirrors(
                final(pool)@,
                #[trigger] v@[i],
                source_attributes@[i],
                declared_type(types@, type_label@, source_attributes@[i].name@),
                readings.table@,
            ),
            Err(e) => exists|i: int| 0 <= i < source_attributes@.len() && (timestamp_of((#[trigger] source_attributes@[i]).time@) is None || convert(
                source_attributes@[i].value,
                declared_type(types@, type_label@, source_attributes@[i].name@),
                readings.table@,
            ) is Err) && timed_attrs_refusal(source_attributes@, types@, type_label@, readings.table@, e.message@),
        },
{
    let mut out: Vec<TimedAttribute> = Vec::new();
    let mut i: usize = 0;
    while i < source_attributes.len()
        invariant
            i <= source_attributes@.len(),
            pool.wf(),
            types_ok(types@),
            pool_extends(old(pool)@, pool@),
            new_in(old(pool)@, pool@, timed_attrs_text_set(source_attributes@, types@, type_label@, readings.table@)),
            out@.len() == i,
            forall|k: int| 0 <= k < i ==> timed_attribute_mirrors(
                pool@,
                #[trigger] out@[k],
                source_attributes@[k],
                declared_type(types@, type_label@, source_attributes@[k].name@),
                readings.table@,
            ),
        decreases source_attributes.len() - i,
    {
        let sa = &source_attributes[i];
        let declared = lookup_declared(types, type_label, sa.name.as_str());
        let time_ms = match parse_timestamp_ms(sa.time.as_str()) {
            Ok(t) => t,
            Err(e) => return Err(e),
        };
        let ghost p0 = pool@;
        let value = match compact_value(&sa.value, declared, readings, pool) {
            Ok(v) => v,
            Err(e) => return Err(e),
        };
        let ghost set = timed_attrs_text_set(source_attributes@, types@, type_label@, readings.table@);
        proof {
            let vs = value_text_set(sa.value, declared, readings.table@);
            assert forall|x: Seq<char>| vs.contains(x) implies set.contains(x) by {
                assert(source_attributes@[i as int] == *sa);
            }
            lemma_new_in_subset(p0, pool@, vs, set);
            lemma_new_in_step(old(pool)@, p0, pool@, set);
        }
        let ghost p1 = pool@;
        let name = pool.intern(sa.name.as_str());
        proof {
            assert(source_attributes@[i as int].name@ == sa.name@);
            assert(set.contains(sa.name@));
            lemma_new_in_intern(p1, pool@, sa.name@, set);
            lemma_new_in_step(old(pool)@, p1, pool@, set);
        }
        proof {
            assert forall|k: int| 0 <= k < i implies timed_attribute_mirrors(
                pool@,
                #[trigger] out@[k],
                source_attributes@[k],
                declared_type(types@, type_label@, source_attributes@[k].name@),
                readings.table@,
            ) by {
                let c = convert(source_attributes@[k].value, declared_type(types@, type_label@, source_attributes@[k].name@), readings.table@)->Ok_0;
                lemma_value_mirrors_extends(p0, pool@, out@[k].value, c);
            }
        }
        out.push(TimedAttribute { name, time_ms, value });
        i = i + 1;
    }
    Ok(out)
}

/// The compact relationships stand for the source relationships.
pub open spec fn relationships_mirror(pool: Seq<Seq<char>>, rs: Seq<Relationship>, ss: Seq<SourceRelationship>) -> bool {
    &&& rs.len() == ss.len()
    &&& forall|i: int| 0 <= i < rs.len() ==> {
        &&& (#[trigger] rs[i]).object_id.0 < pool.len()
        &&& rs[i].qualifier.0 < pool.len()
        &&& pool[rs[i].object_id.0 as int] == ss[i].object_id@
        &&& pool[rs[i].qualifier.0 as int] == ss[i].qualifier@
    }
}

/// Interns a list of relationships.
pub fn compact_relationships(relationships: &Vec<SourceRelationship>, pool: &mut StringPool) -> (r: Vec<Relationship>)
    requires
        old(pool).wf(),
    ensures
        final(pool).wf(),
        pool_extends(old(pool)@, final(pool)@),
        relationships_mirror(final(pool)@, r@, relationships@),
        new_in(old(pool)@, final(pool)@, rels_text_set(relationships@)),
{
    let mut out: Vec<Relationship> = Vec::new();
    let mut i: usize = 0;
    while i < relationships.len()
        invariant
            i <= relationships@.len(),
            pool.wf(),
            pool_extends(old(pool)@, pool@),
            out@.len() == i,
            relationships_mirror(pool@, out@, relationships@.take(i as int)),
            new_in(old(pool)@, pool@, rels_text_set(relationships@)),
        decreases relationships.len() - i,
    {
        let ghost set = rels_text_set(relationships@);
        let ghost p0 = pool@;
        let object_id = pool.intern(relationships[i].object_id.as_str());
        proof {
            assert(set.contains(relationships@[i as int].object_id@));
            lemma_new_in_intern(p0, pool@, relationships@[i as int].object_id@, set);
            lemma_new_in_step(old(pool)@, p0, pool@, set);
        }
        let ghost p1 = pool@;
        let qualifier = pool.intern(relationships[i].qualifier.as_str());
        proof {
            assert(set.contains(relationships@[i as int].qualifier@));
            lemma_new_in_intern(p1, pool@, relationships@[i as int].qualifier@, set);
            lemma_new_in_step(old(pool)@, p1, pool@, set);
        }
        out.push(Relationship { object_id, qualifier });
        i = i + 1;
        assert(relationships_mirror(pool@, out@, relationships@.take(i as int)));
    }
    assert(relationships@.take(i as int) =~= relationships@);
    out
}

} // verus!
