use vstd::prelude::*;
use vstd::hash_map::StringHashMap;
use crate::error::OcelError;
use crate::pool::{StringPool, Symbol};
use crate::model::{AttrType, AttrValue, AttributeDef, TypeDef, Attribute, TimedAttribute, Relationship};
use crate::text::{push_text, owned, trim_text, trim_seq, lower_text, ascii_lower, int_text, int_to_text, str_eq};
use crate::timefmt::{parse_timestamp_ms, timestamp_of};

verus! {

/// Attribute declaration of a source type.
pub struct SourceAttributeDef {
    pub name: String,
    pub attr_type: String,
}

/// Event or object type as read from a file.
pub struct SourceType {
    pub name: String,
    pub attributes: Vec<SourceAttributeDef>,
}

/// A finite floating-point number read from a file: its shortest round-trip
/// decimal text, and its integer value when it has no fractional part.
pub struct FloatValue {
    pub text: String,
    pub integral: Option<i64>,
}

/// Scalar attribute value as read from a file.
pub enum SourceValue {
    String(String),
    Integer(i64),
    Float(FloatValue),
    Boolean(bool),
}

pub struct SourceAttribute {
    pub name: String,
    pub value: SourceValue,
}

pub struct SourceTimedAttribute {
    pub name: String,
    pub time: String,
    pub value: SourceValue,
}

pub struct SourceRelationship {
    pub object_id: String,
    pub qualifier: String,
}

pub struct SourceEvent {
    pub id: String,
    pub event_type: String,
    pub time: String,
    pub attributes: Vec<SourceAttribute>,
    pub relationships: Vec<SourceRelationship>,
}

pub struct SourceObject {
    pub id: String,
    pub object_type: String,
    pub attributes: Vec<SourceTimedAttribute>,
    pub relationships: Vec<SourceRelationship>,
}

/// A log as read from a JSON or XML file, before validation and interning.
pub struct SourceLog {
    pub event_types: Vec<SourceType>,
    pub object_types: Vec<SourceType>,
    pub events: Vec<SourceEvent>,
    pub objects: Vec<SourceObject>,
}

/// Outcome of reading a decimal text as a 64-bit float.
pub enum FloatParse {
    /// Finite value, by its shortest round-trip decimal text.
    Finite(String),
    NotFinite,
    /// The text is no float; the parser's message.
    Invalid(String),
}

/// Float readings of texts: for a trimmed string the result of reading it as
/// a float, for the decimal text of an integer the float nearest to it.
pub struct FloatReadings {
    pub table: StringHashMap<FloatParse>,
}

impl FloatReadings {
    /// No readings.
    pub fn new() -> (r: FloatReadings)
        ensures
            r.table@ == Map::<Seq<char>, FloatParse>::empty(),
    {
        FloatReadings { table: StringHashMap::new() }
    }

    /// Records the reading of a text.
    pub fn insert(&mut self, text: String, reading: FloatParse)
        ensures
            final(self).table@ == old(self).table@.insert(text@, reading),
    {
        self.table.insert(text, reading);
    }
}

/// A converted attribute value before interning.
pub enum Scalar {
    Text(Seq<char>),
    Time(i64),
    Int(i64),
    Real(Seq<char>),
    Flag(bool),
}

/// The result `str::parse::<i64>` gives for a text.
pub uninterp spec fn i64_parse(text: Seq<char>) -> Result<i64, Seq<char>>;

/// Trusted: `str::parse::<i64>`, its error rendered with `to_string`.
#[verifier::external_body]
pub(crate) fn parse_i64(text: &str) -> (r: Result<i64, String>)
    ensures
        match r {
            Ok(v) => i64_parse(text@) == Ok::<i64, Seq<char>>(v),
            Err(e) => i64_parse(text@) == Err::<i64, Seq<char>>(e@),
        },
{
    text.parse::<i64>().map_err(|err| err.to_string())
}

pub open spec fn parse_attr_type(t: Seq<char>) -> Option<AttrType> {
    if t == AttrType::String.name() {
        Some(AttrType::String)
    } else if t == AttrType::Time.name() {
        Some(AttrType::Time)
    } else if t == AttrType::Integer.name() {
        Some(AttrType::Integer)
    } else if t == AttrType::Float.name() {
        Some(AttrType::Float)
    } else if t == AttrType::Boolean.name() {
        Some(AttrType::Boolean)
    } else {
        None
    }
}

/// Reads an OCEL attribute type name.
pub fn attr_type_from(t: &str) -> (r: Result<AttrType, OcelError>)
    ensures
        match r {
            Ok(a) => parse_attr_type(t@) == Some(a),
            Err(e) => parse_attr_type(t@) is None && e.message@ == "unsupported attribute type '"@ + t@ + "'"@,
        },
{
    proof {
        reveal_strlit("string");
        reveal_strlit("time");
        reveal_strlit("integer");
        reveal_strlit("float");
        reveal_strlit("boolean");
    }
    if str_eq(t, AttrType::String.as_str()) {
        Ok(AttrType::String)
    } else if str_eq(t, AttrType::Time.as_str()) {
        Ok(AttrType::Time)
    } else if str_eq(t, AttrType::Integer.as_str()) {
        Ok(AttrType::Integer)
    } else if str_eq(t, AttrType::Float.as_str()) {
        Ok(AttrType::Float)
    } else if str_eq(t, AttrType::Boolean.as_str()) {
        Ok(AttrType::Boolean)
    } else {
        let mut m = owned("unsupported attribute type '");
        proof { reveal_strlit("unsupported attribute type '"); reveal_strlit("'"); }
        push_text(&mut m, t);
        push_text(&mut m, "'");
        Err(OcelError::new(m))
    }
}

pub open spec fn infer_type(v: SourceValue) -> AttrType {
    match v {
        SourceValue::String(_) => AttrType::String,
        SourceValue::Integer(_) => AttrType::Integer,
        SourceValue::Float(_) => AttrType::Float,
        SourceValue::Boolean(_) => AttrType::Boolean,
    }
}

/// The text of a source value (`to_string` of the value).
pub open spec fn value_text(v: SourceValue) -> Seq<char> {
    match v {
        SourceValue::String(s) => s@,
        SourceValue::Integer(i) => int_text(i as int),
        SourceValue::Float(f) => f.text@,
        SourceValue::Boolean(b) => if b { "true"@ } else { "false"@ },
    }
}

pub open spec fn float_reading(readings: Map<Seq<char>, FloatParse>, key: Seq<char>, shown: Seq<char>) -> Result<Scalar, Seq<char>> {
    if !readings.contains_key(key) {
        Err("invalid float attribute '"@ + shown + "': no float reading"@)
    } else {
        match readings[key] {
            FloatParse::Finite(t) => Ok(Scalar::Real(t@)),
            FloatParse::NotFinite => Err("float attributes must be finite"@),
            FloatParse::Invalid(e) => Err("invalid float attribute '"@ + shown + "': "@ + e@),
        }
    }
}

/// Converts a source value to the declared type, or to the type inferred
/// from the value when none is declared.
pub open spec fn convert(v: SourceValue, declared: Option<AttrType>, readings: Map<Seq<char>, FloatParse>) -> Result<Scalar, Seq<char>> {
    let ty = match declared {
        Some(t) => t,
        None => infer_type(v),
    };
    match ty {
        AttrType::String => Ok(Scalar::Text(value_text(v))),
        AttrType::Time => match v {
            SourceValue::String(s) => match timestamp_of(s@) {
                Some(ms) => Ok(Scalar::Time(ms)),
                None => Err("invalid ISO 8601 timestamp '"@ + s@ + "'"@),
            },
            _ => Err("time attributes must be ISO 8601 strings"@),
        },
        AttrType::Integer => match v {
            SourceValue::Integer(i) => Ok(Scalar::Int(i)),
            SourceValue::Float(f) => match f.integral {
                Some(i) => Ok(Scalar::Int(i)),
                None => Err("integer attributes must be integer values"@),
            },
            SourceValue::String(s) => match i64_parse(trim_seq(s@)) {
                Ok(i) => Ok(Scalar::Int(i)),
                Err(e) => Err("invalid integer attribute '"@ + s@ + "': "@ + e),
            },
            SourceValue::Boolean(_) => Err("integer attributes must be integer values"@),
        },
        AttrType::Float => match v {
            SourceValue::Integer(i) => float_reading(readings, int_text(i as int), int_text(i as int)),
            SourceValue::Float(f) => Ok(Scalar::Real(f.text@)),
            SourceValue::String(s) => float_reading(readings, trim_seq(s@), s@),
            SourceValue::Boolean(_) => Err("float attributes must be numeric"@),
        },
        AttrType::Boolean => match v {
            SourceValue::Boolean(b) => Ok(Scalar::Flag(b)),
            SourceValue::String(s) => {
                let t = ascii_lower(trim_seq(s@));
                if t == "true"@ || t == "1"@ {
                    Ok(Scalar::Flag(true))
                } else if t == "false"@ || t == "0"@ {
                    Ok(Scalar::Flag(false))
                } else {
                    Err("invalid boolean attribute '"@ + s@ + "'"@)
                }
            },
            SourceValue::Integer(i) => if i == 1 {
                Ok(Scalar::Flag(true))
            } else if i == 0 {
                Ok(Scalar::Flag(false))
            } else {
                Err("boolean attributes must be true/false or 1/0"@)
            },
            SourceValue::Float(_) => Err("boolean attributes must be true/false or 1/0"@),
        },
    }
}

/// The interned value `v` stands for the converted scalar `c`.
pub open spec fn value_mirrors(pool: Seq<Seq<char>>, v: AttrValue, c: Scalar) -> bool {
    match (v, c) {
        (AttrValue::String(s), Scalar::Text(t)) => s.0 < pool.len() && pool[s.0 as int] == t,
        (AttrValue::Time(a), Scalar::Time(b)) => a == b,
        (AttrValue::Integer(a), Scalar::Int(b)) => a == b,
        (AttrValue::Float(s), Scalar::Real(t)) => s.0 < pool.len() && pool[s.0 as int] == t,
        (AttrValue::Boolean(a), Scalar::Flag(b)) => a == b,
        _ => false,
    }
}

fn read_float(readings: &FloatReadings, key: &str, shown: &str) -> (r: Result<String, OcelError>)
    ensures
        match r {
            Ok(t) => float_reading(readings.table@, key@, shown@) == Ok::<Scalar, Seq<char>>(Scalar::Real(t@)),
            Err(e) => float_reading(readings.table@, key@, shown@) == Err::<Scalar, Seq<char>>(e.message@),
        },
{
    proof {
        reveal_strlit("invalid float attribute '");
        reveal_strlit("': no float reading");
        reveal_strlit("float attributes must be finite");
        reveal_strlit("': ");
    }
    match readings.table.get(key) {
        None => {
            let mut m = owned("invalid float attribute '");
            push_text(&mut m, shown);
            push_text(&mut m, "': no float reading");
            Err(OcelError::new(m))
        },
        Some(FloatParse::Finite(t)) => Ok(owned(t.as_str())),
        Some(FloatParse::NotFinite) => Err(OcelError::new(owned("float attributes must be finite"))),
        Some(FloatParse::Invalid(e)) => {
            let mut m = owned("invalid float attribute '");
            push_text(&mut m, shown);
            push_text(&mut m, "': ");
            push_text(&mut m, e.as_str());
            Err(OcelError::new(m))
        },
    }
}

/// Every text that `q` adds to `p` belongs to `s`.
pub open spec fn new_in(p: Seq<Seq<char>>, q: Seq<Seq<char>>, s: Set<Seq<char>>) -> bool {
    forall|i: int| p.len() <= i < q.len() ==> s.contains(#[trigger] q[i])
}

pub proof fn lemma_new_in_step(p: Seq<Seq<char>>, q: Seq<Seq<char>>, r: Seq<Seq<char>>, s: Set<Seq<char>>)
    requires
        new_in(p, q, s),
        new_in(q, r, s),
        p.len() <= q.len(),
        r.len() >= q.len(),
        forall|k: int| 0 <= k < q.len() ==> #[trigger] r[k] == q[k],
    ensures
        new_in(p, r, s),
{
    assert forall|i: int| p.len() <= i < r.len() implies s.contains(#[trigger] r[i]) by {
        if i < q.len() {
            assert(r[i] == q[i]);
        }
    }
}

pub proof fn lemma_new_in_intern(q: Seq<Seq<char>>, r: Seq<Seq<char>>, x: Seq<char>, s: Set<Seq<char>>)
    requires
        r == q || r == q.push(x),
        s.contains(x),
    ensures
        new_in(q, r, s),
{
}

pub proof fn lemma_new_in_subset(p: Seq<Seq<char>>, q: Seq<Seq<char>>, s: Set<Seq<char>>, t: Set<Seq<char>>)
    requires
        new_in(p, q, s),
        s.subset_of(t),
    ensures
        new_in(p, q, t),
{
}

/// The text a source value converts to, if it converts to a text or a
/// float.
pub open spec fn value_text_set(v: SourceValue, declared: Option<AttrType>, readings: Map<Seq<char>, FloatParse>) -> Set<Seq<char>> {
    Set::new(|t: Seq<char>| convert(v, declared, readings) == Ok::<Scalar, Seq<char>>(Scalar::Text(t))
        || convert(v, declared, readings) == Ok::<Scalar, Seq<char>>(Scalar::Real(t)))
}

/// Converts and interns one source value.
pub fn compact_value(
    v: &SourceValue,
    declared: Option<AttrType>,
    readings: &FloatReadings,
    pool: &mut StringPool,
) -> (r: Result<AttrValue, OcelError>)
    requires
        old(pool).wf(),
    ensures
        final(pool).wf(),
        final(pool)@.len() >= old(pool)@.len(),
        forall|k: int| 0 <= k < old(pool)@.len() ==> #[trigger] final(pool)@[k] == old(pool)@[k],
        new_in(old(pool)@, final(pool)@, value_text_set(*v, declared, readings.table@)),
        match r {
            Ok(a) => convert(*v, declared, readings.table@) matches Ok(c) && value_mirrors(final(pool)@, a, c),
            Err(e) => convert(*v, declared, readings.table@) == Err::<Scalar, Seq<char>>(e.message@),
        },
{
    proof {
        reveal_strlit("true");
        reveal_strlit("false");
        reveal_strlit("1");
        reveal_strlit("0");
        reveal_strlit("time attributes must be ISO 8601 strings");
        reveal_strlit("integer attributes must be integer values");
        reveal_strlit("invalid integer attribute '");
        reveal_strlit("': ");
        reveal_strlit("float attributes must be numeric");
        reveal_strlit("invalid boolean attribute '");
        reveal_strlit("'");
        reveal_strlit("boolean attributes must be true/false or 1/0");
    }
    let ty = match declared {
        Some(t) => t,
        None => match v {
            SourceValue::String(_) => AttrType::String,
            SourceValue::Integer(_) => AttrType::Integer,
            SourceValue::Float(_) => AttrType::Float,
            SourceValue::Boolean(_) => AttrType::Boolean,
        },
    };
    match ty {
        AttrType::String => {
            let text = match v {
                SourceValue::String(s) => owned(s.as_str()),
                SourceValue::Integer(i) => int_to_text(*i),
                SourceValue::Float(f) => owned(f.text.as_str()),
                SourceValue::Boolean(b) => if *b { owned("true") } else { owned("false") },
            };
            let sym = pool.intern(text.as_str());
            Ok(AttrValue::String(sym))
        },
        AttrType::Time => match v {
            SourceValue::String(s) => match parse_timestamp_ms(s.as_str()) {
                Ok(ms) => Ok(AttrValue::Time(ms)),
                Err(e) => Err(e),
            },
            _ => Err(OcelError::new(owned("time attributes must be ISO 8601 strings"))),
        },
        AttrType::Integer => match v {
            SourceValue::Integer(i) => Ok(AttrValue::Integer(*i)),
            SourceValue::Float(f) => match f.integral {
                Some(i) => Ok(AttrValue::Integer(i)),
                None => Err(OcelError::new(owned("integer attributes must be integer values"))),
            },
            SourceValue::String(s) => {
                let t = trim_text(s.as_str());
                match parse_i64(t.as_str()) {
                    Ok(i) => Ok(AttrValue::Integer(i)),
                    Err(e) => {
                        let mut m = owned("invalid integer attribute '");
                        push_text(&mut m, s.as_str());
                        push_text(&mut m, "': ");
                        push_text(&mut m, e.as_str());
                        Err(OcelError::new(m))
                    },
                }
            },
            SourceValue::Boolean(_) => Err(OcelError::new(owned("integer attributes must be integer values"))),
        },
        AttrType::Float => {
            let text = match v {
                SourceValue::Integer(i) => {
                    let k = int_to_text(*i);
                    read_float(readings, k.as_str(), k.as_str())
                },
                SourceValue::Float(f) => Ok(owned(f.text.as_str())),
                SourceValue::String(s) => {
                    let k = trim_text(s.as_str());
                    read_float(readings, k.as_str(), s.as_str())
                },
                SourceValue::Boolean(_) => Err(OcelError::new(owned("float attributes must be numeric"))),
            };
            match text {
                Ok(t) => {
                    let sym = pool.intern(t.as_str());
                    Ok(AttrValue::Float(sym))
                },
                Err(e) => Err(e),
            }
        },
        AttrType::Boolean => match v {
            SourceValue::Boolean(b) => Ok(AttrValue::Boolean(*b)),
            SourceValue::String(s) => {
                let t0 = trim_text(s.as_str());
                let t = lower_text(t0.as_str());
                if str_eq(t.as_str(), "true") || str_eq(t.as_str(), "1") {
                    Ok(AttrValue::Boolean(true))
                } else if str_eq(t.as_str(), "false") || str_eq(t.as_str(), "0") {
                    Ok(AttrValue::Boolean(false))
                } else {
                    let mut m = owned("invalid boolean attribute '");
                    push_text(&mut m, s.as_str());
                    push_text(&mut m, "'");
                    Err(OcelError::new(m))
                }
            },
            SourceValue::Integer(i) => if *i == 1 {
                Ok(AttrValue::Boolean(true))
            } else if *i == 0 {
                Ok(AttrValue::Boolean(false))
            } else {
                Err(OcelError::new(owned("boolean attributes must be true/false or 1/0")))
            },
            SourceValue::Float(_) => Err(OcelError::new(owned("boolean attributes must be true/false or 1/0"))),
        },
    }
}

} // verus!
