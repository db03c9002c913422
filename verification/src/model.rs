use vstd::prelude::*;
use crate::pool::{StringPool, Symbol};

verus! {

/// Source format of an imported log.
#[derive(Clone, Copy, PartialEq, Eq, Structural, Debug)]
pub enum OcelFormat {
    Json,
    Xml,
}

impl OcelFormat {
    pub open spec fn name(self) -> Seq<char> {
        match self {
            OcelFormat::Json => seq!['j', 's', 'o', 'n'],
            OcelFormat::Xml => seq!['x', 'm', 'l'],
        }
    }

    /// Lower-case name of the format.
    pub fn as_str(self) -> (s: &'static str)
        ensures
            s@ == self.name(),
    {
        match self {
            OcelFormat::Json => {
                let s = "json";
                proof { reveal_strlit("json"); }
                s
            },
            OcelFormat::Xml => {
                let s = "xml";
                proof { reveal_strlit("xml"); }
                s
            },
        }
    }
}

/// Declared type of an attribute.
#[derive(Clone, Copy, PartialEq, Eq, Structural, Debug)]
pub enum AttrType {
    String,
    Time,
    Integer,
    Float,
    Boolean,
}

impl AttrType {
    pub open spec fn name(self) -> Seq<char> {
        match self {
            AttrType::String => seq!['s', 't', 'r', 'i', 'n', 'g'],
            AttrType::Time => seq!['t', 'i', 'm', 'e'],
            AttrType::Integer => seq!['i', 'n', 't', 'e', 'g', 'e', 'r'],
            AttrType::Float => seq!['f', 'l', 'o', 'a', 't'],
            AttrType::Boolean => seq!['b', 'o', 'o', 'l', 'e', 'a', 'n'],
        }
    }

    /// The OCEL 2.0 name of the type.
    pub fn as_str(self) -> (s: &'static str)
        ensures
            s@ == self.name(),
    {
        match self {
            AttrType::String => {
                proof { reveal_strlit("string"); }
                "string"
            },
            AttrType::Time => {
                proof { reveal_strlit("time"); }
                "time"
            },
            AttrType::Integer => {
                proof { reveal_strlit("integer"); }
                "integer"
            },
            AttrType::Float => {
                proof { reveal_strlit("float"); }
                "float"
            },
            AttrType::Boolean => {
                proof { reveal_strlit("boolean"); }
                "boolean"
            },
        }
    }
}

/// A typed attribute value. Strings are interned; a floating-point value is
/// held as the interned shortest decimal text that round-trips to it.
#[derive(Clone, Copy, PartialEq, Eq, Structural, Debug)]
pub enum AttrValue {
    String(Symbol),
    Time(i64),
    Integer(i64),
    Float(Symbol),
    Boolean(bool),
}

#[derive(Clone, Copy, PartialEq, Eq, Structural, Debug)]
pub struct AttributeDef {
    pub name: Symbol,
    pub attr_type: AttrType,
}

#[derive(Clone, Debug)]
pub struct TypeDef {
    pub name: Symbol,
    pub attributes: Vec<AttributeDef>,
}

#[derive(Clone, Copy, PartialEq, Eq, Structural, Debug)]
pub struct Attribute {
    pub name: Symbol,
    pub value: AttrValue,
}

#[derive(Clone, Copy, PartialEq, Eq, Structural, Debug)]
pub struct TimedAttribute {
    pub name: Symbol,
    pub time_ms: i64,
    pub value: AttrValue,
}

#[derive(Clone, Copy, PartialEq, Eq, Structural, Debug)]
pub struct Relationship {
    pub object_id: Symbol,
    pub qualifier: Symbol,
}

#[derive(Clone, Debug)]
pub struct Event {
    pub id: Symbol,
    pub type_symbol: Symbol,
    pub time_ms: i64,
    pub attributes: Vec<Attribute>,
    pub relationships: Vec<Relationship>,
}

#[derive(Clone, Debug)]
pub struct Object {
    pub id: Symbol,
    pub type_symbol: Symbol,
    pub attributes: Vec<TimedAttribute>,
    pub relationships: Vec<Relationship>,
    /// Positions of related events, ordered by (time, position).
    pub lifecycle: Vec<usize>,
}

/// The compact in-memory log.
pub struct CompactOcelLog {
    pub format: OcelFormat,
    pub pool: StringPool,
    pub event_types: Vec<TypeDef>,
    pub object_types: Vec<TypeDef>,
    pub events: Vec<Event>,
    pub objects: Vec<Object>,
    /// For each symbol, the position of the object with that id.
    pub object_index: Vec<Option<usize>>,
    pub state_leading_object_type: Option<Symbol>,
}

pub open spec fn sym_ok(n: nat, s: Symbol) -> bool {
    s.0 < n
}

pub open spec fn value_ok(n: nat, v: AttrValue) -> bool {
    match v {
        AttrValue::String(s) => sym_ok(n, s),
        AttrValue::Float(s) => sym_ok(n, s),
        _ => true,
    }
}

pub open spec fn type_def_ok(n: nat, t: TypeDef) -> bool {
    &&& sym_ok(n, t.name)
    &&& forall|k: int| 0 <= k < t.attributes@.len() ==> sym_ok(n, #[trigger] t.attributes@[k].name)
}

pub open spec fn relationships_ok(n: nat, rs: Seq<Relationship>) -> bool {
    forall|k: int|
        0 <= k < rs.len() ==> sym_ok(n, #[trigger] rs[k].object_id) && sym_ok(n, rs[k].qualifier)
}

pub open spec fn attributes_ok(n: nat, attrs: Seq<Attribute>) -> bool {
    forall|k: int| 0 <= k < attrs.len() ==> sym_ok(n, #[trigger] attrs[k].name) && value_ok(n, attrs[k].value)
}

pub open spec fn timed_attributes_ok(n: nat, attrs: Seq<TimedAttribute>) -> bool {
    forall|k: int| 0 <= k < attrs.len() ==> sym_ok(n, #[trigger] attrs[k].name) && value_ok(n, attrs[k].value)
}

pub open spec fn event_ok(n: nat, e: Event) -> bool {
    &&& sym_ok(n, e.id)
    &&& sym_ok(n, e.type_symbol)
    &&& attributes_ok(n, e.attributes@)
    &&& relationships_ok(n, e.relationships@)
}

pub open spec fn object_ok(n: nat, ne: nat, o: Object) -> bool {
    &&& sym_ok(n, o.id)
    &&& sym_ok(n, o.type_symbol)
    &&& timed_attributes_ok(n, o.attributes@)
    &&& relationships_ok(n, o.relationships@)
    &&& forall|k: int| 0 <= k < o.lifecycle@.len() ==> #[trigger] o.lifecycle@[k] < ne
}

/// `index` maps each object id to the object's position and nothing else.
pub open spec fn object_index_ok(index: Seq<Option<usize>>, objects: Seq<Object>) -> bool {
    &&& forall|i: int|
        0 <= i < objects.len() ==> (#[trigger] objects[i]).id.0 < index.len() && index[objects[i].id.0 as int]
            == Some(i as usize)
    &&& forall|s: int|
        0 <= s < index.len() && (#[trigger] index[s]) is Some ==> index[s]->0 < objects.len()
            && objects[index[s]->0 as int].id.0 == s
}

impl CompactOcelLog {
    /// Every symbol is interned, every position is in range and the object
    /// index agrees with the objects.
    pub open spec fn wf(&self) -> bool {
        let n = self.pool@.len();
        &&& self.pool.wf()
        &&& forall|k: int| 0 <= k < self.event_types@.len() ==> type_def_ok(n, #[trigger] self.event_types@[k])
        &&& forall|k: int| 0 <= k < self.object_types@.len() ==> type_def_ok(n, #[trigger] self.object_types@[k])
        &&& forall|k: int| 0 <= k < self.events@.len() ==> event_ok(n, #[trigger] self.events@[k])
        &&& forall|k: int|
            0 <= k < self.objects@.len() ==> object_ok(n, self.events@.len(), #[trigger] self.objects@[k])
        &&& object_index_ok(self.object_index@, self.objects@)
        &&& self.object_index@.len() <= n
        &&& match self.state_leading_object_type {
            Some(s) => sym_ok(n, s),
            None => true,
        }
    }

    /// The text of a symbol.
    pub open spec fn text(&self, s: Symbol) -> Seq<char> {
        self.pool@[s.0 as int]
    }

    /// Position of the object with the given id symbol.
    pub fn object_position(&self, id: Symbol) -> (r: Option<usize>)
        requires
            self.wf(),
        ensures
            match r {
                Some(i) => i < self.objects@.len() && self.objects@[i as int].id == id,
                None => forall|i: int| 0 <= i < self.objects@.len() ==> self.objects@[i].id != id,
            },
    {
        if id.0 < self.object_index.len() {
            let r = self.object_index[id.0];
            proof {
                if r is None {
                    assert forall|i: int| 0 <= i < self.objects@.len() implies self.objects@[i].id != id by {
                        if self.objects@[i].id == id {
                            assert(self.object_index@[self.objects@[i].id.0 as int] == Some(i as usize));
                        }
                    }
                }
            }
            r
        } else {
            proof {
                assert forall|i: int| 0 <= i < self.objects@.len() implies self.objects@[i].id != id by {
                    assert(self.objects@[i].id.0 < self.object_index@.len());
                }
            }
            None
        }
    }
}

} // verus!
