use vstd::prelude::*;
use crate::text::owned;

verus! {

/// A JSON document built by the library; members of an object keep their
/// order. Turning it into text is left to the caller.
pub enum JsonValue {
    Null,
    Bool(bool),
    Int(i64),
    Count(usize),
    /// A finite number given by its shortest round-trip decimal text.
    Float(String),
    Str(String),
    Array(Vec<JsonValue>),
    Object(Vec<(String, JsonValue)>),
}

/// Mathematical model of a JSON document.
pub enum Json {
    Null,
    Bool(bool),
    Int(int),
    Float(Seq<char>),
    Str(Seq<char>),
    Array(Seq<Json>),
    Object(Seq<(Seq<char>, Json)>),
}

impl JsonValue {
    pub open spec fn model(self) -> Json
        decreases self,
    {
        match self {
            JsonValue::Null => Json::Null,
            JsonValue::Bool(b) => Json::Bool(b),
            JsonValue::Int(i) => Json::Int(i as int),
            JsonValue::Count(n) => Json::Int(n as int),
            JsonValue::Float(t) => Json::Float(t@),
            JsonValue::Str(s) => Json::Str(s@),
            JsonValue::Array(items) => Json::Array(
                Seq::new(items@.len(), |i: int| if 0 <= i < items@.len() { items@[i].model() } else { Json::Null }),
            ),
            JsonValue::Object(members) => Json::Object(
                Seq::new(members@.len(), |i: int| if 0 <= i < members@.len() { (members@[i].0@, members@[i].1.model()) } else { (Seq::empty(), Json::Null) }),
            ),
        }
    }
}

/// Model of the members of an object.
pub open spec fn members_model(ms: Seq<(String, JsonValue)>) -> Seq<(Seq<char>, Json)> {
    Seq::new(ms.len(), |i: int| (ms[i].0@, ms[i].1.model()))
}

/// Model of the items of an array.
pub open spec fn items_model(items: Seq<JsonValue>) -> Seq<Json> {
    Seq::new(items.len(), |i: int| items[i].model())
}

/// Builds an object from members.
pub fn object(members: Vec<(String, JsonValue)>) -> (j: JsonValue)
    ensures
        j == JsonValue::Object(members),
        j.model() == Json::Object(members_model(members@)),
{
    let j = JsonValue::Object(members);
    assert(j.model()->Object_0 =~= members_model(members@));
    j
}

/// Builds an array from items.
pub fn array(items: Vec<JsonValue>) -> (j: JsonValue)
    ensures
        j.model() == Json::Array(items_model(items@)),
{
    let j = JsonValue::Array(items);
    assert(j.model()->Array_0 =~= items_model(items@));
    j
}

/// Appends a member with a literal key.
pub fn add_member(members: &mut Vec<(String, JsonValue)>, key: &str, value: JsonValue)
    ensures
        members_model(final(members)@) == members_model(old(members)@).push((key@, value.model())),
{
    let ghost v = value.model();
    members.push((owned(key), value));
    assert(members_model(members@) =~= members_model(old(members)@).push((key@, v)));
}

/// Appends an item.
pub fn add_item(items: &mut Vec<JsonValue>, value: JsonValue)
    ensures
        items_model(final(items)@) == items_model(old(items)@).push(value.model()),
{
    let ghost v = value.model();
    items.push(value);
    assert(items_model(items@) =~= items_model(old(items)@).push(v));
}

/// A string value.
pub fn text_value(s: &str) -> (j: JsonValue)
    ensures
        j.model() == Json::Str(s@),
{
    JsonValue::Str(owned(s))
}

/// Gathers results in order; the first error wins.
pub open spec fn collect(rs: Seq<Result<Json, Seq<char>>>) -> Result<Seq<Json>, Seq<char>>
    decreases rs.len(),
{
    if rs.len() == 0 {
        Ok(Seq::empty())
    } else {
        match collect(rs.drop_last()) {
            Err(e) => Err(e),
            Ok(xs) => match rs.last() {
                Err(e) => Err(e),
                Ok(x) => Ok(xs.push(x)),
            },
        }
    }
}

/// Once a prefix has failed, the whole fails the same way.
pub proof fn lemma_collect_stuck(rs: Seq<Result<Json, Seq<char>>>, j: int)
    requires
        0 <= j <= rs.len(),
        collect(rs.take(j)) is Err,
    ensures
        collect(rs) == collect(rs.take(j)),
    decreases rs.len() - j,
{
    if j < rs.len() {
        assert(rs.take(j + 1).drop_last() =~= rs.take(j));
        lemma_collect_stuck(rs, j + 1);
    } else {
        assert(rs.take(j) =~= rs);
    }
}

/// One more step of `collect`.
pub proof fn lemma_collect_step(rs: Seq<Result<Json, Seq<char>>>, k: int)
    requires
        0 <= k < rs.len(),
    ensures
        collect(rs.take(k + 1)) == match collect(rs.take(k)) {
            Err(e) => Err(e),
            Ok(xs) => match rs[k] {
                Err(e) => Err(e),
                Ok(x) => Ok(xs.push(x)),
            },
        },
{
    assert(rs.take(k + 1).drop_last() =~= rs.take(k));
}

/// A member with a literal key.
pub fn member(key: &str, value: JsonValue) -> (m: (String, JsonValue))
    ensures
        m.0@ == key@,
        m.1 == value,
{
    (owned(key), value)
}

} // verus!
