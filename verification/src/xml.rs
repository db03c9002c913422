use vstd::prelude::*;
use crate::error::OcelError;
use crate::text::{push_text, owned, str_eq};
use crate::source::{
    SourceLog, SourceType, SourceAttributeDef, SourceEvent, SourceObject, SourceAttribute,
    SourceTimedAttribute, SourceRelationship, SourceValue,
};

verus! {

/// One attribute of an XML element: namespace (if any), local name, value.
pub struct XmlAttribute {
    pub namespace: Option<String>,
    pub name: String,
    pub value: String,
}

/// A node of an XML document in document order: whether it is an element,
/// its depth (the number of its ancestors, itself and the document node
/// included), its local tag name, its attributes and its text (for an
/// element, the text of its first child when that child is a text node).
pub struct XmlElement {
    pub element: bool,
    pub depth: usize,
    pub name: String,
    pub attributes: Vec<XmlAttribute>,
    pub text: Option<String>,
}

pub type XmlAttributeView = (Option<Seq<char>>, Seq<char>, Seq<char>);

pub type XmlElementView = (bool, usize, Seq<char>, Seq<XmlAttributeView>, Option<Seq<char>>);

pub open spec fn xml_attribute_view(a: XmlAttribute) -> XmlAttributeView {
    (
        match a.namespace {
            Some(n) => Some(n@),
            None => None,
        },
        a.name@,
        a.value@,
    )
}

pub open spec fn xml_element_view(e: XmlElement) -> XmlElementView {
    (
        e.element,
        e.depth,
        e.name@,
        e.attributes@.map_values(|a: XmlAttribute| xml_attribute_view(a)),
        match e.text {
            Some(t) => Some(t@),
            None => None,
        },
    )
}

/// The nodes of the root element's subtree as roxmltree reads a text, in
/// document order, or the text of its parse error.
pub uninterp spec fn xml_elements(text: Seq<char>) -> Result<Seq<XmlElementView>, Seq<char>>;

/// Trusted: `roxmltree::Document::parse`, then the descendants of the root
/// element (itself first), each converted to an [`XmlElement`].
#[verifier::external_body]
fn parse_xml_elements(text: &str) -> (r: Result<Vec<XmlElement>, String>)
    ensures
        match r {
            Ok(v) => xml_elements(text@) == Ok::<Seq<XmlElementView>, Seq<char>>(v@.map_values(|e: XmlElement| xml_element_view(e))),
            Err(e) => xml_elements(text@) == Err::<Seq<XmlElementView>, Seq<char>>(e@),
        },
{
    let document = roxmltree::Document::parse(text).map_err(|err| err.to_string())?;
    Ok(document.root_element().descendants().map(|n| XmlElement {
        element: n.is_element(),
        depth: n.ancestors().count(),
        name: n.tag_name().name().to_owned(),
        attributes: n.attributes().map(|a| XmlAttribute {
            namespace: a.namespace().map(str::to_owned),
            name: a.name().to_owned(),
            value: a.value().to_owned(),
        }).collect(),
        text: n.text().map(str::to_owned),
    }).collect())
}


/// Node `j` is an element child of node `i`.
pub open spec fn is_child(ns: Seq<XmlElement>, i: int, j: int) -> bool {
    &&& 0 <= i < j < ns.len()
    &&& ns[j].element
    &&& ns[j].depth == ns[i].depth + 1
    &&& forall|m: int| i < m < j ==> (#[trigger] ns[m]).depth > ns[i].depth
}

/// Element children of `i` named `tag` at or after position `p`, in order.
pub open spec fn children_from(ns: Seq<XmlElement>, i: usize, tag: Seq<char>, p: nat) -> Seq<usize>
    decreases ns.len() - p,
{
    if p >= ns.len() || p <= i || ns[p as int].depth <= ns[i as int].depth {
        Seq::empty()
    } else {
        let rest = children_from(ns, i, tag, p + 1);
        if ns[p as int].element && ns[p as int].depth == ns[i as int].depth + 1 && ns[p as int].name@ == tag {
            seq![p as usize] + rest
        } else {
            rest
        }
    }
}

/// Element children of `i` named `tag`, in document order.
pub open spec fn children_named(ns: Seq<XmlElement>, i: usize, tag: Seq<char>) -> Seq<usize> {
    children_from(ns, i, tag, (i + 1) as nat)
}

/// The first element child of `i` named `tag`.
pub open spec fn first_child(ns: Seq<XmlElement>, i: usize, tag: Seq<char>) -> Option<usize> {
    let c = children_named(ns, i, tag);
    if c.len() > 0 { Some(c[0]) } else { None }
}

/// Value of the first attribute without namespace named `name`.
pub open spec fn attr_of(attrs: Seq<XmlAttribute>, name: Seq<char>) -> Option<Seq<char>>
    decreases attrs.len(),
{
    if attrs.len() == 0 {
        None
    } else if attrs[0].namespace is None && attrs[0].name@ == name {
        Some(attrs[0].value@)
    } else {
        attr_of(attrs.drop_first(), name)
    }
}

pub open spec fn node_attr(ns: Seq<XmlElement>, j: usize, name: Seq<char>) -> Option<Seq<char>> {
    attr_of(ns[j as int].attributes@, name)
}

/// Children of `i` named `tag`.
fn child_elements(nodes: &Vec<XmlElement>, i: usize, tag: &str) -> (r: Vec<usize>)
    requires
        i < nodes@.len(),
    ensures
        r@ == children_named(nodes@, i, tag@),
        forall|k: int| 0 <= k < r@.len() ==> i < #[trigger] r@[k] < nodes@.len(),
{
    let mut r: Vec<usize> = Vec::new();
    let n = nodes.len();
    let mut p: usize = i + 1;
    let d = nodes[i].depth;
    while p < nodes.len() && nodes[p].depth > d
        invariant
            i < p <= nodes@.len(),
            d == nodes@[i as int].depth,
            r@ + children_from(nodes@, i, tag@, p as nat) == children_named(nodes@, i, tag@),
            forall|k: int| 0 <= k < r@.len() ==> i < #[trigger] r@[k] < p,
        decreases nodes.len() - p,
    {
        let ghost rest = children_from(nodes@, i, tag@, (p + 1) as nat);
        if nodes[p].element && nodes[p].depth == d + 1 && str_eq(nodes[p].name.as_str(), tag) {
            r.push(p);
            assert(r@ + rest =~= (r@.drop_last() + (seq![p] + rest)));
        }
        p = p + 1;
    }
    assert(children_from(nodes@, i, tag@, p as nat) =~= Seq::<usize>::empty());
    assert(r@ + Seq::<usize>::empty() =~= r@);
    r
}

/// The first child of `i` named `tag`.
fn child_element(nodes: &Vec<XmlElement>, i: usize, tag: &str) -> (r: Option<usize>)
    requires
        i < nodes@.len(),
    ensures
        r == first_child(nodes@, i, tag@),
        r matches Some(j) ==> i < j < nodes@.len(),
{
    let c = child_elements(nodes, i, tag);
    if c.len() > 0 { Some(c[0]) } else { None }
}

/// Value of attribute `name` (without namespace) of node `j`.
fn attribute_value(nodes: &Vec<XmlElement>, j: usize, name: &str) -> (r: Option<String>)
    requires
        j < nodes@.len(),
    ensures
        match r {
            Some(v) => node_attr(nodes@, j, name@) == Some(v@),
            None => node_attr(nodes@, j, name@) is None,
        },
{
    let attrs = &nodes[j].attributes;
    let mut k: usize = 0;
    assert(attrs@.skip(0) =~= attrs@);
    while k < attrs.len()
        invariant
            j < nodes@.len(),
            k <= attrs@.len(),
            attrs@ == nodes@[j as int].attributes@,
            attr_of(attrs@, name@) == attr_of(attrs@.skip(k as int), name@),
        decreases attrs.len() - k,
    {
        assert(attrs@.skip(k as int).drop_first() =~= attrs@.skip(k + 1));
        assert(attrs@.skip(k as int)[0] == attrs@[k as int]);
        if attrs[k].namespace.is_none() && str_eq(attrs[k].name.as_str(), name) {
            return Some(owned(attrs[k].value.as_str()));
        }
        k = k + 1;
    }
    None
}


/// Element children `item` of the first child `group` of `j`.
pub open spec fn grouped(ns: Seq<XmlElement>, j: usize, group: Seq<char>, item: Seq<char>) -> Seq<usize> {
    match first_child(ns, j, group) {
        Some(a) => children_named(ns, a, item),
        None => Seq::empty(),
    }
}

pub open spec fn has_attr(ns: Seq<XmlElement>, j: usize, name: Seq<char>) -> bool {
    node_attr(ns, j, name) is Some
}

pub open spec fn attr_is(ns: Seq<XmlElement>, j: usize, name: Seq<char>, v: Seq<char>) -> bool {
    node_attr(ns, j, name) == Some(v)
}

/// Text content of an attribute element, empty when there is none.
pub open spec fn node_text(ns: Seq<XmlElement>, m: usize) -> Seq<char> {
    match ns[m as int].text {
        Some(t) => t@,
        None => Seq::empty(),
    }
}

/// Qualifier of a relationship element: `qualifier`, else the older
/// `relationship` attribute, else empty.
pub open spec fn qualifier_of(ns: Seq<XmlElement>, m: usize) -> Seq<char> {
    if has_attr(ns, m, "qualifier"@) {
        node_attr(ns, m, "qualifier"@)->0
    } else if has_attr(ns, m, "relationship"@) {
        node_attr(ns, m, "relationship"@)->0
    } else {
        Seq::empty()
    }
}

pub open spec fn xml_type_ok(ns: Seq<XmlElement>, j: usize) -> bool {
    let attrs = grouped(ns, j, "attributes"@, "attribute"@);
    &&& has_attr(ns, j, "name"@)
    &&& forall|k: int| 0 <= k < attrs.len() ==> has_attr(ns, #[trigger] attrs[k], "name"@) && has_attr(ns, attrs[k], "type"@)
}

pub open spec fn xml_type_mirrors(ns: Seq<XmlElement>, j: usize, t: SourceType) -> bool {
    let attrs = grouped(ns, j, "attributes"@, "attribute"@);
    &&& attr_is(ns, j, "name"@, t.name@)
    &&& t.attributes@.len() == attrs.len()
    &&& forall|k: int| 0 <= k < attrs.len() ==> attr_is(ns, #[trigger] attrs[k], "name"@, t.attributes@[k].name@)
        && attr_is(ns, attrs[k], "type"@, t.attributes@[k].attr_type@)
}

pub open spec fn xml_rels_ok(ns: Seq<XmlElement>, j: usize) -> bool {
    let rels = grouped(ns, j, "objects"@, "relationship"@);
    forall|k: int| 0 <= k < rels.len() ==> has_attr(ns, #[trigger] rels[k], "object-id"@)
}

pub open spec fn xml_rels_mirror(ns: Seq<XmlElement>, j: usize, rs: Seq<SourceRelationship>) -> bool {
    let rels = grouped(ns, j, "objects"@, "relationship"@);
    &&& rs.len() == rels.len()
    &&& forall|k: int| 0 <= k < rels.len() ==> attr_is(ns, #[trigger] rels[k], "object-id"@, rs[k].object_id@)
        && rs[k].qualifier@ == qualifier_of(ns, rels[k])
}

pub open spec fn is_text_value(v: SourceValue, t: Seq<char>) -> bool {
    match v {
        SourceValue::String(s) => s@ == t,
        _ => false,
    }
}

pub open spec fn xml_event_ok(ns: Seq<XmlElement>, j: usize) -> bool {
    let attrs = grouped(ns, j, "attributes"@, "attribute"@);
    &&& has_attr(ns, j, "id"@) && has_attr(ns, j, "type"@) && has_attr(ns, j, "time"@)
    &&& forall|k: int| 0 <= k < attrs.len() ==> has_attr(ns, #[trigger] attrs[k], "name"@)
    &&& xml_rels_ok(ns, j)
}

pub open spec fn xml_event_mirrors(ns: Seq<XmlElement>, j: usize, e: SourceEvent) -> bool {
    let attrs = grouped(ns, j, "attributes"@, "attribute"@);
    &&& attr_is(ns, j, "id"@, e.id@) && attr_is(ns, j, "type"@, e.event_type@) && attr_is(ns, j, "time"@, e.time@)
    &&& e.attributes@.len() == attrs.len()
    &&& forall|k: int| 0 <= k < attrs.len() ==> attr_is(ns, #[trigger] attrs[k], "name"@, e.attributes@[k].name@)
        && is_text_value(e.attributes@[k].value, node_text(ns, attrs[k]))
    &&& xml_rels_mirror(ns, j, e.relationships@)
}

pub open spec fn xml_object_ok(ns: Seq<XmlElement>, j: usize) -> bool {
    let attrs = grouped(ns, j, "attributes"@, "attribute"@);
    &&& has_attr(ns, j, "id"@) && has_attr(ns, j, "type"@)
    &&& forall|k: int| 0 <= k < attrs.len() ==> has_attr(ns, #[trigger] attrs[k], "name"@) && has_attr(ns, attrs[k], "time"@)
    &&& xml_rels_ok(ns, j)
}

pub open spec fn xml_object_mirrors(ns: Seq<XmlElement>, j: usize, o: SourceObject) -> bool {
    let attrs = grouped(ns, j, "attributes"@, "attribute"@);
    &&& attr_is(ns, j, "id"@, o.id@) && attr_is(ns, j, "type"@, o.object_type@)
    &&& o.attributes@.len() == attrs.len()
    &&& forall|k: int| 0 <= k < attrs.len() ==> attr_is(ns, #[trigger] attrs[k], "name"@, o.attributes@[k].name@)
        && attr_is(ns, attrs[k], "time"@, o.attributes@[k].time@)
        && is_text_value(o.attributes@[k].value, node_text(ns, attrs[k]))
    &&& xml_rels_mirror(ns, j, o.relationships@)
}

/// The message for a required attribute `name` missing on an element `tag`.
pub open spec fn missing_attribute_text(name: Seq<char>, tag: Seq<char>) -> Seq<char> {
    "missing required XML attribute '"@ + name + "' on <"@ + tag + ">"@
}

fn missing_attribute(name: &str, tag: &str) -> (e: OcelError)
    ensures
        e.message@ == missing_attribute_text(name@, tag@),
{
    proof { reveal_strlit("missing required XML attribute '"); reveal_strlit("' on <"); reveal_strlit(">"); }
    let mut m = owned("missing required XML attribute '");
    push_text(&mut m, name);
    push_text(&mut m, "' on <");
    push_text(&mut m, tag);
    push_text(&mut m, ">");
    OcelError::new(m)
}

/// `msg` reports a node that lacks a required attribute.
pub open spec fn attribute_missing(ns: Seq<XmlElement>, msg: Seq<char>) -> bool {
    exists|m: int, name: Seq<char>| 0 <= m < ns.len() && #[trigger] node_attr(ns, m as usize, name) is None
        && msg == missing_attribute_text(name, ns[m].name@)
}

/// `msg` is one of the messages for XML that does not hold an OCEL log:
/// the root is no `<log>`, one of its four sections is missing, or a node
/// lacks a required attribute.
pub open spec fn xml_refusal(ns: Seq<XmlElement>, msg: Seq<char>) -> bool {
    ||| ((ns.len() == 0 || ns[0].name@ != "log"@) && msg == "OCEL XML root element must be <log>"@)
    ||| exists|tag: Seq<char>| (tag == "event-types"@ || tag == "object-types"@ || tag == "events"@ || tag == "objects"@)
        && #[trigger] first_child(ns, 0, tag) is None && msg == missing_child_text(tag)
    ||| attribute_missing(ns, msg)
}

/// Value of a required attribute of node `j`.
fn required_attribute(nodes: &Vec<XmlElement>, j: usize, name: &str) -> (r: Result<String, OcelError>)
    requires
        j < nodes@.len(),
    ensures
        match r {
            Ok(v) => node_attr(nodes@, j, name@) == Some(v@),
            Err(e) => node_attr(nodes@, j, name@) is None
                && e.message@ == missing_attribute_text(name@, nodes@[j as int].name@)
                && attribute_missing(nodes@, e.message@),
        },
{
    match attribute_value(nodes, j, name) {
        Some(v) => Ok(v),
        None => {
            let e = missing_attribute(name, nodes[j].name.as_str());
            proof {
                let m = j as int;
                assert(node_attr(nodes@, m as usize, name@) is None);
            }
            Err(e)
        },
    }
}

/// The `item` children of the first `group` child of `j`.
fn grouped_elements(nodes: &Vec<XmlElement>, j: usize, group: &str, item: &str) -> (r: Vec<usize>)
    requires
        j < nodes@.len(),
    ensures
        r@ == grouped(nodes@, j, group@, item@),
        forall|k: int| 0 <= k < r@.len() ==> #[trigger] r@[k] < nodes@.len(),
{
    match child_element(nodes, j, group) {
        Some(a) => child_elements(nodes, a, item),
        None => Vec::new(),
    }
}

fn parse_relationships(nodes: &Vec<XmlElement>, j: usize) -> (r: Result<Vec<SourceRelationship>, OcelError>)
    requires
        j < nodes@.len(),
    ensures
        match r {
            Ok(v) => xml_rels_ok(nodes@, j) && xml_rels_mirror(nodes@, j, v@),
            Err(e) => !xml_rels_ok(nodes@, j) && attribute_missing(nodes@, e.message@),
        },
{
    proof {
        reveal_strlit("objects");
        reveal_strlit("relationship");
        reveal_strlit("object-id");
        reveal_strlit("qualifier");
    }
    let rels = grouped_elements(nodes, j, "objects", "relationship");
    let mut out: Vec<SourceRelationship> = Vec::new();
    let mut k: usize = 0;
    while k < rels.len()
        invariant
            j < nodes@.len(),
            rels@ == grouped(nodes@, j, "objects"@, "relationship"@),
            forall|x: int| 0 <= x < rels@.len() ==> #[trigger] rels@[x] < nodes@.len(),
            k <= rels@.len(),
            out@.len() == k,
            forall|x: int| 0 <= x < k ==> attr_is(nodes@, #[trigger] rels@[x], "object-id"@, out@[x].object_id@)
                && out@[x].qualifier@ == qualifier_of(nodes@, rels@[x]),
        decreases rels.len() - k,
    {
        let m = rels[k];
        let object_id = match required_attribute(nodes, m, "object-id") {
            Ok(v) => v,
            Err(e) => return Err(e),
        };
        let qualifier = match attribute_value(nodes, m, "qualifier") {
            Some(q) => q,
            None => match attribute_value(nodes, m, "relationship") {
                Some(q) => q,
                None => String::new(),
            },
        };
        out.push(SourceRelationship { object_id, qualifier });
        k = k + 1;
    }
    Ok(out)
}

fn parse_types(nodes: &Vec<XmlElement>, parent: usize, type_tag: &str) -> (r: Result<Vec<SourceType>, OcelError>)
    requires
        parent < nodes@.len(),
    ensures
        match r {
            Ok(v) => {
                let ts = children_named(nodes@, parent, type_tag@);
                &&& v@.len() == ts.len()
                &&& forall|k: int| 0 <= k < ts.len() ==> xml_type_ok(nodes@, #[trigger] ts[k]) && xml_type_mirrors(nodes@, ts[k], v@[k])
            },
            Err(e) => (exists|k: int| 0 <= k < children_named(nodes@, parent, type_tag@).len() && !xml_type_ok(nodes@, #[trigger] children_named(nodes@, parent, type_tag@)[k]))
                && attribute_missing(nodes@, e.message@),
        },
{
    proof { reveal_strlit("attributes"); reveal_strlit("attribute"); reveal_strlit("name"); reveal_strlit("type"); }
    let ts = child_elements(nodes, parent, type_tag);
    let mut out: Vec<SourceType> = Vec::new();
    let mut k: usize = 0;
    while k < ts.len()
        invariant
            parent < nodes@.len(),
            ts@ == children_named(nodes@, parent, type_tag@),
            forall|x: int| 0 <= x < ts@.len() ==> #[trigger] ts@[x] < nodes@.len(),
            k <= ts@.len(),
            out@.len() == k,
            forall|x: int| 0 <= x < k ==> xml_type_ok(nodes@, #[trigger] ts@[x]) && xml_type_mirrors(nodes@, ts@[x], out@[x]),
        decreases ts.len() - k,
    {
        let j = ts[k];
        let attrs = grouped_elements(nodes, j, "attributes", "attribute");
        let mut defs: Vec<SourceAttributeDef> = Vec::new();
        let mut a: usize = 0;
        while a < attrs.len()
            invariant
                j < nodes@.len(),
                parent < nodes@.len(),
                k < ts@.len(),
                j == ts@[k as int],
                ts@ == children_named(nodes@, parent, type_tag@),
                attrs@ == grouped(nodes@, j, "attributes"@, "attribute"@),
                forall|x: int| 0 <= x < attrs@.len() ==> #[trigger] attrs@[x] < nodes@.len(),
                a <= attrs@.len(),
                defs@.len() == a,
                forall|x: int| 0 <= x < a ==> attr_is(nodes@, #[trigger] attrs@[x], "name"@, defs@[x].name@)
                    && attr_is(nodes@, attrs@[x], "type"@, defs@[x].attr_type@),
            decreases attrs.len() - a,
        {
            let m = attrs[a];
            let name = match required_attribute(nodes, m, "name") {
                Ok(v) => v,
                Err(e) => {
                    proof { assert(!xml_type_ok(nodes@, ts@[k as int])); }
                    return Err(e);
                },
            };
            let attr_type = match required_attribute(nodes, m, "type") {
                Ok(v) => v,
                Err(e) => {
                    proof { assert(!xml_type_ok(nodes@, ts@[k as int])); }
                    return Err(e);
                },
            };
            defs.push(SourceAttributeDef { name, attr_type });
            a = a + 1;
        }
        let name = match required_attribute(nodes, j, "name") {
            Ok(v) => v,
            Err(e) => return Err(e),
        };
        out.push(SourceType { name, attributes: defs });
        k = k + 1;
    }
    Ok(out)
}


fn text_value(nodes: &Vec<XmlElement>, m: usize) -> (r: SourceValue)
    requires
        m < nodes@.len(),
    ensures
        is_text_value(r, node_text(nodes@, m)),
{
    match &nodes[m].text {
        Some(t) => SourceValue::String(owned(t.as_str())),
        None => SourceValue::String(String::new()),
    }
}

fn parse_events(nodes: &Vec<XmlElement>, parent: usize) -> (r: Result<Vec<SourceEvent>, OcelError>)
    requires
        parent < nodes@.len(),
    ensures
        match r {
            Ok(v) => {
                let es = children_named(nodes@, parent, "event"@);
                &&& v@.len() == es.len()
                &&& forall|k: int| 0 <= k < es.len() ==> xml_event_ok(nodes@, #[trigger] es[k]) && xml_event_mirrors(nodes@, es[k], v@[k])
            },
            Err(e) => (exists|k: int| 0 <= k < children_named(nodes@, parent, "event"@).len() && !xml_event_ok(nodes@, #[trigger] children_named(nodes@, parent, "event"@)[k]))
                && attribute_missing(nodes@, e.message@),
        },
{
    proof {
        reveal_strlit("event"); reveal_strlit("attributes"); reveal_strlit("attribute");
        reveal_strlit("name"); reveal_strlit("type"); reveal_strlit("id"); reveal_strlit("time");
    }
    let es = child_elements(nodes, parent, "event");
    let mut out: Vec<SourceEvent> = Vec::new();
    let mut k: usize = 0;
    while k < es.len()
        invariant
            parent < nodes@.len(),
            es@ == children_named(nodes@, parent, "event"@),
            forall|x: int| 0 <= x < es@.len() ==> #[trigger] es@[x] < nodes@.len(),
            k <= es@.len(),
            out@.len() == k,
            forall|x: int| 0 <= x < k ==> xml_event_ok(nodes@, #[trigger] es@[x]) && xml_event_mirrors(nodes@, es@[x], out@[x]),
        decreases es.len() - k,
    {
        let j = es[k];
        let attrs = grouped_elements(nodes, j, "attributes", "attribute");
        let mut values: Vec<SourceAttribute> = Vec::new();
        let mut a: usize = 0;
        while a < attrs.len()
            invariant
                j < nodes@.len(),
                parent < nodes@.len(),
                k < es@.len(),
                j == es@[k as int],
                es@ == children_named(nodes@, parent, "event"@),
                attrs@ == grouped(nodes@, j, "attributes"@, "attribute"@),
                forall|x: int| 0 <= x < attrs@.len() ==> #[trigger] attrs@[x] < nodes@.len(),
                a <= attrs@.len(),
                values@.len() == a,
                forall|x: int| 0 <= x < a ==> attr_is(nodes@, #[trigger] attrs@[x], "name"@, values@[x].name@)
                    && is_text_value(values@[x].value, node_text(nodes@, attrs@[x])),
            decreases attrs.len() - a,
        {
            let m = attrs[a];
            let name = match required_attribute(nodes, m, "name") {
                Ok(v) => v,
                Err(e) => {
                    proof { assert(!xml_event_ok(nodes@, es@[k as int])); }
                    return Err(e);
                },
            };
            let value = text_value(nodes, m);
            values.push(SourceAttribute { name, value });
            a = a + 1;
        }
        let relationships = match parse_relationships(nodes, j) {
            Ok(r) => r,
            Err(e) => return Err(e),
        };
        let id = match required_attribute(nodes, j, "id") {
            Ok(v) => v,
            Err(e) => return Err(e),
        };
        let event_type = match required_attribute(nodes, j, "type") {
            Ok(v) => v,
            Err(e) => return Err(e),
        };
        let time = match required_attribute(nodes, j, "time") {
            Ok(v) => v,
            Err(e) => return Err(e),
        };
        out.push(SourceEvent { id, event_type, time, attributes: values, relationships });
        k = k + 1;
    }
    Ok(out)
}

fn parse_objects(nodes: &Vec<XmlElement>, parent: usize) -> (r: Result<Vec<SourceObject>, OcelError>)
    requires
        parent < nodes@.len(),
    ensures
        match r {
            Ok(v) => {
                let os = children_named(nodes@, parent, "object"@);
                &&& v@.len() == os.len()
                &&& forall|k: int| 0 <= k < os.len() ==> xml_object_ok(nodes@, #[trigger] os[k]) && xml_object_mirrors(nodes@, os[k], v@[k])
            },
            Err(e) => (exists|k: int| 0 <= k < children_named(nodes@, parent, "object"@).len() && !xml_object_ok(nodes@, #[trigger] children_named(nodes@, parent, "object"@)[k]))
                && attribute_missing(nodes@, e.message@),
        },
{
    proof {
        reveal_strlit("object"); reveal_strlit("attributes"); reveal_strlit("attribute");
        reveal_strlit("name"); reveal_strlit("type"); reveal_strlit("id"); reveal_strlit("time");
    }
    let os = child_elements(nodes, parent, "object");
    let mut out: Vec<SourceObject> = Vec::new();
    let mut k: usize = 0;
    while k < os.len()
        invariant
            parent < nodes@.len(),
            os@ == children_named(nodes@, parent, "object"@),
            forall|x: int| 0 <= x < os@.len() ==> #[trigger] os@[x] < nodes@.len(),
            k <= os@.len(),
            out@.len() == k,
            forall|x: int| 0 <= x < k ==> xml_object_ok(nodes@, #[trigger] os@[x]) && xml_object_mirrors(nodes@, os@[x], out@[x]),
        decreases os.len() - k,
    {
        let j = os[k];
        let attrs = grouped_elements(nodes, j, "attributes", "attribute");
        let mut values: Vec<SourceTimedAttribute> = Vec::new();
        let mut a: usize = 0;
        while a < attrs.len()
            invariant
                j < nodes@.len(),
                parent < nodes@.len(),
                k < os@.len(),
                j == os@[k as int],
                os@ == children_named(nodes@, parent, "object"@),
                attrs@ == grouped(nodes@, j, "attributes"@, "attribute"@),
                forall|x: int| 0 <= x < attrs@.len() ==> #[trigger] attrs@[x] < nodes@.len(),
                a <= attrs@.len(),
                values@.len() == a,
                forall|x: int| 0 <= x < a ==> attr_is(nodes@, #[trigger] attrs@[x], "name"@, values@[x].name@)
                    && attr_is(nodes@, attrs@[x], "time"@, values@[x].time@)
                    && is_text_value(values@[x].value, node_text(nodes@, attrs@[x])),
            decreases attrs.len() - a,
        {
            let m = attrs[a];
            let name = match required_attribute(nodes, m, "name") {
                Ok(v) => v,
                Err(e) => {
                    proof { assert(!xml_object_ok(nodes@, os@[k as int])); }
                    return Err(e);
                },
            };
            let time = match required_attribute(nodes, m, "time") {
                Ok(v) => v,
                Err(e) => {
                    proof { assert(!xml_object_ok(nodes@, os@[k as int])); }
                    return Err(e);
                },
            };
            let value = text_value(nodes, m);
            values.push(SourceTimedAttribute { name, time, value });
            a = a + 1;
        }
        let relationships = match parse_relationships(nodes, j) {
            Ok(r) => r,
            Err(e) => return Err(e),
        };
        let id = match required_attribute(nodes, j, "id") {
            Ok(v) => v,
            Err(e) => return Err(e),
        };
        let object_type = match required_attribute(nodes, j, "type") {
            Ok(v) => v,
            Err(e) => return Err(e),
        };
        out.push(SourceObject { id, object_type, attributes: values, relationships });
        k = k + 1;
    }
    Ok(out)
}

/// The four sections of an OCEL XML log are present.
pub open spec fn xml_sections_ok(ns: Seq<XmlElement>) -> bool {
    &&& ns.len() > 0
    &&& ns[0].name@ == "log"@
    &&& first_child(ns, 0, "event-types"@) is Some
    &&& first_child(ns, 0, "object-types"@) is Some
    &&& first_child(ns, 0, "events"@) is Some
    &&& first_child(ns, 0, "objects"@) is Some
}

/// Every required XML attribute of the log's elements is present.
pub open spec fn xml_log_ok(ns: Seq<XmlElement>) -> bool {
    &&& xml_sections_ok(ns)
    &&& {
        let ets = children_named(ns, first_child(ns, 0, "event-types"@)->0, "event-type"@);
        let ots = children_named(ns, first_child(ns, 0, "object-types"@)->0, "object-type"@);
        let es = children_named(ns, first_child(ns, 0, "events"@)->0, "event"@);
        let os = children_named(ns, first_child(ns, 0, "objects"@)->0, "object"@);
        &&& forall|k: int| 0 <= k < ets.len() ==> xml_type_ok(ns, #[trigger] ets[k])
        &&& forall|k: int| 0 <= k < ots.len() ==> xml_type_ok(ns, #[trigger] ots[k])
        &&& forall|k: int| 0 <= k < es.len() ==> xml_event_ok(ns, #[trigger] es[k])
        &&& forall|k: int| 0 <= k < os.len() ==> xml_object_ok(ns, #[trigger] os[k])
    }
}

/// The source log holds exactly what the XML elements hold.
pub open spec fn xml_log_mirrors(ns: Seq<XmlElement>, src: SourceLog) -> bool {
    let ets = children_named(ns, first_child(ns, 0, "event-types"@)->0, "event-type"@);
    let ots = children_named(ns, first_child(ns, 0, "object-types"@)->0, "object-type"@);
    let es = children_named(ns, first_child(ns, 0, "events"@)->0, "event"@);
    let os = children_named(ns, first_child(ns, 0, "objects"@)->0, "object"@);
    &&& src.event_types@.len() == ets.len()
    &&& forall|k: int| 0 <= k < ets.len() ==> xml_type_mirrors(ns, #[trigger] ets[k], src.event_types@[k])
    &&& src.object_types@.len() == ots.len()
    &&& forall|k: int| 0 <= k < ots.len() ==> xml_type_mirrors(ns, #[trigger] ots[k], src.object_types@[k])
    &&& src.events@.len() == es.len()
    &&& forall|k: int| 0 <= k < es.len() ==> xml_event_mirrors(ns, #[trigger] es[k], src.events@[k])
    &&& src.objects@.len() == os.len()
    &&& forall|k: int| 0 <= k < os.len() ==> xml_object_mirrors(ns, #[trigger] os[k], src.objects@[k])
}

/// The message for a required child element `tag` that is missing.
pub open spec fn missing_child_text(tag: Seq<char>) -> Seq<char> {
    "missing <"@ + tag + "> element"@
}

fn missing_child(tag: &str) -> (e: OcelError)
    ensures
        e.message@ == missing_child_text(tag@),
{
    proof { reveal_strlit("missing <"); reveal_strlit("> element"); }
    let mut m = owned("missing <");
    push_text(&mut m, tag);
    push_text(&mut m, "> element");
    OcelError::new(m)
}

fn required_child(nodes: &Vec<XmlElement>, i: usize, tag: &str) -> (r: Result<usize, OcelError>)
    requires
        i < nodes@.len(),
    ensures
        match r {
            Ok(j) => first_child(nodes@, i, tag@) == Some(j) && j < nodes@.len(),
            Err(e) => first_child(nodes@, i, tag@) is None && e.message@ == missing_child_text(tag@),
        },
{
    match child_element(nodes, i, tag) {
        Some(j) => Ok(j),
        None => Err(missing_child(tag)),
    }
}

/// Reads the source log from the nodes of an XML document.
pub fn source_from_xml_nodes(nodes: &Vec<XmlElement>) -> (r: Result<SourceLog, OcelError>)
    ensures
        match r {
            Ok(src) => xml_log_ok(nodes@) && xml_log_mirrors(nodes@, src),
            Err(e) => !xml_log_ok(nodes@) && xml_refusal(nodes@, e.message@),
        },
{
    proof {
        reveal_strlit("log"); reveal_strlit("event-types"); reveal_strlit("object-types");
        reveal_strlit("events"); reveal_strlit("objects"); reveal_strlit("event-type");
        reveal_strlit("object-type");
    }
    if nodes.len() == 0 || !str_eq(nodes[0].name.as_str(), "log") {
        proof { reveal_strlit("OCEL XML root element must be <log>"); }
        return Err(OcelError::new(owned("OCEL XML root element must be <log>")));
    }
    let et = match required_child(nodes, 0, "event-types") { Ok(j) => j, Err(e) => return Err(e) };
    let ot = match required_child(nodes, 0, "object-types") { Ok(j) => j, Err(e) => return Err(e) };
    let ev = match required_child(nodes, 0, "events") { Ok(j) => j, Err(e) => return Err(e) };
    let ob = match required_child(nodes, 0, "objects") { Ok(j) => j, Err(e) => return Err(e) };
    let event_types = match parse_types(nodes, et, "event-type") {
        Ok(v) => v,
        Err(e) => {
            proof {
                let ets = children_named(nodes@, et, "event-type"@);
                let k = choose|k: int| 0 <= k < ets.len() && !xml_type_ok(nodes@, #[trigger] ets[k]);
                assert(!xml_type_ok(nodes@, ets[k]));
                assert(first_child(nodes@, 0, "event-types"@)->0 == et);
                if xml_log_ok(nodes@) {
                    assert(xml_type_ok(nodes@, ets[k]));
                }
            }
            return Err(e);
        },
    };
    let object_types = match parse_types(nodes, ot, "object-type") {
        Ok(v) => v,
        Err(e) => {
            proof {
                let ots = children_named(nodes@, ot, "object-type"@);
                let k = choose|k: int| 0 <= k < ots.len() && !xml_type_ok(nodes@, #[trigger] ots[k]);
                assert(!xml_type_ok(nodes@, ots[k]));
                assert(first_child(nodes@, 0, "object-types"@)->0 == ot);
                if xml_log_ok(nodes@) {
                    assert(xml_type_ok(nodes@, ots[k]));
                }
            }
            return Err(e);
        },
    };
    let events = match parse_events(nodes, ev) {
        Ok(v) => v,
        Err(e) => {
            proof {
                let es = children_named(nodes@, ev, "event"@);
                let k = choose|k: int| 0 <= k < es.len() && !xml_event_ok(nodes@, #[trigger] es[k]);
                assert(first_child(nodes@, 0, "events"@)->0 == ev);
                if xml_log_ok(nodes@) {
                    assert(xml_event_ok(nodes@, es[k]));
                }
            }
            return Err(e);
        },
    };
    let objects = match parse_objects(nodes, ob) {
        Ok(v) => v,
        Err(e) => {
            proof {
                let os = children_named(nodes@, ob, "object"@);
                let k = choose|k: int| 0 <= k < os.len() && !xml_object_ok(nodes@, #[trigger] os[k]);
                assert(first_child(nodes@, 0, "objects"@)->0 == ob);
                if xml_log_ok(nodes@) {
                    assert(xml_object_ok(nodes@, os[k]));
                }
            }
            return Err(e);
        },
    };
    Ok(SourceLog { event_types, object_types, events, objects })
}

/// `nodes` are what the XML reader gives for `input`.
pub open spec fn xml_read(input: Seq<char>, nodes: Seq<XmlElement>) -> bool {
    xml_elements(input) == Ok::<Seq<XmlElementView>, Seq<char>>(nodes.map_values(|e: XmlElement| xml_element_view(e)))
}

/// Parses OCEL 2.0 XML text into a source log.
pub fn parse_xml(input: &str) -> (r: Result<SourceLog, OcelError>)
    ensures
        match r {
            Ok(src) => exists|nodes: Seq<XmlElement>| #[trigger] xml_read(input@, nodes) && xml_log_ok(nodes) && xml_log_mirrors(nodes, src),
            Err(e) => match xml_elements(input@) {
                Err(msg) => e.message@ == "invalid OCEL XML: "@ + msg,
                Ok(_) => exists|nodes: Seq<XmlElement>| #[trigger] xml_read(input@, nodes) && !xml_log_ok(nodes)
                    && xml_refusal(nodes, e.message@),
            },
        },
{
    match parse_xml_elements(input) {
        Ok(nodes) => {
            let r = source_from_xml_nodes(&nodes);
            assert(xml_read(input@, nodes@));
            r
        },
        Err(msg) => {
            proof { reveal_strlit("invalid OCEL XML: "); }
            let mut m = owned("invalid OCEL XML: ");
            push_text(&mut m, msg.as_str());
            Err(OcelError::new(m))
        },
    }
}

} // verus!
