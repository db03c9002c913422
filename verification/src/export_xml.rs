use vstd::prelude::*;
use crate::error::OcelError;
use crate::pool::Symbol;
use crate::model::{
    CompactOcelLog, TypeDef, Attribute, TimedAttribute, Relationship, AttrValue, AttributeDef, Event, Object,
    type_def_ok, event_ok, object_ok, sym_ok, value_ok, attributes_ok, timed_attributes_ok, relationships_ok,
};
use crate::text::{owned, push_text, push_char, str_chars, int_text, int_to_text};
use crate::timefmt::{format_timestamp_ms, timestamp_text, out_of_range_message};

verus! {

/// XML escaping of one character; quotes only inside attribute values.
pub open spec fn escape_char(c: char, attribute: bool) -> Seq<char> {
    if c == '&' {
        "&amp;"@
    } else if c == '<' {
        "&lt;"@
    } else if c == '>' {
        "&gt;"@
    } else if c == '"' && attribute {
        "&quot;"@
    } else if c == '\'' && attribute {
        "&apos;"@
    } else {
        seq![c]
    }
}

pub open spec fn escape_seq(s: Seq<char>, attribute: bool) -> Seq<char>
    decreases s.len(),
{
    if s.len() == 0 {
        Seq::empty()
    } else {
        escape_seq(s.drop_last(), attribute) + escape_char(s.last(), attribute)
    }
}

/// Appends the XML escaping of `value`.
pub fn push_escaped(out: &mut String, value: &str, attribute: bool)
    ensures
        final(out)@ == old(out)@ + escape_seq(value@, attribute),
{
    proof {
        reveal_strlit("&amp;");
        reveal_strlit("&lt;");
        reveal_strlit("&gt;");
        reveal_strlit("&quot;");
        reveal_strlit("&apos;");
    }
    let cs = str_chars(value);
    let mut i: usize = 0;
    while i < cs.len()
        invariant
            i <= cs@.len(),
            cs@ == value@,
            out@ == old(out)@ + escape_seq(cs@.take(i as int), attribute),
        decreases cs.len() - i,
    {
        let c = cs[i];
        if c == '&' {
            push_text(out, "&amp;");
        } else if c == '<' {
            push_text(out, "&lt;");
        } else if c == '>' {
            push_text(out, "&gt;");
        } else if c == '"' && attribute {
            push_text(out, "&quot;");
        } else if c == '\'' && attribute {
            push_text(out, "&apos;");
        } else {
            push_char(out, c);
        }
        proof {
            assert(cs@.take(i + 1).drop_last() =~= cs@.take(i as int));
            assert(out@ =~= old(out)@ + escape_seq(cs@.take(i + 1), attribute));
        }
        i = i + 1;
    }
    assert(cs@.take(cs@.len() as int) =~= cs@);
}

/// Joins two partial outputs; the first error wins.
pub open spec fn then_text(a: Result<Seq<char>, Seq<char>>, b: Result<Seq<char>, Seq<char>>) -> Result<Seq<char>, Seq<char>> {
    match a {
        Err(e) => Err(e),
        Ok(x) => match b {
            Err(e) => Err(e),
            Ok(y) => Ok(x + y),
        },
    }
}

pub open spec fn spaces(n: nat) -> Seq<char> {
    Seq::new(n, |i: int| ' ')
}

/// Text of a timestamp, or the out-of-range message.
pub open spec fn time_xml(ms: i64) -> Result<Seq<char>, Seq<char>> {
    match timestamp_text(ms) {
        Some(t) => Ok(t),
        None => Err(out_of_range_message(ms)),
    }
}

/// XML text of an attribute value.
pub open spec fn value_xml(log: CompactOcelLog, v: AttrValue) -> Result<Seq<char>, Seq<char>> {
    match v {
        AttrValue::String(s) => Ok(log.text(s)),
        AttrValue::Time(ms) => time_xml(ms),
        AttrValue::Integer(i) => Ok(int_text(i as int)),
        AttrValue::Float(s) => Ok(log.text(s)),
        AttrValue::Boolean(b) => Ok(if b { "1"@ } else { "0"@ }),
    }
}

pub open spec fn attr_def_xml(log: CompactOcelLog, pad: Seq<char>, a: AttributeDef) -> Seq<char> {
    pad + "    <attribute name=\""@ + escape_seq(log.text(a.name), true) + "\" type=\""@ + a.attr_type.name() + "\"/>\n"@
}

pub open spec fn attr_defs_xml(log: CompactOcelLog, pad: Seq<char>, defs: Seq<AttributeDef>) -> Seq<char>
    decreases defs.len(),
{
    if defs.len() == 0 {
        Seq::empty()
    } else {
        attr_defs_xml(log, pad, defs.drop_last()) + attr_def_xml(log, pad, defs.last())
    }
}

/// XML of one type declaration.
pub open spec fn type_xml(log: CompactOcelLog, tag: Seq<char>, t: TypeDef) -> Seq<char> {
    let pad = spaces(2);
    let head = pad + "<"@ + tag + " name=\""@ + escape_seq(log.text(t.name), true) + "\">\n"@;
    let body = if t.attributes@.len() == 0 {
        pad + "  <attributes/>\n"@
    } else {
        pad + "  <attributes>\n"@ + attr_defs_xml(log, pad, t.attributes@) + pad + "  </attributes>\n"@
    };
    head + body + pad + "</"@ + tag + ">\n"@
}

pub open spec fn types_xml(log: CompactOcelLog, tag: Seq<char>, ts: Seq<TypeDef>) -> Seq<char>
    decreases ts.len(),
{
    if ts.len() == 0 {
        Seq::empty()
    } else {
        types_xml(log, tag, ts.drop_last()) + type_xml(log, tag, ts.last())
    }
}

pub open spec fn attribute_line(log: CompactOcelLog, a: Attribute) -> Result<Seq<char>, Seq<char>> {
    match value_xml(log, a.value) {
        Err(e) => Err(e),
        Ok(v) => Ok(spaces(6) + "  <attribute name=\""@ + escape_seq(log.text(a.name), true) + "\">"@ + escape_seq(v, false) + "</attribute>\n"@),
    }
}

pub open spec fn attribute_lines(log: CompactOcelLog, attrs: Seq<Attribute>) -> Result<Seq<char>, Seq<char>>
    decreases attrs.len(),
{
    if attrs.len() == 0 {
        Ok(Seq::empty())
    } else {
        then_text(attribute_lines(log, attrs.drop_last()), attribute_line(log, attrs.last()))
    }
}

pub open spec fn attributes_xml(log: CompactOcelLog, attrs: Seq<Attribute>) -> Result<Seq<char>, Seq<char>> {
    if attrs.len() == 0 {
        Ok(spaces(6) + "<attributes/>\n"@)
    } else {
        then_text(then_text(Ok(spaces(6) + "<attributes>\n"@), attribute_lines(log, attrs)), Ok(spaces(6) + "</attributes>\n"@))
    }
}

pub open spec fn timed_attribute_line(log: CompactOcelLog, a: TimedAttribute) -> Result<Seq<char>, Seq<char>> {
    match time_xml(a.time_ms) {
        Err(e) => Err(e),
        Ok(t) => match value_xml(log, a.value) {
            Err(e) => Err(e),
            Ok(v) => Ok(spaces(6) + "  <attribute name=\""@ + escape_seq(log.text(a.name), true) + "\" time=\""@ + t + "\">"@ + escape_seq(v, false) + "</attribute>\n"@),
        },
    }
}

pub open spec fn timed_attribute_lines(log: CompactOcelLog, attrs: Seq<TimedAttribute>) -> Result<Seq<char>, Seq<char>>
    decreases attrs.len(),
{
    if attrs.len() == 0 {
        Ok(Seq::empty())
    } else {
        then_text(timed_attribute_lines(log, attrs.drop_last()), timed_attribute_line(log, attrs.last()))
    }
}

pub open spec fn timed_attributes_xml(log: CompactOcelLog, attrs: Seq<TimedAttribute>) -> Result<Seq<char>, Seq<char>> {
    if attrs.len() == 0 {
        Ok(spaces(6) + "<attributes/>\n"@)
    } else {
        then_text(then_text(Ok(spaces(6) + "<attributes>\n"@), timed_attribute_lines(log, attrs)), Ok(spaces(6) + "</attributes>\n"@))
    }
}

pub open spec fn relationship_line(log: CompactOcelLog, r: Relationship) -> Seq<char> {
    spaces(6) + "  <relationship object-id=\""@ + escape_seq(log.text(r.object_id), true) + "\" qualifier=\""@ + escape_seq(log.text(r.qualifier), true) + "\"/>\n"@
}

pub open spec fn relationship_lines(log: CompactOcelLog, rs: Seq<Relationship>) -> Seq<char>
    decreases rs.len(),
{
    if rs.len() == 0 {
        Seq::empty()
    } else {
        relationship_lines(log, rs.drop_last()) + relationship_line(log, rs.last())
    }
}

pub open spec fn relationships_xml(log: CompactOcelLog, rs: Seq<Relationship>) -> Seq<char> {
    if rs.len() == 0 {
        Seq::empty()
    } else {
        spaces(6) + "<objects>\n"@ + relationship_lines(log, rs) + spaces(6) + "</objects>\n"@
    }
}


/// XML of one event.
pub open spec fn event_xml(log: CompactOcelLog, e: crate::model::Event) -> Result<Seq<char>, Seq<char>> {
    let head = match time_xml(e.time_ms) {
        Err(m) => Err(m),
        Ok(t) => Ok("    <event id=\""@ + escape_seq(log.text(e.id), true) + "\" type=\""@ + escape_seq(log.text(e.type_symbol), true) + "\" time=\""@ + t + "\">\n"@),
    };
    then_text(then_text(head, attributes_xml(log, e.attributes@)), Ok(relationships_xml(log, e.relationships@) + "    </event>\n"@))
}

/// XML of the first `n` events.
pub open spec fn events_xml(log: CompactOcelLog, n: int) -> Result<Seq<char>, Seq<char>>
    decreases n,
{
    if n <= 0 {
        Ok(Seq::empty())
    } else {
        then_text(events_xml(log, n - 1), event_xml(log, log.events@[n - 1]))
    }
}

/// XML of one object.
pub open spec fn object_xml(log: CompactOcelLog, o: crate::model::Object) -> Result<Seq<char>, Seq<char>> {
    let head = "    <object id=\""@ + escape_seq(log.text(o.id), true) + "\" type=\""@ + escape_seq(log.text(o.type_symbol), true) + "\">\n"@;
    then_text(then_text(Ok(head), timed_attributes_xml(log, o.attributes@)), Ok(relationships_xml(log, o.relationships@) + "    </object>\n"@))
}

/// XML of the first `n` objects.
pub open spec fn objects_xml(log: CompactOcelLog, n: int) -> Result<Seq<char>, Seq<char>>
    decreases n,
{
    if n <= 0 {
        Ok(Seq::empty())
    } else {
        then_text(objects_xml(log, n - 1), object_xml(log, log.objects@[n - 1]))
    }
}

/// The OCEL 2.0 XML text of the log, or the message of the first timestamp
/// that cannot be written.
pub open spec fn xml_export(log: CompactOcelLog) -> Result<Seq<char>, Seq<char>> {
    let head = "<?xml version=\"1.0\" encoding=\"UTF-8\"?>\n<log>\n"@ + "  <event-types>\n"@
        + types_xml(log, "event-type"@, log.event_types@) + "  </event-types>\n"@ + "  <object-types>\n"@
        + types_xml(log, "object-type"@, log.object_types@) + "  </object-types>\n"@ + "  <events>\n"@;
    then_text(
        then_text(then_text(Ok(head), events_xml(log, log.events@.len() as int)), Ok("  </events>\n"@ + "  <objects>\n"@)),
        then_text(objects_xml(log, log.objects@.len() as int), Ok("  </objects>\n</log>\n"@)),
    )
}

/// The text of a successful result.
pub open spec fn ok_text(r: Result<Seq<char>, Seq<char>>) -> Seq<char> {
    match r {
        Ok(t) => t,
        Err(_) => Seq::empty(),
    }
}

proof fn lemma_attribute_lines_stuck(log: CompactOcelLog, s: Seq<Attribute>, j: int)
    requires
        0 <= j <= s.len(),
        attribute_lines(log, s.take(j)) is Err,
    ensures
        attribute_lines(log, s) == attribute_lines(log, s.take(j)),
    decreases s.len() - j,
{
    if j < s.len() {
        assert(s.take(j + 1).drop_last() =~= s.take(j));
        lemma_attribute_lines_stuck(log, s, j + 1);
    } else {
        assert(s.take(j) =~= s);
    }
}

proof fn lemma_timed_lines_stuck(log: CompactOcelLog, s: Seq<TimedAttribute>, j: int)
    requires
        0 <= j <= s.len(),
        timed_attribute_lines(log, s.take(j)) is Err,
    ensures
        timed_attribute_lines(log, s) == timed_attribute_lines(log, s.take(j)),
    decreases s.len() - j,
{
    if j < s.len() {
        assert(s.take(j + 1).drop_last() =~= s.take(j));
        lemma_timed_lines_stuck(log, s, j + 1);
    } else {
        assert(s.take(j) =~= s);
    }
}

proof fn lemma_events_stuck(log: CompactOcelLog, j: int, n: int)
    requires
        0 <= j <= n,
        events_xml(log, j) is Err,
    ensures
        events_xml(log, n) == events_xml(log, j),
    decreases n - j,
{
    if j < n {
        lemma_events_stuck(log, j + 1, n);
    }
}

proof fn lemma_objects_stuck(log: CompactOcelLog, j: int, n: int)
    requires
        0 <= j <= n,
        objects_xml(log, j) is Err,
    ensures
        objects_xml(log, n) == objects_xml(log, j),
    decreases n - j,
{
    if j < n {
        lemma_objects_stuck(log, j + 1, n);
    }
}

proof fn lemma_spaces()
    ensures
        spaces(2) == "  "@,
        spaces(6) == "      "@,
{
    reveal_strlit("  ");
    reveal_strlit("      ");
    assert(spaces(2) =~= "  "@);
    assert(spaces(6) =~= "      "@);
}

impl CompactOcelLog {
    pub(crate) fn time_text(&self, ms: i64) -> (r: Result<String, OcelError>)
        ensures
            match r {
                Ok(t) => time_xml(ms) == Ok::<Seq<char>, Seq<char>>(t@),
                Err(e) => time_xml(ms) == Err::<Seq<char>, Seq<char>>(e.message@),
            },
    {
        format_timestamp_ms(ms)
    }

    /// XML text of an attribute value.
    pub fn attr_value_to_xml_text(&self, v: AttrValue) -> (r: Result<String, OcelError>)
        requires
            self.wf(),
            value_ok(self.pool@.len(), v),
        ensures
            match r {
                Ok(t) => value_xml(*self, v) == Ok::<Seq<char>, Seq<char>>(t@),
                Err(e) => value_xml(*self, v) == Err::<Seq<char>, Seq<char>>(e.message@),
            },
    {
        proof { reveal_strlit("1"); reveal_strlit("0"); }
        match v {
            AttrValue::String(s) => Ok(owned(self.pool.resolve(s))),
            AttrValue::Time(ms) => self.time_text(ms),
            AttrValue::Integer(i) => Ok(int_to_text(i)),
            AttrValue::Float(s) => Ok(owned(self.pool.resolve(s))),
            AttrValue::Boolean(b) => Ok(if b { owned("1") } else { owned("0") }),
        }
    }

    fn write_attr_defs(&self, out: &mut String, defs: &Vec<AttributeDef>)
        requires
            self.wf(),
            forall|k: int| 0 <= k < defs@.len() ==> sym_ok(self.pool@.len(), #[trigger] defs@[k].name),
        ensures
            final(out)@ == old(out)@ + attr_defs_xml(*self, spaces(2), defs@),
    {
        proof {
            lemma_spaces();
            reveal_strlit("    <attribute name=\"");
            reveal_strlit("\" type=\"");
            reveal_strlit("\"/>\n");
        }
        let mut k: usize = 0;
        while k < defs.len()
            invariant
                self.wf(),
                forall|x: int| 0 <= x < defs@.len() ==> sym_ok(self.pool@.len(), #[trigger] defs@[x].name),
                k <= defs@.len(),
                out@ == old(out)@ + attr_defs_xml(*self, spaces(2), defs@.take(k as int)),
            decreases defs.len() - k,
        {
            let ghost o1 = out@;
            let d = defs[k];
            push_text(out, "  ");
            push_text(out, "    <attribute name=\"");
            push_escaped(out, self.pool.resolve(d.name), true);
            push_text(out, "\" type=\"");
            push_text(out, d.attr_type.as_str());
            push_text(out, "\"/>\n");
            proof {
                lemma_spaces();
                reveal_strlit("    <attribute name=\"");
                reveal_strlit("\" type=\"");
                reveal_strlit("\"/>\n");
                assert(defs@.take(k + 1).drop_last() =~= defs@.take(k as int));
                assert(out@ =~= o1 + attr_def_xml(*self, spaces(2), d));
            }
            k = k + 1;
        }
        assert(defs@.take(defs@.len() as int) =~= defs@);
    }

    fn write_type_xml(&self, out: &mut String, tag: &str, t: &TypeDef)
        requires
            self.wf(),
            type_def_ok(self.pool@.len(), *t),
        ensures
            final(out)@ == old(out)@ + type_xml(*self, tag@, *t),
    {
        proof {
            lemma_spaces();
            reveal_strlit("<");
            reveal_strlit(" name=\"");
            reveal_strlit("\">\n");
            reveal_strlit("  <attributes/>\n");
            reveal_strlit("  <attributes>\n");
            reveal_strlit("  </attributes>\n");
            reveal_strlit("</");
            reveal_strlit(">\n");
        }
        let ghost o0 = out@;
        push_text(out, "  ");
        push_text(out, "<");
        push_text(out, tag);
        push_text(out, " name=\"");
        push_escaped(out, self.pool.resolve(t.name), true);
        push_text(out, "\">\n");
        let ghost o1 = out@;
        if t.attributes.len() == 0 {
            push_text(out, "  ");
            push_text(out, "  <attributes/>\n");
        } else {
            push_text(out, "  ");
            push_text(out, "  <attributes>\n");
            self.write_attr_defs(out, &t.attributes);
            push_text(out, "  ");
            push_text(out, "  </attributes>\n");
        }
        let ghost o2 = out@;
        push_text(out, "  ");
        push_text(out, "</");
        push_text(out, tag);
        push_text(out, ">\n");
        proof {
            let pad = spaces(2);
            let head = pad + "<"@ + tag@ + " name=\""@ + escape_seq(self.text(t.name), true) + "\">\n"@;
            let body = if t.attributes@.len() == 0 {
                pad + "  <attributes/>\n"@
            } else {
                pad + "  <attributes>\n"@ + attr_defs_xml(*self, pad, t.attributes@) + pad + "  </attributes>\n"@
            };
            assert(o1 =~= o0 + head);
            assert(o2 =~= o1 + body);
            assert(out@ =~= o0 + (head + body + pad + "</"@ + tag@ + ">\n"@));
        }
    }

    fn write_attributes_xml(&self, out: &mut String, attrs: &Vec<Attribute>) -> (r: Result<(), OcelError>)
        requires
            self.wf(),
            attributes_ok(self.pool@.len(), attrs@),
        ensures
            r is Ok <==> attributes_xml(*self, attrs@) is Ok,
            r is Ok ==> final(out)@ == old(out)@ + ok_text(attributes_xml(*self, attrs@)),
            r matches Err(e) ==> attributes_xml(*self, attrs@) == Err::<Seq<char>, Seq<char>>(e.message@),
    {
        proof { lemma_spaces(); }
        if attrs.len() == 0 {
            push_text(out, "      ");
            push_text(out, "<attributes/>\n");
            return Ok(());
        }
        let ghost o0 = out@;
        push_text(out, "      ");
        push_text(out, "<attributes>\n");
        let ghost o1 = out@;
        let ghost mut lines: Seq<char> = Seq::empty();
        let mut k: usize = 0;
        assert(attrs@.take(0) =~= Seq::<Attribute>::empty());
        while k < attrs.len()
            invariant
                self.wf(),
                attributes_ok(self.pool@.len(), attrs@),
                k <= attrs@.len(),
                attrs@.len() > 0,
                attribute_lines(*self, attrs@.take(k as int)) == Ok::<Seq<char>, Seq<char>>(lines),
                out@ == o1 + lines,
            decreases attrs.len() - k,
        {
            proof {
                lemma_spaces();
                assert(attrs@.take(k + 1).drop_last() =~= attrs@.take(k as int));
                assert(sym_ok(self.pool@.len(), attrs@[k as int].name));
            }
            let a = attrs[k];
            let ghost o2 = out@;
            let v = match self.attr_value_to_xml_text(a.value) {
                Ok(v) => v,
                Err(e) => {
                    proof { lemma_attribute_lines_stuck(*self, attrs@, k + 1); }
                    return Err(e);
                },
            };
            push_text(out, "      ");
            push_text(out, "  <attribute name=\"");
            push_escaped(out, self.pool.resolve(a.name), true);
            push_text(out, "\">");
            push_escaped(out, v.as_str(), false);
            push_text(out, "</attribute>\n");
            proof {
                let line = spaces(6) + "  <attribute name=\""@ + escape_seq(self.text(a.name), true) + "\">"@ + escape_seq(v@, false) + "</attribute>\n"@;
                assert(out@ =~= o2 + line);
                lines = lines + line;
                assert(out@ =~= o1 + lines);
            }
            k = k + 1;
        }
        push_text(out, "      ");
        push_text(out, "</attributes>\n");
        proof {
            assert(attrs@.take(attrs@.len() as int) =~= attrs@);
            assert(out@ =~= o0 + ((spaces(6) + "<attributes>\n"@) + lines + (spaces(6) + "</attributes>\n"@)));
        }
        Ok(())
    }

    fn write_timed_attributes_xml(&self, out: &mut String, attrs: &Vec<TimedAttribute>) -> (r: Result<(), OcelError>)
        requires
            self.wf(),
            timed_attributes_ok(self.pool@.len(), attrs@),
        ensures
            r is Ok <==> timed_attributes_xml(*self, attrs@) is Ok,
            r is Ok ==> final(out)@ == old(out)@ + ok_text(timed_attributes_xml(*self, attrs@)),
            r matches Err(e) ==> timed_attributes_xml(*self, attrs@) == Err::<Seq<char>, Seq<char>>(e.message@),
    {
        proof { lemma_spaces(); }
        if attrs.len() == 0 {
            push_text(out, "      ");
            push_text(out, "<attributes/>\n");
            return Ok(());
        }
        let ghost o0 = out@;
        push_text(out, "      ");
        push_text(out, "<attributes>\n");
        let ghost o1 = out@;
        let ghost mut lines: Seq<char> = Seq::empty();
        let mut k: usize = 0;
        assert(attrs@.take(0) =~= Seq::<TimedAttribute>::empty());
        while k < attrs.len()
            invariant
                self.wf(),
                timed_attributes_ok(self.pool@.len(), attrs@),
                k <= attrs@.len(),
                attrs@.len() > 0,
                timed_attribute_lines(*self, attrs@.take(k as int)) == Ok::<Seq<char>, Seq<char>>(lines),
                out@ == o1 + lines,
            decreases attrs.len() - k,
        {
            proof {
                lemma_spaces();
                assert(attrs@.take(k + 1).drop_last() =~= attrs@.take(k as int));
                assert(sym_ok(self.pool@.len(), attrs@[k as int].name));
            }
            let a = attrs[k];
            let ghost o2 = out@;
            let t = match self.time_text(a.time_ms) {
                Ok(t) => t,
                Err(e) => {
                    proof { lemma_timed_lines_stuck(*self, attrs@, k + 1); }
                    return Err(e);
                },
            };
            let v = match self.attr_value_to_xml_text(a.value) {
                Ok(v) => v,
                Err(e) => {
                    proof { lemma_timed_lines_stuck(*self, attrs@, k + 1); }
                    return Err(e);
                },
            };
            push_text(out, "      ");
            push_text(out, "  <attribute name=\"");
            push_escaped(out, self.pool.resolve(a.name), true);
            push_text(out, "\" time=\"");
            push_text(out, t.as_str());
            push_text(out, "\">");
            push_escaped(out, v.as_str(), false);
            push_text(out, "</attribute>\n");
            proof {
                let line = spaces(6) + "  <attribute name=\""@ + escape_seq(self.text(a.name), true) + "\" time=\""@ + t@ + "\">"@ + escape_seq(v@, false) + "</attribute>\n"@;
                assert(out@ =~= o2 + line);
                lines = lines + line;
                assert(out@ =~= o1 + lines);
            }
            k = k + 1;
        }
        push_text(out, "      ");
        push_text(out, "</attributes>\n");
        proof {
            assert(attrs@.take(attrs@.len() as int) =~= attrs@);
            assert(out@ =~= o0 + ((spaces(6) + "<attributes>\n"@) + lines + (spaces(6) + "</attributes>\n"@)));
        }
        Ok(())
    }

    fn write_relationships_xml(&self, out: &mut String, rels: &Vec<Relationship>)
        requires
            self.wf(),
            relationships_ok(self.pool@.len(), rels@),
        ensures
            final(out)@ == old(out)@ + relationships_xml(*self, rels@),
    {
        if rels.len() == 0 {
            return;
        }
        proof { lemma_spaces(); }
        let ghost o0 = out@;
        push_text(out, "      ");
        push_text(out, "<objects>\n");
        let ghost o1 = out@;
        let mut k: usize = 0;
        assert(rels@.take(0) =~= Seq::<Relationship>::empty());
        while k < rels.len()
            invariant
                self.wf(),
                relationships_ok(self.pool@.len(), rels@),
                k <= rels@.len(),
                out@ == o1 + relationship_lines(*self, rels@.take(k as int)),
            decreases rels.len() - k,
        {
            proof {
                lemma_spaces();
                assert(rels@.take(k + 1).drop_last() =~= rels@.take(k as int));
                assert(sym_ok(self.pool@.len(), rels@[k as int].object_id));
            }
            let r = rels[k];
            let ghost o2 = out@;
            push_text(out, "      ");
            push_text(out, "  <relationship object-id=\"");
            push_escaped(out, self.pool.resolve(r.object_id), true);
            push_text(out, "\" qualifier=\"");
            push_escaped(out, self.pool.resolve(r.qualifier), true);
            push_text(out, "\"/>\n");
            proof {
                assert(out@ =~= o2 + relationship_line(*self, r));
            }
            k = k + 1;
        }
        push_text(out, "      ");
        push_text(out, "</objects>\n");
        proof {
            assert(rels@.take(rels@.len() as int) =~= rels@);
            assert(out@ =~= o0 + relationships_xml(*self, rels@));
        }
    }

    fn write_event_xml(&self, out: &mut String, e: &Event) -> (r: Result<(), OcelError>)
        requires
            self.wf(),
            event_ok(self.pool@.len(), *e),
        ensures
            r is Ok <==> event_xml(*self, *e) is Ok,
            r is Ok ==> final(out)@ == old(out)@ + ok_text(event_xml(*self, *e)),
            r matches Err(x) ==> event_xml(*self, *e) == Err::<Seq<char>, Seq<char>>(x.message@),
    {
        let ghost o0 = out@;
        let t = self.time_text(e.time_ms)?;
        push_text(out, "    <event id=\"");
        push_escaped(out, self.pool.resolve(e.id), true);
        push_text(out, "\" type=\"");
        push_escaped(out, self.pool.resolve(e.type_symbol), true);
        push_text(out, "\" time=\"");
        push_text(out, t.as_str());
        push_text(out, "\">\n");
        let ghost o1 = out@;
        self.write_attributes_xml(out, &e.attributes)?;
        let ghost o2 = out@;
        self.write_relationships_xml(out, &e.relationships);
        push_text(out, "    </event>\n");
        proof {
            let head = "    <event id=\""@ + escape_seq(self.text(e.id), true) + "\" type=\""@ + escape_seq(self.text(e.type_symbol), true) + "\" time=\""@ + t@ + "\">\n"@;
            assert(o1 =~= o0 + head);
            assert(out@ =~= o0 + (head + ok_text(attributes_xml(*self, e.attributes@)) + (relationships_xml(*self, e.relationships@) + "    </event>\n"@)));
        }
        Ok(())
    }

    fn write_object_xml(&self, out: &mut String, o: &Object) -> (r: Result<(), OcelError>)
        requires
            self.wf(),
            object_ok(self.pool@.len(), self.events@.len(), *o),
        ensures
            r is Ok <==> object_xml(*self, *o) is Ok,
            r is Ok ==> final(out)@ == old(out)@ + ok_text(object_xml(*self, *o)),
            r matches Err(x) ==> object_xml(*self, *o) == Err::<Seq<char>, Seq<char>>(x.message@),
    {
        let ghost o0 = out@;
        push_text(out, "    <object id=\"");
        push_escaped(out, self.pool.resolve(o.id), true);
        push_text(out, "\" type=\"");
        push_escaped(out, self.pool.resolve(o.type_symbol), true);
        push_text(out, "\">\n");
        let ghost o1 = out@;
        self.write_timed_attributes_xml(out, &o.attributes)?;
        self.write_relationships_xml(out, &o.relationships);
        push_text(out, "    </object>\n");
        proof {
            let head = "    <object id=\""@ + escape_seq(self.text(o.id), true) + "\" type=\""@ + escape_seq(self.text(o.type_symbol), true) + "\">\n"@;
            assert(o1 =~= o0 + head);
            assert(out@ =~= o0 + (head + ok_text(timed_attributes_xml(*self, o.attributes@)) + (relationships_xml(*self, o.relationships@) + "    </object>\n"@)));
        }
        Ok(())
    }

    fn write_types(&self, out: &mut String, tag: &str, ts: &Vec<TypeDef>)
        requires
            self.wf(),
            forall|k: int| 0 <= k < ts@.len() ==> type_def_ok(self.pool@.len(), #[trigger] ts@[k]),
        ensures
            final(out)@ == old(out)@ + types_xml(*self, tag@, ts@),
    {
        let ghost o0 = out@;
        let mut k: usize = 0;
        assert(ts@.take(0) =~= Seq::<TypeDef>::empty());
        while k < ts.len()
            invariant
                self.wf(),
                forall|x: int| 0 <= x < ts@.len() ==> type_def_ok(self.pool@.len(), #[trigger] ts@[x]),
                k <= ts@.len(),
                out@ == o0 + types_xml(*self, tag@, ts@.take(k as int)),
            decreases ts.len() - k,
        {
            assert(ts@.take(k + 1).drop_last() =~= ts@.take(k as int));
            self.write_type_xml(out, tag, &ts[k]);
            assert(out@ =~= o0 + types_xml(*self, tag@, ts@.take(k + 1)));
            k = k + 1;
        }
        assert(ts@.take(ts@.len() as int) =~= ts@);
    }

    fn write_events(&self, out: &mut String) -> (r: Result<(), OcelError>)
        requires
            self.wf(),
        ensures
            r is Ok <==> events_xml(*self, self.events@.len() as int) is Ok,
            r is Ok ==> final(out)@ == old(out)@ + ok_text(events_xml(*self, self.events@.len() as int)),
            r matches Err(e) ==> events_xml(*self, self.events@.len() as int) == Err::<Seq<char>, Seq<char>>(e.message@),
    {
        let ghost o0 = out@;
        let mut k: usize = 0;
        while k < self.events.len()
            invariant
                self.wf(),
                k <= self.events@.len(),
                events_xml(*self, k as int) is Ok,
                out@ == o0 + ok_text(events_xml(*self, k as int)),
            decreases self.events.len() - k,
        {
            assert(event_ok(self.pool@.len(), self.events@[k as int]));
            match self.write_event_xml(out, &self.events[k]) {
                Ok(()) => {},
                Err(e) => {
                    proof {
                        lemma_events_stuck(*self, k + 1, self.events@.len() as int);
                    }
                    return Err(e);
                },
            }
            assert(out@ =~= o0 + ok_text(events_xml(*self, k + 1)));
            k = k + 1;
        }
        Ok(())
    }

    fn write_objects(&self, out: &mut String) -> (r: Result<(), OcelError>)
        requires
            self.wf(),
        ensures
            r is Ok <==> objects_xml(*self, self.objects@.len() as int) is Ok,
            r is Ok ==> final(out)@ == old(out)@ + ok_text(objects_xml(*self, self.objects@.len() as int)),
            r matches Err(e) ==> objects_xml(*self, self.objects@.len() as int) == Err::<Seq<char>, Seq<char>>(e.message@),
    {
        let ghost o0 = out@;
        let mut k: usize = 0;
        while k < self.objects.len()
            invariant
                self.wf(),
                k <= self.objects@.len(),
                objects_xml(*self, k as int) is Ok,
                out@ == o0 + ok_text(objects_xml(*self, k as int)),
            decreases self.objects.len() - k,
        {
            assert(object_ok(self.pool@.len(), self.events@.len(), self.objects@[k as int]));
            match self.write_object_xml(out, &self.objects[k]) {
                Ok(()) => {},
                Err(e) => {
                    proof {
                        lemma_objects_stuck(*self, k + 1, self.objects@.len() as int);
                    }
                    return Err(e);
                },
            }
            assert(out@ =~= o0 + ok_text(objects_xml(*self, k + 1)));
            k = k + 1;
        }
        Ok(())
    }

    /// Writes the log as OCEL 2.0 XML.
    pub fn export_xml(&self) -> (r: Result<String, OcelError>)
        requires
            self.wf(),
        ensures
            match r {
                Ok(t) => xml_export(*self) == Ok::<Seq<char>, Seq<char>>(t@),
                Err(e) => xml_export(*self) == Err::<Seq<char>, Seq<char>>(e.message@),
            },
    {
        let mut out = String::new();
        push_text(&mut out, "<?xml version=\"1.0\" encoding=\"UTF-8\"?>\n<log>\n");
        push_text(&mut out, "  <event-types>\n");
        self.write_types(&mut out, "event-type", &self.event_types);
        push_text(&mut out, "  </event-types>\n");
        push_text(&mut out, "  <object-types>\n");
        self.write_types(&mut out, "object-type", &self.object_types);
        push_text(&mut out, "  </object-types>\n");
        push_text(&mut out, "  <events>\n");
        let ghost head = out@;
        let ghost spec_head = "<?xml version=\"1.0\" encoding=\"UTF-8\"?>\n<log>\n"@ + "  <event-types>\n"@
            + types_xml(*self, "event-type"@, self.event_types@) + "  </event-types>\n"@ + "  <object-types>\n"@
            + types_xml(*self, "object-type"@, self.object_types@) + "  </object-types>\n"@ + "  <events>\n"@;
        assert(head =~= spec_head);
        self.write_events(&mut out)?;
        push_text(&mut out, "  </events>\n");
        push_text(&mut out, "  <objects>\n");
        let ghost mid = out@;
        self.write_objects(&mut out)?;
        push_text(&mut out, "  </objects>\n</log>\n");
        proof {
            let ev = ok_text(events_xml(*self, self.events@.len() as int));
            let ob = ok_text(objects_xml(*self, self.objects@.len() as int));
            assert(mid =~= head + ev + ("  </events>\n"@ + "  <objects>\n"@));
            assert(out@ =~= head + ev + ("  </events>\n"@ + "  <objects>\n"@) + (ob + "  </objects>\n</log>\n"@));
        }
        Ok(out)
    }
}

} // verus!
