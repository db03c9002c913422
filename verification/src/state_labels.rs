use vstd::prelude::*;
use crate::error::OcelError;
use crate::pool::{StringPool, Symbol};
use crate::model::{
    CompactOcelLog, TypeDef, Event, Attribute, AttrValue, AttrType, AttributeDef, type_def_ok, event_ok, object_ok,
    sym_ok, value_ok, attributes_ok,
};
use crate::log_ops::{has_object_type, symbol_of};
use crate::text::{owned, push_text};
use crate::json::{JsonValue, Json, member, object};
use vstd::hash_map::HashMapWithView;

verus! {

/// A state to give the event with the given id.
pub struct StateAssignment {
    pub event_id: Symbol,
    pub state: String,
}

/// `b` extends the pool `a`.
pub open spec fn pool_extends(a: Seq<Seq<char>>, b: Seq<Seq<char>>) -> bool {
    a.len() <= b.len() && forall|i: int| 0 <= i < a.len() ==> #[trigger] b[i] == a[i]
}

/// A log stays well formed when only its pool grows.
pub proof fn lemma_wf_pool_grows(a: CompactOcelLog, b: CompactOcelLog)
    requires
        a.wf(),
        b.pool.wf(),
        pool_extends(a.pool@, b.pool@),
        b.event_types == a.event_types,
        b.object_types == a.object_types,
        b.events == a.events,
        b.objects == a.objects,
        b.object_index == a.object_index,
        b.state_leading_object_type == a.state_leading_object_type,
    ensures
        b.wf(),
{
    let n = a.pool@.len();
    let m = b.pool@.len();
    assert forall|k: int| 0 <= k < b.event_types@.len() implies type_def_ok(m, #[trigger] b.event_types@[k]) by {
        assert(type_def_ok(n, a.event_types@[k]));
    }
    assert forall|k: int| 0 <= k < b.object_types@.len() implies type_def_ok(m, #[trigger] b.object_types@[k]) by {
        assert(type_def_ok(n, a.object_types@[k]));
    }
    assert forall|k: int| 0 <= k < b.events@.len() implies event_ok(m, #[trigger] b.events@[k]) by {
        assert(event_ok(n, a.events@[k]));
        let e = b.events@[k];
        assert(e == a.events@[k]);
        lemma_attrs_mono(n, m, e.attributes@);
        lemma_rels_mono(n, m, e.relationships@);
    }
    assert forall|k: int| 0 <= k < b.objects@.len() implies object_ok(m, b.events@.len(), #[trigger] b.objects@[k]) by {
        assert(object_ok(n, a.events@.len(), a.objects@[k]));
        let o = b.objects@[k];
        assert(o == a.objects@[k]);
        assert(crate::model::timed_attributes_ok(n, o.attributes@));
        lemma_timed_mono(n, m, o.attributes@);
        lemma_rels_mono(n, m, o.relationships@);
    }
}

proof fn lemma_timed_mono(n: nat, m: nat, attrs: Seq<crate::model::TimedAttribute>)
    requires
        crate::model::timed_attributes_ok(n, attrs),
        n <= m,
    ensures
        crate::model::timed_attributes_ok(m, attrs),
{
    assert forall|k: int| 0 <= k < attrs.len() implies sym_ok(m, #[trigger] attrs[k].name) && value_ok(m, attrs[k].value) by {
        assert(sym_ok(n, attrs[k].name));
        assert(value_ok(n, attrs[k].value));
    }
}

proof fn lemma_attrs_mono(n: nat, m: nat, attrs: Seq<Attribute>)
    requires
        attributes_ok(n, attrs),
        n <= m,
    ensures
        attributes_ok(m, attrs),
{
    assert forall|k: int| 0 <= k < attrs.len() implies sym_ok(m, #[trigger] attrs[k].name) && value_ok(m, attrs[k].value) by {
        assert(sym_ok(n, attrs[k].name));
        assert(value_ok(n, attrs[k].value));
    }
}

proof fn lemma_rels_mono(n: nat, m: nat, rels: Seq<crate::model::Relationship>)
    requires
        crate::model::relationships_ok(n, rels),
        n <= m,
    ensures
        crate::model::relationships_ok(m, rels),
{
    assert forall|k: int| 0 <= k < rels.len() implies sym_ok(m, #[trigger] rels[k].object_id) && sym_ok(m, rels[k].qualifier) by {
        assert(sym_ok(n, rels[k].object_id));
        assert(sym_ok(n, rels[k].qualifier));
    }
}

/// Position of the last event with the id.
pub open spec fn event_at(events: Seq<Event>, id: Symbol) -> Option<int> {
    if exists|i: int| 0 <= i < events.len() && events[i].id == id {
        Some(choose|i: int| 0 <= i < events.len() && events[i].id == id && forall|j: int| i < j < events.len() ==> events[j].id != id)
    } else {
        None
    }
}

/// The attribute declarations of an event type once it declares `st` as a
/// string attribute.
pub open spec fn with_state_def(attrs: Seq<AttributeDef>, st: Symbol) -> Seq<AttributeDef> {
    if exists|k: int| 0 <= k < attrs.len() && attrs[k].name == st {
        attrs
    } else {
        attrs.push(AttributeDef { name: st, attr_type: AttrType::String })
    }
}

impl CompactOcelLog {
    /// Declares `sym` as an attribute of every event type that lacks it.
    pub fn ensure_event_attribute(&mut self, sym: Symbol, attr_type: AttrType)
        requires
            old(self).wf(),
            sym.0 < old(self).pool@.len(),
        ensures
            final(self).wf(),
            final(self).pool == old(self).pool,
            final(self).events == old(self).events,
            final(self).objects == old(self).objects,
            final(self).object_types == old(self).object_types,
            final(self).format == old(self).format,
            final(self).object_index == old(self).object_index,
            final(self).state_leading_object_type == old(self).state_leading_object_type,
            final(self).event_types@.len() == old(self).event_types@.len(),
            forall|k: int| 0 <= k < final(self).event_types@.len() ==> {
                let t = #[trigger] final(self).event_types@[k];
                let o = old(self).event_types@[k];
                &&& t.name == o.name
                &&& t.attributes@ == if exists|x: int| 0 <= x < o.attributes@.len() && o.attributes@[x].name == sym {
                    o.attributes@
                } else {
                    o.attributes@.push(AttributeDef { name: sym, attr_type })
                }
            },
    {
        let mut types: Vec<TypeDef> = Vec::new();
        std::mem::swap(&mut types, &mut self.event_types);
        let ghost old_types = types@;
        let mut out: Vec<TypeDef> = Vec::new();
        let mut k: usize = 0;
        while k < types.len()
            invariant
                types@ == old_types,
                k <= old_types.len(),
                out@.len() == k,
                forall|j: int| 0 <= j < k ==> {
                    let t = #[trigger] out@[j];
                    let o = old_types[j];
                    &&& t.name == o.name
                    &&& t.attributes@ == if exists|x: int| 0 <= x < o.attributes@.len() && o.attributes@[x].name == sym {
                        o.attributes@
                    } else {
                        o.attributes@.push(AttributeDef { name: sym, attr_type })
                    }
                },
            decreases types.len() - k,
        {
            let t = &types[k];
            let mut attrs = crate::filtering::copy_vec(&t.attributes);
            let mut found = false;
            let mut x: usize = 0;
            while x < attrs.len()
                invariant
                    x <= attrs@.len(),
                    found == exists|y: int| 0 <= y < x && attrs@[y].name == sym,
                decreases attrs.len() - x,
            {
                if attrs[x].name == sym {
                    found = true;
                }
                x = x + 1;
            }
            if !found {
                attrs.push(AttributeDef { name: sym, attr_type });
            }
            out.push(TypeDef { name: t.name, attributes: attrs });
            k = k + 1;
        }
        self.event_types = out;
        proof {
            let n = self.pool@.len();
            assert forall|j: int| 0 <= j < self.event_types@.len() implies type_def_ok(n, #[trigger] self.event_types@[j]) by {
                assert(type_def_ok(n, old(self).event_types@[j]));
                let o = old(self).event_types@[j];
                let t = self.event_types@[j];
                assert forall|x: int| 0 <= x < t.attributes@.len() implies sym_ok(n, #[trigger] t.attributes@[x].name) by {
                    if x < o.attributes@.len() {
                        assert(t.attributes@[x] == o.attributes@[x]);
                    }
                }
            }
        }
    }
}


/// The attributes without those named `name`, in their order.
pub open spec fn without_name(attrs: Seq<Attribute>, name: Symbol) -> Seq<Attribute>
    decreases attrs.len(),
{
    if attrs.len() == 0 {
        attrs
    } else {
        let rest = without_name(attrs.drop_last(), name);
        if attrs.last().name == name {
            rest
        } else {
            rest.push(attrs.last())
        }
    }
}

/// The states, in order, of the assignments whose event id belongs last to
/// the event at position `k`.
pub open spec fn states_for(events: Seq<Event>, states: Seq<StateAssignment>, k: int) -> Seq<Seq<char>>
    decreases states.len(),
{
    if states.len() == 0 {
        Seq::empty()
    } else {
        let rest = states_for(events, states.drop_last(), k);
        if event_at(events, states.last().event_id) == Some(k) {
            rest.push(states.last().state@)
        } else {
            rest
        }
    }
}

/// Number of assignments whose event id belongs to some event.
pub open spec fn assigned_count(events: Seq<Event>, states: Seq<StateAssignment>) -> nat
    decreases states.len(),
{
    if states.len() == 0 {
        0
    } else {
        assigned_count(events, states.drop_last()) + if event_at(events, states.last().event_id) is Some {
            1nat
        } else {
            0nat
        }
    }
}

/// `e` is `o` with its `st` attributes replaced by one string attribute per
/// text of `texts`, in that order, resolved through `pool`.
pub open spec fn labelled(o: Event, e: Event, texts: Seq<Seq<char>>, st: Symbol, pool: Seq<Seq<char>>) -> bool {
    let base = without_name(o.attributes@, st);
    &&& e.id == o.id
    &&& e.type_symbol == o.type_symbol
    &&& e.time_ms == o.time_ms
    &&& e.relationships@ == o.relationships@
    &&& e.attributes@.len() == base.len() + texts.len()
    &&& e.attributes@.subrange(0, base.len() as int) == base
    &&& forall|i: int| 0 <= i < texts.len() ==> {
        let a = #[trigger] e.attributes@[base.len() + i];
        &&& a.name == st
        &&& match a.value {
            AttrValue::String(v) => v.0 < pool.len() && pool[v.0 as int] == texts[i],
            _ => false,
        }
    }
}

/// Keeps the attributes not named `name`.
fn strip_attribute(attrs: &Vec<Attribute>, name: Symbol) -> (r: Vec<Attribute>)
    ensures
        r@ == without_name(attrs@, name),
{
    let mut out: Vec<Attribute> = Vec::new();
    let mut i: usize = 0;
    while i < attrs.len()
        invariant
            i <= attrs@.len(),
            out@ == without_name(attrs@.take(i as int), name),
        decreases attrs.len() - i,
    {
        assert(attrs@.take(i + 1).drop_last() == attrs@.take(i as int));
        if attrs[i].name != name {
            out.push(attrs[i]);
        }
        i = i + 1;
    }
    assert(attrs@.take(attrs@.len() as int) == attrs@);
    out
}


/// `new` is `old` once the events named by `states` carry their states under
/// the string attribute `st`, every earlier `st` attribute removed, and the
/// events of type-less ids left without one.
pub open spec fn labels_applied(
    old: CompactOcelLog,
    new: CompactOcelLog,
    leading: Seq<char>,
    attribute: Seq<char>,
    states: Seq<StateAssignment>,
    st: Symbol,
) -> bool {
    &&& new.wf()
    &&& pool_extends(old.pool@, new.pool@)
    &&& st.0 < new.pool@.len()
    &&& new.text(st) == attribute
    &&& new.format == old.format
    &&& new.object_types == old.object_types
    &&& new.objects == old.objects
    &&& new.object_index == old.object_index
    &&& match new.state_leading_object_type {
        Some(s) => s.0 < new.pool@.len() && new.text(s) == leading,
        None => false,
    }
    &&& new.event_types@.len() == old.event_types@.len()
    &&& forall|k: int| 0 <= k < new.event_types@.len() ==> {
        &&& (#[trigger] new.event_types@[k]).name == old.event_types@[k].name
        &&& new.event_types@[k].attributes@ == with_state_def(old.event_types@[k].attributes@, st)
    }
    &&& new.events@.len() == old.events@.len()
    &&& forall|k: int| 0 <= k < new.events@.len() ==> labelled(
        old.events@[k],
        #[trigger] new.events@[k],
        states_for(old.events@, states, k),
        st,
        new.pool@,
    )
}

/// Writing labels keeps lifecycles right: it changes neither the objects
/// nor the times and relationships of the events.
pub proof fn lemma_lifecycles_labels(
    old: CompactOcelLog,
    new: CompactOcelLog,
    leading: Seq<char>,
    attribute: Seq<char>,
    states: Seq<StateAssignment>,
    st: Symbol,
)
    requires
        labels_applied(old, new, leading, attribute, states, st),
        crate::filtering::lifecycles_ok(old),
    ensures
        crate::filtering::lifecycles_ok(new),
{
    assert forall|i: int| 0 <= i < old.events@.len() implies (#[trigger] old.events@[i]).time_ms == new.events@[i].time_ms
        && old.events@[i].relationships@ == new.events@[i].relationships@ by {
        assert(labelled(old.events@[i], new.events@[i], states_for(old.events@, states, i), st, new.pool@));
    }
    assert forall|k: int| 0 <= k < new.objects@.len() implies crate::lifecycle::is_lifecycle(new.events@, (#[trigger] new.objects@[k]).id, new.objects@[k].lifecycle@) by {
        assert(new.objects@[k] == old.objects@[k]);
        assert(crate::lifecycle::is_lifecycle(old.events@, old.objects@[k].id, old.objects@[k].lifecycle@));
        crate::filtering::lemma_lifecycle_same_events(old.events@, new.events@, new.objects@[k].id, new.objects@[k].lifecycle@);
    }
}

/// `m` maps the id of each of the first `n` events to the position of the
/// last of them with that id.
spec fn last_positions(events: Seq<Event>, m: Map<usize, usize>, n: int) -> bool {
    &&& forall|s: usize| #[trigger] m.contains_key(s) <==> exists|i: int| 0 <= i < n && events[i].id.0 == s
    &&& forall|s: usize| #[trigger] m.contains_key(s) ==> {
        let i = m[s] as int;
        &&& 0 <= i < n
        &&& events[i].id.0 == s
        &&& forall|j: int| i < j < n ==> events[j].id.0 != s
    }
}

proof fn lemma_without_name_ok(n: nat, attrs: Seq<Attribute>, name: Symbol)
    requires
        attributes_ok(n, attrs),
    ensures
        attributes_ok(n, without_name(attrs, name)),
    decreases attrs.len(),
{
    if attrs.len() > 0 {
        let d = attrs.drop_last();
        assert forall|k: int| 0 <= k < d.len() implies sym_ok(n, #[trigger] d[k].name) && value_ok(n, d[k].value) by {
            assert(d[k] == attrs[k]);
        }
        lemma_without_name_ok(n, d, name);
        assert(sym_ok(n, attrs[attrs.len() - 1].name));
        let r = without_name(attrs, name);
        let rest = without_name(d, name);
        assert forall|k: int| 0 <= k < r.len() implies sym_ok(n, #[trigger] r[k].name) && value_ok(n, r[k].value) by {
            if k < rest.len() {
                assert(r[k] == rest[k]);
            }
        }
    }
}

proof fn lemma_labelled_pool(o: Event, e: Event, texts: Seq<Seq<char>>, st: Symbol, p: Seq<Seq<char>>, q: Seq<Seq<char>>)
    requires
        labelled(o, e, texts, st, p),
        pool_extends(p, q),
    ensures
        labelled(o, e, texts, st, q),
{
    let base = without_name(o.attributes@, st);
    assert forall|i: int| 0 <= i < texts.len() implies {
        let a = #[trigger] e.attributes@[base.len() + i];
        &&& a.name == st
        &&& match a.value {
            AttrValue::String(v) => v.0 < q.len() && q[v.0 as int] == texts[i],
            _ => false,
        }
    } by {
        let a = e.attributes@[base.len() + i];
        if let AttrValue::String(v) = a.value {
            assert(q[v.0 as int] == p[v.0 as int]);
        }
    }
}

/// The map agrees with the last position of each id.
proof fn lemma_last_position(events: Seq<Event>, m: Map<usize, usize>, id: Symbol)
    requires
        last_positions(events, m, events.len() as int),
    ensures
        m.contains_key(id.0) == event_at(events, id) is Some,
        m.contains_key(id.0) ==> event_at(events, id) == Some(m[id.0] as int),
{
    if m.contains_key(id.0) {
        let i = m[id.0] as int;
        assert(events[i].id == id);
        let c = choose|c: int| 0 <= c < events.len() && events[c].id == id && forall|j: int| c < j < events.len() ==> events[j].id != id;
        if c < i {
        }
        if c > i {
            assert(events[c].id.0 != id.0);
        }
    } else {
        if exists|i: int| 0 <= i < events.len() && events[i].id == id {
            let i = choose|i: int| 0 <= i < events.len() && events[i].id == id;
            assert(events[i].id.0 == id.0);
        }
    }
}

impl CompactOcelLog {
    /// Writes each assignment's state as the string attribute `attribute` of
    /// the event with its id, after removing every earlier such attribute, and
    /// records the leading object type. Returns how many assignments found
    /// their event.
    pub fn apply_state_labels_by_event_id(
        &mut self,
        leading_object_type: &str,
        attribute: &str,
        states: &Vec<StateAssignment>,
    ) -> (r: Result<usize, OcelError>)
        requires
            old(self).wf(),
        ensures
            match r {
                Ok(n) => {
                    &&& has_object_type(*old(self), leading_object_type@)
                    &&& symbol_of(*final(self), attribute@) is Some
                    &&& labels_applied(
                        *old(self),
                        *final(self),
                        leading_object_type@,
                        attribute@,
                        states@,
                        symbol_of(*final(self), attribute@)->0,
                    )
                    &&& n == assigned_count(old(self).events@, states@)
                },
                Err(e) => {
                    &&& !has_object_type(*old(self), leading_object_type@)
                    &&& *final(self) == *old(self)
                    &&& e.message@ == "unknown leading object type '"@ + leading_object_type@ + "'"@
                },
            },
    {
        let leading = match self.object_type_symbol(leading_object_type) {
            Some(s) => s,
            None => {
                let mut m = owned("unknown leading object type '");
                push_text(&mut m, leading_object_type);
                push_text(&mut m, "'");
                return Err(OcelError::new(m));
            },
        };
        let ghost log0 = *self;
        let st = self.pool.intern(attribute);
        proof {
            lemma_wf_pool_grows(log0, *self);
        }
        self.ensure_event_attribute(st, AttrType::String);
        self.state_leading_object_type = Some(leading);
        let ghost events0 = self.events@;
        let ghost log1 = *self;
        assert(events0 == old(self).events@);
        let mut k: usize = 0;
        while k < self.events.len()
            invariant
                self.pool == log1.pool,
                self.event_types == log1.event_types,
                self.object_types == log1.object_types,
                self.objects == log1.objects,
                self.object_index == log1.object_index,
                self.format == log1.format,
                self.state_leading_object_type == log1.state_leading_object_type,
                log1.wf(),
                self.pool.wf(),
                st.0 < self.pool@.len(),
                self.pool@[st.0 as int] == attribute@,
                self.events@.len() == events0.len(),
                k <= events0.len(),
                forall|j: int| 0 <= j < events0.len() ==> event_ok(old(self).pool@.len(), #[trigger] events0[j]),
                pool_extends(old(self).pool@, self.pool@),
                forall|j: int| 0 <= j < k ==> labelled(events0[j], #[trigger] self.events@[j], Seq::empty(), st, self.pool@),
                forall|j: int| k <= j < events0.len() ==> #[trigger] self.events@[j] == events0[j],
            decreases events0.len() - k,
        {
            let attrs = strip_attribute(&self.events[k].attributes, st);
            self.events[k].attributes = attrs;
            proof {
                let e = self.events@[k as int];
                assert(e.attributes@.subrange(0, e.attributes@.len() as int) == e.attributes@);
            }
            k = k + 1;
        }
        let mut last: HashMapWithView<usize, usize> = HashMapWithView::new();
        let ghost log2 = *self;
        let mut i: usize = 0;
        while i < self.events.len()
            invariant
                i <= self.events@.len(),
                *self == log2,
                self.events@.len() == events0.len(),
                forall|j: int| 0 <= j < events0.len() ==> (#[trigger] self.events@[j]).id == events0[j].id,
                last_positions(events0, last@, i as int),
            decreases self.events.len() - i,
        {
            let id = self.events[i].id.0;
            last.insert(id, i);
            proof {
                assert forall|s: usize| #[trigger] last@.contains_key(s) <==> exists|j: int| 0 <= j < i + 1 && events0[j].id.0 == s by {
                    if s != id && last@.contains_key(s) {
                        let j = choose|j: int| 0 <= j < i && events0[j].id.0 == s;
                    }
                    if s == id {
                        assert(events0[i as int].id.0 == s);
                    }
                }
            }
            i = i + 1;
        }
        proof {
            let n = self.pool@.len();
            assert forall|j: int| 0 <= j < self.events@.len() implies event_ok(n, #[trigger] self.events@[j]) by {
                let o = events0[j];
                let e = self.events@[j];
                assert(event_ok(old(self).pool@.len(), o));
                lemma_attrs_mono(old(self).pool@.len(), n, o.attributes@);
                lemma_rels_mono(old(self).pool@.len(), n, o.relationships@);
                lemma_without_name_ok(n, o.attributes@, st);
                assert(labelled(o, e, Seq::empty(), st, self.pool@));
                assert(e.attributes@ == without_name(o.attributes@, st));
            }
            assert(states@.take(0) == Seq::<StateAssignment>::empty());
        }
        let ghost types1 = self.event_types;
        let mut assigned: usize = 0;
        let mut j: usize = 0;
        while j < states.len()
            invariant
                self.wf(),
                j <= states@.len(),
                assigned <= j,
                assigned == assigned_count(events0, states@.take(j as int)),
                pool_extends(old(self).pool@, self.pool@),
                st.0 < self.pool@.len(),
                self.pool@[st.0 as int] == attribute@,
                self.event_types == types1,
                self.format == old(self).format,
                self.object_types == old(self).object_types,
                self.objects == old(self).objects,
                self.object_index == old(self).object_index,
                self.state_leading_object_type == Some(leading),
                self.events@.len() == events0.len(),
                last_positions(events0, last@, events0.len() as int),
                forall|k: int| 0 <= k < events0.len() ==> labelled(
                    events0[k],
                    #[trigger] self.events@[k],
                    states_for(events0, states@.take(j as int), k),
                    st,
                    self.pool@,
                ),
            decreases states.len() - j,
        {
            let a = &states[j];
            let ghost before = *self;
            let ghost prefix = states@.take(j as int);
            assert(states@.take(j + 1).drop_last() == prefix);
            assert(states@.take(j + 1).last() == *a);
            proof { lemma_last_position(events0, last@, a.event_id); }
            match last.get(&a.event_id.0) {
                Some(pos) => {
                    let i = *pos;
                    let sym = self.pool.intern(a.state.as_str());
                    proof { lemma_wf_pool_grows(before, *self); }
                    let ghost mid = *self;
                    self.events[i].attributes.push(Attribute { name: st, value: AttrValue::String(sym) });
                    proof {
                        let n = self.pool@.len();
                        assert forall|k: int| 0 <= k < self.events@.len() implies event_ok(n, #[trigger] self.events@[k]) by {
                            assert(event_ok(n, mid.events@[k]));
                            if k == i {
                                let e = self.events@[k];
                                assert forall|x: int| 0 <= x < e.attributes@.len() implies sym_ok(n, #[trigger] e.attributes@[x].name) && value_ok(n, e.attributes@[x].value) by {
                                    if x < mid.events@[k].attributes@.len() {
                                        assert(e.attributes@[x] == mid.events@[k].attributes@[x]);
                                    }
                                }
                            }
                        }
                        assert forall|k: int| 0 <= k < events0.len() implies labelled(
                            events0[k],
                            #[trigger] self.events@[k],
                            states_for(events0, states@.take(j + 1), k),
                            st,
                            self.pool@,
                        ) by {
                            lemma_labelled_pool(events0[k], mid.events@[k], states_for(events0, prefix, k), st, before.pool@, self.pool@);
                            if k == i {
                                let base = without_name(events0[k].attributes@, st);
                                let texts = states_for(events0, states@.take(j + 1), k);
                                let e = self.events@[k];
                                let m = mid.events@[k];
                                assert(texts == states_for(events0, prefix, k).push(a.state@));
                                assert(e.attributes@ == m.attributes@.push(Attribute { name: st, value: AttrValue::String(sym) }));
                                assert(e.attributes@.subrange(0, base.len() as int) == m.attributes@.subrange(0, base.len() as int));
                                assert forall|x: int| 0 <= x < texts.len() implies {
                                    let b = #[trigger] e.attributes@[base.len() + x];
                                    &&& b.name == st
                                    &&& match b.value {
                                        AttrValue::String(v) => v.0 < self.pool@.len() && self.pool@[v.0 as int] == texts[x],
                                        _ => false,
                                    }
                                } by {
                                    if x < texts.len() - 1 {
                                        assert(e.attributes@[base.len() + x] == m.attributes@[base.len() + x]);
                                    }
                                }
                            } else {
                                assert(self.events@[k] == mid.events@[k]);
                            }
                        }
                    }
                    assigned = assigned + 1;
                },
                None => {
                    proof {
                        assert forall|k: int| 0 <= k < events0.len() implies states_for(events0, states@.take(j + 1), k)
                            == states_for(events0, prefix, k) by {}
                    }
                },
            }
            j = j + 1;
        }
        proof {
            assert(states@.take(states@.len() as int) == states@);
            self.pool.lemma_wf_distinct();
            let c = choose|c: int| 0 <= c < self.pool@.len() && self.pool@[c] == attribute@;
            assert(self.pool@.contains(attribute@));
        }
        Ok(assigned)
    }
}

/// Model of the report of a state assignment: the attribute written, the
/// leading object type, the events that carry the attribute and all events.
pub open spec fn state_result_model(attribute: Seq<char>, leading: Seq<char>, assigned: nat, total: nat) -> Json {
    Json::Object(seq![
        ("attribute"@, Json::Str(attribute)),
        ("leading_object_type"@, Json::Str(leading)),
        ("assigned_events"@, Json::Int(assigned as int)),
        ("total_events"@, Json::Int(total as int)),
    ])
}

/// Report of a state assignment.
pub fn state_result_json(attribute: String, leading_object_type: String, assigned_events: usize, total_events: usize) -> (j: JsonValue)
    ensures
        j.model() == state_result_model(attribute@, leading_object_type@, assigned_events as nat, total_events as nat),
{
    let mut members: Vec<(String, JsonValue)> = Vec::new();
    members.push(member("attribute", JsonValue::Str(attribute)));
    members.push(member("leading_object_type", JsonValue::Str(leading_object_type)));
    members.push(member("assigned_events", JsonValue::Count(assigned_events)));
    members.push(member("total_events", JsonValue::Count(total_events)));
    let j = object(members);
    proof {
        reveal_strlit("attribute");
        reveal_strlit("leading_object_type");
        reveal_strlit("assigned_events");
        reveal_strlit("total_events");
        reveal_with_fuel(JsonValue::model, 2);
        let ms = j.model()->Object_0;
        let want = state_result_model(attribute@, leading_object_type@, assigned_events as nat, total_events as nat)->Object_0;
        assert(ms.len() == want.len());
        assert forall|k: int| 0 <= k < ms.len() implies ms[k] == want[k] by {
            assert(members@[k].1.model() == want[k].1);
        }
        assert(ms =~= want);
    }
    j
}
} // verus!
