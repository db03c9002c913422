use vstd::prelude::*;
use crate::pool::Symbol;
use crate::model::{
    CompactOcelLog, TypeDef, Event, Object, Attribute, TimedAttribute, Relationship, AttributeDef,
    type_def_ok, event_ok, object_ok, sym_ok, attributes_ok, timed_attributes_ok, relationships_ok, object_index_ok,
};
use crate::filter::{
    OcelFilterRequest, selection, all_selected, has_object_predicates, has_time_predicate, accepts_time,
    object_satisfies, contains_text, covers_types,
};
use crate::patterns::texts;
use crate::counting::{positions, lemma_positions, lemma_positions_ext, lemma_filter_subset};
use crate::lifecycle::{build_lifecycles, is_lifecycle, same_but_lifecycle};

verus! {

/// The object at `oi` has a selected type and passes the object predicates.
pub open spec fn object_selected(log: CompactOcelLog, f: OcelFilterRequest, oi: int) -> bool {
    &&& selection(log, log.object_types@, f.object_types@).contains(log.text(log.objects@[oi].type_symbol))
    &&& object_satisfies(log, oi, f)
}

/// Some selected object has the id.
pub open spec fn id_selected(log: CompactOcelLog, f: OcelFilterRequest, id: Symbol) -> bool {
    exists|oi: int| 0 <= oi < log.objects@.len() && (#[trigger] log.objects@[oi]).id == id && object_selected(log, f, oi)
}

/// The relationships of an event to selected objects.
pub open spec fn kept_rels(log: CompactOcelLog, f: OcelFilterRequest, e: Event) -> Seq<Relationship> {
    e.relationships@.filter(|r: Relationship| id_selected(log, f, r.object_id))
}

/// An event must keep a relationship to stay.
pub open spec fn require_match(log: CompactOcelLog, f: OcelFilterRequest) -> bool {
    !all_selected(log, log.object_types@, f.object_types@) || has_object_predicates(f)
}

/// The event stays in the filtered log.
pub open spec fn event_kept(log: CompactOcelLog, f: OcelFilterRequest, e: Event) -> bool {
    &&& selection(log, log.event_types@, f.event_types@).contains(log.text(e.type_symbol))
    &&& accepts_time(f, e.time_ms)
    &&& require_match(log, f) ==> kept_rels(log, f, e).len() > 0
}

/// Positions of the events that stay.
pub open spec fn kept_positions(log: CompactOcelLog, f: OcelFilterRequest) -> Seq<int> {
    positions(log.events@.len() as int, |i: int| event_kept(log, f, log.events@[i]))
}

pub open spec fn mentions(rs: Seq<Relationship>, id: Symbol) -> bool {
    exists|q: int| 0 <= q < rs.len() && (#[trigger] rs[q]).object_id == id
}

/// A kept relationship of a kept event points at the object.
pub open spec fn id_retained(log: CompactOcelLog, f: OcelFilterRequest, id: Symbol) -> bool {
    exists|p: int|
        0 <= p < log.events@.len() && event_kept(log, f, #[trigger] log.events@[p]) && mentions(kept_rels(log, f, log.events@[p]), id)
}

/// Positions of the objects that stay.
pub open spec fn kept_object_positions(log: CompactOcelLog, f: OcelFilterRequest) -> Seq<int> {
    positions(log.objects@.len() as int, |j: int| id_retained(log, f, log.objects@[j].id))
}

/// Some kept event has the type.
pub open spec fn event_type_used(log: CompactOcelLog, f: OcelFilterRequest, sym: Symbol) -> bool {
    exists|p: int| 0 <= p < log.events@.len() && event_kept(log, f, #[trigger] log.events@[p]) && log.events@[p].type_symbol == sym
}

/// Some kept object has the type.
pub open spec fn object_type_used(log: CompactOcelLog, f: OcelFilterRequest, sym: Symbol) -> bool {
    exists|j: int|
        0 <= j < log.objects@.len() && id_retained(log, f, (#[trigger] log.objects@[j]).id) && log.objects@[j].type_symbol == sym
}

/// Every type is selected and there is no other predicate.
pub open spec fn unchanged(log: CompactOcelLog, f: OcelFilterRequest) -> bool {
    &&& all_selected(log, log.event_types@, f.event_types@)
    &&& all_selected(log, log.object_types@, f.object_types@)
    &&& !has_object_predicates(f)
    &&& !has_time_predicate(f)
}

pub open spec fn type_copy(a: TypeDef, b: TypeDef) -> bool {
    a.name == b.name && a.attributes@ == b.attributes@
}

pub open spec fn event_copy(a: Event, b: Event) -> bool {
    &&& a.id == b.id
    &&& a.type_symbol == b.type_symbol
    &&& a.time_ms == b.time_ms
    &&& a.attributes@ == b.attributes@
    &&& a.relationships@ == b.relationships@
}

pub open spec fn object_copy(a: Object, b: Object) -> bool {
    &&& a.id == b.id
    &&& a.type_symbol == b.type_symbol
    &&& a.attributes@ == b.attributes@
    &&& a.relationships@ == b.relationships@
    &&& a.lifecycle@ == b.lifecycle@
}

/// Two logs hold the same content.
pub open spec fn same_log(a: CompactOcelLog, b: CompactOcelLog) -> bool {
    &&& a.format == b.format
    &&& a.pool@ == b.pool@
    &&& a.state_leading_object_type == b.state_leading_object_type
    &&& a.object_index@ == b.object_index@
    &&& a.event_types@.len() == b.event_types@.len()
    &&& forall|i: int| 0 <= i < a.event_types@.len() ==> type_copy(#[trigger] a.event_types@[i], b.event_types@[i])
    &&& a.object_types@.len() == b.object_types@.len()
    &&& forall|i: int| 0 <= i < a.object_types@.len() ==> type_copy(#[trigger] a.object_types@[i], b.object_types@[i])
    &&& a.events@.len() == b.events@.len()
    &&& forall|i: int| 0 <= i < a.events@.len() ==> event_copy(#[trigger] a.events@[i], b.events@[i])
    &&& a.objects@.len() == b.objects@.len()
    &&& forall|i: int| 0 <= i < a.objects@.len() ==> object_copy(#[trigger] a.objects@[i], b.objects@[i])
}

/// Every object's lifecycle lists its events.
pub open spec fn lifecycles_ok(log: CompactOcelLog) -> bool {
    forall|k: int| 0 <= k < log.objects@.len() ==> is_lifecycle(log.events@, (#[trigger] log.objects@[k]).id, log.objects@[k].lifecycle@)
}

/// A lifecycle stays one over events with the same times and relationships.
pub proof fn lemma_lifecycle_same_events(a: Seq<Event>, b: Seq<Event>, id: Symbol, lc: Seq<usize>)
    requires
        a.len() == b.len(),
        forall|i: int| 0 <= i < a.len() ==> (#[trigger] a[i]).time_ms == b[i].time_ms && a[i].relationships@ == b[i].relationships@,
        is_lifecycle(a, id, lc),
    ensures
        is_lifecycle(b, id, lc),
{
    assert forall|x: int, y: int| 0 <= x < y < lc.len() implies crate::lifecycle::event_before_eq(b, #[trigger] lc[x], #[trigger] lc[y]) by {
        assert(crate::lifecycle::event_before_eq(a, lc[x], lc[y]));
        assert(a[lc[x] as int].time_ms == b[lc[x] as int].time_ms);
        assert(a[lc[y] as int].time_ms == b[lc[y] as int].time_ms);
    }
    assert forall|j: usize| #[trigger] crate::lifecycle::occurrences(lc, j) == if j < b.len() {
        crate::lifecycle::rel_count(b[j as int].relationships@, id)
    } else {
        0
    } by {
        if j < b.len() {
            assert(a[j as int].relationships@ == b[j as int].relationships@);
        }
    }
}

/// The same log keeps its lifecycles.
pub proof fn lemma_lifecycles_same_log(a: CompactOcelLog, b: CompactOcelLog)
    requires
        same_log(a, b),
        lifecycles_ok(b),
    ensures
        lifecycles_ok(a),
{
    assert forall|k: int| 0 <= k < a.objects@.len() implies is_lifecycle(a.events@, (#[trigger] a.objects@[k]).id, a.objects@[k].lifecycle@) by {
        assert(object_copy(a.objects@[k], b.objects@[k]));
        assert(is_lifecycle(b.events@, b.objects@[k].id, b.objects@[k].lifecycle@));
        assert forall|i: int| 0 <= i < b.events@.len() implies (#[trigger] b.events@[i]).time_ms == a.events@[i].time_ms
            && b.events@[i].relationships@ == a.events@[i].relationships@ by {
            assert(event_copy(a.events@[i], b.events@[i]));
        }
        lemma_lifecycle_same_events(b.events@, a.events@, a.objects@[k].id, a.objects@[k].lifecycle@);
    }
}

/// Filtering keeps lifecycles right.
pub proof fn lemma_lifecycles_filter(log: CompactOcelLog, f: OcelFilterRequest, res: CompactOcelLog)
    requires
        lifecycles_ok(log),
        filter_result(log, f, res),
    ensures
        lifecycles_ok(res),
{
    if unchanged(log, f) {
        lemma_lifecycles_same_log(res, log);
    } else {
        let op = kept_object_positions(log, f);
        assert forall|k: int| 0 <= k < res.objects@.len() implies is_lifecycle(res.events@, (#[trigger] res.objects@[k]).id, res.objects@[k].lifecycle@) by {
            assert(0 <= k < op.len());
        }
    }
}

/// `res` is what filtering `log` by `f` gives: with every type selected and
/// no predicate, the same log; otherwise the kept events with their kept
/// relationships, the objects they point at with the relationships among
/// those objects and rebuilt lifecycles, and the types in use.
pub open spec fn filter_result(log: CompactOcelLog, f: OcelFilterRequest, res: CompactOcelLog) -> bool {
    if unchanged(log, f) {
        same_log(res, log)
    } else {
        let kp = kept_positions(log, f);
        let op = kept_object_positions(log, f);
        let etp = positions(log.event_types@.len() as int, |i: int| event_type_used(log, f, log.event_types@[i].name));
        let otp = positions(log.object_types@.len() as int, |i: int| object_type_used(log, f, log.object_types@[i].name));
        &&& res.format == log.format
        &&& res.pool@ == log.pool@
        &&& res.state_leading_object_type == log.state_leading_object_type
        &&& res.events@.len() == kp.len()
        &&& forall|i: int| 0 <= i < kp.len() ==> {
            let e = #[trigger] res.events@[i];
            let s = log.events@[kp[i]];
            &&& e.id == s.id
            &&& e.type_symbol == s.type_symbol
            &&& e.time_ms == s.time_ms
            &&& e.attributes@ == s.attributes@
            &&& e.relationships@ == kept_rels(log, f, s)
        }
        &&& res.objects@.len() == op.len()
        &&& forall|i: int| 0 <= i < op.len() ==> {
            let o = #[trigger] res.objects@[i];
            let s = log.objects@[op[i]];
            &&& o.id == s.id
            &&& o.type_symbol == s.type_symbol
            &&& o.attributes@ == s.attributes@
            &&& o.relationships@ == s.relationships@.filter(|r: Relationship| id_retained(log, f, r.object_id))
            &&& is_lifecycle(res.events@, o.id, o.lifecycle@)
        }
        &&& res.event_types@.len() == etp.len()
        &&& forall|i: int| 0 <= i < etp.len() ==> type_copy(#[trigger] res.event_types@[i], log.event_types@[etp[i]])
        &&& res.object_types@.len() == otp.len()
        &&& forall|i: int| 0 <= i < otp.len() ==> type_copy(#[trigger] res.object_types@[i], log.object_types@[otp[i]])
        &&& object_index_ok(res.object_index@, res.objects@)
    }
}

/// A copy of a list of plain values.
pub fn copy_vec<T: Copy>(v: &Vec<T>) -> (r: Vec<T>)
    ensures
        r@ == v@,
{
    let mut out: Vec<T> = Vec::new();
    let mut i: usize = 0;
    while i < v.len()
        invariant
            i <= v@.len(),
            out@ == v@.take(i as int),
        decreases v.len() - i,
    {
        out.push(v[i]);
        assert(out@ =~= v@.take(i + 1));
        i = i + 1;
    }
    assert(v@.take(v@.len() as int) =~= v@);
    out
}

impl CompactOcelLog {
    /// Whether each object is selected, by position.
    fn selected_objects(&self, f: &OcelFilterRequest, names: &Vec<String>) -> (r: Vec<bool>)
        requires
            self.wf(),
            texts(names@) == selection(*self, self.object_types@, f.object_types@),
        ensures
            r@.len() == self.objects@.len(),
            forall|i: int| 0 <= i < r@.len() ==> r@[i] == object_selected(*self, *f, i),
    {
        let mut out: Vec<bool> = Vec::new();
        let mut i: usize = 0;
        while i < self.objects.len()
            invariant
                self.wf(),
                texts(names@) == selection(*self, self.object_types@, f.object_types@),
                i <= self.objects@.len(),
                out@.len() == i,
                forall|k: int| 0 <= k < i ==> out@[k] == object_selected(*self, *f, k),
            decreases self.objects.len() - i,
        {
            proof { assert(object_ok(self.pool@.len(), self.events@.len(), self.objects@[i as int])); }
            let b = contains_text(names, self.pool.resolve(self.objects[i].type_symbol)) && self.object_satisfies_filter(i, f);
            out.push(b);
            i = i + 1;
        }
        out
    }

    /// Whether the object with id `id` is marked in `marks`.
    fn id_marked(&self, marks: &Vec<bool>, id: Symbol) -> (r: bool)
        requires
            self.wf(),
            marks@.len() == self.objects@.len(),
        ensures
            r == exists|oi: int| 0 <= oi < self.objects@.len() && (#[trigger] self.objects@[oi]).id == id && marks@[oi],
    {
        match self.object_position(id) {
            Some(i) => {
                proof {
                    assert forall|oi: int| 0 <= oi < self.objects@.len() && (#[trigger] self.objects@[oi]).id == id implies oi == i as int by {
                        assert(self.object_index@[self.objects@[oi].id.0 as int] == Some(oi as usize));
                        assert(self.object_index@[self.objects@[i as int].id.0 as int] == Some(i));
                        assert(self.objects@.len() == self.objects.len());
                    }
                }
                marks[i]
            },
            None => false,
        }
    }

    /// The relationships of an event to selected objects.
    fn kept_relationships(&self, f: &OcelFilterRequest, sel: &Vec<bool>, e: &Event) -> (r: Vec<Relationship>)
        requires
            self.wf(),
            sel@.len() == self.objects@.len(),
            forall|i: int| 0 <= i < sel@.len() ==> sel@[i] == object_selected(*self, *f, i),
        ensures
            r@ == kept_rels(*self, *f, *e),
    {
        let ghost p = |r: Relationship| id_selected(*self, *f, r.object_id);
        let rels = &e.relationships;
        let mut out: Vec<Relationship> = Vec::new();
        let mut j: usize = 0;
        proof { reveal(Seq::filter); }
        assert(rels@.take(0).filter(p) =~= Seq::<Relationship>::empty());
        while j < rels.len()
            invariant
                self.wf(),
                sel@.len() == self.objects@.len(),
                forall|i: int| 0 <= i < sel@.len() ==> sel@[i] == object_selected(*self, *f, i),
                p == |r: Relationship| id_selected(*self, *f, r.object_id),
                j <= rels@.len(),
                out@ == rels@.take(j as int).filter(p),
            decreases rels.len() - j,
        {
            let r = rels[j];
            let keep = self.id_marked(sel, r.object_id);
            proof {
                reveal(Seq::filter);
                assert(rels@.take(j + 1).drop_last() =~= rels@.take(j as int));
                assert(rels@.take(j + 1).last() == r);
                assert(keep == p(r));
            }
            if keep {
                out.push(r);
            }
            j = j + 1;
        }
        assert(rels@.take(rels@.len() as int) =~= rels@);
        out
    }
}

/// Some object has the id.
pub open spec fn has_object(log: CompactOcelLog, id: Symbol) -> bool {
    exists|oi: int| 0 <= oi < log.objects@.len() && (#[trigger] log.objects@[oi]).id == id
}

/// A kept relationship of one of the first `k` events points at the object.
pub open spec fn retained_upto(log: CompactOcelLog, f: OcelFilterRequest, k: int, id: Symbol) -> bool {
    exists|p: int| 0 <= p < k && event_kept(log, f, #[trigger] log.events@[p]) && mentions(kept_rels(log, f, log.events@[p]), id)
}

/// The kept event `e` copies `s` with the relationships `rels`.
pub open spec fn kept_copy(e: Event, s: Event, rels: Seq<Relationship>) -> bool {
    &&& e.id == s.id
    &&& e.type_symbol == s.type_symbol
    &&& e.time_ms == s.time_ms
    &&& e.attributes@ == s.attributes@
    &&& e.relationships@ == rels
}

proof fn lemma_mark_step(
    log: CompactOcelLog,
    rels: Seq<Relationship>,
    x: int,
    i: int,
    before: Seq<bool>,
    after: Seq<bool>,
    init: Seq<bool>,
    j: int,
)
    requires
        log.wf(),
        0 <= x < rels.len(),
        0 <= i < log.objects@.len(),
        log.objects@[i].id == rels[x].object_id,
        before.len() == log.objects@.len(),
        init.len() == log.objects@.len(),
        after == before.update(i, true),
        0 <= j < log.objects@.len(),
        forall|k: int| #![trigger before[k]] 0 <= k < log.objects@.len() ==> before[k] == (init[k] || mentions(rels.take(x), log.objects@[k].id)),
    ensures
        after[j] == (init[j] || mentions(rels.take(x + 1), log.objects@[j].id)),
{
    let oj = log.objects@[j].id;
    assert(before[j] == (init[j] || mentions(rels.take(x), log.objects@[j].id)));
    if mentions(rels.take(x + 1), oj) {
        let y = choose|y: int| 0 <= y < rels.take(x + 1).len() && (#[trigger] rels.take(x + 1)[y]).object_id == oj;
        if y < x {
            assert(rels.take(x)[y] == rels.take(x + 1)[y]);
        }
    }
    if mentions(rels.take(x), oj) {
        let y = choose|y: int| 0 <= y < rels.take(x).len() && (#[trigger] rels.take(x)[y]).object_id == oj;
        assert(rels.take(x + 1)[y] == rels.take(x)[y]);
    }
    if j == i {
        assert(rels.take(x + 1)[x].object_id == oj);
    } else if oj == rels[x].object_id {
        assert(log.object_index@[log.objects@[j].id.0 as int] == Some(j as usize));
        assert(log.object_index@[log.objects@[i].id.0 as int] == Some(i as usize));
        assert(log.objects@.len() == log.objects.len());
    }
}

impl CompactOcelLog {
    /// Marks the objects that the relationships point at.
    fn mark_targets(&self, init: Vec<bool>, rels: &Vec<Relationship>) -> (marks: Vec<bool>)
        requires
            self.wf(),
            init@.len() == self.objects@.len(),
            forall|x: int| 0 <= x < rels@.len() ==> has_object(*self, (#[trigger] rels@[x]).object_id),
        ensures
            marks@.len() == self.objects@.len(),
            forall|j: int| 0 <= j < self.objects@.len() ==> marks@[j] == (init@[j] || mentions(rels@, #[trigger] self.objects@[j].id)),
    {
        let mut marks = init;
        let mut x: usize = 0;
        assert(rels@.take(0) =~= Seq::<Relationship>::empty());
        while x < rels.len()
            invariant
                self.wf(),
                marks@.len() == self.objects@.len(),
                init@.len() == self.objects@.len(),
                x <= rels@.len(),
                forall|y: int| 0 <= y < rels@.len() ==> has_object(*self, (#[trigger] rels@[y]).object_id),
                forall|j: int| #![trigger marks@[j]] 0 <= j < self.objects@.len() ==> marks@[j] == (init@[j] || mentions(rels@.take(x as int), self.objects@[j].id)),
            decreases rels.len() - x,
        {
            let id = rels[x].object_id;
            let pos = self.object_position(id);
            proof {
                assert(has_object(*self, rels@[x as int].object_id));
                let oi = choose|oi: int| 0 <= oi < self.objects@.len() && (#[trigger] self.objects@[oi]).id == id;
                assert(self.objects@[oi].id == id);
            }
            let i = pos.unwrap();
            let ghost before = marks@;
            marks.set(i, true);
            proof {
                assert forall|j: int| #![trigger marks@[j]] 0 <= j < self.objects@.len() implies marks@[j] == (init@[j] || mentions(rels@.take(x + 1), self.objects@[j].id)) by {
                    lemma_mark_step(*self, rels@, x as int, i as int, before, marks@, init@, j);
                }
            }
            x = x + 1;
        }
        assert(rels@.take(rels@.len() as int) =~= rels@);
        marks
    }

    /// The kept events, and which objects their kept relationships point at.
    fn filter_events(
        &self,
        f: &OcelFilterRequest,
        ev_names: &Vec<String>,
        sel: &Vec<bool>,
        require: bool,
    ) -> (r: (Vec<Event>, Vec<bool>))
        requires
            self.wf(),
            texts(ev_names@) == selection(*self, self.event_types@, f.event_types@),
            sel@.len() == self.objects@.len(),
            forall|i: int| 0 <= i < sel@.len() ==> sel@[i] == object_selected(*self, *f, i),
            require == require_match(*self, *f),
        ensures
            r.0@.len() == kept_positions(*self, *f).len(),
            forall|i: int| 0 <= i < r.0@.len() ==> kept_copy(#[trigger] r.0@[i], self.events@[kept_positions(*self, *f)[i]],
                kept_rels(*self, *f, self.events@[kept_positions(*self, *f)[i]])),
            r.1@.len() == self.objects@.len(),
            forall|j: int| 0 <= j < self.objects@.len() ==> r.1@[j] == id_retained(*self, *f, #[trigger] self.objects@[j].id),
    {
        let ghost pred = |i: int| event_kept(*self, *f, self.events@[i]);
        let mut out: Vec<Event> = Vec::new();
        let mut ret: Vec<bool> = Vec::new();
        let mut j: usize = 0;
        while j < self.objects.len()
            invariant
                j <= self.objects@.len(),
                ret@.len() == j,
                forall|x: int| 0 <= x < j ==> !ret@[x],
            decreases self.objects.len() - j,
        {
            ret.push(false);
            j = j + 1;
        }
        let mut k: usize = 0;
        while k < self.events.len()
            invariant
                self.wf(),
                texts(ev_names@) == selection(*self, self.event_types@, f.event_types@),
                sel@.len() == self.objects@.len(),
                forall|i: int| 0 <= i < sel@.len() ==> sel@[i] == object_selected(*self, *f, i),
                require == require_match(*self, *f),
                pred == |i: int| event_kept(*self, *f, self.events@[i]),
                k <= self.events@.len(),
                out@.len() == positions(k as int, pred).len(),
                forall|i: int| 0 <= i < out@.len() ==> kept_copy(#[trigger] out@[i], self.events@[positions(k as int, pred)[i]],
                    kept_rels(*self, *f, self.events@[positions(k as int, pred)[i]])),
                ret@.len() == self.objects@.len(),
                forall|x: int| 0 <= x < self.objects@.len() ==> ret@[x] == retained_upto(*self, *f, k as int, #[trigger] self.objects@[x].id),
            decreases self.events.len() - k,
        {
            let e = &self.events[k];
            proof { assert(event_ok(self.pool@.len(), *e)); }
            let type_ok = contains_text(ev_names, self.pool.resolve(e.type_symbol));
            let time_ok = f.accepts_time(e.time_ms);
            let kr = self.kept_relationships(f, sel, e);
            let keep = type_ok && time_ok && (!require || kr.len() > 0);
            assert(keep == pred(k as int));
            let ghost before_out = out@;
            let ghost before_ret = ret@;
            if keep {
                proof {
                    reveal(Seq::filter);
                    assert forall|x: int| 0 <= x < kr@.len() implies has_object(*self, (#[trigger] kr@[x]).object_id) by {
                        let pr = |r: Relationship| id_selected(*self, *f, r.object_id);
                        e.relationships@.lemma_filter_pred(pr, x);
                    }
                }
                ret = self.mark_targets(ret, &kr);
                out.push(Event {
                    id: e.id,
                    type_symbol: e.type_symbol,
                    time_ms: e.time_ms,
                    attributes: copy_vec(&e.attributes),
                    relationships: kr,
                });
            }
            proof {
                assert(positions(k + 1, pred) == if pred(k as int) { positions(k as int, pred).push(k as int) } else { positions(k as int, pred) });
                assert forall|i: int| 0 <= i < out@.len() implies kept_copy(#[trigger] out@[i], self.events@[positions(k + 1, pred)[i]],
                    kept_rels(*self, *f, self.events@[positions(k + 1, pred)[i]])) by {
                    if i < before_out.len() {
                        assert(out@[i] == before_out[i]);
                    }
                }
                assert forall|x: int| 0 <= x < self.objects@.len() implies ret@[x] == retained_upto(*self, *f, k + 1, #[trigger] self.objects@[x].id) by {
                    let id = self.objects@[x].id;
                    if retained_upto(*self, *f, k + 1, id) && !retained_upto(*self, *f, k as int, id) {
                        let p = choose|p: int| 0 <= p < k + 1 && event_kept(*self, *f, #[trigger] self.events@[p]) && mentions(kept_rels(*self, *f, self.events@[p]), id);
                        assert(p == k as int);
                    }
                    if keep && mentions(kr@, id) {
                        assert(event_kept(*self, *f, self.events@[k as int]));
                    }
                    if retained_upto(*self, *f, k as int, id) {
                        let p = choose|p: int| 0 <= p < k && event_kept(*self, *f, #[trigger] self.events@[p]) && mentions(kept_rels(*self, *f, self.events@[p]), id);
                        assert(0 <= p < k + 1);
                    }
                }
            }
            k = k + 1;
        }
        (out, ret)
    }
}

/// A retained id belongs to some object.
proof fn lemma_retained_has_object(log: CompactOcelLog, f: OcelFilterRequest, id: Symbol)
    requires
        id_retained(log, f, id),
    ensures
        has_object(log, id),
{
    let p = choose|p: int|
        0 <= p < log.events@.len() && event_kept(log, f, #[trigger] log.events@[p]) && mentions(kept_rels(log, f, log.events@[p]), id);
    let rs = kept_rels(log, f, log.events@[p]);
    let q = choose|q: int| 0 <= q < rs.len() && (#[trigger] rs[q]).object_id == id;
    let pr = |r: Relationship| id_selected(log, f, r.object_id);
    log.events@[p].relationships@.lemma_filter_pred(pr, q);
}

/// A copy of a type declaration.
pub fn copy_type(t: &TypeDef) -> (r: TypeDef)
    ensures
        type_copy(r, *t),
{
    TypeDef { name: t.name, attributes: copy_vec(&t.attributes) }
}

/// Object index over `objects` for a pool of `n` strings.
pub fn index_objects(objects: &Vec<Object>, n: usize) -> (index: Vec<Option<usize>>)
    requires
        forall|x: int, y: int| 0 <= x < y < objects@.len() ==> objects@[x].id != objects@[y].id,
        forall|x: int| 0 <= x < objects@.len() ==> (#[trigger] objects@[x]).id.0 < n,
    ensures
        index@.len() == n,
        object_index_ok(index@, objects@),
{
    let mut index: Vec<Option<usize>> = Vec::new();
    let mut s: usize = 0;
    while s < n
        invariant
            s <= n,
            index@.len() == s,
            forall|x: int| 0 <= x < s ==> index@[x] is None,
        decreases n - s,
    {
        index.push(None);
        s = s + 1;
    }
    let mut k: usize = 0;
    while k < objects.len()
        invariant
            k <= objects@.len(),
            index@.len() == n,
            forall|x: int, y: int| 0 <= x < y < objects@.len() ==> objects@[x].id != objects@[y].id,
            forall|x: int| 0 <= x < objects@.len() ==> (#[trigger] objects@[x]).id.0 < n,
            forall|x: int| 0 <= x < k ==> index@[(#[trigger] objects@[x]).id.0 as int] == Some(x as usize),
            forall|t: int| 0 <= t < n && (#[trigger] index@[t]) is Some ==> index@[t]->0 < k && objects@[index@[t]->0 as int].id.0 == t,
        decreases objects.len() - k,
    {
        let id = objects[k].id;
        proof {
            assert forall|x: int| 0 <= x < k implies objects@[x].id != id by {}
        }
        index.set(id.0, Some(k));
        k = k + 1;
    }
    index
}

impl CompactOcelLog {
    /// A log with the same content.
    pub fn duplicate(&self) -> (r: CompactOcelLog)
        requires
            self.wf(),
        ensures
            r.wf(),
            same_log(r, *self),
    {
        let mut event_types: Vec<TypeDef> = Vec::new();
        let mut k: usize = 0;
        while k < self.event_types.len()
            invariant
                k <= self.event_types@.len(),
                event_types@.len() == k,
                forall|i: int| 0 <= i < k ==> type_copy(#[trigger] event_types@[i], self.event_types@[i]),
            decreases self.event_types.len() - k,
        {
            event_types.push(copy_type(&self.event_types[k]));
            k = k + 1;
        }
        let mut object_types: Vec<TypeDef> = Vec::new();
        let mut k: usize = 0;
        while k < self.object_types.len()
            invariant
                k <= self.object_types@.len(),
                object_types@.len() == k,
                forall|i: int| 0 <= i < k ==> type_copy(#[trigger] object_types@[i], self.object_types@[i]),
            decreases self.object_types.len() - k,
        {
            object_types.push(copy_type(&self.object_types[k]));
            k = k + 1;
        }
        let mut events: Vec<Event> = Vec::new();
        let mut k: usize = 0;
        while k < self.events.len()
            invariant
                k <= self.events@.len(),
                events@.len() == k,
                forall|i: int| 0 <= i < k ==> event_copy(#[trigger] events@[i], self.events@[i]),
            decreases self.events.len() - k,
        {
            let e = &self.events[k];
            events.push(Event {
                id: e.id,
                type_symbol: e.type_symbol,
                time_ms: e.time_ms,
                attributes: copy_vec(&e.attributes),
                relationships: copy_vec(&e.relationships),
            });
            k = k + 1;
        }
        let mut objects: Vec<Object> = Vec::new();
        let mut k: usize = 0;
        while k < self.objects.len()
            invariant
                k <= self.objects@.len(),
                objects@.len() == k,
                forall|i: int| 0 <= i < k ==> object_copy(#[trigger] objects@[i], self.objects@[i]),
            decreases self.objects.len() - k,
        {
            let o = &self.objects[k];
            objects.push(Object {
                id: o.id,
                type_symbol: o.type_symbol,
                attributes: copy_vec(&o.attributes),
                relationships: copy_vec(&o.relationships),
                lifecycle: copy_vec(&o.lifecycle),
            });
            k = k + 1;
        }
        let r = CompactOcelLog {
            format: self.format,
            pool: self.pool.duplicate(),
            event_types,
            object_types,
            events,
            objects,
            object_index: copy_vec(&self.object_index),
            state_leading_object_type: self.state_leading_object_type,
        };
        proof {
            let n = self.pool@.len();
            assert forall|i: int| 0 <= i < r.event_types@.len() implies type_def_ok(n, #[trigger] r.event_types@[i]) by {
                assert(type_def_ok(n, self.event_types@[i]));
            }
            assert forall|i: int| 0 <= i < r.object_types@.len() implies type_def_ok(n, #[trigger] r.object_types@[i]) by {
                assert(type_def_ok(n, self.object_types@[i]));
            }
            assert forall|i: int| 0 <= i < r.events@.len() implies event_ok(n, #[trigger] r.events@[i]) by {
                assert(event_ok(n, self.events@[i]));
            }
            assert forall|i: int| 0 <= i < r.objects@.len() implies object_ok(n, r.events@.len(), #[trigger] r.objects@[i]) by {
                assert(object_ok(n, self.events@.len(), self.objects@[i]));
            }
            assert(object_index_ok(r.object_index@, r.objects@)) by {
                assert forall|i: int| 0 <= i < r.objects@.len() implies (#[trigger] r.objects@[i]).id.0 < r.object_index@.len()
                    && r.object_index@[r.objects@[i].id.0 as int] == Some(i as usize) by {
                    assert(object_copy(r.objects@[i], self.objects@[i]));
                    assert(self.objects@[i].id.0 < self.object_index@.len());
                }
                assert forall|t: int| 0 <= t < r.object_index@.len() && (#[trigger] r.object_index@[t]) is Some implies r.object_index@[t]->0
                    < r.objects@.len() && r.objects@[r.object_index@[t]->0 as int].id.0 == t by {
                    assert(self.object_index@[t] is Some);
                    assert(object_copy(r.objects@[self.object_index@[t]->0 as int], self.objects@[self.object_index@[t]->0 as int]));
                }
            }
        }
        r
    }
}

impl CompactOcelLog {
    /// Relationships of an object to retained objects.
    fn retained_relationships(&self, f: &OcelFilterRequest, ret: &Vec<bool>, rels: &Vec<Relationship>) -> (r: Vec<Relationship>)
        requires
            self.wf(),
            ret@.len() == self.objects@.len(),
            forall|j: int| 0 <= j < self.objects@.len() ==> ret@[j] == id_retained(*self, *f, #[trigger] self.objects@[j].id),
        ensures
            r@ == rels@.filter(|r: Relationship| id_retained(*self, *f, r.object_id)),
    {
        let ghost p = |r: Relationship| id_retained(*self, *f, r.object_id);
        let mut out: Vec<Relationship> = Vec::new();
        let mut j: usize = 0;
        proof { reveal(Seq::filter); }
        assert(rels@.take(0).filter(p) =~= Seq::<Relationship>::empty());
        while j < rels.len()
            invariant
                self.wf(),
                ret@.len() == self.objects@.len(),
                forall|x: int| 0 <= x < self.objects@.len() ==> ret@[x] == id_retained(*self, *f, #[trigger] self.objects@[x].id),
                p == |r: Relationship| id_retained(*self, *f, r.object_id),
                j <= rels@.len(),
                out@ == rels@.take(j as int).filter(p),
            decreases rels.len() - j,
        {
            let r = rels[j];
            let keep = self.id_marked(ret, r.object_id);
            proof {
                reveal(Seq::filter);
                assert(rels@.take(j + 1).drop_last() =~= rels@.take(j as int));
                assert(rels@.take(j + 1).last() == r);
                if p(r) {
                    lemma_retained_has_object(*self, *f, r.object_id);
                    let oi = choose|oi: int| 0 <= oi < self.objects@.len() && (#[trigger] self.objects@[oi]).id == r.object_id;
                    assert(ret@[oi]);
                }
                assert(keep == p(r));
            }
            if keep {
                out.push(r);
            }
            j = j + 1;
        }
        assert(rels@.take(rels@.len() as int) =~= rels@);
        out
    }

    /// The retained objects, with their relationships to retained objects and
    /// empty lifecycles.
    fn filter_objects(&self, f: &OcelFilterRequest, ret: &Vec<bool>) -> (r: Vec<Object>)
        requires
            self.wf(),
            ret@.len() == self.objects@.len(),
            forall|j: int| 0 <= j < self.objects@.len() ==> ret@[j] == id_retained(*self, *f, #[trigger] self.objects@[j].id),
        ensures
            r@.len() == kept_object_positions(*self, *f).len(),
            forall|i: int| 0 <= i < r@.len() ==> {
                let o = #[trigger] r@[i];
                let s = self.objects@[kept_object_positions(*self, *f)[i]];
                &&& o.id == s.id
                &&& o.type_symbol == s.type_symbol
                &&& o.attributes@ == s.attributes@
                &&& o.relationships@ == s.relationships@.filter(|r: Relationship| id_retained(*self, *f, r.object_id))
                &&& o.lifecycle@.len() == 0
            },
    {
        let ghost pred = |j: int| id_retained(*self, *f, self.objects@[j].id);
        let mut out: Vec<Object> = Vec::new();
        let mut k: usize = 0;
        while k < self.objects.len()
            invariant
                self.wf(),
                ret@.len() == self.objects@.len(),
                forall|j: int| 0 <= j < self.objects@.len() ==> ret@[j] == id_retained(*self, *f, #[trigger] self.objects@[j].id),
                pred == |j: int| id_retained(*self, *f, self.objects@[j].id),
                k <= self.objects@.len(),
                out@.len() == positions(k as int, pred).len(),
                forall|i: int| 0 <= i < out@.len() ==> {
                    let o = #[trigger] out@[i];
                    let s = self.objects@[positions(k as int, pred)[i]];
                    &&& o.id == s.id
                    &&& o.type_symbol == s.type_symbol
                    &&& o.attributes@ == s.attributes@
                    &&& o.relationships@ == s.relationships@.filter(|r: Relationship| id_retained(*self, *f, r.object_id))
                    &&& o.lifecycle@.len() == 0
                },
            decreases self.objects.len() - k,
        {
            let ghost before = out@;
            if ret[k] {
                let o = &self.objects[k];
                out.push(Object {
                    id: o.id,
                    type_symbol: o.type_symbol,
                    attributes: copy_vec(&o.attributes),
                    relationships: self.retained_relationships(f, ret, &o.relationships),
                    lifecycle: Vec::new(),
                });
            }
            proof {
                assert(ret@[k as int] == pred(k as int));
                assert forall|i: int| 0 <= i < out@.len() implies {
                    let o = #[trigger] out@[i];
                    let s = self.objects@[positions(k + 1, pred)[i]];
                    &&& o.id == s.id
                    &&& o.type_symbol == s.type_symbol
                    &&& o.attributes@ == s.attributes@
                    &&& o.relationships@ == s.relationships@.filter(|r: Relationship| id_retained(*self, *f, r.object_id))
                    &&& o.lifecycle@.len() == 0
                } by {
                    if i < before.len() {
                        assert(out@[i] == before[i]);
                    }
                }
            }
            k = k + 1;
        }
        out
    }

    /// The types whose names some entry uses.
    fn types_in_use(&self, ts: &Vec<TypeDef>, used: &Vec<Symbol>) -> (r: Vec<TypeDef>)
        ensures
            r@.len() == positions(ts@.len() as int, |i: int| used@.contains(ts@[i].name)).len(),
            forall|i: int| 0 <= i < r@.len() ==> type_copy(#[trigger] r@[i], ts@[positions(ts@.len() as int, |i: int| used@.contains(ts@[i].name))[i]]),
    {
        let ghost pred = |i: int| used@.contains(ts@[i].name);
        let mut out: Vec<TypeDef> = Vec::new();
        let mut k: usize = 0;
        while k < ts.len()
            invariant
                pred == |i: int| used@.contains(ts@[i].name),
                k <= ts@.len(),
                out@.len() == positions(k as int, pred).len(),
                forall|i: int| 0 <= i < out@.len() ==> type_copy(#[trigger] out@[i], ts@[positions(k as int, pred)[i]]),
            decreases ts.len() - k,
        {
            let name = ts[k].name;
            let mut found = false;
            let mut j: usize = 0;
            while j < used.len()
                invariant
                    j <= used@.len(),
                    found == exists|x: int| 0 <= x < j && used@[x] == name,
                decreases used.len() - j,
            {
                if used[j] == name {
                    found = true;
                }
                j = j + 1;
            }
            let ghost before = out@;
            if found {
                out.push(copy_type(&ts[k]));
            }
            proof {
                assert(found == pred(k as int));
                assert forall|i: int| 0 <= i < out@.len() implies type_copy(#[trigger] out@[i], ts@[positions(k + 1, pred)[i]]) by {
                    if i < before.len() {
                        assert(out@[i] == before[i]);
                    }
                }
            }
            k = k + 1;
        }
        out
    }
}

impl CompactOcelLog {
    /// Keeps the part of the log that a request selects: the events of
    /// selected types and times that relate to selected objects, the objects
    /// they relate to, and the types still in use. With every type selected
    /// and no predicate the log is copied unchanged; a name that is no
    /// type of the log selects nothing.
    pub fn filter(&self, f: &OcelFilterRequest) -> (r: CompactOcelLog)
        requires
            self.wf(),
        ensures
            r.wf(),
            filter_result(*self, *f, r),
    {
        let ev_names = self.selection_names(&self.event_types, &f.event_types);
        let ob_names = self.selection_names(&self.object_types, &f.object_types);
        let all_ev = covers_types(self, &self.event_types, &ev_names);
        let all_ob = covers_types(self, &self.object_types, &ob_names);
        if all_ev && all_ob && !f.has_object_predicates() && !f.has_time_predicate() {
            return self.duplicate();
        }
        let sel = self.selected_objects(f, &ob_names);
        let require = !all_ob || f.has_object_predicates();
        let (events, ret) = self.filter_events(f, &ev_names, &sel, require);
        let mut objects = self.filter_objects(f, &ret);
        let ghost kp = kept_positions(*self, *f);
        let ghost op = kept_object_positions(*self, *f);
        proof {
            lemma_positions(self.objects@.len() as int, |j: int| id_retained(*self, *f, self.objects@[j].id));
            lemma_positions(self.events@.len() as int, |i: int| event_kept(*self, *f, self.events@[i]));
            assert forall|x: int, y: int| 0 <= x < y < objects@.len() implies objects@[x].id != objects@[y].id by {
                assert(op[x] < op[y]);
                assert(self.object_index@[self.objects@[op[x]].id.0 as int] == Some(op[x] as usize));
                assert(self.object_index@[self.objects@[op[y]].id.0 as int] == Some(op[y] as usize));
                assert(self.objects@.len() == self.objects.len());
            }
            assert forall|x: int| 0 <= x < objects@.len() implies (#[trigger] objects@[x]).id.0 < self.pool@.len() by {
                assert(object_ok(self.pool@.len(), self.events@.len(), self.objects@[op[x]]));
            }
        }
        let index = index_objects(&objects, self.pool.len());
        let ghost before_lc = objects@;
        build_lifecycles(&events, &mut objects, &index);
        let mut ev_used: Vec<Symbol> = Vec::new();
        let mut k: usize = 0;
        while k < events.len()
            invariant
                k <= events@.len(),
                ev_used@ == events@.take(k as int).map_values(|e: Event| e.type_symbol),
            decreases events.len() - k,
        {
            ev_used.push(events[k].type_symbol);
            assert(events@.take(k + 1) =~= events@.take(k as int).push(events@[k as int]));
            assert(ev_used@ =~= events@.take(k + 1).map_values(|e: Event| e.type_symbol));
            k = k + 1;
        }
        assert(events@.take(events@.len() as int) =~= events@);
        let mut ob_used: Vec<Symbol> = Vec::new();
        let mut k: usize = 0;
        while k < objects.len()
            invariant
                k <= objects@.len(),
                ob_used@ == objects@.take(k as int).map_values(|o: Object| o.type_symbol),
            decreases objects.len() - k,
        {
            ob_used.push(objects[k].type_symbol);
            assert(objects@.take(k + 1) =~= objects@.take(k as int).push(objects@[k as int]));
            assert(ob_used@ =~= objects@.take(k + 1).map_values(|o: Object| o.type_symbol));
            k = k + 1;
        }
        assert(objects@.take(objects@.len() as int) =~= objects@);
        let event_types = self.types_in_use(&self.event_types, &ev_used);
        let object_types = self.types_in_use(&self.object_types, &ob_used);
        let r = CompactOcelLog {
            format: self.format,
            pool: self.pool.duplicate(),
            event_types,
            object_types,
            events,
            objects,
            object_index: index,
            state_leading_object_type: self.state_leading_object_type,
        };
        proof {
            let n = self.pool@.len();
            let ets = self.event_types@;
            let ots = self.object_types@;
            let pe = |i: int| ev_used@.contains(ets[i].name);
            let pe2 = |i: int| event_type_used(*self, *f, ets[i].name);
            assert forall|i: int| 0 <= i < ets.len() implies #[trigger] pe(i) == pe2(i) by {
                let sym = ets[i].name;
                if pe(i) {
                    let x = choose|x: int| 0 <= x < ev_used@.len() && ev_used@[x] == sym;
                    assert(r.events@[x].type_symbol == sym);
                    assert(event_kept(*self, *f, self.events@[kp[x]]));
                }
                if pe2(i) {
                    let p = choose|p: int| 0 <= p < self.events@.len() && event_kept(*self, *f, #[trigger] self.events@[p]) && self.events@[p].type_symbol == sym;
                    assert(kp.contains(p));
                    let x = choose|x: int| 0 <= x < kp.len() && kp[x] == p;
                    assert(ev_used@[x] == sym);
                }
            }
            lemma_positions_ext(ets.len() as int, pe, pe2);
            let po = |i: int| ob_used@.contains(ots[i].name);
            let po2 = |i: int| object_type_used(*self, *f, ots[i].name);
            assert forall|i: int| 0 <= i < ots.len() implies #[trigger] po(i) == po2(i) by {
                let sym = ots[i].name;
                if po(i) {
                    let x = choose|x: int| 0 <= x < ob_used@.len() && ob_used@[x] == sym;
                    assert(same_but_lifecycle(r.objects@[x], before_lc[x]));
                    assert(id_retained(*self, *f, self.objects@[op[x]].id));
                }
                if po2(i) {
                    let j = choose|j: int| 0 <= j < self.objects@.len() && id_retained(*self, *f, (#[trigger] self.objects@[j]).id) && self.objects@[j].type_symbol == sym;
                    assert(op.contains(j));
                    let x = choose|x: int| 0 <= x < op.len() && op[x] == j;
                    assert(same_but_lifecycle(r.objects@[x], before_lc[x]));
                    assert(ob_used@[x] == sym);
                }
            }
            lemma_positions_ext(ots.len() as int, po, po2);
            assert forall|i: int| 0 <= i < r.event_types@.len() implies type_def_ok(n, #[trigger] r.event_types@[i]) by {
                lemma_positions(ets.len() as int, pe);
                assert(type_def_ok(n, ets[positions(ets.len() as int, pe)[i]]));
            }
            assert forall|i: int| 0 <= i < r.object_types@.len() implies type_def_ok(n, #[trigger] r.object_types@[i]) by {
                lemma_positions(ots.len() as int, po);
                assert(type_def_ok(n, ots[positions(ots.len() as int, po)[i]]));
            }
            assert forall|i: int| 0 <= i < r.events@.len() implies event_ok(n, #[trigger] r.events@[i]) by {
                let s0 = self.events@[kp[i]];
                assert(event_ok(n, s0));
                let e = r.events@[i];
                assert forall|q: int| 0 <= q < e.relationships@.len() implies sym_ok(n, #[trigger] e.relationships@[q].object_id)
                    && sym_ok(n, e.relationships@[q].qualifier) by {
                    let pr = |r: Relationship| id_selected(*self, *f, r.object_id);
                    lemma_filter_subset(s0.relationships@, pr, q);
                    let z = choose|z: int| 0 <= z < s0.relationships@.len() && s0.relationships@[z] == e.relationships@[q];
                }
            }
            assert forall|i: int| 0 <= i < r.objects@.len() implies object_ok(n, r.events@.len(), #[trigger] r.objects@[i]) by {
                let s0 = self.objects@[op[i]];
                assert(object_ok(n, self.events@.len(), s0));
                let o = r.objects@[i];
                assert(same_but_lifecycle(o, before_lc[i]));
                assert(is_lifecycle(r.events@, o.id, o.lifecycle@));
                assert forall|q: int| 0 <= q < o.relationships@.len() implies sym_ok(n, #[trigger] o.relationships@[q].object_id)
                    && sym_ok(n, o.relationships@[q].qualifier) by {
                    let pr = |r: Relationship| id_retained(*self, *f, r.object_id);
                    lemma_filter_subset(s0.relationships@, pr, q);
                    let z = choose|z: int| 0 <= z < s0.relationships@.len() && s0.relationships@[z] == o.relationships@[q];
                }
            }
            assert(object_index_ok(r.object_index@, r.objects@)) by {
                assert forall|i: int| 0 <= i < r.objects@.len() implies (#[trigger] r.objects@[i]).id.0 < r.object_index@.len()
                    && r.object_index@[r.objects@[i].id.0 as int] == Some(i as usize) by {
                    assert(same_but_lifecycle(r.objects@[i], before_lc[i]));
                }
                assert forall|t: int| 0 <= t < r.object_index@.len() && (#[trigger] r.object_index@[t]) is Some implies r.object_index@[t]->0
                    < r.objects@.len() && r.objects@[r.object_index@[t]->0 as int].id.0 == t by {
                    let x = r.object_index@[t]->0 as int;
                    assert(same_but_lifecycle(r.objects@[x], before_lc[x]));
                }
            }
            assert forall|i: int| 0 <= i < op.len() implies {
                let o = #[trigger] r.objects@[i];
                let s0 = self.objects@[op[i]];
                &&& o.id == s0.id
                &&& o.type_symbol == s0.type_symbol
                &&& o.attributes@ == s0.attributes@
                &&& o.relationships@ == s0.relationships@.filter(|r: Relationship| id_retained(*self, *f, r.object_id))
                &&& is_lifecycle(r.events@, o.id, o.lifecycle@)
            } by {
                assert(same_but_lifecycle(r.objects@[i], before_lc[i]));
            }
            assert forall|i: int| 0 <= i < kp.len() implies {
                let e = #[trigger] r.events@[i];
                let s0 = self.events@[kp[i]];
                &&& e.id == s0.id
                &&& e.type_symbol == s0.type_symbol
                &&& e.time_ms == s0.time_ms
                &&& e.attributes@ == s0.attributes@
                &&& e.relationships@ == kept_rels(*self, *f, s0)
            } by {
                assert(kept_copy(r.events@[i], self.events@[kp[i]], kept_rels(*self, *f, self.events@[kp[i]])));
            }
        }
        r
    }
}

} // verus!
