use vstd::prelude::*;
use crate::pool::Symbol;
use crate::model::{CompactOcelLog, Event, Attribute, AttrValue};
use crate::episodes::{runs, maximal_runs, lemma_runs_maximal};
use crate::state_labels::{StateAssignment, labels_applied, labelled, without_name, states_for, event_at};
use crate::causal::{
    CausalModelNodeRequest, CausalModelEdgeRequest, has_cycle, topological, cyclic_set, linked, edge_ends,
};
use crate::sorting::is_perm;
use crate::causal::operation_name;
use crate::text::{
    trim_seq, trim_start_seq, ascii_lower, lower_char, is_white, lead_white, trail_white, lemma_lead_white_bound,
    lemma_trail_white_bound,
};
use crate::counting::{count_where, sum_of};
use crate::log_ops::{summary_model, event_has_attr};
use crate::filter::OcelFilterRequest;
use crate::filtering::{
    same_log, filter_result, event_copy, object_copy, unchanged, kept_positions, kept_object_positions, event_kept, id_retained,
    event_type_used, object_type_used, type_copy, kept_rels, mentions, id_selected, object_selected,
};
use crate::filter::{all_selected, selection, has_object_predicates, has_time_predicate, type_names};
use crate::counting::lemma_positions;
use crate::lifecycle::{is_lifecycle, occurrences, rel_count};

verus! {

/// The episodes of a stateful lifecycle are exactly its maximal runs of
/// equal states: they follow one another without gap or overlap, cover
/// every position, hold one state each, and neighbouring episodes differ in
/// state.
pub proof fn law_episodes_are_maximal_runs(s: Seq<Seq<char>>)
    ensures
        maximal_runs(s, runs(s)),
{
    lemma_runs_maximal(s);
}

proof fn lemma_without_name_concat(x: Seq<Attribute>, y: Seq<Attribute>, name: Symbol)
    ensures
        without_name(x + y, name) == without_name(x, name) + without_name(y, name),
    decreases y.len(),
{
    if y.len() == 0 {
        assert(x + y =~= x);
        assert(without_name(y, name) =~= Seq::<Attribute>::empty());
        assert(without_name(x, name) + without_name(y, name) =~= without_name(x, name));
    } else {
        lemma_without_name_concat(x, y.drop_last(), name);
        assert((x + y).drop_last() =~= x + y.drop_last());
        assert((x + y).last() == y.last());
        if y.last().name != name {
            assert(without_name(x, name) + without_name(y, name)
                =~= (without_name(x, name) + without_name(y.drop_last(), name)).push(y.last()));
        }
    }
}

proof fn lemma_without_name_twice(x: Seq<Attribute>, name: Symbol)
    ensures
        without_name(without_name(x, name), name) == without_name(x, name),
    decreases x.len(),
{
    if x.len() > 0 {
        lemma_without_name_twice(x.drop_last(), name);
        if x.last().name != name {
            let w = without_name(x.drop_last(), name);
            assert(w.push(x.last()).drop_last() =~= w);
        }
    }
}

proof fn lemma_without_name_all(x: Seq<Attribute>, name: Symbol)
    requires
        forall|i: int| 0 <= i < x.len() ==> (#[trigger] x[i]).name == name,
    ensures
        without_name(x, name) == Seq::<Attribute>::empty(),
    decreases x.len(),
{
    if x.len() > 0 {
        lemma_without_name_all(x.drop_last(), name);
    }
}

proof fn lemma_same_ids_states(a: Seq<Event>, b: Seq<Event>, states: Seq<StateAssignment>, k: int)
    requires
        a.len() == b.len(),
        forall|i: int| 0 <= i < a.len() ==> (#[trigger] a[i]).id == b[i].id,
    ensures
        states_for(a, states, k) == states_for(b, states, k),
    decreases states.len(),
{
    if states.len() > 0 {
        lemma_same_ids_states(a, b, states.drop_last(), k);
        lemma_event_at_same(a, b, states.last().event_id);
    }
}

proof fn lemma_event_at_same(a: Seq<Event>, b: Seq<Event>, id: Symbol)
    requires
        a.len() == b.len(),
        forall|i: int| 0 <= i < a.len() ==> (#[trigger] a[i]).id == b[i].id,
    ensures
        event_at(a, id) == event_at(b, id),
{
    if exists|i: int| 0 <= i < a.len() && a[i].id == id {
        let i = choose|i: int| 0 <= i < a.len() && a[i].id == id;
        assert(b[i].id == id);
        lemma_last_with_id(a, id);
        lemma_last_with_id(b, id);
        let ia = choose|i: int| 0 <= i < a.len() && a[i].id == id && forall|j: int| i < j < a.len() ==> a[j].id != id;
        let ib = choose|i: int| 0 <= i < b.len() && b[i].id == id && forall|j: int| i < j < b.len() ==> b[j].id != id;
        if ia < ib {
            assert(a[ib].id == b[ib].id);
        } else if ib < ia {
            assert(b[ia].id == a[ia].id);
        }
    } else {
        if exists|i: int| 0 <= i < b.len() && b[i].id == id {
            let i = choose|i: int| 0 <= i < b.len() && b[i].id == id;
            assert(a[i].id == id);
        }
    }
}

proof fn lemma_last_with_id(a: Seq<Event>, id: Symbol)
    requires
        exists|i: int| 0 <= i < a.len() && a[i].id == id,
    ensures
        exists|i: int| 0 <= i < a.len() && a[i].id == id && forall|j: int| i < j < a.len() ==> a[j].id != id,
    decreases a.len(),
{
    if a.last().id == id {
        assert(a[a.len() - 1].id == id);
    } else {
        let i = choose|i: int| 0 <= i < a.len() && a[i].id == id;
        assert(a.drop_last()[i].id == id);
        lemma_last_with_id(a.drop_last(), id);
        let k = choose|k: int| 0 <= k < a.drop_last().len() && a.drop_last()[k].id == id
            && forall|j: int| k < j < a.drop_last().len() ==> a.drop_last()[j].id != id;
        assert(a[k].id == id);
        assert forall|j: int| k < j < a.len() implies a[j].id != id by {
            if j < a.len() - 1 {
                assert(a.drop_last()[j].id != id);
            }
        }
    }
}

/// Applying the same state labels a second time changes no event: every
/// earlier `state` attribute is replaced, so the events carry the same
/// attributes as after the first time, under the same `state` symbol.
pub proof fn law_state_labels_idempotent(
    a: CompactOcelLog,
    b: CompactOcelLog,
    c: CompactOcelLog,
    leading: Seq<char>,
    attribute: Seq<char>,
    states: Seq<StateAssignment>,
    st1: Symbol,
    st2: Symbol,
)
    requires
        labels_applied(a, b, leading, attribute, states, st1),
        labels_applied(b, c, leading, attribute, states, st2),
    ensures
        st1 == st2,
        c.events@.len() == b.events@.len(),
        forall|k: int| 0 <= k < c.events@.len() ==> (#[trigger] c.events@[k]).attributes@ == b.events@[k].attributes@
            && c.events@[k].id == b.events@[k].id
            && c.events@[k].type_symbol == b.events@[k].type_symbol
            && c.events@[k].time_ms == b.events@[k].time_ms
            && c.events@[k].relationships@ == b.events@[k].relationships@,
{
    c.pool.lemma_wf_distinct();
    assert(c.pool@[st1.0 as int] == b.pool@[st1.0 as int]);
    assert(st1 == st2) by {
        if st1 != st2 {
            if st1.0 < st2.0 {
                assert(c.pool@[st1.0 as int] != c.pool@[st2.0 as int]);
            } else {
                assert(c.pool@[st2.0 as int] != c.pool@[st1.0 as int]);
            }
        }
    }
    let st = st1;
    assert forall|k: int| 0 <= k < c.events@.len() implies (#[trigger] c.events@[k]).attributes@ == b.events@[k].attributes@
        && c.events@[k].id == b.events@[k].id
        && c.events@[k].type_symbol == b.events@[k].type_symbol
        && c.events@[k].time_ms == b.events@[k].time_ms
        && c.events@[k].relationships@ == b.events@[k].relationships@ by {
        let ea = a.events@[k];
        let eb = b.events@[k];
        let ec = c.events@[k];
        assert(labelled(ea, eb, states_for(a.events@, states, k), st, b.pool@));
        assert(labelled(eb, ec, states_for(b.events@, states, k), st, c.pool@));
        assert forall|i: int| 0 <= i < a.events@.len() implies (#[trigger] a.events@[i]).id == b.events@[i].id by {
            assert(labelled(a.events@[i], b.events@[i], states_for(a.events@, states, i), st, b.pool@));
        }
        lemma_same_ids_states(a.events@, b.events@, states, k);
        let texts = states_for(a.events@, states, k);
        let base = without_name(ea.attributes@, st);
        let xb = eb.attributes@.subrange(base.len() as int, eb.attributes@.len() as int);
        assert(eb.attributes@ =~= base + xb);
        assert forall|i: int| 0 <= i < xb.len() implies (#[trigger] xb[i]).name == st by {
            assert(xb[i] == eb.attributes@[base.len() + i]);
        }
        lemma_without_name_concat(base, xb, st);
        lemma_without_name_twice(ea.attributes@, st);
        lemma_without_name_all(xb, st);
        assert(without_name(eb.attributes@, st) =~= base);
        assert(ec.attributes@.len() == eb.attributes@.len());
        assert forall|i: int| 0 <= i < ec.attributes@.len() implies ec.attributes@[i] == eb.attributes@[i] by {
            if i >= base.len() {
                let x = i - base.len();
                let va = eb.attributes@[base.len() + x];
                let vc = ec.attributes@[base.len() + x];
                assert(va.name == st && vc.name == st);
                if let AttrValue::String(v1) = va.value {
                    if let AttrValue::String(v2) = vc.value {
                        assert(c.pool@[v1.0 as int] == b.pool@[v1.0 as int]);
                        assert(c.pool@[v1.0 as int] == texts[x]);
                        assert(c.pool@[v2.0 as int] == texts[x]);
                        if v1.0 < v2.0 {
                            assert(c.pool@[v1.0 as int] != c.pool@[v2.0 as int]);
                        } else if v2.0 < v1.0 {
                            assert(c.pool@[v2.0 as int] != c.pool@[v1.0 as int]);
                        }
                    }
                }
            } else {
                assert(ec.attributes@.subrange(0, base.len() as int)[i] == base[i]);
                assert(eb.attributes@.subrange(0, base.len() as int)[i] == base[i]);
            }
        }
        assert(ec.attributes@ =~= eb.attributes@);
    }
}

/// A cyclic set of nodes rules out every order that puts each edge's
/// source before its target: the causal model is refused exactly when no
/// such order exists.
pub proof fn law_cycle_excludes_order(
    nodes: Seq<CausalModelNodeRequest>,
    edges: Seq<CausalModelEdgeRequest>,
    order: Seq<String>,
)
    requires
        has_cycle(nodes, edges),
    ensures
        !topological(nodes, edges, order),
{
    let s = choose|s: Set<int>| #[trigger] cyclic_set(nodes, edges, s);
    if topological(nodes, edges, order) {
        let p = choose|p: Seq<int>| #[trigger] is_perm(p, nodes.len()) && order.len() == nodes.len()
            && (forall|i: int| 0 <= i < order.len() ==> (#[trigger] order[i])@ == nodes[p[i]].id@)
            && (forall|i: int, j: int| 0 <= i < p.len() && 0 <= j < p.len() && #[trigger] linked(nodes, edges, p[i], p[j]) ==> i < j);
        let v0 = choose|v: int| s.contains(v);
        let first = least_position(p, s, nodes.len() as int, v0);
        let v = p[first];
        assert(s.contains(v));
        let k = choose|k: int| 0 <= k < edges.len() && edge_ends(nodes, edges, k).1 == v && #[trigger] s.contains(edge_ends(nodes, edges, k).0);
        let u = edge_ends(nodes, edges, k).0;
        assert(0 <= u < nodes.len());
        crate::sorting::lemma_perm_onto(p, nodes.len(), u);
        let iu = choose|i: int| 0 <= i < p.len() && p[i] == u;
        assert(linked(nodes, edges, p[iu], p[first]));
        assert(iu < first);
    }
}

/// The first position of a permutation whose value lies in `s`.
proof fn least_position(p: Seq<int>, s: Set<int>, n: int, v0: int) -> (i: int)
    requires
        is_perm(p, n as nat),
        s.contains(v0),
        0 <= v0 < n,
    ensures
        0 <= i < p.len(),
        s.contains(p[i]),
        forall|j: int| 0 <= j < i ==> !s.contains(#[trigger] p[j]),
{
    crate::sorting::lemma_perm_onto(p, n as nat, v0);
    let i0 = choose|i: int| 0 <= i < p.len() && p[i] == v0;
    least_from(p, s, i0)
}

proof fn least_from(p: Seq<int>, s: Set<int>, i0: int) -> (i: int)
    requires
        0 <= i0 < p.len(),
        s.contains(p[i0]),
    ensures
        0 <= i <= i0,
        s.contains(p[i]),
        forall|j: int| 0 <= j < i ==> !s.contains(#[trigger] p[j]),
    decreases i0,
{
    if exists|j: int| 0 <= j < i0 && s.contains(p[j]) {
        let j = choose|j: int| 0 <= j < i0 && s.contains(p[j]);
        least_from(p, s, j)
    } else {
        i0
    }
}


proof fn lemma_sum_of_congruent(n: int, f: spec_fn(int) -> nat, g: spec_fn(int) -> nat)
    requires
        forall|i: int| 0 <= i < n ==> #[trigger] f(i) == g(i),
    ensures
        sum_of(n, f) == sum_of(n, g),
    decreases n,
{
    if n > 0 {
        lemma_sum_of_congruent(n - 1, f, g);
    }
}

proof fn lemma_count_where_congruent(n: int, p: spec_fn(int) -> bool, q: spec_fn(int) -> bool)
    requires
        forall|i: int| 0 <= i < n ==> #[trigger] p(i) == q(i),
    ensures
        count_where(n, p) == count_where(n, q),
    decreases n,
{
    if n > 0 {
        lemma_count_where_congruent(n - 1, p, q);
    }
}

/// Two logs that the summary cannot tell apart: same format, texts and
/// sizes, events with the same attributes and relationships, objects with
/// the same relationships and with a lifecycle where the other has one.
pub open spec fn summary_alike(a: CompactOcelLog, b: CompactOcelLog) -> bool {
    &&& a.format == b.format
    &&& a.pool@ == b.pool@
    &&& a.event_types@.len() == b.event_types@.len()
    &&& a.object_types@.len() == b.object_types@.len()
    &&& a.events@.len() == b.events@.len()
    &&& a.objects@.len() == b.objects@.len()
    &&& forall|i: int| 0 <= i < a.events@.len() ==> (#[trigger] a.events@[i]).attributes@ == b.events@[i].attributes@
        && a.events@[i].relationships@ == b.events@[i].relationships@
    &&& forall|i: int| 0 <= i < a.objects@.len() ==> (#[trigger] a.objects@[i]).relationships@ == b.objects@[i].relationships@
        && (a.objects@[i].lifecycle@.len() > 0) == (b.objects@[i].lifecycle@.len() > 0)
}

proof fn lemma_summary_alike(a: CompactOcelLog, b: CompactOcelLog)
    requires
        summary_alike(a, b),
    ensures
        summary_model(a) == summary_model(b),
{
    let n = a.events@.len() as int;
    let m = a.objects@.len() as int;
    lemma_sum_of_congruent(n, |i: int| a.events@[i].relationships@.len(), |i: int| b.events@[i].relationships@.len());
    lemma_sum_of_congruent(m, |i: int| a.objects@[i].relationships@.len(), |i: int| b.objects@[i].relationships@.len());
    lemma_count_where_congruent(m, |i: int| a.objects@[i].lifecycle@.len() > 0, |i: int| b.objects@[i].lifecycle@.len() > 0);
    assert forall|i: int| 0 <= i < n implies event_has_attr(a, a.events@[i], "state"@) == event_has_attr(b, b.events@[i], "state"@) by {
        assert(a.events@[i].attributes@ == b.events@[i].attributes@);
        if event_has_attr(a, a.events@[i], "state"@) {
            let k = choose|k: int| 0 <= k < a.events@[i].attributes@.len() && a.text(a.events@[i].attributes@[k].name) == "state"@;
            assert(b.text(b.events@[i].attributes@[k].name) == "state"@);
        }
        if event_has_attr(b, b.events@[i], "state"@) {
            let k = choose|k: int| 0 <= k < b.events@[i].attributes@.len() && b.text(b.events@[i].attributes@[k].name) == "state"@;
            assert(a.text(a.events@[i].attributes@[k].name) == "state"@);
        }
    }
    lemma_count_where_congruent(n, |i: int| event_has_attr(a, a.events@[i], "state"@), |i: int| event_has_attr(b, b.events@[i], "state"@));
}

/// Logs with the same content have the same summary: a freshly imported
/// document's active log and its imported log summarise alike.
pub proof fn law_same_log_same_summary(a: CompactOcelLog, b: CompactOcelLog)
    requires
        same_log(a, b),
    ensures
        summary_model(a) == summary_model(b),
{
    assert forall|i: int| 0 <= i < a.events@.len() implies (#[trigger] a.events@[i]).attributes@ == b.events@[i].attributes@
        && a.events@[i].relationships@ == b.events@[i].relationships@ by {
        assert(event_copy(a.events@[i], b.events@[i]));
    }
    assert forall|i: int| 0 <= i < a.objects@.len() implies (#[trigger] a.objects@[i]).relationships@ == b.objects@[i].relationships@
        && (a.objects@[i].lifecycle@.len() > 0) == (b.objects@[i].lifecycle@.len() > 0) by {
        assert(object_copy(a.objects@[i], b.objects@[i]));
    }
    lemma_summary_alike(a, b);
}

proof fn lemma_occurrences_member(s: Seq<usize>, k: int)
    requires
        0 <= k < s.len(),
    ensures
        occurrences(s, s[k]) > 0,
    decreases s.len(),
{
    if k < s.len() - 1 {
        lemma_occurrences_member(s.drop_last(), k);
        assert(s.drop_last()[k] == s[k]);
    }
}

proof fn lemma_occurrences_empty(s: Seq<usize>, v: usize)
    requires
        s.len() == 0,
    ensures
        occurrences(s, v) == 0,
{
}

/// Over events with the same relationships, two lifecycles of one object
/// are both empty or both not.
proof fn lemma_lifecycle_nonempty(ea: Seq<Event>, eb: Seq<Event>, id: Symbol, la: Seq<usize>, lb: Seq<usize>)
    requires
        ea.len() == eb.len(),
        forall|i: int| 0 <= i < ea.len() ==> (#[trigger] ea[i]).relationships@ == eb[i].relationships@,
        is_lifecycle(ea, id, la),
        is_lifecycle(eb, id, lb),
    ensures
        (la.len() > 0) == (lb.len() > 0),
{
    if la.len() > 0 {
        lemma_occurrences_member(la, 0);
        let j = la[0];
        assert(occurrences(la, j) == rel_count(ea[j as int].relationships@, id));
        assert(occurrences(lb, j) == rel_count(eb[j as int].relationships@, id));
        if lb.len() == 0 {
            lemma_occurrences_empty(lb, j);
        }
    }
    if lb.len() > 0 {
        lemma_occurrences_member(lb, 0);
        let j = lb[0];
        assert(occurrences(lb, j) == rel_count(eb[j as int].relationships@, id));
        assert(occurrences(la, j) == rel_count(ea[j as int].relationships@, id));
        if la.len() == 0 {
            lemma_occurrences_empty(la, j);
        }
    }
}

/// A filter is applied to the log it is given, never to an earlier result:
/// any two logs that filtering the same log by the same request gives have
/// the same summary.
pub proof fn law_filter_depends_on_log_and_request(log: CompactOcelLog, f: OcelFilterRequest, r1: CompactOcelLog, r2: CompactOcelLog)
    requires
        filter_result(log, f, r1),
        filter_result(log, f, r2),
    ensures
        summary_model(r1) == summary_model(r2),
{
    if unchanged(log, f) {
        law_same_log_same_summary(r1, log);
        law_same_log_same_summary(r2, log);
    } else {
        let kp = kept_positions(log, f);
        let op = kept_object_positions(log, f);
        assert forall|i: int| 0 <= i < r1.events@.len() implies (#[trigger] r1.events@[i]).attributes@ == r2.events@[i].attributes@
            && r1.events@[i].relationships@ == r2.events@[i].relationships@ by {
            assert(0 <= i < kp.len());
        }
        assert forall|i: int| 0 <= i < r1.objects@.len() implies (#[trigger] r1.objects@[i]).relationships@ == r2.objects@[i].relationships@
            && (r1.objects@[i].lifecycle@.len() > 0) == (r2.objects@[i].lifecycle@.len() > 0) by {
            assert(0 <= i < op.len());
            assert forall|x: int| 0 <= x < r1.events@.len() implies (#[trigger] r1.events@[x]).relationships@ == r2.events@[x].relationships@ by {
                assert(0 <= x < kp.len());
            }
            lemma_lifecycle_nonempty(r1.events@, r2.events@, r1.objects@[i].id, r1.objects@[i].lifecycle@, r2.objects@[i].lifecycle@);
        }
        lemma_summary_alike(r1, r2);
    }
}


/// A filter that selects by event and object type only and bounds no
/// time, applied to what it gave, gives the same log back.
pub proof fn law_filter_idempotent(log: CompactOcelLog, f: OcelFilterRequest, r: CompactOcelLog, r2: CompactOcelLog)
    requires
        log.wf(),
        !has_object_predicates(f),
        !has_time_predicate(f),
        filter_result(log, f, r),
        filter_result(r, f, r2),
    ensures
        same_log(r2, r),
{
    if unchanged(log, f) {
        assert forall|k: int| 0 <= k < r.event_types@.len() implies selection(r, r.event_types@, f.event_types@).contains(#[trigger] r.text(r.event_types@[k].name)) by {
            assert(type_copy(r.event_types@[k], log.event_types@[k]));
            if f.event_types@.len() == 0 {
                assert(type_names(r, r.event_types@)[k] == r.text(r.event_types@[k].name));
            } else {
                assert(selection(log, log.event_types@, f.event_types@).contains(log.text(log.event_types@[k].name)));
            }
        }
        assert forall|k: int| 0 <= k < r.object_types@.len() implies selection(r, r.object_types@, f.object_types@).contains(#[trigger] r.text(r.object_types@[k].name)) by {
            assert(type_copy(r.object_types@[k], log.object_types@[k]));
            if f.object_types@.len() == 0 {
                assert(type_names(r, r.object_types@)[k] == r.text(r.object_types@[k].name));
            } else {
                assert(selection(log, log.object_types@, f.object_types@).contains(log.text(log.object_types@[k].name)));
            }
        }
        assert(unchanged(r, f));
    } else {
        let etp = positions_of_event_types(log, f);
        let otp = positions_of_object_types(log, f);
        lemma_positions(log.event_types@.len() as int, |i: int| event_type_used(log, f, log.event_types@[i].name));
        lemma_positions(log.object_types@.len() as int, |i: int| object_type_used(log, f, log.object_types@[i].name));
        assert forall|k: int| 0 <= k < r.event_types@.len() implies selection(r, r.event_types@, f.event_types@).contains(#[trigger] r.text(r.event_types@[k].name)) by {
            if f.event_types@.len() == 0 {
                assert(type_names(r, r.event_types@)[k] == r.text(r.event_types@[k].name));
            } else {
                let i = etp[k];
                assert(type_copy(r.event_types@[k], log.event_types@[i]));
                assert(event_type_used(log, f, log.event_types@[i].name));
                let p = choose|p: int| 0 <= p < log.events@.len() && event_kept(log, f, #[trigger] log.events@[p]) && log.events@[p].type_symbol == log.event_types@[i].name;
                assert(selection(log, log.event_types@, f.event_types@).contains(log.text(log.events@[p].type_symbol)));
            }
        }
        assert forall|k: int| 0 <= k < r.object_types@.len() implies selection(r, r.object_types@, f.object_types@).contains(#[trigger] r.text(r.object_types@[k].name)) by {
            if f.object_types@.len() == 0 {
                assert(type_names(r, r.object_types@)[k] == r.text(r.object_types@[k].name));
            } else {
                let i = otp[k];
                assert(type_copy(r.object_types@[k], log.object_types@[i]));
                assert(object_type_used(log, f, log.object_types@[i].name));
                let j = choose|j: int| 0 <= j < log.objects@.len() && id_retained(log, f, (#[trigger] log.objects@[j]).id) && log.objects@[j].type_symbol == log.object_types@[i].name;
                let id = log.objects@[j].id;
                let p = choose|p: int| 0 <= p < log.events@.len() && event_kept(log, f, #[trigger] log.events@[p]) && mentions(kept_rels(log, f, log.events@[p]), id);
                let rs = kept_rels(log, f, log.events@[p]);
                let q = choose|q: int| 0 <= q < rs.len() && (#[trigger] rs[q]).object_id == id;
                let pr = |x: crate::model::Relationship| id_selected(log, f, x.object_id);
                log.events@[p].relationships@.lemma_filter_pred(pr, q);
                assert(id_selected(log, f, id));
                let oi = choose|oi: int| 0 <= oi < log.objects@.len() && (#[trigger] log.objects@[oi]).id == id && object_selected(log, f, oi);
                assert(log.object_index@[log.objects@[oi].id.0 as int] == Some(oi as usize));
                assert(log.object_index@[log.objects@[j].id.0 as int] == Some(j as usize));
                assert(log.objects@[oi].id == log.objects@[j].id);
                assert(Some(oi as usize) == Some(j as usize));
                assert(log.objects@.len() == log.objects.len());
                assert(oi == j);
            }
        }
        assert(unchanged(r, f));
    }
}

spec fn positions_of_event_types(log: CompactOcelLog, f: OcelFilterRequest) -> Seq<int> {
    crate::counting::positions(log.event_types@.len() as int, |i: int| event_type_used(log, f, log.event_types@[i].name))
}

spec fn positions_of_object_types(log: CompactOcelLog, f: OcelFilterRequest) -> Seq<int> {
    crate::counting::positions(log.object_types@.len() as int, |i: int| object_type_used(log, f, log.object_types@[i].name))
}


/// A text in lower case whose ends are not white space is its own
/// lower-cased trim.
proof fn lemma_trimmed_lower_fixed(o: Seq<char>)
    requires
        ascii_lower(o) == o,
        o.len() > 0 ==> !is_white(o[0]) && !is_white(o.last()),
    ensures
        ascii_lower(trim_seq(o)) == o,
{
    assert(lead_white(o) == 0);
    assert(o.skip(0) =~= o);
    assert(trim_start_seq(o) == o);
    assert(trail_white(o) == 0);
    assert(o.take(o.len() as int) =~= o);
}

proof fn lemma_lower_char_fixed(c: char)
    ensures
        lower_char(lower_char(c)) == lower_char(c),
        is_white(lower_char(c)) == is_white(c),
{
}

/// The lower-cased trim of a text is lower case and has no white space at
/// its ends.
proof fn lemma_trim_lower_shape(op: Seq<char>)
    ensures
        ascii_lower(ascii_lower(trim_seq(op))) == ascii_lower(trim_seq(op)),
        ascii_lower(trim_seq(op)).len() > 0 ==> !is_white(ascii_lower(trim_seq(op))[0])
            && !is_white(ascii_lower(trim_seq(op)).last()),
{
    let s1 = trim_start_seq(op);
    let t = trim_seq(op);
    let o = ascii_lower(t);
    lemma_lead_white_bound(op);
    lemma_trail_white_bound(s1);
    assert forall|k: int| 0 <= k < o.len() implies ascii_lower(o)[k] == o[k] by {
        lemma_lower_char_fixed(t[k]);
    }
    assert(ascii_lower(o) =~= o);
    if o.len() > 0 {
        assert(t[0] == s1[0]);
        assert(s1[0] == op[lead_white(op) as int]);
        lemma_lower_char_fixed(t[0]);
        assert(t.last() == s1[s1.len() - trail_white(s1) - 1]);
        lemma_lower_char_fixed(t.last());
    }
}

proof fn lemma_literal_fixed(o: Seq<char>)
    requires
        forall|k: int| 0 <= k < o.len() ==> 'a' <= #[trigger] o[k] <= 'z' || o[k] == '_' || ('0' <= o[k] <= '9'),
    ensures
        ascii_lower(trim_seq(o)) == o,
{
    assert(ascii_lower(o) =~= o);
    if o.len() > 0 {
        assert(!is_white(o[0]));
        assert(!is_white(o.last()));
    }
    lemma_trimmed_lower_fixed(o);
}

/// Normalising a causal transform name twice gives what normalising it once
/// gives.
pub proof fn law_causal_operation_idempotent(op: Seq<char>)
    ensures
        operation_name(operation_name(op)) == operation_name(op),
{
    reveal_strlit("");
    reveal_strlit("none");
    reveal_strlit("raw");
    reveal_strlit("identity");
    reveal_strlit("log_10");
    reveal_strlit("log10");
    reveal_strlit("ln");
    reveal_strlit("loge");
    reveal_strlit("log_e");
    reveal_strlit("sqrt");
    reveal_strlit("square_root");
    let o = ascii_lower(trim_seq(op));
    let n = operation_name(op);
    if n == o {
        lemma_trim_lower_shape(op);
        lemma_trimmed_lower_fixed(o);
    } else {
        lemma_literal_fixed(n);
    }
}

} // verus!
