use vstd::prelude::*;
use crate::model::CompactOcelLog;
use crate::pool::Symbol;
use crate::graph::{GraphView, GraphOp, EdgeKey, apply_op, apply_ops, lemma_apply_ops_concat, boundary_label};
use crate::dfg::{dfg_all, sequence_ops, state_aware_all, state_aware_ops, step_ops, steps_upto};
use crate::log_ops::stateful_seq;
use crate::patterns::{state_label, segment_labels};
use crate::filter::lc_types;

verus! {

/// No step takes an edge out of a graph, and no step turns a state-change
/// node into anything else.
proof fn lemma_op_keeps(g: GraphView, op: GraphOp)
    ensures
        forall|k: EdgeKey| g.edges.contains_key(k) ==> #[trigger] apply_op(g, op).edges.contains_key(k),
        forall|l: Seq<char>| g.nodes.contains_key(l) && g.nodes[l].kind == "state-change"@
            ==> #[trigger] apply_op(g, op).nodes.contains_key(l) && apply_op(g, op).nodes[l].kind == "state-change"@,
{
}

proof fn lemma_ops_keep(g: GraphView, ops: Seq<GraphOp>)
    ensures
        forall|k: EdgeKey| g.edges.contains_key(k) ==> #[trigger] apply_ops(g, ops).edges.contains_key(k),
        forall|l: Seq<char>| g.nodes.contains_key(l) && g.nodes[l].kind == "state-change"@
            ==> #[trigger] apply_ops(g, ops).nodes.contains_key(l) && apply_ops(g, ops).nodes[l].kind == "state-change"@,
    decreases ops.len(),
{
    if ops.len() > 0 {
        lemma_ops_keep(g, ops.drop_last());
        lemma_op_keeps(apply_ops(g, ops.drop_last()), ops.last());
    }
}

proof fn lemma_apply_push(g: GraphView, ops: Seq<GraphOp>, op: GraphOp)
    ensures
        apply_ops(g, ops.push(op)) == apply_op(apply_ops(g, ops), op),
{
    assert(ops.push(op).drop_last() =~= ops);
}

proof fn lemma_apply_one(g: GraphView, a: GraphOp)
    ensures
        apply_ops(g, seq![a]) == apply_op(g, a),
{
    let e = Seq::<GraphOp>::empty();
    assert(seq![a] =~= e.push(a));
    lemma_apply_push(g, e, a);
    assert(apply_ops(g, e) == g);
}

proof fn lemma_apply_three(g: GraphView, a: GraphOp, b: GraphOp, c: GraphOp)
    ensures
        apply_ops(g, seq![a, b, c]) == apply_op(apply_op(apply_op(g, a), b), c),
{
    assert(seq![a, b, c] =~= seq![a].push(b).push(c));
    lemma_apply_one(g, a);
    lemma_apply_push(g, seq![a], b);
    lemma_apply_push(g, seq![a].push(b), c);
}

/// The steps of all objects up to `k` begin with those up to `oi` and then
/// those of the object at `oi`.
proof fn lemma_dfg_prefix(log: CompactOcelLog, keep: spec_fn(Seq<char>) -> bool, k: int, oi: int) -> (r: Seq<GraphOp>)
    requires
        0 <= oi < k,
        keep(log.text(log.objects@[oi].type_symbol)),
    ensures
        dfg_all(log, keep, k) == dfg_all(log, keep, oi)
            + crate::dfg::dfg_ops(log, log.objects@[oi], log.text(log.objects@[oi].type_symbol)) + r,
    decreases k,
{
    let o = log.objects@[oi];
    let own = crate::dfg::dfg_ops(log, o, log.text(o.type_symbol));
    if k == oi + 1 {
        assert(dfg_all(log, keep, k) =~= dfg_all(log, keep, oi) + own + Seq::<GraphOp>::empty());
        Seq::empty()
    } else {
        let r0 = lemma_dfg_prefix(log, keep, k - 1, oi);
        let ok = log.objects@[k - 1];
        let ot = log.text(ok.type_symbol);
        let x = if keep(ot) { crate::dfg::dfg_ops(log, ok, ot) } else { Seq::empty() };
        assert(dfg_all(log, keep, k) =~= dfg_all(log, keep, oi) + own + (r0 + x));
        r0 + x
    }
}

/// The same for the state-aware steps.
proof fn lemma_state_aware_prefix(log: CompactOcelLog, keep: spec_fn(Seq<char>) -> bool, st: Symbol, k: int, oi: int) -> (r: Seq<GraphOp>)
    requires
        0 <= oi < k,
        keep(log.text(log.objects@[oi].type_symbol)),
    ensures
        state_aware_all(log, keep, st, k) == state_aware_all(log, keep, st, oi)
            + state_aware_ops(log, log.objects@[oi], log.text(log.objects@[oi].type_symbol), st) + r,
    decreases k,
{
    let o = log.objects@[oi];
    let own = state_aware_ops(log, o, log.text(o.type_symbol), st);
    if k == oi + 1 {
        assert(state_aware_all(log, keep, st, k) =~= state_aware_all(log, keep, st, oi) + own + Seq::<GraphOp>::empty());
        Seq::empty()
    } else {
        let r0 = lemma_state_aware_prefix(log, keep, st, k - 1, oi);
        let ok = log.objects@[k - 1];
        let ot = log.text(ok.type_symbol);
        let x = if keep(ot) { state_aware_ops(log, ok, ot, st) } else { Seq::empty() };
        assert(state_aware_all(log, keep, st, k) =~= state_aware_all(log, keep, st, oi) + own + (r0 + x));
        r0 + x
    }
}

proof fn lemma_steps_prefix(labels: Seq<Seq<char>>, sl: Seq<(usize, Seq<char>)>, ot: Seq<char>, j: int, m: int) -> (r: Seq<GraphOp>)
    requires
        0 <= j <= m,
    ensures
        steps_upto(labels, sl, ot, m) == steps_upto(labels, sl, ot, j) + r,
    decreases m,
{
    if m == j {
        assert(steps_upto(labels, sl, ot, m) =~= steps_upto(labels, sl, ot, j) + Seq::<GraphOp>::empty());
        Seq::empty()
    } else {
        let r0 = lemma_steps_prefix(labels, sl, ot, j, m - 1);
        let x = step_ops(labels, sl, ot, m - 1);
        assert(steps_upto(labels, sl, ot, m) =~= steps_upto(labels, sl, ot, j) + (r0 + x));
        r0 + x
    }
}

/// Every lifecycle ends: in a directly-follows graph built over objects up
/// to `k`, each object before `k` whose type is shown and whose lifecycle is
/// not empty has an edge, of its type, from the activity of its last event
/// to the end node of its type.
pub proof fn law_lifecycles_reach_the_end(log: CompactOcelLog, keep: spec_fn(Seq<char>) -> bool, k: int, oi: int, g: GraphView)
    requires
        0 <= oi < k,
        keep(log.text(log.objects@[oi].type_symbol)),
        log.objects@[oi].lifecycle@.len() > 0,
    ensures
        ({
            let o = log.objects@[oi];
            let ot = log.text(o.type_symbol);
            let last = log.text(log.events@[o.lifecycle@.last() as int].type_symbol);
            apply_ops(g, dfg_all(log, keep, k)).edges.contains_key((last, boundary_label("END"@, ot), ot))
        }),
{
    let o = log.objects@[oi];
    let ot = log.text(o.type_symbol);
    let lc = o.lifecycle@;
    let n = lc.len();
    let ts = lc_types(log, lc);
    let last = log.text(log.events@[lc.last() as int].type_symbol);
    let end = boundary_label("END"@, ot);
    let start = boundary_label("START"@, ot);
    let r = lemma_dfg_prefix(log, keep, k, oi);
    let pre = dfg_all(log, keep, oi);
    let own = sequence_ops(log, lc, ot);
    assert(crate::dfg::dfg_ops(log, o, ot) == own);
    let e = GraphOp::Edge(ts[n - 1], end, ot);
    let body = seq![GraphOp::Boundary(start, "object-start"@, ot, 0), GraphOp::Boundary(end, "object-end"@, ot, crate::counting::clamp_usize(n + 1) as nat)]
        + Seq::new(n, |p: int| GraphOp::Activity(ts[p], "activity"@, (p + 1) as nat))
        + (seq![GraphOp::Edge(start, ts[0], ot)] + Seq::new((n - 1) as nat, |p: int| GraphOp::Edge(ts[p], ts[p + 1], ot)));
    assert(own =~= body + seq![e]);
    assert(ts[n - 1] == last);
    let g1 = apply_ops(g, pre);
    lemma_apply_ops_concat(g1, body, seq![e]);
    lemma_apply_one(apply_ops(g1, body), e);
    let g2 = apply_ops(g1, own);
    assert(g2.edges.contains_key((last, end, ot)));
    lemma_apply_ops_concat(g, pre, own);
    lemma_apply_ops_concat(g, pre + own, r);
    lemma_ops_keep(apply_ops(g, pre + own), r);
}

/// `g` shows the step from the node `a` to the node `b`, of type `ot`, as
/// passing through a state-change node labelled
/// `CHANGE <from> -> <to>`.
pub open spec fn shows_change(g: GraphView, a: Seq<char>, b: Seq<char>, from: Seq<char>, to: Seq<char>, ot: Seq<char>) -> bool {
    let c = "CHANGE "@ + from + " -> "@ + to;
    &&& g.nodes.contains_key(c)
    &&& g.nodes[c].kind == "state-change"@
    &&& g.edges.contains_key((a, c, ot))
    &&& g.edges.contains_key((c, b, ot))
}

/// What the graph `gr` shows of the step between the stateful entries `p`
/// and `p + 1` of `sl`, of an object of type `ot`: a direct edge where their
/// states are equal, a change node between them where they differ.
pub open spec fn shows_step(log: CompactOcelLog, gr: GraphView, sl: Seq<(usize, Seq<char>)>, ot: Seq<char>, p: int) -> bool {
    let a = state_label(log, sl[p].0, sl[p].1);
    let b = state_label(log, sl[p + 1].0, sl[p + 1].1);
    if sl[p].1 == sl[p + 1].1 {
        gr.edges.contains_key((a, b, ot))
    } else {
        shows_change(gr, a, b, sl[p].1, sl[p + 1].1, ot)
    }
}

proof fn lemma_shows_step_kept(log: CompactOcelLog, gr: GraphView, sl: Seq<(usize, Seq<char>)>, ot: Seq<char>, p: int, ops: Seq<GraphOp>)
    requires
        shows_step(log, gr, sl, ot, p),
    ensures
        shows_step(log, apply_ops(gr, ops), sl, ot, p),
{
    lemma_ops_keep(gr, ops);
}

#[verifier::spinoff_prover]
proof fn lemma_object_shows_step(log: CompactOcelLog, o: crate::model::Object, ot: Seq<char>, st: Symbol, p: int, g1: GraphView)
    requires
        0 <= p,
        p + 1 < stateful_seq(log, o.lifecycle@, st).len(),
    ensures
        shows_step(log, apply_ops(g1, state_aware_ops(log, o, ot, st)), stateful_seq(log, o.lifecycle@, st), ot, p),
{
    let sl = stateful_seq(log, o.lifecycle@, st);
    let labels = segment_labels(log, sl);
    let n = sl.len();
    let a = state_label(log, sl[p].0, sl[p].1);
    let b = state_label(log, sl[p + 1].0, sl[p + 1].1);
    assert(labels[p] == a);
    assert(labels[p + 1] == b);
    let start = boundary_label("START"@, ot);
    let end = boundary_label("END"@, ot);
    let head = seq![GraphOp::Boundary(start, "object-start"@, ot, 0), GraphOp::Boundary(end, "object-end"@, ot, crate::counting::clamp_usize(2 * n) as nat)]
        + Seq::new(n, |q: int| GraphOp::Activity(labels[q], "state-activity"@, crate::counting::clamp_usize((2 * q + 1) as nat) as nat))
        + seq![GraphOp::Edge(start, labels[0], ot)];
    let tail = seq![GraphOp::Edge(labels[n - 1], end, ot)];
    let rs = lemma_steps_prefix(labels, sl, ot, p + 1, n - 1);
    let sp = step_ops(labels, sl, ot, p);
    let before = head + steps_upto(labels, sl, ot, p);
    let after = rs + tail;
    let own = state_aware_ops(log, o, ot, st);
    assert(steps_upto(labels, sl, ot, p + 1) == steps_upto(labels, sl, ot, p) + sp);
    assert(own =~= before + sp + after);
    let g2 = apply_ops(g1, before);
    let g3 = apply_ops(g2, sp);
    if sl[p].1 == sl[p + 1].1 {
        assert(sp == seq![GraphOp::Edge(a, b, ot)]);
        lemma_apply_one(g2, GraphOp::Edge(a, b, ot));
        assert(g3.edges.contains_key((a, b, ot)));
    } else {
        let c = "CHANGE "@ + sl[p].1 + " -> "@ + sl[p + 1].1;
        let x = GraphOp::Activity(c, "state-change"@, crate::counting::clamp_usize((2 * p + 2) as nat) as nat);
        let y = GraphOp::Edge(a, c, ot);
        let z = GraphOp::Edge(c, b, ot);
        assert(sp == seq![x, y, z]);
        lemma_apply_three(g2, x, y, z);
        assert(shows_change(g3, a, b, sl[p].1, sl[p + 1].1, ot));
    }
    assert(shows_step(log, g3, sl, ot, p));
    lemma_apply_ops_concat(g1, before, sp);
    lemma_apply_ops_concat(g1, before + sp, after);
    lemma_shows_step_kept(log, g3, sl, ot, p, after);
}

/// In a state-aware graph built over objects up to `k`, any two neighbouring
/// stateful events of the lifecycle of a shown object before `k` are joined:
/// where their states differ, through a state-change node named after the
/// two states, with an edge from the first event's node into it and one from
/// it to the second's; where the states are equal, by a direct edge.
pub proof fn law_state_changes_are_shown(
    log: CompactOcelLog,
    keep: spec_fn(Seq<char>) -> bool,
    st: Symbol,
    k: int,
    oi: int,
    p: int,
    g: GraphView,
)
    requires
        0 <= oi < k,
        keep(log.text(log.objects@[oi].type_symbol)),
        0 <= p,
        p + 1 < stateful_seq(log, log.objects@[oi].lifecycle@, st).len(),
    ensures
        shows_step(
            log,
            apply_ops(g, state_aware_all(log, keep, st, k)),
            stateful_seq(log, log.objects@[oi].lifecycle@, st),
            log.text(log.objects@[oi].type_symbol),
            p,
        ),
{
    let o = log.objects@[oi];
    let ot = log.text(o.type_symbol);
    let sl = stateful_seq(log, o.lifecycle@, st);
    let own = state_aware_ops(log, o, ot, st);
    let r = lemma_state_aware_prefix(log, keep, st, k, oi);
    let pre = state_aware_all(log, keep, st, oi);
    lemma_object_shows_step(log, o, ot, st, p, apply_ops(g, pre));
    lemma_apply_ops_concat(g, pre, own);
    lemma_apply_ops_concat(g, pre + own, r);
    lemma_shows_step_kept(log, apply_ops(g, pre + own), sl, ot, p, r);
}

/// Weight of the edge `kk` in `g`; zero where `g` has no such edge.
pub open spec fn edge_weight(g: GraphView, kk: EdgeKey) -> nat {
    if g.edges.contains_key(kk) { g.edges[kk].1 } else { 0 }
}

/// How many objects before `k`, of type `ot` that `keep` shows, have a
/// non-empty lifecycle whose last event has the activity `a`.
pub open spec fn lifecycles_ending_in(log: CompactOcelLog, keep: spec_fn(Seq<char>) -> bool, k: int, ot: Seq<char>, a: Seq<char>) -> nat
    decreases k,
{
    if k <= 0 {
        0
    } else {
        let o = log.objects@[k - 1];
        let t = log.text(o.type_symbol);
        lifecycles_ending_in(log, keep, k - 1, ot, a) + if keep(t) && t == ot && o.lifecycle@.len() > 0
            && log.text(log.events@[o.lifecycle@.last() as int].type_symbol) == a { 1nat } else { 0nat }
    }
}

/// No lifecycle event of an object before `k` has an activity named `name`.
pub open spec fn no_activity_named(log: CompactOcelLog, k: int, name: Seq<char>) -> bool {
    forall|i: int, q: int| 0 <= i < k && 0 <= q < log.objects@[i].lifecycle@.len()
        ==> log.text(log.events@[#[trigger] log.objects@[i].lifecycle@[q] as int].type_symbol) != name
}

/// How many of the steps add one to the edge `kk`.
spec fn edge_hits(ops: Seq<GraphOp>, kk: EdgeKey) -> nat
    decreases ops.len(),
{
    if ops.len() == 0 {
        0
    } else {
        edge_hits(ops.drop_last(), kk) + if ops.last() == GraphOp::Edge(kk.0, kk.1, kk.2) { 1nat } else { 0nat }
    }
}

proof fn lemma_weight_hits(g: GraphView, ops: Seq<GraphOp>, kk: EdgeKey)
    ensures
        edge_weight(apply_ops(g, ops), kk) == edge_weight(g, kk) + edge_hits(ops, kk),
    decreases ops.len(),
{
    if ops.len() > 0 {
        lemma_weight_hits(g, ops.drop_last(), kk);
        let h = apply_ops(g, ops.drop_last());
        let op = ops.last();
        match op {
            GraphOp::Edge(x, y, z) => {
                if (x, y, z) != kk {
                    assert(apply_op(h, op).edges.contains_key(kk) == h.edges.contains_key(kk));
                }
            },
            _ => {},
        }
    }
}

proof fn lemma_hits_concat(a: Seq<GraphOp>, b: Seq<GraphOp>, kk: EdgeKey)
    ensures
        edge_hits(a + b, kk) == edge_hits(a, kk) + edge_hits(b, kk),
    decreases b.len(),
{
    if b.len() == 0 {
        assert(a + b =~= a);
    } else {
        lemma_hits_concat(a, b.drop_last(), kk);
        assert((a + b).drop_last() =~= a + b.drop_last());
    }
}

proof fn lemma_hits_none(ops: Seq<GraphOp>, kk: EdgeKey)
    requires
        forall|i: int| 0 <= i < ops.len() ==> #[trigger] ops[i] != GraphOp::Edge(kk.0, kk.1, kk.2),
    ensures
        edge_hits(ops, kk) == 0,
    decreases ops.len(),
{
    if ops.len() > 0 {
        lemma_hits_none(ops.drop_last(), kk);
        assert(ops.last() == ops[ops.len() - 1]);
    }
}

proof fn lemma_object_end_hits(log: CompactOcelLog, i: int, ot: Seq<char>, a: Seq<char>)
    requires
        forall|q: int| 0 <= q < log.objects@[i].lifecycle@.len()
            ==> log.text(log.events@[#[trigger] log.objects@[i].lifecycle@[q] as int].type_symbol) != boundary_label("END"@, ot),
    ensures
        ({
            let o = log.objects@[i];
            let t = log.text(o.type_symbol);
            edge_hits(crate::dfg::dfg_ops(log, o, t), (a, boundary_label("END"@, ot), ot))
                == if t == ot && o.lifecycle@.len() > 0 && log.text(log.events@[o.lifecycle@.last() as int].type_symbol) == a { 1nat } else { 0nat }
        }),
{
    let o = log.objects@[i];
    let t = log.text(o.type_symbol);
    let lc = o.lifecycle@;
    let n = lc.len();
    let kk = (a, boundary_label("END"@, ot), ot);
    if n == 0 {
        assert(edge_hits(Seq::<GraphOp>::empty(), kk) == 0);
    } else {
        let ts = lc_types(log, lc);
        let end = boundary_label("END"@, t);
        let start = boundary_label("START"@, t);
        let body = seq![GraphOp::Boundary(start, "object-start"@, t, 0), GraphOp::Boundary(end, "object-end"@, t, crate::counting::clamp_usize(n + 1) as nat)]
            + Seq::new(n, |p: int| GraphOp::Activity(ts[p], "activity"@, (p + 1) as nat))
            + (seq![GraphOp::Edge(start, ts[0], t)] + Seq::new((n - 1) as nat, |p: int| GraphOp::Edge(ts[p], ts[p + 1], t)));
        let e = GraphOp::Edge(ts[n - 1], end, t);
        assert(sequence_ops(log, lc, t) =~= body + seq![e]);
        assert forall|j: int| 0 <= j < body.len() implies #[trigger] body[j] != GraphOp::Edge(kk.0, kk.1, kk.2) by {
            if j == n + 2 {
                assert(ts[0] == log.text(log.events@[lc[0] as int].type_symbol));
            } else if j > n + 2 {
                let q = j - n - 3;
                assert(body[j] == GraphOp::Edge(ts[q], ts[q + 1], t));
                assert(ts[q + 1] == log.text(log.events@[lc[q + 1] as int].type_symbol));
            }
        }
        lemma_hits_none(body, kk);
        lemma_hits_concat(body, seq![e], kk);
        assert(seq![e].drop_last() =~= Seq::<GraphOp>::empty());
        assert(edge_hits(Seq::<GraphOp>::empty(), kk) == 0);
        assert(edge_hits(seq![e], kk) == if e == GraphOp::Edge(kk.0, kk.1, kk.2) { 1nat } else { 0nat });
        assert(crate::dfg::dfg_ops(log, o, t) == sequence_ops(log, lc, t));
        assert(edge_hits(crate::dfg::dfg_ops(log, o, t), kk) == edge_hits(seq![e], kk));
        assert(ts[n - 1] == log.text(log.events@[lc.last() as int].type_symbol));
        if t == ot {
            assert(end == boundary_label("END"@, ot));
        }
    }
}

proof fn lemma_all_end_hits(log: CompactOcelLog, keep: spec_fn(Seq<char>) -> bool, k: int, ot: Seq<char>, a: Seq<char>)
    requires
        no_activity_named(log, k, boundary_label("END"@, ot)),
    ensures
        edge_hits(dfg_all(log, keep, k), (a, boundary_label("END"@, ot), ot)) == lifecycles_ending_in(log, keep, k, ot, a),
    decreases k,
{
    let kk = (a, boundary_label("END"@, ot), ot);
    if k <= 0 {
        assert(edge_hits(Seq::<GraphOp>::empty(), kk) == 0);
    } else {
        lemma_all_end_hits(log, keep, k - 1, ot, a);
        let o = log.objects@[k - 1];
        let t = log.text(o.type_symbol);
        let x = if keep(t) { crate::dfg::dfg_ops(log, o, t) } else { Seq::empty() };
        lemma_hits_concat(dfg_all(log, keep, k - 1), x, kk);
        if keep(t) {
            assert forall|q: int| 0 <= q < log.objects@[k - 1].lifecycle@.len() implies
                log.text(log.events@[#[trigger] log.objects@[k - 1].lifecycle@[q] as int].type_symbol) != boundary_label("END"@, ot) by {
                assert(0 <= k - 1 < k);
            }
            lemma_object_end_hits(log, k - 1, ot, a);
        } else {
            assert(edge_hits(Seq::<GraphOp>::empty(), kk) == 0);
        }
    }
}

/// The weight that a directly-follows graph built over the objects before
/// `k` gives the edge from the activity `a` to the end node of the type
/// `ot` grows by the number of shown objects of that type whose lifecycle
/// ends in `a`; summed over the activities, the end node's incoming weight
/// grows by the number of shown objects of the type with a non-empty
/// lifecycle. Where an activity is itself named like that end node its
/// edges would count too, so such logs are left out.
pub proof fn law_end_weights_count_lifecycles(
    log: CompactOcelLog,
    keep: spec_fn(Seq<char>) -> bool,
    k: int,
    ot: Seq<char>,
    a: Seq<char>,
    g: GraphView,
)
    requires
        no_activity_named(log, k, boundary_label("END"@, ot)),
    ensures
        edge_weight(apply_ops(g, dfg_all(log, keep, k)), (a, boundary_label("END"@, ot), ot))
            == edge_weight(g, (a, boundary_label("END"@, ot), ot)) + lifecycles_ending_in(log, keep, k, ot, a),
{
    lemma_weight_hits(g, dfg_all(log, keep, k), (a, boundary_label("END"@, ot), ot));
    lemma_all_end_hits(log, keep, k, ot, a);
}

/// Every step up to `m` is one of the steps between some entry `q < m` and
/// the next.
proof fn lemma_steps_origin(labels: Seq<Seq<char>>, sl: Seq<(usize, Seq<char>)>, ot: Seq<char>, m: int, j: int)
    requires
        0 <= j < steps_upto(labels, sl, ot, m).len(),
    ensures
        exists|q: int, r: int| 0 <= q < m && 0 <= r < step_ops(labels, sl, ot, q).len()
            && steps_upto(labels, sl, ot, m)[j] == #[trigger] step_ops(labels, sl, ot, q)[r],
    decreases m,
{
    if m > 0 {
        let pre = steps_upto(labels, sl, ot, m - 1);
        let last = step_ops(labels, sl, ot, m - 1);
        assert(steps_upto(labels, sl, ot, m) == pre + last);
        if j < pre.len() {
            lemma_steps_origin(labels, sl, ot, m - 1, j);
            let (q, r) = choose|q: int, r: int| 0 <= q < m - 1 && 0 <= r < step_ops(labels, sl, ot, q).len()
                && pre[j] == #[trigger] step_ops(labels, sl, ot, q)[r];
            assert(steps_upto(labels, sl, ot, m)[j] == step_ops(labels, sl, ot, q)[r]);
        } else {
            let r = j - pre.len();
            assert(steps_upto(labels, sl, ot, m)[j] == step_ops(labels, sl, ot, m - 1)[r]);
        }
    } else {
        assert(steps_upto(labels, sl, ot, m).len() == 0);
    }
}

/// An edge that the stateful lifecycle `sl` of an object of type `ot` puts
/// in a state-aware graph: from its start node to its first event, from its
/// last event to its end node, directly between neighbouring events whose
/// states are equal, or into and out of the change node between neighbouring
/// events whose states differ.
pub open spec fn lifecycle_edge(log: CompactOcelLog, sl: Seq<(usize, Seq<char>)>, ot: Seq<char>, x: Seq<char>, y: Seq<char>) -> bool {
    let n = sl.len();
    ||| x == boundary_label("START"@, ot) && y == state_label(log, sl[0].0, sl[0].1)
    ||| x == state_label(log, sl[n - 1].0, sl[n - 1].1) && y == boundary_label("END"@, ot)
    ||| exists|q: int| #![trigger sl[q]] 0 <= q && q + 1 < n && {
        let a = state_label(log, sl[q].0, sl[q].1);
        let b = state_label(log, sl[q + 1].0, sl[q + 1].1);
        let c = "CHANGE "@ + sl[q].1 + " -> "@ + sl[q + 1].1;
        if sl[q].1 == sl[q + 1].1 {
            x == a && y == b
        } else {
            (x == a && y == c) || (x == c && y == b)
        }
    }
}

/// The state-aware steps of an object add no edge but those of its
/// lifecycle: in particular a direct edge between neighbouring events only
/// where their states are equal, and every edge has the object's type.
pub proof fn law_state_aware_edges(log: CompactOcelLog, o: crate::model::Object, ot: Seq<char>, st: Symbol, i: int)
    requires
        0 <= i < state_aware_ops(log, o, ot, st).len(),
        state_aware_ops(log, o, ot, st)[i] is Edge,
    ensures
        state_aware_ops(log, o, ot, st)[i] matches GraphOp::Edge(x, y, t)
            && t == ot && lifecycle_edge(log, stateful_seq(log, o.lifecycle@, st), ot, x, y),
{
    let sl = stateful_seq(log, o.lifecycle@, st);
    let labels = segment_labels(log, sl);
    let n = sl.len();
    let start = boundary_label("START"@, ot);
    let end = boundary_label("END"@, ot);
    let s2 = seq![GraphOp::Boundary(start, "object-start"@, ot, 0), GraphOp::Boundary(end, "object-end"@, ot, crate::counting::clamp_usize(2 * n) as nat)];
    let acts = Seq::new(n, |q: int| GraphOp::Activity(labels[q], "state-activity"@, crate::counting::clamp_usize((2 * q + 1) as nat) as nat));
    let e1 = seq![GraphOp::Edge(start, labels[0], ot)];
    let su = steps_upto(labels, sl, ot, n - 1);
    let e2 = seq![GraphOp::Edge(labels[n - 1], end, ot)];
    let ops = state_aware_ops(log, o, ot, st);
    assert(n > 0);
    assert(ops == s2 + acts + e1 + su + e2);
    let h = s2.len() + acts.len();
    if i < h {
        assert(ops[i] == (s2 + acts)[i]);
        if i >= 2 {
            assert((s2 + acts)[i] == acts[i - 2]);
        }
    } else if i == h {
        assert(ops[i] == GraphOp::Edge(start, labels[0], ot));
        assert(labels[0] == state_label(log, sl[0].0, sl[0].1));
    } else if i < h + 1 + su.len() {
        let j = i - h - 1;
        assert(ops[i] == su[j]);
        lemma_steps_origin(labels, sl, ot, n - 1, j);
        let (q, r) = choose|q: int, r: int| 0 <= q < n - 1 && 0 <= r < step_ops(labels, sl, ot, q).len()
            && su[j] == #[trigger] step_ops(labels, sl, ot, q)[r];
        assert(labels[q] == state_label(log, sl[q].0, sl[q].1));
        assert(labels[q + 1] == state_label(log, sl[q + 1].0, sl[q + 1].1));
        let _ = sl[q];
    } else {
        assert(ops[i] == GraphOp::Edge(labels[n - 1], end, ot));
        assert(labels[n - 1] == state_label(log, sl[n - 1].0, sl[n - 1].1));
    }
}

} // verus!
