use vstd::prelude::*;
use crate::error::OcelError;
use crate::pool::Symbol;
use crate::model::{CompactOcelLog, Object, event_ok, object_ok};
use crate::graph::{
    GraphLayoutFilter, layout_filtered, GraphAccumulator, GraphView, GraphOp, apply_op, apply_ops, empty_graph, boundary_label, object_boundary_label,
    type_added, node_added, edge_added, type_color,
};
use crate::filter::lc_types;
use crate::log_ops::{has_object_type, stateful_seq, pairs_view, symbol_of};
use crate::patterns::{state_label, segment_labels};
use crate::text::{owned, push_text, str_eq};
use crate::counting::clamp_usize;
use crate::filter::contains_text;
use crate::patterns::texts;

verus! {

/// The steps that the lifecycle of an object of type `ot` adds to a
/// directly-follows graph: typed start and end nodes, one activity node per
/// lifecycle event, and typed edges from start through the lifecycle to end.
pub open spec fn dfg_ops(log: CompactOcelLog, o: Object, ot: Seq<char>) -> Seq<GraphOp> {
    if o.lifecycle@.len() == 0 {
        Seq::empty()
    } else {
        sequence_ops(log, o.lifecycle@, ot)
    }
}

/// The steps that a sequence of events of an object of type `ot` adds to a
/// directly-follows graph: typed start and end nodes, one activity node per
/// event, and, when there are events, typed edges from start through the
/// events to end.
pub open spec fn sequence_ops(log: CompactOcelLog, evs: Seq<usize>, ot: Seq<char>) -> Seq<GraphOp> {
    let ts = lc_types(log, evs);
    let n = evs.len();
    let start = boundary_label("START"@, ot);
    let end = boundary_label("END"@, ot);
    seq![GraphOp::Boundary(start, "object-start"@, ot, 0), GraphOp::Boundary(end, "object-end"@, ot, clamp_usize(n + 1) as nat)]
        + Seq::new(n, |p: int| GraphOp::Activity(ts[p], "activity"@, (p + 1) as nat))
        + if n == 0 {
            Seq::empty()
        } else {
            seq![GraphOp::Edge(start, ts[0], ot)]
                + Seq::new((n - 1) as nat, |p: int| GraphOp::Edge(ts[p], ts[p + 1], ot))
                + seq![GraphOp::Edge(ts[n - 1], end, ot)]
        }
}

/// Steps of the first `k` objects whose type passes `keep`.
pub open spec fn dfg_all(log: CompactOcelLog, keep: spec_fn(Seq<char>) -> bool, k: int) -> Seq<GraphOp>
    decreases k,
{
    if k <= 0 {
        Seq::empty()
    } else {
        let o = log.objects@[k - 1];
        let ot = log.text(o.type_symbol);
        dfg_all(log, keep, k - 1) + if keep(ot) { dfg_ops(log, o, ot) } else { Seq::empty() }
    }
}

/// Label of a change between two states.
pub open spec fn change_label(from: Seq<char>, to: Seq<char>) -> Seq<char> {
    "CHANGE "@ + from + " -> "@ + to
}

/// Steps between the stateful lifecycle entries `p` and `p + 1`.
pub open spec fn step_ops(labels: Seq<Seq<char>>, sl: Seq<(usize, Seq<char>)>, ot: Seq<char>, p: int) -> Seq<GraphOp> {
    if sl[p].1 == sl[p + 1].1 {
        seq![GraphOp::Edge(labels[p], labels[p + 1], ot)]
    } else {
        let c = change_label(sl[p].1, sl[p + 1].1);
        seq![
            GraphOp::Activity(c, "state-change"@, clamp_usize((2 * p + 2) as nat) as nat),
            GraphOp::Edge(labels[p], c, ot),
            GraphOp::Edge(c, labels[p + 1], ot),
        ]
    }
}

/// Steps between the first `k + 1` stateful lifecycle entries.
pub open spec fn steps_upto(labels: Seq<Seq<char>>, sl: Seq<(usize, Seq<char>)>, ot: Seq<char>, k: int) -> Seq<GraphOp>
    decreases k,
{
    if k <= 0 {
        Seq::empty()
    } else {
        steps_upto(labels, sl, ot, k - 1) + step_ops(labels, sl, ot, k - 1)
    }
}

/// The steps that the stateful lifecycle of an object of type `ot` adds to a
/// state-aware graph: events labelled with their states, and a change node
/// between neighbouring events whose states differ.
pub open spec fn state_aware_ops(log: CompactOcelLog, o: Object, ot: Seq<char>, st: Symbol) -> Seq<GraphOp> {
    let sl = stateful_seq(log, o.lifecycle@, st);
    let labels = segment_labels(log, sl);
    let n = sl.len();
    if n == 0 {
        Seq::empty()
    } else {
        let start = boundary_label("START"@, ot);
        let end = boundary_label("END"@, ot);
        seq![GraphOp::Boundary(start, "object-start"@, ot, 0), GraphOp::Boundary(end, "object-end"@, ot, clamp_usize(2 * n) as nat)]
            + Seq::new(n, |p: int| GraphOp::Activity(labels[p], "state-activity"@, clamp_usize((2 * p + 1) as nat) as nat))
            + seq![GraphOp::Edge(start, labels[0], ot)]
            + steps_upto(labels, sl, ot, n - 1)
            + seq![GraphOp::Edge(labels[n - 1], end, ot)]
    }
}

/// State-aware steps of the first `k` objects whose type passes `keep`.
pub open spec fn state_aware_all(log: CompactOcelLog, keep: spec_fn(Seq<char>) -> bool, st: Symbol, k: int) -> Seq<GraphOp>
    decreases k,
{
    if k <= 0 {
        Seq::empty()
    } else {
        let o = log.objects@[k - 1];
        let ot = log.text(o.type_symbol);
        state_aware_all(log, keep, st, k - 1) + if keep(ot) { state_aware_ops(log, o, ot, st) } else { Seq::empty() }
    }
}

proof fn lemma_push_op(g: GraphView, ops: Seq<GraphOp>, op: GraphOp)
    ensures
        apply_ops(g, ops.push(op)) == apply_op(apply_ops(g, ops), op),
{
    assert(ops.push(op).drop_last() =~= ops);
}

impl CompactOcelLog {
    /// Adds the directly-follows steps of the object at `oi` of type `ot`.
    pub fn accumulate_directly_follows_for_object(
        &self,
        graph: &mut GraphAccumulator,
        oi: usize,
        ot: &str,
        Ghost(g): Ghost<GraphView>,
    )
        requires
            self.wf(),
            oi < self.objects@.len(),
            old(graph).holds(g),
        ensures
            final(graph).holds(apply_ops(g, dfg_ops(*self, self.objects@[oi as int], ot@))),
            final(graph).title == old(graph).title,
            final(graph).subtitle == old(graph).subtitle,
    {
        let o = &self.objects[oi];
        if o.lifecycle.len() == 0 {
            proof { assert(apply_ops(g, Seq::empty()) == g) by { reveal_with_fuel(apply_ops, 1); } }
            return;
        }
        proof { assert(object_ok(self.pool@.len(), self.events@.len(), *o)); }
        self.accumulate_sequence(graph, &o.lifecycle, ot, Ghost(g));
    }

    /// Adds the directly-follows steps of a sequence of events of an object
    /// of type `ot`.
    pub fn accumulate_sequence(
        &self,
        graph: &mut GraphAccumulator,
        lc: &Vec<usize>,
        ot: &str,
        Ghost(g): Ghost<GraphView>,
    )
        requires
            self.wf(),
            forall|k: int| 0 <= k < lc@.len() ==> #[trigger] lc@[k] < self.events@.len(),
            old(graph).holds(g),
        ensures
            final(graph).holds(apply_ops(g, sequence_ops(*self, lc@, ot@))),
            final(graph).title == old(graph).title,
            final(graph).subtitle == old(graph).subtitle,
    {
        let ghost ts = lc_types(*self, lc@);
        let ghost n = lc@.len();
        let start = object_boundary_label("START", ot);
        let end = object_boundary_label("END", ot);
        let ghost mut done: Seq<GraphOp> = Seq::empty();
        graph.add_object_boundary_node(start.as_str(), "object-start", ot, 0, 1, Ghost(g));
        proof {
            lemma_push_op(g, done, GraphOp::Boundary(start@, "object-start"@, ot@, 0));
            done = done.push(GraphOp::Boundary(start@, "object-start"@, ot@, 0));
        }
        graph.add_object_boundary_node(end.as_str(), "object-end", ot, lc.len().saturating_add(1), 1, Ghost(apply_ops(g, done)));
        proof {
            lemma_push_op(g, done, GraphOp::Boundary(end@, "object-end"@, ot@, clamp_usize(n + 1) as nat));
            done = done.push(GraphOp::Boundary(end@, "object-end"@, ot@, clamp_usize(n + 1) as nat));
        }
        let ghost head = done;
        let mut p: usize = 0;
        while p < lc.len()
            invariant
                self.wf(),
                forall|k: int| 0 <= k < lc@.len() ==> #[trigger] lc@[k] < self.events@.len(),
                ts == lc_types(*self, lc@),
                p <= lc@.len(),
                graph.holds(apply_ops(g, head + Seq::new(p as nat, |q: int| GraphOp::Activity(ts[q], "activity"@, (q + 1) as nat)))),
                graph.title == old(graph).title,
                graph.subtitle == old(graph).subtitle,
            decreases lc.len() - p,
        {
            let ghost before = head + Seq::new(p as nat, |q: int| GraphOp::Activity(ts[q], "activity"@, (q + 1) as nat));
            proof {
                assert(lc@[p as int] < self.events@.len());
                assert(event_ok(self.pool@.len(), self.events@[lc@[p as int] as int]));
            }
            let label = self.pool.resolve(self.events[lc[p]].type_symbol);
            graph.add_node(label, "activity", p + 1, 1, Ghost(apply_ops(g, before)));
            proof {
                assert(ts[p as int] == label@);
                lemma_push_op(g, before, GraphOp::Activity(ts[p as int], "activity"@, (p + 1) as nat));
                assert(before.push(GraphOp::Activity(ts[p as int], "activity"@, (p + 1) as nat))
                    =~= head + Seq::new((p + 1) as nat, |q: int| GraphOp::Activity(ts[q], "activity"@, (q + 1) as nat)));
            }
            p = p + 1;
        }
        let ghost d2 = head + Seq::new(n, |q: int| GraphOp::Activity(ts[q], "activity"@, (q + 1) as nat));
        if lc.len() == 0 {
            proof {
                assert(d2 =~= sequence_ops(*self, lc@, ot@));
            }
            return;
        }
        proof {
            assert(lc@[0] < self.events@.len());
            assert(event_ok(self.pool@.len(), self.events@[lc@[0] as int]));
        }
        let first = self.pool.resolve(self.events[lc[0]].type_symbol);
        graph.add_edge(start.as_str(), first, ot, 1, Ghost(apply_ops(g, d2)));
        proof {
            assert(ts[0] == first@);
            lemma_push_op(g, d2, GraphOp::Edge(start@, ts[0], ot@));
        }
        let ghost mid = d2.push(GraphOp::Edge(start@, ts[0], ot@));
        let mut p: usize = 0;
        while p + 1 < lc.len()
            invariant
                self.wf(),
                forall|k: int| 0 <= k < lc@.len() ==> #[trigger] lc@[k] < self.events@.len(),
                ts == lc_types(*self, lc@),
                lc@.len() > 0,
                p + 1 <= lc@.len(),
                graph.holds(apply_ops(g, mid + Seq::new(p as nat, |q: int| GraphOp::Edge(ts[q], ts[q + 1], ot@)))),
                graph.title == old(graph).title,
                graph.subtitle == old(graph).subtitle,
            decreases lc.len() - p,
        {
            let ghost before = mid + Seq::new(p as nat, |q: int| GraphOp::Edge(ts[q], ts[q + 1], ot@));
            proof {
                assert(lc@[p as int] < self.events@.len());
                assert(lc@[p + 1] < self.events@.len());
                assert(event_ok(self.pool@.len(), self.events@[lc@[p as int] as int]));
                assert(event_ok(self.pool@.len(), self.events@[lc@[p + 1] as int]));
            }
            let source = self.pool.resolve(self.events[lc[p]].type_symbol);
            let target = self.pool.resolve(self.events[lc[p + 1]].type_symbol);
            graph.add_edge(source, target, ot, 1, Ghost(apply_ops(g, before)));
            proof {
                assert(ts[p as int] == source@);
                assert(ts[p + 1] == target@);
                lemma_push_op(g, before, GraphOp::Edge(ts[p as int], ts[p + 1], ot@));
                assert(before.push(GraphOp::Edge(ts[p as int], ts[p + 1], ot@))
                    =~= mid + Seq::new((p + 1) as nat, |q: int| GraphOp::Edge(ts[q], ts[q + 1], ot@)));
            }
            p = p + 1;
        }
        let ghost d3 = mid + Seq::new((n - 1) as nat, |q: int| GraphOp::Edge(ts[q], ts[q + 1], ot@));
        let last_index = lc[lc.len() - 1];
        proof {
            assert(lc@[n - 1] < self.events@.len());
            assert(event_ok(self.pool@.len(), self.events@[lc@[n - 1] as int]));
        }
        let last = self.pool.resolve(self.events[last_index].type_symbol);
        graph.add_edge(last, end.as_str(), ot, 1, Ghost(apply_ops(g, d3)));
        proof {
            assert(ts[n - 1] == last@);
            lemma_push_op(g, d3, GraphOp::Edge(ts[n - 1], end@, ot@));
            assert(d3.push(GraphOp::Edge(ts[n - 1], end@, ot@)) =~= sequence_ops(*self, lc@, ot@));
        }
    }
}

impl CompactOcelLog {
    fn add_step(
        &self,
        graph: &mut GraphAccumulator,
        sl: &Vec<(usize, String)>,
        labels: &Vec<String>,
        p: usize,
        ot: &str,
        Ghost(g): Ghost<GraphView>,
    )
        requires
            p + 1 < sl.len(),
            labels@.len() == sl@.len(),
            forall|q: int| 0 <= q < labels@.len() ==> #[trigger] labels@[q]@ == segment_labels(*self, pairs_view(sl@))[q],
            old(graph).holds(g),
        ensures
            final(graph).holds(apply_ops(g, step_ops(segment_labels(*self, pairs_view(sl@)), pairs_view(sl@), ot@, p as int))),
            final(graph).title == old(graph).title,
            final(graph).subtitle == old(graph).subtitle,
    {
        let ghost lv = segment_labels(*self, pairs_view(sl@));
        let ghost slv = pairs_view(sl@);
        proof {
            assert(slv[p as int].1 == sl@[p as int].1@);
            assert(slv[p + 1].1 == sl@[p + 1].1@);
            assert(labels@[p as int]@ == lv[p as int]);
            assert(labels@[p + 1]@ == lv[p + 1]);
        }
        if str_eq(sl[p].1.as_str(), sl[p + 1].1.as_str()) {
            graph.add_edge(labels[p].as_str(), labels[p + 1].as_str(), ot, 1, Ghost(g));
            proof {
                lemma_push_op(g, Seq::empty(), GraphOp::Edge(lv[p as int], lv[p + 1], ot@));
                assert(Seq::<GraphOp>::empty().push(GraphOp::Edge(lv[p as int], lv[p + 1], ot@)) =~= step_ops(lv, slv, ot@, p as int));
            }
        } else {
            let mut c = owned("CHANGE ");
            push_text(&mut c, sl[p].1.as_str());
            push_text(&mut c, " -> ");
            push_text(&mut c, sl[p + 1].1.as_str());
            let order = p.saturating_add(p).saturating_add(2);
            let ghost op1 = GraphOp::Activity(c@, "state-change"@, clamp_usize((2 * p + 2) as nat) as nat);
            let ghost op2 = GraphOp::Edge(lv[p as int], c@, ot@);
            let ghost op3 = GraphOp::Edge(c@, lv[p + 1], ot@);
            graph.add_node(c.as_str(), "state-change", order, 1, Ghost(g));
            proof {
                lemma_push_op(g, Seq::empty(), op1);
            }
            graph.add_edge(labels[p].as_str(), c.as_str(), ot, 1, Ghost(apply_ops(g, seq![op1])));
            proof {
                assert(seq![op1].push(op2) =~= seq![op1, op2]);
                lemma_push_op(g, seq![op1], op2);
            }
            graph.add_edge(c.as_str(), labels[p + 1].as_str(), ot, 1, Ghost(apply_ops(g, seq![op1, op2])));
            proof {
                assert(seq![op1, op2].push(op3) =~= seq![op1, op2, op3]);
                lemma_push_op(g, seq![op1, op2], op3);
                assert(seq![op1, op2, op3] =~= step_ops(lv, slv, ot@, p as int));
            }
        }
    }

    /// Adds the state-aware directly-follows steps of the object at `oi` of
    /// type `ot` under the state symbol `st`.
    pub fn accumulate_state_aware_directly_follows_for_object(
        &self,
        graph: &mut GraphAccumulator,
        oi: usize,
        ot: &str,
        st: Symbol,
        Ghost(g): Ghost<GraphView>,
    )
        requires
            self.wf(),
            oi < self.objects@.len(),
            old(graph).holds(g),
        ensures
            final(graph).holds(apply_ops(g, state_aware_ops(*self, self.objects@[oi as int], ot@, st))),
            final(graph).title == old(graph).title,
            final(graph).subtitle == old(graph).subtitle,
    {
        let sl = self.stateful_lifecycle(oi, st);
        let ghost slv = pairs_view(sl@);
        let ghost lv = segment_labels(*self, slv);
        if sl.len() == 0 {
            return;
        }
        let ghost n = sl@.len();
        let mut labels: Vec<String> = Vec::new();
        let mut p: usize = 0;
        while p < sl.len()
            invariant
                self.wf(),
                slv == pairs_view(sl@),
                lv == segment_labels(*self, slv),
                forall|k: int| 0 <= k < sl@.len() ==> #[trigger] sl@[k].0 < self.events@.len(),
                p <= sl@.len(),
                labels@.len() == p,
                forall|q: int| 0 <= q < p ==> #[trigger] labels@[q]@ == lv[q],
            decreases sl.len() - p,
        {
            let l = self.state_aware_event_label(sl[p].0, sl[p].1.as_str());
            labels.push(l);
            p = p + 1;
        }
        let start = object_boundary_label("START", ot);
        let end = object_boundary_label("END", ot);
        let ghost op_s = GraphOp::Boundary(start@, "object-start"@, ot@, 0);
        let ghost op_e = GraphOp::Boundary(end@, "object-end"@, ot@, clamp_usize(2 * n) as nat);
        graph.add_object_boundary_node(start.as_str(), "object-start", ot, 0, 1, Ghost(g));
        proof { lemma_push_op(g, Seq::empty(), op_s); }
        graph.add_object_boundary_node(end.as_str(), "object-end", ot, sl.len().saturating_add(sl.len()), 1, Ghost(apply_ops(g, seq![op_s])));
        proof {
            assert(seq![op_s].push(op_e) =~= seq![op_s, op_e]);
            lemma_push_op(g, seq![op_s], op_e);
        }
        let ghost head = seq![op_s, op_e];
        let mut p: usize = 0;
        while p < sl.len()
            invariant
                labels@.len() == sl@.len(),
                forall|q: int| 0 <= q < labels@.len() ==> #[trigger] labels@[q]@ == lv[q],
                p <= sl@.len(),
                graph.holds(apply_ops(g, head + Seq::new(p as nat, |q: int| GraphOp::Activity(lv[q], "state-activity"@, clamp_usize((2 * q + 1) as nat) as nat)))),
                graph.title == old(graph).title,
                graph.subtitle == old(graph).subtitle,
            decreases sl.len() - p,
        {
            let ghost before = head + Seq::new(p as nat, |q: int| GraphOp::Activity(lv[q], "state-activity"@, clamp_usize((2 * q + 1) as nat) as nat));
            let order = p.saturating_add(p).saturating_add(1);
            graph.add_node(labels[p].as_str(), "state-activity", order, 1, Ghost(apply_ops(g, before)));
            proof {
                let op = GraphOp::Activity(lv[p as int], "state-activity"@, clamp_usize((2 * p + 1) as nat) as nat);
                lemma_push_op(g, before, op);
                assert(before.push(op) =~= head + Seq::new((p + 1) as nat, |q: int| GraphOp::Activity(lv[q], "state-activity"@, clamp_usize((2 * q + 1) as nat) as nat)));
            }
            p = p + 1;
        }
        let ghost d2 = head + Seq::new(n, |q: int| GraphOp::Activity(lv[q], "state-activity"@, clamp_usize((2 * q + 1) as nat) as nat));
        graph.add_edge(start.as_str(), labels[0].as_str(), ot, 1, Ghost(apply_ops(g, d2)));
        proof { lemma_push_op(g, d2, GraphOp::Edge(start@, lv[0], ot@)); }
        let ghost mid = d2.push(GraphOp::Edge(start@, lv[0], ot@));
        let mut p: usize = 0;
        assert(steps_upto(lv, slv, ot@, 0) =~= Seq::<GraphOp>::empty());
        assert(mid + Seq::<GraphOp>::empty() =~= mid);
        while p + 1 < sl.len()
            invariant
                slv == pairs_view(sl@),
                lv == segment_labels(*self, slv),
                labels@.len() == sl@.len(),
                forall|q: int| 0 <= q < labels@.len() ==> #[trigger] labels@[q]@ == lv[q],
                sl@.len() > 0,
                p + 1 <= sl@.len(),
                graph.holds(apply_ops(g, mid + steps_upto(lv, slv, ot@, p as int))),
                graph.title == old(graph).title,
                graph.subtitle == old(graph).subtitle,
            decreases sl.len() - p,
        {
            let ghost before = mid + steps_upto(lv, slv, ot@, p as int);
            self.add_step(graph, &sl, &labels, p, ot, Ghost(apply_ops(g, before)));
            proof {
                crate::graph::lemma_apply_ops_concat(g, before, step_ops(lv, slv, ot@, p as int));
                assert(before + step_ops(lv, slv, ot@, p as int) =~= mid + steps_upto(lv, slv, ot@, p + 1));
            }
            p = p + 1;
        }
        let ghost d3 = mid + steps_upto(lv, slv, ot@, (n - 1) as int);
        graph.add_edge(labels[sl.len() - 1].as_str(), end.as_str(), ot, 1, Ghost(apply_ops(g, d3)));
        proof {
            lemma_push_op(g, d3, GraphOp::Edge(lv[n - 1], end@, ot@));
            assert(d3.push(GraphOp::Edge(lv[n - 1], end@, ot@)) =~= state_aware_ops(*self, self.objects@[oi as int], ot@, st));
        }
    }
}

/// Which object types a graph shows, and its frequency thresholds.
pub struct GraphFilterRequest {
    /// Object types to show; `None` shows all.
    pub object_types: Option<Vec<String>>,
    pub min_activity_frequency: usize,
    pub min_path_frequency: usize,
}

impl GraphFilterRequest {
    /// The request that shows everything.
    pub fn all() -> (r: GraphFilterRequest)
        ensures
            r.object_types is None,
            r.min_activity_frequency == 0,
            r.min_path_frequency == 0,
    {
        GraphFilterRequest { object_types: None, min_activity_frequency: 0, min_path_frequency: 0 }
    }

    /// The frequency thresholds of the request.
    pub fn layout_filter(&self) -> (r: GraphLayoutFilter)
        ensures
            r.min_activity_frequency == self.min_activity_frequency,
            r.min_path_frequency == self.min_path_frequency,
    {
        GraphLayoutFilter { min_activity_frequency: self.min_activity_frequency, min_path_frequency: self.min_path_frequency }
    }
}

/// The object types a graph request shows.
pub open spec fn shows_type(req: GraphFilterRequest, t: Seq<char>) -> bool {
    match req.object_types {
        None => true,
        Some(v) => texts(v@).contains(t),
    }
}

pub open spec fn no_threshold() -> GraphLayoutFilter {
    GraphLayoutFilter { min_activity_frequency: 0, min_path_frequency: 0 }
}

impl CompactOcelLog {
    fn accumulate_all(&self, graph: &mut GraphAccumulator, keep_type: Option<&Vec<String>>, only: Option<&str>, Ghost(keep): Ghost<spec_fn(Seq<char>) -> bool>)
        requires
            self.wf(),
            old(graph).holds(empty_graph()),
            forall|t: Seq<char>| #[trigger] keep(t) == (match only {
                Some(o) => t == o@,
                None => match keep_type {
                    None => true,
                    Some(v) => texts(v@).contains(t),
                },
            }),
        ensures
            final(graph).holds(apply_ops(empty_graph(), dfg_all(*self, keep, self.objects@.len() as int))),
            final(graph).title == old(graph).title,
            final(graph).subtitle == old(graph).subtitle,
    {
        let mut oi: usize = 0;
        while oi < self.objects.len()
            invariant
                self.wf(),
                oi <= self.objects@.len(),
                graph.holds(apply_ops(empty_graph(), dfg_all(*self, keep, oi as int))),
                graph.title == old(graph).title,
                graph.subtitle == old(graph).subtitle,
                forall|t: Seq<char>| #[trigger] keep(t) == (match only {
                    Some(o) => t == o@,
                    None => match keep_type {
                        None => true,
                        Some(v) => texts(v@).contains(t),
                    },
                }),
            decreases self.objects.len() - oi,
        {
            proof { assert(object_ok(self.pool@.len(), self.events@.len(), self.objects@[oi as int])); }
            let ot = self.pool.resolve(self.objects[oi].type_symbol);
            let shown = match only {
                Some(o) => str_eq(ot, o),
                None => match keep_type {
                    None => true,
                    Some(v) => contains_text(v, ot),
                },
            };
            let ghost before = dfg_all(*self, keep, oi as int);
            if shown {
                self.accumulate_directly_follows_for_object(graph, oi, ot, Ghost(apply_ops(empty_graph(), before)));
                proof {
                    crate::graph::lemma_apply_ops_concat(empty_graph(), before, dfg_ops(*self, self.objects@[oi as int], ot@));
                }
            } else {
                proof { assert(dfg_all(*self, keep, oi + 1) =~= before); }
            }
            oi = oi + 1;
        }
    }

    /// The directly-follows graph of the lifecycles of the objects of one
    /// type.
    pub fn directly_follows_graph_json(&self, object_type: &str) -> (r: Result<GraphAccumulator, OcelError>)
        requires
            self.wf(),
        ensures
            match r {
                Ok(gr) => has_object_type(*self, object_type@)
                    && gr.title@ == "Directly-Follows Graph: "@ + object_type@
                    && gr.subtitle@ == "Flattened over "@ + object_type@ + " object lifecycles"@
                    && gr.holds(layout_filtered(
                        apply_ops(empty_graph(), dfg_all(*self, |t: Seq<char>| t == object_type@, self.objects@.len() as int)),
                        no_threshold(),
                    )),
                Err(e) => !has_object_type(*self, object_type@) && e.message@ == "unknown leading object type '"@ + object_type@ + "'"@,
            },
    {
        if self.object_type_symbol(object_type).is_none() {
            let mut m = owned("unknown leading object type '");
            push_text(&mut m, object_type);
            push_text(&mut m, "'");
            return Err(OcelError::new(m));
        }
        let mut title = owned("Directly-Follows Graph: ");
        push_text(&mut title, object_type);
        let mut subtitle = owned("Flattened over ");
        push_text(&mut subtitle, object_type);
        push_text(&mut subtitle, " object lifecycles");
        let mut graph = GraphAccumulator::new(title, subtitle);
        let ghost keep = |t: Seq<char>| t == object_type@;
        self.accumulate_all(&mut graph, None, Some(object_type), Ghost(keep));
        let lf = GraphLayoutFilter { min_activity_frequency: 0, min_path_frequency: 0 };
        graph.apply_layout_filter(&lf, Ghost(apply_ops(empty_graph(), dfg_all(*self, keep, self.objects@.len() as int))));
        Ok(graph)
    }

    /// The object-centric directly-follows graph of the object types a
    /// request shows, with its frequency thresholds applied.
    pub fn filtered_object_centric_directly_follows_graph_json(&self, req: &GraphFilterRequest) -> (gr: GraphAccumulator)
        requires
            self.wf(),
        ensures
            gr.title@ == "Object-Centric Directly-Follows Graph"@,
            gr.subtitle@ == "Flattened over selected object types with typed lifecycle edges"@,
            gr.holds(layout_filtered(
                apply_ops(empty_graph(), dfg_all(*self, |t: Seq<char>| shows_type(*req, t), self.objects@.len() as int)),
                req.layout_filter_view(),
            )),
    {
        let mut graph = GraphAccumulator::new(
            owned("Object-Centric Directly-Follows Graph"),
            owned("Flattened over selected object types with typed lifecycle edges"),
        );
        let ghost keep = |t: Seq<char>| shows_type(*req, t);
        let kt = match &req.object_types {
            Some(v) => Some(v),
            None => None,
        };
        self.accumulate_all(&mut graph, kt, None, Ghost(keep));
        let lf = req.layout_filter();
        graph.apply_layout_filter(&lf, Ghost(apply_ops(empty_graph(), dfg_all(*self, keep, self.objects@.len() as int))));
        graph
    }

    /// The object-centric directly-follows graph of all object types.
    pub fn object_centric_directly_follows_graph_json(&self) -> (gr: GraphAccumulator)
        requires
            self.wf(),
        ensures
            gr.title@ == "Object-Centric Directly-Follows Graph"@,
            gr.subtitle@ == "Flattened over selected object types with typed lifecycle edges"@,
            gr.holds(layout_filtered(
                apply_ops(empty_graph(), dfg_all(*self, |t: Seq<char>| true, self.objects@.len() as int)),
                no_threshold(),
            )),
    {
        let req = GraphFilterRequest::all();
        let gr = self.filtered_object_centric_directly_follows_graph_json(&req);
        proof {
            let k1 = |t: Seq<char>| shows_type(req, t);
            let k2 = |t: Seq<char>| true;
            assert(k1 =~= k2);
        }
        gr
    }
}

impl GraphFilterRequest {
    pub open spec fn layout_filter_view(self) -> GraphLayoutFilter {
        GraphLayoutFilter { min_activity_frequency: self.min_activity_frequency, min_path_frequency: self.min_path_frequency }
    }
}

impl CompactOcelLog {
    /// The state-aware object-centric directly-follows graph of the object
    /// types a request shows, with its frequency thresholds applied.
    pub fn filtered_state_aware_ocdfg_json(&self, req: &GraphFilterRequest) -> (r: Result<GraphAccumulator, OcelError>)
        requires
            self.wf(),
        ensures
            match r {
                Ok(gr) => symbol_of(*self, "state"@) matches Some(st)
                    && gr.title@ == "State-Aware Object-Centric Directly-Follows Graph"@
                    && gr.subtitle@ == "State-enriched lifecycles collated across object types"@
                    && gr.holds(layout_filtered(
                        apply_ops(empty_graph(), state_aware_all(*self, |t: Seq<char>| shows_type(*req, t), st, self.objects@.len() as int)),
                        req.layout_filter_view(),
                    )),
                Err(e) => symbol_of(*self, "state"@) is None && e.message@ == "event state attribute is missing; apply a state query first"@,
            },
    {
        let st = match self.symbol_for_value("state") {
            Some(st) => st,
            None => return Err(OcelError::new(owned("event state attribute is missing; apply a state query first"))),
        };
        let mut graph = GraphAccumulator::new(
            owned("State-Aware Object-Centric Directly-Follows Graph"),
            owned("State-enriched lifecycles collated across object types"),
        );
        let ghost keep = |t: Seq<char>| shows_type(*req, t);
        let mut oi: usize = 0;
        while oi < self.objects.len()
            invariant
                self.wf(),
                oi <= self.objects@.len(),
                keep == |t: Seq<char>| shows_type(*req, t),
                graph.holds(apply_ops(empty_graph(), state_aware_all(*self, keep, st, oi as int))),
                graph.title@ == "State-Aware Object-Centric Directly-Follows Graph"@,
                graph.subtitle@ == "State-enriched lifecycles collated across object types"@,
            decreases self.objects.len() - oi,
        {
            proof { assert(object_ok(self.pool@.len(), self.events@.len(), self.objects@[oi as int])); }
            let ot = self.pool.resolve(self.objects[oi].type_symbol);
            let shown = match &req.object_types {
                None => true,
                Some(v) => contains_text(v, ot),
            };
            let ghost before = state_aware_all(*self, keep, st, oi as int);
            if shown {
                self.accumulate_state_aware_directly_follows_for_object(&mut graph, oi, ot, st, Ghost(apply_ops(empty_graph(), before)));
                proof {
                    crate::graph::lemma_apply_ops_concat(empty_graph(), before, state_aware_ops(*self, self.objects@[oi as int], ot@, st));
                }
            } else {
                proof { assert(state_aware_all(*self, keep, st, oi + 1) =~= before); }
            }
            oi = oi + 1;
        }
        let lf = req.layout_filter();
        graph.apply_layout_filter(&lf, Ghost(apply_ops(empty_graph(), state_aware_all(*self, keep, st, self.objects@.len() as int))));
        Ok(graph)
    }

    /// The state-aware object-centric directly-follows graph of all object
    /// types.
    pub fn state_aware_ocdfg_json(&self) -> (r: Result<GraphAccumulator, OcelError>)
        requires
            self.wf(),
        ensures
            match r {
                Ok(gr) => symbol_of(*self, "state"@) matches Some(st)
                    && gr.title@ == "State-Aware Object-Centric Directly-Follows Graph"@
                    && gr.subtitle@ == "State-enriched lifecycles collated across object types"@
                    && gr.holds(layout_filtered(
                        apply_ops(empty_graph(), state_aware_all(*self, |t: Seq<char>| true, st, self.objects@.len() as int)),
                        no_threshold(),
                    )),
                Err(e) => symbol_of(*self, "state"@) is None && e.message@ == "event state attribute is missing; apply a state query first"@,
            },
    {
        let req = GraphFilterRequest::all();
        let r = self.filtered_state_aware_ocdfg_json(&req);
        proof {
            let k1 = |t: Seq<char>| shows_type(req, t);
            let k2 = |t: Seq<char>| true;
            assert(k1 =~= k2);
        }
        r
    }
}

} // verus!
