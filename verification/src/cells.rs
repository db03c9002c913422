use vstd::prelude::*;
use crate::model::{CompactOcelLog, event_ok, object_ok};
use crate::text::{owned, push_text, count_to_text, nat_digits};
use crate::graph::{GraphAccumulator, GraphOp, GraphView, apply_ops, empty_graph, lemma_apply_ops_concat};
use crate::dfg::sequence_ops;
use crate::filter::lc_types;
use crate::votes::{Cell, cell_label, cell_text};
use crate::error::OcelError;
use crate::counting::clamp_usize;
use crate::sorting::{sort_by, sorted_by, strict_order, lemma_permutes_members, lemma_permutes_distinct};
use crate::log_ops::{has_object_type, symbol_of};

verus! {

/// A window of a state detection run: the object it was cut from and the
/// positions of its events.
pub struct StateWindow {
    pub object_index: usize,
    pub event_indices: Vec<usize>,
}

/// Every window points at an object and at events of the log.
pub open spec fn windows_ok(log: CompactOcelLog, ws: Seq<StateWindow>) -> bool {
    forall|w: int| 0 <= w < ws.len() ==> (#[trigger] ws[w]).object_index < log.objects@.len()
        && forall|k: int| 0 <= k < ws[w].event_indices@.len() ==> #[trigger] ws[w].event_indices@[k] < log.events@.len()
}

/// Steps of the non-empty windows among the first `k` that were assigned
/// to `cell`.
pub open spec fn cell_ops(log: CompactOcelLog, ws: Seq<StateWindow>, cells: Seq<Cell>, cell: Cell, ot: Seq<char>, k: int) -> Seq<GraphOp>
    decreases k,
{
    if k <= 0 {
        Seq::empty()
    } else {
        cell_ops(log, ws, cells, cell, ot, k - 1) + if cells[k - 1] == cell && ws[k - 1].event_indices@.len() > 0 {
            sequence_ops(log, ws[k - 1].event_indices@, ot)
        } else {
            Seq::empty()
        }
    }
}

/// Steps of the windows listed among the first `k` of `idx` (positions past
/// the windows are skipped).
pub open spec fn listed_ops(log: CompactOcelLog, ws: Seq<StateWindow>, idx: Seq<usize>, ot: Seq<char>, k: int) -> Seq<GraphOp>
    decreases k,
{
    if k <= 0 {
        Seq::empty()
    } else {
        listed_ops(log, ws, idx, ot, k - 1) + if idx[k - 1] < ws.len() {
            sequence_ops(log, ws[idx[k - 1] as int].event_indices@, ot)
        } else {
            Seq::empty()
        }
    }
}

/// The title of the graph of a cell.
pub open spec fn cell_title(x: usize, y: usize) -> Seq<char> {
    "State Detection Cell S"@ + nat_digits(x as nat + 1) + "-"@ + nat_digits(y as nat + 1)
}

impl CompactOcelLog {
    /// The directly-follows graph over the non-empty windows assigned to a
    /// cell, typed by the object type of the first window.
    pub fn state_detection_cell_dfg(&self, windows: &Vec<StateWindow>, cells: &Vec<Cell>, cell_x: usize, cell_y: usize) -> (r: GraphAccumulator)
        requires
            self.wf(),
            windows_ok(*self, windows@),
            windows@.len() > 0,
            cell_x < usize::MAX,
            cell_y < usize::MAX,
        ensures
            r.title@ == cell_title(cell_x, cell_y),
            r.subtitle@ == "Directly-follows graph over windows assigned to the selected SOM cell"@,
            r.holds(apply_ops(empty_graph(), cell_ops(
                *self,
                windows@,
                cells@,
                (cell_x, cell_y),
                self.text(self.objects@[windows@[0].object_index as int].type_symbol),
                if windows@.len() < cells@.len() { windows@.len() as int } else { cells@.len() as int },
            ))),
    {
        let mut title = owned("State Detection Cell S");
        push_text(&mut title, count_to_text(cell_x + 1).as_str());
        push_text(&mut title, "-");
        push_text(&mut title, count_to_text(cell_y + 1).as_str());
        proof {
            reveal_strlit("State Detection Cell S");
            reveal_strlit("-");
            reveal_strlit("Directly-follows graph over windows assigned to the selected SOM cell");
        }
        let mut graph = GraphAccumulator::new(title, owned("Directly-follows graph over windows assigned to the selected SOM cell"));
        proof {
            assert(object_ok(self.pool@.len(), self.events@.len(), self.objects@[windows@[0].object_index as int]));
        }
        let ot = self.pool.resolve(self.objects[windows[0].object_index].type_symbol);
        let n = if windows.len() < cells.len() { windows.len() } else { cells.len() };
        let ghost target: Cell = (cell_x, cell_y);
        proof {
            assert(empty_graph() == GraphView { nodes: Map::empty(), edges: Map::empty(), types: Seq::empty() });
            assert(apply_ops(empty_graph(), Seq::empty()) == empty_graph()) by { reveal_with_fuel(apply_ops, 1); }
        }
        let mut w: usize = 0;
        while w < n
            invariant
                self.wf(),
                windows_ok(*self, windows@),
                n <= windows@.len(),
                n <= cells@.len(),
                target == (cell_x, cell_y),
                w <= n,
                graph.holds(apply_ops(empty_graph(), cell_ops(*self, windows@, cells@, target, ot@, w as int))),
                graph.title@ == cell_title(cell_x, cell_y),
                graph.subtitle@ == "Directly-follows graph over windows assigned to the selected SOM cell"@,
            decreases n - w,
        {
            let ghost before = cell_ops(*self, windows@, cells@, target, ot@, w as int);
            let c = cells[w];
            let win = &windows[w];
            if c.0 == cell_x && c.1 == cell_y && win.event_indices.len() > 0 {
                proof {
                    assert(windows_ok(*self, windows@));
                    assert(windows@[w as int] == *win);
                }
                self.accumulate_sequence(&mut graph, &win.event_indices, ot, Ghost(apply_ops(empty_graph(), before)));
                proof {
                    lemma_apply_ops_concat(empty_graph(), before, sequence_ops(*self, win.event_indices@, ot@));
                }
            } else {
                proof {
                    assert(cell_ops(*self, windows@, cells@, target, ot@, w + 1) =~= before);
                }
            }
            w = w + 1;
        }
        graph
    }

    /// The directly-follows graph over the listed windows, typed by the
    /// object type of the first window.
    pub fn state_detection_windows_dfg(
        &self,
        windows: &Vec<StateWindow>,
        indices: &Vec<usize>,
        title: String,
        subtitle: String,
    ) -> (r: GraphAccumulator)
        requires
            self.wf(),
            windows_ok(*self, windows@),
            windows@.len() > 0,
        ensures
            r.title@ == title@,
            r.subtitle@ == subtitle@,
            r.holds(apply_ops(empty_graph(), listed_ops(
                *self,
                windows@,
                indices@,
                self.text(self.objects@[windows@[0].object_index as int].type_symbol),
                indices@.len() as int,
            ))),
    {
        let mut graph = GraphAccumulator::new(title, subtitle);
        proof {
            assert(object_ok(self.pool@.len(), self.events@.len(), self.objects@[windows@[0].object_index as int]));
            assert(apply_ops(empty_graph(), Seq::empty()) == empty_graph()) by { reveal_with_fuel(apply_ops, 1); }
        }
        let ot = self.pool.resolve(self.objects[windows[0].object_index].type_symbol);
        let ghost t0 = graph.title;
        let ghost s0 = graph.subtitle;
        let mut k: usize = 0;
        while k < indices.len()
            invariant
                self.wf(),
                windows_ok(*self, windows@),
                k <= indices@.len(),
                graph.holds(apply_ops(empty_graph(), listed_ops(*self, windows@, indices@, ot@, k as int))),
                graph.title == t0,
                graph.subtitle == s0,
            decreases indices.len() - k,
        {
            let ghost before = listed_ops(*self, windows@, indices@, ot@, k as int);
            let i = indices[k];
            if i < windows.len() {
                let win = &windows[i];
                proof {
                    assert(windows@[i as int] == *win);
                }
                self.accumulate_sequence(&mut graph, &win.event_indices, ot, Ghost(apply_ops(empty_graph(), before)));
                proof {
                    lemma_apply_ops_concat(empty_graph(), before, sequence_ops(*self, win.event_indices@, ot@));
                }
            } else {
                proof {
                    assert(listed_ops(*self, windows@, indices@, ot@, k + 1) =~= before);
                }
            }
            k = k + 1;
        }
        graph
    }
}


/// The windows that enter (`entering`) or leave a cell: among the first
/// `k` windows, each window whose object is that of the window before it
/// and whose cell differs from that window's, as (window, source cell,
/// target cell); an entering window is the later one of the pair, a leaving
/// window the earlier one.
pub open spec fn boundary_list(ws: Seq<StateWindow>, cells: Seq<Cell>, cell: Cell, entering: bool, k: int) -> Seq<(int, Cell, Cell)>
    decreases k,
{
    if k <= 1 {
        Seq::empty()
    } else {
        let r = boundary_list(ws, cells, cell, entering, k - 1);
        let i = k - 1;
        let src = cells[i - 1];
        let tgt = cells[i];
        if ws[i - 1].object_index == ws[i].object_index && src != tgt {
            if entering && tgt == cell {
                r.push((i, src, tgt))
            } else if !entering && src == cell {
                r.push((i - 1, src, tgt))
            } else {
                r
            }
        } else {
            r
        }
    }
}

/// A window at the border of a cell: the window, its object, its first and
/// last event, the cells it moves between and its activities.
pub struct BoundaryWindow {
    pub window_index: usize,
    pub object_id: String,
    pub start_event: String,
    pub end_event: String,
    pub source_cell: String,
    pub target_cell: String,
    pub activities: Vec<String>,
}

/// The windows at the border of a cell.
pub struct BoundaryWindows {
    pub entering: Vec<BoundaryWindow>,
    pub exiting: Vec<BoundaryWindow>,
    pub entering_indices: Vec<usize>,
    pub exiting_indices: Vec<usize>,
}

/// `b` describes window `e.0` moving from cell `e.1` to cell `e.2`.
pub open spec fn describes(log: CompactOcelLog, ws: Seq<StateWindow>, e: (int, Cell, Cell), b: BoundaryWindow) -> bool {
    let w = ws[e.0];
    let evs = w.event_indices@;
    &&& b.window_index == e.0
    &&& b.object_id@ == log.text(log.objects@[w.object_index as int].id)
    &&& b.start_event@ == if evs.len() == 0 { Seq::empty() } else { log.text(log.events@[evs[0] as int].id) }
    &&& b.end_event@ == if evs.len() == 0 { Seq::empty() } else { log.text(log.events@[evs.last() as int].id) }
    &&& b.source_cell@ == cell_text(e.1.0, e.1.1)
    &&& b.target_cell@ == cell_text(e.2.0, e.2.1)
    &&& b.activities@.map_values(|t: String| t@) == lc_types(log, evs)
}

/// `v` describes the first (at most 100) entries of `list`, and `idx` lists
/// the windows of all of them.
pub open spec fn boundary_ok(log: CompactOcelLog, ws: Seq<StateWindow>, list: Seq<(int, Cell, Cell)>, v: Seq<BoundaryWindow>, idx: Seq<usize>) -> bool {
    &&& idx.len() == list.len()
    &&& forall|j: int| 0 <= j < idx.len() ==> #[trigger] idx[j] as int == list[j].0
    &&& v.len() == if list.len() < 100 { list.len() } else { 100 }
    &&& forall|j: int| 0 <= j < v.len() ==> describes(log, ws, list[j], #[trigger] v[j])
}

impl CompactOcelLog {
    /// Describes a window moving between two cells.
    fn boundary_window(&self, windows: &Vec<StateWindow>, index: usize, source: Cell, target: Cell) -> (b: BoundaryWindow)
        requires
            self.wf(),
            windows_ok(*self, windows@),
            index < windows@.len(),
            source.0 < usize::MAX && source.1 < usize::MAX,
            target.0 < usize::MAX && target.1 < usize::MAX,
        ensures
            describes(*self, windows@, (index as int, source, target), b),
    {
        let w = &windows[index];
        proof {
            assert(windows_ok(*self, windows@));
            assert(object_ok(self.pool@.len(), self.events@.len(), self.objects@[w.object_index as int]));
            reveal_strlit("");
        }
        let evs = &w.event_indices;
        let n = evs.len();
        let start_event = if n == 0 {
            owned("")
        } else {
            proof { assert(event_ok(self.pool@.len(), self.events@[evs@[0] as int])); }
            owned(self.pool.resolve(self.events[evs[0]].id))
        };
        let end_event = if n == 0 {
            owned("")
        } else {
            proof { assert(event_ok(self.pool@.len(), self.events@[evs@[n - 1] as int])); }
            owned(self.pool.resolve(self.events[evs[n - 1]].id))
        };
        let mut activities: Vec<String> = Vec::new();
        let mut k: usize = 0;
        while k < n
            invariant
                self.wf(),
                n == evs@.len(),
                forall|q: int| 0 <= q < evs@.len() ==> #[trigger] evs@[q] < self.events@.len(),
                k <= n,
                activities@.map_values(|t: String| t@) == lc_types(*self, evs@).take(k as int),
            decreases n - k,
        {
            proof { assert(event_ok(self.pool@.len(), self.events@[evs@[k as int] as int])); }
            let ghost before = activities@;
            let t = owned(self.pool.resolve(self.events[evs[k]].type_symbol));
            activities.push(t);
            proof {
                assert(t@ == lc_types(*self, evs@)[k as int]);
                assert(activities@.map_values(|t: String| t@) =~= before.map_values(|t: String| t@).push(t@));
                assert(lc_types(*self, evs@).take(k + 1) =~= lc_types(*self, evs@).take(k as int).push(lc_types(*self, evs@)[k as int]));
            }
            k = k + 1;
        }
        proof {
            assert(lc_types(*self, evs@).take(n as int) =~= lc_types(*self, evs@));
        }
        let b = BoundaryWindow {
            window_index: index,
            object_id: owned(self.pool.resolve(self.objects[w.object_index].id)),
            start_event,
            end_event,
            source_cell: cell_label(source.0, source.1),
            target_cell: cell_label(target.0, target.1),
            activities,
        };
        proof {
            assert(b.object_id@ == self.text(self.objects@[w.object_index as int].id));
            assert(b.start_event@ == if evs@.len() == 0 { Seq::<char>::empty() } else { self.text(self.events@[evs@[0] as int].id) });
            assert(b.end_event@ == if evs@.len() == 0 { Seq::<char>::empty() } else { self.text(self.events@[evs@.last() as int].id) });
            assert(b.activities@.map_values(|t: String| t@) == lc_types(*self, evs@));
        }
        b
    }

    /// The windows entering and leaving a cell, with the first 100 of each
    /// described.
    pub fn state_detection_boundary_windows(&self, windows: &Vec<StateWindow>, cells: &Vec<Cell>, cell_x: usize, cell_y: usize) -> (r: BoundaryWindows)
        requires
            self.wf(),
            windows_ok(*self, windows@),
            cells@.len() >= windows@.len(),
            forall|w: int| 0 <= w < cells@.len() ==> #[trigger] cells@[w].0 < usize::MAX && cells@[w].1 < usize::MAX,
        ensures
            boundary_ok(*self, windows@, boundary_list(windows@, cells@, (cell_x, cell_y), true, windows@.len() as int), r.entering@, r.entering_indices@),
            boundary_ok(*self, windows@, boundary_list(windows@, cells@, (cell_x, cell_y), false, windows@.len() as int), r.exiting@, r.exiting_indices@),
    {
        let ghost cell: Cell = (cell_x, cell_y);
        let mut entering: Vec<BoundaryWindow> = Vec::new();
        let mut exiting: Vec<BoundaryWindow> = Vec::new();
        let mut entering_indices: Vec<usize> = Vec::new();
        let mut exiting_indices: Vec<usize> = Vec::new();
        let mut index: usize = 1;
        while index < windows.len()
            invariant
                self.wf(),
                windows_ok(*self, windows@),
                cells@.len() >= windows@.len(),
                forall|w: int| 0 <= w < cells@.len() ==> #[trigger] cells@[w].0 < usize::MAX && cells@[w].1 < usize::MAX,
                cell == (cell_x, cell_y),
                1 <= index,
                index <= windows@.len() || index == 1,
                boundary_ok(*self, windows@, boundary_list(windows@, cells@, cell, true, index as int), entering@, entering_indices@),
                boundary_ok(*self, windows@, boundary_list(windows@, cells@, cell, false, index as int), exiting@, exiting_indices@),
            decreases windows.len() - index,
        {
            let ghost le = boundary_list(windows@, cells@, cell, true, index as int);
            let ghost lx = boundary_list(windows@, cells@, cell, false, index as int);
            let source = cells[index - 1];
            let target = cells[index];
            let same_object = windows[index - 1].object_index == windows[index].object_index;
            let moved = source.0 != target.0 || source.1 != target.1;
            if same_object && moved {
                if target.0 == cell_x && target.1 == cell_y {
                    if entering.len() < 100 {
                        let b = self.boundary_window(windows, index, source, target);
                        entering.push(b);
                    }
                    entering_indices.push(index);
                    proof {
                        assert(boundary_list(windows@, cells@, cell, true, index + 1) == le.push((index as int, source, target)));
                    }
                } else {
                    proof {
                        assert(boundary_list(windows@, cells@, cell, true, index + 1) == le);
                    }
                }
                if source.0 == cell_x && source.1 == cell_y {
                    if exiting.len() < 100 {
                        let b = self.boundary_window(windows, index - 1, source, target);
                        exiting.push(b);
                    }
                    exiting_indices.push(index - 1);
                    proof {
                        assert(boundary_list(windows@, cells@, cell, false, index + 1) == lx.push((index - 1, source, target)));
                    }
                } else {
                    proof {
                        assert(boundary_list(windows@, cells@, cell, false, index + 1) == lx);
                    }
                }
            } else {
                proof {
                    assert(boundary_list(windows@, cells@, cell, true, index + 1) == le);
                    assert(boundary_list(windows@, cells@, cell, false, index + 1) == lx);
                }
            }
            index = index + 1;
        }
        proof {
            if windows@.len() <= 1 {
                assert(boundary_list(windows@, cells@, cell, true, windows@.len() as int) == boundary_list(windows@, cells@, cell, true, index as int));
                assert(boundary_list(windows@, cells@, cell, false, windows@.len() as int) == boundary_list(windows@, cells@, cell, false, index as int));
            }
        }
        BoundaryWindows { entering, exiting, entering_indices, exiting_indices }
    }
}

/// The windows of a lifecycle: the whole lifecycle when it has at most
/// `size` events, else every run of `size` neighbouring events.
pub open spec fn lifecycle_cuts(lc: Seq<usize>, size: nat) -> Seq<Seq<usize>> {
    if lc.len() == 0 {
        Seq::empty()
    } else if lc.len() <= size {
        seq![lc]
    } else {
        Seq::new((lc.len() - size + 1) as nat, |s: int| lc.subrange(s, s + size))
    }
}

/// The windows of the first `k` listed objects, as (object, events).
pub open spec fn windows_of(log: CompactOcelLog, objs: Seq<usize>, size: nat, k: int) -> Seq<(usize, Seq<usize>)>
    decreases k,
{
    if k <= 0 {
        Seq::empty()
    } else {
        let o = objs[k - 1];
        windows_of(log, objs, size, k - 1) + lifecycle_cuts(log.objects@[o as int].lifecycle@, size).map_values(|w: Seq<usize>| (o, w))
    }
}

/// The views of windows.
pub open spec fn windows_view(ws: Seq<StateWindow>) -> Seq<(usize, Seq<usize>)> {
    ws.map_values(|w: StateWindow| (w.object_index, w.event_indices@))
}

/// The positions of the objects of type `ot`, in order.
pub open spec fn objects_of_type(log: CompactOcelLog, ot: crate::pool::Symbol) -> Seq<int> {
    crate::counting::positions(log.objects@.len() as int, |o: int| log.objects@[o].type_symbol == ot)
}

impl CompactOcelLog {
    /// Cuts the lifecycles of the listed objects into windows of `size`
    /// events.
    pub fn lifecycle_windows(&self, objects: &Vec<usize>, size: usize) -> (r: Vec<StateWindow>)
        requires
            self.wf(),
            size >= 1,
            forall|k: int| 0 <= k < objects@.len() ==> #[trigger] objects@[k] < self.objects@.len(),
        ensures
            windows_view(r@) == windows_of(*self, objects@, size as nat, objects@.len() as int),
            windows_ok(*self, r@),
    {
        let mut out: Vec<StateWindow> = Vec::new();
        let mut k: usize = 0;
        while k < objects.len()
            invariant
                self.wf(),
                size >= 1,
                forall|q: int| 0 <= q < objects@.len() ==> #[trigger] objects@[q] < self.objects@.len(),
                k <= objects@.len(),
                windows_view(out@) == windows_of(*self, objects@, size as nat, k as int),
                windows_ok(*self, out@),
            decreases objects.len() - k,
        {
            let o = objects[k];
            let lc = &self.objects[o].lifecycle;
            let ghost base = out@;
            let ghost cuts = lifecycle_cuts(lc@, size as nat).map_values(|w: Seq<usize>| (o, w));
            proof {
                assert(object_ok(self.pool@.len(), self.events@.len(), self.objects@[o as int]));
            }
            let n = lc.len();
            if n == 0 {
                proof {
                    assert(cuts =~= Seq::<(usize, Seq<usize>)>::empty());
                    assert(windows_of(*self, objects@, size as nat, k + 1) =~= windows_of(*self, objects@, size as nat, k as int));
                }
            } else if n <= size {
                out.push(StateWindow { object_index: o, event_indices: crate::filtering::copy_vec(lc) });
                proof {
                    assert(windows_view(out@) =~= windows_view(base) + cuts);
                    assert forall|w: int| 0 <= w < out@.len() implies (#[trigger] out@[w]).object_index < self.objects@.len()
                        && forall|q: int| 0 <= q < out@[w].event_indices@.len() ==> #[trigger] out@[w].event_indices@[q] < self.events@.len() by {
                        if w < base.len() {
                            assert(out@[w] == base[w]);
                        }
                    }
                }
            } else {
                let mut start: usize = 0;
                while start <= n - size
                    invariant
                        self.wf(),
                        size >= 1,
                        n == lc@.len(),
                        n > size,
                        o < self.objects@.len(),
                        *lc == self.objects@[o as int].lifecycle,
                        forall|q: int| 0 <= q < lc@.len() ==> #[trigger] lc@[q] < self.events@.len(),
                        start <= n - size + 1,
                        windows_view(out@) == windows_view(base) + Seq::new(start as nat, |s: int| (o, lc@.subrange(s, s + size))),
                        windows_ok(*self, out@),
                        out@.len() == base.len() + start,
                        forall|w: int| 0 <= w < base.len() ==> #[trigger] out@[w] == base[w],
                        windows_ok(*self, base),
                    decreases n - start,
                {
                    let mut evs: Vec<usize> = Vec::new();
                    let mut q: usize = start;
                    while q < start + size
                        invariant
                            start + size <= n,
                            n == lc@.len(),
                            start <= q <= start + size,
                            evs@ == lc@.subrange(start as int, q as int),
                        decreases start + size - q,
                    {
                        evs.push(lc[q]);
                        assert(evs@ =~= lc@.subrange(start as int, q + 1));
                        q = q + 1;
                    }
                    let ghost before = out@;
                    out.push(StateWindow { object_index: o, event_indices: evs });
                    proof {
                        assert(evs@ == lc@.subrange(start as int, start + size));
                        assert(windows_view(out@) =~= windows_view(before).push((o, lc@.subrange(start as int, start + size))));
                        assert(windows_view(out@) =~= windows_view(base) + Seq::new((start + 1) as nat, |s: int| (o, lc@.subrange(s, s + size))));
                        assert forall|w: int| 0 <= w < out@.len() implies (#[trigger] out@[w]).object_index < self.objects@.len()
                            && forall|x: int| 0 <= x < out@[w].event_indices@.len() ==> #[trigger] out@[w].event_indices@[x] < self.events@.len() by {
                            if w < before.len() {
                                assert(out@[w] == before[w]);
                            } else {
                                assert forall|x: int| 0 <= x < out@[w].event_indices@.len() implies #[trigger] out@[w].event_indices@[x] < self.events@.len() by {
                                    assert(out@[w].event_indices@[x] == lc@[start + x]);
                                }
                            }
                        }
                    }
                    start = start + 1;
                }
                proof {
                    assert(Seq::new(start as nat, |s: int| (o, lc@.subrange(s, s + size))) =~= cuts);
                }
            }
            k = k + 1;
        }
        out
    }

    /// The positions of the objects of the named type, for a state
    /// detection run.
    pub fn state_detection_objects(&self, object_type: &str) -> (r: Result<Vec<usize>, OcelError>)
        requires
            self.wf(),
        ensures
            match r {
                Ok(v) => has_object_type(*self, object_type@) && (symbol_of(*self, object_type@) matches Some(ot)
                    && v@.map_values(|o: usize| o as int) == objects_of_type(*self, ot) && v@.len() > 0),
                Err(e) => if !has_object_type(*self, object_type@) {
                    e.message@ == "unknown object type '"@ + object_type@ + "' for state detection"@
                } else {
                    (symbol_of(*self, object_type@) matches Some(ot) && objects_of_type(*self, ot).len() == 0)
                        && e.message@ == "no objects of type '"@ + object_type@ + "' are available in the active log"@
                },
            },
    {
        proof {
            reveal_strlit("unknown object type '");
            reveal_strlit("' for state detection");
            reveal_strlit("no objects of type '");
            reveal_strlit("' are available in the active log");
        }
        let ot = match self.object_type_symbol(object_type) {
            Some(s) => s,
            None => {
                let mut m = owned("unknown object type '");
                push_text(&mut m, object_type);
                push_text(&mut m, "' for state detection");
                return Err(OcelError::new(m));
            },
        };
        proof {
            self.pool.lemma_wf_distinct();
            assert(self.pool@.contains(object_type@)) by {
                assert(self.pool@[ot.0 as int] == object_type@);
            }
            let c = choose|i: int| 0 <= i < self.pool@.len() && self.pool@[i] == object_type@;
            if c != ot.0 as int {
                if c < ot.0 as int {
                    assert(self.pool@[c] != self.pool@[ot.0 as int]);
                } else {
                    assert(self.pool@[ot.0 as int] != self.pool@[c]);
                }
            }
            assert(symbol_of(*self, object_type@) == Some(ot));
        }
        let ghost p = |o: int| self.objects@[o].type_symbol == ot;
        let mut v: Vec<usize> = Vec::new();
        let mut i: usize = 0;
        while i < self.objects.len()
            invariant
                i <= self.objects@.len(),
                p == |o: int| self.objects@[o].type_symbol == ot,
                v@.map_values(|o: usize| o as int) == crate::counting::positions(i as int, p),
            decreases self.objects.len() - i,
        {
            if self.objects[i].type_symbol == ot {
                v.push(i);
            }
            proof {
                assert(v@.map_values(|o: usize| o as int) =~= crate::counting::positions(i + 1, p));
            }
            i = i + 1;
        }
        if v.len() == 0 {
            let mut m = owned("no objects of type '");
            push_text(&mut m, object_type);
            push_text(&mut m, "' are available in the active log");
            return Err(OcelError::new(m));
        }
        Ok(v)
    }
}

/// The moves between cells of neighbouring windows of the same object among
/// the first `k` windows.
pub open spec fn cell_moves(ws: Seq<StateWindow>, cells: Seq<Cell>, k: int) -> Seq<(Cell, Cell)>
    decreases k,
{
    if k <= 1 {
        Seq::empty()
    } else {
        let r = cell_moves(ws, cells, k - 1);
        let i = k - 1;
        if ws[i - 1].object_index == ws[i].object_index && cells[i - 1] != cells[i] {
            r.push((cells[i - 1], cells[i]))
        } else {
            r
        }
    }
}

/// How often `m` occurs in `s`.
pub open spec fn move_count(s: Seq<(Cell, Cell)>, m: (Cell, Cell)) -> nat
    decreases s.len(),
{
    if s.len() == 0 {
        0
    } else {
        move_count(s.drop_last(), m) + if s.last() == m { 1nat } else { 0nat }
    }
}

/// The grid distance between two cells (saturated).
pub open spec fn grid_distance(a: Cell, b: Cell) -> usize {
    let dx = if a.0 >= b.0 { a.0 - b.0 } else { b.0 - a.0 };
    let dy = if a.1 >= b.1 { a.1 - b.1 } else { b.1 - a.1 };
    clamp_usize((dx + dy) as nat)
}

/// A move between two cells with how often windows made it.
pub struct SomTransition {
    pub source: Cell,
    pub target: Cell,
    pub count: usize,
    pub distance: usize,
    pub nearby: bool,
}

/// More frequent moves first, then shorter, then by source row and
/// column, then by target column and row.
pub open spec fn move_before(a: SomTransition, b: SomTransition) -> bool {
    a.count > b.count || (a.count == b.count && (a.distance < b.distance || (a.distance == b.distance
        && (a.source.1 < b.source.1 || (a.source.1 == b.source.1 && (a.source.0 < b.source.0 || (a.source.0 == b.source.0
        && (a.target.0 < b.target.0 || (a.target.0 == b.target.0 && a.target.1 < b.target.1)))))))))
}

fn move_precedes(a: &SomTransition, b: &SomTransition) -> (r: bool)
    ensures
        r == move_before(*a, *b),
{
    a.count > b.count || (a.count == b.count && (a.distance < b.distance || (a.distance == b.distance
        && (a.source.1 < b.source.1 || (a.source.1 == b.source.1 && (a.source.0 < b.source.0 || (a.source.0 == b.source.0
        && (a.target.0 < b.target.0 || (a.target.0 == b.target.0 && a.target.1 < b.target.1)))))))))
}

/// `rows` lists each move of `s` once, with its count, grid distance and
/// whether it is at most one step, ordered by `move_before`.
pub open spec fn moves_ok(rows: Seq<SomTransition>, s: Seq<(Cell, Cell)>) -> bool {
    &&& forall|i: int, j: int| 0 <= i < j < rows.len() ==> (#[trigger] rows[i].source, rows[i].target) != (#[trigger] rows[j].source, rows[j].target)
    &&& forall|i: int| 0 <= i < rows.len() ==> s.contains(((#[trigger] rows[i]).source, rows[i].target))
    &&& forall|m: (Cell, Cell)| #[trigger] s.contains(m) ==> exists|i: int| 0 <= i < rows.len() && (rows[i].source, rows[i].target) == m
    &&& forall|i: int| 0 <= i < rows.len() ==> {
        let r = #[trigger] rows[i];
        &&& r.count == move_count(s, (r.source, r.target))
        &&& r.distance == grid_distance(r.source, r.target)
        &&& r.nearby == (r.distance <= 1)
    }
    &&& sorted_by(rows, |a: SomTransition, b: SomTransition| move_before(a, b))
}

proof fn lemma_move_count_bound(s: Seq<(Cell, Cell)>, m: (Cell, Cell))
    ensures
        move_count(s, m) <= s.len(),
        move_count(s, m) > 0 <==> s.contains(m),
    decreases s.len(),
{
    if s.len() > 0 {
        lemma_move_count_bound(s.drop_last(), m);
        if s.drop_last().contains(m) {
            let i = choose|i: int| 0 <= i < s.drop_last().len() && s.drop_last()[i] == m;
            assert(s[i] == m);
        }
        if s.contains(m) && s.last() != m {
            let i = choose|i: int| 0 <= i < s.len() && s[i] == m;
            assert(s.drop_last()[i] == m);
        }
        if s.last() == m {
            assert(s[s.len() - 1] == m);
        }
    }
}

proof fn lemma_move_order()
    ensures
        strict_order(|a: SomTransition, b: SomTransition| move_before(a, b)),
{
}

/// The moves of windows between cells, counted and ordered.
pub fn som_transitions(windows: &Vec<StateWindow>, cells: &Vec<Cell>) -> (r: Vec<SomTransition>)
    requires
        cells@.len() >= windows@.len(),
    ensures
        moves_ok(r@, cell_moves(windows@, cells@, windows@.len() as int)),
{
    let mut rows: Vec<SomTransition> = Vec::new();
    let mut k: usize = 1;
    while k < windows.len()
        invariant
            cells@.len() >= windows@.len(),
            1 <= k,
            k <= windows@.len() || k == 1,
            forall|i: int, j: int| 0 <= i < j < rows@.len() ==> (#[trigger] rows@[i].source, rows@[i].target) != (#[trigger] rows@[j].source, rows@[j].target),
            forall|i: int| 0 <= i < rows@.len() ==> cell_moves(windows@, cells@, k as int).contains(((#[trigger] rows@[i]).source, rows@[i].target)),
            forall|m: (Cell, Cell)| #[trigger] cell_moves(windows@, cells@, k as int).contains(m) ==> exists|i: int| 0 <= i < rows@.len() && (rows@[i].source, rows@[i].target) == m,
            forall|i: int| 0 <= i < rows@.len() ==> {
                let r = #[trigger] rows@[i];
                &&& r.count == move_count(cell_moves(windows@, cells@, k as int), (r.source, r.target))
                &&& r.distance == grid_distance(r.source, r.target)
                &&& r.nearby == (r.distance <= 1)
            },
            cell_moves(windows@, cells@, k as int).len() <= k,
        decreases windows.len() - k,
    {
        let ghost s0 = cell_moves(windows@, cells@, k as int);
        let a = cells[k - 1];
        let b = cells[k];
        if windows[k - 1].object_index == windows[k].object_index && (a.0 != b.0 || a.1 != b.1) {
            let ghost m = (a, b);
            let ghost s1 = s0.push(m);
            assert(cell_moves(windows@, cells@, k + 1) == s1);
            proof {
                assert forall|x: (Cell, Cell)| s1.contains(x) == (s0.contains(x) || x == m) by {
                    if s1.contains(x) && x != m {
                        let i = choose|i: int| 0 <= i < s1.len() && s1[i] == x;
                        assert(s0[i] == x);
                    }
                    if s0.contains(x) {
                        let i = choose|i: int| 0 <= i < s0.len() && s0[i] == x;
                        assert(s1[i] == x);
                    }
                    if x == m {
                        assert(s1[s0.len() as int] == x);
                    }
                }
                assert(s1.drop_last() == s0);
            }
            let mut i: usize = 0;
            let mut found = false;
            while i < rows.len()
                invariant
                    i <= rows@.len(),
                    forall|j: int| 0 <= j < i ==> (#[trigger] rows@[j].source, rows@[j].target) != m,
                    found ==> i < rows@.len() && (rows@[i as int].source, rows@[i as int].target) == m,
                    m == (a, b),
                ensures
                    forall|j: int| 0 <= j < i ==> (#[trigger] rows@[j].source, rows@[j].target) != m,
                    found ==> i < rows@.len() && (rows@[i as int].source, rows@[i as int].target) == m,
                    !found ==> i == rows@.len(),
                decreases rows.len() - i,
            {
                let r = &rows[i];
                if r.source.0 == a.0 && r.source.1 == a.1 && r.target.0 == b.0 && r.target.1 == b.1 {
                    found = true;
                    break;
                }
                i = i + 1;
            }
            let ghost before = rows@;
            if found {
                proof { lemma_move_count_bound(s0, m); }
                let old_row = &rows[i];
                let row = SomTransition {
                    source: old_row.source,
                    target: old_row.target,
                    count: old_row.count + 1,
                    distance: old_row.distance,
                    nearby: old_row.nearby,
                };
                rows.set(i, row);
                proof {
                    assert forall|j: int| 0 <= j < rows@.len() implies {
                        let r = #[trigger] rows@[j];
                        &&& r.count == move_count(s1, (r.source, r.target))
                        &&& r.distance == grid_distance(r.source, r.target)
                        &&& r.nearby == (r.distance <= 1)
                    } by {
                        if j != i {
                            assert(rows@[j] == before[j]);
                            if j < i {
                                assert((before[j].source, before[j].target) != m);
                            } else {
                                assert((before[i as int].source, before[i as int].target) != (before[j].source, before[j].target));
                            }
                        }
                    }
                    assert forall|x: int, y: int| 0 <= x < y < rows@.len() implies (#[trigger] rows@[x].source, rows@[x].target) != (#[trigger] rows@[y].source, rows@[y].target) by {
                        assert((before[x].source, before[x].target) != (before[y].source, before[y].target));
                    }
                    assert forall|j: int| 0 <= j < rows@.len() implies s1.contains(((#[trigger] rows@[j]).source, rows@[j].target)) by {
                        assert(s0.contains((before[j].source, before[j].target)));
                    }
                    assert forall|x: (Cell, Cell)| #[trigger] s1.contains(x) implies exists|j: int| 0 <= j < rows@.len() && (rows@[j].source, rows@[j].target) == x by {
                        if x != m {
                            let j = choose|j: int| 0 <= j < before.len() && (before[j].source, before[j].target) == x;
                            assert((rows@[j].source, rows@[j].target) == x);
                        } else {
                            assert((rows@[i as int].source, rows@[i as int].target) == x);
                        }
                    }
                }
            } else {
                let dx = if a.0 >= b.0 { a.0 - b.0 } else { b.0 - a.0 };
                let dy = if a.1 >= b.1 { a.1 - b.1 } else { b.1 - a.1 };
                let distance = dx.saturating_add(dy);
                proof {
                    assert(!s0.contains(m)) by {
                        if s0.contains(m) {
                            let j = choose|j: int| 0 <= j < before.len() && (before[j].source, before[j].target) == m;
                        }
                    }
                    lemma_move_count_bound(s0, m);
                }
                rows.push(SomTransition { source: a, target: b, count: 1, distance, nearby: distance <= 1 });
                proof {
                    assert forall|j: int| 0 <= j < rows@.len() implies {
                        let r = #[trigger] rows@[j];
                        &&& r.count == move_count(s1, (r.source, r.target))
                        &&& r.distance == grid_distance(r.source, r.target)
                        &&& r.nearby == (r.distance <= 1)
                    } by {
                        if j < before.len() {
                            assert(rows@[j] == before[j]);
                            assert(s0.contains((before[j].source, before[j].target)));
                        }
                    }
                    assert forall|x: int, y: int| 0 <= x < y < rows@.len() implies (#[trigger] rows@[x].source, rows@[x].target) != (#[trigger] rows@[y].source, rows@[y].target) by {
                        if y < before.len() {
                            assert((before[x].source, before[x].target) != (before[y].source, before[y].target));
                        } else {
                            assert(s0.contains((before[x].source, before[x].target)));
                        }
                    }
                    assert forall|j: int| 0 <= j < rows@.len() implies s1.contains(((#[trigger] rows@[j]).source, rows@[j].target)) by {
                        if j < before.len() {
                            assert(s0.contains((before[j].source, before[j].target)));
                        }
                    }
                    assert forall|x: (Cell, Cell)| #[trigger] s1.contains(x) implies exists|j: int| 0 <= j < rows@.len() && (rows@[j].source, rows@[j].target) == x by {
                        if x != m {
                            let j = choose|j: int| 0 <= j < before.len() && (before[j].source, before[j].target) == x;
                            assert((rows@[j].source, rows@[j].target) == x);
                        } else {
                            assert((rows@[before.len() as int].source, rows@[before.len() as int].target) == x);
                        }
                    }
                }
            }
        } else {
            assert(cell_moves(windows@, cells@, k + 1) == s0);
        }
        k = k + 1;
    }
    proof {
        if windows@.len() <= 1 {
            assert(cell_moves(windows@, cells@, windows@.len() as int) == cell_moves(windows@, cells@, k as int));
        }
        lemma_move_order();
    }
    let ghost u = rows@;
    let ghost s = cell_moves(windows@, cells@, windows@.len() as int);
    let sorted = sort_by(rows, move_precedes, Ghost(|a: SomTransition, b: SomTransition| move_before(a, b)));
    proof {
        lemma_permutes_members(sorted@, u);
        assert forall|a: int, b: int| 0 <= a < b < u.len() implies (|r: SomTransition| (r.source, r.target))(#[trigger] u[a])
            != (|r: SomTransition| (r.source, r.target))(#[trigger] u[b]) by {}
        lemma_permutes_distinct(sorted@, u, |r: SomTransition| (r.source, r.target));
        assert forall|x: int, y: int| 0 <= x < y < sorted@.len() implies (#[trigger] sorted@[x].source, sorted@[x].target) != (#[trigger] sorted@[y].source, sorted@[y].target) by {
            assert((|r: SomTransition| (r.source, r.target))(sorted@[x]) != (|r: SomTransition| (r.source, r.target))(sorted@[y]));
        }
        assert forall|x: int| 0 <= x < sorted@.len() implies s.contains(((#[trigger] sorted@[x]).source, sorted@[x].target)) by {
            assert(u.contains(sorted@[x]));
            let j = choose|j: int| 0 <= j < u.len() && u[j] == sorted@[x];
        }
        assert forall|m: (Cell, Cell)| #[trigger] s.contains(m) implies exists|x: int| 0 <= x < sorted@.len() && (sorted@[x].source, sorted@[x].target) == m by {
            let j = choose|j: int| 0 <= j < u.len() && (u[j].source, u[j].target) == m;
            assert(sorted@.contains(u[j]));
            let x = choose|x: int| 0 <= x < sorted@.len() && sorted@[x] == u[j];
        }
        assert forall|x: int| 0 <= x < sorted@.len() implies {
            let r = #[trigger] sorted@[x];
            &&& r.count == move_count(s, (r.source, r.target))
            &&& r.distance == grid_distance(r.source, r.target)
            &&& r.nearby == (r.distance <= 1)
        } by {
            assert(u.contains(sorted@[x]));
            let j = choose|j: int| 0 <= j < u.len() && u[j] == sorted@[x];
        }
    }
    sorted
}
} // verus!
