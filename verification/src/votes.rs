use vstd::prelude::*;
use crate::pool::Symbol;
use crate::model::CompactOcelLog;
use crate::text::{owned, push_text, count_to_text, nat_digits};
use crate::state_labels::StateAssignment;

verus! {

/// A cell of the state map, by column and row.
pub type Cell = (usize, usize);

/// Cells in column-then-row order.
pub open spec fn cell_less(a: Cell, b: Cell) -> bool {
    a.0 < b.0 || (a.0 == b.0 && a.1 < b.1)
}

/// The label of a cell: `S`, its column and row counted from one.
pub open spec fn cell_text(x: usize, y: usize) -> Seq<char> {
    "S"@ + nat_digits(x as nat + 1) + "-"@ + nat_digits(y as nat + 1)
}

/// The label of a cell.
pub fn cell_label(x: usize, y: usize) -> (r: String)
    requires
        x < usize::MAX,
        y < usize::MAX,
    ensures
        r@ == cell_text(x, y),
{
    let mut s = owned("S");
    push_text(&mut s, count_to_text(x + 1).as_str());
    push_text(&mut s, "-");
    push_text(&mut s, count_to_text(y + 1).as_str());
    proof {
        reveal_strlit("S");
        reveal_strlit("-");
    }
    s
}

/// The side lengths of the state map: the requested ones, or the square
/// root of the number of points rounded up (at least 3, at most 8); each
/// kept within 2 to 12.
pub open spec fn som_dimensions(point_count: nat, width: Option<usize>, height: Option<usize>) -> (usize, usize) {
    let fallback: usize = if point_count <= 9 {
        3
    } else if point_count <= 16 {
        4
    } else if point_count <= 25 {
        5
    } else if point_count <= 36 {
        6
    } else if point_count <= 49 {
        7
    } else {
        8
    };
    let w = match width { Some(w) => w, None => fallback };
    let h = match height { Some(h) => h, None => fallback };
    (if w < 2 { 2 } else if w > 12 { 12 } else { w }, if h < 2 { 2 } else if h > 12 { 12 } else { h })
}

/// The least `k` with `k * k >= n`, kept within 3 to 8.
pub open spec fn root_within(n: nat, k: nat) -> bool {
    &&& 3 <= k <= 8
    &&& (k > 3 ==> (k - 1) * (k - 1) < n)
    &&& (k < 8 ==> n <= k * k)
}

/// The side lengths of the state map.
pub fn default_som_dimensions(point_count: usize, requested_width: Option<usize>, requested_height: Option<usize>) -> (r: (usize, usize))
    ensures
        r == som_dimensions(point_count as nat, requested_width, requested_height),
{
    let fallback: usize = if point_count <= 9 {
        3
    } else if point_count <= 16 {
        4
    } else if point_count <= 25 {
        5
    } else if point_count <= 36 {
        6
    } else if point_count <= 49 {
        7
    } else {
        8
    };
    let w = match requested_width {
        Some(w) => w,
        None => fallback,
    };
    let h = match requested_height {
        Some(h) => h,
        None => fallback,
    };
    let w2 = if w < 2 { 2 } else if w > 12 { 12 } else { w };
    let h2 = if h < 2 { 2 } else if h > 12 { 12 } else { h };
    (w2, h2)
}

/// The fallback side length is the rounded-up square root of the number of
/// points, kept within 3 to 8.
pub proof fn lemma_fallback_is_root(n: nat)
    ensures
        root_within(n, som_dimensions(n, None, None).0 as nat),
{
    assert(3 * 3 == 9 && 4 * 4 == 16 && 5 * 5 == 25 && 6 * 6 == 36 && 7 * 7 == 49) by (nonlinear_arith);
}

/// How often an event was assigned to a cell, and the last window that
/// assigned it there.
pub struct VoteEntry {
    pub cell: Cell,
    pub count: usize,
    pub latest_window: usize,
}

/// The cells an event was assigned to across windows.
pub struct StateDetectionEventVote {
    pub entries: Vec<VoteEntry>,
}

/// The votes (window, cell) of a sequence: for each cell, how many there
/// are (saturated at `usize::MAX`) and the last window.
pub open spec fn tally(votes: Seq<(usize, Cell)>) -> Map<Cell, (usize, usize)>
    decreases votes.len(),
{
    if votes.len() == 0 {
        Map::empty()
    } else {
        let m = tally(votes.drop_last());
        let (w, c) = votes.last();
        let n: usize = if m.dom().contains(c) { if m[c].0 < usize::MAX { (m[c].0 + 1) as usize } else { usize::MAX } } else { 1 };
        m.insert(c, (n, w))
    }
}

impl StateDetectionEventVote {
    /// The entries, one per cell.
    pub open spec fn wf(&self) -> bool {
        forall|i: int, j: int| 0 <= i < j < self.entries@.len() ==> #[trigger] self.entries@[i].cell != #[trigger] self.entries@[j].cell
    }

    /// For each cell, its count and latest window.
    pub open spec fn view_map(&self) -> Map<Cell, (usize, usize)> {
        Map::new(
            |c: Cell| exists|i: int| 0 <= i < self.entries@.len() && #[trigger] self.entries@[i].cell == c,
            |c: Cell| {
                let i = choose|i: int| 0 <= i < self.entries@.len() && #[trigger] self.entries@[i].cell == c;
                (self.entries@[i].count, self.entries@[i].latest_window)
            },
        )
    }

    /// No votes yet.
    pub fn new() -> (v: Self)
        ensures
            v.wf(),
            v.view_map() == Map::<Cell, (usize, usize)>::empty(),
    {
        let v = StateDetectionEventVote { entries: Vec::new() };
        assert(v.view_map() =~= Map::<Cell, (usize, usize)>::empty());
        v
    }

    /// One more vote for `cell` from window `window_index`.
    pub fn add(&mut self, cell: Cell, window_index: usize)
        requires
            old(self).wf(),
        ensures
            final(self).wf(),
            final(self).view_map() == {
                let m = old(self).view_map();
                let n: usize = if m.dom().contains(cell) {
                    if m[cell].0 < usize::MAX { (m[cell].0 + 1) as usize } else { usize::MAX }
                } else {
                    1
                };
                m.insert(cell, (n, window_index))
            },
    {
        let ghost m = self.view_map();
        let mut i: usize = 0;
        let mut found = false;
        while i < self.entries.len()
            invariant
                i <= self.entries@.len(),
                *self == *old(self),
                forall|j: int| 0 <= j < i ==> (#[trigger] self.entries@[j]).cell != cell,
                found ==> i < self.entries@.len() && self.entries@[i as int].cell == cell,
            ensures
                *self == *old(self),
                forall|j: int| 0 <= j < i ==> (#[trigger] self.entries@[j]).cell != cell,
                found ==> i < self.entries@.len() && self.entries@[i as int].cell == cell,
                !found ==> i == self.entries@.len(),
            decreases self.entries.len() - i,
        {
            if self.entries[i].cell.0 == cell.0 && self.entries[i].cell.1 == cell.1 {
                found = true;
                break;
            }
            i = i + 1;
        }
        let ghost before = self.entries@;
        if found {
            let c = self.entries[i].count;
            let n = if c < usize::MAX { c + 1 } else { usize::MAX };
            self.entries.set(i, VoteEntry { cell, count: n, latest_window: window_index });
            proof {
                assert(m.dom().contains(cell));
                let k = choose|k: int| 0 <= k < before.len() && #[trigger] before[k].cell == cell;
                assert(k == i) by {
                    if k != i {
                        if k < i {
                            assert(before[k].cell != before[i as int].cell);
                        } else {
                            assert(before[i as int].cell != before[k].cell);
                        }
                    }
                }
                assert(m[cell] == (c, before[i as int].latest_window));
                assert forall|a: int, b: int| 0 <= a < b < self.entries@.len() implies #[trigger] self.entries@[a].cell != #[trigger] self.entries@[b].cell by {
                    assert(before[a].cell != before[b].cell);
                }
                let want = m.insert(cell, (n, window_index));
                assert forall|x: Cell| #[trigger] self.view_map().dom().contains(x) <==> want.dom().contains(x) by {
                    if want.dom().contains(x) && x != cell {
                        let j = choose|j: int| 0 <= j < before.len() && #[trigger] before[j].cell == x;
                        assert(j != i);
                        assert(self.entries@[j].cell == x);
                    }
                    if x == cell {
                        assert(self.entries@[i as int].cell == x);
                    }
                    if self.view_map().dom().contains(x) {
                        let j = choose|j: int| 0 <= j < self.entries@.len() && #[trigger] self.entries@[j].cell == x;
                        if j != i {
                            assert(before[j].cell == x);
                        }
                    }
                }
                assert forall|x: Cell| #[trigger] self.view_map().dom().contains(x) implies self.view_map()[x] == want[x] by {
                    let j = choose|j: int| 0 <= j < self.entries@.len() && #[trigger] self.entries@[j].cell == x;
                    if x != cell {
                        assert(j != i);
                        let k2 = choose|k2: int| 0 <= k2 < before.len() && #[trigger] before[k2].cell == x;
                        assert(k2 == j) by {
                            if k2 != j {
                                if k2 < j {
                                    assert(before[k2].cell != before[j].cell);
                                } else {
                                    assert(before[j].cell != before[k2].cell);
                                }
                            }
                        }
                    } else {
                        assert(j == i) by {
                            if j != i {
                                if j < i {
                                    assert(self.entries@[j].cell != self.entries@[i as int].cell);
                                } else {
                                    assert(self.entries@[i as int].cell != self.entries@[j].cell);
                                }
                            }
                        }
                    }
                }
                assert(self.view_map() =~= want);
            }
        } else {
            self.entries.push(VoteEntry { cell, count: 1, latest_window: window_index });
            proof {
                assert(!m.dom().contains(cell)) by {
                    if m.dom().contains(cell) {
                        let k = choose|k: int| 0 <= k < before.len() && #[trigger] before[k].cell == cell;
                    }
                }
                assert forall|a: int, b: int| 0 <= a < b < self.entries@.len() implies #[trigger] self.entries@[a].cell != #[trigger] self.entries@[b].cell by {
                    if b < before.len() {
                        assert(before[a].cell != before[b].cell);
                    }
                }
                let want = m.insert(cell, (1usize, window_index));
                assert forall|x: Cell| #[trigger] self.view_map().dom().contains(x) <==> want.dom().contains(x) by {
                    if want.dom().contains(x) && x != cell {
                        let j = choose|j: int| 0 <= j < before.len() && #[trigger] before[j].cell == x;
                        assert(self.entries@[j].cell == x);
                    }
                    if x == cell {
                        assert(self.entries@[before.len() as int].cell == x);
                    }
                    if self.view_map().dom().contains(x) {
                        let j = choose|j: int| 0 <= j < self.entries@.len() && #[trigger] self.entries@[j].cell == x;
                        if j < before.len() {
                            assert(before[j].cell == x);
                        }
                    }
                }
                assert forall|x: Cell| #[trigger] self.view_map().dom().contains(x) implies self.view_map()[x] == want[x] by {
                    let j = choose|j: int| 0 <= j < self.entries@.len() && #[trigger] self.entries@[j].cell == x;
                    if x != cell {
                        assert(j < before.len());
                        let k2 = choose|k2: int| 0 <= k2 < before.len() && #[trigger] before[k2].cell == x;
                        assert(k2 == j) by {
                            if k2 != j {
                                if k2 < j {
                                    assert(before[k2].cell != before[j].cell);
                                } else {
                                    assert(before[j].cell != before[k2].cell);
                                }
                            }
                        }
                    } else {
                        assert(j == before.len()) by {
                            if j < before.len() {
                                assert(before[j].cell == cell);
                            }
                        }
                    }
                }
                assert(self.view_map() =~= want);
            }
        }
    }
}


/// `c` wins the tally: most votes, then the latest window, then the first
/// cell in column-then-row order.
pub open spec fn wins(m: Map<Cell, (usize, usize)>, c: Cell) -> bool {
    &&& m.dom().contains(c)
    &&& forall|c2: Cell| #[trigger] m.dom().contains(c2) && c2 != c ==> m[c2].0 < m[c].0
        || (m[c2].0 == m[c].0 && m[c2].1 < m[c].1)
        || (m[c2].0 == m[c].0 && m[c2].1 == m[c].1 && cell_less(c, c2))
}

/// The winning cell of a tally, if it has any cell.
pub open spec fn winner(m: Map<Cell, (usize, usize)>) -> Option<Cell> {
    if exists|c: Cell| wins(m, c) {
        Some(choose|c: Cell| wins(m, c))
    } else {
        None
    }
}

pub proof fn lemma_wins_unique(m: Map<Cell, (usize, usize)>, a: Cell, b: Cell)
    requires
        wins(m, a),
        wins(m, b),
    ensures
        a == b,
{
    if a != b {
        assert(m.dom().contains(b));
        assert(m.dom().contains(a));
    }
}

impl StateDetectionEventVote {
    /// The cell with the most votes, then the latest window, then the first
    /// in column-then-row order.
    pub fn winning_cell(&self) -> (r: Option<Cell>)
        requires
            self.wf(),
        ensures
            r == winner(self.view_map()),
            r is None <==> self.view_map().dom().len() == 0 && self.entries@.len() == 0,
    {
        let ghost m = self.view_map();
        if self.entries.len() == 0 {
            proof {
                assert(m =~= Map::<Cell, (usize, usize)>::empty());
                if exists|c: Cell| wins(m, c) {
                    let c = choose|c: Cell| wins(m, c);
                    assert(m.dom().contains(c));
                }
            }
            return None;
        }
        let mut best: usize = 0;
        let mut i: usize = 1;
        while i < self.entries.len()
            invariant
                self.wf(),
                1 <= i <= self.entries@.len(),
                best < i,
                forall|j: int| 0 <= j < i && j != best ==> {
                    let a = #[trigger] self.entries@[j];
                    let b = self.entries@[best as int];
                    a.count < b.count || (a.count == b.count && a.latest_window < b.latest_window)
                        || (a.count == b.count && a.latest_window == b.latest_window && cell_less(b.cell, a.cell))
                },
            decreases self.entries.len() - i,
        {
            let a = &self.entries[i];
            let b = &self.entries[best];
            let better = a.count > b.count || (a.count == b.count && a.latest_window > b.latest_window)
                || (a.count == b.count && a.latest_window == b.latest_window && (a.cell.0 < b.cell.0 || (a.cell.0 == b.cell.0 && a.cell.1 < b.cell.1)));
            proof {
                assert(a.cell != b.cell);
            }
            if better {
                best = i;
            }
            i = i + 1;
        }
        let c = self.entries[best].cell;
        proof {
            let e = self.entries@;
            assert(m.dom().contains(c)) by {
                assert(e[best as int].cell == c);
            }
            assert forall|j: int| 0 <= j < e.len() implies #[trigger] m[e[j].cell] == (e[j].count, e[j].latest_window) by {
                assert(m.dom().contains(e[j].cell));
                let k = choose|k: int| 0 <= k < e.len() && #[trigger] e[k].cell == e[j].cell;
                if k != j {
                    if k < j {
                        assert(e[k].cell != e[j].cell);
                    } else {
                        assert(e[j].cell != e[k].cell);
                    }
                }
            }
            assert(m[c] == (e[best as int].count, e[best as int].latest_window));
            assert forall|c2: Cell| #[trigger] m.dom().contains(c2) && c2 != c implies m[c2].0 < m[c].0
                || (m[c2].0 == m[c].0 && m[c2].1 < m[c].1)
                || (m[c2].0 == m[c].0 && m[c2].1 == m[c].1 && cell_less(c, c2)) by {
                let j = choose|j: int| 0 <= j < e.len() && #[trigger] e[j].cell == c2;
                assert(m[e[j].cell] == (e[j].count, e[j].latest_window));
                assert(j != best);
            }
            assert(wins(m, c));
            let w = choose|w: Cell| wins(m, w);
            lemma_wins_unique(m, w, c);
            assert(m.dom().contains(c));
        }
        Some(c)
    }
}

/// The votes for event `e` among the first `j` entries of window `w`.
pub open spec fn window_votes(window: Seq<usize>, w: usize, cell: Cell, e: int, j: int) -> Seq<(usize, Cell)>
    decreases j,
{
    if j <= 0 {
        Seq::empty()
    } else {
        let r = window_votes(window, w, cell, e, j - 1);
        if window[j - 1] as int == e { r.push((w, cell)) } else { r }
    }
}

/// The votes for event `e` from the first `w` windows.
pub open spec fn event_votes(windows: Seq<Vec<usize>>, cells: Seq<Cell>, e: int, w: int) -> Seq<(usize, Cell)>
    decreases w,
{
    if w <= 0 {
        Seq::empty()
    } else {
        event_votes(windows, cells, e, w - 1) + window_votes(windows[w - 1]@, (w - 1) as usize, cells[w - 1], e, windows[w - 1]@.len() as int)
    }
}

/// The state each event gets from the windows that contain it: the label
/// of its winning cell, for the events with any vote, in event order.
pub open spec fn voted_states(log: CompactOcelLog, windows: Seq<Vec<usize>>, cells: Seq<Cell>, k: int) -> Seq<(Symbol, Seq<char>)>
    decreases k,
{
    if k <= 0 {
        Seq::empty()
    } else {
        let r = voted_states(log, windows, cells, k - 1);
        let w = if windows.len() < cells.len() { windows.len() as int } else { cells.len() as int };
        match winner(tally(event_votes(windows, cells, k - 1, w))) {
            Some(c) => r.push((log.events@[k - 1].id, cell_text(c.0, c.1))),
            None => r,
        }
    }
}

/// The views of assignments.
pub open spec fn assignments_view(v: Seq<StateAssignment>) -> Seq<(Symbol, Seq<char>)> {
    v.map_values(|a: StateAssignment| (a.event_id, a.state@))
}

impl CompactOcelLog {
    /// Lets each window vote for the cell it was assigned to on behalf of
    /// its events, and labels each event with its winning cell.
    pub fn state_assignments_from_votes(&self, windows: &Vec<Vec<usize>>, cells: &Vec<Cell>) -> (r: Vec<StateAssignment>)
        requires
            forall|w: int, j: int| 0 <= w < windows@.len() && 0 <= j < windows@[w]@.len() ==> #[trigger] windows@[w]@[j] < self.events@.len(),
            forall|w: int| 0 <= w < cells@.len() ==> #[trigger] cells@[w].0 < usize::MAX && cells@[w].1 < usize::MAX,
        ensures
            assignments_view(r@) == voted_states(*self, windows@, cells@, self.events@.len() as int),
    {
        let n = self.events.len();
        let nw = if windows.len() < cells.len() { windows.len() } else { cells.len() };
        let mut votes: Vec<StateDetectionEventVote> = Vec::new();
        let mut e: usize = 0;
        while e < n
            invariant
                e <= n,
                votes@.len() == e,
                forall|x: int| 0 <= x < e ==> (#[trigger] votes@[x]).wf() && votes@[x].view_map() == tally(Seq::empty()),
                forall|x: int, c: Cell| 0 <= x < e && #[trigger] votes@[x].view_map().dom().contains(c) ==> c.0 < usize::MAX && c.1 < usize::MAX,
            decreases n - e,
        {
            votes.push(StateDetectionEventVote::new());
            proof {
                assert(tally(Seq::<(usize, Cell)>::empty()) =~= Map::<Cell, (usize, usize)>::empty());
            }
            e = e + 1;
        }
        let mut w: usize = 0;
        while w < nw
            invariant
                n == self.events@.len(),
                nw <= windows@.len(),
                nw <= cells@.len(),
                forall|w2: int, j: int| 0 <= w2 < windows@.len() && 0 <= j < windows@[w2]@.len() ==> #[trigger] windows@[w2]@[j] < n,
                w <= nw,
                votes@.len() == n,
                forall|x: int| 0 <= x < n ==> (#[trigger] votes@[x]).wf() && votes@[x].view_map() == tally(event_votes(windows@, cells@, x, w as int)),
                forall|w2: int| 0 <= w2 < cells@.len() ==> #[trigger] cells@[w2].0 < usize::MAX && cells@[w2].1 < usize::MAX,
                forall|x: int, c: Cell| 0 <= x < n && #[trigger] votes@[x].view_map().dom().contains(c) ==> c.0 < usize::MAX && c.1 < usize::MAX,
            decreases nw - w,
        {
            let win = &windows[w];
            let cell = cells[w];
            let mut j: usize = 0;
            proof {
                assert forall|x: int| 0 <= x < n implies event_votes(windows@, cells@, x, w as int) + window_votes(win@, w, cell, x, 0)
                    == event_votes(windows@, cells@, x, w as int) by {
                    assert(event_votes(windows@, cells@, x, w as int) + window_votes(win@, w, cell, x, 0) =~= event_votes(windows@, cells@, x, w as int));
                }
            }
            while j < win.len()
                invariant
                    n == self.events@.len(),
                    w < nw,
                    nw <= windows@.len(),
                    nw <= cells@.len(),
                    *win == windows@[w as int],
                    cell == cells@[w as int],
                    forall|w2: int, j2: int| 0 <= w2 < windows@.len() && 0 <= j2 < windows@[w2]@.len() ==> #[trigger] windows@[w2]@[j2] < n,
                    j <= win@.len(),
                    votes@.len() == n,
                    forall|x: int| 0 <= x < n ==> (#[trigger] votes@[x]).wf()
                        && votes@[x].view_map() == tally(event_votes(windows@, cells@, x, w as int) + window_votes(win@, w, cell, x, j as int)),
                    cell.0 < usize::MAX && cell.1 < usize::MAX,
                    forall|x: int, c: Cell| 0 <= x < n && #[trigger] votes@[x].view_map().dom().contains(c) ==> c.0 < usize::MAX && c.1 < usize::MAX,
                decreases win.len() - j,
            {
                let i = win[j];
                proof {
                    assert(windows@[w as int]@[j as int] < n);
                }
                let ghost before = votes@;
                votes[i].add(cell, w);
                proof {
                    assert forall|x: int| 0 <= x < n implies (#[trigger] votes@[x]).wf()
                        && votes@[x].view_map() == tally(event_votes(windows@, cells@, x, w as int) + window_votes(win@, w, cell, x, j + 1)) by {
                        let base = event_votes(windows@, cells@, x, w as int);
                        if x == i as int {
                            let s0 = base + window_votes(win@, w, cell, x, j as int);
                            assert(base + window_votes(win@, w, cell, x, j + 1) =~= s0.push((w, cell)));
                            assert(s0.push((w, cell)).drop_last() =~= s0);
                            assert(s0.push((w, cell)).last() == (w, cell));
                        } else {
                            assert(votes@[x] == before[x]);
                            assert(window_votes(win@, w, cell, x, j + 1) == window_votes(win@, w, cell, x, j as int));
                        }
                    }
                    assert forall|x: int, c: Cell| 0 <= x < n && #[trigger] votes@[x].view_map().dom().contains(c) implies c.0 < usize::MAX && c.1 < usize::MAX by {
                        if x != i as int {
                            assert(votes@[x] == before[x]);
                        } else if c != cell {
                            assert(before[x].view_map().dom().contains(c));
                        }
                    }
                }
                j = j + 1;
            }
            w = w + 1;
        }
        let mut out: Vec<StateAssignment> = Vec::new();
        let mut e: usize = 0;
        while e < n
            invariant
                n == self.events@.len(),
                e <= n,
                votes@.len() == n,
                nw as int == if windows@.len() < cells@.len() { windows@.len() as int } else { cells@.len() as int },
                forall|w2: int| 0 <= w2 < cells@.len() ==> #[trigger] cells@[w2].0 < usize::MAX && cells@[w2].1 < usize::MAX,
                forall|x: int| 0 <= x < n ==> (#[trigger] votes@[x]).wf() && votes@[x].view_map() == tally(event_votes(windows@, cells@, x, nw as int)),
                forall|x: int, c: Cell| 0 <= x < n && #[trigger] votes@[x].view_map().dom().contains(c) ==> c.0 < usize::MAX && c.1 < usize::MAX,
                assignments_view(out@) == voted_states(*self, windows@, cells@, e as int),
            decreases n - e,
        {
            let ghost before = out@;
            match votes[e].winning_cell() {
                Some(c) => {
                    proof {
                        assert(votes@[e as int].view_map().dom().contains(c));
                    }
                    let label = cell_label(c.0, c.1);
                    out.push(StateAssignment { event_id: self.events[e].id, state: label });
                    proof {
                        assert(assignments_view(out@) =~= assignments_view(before).push((self.events@[e as int].id, cell_text(c.0, c.1))));
                    }
                },
                None => {},
            }
            e = e + 1;
        }
        out
    }
}

} // verus!
