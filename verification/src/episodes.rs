use vstd::prelude::*;
use crate::text::{owned, str_eq};

verus! {

/// A maximal run of equal states in a stateful lifecycle: the state and the
/// first and last positions of the run.
pub struct StateEpisode {
    pub state: String,
    pub start: usize,
    pub end: usize,
}

impl StateEpisode {
    pub open spec fn view3(self) -> (Seq<char>, int, int) {
        (self.state@, self.start as int, self.end as int)
    }
}

pub open spec fn episodes_view(v: Seq<StateEpisode>) -> Seq<(Seq<char>, int, int)> {
    v.map_values(|e: StateEpisode| e.view3())
}

/// The runs of equal neighbouring states, built from left to right.
pub open spec fn runs(s: Seq<Seq<char>>) -> Seq<(Seq<char>, int, int)>
    decreases s.len(),
{
    if s.len() == 0 {
        Seq::empty()
    } else {
        let r = runs(s.drop_last());
        let n = s.len() - 1;
        if r.len() > 0 && r.last().0 == s.last() {
            r.update(r.len() - 1, (r.last().0, r.last().1, n))
        } else {
            r.push((s.last(), n, n))
        }
    }
}

/// `eps` splits `s` into maximal runs of equal states: the runs are
/// consecutive, cover every position, hold one state each, and neighbouring
/// runs differ in state.
pub open spec fn maximal_runs(s: Seq<Seq<char>>, eps: Seq<(Seq<char>, int, int)>) -> bool {
    &&& (s.len() == 0 <==> eps.len() == 0)
    &&& eps.len() > 0 ==> eps[0].1 == 0 && eps.last().2 == s.len() - 1
    &&& forall|i: int| 0 <= i < eps.len() ==> 0 <= #[trigger] eps[i].1 <= eps[i].2 < s.len()
    &&& forall|i: int, p: int| 0 <= i < eps.len() && eps[i].1 <= p <= eps[i].2 ==> #[trigger] s[p] == (#[trigger] eps[i]).0
    &&& forall|i: int, j: int|
        0 <= i && j == i + 1 && j < eps.len() ==> (#[trigger] eps[j]).1 == (#[trigger] eps[i]).2 + 1 && eps[i].0 != eps[j].0
}

/// The runs are exactly the maximal runs of equal states.
pub proof fn lemma_runs_maximal(s: Seq<Seq<char>>)
    ensures
        maximal_runs(s, runs(s)),
    decreases s.len(),
{
    if s.len() > 0 {
        let t = s.drop_last();
        lemma_runs_maximal(t);
        let r = runs(t);
        let n = s.len() - 1;
        let out = runs(s);
        if r.len() > 0 && r.last().0 == s.last() {
            assert forall|i: int, p: int| 0 <= i < out.len() && out[i].1 <= p <= out[i].2 implies #[trigger] s[p] == (#[trigger] out[i]).0 by {
                if p < n {
                    assert(s[p] == t[p]);
                    if i == r.len() - 1 {
                        assert(r[i].1 <= p);
                        if p > r[i].2 {
                            assert(r.last().2 == t.len() - 1);
                        }
                    } else {
                        assert(out[i] == r[i]);
                    }
                }
            }
        } else {
            assert forall|i: int, p: int| 0 <= i < out.len() && out[i].1 <= p <= out[i].2 implies #[trigger] s[p] == (#[trigger] out[i]).0 by {
                if i < r.len() {
                    assert(out[i] == r[i]);
                    assert(s[p] == t[p]);
                }
            }
            if r.len() > 0 {
                assert(r.last().2 == t.len() - 1);
            }
        }
    }
}

/// Every run lies within the first `n` positions.
pub open spec fn runs_bounded(n: int, eps: Seq<(Seq<char>, int, int)>) -> bool {
    forall|i: int| 0 <= i < eps.len() ==> 0 <= #[trigger] eps[i].1 <= eps[i].2 < n
}

pub open spec fn states_of(sl: Seq<(usize, Seq<char>)>) -> Seq<Seq<char>> {
    sl.map_values(|p: (usize, Seq<char>)| p.1)
}

/// Splits a stateful lifecycle into its runs of equal states.
pub fn state_episodes(sl: &Vec<(usize, String)>) -> (r: Vec<StateEpisode>)
    ensures
        episodes_view(r@) == runs(sl@.map_values(|p: (usize, String)| p.1@)),
{
    let ghost s = sl@.map_values(|p: (usize, String)| p.1@);
    let mut out: Vec<StateEpisode> = Vec::new();
    let mut i: usize = 0;
    assert(s.take(0) =~= Seq::<Seq<char>>::empty());
    assert(episodes_view(out@) =~= Seq::<(Seq<char>, int, int)>::empty());
    while i < sl.len()
        invariant
            i <= sl@.len(),
            s == sl@.map_values(|p: (usize, String)| p.1@),
            episodes_view(out@) == runs(s.take(i as int)),
        decreases sl.len() - i,
    {
        let ghost before = out@;
        proof {
            assert(s.take(i + 1).drop_last() =~= s.take(i as int));
            assert(s.take(i + 1).last() == sl@[i as int].1@);
        }
        let st = sl[i].1.as_str();
        let n = out.len();
        if n > 0 && str_eq(out[n - 1].state.as_str(), st) {
            let last = &out[n - 1];
            let e = StateEpisode { state: owned(last.state.as_str()), start: last.start, end: i };
            out.set(n - 1, e);
            assert(episodes_view(out@) =~= runs(s.take(i + 1)));
        } else {
            out.push(StateEpisode { state: owned(st), start: i, end: i });
            assert(episodes_view(out@) =~= runs(s.take(i + 1)));
        }
        i = i + 1;
    }
    assert(s.take(sl@.len() as int) =~= s);
    out
}

} // verus!
