use vstd::prelude::*;
use crate::error::OcelError;
use crate::model::CompactOcelLog;
use crate::pool::Symbol;
use crate::counting::count_where;
use crate::counts::{texts_sorted, text_set, insert_text};
use crate::dominant::{dominant, times};
use crate::lifecycle_detail::lifecycle_states;
use crate::log_ops::{symbol_of, has_object_type};
use crate::cells::objects_of_type;
use crate::state_query::opt_text;
use crate::text::{owned, push_text, str_eq};

verus! {

/// What the state correlations count: the active objects of the leading
/// type, the state each spends most events in, and how many objects have
/// each state.
pub struct StateCounts {
    pub object_type: String,
    /// Positions of the objects of the leading type, in log order.
    pub objects: Vec<usize>,
    /// The dominant state of each of those objects, if any.
    pub states: Vec<Option<String>>,
    /// Each state that some object has, in text order, with how many
    /// objects have it.
    pub distribution: Vec<(String, usize)>,
    pub stateful_object_count: usize,
}

/// The dominant state of each listed object, under the state attribute `st`.
pub open spec fn states_ok(log: CompactOcelLog, st: Symbol, objs: Seq<usize>, states: Seq<Option<String>>) -> bool {
    &&& states.len() == objs.len()
    &&& forall|i: int| 0 <= i < objs.len() ==> {
        let s = lifecycle_states(log, log.objects@[#[trigger] objs[i] as int].lifecycle@, Some(st));
        match states[i] {
            Some(t) => dominant(s, t@),
            None => forall|t: Seq<char>| times(s, t, s.len() as int) == 0,
        }
    }
}

/// How many of the states are `t`.
pub open spec fn state_count(states: Seq<Option<String>>, t: Seq<char>) -> nat {
    count_where(states.len() as int, |i: int| opt_text(states[i]) == Some(t))
}

/// The states that occur, in text order, each with its count.
pub open spec fn distribution_ok(states: Seq<Option<String>>, d: Seq<(String, usize)>) -> bool {
    let names = d.map_values(|p: (String, usize)| p.0);
    &&& texts_sorted(names)
    &&& text_set(names) == Set::new(|t: Seq<char>| exists|i: int| 0 <= i < states.len() && opt_text(states[i]) == Some(t))
    &&& forall|k: int| 0 <= k < d.len() ==> (#[trigger] d[k]).1 == state_count(states, d[k].0@)
}

fn count_state(states: &Vec<Option<String>>, t: &str) -> (n: usize)
    ensures
        n == state_count(states@, t@),
{
    let ghost p = |i: int| opt_text(states@[i]) == Some(t@);
    let mut n: usize = 0;
    let mut i: usize = 0;
    while i < states.len()
        invariant
            i <= states@.len(),
            p == (|i: int| opt_text(states@[i]) == Some(t@)),
            n == count_where(i as int, p),
            n <= i,
        decreases states.len() - i,
    {
        let hit = match &states[i] {
            Some(s) => str_eq(s.as_str(), t),
            None => false,
        };
        if hit {
            n = n + 1;
        }
        i = i + 1;
    }
    n
}

/// The distribution of the states.
fn distribution_of(states: &Vec<Option<String>>) -> (d: Vec<(String, usize)>)
    ensures
        distribution_ok(states@, d@),
{
    let mut names: Vec<String> = Vec::new();
    let mut i: usize = 0;
    while i < states.len()
        invariant
            i <= states@.len(),
            texts_sorted(names@),
            text_set(names@) == Set::new(|t: Seq<char>| exists|x: int| 0 <= x < i && opt_text(states@[x]) == Some(t)),
        decreases states.len() - i,
    {
        let ghost before = text_set(names@);
        match &states[i] {
            Some(s) => {
                insert_text(&mut names, s.as_str());
            },
            None => {},
        }
        proof {
            assert(text_set(names@) =~= Set::new(|t: Seq<char>| exists|x: int| 0 <= x < i + 1 && opt_text(states@[x]) == Some(t))) by {
                assert forall|t: Seq<char>| text_set(names@).contains(t) implies exists|x: int| 0 <= x < i + 1 && opt_text(states@[x]) == Some(t) by {
                    if !before.contains(t) {
                        assert(opt_text(states@[i as int]) == Some(t));
                    }
                }
                assert forall|t: Seq<char>| (exists|x: int| 0 <= x < i + 1 && opt_text(states@[x]) == Some(t)) implies text_set(names@).contains(t) by {
                    let x = choose|x: int| 0 <= x < i + 1 && opt_text(states@[x]) == Some(t);
                    if x < i {
                        assert(before.contains(t));
                    }
                }
            }
        }
        i = i + 1;
    }
    let mut d: Vec<(String, usize)> = Vec::new();
    let mut k: usize = 0;
    while k < names.len()
        invariant
            k <= names@.len(),
            d@.len() == k,
            forall|x: int| 0 <= x < k ==> (#[trigger] d@[x]).0@ == names@[x]@ && d@[x].1 == state_count(states@, names@[x]@),
        decreases names.len() - k,
    {
        let c = count_state(states, names[k].as_str());
        d.push((owned(names[k].as_str()), c));
        k = k + 1;
    }
    proof {
        let dn = d@.map_values(|p: (String, usize)| p.0);
        assert forall|x: int| 0 <= x < names@.len() implies dn[x]@ == names@[x]@ by {}
        assert forall|a: int, b: int| 0 <= a < b < dn.len() implies crate::text::seq_order(#[trigger] dn[a]@, #[trigger] dn[b]@) == crate::text::Order3::Less by {
            assert(dn[a]@ == names@[a]@);
            assert(dn[b]@ == names@[b]@);
        }
        assert(text_set(dn) =~= text_set(names@)) by {
            assert forall|t: Seq<char>| text_set(dn).contains(t) implies text_set(names@).contains(t) by {
                let x = choose|x: int| 0 <= x < dn.len() && dn[x]@ == t;
                assert(names@[x]@ == t);
            }
            assert forall|t: Seq<char>| text_set(names@).contains(t) implies text_set(dn).contains(t) by {
                let x = choose|x: int| 0 <= x < names@.len() && names@[x]@ == t;
                assert(dn[x]@ == t);
            }
        }
        assert(Set::new(|t: Seq<char>| exists|x: int| 0 <= x < states@.len() && opt_text(states@[x]) == Some(t))
            =~= Set::new(|t: Seq<char>| exists|x: int| 0 <= x < states@.len() && opt_text(states@[x]) == Some(t)));
    }
    d
}

proof fn lemma_none_stateful(states: Seq<Option<String>>, n: int)
    requires
        n <= states.len(),
        count_where(n, |x: int| states[x] is Some) == 0,
    ensures
        forall|i: int| 0 <= i < n ==> (#[trigger] states[i]) is None,
    decreases n,
{
    if n > 0 {
        lemma_none_stateful(states, n - 1);
    }
}

/// The message when the leading objects have no state.
pub open spec fn no_stateful_text(t: Seq<char>) -> Seq<char> {
    "no active '"@ + t + "' objects have stateful events"@
}

/// The state counts of `log`, or why there are none.
pub open spec fn counts_ok(log: CompactOcelLog, r: Result<StateCounts, OcelError>) -> bool {
    match r {
        Ok(c) => symbol_of(log, "state"@) matches Some(st) && log.state_leading_object_type matches Some(lt)
            && c.object_type@ == log.text(lt)
            && has_object_type(log, log.text(lt))
            && c.objects@.map_values(|o: usize| o as int) == objects_of_type(log, symbol_of(log, log.text(lt))->0)
            && states_ok(log, st, c.objects@, c.states@)
            && distribution_ok(c.states@, c.distribution@)
            && c.stateful_object_count == count_where(c.states@.len() as int, |i: int| c.states@[i] is Some)
            && c.stateful_object_count > 0,
        Err(e) => match symbol_of(log, "state"@) {
            None => e.message@ == "event state attribute is missing; apply a state query first"@,
            Some(st) => match log.state_leading_object_type {
                None => e.message@ == "state leading object type is unknown; apply a state query or state detection first"@,
                Some(lt) => if !has_object_type(log, log.text(lt)) {
                    e.message@ == "unknown object type '"@ + log.text(lt) + "' for state detection"@
                } else {
                    &&& e.message@ == no_stateful_text(log.text(lt))
                    &&& symbol_of(log, log.text(lt)) matches Some(ot)
                    &&& forall|i: int| 0 <= i < objects_of_type(log, ot).len() ==> {
                        let s = lifecycle_states(log, log.objects@[#[trigger] objects_of_type(log, ot)[i]].lifecycle@, Some(st));
                        forall|t: Seq<char>| times(s, t, s.len() as int) == 0
                    }
                },
            },
        },
    }
}

impl CompactOcelLog {
    /// The counts behind the state correlations of the log.
    pub fn state_correlation_counts(&self) -> (r: Result<StateCounts, OcelError>)
        requires
            self.wf(),
        ensures
            counts_ok(*self, r),
    {
        proof { reveal_strlit("state"); }
        let st = match self.symbol_for_value("state") {
            Some(s) => s,
            None => return Err(OcelError::new(owned("event state attribute is missing; apply a state query first"))),
        };
        let lt = match self.state_leading_object_type {
            Some(s) => s,
            None => return Err(OcelError::new(owned("state leading object type is unknown; apply a state query or state detection first"))),
        };
        let object_type = owned(self.pool.resolve(lt));
        let objects = match self.state_detection_objects(object_type.as_str()) {
            Ok(v) => v,
            Err(e) => {
                if self.object_type_symbol(object_type.as_str()).is_none() {
                    return Err(e);
                }
                let mut m = owned("no active '");
                push_text(&mut m, object_type.as_str());
                push_text(&mut m, "' objects have stateful events");
                proof { reveal_strlit("no active '"); reveal_strlit("' objects have stateful events"); }
                return Err(OcelError::new(m));
            },
        };
        let ghost objs = objects@;
        proof {
            let ot = symbol_of(*self, object_type@)->0;
            crate::counting::lemma_positions(self.objects@.len() as int, |o: int| self.objects@[o].type_symbol == ot);
            assert forall|x: int| 0 <= x < objs.len() implies #[trigger] objs[x] < self.objects@.len() by {
                assert(objs.map_values(|o: usize| o as int)[x] == objs[x] as int);
            }
        }
        let mut states: Vec<Option<String>> = Vec::new();
        let mut stateful: usize = 0;
        let mut i: usize = 0;
        while i < objects.len()
            invariant
                self.wf(),
                objs == objects@,
                forall|x: int| 0 <= x < objs.len() ==> #[trigger] objs[x] < self.objects@.len(),
                i <= objs.len(),
                states_ok(*self, st, objs.take(i as int), states@),
                stateful == count_where(i as int, |x: int| states@[x] is Some),
                stateful <= i,
            decreases objects.len() - i,
        {
            let s = self.dominant_object_state(objects[i], st);
            let ghost before = states@;
            if s.is_some() {
                stateful = stateful + 1;
            }
            states.push(s);
            proof {
                assert(objs.take(i + 1).drop_last() =~= objs.take(i as int));
                assert forall|x: int| 0 <= x < i implies before[x] == states@[x] by {}
                crate::counting::lemma_count_where_same(i as int, |x: int| before[x] is Some, |x: int| states@[x] is Some);
                assert forall|x: int| 0 <= x < i + 1 implies {
                    let s2 = lifecycle_states(*self, self.objects@[#[trigger] objs.take(i + 1)[x] as int].lifecycle@, Some(st));
                    match states@[x] {
                        Some(t) => dominant(s2, t@),
                        None => forall|t: Seq<char>| times(s2, t, s2.len() as int) == 0,
                    }
                } by {
                    if x < i {
                        assert(objs.take(i + 1)[x] == objs.take(i as int)[x]);
                    }
                }
            }
            i = i + 1;
        }
        assert(objs.take(objs.len() as int) =~= objs);
        if stateful == 0 {
            proof {
                lemma_none_stateful(states@, objs.len() as int);
                let ot = symbol_of(*self, object_type@)->0;
                assert forall|x: int| 0 <= x < objects_of_type(*self, ot).len() implies {
                    let s = lifecycle_states(*self, self.objects@[#[trigger] objects_of_type(*self, ot)[x]].lifecycle@, Some(st));
                    forall|t: Seq<char>| times(s, t, s.len() as int) == 0
                } by {
                    assert(objs.map_values(|o: usize| o as int)[x] == objs[x] as int);
                    assert(states@[x] is None);
                }
            }
            let mut m = owned("no active '");
            push_text(&mut m, object_type.as_str());
            push_text(&mut m, "' objects have stateful events");
            proof { reveal_strlit("no active '"); reveal_strlit("' objects have stateful events"); }
            return Err(OcelError::new(m));
        }
        let distribution = distribution_of(&states);
        Ok(StateCounts { object_type, objects, states, distribution, stateful_object_count: stateful })
    }
}

} // verus!
