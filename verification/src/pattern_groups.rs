use vstd::prelude::*;
use crate::counts::{
    TextPair, WeightedEdge, counted, map_sum, merge_counts, texts_sorted, text_set, insert_text,
};
use crate::counting::clamp_usize;
use crate::patterns::{PatternFamily, PatternInstance, InstanceView, texts, opt_text, opt_text_eq, texts_eq};
use crate::text::{owned, str_eq};
use crate::model::{CompactOcelLog, object_ok};
use crate::error::OcelError;
use crate::pool::Symbol;
use crate::counting::positions;
use crate::log_ops::{pairs_view, symbol_of, event_state_of};
use crate::episodes::{StateEpisode, runs, episodes_view, state_episodes, lemma_runs_maximal, runs_bounded};
use crate::patterns::{intra_instance, inter_instance, object_sl, sl_states, seg_ok};
use crate::text::{Order3, seq_order, text_order, push_text, nat_digits, count_to_text, lemma_seq_order_equal, lemma_seq_order_flip, lemma_seq_order_trans};
use crate::json::{Json, JsonValue, object, array, add_member, add_item, text_value, members_model, items_model};

verus! {

/// What makes two pattern instances the same pattern.
pub struct KeyView {
    pub family: PatternFamily,
    pub leading_object_type: Seq<char>,
    pub state: Seq<char>,
    pub to_state: Option<Seq<char>>,
    pub sequence: Seq<Seq<char>>,
    pub eo_pairs: Set<TextPair>,
    pub oo_pairs: Set<TextPair>,
}

pub open spec fn key_of(v: InstanceView) -> KeyView {
    KeyView {
        family: v.family,
        leading_object_type: v.leading_object_type,
        state: v.state,
        to_state: v.to_state,
        sequence: v.sequence,
        eo_pairs: v.eo.dom(),
        oo_pairs: v.oo.dom(),
    }
}

/// The instances of one pattern, summed up.
pub struct GroupView {
    pub key: KeyView,
    pub support: nat,
    pub mass: nat,
    pub object_types: Set<Seq<char>>,
    pub df: Map<TextPair, nat>,
    pub eo: Map<TextPair, nat>,
    pub oo: Map<TextPair, nat>,
}

/// Directly-follows steps of an instance's sequence.
pub open spec fn seq_mass(v: InstanceView) -> nat {
    if v.sequence.len() > 0 { (v.sequence.len() - 1) as nat } else { 0 }
}

pub open spec fn empty_group(k: KeyView) -> GroupView {
    GroupView {
        key: k,
        support: 0,
        mass: 0,
        object_types: Set::empty(),
        df: Map::empty(),
        eo: Map::empty(),
        oo: Map::empty(),
    }
}

pub open spec fn add_instance(g: GroupView, v: InstanceView) -> GroupView {
    GroupView {
        key: g.key,
        support: g.support + 1,
        mass: g.mass + seq_mass(v),
        object_types: g.object_types + v.object_types,
        df: map_sum(g.df, v.df),
        eo: map_sum(g.eo, v.eo),
        oo: map_sum(g.oo, v.oo),
    }
}

/// No two groups share a key.
pub open spec fn keys_distinct(gs: Seq<GroupView>) -> bool {
    forall|i: int, j: int| 0 <= i < j < gs.len() ==> (#[trigger] gs[i]).key != (#[trigger] gs[j]).key
}

/// Adds an instance to the group of its key, or starts that group.
pub open spec fn add_to_groups(gs: Seq<GroupView>, v: InstanceView) -> Seq<GroupView> {
    let k = key_of(v);
    if exists|i: int| 0 <= i < gs.len() && (#[trigger] gs[i]).key == k {
        let i = choose|i: int| 0 <= i < gs.len() && (#[trigger] gs[i]).key == k;
        gs.update(i, add_instance(gs[i], v))
    } else {
        gs.push(add_instance(empty_group(k), v))
    }
}

/// The groups of a list of instances, by key.
pub open spec fn groups_of(insts: Seq<InstanceView>) -> Seq<GroupView>
    decreases insts.len(),
{
    if insts.len() == 0 {
        Seq::empty()
    } else {
        add_to_groups(groups_of(insts.drop_last()), insts.last())
    }
}

pub proof fn lemma_groups_distinct(insts: Seq<InstanceView>)
    ensures
        keys_distinct(groups_of(insts)),
    decreases insts.len(),
{
    if insts.len() > 0 {
        lemma_groups_distinct(insts.drop_last());
    }
}

/// The pairs that are keys of an edge list.
pub open spec fn key_set(es: Seq<WeightedEdge>) -> Set<TextPair> {
    Set::new(|k: TextPair| exists|i: int| 0 <= i < es.len() && es[i].key() == k)
}

/// The instances of one pattern, as the detection gathers them.
pub struct PatternAccumulator {
    pub family: PatternFamily,
    pub leading_object_type: String,
    pub state: String,
    pub to_state: Option<String>,
    pub sequence: Vec<String>,
    /// Event-to-object-type pairs of the pattern.
    pub eo_keys: Vec<WeightedEdge>,
    /// Object-type pairs of the pattern.
    pub oo_keys: Vec<WeightedEdge>,
    pub support: usize,
    pub mass: usize,
    pub object_types: Vec<String>,
    pub df_edges: Vec<WeightedEdge>,
    pub eo_edges: Vec<WeightedEdge>,
    pub oo_edges: Vec<WeightedEdge>,
}

impl PatternAccumulator {
    /// The accumulator holds the group `g`.
    pub open spec fn holds(self, g: GroupView) -> bool {
        &&& self.family == g.key.family
        &&& self.leading_object_type@ == g.key.leading_object_type
        &&& self.state@ == g.key.state
        &&& opt_text(self.to_state) == g.key.to_state
        &&& texts(self.sequence@) == g.key.sequence
        &&& key_set(self.eo_keys@) == g.key.eo_pairs
        &&& key_set(self.oo_keys@) == g.key.oo_pairs
        &&& self.support == clamp_usize(g.support)
        &&& self.mass == clamp_usize(g.mass)
        &&& texts_sorted(self.object_types@)
        &&& text_set(self.object_types@) == g.object_types
        &&& counted(self.df_edges@, g.df)
        &&& counted(self.eo_edges@, g.eo)
        &&& counted(self.oo_edges@, g.oo)
    }
}

/// The accumulators hold the groups, one by one.
pub open spec fn all_hold(accs: Seq<PatternAccumulator>, gs: Seq<GroupView>) -> bool {
    accs.len() == gs.len() && forall|i: int| 0 <= i < gs.len() ==> (#[trigger] accs[i]).holds(gs[i])
}

fn copy_edges(es: &Vec<WeightedEdge>) -> (r: Vec<WeightedEdge>)
    ensures
        r@.len() == es@.len(),
        forall|i: int| 0 <= i < es@.len() ==> (#[trigger] r@[i]).key() == es@[i].key() && r@[i].weight == es@[i].weight,
{
    let mut out: Vec<WeightedEdge> = Vec::new();
    let mut i: usize = 0;
    while i < es.len()
        invariant
            i <= es@.len(),
            out@.len() == i,
            forall|k: int| 0 <= k < i ==> (#[trigger] out@[k]).key() == es@[k].key() && out@[k].weight == es@[k].weight,
        decreases es.len() - i,
    {
        let e = &es[i];
        out.push(WeightedEdge { source: owned(e.source.as_str()), target: owned(e.target.as_str()), weight: e.weight });
        i = i + 1;
    }
    out
}

fn copy_texts(v: &Vec<String>) -> (r: Vec<String>)
    ensures
        texts(r@) == texts(v@),
{
    let mut out: Vec<String> = Vec::new();
    let mut i: usize = 0;
    while i < v.len()
        invariant
            i <= v@.len(),
            texts(out@) == texts(v@.take(i as int)),
        decreases v.len() - i,
    {
        let ghost before = out@;
        out.push(owned(v[i].as_str()));
        proof {
            assert(texts(out@) =~= texts(before).push(v@[i as int]@));
            assert(v@.take(i + 1) =~= v@.take(i as int).push(v@[i as int]));
            assert(texts(out@) =~= texts(v@.take(i + 1)));
        }
        i = i + 1;
    }
    assert(v@.take(v@.len() as int) =~= v@);
    out
}

fn copy_opt_text(o: &Option<String>) -> (r: Option<String>)
    ensures
        opt_text(r) == opt_text(*o),
{
    match o {
        Some(s) => Some(owned(s.as_str())),
        None => None,
    }
}

/// Whether two edge lists have the same keys.
fn same_key_set(a: &Vec<WeightedEdge>, b: &Vec<WeightedEdge>) -> (r: bool)
    ensures
        r == (key_set(a@) == key_set(b@)),
{
    let mut i: usize = 0;
    while i < a.len()
        invariant
            i <= a@.len(),
            forall|k: int| 0 <= k < i ==> key_set(b@).contains(#[trigger] a@[k].key()),
        decreases a.len() - i,
    {
        let mut found = false;
        let mut j: usize = 0;
        while j < b.len()
            invariant
                i < a@.len(),
                j <= b@.len(),
                found == exists|x: int| 0 <= x < j && b@[x].key() == a@[i as int].key(),
            decreases b.len() - j,
        {
            if str_eq(b[j].source.as_str(), a[i].source.as_str()) && str_eq(b[j].target.as_str(), a[i].target.as_str()) {
                found = true;
            }
            j = j + 1;
        }
        if !found {
            proof {
                assert(key_set(a@).contains(a@[i as int].key()));
                if key_set(b@).contains(a@[i as int].key()) {
                    let x = choose|x: int| 0 <= x < b@.len() && b@[x].key() == a@[i as int].key();
                }
            }
            return false;
        }
        i = i + 1;
    }
    let mut j: usize = 0;
    while j < b.len()
        invariant
            j <= b@.len(),
            forall|k: int| 0 <= k < a@.len() ==> key_set(b@).contains(#[trigger] a@[k].key()),
            forall|k: int| 0 <= k < j ==> key_set(a@).contains(#[trigger] b@[k].key()),
        decreases b.len() - j,
    {
        let mut found = false;
        let mut i: usize = 0;
        while i < a.len()
            invariant
                j < b@.len(),
                i <= a@.len(),
                found == exists|x: int| 0 <= x < i && a@[x].key() == b@[j as int].key(),
            decreases a.len() - i,
        {
            if str_eq(a[i].source.as_str(), b[j].source.as_str()) && str_eq(a[i].target.as_str(), b[j].target.as_str()) {
                found = true;
            }
            i = i + 1;
        }
        if !found {
            proof {
                assert(key_set(b@).contains(b@[j as int].key()));
                if key_set(a@).contains(b@[j as int].key()) {
                    let x = choose|x: int| 0 <= x < a@.len() && a@[x].key() == b@[j as int].key();
                }
            }
            return false;
        }
        j = j + 1;
    }
    proof {
        assert forall|k: TextPair| key_set(a@).contains(k) <==> key_set(b@).contains(k) by {
            if key_set(a@).contains(k) {
                let x = choose|x: int| 0 <= x < a@.len() && a@[x].key() == k;
                assert(key_set(b@).contains(a@[x].key()));
            }
            if key_set(b@).contains(k) {
                let x = choose|x: int| 0 <= x < b@.len() && b@[x].key() == k;
                assert(key_set(a@).contains(b@[x].key()));
            }
        }
        assert(key_set(a@) =~= key_set(b@));
    }
    true
}

pub proof fn lemma_counted_keys(es: Seq<WeightedEdge>, m: Map<TextPair, nat>)
    requires
        counted(es, m),
    ensures
        key_set(es) == m.dom(),
{
    assert forall|k: TextPair| key_set(es).contains(k) <==> m.dom().contains(k) by {
        if key_set(es).contains(k) {
            let x = choose|x: int| 0 <= x < es.len() && es[x].key() == k;
        }
    }
    assert(key_set(es) =~= m.dom());
}

proof fn lemma_same_keys(a: Seq<WeightedEdge>, b: Seq<WeightedEdge>)
    requires
        a.len() == b.len(),
        forall|i: int| 0 <= i < b.len() ==> (#[trigger] a[i]).key() == b[i].key(),
    ensures
        key_set(a) == key_set(b),
{
    assert forall|k: TextPair| key_set(a).contains(k) <==> key_set(b).contains(k) by {
        if key_set(a).contains(k) {
            let x = choose|x: int| 0 <= x < a.len() && a[x].key() == k;
            assert(b[x].key() == k);
        }
        if key_set(b).contains(k) {
            let x = choose|x: int| 0 <= x < b.len() && b[x].key() == k;
            assert(a[x].key() == k);
        }
    }
    assert(key_set(a) =~= key_set(b));
}

/// Adds the texts of `src` to a sorted list of distinct texts.
fn union_texts(dst: &mut Vec<String>, src: &Vec<String>)
    requires
        texts_sorted(old(dst)@),
    ensures
        texts_sorted(final(dst)@),
        text_set(final(dst)@) == text_set(old(dst)@) + text_set(src@),
{
    let mut i: usize = 0;
    assert(text_set(src@.take(0)) =~= Set::<Seq<char>>::empty());
    assert(text_set(dst@) + text_set(src@.take(0)) =~= text_set(dst@));
    while i < src.len()
        invariant
            texts_sorted(dst@),
            i <= src@.len(),
            text_set(dst@) == text_set(old(dst)@) + text_set(src@.take(i as int)),
        decreases src.len() - i,
    {
        insert_text(dst, src[i].as_str());
        proof {
            assert forall|t: Seq<char>| text_set(src@.take(i + 1)).contains(t) <==> text_set(src@.take(i as int)).insert(src@[i as int]@).contains(t) by {
                if text_set(src@.take(i + 1)).contains(t) {
                    let x = choose|x: int| 0 <= x < src@.take(i + 1).len() && (#[trigger] src@.take(i + 1)[x])@ == t;
                    if x < i {
                        assert(src@.take(i as int)[x] == src@.take(i + 1)[x]);
                    }
                }
                if text_set(src@.take(i as int)).contains(t) {
                    let x = choose|x: int| 0 <= x < src@.take(i as int).len() && (#[trigger] src@.take(i as int)[x])@ == t;
                    assert(src@.take(i + 1)[x] == src@.take(i as int)[x]);
                }
                if t == src@[i as int]@ {
                    assert(src@.take(i + 1)[i as int] == src@[i as int]);
                }
            }
            assert(text_set(src@.take(i + 1)) =~= text_set(src@.take(i as int)).insert(src@[i as int]@));
            assert(text_set(dst@) =~= text_set(old(dst)@) + text_set(src@.take(i + 1)));
        }
        i = i + 1;
    }
    assert(src@.take(src@.len() as int) =~= src@);
}

impl PatternAccumulator {
    /// A group with the key of `inst` and nothing in it yet.
    pub fn new(inst: &PatternInstance, Ghost(v): Ghost<InstanceView>) -> (r: PatternAccumulator)
        requires
            inst.holds(v),
        ensures
            r.holds(empty_group(key_of(v))),
    {
        let eo_keys = copy_edges(&inst.eo_edges);
        let oo_keys = copy_edges(&inst.oo_edges);
        proof {
            lemma_counted_keys(inst.eo_edges@, v.eo);
            lemma_counted_keys(inst.oo_edges@, v.oo);
            lemma_same_keys(eo_keys@, inst.eo_edges@);
            lemma_same_keys(oo_keys@, inst.oo_edges@);
            assert(text_set(Seq::<String>::empty()) =~= Set::<Seq<char>>::empty());
        }
        PatternAccumulator {
            family: inst.family,
            leading_object_type: owned(inst.leading_object_type.as_str()),
            state: owned(inst.state.as_str()),
            to_state: copy_opt_text(&inst.to_state),
            sequence: copy_texts(&inst.sequence),
            eo_keys,
            oo_keys,
            support: 0,
            mass: 0,
            object_types: Vec::new(),
            df_edges: Vec::new(),
            eo_edges: Vec::new(),
            oo_edges: Vec::new(),
        }
    }

    /// Adds an instance of the pattern.
    pub fn add(&mut self, inst: &PatternInstance, Ghost(g): Ghost<GroupView>, Ghost(v): Ghost<InstanceView>)
        requires
            old(self).holds(g),
            inst.holds(v),
        ensures
            final(self).holds(add_instance(g, v)),
    {
        self.support = self.support.saturating_add(1);
        let steps = if inst.sequence.len() > 0 { inst.sequence.len() - 1 } else { 0 };
        self.mass = self.mass.saturating_add(steps);
        union_texts(&mut self.object_types, &inst.object_types);
        merge_counts(&mut self.df_edges, &inst.df_edges, Ghost(g.df), Ghost(v.df));
        merge_counts(&mut self.eo_edges, &inst.eo_edges, Ghost(g.eo), Ghost(v.eo));
        merge_counts(&mut self.oo_edges, &inst.oo_edges, Ghost(g.oo), Ghost(v.oo));
        proof {
            assert(texts(inst.sequence@).len() == inst.sequence@.len());
        }
    }

    /// Whether the instance has this pattern's key.
    pub fn has_key_of(&self, inst: &PatternInstance, Ghost(g): Ghost<GroupView>, Ghost(v): Ghost<InstanceView>) -> (r: bool)
        requires
            self.holds(g),
            inst.holds(v),
        ensures
            r == (g.key == key_of(v)),
    {
        proof {
            lemma_counted_keys(inst.eo_edges@, v.eo);
            lemma_counted_keys(inst.oo_edges@, v.oo);
        }
        self.family == inst.family && str_eq(self.leading_object_type.as_str(), inst.leading_object_type.as_str())
            && str_eq(self.state.as_str(), inst.state.as_str()) && opt_text_eq(&self.to_state, &inst.to_state)
            && texts_eq(&self.sequence, &inst.sequence) && same_key_set(&self.eo_keys, &inst.eo_edges)
            && same_key_set(&self.oo_keys, &inst.oo_edges)
    }
}

/// Adds an instance to the accumulator of its pattern, or starts one.
pub fn insert_pattern_instance(
    accs: &mut Vec<PatternAccumulator>,
    inst: &PatternInstance,
    Ghost(gs): Ghost<Seq<GroupView>>,
    Ghost(v): Ghost<InstanceView>,
)
    requires
        all_hold(old(accs)@, gs),
        keys_distinct(gs),
        inst.holds(v),
    ensures
        all_hold(final(accs)@, add_to_groups(gs, v)),
{
    let mut i: usize = 0;
    while i < accs.len()
        invariant
            all_hold(accs@, gs),
            keys_distinct(gs),
            accs@ == old(accs)@,
            inst.holds(v),
            i <= accs@.len(),
            forall|k: int| 0 <= k < i ==> (#[trigger] gs[k]).key != key_of(v),
        decreases accs.len() - i,
    {
        if accs[i].has_key_of(inst, Ghost(gs[i as int]), Ghost(v)) {
            proof {
                assert forall|k: int| 0 <= k < gs.len() && (#[trigger] gs[k]).key == key_of(v) implies k == i as int by {
                    if k != i as int {
                        if k < i {
                        } else {
                            assert(gs[i as int].key != gs[k].key);
                        }
                    }
                }
            }
            let mut acc = accs.remove(i);
            acc.add(inst, Ghost(gs[i as int]), Ghost(v));
            accs.insert(i, acc);
            proof {
                let out = add_to_groups(gs, v);
                assert(out == gs.update(i as int, add_instance(gs[i as int], v)));
                assert forall|k: int| 0 <= k < out.len() implies (#[trigger] accs@[k]).holds(out[k]) by {
                    if k != i as int {
                        assert(accs@[k] == old(accs)@[k]);
                    }
                }
            }
            return;
        }
        i = i + 1;
    }
    let mut acc = PatternAccumulator::new(inst, Ghost(v));
    acc.add(inst, Ghost(empty_group(key_of(v))), Ghost(v));
    accs.push(acc);
    proof {
        let out = add_to_groups(gs, v);
        assert(out == gs.push(add_instance(empty_group(key_of(v)), v)));
        assert forall|k: int| 0 <= k < out.len() implies (#[trigger] accs@[k]).holds(out[k]) by {
            if k < gs.len() {
                assert(accs@[k] == old(accs)@[k]);
            }
        }
    }
}

/// Intra-state instances of the object at `oi`, one per episode.
pub open spec fn object_intra(log: CompactOcelLog, oi: int, st: Symbol) -> Seq<InstanceView> {
    let sl = object_sl(log, oi, st);
    let eps = runs(sl_states(sl));
    Seq::new(eps.len(), |i: int| intra_instance(log, oi, sl, eps[i]))
}

/// Inter-state instances of the object at `oi`, one per change of state
/// between neighbouring episodes.
pub open spec fn object_inter(log: CompactOcelLog, oi: int, st: Symbol) -> Seq<InstanceView> {
    let sl = object_sl(log, oi, st);
    let eps = runs(sl_states(sl));
    positions(eps.len() - 1, |i: int| eps[i].0 != eps[i + 1].0).map_values(
        |i: int| inter_instance(log, oi, sl, eps[i], eps[i + 1]),
    )
}

/// The object at `oi` may lead patterns: it has the leading type, when the
/// log names one.
pub open spec fn leads(log: CompactOcelLog, oi: int) -> bool {
    match log.state_leading_object_type {
        Some(t) => log.objects@[oi].type_symbol == t,
        None => true,
    }
}

/// Intra-state instances of the first `n` objects.
pub open spec fn intra_all(log: CompactOcelLog, st: Symbol, n: int) -> Seq<InstanceView>
    decreases n,
{
    if n <= 0 {
        Seq::empty()
    } else {
        intra_all(log, st, n - 1) + if leads(log, n - 1) { object_intra(log, n - 1, st) } else { Seq::empty() }
    }
}

/// Inter-state instances of the first `n` objects.
pub open spec fn inter_all(log: CompactOcelLog, st: Symbol, n: int) -> Seq<InstanceView>
    decreases n,
{
    if n <= 0 {
        Seq::empty()
    } else {
        inter_all(log, st, n - 1) + if leads(log, n - 1) { object_inter(log, n - 1, st) } else { Seq::empty() }
    }
}

/// Some event carries a state.
pub open spec fn some_state(log: CompactOcelLog, st: Symbol) -> bool {
    exists|i: int| 0 <= i < log.events@.len() && (event_state_of(log, #[trigger] log.events@[i], st) is Some)
}

impl CompactOcelLog {
    fn has_some_state(&self, st: Symbol) -> (r: bool)
        requires
            self.wf(),
        ensures
            r == some_state(*self, st),
    {
        let mut i: usize = 0;
        while i < self.events.len()
            invariant
                self.wf(),
                i <= self.events@.len(),
                forall|k: int| 0 <= k < i ==> event_state_of(*self, #[trigger] self.events@[k], st) is None,
            decreases self.events.len() - i,
        {
            if self.event_state(i, st).is_some() {
                return true;
            }
            i = i + 1;
        }
        false
    }

    /// Adds the instances of one object to the accumulators.
    fn collect_object_patterns(
        &self,
        oi: usize,
        st: Symbol,
        intra: &mut Vec<PatternAccumulator>,
        inter: &mut Vec<PatternAccumulator>,
        Ghost(pi): Ghost<Seq<InstanceView>>,
        Ghost(pe): Ghost<Seq<InstanceView>>,
    )
        requires
            self.wf(),
            oi < self.objects@.len(),
            all_hold(old(intra)@, groups_of(pi)),
            all_hold(old(inter)@, groups_of(pe)),
        ensures
            all_hold(final(intra)@, groups_of(pi + object_intra(*self, oi as int, st))),
            all_hold(final(inter)@, groups_of(pe + object_inter(*self, oi as int, st))),
    {
        let ghost o = oi as int;
        let sl = self.stateful_lifecycle(oi, st);
        let eps = state_episodes(&sl);
        let ghost slv = pairs_view(sl@);
        let ghost ev = episodes_view(eps@);
        proof {
            assert(sl@.map_values(|p: (usize, String)| p.1@) =~= sl_states(slv));
            lemma_runs_maximal(sl_states(slv));
            assert(runs_bounded(sl@.len() as int, ev));
            assert(seg_ok(*self, sl@));
        }
        let ghost oiv = object_intra(*self, o, st);
        let ghost oev = object_inter(*self, o, st);
        let mut i: usize = 0;
        assert(pi + oiv.take(0) =~= pi);
        while i < eps.len()
            invariant
                self.wf(),
                oi < self.objects@.len(),
                o == oi as int,
                seg_ok(*self, sl@),
                slv == pairs_view(sl@),
                slv == object_sl(*self, o, st),
                ev == episodes_view(eps@),
                ev == runs(sl_states(slv)),
                runs_bounded(sl@.len() as int, ev),
                oiv == object_intra(*self, o, st),
                oiv.len() == ev.len(),
                i <= eps@.len(),
                all_hold(intra@, groups_of(pi + oiv.take(i as int))),
            decreases eps.len() - i,
        {
            proof {
                assert(ev[i as int] == eps@[i as int].view3());
                assert(0 <= ev[i as int].1 <= ev[i as int].2 < sl@.len());
                lemma_groups_distinct(pi + oiv.take(i as int));
                assert((pi + oiv.take(i + 1)).drop_last() =~= pi + oiv.take(i as int));
                assert(oiv[i as int] == intra_instance(*self, o, slv, ev[i as int]));
            }
            let inst = self.intra_instance_at(oi, &sl, &eps[i]);
            insert_pattern_instance(intra, &inst, Ghost(groups_of(pi + oiv.take(i as int))), Ghost(oiv[i as int]));
            i = i + 1;
        }
        assert(oiv.take(eps@.len() as int) =~= oiv);
        if eps.len() == 0 {
            proof {
                assert(oev =~= Seq::<InstanceView>::empty());
                assert(pe + oev =~= pe);
            }
            return;
        }
        let ghost pred = |x: int| ev[x].0 != ev[x + 1].0;
        proof {
            assert(oev == positions(ev.len() - 1, pred).map_values(|x: int| inter_instance(*self, o, slv, ev[x], ev[x + 1])));
            assert(pe + positions(0, pred).map_values(|x: int| inter_instance(*self, o, slv, ev[x], ev[x + 1])) =~= pe);
        }
        let mut i: usize = 0;
        while i < eps.len() - 1
            invariant
                self.wf(),
                oi < self.objects@.len(),
                o == oi as int,
                seg_ok(*self, sl@),
                slv == pairs_view(sl@),
                ev == episodes_view(eps@),
                runs_bounded(sl@.len() as int, ev),
                eps@.len() > 0,
                pred == |x: int| ev[x].0 != ev[x + 1].0,
                i <= eps@.len() - 1,
                all_hold(inter@, groups_of(pe + positions(i as int, pred).map_values(|x: int| inter_instance(*self, o, slv, ev[x], ev[x + 1])))),
            decreases eps.len() - i,
        {
            let ghost done = pe + positions(i as int, pred).map_values(|x: int| inter_instance(*self, o, slv, ev[x], ev[x + 1]));
            let ghost next = pe + positions(i + 1, pred).map_values(|x: int| inter_instance(*self, o, slv, ev[x], ev[x + 1]));
            proof {
                assert(ev[i as int] == eps@[i as int].view3());
                assert(ev[i + 1] == eps@[i + 1].view3());
                assert(0 <= ev[i as int].1 <= ev[i as int].2 < sl@.len());
                assert(0 <= ev[i + 1].1 <= ev[i + 1].2 < sl@.len());
            }
            if !str_eq(eps[i].state.as_str(), eps[i + 1].state.as_str()) {
                proof {
                    lemma_groups_distinct(done);
                    assert(positions(i + 1, pred) == positions(i as int, pred).push(i as int));
                    assert(next =~= done.push(inter_instance(*self, o, slv, ev[i as int], ev[i + 1])));
                    assert(next.drop_last() =~= done);
                }
                let inst = self.inter_instance_at(oi, &sl, &eps[i], &eps[i + 1]);
                insert_pattern_instance(inter, &inst, Ghost(groups_of(done)), Ghost(inter_instance(*self, o, slv, ev[i as int], ev[i + 1])));
            } else {
                proof {
                    assert(positions(i + 1, pred) == positions(i as int, pred));
                    assert(next =~= done);
                }
            }
            i = i + 1;
        }
    }
}

/// The text by which patterns of equal support and mass are ordered.
pub open spec fn sort_label(k: KeyView) -> Seq<char> {
    match k.to_state {
        Some(t) => k.state + " -> "@ + t + " "@ + k.leading_object_type,
        None => k.state + " "@ + k.leading_object_type,
    }
}

/// The label shown for a pattern.
pub open spec fn pattern_label(k: KeyView) -> Seq<char> {
    match k.to_state {
        Some(t) => k.state + " -> "@ + t + " on "@ + k.leading_object_type,
        None => k.state + " on "@ + k.leading_object_type,
    }
}

/// `a` may come before `b`: more support, then more mass, then the smaller
/// sort label.
pub open spec fn ranks_before(a: GroupView, b: GroupView) -> bool {
    let sa = clamp_usize(a.support);
    let sb = clamp_usize(b.support);
    let ma = clamp_usize(a.mass);
    let mb = clamp_usize(b.mass);
    sa > sb || (sa == sb && (ma > mb || (ma == mb && seq_order(sort_label(a.key), sort_label(b.key)) != Order3::Greater)))
}

pub open spec fn ranked(s: Seq<GroupView>) -> bool {
    forall|i: int, j: int| 0 <= i < j < s.len() ==> ranks_before(#[trigger] s[i], #[trigger] s[j])
}

proof fn lemma_ranks(a: GroupView, b: GroupView, c: GroupView)
    ensures
        !ranks_before(a, b) ==> ranks_before(b, a),
        ranks_before(a, b) && ranks_before(b, c) ==> ranks_before(a, c),
{
    let la = sort_label(a.key);
    let lb = sort_label(b.key);
    let lc = sort_label(c.key);
    lemma_seq_order_flip(la, lb);
    lemma_seq_order_flip(lb, la);
    lemma_seq_order_equal(la, lb);
    lemma_seq_order_equal(lb, lc);
    lemma_seq_order_equal(la, lc);
    if seq_order(la, lb) == Order3::Less && seq_order(lb, lc) == Order3::Less {
        lemma_seq_order_trans(la, lb, lc);
    }
}

/// Edge items of a summary.
pub open spec fn edge_items(es: Seq<WeightedEdge>) -> Seq<Json> {
    es.map_values(
        |e: WeightedEdge| Json::Object(seq![("source"@, Json::Str(e.source@)), ("target"@, Json::Str(e.target@)), ("weight"@, Json::Int(e.weight as int))]),
    )
}

pub open spec fn text_items(v: Seq<Seq<char>>) -> Seq<Json> {
    v.map_values(|t: Seq<char>| Json::Str(t))
}

/// `js` lists the counts of `m` by key order.
pub open spec fn edges_json_ok(js: Seq<Json>, m: Map<TextPair, nat>) -> bool {
    exists|es: Seq<WeightedEdge>| counted(es, m) && js == edge_items(es)
}

/// `js` lists the texts of `set` in text order.
pub open spec fn texts_json_ok(js: Seq<Json>, set: Set<Seq<char>>) -> bool {
    exists|ts: Seq<String>| texts_sorted(ts) && text_set(ts) == set && js == text_items(texts(ts))
}

pub open spec fn opt_json(o: Option<Seq<char>>) -> Json {
    match o {
        Some(t) => Json::Str(t),
        None => Json::Null,
    }
}

/// `j` is the summary of the group `g`, ranked `index`.
pub open spec fn summary_ok(g: GroupView, index: nat, j: Json) -> bool {
    let k = g.key;
    let fam = k.family.name();
    exists|ot: Seq<Json>, df: Seq<Json>, eo: Seq<Json>, oo: Seq<Json>|
        #![trigger texts_json_ok(ot, g.object_types), edges_json_ok(df, g.df), edges_json_ok(eo, g.eo), edges_json_ok(oo, g.oo)]
        texts_json_ok(ot, g.object_types) && edges_json_ok(df, g.df) && edges_json_ok(eo, g.eo) && edges_json_ok(oo, g.oo)
        && j == Json::Object(
            seq![
                ("id"@, Json::Str(fam + "-"@ + nat_digits(index))),
                ("family"@, Json::Str(fam)),
                ("label"@, Json::Str(pattern_label(k))),
                ("leading_object_type"@, Json::Str(k.leading_object_type)),
                ("state"@, if k.family == PatternFamily::Intra { Json::Str(k.state) } else { Json::Null }),
                ("from_state"@, if k.family == PatternFamily::Inter { Json::Str(k.state) } else { Json::Null }),
                ("to_state"@, opt_json(k.to_state)),
                ("support"@, Json::Int(clamp_usize(g.support) as int)),
                ("mass"@, Json::Int(clamp_usize(g.mass) as int)),
                ("sequence"@, Json::Array(text_items(k.sequence))),
                ("object_types"@, Json::Array(ot)),
                ("df_edges"@, Json::Array(df)),
                ("eo_edges"@, Json::Array(eo)),
                ("oo_edges"@, Json::Array(oo)),
            ],
        )
}

/// `js` summarises the groups `gs` in rank order.
pub open spec fn ranked_summaries(gs: Seq<GroupView>, js: Seq<Json>) -> bool {
    exists|order: Seq<GroupView>|
        order.to_multiset() == gs.to_multiset() && ranked(order) && js.len() == order.len() && forall|i: int|
            0 <= i < order.len() ==> summary_ok(#[trigger] order[i], (i + 1) as nat, js[i])
}

fn edges_to_json(es: &Vec<WeightedEdge>) -> (j: JsonValue)
    ensures
        j.model() == Json::Array(edge_items(es@)),
{
    let mut items: Vec<JsonValue> = Vec::new();
    let mut i: usize = 0;
    while i < es.len()
        invariant
            i <= es@.len(),
            items_model(items@) =~= edge_items(es@.take(i as int)),
        decreases es.len() - i,
    {
        let e = &es[i];
        let mut ms: Vec<(String, JsonValue)> = Vec::new();
        add_member(&mut ms, "source", text_value(e.source.as_str()));
        add_member(&mut ms, "target", text_value(e.target.as_str()));
        add_member(&mut ms, "weight", JsonValue::Count(e.weight));
        let o = object(ms);
        assert(members_model(ms@) =~= seq![("source"@, Json::Str(e.source@)), ("target"@, Json::Str(e.target@)), ("weight"@, Json::Int(e.weight as int))]);
        add_item(&mut items, o);
        assert(es@.take(i + 1) =~= es@.take(i as int).push(es@[i as int]));
        i = i + 1;
    }
    assert(es@.take(es@.len() as int) =~= es@);
    array(items)
}

fn texts_to_json(v: &Vec<String>) -> (j: JsonValue)
    ensures
        j.model() == Json::Array(text_items(texts(v@))),
{
    let mut items: Vec<JsonValue> = Vec::new();
    let mut i: usize = 0;
    while i < v.len()
        invariant
            i <= v@.len(),
            items_model(items@) =~= text_items(texts(v@.take(i as int))),
        decreases v.len() - i,
    {
        add_item(&mut items, text_value(v[i].as_str()));
        assert(v@.take(i + 1) =~= v@.take(i as int).push(v@[i as int]));
        i = i + 1;
    }
    assert(v@.take(v@.len() as int) =~= v@);
    array(items)
}

fn opt_to_json(o: &Option<String>) -> (j: JsonValue)
    ensures
        j.model() == opt_json(opt_text(*o)),
{
    match o {
        Some(t) => text_value(t.as_str()),
        None => JsonValue::Null,
    }
}

impl PatternAccumulator {
    fn sort_label_text(&self) -> (r: String)
        ensures
            r@ == match opt_text(self.to_state) {
                Some(t) => self.state@ + " -> "@ + t + " "@ + self.leading_object_type@,
                None => self.state@ + " "@ + self.leading_object_type@,
            },
    {
        let mut out = owned(self.state.as_str());
        match &self.to_state {
            Some(t) => {
                push_text(&mut out, " -> ");
                push_text(&mut out, t.as_str());
                push_text(&mut out, " ");
                push_text(&mut out, self.leading_object_type.as_str());
            },
            None => {
                push_text(&mut out, " ");
                push_text(&mut out, self.leading_object_type.as_str());
            },
        }
        out
    }

    /// Whether this pattern may be ranked before `other`.
    fn ranks_before(&self, other: &PatternAccumulator, Ghost(a): Ghost<GroupView>, Ghost(b): Ghost<GroupView>) -> (r: bool)
        requires
            self.holds(a),
            other.holds(b),
        ensures
            r == ranks_before(a, b),
    {
        if self.support != other.support {
            return self.support > other.support;
        }
        if self.mass != other.mass {
            return self.mass > other.mass;
        }
        let la = self.sort_label_text();
        let lb = other.sort_label_text();
        text_order(la.as_str(), lb.as_str()) != Order3::Greater
    }

    /// The summary of this pattern at rank `index`.
    fn to_summary_json(&self, index: usize, Ghost(g): Ghost<GroupView>) -> (j: JsonValue)
        requires
            self.holds(g),
        ensures
            summary_ok(g, index as nat, j.model()),
    {
        let fam = self.family.as_str();
        let mut id = owned(fam);
        push_text(&mut id, "-");
        push_text(&mut id, count_to_text(index).as_str());
        let mut label = owned(self.state.as_str());
        match &self.to_state {
            Some(t) => {
                push_text(&mut label, " -> ");
                push_text(&mut label, t.as_str());
            },
            None => {},
        }
        push_text(&mut label, " on ");
        push_text(&mut label, self.leading_object_type.as_str());
        let state = match self.family {
            PatternFamily::Intra => text_value(self.state.as_str()),
            PatternFamily::Inter => JsonValue::Null,
        };
        let from_state = match self.family {
            PatternFamily::Inter => text_value(self.state.as_str()),
            PatternFamily::Intra => JsonValue::Null,
        };
        let ot = texts_to_json(&self.object_types);
        let df = edges_to_json(&self.df_edges);
        let eo = edges_to_json(&self.eo_edges);
        let oo = edges_to_json(&self.oo_edges);
        let ghost otm = ot.model()->Array_0;
        let ghost dfm = df.model()->Array_0;
        let ghost eom = eo.model()->Array_0;
        let ghost oom = oo.model()->Array_0;
        let mut ms: Vec<(String, JsonValue)> = Vec::new();
        add_member(&mut ms, "id", JsonValue::Str(id));
        add_member(&mut ms, "family", text_value(fam));
        add_member(&mut ms, "label", JsonValue::Str(label));
        add_member(&mut ms, "leading_object_type", text_value(self.leading_object_type.as_str()));
        add_member(&mut ms, "state", state);
        add_member(&mut ms, "from_state", from_state);
        add_member(&mut ms, "to_state", opt_to_json(&self.to_state));
        add_member(&mut ms, "support", JsonValue::Count(self.support));
        add_member(&mut ms, "mass", JsonValue::Count(self.mass));
        add_member(&mut ms, "sequence", texts_to_json(&self.sequence));
        add_member(&mut ms, "object_types", ot);
        add_member(&mut ms, "df_edges", df);
        add_member(&mut ms, "eo_edges", eo);
        add_member(&mut ms, "oo_edges", oo);
        let j = object(ms);
        proof {
            assert(texts_json_ok(otm, g.object_types));
            assert(edges_json_ok(dfm, g.df));
            assert(edges_json_ok(eom, g.eo));
            assert(edges_json_ok(oom, g.oo));
            let k = g.key;
            let want = seq![
                ("id"@, Json::Str(k.family.name() + "-"@ + nat_digits(index as nat))),
                ("family"@, Json::Str(k.family.name())),
                ("label"@, Json::Str(pattern_label(k))),
                ("leading_object_type"@, Json::Str(k.leading_object_type)),
                ("state"@, if k.family == PatternFamily::Intra { Json::Str(k.state) } else { Json::Null }),
                ("from_state"@, if k.family == PatternFamily::Inter { Json::Str(k.state) } else { Json::Null }),
                ("to_state"@, opt_json(k.to_state)),
                ("support"@, Json::Int(clamp_usize(g.support) as int)),
                ("mass"@, Json::Int(clamp_usize(g.mass) as int)),
                ("sequence"@, Json::Array(text_items(k.sequence))),
                ("object_types"@, Json::Array(otm)),
                ("df_edges"@, Json::Array(dfm)),
                ("eo_edges"@, Json::Array(eom)),
                ("oo_edges"@, Json::Array(oom)),
            ];
            assert(members_model(ms@) =~= want);
        }
        j
    }
}

/// Summaries of the patterns, ranked by support, then mass, then label.
pub fn summarize_patterns(accs: Vec<PatternAccumulator>, Ghost(gs): Ghost<Seq<GroupView>>) -> (r: JsonValue)
    requires
        all_hold(accs@, gs),
    ensures
        r.model() is Array,
        ranked_summaries(gs, r.model()->Array_0),
{
    let mut sorted: Vec<PatternAccumulator> = Vec::new();
    let ghost mut order: Seq<GroupView> = Seq::empty();
    let mut rest = accs;
    let ghost mut rest_g = gs;
    proof {
        broadcast use vstd::seq_lib::group_to_multiset_ensures, vstd::multiset::group_multiset_axioms;
        assert(order.to_multiset() =~= vstd::multiset::Multiset::<GroupView>::empty());
        assert(order.to_multiset().add(rest_g.to_multiset()) =~= gs.to_multiset());
    }
    while rest.len() > 0
        invariant
            all_hold(sorted@, order),
            all_hold(rest@, rest_g),
            order.to_multiset().add(rest_g.to_multiset()) == gs.to_multiset(),
            ranked(order),
        decreases rest.len(),
    {
        let x = rest.pop().unwrap();
        let ghost xg = rest_g.last();
        let ghost old_rest = rest_g;
        proof {
            assert(x.holds(xg));
            rest_g = rest_g.drop_last();
            assert(old_rest =~= rest_g.push(xg));
        }
        let mut p: usize = 0;
        loop
            invariant
                all_hold(sorted@, order),
                x.holds(xg),
                ranked(order),
                p <= sorted@.len(),
                forall|q: int| 0 <= q < p ==> ranks_before(#[trigger] order[q], xg),
            ensures
                p <= sorted@.len(),
                forall|q: int| 0 <= q < p ==> ranks_before(#[trigger] order[q], xg),
                p < sorted@.len() ==> !ranks_before(order[p as int], xg),
            decreases sorted.len() - p,
        {
            if p >= sorted.len() {
                break;
            }
            if !sorted[p].ranks_before(&x, Ghost(order[p as int]), Ghost(xg)) {
                break;
            }
            p = p + 1;
        }
        proof {
            broadcast use vstd::seq_lib::to_multiset_insert, vstd::seq_lib::to_multiset_build, vstd::multiset::group_multiset_axioms;
            let old_order = order;
            if p < old_order.len() {
                lemma_ranks(old_order[p as int], xg, xg);
            }
            assert forall|q: int| p <= q < old_order.len() implies ranks_before(xg, #[trigger] old_order[q]) by {
                if q > p {
                    lemma_ranks(xg, old_order[p as int], old_order[q]);
                }
            }
            order = old_order.insert(p as int, xg);
            assert forall|i: int, j: int| 0 <= i < j < order.len() implies ranks_before(#[trigger] order[i], #[trigger] order[j]) by {
                if j < p {
                } else if j == p {
                } else if i < p {
                    assert(order[j] == old_order[j - 1]);
                    lemma_ranks(old_order[i], xg, old_order[j - 1]);
                } else if i == p {
                    assert(order[j] == old_order[j - 1]);
                } else {
                    assert(order[i] == old_order[i - 1] && order[j] == old_order[j - 1]);
                }
            }
            assert(rest_g.push(xg).to_multiset() == rest_g.to_multiset().insert(xg));
            assert(order.to_multiset() == old_order.to_multiset().insert(xg));
            assert(order.to_multiset().add(rest_g.to_multiset()) =~= old_order.to_multiset().add(old_rest.to_multiset()));
        }
        sorted.insert(p, x);
        proof {
            assert forall|i: int| 0 <= i < order.len() implies (#[trigger] sorted@[i]).holds(order[i]) by {}
        }
    }
    proof {
        assert(rest_g.to_multiset() =~= vstd::multiset::Multiset::<GroupView>::empty()) by {
            broadcast use vstd::seq_lib::group_to_multiset_ensures;
        }
        assert(order.to_multiset() =~= gs.to_multiset()) by {
            broadcast use vstd::multiset::group_multiset_axioms;
        }
    }
    let mut items: Vec<JsonValue> = Vec::new();
    let mut i: usize = 0;
    while i < sorted.len()
        invariant
            all_hold(sorted@, order),
            i <= sorted@.len(),
            items_model(items@).len() == i,
            forall|k: int| 0 <= k < i ==> summary_ok(#[trigger] order[k], (k + 1) as nat, items_model(items@)[k]),
        decreases sorted.len() - i,
    {
        let j = sorted[i].to_summary_json(i + 1, Ghost(order[i as int]));
        let ghost before = items_model(items@);
        add_item(&mut items, j);
        proof {
            assert forall|k: int| 0 <= k < i + 1 implies summary_ok(#[trigger] order[k], (k + 1) as nat, items_model(items@)[k]) by {
                if k < i {
                    assert(items_model(items@)[k] == before[k]);
                }
            }
        }
        i = i + 1;
    }
    let r = array(items);
    proof {
        assert(ranked_summaries(gs, items_model(items@)));
    }
    r
}

/// `j` is the pattern analysis of the log under the state symbol `st`.
pub open spec fn patterns_json_ok(log: CompactOcelLog, st: Symbol, j: Json) -> bool {
    let n = log.objects@.len() as int;
    exists|a: Seq<Json>, b: Seq<Json>|
        #![trigger ranked_summaries(groups_of(intra_all(log, st, n)), a), ranked_summaries(groups_of(inter_all(log, st, n)), b)]
        ranked_summaries(groups_of(intra_all(log, st, n)), a) && ranked_summaries(groups_of(inter_all(log, st, n)), b)
            && j == Json::Object(seq![("intra"@, Json::Array(a)), ("inter"@, Json::Array(b))])
}

impl CompactOcelLog {
    /// Groups the state patterns of the leading objects: each episode of
    /// equal states is an intra-state instance, each change of state between
    /// neighbouring episodes an inter-state instance.
    pub fn detect_state_patterns(&self) -> (r: Result<(Vec<PatternAccumulator>, Vec<PatternAccumulator>), OcelError>)
        requires
            self.wf(),
        ensures
            match r {
                Ok((a, b)) => symbol_of(*self, "state"@) matches Some(st) && some_state(*self, st)
                    && all_hold(a@, groups_of(intra_all(*self, st, self.objects@.len() as int)))
                    && all_hold(b@, groups_of(inter_all(*self, st, self.objects@.len() as int))),
                Err(e) => match symbol_of(*self, "state"@) {
                    None => e.message@ == "event state attribute is missing; apply a state query first"@,
                    Some(st) => !some_state(*self, st) && e.message@ == "event state attribute is empty; apply a state query first"@,
                },
            },
    {
        let st = match self.symbol_for_value("state") {
            Some(st) => st,
            None => return Err(OcelError::new(owned("event state attribute is missing; apply a state query first"))),
        };
        if !self.has_some_state(st) {
            return Err(OcelError::new(owned("event state attribute is empty; apply a state query first")));
        }
        let mut intra: Vec<PatternAccumulator> = Vec::new();
        let mut inter: Vec<PatternAccumulator> = Vec::new();
        let mut oi: usize = 0;
        while oi < self.objects.len()
            invariant
                self.wf(),
                oi <= self.objects@.len(),
                all_hold(intra@, groups_of(intra_all(*self, st, oi as int))),
                all_hold(inter@, groups_of(inter_all(*self, st, oi as int))),
            decreases self.objects.len() - oi,
        {
            let lead_ok = match self.state_leading_object_type {
                Some(t) => self.objects[oi].type_symbol == t,
                None => true,
            };
            if lead_ok {
                self.collect_object_patterns(
                    oi,
                    st,
                    &mut intra,
                    &mut inter,
                    Ghost(intra_all(*self, st, oi as int)),
                    Ghost(inter_all(*self, st, oi as int)),
                );
            } else {
                proof {
                    assert(intra_all(*self, st, oi + 1) =~= intra_all(*self, st, oi as int));
                    assert(inter_all(*self, st, oi + 1) =~= inter_all(*self, st, oi as int));
                }
            }
            oi = oi + 1;
        }
        Ok((intra, inter))
    }

    /// The state pattern analysis as JSON: intra- and inter-state pattern
    /// summaries, each ranked by support, then mass, then label.
    pub fn state_patterns_json(&self) -> (r: Result<JsonValue, OcelError>)
        requires
            self.wf(),
        ensures
            match r {
                Ok(j) => symbol_of(*self, "state"@) matches Some(st) && some_state(*self, st) && patterns_json_ok(*self, st, j.model()),
                Err(e) => match symbol_of(*self, "state"@) {
                    None => e.message@ == "event state attribute is missing; apply a state query first"@,
                    Some(st) => !some_state(*self, st) && e.message@ == "event state attribute is empty; apply a state query first"@,
                },
            },
    {
        let (intra, inter) = self.detect_state_patterns()?;
        let ghost st = symbol_of(*self, "state"@)->Some_0;
        let ghost n = self.objects@.len() as int;
        let a = summarize_patterns(intra, Ghost(groups_of(intra_all(*self, st, n))));
        let b = summarize_patterns(inter, Ghost(groups_of(inter_all(*self, st, n))));
        let ghost am = a.model()->Array_0;
        let ghost bm = b.model()->Array_0;
        let mut ms: Vec<(String, JsonValue)> = Vec::new();
        add_member(&mut ms, "intra", a);
        add_member(&mut ms, "inter", b);
        let j = object(ms);
        proof {
            assert(members_model(ms@) =~= seq![("intra"@, Json::Array(am)), ("inter"@, Json::Array(bm))]);
            assert(patterns_json_ok(*self, st, j.model()));
        }
        Ok(j)
    }
}

} // verus!
