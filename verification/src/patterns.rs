use vstd::prelude::*;
use crate::model::{CompactOcelLog, Event, Object, Relationship, event_ok, object_ok, sym_ok, relationships_ok};
use crate::text::{Order3, seq_order, owned, push_text, text_order};
use crate::counts::{
    TextPair, WeightedEdge, counted, count_map, add_weight, lemma_count_map_push, bump, texts_sorted, text_set,
    insert_text,
};
use crate::counting::clamp_usize;
use crate::log_ops::{pairs_view, stateful_seq, symbol_of};
use crate::episodes::{StateEpisode, runs, episodes_view, state_episodes, lemma_runs_maximal, maximal_runs, runs_bounded};

verus! {

/// The two families of state patterns.
#[derive(Clone, Copy, PartialEq, Eq, Structural, Debug)]
pub enum PatternFamily {
    Intra,
    Inter,
}

impl PatternFamily {
    pub open spec fn name(self) -> Seq<char> {
        match self {
            PatternFamily::Intra => "intra"@,
            PatternFamily::Inter => "inter"@,
        }
    }

    /// Name of the family.
    pub fn as_str(self) -> (s: &'static str)
        ensures
            s@ == self.name(),
    {
        match self {
            PatternFamily::Intra => "intra",
            PatternFamily::Inter => "inter",
        }
    }
}

/// Label of a lifecycle event in a segment: its type and its state.
pub open spec fn state_label(log: CompactOcelLog, ei: usize, st: Seq<char>) -> Seq<char> {
    log.text(log.events@[ei as int].type_symbol) + " ["@ + st + "]"@
}

pub open spec fn segment_labels(log: CompactOcelLog, seg: Seq<(usize, Seq<char>)>) -> Seq<Seq<char>> {
    seg.map_values(|p: (usize, Seq<char>)| state_label(log, p.0, p.1))
}

/// Sequence of an intra-state segment.
pub open spec fn intra_seq(log: CompactOcelLog, seg: Seq<(usize, Seq<char>)>, state: Seq<char>) -> Seq<Seq<char>> {
    seq!["START "@ + state] + segment_labels(log, seg) + seq!["END "@ + state]
}

/// Sequence of an inter-state segment.
pub open spec fn inter_seq(
    log: CompactOcelLog,
    left: Seq<(usize, Seq<char>)>,
    right: Seq<(usize, Seq<char>)>,
    from: Seq<char>,
    to: Seq<char>,
) -> Seq<Seq<char>> {
    seq!["START "@ + from] + segment_labels(log, left) + seq!["CHANGE "@ + from + " -> "@ + to]
        + segment_labels(log, right) + seq!["END "@ + to]
}

/// Directly-follows pairs of a sequence, in order.
pub open spec fn df_stream(s: Seq<Seq<char>>) -> Seq<TextPair> {
    Seq::new(if s.len() > 0 { (s.len() - 1) as nat } else { 0 }, |i: int| (s[i], s[i + 1]))
}

/// Type text of the object with the given id, if there is one.
pub open spec fn type_of_id(log: CompactOcelLog, id: crate::pool::Symbol) -> Option<Seq<char>> {
    if exists|i: int| 0 <= i < log.objects@.len() && log.objects@[i].id == id {
        let i = choose|i: int| 0 <= i < log.objects@.len() && log.objects@[i].id == id;
        Some(log.text(log.objects@[i].type_symbol))
    } else {
        None
    }
}

/// Types of the objects that relationships point to, other than `lead`,
/// skipping targets that are no object of the log.
pub open spec fn related_types(log: CompactOcelLog, lead: crate::pool::Symbol, rels: Seq<Relationship>) -> Seq<Seq<char>>
    decreases rels.len(),
{
    if rels.len() == 0 {
        Seq::empty()
    } else {
        let rest = related_types(log, lead, rels.drop_last());
        let r = rels.last();
        if r.object_id == lead {
            rest
        } else {
            match type_of_id(log, r.object_id) {
                Some(t) => rest.push(t),
                None => rest,
            }
        }
    }
}

/// The pair in text order.
pub open spec fn unordered(a: Seq<char>, b: Seq<char>) -> TextPair {
    if seq_order(a, b) != Order3::Greater { (a, b) } else { (b, a) }
}

/// Event-to-object-type pairs of a segment, in order.
pub open spec fn eo_stream(log: CompactOcelLog, lead: crate::pool::Symbol, seg: Seq<(usize, Seq<char>)>) -> Seq<TextPair>
    decreases seg.len(),
{
    if seg.len() == 0 {
        Seq::empty()
    } else {
        let p = seg.last();
        eo_stream(log, lead, seg.drop_last()) + related_types(log, lead, log.events@[p.0 as int].relationships@).map_values(
            |t: Seq<char>| (state_label(log, p.0, p.1), t),
        )
    }
}

/// Object-type pairs of a segment, in order.
pub open spec fn oo_stream(log: CompactOcelLog, lead: crate::pool::Symbol, lead_type: Seq<char>, seg: Seq<(usize, Seq<char>)>) -> Seq<TextPair>
    decreases seg.len(),
{
    if seg.len() == 0 {
        Seq::empty()
    } else {
        let p = seg.last();
        oo_stream(log, lead, lead_type, seg.drop_last()) + related_types(log, lead, log.events@[p.0 as int].relationships@).map_values(
            |t: Seq<char>| unordered(lead_type, t),
        )
    }
}

/// Object types met in a segment, besides the leading one.
pub open spec fn segment_types(log: CompactOcelLog, lead: crate::pool::Symbol, seg: Seq<(usize, Seq<char>)>) -> Set<Seq<char>>
    decreases seg.len(),
{
    if seg.len() == 0 {
        Set::empty()
    } else {
        let p = seg.last();
        segment_types(log, lead, seg.drop_last()) + related_types(log, lead, log.events@[p.0 as int].relationships@).to_set()
    }
}

/// What a pattern instance holds, as mathematical values.
pub struct InstanceView {
    pub family: PatternFamily,
    pub leading_object_type: Seq<char>,
    pub state: Seq<char>,
    pub to_state: Option<Seq<char>>,
    pub sequence: Seq<Seq<char>>,
    pub object_types: Set<Seq<char>>,
    pub df: Map<TextPair, nat>,
    pub eo: Map<TextPair, nat>,
    pub oo: Map<TextPair, nat>,
}

/// The instance of a segment of the lifecycle of the object at `oi`.
pub open spec fn instance_of(
    log: CompactOcelLog,
    family: PatternFamily,
    oi: int,
    state: Seq<char>,
    to_state: Option<Seq<char>>,
    sequence: Seq<Seq<char>>,
    seg: Seq<(usize, Seq<char>)>,
) -> InstanceView {
    let o = log.objects@[oi];
    let lt = log.text(o.type_symbol);
    InstanceView {
        family,
        leading_object_type: lt,
        state,
        to_state,
        sequence,
        object_types: set![lt] + segment_types(log, o.id, seg),
        df: count_map(df_stream(sequence)),
        eo: count_map(eo_stream(log, o.id, seg)),
        oo: count_map(oo_stream(log, o.id, lt, seg)),
    }
}

/// A pattern instance: one segment of one leading object's lifecycle.
pub struct PatternInstance {
    pub family: PatternFamily,
    pub leading_object_type: String,
    pub state: String,
    pub to_state: Option<String>,
    pub sequence: Vec<String>,
    /// Object types, in text order.
    pub object_types: Vec<String>,
    /// Directly-follows edges of the sequence, in key order.
    pub df_edges: Vec<WeightedEdge>,
    /// Event-label to object-type edges, in key order.
    pub eo_edges: Vec<WeightedEdge>,
    /// Object-type to object-type edges, in key order.
    pub oo_edges: Vec<WeightedEdge>,
}

pub open spec fn opt_text(o: Option<String>) -> Option<Seq<char>> {
    match o {
        Some(s) => Some(s@),
        None => None,
    }
}

pub open spec fn texts(v: Seq<String>) -> Seq<Seq<char>> {
    v.map_values(|s: String| s@)
}

impl PatternInstance {
    /// The instance holds what `v` describes.
    pub open spec fn holds(self, v: InstanceView) -> bool {
        &&& self.family == v.family
        &&& self.leading_object_type@ == v.leading_object_type
        &&& self.state@ == v.state
        &&& opt_text(self.to_state) == v.to_state
        &&& texts(self.sequence@) == v.sequence
        &&& texts_sorted(self.object_types@)
        &&& text_set(self.object_types@) == v.object_types
        &&& counted(self.df_edges@, v.df)
        &&& counted(self.eo_edges@, v.eo)
        &&& counted(self.oo_edges@, v.oo)
    }
}

/// Every event position of the segment is in range.
pub open spec fn seg_ok(log: CompactOcelLog, v: Seq<(usize, String)>) -> bool {
    forall|k: int| 0 <= k < v.len() ==> #[trigger] v[k].0 < log.events@.len()
}

impl CompactOcelLog {
    /// Type of the object with id `id`, when it is an object of the log.
    pub fn related_type(&self, id: crate::pool::Symbol) -> (r: Option<&str>)
        requires
            self.wf(),
        ensures
            match r {
                Some(t) => type_of_id(*self, id) == Some(t@),
                None => type_of_id(*self, id) is None,
            },
    {
        match self.object_position(id) {
            Some(i) => {
                proof {
                    assert(object_ok(self.pool@.len(), self.events@.len(), self.objects@[i as int]));
                    let j = choose|j: int| 0 <= j < self.objects@.len() && self.objects@[j].id == id;
                    assert(self.objects@.len() == self.objects.len());
                    assert(self.object_index@[self.objects@[j].id.0 as int] == Some(j as usize));
                    assert(self.object_index@[self.objects@[i as int].id.0 as int] == Some(i));
                    assert(j == i as int);
                }
                Some(self.pool.resolve(self.objects[i].type_symbol))
            },
            None => None,
        }
    }

    /// Label of a lifecycle event with its state.
    pub fn state_aware_event_label(&self, event_index: usize, state: &str) -> (r: String)
        requires
            self.wf(),
            event_index < self.events@.len(),
        ensures
            r@ == state_label(*self, event_index, state@),
    {
        proof { assert(event_ok(self.pool@.len(), self.events@[event_index as int])); }
        let mut out = owned(self.pool.resolve(self.events[event_index].type_symbol));
        push_text(&mut out, " [");
        push_text(&mut out, state);
        push_text(&mut out, "]");
        out
    }

    fn push_labels(&self, out: &mut Vec<String>, sl: &Vec<(usize, String)>, start: usize, end: usize)
        requires
            self.wf(),
            seg_ok(*self, sl@),
            start <= end < sl@.len(),
        ensures
            texts(final(out)@) == texts(old(out)@) + segment_labels(*self, pairs_view(sl@).subrange(start as int, end + 1)),
    {
        let ghost seg = pairs_view(sl@);
        let mut k: usize = start;
        while k <= end
            invariant
                self.wf(),
                seg_ok(*self, sl@),
                seg == pairs_view(sl@),
                start <= k <= end + 1,
                end < sl.len(),
                texts(out@) == texts(old(out)@) + segment_labels(*self, seg.subrange(start as int, k as int)),
            decreases end + 1 - k,
        {
            let ghost before = out@;
            let l = self.state_aware_event_label(sl[k].0, sl[k].1.as_str());
            out.push(l);
            proof {
                assert(seg.subrange(start as int, k + 1) =~= seg.subrange(start as int, k as int).push(seg[k as int]));
                assert(texts(out@) =~= texts(before).push(l@));
                assert(texts(out@) =~= texts(old(out)@) + segment_labels(*self, seg.subrange(start as int, k + 1)));
            }
            k = k + 1;
        }
    }

    /// Sequence of an intra-state episode.
    pub fn intra_sequence(&self, sl: &Vec<(usize, String)>, ep: &crate::episodes::StateEpisode) -> (r: Vec<String>)
        requires
            self.wf(),
            seg_ok(*self, sl@),
            ep.start <= ep.end < sl@.len(),
        ensures
            texts(r@) == intra_seq(*self, pairs_view(sl@).subrange(ep.start as int, ep.end + 1), ep.state@),
    {
        let mut out: Vec<String> = Vec::new();
        let mut first = owned("START ");
        push_text(&mut first, ep.state.as_str());
        out.push(first);
        let ghost o1 = out@;
        self.push_labels(&mut out, sl, ep.start, ep.end);
        let ghost o2 = out@;
        let mut last = owned("END ");
        push_text(&mut last, ep.state.as_str());
        out.push(last);
        proof {
            assert(texts(o1) =~= seq!["START "@ + ep.state@]);
            assert(texts(out@) =~= texts(o2).push("END "@ + ep.state@));
            assert(texts(out@) =~= intra_seq(*self, pairs_view(sl@).subrange(ep.start as int, ep.end + 1), ep.state@));
        }
        out
    }

    /// Sequence of the change from one episode to the next.
    pub fn inter_sequence(
        &self,
        sl: &Vec<(usize, String)>,
        left: &crate::episodes::StateEpisode,
        right: &crate::episodes::StateEpisode,
    ) -> (r: Vec<String>)
        requires
            self.wf(),
            seg_ok(*self, sl@),
            left.start <= left.end < sl@.len(),
            right.start <= right.end < sl@.len(),
        ensures
            texts(r@) == inter_seq(
                *self,
                pairs_view(sl@).subrange(left.start as int, left.end + 1),
                pairs_view(sl@).subrange(right.start as int, right.end + 1),
                left.state@,
                right.state@,
            ),
    {
        let mut out: Vec<String> = Vec::new();
        let mut first = owned("START ");
        push_text(&mut first, left.state.as_str());
        out.push(first);
        let ghost o1 = out@;
        self.push_labels(&mut out, sl, left.start, left.end);
        let ghost o2 = out@;
        let mut change = owned("CHANGE ");
        push_text(&mut change, left.state.as_str());
        push_text(&mut change, " -> ");
        push_text(&mut change, right.state.as_str());
        out.push(change);
        let ghost o3 = out@;
        self.push_labels(&mut out, sl, right.start, right.end);
        let ghost o4 = out@;
        let mut last = owned("END ");
        push_text(&mut last, right.state.as_str());
        out.push(last);
        proof {
            assert(texts(o1) =~= seq!["START "@ + left.state@]);
            assert(texts(o3) =~= texts(o2).push("CHANGE "@ + left.state@ + " -> "@ + right.state@));
            assert(texts(out@) =~= texts(o4).push("END "@ + right.state@));
            assert(texts(out@) =~= inter_seq(
                *self,
                pairs_view(sl@).subrange(left.start as int, left.end + 1),
                pairs_view(sl@).subrange(right.start as int, right.end + 1),
                left.state@,
                right.state@,
            ));
        }
        out
    }
}

/// The two texts in text order.
pub fn unordered_pair(a: &str, b: &str) -> (r: (String, String))
    ensures
        (r.0@, r.1@) == unordered(a@, b@),
{
    if text_order(a, b) != Order3::Greater {
        (owned(a), owned(b))
    } else {
        (owned(b), owned(a))
    }
}

pub open spec fn label_pairs(label: Seq<char>, ts: Seq<Seq<char>>) -> Seq<TextPair> {
    ts.map_values(|t: Seq<char>| (label, t))
}

pub open spec fn lead_pairs(lt: Seq<char>, ts: Seq<Seq<char>>) -> Seq<TextPair> {
    ts.map_values(|t: Seq<char>| unordered(lt, t))
}

impl CompactOcelLog {
    /// Counts the related object types of one event of a segment.
    fn add_related(
        &self,
        lead: crate::pool::Symbol,
        lt: &str,
        label: &str,
        rels: &Vec<Relationship>,
        types: &mut Vec<String>,
        eo: &mut Vec<WeightedEdge>,
        oo: &mut Vec<WeightedEdge>,
        Ghost(eo_base): Ghost<Seq<TextPair>>,
        Ghost(oo_base): Ghost<Seq<TextPair>>,
        Ghost(types_base): Ghost<Set<Seq<char>>>,
    )
        requires
            self.wf(),
            relationships_ok(self.pool@.len(), rels@),
            counted(old(eo)@, count_map(eo_base)),
            counted(old(oo)@, count_map(oo_base)),
            texts_sorted(old(types)@),
            text_set(old(types)@) == types_base,
        ensures
            counted(final(eo)@, count_map(eo_base + label_pairs(label@, related_types(*self, lead, rels@)))),
            counted(final(oo)@, count_map(oo_base + lead_pairs(lt@, related_types(*self, lead, rels@)))),
            texts_sorted(final(types)@),
            text_set(final(types)@) == types_base + related_types(*self, lead, rels@).to_set(),
    {
        let mut j: usize = 0;
        assert(rels@.take(0) =~= Seq::<Relationship>::empty());
        assert(eo_base + label_pairs(label@, Seq::empty()) =~= eo_base);
        assert(oo_base + lead_pairs(lt@, Seq::empty()) =~= oo_base);
        assert(types_base + Seq::<Seq<char>>::empty().to_set() =~= types_base);
        while j < rels.len()
            invariant
                self.wf(),
                relationships_ok(self.pool@.len(), rels@),
                j <= rels@.len(),
                counted(eo@, count_map(eo_base + label_pairs(label@, related_types(*self, lead, rels@.take(j as int))))),
                counted(oo@, count_map(oo_base + lead_pairs(lt@, related_types(*self, lead, rels@.take(j as int))))),
                texts_sorted(types@),
                text_set(types@) == types_base + related_types(*self, lead, rels@.take(j as int)).to_set(),
            decreases rels.len() - j,
        {
            let r = rels[j];
            let ghost before = related_types(*self, lead, rels@.take(j as int));
            proof {
                assert(rels@.take(j + 1).drop_last() =~= rels@.take(j as int));
                assert(rels@.take(j + 1).last() == r);
            }
            if r.object_id != lead {
                match self.related_type(r.object_id) {
                    Some(t) => {
                        let ghost after = before.push(t@);
                        assert(related_types(*self, lead, rels@.take(j + 1)) == after);
                        let ghost es = eo_base + label_pairs(label@, before);
                        let ghost os = oo_base + lead_pairs(lt@, before);
                        add_weight(eo, label, t, 1, Ghost(count_map(es)), Ghost(1));
                        let pr = unordered_pair(lt, t);
                        add_weight(oo, pr.0.as_str(), pr.1.as_str(), 1, Ghost(count_map(os)), Ghost(1));
                        insert_text(types, t);
                        proof {
                            lemma_count_map_push(es, (label@, t@));
                            lemma_count_map_push(os, unordered(lt@, t@));
                            assert(eo_base + label_pairs(label@, after) =~= es.push((label@, t@)));
                            assert(oo_base + lead_pairs(lt@, after) =~= os.push(unordered(lt@, t@)));
                            assert(after.to_set() =~= before.to_set().insert(t@)) by {
                                assert forall|x: Seq<char>| after.to_set().contains(x) <==> before.to_set().insert(t@).contains(x) by {
                                    if after.contains(x) {
                                        let i = choose|i: int| 0 <= i < after.len() && after[i] == x;
                                        if i < before.len() {
                                            assert(before[i] == x);
                                        }
                                    }
                                    if before.contains(x) {
                                        let i = choose|i: int| 0 <= i < before.len() && before[i] == x;
                                        assert(after[i] == x);
                                    }
                                    if x == t@ {
                                        assert(after[before.len() as int] == x);
                                    }
                                }
                            }
                            assert(text_set(types@) =~= types_base + after.to_set());
                        }
                    },
                    None => {},
                }
            }
            j = j + 1;
        }
        assert(rels@.take(rels@.len() as int) =~= rels@);
    }
}

impl CompactOcelLog {
    fn df_edges_of(sequence: &Vec<String>) -> (r: Vec<WeightedEdge>)
        ensures
            counted(r@, count_map(df_stream(texts(sequence@)))),
    {
        let ghost sq = texts(sequence@);
        let mut out: Vec<WeightedEdge> = Vec::new();
        assert(count_map(Seq::<TextPair>::empty()) =~= Map::<TextPair, nat>::empty());
        if sequence.len() == 0 {
            assert(df_stream(sq) =~= Seq::<TextPair>::empty());
            return out;
        }
        let mut i: usize = 0;
        assert(df_stream(sq).take(0) =~= Seq::<TextPair>::empty());
        while i + 1 < sequence.len()
            invariant
                sq == texts(sequence@),
                sequence@.len() > 0,
                i + 1 <= sequence@.len(),
                counted(out@, count_map(df_stream(sq).take(i as int))),
            decreases sequence.len() - i,
        {
            let ghost st = df_stream(sq).take(i as int);
            add_weight(&mut out, sequence[i].as_str(), sequence[i + 1].as_str(), 1, Ghost(count_map(st)), Ghost(1));
            proof {
                lemma_count_map_push(st, (sq[i as int], sq[i + 1]));
                assert(df_stream(sq).take(i + 1) =~= st.push((sq[i as int], sq[i + 1])));
            }
            i = i + 1;
        }
        assert(df_stream(sq).take(i as int) =~= df_stream(sq));
        out
    }

    /// The pattern instance of a segment of the lifecycle of the object at
    /// `leading_object_index`.
    pub fn pattern_instance(
        &self,
        family: PatternFamily,
        leading_object_index: usize,
        state: String,
        to_state: Option<String>,
        sequence: Vec<String>,
        seg: &Vec<(usize, String)>,
    ) -> (r: PatternInstance)
        requires
            self.wf(),
            leading_object_index < self.objects@.len(),
            seg_ok(*self, seg@),
        ensures
            r.holds(instance_of(*self, family, leading_object_index as int, state@, opt_text(to_state), texts(sequence@), pairs_view(seg@))),
    {
        let ghost oi = leading_object_index as int;
        let lead = &self.objects[leading_object_index];
        proof { assert(object_ok(self.pool@.len(), self.events@.len(), self.objects@[oi])); }
        let lead_id = lead.id;
        let lt = owned(self.pool.resolve(lead.type_symbol));
        let mut object_types: Vec<String> = Vec::new();
        insert_text(&mut object_types, lt.as_str());
        let mut eo: Vec<WeightedEdge> = Vec::new();
        let mut oo: Vec<WeightedEdge> = Vec::new();
        let ghost sv = pairs_view(seg@);
        let mut k: usize = 0;
        proof {
            assert(text_set(Seq::<String>::empty()) =~= Set::<Seq<char>>::empty());
            assert(count_map(Seq::<TextPair>::empty()) =~= Map::<TextPair, nat>::empty());
            assert(sv.take(0) =~= Seq::<(usize, Seq<char>)>::empty());
            assert(set![lt@] + segment_types(*self, lead_id, sv.take(0)) =~= set![lt@]);
        }
        while k < seg.len()
            invariant
                self.wf(),
                seg_ok(*self, seg@),
                sv == pairs_view(seg@),
                k <= seg@.len(),
                lead_id == self.objects@[oi].id,
                lt@ == self.text(self.objects@[oi].type_symbol),
                counted(eo@, count_map(eo_stream(*self, lead_id, sv.take(k as int)))),
                counted(oo@, count_map(oo_stream(*self, lead_id, lt@, sv.take(k as int)))),
                texts_sorted(object_types@),
                text_set(object_types@) == set![lt@] + segment_types(*self, lead_id, sv.take(k as int)),
            decreases seg.len() - k,
        {
            let ei = seg[k].0;
            proof {
                assert(sv.take(k + 1).drop_last() =~= sv.take(k as int));
                assert(sv.take(k + 1).last() == sv[k as int]);
                assert(event_ok(self.pool@.len(), self.events@[ei as int]));
            }
            let label = self.state_aware_event_label(ei, seg[k].1.as_str());
            self.add_related(
                lead_id,
                lt.as_str(),
                label.as_str(),
                &self.events[ei].relationships,
                &mut object_types,
                &mut eo,
                &mut oo,
                Ghost(eo_stream(*self, lead_id, sv.take(k as int))),
                Ghost(oo_stream(*self, lead_id, lt@, sv.take(k as int))),
                Ghost(set![lt@] + segment_types(*self, lead_id, sv.take(k as int))),
            );
            proof {
                assert(set![lt@] + segment_types(*self, lead_id, sv.take(k as int))
                    + related_types(*self, lead_id, self.events@[ei as int].relationships@).to_set()
                    =~= set![lt@] + segment_types(*self, lead_id, sv.take(k + 1)));
            }
            k = k + 1;
        }
        assert(sv.take(seg@.len() as int) =~= sv);
        let df = Self::df_edges_of(&sequence);
        PatternInstance {
            family,
            leading_object_type: lt,
            state,
            to_state,
            sequence,
            object_types,
            df_edges: df,
            eo_edges: eo,
            oo_edges: oo,
        }
    }
}

/// An edge named in a pattern filter.
pub struct PatternEdgeFilter {
    pub source: String,
    pub target: String,
}

/// Selects the objects that show a given state pattern.
pub struct PatternFilter {
    pub family: String,
    pub leading_object_type: String,
    pub state: Option<String>,
    pub from_state: Option<String>,
    pub to_state: Option<String>,
    pub sequence: Vec<String>,
    pub eo_edges: Vec<PatternEdgeFilter>,
    pub oo_edges: Vec<PatternEdgeFilter>,
}

/// The pairs named by edge filters.
pub open spec fn edge_filter_set(es: Seq<PatternEdgeFilter>) -> Set<TextPair> {
    Set::new(|k: TextPair| exists|i: int| 0 <= i < es.len() && (es[i].source@, es[i].target@) == k)
}

/// The family a filter names.
pub open spec fn filter_family(f: PatternFilter) -> Option<PatternFamily> {
    if f.family@ == "intra"@ {
        Some(PatternFamily::Intra)
    } else if f.family@ == "inter"@ {
        Some(PatternFamily::Inter)
    } else {
        None
    }
}

/// The instance shows the pattern the filter describes.
pub open spec fn filter_matches(f: PatternFilter, v: InstanceView) -> bool {
    match filter_family(f) {
        None => false,
        Some(ef) => {
            &&& v.family == ef
            &&& v.leading_object_type == f.leading_object_type@
            &&& v.sequence == texts(f.sequence@)
            &&& match ef {
                PatternFamily::Intra => opt_text(f.state) == Some(v.state),
                PatternFamily::Inter => (if f.from_state is Some { opt_text(f.from_state) } else { opt_text(f.state) })
                    == Some(v.state) && opt_text(f.to_state) == v.to_state,
            }
            &&& edge_filter_set(f.eo_edges@) == v.eo.dom()
            &&& edge_filter_set(f.oo_edges@) == v.oo.dom()
        },
    }
}

/// Equality of two optional texts.
pub fn opt_text_eq(a: &Option<String>, b: &Option<String>) -> (r: bool)
    ensures
        r == (opt_text(*a) == opt_text(*b)),
{
    match (a, b) {
        (Some(x), Some(y)) => crate::text::str_eq(x.as_str(), y.as_str()),
        (None, None) => true,
        _ => false,
    }
}

/// Equality of two lists of texts.
pub fn texts_eq(a: &Vec<String>, b: &Vec<String>) -> (r: bool)
    ensures
        r == (texts(a@) == texts(b@)),
{
    if a.len() != b.len() {
        proof {
            assert(texts(a@).len() != texts(b@).len());
        }
        return false;
    }
    let mut i: usize = 0;
    while i < a.len()
        invariant
            a@.len() == b@.len(),
            i <= a@.len(),
            forall|k: int| 0 <= k < i ==> a@[k]@ == b@[k]@,
        decreases a.len() - i,
    {
        if !crate::text::str_eq(a[i].as_str(), b[i].as_str()) {
            proof {
                assert(texts(a@)[i as int] != texts(b@)[i as int]);
            }
            return false;
        }
        i = i + 1;
    }
    assert(texts(a@) =~= texts(b@));
    true
}

/// Whether a key occurs in a counted edge list.
fn has_key(es: &Vec<WeightedEdge>, source: &str, target: &str) -> (r: bool)
    ensures
        r == exists|i: int| 0 <= i < es@.len() && es@[i].key() == (source@, target@),
{
    let mut i: usize = 0;
    while i < es.len()
        invariant
            i <= es@.len(),
            forall|k: int| 0 <= k < i ==> es@[k].key() != (source@, target@),
        decreases es.len() - i,
    {
        if crate::text::str_eq(es[i].source.as_str(), source) && crate::text::str_eq(es[i].target.as_str(), target) {
            return true;
        }
        i = i + 1;
    }
    false
}

/// Whether a pair is named by edge filters.
fn names_pair(fs: &Vec<PatternEdgeFilter>, source: &str, target: &str) -> (r: bool)
    ensures
        r == edge_filter_set(fs@).contains((source@, target@)),
{
    let mut i: usize = 0;
    while i < fs.len()
        invariant
            i <= fs@.len(),
            forall|k: int| 0 <= k < i ==> (fs@[k].source@, fs@[k].target@) != (source@, target@),
        decreases fs.len() - i,
    {
        if crate::text::str_eq(fs[i].source.as_str(), source) && crate::text::str_eq(fs[i].target.as_str(), target) {
            return true;
        }
        i = i + 1;
    }
    false
}

/// The edge filters name exactly the keys of the counted edges.
fn same_pairs(fs: &Vec<PatternEdgeFilter>, es: &Vec<WeightedEdge>, Ghost(m): Ghost<Map<TextPair, nat>>) -> (r: bool)
    requires
        counted(es@, m),
    ensures
        r == (edge_filter_set(fs@) == m.dom()),
{
    let mut i: usize = 0;
    while i < fs.len()
        invariant
            counted(es@, m),
            i <= fs@.len(),
            forall|k: int| 0 <= k < i ==> m.dom().contains((fs@[k].source@, fs@[k].target@)),
        decreases fs.len() - i,
    {
        if !has_key(es, fs[i].source.as_str(), fs[i].target.as_str()) {
            proof {
                let k = (fs@[i as int].source@, fs@[i as int].target@);
                assert(edge_filter_set(fs@).contains(k));
                if m.dom().contains(k) {
                    let j = choose|j: int| 0 <= j < es@.len() && es@[j].key() == k;
                }
            }
            return false;
        }
        i = i + 1;
    }
    let mut j: usize = 0;
    while j < es.len()
        invariant
            counted(es@, m),
            j <= es@.len(),
            forall|k: int| 0 <= k < fs@.len() ==> m.dom().contains((fs@[k].source@, fs@[k].target@)),
            forall|k: int| 0 <= k < j ==> edge_filter_set(fs@).contains(#[trigger] es@[k].key()),
        decreases es.len() - j,
    {
        if !names_pair(fs, es[j].source.as_str(), es[j].target.as_str()) {
            proof {
                assert(m.dom().contains(es@[j as int].key()));
            }
            return false;
        }
        j = j + 1;
    }
    proof {
        assert forall|k: TextPair| edge_filter_set(fs@).contains(k) <==> m.dom().contains(k) by {
            if m.dom().contains(k) {
                let x = choose|x: int| 0 <= x < es@.len() && es@[x].key() == k;
                assert(edge_filter_set(fs@).contains(es@[x].key()));
            }
        }
        assert(edge_filter_set(fs@) =~= m.dom());
    }
    true
}

/// Whether a pattern instance shows the pattern a filter describes.
pub fn pattern_filter_matches_instance(f: &PatternFilter, inst: &PatternInstance, Ghost(v): Ghost<InstanceView>) -> (r: bool)
    requires
        inst.holds(v),
    ensures
        r == filter_matches(*f, v),
{
    let expected = if crate::text::str_eq(f.family.as_str(), "intra") {
        PatternFamily::Intra
    } else if crate::text::str_eq(f.family.as_str(), "inter") {
        PatternFamily::Inter
    } else {
        return false;
    };
    if inst.family != expected || !crate::text::str_eq(inst.leading_object_type.as_str(), f.leading_object_type.as_str())
        || !texts_eq(&inst.sequence, &f.sequence) {
        return false;
    }
    let state_matches = match expected {
        PatternFamily::Intra => match &f.state {
            Some(st) => crate::text::str_eq(st.as_str(), inst.state.as_str()),
            None => false,
        },
        PatternFamily::Inter => {
            let from = if f.from_state.is_some() { &f.from_state } else { &f.state };
            let from_ok = match from {
                Some(st) => crate::text::str_eq(st.as_str(), inst.state.as_str()),
                None => false,
            };
            from_ok && opt_text_eq(&f.to_state, &inst.to_state)
        },
    };
    if !state_matches {
        return false;
    }
    same_pairs(&f.eo_edges, &inst.eo_edges, Ghost(v.eo)) && same_pairs(&f.oo_edges, &inst.oo_edges, Ghost(v.oo))
}

pub open spec fn sl_states(sl: Seq<(usize, Seq<char>)>) -> Seq<Seq<char>> {
    sl.map_values(|p: (usize, Seq<char>)| p.1)
}

/// The instance of an intra-state episode.
#[verifier::opaque]
pub open spec fn intra_instance(log: CompactOcelLog, oi: int, sl: Seq<(usize, Seq<char>)>, ep: (Seq<char>, int, int)) -> InstanceView {
    let seg = sl.subrange(ep.1, ep.2 + 1);
    instance_of(log, PatternFamily::Intra, oi, ep.0, None, intra_seq(log, seg, ep.0), seg)
}

/// The instance of the change between two neighbouring episodes.
#[verifier::opaque]
pub open spec fn inter_instance(
    log: CompactOcelLog,
    oi: int,
    sl: Seq<(usize, Seq<char>)>,
    l: (Seq<char>, int, int),
    r: (Seq<char>, int, int),
) -> InstanceView {
    let ls = sl.subrange(l.1, l.2 + 1);
    let rs = sl.subrange(r.1, r.2 + 1);
    instance_of(log, PatternFamily::Inter, oi, l.0, Some(r.0), inter_seq(log, ls, rs, l.0, r.0), ls + rs)
}

/// The stateful lifecycle of the object at `oi` under the symbol `st`.
pub open spec fn object_sl(log: CompactOcelLog, oi: int, st: crate::pool::Symbol) -> Seq<(usize, Seq<char>)> {
    stateful_seq(log, log.objects@[oi].lifecycle@, st)
}

/// The object at `oi` leads a segment that shows the pattern of `f`.
pub open spec fn object_shows_pattern(log: CompactOcelLog, oi: int, f: PatternFilter) -> bool {
    let o = log.objects@[oi];
    if f.leading_object_type@.len() == 0 || log.text(o.type_symbol) != f.leading_object_type@ {
        false
    } else {
        match symbol_of(log, "state"@) {
            None => false,
            Some(st) => {
                let sl = object_sl(log, oi, st);
                let eps = runs(sl_states(sl));
                if sl.len() == 0 {
                    false
                } else if f.family@ == "intra"@ {
                    exists|i: int| 0 <= i < eps.len() && filter_matches(f, intra_instance(log, oi, sl, #[trigger] eps[i]))
                } else if f.family@ == "inter"@ {
                    exists|i: int, k: int|
                        0 <= i && k == i + 1 && k < eps.len() && (#[trigger] eps[i]).0 != (#[trigger] eps[k]).0
                            && filter_matches(f, inter_instance(log, oi, sl, eps[i], eps[k]))
                } else {
                    false
                }
            },
        }
    }
}

/// Appends the entries `start..=end` of a stateful lifecycle.
fn copy_range(out: &mut Vec<(usize, String)>, sl: &Vec<(usize, String)>, start: usize, end: usize)
    requires
        start <= end < sl@.len(),
    ensures
        pairs_view(final(out)@) == pairs_view(old(out)@) + pairs_view(sl@).subrange(start as int, end + 1),
{
    let mut k: usize = start;
    while k <= end
        invariant
            start <= k <= end + 1,
            end < sl.len(),
            pairs_view(out@) == pairs_view(old(out)@) + pairs_view(sl@).subrange(start as int, k as int),
        decreases end + 1 - k,
    {
        let ghost before = out@;
        out.push((sl[k].0, owned(sl[k].1.as_str())));
        assert(pairs_view(out@) =~= pairs_view(before).push(pairs_view(sl@)[k as int]));
        assert(pairs_view(sl@).subrange(start as int, k + 1) =~= pairs_view(sl@).subrange(start as int, k as int).push(pairs_view(sl@)[k as int]));
        assert(pairs_view(out@) =~= pairs_view(old(out)@) + pairs_view(sl@).subrange(start as int, k + 1));
        k = k + 1;
    }
}

/// The episode lies within the lifecycle.
pub open spec fn episode_in(sl: Seq<(usize, String)>, ep: StateEpisode) -> bool {
    ep.start <= ep.end < sl.len()
}

impl CompactOcelLog {
    /// The instance of an intra-state episode.
    pub(crate) fn intra_instance_at(&self, object_index: usize, sl: &Vec<(usize, String)>, ep: &StateEpisode) -> (r: PatternInstance)
        requires
            self.wf(),
            object_index < self.objects@.len(),
            seg_ok(*self, sl@),
            episode_in(sl@, *ep),
        ensures
            r.holds(intra_instance(*self, object_index as int, pairs_view(sl@), ep.view3())),
    {
        let ghost slv = pairs_view(sl@);
        proof { reveal(intra_instance); }
        let seq = self.intra_sequence(sl, ep);
        let mut seg: Vec<(usize, String)> = Vec::new();
        copy_range(&mut seg, sl, ep.start, ep.end);
        proof {
            assert(pairs_view(seg@) =~= slv.subrange(ep.start as int, ep.end + 1));
            assert forall|k: int| 0 <= k < seg@.len() implies #[trigger] seg@[k].0 < self.events@.len() by {
                assert(pairs_view(seg@)[k] == slv[ep.start + k]);
                assert(sl@[ep.start + k].0 < self.events@.len());
            }
        }
        self.pattern_instance(PatternFamily::Intra, object_index, owned(ep.state.as_str()), None, seq, &seg)
    }

    /// The instance of the change between two episodes.
    pub(crate) fn inter_instance_at(
        &self,
        object_index: usize,
        sl: &Vec<(usize, String)>,
        left: &StateEpisode,
        right: &StateEpisode,
    ) -> (r: PatternInstance)
        requires
            self.wf(),
            object_index < self.objects@.len(),
            seg_ok(*self, sl@),
            episode_in(sl@, *left),
            episode_in(sl@, *right),
        ensures
            r.holds(inter_instance(*self, object_index as int, pairs_view(sl@), left.view3(), right.view3())),
    {
        let ghost slv = pairs_view(sl@);
        proof { reveal(inter_instance); }
        let seq = self.inter_sequence(sl, left, right);
        let mut seg: Vec<(usize, String)> = Vec::new();
        copy_range(&mut seg, sl, left.start, left.end);
        copy_range(&mut seg, sl, right.start, right.end);
        proof {
            let ls = slv.subrange(left.start as int, left.end + 1);
            let rs = slv.subrange(right.start as int, right.end + 1);
            assert(pairs_view(seg@) =~= ls + rs);
            assert forall|k: int| 0 <= k < seg@.len() implies #[trigger] seg@[k].0 < self.events@.len() by {
                assert(pairs_view(seg@)[k] == (ls + rs)[k]);
                if k < ls.len() {
                    assert(sl@[left.start + k].0 < self.events@.len());
                } else {
                    assert(sl@[right.start + k - ls.len()].0 < self.events@.len());
                }
            }
        }
        self.pattern_instance(
            PatternFamily::Inter,
            object_index,
            owned(left.state.as_str()),
            Some(owned(right.state.as_str())),
            seq,
            &seg,
        )
    }

    fn any_intra_match(&self, object_index: usize, sl: &Vec<(usize, String)>, eps: &Vec<StateEpisode>, f: &PatternFilter) -> (r: bool)
        requires
            self.wf(),
            object_index < self.objects@.len(),
            seg_ok(*self, sl@),
            runs_bounded(sl@.len() as int, episodes_view(eps@)),
        ensures
            r == exists|i: int| 0 <= i < eps@.len() && filter_matches(*f, intra_instance(*self, object_index as int, pairs_view(sl@), #[trigger] episodes_view(eps@)[i])),
    {
        let ghost ev = episodes_view(eps@);
        let ghost oi = object_index as int;
        let mut i: usize = 0;
        while i < eps.len()
            invariant
                self.wf(),
                object_index < self.objects@.len(),
                oi == object_index as int,
                seg_ok(*self, sl@),
                ev == episodes_view(eps@),
                runs_bounded(sl@.len() as int, ev),
                i <= eps@.len(),
                forall|j: int| 0 <= j < i ==> !filter_matches(*f, intra_instance(*self, oi, pairs_view(sl@), #[trigger] ev[j])),
            decreases eps.len() - i,
        {
            proof {
                assert(ev[i as int] == eps@[i as int].view3());
                assert(0 <= ev[i as int].1 <= ev[i as int].2 < sl@.len());
            }
            let inst = self.intra_instance_at(object_index, sl, &eps[i]);
            if pattern_filter_matches_instance(f, &inst, Ghost(intra_instance(*self, oi, pairs_view(sl@), ev[i as int]))) {
                return true;
            }
            i = i + 1;
        }
        false
    }

    fn any_inter_match(&self, object_index: usize, sl: &Vec<(usize, String)>, eps: &Vec<StateEpisode>, f: &PatternFilter) -> (r: bool)
        requires
            self.wf(),
            object_index < self.objects@.len(),
            seg_ok(*self, sl@),
            runs_bounded(sl@.len() as int, episodes_view(eps@)),
        ensures
            r == exists|i: int, k: int|
                0 <= i && k == i + 1 && k < eps@.len() && (#[trigger] episodes_view(eps@)[i]).0 != (#[trigger] episodes_view(
                    eps@,
                )[k]).0 && filter_matches(
                    *f,
                    inter_instance(*self, object_index as int, pairs_view(sl@), episodes_view(eps@)[i], episodes_view(eps@)[k]),
                ),
    {
        let ghost ev = episodes_view(eps@);
        let ghost oi = object_index as int;
        if eps.len() == 0 {
            return false;
        }
        let mut i: usize = 0;
        while i < eps.len() - 1
            invariant
                self.wf(),
                object_index < self.objects@.len(),
                oi == object_index as int,
                seg_ok(*self, sl@),
                ev == episodes_view(eps@),
                runs_bounded(sl@.len() as int, ev),
                eps@.len() > 0,
                i <= eps@.len() - 1,
                forall|j: int, k: int|
                    0 <= j < i && k == j + 1 ==> !((#[trigger] ev[j]).0 != (#[trigger] ev[k]).0 && filter_matches(
                        *f,
                        inter_instance(*self, oi, pairs_view(sl@), ev[j], ev[k]),
                    )),
            decreases eps.len() - i,
        {
            proof {
                assert(ev[i as int] == eps@[i as int].view3());
                assert(ev[i + 1] == eps@[i + 1].view3());
                assert(0 <= ev[i as int].1 <= ev[i as int].2 < sl@.len());
                assert(0 <= ev[i + 1].1 <= ev[i + 1].2 < sl@.len());
            }
            if !crate::text::str_eq(eps[i].state.as_str(), eps[i + 1].state.as_str()) {
                let inst = self.inter_instance_at(object_index, sl, &eps[i], &eps[i + 1]);
                if pattern_filter_matches_instance(f, &inst, Ghost(inter_instance(*self, oi, pairs_view(sl@), ev[i as int], ev[i + 1]))) {
                    return true;
                }
            }
            i = i + 1;
        }
        false
    }

    /// Whether the object at `object_index` leads a segment with the
    /// pattern described by `f`.
    pub fn object_matches_pattern_filter(&self, object_index: usize, f: &PatternFilter) -> (r: bool)
        requires
            self.wf(),
            object_index < self.objects@.len(),
        ensures
            r == object_shows_pattern(*self, object_index as int, *f),
    {
        let ghost oi = object_index as int;
        proof { assert(object_ok(self.pool@.len(), self.events@.len(), self.objects@[oi])); }
        if f.leading_object_type.as_str().is_empty()
            || !crate::text::str_eq(self.pool.resolve(self.objects[object_index].type_symbol), f.leading_object_type.as_str()) {
            return false;
        }
        let st = match self.symbol_for_value("state") {
            Some(st) => st,
            None => return false,
        };
        let sl = self.stateful_lifecycle(object_index, st);
        if sl.len() == 0 {
            return false;
        }
        let eps = state_episodes(&sl);
        proof {
            assert(sl@.map_values(|p: (usize, String)| p.1@) =~= sl_states(pairs_view(sl@)));
            lemma_runs_maximal(sl_states(pairs_view(sl@)));
            assert(runs_bounded(sl@.len() as int, episodes_view(eps@)));
        }
        if crate::text::str_eq(f.family.as_str(), "intra") {
            self.any_intra_match(object_index, &sl, &eps, f)
        } else if crate::text::str_eq(f.family.as_str(), "inter") {
            self.any_inter_match(object_index, &sl, &eps, f)
        } else {
            false
        }
    }
}

} // verus!
