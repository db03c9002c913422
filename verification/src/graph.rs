use vstd::prelude::*;
use crate::text::{
    Order3, seq_order, text_order, owned, push_text, str_eq, nat_digits, count_to_text, lemma_seq_order_equal,
    lemma_seq_order_flip, lemma_seq_order_trans,
};
use crate::counts::{pair_order, lemma_pair_order};
use crate::counting::clamp_usize;

verus! {

/// Key of a graph edge: source, target and object type.
pub type EdgeKey = (Seq<char>, Seq<char>, Seq<char>);

pub open spec fn edge_key_order(a: EdgeKey, b: EdgeKey) -> Order3 {
    match seq_order(a.0, b.0) {
        Order3::Equal => pair_order((a.1, a.2), (b.1, b.2)),
        o => o,
    }
}

pub open spec fn edge_key_less(a: EdgeKey, b: EdgeKey) -> bool {
    edge_key_order(a, b) == Order3::Less
}

pub proof fn lemma_edge_key_order(a: EdgeKey, b: EdgeKey, c: EdgeKey)
    ensures
        edge_key_order(a, b) == Order3::Equal <==> a == b,
        edge_key_less(a, b) <==> edge_key_order(b, a) == Order3::Greater,
        edge_key_less(a, b) && edge_key_less(b, c) ==> edge_key_less(a, c),
{
    lemma_seq_order_equal(a.0, b.0);
    lemma_seq_order_equal(b.0, c.0);
    lemma_seq_order_flip(a.0, b.0);
    lemma_seq_order_flip(b.0, a.0);
    lemma_pair_order((a.1, a.2), (b.1, b.2), (c.1, c.2));
    lemma_pair_order((b.1, b.2), (a.1, a.2), (c.1, c.2));
    if edge_key_less(a, b) && edge_key_less(b, c) {
        if seq_order(a.0, b.0) == Order3::Less && seq_order(b.0, c.0) == Order3::Less {
            lemma_seq_order_trans(a.0, b.0, c.0);
        } else if seq_order(a.0, b.0) == Order3::Less {
            assert(b.0 == c.0);
        } else if seq_order(b.0, c.0) == Order3::Less {
            assert(a.0 == b.0);
        }
    }
}

/// Colour of the object type that was the `index`-th to ask for one.
pub open spec fn color_text(index: nat) -> Seq<char> {
    "hsl("@ + nat_digits(((214 + index * 137) % 360) as nat) + " 68% 38%)"@
}

/// Colour of graph elements that belong to the object type at `index`.
pub fn object_type_graph_color(index: usize) -> (r: String)
    ensures
        r@ == color_text(index as nat),
{
    let hue = (214 + (index % 360) * 137) % 360;
    proof {
        let i = index as int;
        assert((214 + (i % 360) * 137) % 360 == (214 + i * 137) % 360) by (nonlinear_arith)
            requires i >= 0;
    }
    let mut out = owned("hsl(");
    push_text(&mut out, count_to_text(hue).as_str());
    push_text(&mut out, " 68% 38%)");
    out
}

/// Label of the start or end node of an object type.
pub open spec fn boundary_label(boundary: Seq<char>, object_type: Seq<char>) -> Seq<char> {
    boundary + "\n"@ + object_type
}

/// Label of the start or end node of an object type.
pub fn object_boundary_label(boundary: &str, object_type: &str) -> (r: String)
    ensures
        r@ == boundary_label(boundary@, object_type@),
{
    let mut out = owned(boundary);
    push_text(&mut out, "\n");
    push_text(&mut out, object_type);
    out
}

/// A node of an accumulated graph.
pub struct GraphNode {
    pub label: String,
    pub kind: String,
    pub shape: String,
    pub color: String,
    pub object_type: Option<String>,
    /// How often the node was added.
    pub count: usize,
    /// Sum of the layout orders it was added at, each times its count.
    pub order_sum: usize,
    pub order_count: usize,
}

/// An edge of an accumulated graph.
pub struct GraphEdge {
    pub source: String,
    pub target: String,
    pub object_type: String,
    pub color: String,
    pub weight: usize,
}

/// What a node holds, as mathematical values.
pub struct NodeView {
    pub kind: Seq<char>,
    pub shape: Seq<char>,
    pub color: Seq<char>,
    pub object_type: Option<Seq<char>>,
    pub count: nat,
    pub order_sum: nat,
    pub order_count: nat,
}

pub open spec fn opt_seq(o: Option<String>) -> Option<Seq<char>> {
    match o {
        Some(s) => Some(s@),
        None => None,
    }
}

impl GraphNode {
    pub open spec fn holds(self, v: NodeView) -> bool {
        &&& self.kind@ == v.kind
        &&& self.shape@ == v.shape
        &&& self.color@ == v.color
        &&& opt_seq(self.object_type) == v.object_type
        &&& self.count == clamp_usize(v.count)
        &&& self.order_sum == clamp_usize(v.order_sum)
        &&& self.order_count == clamp_usize(v.order_count)
    }
}

impl GraphEdge {
    pub open spec fn key(self) -> EdgeKey {
        (self.source@, self.target@, self.object_type@)
    }
}

/// A graph as mathematical values: nodes by label, edges by key with their
/// colour and weight, and the object types in the order they got colours.
pub struct GraphView {
    pub nodes: Map<Seq<char>, NodeView>,
    pub edges: Map<EdgeKey, (Seq<char>, nat)>,
    pub types: Seq<Seq<char>>,
}

/// Nodes, edges and colours of a directly-follows graph being built.
pub struct GraphAccumulator {
    pub title: String,
    pub subtitle: String,
    /// Nodes, in label order.
    pub nodes: Vec<GraphNode>,
    /// Edges, in key order.
    pub edges: Vec<GraphEdge>,
    /// Object types, in the order they got their colours.
    pub object_types: Vec<String>,
}

pub open spec fn nodes_sorted(ns: Seq<GraphNode>) -> bool {
    forall|i: int, j: int| 0 <= i < j < ns.len() ==> seq_order(#[trigger] ns[i].label@, #[trigger] ns[j].label@) == Order3::Less
}

pub open spec fn edges_sorted(es: Seq<GraphEdge>) -> bool {
    forall|i: int, j: int| 0 <= i < j < es.len() ==> edge_key_less(#[trigger] es[i].key(), #[trigger] es[j].key())
}

pub open spec fn distinct_texts_seq(s: Seq<Seq<char>>) -> bool {
    forall|i: int, j: int| 0 <= i < j < s.len() ==> s[i] != s[j]
}

pub open spec fn type_texts(v: Seq<String>) -> Seq<Seq<char>> {
    v.map_values(|s: String| s@)
}

impl GraphAccumulator {
    pub open spec fn wf(&self) -> bool {
        &&& nodes_sorted(self.nodes@)
        &&& edges_sorted(self.edges@)
        &&& distinct_texts_seq(type_texts(self.object_types@))
    }

    /// The accumulator holds the graph `g`.
    pub open spec fn holds(&self, g: GraphView) -> bool {
        &&& self.wf()
        &&& forall|l: Seq<char>| #[trigger] g.nodes.contains_key(l) <==> exists|i: int| 0 <= i < self.nodes@.len() && self.nodes@[i].label@ == l
        &&& forall|i: int| 0 <= i < self.nodes@.len() ==> g.nodes.contains_key(#[trigger] self.nodes@[i].label@) && self.nodes@[i].holds(g.nodes[self.nodes@[i].label@])
        &&& forall|k: EdgeKey| #[trigger] g.edges.contains_key(k) <==> exists|i: int| 0 <= i < self.edges@.len() && self.edges@[i].key() == k
        &&& forall|i: int| 0 <= i < self.edges@.len() ==> g.edges.contains_key(#[trigger] self.edges@[i].key())
            && self.edges@[i].color@ == g.edges[self.edges@[i].key()].0
            && self.edges@[i].weight == clamp_usize(g.edges[self.edges@[i].key()].1)
        &&& type_texts(self.object_types@) == g.types
    }
}

/// The types with `t` added, when it is new.
pub open spec fn with_type(types: Seq<Seq<char>>, t: Seq<char>) -> Seq<Seq<char>> {
    if types.contains(t) { types } else { types.push(t) }
}

/// Position of `t` among distinct types.
pub open spec fn type_index(types: Seq<Seq<char>>, t: Seq<char>) -> nat {
    if types.contains(t) { (choose|i: int| 0 <= i < types.len() && types[i] == t) as nat } else { types.len() }
}

/// Colour of an object type, given the types coloured before.
pub open spec fn type_color(types: Seq<Seq<char>>, t: Seq<char>) -> Seq<char> {
    color_text(type_index(types, t))
}

/// The graph after adding `count` to a node; a node first added as
/// something else becomes a state change when added as one.
pub open spec fn node_added(
    g: GraphView,
    label: Seq<char>,
    kind: Seq<char>,
    shape: Seq<char>,
    color: Seq<char>,
    object_type: Option<Seq<char>>,
    order: nat,
    count: nat,
) -> GraphView {
    let n = if g.nodes.contains_key(label) {
        let o = g.nodes[label];
        let promote = o.kind != "state-change"@ && kind == "state-change"@;
        NodeView {
            kind: if promote { kind } else { o.kind },
            shape: if promote { shape } else { o.shape },
            color: if promote { color } else { o.color },
            object_type: if promote { object_type } else { o.object_type },
            count: o.count + count,
            order_sum: o.order_sum + order * count,
            order_count: o.order_count + count,
        }
    } else {
        NodeView { kind, shape, color, object_type, count, order_sum: order * count, order_count: count }
    };
    GraphView { nodes: g.nodes.insert(label, n), edges: g.edges, types: g.types }
}

/// The graph after an object type asked for its colour.
pub open spec fn type_added(g: GraphView, t: Seq<char>) -> GraphView {
    GraphView { nodes: g.nodes, edges: g.edges, types: with_type(g.types, t) }
}

/// The graph after adding `weight` to an edge.
pub open spec fn edge_added(g: GraphView, source: Seq<char>, target: Seq<char>, t: Seq<char>, weight: nat) -> GraphView {
    let k = (source, target, t);
    let e = if g.edges.contains_key(k) {
        (g.edges[k].0, g.edges[k].1 + weight)
    } else {
        (type_color(g.types, t), weight)
    };
    GraphView { nodes: g.nodes, edges: g.edges.insert(k, e), types: with_type(g.types, t) }
}

fn node_label_less(n: &GraphNode, label: &str) -> (r: bool)
    ensures
        r == (seq_order(n.label@, label@) == Order3::Less),
{
    text_order(n.label.as_str(), label) == Order3::Less
}

fn edge_key_compare(e: &GraphEdge, source: &str, target: &str, t: &str) -> (r: Order3)
    ensures
        r == edge_key_order(e.key(), (source@, target@, t@)),
{
    match text_order(e.source.as_str(), source) {
        Order3::Equal => match text_order(e.target.as_str(), target) {
            Order3::Equal => text_order(e.object_type.as_str(), t),
            o => o,
        },
        o => o,
    }
}

pub open spec fn sat_mul(a: usize, b: usize) -> usize {
    clamp_usize((a * b) as nat)
}

fn mul_sat(a: usize, b: usize) -> (r: usize)
    ensures
        r == clamp_usize((a * b) as nat),
{
    match a.checked_mul(b) {
        Some(p) => p,
        None => usize::MAX,
    }
}

impl GraphAccumulator {
    /// An empty graph with a title and subtitle.
    pub fn new(title: String, subtitle: String) -> (r: GraphAccumulator)
        ensures
            r.title@ == title@,
            r.subtitle@ == subtitle@,
            r.holds(GraphView { nodes: Map::empty(), edges: Map::empty(), types: Seq::empty() }),
    {
        let r = GraphAccumulator { title, subtitle, nodes: Vec::new(), edges: Vec::new(), object_types: Vec::new() };
        assert(type_texts(r.object_types@) =~= Seq::<Seq<char>>::empty());
        r
    }

    /// The colour of an object type; a new type gets the next colour.
    pub fn color_for_object_type(&mut self, t: &str, Ghost(g): Ghost<GraphView>) -> (r: String)
        requires
            old(self).holds(g),
        ensures
            final(self).holds(type_added(g, t@)),
            r@ == type_color(g.types, t@),
            final(self).title == old(self).title,
            final(self).subtitle == old(self).subtitle,
    {
        let mut i: usize = 0;
        while i < self.object_types.len()
            invariant
                self.holds(g),
                i <= self.object_types@.len(),
                forall|k: int| 0 <= k < i ==> self.object_types@[k]@ != t@,
            decreases self.object_types.len() - i,
        {
            if str_eq(self.object_types[i].as_str(), t) {
                proof {
                    let ts = g.types;
                    assert(ts[i as int] == t@);
                    let c = choose|c: int| 0 <= c < ts.len() && ts[c] == t@;
                    assert(c == i as int) by {
                        if c != i as int {
                            if c < i {
                                assert(self.object_types@[c]@ == ts[c]);
                            } else {
                                assert(ts[i as int] != ts[c]);
                            }
                        }
                    }
                    assert(with_type(ts, t@) == ts);
                }
                return object_type_graph_color(i);
            }
            i = i + 1;
        }
        proof {
            assert(!g.types.contains(t@)) by {
                if g.types.contains(t@) {
                    let c = choose|c: int| 0 <= c < g.types.len() && g.types[c] == t@;
                    assert(self.object_types@[c]@ == t@);
                }
            }
        }
        let n = self.object_types.len();
        let c = object_type_graph_color(n);
        self.object_types.push(owned(t));
        proof {
            assert(type_texts(self.object_types@) =~= g.types.push(t@));
            let ts = type_texts(self.object_types@);
            assert forall|a: int, b: int| 0 <= a < b < ts.len() implies ts[a] != ts[b] by {
                if b == ts.len() - 1 {
                    assert(ts[a] == g.types[a]);
                } else {
                    assert(ts[a] == g.types[a] && ts[b] == g.types[b]);
                }
            }
            assert(with_type(g.types, t@) == g.types.push(t@));
            let g2 = type_added(g, t@);
            assert(g2.nodes == g.nodes && g2.edges == g.edges);
            assert(self.nodes@ == old(self).nodes@ && self.edges@ == old(self).edges@);
            assert(self.wf());
            assert(self.holds(g2));
        }
        c
    }
}

pub open spec fn opt_str(o: Option<&str>) -> Option<Seq<char>> {
    match o {
        Some(s) => Some(s@),
        None => None,
    }
}

fn owned_opt(o: Option<&str>) -> (r: Option<String>)
    ensures
        opt_seq(r) == opt_str(o),
{
    match o {
        Some(s) => Some(owned(s)),
        None => None,
    }
}

impl GraphAccumulator {
    /// Adds `count` to a node, creating it with the given style when new.
    pub fn add_node_with_style(
        &mut self,
        label: &str,
        kind: &str,
        shape: &str,
        color: &str,
        object_type: Option<&str>,
        order: usize,
        count: usize,
        Ghost(g): Ghost<GraphView>,
    )
        requires
            old(self).holds(g),
        ensures
            final(self).holds(node_added(g, label@, kind@, shape@, color@, opt_str(object_type), order as nat, count as nat)),
            final(self).title == old(self).title,
            final(self).subtitle == old(self).subtitle,
    {
        let ghost g2 = node_added(g, label@, kind@, shape@, color@, opt_str(object_type), order as nat, count as nat);
        let mut i: usize = 0;
        loop
            invariant
                self.holds(g),
                self.nodes@ == old(self).nodes@,
                self.edges@ == old(self).edges@,
                self.object_types@ == old(self).object_types@,
                self.title == old(self).title,
                self.subtitle == old(self).subtitle,
                i <= self.nodes@.len(),
                forall|j: int| 0 <= j < i ==> seq_order(#[trigger] self.nodes@[j].label@, label@) == Order3::Less,
            ensures
                self.holds(g),
                self.nodes@ == old(self).nodes@,
                self.edges@ == old(self).edges@,
                self.object_types@ == old(self).object_types@,
                self.title == old(self).title,
                self.subtitle == old(self).subtitle,
                i <= self.nodes@.len(),
                forall|j: int| 0 <= j < i ==> seq_order(#[trigger] self.nodes@[j].label@, label@) == Order3::Less,
                i < self.nodes@.len() ==> seq_order(self.nodes@[i as int].label@, label@) != Order3::Less,
            decreases self.nodes.len() - i,
        {
            if i >= self.nodes.len() {
                break;
            }
            if !node_label_less(&self.nodes[i], label) {
                break;
            }
            i = i + 1;
        }
        let ghost ns = self.nodes@;
        if i < self.nodes.len() && text_order(self.nodes[i].label.as_str(), label) == Order3::Equal {
            proof {
                lemma_seq_order_equal(ns[i as int].label@, label@);
                assert(g.nodes.contains_key(label@));
                let o = g.nodes[label@];
                crate::counts::lemma_clamp_add(o.count, count as nat);
                crate::counts::lemma_clamp_add(o.order_sum, (order * count) as nat);
                crate::counts::lemma_clamp_add(o.order_count, count as nat);
            }
            let old_node = &self.nodes[i];
            let promote = !str_eq(old_node.kind.as_str(), "state-change") && str_eq(kind, "state-change");
            let node = GraphNode {
                label: owned(old_node.label.as_str()),
                kind: if promote { owned(kind) } else { owned(old_node.kind.as_str()) },
                shape: if promote { owned(shape) } else { owned(old_node.shape.as_str()) },
                color: if promote { owned(color) } else { owned(old_node.color.as_str()) },
                object_type: if promote { owned_opt(object_type) } else {
                    match &old_node.object_type {
                        Some(t) => Some(owned(t.as_str())),
                        None => None,
                    }
                },
                count: old_node.count.saturating_add(count),
                order_sum: old_node.order_sum.saturating_add(mul_sat(order, count)),
                order_count: old_node.order_count.saturating_add(count),
            };
            self.nodes.set(i, node);
            proof {
                assert forall|j: int| 0 <= j < ns.len() && j != i as int implies ns[j].label@ != label@ by {
                    lemma_seq_order_equal(ns[j].label@, label@);
                    if j > i {
                        lemma_seq_order_flip(label@, ns[j].label@);
                        assert(seq_order(ns[i as int].label@, ns[j].label@) == Order3::Less);
                    }
                }
                assert forall|l: Seq<char>| #[trigger] g2.nodes.contains_key(l) <==> exists|j: int| 0 <= j < self.nodes@.len() && self.nodes@[j].label@ == l by {
                    if g2.nodes.contains_key(l) && l != label@ {
                        assert(g.nodes.contains_key(l));
                        let j = choose|j: int| 0 <= j < ns.len() && ns[j].label@ == l;
                        assert(self.nodes@[j].label@ == l);
                    }
                    if l == label@ {
                        assert(self.nodes@[i as int].label@ == l);
                    }
                    if exists|j: int| 0 <= j < self.nodes@.len() && self.nodes@[j].label@ == l {
                        let j = choose|j: int| 0 <= j < self.nodes@.len() && self.nodes@[j].label@ == l;
                        if j != i as int {
                            assert(ns[j].label@ == l);
                        }
                    }
                }
                assert(self.nodes@[i as int].label@ == label@);
                assert forall|j: int| 0 <= j < self.nodes@.len() implies #[trigger] self.nodes@[j].label@ == ns[j].label@ by {}
                assert(nodes_sorted(self.nodes@)) by {
                    assert forall|x: int, y: int| 0 <= x < y < self.nodes@.len() implies seq_order(#[trigger] self.nodes@[x].label@, #[trigger] self.nodes@[y].label@) == Order3::Less by {
                        assert(self.nodes@[x].label@ == ns[x].label@);
                        assert(self.nodes@[y].label@ == ns[y].label@);
                    }
                }
                assert forall|j: int| 0 <= j < self.nodes@.len() implies g2.nodes.contains_key(#[trigger] self.nodes@[j].label@)
                    && self.nodes@[j].holds(g2.nodes[self.nodes@[j].label@]) by {
                    if j != i as int {
                        assert(self.nodes@[j] == ns[j]);
                    }
                }
                assert(self.holds(g2));
            }
        } else {
            proof {
                if i < ns.len() {
                    lemma_seq_order_equal(ns[i as int].label@, label@);
                    lemma_seq_order_flip(ns[i as int].label@, label@);
                    lemma_seq_order_flip(label@, ns[i as int].label@);
                }
                assert forall|j: int| i <= j < ns.len() implies seq_order(label@, #[trigger] ns[j].label@) == Order3::Less by {
                    if j > i {
                        lemma_seq_order_trans(label@, ns[i as int].label@, ns[j].label@);
                    }
                }
                assert(!g.nodes.contains_key(label@)) by {
                    if g.nodes.contains_key(label@) {
                        let j = choose|j: int| 0 <= j < ns.len() && ns[j].label@ == label@;
                        lemma_seq_order_equal(label@, label@);
                        if j < i {
                        } else {
                            assert(seq_order(label@, ns[j].label@) == Order3::Less);
                        }
                    }
                }
            }
            let node = GraphNode {
                label: owned(label),
                kind: owned(kind),
                shape: owned(shape),
                color: owned(color),
                object_type: owned_opt(object_type),
                count,
                order_sum: mul_sat(order, count),
                order_count: count,
            };
            self.nodes.insert(i, node);
            proof {
                assert(self.nodes@ == ns.insert(i as int, node));
                assert forall|x: int, y: int| 0 <= x < y < self.nodes@.len() implies seq_order(#[trigger] self.nodes@[x].label@, #[trigger] self.nodes@[y].label@) == Order3::Less by {
                    if y < i {
                    } else if y == i {
                    } else if x < i {
                        assert(self.nodes@[y] == ns[y - 1]);
                        lemma_seq_order_trans(ns[x].label@, label@, ns[y - 1].label@);
                    } else if x == i {
                        assert(self.nodes@[y] == ns[y - 1]);
                    } else {
                        assert(self.nodes@[x] == ns[x - 1] && self.nodes@[y] == ns[y - 1]);
                    }
                }
                assert forall|j: int| 0 <= j < self.nodes@.len() implies g2.nodes.contains_key(#[trigger] self.nodes@[j].label@)
                    && self.nodes@[j].holds(g2.nodes[self.nodes@[j].label@]) by {
                    if j < i {
                        assert(self.nodes@[j] == ns[j]);
                        lemma_seq_order_equal(ns[j].label@, label@);
                    } else if j > i {
                        assert(self.nodes@[j] == ns[j - 1]);
                        lemma_seq_order_equal(label@, ns[j - 1].label@);
                    }
                }
                assert forall|l: Seq<char>| #[trigger] g2.nodes.contains_key(l) <==> exists|j: int| 0 <= j < self.nodes@.len() && self.nodes@[j].label@ == l by {
                    if g2.nodes.contains_key(l) && l != label@ {
                        assert(g.nodes.contains_key(l));
                        let j = choose|j: int| 0 <= j < ns.len() && ns[j].label@ == l;
                        if j < i {
                            assert(self.nodes@[j].label@ == l);
                        } else {
                            assert(self.nodes@[j + 1].label@ == l);
                        }
                    }
                    if l == label@ {
                        assert(self.nodes@[i as int].label@ == l);
                    }
                    if exists|j: int| 0 <= j < self.nodes@.len() && self.nodes@[j].label@ == l {
                        let j = choose|j: int| 0 <= j < self.nodes@.len() && self.nodes@[j].label@ == l;
                        if j < i {
                            assert(ns[j].label@ == l);
                        } else if j > i {
                            assert(ns[j - 1].label@ == l);
                        }
                    }
                }
                assert(self.holds(g2));
            }
        }
    }
}

impl GraphAccumulator {
    /// Adds `weight` to the edge of an object type between two nodes.
    pub fn add_edge(&mut self, source: &str, target: &str, t: &str, weight: usize, Ghost(g): Ghost<GraphView>)
        requires
            old(self).holds(g),
        ensures
            final(self).holds(edge_added(g, source@, target@, t@, weight as nat)),
            final(self).title == old(self).title,
            final(self).subtitle == old(self).subtitle,
    {
        let color = self.color_for_object_type(t, Ghost(g));
        let ghost g1 = type_added(g, t@);
        let ghost k = (source@, target@, t@);
        let ghost g2 = edge_added(g, source@, target@, t@, weight as nat);
        let ghost title0 = self.title;
        let ghost subtitle0 = self.subtitle;
        let mut i: usize = 0;
        loop
            invariant
                self.holds(g1),
                k == (source@, target@, t@),
                self.title == title0,
                self.subtitle == subtitle0,
                i <= self.edges@.len(),
                forall|j: int| 0 <= j < i ==> edge_key_less(#[trigger] self.edges@[j].key(), k),
            ensures
                self.holds(g1),
                self.title == title0,
                self.subtitle == subtitle0,
                i <= self.edges@.len(),
                forall|j: int| 0 <= j < i ==> edge_key_less(#[trigger] self.edges@[j].key(), k),
                i < self.edges@.len() ==> !edge_key_less(self.edges@[i as int].key(), k),
            decreases self.edges.len() - i,
        {
            if i >= self.edges.len() {
                break;
            }
            if edge_key_compare(&self.edges[i], source, target, t) != Order3::Less {
                break;
            }
            i = i + 1;
        }
        let ghost es = self.edges@;
        if i < self.edges.len() && edge_key_compare(&self.edges[i], source, target, t) == Order3::Equal {
            proof {
                lemma_edge_key_order(es[i as int].key(), k, k);
                assert(g1.edges.contains_key(k));
                crate::counts::lemma_clamp_add(g1.edges[k].1, weight as nat);
            }
            let old_edge = &self.edges[i];
            let e = GraphEdge {
                source: owned(old_edge.source.as_str()),
                target: owned(old_edge.target.as_str()),
                object_type: owned(old_edge.object_type.as_str()),
                color: owned(old_edge.color.as_str()),
                weight: old_edge.weight.saturating_add(weight),
            };
            self.edges.set(i, e);
            proof {
                assert forall|j: int| 0 <= j < es.len() && j != i as int implies es[j].key() != k by {
                    lemma_edge_key_order(es[j].key(), es[i as int].key(), k);
                    lemma_edge_key_order(es[i as int].key(), es[j].key(), k);
                    lemma_edge_key_order(es[j].key(), k, k);
                }
                assert forall|j: int| 0 <= j < self.edges@.len() implies #[trigger] self.edges@[j].key() == es[j].key() by {}
                assert(edges_sorted(self.edges@)) by {
                    assert forall|x: int, y: int| 0 <= x < y < self.edges@.len() implies edge_key_less(#[trigger] self.edges@[x].key(), #[trigger] self.edges@[y].key()) by {
                        assert(self.edges@[x].key() == es[x].key());
                        assert(self.edges@[y].key() == es[y].key());
                    }
                }
                assert forall|kk: EdgeKey| #[trigger] g2.edges.contains_key(kk) <==> exists|j: int| 0 <= j < self.edges@.len() && self.edges@[j].key() == kk by {
                    if g2.edges.contains_key(kk) && kk != k {
                        assert(g1.edges.contains_key(kk));
                        let j = choose|j: int| 0 <= j < es.len() && es[j].key() == kk;
                        assert(self.edges@[j].key() == kk);
                    }
                    if kk == k {
                        assert(self.edges@[i as int].key() == kk);
                    }
                    if exists|j: int| 0 <= j < self.edges@.len() && self.edges@[j].key() == kk {
                        let j = choose|j: int| 0 <= j < self.edges@.len() && self.edges@[j].key() == kk;
                        assert(es[j].key() == kk);
                    }
                }
                assert forall|j: int| 0 <= j < self.edges@.len() implies g2.edges.contains_key(#[trigger] self.edges@[j].key())
                    && self.edges@[j].color@ == g2.edges[self.edges@[j].key()].0
                    && self.edges@[j].weight == clamp_usize(g2.edges[self.edges@[j].key()].1) by {
                    if j != i as int {
                        assert(self.edges@[j] == es[j]);
                    }
                }
                assert(g2.nodes == g1.nodes && g2.types == g1.types);
                assert(self.holds(g2));
            }
        } else {
            proof {
                if i < es.len() {
                    lemma_edge_key_order(es[i as int].key(), k, k);
                    lemma_edge_key_order(k, es[i as int].key(), k);
                }
                assert forall|j: int| i <= j < es.len() implies edge_key_less(k, #[trigger] es[j].key()) by {
                    if j > i {
                        lemma_edge_key_order(k, es[i as int].key(), es[j].key());
                    }
                }
                assert(!g1.edges.contains_key(k)) by {
                    if g1.edges.contains_key(k) {
                        let j = choose|j: int| 0 <= j < es.len() && es[j].key() == k;
                        lemma_edge_key_order(k, k, k);
                        if j < i {
                        } else {
                            assert(edge_key_less(k, es[j].key()));
                        }
                    }
                }
            }
            let e = GraphEdge { source: owned(source), target: owned(target), object_type: owned(t), color, weight };
            self.edges.insert(i, e);
            proof {
                assert(self.edges@ == es.insert(i as int, e));
                assert forall|x: int, y: int| 0 <= x < y < self.edges@.len() implies edge_key_less(#[trigger] self.edges@[x].key(), #[trigger] self.edges@[y].key()) by {
                    if y < i {
                    } else if y == i {
                    } else if x < i {
                        assert(self.edges@[y] == es[y - 1]);
                        lemma_edge_key_order(es[x].key(), k, es[y - 1].key());
                    } else if x == i {
                        assert(self.edges@[y] == es[y - 1]);
                    } else {
                        assert(self.edges@[x] == es[x - 1] && self.edges@[y] == es[y - 1]);
                    }
                }
                assert forall|j: int| 0 <= j < self.edges@.len() implies g2.edges.contains_key(#[trigger] self.edges@[j].key())
                    && self.edges@[j].color@ == g2.edges[self.edges@[j].key()].0
                    && self.edges@[j].weight == clamp_usize(g2.edges[self.edges@[j].key()].1) by {
                    if j < i {
                        assert(self.edges@[j] == es[j]);
                        lemma_edge_key_order(es[j].key(), k, k);
                    } else if j > i {
                        assert(self.edges@[j] == es[j - 1]);
                        lemma_edge_key_order(k, es[j - 1].key(), k);
                    }
                }
                assert forall|kk: EdgeKey| #[trigger] g2.edges.contains_key(kk) <==> exists|j: int| 0 <= j < self.edges@.len() && self.edges@[j].key() == kk by {
                    if g2.edges.contains_key(kk) && kk != k {
                        assert(g1.edges.contains_key(kk));
                        let j = choose|j: int| 0 <= j < es.len() && es[j].key() == kk;
                        if j < i {
                            assert(self.edges@[j].key() == kk);
                        } else {
                            assert(self.edges@[j + 1].key() == kk);
                        }
                    }
                    if kk == k {
                        assert(self.edges@[i as int].key() == kk);
                    }
                    if exists|j: int| 0 <= j < self.edges@.len() && self.edges@[j].key() == kk {
                        let j = choose|j: int| 0 <= j < self.edges@.len() && self.edges@[j].key() == kk;
                        if j < i {
                            assert(es[j].key() == kk);
                        } else if j > i {
                            assert(es[j - 1].key() == kk);
                        }
                    }
                }
                assert(g2.nodes == g1.nodes && g2.types == g1.types);
                assert(self.holds(g2));
            }
        }
    }

    /// Adds an activity node.
    pub fn add_node(&mut self, label: &str, kind: &str, order: usize, count: usize, Ghost(g): Ghost<GraphView>)
        requires
            old(self).holds(g),
        ensures
            final(self).holds(node_added(g, label@, kind@, "rect"@, "#42635c"@, None, order as nat, count as nat)),
            final(self).title == old(self).title,
            final(self).subtitle == old(self).subtitle,
    {
        self.add_node_with_style(label, kind, "rect", "#42635c", None, order, count, Ghost(g));
    }

    /// Adds the start or end node of an object type, in the type's colour.
    pub fn add_object_boundary_node(
        &mut self,
        label: &str,
        kind: &str,
        object_type: &str,
        order: usize,
        count: usize,
        Ghost(g): Ghost<GraphView>,
    )
        requires
            old(self).holds(g),
        ensures
            final(self).holds(node_added(type_added(g, object_type@), label@, kind@, "ellipse"@, type_color(g.types, object_type@), Some(object_type@), order as nat, count as nat)),
            final(self).title == old(self).title,
            final(self).subtitle == old(self).subtitle,
    {
        let color = self.color_for_object_type(object_type, Ghost(g));
        self.add_node_with_style(label, kind, "ellipse", color.as_str(), Some(object_type), order, count, Ghost(type_added(g, object_type@)));
    }
}

/// One step of building a graph.
pub enum GraphOp {
    /// An activity node with its kind and layout order.
    Activity(Seq<char>, Seq<char>, nat),
    /// A start or end node of an object type, with its kind, the type and
    /// its layout order.
    Boundary(Seq<char>, Seq<char>, Seq<char>, nat),
    /// An edge of an object type.
    Edge(Seq<char>, Seq<char>, Seq<char>),
}

pub open spec fn apply_op(g: GraphView, op: GraphOp) -> GraphView {
    match op {
        GraphOp::Activity(label, kind, order) => node_added(g, label, kind, "rect"@, "#42635c"@, None, order, 1),
        GraphOp::Boundary(label, kind, t, order) => node_added(
            type_added(g, t),
            label,
            kind,
            "ellipse"@,
            type_color(g.types, t),
            Some(t),
            order,
            1,
        ),
        GraphOp::Edge(source, target, t) => edge_added(g, source, target, t, 1),
    }
}

/// The graph after the steps, in order.
pub open spec fn apply_ops(g: GraphView, ops: Seq<GraphOp>) -> GraphView
    decreases ops.len(),
{
    if ops.len() == 0 {
        g
    } else {
        apply_op(apply_ops(g, ops.drop_last()), ops.last())
    }
}

pub proof fn lemma_apply_ops_concat(g: GraphView, a: Seq<GraphOp>, b: Seq<GraphOp>)
    ensures
        apply_ops(g, a + b) == apply_ops(apply_ops(g, a), b),
    decreases b.len(),
{
    if b.len() == 0 {
        assert(a + b =~= a);
    } else {
        lemma_apply_ops_concat(g, a, b.drop_last());
        assert((a + b).drop_last() =~= a + b.drop_last());
    }
}

pub open spec fn empty_graph() -> GraphView {
    GraphView { nodes: Map::empty(), edges: Map::empty(), types: Seq::empty() }
}

/// Frequency thresholds of a graph view.
pub struct GraphLayoutFilter {
    pub min_activity_frequency: usize,
    pub min_path_frequency: usize,
}

pub open spec fn is_boundary_kind(kind: Seq<char>) -> bool {
    kind == "object-start"@ || kind == "object-end"@
}

/// Nodes kept by the activity threshold.
pub open spec fn frequent_nodes(g: GraphView, f: GraphLayoutFilter) -> Set<Seq<char>> {
    Set::new(
        |l: Seq<char>| g.nodes.contains_key(l) && (f.min_activity_frequency == 0 || is_boundary_kind(g.nodes[l].kind)
            || clamp_usize(g.nodes[l].count) >= f.min_activity_frequency),
    )
}

/// Edges kept: frequent enough, between kept nodes.
pub open spec fn kept_edges(g: GraphView, f: GraphLayoutFilter) -> Set<EdgeKey> {
    Set::new(
        |k: EdgeKey| g.edges.contains_key(k) && clamp_usize(g.edges[k].1) >= f.min_path_frequency
            && frequent_nodes(g, f).contains(k.0) && frequent_nodes(g, f).contains(k.1),
    )
}

/// The graph a layout filter leaves: frequent nodes, frequent edges between
/// them, and only those start and end nodes that a kept edge touches.
pub open spec fn layout_filtered(g: GraphView, f: GraphLayoutFilter) -> GraphView {
    let ke = kept_edges(g, f);
    let kn = Set::new(
        |l: Seq<char>| frequent_nodes(g, f).contains(l) && (!is_boundary_kind(g.nodes[l].kind)
            || exists|k: EdgeKey| ke.contains(k) && (k.0 == l || k.1 == l)),
    );
    GraphView { nodes: g.nodes.restrict(kn), edges: g.edges.restrict(ke), types: g.types }
}

proof fn lemma_filter_nodes_sorted(ns: Seq<GraphNode>, p: spec_fn(GraphNode) -> bool)
    requires
        nodes_sorted(ns),
    ensures
        nodes_sorted(ns.filter(p)),
    decreases ns.len(),
{
    reveal(Seq::filter);
    if ns.len() > 0 {
        let t = ns.drop_last();
        lemma_filter_nodes_sorted(t, p);
        let ft = t.filter(p);
        if p(ns.last()) {
            let out = ft.push(ns.last());
            assert forall|i: int, j: int| 0 <= i < j < out.len() implies seq_order(#[trigger] out[i].label@, #[trigger] out[j].label@) == Order3::Less by {
                if j == out.len() - 1 {
                    crate::counting::lemma_filter_subset(t, p, i);
                    let k = choose|k: int| 0 <= k < t.len() && t[k] == ft[i];
                    assert(ns[k] == t[k]);
                    assert(seq_order(ns[k].label@, ns[ns.len() - 1].label@) == Order3::Less);
                }
            }
        }
    }
}

proof fn lemma_filter_edges_sorted(es: Seq<GraphEdge>, p: spec_fn(GraphEdge) -> bool)
    requires
        edges_sorted(es),
    ensures
        edges_sorted(es.filter(p)),
    decreases es.len(),
{
    reveal(Seq::filter);
    if es.len() > 0 {
        let t = es.drop_last();
        lemma_filter_edges_sorted(t, p);
        let ft = t.filter(p);
        if p(es.last()) {
            let out = ft.push(es.last());
            assert forall|i: int, j: int| 0 <= i < j < out.len() implies edge_key_less(#[trigger] out[i].key(), #[trigger] out[j].key()) by {
                if j == out.len() - 1 {
                    crate::counting::lemma_filter_subset(t, p, i);
                    let k = choose|k: int| 0 <= k < t.len() && t[k] == ft[i];
                    assert(es[k] == t[k]);
                    assert(edge_key_less(es[k].key(), es[es.len() - 1].key()));
                }
            }
        }
    }
}

/// Membership in a filtered sequence.
proof fn lemma_filter_member<A>(s: Seq<A>, p: spec_fn(A) -> bool, x: A)
    ensures
        s.filter(p).contains(x) <==> s.contains(x) && p(x),
{
    broadcast use vstd::seq_lib::group_filter_ensures;
    if s.filter(p).contains(x) {
        let i = choose|i: int| 0 <= i < s.filter(p).len() && s.filter(p)[i] == x;
        crate::counting::lemma_filter_subset(s, p, i);
        s.lemma_filter_pred(p, i);
    }
    if s.contains(x) && p(x) {
        let i = choose|i: int| 0 <= i < s.len() && s[i] == x;
        s.lemma_filter_contains(p, i);
    }
}

/// The entries of `v` whose flag is set, in order.
pub fn keep_flagged<T>(v: Vec<T>, keep: &Vec<bool>, Ghost(p): Ghost<spec_fn(T) -> bool>) -> (r: Vec<T>)
    requires
        keep@.len() == v@.len(),
        forall|i: int| 0 <= i < v@.len() ==> keep@[i] == p(#[trigger] v@[i]),
    ensures
        r@ == v@.filter(p),
{
    let ghost orig = v@;
    let n = v.len();
    let mut src = v;
    let mut rev: Vec<T> = Vec::new();
    while src.len() > 0
        invariant
            src@.len() + rev@.len() == n,
            n == orig.len(),
            forall|j: int| 0 <= j < src@.len() ==> #[trigger] src@[j] == orig[j],
            forall|j: int| 0 <= j < rev@.len() ==> #[trigger] rev@[j] == orig[n - 1 - j],
        decreases src.len(),
    {
        let x = src.pop().unwrap();
        rev.push(x);
    }
    let mut out: Vec<T> = Vec::new();
    let mut k: usize = 0;
    proof { reveal(Seq::filter); }
    assert(orig.take(0).filter(p) =~= Seq::<T>::empty());
    while rev.len() > 0
        invariant
            n == orig.len(),
            keep@.len() == n,
            forall|i: int| 0 <= i < n ==> keep@[i] == p(#[trigger] orig[i]),
            k + rev@.len() == n,
            forall|j: int| 0 <= j < rev@.len() ==> #[trigger] rev@[j] == orig[n - 1 - j],
            out@ == orig.take(k as int).filter(p),
        decreases rev.len(),
    {
        let x = rev.pop().unwrap();
        proof {
            reveal(Seq::filter);
            assert(x == orig[k as int]);
            assert(orig.take(k + 1).drop_last() =~= orig.take(k as int));
            assert(orig.take(k + 1).last() == orig[k as int]);
        }
        if keep[k] {
            out.push(x);
        }
        k = k + 1;
    }
    assert(orig.take(n as int) =~= orig);
    out
}

fn label_present(ns: &Vec<GraphNode>, label: &str) -> (r: bool)
    ensures
        r == exists|i: int| 0 <= i < ns@.len() && (#[trigger] ns@[i]).label@ == label@,
{
    let mut i: usize = 0;
    while i < ns.len()
        invariant
            i <= ns@.len(),
            forall|k: int| 0 <= k < i ==> (#[trigger] ns@[k]).label@ != label@,
        decreases ns.len() - i,
    {
        if str_eq(ns[i].label.as_str(), label) {
            return true;
        }
        i = i + 1;
    }
    false
}

fn touched(es: &Vec<GraphEdge>, label: &str) -> (r: bool)
    ensures
        r == exists|i: int| 0 <= i < es@.len() && ((#[trigger] es@[i]).source@ == label@ || es@[i].target@ == label@),
{
    let mut i: usize = 0;
    while i < es.len()
        invariant
            i <= es@.len(),
            forall|k: int| 0 <= k < i ==> !((#[trigger] es@[k]).source@ == label@ || es@[k].target@ == label@),
        decreases es.len() - i,
    {
        if str_eq(es[i].source.as_str(), label) || str_eq(es[i].target.as_str(), label) {
            return true;
        }
        i = i + 1;
    }
    false
}

impl GraphAccumulator {
    /// Drops rare nodes and edges, then start and end nodes left without edges.
    pub fn apply_layout_filter(&mut self, f: &GraphLayoutFilter, Ghost(g): Ghost<GraphView>)
        requires
            old(self).holds(g),
        ensures
            final(self).holds(layout_filtered(g, *f)),
            final(self).title == old(self).title,
            final(self).subtitle == old(self).subtitle,
    {
        let ghost fnodes = frequent_nodes(g, *f);
        let ghost ke = kept_edges(g, *f);
        let ghost g2 = layout_filtered(g, *f);
        let ghost p1 = |n: GraphNode| fnodes.contains(n.label@);
        let ghost p2 = |e: GraphEdge| ke.contains(e.key());
        let ghost ns0 = self.nodes@;
        let ghost es0 = self.edges@;
        let mut keep1: Vec<bool> = Vec::new();
        let mut i: usize = 0;
        while i < self.nodes.len()
            invariant
                self.holds(g),
                self.nodes@ == ns0,
                fnodes == frequent_nodes(g, *f),
                p1 == |n: GraphNode| fnodes.contains(n.label@),
                i <= ns0.len(),
                keep1@.len() == i,
                forall|k: int| 0 <= k < i ==> keep1@[k] == p1(#[trigger] ns0[k]),
            decreases self.nodes.len() - i,
        {
            let n = &self.nodes[i];
            proof { assert(g.nodes.contains_key(ns0[i as int].label@)); }
            let k = f.min_activity_frequency == 0 || str_eq(n.kind.as_str(), "object-start") || str_eq(n.kind.as_str(), "object-end")
                || n.count >= f.min_activity_frequency;
            keep1.push(k);
            i = i + 1;
        }
        let mut ns: Vec<GraphNode> = Vec::new();
        std::mem::swap(&mut ns, &mut self.nodes);
        let nodes1 = keep_flagged(ns, &keep1, Ghost(p1));
        proof {
            lemma_filter_nodes_sorted(ns0, p1);
            assert forall|l: Seq<char>| fnodes.contains(l) <==> exists|j: int| 0 <= j < nodes1@.len() && (#[trigger] nodes1@[j]).label@ == l by {
                if fnodes.contains(l) {
                    assert(g.nodes.contains_key(l));
                    let j = choose|j: int| 0 <= j < ns0.len() && ns0[j].label@ == l;
                    lemma_filter_member(ns0, p1, ns0[j]);
                    assert(ns0.contains(ns0[j]));
                    let x = choose|x: int| 0 <= x < nodes1@.len() && nodes1@[x] == ns0[j];
                }
                if exists|j: int| 0 <= j < nodes1@.len() && (#[trigger] nodes1@[j]).label@ == l {
                    let j = choose|j: int| 0 <= j < nodes1@.len() && (#[trigger] nodes1@[j]).label@ == l;
                    assert(nodes1@.contains(nodes1@[j]));
                    lemma_filter_member(ns0, p1, nodes1@[j]);
                }
            }
        }
        let mut keep2: Vec<bool> = Vec::new();
        let mut i: usize = 0;
        while i < self.edges.len()
            invariant
                self.edges@ == es0,
                forall|j: int| 0 <= j < es0.len() ==> g.edges.contains_key(#[trigger] es0[j].key())
                    && es0[j].weight == clamp_usize(g.edges[es0[j].key()].1),
                forall|l: Seq<char>| fnodes.contains(l) <==> exists|j: int| 0 <= j < nodes1@.len() && (#[trigger] nodes1@[j]).label@ == l,
                ke == kept_edges(g, *f),
                fnodes == frequent_nodes(g, *f),
                p2 == |e: GraphEdge| ke.contains(e.key()),
                i <= es0.len(),
                keep2@.len() == i,
                forall|k: int| 0 <= k < i ==> keep2@[k] == p2(#[trigger] es0[k]),
            decreases self.edges.len() - i,
        {
            let e = &self.edges[i];
            let k = e.weight >= f.min_path_frequency && label_present(&nodes1, e.source.as_str())
                && label_present(&nodes1, e.target.as_str());
            proof {
                assert(g.edges.contains_key(es0[i as int].key()));
            }
            keep2.push(k);
            i = i + 1;
        }
        let mut es: Vec<GraphEdge> = Vec::new();
        std::mem::swap(&mut es, &mut self.edges);
        let edges1 = keep_flagged(es, &keep2, Ghost(p2));
        proof {
            lemma_filter_edges_sorted(es0, p2);
        }
        let ghost p3 = |n: GraphNode| g2.nodes.contains_key(n.label@);
        let mut keep3: Vec<bool> = Vec::new();
        let mut i: usize = 0;
        while i < nodes1.len()
            invariant
                g2 == layout_filtered(g, *f),
                ke == kept_edges(g, *f),
                fnodes == frequent_nodes(g, *f),
                p1 == |n: GraphNode| fnodes.contains(n.label@),
                p2 == |e: GraphEdge| ke.contains(e.key()),
                p3 == |n: GraphNode| g2.nodes.contains_key(n.label@),
                nodes1@ == ns0.filter(p1),
                edges1@ == es0.filter(p2),
                forall|j: int| 0 <= j < ns0.len() ==> g.nodes.contains_key(#[trigger] ns0[j].label@) && ns0[j].holds(g.nodes[ns0[j].label@]),
                forall|k: EdgeKey| #[trigger] g.edges.contains_key(k) <==> exists|j: int| 0 <= j < es0.len() && es0[j].key() == k,
                i <= nodes1@.len(),
                keep3@.len() == i,
                forall|k: int| 0 <= k < i ==> keep3@[k] == p3(#[trigger] nodes1@[k]),
            decreases nodes1.len() - i,
        {
            let n = &nodes1[i];
            let k = !(str_eq(n.kind.as_str(), "object-start") || str_eq(n.kind.as_str(), "object-end")) || touched(&edges1, n.label.as_str());
            proof {
                let l = nodes1@[i as int].label@;
                assert(nodes1@.contains(nodes1@[i as int]));
                lemma_filter_member(ns0, p1, nodes1@[i as int]);
                let j0 = choose|j0: int| 0 <= j0 < ns0.len() && ns0[j0] == nodes1@[i as int];
                assert(ns0[j0].holds(g.nodes[l]));
                assert(fnodes.contains(l));
                if exists|x: int| 0 <= x < edges1@.len() && ((#[trigger] edges1@[x]).source@ == l || edges1@[x].target@ == l) {
                    let x = choose|x: int| 0 <= x < edges1@.len() && ((#[trigger] edges1@[x]).source@ == l || edges1@[x].target@ == l);
                    assert(edges1@.contains(edges1@[x]));
                    lemma_filter_member(es0, p2, edges1@[x]);
                    assert(ke.contains(edges1@[x].key()));
                }
                if exists|kk: EdgeKey| ke.contains(kk) && (kk.0 == l || kk.1 == l) {
                    let kk = choose|kk: EdgeKey| ke.contains(kk) && (kk.0 == l || kk.1 == l);
                    assert(g.edges.contains_key(kk));
                    let x = choose|x: int| 0 <= x < es0.len() && es0[x].key() == kk;
                    lemma_filter_member(es0, p2, es0[x]);
                    assert(es0.contains(es0[x]));
                    let y = choose|y: int| 0 <= y < edges1@.len() && edges1@[y] == es0[x];
                    assert(edges1@[y].source@ == l || edges1@[y].target@ == l);
                }
                assert(k == p3(nodes1@[i as int]));
            }
            keep3.push(k);
            i = i + 1;
        }
        let ghost n1 = nodes1@;
        let nodes2 = keep_flagged(nodes1, &keep3, Ghost(p3));
        self.nodes = nodes2;
        self.edges = edges1;
        proof {
            lemma_filter_nodes_sorted(n1, p3);
            assert forall|l: Seq<char>| #[trigger] g2.nodes.contains_key(l) <==> exists|i: int| 0 <= i < self.nodes@.len() && self.nodes@[i].label@ == l by {
                if g2.nodes.contains_key(l) {
                    assert(fnodes.contains(l));
                    let j = choose|j: int| 0 <= j < ns0.len() && ns0[j].label@ == l;
                    lemma_filter_member(ns0, p1, ns0[j]);
                    assert(ns0.contains(ns0[j]));
                    lemma_filter_member(n1, p3, ns0[j]);
                    let x = choose|x: int| 0 <= x < self.nodes@.len() && self.nodes@[x] == ns0[j];
                }
                if exists|i: int| 0 <= i < self.nodes@.len() && self.nodes@[i].label@ == l {
                    let i = choose|i: int| 0 <= i < self.nodes@.len() && self.nodes@[i].label@ == l;
                    assert(self.nodes@.contains(self.nodes@[i]));
                    lemma_filter_member(n1, p3, self.nodes@[i]);
                }
            }
            assert forall|i: int| 0 <= i < self.nodes@.len() implies g2.nodes.contains_key(#[trigger] self.nodes@[i].label@) && self.nodes@[i].holds(g2.nodes[self.nodes@[i].label@]) by {
                assert(self.nodes@.contains(self.nodes@[i]));
                lemma_filter_member(n1, p3, self.nodes@[i]);
                lemma_filter_member(ns0, p1, self.nodes@[i]);
                let j = choose|j: int| 0 <= j < ns0.len() && ns0[j] == self.nodes@[i];
            }
            assert forall|k: EdgeKey| #[trigger] g2.edges.contains_key(k) <==> exists|i: int| 0 <= i < self.edges@.len() && self.edges@[i].key() == k by {
                if g2.edges.contains_key(k) {
                    assert(ke.contains(k));
                    let j = choose|j: int| 0 <= j < es0.len() && es0[j].key() == k;
                    lemma_filter_member(es0, p2, es0[j]);
                    assert(es0.contains(es0[j]));
                    let x = choose|x: int| 0 <= x < self.edges@.len() && self.edges@[x] == es0[j];
                }
                if exists|i: int| 0 <= i < self.edges@.len() && self.edges@[i].key() == k {
                    let i = choose|i: int| 0 <= i < self.edges@.len() && self.edges@[i].key() == k;
                    assert(self.edges@.contains(self.edges@[i]));
                    lemma_filter_member(es0, p2, self.edges@[i]);
                }
            }
            assert forall|i: int| 0 <= i < self.edges@.len() implies g2.edges.contains_key(#[trigger] self.edges@[i].key())
                && self.edges@[i].color@ == g2.edges[self.edges@[i].key()].0
                && self.edges@[i].weight == clamp_usize(g2.edges[self.edges@[i].key()].1) by {
                assert(self.edges@.contains(self.edges@[i]));
                lemma_filter_member(es0, p2, self.edges@[i]);
                let j = choose|j: int| 0 <= j < es0.len() && es0[j] == self.edges@[i];
            }
            assert(self.holds(g2));
        }
    }
}

} // verus!
