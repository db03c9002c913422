use vstd::prelude::*;
use crate::error::OcelError;
use crate::text::{owned, push_text, str_eq, trim_text, trim_seq, lower_text, ascii_lower};
use crate::sorting::is_perm;

verus! {

/// The part a node plays in a causal model.
#[derive(PartialEq, Eq, Structural, Clone, Copy, Debug)]
pub enum CausalNodeRole {
    Observable,
    Latent,
    Outcome,
}

/// A node of a requested causal model.
pub struct CausalModelNodeRequest {
    pub id: String,
    pub label: String,
    pub role: String,
    pub feature: Option<String>,
    pub operation: String,
}

/// An edge of a requested causal model.
pub struct CausalModelEdgeRequest {
    pub source: String,
    pub target: String,
}

/// The role named by a text, after trimming and lower-casing.
pub open spec fn role_of(role: Seq<char>) -> Option<CausalNodeRole> {
    let r = ascii_lower(trim_seq(role));
    if r == "observable"@ {
        Some(CausalNodeRole::Observable)
    } else if r == "latent"@ {
        Some(CausalNodeRole::Latent)
    } else if r == "outcome"@ {
        Some(CausalNodeRole::Outcome)
    } else {
        None
    }
}

/// The message for a text that names no role.
pub open spec fn role_error(role: Seq<char>) -> Seq<char> {
    "unknown causal node role '"@ + ascii_lower(trim_seq(role)) + "'; expected observable, latent, or outcome"@
}

/// Reads a node role.
pub fn causal_role(role: &str) -> (r: Result<CausalNodeRole, OcelError>)
    ensures
        match r {
            Ok(x) => role_of(role@) == Some(x),
            Err(e) => role_of(role@) is None && e.message@ == role_error(role@),
        },
{
    let t = lower_text(trim_text(role).as_str());
    proof {
        reveal_strlit("observable");
        reveal_strlit("latent");
        reveal_strlit("outcome");
    }
    if str_eq(t.as_str(), "observable") {
        Ok(CausalNodeRole::Observable)
    } else if str_eq(t.as_str(), "latent") {
        Ok(CausalNodeRole::Latent)
    } else if str_eq(t.as_str(), "outcome") {
        Ok(CausalNodeRole::Outcome)
    } else {
        let mut m = owned("unknown causal node role '");
        push_text(&mut m, t.as_str());
        push_text(&mut m, "'; expected observable, latent, or outcome");
        proof {
            reveal_strlit("unknown causal node role '");
            reveal_strlit("'; expected observable, latent, or outcome");
        }
        Err(OcelError::new(m))
    }
}

/// The canonical name of a transform: aliases map to `identity`, `log10`,
/// `log_e` and `sqrt`; other texts stay as they are (trimmed, lower-cased).
pub open spec fn operation_name(op: Seq<char>) -> Seq<char> {
    let o = ascii_lower(trim_seq(op));
    if o == ""@ || o == "none"@ || o == "raw"@ || o == "identity"@ {
        "identity"@
    } else if o == "log_10"@ || o == "log10"@ {
        "log10"@
    } else if o == "ln"@ || o == "loge"@ || o == "log_e"@ {
        "log_e"@
    } else if o == "sqrt"@ || o == "square_root"@ {
        "sqrt"@
    } else {
        o
    }
}

/// A known transform.
pub open spec fn operation_known(op: Seq<char>) -> bool {
    let n = operation_name(op);
    n == "identity"@ || n == "log10"@ || n == "log_e"@ || n == "sqrt"@
}

/// The message for an unknown transform.
pub open spec fn operation_error(op: Seq<char>) -> Seq<char> {
    "unknown causal transform '"@ + operation_name(op) + "'; expected identity, log10, log_e, or sqrt"@
}

/// The canonical name of a transform.
pub fn normalized_causal_operation(operation: &str) -> (r: String)
    ensures
        r@ == operation_name(operation@),
{
    let o = lower_text(trim_text(operation).as_str());
    proof {
        reveal_strlit("");
        reveal_strlit("none");
        reveal_strlit("raw");
        reveal_strlit("identity");
        reveal_strlit("log_10");
        reveal_strlit("log10");
        reveal_strlit("ln");
        reveal_strlit("loge");
        reveal_strlit("log_e");
        reveal_strlit("sqrt");
        reveal_strlit("square_root");
    }
    let s = o.as_str();
    if str_eq(s, "") || str_eq(s, "none") || str_eq(s, "raw") || str_eq(s, "identity") {
        owned("identity")
    } else if str_eq(s, "log_10") || str_eq(s, "log10") {
        owned("log10")
    } else if str_eq(s, "ln") || str_eq(s, "loge") || str_eq(s, "log_e") {
        owned("log_e")
    } else if str_eq(s, "sqrt") || str_eq(s, "square_root") {
        owned("sqrt")
    } else {
        o
    }
}

/// Accepts the known transforms.
pub fn validate_causal_operation(operation: &str) -> (r: Result<(), OcelError>)
    ensures
        match r {
            Ok(_) => operation_known(operation@),
            Err(e) => !operation_known(operation@) && e.message@ == operation_error(operation@),
        },
{
    let n = normalized_causal_operation(operation);
    proof {
        reveal_strlit("identity");
        reveal_strlit("log10");
        reveal_strlit("log_e");
        reveal_strlit("sqrt");
    }
    let s = n.as_str();
    if str_eq(s, "identity") || str_eq(s, "log10") || str_eq(s, "log_e") || str_eq(s, "sqrt") {
        Ok(())
    } else {
        let mut m = owned("unknown causal transform '");
        push_text(&mut m, s);
        push_text(&mut m, "'; expected identity, log10, log_e, or sqrt");
        proof {
            reveal_strlit("unknown causal transform '");
            reveal_strlit("'; expected identity, log10, log_e, or sqrt");
        }
        Err(OcelError::new(m))
    }
}


/// The message of the first of the first `n` items that has a problem.
pub open spec fn first_problem(n: int, problem: spec_fn(int) -> Option<Seq<char>>) -> Option<Seq<char>>
    decreases n,
{
    if n <= 0 {
        None
    } else {
        match first_problem(n - 1, problem) {
            Some(m) => Some(m),
            None => problem(n - 1),
        }
    }
}

/// Some feature is named `f`.
pub open spec fn has_feature(features: Seq<String>, f: Seq<char>) -> bool {
    exists|k: int| 0 <= k < features.len() && #[trigger] features[k]@ == f
}

/// What is wrong with node `i`, given the nodes before it: an empty id, an
/// id used before, an unknown role, a missing or unknown feature or an
/// unknown transform of an observed node, or a feature on a latent node.
pub open spec fn node_problem(nodes: Seq<CausalModelNodeRequest>, features: Seq<String>, i: int) -> Option<Seq<char>> {
    let n = nodes[i];
    if trim_seq(n.id@).len() == 0 {
        Some("causal model nodes must have non-empty ids"@)
    } else if exists|j: int| 0 <= j < i && #[trigger] nodes[j].id@ == n.id@ {
        Some("duplicate causal model node id '"@ + n.id@ + "'"@)
    } else {
        match role_of(n.role@) {
            None => Some(role_error(n.role@)),
            Some(CausalNodeRole::Latent) => if n.feature is Some {
                Some("latent node '"@ + n.label@ + "' cannot reference an observed feature"@)
            } else {
                None
            },
            Some(_) => match n.feature {
                None => Some("node '"@ + n.label@ + "' must reference a feature"@),
                Some(f) => if !has_feature(features, f@) {
                    Some("node '"@ + n.label@ + "' references unknown feature '"@ + f@ + "'"@)
                } else if !operation_known(n.operation@) {
                    Some(operation_error(n.operation@))
                } else {
                    None
                },
            },
        }
    }
}

/// The nodes have distinct ids.
pub open spec fn distinct_ids(nodes: Seq<CausalModelNodeRequest>) -> bool {
    forall|i: int, j: int| 0 <= i < j < nodes.len() ==> #[trigger] nodes[i].id@ != #[trigger] nodes[j].id@
}

proof fn lemma_nodes_distinct(nodes: Seq<CausalModelNodeRequest>, features: Seq<String>, n: int)
    requires
        0 <= n <= nodes.len(),
        first_problem(n, |i: int| node_problem(nodes, features, i)) is None,
    ensures
        forall|i: int, j: int| 0 <= i < j < n ==> #[trigger] nodes[i].id@ != #[trigger] nodes[j].id@,
    decreases n,
{
    if n > 0 {
        lemma_nodes_distinct(nodes, features, n - 1);
        assert(node_problem(nodes, features, n - 1) is None);
    }
}

/// Once an item has a problem, the first problem stays the same.
pub proof fn lemma_first_problem_stuck(n: int, k: int, problem: spec_fn(int) -> Option<Seq<char>>)
    requires
        0 <= k <= n,
        first_problem(k, problem) is Some,
    ensures
        first_problem(n, problem) == first_problem(k, problem),
    decreases n - k,
{
    if n > k {
        lemma_first_problem_stuck(n - 1, k, problem);
    }
}

/// Whether some feature is named `f`.
fn feature_known(features: &Vec<String>, f: &str) -> (r: bool)
    ensures
        r == has_feature(features@, f@),
{
    let mut k: usize = 0;
    while k < features.len()
        invariant
            k <= features@.len(),
            forall|q: int| 0 <= q < k ==> #[trigger] features@[q]@ != f@,
        decreases features.len() - k,
    {
        if str_eq(features[k].as_str(), f) {
            return true;
        }
        k = k + 1;
    }
    false
}

/// What is wrong with node `i`, if anything.
fn node_check(nodes: &Vec<CausalModelNodeRequest>, features: &Vec<String>, i: usize) -> (r: Option<String>)
    requires
        i < nodes@.len(),
    ensures
        match r {
            Some(m) => node_problem(nodes@, features@, i as int) == Some(m@),
            None => node_problem(nodes@, features@, i as int) is None,
        },
{
    let n = &nodes[i];
    proof {
        reveal_strlit("causal model nodes must have non-empty ids");
        reveal_strlit("duplicate causal model node id '");
        reveal_strlit("'");
        reveal_strlit("latent node '");
        reveal_strlit("' cannot reference an observed feature");
        reveal_strlit("node '");
        reveal_strlit("' must reference a feature");
        reveal_strlit("' references unknown feature '");
    }
    if trim_text(n.id.as_str()).as_str().is_empty() {
        return Some(owned("causal model nodes must have non-empty ids"));
    }
    let mut j: usize = 0;
    while j < i
        invariant
            i < nodes@.len(),
            j <= i,
            *n == nodes@[i as int],
            trim_seq(n.id@).len() != 0,
            forall|k: int| 0 <= k < j ==> #[trigger] nodes@[k].id@ != n.id@,
        decreases i - j,
    {
        if str_eq(nodes[j].id.as_str(), n.id.as_str()) {
            proof {
                assert(nodes@[j as int].id@ == nodes@[i as int].id@);
                assert(exists|q: int| 0 <= q < i && #[trigger] nodes@[q].id@ == nodes@[i as int].id@);
            }
            let mut m = owned("duplicate causal model node id '");
            push_text(&mut m, n.id.as_str());
            push_text(&mut m, "'");
            return Some(m);
        }
        j = j + 1;
    }
    let role = match causal_role(n.role.as_str()) {
        Ok(role) => role,
        Err(e) => {
            return Some(e.message);
        },
    };
    match role {
        CausalNodeRole::Latent => {
            if n.feature.is_some() {
                let mut m = owned("latent node '");
                push_text(&mut m, n.label.as_str());
                push_text(&mut m, "' cannot reference an observed feature");
                return Some(m);
            }
            None
        },
        _ => {
            match &n.feature {
                None => {
                    let mut m = owned("node '");
                    push_text(&mut m, n.label.as_str());
                    push_text(&mut m, "' must reference a feature");
                    Some(m)
                },
                Some(f) => {
                    if !feature_known(features, f.as_str()) {
                        let mut m = owned("node '");
                        push_text(&mut m, n.label.as_str());
                        push_text(&mut m, "' references unknown feature '");
                        push_text(&mut m, f.as_str());
                        push_text(&mut m, "'");
                        return Some(m);
                    }
                    match validate_causal_operation(n.operation.as_str()) {
                        Ok(_) => None,
                        Err(e) => Some(e.message),
                    }
                },
            }
        },
    }
}

/// Checks the nodes in order and reports the first problem.
pub fn validate_causal_nodes(nodes: &Vec<CausalModelNodeRequest>, features: &Vec<String>) -> (r: Result<(), OcelError>)
    ensures
        match r {
            Ok(_) => first_problem(nodes@.len() as int, |i: int| node_problem(nodes@, features@, i)) is None
                && distinct_ids(nodes@),
            Err(e) => first_problem(nodes@.len() as int, |i: int| node_problem(nodes@, features@, i)) == Some(e.message@),
        },
{
    let ghost pr = |i: int| node_problem(nodes@, features@, i);
    let mut i: usize = 0;
    while i < nodes.len()
        invariant
            pr == |i: int| node_problem(nodes@, features@, i),
            i <= nodes@.len(),
            first_problem(i as int, pr) is None,
        decreases nodes.len() - i,
    {
        match node_check(nodes, features, i) {
            Some(m) => {
                proof { lemma_first_problem_stuck(nodes@.len() as int, i + 1, pr); }
                return Err(OcelError::new(m));
            },
            None => {},
        }
        i = i + 1;
    }
    proof {
        lemma_nodes_distinct(nodes@, features@, nodes@.len() as int);
    }
    Ok(())
}

/// Position of the node with id `id`.
pub open spec fn node_at(nodes: Seq<CausalModelNodeRequest>, id: Seq<char>) -> Option<int> {
    if exists|i: int| 0 <= i < nodes.len() && #[trigger] nodes[i].id@ == id {
        Some(choose|i: int| 0 <= i < nodes.len() && #[trigger] nodes[i].id@ == id)
    } else {
        None
    }
}

/// Edges run from observable to latent, latent to latent, or latent to
/// outcome nodes.
pub open spec fn edge_allowed(a: CausalNodeRole, b: CausalNodeRole) -> bool {
    (a == CausalNodeRole::Observable && b == CausalNodeRole::Latent)
        || (a == CausalNodeRole::Latent && b == CausalNodeRole::Latent)
        || (a == CausalNodeRole::Latent && b == CausalNodeRole::Outcome)
}

/// What is wrong with edge `i`, given the edges before it: a self-loop, a
/// repeated edge, an unknown end, an unknown role or a disallowed pair of
/// roles.
pub open spec fn edge_problem(nodes: Seq<CausalModelNodeRequest>, edges: Seq<CausalModelEdgeRequest>, i: int) -> Option<Seq<char>> {
    let e = edges[i];
    if e.source@ == e.target@ {
        Some("causal model edges cannot be self-loops"@)
    } else if exists|j: int| 0 <= j < i && #[trigger] edges[j].source@ == e.source@ && edges[j].target@ == e.target@ {
        Some("duplicate causal edge '"@ + e.source@ + " -> "@ + e.target@ + "'"@)
    } else {
        match node_at(nodes, e.source@) {
            None => Some("unknown causal edge source '"@ + e.source@ + "'"@),
            Some(a) => match node_at(nodes, e.target@) {
                None => Some("unknown causal edge target '"@ + e.target@ + "'"@),
                Some(b) => match role_of(nodes[a].role@) {
                    None => Some(role_error(nodes[a].role@)),
                    Some(ra) => match role_of(nodes[b].role@) {
                        None => Some(role_error(nodes[b].role@)),
                        Some(rb) => if edge_allowed(ra, rb) {
                            None
                        } else {
                            Some("invalid causal edge '"@ + nodes[a].label@ + " -> "@ + nodes[b].label@
                                + "': use observable -> latent, latent -> latent, or latent -> outcome"@)
                        },
                    },
                },
            },
        }
    }
}

/// Position of the node with the given id.
fn find_node(nodes: &Vec<CausalModelNodeRequest>, id: &str) -> (r: Option<usize>)
    requires
        distinct_ids(nodes@),
    ensures
        match r {
            Some(i) => node_at(nodes@, id@) == Some(i as int) && i < nodes@.len(),
            None => node_at(nodes@, id@) is None,
        },
{
    let mut i: usize = 0;
    while i < nodes.len()
        invariant
            distinct_ids(nodes@),
            i <= nodes@.len(),
            forall|q: int| 0 <= q < i ==> #[trigger] nodes@[q].id@ != id@,
        decreases nodes.len() - i,
    {
        if str_eq(nodes[i].id.as_str(), id) {
            proof {
                assert(nodes@[i as int].id@ == id@);
                let c = choose|c: int| 0 <= c < nodes@.len() && #[trigger] nodes@[c].id@ == id@;
                if c != i {
                    if c < i {
                        assert(nodes@[c].id@ != nodes@[i as int].id@);
                    } else {
                        assert(nodes@[i as int].id@ != nodes@[c].id@);
                    }
                }
            }
            return Some(i);
        }
        i = i + 1;
    }
    None
}

/// What is wrong with edge `i`, if anything.
fn edge_check(nodes: &Vec<CausalModelNodeRequest>, edges: &Vec<CausalModelEdgeRequest>, i: usize) -> (r: Option<String>)
    requires
        i < edges@.len(),
        distinct_ids(nodes@),
    ensures
        match r {
            Some(m) => edge_problem(nodes@, edges@, i as int) == Some(m@),
            None => edge_problem(nodes@, edges@, i as int) is None,
        },
{
    let e = &edges[i];
    proof {
        reveal_strlit("causal model edges cannot be self-loops");
        reveal_strlit("duplicate causal edge '");
        reveal_strlit(" -> ");
        reveal_strlit("'");
        reveal_strlit("unknown causal edge source '");
        reveal_strlit("unknown causal edge target '");
        reveal_strlit("invalid causal edge '");
        reveal_strlit("': use observable -> latent, latent -> latent, or latent -> outcome");
    }
    if str_eq(e.source.as_str(), e.target.as_str()) {
        return Some(owned("causal model edges cannot be self-loops"));
    }
    let mut j: usize = 0;
    while j < i
        invariant
            i < edges@.len(),
            j <= i,
            *e == edges@[i as int],
            e.source@ != e.target@,
            forall|k: int| 0 <= k < j ==> !(#[trigger] edges@[k].source@ == e.source@ && edges@[k].target@ == e.target@),
        decreases i - j,
    {
        if str_eq(edges[j].source.as_str(), e.source.as_str()) && str_eq(edges[j].target.as_str(), e.target.as_str()) {
            proof {
                assert(exists|q: int| 0 <= q < i && #[trigger] edges@[q].source@ == e.source@ && edges@[q].target@ == e.target@);
            }
            let mut m = owned("duplicate causal edge '");
            push_text(&mut m, e.source.as_str());
            push_text(&mut m, " -> ");
            push_text(&mut m, e.target.as_str());
            push_text(&mut m, "'");
            return Some(m);
        }
        j = j + 1;
    }
    let a = match find_node(nodes, e.source.as_str()) {
        Some(a) => a,
        None => {
            let mut m = owned("unknown causal edge source '");
            push_text(&mut m, e.source.as_str());
            push_text(&mut m, "'");
            return Some(m);
        },
    };
    let b = match find_node(nodes, e.target.as_str()) {
        Some(b) => b,
        None => {
            let mut m = owned("unknown causal edge target '");
            push_text(&mut m, e.target.as_str());
            push_text(&mut m, "'");
            return Some(m);
        },
    };
    let ra = match causal_role(nodes[a].role.as_str()) {
        Ok(r) => r,
        Err(err) => {
            return Some(err.message);
        },
    };
    let rb = match causal_role(nodes[b].role.as_str()) {
        Ok(r) => r,
        Err(err) => {
            return Some(err.message);
        },
    };
    let allowed = match (ra, rb) {
        (CausalNodeRole::Observable, CausalNodeRole::Latent) => true,
        (CausalNodeRole::Latent, CausalNodeRole::Latent) => true,
        (CausalNodeRole::Latent, CausalNodeRole::Outcome) => true,
        _ => false,
    };
    if allowed {
        None
    } else {
        let mut m = owned("invalid causal edge '");
        push_text(&mut m, nodes[a].label.as_str());
        push_text(&mut m, " -> ");
        push_text(&mut m, nodes[b].label.as_str());
        push_text(&mut m, "': use observable -> latent, latent -> latent, or latent -> outcome");
        Some(m)
    }
}

/// Checks the edges in order against validated nodes and reports the first
/// problem.
pub fn validate_causal_edges(edges: &Vec<CausalModelEdgeRequest>, nodes: &Vec<CausalModelNodeRequest>) -> (r: Result<(), OcelError>)
    requires
        distinct_ids(nodes@),
    ensures
        match r {
            Ok(_) => first_problem(edges@.len() as int, |i: int| edge_problem(nodes@, edges@, i)) is None,
            Err(e) => first_problem(edges@.len() as int, |i: int| edge_problem(nodes@, edges@, i)) == Some(e.message@),
        },
{
    let ghost pr = |i: int| edge_problem(nodes@, edges@, i);
    let mut i: usize = 0;
    while i < edges.len()
        invariant
            distinct_ids(nodes@),
            pr == |i: int| edge_problem(nodes@, edges@, i),
            i <= edges@.len(),
            first_problem(i as int, pr) is None,
        decreases edges.len() - i,
    {
        match edge_check(nodes, edges, i) {
            Some(m) => {
                proof { lemma_first_problem_stuck(edges@.len() as int, i + 1, pr); }
                return Err(OcelError::new(m));
            },
            None => {},
        }
        i = i + 1;
    }
    Ok(())
}

/// Positions of the ends of edge `k`.
pub open spec fn edge_ends(nodes: Seq<CausalModelNodeRequest>, edges: Seq<CausalModelEdgeRequest>, k: int) -> (int, int) {
    (node_at(nodes, edges[k].source@)->0, node_at(nodes, edges[k].target@)->0)
}

/// Every edge joins two nodes.
pub open spec fn edges_resolved(nodes: Seq<CausalModelNodeRequest>, edges: Seq<CausalModelEdgeRequest>) -> bool {
    forall|k: int| 0 <= k < edges.len() ==> #[trigger] node_at(nodes, edges[k].source@) is Some
        && node_at(nodes, edges[k].target@) is Some
}

/// `order` lists the node ids, each once, every edge's source before its
/// target.
pub open spec fn topological(nodes: Seq<CausalModelNodeRequest>, edges: Seq<CausalModelEdgeRequest>, order: Seq<String>) -> bool {
    exists|p: Seq<int>| #[trigger] is_perm(p, nodes.len()) && order.len() == nodes.len()
        && (forall|i: int| 0 <= i < order.len() ==> (#[trigger] order[i])@ == nodes[p[i]].id@)
        && (forall|i: int, j: int| 0 <= i < p.len() && 0 <= j < p.len() && #[trigger] linked(nodes, edges, p[i], p[j]) ==> i < j)
}

/// Some edge runs from the node at `a` to the node at `b`.
pub open spec fn linked(nodes: Seq<CausalModelNodeRequest>, edges: Seq<CausalModelEdgeRequest>, a: int, b: int) -> bool {
    exists|k: int| 0 <= k < edges.len() && #[trigger] edge_ends(nodes, edges, k) == (a, b)
}

/// Some nonempty set of nodes has, for each of its nodes, an edge into it
/// from the set: no order can put every edge's source first.
pub open spec fn has_cycle(nodes: Seq<CausalModelNodeRequest>, edges: Seq<CausalModelEdgeRequest>) -> bool {
    exists|s: Set<int>| #[trigger] cyclic_set(nodes, edges, s)
}

pub open spec fn cyclic_set(nodes: Seq<CausalModelNodeRequest>, edges: Seq<CausalModelEdgeRequest>, s: Set<int>) -> bool {
    &&& exists|v: int| s.contains(v)
    &&& forall|v: int| #[trigger] s.contains(v) ==> 0 <= v < nodes.len()
        && exists|k: int| 0 <= k < edges.len() && edge_ends(nodes, edges, k).1 == v && #[trigger] s.contains(edge_ends(nodes, edges, k).0)
}

/// Some of the first `h` entries of `q` is `v`.
pub open spec fn in_prefix(q: Seq<usize>, h: int, v: int) -> bool {
    exists|i: int| 0 <= i < h && #[trigger] q[i] as int == v
}

/// Some of the first `j` entries of `out` is `e`.
pub open spec fn handled(out: Seq<usize>, j: int, e: int) -> bool {
    exists|x: int| 0 <= x < j && #[trigger] out[x] as int == e
}

/// Every queued node's sources come before it, among the first `h + 1`.
pub open spec fn sources_first(q: Seq<usize>, h: int, src: Seq<usize>, tgt: Seq<usize>) -> bool {
    forall|e: int, x: int| 0 <= e < src.len() && 0 <= x < q.len() && #[trigger] q[x] == #[trigger] tgt[e]
        ==> exists|i: int| 0 <= i < x && i <= h && #[trigger] q[i] == src[e]
}

/// The entries of `q` are distinct.
pub open spec fn distinct_entries(q: Seq<usize>) -> bool {
    forall|a: int, b: int| 0 <= a < b < q.len() ==> #[trigger] q[a] != #[trigger] q[b]
}

/// Edge `e` still holds back node `x`: it enters `x`, its source is not
/// among the first `h` queued nodes, and it is not one of the first `j`
/// edges out of `u` already taken.
pub open spec fn pending(srcs: Seq<usize>, tgts: Seq<usize>, q: Seq<usize>, h: int, u: int, outu: Seq<usize>, j: int, x: int, e: int) -> bool {
    &&& tgts[e] as int == x
    &&& !in_prefix(q, h, srcs[e] as int)
    &&& !(srcs[e] as int == u && handled(outu, j, e))
}

/// Number of the first `k` edges that still hold back node `x`.
pub open spec fn pending_count(srcs: Seq<usize>, tgts: Seq<usize>, q: Seq<usize>, h: int, u: int, outu: Seq<usize>, j: int, x: int, k: int) -> nat
    decreases k,
{
    if k <= 0 {
        0
    } else {
        pending_count(srcs, tgts, q, h, u, outu, j, x, k - 1) + if pending(srcs, tgts, q, h, u, outu, j, x, k - 1) { 1nat } else { 0nat }
    }
}

/// The edges among the first `k` that leave node `x`, in order.
pub open spec fn out_edges(srcs: Seq<usize>, x: int, k: int) -> Seq<usize>
    decreases k,
{
    if k <= 0 {
        Seq::empty()
    } else if srcs[k - 1] as int == x {
        out_edges(srcs, x, k - 1).push((k - 1) as usize)
    } else {
        out_edges(srcs, x, k - 1)
    }
}

proof fn lemma_out_edges(srcs: Seq<usize>, x: int, k: int)
    requires
        0 <= k <= srcs.len(),
        k <= usize::MAX,
    ensures
        forall|a: int, b: int| 0 <= a < b < out_edges(srcs, x, k).len() ==> #[trigger] out_edges(srcs, x, k)[a] < #[trigger] out_edges(srcs, x, k)[b],
        forall|a: int| 0 <= a < out_edges(srcs, x, k).len() ==> #[trigger] out_edges(srcs, x, k)[a] < k && srcs[out_edges(srcs, x, k)[a] as int] as int == x,
        forall|e: int| 0 <= e < k && srcs[e] as int == x ==> handled(out_edges(srcs, x, k), out_edges(srcs, x, k).len() as int, e),
    decreases k,
{
    if k > 0 {
        lemma_out_edges(srcs, x, k - 1);
        let r = out_edges(srcs, x, k - 1);
        let o = out_edges(srcs, x, k);
        assert forall|e: int| 0 <= e < k && srcs[e] as int == x implies handled(o, o.len() as int, e) by {
            if e < k - 1 {
                let y = choose|y: int| 0 <= y < r.len() && #[trigger] r[y] as int == e;
                assert(o[y] == r[y]);
            } else {
                assert(o[o.len() - 1] as int == e);
            }
        }
    }
}

proof fn lemma_pending_same(
    srcs: Seq<usize>, tgts: Seq<usize>,
    q1: Seq<usize>, h1: int, u1: int, o1: Seq<usize>, j1: int,
    q2: Seq<usize>, h2: int, u2: int, o2: Seq<usize>, j2: int,
    x: int, k: int,
)
    requires
        forall|e: int| 0 <= e < k ==> #[trigger] pending(srcs, tgts, q1, h1, u1, o1, j1, x, e) == pending(srcs, tgts, q2, h2, u2, o2, j2, x, e),
    ensures
        pending_count(srcs, tgts, q1, h1, u1, o1, j1, x, k) == pending_count(srcs, tgts, q2, h2, u2, o2, j2, x, k),
    decreases k,
{
    if k > 0 {
        lemma_pending_same(srcs, tgts, q1, h1, u1, o1, j1, q2, h2, u2, o2, j2, x, k - 1);
    }
}

proof fn lemma_pending_drop(
    srcs: Seq<usize>, tgts: Seq<usize>, q: Seq<usize>, h: int, u: int, outu: Seq<usize>, j: int, x: int, k: int, d: int,
)
    requires
        0 <= d < k,
        pending(srcs, tgts, q, h, u, outu, j, x, d),
        !pending(srcs, tgts, q, h, u, outu, j + 1, x, d),
        forall|e: int| 0 <= e < k && e != d ==> #[trigger] pending(srcs, tgts, q, h, u, outu, j, x, e) == pending(srcs, tgts, q, h, u, outu, j + 1, x, e),
    ensures
        pending_count(srcs, tgts, q, h, u, outu, j + 1, x, k) + 1 == pending_count(srcs, tgts, q, h, u, outu, j, x, k),
    decreases k,
{
    if k - 1 > d {
        lemma_pending_drop(srcs, tgts, q, h, u, outu, j, x, k - 1, d);
    } else {
        lemma_pending_same(srcs, tgts, q, h, u, outu, j, q, h, u, outu, j + 1, x, k - 1);
    }
}

proof fn lemma_pending_zero(srcs: Seq<usize>, tgts: Seq<usize>, q: Seq<usize>, h: int, u: int, outu: Seq<usize>, j: int, x: int, k: int)
    ensures
        pending_count(srcs, tgts, q, h, u, outu, j, x, k) == 0 <==> forall|e: int| 0 <= e < k ==> !#[trigger] pending(srcs, tgts, q, h, u, outu, j, x, e),
    decreases k,
{
    if k > 0 {
        lemma_pending_zero(srcs, tgts, q, h, u, outu, j, x, k - 1);
    }
}

proof fn lemma_pending_bound(srcs: Seq<usize>, tgts: Seq<usize>, q: Seq<usize>, h: int, u: int, outu: Seq<usize>, j: int, x: int, k: int)
    requires
        k >= 0,
    ensures
        pending_count(srcs, tgts, q, h, u, outu, j, x, k) <= k,
    decreases k,
{
    if k > 0 {
        lemma_pending_bound(srcs, tgts, q, h, u, outu, j, x, k - 1);
    }
}

/// Distinct entries below `n` are at most `n`.
proof fn lemma_distinct_bounded(q: Seq<usize>, n: int)
    requires
        n >= 0,
        forall|x: int| 0 <= x < q.len() ==> #[trigger] q[x] < n,
        forall|a: int, b: int| 0 <= a < b < q.len() ==> #[trigger] q[a] != #[trigger] q[b],
    ensures
        q.len() <= n,
{
    let p = q.map_values(|x: usize| x as int);
    let s = vstd::set_lib::set_int_range(0, n);
    vstd::set_lib::lemma_int_range(0, n);
    assert forall|i: int| 0 <= i < p.len() implies s.contains(#[trigger] p[i]) by {
        assert(q[i] < n);
    }
    assert forall|i: int, j: int| 0 <= i < j < p.len() implies #[trigger] p[i] != #[trigger] p[j] by {
        assert(q[i] != q[j]);
    }
    crate::sorting::lemma_perm_into(p, s, n as nat);
}

/// The state of the ordering: `indeg` counts for each node the edges that
/// still hold it back, a node is queued exactly when that count is zero,
/// queued nodes are distinct, and each queued node's sources come before it
/// among the first `f + 1` queued nodes.
pub open spec fn kahn_ok(
    srcs: Seq<usize>, tgts: Seq<usize>, n: int, indeg: Seq<usize>, q: Seq<usize>,
    h: int, u: int, outu: Seq<usize>, j: int, f: int,
) -> bool {
    &&& srcs.len() == tgts.len()
    &&& forall|e: int| 0 <= e < srcs.len() ==> #[trigger] srcs[e] < n && tgts[e] < n
    &&& indeg.len() == n
    &&& 0 <= h <= q.len() <= n
    &&& forall|x: int| 0 <= x < q.len() ==> #[trigger] q[x] < n
    &&& distinct_entries(q)
    &&& forall|x: int| 0 <= x < n ==> #[trigger] indeg[x] == pending_count(srcs, tgts, q, h, u, outu, j, x, srcs.len() as int)
    &&& forall|x: int| 0 <= x < n ==> #[trigger] q.contains(x as usize) == (indeg[x] == 0)
    &&& sources_first(q, f, srcs, tgts)
}

/// One edge into `t` is taken away: its in-degree drops by one, and `t`
/// joins the back of the queue when it reaches zero.
pub open spec fn release_edge(indeg: Seq<usize>, queue: Seq<usize>, t: int) -> (Seq<usize>, Seq<usize>) {
    let d = indeg[t];
    (indeg.update(t, (d - 1) as usize), if d == 1 { queue.push(t as usize) } else { queue })
}

/// The edges `outu[j..]` are taken away in order.
pub open spec fn release_from(indeg: Seq<usize>, queue: Seq<usize>, outu: Seq<usize>, tgts: Seq<usize>, j: int) -> (Seq<usize>, Seq<usize>)
    decreases outu.len() - j,
{
    if j < 0 || j >= outu.len() {
        (indeg, queue)
    } else {
        let r = release_edge(indeg, queue, tgts[outu[j] as int] as int);
        release_from(r.0, r.1, outu, tgts, j + 1)
    }
}

/// Kahn's algorithm from queue position `h`: the node there releases its
/// outgoing edges, then the next queued node does, until the queue is
/// used up. The result is the final queue.
pub open spec fn kahn_from(indeg: Seq<usize>, queue: Seq<usize>, h: int, outs: Seq<Seq<usize>>, tgts: Seq<usize>, n: int) -> Seq<usize>
    decreases n - h,
{
    if h < 0 || h >= queue.len() || h >= n {
        queue
    } else {
        let r = release_from(indeg, queue, outs[queue[h] as int], tgts, 0);
        kahn_from(r.0, r.1, h + 1, outs, tgts, n)
    }
}

/// The nodes below `v` with no incoming edge, in increasing order.
pub open spec fn zeros_upto(indeg: Seq<usize>, v: int) -> Seq<usize>
    decreases v,
{
    if v <= 0 {
        Seq::empty()
    } else if indeg[v - 1] == 0 {
        zeros_upto(indeg, v - 1).push((v - 1) as usize)
    } else {
        zeros_upto(indeg, v - 1)
    }
}

pub open spec fn edge_sources(nodes: Seq<CausalModelNodeRequest>, edges: Seq<CausalModelEdgeRequest>) -> Seq<usize> {
    Seq::new(edges.len(), |e: int| edge_ends(nodes, edges, e).0 as usize)
}

pub open spec fn edge_targets(nodes: Seq<CausalModelNodeRequest>, edges: Seq<CausalModelEdgeRequest>) -> Seq<usize> {
    Seq::new(edges.len(), |e: int| edge_ends(nodes, edges, e).1 as usize)
}

/// The queue Kahn's algorithm ends with: it starts from the nodes with no
/// incoming edge in node order, takes nodes first in, first out, and
/// releases each node's outgoing edges in edge order.
pub open spec fn kahn_order(nodes: Seq<CausalModelNodeRequest>, edges: Seq<CausalModelEdgeRequest>) -> Seq<usize> {
    let srcs = edge_sources(nodes, edges);
    let tgts = edge_targets(nodes, edges);
    let n = nodes.len() as int;
    let m = edges.len() as int;
    let indeg = Seq::new(nodes.len(), |x: int| pending_count(srcs, tgts, Seq::empty(), 0, -1, Seq::empty(), 0, x, m) as usize);
    let outs = Seq::new(nodes.len(), |x: int| out_edges(srcs, x, m));
    kahn_from(indeg, zeros_upto(indeg, n), 0, outs, tgts, n)
}

/// The node being released is queued at `h`, and `outu` lists its
/// outgoing edges in increasing order.
pub open spec fn releasing(srcs: Seq<usize>, q: Seq<usize>, h: int, u: int, outu: Seq<usize>) -> bool {
    &&& 0 <= h < q.len()
    &&& q[h] as int == u
    &&& !in_prefix(q, h, u)
    &&& outu == out_edges(srcs, u, srcs.len() as int)
    &&& forall|a: int, b: int| 0 <= a < b < outu.len() ==> #[trigger] outu[a] < #[trigger] outu[b]
    &&& forall|a: int| 0 <= a < outu.len() ==> #[trigger] outu[a] < srcs.len() && srcs[outu[a] as int] as int == u
}

/// Takes one edge out of the released node: its target is held back by one
/// edge less and is queued when nothing holds it back any more.
fn release_one(
    indeg: &mut Vec<usize>,
    queue: &mut Vec<usize>,
    e: usize,
    t: usize,
    Ghost(srcs): Ghost<Seq<usize>>,
    Ghost(tgts): Ghost<Seq<usize>>,
    Ghost(n): Ghost<int>,
    Ghost(h): Ghost<int>,
    Ghost(u): Ghost<int>,
    Ghost(outu): Ghost<Seq<usize>>,
    Ghost(j): Ghost<int>,
)
    requires
        kahn_ok(srcs, tgts, n, old(indeg)@, old(queue)@, h, u, outu, j, h),
        releasing(srcs, old(queue)@, h, u, outu),
        0 <= j < outu.len(),
        outu[j] == e,
        e < tgts.len(),
        tgts[e as int] == t,
    ensures
        kahn_ok(srcs, tgts, n, final(indeg)@, final(queue)@, h, u, outu, j + 1, h),
        releasing(srcs, final(queue)@, h, u, outu),
        final(queue)@.take(h + 1) == old(queue)@.take(h + 1),
        (final(indeg)@, final(queue)@) == release_edge(old(indeg)@, old(queue)@, t as int),
{
    let ghost qb = queue@;
    let ghost m = srcs.len() as int;
    proof {
        assert(!handled(outu, j, e as int)) by {
            if handled(outu, j, e as int) {
                let x = choose|x: int| 0 <= x < j && #[trigger] outu[x] as int == e as int;
                assert(outu[x] < outu[j]);
            }
        }
        assert(handled(outu, j + 1, e as int));
        assert forall|e2: int| 0 <= e2 < m && e2 != e implies #[trigger] pending(srcs, tgts, qb, h, u, outu, j, t as int, e2)
            == pending(srcs, tgts, qb, h, u, outu, j + 1, t as int, e2) by {
            if handled(outu, j + 1, e2) {
                let x = choose|x: int| 0 <= x < j + 1 && #[trigger] outu[x] as int == e2;
                assert(x != j);
            }
        }
        lemma_pending_drop(srcs, tgts, qb, h, u, outu, j, t as int, m, e as int);
        assert(indeg@[t as int] >= 1);
    }
    let d = indeg[t];
    proof {
        assert(indeg.len() as int == n);
        assert(qb.contains((t as int) as usize) == (old(indeg)@[t as int] == 0));
    }
    indeg.set(t, d - 1);
    if d == 1 {
        proof {
            assert(qb.contains((t as int) as usize) == (old(indeg)@[t as int] == 0));
            assert(!qb.contains(t));
        }
        queue.push(t);
    }
    proof {
        assert forall|v2: int| #[trigger] in_prefix(queue@, h, v2) == in_prefix(qb, h, v2) by {
            if in_prefix(queue@, h, v2) {
                let i = choose|i: int| 0 <= i < h && #[trigger] queue@[i] as int == v2;
                assert(qb[i] == queue@[i]);
            }
            if in_prefix(qb, h, v2) {
                let i = choose|i: int| 0 <= i < h && #[trigger] qb[i] as int == v2;
                assert(qb[i] == queue@[i]);
            }
        }
        assert forall|x: int| 0 <= x < n implies #[trigger] indeg@[x] == pending_count(srcs, tgts, queue@, h, u, outu, j + 1, x, m) by {
            if x != t as int {
                assert forall|e2: int| 0 <= e2 < m implies #[trigger] pending(srcs, tgts, qb, h, u, outu, j, x, e2)
                    == pending(srcs, tgts, queue@, h, u, outu, j + 1, x, e2) by {
                    if handled(outu, j + 1, e2) && !handled(outu, j, e2) {
                        let y = choose|y: int| 0 <= y < j + 1 && #[trigger] outu[y] as int == e2;
                        assert(y == j);
                    }
                }
                lemma_pending_same(srcs, tgts, qb, h, u, outu, j, queue@, h, u, outu, j + 1, x, m);
            } else {
                assert forall|e2: int| 0 <= e2 < m implies #[trigger] pending(srcs, tgts, qb, h, u, outu, j + 1, x, e2)
                    == pending(srcs, tgts, queue@, h, u, outu, j + 1, x, e2) by {}
                lemma_pending_same(srcs, tgts, qb, h, u, outu, j + 1, queue@, h, u, outu, j + 1, x, m);
            }
        }
        assert forall|x: int| 0 <= x < n implies #[trigger] queue@.contains(x as usize) == (indeg@[x] == 0) by {
            if x == t as int {
                if d == 1 {
                    assert(queue@[queue@.len() - 1] == t);
                } else {
                    assert(queue@ == qb);
                }
            } else {
                assert(indeg@[x] == old(indeg)@[x]);
                assert(qb.contains(x as usize) == (old(indeg)@[x] == 0));
                if queue@.contains(x as usize) {
                    let i = choose|i: int| 0 <= i < queue@.len() && queue@[i] == x as usize;
                    if i < qb.len() {
                        assert(qb[i] == x as usize);
                        assert(qb.contains(x as usize));
                    } else {
                        assert(queue@[i] == t);
                    }
                }
                if qb.contains(x as usize) {
                    let i = choose|i: int| 0 <= i < qb.len() && qb[i] == x as usize;
                    assert(queue@[i] == x as usize);
                }
            }
        }
        assert(distinct_entries(queue@)) by {
            assert forall|a: int, b: int| 0 <= a < b < queue@.len() implies #[trigger] queue@[a] != #[trigger] queue@[b] by {
                if b == qb.len() {
                    assert(qb.contains(queue@[a]));
                } else {
                    assert(qb[a] != qb[b]);
                }
            }
        }
        lemma_distinct_bounded(queue@, n);
        assert(queue@.take(h + 1) =~= qb.take(h + 1));
        assert(sources_first(queue@, h, srcs, tgts)) by {
            assert forall|e2: int, x: int| 0 <= e2 < srcs.len() && 0 <= x < queue@.len() && #[trigger] queue@[x] == #[trigger] tgts[e2]
                implies exists|i: int| 0 <= i < x && i <= h && #[trigger] queue@[i] == srcs[e2] by {
                if x < qb.len() {
                    assert(qb[x] == tgts[e2]);
                    let i = choose|i: int| 0 <= i < x && i <= h && #[trigger] qb[i] == srcs[e2];
                    assert(queue@[i] == srcs[e2]);
                } else {
                    assert(tgts[e2] == t);
                    assert(d == 1);
                    assert(indeg@[t as int] == 0);
                    assert(indeg@[t as int] == pending_count(srcs, tgts, queue@, h, u, outu, j + 1, t as int, m));
                    lemma_pending_zero(srcs, tgts, queue@, h, u, outu, j + 1, t as int, m);
                    assert(!pending(srcs, tgts, queue@, h, u, outu, j + 1, t as int, e2));
                    if in_prefix(queue@, h, srcs[e2] as int) {
                        let i = choose|i: int| 0 <= i < h && #[trigger] queue@[i] as int == srcs[e2] as int;
                        assert(queue@[i] == srcs[e2]);
                    } else {
                        assert(queue@[h] == srcs[e2]);
                    }
                }
            }
        }
        assert(!in_prefix(queue@, h, u));
    }
}

/// Takes every edge out of the node queued at `h`, then counts it as placed.
fn release_node(
    indeg: &mut Vec<usize>,
    queue: &mut Vec<usize>,
    out: &Vec<Vec<usize>>,
    tgt: &Vec<usize>,
    h: usize,
    Ghost(srcs): Ghost<Seq<usize>>,
    Ghost(n): Ghost<int>,
)
    requires
        kahn_ok(srcs, tgt@, n, old(indeg)@, old(queue)@, h as int, -1, Seq::empty(), 0, h - 1),
        h < old(queue)@.len(),
        out@.len() == n,
        forall|x: int| 0 <= x < n ==> (#[trigger] out@[x])@ == out_edges(srcs, x, srcs.len() as int),
    ensures
        kahn_ok(srcs, tgt@, n, final(indeg)@, final(queue)@, h + 1, -1, Seq::empty(), 0, h as int),
        (final(indeg)@, final(queue)@) == release_from(old(indeg)@, old(queue)@, out@[old(queue)@[h as int] as int]@, tgt@, 0),
{
    let ghost i0 = indeg@;
    let ghost q0 = queue@;
    let u = queue[h];
    let ghost outu = out@[u as int]@;
    let ghost m = srcs.len() as int;
    let ghost none = Seq::<usize>::empty();
    proof {
        assert(tgt.len() == tgt@.len());
        lemma_out_edges(srcs, u as int, m);
        assert forall|x: int| 0 <= x < n implies #[trigger] indeg@[x] == pending_count(srcs, tgt@, queue@, h as int, u as int, outu, 0, x, m) by {
            assert forall|e: int| 0 <= e < m implies #[trigger] pending(srcs, tgt@, queue@, h as int, -1, none, 0, x, e)
                == pending(srcs, tgt@, queue@, h as int, u as int, outu, 0, x, e) by {}
            lemma_pending_same(srcs, tgt@, queue@, h as int, -1, none, 0, queue@, h as int, u as int, outu, 0, x, m);
        }
        assert(!in_prefix(queue@, h as int, u as int)) by {
            if in_prefix(queue@, h as int, u as int) {
                let i = choose|i: int| 0 <= i < h && #[trigger] queue@[i] as int == u as int;
                assert(queue@[i] != queue@[h as int]);
            }
        }
        assert(sources_first(queue@, h as int, srcs, tgt@)) by {
            assert forall|e2: int, x: int| 0 <= e2 < srcs.len() && 0 <= x < queue@.len() && #[trigger] queue@[x] == #[trigger] tgt@[e2]
                implies exists|i: int| 0 <= i < x && i <= h && #[trigger] queue@[i] == srcs[e2] by {
                let i = choose|i: int| 0 <= i < x && i <= h - 1 && #[trigger] queue@[i] == srcs[e2];
            }
        }
    }
    let list = &out[u];
    let mut j: usize = 0;
    while j < list.len()
        invariant
            u < n,
            *list == out@[u as int],
            outu == list@,
            m == srcs.len(),
            kahn_ok(srcs, tgt@, n, indeg@, queue@, h as int, u as int, outu, j as int, h as int),
            releasing(srcs, queue@, h as int, u as int, outu),
            j <= outu.len(),
            tgt@.len() == m,
            release_from(i0, q0, outu, tgt@, 0) == release_from(indeg@, queue@, outu, tgt@, j as int),
        decreases list.len() - j,
    {
        let e = list[j];
        let t = tgt[e];
        release_one(indeg, queue, e, t, Ghost(srcs), Ghost(tgt@), Ghost(n), Ghost(h as int), Ghost(u as int), Ghost(outu), Ghost(j as int));
        j = j + 1;
    }
    proof {
        assert forall|x: int| 0 <= x < n implies #[trigger] indeg@[x] == pending_count(srcs, tgt@, queue@, h + 1, -1, none, 0, x, m) by {
            assert forall|e2: int| 0 <= e2 < m implies #[trigger] pending(srcs, tgt@, queue@, h as int, u as int, outu, outu.len() as int, x, e2)
                == pending(srcs, tgt@, queue@, h + 1, -1, none, 0, x, e2) by {
                let s2 = srcs[e2] as int;
                if in_prefix(queue@, h + 1, s2) && !in_prefix(queue@, h as int, s2) {
                    let i = choose|i: int| 0 <= i < h + 1 && #[trigger] queue@[i] as int == s2;
                    assert(i == h);
                    assert(handled(outu, outu.len() as int, e2));
                }
                if in_prefix(queue@, h as int, s2) {
                    let i = choose|i: int| 0 <= i < h && #[trigger] queue@[i] as int == s2;
                    assert(in_prefix(queue@, h + 1, s2));
                }
                if s2 == u as int && handled(outu, outu.len() as int, e2) {
                    assert(queue@[h as int] as int == s2);
                    assert(in_prefix(queue@, h + 1, s2));
                }
            }
            lemma_pending_same(srcs, tgt@, queue@, h as int, u as int, outu, outu.len() as int, queue@, h + 1, -1, none, 0, x, m);
        }
    }
}

/// The node positions of the ends of each edge.
fn resolve_edges(nodes: &Vec<CausalModelNodeRequest>, edges: &Vec<CausalModelEdgeRequest>) -> (r: (Vec<usize>, Vec<usize>))
    requires
        distinct_ids(nodes@),
        edges_resolved(nodes@, edges@),
    ensures
        r.0@.len() == edges@.len(),
        r.1@.len() == edges@.len(),
        forall|e: int| 0 <= e < edges@.len() ==> (#[trigger] r.0@[e] as int, r.1@[e] as int) == edge_ends(nodes@, edges@, e)
            && r.0@[e] < nodes@.len() && r.1@[e] < nodes@.len(),
{
    let mut src: Vec<usize> = Vec::new();
    let mut tgt: Vec<usize> = Vec::new();
    let mut k: usize = 0;
    while k < edges.len()
        invariant
            distinct_ids(nodes@),
            edges_resolved(nodes@, edges@),
            k <= edges@.len(),
            src@.len() == k,
            tgt@.len() == k,
            forall|e: int| 0 <= e < k ==> (#[trigger] src@[e] as int, tgt@[e] as int) == edge_ends(nodes@, edges@, e)
                && src@[e] < nodes@.len() && tgt@[e] < nodes@.len(),
        decreases edges.len() - k,
    {
        assert(node_at(nodes@, edges@[k as int].source@) is Some);
        let a = match find_node(nodes, edges[k].source.as_str()) {
            Some(a) => a,
            None => 0,
        };
        let b = match find_node(nodes, edges[k].target.as_str()) {
            Some(b) => b,
            None => 0,
        };
        src.push(a);
        tgt.push(b);
        k = k + 1;
    }
    (src, tgt)
}

/// For each node, how many edges enter it and which edges leave it.
fn edge_tables(src: &Vec<usize>, tgt: &Vec<usize>, n: usize) -> (r: (Vec<usize>, Vec<Vec<usize>>))
    requires
        src@.len() == tgt@.len(),
        forall|e: int| 0 <= e < src@.len() ==> #[trigger] src@[e] < n && tgt@[e] < n,
    ensures
        r.0@.len() == n,
        r.1@.len() == n,
        forall|x: int| 0 <= x < n ==> #[trigger] r.0@[x] == pending_count(src@, tgt@, Seq::empty(), 0, -1, Seq::empty(), 0, x, src@.len() as int),
        forall|x: int| 0 <= x < n ==> (#[trigger] r.1@[x])@ == out_edges(src@, x, src@.len() as int),
{
    let ghost none = Seq::<usize>::empty();
    let m = src.len();
    let mut indeg: Vec<usize> = Vec::new();
    let mut out: Vec<Vec<usize>> = Vec::new();
    let mut v: usize = 0;
    while v < n
        invariant
            v <= n,
            indeg@.len() == v,
            out@.len() == v,
            forall|x: int| 0 <= x < v ==> #[trigger] indeg@[x] == 0,
            forall|x: int| 0 <= x < v ==> (#[trigger] out@[x])@.len() == 0,
        decreases n - v,
    {
        indeg.push(0);
        out.push(Vec::new());
        v = v + 1;
    }
    proof {
        assert forall|x: int| 0 <= x < n implies (#[trigger] out@[x])@ == out_edges(src@, x, 0) by {
            assert(out@[x]@ =~= out_edges(src@, x, 0));
        }
    }
    let mut k: usize = 0;
    while k < m
        invariant
            m == src@.len(),
            src@.len() == tgt@.len(),
            none == Seq::<usize>::empty(),
            forall|e: int| 0 <= e < m ==> #[trigger] src@[e] < n && tgt@[e] < n,
            k <= m,
            indeg@.len() == n,
            out@.len() == n,
            forall|x: int| 0 <= x < n ==> #[trigger] indeg@[x] == pending_count(src@, tgt@, none, 0, -1, none, 0, x, k as int),
            forall|x: int| 0 <= x < n ==> (#[trigger] out@[x])@ == out_edges(src@, x, k as int),
            forall|x: int| 0 <= x < n ==> #[trigger] indeg@[x] <= k,
        decreases m - k,
    {
        let a = src[k];
        let b = tgt[k];
        let d = indeg[b];
        indeg.set(b, d + 1);
        let mut list: Vec<usize> = Vec::new();
        std::mem::swap(&mut list, &mut out[a]);
        list.push(k);
        std::mem::swap(&mut list, &mut out[a]);
        proof {
            assert(!in_prefix(none, 0, src@[k as int] as int));
            assert forall|x: int| 0 <= x < n implies #[trigger] indeg@[x] == pending_count(src@, tgt@, none, 0, -1, none, 0, x, k + 1) by {
                if x != b as int {
                    assert(!pending(src@, tgt@, none, 0, -1, none, 0, x, k as int));
                } else {
                    assert(pending(src@, tgt@, none, 0, -1, none, 0, x, k as int));
                }
            }
        }
        k = k + 1;
    }
    (indeg, out)
}

/// The nodes that no edge holds back, in order.
fn initial_queue(indeg: &Vec<usize>) -> (q: Vec<usize>)
    ensures
        forall|x: int| 0 <= x < q@.len() ==> #[trigger] q@[x] < indeg@.len() && indeg@[q@[x] as int] == 0,
        distinct_entries(q@),
        forall|x: int| 0 <= x < indeg@.len() ==> #[trigger] q@.contains(x as usize) == (indeg@[x] == 0),
        q@ == zeros_upto(indeg@, indeg@.len() as int),
{
    let mut queue: Vec<usize> = Vec::new();
    let mut v: usize = 0;
    while v < indeg.len()
        invariant
            v <= indeg@.len(),
            forall|x: int| 0 <= x < queue@.len() ==> #[trigger] queue@[x] < v && indeg@[queue@[x] as int] == 0,
            forall|a: int, b: int| 0 <= a < b < queue@.len() ==> #[trigger] queue@[a] < #[trigger] queue@[b],
            forall|x: int| 0 <= x < v && indeg@[x] == 0 ==> #[trigger] queue@.contains(x as usize),
            queue@ == zeros_upto(indeg@, v as int),
        decreases indeg.len() - v,
    {
        let ghost qprev = queue@;
        if indeg[v] == 0 {
            queue.push(v);
            proof {
                assert(queue@[queue@.len() - 1] == v);
                assert(queue@.contains(v));
            }
        }
        proof {
            assert forall|x: int| 0 <= x < v + 1 && indeg@[x] == 0 implies #[trigger] queue@.contains(x as usize) by {
                if x < v {
                    assert(qprev.contains(x as usize));
                    let i = choose|i: int| 0 <= i < qprev.len() && qprev[i] == x as usize;
                    assert(queue@[i] == x as usize);
                }
            }
        }
        v = v + 1;
    }
    proof {
        assert forall|a: int, b: int| 0 <= a < b < queue@.len() implies #[trigger] queue@[a] != #[trigger] queue@[b] by {
            assert(queue@[a] < queue@[b]);
        }
        assert forall|x: int| 0 <= x < indeg@.len() implies #[trigger] queue@.contains(x as usize) == (indeg@[x] == 0) by {
            if queue@.contains(x as usize) {
                let i = choose|i: int| 0 <= i < queue@.len() && queue@[i] == x as usize;
            }
        }
    }
    queue
}

/// When the queue runs dry before every node is queued, the nodes left
/// out form a cyclic set.
proof fn lemma_stuck(
    nodes: Seq<CausalModelNodeRequest>,
    edges: Seq<CausalModelEdgeRequest>,
    srcs: Seq<usize>,
    tgts: Seq<usize>,
    indeg: Seq<usize>,
    q: Seq<usize>,
    n: int,
)
    requires
        n == nodes.len(),
        srcs.len() == edges.len(),
        tgts.len() == edges.len(),
        forall|e: int| 0 <= e < edges.len() ==> (#[trigger] srcs[e] as int, tgts[e] as int) == edge_ends(nodes, edges, e),
        kahn_ok(srcs, tgts, n, indeg, q, q.len() as int, -1, Seq::empty(), 0, q.len() - 1),
        q.len() < n,
        n <= usize::MAX,
    ensures
        has_cycle(nodes, edges),
{
    let none = Seq::<usize>::empty();
    let m = srcs.len() as int;
    let h = q.len() as int;
    let s = Set::new(|v: int| 0 <= v < n && !q.contains(v as usize));
    assert(exists|v: int| s.contains(v)) by {
        if !(exists|v: int| s.contains(v)) {
            let pos = Seq::new(n as nat, |v: int| (choose|i: int| 0 <= i < q.len() && q[i] == v as usize) as usize);
            assert forall|v: int| 0 <= v < pos.len() implies #[trigger] pos[v] < q.len() && q[pos[v] as int] == v as usize by {
                assert(!s.contains(v));
                assert(q.contains(v as usize));
            }
            assert forall|a: int, b: int| 0 <= a < b < pos.len() implies #[trigger] pos[a] != #[trigger] pos[b] by {
                assert(q[pos[a] as int] == a as usize);
                assert(q[pos[b] as int] == b as usize);
            }
            lemma_distinct_bounded(pos, q.len() as int);
        }
    }
    assert forall|v: int| #[trigger] s.contains(v) implies 0 <= v < nodes.len()
        && exists|k: int| 0 <= k < edges.len() && edge_ends(nodes, edges, k).1 == v && #[trigger] s.contains(edge_ends(nodes, edges, k).0) by {
        assert(indeg[v] != 0);
        lemma_pending_zero(srcs, tgts, q, h, -1, none, 0, v, m);
        let e = choose|e: int| 0 <= e < m && #[trigger] pending(srcs, tgts, q, h, -1, none, 0, v, e);
        assert((srcs[e] as int, tgts[e] as int) == edge_ends(nodes, edges, e));
        assert(!q.contains(srcs[e])) by {
            if q.contains(srcs[e]) {
                let i = choose|i: int| 0 <= i < q.len() && q[i] == srcs[e];
                assert(q[i] as int == srcs[e] as int);
            }
        }
        assert(s.contains(srcs[e] as int));
        assert(edge_ends(nodes, edges, e) == (srcs[e] as int, v));
        assert(0 <= e < edges.len() && edge_ends(nodes, edges, e).1 == v && s.contains(edge_ends(nodes, edges, e).0));
    }
    assert(cyclic_set(nodes, edges, s));
}

/// When every node is queued, the queue is a topological order.
proof fn lemma_ordered(
    nodes: Seq<CausalModelNodeRequest>,
    edges: Seq<CausalModelEdgeRequest>,
    srcs: Seq<usize>,
    tgts: Seq<usize>,
    indeg: Seq<usize>,
    q: Seq<usize>,
    order: Seq<String>,
    n: int,
)
    requires
        n == nodes.len(),
        srcs.len() == edges.len(),
        tgts.len() == edges.len(),
        forall|e: int| 0 <= e < edges.len() ==> (#[trigger] srcs[e] as int, tgts[e] as int) == edge_ends(nodes, edges, e),
        kahn_ok(srcs, tgts, n, indeg, q, q.len() as int, -1, Seq::empty(), 0, q.len() - 1),
        q.len() >= n,
        order.len() == q.len(),
        forall|x: int| 0 <= x < order.len() ==> (#[trigger] order[x])@ == nodes[q[x] as int].id@,
    ensures
        topological(nodes, edges, order),
{
    let p = q.map_values(|x: usize| x as int);
    assert(is_perm(p, nodes.len())) by {
        assert forall|a: int, b: int| 0 <= a < b < p.len() implies #[trigger] p[a] != #[trigger] p[b] by {
            assert(q[a] != q[b]);
        }
    }
    assert forall|a: int, b: int| 0 <= a < p.len() && 0 <= b < p.len() && #[trigger] linked(nodes, edges, p[a], p[b]) implies a < b by {
        let k = choose|k: int| 0 <= k < edges.len() && #[trigger] edge_ends(nodes, edges, k) == (p[a], p[b]);
        assert((srcs[k] as int, tgts[k] as int) == edge_ends(nodes, edges, k));
        assert(q[b] == tgts[k]);
        let i2 = choose|i2: int| 0 <= i2 < b && i2 <= q.len() - 1 && #[trigger] q[i2] == srcs[k];
        if i2 != a {
            assert(q[i2] != q[a]);
        }
    }
    assert forall|x: int| 0 <= x < order.len() implies (#[trigger] order[x])@ == nodes[p[x]].id@ by {}
}

/// Orders the nodes so that every edge's source comes before its target,
/// taking ready nodes first in, first out (see [`kahn_order`]); fails when
/// the edges close a cycle.
pub fn causal_topological_order(nodes: &Vec<CausalModelNodeRequest>, edges: &Vec<CausalModelEdgeRequest>) -> (r: Result<Vec<String>, OcelError>)
    requires
        distinct_ids(nodes@),
        edges_resolved(nodes@, edges@),
    ensures
        match r {
            Ok(order) => topological(nodes@, edges@, order@)
                && order@.map_values(|s: String| s@) == kahn_order(nodes@, edges@).map_values(|x: usize| nodes@[x as int].id@),
            Err(e) => has_cycle(nodes@, edges@)
                && kahn_order(nodes@, edges@).len() < nodes@.len()
                && e.message@ == "causal model must be a DAG; remove latent-to-latent cycles before fitting"@,
        },
{
    let n = nodes.len();
    let (src, tgt) = resolve_edges(nodes, edges);
    let (mut indeg, out) = edge_tables(&src, &tgt, n);
    let mut queue = initial_queue(&indeg);
    let ghost outs = Seq::new(n as nat, |x: int| out_edges(src@, x, src@.len() as int));
    proof {
        assert forall|e: int| 0 <= e < edges@.len() implies #[trigger] src@[e] == edge_sources(nodes@, edges@)[e] by {
            assert((src@[e] as int, tgt@[e] as int) == edge_ends(nodes@, edges@, e));
        }
        assert forall|e: int| 0 <= e < edges@.len() implies #[trigger] tgt@[e] == edge_targets(nodes@, edges@)[e] by {
            assert((src@[e] as int, tgt@[e] as int) == edge_ends(nodes@, edges@, e));
        }
        assert(tgt@.len() == edges@.len());
        assert(edge_targets(nodes@, edges@).len() == edges@.len());
        assert(src@ =~= edge_sources(nodes@, edges@));
        assert(tgt@ =~= edge_targets(nodes@, edges@));
        let want_in = Seq::new(nodes@.len(), |x: int| pending_count(src@, tgt@, Seq::empty(), 0, -1, Seq::empty(), 0, x, edges@.len() as int) as usize);
        assert forall|x: int| 0 <= x < n implies #[trigger] indeg@[x] == want_in[x] by {
            let c = pending_count(src@, tgt@, Seq::empty(), 0, -1, Seq::empty(), 0, x, edges@.len() as int);
            assert(indeg@[x] as int == c as int);
        }
        assert(indeg@ =~= want_in);
    }
    let ghost want = kahn_order(nodes@, edges@);
    let ghost srcs = src@;
    let ghost none = Seq::<usize>::empty();
    let ghost m = srcs.len() as int;
    proof {
        lemma_distinct_bounded(queue@, n as int);
        assert forall|x: int| 0 <= x < n implies #[trigger] indeg@[x] == pending_count(srcs, tgt@, queue@, 0, -1, none, 0, x, m) by {
            assert forall|e: int| 0 <= e < m implies #[trigger] pending(srcs, tgt@, none, 0, -1, none, 0, x, e)
                == pending(srcs, tgt@, queue@, 0, -1, none, 0, x, e) by {}
            lemma_pending_same(srcs, tgt@, none, 0, -1, none, 0, queue@, 0, -1, none, 0, x, m);
        }
        assert forall|e: int, x: int| 0 <= e < srcs.len() && 0 <= x < queue@.len() && #[trigger] queue@[x] == #[trigger] tgt@[e]
            implies exists|i: int| 0 <= i < x && i <= -1 && #[trigger] queue@[i] == srcs[e] by {
            let t = tgt@[e] as int;
            assert(indeg@[t] == 0);
            lemma_pending_zero(srcs, tgt@, queue@, 0, -1, none, 0, t, m);
            assert(pending(srcs, tgt@, queue@, 0, -1, none, 0, t, e));
        }
    }
    let mut head: usize = 0;
    while head < queue.len()
        invariant
            n == nodes@.len(),
            m == edges@.len(),
            srcs == src@,
            srcs.len() == m,
            none == Seq::<usize>::empty(),
            out@.len() == n,
            forall|x: int| 0 <= x < n ==> (#[trigger] out@[x])@ == out_edges(srcs, x, m),
            forall|e: int| 0 <= e < m ==> (#[trigger] srcs[e] as int, tgt@[e] as int) == edge_ends(nodes@, edges@, e),
            kahn_ok(srcs, tgt@, n as int, indeg@, queue@, head as int, -1, none, 0, head - 1),
            outs == Seq::new(n as nat, |x: int| out_edges(srcs, x, m)),
            want == kahn_from(indeg@, queue@, head as int, outs, tgt@, n as int),
        decreases n - head,
    {
        assert(out@[queue@[head as int] as int]@ == outs[queue@[head as int] as int]);
        release_node(&mut indeg, &mut queue, &out, &tgt, head, Ghost(srcs), Ghost(n as int));
        head = head + 1;
    }
    assert(want == queue@);
    if queue.len() < n {
        proof {
            lemma_stuck(nodes@, edges@, srcs, tgt@, indeg@, queue@, n as int);
        }
        return Err(OcelError::new(owned("causal model must be a DAG; remove latent-to-latent cycles before fitting")));
    }
    let mut order: Vec<String> = Vec::new();
    let mut i: usize = 0;
    while i < queue.len()
        invariant
            i <= queue@.len(),
            n == nodes@.len(),
            forall|x: int| 0 <= x < queue@.len() ==> #[trigger] queue@[x] < n,
            order@.len() == i,
            forall|x: int| 0 <= x < i ==> (#[trigger] order@[x])@ == nodes@[queue@[x] as int].id@,
        decreases queue.len() - i,
    {
        order.push(owned(nodes[queue[i]].id.as_str()));
        i = i + 1;
    }
    proof {
        lemma_ordered(nodes@, edges@, srcs, tgt@, indeg@, queue@, order@, n as int);
    }
    Ok(order)
}

/// No item has a problem when there is no first problem.
pub proof fn lemma_first_problem_none(n: int, problem: spec_fn(int) -> Option<Seq<char>>)
    requires
        first_problem(n, problem) is None,
    ensures
        forall|i: int| 0 <= i < n ==> #[trigger] problem(i) is None,
    decreases n,
{
    if n > 0 {
        lemma_first_problem_none(n - 1, problem);
    }
}

/// Checks a requested causal model before fitting: at least one node,
/// valid nodes, valid edges, no cycle. Returns the order in which to fit
/// the nodes.
pub fn validate_causal_model(
    nodes: &Vec<CausalModelNodeRequest>,
    edges: &Vec<CausalModelEdgeRequest>,
    features: &Vec<String>,
) -> (r: Result<Vec<String>, OcelError>)
    ensures
        match r {
            Ok(order) => {
                &&& nodes@.len() > 0
                &&& first_problem(nodes@.len() as int, |i: int| node_problem(nodes@, features@, i)) is None
                &&& first_problem(edges@.len() as int, |i: int| edge_problem(nodes@, edges@, i)) is None
                &&& topological(nodes@, edges@, order@)
            },
            Err(e) => {
                ||| nodes@.len() == 0 && e.message@ == "causal model must contain at least one node"@
                ||| nodes@.len() > 0 && first_problem(nodes@.len() as int, |i: int| node_problem(nodes@, features@, i)) == Some(e.message@)
                ||| nodes@.len() > 0 && first_problem(nodes@.len() as int, |i: int| node_problem(nodes@, features@, i)) is None
                    && first_problem(edges@.len() as int, |i: int| edge_problem(nodes@, edges@, i)) == Some(e.message@)
                ||| nodes@.len() > 0 && first_problem(nodes@.len() as int, |i: int| node_problem(nodes@, features@, i)) is None
                    && first_problem(edges@.len() as int, |i: int| edge_problem(nodes@, edges@, i)) is None
                    && has_cycle(nodes@, edges@)
                    && e.message@ == "causal model must be a DAG; remove latent-to-latent cycles before fitting"@
            },
        },
{
    if nodes.len() == 0 {
        proof { reveal_strlit("causal model must contain at least one node"); }
        return Err(OcelError::new(owned("causal model must contain at least one node")));
    }
    validate_causal_nodes(nodes, features)?;
    validate_causal_edges(edges, nodes)?;
    proof {
        let pr = |i: int| edge_problem(nodes@, edges@, i);
        lemma_first_problem_none(edges@.len() as int, pr);
        assert forall|k: int| 0 <= k < edges@.len() implies #[trigger] node_at(nodes@, edges@[k].source@) is Some
            && node_at(nodes@, edges@[k].target@) is Some by {
            assert(pr(k) is None);
        }
    }
    causal_topological_order(nodes, edges)
}

} // verus!
