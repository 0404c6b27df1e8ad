//! What a node knows of the network: nodes and their links, learnt from the
//! path traces of floods, and the routes that can be drawn on them.

use vstd::prelude::*;
use std::collections::HashMap;
use crate::network::{NodeId, NodeType};

verus! {

broadcast use vstd::std_specs::hash::group_hash_axioms;

/// A link to a neighbour: its identifier and kind.
pub type Adjacent = (NodeId, NodeType);

/// A node as the topology sees it: identifier, kind, links in the order
/// they were learnt.
pub type NodeView = (NodeId, NodeType, Seq<Adjacent>);

/// The kind of service a server offers.
#[derive(Debug, Clone, Copy, PartialEq, Eq, Structural)]
pub enum ServerType {
    ChatServer,
    WebServer,
}

/// A node of the topology with its known neighbours.
#[derive(PartialEq, Eq, Debug, Clone)]
pub struct Node {
    value: NodeId,
    node_type: NodeType,
    pub adjacents: Vec<Adjacent>,
}

impl View for Node {
    type V = NodeView;

    closed spec fn view(&self) -> NodeView {
        (self.value, self.node_type, self.adjacents@)
    }
}

/// `adj` with `e` appended, unless it is already there.
pub open spec fn with_adjacent(adj: Seq<Adjacent>, e: Adjacent) -> Seq<Adjacent> {
    if adj.contains(e) {
        adj
    } else {
        adj.push(e)
    }
}

fn contains_adjacent(adj: &Vec<Adjacent>, e: Adjacent) -> (res: bool)
    ensures
        res == adj@.contains(e),
{
    let n = adj.len();
    for i in 0..n
        invariant
            n == adj@.len(),
            forall|k: int| 0 <= k < i ==> adj@[k] != e,
    {
        if adj[i].0 == e.0 && adj[i].1 == e.1 {
            assert(adj@[i as int] == e);
            return true;
        }
    }
    false
}

impl Node {
    pub fn new(value: NodeId, node_type: NodeType) -> (res: Self)
        ensures
            res@ == (value, node_type, Seq::<Adjacent>::empty()),
    {
        Self { value, node_type, adjacents: Vec::new() }
    }

    /// The node's identifier.
    pub fn value(&self) -> (res: NodeId)
        ensures
            res == self@.0,
    {
        self.value
    }

    /// The node's kind.
    pub fn node_type(&self) -> (res: NodeType)
        ensures
            res == self@.1,
    {
        self.node_type
    }

    /// Records a link to a neighbour, unless it is already known.
    pub fn add_adjacents(&mut self, id: NodeId, node_type: NodeType)
        ensures
            final(self)@ == (old(self)@.0, old(self)@.1, with_adjacent(old(self)@.2, (id, node_type))),
    {
        if !contains_adjacent(&self.adjacents, (id, node_type)) {
            self.adjacents.push((id, node_type));
        }
    }
}

/// The nodes a client or server has learnt of, by identifier.
#[derive(Debug, PartialEq, Eq, Clone)]
pub struct Topology {
    nodes: HashMap<NodeId, Node>,
}

impl View for Topology {
    type V = Map<NodeId, NodeView>;

    closed spec fn view(&self) -> Map<NodeId, NodeView> {
        Map::new(|k: NodeId| self.nodes@.contains_key(k), |k: NodeId| self.nodes@[k]@)
    }
}

/// The path a flood travelled, from its initiator: the trace itself when it
/// already holds the initiator, the initiator followed by the trace
/// otherwise.
pub open spec fn trace_with_initiator(initiator: Adjacent, trace: Seq<Adjacent>) -> Seq<Adjacent> {
    if trace.contains(initiator) {
        trace
    } else {
        seq![initiator] + trace
    }
}

/// Records hop `v` of `path`: its node (created with no links if unknown)
/// learns of the next hop, then of the previous one.
pub open spec fn record_hop(g: Map<NodeId, NodeView>, path: Seq<Adjacent>, v: int) -> Map<NodeId, NodeView> {
    let id = path[v].0;
    let base: NodeView = if g.contains_key(id) {
        g[id]
    } else {
        (id, path[v].1, Seq::empty())
    };
    let a1 = if v != path.len() - 1 {
        with_adjacent(base.2, path[v + 1])
    } else {
        base.2
    };
    let a2 = if v != 0 {
        with_adjacent(a1, path[v - 1])
    } else {
        a1
    };
    g.insert(id, (base.0, base.1, a2))
}

/// Records the first `n` hops of `path`, in order.
pub open spec fn record_path(g: Map<NodeId, NodeView>, path: Seq<Adjacent>, n: nat) -> Map<NodeId, NodeView>
    decreases n,
{
    if n == 0 {
        g
    } else {
        record_hop(record_path(g, path, (n - 1) as nat), path, n - 1)
    }
}

/// `finish` knows every node of `start`, with the same identifier and kind, and
/// their links learnt so far come first, in the same order.
pub open spec fn extends(start: Map<NodeId, NodeView>, finish: Map<NodeId, NodeView>) -> bool {
    forall|k: NodeId|
        #[trigger] start.contains_key(k) ==> {
            &&& finish.contains_key(k)
            &&& finish[k].0 == start[k].0
            &&& finish[k].1 == start[k].1
            &&& start[k].2.len() <= finish[k].2.len()
            &&& forall|i: int| 0 <= i < start[k].2.len() ==> #[trigger] finish[k].2[i] == start[k].2[i]
        }
}

proof fn lemma_extends_trans(a: Map<NodeId, NodeView>, b: Map<NodeId, NodeView>, c: Map<NodeId, NodeView>)
    requires
        extends(a, b),
        extends(b, c),
    ensures
        extends(a, c),
{
    assert forall|k: NodeId| #[trigger] a.contains_key(k) implies {
        &&& c.contains_key(k)
        &&& c[k].0 == a[k].0
        &&& c[k].1 == a[k].1
        &&& a[k].2.len() <= c[k].2.len()
        &&& forall|i: int| 0 <= i < a[k].2.len() ==> #[trigger] c[k].2[i] == a[k].2[i]
    } by {
        assert(b.contains_key(k));
        assert forall|i: int| 0 <= i < a[k].2.len() implies #[trigger] c[k].2[i] == a[k].2[i] by {
            assert(b[k].2[i] == a[k].2[i]);
        }
    }
}

proof fn lemma_extends_contains(a: Map<NodeId, NodeView>, b: Map<NodeId, NodeView>, k: NodeId, e: Adjacent)
    requires
        extends(a, b),
        a.contains_key(k),
        a[k].2.contains(e),
    ensures
        b.contains_key(k),
        b[k].2.contains(e),
{
    let i = choose|i: int| 0 <= i < a[k].2.len() && a[k].2[i] == e;
    assert(b[k].2[i] == a[k].2[i]);
}

proof fn lemma_record_hop_extends(g: Map<NodeId, NodeView>, path: Seq<Adjacent>, v: int)
    requires
        0 <= v < path.len(),
    ensures
        extends(g, record_hop(g, path, v)),
        record_hop(g, path, v).contains_key(path[v].0),
        v < path.len() - 1 ==> record_hop(g, path, v)[path[v].0].2.contains(path[v + 1]),
        v > 0 ==> record_hop(g, path, v)[path[v].0].2.contains(path[v - 1]),
{
    let r = record_hop(g, path, v);
    let id = path[v].0;
    let base: NodeView = if g.contains_key(id) { g[id] } else { (id, path[v].1, Seq::empty()) };
    let a1 = if v != path.len() - 1 { with_adjacent(base.2, path[v + 1]) } else { base.2 };
    if v < path.len() - 1 {
        if !base.2.contains(path[v + 1]) {
            assert(a1[a1.len() - 1] == path[v + 1]);
        }
        assert(a1.contains(path[v + 1]));
    }
    if v > 0 {
        if !a1.contains(path[v - 1]) {
            assert(r[id].2[r[id].2.len() - 1] == path[v - 1]);
        }
    }
    if v < path.len() - 1 && v > 0 {
        let j = choose|j: int| 0 <= j < a1.len() && a1[j] == path[v + 1];
        assert(r[id].2[j] == a1[j]);
    }
}

proof fn lemma_record_path_extends(g: Map<NodeId, NodeView>, path: Seq<Adjacent>, n1: nat, n2: nat)
    requires
        n1 <= n2 <= path.len(),
    ensures
        extends(record_path(g, path, n1), record_path(g, path, n2)),
    decreases n2,
{
    if n1 == n2 {
    } else {
        lemma_record_path_extends(g, path, n1, (n2 - 1) as nat);
        lemma_record_hop_extends(record_path(g, path, (n2 - 1) as nat), path, n2 - 1);
        lemma_extends_trans(record_path(g, path, n1), record_path(g, path, (n2 - 1) as nat), record_path(g, path, n2));
    }
}

/// Recording a path keeps what was known, makes every node of the path
/// known, and links each hop to the next one in both directions.
pub proof fn lemma_recorded_path_links(g: Map<NodeId, NodeView>, path: Seq<Adjacent>)
    ensures
        extends(g, record_path(g, path, path.len())),
        forall|v: int| 0 <= v < path.len() ==> #[trigger] record_path(g, path, path.len()).contains_key(path[v].0),
        forall|v: int|
            0 <= v < path.len() - 1 ==> #[trigger] record_path(g, path, path.len())[path[v].0].2.contains(path[v + 1])
                && record_path(g, path, path.len())[path[v + 1].0].2.contains(path[v]),
{
    let n = path.len();
    let r = record_path(g, path, n);
    lemma_record_path_extends(g, path, 0, n);
    assert forall|v: int| 0 <= v < n implies #[trigger] r.contains_key(path[v].0) by {
        lemma_record_hop_extends(record_path(g, path, v as nat), path, v);
        lemma_record_path_extends(g, path, (v + 1) as nat, n);
    }
    assert forall|v: int| 0 <= v < n - 1 implies #[trigger] r[path[v].0].2.contains(path[v + 1])
        && r[path[v + 1].0].2.contains(path[v]) by {
        lemma_record_hop_extends(record_path(g, path, v as nat), path, v);
        lemma_record_path_extends(g, path, (v + 1) as nat, n);
        lemma_extends_contains(record_path(g, path, (v + 1) as nat), r, path[v].0, path[v + 1]);
        lemma_record_hop_extends(record_path(g, path, (v + 1) as nat), path, v + 1);
        lemma_record_path_extends(g, path, (v + 2) as nat, n);
        lemma_extends_contains(record_path(g, path, (v + 2) as nat), r, path[v + 1].0, path[v]);
    }
}

proof fn lemma_record_path_unchanged(r: Map<NodeId, NodeView>, path: Seq<Adjacent>, n: nat)
    requires
        n <= path.len(),
        forall|v: int| 0 <= v < path.len() ==> #[trigger] r.contains_key(path[v].0),
        forall|v: int|
            0 <= v < path.len() - 1 ==> #[trigger] r[path[v].0].2.contains(path[v + 1])
                && r[path[v + 1].0].2.contains(path[v]),
    ensures
        record_path(r, path, n) == r,
    decreases n,
{
    if n > 0 {
        lemma_record_path_unchanged(r, path, (n - 1) as nat);
        let v = n - 1;
        let id = path[v].0;
        assert(r.contains_key(id));
        if v < path.len() - 1 {
            assert(r[path[v].0].2.contains(path[v + 1]));
        }
        if v > 0 {
            let u = v - 1;
            assert(r[path[u].0].2.contains(path[u + 1]) && r[path[u + 1].0].2.contains(path[u]));
        }
        assert(record_hop(r, path, v) =~= r);
    }
}

/// Learning the same path a second time changes nothing: every link it
/// holds is already known.
pub proof fn lemma_record_path_idempotent(g: Map<NodeId, NodeView>, path: Seq<Adjacent>)
    ensures
        record_path(record_path(g, path, path.len()), path, path.len()) == record_path(g, path, path.len()),
{
    let r = record_path(g, path, path.len());
    lemma_recorded_path_links(g, path);
    lemma_record_path_unchanged(r, path, path.len());
}

proof fn lemma_record_path_sources(g: Map<NodeId, NodeView>, path: Seq<Adjacent>, n: nat, k: NodeId, e: Adjacent)
    requires
        n <= path.len(),
        record_path(g, path, n).contains_key(k),
        record_path(g, path, n)[k].2.contains(e),
    ensures
        (g.contains_key(k) && g[k].2.contains(e)) || exists|v: int|
            0 <= v < n && #[trigger] path[v].0 == k && ((v < path.len() - 1 && e == path[v + 1]) || (v > 0 && e
                == path[v - 1])),
    decreases n,
{
    if n > 0 {
        let v = n - 1;
        let prev = record_path(g, path, (n - 1) as nat);
        let id = path[v].0;
        let base: NodeView = if prev.contains_key(id) { prev[id] } else { (id, path[v].1, Seq::empty()) };
        let a1 = if v != path.len() - 1 { with_adjacent(base.2, path[v + 1]) } else { base.2 };
        let a2 = if v != 0 { with_adjacent(a1, path[v - 1]) } else { a1 };
        let r = record_path(g, path, n);
        assert(r == prev.insert(id, (base.0, base.1, a2)));
        if k == id {
            let j = choose|j: int| 0 <= j < a2.len() && a2[j] == e;
            if !(v > 0 && e == path[v - 1]) && !(v < path.len() - 1 && e == path[v + 1]) {
                assert(a1.contains(e)) by {
                    if v != 0 && !a1.contains(path[v - 1]) {
                        assert(j < a1.len());
                        assert(a1[j] == e);
                    }
                }
                assert(base.2.contains(e)) by {
                    let j1 = choose|j1: int| 0 <= j1 < a1.len() && a1[j1] == e;
                    if v != path.len() - 1 && !base.2.contains(path[v + 1]) {
                        assert(j1 < base.2.len());
                        assert(base.2[j1] == e);
                    }
                }
                assert(prev.contains_key(id));
                lemma_record_path_sources(g, path, (n - 1) as nat, k, e);
            } else {
                assert(path[v].0 == k);
            }
        } else {
            assert(r[k] == prev[k]);
            lemma_record_path_sources(g, path, (n - 1) as nat, k, e);
        }
    }
}

/// Links go both ways: whenever `u` lists `w`, `w` lists `u`.
pub open spec fn links_symmetric(g: Map<NodeId, NodeView>) -> bool {
    forall|u: NodeId, w: NodeId| #[trigger] linked(g, u, w) ==> linked(g, w, u)
}

/// Learning a path keeps links going both ways: every link it adds comes
/// with the link back.
pub proof fn lemma_record_path_symmetric(g: Map<NodeId, NodeView>, path: Seq<Adjacent>)
    requires
        links_symmetric(g),
    ensures
        links_symmetric(record_path(g, path, path.len())),
{
    let r = record_path(g, path, path.len());
    lemma_recorded_path_links(g, path);
    assert forall|u: NodeId, w: NodeId| #[trigger] linked(r, u, w) implies linked(r, w, u) by {
        let k = choose|k: int| 0 <= k < r[u].2.len() && #[trigger] r[u].2[k].0 == w;
        let e = r[u].2[k];
        assert(r[u].2.contains(e));
        lemma_record_path_sources(g, path, path.len(), u, e);
        if g.contains_key(u) && g[u].2.contains(e) {
            let i = choose|i: int| 0 <= i < g[u].2.len() && g[u].2[i] == e;
            assert(g[u].2[i].0 == w);
            assert(linked(g, u, w));
            assert(linked(g, w, u));
            let i2 = choose|i2: int| 0 <= i2 < g[w].2.len() && #[trigger] g[w].2[i2].0 == u;
            lemma_extends_contains(g, r, w, g[w].2[i2]);
            let i3 = choose|i3: int| 0 <= i3 < r[w].2.len() && r[w].2[i3] == g[w].2[i2];
            assert(r[w].2[i3].0 == u);
        } else {
            let v = choose|v: int|
                0 <= v < path.len() && #[trigger] path[v].0 == u && ((v < path.len() - 1 && e == path[v + 1]) || (v > 0
                    && e == path[v - 1]));
            if v < path.len() - 1 && e == path[v + 1] {
                assert(r[path[v + 1].0].2.contains(path[v]));
                let i3 = choose|i3: int| 0 <= i3 < r[w].2.len() && r[w].2[i3] == path[v];
                assert(r[w].2[i3].0 == u);
            } else {
                let t = v - 1;
                assert(r[path[t].0].2.contains(path[t + 1]) && r[path[t + 1].0].2.contains(path[t]));
                let i3 = choose|i3: int| 0 <= i3 < r[w].2.len() && r[w].2[i3] == path[v];
                assert(r[w].2[i3].0 == u);
            }
        }
    }
}

/// Every hop of `path` carries the kind that `ty` gives its identifier.
pub open spec fn path_typed(path: Seq<Adjacent>, ty: spec_fn(NodeId) -> NodeType) -> bool {
    forall|i: int| 0 <= i < path.len() ==> #[trigger] path[i].1 == ty(path[i].0)
}

/// Every known node is stored under its own identifier, with the kind that
/// `ty` gives it, and lists no link twice.
pub open spec fn nodes_typed(g: Map<NodeId, NodeView>, ty: spec_fn(NodeId) -> NodeType) -> bool {
    forall|u: NodeId|
        #[trigger] g.contains_key(u) ==> g[u].0 == u && g[u].1 == ty(u) && g[u].2.no_duplicates()
}

/// A topology whose node kinds follow `ty`: every node is stored under its
/// own identifier with its kind and lists no link twice, and whenever `u`
/// lists the pair `(w, t)`, `t` is the kind of `w`, `w` is known, and `w`
/// lists `(u, kind of u)`.
pub open spec fn typed_topology(g: Map<NodeId, NodeView>, ty: spec_fn(NodeId) -> NodeType) -> bool {
    &&& nodes_typed(g, ty)
    &&& forall|u: NodeId, e: Adjacent|
        g.contains_key(u) && #[trigger] g[u].2.contains(e) ==> e.1 == ty(e.0) && g.contains_key(e.0)
            && g[e.0].2.contains((u, ty(u)))
}

proof fn lemma_with_adjacent_no_duplicates(adj: Seq<Adjacent>, e: Adjacent)
    requires
        adj.no_duplicates(),
    ensures
        with_adjacent(adj, e).no_duplicates(),
{
    if !adj.contains(e) {
        let r = adj.push(e);
        assert forall|i: int, j: int| 0 <= i < r.len() && 0 <= j < r.len() && i != j implies r[i] != r[j] by {
            if i == adj.len() {
                assert(adj[j] == r[j]);
            } else if j == adj.len() {
                assert(adj[i] == r[i]);
            }
        }
    }
}

proof fn lemma_record_path_nodes(g: Map<NodeId, NodeView>, path: Seq<Adjacent>, n: nat, ty: spec_fn(NodeId) -> NodeType)
    requires
        n <= path.len(),
        nodes_typed(g, ty),
        path_typed(path, ty),
    ensures
        nodes_typed(record_path(g, path, n), ty),
    decreases n,
{
    if n > 0 {
        let v = n - 1;
        let prev = record_path(g, path, (n - 1) as nat);
        lemma_record_path_nodes(g, path, (n - 1) as nat, ty);
        let id = path[v].0;
        let base: NodeView = if prev.contains_key(id) { prev[id] } else { (id, path[v].1, Seq::empty()) };
        assert(base.2.no_duplicates());
        let a1 = if v != path.len() - 1 { with_adjacent(base.2, path[v + 1]) } else { base.2 };
        if v != path.len() - 1 {
            lemma_with_adjacent_no_duplicates(base.2, path[v + 1]);
        }
        let a2 = if v != 0 { with_adjacent(a1, path[v - 1]) } else { a1 };
        if v != 0 {
            lemma_with_adjacent_no_duplicates(a1, path[v - 1]);
        }
        assert(path[v].1 == ty(path[v].0));
        assert(record_path(g, path, n) == prev.insert(id, (base.0, base.1, a2)));
    }
}

/// The empty topology, where `Topology::new` starts, follows any kinds.
pub proof fn lemma_empty_typed(ty: spec_fn(NodeId) -> NodeType)
    ensures
        typed_topology(Map::<NodeId, NodeView>::empty(), ty),
{
}

/// Learning a path whose hops carry the kinds that `ty` gives them keeps a
/// topology that follows `ty`: no node comes to list a link twice, and the
/// links stay symmetric as (identifier, kind) pairs. With
/// `lemma_empty_typed`, this holds of every topology that
/// `update_topology` builds from `Topology::new` while each identifier
/// always comes with the same kind.
pub proof fn lemma_update_keeps_typed(
    g: Map<NodeId, NodeView>,
    initiator: Adjacent,
    trace: Seq<Adjacent>,
    ty: spec_fn(NodeId) -> NodeType,
)
    requires
        typed_topology(g, ty),
        initiator.1 == ty(initiator.0),
        path_typed(trace, ty),
    ensures
        typed_topology(
            record_path(g, trace_with_initiator(initiator, trace), trace_with_initiator(initiator, trace).len()),
            ty,
        ),
{
    let path = trace_with_initiator(initiator, trace);
    assert(path_typed(path, ty)) by {
        if !trace.contains(initiator) {
            assert forall|i: int| 0 <= i < path.len() implies #[trigger] path[i].1 == ty(path[i].0) by {
                if i > 0 {
                    assert(path[i] == trace[i - 1]);
                }
            }
        }
    }
    let r = record_path(g, path, path.len());
    lemma_record_path_nodes(g, path, path.len(), ty);
    lemma_recorded_path_links(g, path);
    assert forall|u: NodeId, e: Adjacent|
        r.contains_key(u) && #[trigger] r[u].2.contains(e) implies e.1 == ty(e.0) && r.contains_key(e.0)
            && r[e.0].2.contains((u, ty(u))) by {
        lemma_record_path_sources(g, path, path.len(), u, e);
        if g.contains_key(u) && g[u].2.contains(e) {
            lemma_extends_contains(g, r, e.0, (u, ty(u)));
        } else {
            let v = choose|v: int|
                0 <= v < path.len() && #[trigger] path[v].0 == u && ((v < path.len() - 1 && e == path[v + 1]) || (v > 0
                    && e == path[v - 1]));
            assert(path[v] == (u, ty(u)));
            if v < path.len() - 1 && e == path[v + 1] {
                assert(path[v + 1].1 == ty(path[v + 1].0));
                assert(r[path[v + 1].0].2.contains(path[v]));
            } else {
                let t = v - 1;
                assert(path[t].1 == ty(path[t].0));
                assert(r[path[t].0].2.contains(path[t + 1]) && r[path[t + 1].0].2.contains(path[t]));
            }
        }
    }
}

/// `u` is known and has `v` among its neighbours.
pub open spec fn linked(g: Map<NodeId, NodeView>, u: NodeId, v: NodeId) -> bool {
    g.contains_key(u) && exists|k: int| 0 <= k < g[u].2.len() && #[trigger] g[u].2[k].0 == v
}

/// A sequence of nodes in which each one is linked to the next.
pub open spec fn is_route(g: Map<NodeId, NodeView>, p: Seq<NodeId>) -> bool {
    &&& p.len() >= 1
    &&& forall|i: int| 0 <= i < p.len() - 1 ==> #[trigger] linked(g, p[i], p[i + 1])
}

/// A route that starts at `src` and ends at `dst`.
pub open spec fn is_route_between(g: Map<NodeId, NodeView>, p: Seq<NodeId>, src: NodeId, dst: NodeId) -> bool {
    is_route(g, p) && p[0] == src && p.last() == dst
}

/// A route from `src` to `dst` with no fewer nodes than any other.
pub open spec fn is_shortest_route(g: Map<NodeId, NodeView>, p: Seq<NodeId>, src: NodeId, dst: NodeId) -> bool {
    &&& is_route_between(g, p, src, dst)
    &&& forall|q: Seq<NodeId>| #[trigger] is_route_between(g, q, src, dst) ==> p.len() <= q.len()
}

/// Some route leads from `src` to `dst`.
pub open spec fn connected(g: Map<NodeId, NodeView>, src: NodeId, dst: NodeId) -> bool {
    exists|p: Seq<NodeId>| #[trigger] is_route_between(g, p, src, dst)
}

/// Number of unvisited slots.
pub open spec fn unvisited_count(s: Seq<bool>) -> nat
    decreases s.len(),
{
    if s.len() == 0 {
        0
    } else {
        unvisited_count(s.drop_last()) + if s.last() { 0nat } else { 1nat }
    }
}

proof fn lemma_unvisited_update(s: Seq<bool>, i: int)
    requires
        0 <= i < s.len(),
        !s[i],
    ensures
        unvisited_count(s.update(i, true)) + 1 == unvisited_count(s),
    decreases s.len(),
{
    let t = s.update(i, true);
    if i < s.len() - 1 {
        lemma_unvisited_update(s.drop_last(), i);
        assert(t.drop_last() =~= s.drop_last().update(i, true));
    } else {
        assert(t.drop_last() =~= s.drop_last());
    }
}

proof fn lemma_route_prefix(g: Map<NodeId, NodeView>, p: Seq<NodeId>, j: int)
    requires
        is_route(g, p),
        0 <= j < p.len(),
    ensures
        is_route(g, p.take(j + 1)),
        p.take(j + 1)[0] == p[0],
        p.take(j + 1).last() == p[j],
{
    let t = p.take(j + 1);
    assert forall|i: int| 0 <= i < t.len() - 1 implies #[trigger] linked(g, t[i], t[i + 1]) by {
        assert(linked(g, p[i], p[i + 1]));
    }
}

/// The first place where a route leaves the visited nodes.
proof fn lemma_exit_point(p: Seq<NodeId>, visited: Seq<bool>) -> (j: int)
    requires
        p.len() >= 1,
        visited.len() == 256,
        visited[p[0] as int],
        !visited[p.last() as int],
    ensures
        0 <= j < p.len() - 1,
        visited[p[j] as int],
        !visited[p[j + 1] as int],
    decreases p.len(),
{
    if !visited[p[1] as int] {
        0
    } else {
        let j = lemma_exit_point(p.drop_first(), visited);
        j + 1
    }
}


/// `c` follows recorded predecessors from its first node back to `src`,
/// stopping at the first time it meets `src`.
pub open spec fn is_pred_chain(preds: Seq<Vec<NodeId>>, src: NodeId, c: Seq<NodeId>) -> bool {
    &&& c.len() >= 1
    &&& c.last() == src
    &&& forall|i: int| 0 <= i < c.len() - 1 ==> #[trigger] pred_step(preds, src, c[i], c[i + 1])
}

/// `b` is a recorded predecessor of `a`, which is not the source.
pub open spec fn pred_step(preds: Seq<Vec<NodeId>>, src: NodeId, a: NodeId, b: NodeId) -> bool {
    a != src && preds[a as int]@.contains(b)
}

proof fn lemma_route_concat(g: Map<NodeId, NodeView>, r: Seq<NodeId>, p: Seq<NodeId>, i: int)
    requires
        is_route(g, r),
        is_route(g, p),
        0 <= i < p.len(),
        r.last() == p[i],
    ensures
        is_route(g, r + p.subrange(i + 1, p.len() as int)),
        (r + p.subrange(i + 1, p.len() as int))[0] == r[0],
        (r + p.subrange(i + 1, p.len() as int)).last() == p.last(),
        (r + p.subrange(i + 1, p.len() as int)).len() == r.len() + p.len() - i - 1,
{
    let t = r + p.subrange(i + 1, p.len() as int);
    assert forall|j: int| 0 <= j < t.len() - 1 implies #[trigger] linked(g, t[j], t[j + 1]) by {
        if j < r.len() - 1 {
            assert(linked(g, r[j], r[j + 1]));
        } else {
            let m = j - r.len() + 1 + i;
            assert(linked(g, p[m], p[m + 1]));
            if j == r.len() - 1 {
                assert(t[j] == p[i]);
            }
        }
    }
}

fn push_pred(preds: &mut Vec<Vec<NodeId>>, w: usize, u: NodeId)
    requires
        w < old(preds)@.len(),
    ensures
        final(preds)@.len() == old(preds)@.len(),
        forall|v: int| 0 <= v < old(preds)@.len() && v != w ==> #[trigger] final(preds)@[v] == old(preds)@[v],
        final(preds)@[w as int]@ == old(preds)@[w as int]@.push(u),
{
    let mut list = preds[w].clone();
    assert(list@ =~= preds@[w as int]@);
    list.push(u);
    preds.set(w, list);
}


proof fn lemma_chain_cons(preds: Seq<Vec<NodeId>>, src: NodeId, current: NodeId, c1: Seq<NodeId>)
    requires
        is_pred_chain(preds, src, c1),
        current != src,
        preds[current as int]@.contains(c1[0]),
    ensures
        is_pred_chain(preds, src, seq![current] + c1),
        (seq![current] + c1)[0] == current,
{
    let c = seq![current] + c1;
    assert(c.last() == c1.last());
    assert forall|i: int| 0 <= i < c.len() - 1 implies #[trigger] pred_step(preds, src, c[i], c[i + 1]) by {
        if i > 0 {
            let m = i - 1;
            assert(c[i] == c1[m] && c[i + 1] == c1[m + 1]);
            assert(pred_step(preds, src, c1[m], c1[m + 1]));
        }
    }
}

proof fn lemma_chain_tail(preds: Seq<Vec<NodeId>>, src: NodeId, c: Seq<NodeId>)
    requires
        is_pred_chain(preds, src, c),
        c.len() >= 2,
    ensures
        is_pred_chain(preds, src, c.drop_first()),
        c.drop_first()[0] == c[1],
        c[0] != src,
        preds[c[0] as int]@.contains(c[1]),
{
    let c1 = c.drop_first();
    assert(c1.last() == c.last());
    let z = 0int;
    assert(pred_step(preds, src, c[z], c[z + 1]));
    assert forall|i: int| 0 <= i < c1.len() - 1 implies #[trigger] pred_step(preds, src, c1[i], c1[i + 1]) by {
        let m = i + 1;
        assert(c1[i] == c[m] && c1[i + 1] == c[m + 1]);
        assert(pred_step(preds, src, c[m], c[m + 1]));
    }
}

/// What listing the routes back from `current` adds to `start`, giving
/// `finish`: `start` is kept, every added entry is `prefix` followed by a chain
/// from `current`, reversed, and every such chain is added.
/// The entries of `paths` from index `from` on are pairwise different.
pub open spec fn distinct_from(paths: Seq<Vec<NodeId>>, from: int) -> bool {
    forall|a: int, b: int| from <= a < b < paths.len() ==> #[trigger] paths[a]@ != #[trigger] paths[b]@
}

/// Every entry of `paths` from index `from` on has, at position `n` read
/// backwards, one of the first `j` nodes of `branches`.
pub open spec fn branches_before(paths: Seq<Vec<NodeId>>, from: int, n: int, branches: Seq<NodeId>, j: int) -> bool {
    forall|k: int|
        from <= k < paths.len() ==> exists|m: int| 0 <= m < j && #[trigger] branch_at(paths[k]@, n) == branches[m]
}

/// The node at position `n` of entry `e` read backwards.
pub open spec fn branch_at(e: Seq<NodeId>, n: int) -> NodeId {
    e.reverse()[n]
}

proof fn lemma_branch_of_entry(preds: Seq<Vec<NodeId>>, src: NodeId, e: Seq<NodeId>, prefix: Seq<NodeId>, current: NodeId)
    requires
        entry_from_chain(preds, src, e, prefix, current),
    ensures
        branch_at(e, prefix.len() as int) == current,
{
    let c = choose|c: Seq<NodeId>| #[trigger] is_pred_chain(preds, src, c) && c[0] == current && e == (prefix + c).reverse();
    assert((prefix + c).reverse().reverse() =~= prefix + c);
}

pub open spec fn listed_after(
    preds: Seq<Vec<NodeId>>,
    src: NodeId,
    current: NodeId,
    start: Seq<Vec<NodeId>>,
    finish: Seq<Vec<NodeId>>,
    prefix: Seq<NodeId>,
) -> bool {
    &&& extends_list(start, finish)
    &&& entries_from_chains(preds, src, finish, start.len() as int, prefix, current)
    &&& forall|c: Seq<NodeId>|
        #[trigger] is_pred_chain(preds, src, c) && c[0] == current ==> chain_listed(finish, start.len() as int, prefix, c)
}

/// `listed_after`, for the chains whose second node is one of the first
/// `j` predecessors of `current`.
pub open spec fn partly_listed(
    preds: Seq<Vec<NodeId>>,
    src: NodeId,
    current: NodeId,
    j: int,
    start: Seq<Vec<NodeId>>,
    finish: Seq<Vec<NodeId>>,
    prefix: Seq<NodeId>,
) -> bool {
    &&& extends_list(start, finish)
    &&& entries_from_chains(preds, src, finish, start.len() as int, prefix, current)
    &&& forall|c: Seq<NodeId>|
        #[trigger] is_pred_chain(preds, src, c) && c[0] == current && c.len() >= 2 && (exists|jj: int|
            0 <= jj < j && preds[current as int]@[jj] == c[1]) ==> chain_listed(finish, start.len() as int, prefix, c)
}

proof fn lemma_extends_list_trans(a: Seq<Vec<NodeId>>, b: Seq<Vec<NodeId>>, c: Seq<Vec<NodeId>>)
    requires
        extends_list(a, b),
        extends_list(b, c),
    ensures
        extends_list(a, c),
{
    assert forall|k: int| 0 <= k < a.len() implies #[trigger] c[k] == a[k] by {
        assert(b[k] == a[k]);
    }
}

proof fn lemma_listed_at_source(
    preds: Seq<Vec<NodeId>>,
    src: NodeId,
    start: Seq<Vec<NodeId>>,
    finish: Seq<Vec<NodeId>>,
    prefix: Seq<NodeId>,
)
    requires
        finish == start.push(finish.last()),
        finish.last()@ == prefix.push(src).reverse(),
    ensures
        listed_after(preds, src, src, start, finish, prefix),
{
    let c = seq![src];
    let from = start.len() as int;
    assert(is_pred_chain(preds, src, c));
    assert(prefix.push(src) =~= prefix + c);
    assert(finish[from]@ == (prefix + c).reverse());
    assert forall|k: int| from <= k < finish.len() implies #[trigger] entry_from_chain(preds, src, finish[k]@, prefix, src) by {
        assert(k == from);
        assert(is_pred_chain(preds, src, c));
    }
    assert forall|c2: Seq<NodeId>| #[trigger] is_pred_chain(preds, src, c2) && c2[0] == src implies chain_listed(
        finish, from, prefix, c2) by {
        if c2.len() > 1 {
            let z = 0int;
            assert(pred_step(preds, src, c2[z], c2[z + 1]));
        }
        assert(c2 =~= c);
        assert(finish[from]@ == (prefix + c2).reverse());
    }
    assert forall|k: int| 0 <= k < start.len() implies #[trigger] finish[k] == start[k] by {}
}

proof fn lemma_listed_step_entries(
    preds: Seq<Vec<NodeId>>,
    src: NodeId,
    current: NodeId,
    j: int,
    start: Seq<Vec<NodeId>>,
    before: Seq<Vec<NodeId>>,
    after: Seq<Vec<NodeId>>,
    prefix: Seq<NodeId>,
)
    requires
        current != src,
        0 <= j < preds[current as int]@.len(),
        extends_list(start, before),
        entries_from_chains(preds, src, before, start.len() as int, prefix, current),
        extends_list(before, after),
        entries_from_chains(preds, src, after, before.len() as int, prefix.push(current), preds[current as int]@[j]),
    ensures
        entries_from_chains(preds, src, after, start.len() as int, prefix, current),
{
    let p = preds[current as int]@[j];
    let mid = prefix.push(current);
    let from = start.len() as int;
    assert forall|k: int| from <= k < after.len() implies #[trigger] entry_from_chain(preds, src, after[k]@, prefix, current) by {
        if k < before.len() {
            assert(after[k] == before[k]);
            assert(entry_from_chain(preds, src, before[k]@, prefix, current));
        } else {
            assert(entry_from_chain(preds, src, after[k]@, mid, p));
            let c1 = choose|c1: Seq<NodeId>| #[trigger] is_pred_chain(preds, src, c1) && c1[0] == p && after[k]@ == (mid + c1).reverse();
            let c = seq![current] + c1;
            assert(mid + c1 =~= prefix + c);
            assert(preds[current as int]@[j] == p);
            lemma_chain_cons(preds, src, current, c1);
            assert(is_pred_chain(preds, src, c));
        }
    }
}

proof fn lemma_listed_step_chains(
    preds: Seq<Vec<NodeId>>,
    src: NodeId,
    current: NodeId,
    j: int,
    start: Seq<Vec<NodeId>>,
    before: Seq<Vec<NodeId>>,
    after: Seq<Vec<NodeId>>,
    prefix: Seq<NodeId>,
)
    requires
        current != src,
        0 <= j < preds[current as int]@.len(),
        start.len() <= before.len(),
        extends_list(before, after),
        forall|c: Seq<NodeId>|
            #[trigger] is_pred_chain(preds, src, c) && c[0] == current && c.len() >= 2 && (exists|jj: int|
                0 <= jj < j && preds[current as int]@[jj] == c[1]) ==> chain_listed(before, start.len() as int, prefix, c),
        forall|c: Seq<NodeId>|
            #[trigger] is_pred_chain(preds, src, c) && c[0] == preds[current as int]@[j] ==> chain_listed(
                after,
                before.len() as int,
                prefix.push(current),
                c,
            ),
    ensures
        forall|c: Seq<NodeId>|
            #[trigger] is_pred_chain(preds, src, c) && c[0] == current && c.len() >= 2 && (exists|jj: int|
                0 <= jj < j + 1 && preds[current as int]@[jj] == c[1]) ==> chain_listed(after, start.len() as int, prefix, c),
{
    let mid = prefix.push(current);
    let from = start.len() as int;
    assert forall|c: Seq<NodeId>|
        #[trigger] is_pred_chain(preds, src, c) && c[0] == current && c.len() >= 2 && (exists|jj: int|
            0 <= jj < j + 1 && preds[current as int]@[jj] == c[1]) implies chain_listed(after, from, prefix, c) by {
        let jj = choose|jj: int| 0 <= jj < j + 1 && preds[current as int]@[jj] == c[1];
        if jj < j {
            lemma_chain_listed_extends(before, after, from, prefix, c);
        } else {
            let c1 = c.drop_first();
            lemma_chain_tail(preds, src, c);
            assert(chain_listed(after, before.len() as int, mid, c1));
            assert(mid + c1 =~= prefix + c);
            let k = choose|k: int| before.len() <= k < after.len() && #[trigger] after[k]@ == (mid + c1).reverse();
            assert(after[k]@ == (prefix + c).reverse());
        }
    }
}

proof fn lemma_listed_step(
    preds: Seq<Vec<NodeId>>,
    src: NodeId,
    current: NodeId,
    j: int,
    start: Seq<Vec<NodeId>>,
    before: Seq<Vec<NodeId>>,
    after: Seq<Vec<NodeId>>,
    prefix: Seq<NodeId>,
)
    requires
        current != src,
        0 <= j < preds[current as int]@.len(),
        partly_listed(preds, src, current, j, start, before, prefix),
        listed_after(preds, src, preds[current as int]@[j], before, after, prefix.push(current)),
    ensures
        partly_listed(preds, src, current, j + 1, start, after, prefix),
{
    lemma_extends_list_trans(start, before, after);
    lemma_listed_step_entries(preds, src, current, j, start, before, after, prefix);
    lemma_listed_step_chains(preds, src, current, j, start, before, after, prefix);
}

proof fn lemma_listed_done(
    preds: Seq<Vec<NodeId>>,
    src: NodeId,
    current: NodeId,
    start: Seq<Vec<NodeId>>,
    finish: Seq<Vec<NodeId>>,
    prefix: Seq<NodeId>,
)
    requires
        current != src,
        partly_listed(preds, src, current, preds[current as int]@.len() as int, start, finish, prefix),
    ensures
        listed_after(preds, src, current, start, finish, prefix),
{
    assert forall|c: Seq<NodeId>| #[trigger] is_pred_chain(preds, src, c) && c[0] == current implies chain_listed(
        finish, start.len() as int, prefix, c) by {
        assert(c.len() >= 2);
        lemma_chain_tail(preds, src, c);
        let jj = choose|jj: int| 0 <= jj < preds[current as int]@.len() && preds[current as int]@[jj] == c[1];
    }
}

fn reversed(v: &Vec<NodeId>) -> (res: Vec<NodeId>)
    ensures
        res@ == v@.reverse(),
{
    let mut res: Vec<NodeId> = Vec::new();
    let n = v.len();
    for i in 0..n
        invariant
            n == v@.len(),
            res@.len() == i,
            forall|k: int| 0 <= k < i ==> #[trigger] res@[k] == v@[n - 1 - k],
    {
        res.push(v[n - 1 - i]);
    }
    assert(res@ =~= v@.reverse());
    res
}

/// `finish` starts with the entries of `start`.
pub open spec fn extends_list(start: Seq<Vec<NodeId>>, finish: Seq<Vec<NodeId>>) -> bool {
    start.len() <= finish.len() && forall|k: int| 0 <= k < start.len() ==> #[trigger] finish[k] == start[k]
}

/// `e` is `prefix` followed by a predecessor chain from `current`, reversed.
pub open spec fn entry_from_chain(preds: Seq<Vec<NodeId>>, src: NodeId, e: Seq<NodeId>, prefix: Seq<NodeId>, current: NodeId) -> bool {
    exists|c: Seq<NodeId>| #[trigger] is_pred_chain(preds, src, c) && c[0] == current && e == (prefix + c).reverse()
}

/// Every entry of `paths` from index `from` on is `prefix` followed by a
/// predecessor chain from `current`, reversed.
pub open spec fn entries_from_chains(
    preds: Seq<Vec<NodeId>>,
    src: NodeId,
    paths: Seq<Vec<NodeId>>,
    from: int,
    prefix: Seq<NodeId>,
    current: NodeId,
) -> bool {
    forall|k: int| from <= k < paths.len() ==> #[trigger] entry_from_chain(preds, src, paths[k]@, prefix, current)
}

/// The chain `c`, prefixed, appears reversed among the entries of `paths`
/// from index `from` on.
pub open spec fn chain_listed(paths: Seq<Vec<NodeId>>, from: int, prefix: Seq<NodeId>, c: Seq<NodeId>) -> bool {
    exists|k: int| from <= k < paths.len() && #[trigger] paths[k]@ == (prefix + c).reverse()
}

proof fn lemma_chain_listed_extends(start: Seq<Vec<NodeId>>, finish: Seq<Vec<NodeId>>, from: int, prefix: Seq<NodeId>, c: Seq<NodeId>)
    requires
        0 <= from,
        chain_listed(start, from, prefix, c),
        extends_list(start, finish),
    ensures
        chain_listed(finish, from, prefix, c),
{
    let k = choose|k: int| from <= k < start.len() && #[trigger] start[k]@ == (prefix + c).reverse();
    assert(finish[k] == start[k]);
}


/// Follows the predecessors from `dst` back to `src`.
fn trace_back(
    pred: &Vec<NodeId>,
    src: NodeId,
    dst: NodeId,
    Ghost(g): Ghost<Map<NodeId, NodeView>>,
    Ghost(dist): Ghost<Seq<int>>,
    Ghost(visited): Ghost<Seq<bool>>,
) -> (path: Vec<NodeId>)
    requires
        visited.len() == 256,
        pred@.len() == 256,
        dist.len() == 256,
        visited[dst as int],
        dist[src as int] == 0,
        forall|v: int| 0 <= v < 256 ==> #[trigger] dist[v] >= 0,
        forall|v: NodeId|
            #[trigger] visited[v as int] && v != src ==> visited[pred@[v as int] as int] && linked(g, pred@[v as int], v)
                && dist[v as int] == dist[pred@[v as int] as int] + 1,
    ensures
        is_route_between(g, path@, src, dst),
        path@.len() == dist[dst as int] + 1,
        pred_walk(pred@, src, dst, path@),
{
    let mut path: Vec<NodeId> = Vec::new();
    path.push(dst);
    let mut node = dst;
    while node != src
        invariant
            visited.len() == 256,
            pred@.len() == 256,
            dist.len() == 256,
            visited[node as int],
            dist[src as int] == 0,
            forall|v: int| 0 <= v < 256 ==> #[trigger] dist[v] >= 0,
            forall|v: NodeId|
                #[trigger] visited[v as int] && v != src ==> visited[pred@[v as int] as int] && linked(g, pred@[v as int], v)
                    && dist[v as int] == dist[pred@[v as int] as int] + 1,
            is_route(g, path@),
            path@[0] == node,
            path@.last() == dst,
            path@.len() == dist[dst as int] - dist[node as int] + 1,
            forall|i: int| 0 < i < path@.len() ==> #[trigger] path@[i] != src && pred@[path@[i] as int] == path@[i - 1],
        decreases dist[node as int],
    {
        let p = pred[node as usize];
        let ghost old_path = path@;
        assert(is_route(g, old_path));
        path.insert(0, p);
        assert(path@ =~= seq![p] + old_path);
        assert forall|i: int| 0 <= i < path@.len() - 1 implies #[trigger] linked(g, path@[i], path@[i + 1]) by {
            if i > 0 {
                let j = i - 1;
                assert(linked(g, old_path[j], old_path[j + 1]));
                assert(path@[i] == old_path[j] && path@[i + 1] == old_path[j + 1]);
            }
        }
        assert forall|i: int| 0 < i < path@.len() implies #[trigger] path@[i] != src && pred@[path@[i] as int] == path@[i
            - 1] by {
            if i > 1 {
                assert(path@[i] == old_path[i - 1] && path@[i - 1] == old_path[i - 2]);
            }
        }
        node = p;
    }
    path
}


/// The facts about predecessor lists that `bfs_layers` establishes and the
/// final proofs use: every recorded predecessor links to its node and is one
/// step closer to the source.
pub open spec fn preds_sound(g: Map<NodeId, NodeView>, preds: Seq<Vec<NodeId>>, dist: Seq<usize>) -> bool {
    &&& preds.len() == 256
    &&& dist.len() == 256
    &&& forall|v: int, j: int|
        #![trigger preds[v]@[j]]
        0 <= v < 256 && 0 <= j < preds[v]@.len() ==> linked(g, preds[v]@[j], v as NodeId) && dist[preds[v]@[j] as int] + 1
            == dist[v]
}

proof fn lemma_chain_is_route(
    g: Map<NodeId, NodeView>,
    preds: Seq<Vec<NodeId>>,
    dist: Seq<usize>,
    src: NodeId,
    c: Seq<NodeId>,
)
    requires
        preds_sound(g, preds, dist),
        dist[src as int] == 0,
        is_pred_chain(preds, src, c),
    ensures
        is_route_between(g, c.reverse(), src, c[0]),
        c.len() == dist[c[0] as int] + 1,
    decreases c.len(),
{
    if c.len() == 1 {
        assert(c.reverse() =~= seq![src]);
    } else {
        lemma_chain_tail(preds, src, c);
        let c1 = c.drop_first();
        lemma_chain_is_route(g, preds, dist, src, c1);
        let v = c[0] as int;
        let j = choose|j: int| 0 <= j < preds[v]@.len() && preds[v]@[j] == c[1];
        assert(linked(g, preds[v]@[j], v as NodeId) && dist[preds[v]@[j] as int] + 1 == dist[v]);
        let r1 = c1.reverse();
        assert(c.reverse() =~= r1.push(c[0]));
        assert forall|t: int| 0 <= t < c.reverse().len() - 1 implies #[trigger] linked(g, c.reverse()[t], c.reverse()[t + 1]) by {
            if t < r1.len() - 1 {
                assert(linked(g, r1[t], r1[t + 1]));
            } else {
                assert(c.reverse()[t] == c[1]);
            }
        }
    }
}

proof fn lemma_route_all_reached(g: Map<NodeId, NodeView>, visited: Seq<bool>, p: Seq<NodeId>, i: int)
    requires
        visited.len() == 256,
        is_route(g, p),
        visited[p[0] as int],
        forall|u: NodeId, w: NodeId| #[trigger] visited[u as int] && #[trigger] linked(g, u, w) ==> visited[w as int],
        0 <= i < p.len(),
    ensures
        visited[p[i] as int],
    decreases i,
{
    if i > 0 {
        lemma_route_all_reached(g, visited, p, i - 1);
        let m = i - 1;
        assert(linked(g, p[m], p[m + 1]));
    }
}

/// No node lists the same neighbour identifier twice.
pub open spec fn distinct_link_ids(g: Map<NodeId, NodeView>) -> bool {
    forall|u: NodeId, a: int, b: int|
        g.contains_key(u) && 0 <= a < b < g[u].2.len() ==> #[trigger] g[u].2[a].0 != #[trigger] g[u].2[b].0
}

/// No predecessor list holds a node twice.
pub open spec fn preds_distinct(preds: Seq<Vec<NodeId>>) -> bool {
    forall|w: int| 0 <= w < preds.len() ==> #[trigger] preds[w]@.no_duplicates()
}

/// Every recorded predecessor is one of the first `n` queued nodes, or
/// `current` recorded for one of its first `i` links.
spec fn preds_recorded_by(
    g: Map<NodeId, NodeView>,
    preds: Seq<Vec<NodeId>>,
    queue: Seq<NodeId>,
    n: int,
    current: NodeId,
    i: int,
) -> bool {
    forall|w: int, j: int|
        #![trigger preds[w]@[j]]
        0 <= w < preds.len() && 0 <= j < preds[w]@.len() ==> (exists|k: int| 0 <= k < n && queue[k] == preds[w]@[j])
            || (preds[w]@[j] == current && exists|m: int| 0 <= m < i && g[current].2[m].0 == w)
}

proof fn lemma_preds_recorded_done(
    g: Map<NodeId, NodeView>,
    preds: Seq<Vec<NodeId>>,
    queue: Seq<NodeId>,
    head: int,
    current: NodeId,
    i: int,
)
    requires
        1 <= head <= queue.len(),
        queue[head - 1] == current,
        preds_recorded_by(g, preds, queue, head - 1, current, i),
    ensures
        preds_recorded_by(g, preds, queue, head, current, 0),
{
    assert forall|w: int, j: int|
        #![trigger preds[w]@[j]]
        0 <= w < preds.len() && 0 <= j < preds[w]@.len() implies (exists|k: int| 0 <= k < head && queue[k] == preds[w]@[j])
            || (preds[w]@[j] == current && exists|m: int| 0 <= m < 0 && g[current].2[m].0 == w) by {
        if exists|k: int| 0 <= k < head - 1 && queue[k] == preds[w]@[j] {
            let k = choose|k: int| 0 <= k < head - 1 && queue[k] == preds[w]@[j];
            assert(queue[k] == preds[w]@[j]);
        } else {
            assert(queue[head - 1] == preds[w]@[j]);
        }
    }
}

proof fn lemma_preds_recorded_restart(
    g: Map<NodeId, NodeView>,
    preds: Seq<Vec<NodeId>>,
    queue: Seq<NodeId>,
    n: int,
    a: NodeId,
    b: NodeId,
)
    requires
        preds_recorded_by(g, preds, queue, n, a, 0),
    ensures
        preds_recorded_by(g, preds, queue, n, b, 0),
{
    assert forall|w: int, j: int|
        #![trigger preds[w]@[j]]
        0 <= w < preds.len() && 0 <= j < preds[w]@.len() implies (exists|k: int| 0 <= k < n && queue[k] == preds[w]@[j])
            || (preds[w]@[j] == b && exists|m: int| 0 <= m < 0 && g[b].2[m].0 == w) by {
        let x = preds[w]@[j];
        assert(0 <= w < preds.len() && 0 <= j < preds[w]@.len());
        assert((exists|k: int| 0 <= k < n && queue[k] == x) || (x == a && exists|m: int|
            0 <= m < 0 && g[a].2[m].0 == w));
    }
}

/// The state of a breadth-first search: reached marks and predecessors,
/// indexed by identifier, and the queue of reached nodes.
pub type BfsState = (Seq<bool>, Seq<NodeId>, Seq<NodeId>);

/// The links of `u` in `g`, none when `u` is unknown.
pub open spec fn links_of(g: Map<NodeId, NodeView>, u: NodeId) -> Seq<Adjacent> {
    if g.contains_key(u) {
        g[u].2
    } else {
        Seq::empty()
    }
}

/// Serves links `i..` of node `current`, in order: each neighbour not yet
/// reached is marked, gets `current` as predecessor and joins the queue.
pub open spec fn scan_links(adj: Seq<Adjacent>, i: int, current: NodeId, st: BfsState) -> BfsState
    decreases adj.len() - i,
{
    if i >= adj.len() {
        st
    } else {
        let n = adj[i].0;
        let next: BfsState = if st.0[n as int] {
            st
        } else {
            (st.0.update(n as int, true), st.1.update(n as int, current), st.2.push(n))
        };
        scan_links(adj, i + 1, current, next)
    }
}

/// Serving links keeps 256 marks, never shortens the queue, and marks one
/// node for every node it queues.
pub proof fn lemma_scan_links(adj: Seq<Adjacent>, i: int, current: NodeId, st: BfsState)
    requires
        st.0.len() == 256,
    ensures
        scan_links(adj, i, current, st).0.len() == 256,
        scan_links(adj, i, current, st).2.len() >= st.2.len(),
        2 * unvisited_count(scan_links(adj, i, current, st).0) + scan_links(adj, i, current, st).2.len() <= 2
            * unvisited_count(st.0) + st.2.len(),
    decreases adj.len() - i,
{
    if i < adj.len() {
        let n = adj[i].0;
        let next: BfsState = if st.0[n as int] {
            st
        } else {
            (st.0.update(n as int, true), st.1.update(n as int, current), st.2.push(n))
        };
        if !st.0[n as int] {
            lemma_unvisited_update(st.0, n as int);
        }
        lemma_scan_links(adj, i + 1, current, next);
    }
}

/// Breadth-first search for `dst` from the queue position `head` on: the
/// predecessors recorded when `dst` is taken from the queue, or `None`
/// when the queue runs out first.
pub open spec fn bfs_preds(g: Map<NodeId, NodeView>, dst: NodeId, st: BfsState, head: int) -> Option<Seq<NodeId>>
    decreases 2 * unvisited_count(st.0) + st.2.len() - head,
    when st.0.len() == 256 && 0 <= head <= st.2.len()
{
    if head >= st.2.len() {
        None
    } else {
        let current = st.2[head];
        if current == dst {
            Some(st.1)
        } else {
            let next = scan_links(links_of(g, current), 0, current, st);
            proof {
                lemma_scan_links(links_of(g, current), 0, current, st);
            }
            bfs_preds(g, dst, next, head + 1)
        }
    }
}

/// The search state at the start: only `src` reached, and queued.
pub open spec fn bfs_start(src: NodeId) -> BfsState {
    (Seq::new(256, |i: int| i == src), Seq::new(256, |i: int| 0u8), seq![src])
}

/// `p` walks the predecessors back from `dst` to the first `src` met.
pub open spec fn pred_walk(pred: Seq<NodeId>, src: NodeId, dst: NodeId, p: Seq<NodeId>) -> bool {
    &&& p.len() >= 1
    &&& p[0] == src
    &&& p.last() == dst
    &&& forall|i: int| 0 < i < p.len() ==> #[trigger] p[i] != src && pred[p[i] as int] == p[i - 1]
}

proof fn lemma_pred_walk_unique(pred: Seq<NodeId>, src: NodeId, dst: NodeId, p: Seq<NodeId>, q: Seq<NodeId>)
    requires
        pred_walk(pred, src, dst, p),
        pred_walk(pred, src, dst, q),
    ensures
        p == q,
    decreases p.len(),
{
    if p.len() == 1 {
        if q.len() > 1 {
            assert(q[q.len() - 1] != src);
        }
        assert(p =~= q);
    } else {
        assert(p[p.len() - 1] != src);
        if q.len() == 1 {
            assert(false);
        }
        let d = pred[dst as int];
        assert(p[p.len() - 2] == d);
        assert(q[q.len() - 2] == d);
        let p1 = p.drop_last();
        let q1 = q.drop_last();
        assert forall|i: int| 0 < i < p1.len() implies #[trigger] p1[i] != src && pred[p1[i] as int] == p1[i - 1] by {
            assert(p[i] != src && pred[p[i] as int] == p[i - 1]);
        }
        assert forall|i: int| 0 < i < q1.len() implies #[trigger] q1[i] != src && pred[q1[i] as int] == q1[i - 1] by {
            assert(q[i] != src && pred[q[i] as int] == q[i - 1]);
        }
        lemma_pred_walk_unique(pred, src, d, p1, q1);
        assert(p =~= p1.push(dst));
        assert(q =~= q1.push(dst));
    }
}

/// The route the breadth-first search of `shortest_path` finds: it serves
/// the queue in order, each node's links in the order learnt, and walks the
/// predecessors back from `dst`.
pub open spec fn bfs_route(g: Map<NodeId, NodeView>, src: NodeId, dst: NodeId) -> Option<Seq<NodeId>> {
    match bfs_preds(g, dst, bfs_start(src), 0) {
        Some(pred) => Some(choose|p: Seq<NodeId>| pred_walk(pred, src, dst, p)),
        None => None,
    }
}

impl Topology {
    pub fn new() -> (res: Self)
        ensures
            res@ == Map::<NodeId, NodeView>::empty(),
    {
        let res = Self { nodes: HashMap::new() };
        assert(res@ =~= Map::<NodeId, NodeView>::empty());
        res
    }

    /// The node with the given identifier, if known.
    pub fn get_node(&self, id: NodeId) -> (res: Option<&Node>)
        ensures
            res is Some <==> self@.contains_key(id),
            res matches Some(n) ==> n@ == self@[id],
    {
        self.nodes.get(&id)
    }

    /// Learns the links along the path a flood travelled from `initiator`:
    /// every hop learns of its neighbours on the path.
    pub fn update_topology(&mut self, initiator: Adjacent, path_trace: Vec<Adjacent>)
        ensures
            final(self)@ == record_path(
                old(self)@,
                trace_with_initiator(initiator, path_trace@),
                trace_with_initiator(initiator, path_trace@).len(),
            ),
    {
        let ghost g0 = self@;
        let path = if contains_adjacent(&path_trace, initiator) {
            path_trace
        } else {
            let mut p: Vec<Adjacent> = Vec::new();
            p.push(initiator);
            let mut rest = path_trace;
            p.append(&mut rest);
            p
        };
        let ghost full = trace_with_initiator(initiator, path_trace@);
        assert(path@ =~= full);
        let len = path.len() - 1;
        for value in 0..len + 1
            invariant
                path@ == full,
                len == path@.len() - 1,
                self@ == record_path(g0, full, value as nat),
        {
            let id = path[value].0;
            let mut node = match self.nodes.remove(&id) {
                Some(n) => n,
                None => Node::new(id, path[value].1),
            };
            if value != len {
                node.add_adjacents(path[value + 1].0, path[value + 1].1);
            }
            if value != 0 {
                node.add_adjacents(path[value - 1].0, path[value - 1].1);
            }
            self.nodes.insert(id, node);
            assert(self@ =~= record_hop(record_path(g0, full, value as nat), full, value as int));
        }
    }

    /// Breadth-first search from `src` over the whole reachable part:
    /// marks reached nodes and records, for every node, the neighbours one
    /// step closer to `src` that link to it, in the order they were met.
    fn bfs_layers(&self, src: NodeId) -> (res: (Vec<bool>, Vec<Vec<NodeId>>, Vec<usize>, Ghost<Seq<Seq<NodeId>>>))
        ensures
            ({
                let (visited, preds, dist, routes) = res;
                let (visited, routes) = (visited@, routes@);
                let g = self@;
                &&& visited.len() == 256
                &&& preds@.len() == 256
                &&& dist@.len() == 256
                &&& routes.len() == 256
                &&& visited[src as int]
                &&& dist@[src as int] == 0
                &&& forall|v: NodeId|
                    #[trigger] visited[v as int] ==> is_route_between(g, routes[v as int], src, v)
                        && routes[v as int].len() == dist@[v as int] + 1
                &&& forall|v: NodeId, p: Seq<NodeId>|
                    #[trigger] visited[v as int] && #[trigger] is_route_between(g, p, src, v) ==> dist@[v as int] <= p.len() - 1
                &&& forall|u: NodeId, w: NodeId| #[trigger] visited[u as int] && #[trigger] linked(g, u, w) ==> visited[w as int]
                &&& forall|v: int, j: int|
                    #![trigger preds@[v]@[j]]
                    0 <= v < 256 && 0 <= j < preds@[v]@.len() ==> visited[preds@[v]@[j] as int]
                        && linked(g, preds@[v]@[j], v as NodeId) && dist@[preds@[v]@[j] as int] + 1 == dist@[v]
                &&& forall|u: NodeId, w: NodeId|
                    #[trigger] visited[u as int] && #[trigger] linked(g, u, w) && dist@[w as int] == dist@[u as int] + 1
                        ==> preds@[w as int]@.contains(u)
                &&& distinct_link_ids(g) ==> preds_distinct(preds@)
            }),
    {
        let ghost g = self@;
        let mut visited: Vec<bool> = vec![false; 256];
        let mut preds: Vec<Vec<NodeId>> = Vec::new();
        for v in 0..256usize
            invariant
                preds@.len() == v,
                forall|k: int| 0 <= k < v ==> #[trigger] preds@[k]@.len() == 0,
        {
            preds.push(Vec::new());
        }
        let mut dist: Vec<usize> = vec![0; 256];
        let ghost mut routes: Seq<Seq<NodeId>> = Seq::new(256, |i: int| seq![src]);
        let mut queue: Vec<NodeId> = Vec::new();
        let mut head: usize = 0;
        visited.set(src as usize, true);
        queue.push(src);
        proof {
            assert forall|v: int| 0 <= v < 256 && #[trigger] visited@[v] implies exists|k: int| 0 <= k < queue@.len() && queue@[k] == v by {
                assert(v == src);
                assert(queue@[0] == src);
            }
            assert(is_route_between(g, routes[src as int], src, src));
        }
        while head < queue.len()
            invariant
                g == self@,
                visited@.len() == 256,
                preds@.len() == 256,
                dist@.len() == 256,
                routes.len() == 256,
                head <= queue@.len(),
                visited@[src as int],
                dist@[src as int] == 0,
                forall|k: int| 0 <= k < queue@.len() ==> #[trigger] dist@[queue@[k] as int] <= k,
                forall|k: int| 0 <= k < queue@.len() ==> #[trigger] visited@[queue@[k] as int],
                forall|v: int|
                    0 <= v < 256 && #[trigger] visited@[v] ==> exists|k: int| 0 <= k < queue@.len() && queue@[k] == v,
                forall|k1: int, k2: int|
                    0 <= k1 <= k2 < queue@.len() ==> #[trigger] dist@[queue@[k1] as int] <= #[trigger] dist@[queue@[k2] as int],
                head < queue@.len() ==> forall|k: int|
                    0 <= k < queue@.len() ==> #[trigger] dist@[queue@[k] as int] <= dist@[queue@[head as int] as int] + 1,
                forall|v: NodeId|
                    #[trigger] visited@[v as int] ==> is_route_between(g, routes[v as int], src, v)
                        && routes[v as int].len() == dist@[v as int] + 1,
                forall|v: NodeId, p: Seq<NodeId>|
                    #[trigger] visited@[v as int] && #[trigger] is_route_between(g, p, src, v) ==> dist@[v as int] <= p.len() - 1,
                forall|k: int, w: NodeId|
                    0 <= k < head && #[trigger] linked(g, queue@[k], w) ==> #[trigger] visited@[w as int],
                forall|v: int, j: int|
                    #![trigger preds@[v]@[j]]
                    0 <= v < 256 && 0 <= j < preds@[v]@.len() ==> visited@[preds@[v]@[j] as int]
                        && linked(g, preds@[v]@[j], v as NodeId) && dist@[preds@[v]@[j] as int] + 1 == dist@[v],
                forall|k: int, w: NodeId|
                    0 <= k < head && #[trigger] linked(g, queue@[k], w) && dist@[w as int] == dist@[queue@[k] as int] + 1
                        ==> preds@[w as int]@.contains(queue@[k]),
                forall|v: int| 0 <= v < 256 && !visited@[v] ==> #[trigger] preds@[v]@.len() == 0,
                queue@.no_duplicates(),
                preds_recorded_by(g, preds@, queue@, head as int, src, 0),
                distinct_link_ids(g) ==> preds_distinct(preds@),
            decreases 2 * unvisited_count(visited@) + queue@.len() - head,
        {
            let current = queue[head];
            head = head + 1;
            proof {
                lemma_preds_recorded_restart(g, preds@, queue@, head - 1, src, current);
            }
            let d = dist[current as usize];
            let ghost uc0 = unvisited_count(visited@);
            let ghost ql0 = queue@.len();
            match self.nodes.get(&current) {
                Some(node) => {
                    let n = node.adjacents.len();
                    assert(node@ == g[current]);
                    for i in 0..n
                        invariant
                            g == self@,
                            node@ == g[current],
                            g.contains_key(current),
                            n == g[current].2.len(),
                            current == queue@[head - 1],
                            d == dist@[current as int],
                            1 <= head <= queue@.len(),
                            visited@.len() == 256,
                            preds@.len() == 256,
                            dist@.len() == 256,
                            routes.len() == 256,
                            visited@[src as int],
                            dist@[src as int] == 0,
                            forall|k: int| 0 <= k < queue@.len() ==> #[trigger] dist@[queue@[k] as int] <= k,
                            forall|k: int| 0 <= k < queue@.len() ==> #[trigger] visited@[queue@[k] as int],
                            forall|v: int|
                                0 <= v < 256 && #[trigger] visited@[v] ==> exists|k: int| 0 <= k < queue@.len() && queue@[k] == v,
                            forall|k1: int, k2: int|
                                0 <= k1 <= k2 < queue@.len() ==> #[trigger] dist@[queue@[k1] as int] <= #[trigger] dist@[queue@[k2] as int],
                            forall|k: int| 0 <= k < queue@.len() ==> #[trigger] dist@[queue@[k] as int] <= d + 1,
                            forall|v: NodeId|
                                #[trigger] visited@[v as int] ==> is_route_between(g, routes[v as int], src, v)
                                    && routes[v as int].len() == dist@[v as int] + 1,
                            forall|v: NodeId, p: Seq<NodeId>|
                                #[trigger] visited@[v as int] && #[trigger] is_route_between(g, p, src, v) ==> dist@[v as int] <= p.len() - 1,
                            forall|k: int, w: NodeId|
                                0 <= k < head - 1 && #[trigger] linked(g, queue@[k], w) ==> #[trigger] visited@[w as int],
                            forall|v: int, j: int|
                                #![trigger preds@[v]@[j]]
                                0 <= v < 256 && 0 <= j < preds@[v]@.len() ==> visited@[preds@[v]@[j] as int]
                                    && linked(g, preds@[v]@[j], v as NodeId) && dist@[preds@[v]@[j] as int] + 1 == dist@[v],
                            forall|k: int, w: NodeId|
                                0 <= k < head - 1 && #[trigger] linked(g, queue@[k], w) && dist@[w as int] == dist@[queue@[k] as int] + 1
                                    ==> preds@[w as int]@.contains(queue@[k]),
                            forall|j: int| 0 <= j < i ==> #[trigger] visited@[g[current].2[j].0 as int],
                            forall|j: int|
                                0 <= j < i && dist@[g[current].2[j].0 as int] == d + 1 ==> preds@[#[trigger] g[current].2[j].0 as int]@.contains(current),
                            2 * unvisited_count(visited@) + queue@.len() <= 2 * uc0 + ql0,
                            forall|v: int| 0 <= v < 256 && !visited@[v] ==> #[trigger] preds@[v]@.len() == 0,
                            queue@.no_duplicates(),
                            preds_recorded_by(g, preds@, queue@, head - 1, current, i as int),
                            distinct_link_ids(g) ==> preds_distinct(preds@),
                    {
                        let neighbor = node.adjacents[i].0;
                        let ghost old_preds = preds@;
                        let ghost old_q = queue@;
                        proof {
                            assert(visited@[queue@[head - 1] as int]);
                            assert(linked(g, current, neighbor)) by {
                                assert(g[current].2[i as int].0 == neighbor);
                            }
                        }
                        if !visited[neighbor as usize] {
                            proof {
                                assert forall|p: Seq<NodeId>| #[trigger] is_route_between(g, p, src, neighbor) implies d + 1 <= p.len() - 1 by {
                                    let j = lemma_exit_point(p, visited@);
                                    let x = p[j];
                                    let k = choose|k: int| 0 <= k < queue@.len() && queue@[k] == x;
                                    lemma_route_prefix(g, p, j);
                                    assert(is_route_between(g, p.take(j + 1), src, x));
                                    assert(linked(g, p[j], p[j + 1]));
                                    if k < head - 1 {
                                        assert(visited@[p[j + 1] as int]);
                                    }
                                    assert(dist@[queue@[head - 1] as int] <= dist@[queue@[k] as int]);
                                }
                                lemma_unvisited_update(visited@, neighbor as int);
                                let r = routes[current as int];
                                assert(is_route_between(g, r, src, current));
                                assert forall|t: int| 0 <= t < r.push(neighbor).len() - 1 implies #[trigger] linked(g, r.push(neighbor)[t], r.push(neighbor)[t + 1]) by {
                                    if t < r.len() - 1 {
                                        assert(linked(g, r[t], r[t + 1]));
                                    }
                                }
                                routes = routes.update(neighbor as int, r.push(neighbor));
                            }
                            visited.set(neighbor as usize, true);
                            dist.set(neighbor as usize, d + 1);
                            let ghost old_queue = queue@;
                            queue.push(neighbor);
                            proof {
                                assert(queue@[queue@.len() - 1] == neighbor);
                                assert forall|a: int, b: int| 0 <= a < b < queue@.len() implies queue@[a] != queue@[b] by {
                                    if b == queue@.len() - 1 {
                                        assert(visited@[old_queue[a] as int] || old_queue[a] != neighbor);
                                        assert(old_queue[a] == queue@[a]);
                                    } else {
                                        assert(old_queue[a] == queue@[a] && old_queue[b] == queue@[b]);
                                    }
                                }
                                assert forall|v: int| 0 <= v < 256 && #[trigger] visited@[v] implies exists|k: int|
                                    0 <= k < queue@.len() && queue@[k] == v by {
                                    if v != neighbor {
                                        let k = choose|k: int| 0 <= k < old_queue.len() && old_queue[k] == v;
                                        assert(queue@[k] == v);
                                    }
                                }
                            }
                        }
                        let ghost mid_preds = preds@;
                        proof {
                            assert(preds@ == old_preds);
                            assert forall|k: int| 0 <= k < head - 1 implies #[trigger] queue@[k] == old_q[k] by {}
                        }
                        if dist[neighbor as usize] == d + 1 {
                            push_pred(&mut preds, neighbor as usize, current);
                            proof {
                                assert(preds@[neighbor as int]@[preds@[neighbor as int]@.len() - 1] == current);
                                if distinct_link_ids(g) {
                                    assert(!old_preds[neighbor as int]@.contains(current)) by {
                                        if old_preds[neighbor as int]@.contains(current) {
                                            let j = choose|j: int|
                                                0 <= j < old_preds[neighbor as int]@.len() && old_preds[neighbor as int]@[j] == current;
                                            assert(old_preds[neighbor as int]@[j] == current);
                                            if exists|k: int| 0 <= k < head - 1 && old_q[k] == current {
                                                let k = choose|k: int| 0 <= k < head - 1 && old_q[k] == current;
                                                assert(old_q[k] == old_q[head - 1]);
                                            } else {
                                                let m = choose|m: int| 0 <= m < i && g[current].2[m].0 == neighbor;
                                                assert(g[current].2[m].0 == g[current].2[i as int].0);
                                            }
                                        }
                                    }
                                    assert forall|w: int| 0 <= w < preds@.len() implies #[trigger] preds@[w]@.no_duplicates() by {
                                        if w == neighbor {
                                            assert(old_preds[w]@.no_duplicates());
                                            assert(preds@[w]@ == old_preds[w]@.push(current));
                                            assert forall|a: int, b: int| 0 <= a < b < preds@[w]@.len() implies preds@[w]@[a]
                                                != preds@[w]@[b] by {
                                                if b == preds@[w]@.len() - 1 {
                                                    assert(old_preds[w]@[a] == preds@[w]@[a]);
                                                    assert(old_preds[w]@.contains(preds@[w]@[a]));
                                                } else {
                                                    assert(old_preds[w]@[a] == preds@[w]@[a] && old_preds[w]@[b] == preds@[w]@[b]);
                                                }
                                            }
                                        } else {
                                            assert(preds@[w] == old_preds[w]);
                                        }
                                    }
                                }
                            }
                        }
                        proof {
                            assert forall|w: int, j: int|
                                #![trigger preds@[w]@[j]]
                                0 <= w < preds@.len() && 0 <= j < preds@[w]@.len() implies (exists|k: int|
                                    0 <= k < head - 1 && queue@[k] == preds@[w]@[j]) || (preds@[w]@[j] == current
                                    && exists|m: int| 0 <= m < i + 1 && g[current].2[m].0 == w) by {
                                if j < old_preds[w]@.len() {
                                    assert(preds@[w]@[j] == old_preds[w]@[j]);
                                    if exists|k: int| 0 <= k < head - 1 && old_q[k] == old_preds[w]@[j] {
                                        let k = choose|k: int| 0 <= k < head - 1 && old_q[k] == old_preds[w]@[j];
                                        assert(queue@[k] == preds@[w]@[j]);
                                    } else {
                                        let m = choose|m: int| 0 <= m < i && g[current].2[m].0 == w;
                                        assert(g[current].2[m].0 == w);
                                    }
                                } else {
                                    assert(preds@[w]@[j] == current && w == neighbor);
                                    assert(g[current].2[i as int].0 == w);
                                }
                            }
                        }
                        assert(preds_recorded_by(g, preds@, queue@, head - 1, current, i + 1));
                        proof {
                            assert forall|w: int, x: NodeId|
                                0 <= w < 256 && #[trigger] old_preds[w]@.contains(x) implies preds@[w]@.contains(x) by {
                                let j = choose|j: int| 0 <= j < old_preds[w]@.len() && old_preds[w]@[j] == x;
                                assert(preds@[w]@[j] == x);
                            }
                        }
                        assert(visited@[g[current].2[i as int].0 as int]);
                    }
                    proof {
                        assert forall|k: int, w: NodeId|
                            0 <= k < head && #[trigger] linked(g, queue@[k], w) implies #[trigger] visited@[w as int] by {
                            if k == head - 1 {
                                let j = choose|j: int| 0 <= j < g[current].2.len() && #[trigger] g[current].2[j].0 == w;
                            }
                        }
                        lemma_preds_recorded_done(g, preds@, queue@, head as int, current, n as int);
                    }
                },
                None => {
                    proof {
                        lemma_preds_recorded_done(g, preds@, queue@, head as int, current, 0);
                    }
                },
            }
        }
        (visited, preds, dist, Ghost(routes))
    }

    /// Lists, depth first, every route back from `current` to `src` that
    /// follows recorded predecessors, each reversed and prefixed by `path`.
    fn reconstruct_paths(
        &self,
        predecessors: &Vec<Vec<NodeId>>,
        paths: &mut Vec<Vec<NodeId>>,
        path: &mut Vec<NodeId>,
        src: NodeId,
        current: NodeId,
        Ghost(dist): Ghost<Seq<usize>>,
    )
        requires
            predecessors@.len() == 256,
            dist.len() == 256,
            forall|v: int, j: int|
                #![trigger predecessors@[v]@[j]]
                0 <= v < 256 && 0 <= j < predecessors@[v]@.len() ==> dist[predecessors@[v]@[j] as int] + 1 == dist[v],
        ensures
            final(path)@ == old(path)@,
            listed_after(predecessors@, src, current, old(paths)@, final(paths)@, old(path)@),
            preds_distinct(predecessors@) ==> distinct_from(final(paths)@, old(paths)@.len() as int),
        decreases dist[current as int],
    {
        let ghost preds = predecessors@;
        let ghost old_path = path@;
        let ghost old_paths = paths@;
        let ghost from = paths@.len() as int;
        path.push(current);
        if current == src {
            let complete_path = reversed(path);
            paths.push(complete_path);
            proof {
                lemma_listed_at_source(preds, src, old_paths, paths@, old_path);
            }
        } else {
            let n = predecessors[current as usize].len();
            proof {
                assert(partly_listed(preds, src, current, 0, old_paths, paths@, old_path)) by {
                    assert forall|k: int| #![trigger paths@[k]] from <= k < paths@.len() implies false by {}
                }
            }
            for j in 0..n
                invariant
                    preds == predecessors@,
                    predecessors@.len() == 256,
                    dist.len() == 256,
                    forall|v: int, j: int|
                        #![trigger predecessors@[v]@[j]]
                        0 <= v < 256 && 0 <= j < predecessors@[v]@.len() ==> dist[predecessors@[v]@[j] as int] + 1 == dist[v],
                    n == preds[current as int]@.len(),
                    current != src,
                    path@ == old_path.push(current),
                    partly_listed(preds, src, current, j as int, old_paths, paths@, old_path),
                    from == old_paths.len(),
                    preds_distinct(preds) ==> distinct_from(paths@, from),
                    branches_before(paths@, from, old_path.len() + 1int, preds[current as int]@, j as int),
            {
                let p = predecessors[current as usize][j];
                let ghost before = paths@;
                proof {
                    assert(dist[preds[current as int]@[j as int] as int] + 1 == dist[current as int]);
                }
                self.reconstruct_paths(predecessors, paths, path, src, p, Ghost(dist));
                proof {
                    lemma_listed_step(preds, src, current, j as int, old_paths, before, paths@, old_path);
                    let after = paths@;
                    let n: int = old_path.len() + 1int;
                    assert(old_path.push(current).len() == n);
                    assert forall|k: int| before.len() <= k < after.len() implies #[trigger] branch_at(after[k]@, n) == p by {
                        assert(entry_from_chain(preds, src, after[k]@, old_path.push(current), p));
                        lemma_branch_of_entry(preds, src, after[k]@, old_path.push(current), p);
                    }
                    assert forall|k: int| from <= k < paths@.len() implies exists|m: int|
                        0 <= m < j + 1 && #[trigger] branch_at(paths@[k]@, old_path.len() + 1int) == preds[current as int]@[m] by {
                        if k < before.len() {
                            assert(after[k] == before[k]);
                            let m = choose|m: int| 0 <= m < j && #[trigger] branch_at(before[k]@, n) == preds[current as int]@[m];
                            assert(branch_at(after[k]@, n) == preds[current as int]@[m]);
                        } else {
                            assert(branch_at(after[k]@, n) == preds[current as int]@[j as int]);
                        }
                    }
                    if preds_distinct(preds) {
                        assert(preds[current as int]@.no_duplicates());
                        assert forall|a: int, b: int| from <= a < b < after.len() implies #[trigger] after[a]@ != #[trigger] after[b]@ by {
                            if b < before.len() {
                                assert(after[a] == before[a] && after[b] == before[b]);
                            } else if a >= before.len() {
                            } else {
                                assert(after[a] == before[a]);
                                let m = choose|m: int| 0 <= m < j && #[trigger] branch_at(before[a]@, n) == preds[current as int]@[m];
                                assert(branch_at(after[b]@, n) == preds[current as int]@[j as int]);
                                assert(preds[current as int]@[m] != preds[current as int]@[j as int]);
                            }
                        }
                    }
                }
                assert(branches_before(paths@, from, old_path.len() + 1int, preds[current as int]@, j + 1));
            }
            proof {
                lemma_listed_done(preds, src, current, old_paths, paths@, old_path);
            }
        }
        path.pop();
        proof {
            assert(path@ =~= old_path);
        }
    }

    /// Every shortest route from `src` to `dst` (none when `dst` cannot be
    /// reached), each once when no node lists a neighbour identifier twice.
    pub fn all_shortest_paths(&self, src: NodeId, dst: NodeId) -> (res: Vec<Vec<NodeId>>)
        ensures
            distinct_link_ids(self@) ==> forall|a: int, b: int|
                0 <= a < b < res@.len() ==> #[trigger] res@[a]@ != #[trigger] res@[b]@,
            forall|k: int| 0 <= k < res@.len() ==> is_shortest_route(self@, #[trigger] res@[k]@, src, dst),
            forall|p: Seq<NodeId>|
                #[trigger] is_shortest_route(self@, p, src, dst) ==> exists|k: int| 0 <= k < res@.len() && #[trigger] res@[k]@ == p,
    {
        let ghost g = self@;
        let (visited, preds, dist, Ghost(routes)) = self.bfs_layers(src);
        let mut paths: Vec<Vec<NodeId>> = Vec::new();
        proof {
            assert(preds_sound(g, preds@, dist@));
        }
        if visited[dst as usize] {
            let mut path: Vec<NodeId> = Vec::new();
            self.reconstruct_paths(&preds, &mut paths, &mut path, src, dst, Ghost(dist@));
            proof {
                let empty = Seq::<NodeId>::empty();
                assert(path@ =~= empty);
                assert forall|k: int| 0 <= k < paths@.len() implies is_shortest_route(g, #[trigger] paths@[k]@, src, dst) by {
                    assert(entry_from_chain(preds@, src, paths@[k]@, empty, dst));
                    let c = choose|c: Seq<NodeId>|
                        #[trigger] is_pred_chain(preds@, src, c) && c[0] == dst && paths@[k]@ == (empty + c).reverse();
                    assert(empty + c =~= c);
                    lemma_chain_is_route(g, preds@, dist@, src, c);
                    assert forall|q: Seq<NodeId>| #[trigger] is_route_between(g, q, src, dst) implies paths@[k]@.len() <= q.len() by {
                        assert(visited@[dst as int]);
                    }
                }
                assert forall|p: Seq<NodeId>| #[trigger] is_shortest_route(g, p, src, dst) implies exists|k: int|
                    0 <= k < paths@.len() && #[trigger] paths@[k]@ == p by {
                    let n = p.len() as int;
                    assert forall|i: int| 0 <= i < n implies #[trigger] dist@[p[i] as int] == i && visited@[p[i] as int] by {
                        lemma_route_all_reached(g, visited@, p, i);
                        lemma_route_prefix(g, p, i);
                        assert(is_route_between(g, p.take(i + 1), src, p[i]));
                        let r = routes[p[i] as int];
                        assert(is_route_between(g, r, src, p[i]));
                        lemma_route_concat(g, r, p, i);
                        assert(is_route_between(g, r + p.subrange(i + 1, n), src, dst));
                    }
                    let c = p.reverse();
                    assert forall|i: int| 0 <= i < c.len() - 1 implies #[trigger] pred_step(preds@, src, c[i], c[i + 1]) by {
                        let m = n - 1 - i;
                        assert(c[i] == p[m] && c[i + 1] == p[m - 1]);
                        assert(dist@[p[m] as int] == m);
                        assert(dist@[p[m - 1] as int] == m - 1);
                        assert(linked(g, p[m - 1], p[(m - 1) + 1]));
                        assert(visited@[p[m - 1] as int]);
                    }
                    assert(is_pred_chain(preds@, src, c));
                    assert(chain_listed(paths@, 0, empty, c));
                    assert((empty + c).reverse() =~= p);
                }
            }
        } else {
            proof {
                assert forall|p: Seq<NodeId>| #[trigger] is_shortest_route(g, p, src, dst) implies false by {
                    lemma_route_all_reached(g, visited@, p, p.len() - 1);
                }
            }
        }
        paths
    }

    /// A shortest route from `src` to `dst`, found by breadth-first search,
    /// or `None` when `dst` cannot be reached.
    pub fn shortest_path(&self, src: NodeId, dst: NodeId) -> (res: Option<Vec<NodeId>>)
        ensures
            res is Some <==> connected(self@, src, dst),
            res matches Some(p) ==> is_shortest_route(self@, p@, src, dst),
            res matches Some(p) ==> bfs_route(self@, src, dst) == Some(p@),
            res is None ==> bfs_route(self@, src, dst) is None,
    {
        let ghost g = self@;
        let mut visited: Vec<bool> = vec![false; 256];
        let mut pred: Vec<NodeId> = vec![0; 256];
        let ghost mut dist: Seq<int> = Seq::new(256, |i: int| 0);
        let mut queue: Vec<NodeId> = Vec::new();
        let mut head: usize = 0;
        visited.set(src as usize, true);
        queue.push(src);
        proof {
            assert((visited@, pred@, queue@) =~~= bfs_start(src));
        }
        proof {
            assert forall|v: int| 0 <= v < 256 && #[trigger] visited@[v] implies exists|k: int| 0 <= k < queue@.len() && queue@[k] == v by {
                assert(v == src);
                assert(queue@[0] == src);
            }
        }
        while head < queue.len()
            invariant
                g == self@,
                visited@.len() == 256,
                pred@.len() == 256,
                dist.len() == 256,
                head <= queue@.len(),
                queue@.len() >= 1,
                queue@[0] == src,
                visited@[src as int],
                dist[src as int] == 0,
                forall|v: int| 0 <= v < 256 ==> #[trigger] dist[v] >= 0,
                forall|k: int| 0 <= k < queue@.len() ==> #[trigger] visited@[queue@[k] as int],
                forall|v: int|
                    0 <= v < 256 && #[trigger] visited@[v] ==> exists|k: int| 0 <= k < queue@.len() && queue@[k] == v,
                forall|k1: int, k2: int|
                    0 <= k1 <= k2 < queue@.len() ==> #[trigger] dist[queue@[k1] as int] <= #[trigger] dist[queue@[k2] as int],
                head < queue@.len() ==> forall|k: int|
                    0 <= k < queue@.len() ==> #[trigger] dist[queue@[k] as int] <= dist[queue@[head as int] as int] + 1,
                forall|v: NodeId|
                    #[trigger] visited@[v as int] && v != src ==> visited@[pred@[v as int] as int] && linked(g, pred@[v as int], v)
                        && dist[v as int] == dist[pred@[v as int] as int] + 1,
                forall|v: NodeId, p: Seq<NodeId>|
                    #[trigger] visited@[v as int] && #[trigger] is_route_between(g, p, src, v) ==> dist[v as int] <= p.len() - 1,
                forall|k: int, w: NodeId|
                    0 <= k < head && #[trigger] linked(g, queue@[k], w) ==> #[trigger] visited@[w as int],
                forall|k: int| 0 <= k < head ==> #[trigger] queue@[k] != dst,
                bfs_preds(g, dst, bfs_start(src), 0) == bfs_preds(g, dst, (visited@, pred@, queue@), head as int),
            decreases 2 * unvisited_count(visited@) + queue@.len() - head,
        {
            let ghost st0: BfsState = (visited@, pred@, queue@);
            let ghost h0 = head as int;
            let current = queue[head];
            head = head + 1;
            let ghost d = dist[current as int];
            let ghost uc0 = unvisited_count(visited@);
            let ghost ql0 = queue@.len();
            if current == dst {
                proof {
                    let k = choose|k: int| 0 <= k < queue@.len() && queue@[k] == dst;
                }
                let path = trace_back(&pred, src, dst, Ghost(g), Ghost(dist), Ghost(visited@));
                proof {
                    assert(bfs_preds(g, dst, st0, h0) == Some(pred@));
                    let c = choose|p: Seq<NodeId>| pred_walk(pred@, src, dst, p);
                    lemma_pred_walk_unique(pred@, src, dst, path@, c);
                    assert forall|q: Seq<NodeId>| #[trigger] is_route_between(g, q, src, dst) implies path@.len() <= q.len() by {
                        assert(visited@[dst as int] && is_route_between(g, q, src, dst));
                    }
                    assert(is_route_between(g, path@, src, dst));
                }
                return Some(path);
            }
            match self.nodes.get(&current) {
                Some(node) => {
                    let n = node.adjacents.len();
                    assert(node@ == g[current]);
                    for i in 0..n
                        invariant
                            g == self@,
                            node@ == g[current],
                            g.contains_key(current),
                            n == g[current].2.len(),
                            current == queue@[head - 1],
                            current != dst,
                            d == dist[current as int],
                            1 <= head <= queue@.len(),
                            visited@.len() == 256,
                            pred@.len() == 256,
                            dist.len() == 256,
                            queue@[0] == src,
                            visited@[src as int],
                            dist[src as int] == 0,
                            forall|v: int| 0 <= v < 256 ==> #[trigger] dist[v] >= 0,
                            forall|k: int| 0 <= k < queue@.len() ==> #[trigger] visited@[queue@[k] as int],
                            forall|v: int|
                                0 <= v < 256 && #[trigger] visited@[v] ==> exists|k: int| 0 <= k < queue@.len() && queue@[k] == v,
                            forall|k1: int, k2: int|
                                0 <= k1 <= k2 < queue@.len() ==> #[trigger] dist[queue@[k1] as int] <= #[trigger] dist[queue@[k2] as int],
                            forall|k: int| 0 <= k < queue@.len() ==> #[trigger] dist[queue@[k] as int] <= d + 1,
                            forall|v: NodeId|
                                #[trigger] visited@[v as int] && v != src ==> visited@[pred@[v as int] as int]
                                    && linked(g, pred@[v as int], v) && dist[v as int] == dist[pred@[v as int] as int] + 1,
                            forall|v: NodeId, p: Seq<NodeId>|
                                #[trigger] visited@[v as int] && #[trigger] is_route_between(g, p, src, v) ==> dist[v as int] <= p.len() - 1,
                            forall|k: int, w: NodeId|
                                0 <= k < head - 1 && #[trigger] linked(g, queue@[k], w) ==> #[trigger] visited@[w as int],
                            forall|j: int| 0 <= j < i ==> #[trigger] visited@[g[current].2[j].0 as int],
                            forall|k: int| 0 <= k < head ==> #[trigger] queue@[k] != dst,
                            2 * unvisited_count(visited@) + queue@.len() <= 2 * uc0 + ql0,
                            st0.0.len() == 256,
                            0 <= h0 < st0.2.len(),
                            h0 + 1 == head,
                            st0.2[h0] == current,
                            bfs_preds(g, dst, bfs_start(src), 0) == bfs_preds(g, dst, st0, h0),
                            scan_links(links_of(g, current), 0, current, st0) == scan_links(
                                links_of(g, current),
                                i as int,
                                current,
                                (visited@, pred@, queue@),
                            ),
                    {
                        let ghost sti: BfsState = (visited@, pred@, queue@);
                        let neighbor = node.adjacents[i].0;
                        if !visited[neighbor as usize] {
                            proof {
                                assert forall|p: Seq<NodeId>| #[trigger] is_route_between(g, p, src, neighbor) implies d + 1 <= p.len() - 1 by {
                                    let j = lemma_exit_point(p, visited@);
                                    let x = p[j];
                                    let k = choose|k: int| 0 <= k < queue@.len() && queue@[k] == x;
                                    lemma_route_prefix(g, p, j);
                                    assert(is_route_between(g, p.take(j + 1), src, x));
                                    assert(linked(g, p[j], p[j + 1]));
                                    if k < head - 1 {
                                        assert(visited@[p[j + 1] as int]);
                                    }
                                    assert(dist[queue@[head - 1] as int] <= dist[queue@[k] as int]);
                                }
                                lemma_unvisited_update(visited@, neighbor as int);
                            }
                            visited.set(neighbor as usize, true);
                            pred.set(neighbor as usize, current);
                            proof {
                                dist = dist.update(neighbor as int, d + 1);
                            }
                            let ghost old_queue = queue@;
                            queue.push(neighbor);
                            proof {
                                assert(queue@[queue@.len() - 1] == neighbor);
                                assert forall|v: int| 0 <= v < 256 && #[trigger] visited@[v] implies exists|k: int|
                                    0 <= k < queue@.len() && queue@[k] == v by {
                                    if v != neighbor {
                                        let k = choose|k: int| 0 <= k < old_queue.len() && old_queue[k] == v;
                                        assert(queue@[k] == v);
                                    }
                                }
                                assert(linked(g, current, neighbor)) by {
                                    assert(g[current].2[i as int].0 == neighbor);
                                }
                            }
                        }
                        assert(visited@[g[current].2[i as int].0 as int]);
                        proof {
                            assert(node.adjacents@[i as int] == links_of(g, current)[i as int]);
                            assert(scan_links(links_of(g, current), i as int, current, sti) == scan_links(
                                links_of(g, current),
                                i + 1,
                                current,
                                (visited@, pred@, queue@),
                            ));
                        }
                    }
                    proof {
                        assert(scan_links(links_of(g, current), n as int, current, (visited@, pred@, queue@)) == (visited@, pred@, queue@));
                        lemma_scan_links(links_of(g, current), 0, current, st0);
                        assert(bfs_preds(g, dst, st0, h0) == bfs_preds(g, dst, (visited@, pred@, queue@), head as int));
                        assert forall|k: int, w: NodeId|
                            0 <= k < head && #[trigger] linked(g, queue@[k], w) implies #[trigger] visited@[w as int] by {
                            if k == head - 1 {
                                let j = choose|j: int| 0 <= j < g[current].2.len() && #[trigger] g[current].2[j].0 == w;
                            }
                        }
                    }
                },
                None => {
                    proof {
                        assert(links_of(g, current) =~= Seq::<Adjacent>::empty());
                        lemma_scan_links(links_of(g, current), 0, current, st0);
                        assert(scan_links(links_of(g, current), 0, current, st0) == st0);
                        assert(bfs_preds(g, dst, st0, h0) == bfs_preds(g, dst, (visited@, pred@, queue@), head as int));
                    }
                },
            }
        }
        proof {
            if connected(g, src, dst) {
                let p = choose|p: Seq<NodeId>| #[trigger] is_route_between(g, p, src, dst);
                if !visited@[dst as int] {
                    let j = lemma_exit_point(p, visited@);
                    let k = choose|k: int| 0 <= k < queue@.len() && queue@[k] == p[j];
                    assert(linked(g, p[j], p[j + 1]));
                }
                let k = choose|k: int| 0 <= k < queue@.len() && queue@[k] == dst;
            }
        }
        None
    }
}

} // verus!
