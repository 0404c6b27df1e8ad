//! The network graph drawn from a configuration: every configured node
//! with its kind and the configured nodes it links to.

use vstd::prelude::*;
use std::collections::HashMap;
use crate::initializer::{
    is_config_id, last_drone_index, lemma_last_drone_index_bounds, DroneConfig, EndpointConfig,
    NetworkConfig,
};
use crate::network::NodeId;
use crate::topology::ServerType;

verus! {

broadcast use vstd::std_specs::hash::group_hash_axioms;

/// The kind of a node of the network graph, with its identifier.
#[derive(Clone, Copy, Debug, PartialEq, Eq, Structural)]
pub enum NetNodeType {
    Drone(NodeId),
    Client(NodeId),
    Server(ServerType, NodeId),
}

/// A node of the network graph and the nodes it links to.
#[derive(Clone, Debug, PartialEq, Eq)]
pub struct NetNode {
    pub name: NodeId,
    pub node_type: NetNodeType,
    pub neighbors: Vec<NodeId>,
}

/// Some entry of `es` has identifier `x`.
pub open spec fn endpoint_has(es: Seq<EndpointConfig>, x: NodeId) -> bool {
    exists|i: int| 0 <= i < es.len() && #[trigger] es[i].id == x
}

/// The kind node `x` gets: a server entry wins over a client entry, which
/// wins over a drone entry (servers are taken for chat servers).
pub open spec fn net_kind(cfg: NetworkConfig, x: NodeId) -> NetNodeType {
    if endpoint_has(cfg.server@, x) {
        NetNodeType::Server(ServerType::ChatServer, x)
    } else if endpoint_has(cfg.client@, x) {
        NetNodeType::Client(x)
    } else {
        NetNodeType::Drone(x)
    }
}

/// Some entry with identifier `x` lists a link to `n`.
pub open spec fn declares_link(cfg: NetworkConfig, x: NodeId, n: NodeId) -> bool {
    ||| exists|i: int|
        0 <= i < cfg.drone@.len() && #[trigger] cfg.drone@[i].id == x && cfg.drone@[i].connected_node_ids@.contains(n)
    ||| exists|i: int|
        0 <= i < cfg.client@.len() && #[trigger] cfg.client@[i].id == x && cfg.client@[i].connected_drone_ids@.contains(
            n,
        )
    ||| exists|i: int|
        0 <= i < cfg.server@.len() && #[trigger] cfg.server@[i].id == x && cfg.server@[i].connected_drone_ids@.contains(
            n,
        )
}

/// `g` is the network graph of `cfg`: one node per configured identifier,
/// of the kind `net_kind` gives, linked (each link once) to exactly the
/// configured nodes that some entry with its identifier lists.
pub open spec fn is_network_graph(cfg: NetworkConfig, g: Map<NodeId, NetNode>) -> bool {
    &&& forall|x: NodeId| #[trigger] g.contains_key(x) <==> is_config_id(cfg, x)
    &&& forall|x: NodeId|
        #[trigger] g.contains_key(x) ==> {
            &&& g[x].name == x
            &&& g[x].node_type == net_kind(cfg, x)
            &&& g[x].neighbors@.no_duplicates()
            &&& forall|n: NodeId| #[trigger]
                g[x].neighbors@.contains(n) <==> is_config_id(cfg, n) && declares_link(cfg, x, n)
        }
}

/// Adds a link to `n` unless it is already there.
fn add_link(node: &mut NetNode, n: NodeId)
    requires
        old(node).neighbors@.no_duplicates(),
    ensures
        final(node).name == old(node).name,
        final(node).node_type == old(node).node_type,
        final(node).neighbors@.no_duplicates(),
        forall|m: NodeId| #[trigger]
            final(node).neighbors@.contains(m) <==> old(node).neighbors@.contains(m) || m == n,
{
    let ghost before = node.neighbors@;
    let mut found = false;
    for i in 0..node.neighbors.len()
        invariant
            node.neighbors@ == before,
            found <==> exists|k: int| 0 <= k < i && before[k] == n,
    {
        if node.neighbors[i] == n {
            found = true;
        }
    }
    if !found {
        node.neighbors.push(n);
        assert forall|m: NodeId| #[trigger] node.neighbors@.contains(m) <==> before.contains(m) || m == n by {
            if node.neighbors@.contains(m) && m != n {
                let k = choose|k: int| 0 <= k < node.neighbors@.len() && node.neighbors@[k] == m;
                assert(before[k] == m);
            }
            if before.contains(m) {
                let k = choose|k: int| 0 <= k < before.len() && before[k] == m;
                assert(node.neighbors@[k] == m);
            }
            if m == n {
                assert(node.neighbors@[before.len() as int] == n);
            }
        }
    }
}

/// Adds to node `x` of the graph the links of `links` that lead to nodes
/// of the graph.
fn add_links(g: &mut HashMap<NodeId, NetNode>, x: NodeId, links: &Vec<NodeId>)
    requires
        forall|y: NodeId| #[trigger] old(g)@.contains_key(y) ==> old(g)@[y].neighbors@.no_duplicates(),
    ensures
        final(g)@.dom() == old(g)@.dom(),
        forall|y: NodeId|
            #[trigger] final(g)@.contains_key(y) ==> {
                &&& final(g)@[y].name == old(g)@[y].name
                &&& final(g)@[y].node_type == old(g)@[y].node_type
                &&& final(g)@[y].neighbors@.no_duplicates()
                &&& forall|n: NodeId| #[trigger]
                    final(g)@[y].neighbors@.contains(n) <==> old(g)@[y].neighbors@.contains(n) || (y == x
                        && links@.contains(n) && old(g)@.contains_key(n))
            },
{
    let ghost g0 = g@;
    if g.contains_key(&x) {
        for k in 0..links.len()
            invariant
                g@.dom() == g0.dom(),
                g0.contains_key(x),
                forall|y: NodeId|
                    #[trigger] g@.contains_key(y) ==> {
                        &&& g@[y].name == g0[y].name
                        &&& g@[y].node_type == g0[y].node_type
                        &&& g@[y].neighbors@.no_duplicates()
                        &&& forall|n: NodeId| #[trigger]
                            g@[y].neighbors@.contains(n) <==> g0[y].neighbors@.contains(n) || (y == x && (exists|j: int|
                                0 <= j < k && links@[j] == n) && g0.contains_key(n))
                    },
        {
            let n = links[k];
            let ghost gk = g@;
            if g.contains_key(&n) {
                let mut node = match g.remove(&x) {
                    Some(v) => v,
                    None => {
                        proof {
                            assert(false);
                        }
                        NetNode { name: x, node_type: NetNodeType::Drone(x), neighbors: Vec::new() }
                    },
                };
                add_link(&mut node, n);
                g.insert(x, node);
                assert(g@.dom() =~= gk.dom());
            }
            assert forall|y: NodeId| #[trigger] g@.contains_key(y) implies forall|m: NodeId| #[trigger]
                g@[y].neighbors@.contains(m) <==> g0[y].neighbors@.contains(m) || (y == x && (exists|j: int|
                    0 <= j < k + 1 && links@[j] == m) && g0.contains_key(m)) by {
                assert forall|m: NodeId| #[trigger] g@[y].neighbors@.contains(m) <==> g0[y].neighbors@.contains(m) || (
                y == x && (exists|j: int| 0 <= j < k + 1 && links@[j] == m) && g0.contains_key(m)) by {
                    if m == n && y == x {
                        assert(links@[k as int] == m);
                    }
                }
            }
        }
    }
    assert forall|y: NodeId| #[trigger] g@.contains_key(y) implies forall|n: NodeId| #[trigger]
        g@[y].neighbors@.contains(n) <==> g0[y].neighbors@.contains(n) || (y == x && links@.contains(n)
            && g0.contains_key(n)) by {
        assert forall|n: NodeId| #[trigger] g@[y].neighbors@.contains(n) <==> g0[y].neighbors@.contains(n) || (y == x
            && links@.contains(n) && g0.contains_key(n)) by {
            if links@.contains(n) {
                let j = choose|j: int| 0 <= j < links@.len() && links@[j] == n;
                assert(links@[j] == n);
            }
        }
    }
}

/// The network graph of a configuration.
pub fn construct_network(config: &NetworkConfig) -> (res: HashMap<NodeId, NetNode>)
    ensures
        is_network_graph(*config, res@),
{
    let mut g: HashMap<NodeId, NetNode> = HashMap::new();
    for i in 0..config.drone.len()
        invariant
            forall|x: NodeId|
                #[trigger] g@.contains_key(x) <==> exists|j: int| 0 <= j < i && #[trigger] config.drone@[j].id == x,
            forall|x: NodeId|
                #[trigger] g@.contains_key(x) ==> g@[x].name == x && g@[x].node_type == NetNodeType::Drone(x)
                    && g@[x].neighbors@.len() == 0,
    {
        let id = config.drone[i].id;
        g.insert(id, NetNode { name: id, node_type: NetNodeType::Drone(id), neighbors: Vec::new() });
        assert forall|x: NodeId|
            #[trigger] g@.contains_key(x) <==> exists|j: int| 0 <= j < i + 1 && #[trigger] config.drone@[j].id == x by {
            if x == id {
                assert(config.drone@[i as int].id == x);
            }
        }
    }
    for i in 0..config.client.len()
        invariant
            forall|x: NodeId|
                #[trigger] g@.contains_key(x) <==> (exists|j: int| 0 <= j < config.drone@.len() && #[trigger] config.drone@[j].id == x)
                    || exists|j: int| 0 <= j < i && #[trigger] config.client@[j].id == x,
            forall|x: NodeId|
                #[trigger] g@.contains_key(x) ==> g@[x].name == x && g@[x].node_type == (if exists|j: int|
                    0 <= j < i && #[trigger] config.client@[j].id == x {
                    NetNodeType::Client(x)
                } else {
                    NetNodeType::Drone(x)
                }) && g@[x].neighbors@.len() == 0,
    {
        let id = config.client[i].id;
        g.insert(id, NetNode { name: id, node_type: NetNodeType::Client(id), neighbors: Vec::new() });
        assert forall|x: NodeId| #[trigger] g@.contains_key(x) implies g@[x].name == x && g@[x].node_type == (if exists|j: int|
            0 <= j < i + 1 && #[trigger] config.client@[j].id == x {
            NetNodeType::Client(x)
        } else {
            NetNodeType::Drone(x)
        }) by {
            if x == id {
                assert(config.client@[i as int].id == x);
            }
        }
        assert forall|x: NodeId|
            #[trigger] g@.contains_key(x) <==> (exists|j: int| 0 <= j < config.drone@.len() && #[trigger] config.drone@[j].id == x)
                || exists|j: int| 0 <= j < i + 1 && #[trigger] config.client@[j].id == x by {
            if x == id {
                assert(config.client@[i as int].id == x);
            }
        }
    }
    for i in 0..config.server.len()
        invariant
            forall|x: NodeId|
                #[trigger] g@.contains_key(x) <==> ((exists|j: int| 0 <= j < config.drone@.len() && #[trigger] config.drone@[j].id == x)
                    || (exists|j: int| 0 <= j < config.client@.len() && #[trigger] config.client@[j].id == x)
                    || exists|j: int| 0 <= j < i && #[trigger] config.server@[j].id == x),
            forall|x: NodeId|
                #[trigger] g@.contains_key(x) ==> g@[x].name == x && g@[x].node_type == (if exists|j: int|
                    0 <= j < i && #[trigger] config.server@[j].id == x {
                    NetNodeType::Server(ServerType::ChatServer, x)
                } else if endpoint_has(config.client@, x) {
                    NetNodeType::Client(x)
                } else {
                    NetNodeType::Drone(x)
                }) && g@[x].neighbors@.len() == 0,
    {
        let id = config.server[i].id;
        g.insert(id, NetNode { name: id, node_type: NetNodeType::Server(ServerType::ChatServer, id), neighbors: Vec::new() });
        assert forall|x: NodeId| #[trigger] g@.contains_key(x) implies g@[x].name == x && g@[x].node_type == (if exists|j: int|
            0 <= j < i + 1 && #[trigger] config.server@[j].id == x {
            NetNodeType::Server(ServerType::ChatServer, x)
        } else if endpoint_has(config.client@, x) {
            NetNodeType::Client(x)
        } else {
            NetNodeType::Drone(x)
        }) by {
            if x == id {
                assert(config.server@[i as int].id == x);
            }
        }
        assert forall|x: NodeId|
            #[trigger] g@.contains_key(x) <==> ((exists|j: int| 0 <= j < config.drone@.len() && #[trigger] config.drone@[j].id == x)
                || (exists|j: int| 0 <= j < config.client@.len() && #[trigger] config.client@[j].id == x)
                || exists|j: int| 0 <= j < i + 1 && #[trigger] config.server@[j].id == x) by {
            if x == id {
                assert(config.server@[i as int].id == x);
            }
        }
    }
    let ghost g1 = g@;
    assert forall|x: NodeId| #[trigger] g1.contains_key(x) implies g1[x].node_type == net_kind(*config, x) by {}
    for i in 0..config.drone.len()
        invariant
            g@.dom() == g1.dom(),
            forall|x: NodeId|
                #[trigger] g@.contains_key(x) ==> {
                    &&& g@[x].name == g1[x].name
                    &&& g@[x].node_type == g1[x].node_type
                    &&& g@[x].neighbors@.no_duplicates()
                    &&& forall|n: NodeId| #[trigger]
                        g@[x].neighbors@.contains(n) <==> g1.contains_key(n) && exists|j: int|
                            0 <= j < i && #[trigger] config.drone@[j].id == x
                                && config.drone@[j].connected_node_ids@.contains(n)
                },
    {
        let d = &config.drone[i];
        add_links(&mut g, d.id, &d.connected_node_ids);
        assert forall|x: NodeId| #[trigger] g@.contains_key(x) implies forall|n: NodeId| #[trigger]
            g@[x].neighbors@.contains(n) <==> g1.contains_key(n) && exists|j: int|
                0 <= j < i + 1 && #[trigger] config.drone@[j].id == x && config.drone@[j].connected_node_ids@.contains(n) by {
            assert forall|n: NodeId| #[trigger] g@[x].neighbors@.contains(n) <==> g1.contains_key(n) && exists|j: int|
                0 <= j < i + 1 && #[trigger] config.drone@[j].id == x && config.drone@[j].connected_node_ids@.contains(n) by {
                if x == d.id && d.connected_node_ids@.contains(n) {
                    assert(config.drone@[i as int].id == x);
                }
            }
        }
    }
    let ghost g2 = g@;
    for i in 0..config.client.len()
        invariant
            g@.dom() == g1.dom(),
            forall|x: NodeId|
                #[trigger] g@.contains_key(x) ==> {
                    &&& g@[x].name == g1[x].name
                    &&& g@[x].node_type == g1[x].node_type
                    &&& g@[x].neighbors@.no_duplicates()
                    &&& forall|n: NodeId| #[trigger]
                        g@[x].neighbors@.contains(n) <==> g2[x].neighbors@.contains(n) || (g1.contains_key(n) && exists|j: int|
                            0 <= j < i && #[trigger] config.client@[j].id == x
                                && config.client@[j].connected_drone_ids@.contains(n))
                },
    {
        let c = &config.client[i];
        add_links(&mut g, c.id, &c.connected_drone_ids);
        assert forall|x: NodeId| #[trigger] g@.contains_key(x) implies forall|n: NodeId| #[trigger]
            g@[x].neighbors@.contains(n) <==> g2[x].neighbors@.contains(n) || (g1.contains_key(n) && exists|j: int|
                0 <= j < i + 1 && #[trigger] config.client@[j].id == x && config.client@[j].connected_drone_ids@.contains(n)) by {
            assert forall|n: NodeId| #[trigger] g@[x].neighbors@.contains(n) <==> g2[x].neighbors@.contains(n) || (g1.contains_key(n)
                && exists|j: int|
                0 <= j < i + 1 && #[trigger] config.client@[j].id == x && config.client@[j].connected_drone_ids@.contains(n)) by {
                if x == c.id && c.connected_drone_ids@.contains(n) {
                    assert(config.client@[i as int].id == x);
                }
            }
        }
    }
    let ghost g3 = g@;
    for i in 0..config.server.len()
        invariant
            g@.dom() == g1.dom(),
            forall|x: NodeId|
                #[trigger] g@.contains_key(x) ==> {
                    &&& g@[x].name == g1[x].name
                    &&& g@[x].node_type == g1[x].node_type
                    &&& g@[x].neighbors@.no_duplicates()
                    &&& forall|n: NodeId| #[trigger]
                        g@[x].neighbors@.contains(n) <==> g3[x].neighbors@.contains(n) || (g1.contains_key(n) && exists|j: int|
                            0 <= j < i && #[trigger] config.server@[j].id == x
                                && config.server@[j].connected_drone_ids@.contains(n))
                },
    {
        let s = &config.server[i];
        add_links(&mut g, s.id, &s.connected_drone_ids);
        assert forall|x: NodeId| #[trigger] g@.contains_key(x) implies forall|n: NodeId| #[trigger]
            g@[x].neighbors@.contains(n) <==> g3[x].neighbors@.contains(n) || (g1.contains_key(n) && exists|j: int|
                0 <= j < i + 1 && #[trigger] config.server@[j].id == x && config.server@[j].connected_drone_ids@.contains(n)) by {
            assert forall|n: NodeId| #[trigger] g@[x].neighbors@.contains(n) <==> g3[x].neighbors@.contains(n) || (g1.contains_key(n)
                && exists|j: int|
                0 <= j < i + 1 && #[trigger] config.server@[j].id == x && config.server@[j].connected_drone_ids@.contains(n)) by {
                if x == s.id && s.connected_drone_ids@.contains(n) {
                    assert(config.server@[i as int].id == x);
                }
            }
        }
    }
    g
}

/// Position of the last configured drone with identifier `id`, whose drop
/// rate the drone of that identifier is built with.
pub fn drone_config_index(drones: &Vec<DroneConfig>, id: NodeId) -> (res: Option<usize>)
    ensures
        match res {
            Some(i) => i == last_drone_index(drones@, id),
            None => last_drone_index(drones@, id) == -1,
        },
{
    proof {
        lemma_last_drone_index_bounds(drones@, id);
    }
    let mut i = drones.len();
    assert(drones@.take(drones@.len() as int) =~= drones@);
    while i > 0
        invariant
            i <= drones@.len(),
            last_drone_index(drones@, id) == last_drone_index(drones@.take(i as int), id),
        decreases i,
    {
        assert(drones@.take(i as int).drop_last() =~= drones@.take(i - 1));
        if drones[i - 1].id == id {
            return Some(i - 1);
        }
        i = i - 1;
    }
    None
}

/// Every link of the network graph leads to a node of the graph.
pub proof fn lemma_graph_links_closed(cfg: NetworkConfig, g: Map<NodeId, NetNode>, x: NodeId, n: NodeId)
    requires
        is_network_graph(cfg, g),
        g.contains_key(x),
        g[x].neighbors@.contains(n),
    ensures
        g.contains_key(n),
{
}

} // verus!
