//! The network configuration: its checks, the links it declares, and the
//! choice of a drone implementation for each drone.

use vstd::prelude::*;
use crate::controller::SimulationController;
use crate::network::{copy_ids, NodeId};
use rand::Rng;

verus! {

broadcast use vstd::std_specs::hash::group_hash_axioms;

/// A drone of the configuration: identifier, the nodes it is linked to,
/// and whether its packet drop rate lies in `[0, 1]`.
pub struct DroneConfig {
    pub id: NodeId,
    pub connected_node_ids: Vec<NodeId>,
    pub pdr_in_range: bool,
}

/// A client or a server of the configuration: identifier and the drones
/// it is linked to.
pub struct EndpointConfig {
    pub id: NodeId,
    pub connected_drone_ids: Vec<NodeId>,
}

/// A whole network configuration.
pub struct NetworkConfig {
    pub drone: Vec<DroneConfig>,
    pub client: Vec<EndpointConfig>,
    pub server: Vec<EndpointConfig>,
}

/// A node's links are valid: none leads to the node itself and none is
/// listed twice.
pub open spec fn neighbours_valid(current: NodeId, neighbors: Seq<NodeId>) -> bool {
    !neighbors.contains(current) && neighbors.no_duplicates()
}

/// A node's links are valid exactly when no link leads to the node itself
/// and no two links name the same node.
pub proof fn lemma_neighbours_valid_means(current: NodeId, neighbors: Seq<NodeId>)
    ensures
        neighbours_valid(current, neighbors) <==> (forall|i: int| 0 <= i < neighbors.len() ==> neighbors[i] != current)
            && (forall|i: int, j: int| 0 <= i < j < neighbors.len() ==> neighbors[i] != neighbors[j]),
{
    if forall|i: int| 0 <= i < neighbors.len() ==> neighbors[i] != current {
        assert(!neighbors.contains(current));
    }
}

/// Whether a node's links are valid does not depend on the order they are
/// listed in.
pub proof fn lemma_neighbours_valid_any_order(current: NodeId, a: Seq<NodeId>, b: Seq<NodeId>)
    requires
        a.to_multiset() == b.to_multiset(),
    ensures
        neighbours_valid(current, a) == neighbours_valid(current, b),
{
    broadcast use vstd::seq_lib::to_multiset_contains;

    assert(a.contains(current) == (a.to_multiset().count(current) > 0));
    assert(b.contains(current) == (b.to_multiset().count(current) > 0));
    if a.no_duplicates() {
        a.lemma_multiset_has_no_duplicates();
        b.lemma_multiset_has_no_duplicates_conv();
    }
    if b.no_duplicates() {
        b.lemma_multiset_has_no_duplicates();
        a.lemma_multiset_has_no_duplicates_conv();
    }
}

/// Whether the links of node `current` are valid.
pub fn check_neighbors_id(current: NodeId, neighbors: &Vec<NodeId>) -> (res: bool)
    ensures
        res == neighbours_valid(current, neighbors@),
{
    let n = neighbors.len();
    for i in 0..n
        invariant
            n == neighbors@.len(),
            forall|k: int| 0 <= k < i ==> neighbors@[k] != current,
            forall|a: int, b: int| 0 <= a < b < i ==> neighbors@[a] != neighbors@[b],
    {
        if neighbors[i] == current {
            assert(neighbors@.contains(current) && neighbors@[i as int] == current);
            return false;
        }
        for j in 0..i
            invariant
                n == neighbors@.len(),
                i < n,
                forall|a: int| 0 <= a < j ==> neighbors@[a] != neighbors@[i as int],
        {
            if neighbors[j] == neighbors[i] {
                assert(!neighbors@.no_duplicates());
                return false;
            }
        }
    }
    true
}

/// Every node of the configuration, in the order the checks visit them,
/// with whether its own entry is valid (links, and for a drone its drop
/// rate).
pub open spec fn config_entries(cfg: NetworkConfig) -> Seq<(NodeId, bool)> {
    cfg.drone@.map_values(
        |d: DroneConfig| (d.id, neighbours_valid(d.id, d.connected_node_ids@) && d.pdr_in_range),
    ) + cfg.client@.map_values(
        |c: EndpointConfig| (c.id, neighbours_valid(c.id, c.connected_drone_ids@)),
    ) + cfg.server@.map_values(|s: EndpointConfig| (s.id, neighbours_valid(s.id, s.connected_drone_ids@)))
}

/// The identifier the checks compare entry `i` with: the one of the entry
/// before it, or 0 for the first.
pub open spec fn previous_id(s: Seq<(NodeId, bool)>, i: int) -> NodeId {
    if i == 0 {
        0
    } else {
        s[i - 1].0
    }
}

/// The first `n` entries are valid and none repeats the identifier of the
/// entry just before it.
pub open spec fn accepted_prefix(s: Seq<(NodeId, bool)>, n: int) -> bool {
    forall|i: int| 0 <= i < n ==> #[trigger] entry_accepted(s, i)
}

/// Entry `i` is valid and does not repeat the identifier before it.
pub open spec fn entry_accepted(s: Seq<(NodeId, bool)>, i: int) -> bool {
    s[i].1 && s[i].0 != previous_id(s, i)
}

proof fn lemma_accepted_prefix_step(s: Seq<(NodeId, bool)>, n: int)
    requires
        0 <= n < s.len(),
    ensures
        accepted_prefix(s, n + 1) == (accepted_prefix(s, n) && s[n].1 && s[n].0 != previous_id(s, n)),
{
    if accepted_prefix(s, n + 1) {
        assert(entry_accepted(s, n));
    }
}

/// A configuration passes the checks when every entry is valid and no
/// identifier equals the one just before it (the first must not be 0).
pub open spec fn config_accepted(cfg: NetworkConfig) -> bool {
    accepted_prefix(config_entries(cfg), config_entries(cfg).len() as int)
}

/// Whether the configuration passes the checks.
pub fn check_initializer(config: &NetworkConfig) -> (res: bool)
    ensures
        res == config_accepted(*config),
{
    let ghost entries = config_entries(*config);
    let mut all: Vec<(NodeId, bool)> = Vec::new();
    for i in 0..config.drone.len()
        invariant
            all@ == config.drone@.take(i as int).map_values(
                |d: DroneConfig| (d.id, neighbours_valid(d.id, d.connected_node_ids@) && d.pdr_in_range),
            ),
    {
        let d = &config.drone[i];
        let ok = check_neighbors_id(d.id, &d.connected_node_ids) && d.pdr_in_range;
        all.push((d.id, ok));
        assert(all@ =~= config.drone@.take(i + 1).map_values(
            |d: DroneConfig| (d.id, neighbours_valid(d.id, d.connected_node_ids@) && d.pdr_in_range),
        ));
    }
    let ghost drones_part = all@;
    assert(config.drone@.take(config.drone@.len() as int) =~= config.drone@);
    for i in 0..config.client.len()
        invariant
            all@ == drones_part + config.client@.take(i as int).map_values(
                |c: EndpointConfig| (c.id, neighbours_valid(c.id, c.connected_drone_ids@)),
            ),
    {
        let c = &config.client[i];
        let ok = check_neighbors_id(c.id, &c.connected_drone_ids);
        all.push((c.id, ok));
        assert(all@ =~= drones_part + config.client@.take(i + 1).map_values(
            |c: EndpointConfig| (c.id, neighbours_valid(c.id, c.connected_drone_ids@)),
        ));
    }
    let ghost front = all@;
    assert(config.client@.take(config.client@.len() as int) =~= config.client@);
    for i in 0..config.server.len()
        invariant
            all@ == front + config.server@.take(i as int).map_values(
                |s: EndpointConfig| (s.id, neighbours_valid(s.id, s.connected_drone_ids@)),
            ),
    {
        let s = &config.server[i];
        let ok = check_neighbors_id(s.id, &s.connected_drone_ids);
        all.push((s.id, ok));
        assert(all@ =~= front + config.server@.take(i + 1).map_values(
            |s: EndpointConfig| (s.id, neighbours_valid(s.id, s.connected_drone_ids@)),
        ));
    }
    assert(config.server@.take(config.server@.len() as int) =~= config.server@);
    assert(all@ =~= entries);
    let mut last: NodeId = 0;
    let mut res = true;
    for i in 0..all.len()
        invariant
            res == accepted_prefix(all@, i as int),
            res ==> last == previous_id(all@, i as int),
    {
        let (current, ok) = all[i];
        proof {
            lemma_accepted_prefix_step(all@, i as int);
        }
        if ok && current != last {
            last = current;
        } else {
            res = false;
        }
    }
    res
}

/// `x` is the identifier of some node of the configuration.
pub open spec fn is_config_id(cfg: NetworkConfig, x: NodeId) -> bool {
    ||| exists|i: int| 0 <= i < cfg.drone@.len() && #[trigger] cfg.drone@[i].id == x
    ||| exists|i: int| 0 <= i < cfg.client@.len() && #[trigger] cfg.client@[i].id == x
    ||| exists|i: int| 0 <= i < cfg.server@.len() && #[trigger] cfg.server@[i].id == x
}

/// Every link of the configuration leads to a node of the configuration.
pub open spec fn links_known(cfg: NetworkConfig) -> bool {
    &&& forall|i: int, k: int|
        0 <= i < cfg.drone@.len() && 0 <= k < cfg.drone@[i].connected_node_ids@.len() ==> is_config_id(
            cfg,
            #[trigger] cfg.drone@[i].connected_node_ids@[k],
        )
    &&& forall|i: int, k: int|
        0 <= i < cfg.client@.len() && 0 <= k < cfg.client@[i].connected_drone_ids@.len() ==> is_config_id(
            cfg,
            #[trigger] cfg.client@[i].connected_drone_ids@[k],
        )
    &&& forall|i: int, k: int|
        0 <= i < cfg.server@.len() && 0 <= k < cfg.server@[i].connected_drone_ids@.len() ==> is_config_id(
            cfg,
            #[trigger] cfg.server@[i].connected_drone_ids@[k],
        )
}

/// The table of configured identifiers: slot `x` is set when `x` is an
/// identifier of the configuration.
fn config_id_table(config: &NetworkConfig) -> (table: Vec<bool>)
    ensures
        table@.len() == 256,
        forall|x: NodeId| #[trigger] table@[x as int] == is_config_id(*config, x),
{
    let mut table: Vec<bool> = vec![false; 256];
    for i in 0..config.drone.len()
        invariant
            table@.len() == 256,
            forall|x: NodeId|
                #[trigger] table@[x as int] == exists|j: int| 0 <= j < i && #[trigger] config.drone@[j].id == x,
    {
        let id = config.drone[i].id;
        table.set(id as usize, true);
        assert forall|x: NodeId| #[trigger] table@[x as int] == exists|j: int| 0 <= j < i + 1 && #[trigger] config.drone@[j].id == x by {
            if x == id {
                assert(config.drone@[i as int].id == x);
            }
        }
    }
    let ghost t1 = table@;
    for i in 0..config.client.len()
        invariant
            table@.len() == 256,
            forall|x: NodeId|
                #[trigger] table@[x as int] == (t1[x as int] || exists|j: int| 0 <= j < i && #[trigger] config.client@[j].id == x),
    {
        let id = config.client[i].id;
        table.set(id as usize, true);
        assert forall|x: NodeId| #[trigger] table@[x as int] == (t1[x as int] || exists|j: int| 0 <= j < i + 1 && #[trigger] config.client@[j].id == x) by {
            if x == id {
                assert(config.client@[i as int].id == x);
            }
        }
    }
    let ghost t2 = table@;
    for i in 0..config.server.len()
        invariant
            table@.len() == 256,
            forall|x: NodeId|
                #[trigger] table@[x as int] == (t2[x as int] || exists|j: int| 0 <= j < i && #[trigger] config.server@[j].id == x),
    {
        let id = config.server[i].id;
        table.set(id as usize, true);
        assert forall|x: NodeId| #[trigger] table@[x as int] == (t2[x as int] || exists|j: int| 0 <= j < i + 1 && #[trigger] config.server@[j].id == x) by {
            if x == id {
                assert(config.server@[i as int].id == x);
            }
        }
    }
    table
}

/// Whether every link of the list leads to an identifier set in `table`.
fn all_in_table(table: &Vec<bool>, ids: &Vec<NodeId>) -> (res: bool)
    requires
        table@.len() == 256,
    ensures
        res == forall|k: int| 0 <= k < ids@.len() ==> #[trigger] table@[ids@[k] as int],
{
    for k in 0..ids.len()
        invariant
            table@.len() == 256,
            forall|j: int| 0 <= j < k ==> #[trigger] table@[ids@[j] as int],
    {
        if !table[ids[k] as usize] {
            return false;
        }
    }
    true
}

/// Whether every link of the configuration leads to one of its nodes (the
/// channels of the network are looked up by the linked identifiers).
pub fn links_resolve(config: &NetworkConfig) -> (res: bool)
    ensures
        res == links_known(*config),
{
    let table = config_id_table(config);
    for i in 0..config.drone.len()
        invariant
            table@.len() == 256,
            forall|x: NodeId| #[trigger] table@[x as int] == is_config_id(*config, x),
            forall|j: int, k: int|
                0 <= j < i && 0 <= k < config.drone@[j].connected_node_ids@.len() ==> is_config_id(
                    *config,
                    #[trigger] config.drone@[j].connected_node_ids@[k],
                ),
    {
        if !all_in_table(&table, &config.drone[i].connected_node_ids) {
            return false;
        }
        assert forall|k: int| 0 <= k < config.drone@[i as int].connected_node_ids@.len() implies is_config_id(
            *config,
            #[trigger] config.drone@[i as int].connected_node_ids@[k],
        ) by {
            assert(table@[config.drone@[i as int].connected_node_ids@[k] as int]);
        }
    }
    for i in 0..config.client.len()
        invariant
            table@.len() == 256,
            forall|x: NodeId| #[trigger] table@[x as int] == is_config_id(*config, x),
            forall|j: int, k: int|
                0 <= j < config.drone@.len() && 0 <= k < config.drone@[j].connected_node_ids@.len() ==> is_config_id(
                    *config,
                    #[trigger] config.drone@[j].connected_node_ids@[k],
                ),
            forall|j: int, k: int|
                0 <= j < i && 0 <= k < config.client@[j].connected_drone_ids@.len() ==> is_config_id(
                    *config,
                    #[trigger] config.client@[j].connected_drone_ids@[k],
                ),
    {
        if !all_in_table(&table, &config.client[i].connected_drone_ids) {
            return false;
        }
        assert forall|k: int| 0 <= k < config.client@[i as int].connected_drone_ids@.len() implies is_config_id(
            *config,
            #[trigger] config.client@[i as int].connected_drone_ids@[k],
        ) by {
            assert(table@[config.client@[i as int].connected_drone_ids@[k] as int]);
        }
    }
    for i in 0..config.server.len()
        invariant
            table@.len() == 256,
            forall|x: NodeId| #[trigger] table@[x as int] == is_config_id(*config, x),
            forall|j: int, k: int|
                0 <= j < config.drone@.len() && 0 <= k < config.drone@[j].connected_node_ids@.len() ==> is_config_id(
                    *config,
                    #[trigger] config.drone@[j].connected_node_ids@[k],
                ),
            forall|j: int, k: int|
                0 <= j < config.client@.len() && 0 <= k < config.client@[j].connected_drone_ids@.len() ==> is_config_id(
                    *config,
                    #[trigger] config.client@[j].connected_drone_ids@[k],
                ),
            forall|j: int, k: int|
                0 <= j < i && 0 <= k < config.server@[j].connected_drone_ids@.len() ==> is_config_id(
                    *config,
                    #[trigger] config.server@[j].connected_drone_ids@[k],
                ),
    {
        if !all_in_table(&table, &config.server[i].connected_drone_ids) {
            return false;
        }
        assert forall|k: int| 0 <= k < config.server@[i as int].connected_drone_ids@.len() implies is_config_id(
            *config,
            #[trigger] config.server@[i as int].connected_drone_ids@[k],
        ) by {
            assert(table@[config.server@[i as int].connected_drone_ids@[k] as int]);
        }
    }
    true
}

/// Position of the last drone with identifier `id` among `ds`, or -1.
pub open spec fn last_drone_index(ds: Seq<DroneConfig>, id: NodeId) -> int
    decreases ds.len(),
{
    if ds.len() == 0 {
        -1
    } else if ds.last().id == id {
        ds.len() - 1
    } else {
        last_drone_index(ds.drop_last(), id)
    }
}

pub(crate) proof fn lemma_last_drone_index_bounds(ds: Seq<DroneConfig>, id: NodeId)
    ensures
        -1 <= last_drone_index(ds, id) < ds.len(),
        last_drone_index(ds, id) >= 0 ==> ds[last_drone_index(ds, id)].id == id,
        last_drone_index(ds, id) == -1 <==> forall|i: int| 0 <= i < ds.len() ==> #[trigger] ds[i].id != id,
    decreases ds.len(),
{
    if ds.len() > 0 {
        let d = ds.drop_last();
        lemma_last_drone_index_bounds(d, id);
        assert(ds[ds.len() - 1].id == ds.last().id);
        if ds.last().id != id {
            if forall|i: int| 0 <= i < d.len() ==> #[trigger] d[i].id != id {
                assert forall|i: int| 0 <= i < ds.len() implies #[trigger] ds[i].id != id by {
                    if i < d.len() {
                        assert(d[i].id == ds[i].id);
                    }
                }
            } else {
                let j = choose|i: int| 0 <= i < d.len() && #[trigger] d[i].id == id;
                assert(ds[j].id == id);
            }
        }
    }
}

/// The controller of a configured network: it commands every drone, and
/// knows each drone's links as listed by the last entry with its
/// identifier.
pub fn controller_for(drones: &Vec<DroneConfig>) -> (res: SimulationController)
    ensures
        res.wf(),
        forall|id: NodeId| #[trigger] res.drones@.contains(id) <==> last_drone_index(drones@, id) >= 0,
        forall|id: NodeId| #[trigger] res.droness@.contains_key(id) <==> last_drone_index(drones@, id) >= 0,
        forall|id: NodeId|
            #[trigger] res.droness@.contains_key(id) ==> res.droness@[id]@ == drones@[last_drone_index(
                drones@,
                id,
            )].connected_node_ids@,
{
    let mut res = SimulationController::new();
    for i in 0..drones.len()
        invariant
            res.wf(),
            forall|id: NodeId| #[trigger] res.drones@.contains(id) <==> last_drone_index(drones@.take(i as int), id) >= 0,
            forall|id: NodeId| #[trigger] res.droness@.contains_key(id) <==> last_drone_index(drones@.take(i as int), id) >= 0,
            forall|id: NodeId|
                #[trigger] res.droness@.contains_key(id) ==> res.droness@[id]@ == drones@[last_drone_index(
                    drones@.take(i as int),
                    id,
                )].connected_node_ids@,
    {
        let d = &drones[i];
        res.add_drone(d.id, copy_ids(&d.connected_node_ids));
        assert(drones@.take(i + 1).drop_last() =~= drones@.take(i as int));
        assert forall|id: NodeId| last_drone_index(drones@.take(i as int), id) >= 0 implies #[trigger] last_drone_index(drones@.take(i as int), id) < i by {
            lemma_last_drone_index_bounds(drones@.take(i as int), id);
        }
    }
    assert(drones@.take(drones@.len() as int) =~= drones@);
    res
}

/// The ten drone implementations a network can be built from.
#[derive(Clone, Copy, Debug, PartialEq, Eq, Structural)]
pub enum DroneKind {
    BagelBomber,
    BetterCallDrone,
    RustRoveri,
    GetDroned,
    CppEnjoyers,
    DRONE,
    NullPointerPatrol,
    Rustafarian,
    DrOnes,
    RustEze,
}

/// The implementation numbered `val`, if any.
pub open spec fn kind_of(val: int) -> Option<DroneKind> {
    if val == 0 {
        Some(DroneKind::BagelBomber)
    } else if val == 1 {
        Some(DroneKind::BetterCallDrone)
    } else if val == 2 {
        Some(DroneKind::RustRoveri)
    } else if val == 3 {
        Some(DroneKind::GetDroned)
    } else if val == 4 {
        Some(DroneKind::CppEnjoyers)
    } else if val == 5 {
        Some(DroneKind::DRONE)
    } else if val == 6 {
        Some(DroneKind::NullPointerPatrol)
    } else if val == 7 {
        Some(DroneKind::Rustafarian)
    } else if val == 8 {
        Some(DroneKind::DrOnes)
    } else if val == 9 {
        Some(DroneKind::RustEze)
    } else {
        None
    }
}

/// The drone implementation numbered `val`; none past the tenth.
pub fn drone_kind(val: usize) -> (res: Option<DroneKind>)
    ensures
        res == kind_of(val as int),
{
    match val {
        0 => Some(DroneKind::BagelBomber),
        1 => Some(DroneKind::BetterCallDrone),
        2 => Some(DroneKind::RustRoveri),
        3 => Some(DroneKind::GetDroned),
        4 => Some(DroneKind::CppEnjoyers),
        5 => Some(DroneKind::DRONE),
        6 => Some(DroneKind::NullPointerPatrol),
        7 => Some(DroneKind::Rustafarian),
        8 => Some(DroneKind::DrOnes),
        9 => Some(DroneKind::RustEze),
        _ => None,
    }
}

/// The smallest of a non-empty sequence of counts.
pub open spec fn seq_min(s: Seq<i32>) -> int
    decreases s.len(),
{
    if s.len() <= 1 {
        s[0] as int
    } else {
        let m = seq_min(s.drop_last());
        if s.last() < m {
            s.last() as int
        } else {
            m
        }
    }
}

/// The largest of a non-empty sequence of counts.
pub open spec fn seq_max(s: Seq<i32>) -> int
    decreases s.len(),
{
    if s.len() <= 1 {
        s[0] as int
    } else {
        let m = seq_max(s.drop_last());
        if s.last() > m {
            s.last() as int
        } else {
            m
        }
    }
}

proof fn lemma_min_max(s: Seq<i32>)
    requires
        s.len() >= 1,
    ensures
        forall|i: int| 0 <= i < s.len() ==> seq_min(s) <= #[trigger] s[i] <= seq_max(s),
        exists|i: int| 0 <= i < s.len() && #[trigger] s[i] == seq_min(s),
        exists|i: int| 0 <= i < s.len() && #[trigger] s[i] == seq_max(s),
    decreases s.len(),
{
    if s.len() == 1 {
        assert(s[0] == seq_min(s) && s[0] == seq_max(s));
    } else {
        let d = s.drop_last();
        lemma_min_max(d);
        assert forall|i: int| 0 <= i < s.len() implies seq_min(s) <= #[trigger] s[i] <= seq_max(s) by {
            if i < s.len() - 1 {
                assert(s[i] == d[i]);
            }
        }
        let a = choose|i: int| 0 <= i < d.len() && #[trigger] d[i] == seq_min(d);
        let b = choose|i: int| 0 <= i < d.len() && #[trigger] d[i] == seq_max(d);
        assert(s[a] == d[a]);
        assert(s[b] == d[b]);
        assert(s[s.len() - 1] == s.last());
        if s.last() < seq_min(d) {
            assert(s[s.len() - 1] == seq_min(s));
        } else {
            assert(s[a] == seq_min(s));
        }
        if s.last() > seq_max(d) {
            assert(s[s.len() - 1] == seq_max(s));
        } else {
            assert(s[b] == seq_max(s));
        }
    }
}

/// Smallest and largest of the counters.
fn min_max(counters: &[i32; 10]) -> (res: (i32, i32))
    ensures
        res.0 == seq_min(counters@),
        res.1 == seq_max(counters@),
{
    let mut lo = counters[0];
    let mut hi = counters[0];
    for i in 1..10
        invariant
            counters@.len() == 10,
            lo == seq_min(counters@.take(i as int)),
            hi == seq_max(counters@.take(i as int)),
    {
        assert(counters@.take(i + 1).drop_last() =~= counters@.take(i as int));
        if counters[i] < lo {
            lo = counters[i];
        }
        if counters[i] > hi {
            hi = counters[i];
        }
    }
    assert(counters@.take(10) =~= counters@);
    (lo, hi)
}

/// The counts after drawing kind `v`: one more for `v`.
pub open spec fn counted(c: Seq<i32>, v: int) -> Seq<i32> {
    c.update(v, (c[v] + 1) as i32)
}

/// A draw of kind `v` keeps the counts balanced: `v` is one of the least
/// used kinds, and afterwards the counts differ by exactly one.
pub open spec fn balanced_draw(c: Seq<i32>, v: int) -> bool {
    c[v] == seq_min(c) && seq_max(counted(c, v)) - seq_min(counted(c, v)) == 1
}

/// Drawing kind `v` computes within `i32`: when `v` is a least used kind,
/// its count can grow by one and the spread of the counts afterwards fits.
pub open spec fn draw_fits(c: Seq<i32>, v: int) -> bool {
    c[v] == seq_min(c) ==> c[v] < i32::MAX && seq_max(counted(c, v)) - seq_min(counted(c, v)) <= i32::MAX
}

/// One draw of the balanced assignment of drone kinds: the kind numbered
/// `draw % 10` is taken, and counted, when it keeps the counts balanced;
/// otherwise the counters are left as they were.
pub fn astor_step(counters: &mut [i32; 10], draw: usize) -> (res: Option<usize>)
    requires
        draw_fits(old(counters)@, (draw % 10) as int),
    ensures
        ({
            let v = (draw % 10) as int;
            if balanced_draw(old(counters)@, v) {
                res == Some(v as usize) && final(counters)@ == counted(old(counters)@, v)
            } else {
                res is None && final(counters)@ == old(counters)@
            }
        }),
{
    let val = draw % 10;
    let ghost c = counters@;
    proof {
        lemma_min_max(c);
    }
    let (lo, _) = min_max(counters);
    if counters[val] == lo {
        counters[val] = counters[val] + 1;
        assert(counters@ == counted(c, val as int));
        proof {
            lemma_min_max(counters@);
            assert(counters@[0] >= seq_min(counters@) && counters@[0] <= seq_max(counters@));
        }
        let (lo2, hi2) = min_max(counters);
        if hi2 - lo2 == 1 {
            Some(val)
        } else {
            counters[val] = counters[val] - 1;
            assert(counters@ =~= c);
            None
        }
    } else {
        None
    }
}

/// One draw of the assignment used for ten drones or more: the kind
/// numbered `draw % 10` is taken when it has not been taken yet.
pub fn foreach_step(counters: &mut [i32; 10], draw: usize) -> (res: Option<usize>)
    ensures
        ({
            let v = (draw % 10) as int;
            if old(counters)@[v] != 1 {
                res == Some(v as usize) && final(counters)@ == old(counters)@.update(v, 1)
            } else {
                res is None && final(counters)@ == old(counters)@
            }
        }),
{
    let val = draw % 10;
    if counters[val] != 1 {
        counters[val] = 1;
        Some(val)
    } else {
        None
    }
}

/// One draw of the kind for a drone of a network of `drone_count` drones:
/// balanced draws below ten drones, draws of untaken kinds otherwise.
pub fn assign_step(counters: &mut [i32; 10], drone_count: usize, draw: usize) -> (res: Option<usize>)
    requires
        drone_count < 10 ==> draw_fits(old(counters)@, (draw % 10) as int),
    ensures
        ({
            let v = (draw % 10) as int;
            if drone_count < 10 {
                if balanced_draw(old(counters)@, v) {
                    res == Some(v as usize) && final(counters)@ == counted(old(counters)@, v)
                } else {
                    res is None && final(counters)@ == old(counters)@
                }
            } else if old(counters)@[v] != 1 {
                res == Some(v as usize) && final(counters)@ == old(counters)@.update(v, 1)
            } else {
                res is None && final(counters)@ == old(counters)@
            }
        }),
{
    if drone_count < 10 {
        astor_step(counters, draw)
    } else {
        foreach_step(counters, draw)
    }
}

/// A configuration that passes the checks has valid links for every node
/// and a drop rate in range for every drone, and no identifier follows an
/// entry with the same identifier.
pub proof fn lemma_accepted_config_valid(cfg: NetworkConfig)
    requires
        config_accepted(cfg),
    ensures
        forall|i: int|
            0 <= i < cfg.drone@.len() ==> neighbours_valid(
                #[trigger] cfg.drone@[i].id,
                cfg.drone@[i].connected_node_ids@,
            ) && cfg.drone@[i].pdr_in_range,
        forall|i: int|
            0 <= i < cfg.client@.len() ==> neighbours_valid(
                #[trigger] cfg.client@[i].id,
                cfg.client@[i].connected_drone_ids@,
            ),
        forall|i: int|
            0 <= i < cfg.server@.len() ==> neighbours_valid(
                #[trigger] cfg.server@[i].id,
                cfg.server@[i].connected_drone_ids@,
            ),
        forall|i: int|
            0 < i < config_entries(cfg).len() ==> #[trigger] config_entries(cfg)[i].0 != config_entries(cfg)[i - 1].0,
{
    let e = config_entries(cfg);
    let nd = cfg.drone@.len() as int;
    let nc = cfg.client@.len() as int;
    assert forall|i: int| 0 <= i < nd implies neighbours_valid(
        #[trigger] cfg.drone@[i].id,
        cfg.drone@[i].connected_node_ids@,
    ) && cfg.drone@[i].pdr_in_range by {
        assert(entry_accepted(e, i));
    }
    assert forall|i: int| 0 <= i < nc implies neighbours_valid(
        #[trigger] cfg.client@[i].id,
        cfg.client@[i].connected_drone_ids@,
    ) by {
        assert(entry_accepted(e, nd + i));
    }
    assert forall|i: int| 0 <= i < cfg.server@.len() implies neighbours_valid(
        #[trigger] cfg.server@[i].id,
        cfg.server@[i].connected_drone_ids@,
    ) by {
        assert(entry_accepted(e, nd + nc + i));
    }
    assert forall|i: int| 0 < i < e.len() implies #[trigger] e[i].0 != e[i - 1].0 by {
        assert(entry_accepted(e, i));
    }
}

/// `rand::thread_rng().gen::<usize>()`: a random number from the
/// thread's generator. Nothing is stated of the number drawn.
#[verifier::external_body]
fn random_draw() -> usize {
    rand::thread_rng().gen::<usize>()
}

/// Whether a draw of kind `v` is taken for the next drone of a network of
/// `drone_count` drones, from counts `c` (see `assign_step`).
pub open spec fn draw_taken(c: Seq<i32>, drone_count: usize, v: int) -> bool {
    if drone_count < 10 {
        balanced_draw(c, v)
    } else {
        c[v] != 1
    }
}

/// One random attempt at choosing the kind of the next drone of a network
/// of `drone_count` drones (see `assign_step`): whatever is drawn, either
/// the kind is taken and counted as `assign_step` takes it, or nothing
/// changes because the kind drawn is not taken. So the attempt succeeds
/// whenever every kind would be taken.
pub fn assign_attempt(counters: &mut [i32; 10], drone_count: usize) -> (res: Option<usize>)
    requires
        drone_count < 10 ==> forall|v: int| 0 <= v < 10 ==> #[trigger] draw_fits(old(counters)@, v),
    ensures
        match res {
            Some(v) => {
                &&& v < 10
                &&& drone_count < 10 ==> balanced_draw(old(counters)@, v as int) && final(counters)@
                    == counted(old(counters)@, v as int)
                &&& drone_count >= 10 ==> old(counters)@[v as int] != 1 && final(counters)@
                    == old(counters)@.update(v as int, 1)
            },
            None => final(counters)@ == old(counters)@,
        },
        res is None ==> exists|v: int| 0 <= v < 10 && !#[trigger] draw_taken(old(counters)@, drone_count, v),
        (forall|v: int| 0 <= v < 10 ==> #[trigger] draw_taken(old(counters)@, drone_count, v)) ==> res is Some,
{
    let draw = random_draw();
    let ghost c = counters@;
    let ghost v = (draw % 10) as int;
    assert(drone_count < 10 ==> draw_fits(counters@, v));
    let res = assign_step(counters, drone_count, draw);
    assert(res is None ==> !draw_taken(c, drone_count, v));
    res
}

/// When all kinds have been drawn equally often, any draw keeps the counts
/// balanced.
pub proof fn lemma_equal_counts_accept(c: Seq<i32>, v: int)
    requires
        c.len() == 10,
        0 <= v < 10,
        forall|i: int| 0 <= i < 10 ==> 0 <= #[trigger] c[i] < i32::MAX,
        forall|i: int| 0 <= i < 10 ==> #[trigger] c[i] == c[0],
    ensures
        balanced_draw(c, v),
{
    lemma_min_max(c);
    let c2 = counted(c, v);
    lemma_min_max(c2);
    assert(c[v] == seq_min(c)) by {
        let a = choose|i: int| 0 <= i < c.len() && #[trigger] c[i] == seq_min(c);
        assert(c[a] == c[0]);
    }
    assert(seq_max(c2) == c[0] + 1) by {
        let b = choose|i: int| 0 <= i < c2.len() && #[trigger] c2[i] == seq_max(c2);
        assert(c2[v] == c[0] + 1);
        if b != v {
            assert(c2[b] == c[b]);
        }
    }
    assert(seq_min(c2) == c[0]) by {
        let a = choose|i: int| 0 <= i < c2.len() && #[trigger] c2[i] == seq_min(c2);
        let w = if v == 0 { 1int } else { 0int };
        assert(c2[w] == c[w]);
        if a == v {
            assert(c2[w] >= c2[a]);
        } else {
            assert(c2[a] == c[a]);
        }
    }
}

/// When the counts differ by one and a single kind has been drawn less
/// often than the others, no draw keeps the counts balanced: the balanced
/// assignment then draws for ever.
pub proof fn lemma_single_minimum_stalls(c: Seq<i32>, m: int, v: int)
    requires
        c.len() == 10,
        0 <= m < 10,
        0 <= v < 10,
        forall|i: int| 0 <= i < 10 ==> 0 <= #[trigger] c[i] < i32::MAX,
        seq_max(c) - seq_min(c) == 1,
        c[m] == seq_min(c),
        forall|i: int| 0 <= i < 10 && i != m ==> #[trigger] c[i] != seq_min(c),
    ensures
        !balanced_draw(c, v),
{
    lemma_min_max(c);
    if v == m {
        let c2 = counted(c, v);
        lemma_min_max(c2);
        assert forall|i: int| 0 <= i < 10 implies #[trigger] c2[i] == seq_min(c) + 1 by {
            if i != m {
                assert(c[i] <= seq_max(c));
                assert(c[i] >= seq_min(c));
            }
        }
        let a = choose|i: int| 0 <= i < c2.len() && #[trigger] c2[i] == seq_min(c2);
        let b = choose|i: int| 0 <= i < c2.len() && #[trigger] c2[i] == seq_max(c2);
        assert(c2[a] == c2[b]);
    }
}

} // verus!
