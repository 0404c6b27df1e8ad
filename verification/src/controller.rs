//! The simulation controller: what it knows of the drones, and the commands
//! it issues to crash one of them.

use vstd::prelude::*;
use std::collections::{HashMap, HashSet};
use crate::network::{copy_ids, NodeId, Packet};

verus! {

broadcast use vstd::std_specs::hash::group_hash_axioms;

/// A command from the controller to a client or a server.
pub enum NodeCommand {
    /// Send this packet along its route.
    SendPacket(Packet),
}

/// An event a client or a server reports to the controller.
pub enum NodeEvent {
    /// This packet was sent.
    SentPacket(Packet),
}

/// The commands the controller issues to drones.
#[derive(Clone, Copy, Debug, PartialEq, Eq, Structural)]
pub enum DroneCommand {
    /// Stop working.
    Crash,
    /// Forget the channel to the given neighbour.
    RemoveSender(NodeId),
}

impl NodeCommand {
    /// Where a node hands a commanded packet: to the hop its route points
    /// at, if the route reaches that far.
    pub fn into_send(self) -> (res: Option<(NodeId, Packet)>)
        ensures
            match self {
                NodeCommand::SendPacket(p) => match res {
                    Some((hop, q)) => p.routing_header.hop_index < p.routing_header.hops@.len() && hop
                        == p.routing_header.hops@[p.routing_header.hop_index as int] && q == p,
                    None => p.routing_header.hop_index >= p.routing_header.hops@.len(),
                },
            },
    {
        match self {
            NodeCommand::SendPacket(p) => match p.routing_header.current_hop() {
                Some(hop) => Some((hop, p)),
                None => None,
            },
        }
    }
}

/// What the controller knows of the drones: the neighbours of each drone,
/// and the drones it can command.
pub struct SimulationController {
    pub droness: HashMap<NodeId, Vec<NodeId>>,
    pub drones: HashSet<NodeId>,
}

impl SimulationController {
    /// Every drone the controller commands has a known list of neighbours.
    pub open spec fn wf(&self) -> bool {
        forall|id: NodeId| #[trigger] self.drones@.contains(id) ==> self.droness@.contains_key(id)
    }

    /// A controller that knows no drone.
    pub fn new() -> (res: Self)
        ensures
            res.wf(),
            res.droness@ == Map::<NodeId, Vec<NodeId>>::empty(),
            res.drones@ == Set::<NodeId>::empty(),
    {
        SimulationController { droness: HashMap::new(), drones: HashSet::new() }
    }

    /// Registers drone `id` with its neighbours (replacing what was known
    /// of it).
    pub fn add_drone(&mut self, id: NodeId, neighbors: Vec<NodeId>)
        requires
            old(self).wf(),
        ensures
            final(self).wf(),
            final(self).droness@ == old(self).droness@.insert(id, neighbors),
            final(self).drones@ == old(self).drones@.insert(id),
    {
        self.droness.insert(id, neighbors);
        self.drones.insert(id);
    }

    /// The commands that crash drone `id`: `Crash` to the drone, then, to
    /// each of its neighbours in order, the order to forget it; `None` when
    /// the controller does not command such a drone.
    pub fn crash_all(&self, id: NodeId) -> (res: Option<Vec<(NodeId, DroneCommand)>>)
        requires
            self.wf(),
        ensures
            res is Some <==> self.drones@.contains(id),
            res matches Some(cmds) ==> {
                let nbrs = self.droness@[id]@;
                &&& cmds@.len() == nbrs.len() + 1
                &&& cmds@[0] == (id, DroneCommand::Crash)
                &&& forall|k: int| 0 <= k < nbrs.len() ==> #[trigger] cmds@[k + 1] == (nbrs[k], DroneCommand::RemoveSender(id))
            },
    {
        if self.drones.contains(&id) {
            let nbrs = match self.droness.get(&id) {
                Some(v) => copy_ids(v),
                None => {
                    proof {
                        assert(false);
                    }
                    Vec::new()
                },
            };
            let mut cmds: Vec<(NodeId, DroneCommand)> = Vec::new();
            cmds.push((id, DroneCommand::Crash));
            for i in 0..nbrs.len()
                invariant
                    nbrs@ == self.droness@[id]@,
                    cmds@.len() == i + 1,
                    cmds@[0] == (id, DroneCommand::Crash),
                    forall|k: int| 0 <= k < i ==> #[trigger] cmds@[k + 1] == (nbrs@[k], DroneCommand::RemoveSender(id)),
            {
                cmds.push((nbrs[i], DroneCommand::RemoveSender(id)));
            }
            Some(cmds)
        } else {
            None
        }
    }
}

/// A drone just registered with the controller can be crashed, and the
/// crash orders go to the neighbours it was registered with.
pub proof fn lemma_registered_drone_crashable(
    before: SimulationController,
    after: SimulationController,
    id: NodeId,
    neighbors: Vec<NodeId>,
)
    requires
        after.droness@ == before.droness@.insert(id, neighbors),
        after.drones@ == before.drones@.insert(id),
    ensures
        after.drones@.contains(id),
        after.droness@[id]@ == neighbors@,
{
}

} // verus!
