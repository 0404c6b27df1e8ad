//! Minimal clients and servers used to exercise drones: they take part in
//! floods and report what reaches them.

use vstd::prelude::*;
use std::collections::HashSet;
use crate::flooding::{
    forward_flood_response, packet_handleable, packet_is_handleable, packet_reaction, react_to_packet, Reaction,
};
use crate::network::{distinct, distinct_ids, lemma_distinct, NodeId, Packet, PacketType};

verus! {

broadcast use vstd::std_specs::hash::group_hash_axioms;

/// A bare client: identifier, neighbours (each once), floods seen.
pub struct Client {
    pub id: NodeId,
    pub neighbors: Vec<NodeId>,
    pub flood_ids: HashSet<u64>,
}

/// A bare server: identifier, neighbours (each once), floods seen.
pub struct Server {
    pub id: NodeId,
    pub neighbors: Vec<NodeId>,
    pub flood_ids: HashSet<u64>,
}

impl Client {
    /// The client's neighbours are listed once each.
    pub open spec fn wf(&self) -> bool {
        self.neighbors@.no_duplicates()
    }

    /// A client that has seen no flood; its neighbours are those given,
    /// each once.
    pub fn new(id: NodeId, neighbors: &Vec<NodeId>) -> (res: Self)
        ensures
            res.wf(),
            res.id == id,
            res.neighbors@ == distinct(neighbors@),
            res.flood_ids@ == Set::<u64>::empty(),
    {
        proof {
            lemma_distinct(neighbors@);
        }
        Client { id, neighbors: distinct_ids(neighbors), flood_ids: HashSet::new() }
    }

    /// Whether the client can handle the packet (see `packet_handleable`).
    pub fn can_handle(&self, packet: &Packet) -> (res: bool)
        ensures
            res == packet_handleable(self.id, self.neighbors@, self.flood_ids@, *packet),
    {
        packet_is_handleable(self.id, &self.neighbors, &self.flood_ids, packet)
    }

    /// What the client does with a received packet: it takes part in floods
    /// and reports flood responses and acknowledgements; fragments are left
    /// alone.
    pub fn on_packet(&mut self, packet: Packet) -> (res: Reaction)
        requires
            old(self).wf(),
            packet_handleable(old(self).id, old(self).neighbors@, old(self).flood_ids@, packet),
        ensures
            final(self).wf(),
            final(self).id == old(self).id,
            final(self).neighbors@ == old(self).neighbors@,
            packet_reaction(
                old(self).id,
                old(self).neighbors@,
                old(self).flood_ids@,
                packet,
                false,
                final(self).flood_ids@,
                res,
            ),
    {
        react_to_packet(self.id, &self.neighbors, &mut self.flood_ids, packet, false)
    }
}

impl Server {
    /// The server's neighbours are listed once each.
    pub open spec fn wf(&self) -> bool {
        self.neighbors@.no_duplicates()
    }

    /// A server that has seen no flood; its neighbours are those given,
    /// each once.
    pub fn new(id: NodeId, neighbors: &Vec<NodeId>) -> (res: Self)
        ensures
            res.wf(),
            res.id == id,
            res.neighbors@ == distinct(neighbors@),
            res.flood_ids@ == Set::<u64>::empty(),
    {
        proof {
            lemma_distinct(neighbors@);
        }
        Server { id, neighbors: distinct_ids(neighbors), flood_ids: HashSet::new() }
    }

    /// Whether the server can handle the packet (see `packet_handleable`).
    pub fn can_handle(&self, packet: &Packet) -> (res: bool)
        ensures
            res == packet_handleable(self.id, self.neighbors@, self.flood_ids@, *packet),
    {
        packet_is_handleable(self.id, &self.neighbors, &self.flood_ids, packet)
    }

    /// Whether the server can handle the packet when it relays flood
    /// responses: such a response must have a hop after the next one.
    pub fn can_relay(&self, packet: &Packet) -> (res: bool)
        ensures
            res == (if packet.pack_type is FloodResponse {
                packet.routing_header.hop_index + 1 < packet.routing_header.hops.len()
            } else {
                packet_handleable(self.id, self.neighbors@, self.flood_ids@, *packet)
            }),
    {
        if let PacketType::FloodResponse(_) = packet.pack_type {
            packet.routing_header.hop_index < packet.routing_header.hops.len()
                && packet.routing_header.hops.len() - packet.routing_header.hop_index > 1
        } else {
            packet_is_handleable(self.id, &self.neighbors, &self.flood_ids, packet)
        }
    }

    /// What the server does with a received packet: it takes part in
    /// floods, reports flood responses and acknowledgements, and reports the
    /// fragment that ends its run.
    pub fn on_packet(&mut self, packet: Packet) -> (res: Reaction)
        requires
            old(self).wf(),
            packet_handleable(old(self).id, old(self).neighbors@, old(self).flood_ids@, packet),
        ensures
            final(self).wf(),
            final(self).id == old(self).id,
            final(self).neighbors@ == old(self).neighbors@,
            packet_reaction(
                old(self).id,
                old(self).neighbors@,
                old(self).flood_ids@,
                packet,
                true,
                final(self).flood_ids@,
                res,
            ),
    {
        react_to_packet(self.id, &self.neighbors, &mut self.flood_ids, packet, true)
    }

    /// As `on_packet`, except that a flood response is passed on along its
    /// route (the hop after the one it reached the server through) instead
    /// of being reported.
    pub fn on_packet_relaying(&mut self, packet: Packet) -> (res: Reaction)
        requires
            old(self).wf(),
            packet.pack_type is FloodResponse ==> packet.routing_header.hop_index + 1
                < packet.routing_header.hops.len(),
            !(packet.pack_type is FloodResponse) ==> packet_handleable(
                old(self).id,
                old(self).neighbors@,
                old(self).flood_ids@,
                packet,
            ),
        ensures
            final(self).wf(),
            final(self).id == old(self).id,
            final(self).neighbors@ == old(self).neighbors@,
            packet.pack_type is FloodResponse ==> {
                let next = packet.routing_header.hop_index + 1;
                &&& final(self).flood_ids@ == old(self).flood_ids@
                &&& res matches Reaction::Send(out) && out@.len() == 1 && out@[0].0
                    == packet.routing_header.hops@[next] && out@[0].1.routing_header.hop_index == next
                    && out@[0].1.routing_header.hops@ == packet.routing_header.hops@ && out@[0].1.pack_type
                    == packet.pack_type && out@[0].1.session_id == packet.session_id
            },
            !(packet.pack_type is FloodResponse) ==> packet_reaction(
                old(self).id,
                old(self).neighbors@,
                old(self).flood_ids@,
                packet,
                true,
                final(self).flood_ids@,
                res,
            ),
    {
        if let PacketType::FloodResponse(_) = packet.pack_type {
            match forward_flood_response(packet) {
                Some(sent) => {
                    let mut out: Vec<(NodeId, Packet)> = Vec::new();
                    out.push(sent);
                    Reaction::Send(out)
                },
                None => {
                    proof {
                        assert(false);
                    }
                    Reaction::Nothing
                },
            }
        } else {
            self.on_packet(packet)
        }
    }
}

} // verus!
