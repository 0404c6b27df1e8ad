//! A client of the network: it takes part in floods, learns the topology
//! and sends fragmented requests to servers along shortest routes.

use vstd::prelude::*;
use std::collections::HashSet;
use crate::flooding::{
    all_but, is_flood_response, packet_handleable, packet_is_handleable, packet_reaction, react_to_packet,
    Reaction,
};
use crate::fragmentation::{checksum_fits, 
    defaults_assembly, defaults_code, is_serialization, lemma_defaults_roundtrip, lemma_string_roundtrip,
    serialize, sorted_by_index, string_assembly, string_message_bytes, Assembler, DefaultsRequest,
    Fragmentation, DEFAULTS_TAG,
};
use vstd::utf8::encode_utf8;
use crate::network::{
    copy_ids, copy_trace, distinct, distinct_ids, lemma_distinct, trace_ids, FloodRequest,
    FloodResponse, Fragment, NodeId, NodeType, Packet, PacketType, SourceRoutingHeader,
};
use crate::topology::{bfs_route, connected, is_shortest_route, Topology};

verus! {

broadcast use vstd::std_specs::hash::group_hash_axioms;

/// What a client is used for.
#[derive(Clone, Copy, Debug, PartialEq, Eq, Structural)]
pub enum ClientType {
    ChatClient,
    WebBrowser,
}

/// A client node: its identifier, its neighbours (each once), the floods it
/// has seen and the topology it has learnt.
pub struct Client {
    pub id: NodeId,
    pub neighbors: Vec<NodeId>,
    pub flood_ids: HashSet<u64>,
    pub client_topology: Topology,
    pub client_type: ClientType,
}

/// `p` is flood request `flood_id` freshly started by `initiator`.
pub open spec fn is_fresh_flood(p: Packet, flood_id: u64, initiator: NodeId, session_id: u64) -> bool {
    &&& p.pack_type matches PacketType::FloodRequest(f) && f.flood_id == flood_id && f.initiator_id
        == initiator && f.path_trace@ == Seq::<(NodeId, NodeType)>::empty()
    &&& p.routing_header.hop_index == 0
    &&& p.routing_header.hops@ == Seq::<NodeId>::empty()
    &&& p.session_id == session_id
}

/// `ps` carry the fragments `frags`, in order, along `route` from its
/// second hop.
pub open spec fn carries_fragments(ps: Seq<Packet>, route: Seq<NodeId>, session_id: u64, frags: Seq<Fragment>) -> bool {
    &&& ps.len() == frags.len()
    &&& forall|k: int|
        0 <= k < ps.len() ==> {
            &&& #[trigger] ps[k].pack_type == PacketType::MsgFragment(frags[k])
            &&& ps[k].routing_header.hop_index == 1
            &&& ps[k].routing_header.hops@ == route
            &&& ps[k].session_id == session_id
        }
}

/// The outcome of sending a message to `server_id` from a client with
/// identifier `id` and topology `g`: with a route, the fragments of
/// `bytes` along the shortest route `shortest_path` finds, all to its
/// second hop; without, the routing error.
pub open spec fn routed_message(
    g: Map<NodeId, (NodeId, NodeType, Seq<(NodeId, NodeType)>)>,
    id: NodeId,
    server_id: NodeId,
    session_id: u64,
    bytes: Seq<u8>,
    res: Result<(NodeId, Vec<Packet>), &str>,
) -> bool {
    match res {
        Ok((hop, ps)) => {
            &&& connected(g, id, server_id)
            &&& bfs_route(g, id, server_id) matches Some(route) && is_shortest_route(g, route, id, server_id)
                && hop == route[1] && exists|frags: Seq<Fragment>|
                #[trigger] is_serialization(bytes, frags) && carries_fragments(ps@, route, session_id, frags)
        },
        Err(e) => !connected(g, id, server_id) && bfs_route(g, id, server_id) is None && e@
            == "Error in source routing"@,
    }
}

/// Packets carrying the given fragments along `route`.
fn fragment_packets(route: &Vec<NodeId>, session_id: u64, fragments: &Vec<Fragment>) -> (res: Vec<Packet>)
    ensures
        carries_fragments(res@, route@, session_id, fragments@),
{
    let mut res: Vec<Packet> = Vec::new();
    for i in 0..fragments.len()
        invariant
            res@.len() == i,
            forall|k: int|
                0 <= k < i ==> {
                    &&& #[trigger] res@[k].pack_type == PacketType::MsgFragment(fragments@[k])
                    &&& res@[k].routing_header.hop_index == 1
                    &&& res@[k].routing_header.hops@ == route@
                    &&& res@[k].session_id == session_id
                },
    {
        let header = SourceRoutingHeader::with_first_hop(copy_ids(route));
        res.push(Packet::new_fragment(header, session_id, fragments[i]));
    }
    res
}

impl Client {
    /// The client's neighbours are listed once each.
    pub open spec fn wf(&self) -> bool {
        self.neighbors@.no_duplicates()
    }

    /// A client that has seen no flood and knows no topology yet; its
    /// neighbours are those given, each once.
    pub fn new(id: NodeId, neighbors: &Vec<NodeId>, client_type: ClientType) -> (res: Self)
        ensures
            res.wf(),
            res.id == id,
            res.neighbors@ == distinct(neighbors@),
            res.flood_ids@ == Set::<u64>::empty(),
            res.client_topology@ == Map::<NodeId, (NodeId, NodeType, Seq<(NodeId, NodeType)>)>::empty(),
            res.client_type == client_type,
    {
        proof {
            lemma_distinct(neighbors@);
        }
        Client {
            id,
            neighbors: distinct_ids(neighbors),
            flood_ids: HashSet::new(),
            client_topology: Topology::new(),
            client_type,
        }
    }

    /// Whether the client can handle the packet (see `packet_handleable`).
    pub fn can_handle(&self, packet: &Packet) -> (res: bool)
        ensures
            res == packet_handleable(self.id, self.neighbors@, self.flood_ids@, *packet),
    {
        packet_is_handleable(self.id, &self.neighbors, &self.flood_ids, packet)
    }

    /// What the client does with a received packet: it takes part in
    /// floods and reports flood responses and acknowledgements; fragments
    /// are left alone.
    pub fn on_packet(&mut self, packet: Packet) -> (res: Reaction)
        requires
            old(self).wf(),
            packet_handleable(old(self).id, old(self).neighbors@, old(self).flood_ids@, packet),
        ensures
            final(self).wf(),
            final(self).id == old(self).id,
            final(self).neighbors@ == old(self).neighbors@,
            final(self).client_topology@ == old(self).client_topology@,
            final(self).client_type == old(self).client_type,
            packet_reaction(
                old(self).id,
                old(self).neighbors@,
                old(self).flood_ids@,
                packet,
                false,
                final(self).flood_ids@,
                res,
            ),
    {
        react_to_packet(self.id, &self.neighbors, &mut self.flood_ids, packet, false)
    }

    /// Starts flood `flood_id`: a fresh flood request for every neighbour.
    pub fn flood_request_packets(&self, session_id: u64, flood_id: u64) -> (res: Vec<(NodeId, Packet)>)
        ensures
            res@.map_values(|o: (NodeId, Packet)| o.0) == self.neighbors@,
            forall|k: int| 0 <= k < res@.len() ==> is_fresh_flood(#[trigger] res@[k].1, flood_id, self.id, session_id),
    {
        let mut res: Vec<(NodeId, Packet)> = Vec::new();
        for i in 0..self.neighbors.len()
            invariant
                res@.map_values(|o: (NodeId, Packet)| o.0) == self.neighbors@.take(i as int),
                forall|k: int| 0 <= k < res@.len() ==> is_fresh_flood(#[trigger] res@[k].1, flood_id, self.id, session_id),
        {
            let ghost before = res@;
            let packet = Packet::new_flood_request(
                SourceRoutingHeader::empty_route(),
                session_id,
                FloodRequest::new(flood_id, self.id),
            );
            res.push((self.neighbors[i], packet));
            assert(res@.map_values(|o: (NodeId, Packet)| o.0) =~= before.map_values(|o: (NodeId, Packet)| o.0).push(
                self.neighbors@[i as int],
            ));
            assert(self.neighbors@.take(i + 1) =~= self.neighbors@.take(i as int).push(self.neighbors@[i as int]));
        }
        assert(self.neighbors@.take(self.neighbors@.len() as int) =~= self.neighbors@);
        res
    }

    /// Answers flood `flood_id` with the given trace: the response, routed
    /// back along the reversed trace, for every neighbour but the one
    /// before last on the trace.
    pub fn flood_response_packets(&self, session_id: u64, flood_id: u64, path_trace: &Vec<(NodeId, NodeType)>) -> (res: Vec<
        (NodeId, Packet),
    >)
        requires
            path_trace@.len() >= 2,
        ensures
            res@.map_values(|o: (NodeId, Packet)| o.0) == all_but(
                self.neighbors@,
                path_trace@[path_trace@.len() - 2].0,
            ),
            forall|k: int|
                0 <= k < res@.len() ==> is_flood_response(
                    #[trigger] res@[k].1,
                    flood_id,
                    path_trace@,
                    trace_ids(path_trace@).reverse(),
                    session_id,
                ),
    {
        let prev = path_trace[path_trace.len() - 2].0;
        let n = path_trace.len();
        let mut back: Vec<NodeId> = Vec::new();
        let mut j = n;
        while j > 0
            invariant
                n == path_trace@.len(),
                j <= n,
                back@.len() == n - j,
                forall|k: int| 0 <= k < n - j ==> #[trigger] back@[k] == path_trace@[n - 1 - k].0,
            decreases j,
        {
            j = j - 1;
            back.push(path_trace[j].0);
        }
        assert(back@ =~= trace_ids(path_trace@).reverse());
        let mut res: Vec<(NodeId, Packet)> = Vec::new();
        for i in 0..self.neighbors.len()
            invariant
                back@ == trace_ids(path_trace@).reverse(),
                res@.map_values(|o: (NodeId, Packet)| o.0) == all_but(self.neighbors@.take(i as int), prev),
                forall|k: int|
                    0 <= k < res@.len() ==> is_flood_response(
                        #[trigger] res@[k].1,
                        flood_id,
                        path_trace@,
                        trace_ids(path_trace@).reverse(),
                        session_id,
                    ),
        {
            let ghost before = res@;
            let m = self.neighbors[i];
            assert(self.neighbors@.take(i + 1).drop_last() =~= self.neighbors@.take(i as int));
            if m != prev {
                let packet = Packet::new_flood_response(
                    SourceRoutingHeader::with_first_hop(copy_ids(&back)),
                    session_id,
                    FloodResponse { flood_id, path_trace: copy_trace(path_trace) },
                );
                res.push((m, packet));
                assert(res@.map_values(|o: (NodeId, Packet)| o.0) =~= before.map_values(
                    |o: (NodeId, Packet)| o.0,
                ).push(m));
            }
        }
        assert(self.neighbors@.take(self.neighbors@.len() as int) =~= self.neighbors@);
        res
    }

    /// Acknowledges fragment `fragment_index` along `hops`, through the
    /// neighbour `first_hop`; an error when it is not a neighbour.
    pub fn ack_packet(&self, session_id: u64, first_hop: NodeId, hops: Vec<NodeId>, fragment_index: u64) -> (res: Result<
        (NodeId, Packet),
        &'static str,
    >)
        ensures
            match res {
                Ok((hop, p)) => {
                    &&& self.neighbors@.contains(first_hop)
                    &&& hop == first_hop
                    &&& p.pack_type == PacketType::Ack(crate::network::Ack { fragment_index })
                    &&& p.routing_header.hop_index == 1
                    &&& p.routing_header.hops@ == hops@
                    &&& p.session_id == session_id
                },
                Err(e) => !self.neighbors@.contains(first_hop) && e@ == "No sender found"@,
            },
    {
        let mut found = false;
        for i in 0..self.neighbors.len()
            invariant
                found <==> exists|k: int| 0 <= k < i && self.neighbors@[k] == first_hop,
        {
            if self.neighbors[i] == first_hop {
                found = true;
            }
        }
        if found {
            Ok((first_hop, Packet::new_ack(SourceRoutingHeader::with_first_hop(hops), session_id, fragment_index)))
        } else {
            proof {
                reveal_strlit("No sender found");
            }
            Err("No sender found")
        }
    }

    /// The fragments of a message, routed to `server_id` along the shortest
    /// route `shortest_path` finds in the client's topology.
    fn routed_fragments(&self, server_id: NodeId, session_id: u64, bytes: Vec<u8>) -> (res: Result<
        (NodeId, Vec<Packet>),
        &'static str,
    >)
        requires
            server_id != self.id,
            bytes@.len() >= 1,
        ensures
            routed_message(self.client_topology@, self.id, server_id, session_id, bytes@, res),
    {
        let ghost datas = bytes@;
        match self.client_topology.shortest_path(self.id, server_id) {
            Some(trace) => {
                let fragments = serialize(bytes);
                let packets = fragment_packets(&trace, session_id, &fragments);
                let hop = trace[1];
                assert(is_serialization(datas, fragments@));
                Ok((hop, packets))
            },
            None => {
                proof {
                    reveal_strlit("Error in source routing");
                }
                Err("Error in source routing")
            },
        }
    }

    /// A default request for `server_id`, fragmented and routed along the
    /// shortest route `shortest_path` finds: the packets, all for the
    /// route's second hop.
    pub fn default_request_packets(&self, server_id: NodeId, session_id: u64, request: DefaultsRequest) -> (res: Result<
        (NodeId, Vec<Packet>),
        &'static str,
    >)
        requires
            server_id != self.id,
        ensures
            routed_message(
                self.client_topology@,
                self.id,
                server_id,
                session_id,
                seq![DEFAULTS_TAG, defaults_code(request)],
                res,
            ),
    {
        let bytes = <DefaultsRequest as Fragmentation<DefaultsRequest>>::fragment(request);
        self.routed_fragments(server_id, session_id, bytes)
    }

    /// A text query for `server_id`, fragmented and routed along the
    /// shortest route `shortest_path` finds: the packets, all for the
    /// route's second hop.
    pub fn string_query_packets(&self, server_id: NodeId, session_id: u64, query: String) -> (res: Result<
        (NodeId, Vec<Packet>),
        &'static str,
    >)
        requires
            server_id != self.id,
        ensures
            routed_message(
                self.client_topology@,
                self.id,
                server_id,
                session_id,
                string_message_bytes(query@),
                res,
            ),
    {
        let bytes = <String as Fragmentation<String>>::fragment(query);
        self.routed_fragments(server_id, session_id, bytes)
    }

    /// A single fragment for `server_id` along the shortest route
    /// `shortest_path` finds. It is
    /// handed to the neighbour named by the route's first hop, which is the
    /// client itself, so it goes out only when the client lists itself
    /// among its neighbours.
    pub fn generic_fragment_packet(&self, server_id: NodeId, session_id: u64, fragment: Fragment) -> (res: Result<
        (NodeId, Packet),
        &'static str,
    >)
        ensures
            match res {
                Ok((hop, p)) => {
                    &&& connected(self.client_topology@, self.id, server_id)
                    &&& self.neighbors@.contains(self.id)
                    &&& hop == self.id
                    &&& p.pack_type == PacketType::MsgFragment(fragment)
                    &&& p.routing_header.hop_index == 1
                    &&& is_shortest_route(self.client_topology@, p.routing_header.hops@, self.id, server_id)
                    &&& bfs_route(self.client_topology@, self.id, server_id) == Some(p.routing_header.hops@)
                    &&& p.session_id == session_id
                },
                Err(e) => if connected(self.client_topology@, self.id, server_id) {
                    !self.neighbors@.contains(self.id) && e@ == "Sender not found"@
                } else {
                    bfs_route(self.client_topology@, self.id, server_id) is None && e@ == "No path found"@
                },
            },
    {
        match self.client_topology.shortest_path(self.id, server_id) {
            Some(trace) => {
                let first = trace[0];
                let mut found = false;
                for i in 0..self.neighbors.len()
                    invariant
                        found <==> exists|k: int| 0 <= k < i && self.neighbors@[k] == first,
                {
                    if self.neighbors[i] == first {
                        found = true;
                    }
                }
                if found {
                    Ok((first, Packet::new_fragment(SourceRoutingHeader::with_first_hop(trace), session_id, fragment)))
                } else {
                    proof {
                        reveal_strlit("Sender not found");
                    }
                    Err("Sender not found")
                }
            },
            None => {
                proof {
                    reveal_strlit("No path found");
                }
                Err("No path found")
            },
        }
    }
}

/// The fragments carried by a sequence of fragment packets.
pub open spec fn packet_fragments(ps: Seq<Packet>) -> Seq<Fragment> {
    ps.map_values(|p: Packet| p.pack_type->MsgFragment_0)
}

proof fn lemma_routed_fragments(
    g: Map<NodeId, (NodeId, NodeType, Seq<(NodeId, NodeType)>)>,
    id: NodeId,
    server_id: NodeId,
    session_id: u64,
    bytes: Seq<u8>,
    hop: NodeId,
    ps: Vec<Packet>,
)
    requires
        routed_message(g, id, server_id, session_id, bytes, Ok((hop, ps))),
    ensures
        is_serialization(bytes, packet_fragments(ps@)),
{
    let route = bfs_route(g, id, server_id)->Some_0;
    let frags = choose|frags: Seq<Fragment>|
        #[trigger] is_serialization(bytes, frags) && carries_fragments(ps@, route, session_id, frags);
    assert forall|k: int| 0 <= k < ps@.len() implies #[trigger] packet_fragments(ps@)[k] == frags[k] by {
        assert(ps@[k].pack_type == PacketType::MsgFragment(frags[k]));
    }
    assert(packet_fragments(ps@) =~= frags);
}

/// The fragments of a default request a client sends reassemble, at the
/// server, into the same request.
pub proof fn lemma_default_request_delivered(
    g: Map<NodeId, (NodeId, NodeType, Seq<(NodeId, NodeType)>)>,
    id: NodeId,
    server_id: NodeId,
    session_id: u64,
    request: DefaultsRequest,
    hop: NodeId,
    ps: Vec<Packet>,
)
    requires
        routed_message(g, id, server_id, session_id, seq![DEFAULTS_TAG, defaults_code(request)], Ok((hop, ps))),
    ensures
        <DefaultsRequest as Assembler<DefaultsRequest>>::assemble_requires(packet_fragments(ps@)),
        defaults_assembly(packet_fragments(ps@)) == Some(request),
{
    lemma_routed_fragments(g, id, server_id, session_id, seq![DEFAULTS_TAG, defaults_code(request)], hop, ps);
    lemma_defaults_roundtrip(request, packet_fragments(ps@));
}

/// The fragments of a text query a client sends reassemble, at the
/// server and whatever order they arrive in, into the same text, when its
/// UTF-8 encoding is not empty.
pub proof fn lemma_string_query_delivered(
    g: Map<NodeId, (NodeId, NodeType, Seq<(NodeId, NodeType)>)>,
    id: NodeId,
    server_id: NodeId,
    session_id: u64,
    query: Seq<char>,
    hop: NodeId,
    ps: Vec<Packet>,
    arrived: Seq<Fragment>,
)
    requires
        routed_message(g, id, server_id, session_id, string_message_bytes(query), Ok((hop, ps))),
        encode_utf8(query).len() != 0,
        checksum_fits(encode_utf8(query).len()),
        arrived.to_multiset() == packet_fragments(ps@).to_multiset(),
    ensures
        <String as Assembler<String>>::assemble_requires(arrived),
        forall|p: Seq<Fragment>|
            p.to_multiset() == arrived.to_multiset() && sorted_by_index(p) ==> #[trigger] string_assembly(p) == Some(query),
{
    lemma_routed_fragments(g, id, server_id, session_id, string_message_bytes(query), hop, ps);
    lemma_string_roundtrip(query, packet_fragments(ps@), arrived);
}

} // verus!
