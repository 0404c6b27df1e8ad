//! How a client or a server takes part in a flood: it answers a flood it
//! has already seen, or one it cannot pass on, and forwards a new one to
//! every neighbour but the one it came from.

use vstd::prelude::*;
use std::collections::HashSet;
use crate::network::{
    copy_trace, trace_ids, Ack, FloodRequest, FloodResponse, Fragment, Nack, NodeId, NodeType, Packet,
    PacketType, SourceRoutingHeader,
};

verus! {

broadcast use vstd::std_specs::hash::group_hash_axioms;

/// `s` without the occurrences of `x`, in order.
pub open spec fn all_but(s: Seq<NodeId>, x: NodeId) -> Seq<NodeId>
    decreases s.len(),
{
    if s.len() == 0 {
        s
    } else {
        let r = all_but(s.drop_last(), x);
        if s.last() == x {
            r
        } else {
            r.push(s.last())
        }
    }
}

/// The trace of a flood once node `id` has added itself to it. Clients and
/// servers both add themselves as `NodeType::Server`.
pub open spec fn extended_trace(req: FloodRequest, id: NodeId) -> Seq<(NodeId, NodeType)> {
    req.path_trace@.push((id, NodeType::Server))
}

/// Route of a flood response: back along the trace, then on to the
/// initiator when the trace does not start with it.
pub open spec fn response_hops(trace: Seq<(NodeId, NodeType)>, initiator: NodeId) -> Seq<NodeId> {
    let back = trace_ids(trace).reverse();
    if back.len() == 0 || back.last() == initiator {
        back
    } else {
        back.push(initiator)
    }
}

/// `p` is the response to flood `flood_id` carrying `trace`, routed along
/// `hops` from its second hop.
pub open spec fn is_flood_response(
    p: Packet,
    flood_id: u64,
    trace: Seq<(NodeId, NodeType)>,
    hops: Seq<NodeId>,
    session_id: u64,
) -> bool {
    &&& p.pack_type matches PacketType::FloodResponse(r) && r.flood_id == flood_id && r.path_trace@ == trace
    &&& p.routing_header.hop_index == 1
    &&& p.routing_header.hops@ == hops
    &&& p.session_id == session_id
}

/// `p` passes on flood `flood_id` of `initiator` with the given trace.
pub open spec fn is_flood_forward(
    p: Packet,
    flood_id: u64,
    initiator: NodeId,
    trace: Seq<(NodeId, NodeType)>,
    session_id: u64,
) -> bool {
    &&& p.pack_type matches PacketType::FloodRequest(f) && f.flood_id == flood_id && f.initiator_id
        == initiator && f.path_trace@ == trace
    &&& p.routing_header.hop_index == 1
    &&& p.routing_header.hops@ == Seq::<NodeId>::empty()
    &&& p.session_id == session_id
}

/// A node answers a flood, rather than passing it on, when it has seen the
/// flood before or has at most one neighbour.
pub open spec fn answers_flood(seen: Set<u64>, neighbors: Seq<NodeId>, flood_id: u64) -> bool {
    seen.contains(flood_id) || neighbors.len() <= 1
}

/// The flood request can be handled: an answer has a hop after this node;
/// a flood passed on has a previous hop to leave out.
pub open spec fn flood_request_routable(
    id: NodeId,
    neighbors: Seq<NodeId>,
    seen: Set<u64>,
    req: FloodRequest,
) -> bool {
    let t = extended_trace(req, id);
    if answers_flood(seen, neighbors, req.flood_id) {
        response_hops(t, req.initiator_id).len() >= 2
    } else {
        t.len() >= 2
    }
}

/// The packets a node sends for a flood request, each with the neighbour it
/// goes to: the answer, to the next hop back; or the flood with the node
/// added to its trace, to every neighbour but the previous hop.
pub open spec fn flood_reaction(
    id: NodeId,
    neighbors: Seq<NodeId>,
    seen: Set<u64>,
    req: FloodRequest,
    session_id: u64,
    out: Seq<(NodeId, Packet)>,
) -> bool {
    let t = extended_trace(req, id);
    if answers_flood(seen, neighbors, req.flood_id) {
        let hops = response_hops(t, req.initiator_id);
        &&& out.len() == 1
        &&& out[0].0 == hops[1]
        &&& is_flood_response(out[0].1, req.flood_id, t, hops, session_id)
    } else {
        &&& out.map_values(|o: (NodeId, Packet)| o.0) == all_but(neighbors, t[t.len() - 2].0)
        &&& forall|k: int|
            0 <= k < out.len() ==> is_flood_forward(
                #[trigger] out[k].1,
                req.flood_id,
                req.initiator_id,
                t,
                session_id,
            )
    }
}

/// The routing header of the response to a flood with the given trace.
pub fn flood_response_header(trace: &Vec<(NodeId, NodeType)>, initiator: NodeId) -> (res: SourceRoutingHeader)
    ensures
        res.hop_index == 1,
        res.hops@ == response_hops(trace@, initiator),
{
    let n = trace.len();
    let mut hops: Vec<NodeId> = Vec::new();
    let mut i = n;
    while i > 0
        invariant
            n == trace@.len(),
            i <= n,
            hops@.len() == n - i,
            forall|k: int| 0 <= k < n - i ==> #[trigger] hops@[k] == trace@[n - 1 - k].0,
        decreases i,
    {
        i = i - 1;
        hops.push(trace[i].0);
    }
    assert(hops@ =~= trace_ids(trace@).reverse());
    if hops.len() > 0 && hops[hops.len() - 1] != initiator {
        hops.push(initiator);
    }
    SourceRoutingHeader { hop_index: 1, hops }
}

/// The answer to a flood: the response carrying `trace`, with the neighbour
/// it goes to.
fn flood_answer(trace: Vec<(NodeId, NodeType)>, initiator: NodeId, flood_id: u64, session_id: u64) -> (res: (
    NodeId,
    Packet,
))
    requires
        response_hops(trace@, initiator).len() >= 2,
    ensures
        res.0 == response_hops(trace@, initiator)[1],
        is_flood_response(res.1, flood_id, trace@, response_hops(trace@, initiator), session_id),
{
    let header = flood_response_header(&trace, initiator);
    let next = header.hops[1];
    let packet = Packet::new_flood_response(header, session_id, FloodResponse { flood_id, path_trace: trace });
    (next, packet)
}

/// What node `id`, with the given neighbours and the floods it has seen,
/// does with a flood request: it records the flood as seen and returns the
/// packets to send, each with the neighbour it goes to.
pub fn handle_flood_request(
    id: NodeId,
    neighbors: &Vec<NodeId>,
    flood_ids: &mut HashSet<u64>,
    req: FloodRequest,
    session_id: u64,
) -> (out: Vec<(NodeId, Packet)>)
    requires
        flood_request_routable(id, neighbors@, old(flood_ids)@, req),
    ensures
        final(flood_ids)@ == old(flood_ids)@.insert(req.flood_id),
        flood_reaction(id, neighbors@, old(flood_ids)@, req, session_id, out@),
{
    let ghost seen = flood_ids@;
    let ghost t = extended_trace(req, id);
    let flood_id = req.flood_id;
    let initiator = req.initiator_id;
    let mut trace = req.path_trace;
    trace.push((id, NodeType::Server));
    assert(trace@ == t);
    if flood_ids.contains(&flood_id) {
        proof {
            assert(seen.insert(flood_id) =~= seen);
        }
        let answer = flood_answer(trace, initiator, flood_id, session_id);
        let mut out: Vec<(NodeId, Packet)> = Vec::new();
        out.push(answer);
        out
    } else {
        flood_ids.insert(flood_id);
        if neighbors.len() > 1 {
            let prev = trace[trace.len() - 2].0;
            let mut out: Vec<(NodeId, Packet)> = Vec::new();
            for i in 0..neighbors.len()
                invariant
                    trace@ == t,
                    t.len() >= 2,
                    prev == t[t.len() - 2].0,
                    out@.map_values(|o: (NodeId, Packet)| o.0) == all_but(neighbors@.take(i as int), prev),
                    forall|k: int|
                        0 <= k < out@.len() ==> is_flood_forward(
                            #[trigger] out@[k].1,
                            flood_id,
                            initiator,
                            t,
                            session_id,
                        ),
            {
                let n = neighbors[i];
                let ghost before = out@;
                assert(neighbors@.take(i + 1).drop_last() =~= neighbors@.take(i as int));
                if n != prev {
                    let forward = FloodRequest { flood_id, initiator_id: initiator, path_trace: copy_trace(&trace) };
                    let packet = Packet::new_flood_request(
                        SourceRoutingHeader { hop_index: 1, hops: Vec::new() },
                        session_id,
                        forward,
                    );
                    out.push((n, packet));
                    assert(out@.map_values(|o: (NodeId, Packet)| o.0) =~= before.map_values(
                        |o: (NodeId, Packet)| o.0,
                    ).push(n));
                }
            }
            assert(neighbors@.take(neighbors@.len() as int) =~= neighbors@);
            out
        } else {
            let answer = flood_answer(trace, initiator, flood_id, session_id);
            let mut out: Vec<(NodeId, Packet)> = Vec::new();
            out.push(answer);
            out
        }
    }
}

/// The trace of a flood response as the receiving node sees it: with the
/// node put in front (as a client) unless the trace already starts with it.
pub open spec fn trace_seen_by(id: NodeId, trace: Seq<(NodeId, NodeType)>) -> Seq<(NodeId, NodeType)> {
    if trace[0].0 != id {
        seq![(id, NodeType::Client)] + trace
    } else {
        trace
    }
}

/// The trace of a flood response received by node `id`, as it reports it.
pub fn response_trace_seen_by(id: NodeId, trace: &Vec<(NodeId, NodeType)>) -> (res: Vec<(NodeId, NodeType)>)
    requires
        trace@.len() >= 1,
    ensures
        res@ == trace_seen_by(id, trace@),
{
    if trace[0].0 != id {
        let mut res: Vec<(NodeId, NodeType)> = Vec::new();
        res.push((id, NodeType::Client));
        let mut rest = copy_trace(trace);
        res.append(&mut rest);
        assert(res@ =~= seq![(id, NodeType::Client)] + trace@);
        res
    } else {
        copy_trace(trace)
    }
}

/// Passes a flood response on along its route: the hop index moves on by
/// one, and the packet goes to the hop it now points at, if the route
/// reaches that far.
pub fn forward_flood_response(packet: Packet) -> (res: Option<(NodeId, Packet)>)
    requires
        packet.routing_header.hop_index < usize::MAX,
    ensures
        ({
            let next = packet.routing_header.hop_index + 1;
            match res {
                Some((hop, p)) => next < packet.routing_header.hops@.len() && hop
                    == packet.routing_header.hops@[next] && p.routing_header.hop_index == next
                    && p.routing_header.hops@ == packet.routing_header.hops@ && p.pack_type
                    == packet.pack_type && p.session_id == packet.session_id,
                None => next >= packet.routing_header.hops@.len(),
            }
        }),
{
    let mut packet = packet;
    packet.routing_header.increase_hop_index();
    match packet.routing_header.current_hop() {
        Some(hop) => Some((hop, packet)),
        None => None,
    }
}

/// What a node does with a packet it received.
pub enum Reaction {
    /// Send these packets, each to the neighbour given with it.
    Send(Vec<(NodeId, Packet)>),
    /// A flood response arrived; its trace as this node sees it.
    FloodTrace(Vec<(NodeId, NodeType)>),
    /// A fragment arrived.
    Fragment(Fragment),
    /// A negative acknowledgement arrived.
    Nack(Nack),
    /// An acknowledgement arrived.
    Ack(Ack),
    /// Nothing to do.
    Nothing,
}

/// The packet can be handled by node `id`: a flood request can be routed,
/// a flood response has a trace.
pub open spec fn packet_handleable(id: NodeId, neighbors: Seq<NodeId>, seen: Set<u64>, packet: Packet) -> bool {
    match packet.pack_type {
        PacketType::FloodRequest(f) => flood_request_routable(id, neighbors, seen, f),
        PacketType::FloodResponse(r) => r.path_trace@.len() >= 1,
        _ => true,
    }
}

/// What a flood-aware node makes of a packet: a flood request is handled as
/// `handle_flood_request` does, a flood response is reported with its trace
/// as the node sees it, acknowledgements are reported and, when
/// `keeps_fragments`, fragments too. The seen floods change only for a
/// flood request.
pub open spec fn packet_reaction(
    id: NodeId,
    neighbors: Seq<NodeId>,
    seen: Set<u64>,
    packet: Packet,
    keeps_fragments: bool,
    seen_after: Set<u64>,
    res: Reaction,
) -> bool {
    match packet.pack_type {
        PacketType::FloodRequest(f) => {
            &&& seen_after == seen.insert(f.flood_id)
            &&& res matches Reaction::Send(out) && flood_reaction(id, neighbors, seen, f, packet.session_id, out@)
        },
        PacketType::FloodResponse(r) => {
            &&& seen_after == seen
            &&& res matches Reaction::FloodTrace(t) && t@ == trace_seen_by(id, r.path_trace@)
        },
        PacketType::Nack(n) => seen_after == seen && res == Reaction::Nack(n),
        PacketType::Ack(a) => seen_after == seen && res == Reaction::Ack(a),
        PacketType::MsgFragment(f) => seen_after == seen && if keeps_fragments {
            res == Reaction::Fragment(f)
        } else {
            res == Reaction::Nothing
        },
    }
}

/// Whether node `id` can handle the packet (see `packet_handleable`).
pub fn packet_is_handleable(id: NodeId, neighbors: &Vec<NodeId>, flood_ids: &HashSet<u64>, packet: &Packet) -> (res: bool)
    ensures
        res == packet_handleable(id, neighbors@, flood_ids@, *packet),
{
    match &packet.pack_type {
        PacketType::FloodRequest(f) => {
            let answers = flood_ids.contains(&f.flood_id) || neighbors.len() <= 1;
            let ghost t = extended_trace(*f, id);
            proof {
                if f.path_trace@.len() == 0 {
                    assert(trace_ids(t).reverse() =~= seq![id]);
                }
            }
            if answers {
                f.path_trace.len() >= 1 || id != f.initiator_id
            } else {
                f.path_trace.len() >= 1
            }
        },
        PacketType::FloodResponse(r) => r.path_trace.len() >= 1,
        _ => true,
    }
}

/// One step of a flood-aware node: the reaction to a received packet.
pub fn react_to_packet(
    id: NodeId,
    neighbors: &Vec<NodeId>,
    flood_ids: &mut HashSet<u64>,
    packet: Packet,
    keeps_fragments: bool,
) -> (res: Reaction)
    requires
        packet_handleable(id, neighbors@, old(flood_ids)@, packet),
    ensures
        packet_reaction(id, neighbors@, old(flood_ids)@, packet, keeps_fragments, final(flood_ids)@, res),
{
    let session_id = packet.session_id;
    match packet.pack_type {
        PacketType::FloodRequest(f) => Reaction::Send(handle_flood_request(id, neighbors, flood_ids, f, session_id)),
        PacketType::FloodResponse(r) => Reaction::FloodTrace(response_trace_seen_by(id, &r.path_trace)),
        PacketType::Nack(n) => Reaction::Nack(n),
        PacketType::Ack(a) => Reaction::Ack(a),
        PacketType::MsgFragment(f) => if keeps_fragments {
            Reaction::Fragment(f)
        } else {
            Reaction::Nothing
        },
    }
}

/// Once a node has handled a flood, it answers every later request of the
/// same flood instead of passing it on.
pub proof fn lemma_seen_flood_is_answered(seen: Set<u64>, neighbors: Seq<NodeId>, flood_id: u64)
    ensures
        answers_flood(seen.insert(flood_id), neighbors, flood_id),
{
}

/// A flood passed on goes to every neighbour except the one it came from,
/// never back to that one, and (neighbours being listed once each) once to
/// each.
pub proof fn lemma_forward_targets(neighbors: Seq<NodeId>, prev: NodeId)
    ensures
        forall|n: NodeId| #[trigger] all_but(neighbors, prev).contains(n) <==> neighbors.contains(n) && n != prev,
        neighbors.no_duplicates() ==> all_but(neighbors, prev).no_duplicates(),
    decreases neighbors.len(),
{
    if neighbors.len() > 0 {
        let d = neighbors.drop_last();
        let r = all_but(d, prev);
        lemma_forward_targets(d, prev);
        assert forall|n: NodeId| #[trigger] neighbors.contains(n) <==> d.contains(n) || n == neighbors.last() by {
            if neighbors.contains(n) && n != neighbors.last() {
                let k = choose|k: int| 0 <= k < neighbors.len() && neighbors[k] == n;
                assert(d[k] == n);
            }
            if d.contains(n) {
                let k = choose|k: int| 0 <= k < d.len() && d[k] == n;
                assert(neighbors[k] == n);
            }
            if n == neighbors.last() {
                assert(neighbors[neighbors.len() - 1] == n);
            }
        }
        if neighbors.no_duplicates() {
            assert(!d.contains(neighbors.last())) by {
                if d.contains(neighbors.last()) {
                    let k = choose|k: int| 0 <= k < d.len() && d[k] == neighbors.last();
                    assert(neighbors[k] == neighbors[neighbors.len() - 1]);
                }
            }
            assert(d.no_duplicates()) by {
                assert forall|a: int, b: int| 0 <= a < b < d.len() implies d[a] != d[b] by {
                    assert(neighbors[a] == d[a] && neighbors[b] == d[b]);
                }
            }
        }
        if neighbors.last() != prev {
            let p = r.push(neighbors.last());
            assert forall|n: NodeId| #[trigger] p.contains(n) <==> r.contains(n) || n == neighbors.last() by {
                if p.contains(n) && n != neighbors.last() {
                    let k = choose|k: int| 0 <= k < p.len() && p[k] == n;
                    assert(r[k] == n);
                }
                if r.contains(n) {
                    let k = choose|k: int| 0 <= k < r.len() && r[k] == n;
                    assert(p[k] == n);
                }
                if n == neighbors.last() {
                    assert(p[r.len() as int] == n);
                }
            }
            if neighbors.no_duplicates() {
                assert(!r.contains(neighbors.last()));
                assert forall|a: int, b: int| 0 <= a < b < p.len() implies p[a] != p[b] by {
                    assert(p[a] == r[a]);
                    if b == r.len() {
                        assert(r.contains(r[a]));
                    } else {
                        assert(p[b] == r[b]);
                    }
                }
            }
        }
    }
}

/// The answer to a flood starts its route at the answering node itself, so
/// that it heads first for the hop the flood came through.
pub proof fn lemma_answer_starts_here(req: FloodRequest, id: NodeId)
    ensures
        response_hops(extended_trace(req, id), req.initiator_id).len() >= 1,
        response_hops(extended_trace(req, id), req.initiator_id)[0] == id,
{
    let t = extended_trace(req, id);
    assert(trace_ids(t).reverse()[0] == t[t.len() - 1].0);
}

} // verus!
