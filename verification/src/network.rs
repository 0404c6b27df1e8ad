//! The packet model shared by every node of the network.

use vstd::prelude::*;
use vstd::utf8::encode_utf8;

verus! {

/// Identifier of a node (drone, client or server).
pub type NodeId = u8;

/// Payload capacity of a single fragment, in bytes.
pub const FRAGMENT_DSIZE: usize = 128;

/// Kind of node that appears in a flood path trace.
#[derive(Clone, Copy, Debug, PartialEq, Eq, Structural)]
pub enum NodeType {
    Client,
    Drone,
    Server,
}

/// A piece of a message: at most `FRAGMENT_DSIZE` bytes of `data` are
/// meaningful, the first `length` of them.
#[derive(Clone, Copy, Debug, PartialEq, Eq)]
pub struct Fragment {
    pub fragment_index: u64,
    pub total_n_fragments: u64,
    pub length: u8,
    pub data: [u8; 128],
}

impl Fragment {
    /// The meaningful bytes of a fragment.
    pub open spec fn payload(self) -> Seq<u8> {
        self.data@.subrange(0, self.length as int)
    }

    /// A fragment that carries the first `FRAGMENT_DSIZE` bytes (at most)
    /// of the UTF-8 encoding of `message`, zero-padded.
    pub fn from_string(fragment_index: u64, total_n_fragments: u64, message: String) -> (res: Self)
        ensures
            res.fragment_index == fragment_index,
            res.total_n_fragments == total_n_fragments,
            res.length == (if encode_utf8(message@).len() < FRAGMENT_DSIZE {
                encode_utf8(message@).len()
            } else {
                FRAGMENT_DSIZE as nat
            }),
            res.payload() == encode_utf8(message@).take(res.length as int),
            forall|k: int| res.length <= k < FRAGMENT_DSIZE ==> #[trigger] res.data@[k] == 0,
    {
        let bytes = message.as_str().as_bytes();
        let length: usize = if bytes.len() < FRAGMENT_DSIZE { bytes.len() } else { FRAGMENT_DSIZE };
        let mut data: [u8; 128] = [0u8; 128];
        for i in 0..length
            invariant
                length <= bytes@.len(),
                length <= FRAGMENT_DSIZE,
                forall|k: int| 0 <= k < i ==> #[trigger] data@[k] == bytes@[k],
                forall|k: int| length <= k < FRAGMENT_DSIZE ==> #[trigger] data@[k] == 0,
        {
            data[i] = bytes[i];
        }
        let res = Fragment { fragment_index, total_n_fragments, length: length as u8, data };
        assert(res.payload() =~= bytes@.take(length as int));
        res
    }
}

/// The route a packet follows: the nodes it visits, and the position of the
/// node it is heading to.
#[derive(Clone, Debug, PartialEq, Eq)]
pub struct SourceRoutingHeader {
    pub hop_index: usize,
    pub hops: Vec<NodeId>,
}

impl SourceRoutingHeader {
    /// A route whose first hop (position 0) is the sender itself, so the
    /// packet heads for position 1.
    pub fn with_first_hop(hops: Vec<NodeId>) -> (res: Self)
        ensures
            res.hop_index == 1,
            res.hops@ == hops@,
    {
        SourceRoutingHeader { hop_index: 1, hops }
    }

    /// The route of a packet that is not source-routed (flood requests).
    pub fn empty_route() -> (res: Self)
        ensures
            res.hop_index == 0,
            res.hops@ == Seq::<NodeId>::empty(),
    {
        SourceRoutingHeader { hop_index: 0, hops: Vec::new() }
    }

    /// The node the packet is heading to, if the route reaches that far.
    pub fn current_hop(&self) -> (res: Option<NodeId>)
        ensures
            res == (if self.hop_index < self.hops@.len() {
                Some(self.hops@[self.hop_index as int])
            } else {
                None::<NodeId>
            }),
    {
        if self.hop_index < self.hops.len() {
            Some(self.hops[self.hop_index])
        } else {
            None
        }
    }

    /// Moves on to the next hop of the route.
    pub fn increase_hop_index(&mut self)
        requires
            old(self).hop_index < usize::MAX,
        ensures
            final(self).hop_index == old(self).hop_index + 1,
            final(self).hops@ == old(self).hops@,
    {
        self.hop_index = self.hop_index + 1;
    }
}

/// Acknowledges the arrival of a fragment.
#[derive(Clone, Copy, Debug, PartialEq, Eq)]
pub struct Ack {
    pub fragment_index: u64,
}

/// Why a fragment could not be delivered.
#[derive(Clone, Copy, Debug, PartialEq, Eq)]
pub enum NackType {
    ErrorInRouting(NodeId),
    DestinationIsDrone,
    Dropped,
    UnexpectedRecipient(NodeId),
}

/// Reports that a fragment could not be delivered.
#[derive(Clone, Copy, Debug, PartialEq, Eq)]
pub struct Nack {
    pub fragment_index: u64,
    pub nack_type: NackType,
}

/// Explores the network: every node that forwards it appends itself to the
/// path trace.
#[derive(Clone, Debug, PartialEq, Eq)]
pub struct FloodRequest {
    pub flood_id: u64,
    pub initiator_id: NodeId,
    pub path_trace: Vec<(NodeId, NodeType)>,
}

impl FloodRequest {
    /// A fresh flood started by `initiator_id`, with an empty trace.
    pub fn new(flood_id: u64, initiator_id: NodeId) -> (res: Self)
        ensures
            res.flood_id == flood_id,
            res.initiator_id == initiator_id,
            res.path_trace@ == Seq::<(NodeId, NodeType)>::empty(),
    {
        FloodRequest { flood_id, initiator_id, path_trace: Vec::new() }
    }
}

/// Carries the path trace of a flood back to its initiator.
#[derive(Clone, Debug, PartialEq, Eq)]
pub struct FloodResponse {
    pub flood_id: u64,
    pub path_trace: Vec<(NodeId, NodeType)>,
}

/// What a packet carries.
#[derive(Clone, Debug, PartialEq, Eq)]
pub enum PacketType {
    MsgFragment(Fragment),
    Ack(Ack),
    Nack(Nack),
    FloodRequest(FloodRequest),
    FloodResponse(FloodResponse),
}

/// A packet travelling through the network.
#[derive(Clone, Debug, PartialEq, Eq)]
pub struct Packet {
    pub pack_type: PacketType,
    pub routing_header: SourceRoutingHeader,
    pub session_id: u64,
}

impl Packet {
    pub fn new_fragment(routing_header: SourceRoutingHeader, session_id: u64, fragment: Fragment) -> (res: Self)
        ensures
            res == (Packet { pack_type: PacketType::MsgFragment(fragment), routing_header, session_id }),
    {
        Packet { pack_type: PacketType::MsgFragment(fragment), routing_header, session_id }
    }

    pub fn new_ack(routing_header: SourceRoutingHeader, session_id: u64, fragment_index: u64) -> (res: Self)
        ensures
            res == (Packet { pack_type: PacketType::Ack(Ack { fragment_index }), routing_header, session_id }),
    {
        Packet { pack_type: PacketType::Ack(Ack { fragment_index }), routing_header, session_id }
    }

    pub fn new_nack(routing_header: SourceRoutingHeader, session_id: u64, nack: Nack) -> (res: Self)
        ensures
            res == (Packet { pack_type: PacketType::Nack(nack), routing_header, session_id }),
    {
        Packet { pack_type: PacketType::Nack(nack), routing_header, session_id }
    }

    pub fn new_flood_request(routing_header: SourceRoutingHeader, session_id: u64, flood_request: FloodRequest) -> (res: Self)
        ensures
            res == (Packet { pack_type: PacketType::FloodRequest(flood_request), routing_header, session_id }),
    {
        Packet { pack_type: PacketType::FloodRequest(flood_request), routing_header, session_id }
    }

    pub fn new_flood_response(routing_header: SourceRoutingHeader, session_id: u64, flood_response: FloodResponse) -> (res: Self)
        ensures
            res == (Packet { pack_type: PacketType::FloodResponse(flood_response), routing_header, session_id }),
    {
        Packet { pack_type: PacketType::FloodResponse(flood_response), routing_header, session_id }
    }
}

/// The identifiers of the nodes of a path trace, in order.
pub open spec fn trace_ids(trace: Seq<(NodeId, NodeType)>) -> Seq<NodeId> {
    trace.map_values(|a: (NodeId, NodeType)| a.0)
}

/// A copy of a path trace.
pub fn copy_trace(trace: &Vec<(NodeId, NodeType)>) -> (res: Vec<(NodeId, NodeType)>)
    ensures
        res@ == trace@,
{
    let mut res: Vec<(NodeId, NodeType)> = Vec::new();
    for i in 0..trace.len()
        invariant
            res@ == trace@.take(i as int),
    {
        res.push(trace[i]);
        assert(res@ =~= trace@.take(i + 1));
    }
    assert(trace@.take(trace@.len() as int) =~= trace@);
    res
}

/// A copy of a list of node identifiers.
pub fn copy_ids(ids: &Vec<NodeId>) -> (res: Vec<NodeId>)
    ensures
        res@ == ids@,
{
    let mut res: Vec<NodeId> = Vec::new();
    for i in 0..ids.len()
        invariant
            res@ == ids@.take(i as int),
    {
        res.push(ids[i]);
        assert(res@ =~= ids@.take(i + 1));
    }
    assert(ids@.take(ids@.len() as int) =~= ids@);
    res
}

/// `s` with repeated identifiers dropped: first occurrences, in order.
pub open spec fn distinct(s: Seq<NodeId>) -> Seq<NodeId>
    decreases s.len(),
{
    if s.len() == 0 {
        s
    } else {
        let r = distinct(s.drop_last());
        if r.contains(s.last()) {
            r
        } else {
            r.push(s.last())
        }
    }
}

/// `distinct(s)` holds each identifier of `s` exactly once.
pub proof fn lemma_distinct(s: Seq<NodeId>)
    ensures
        distinct(s).no_duplicates(),
        forall|x: NodeId| #[trigger] distinct(s).contains(x) <==> s.contains(x),
    decreases s.len(),
{
    if s.len() > 0 {
        let r = distinct(s.drop_last());
        lemma_distinct(s.drop_last());
        let d = s.drop_last();
        assert forall|x: NodeId| #[trigger] s.contains(x) <==> d.contains(x) || x == s.last() by {
            if s.contains(x) && x != s.last() {
                let k = choose|k: int| 0 <= k < s.len() && s[k] == x;
                assert(d[k] == x);
            }
            if d.contains(x) {
                let k = choose|k: int| 0 <= k < d.len() && d[k] == x;
                assert(s[k] == x);
            }
            if x == s.last() {
                assert(s[s.len() - 1] == x);
            }
        }
        if !r.contains(s.last()) {
            let p = r.push(s.last());
            assert forall|x: NodeId| #[trigger] p.contains(x) <==> r.contains(x) || x == s.last() by {
                if p.contains(x) && x != s.last() {
                    let k = choose|k: int| 0 <= k < p.len() && p[k] == x;
                    assert(r[k] == x);
                }
                if r.contains(x) {
                    let k = choose|k: int| 0 <= k < r.len() && r[k] == x;
                    assert(p[k] == x);
                }
                if x == s.last() {
                    assert(p[r.len() as int] == x);
                }
            }
        }
    }
}

/// The identifiers of `ids`, each once, in order of first occurrence.
pub fn distinct_ids(ids: &Vec<NodeId>) -> (res: Vec<NodeId>)
    ensures
        res@ == distinct(ids@),
{
    let mut res: Vec<NodeId> = Vec::new();
    for i in 0..ids.len()
        invariant
            res@ == distinct(ids@.take(i as int)),
    {
        let x = ids[i];
        assert(ids@.take(i + 1).drop_last() =~= ids@.take(i as int));
        let mut found = false;
        for j in 0..res.len()
            invariant
                found <==> exists|k: int| 0 <= k < j && res@[k] == x,
        {
            if res[j] == x {
                found = true;
            }
        }
        if !found {
            res.push(x);
        }
    }
    assert(ids@.take(ids@.len() as int) =~= ids@);
    res
}

} // verus!
