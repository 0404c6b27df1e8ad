use drone_net::client::{Client, ClientType};
use drone_net::controller::{DroneCommand, NodeCommand, SimulationController};
use drone_net::flooding::{
    flood_response_header, forward_flood_response, handle_flood_request, response_trace_seen_by, Reaction,
};
use drone_net::fragmentation::{serialize, Assembler, DefaultsRequest, Fragmentation};
use drone_net::initializer::{DroneConfig, EndpointConfig, NetworkConfig};
use drone_net::netbuild::{construct_network, drone_config_index, NetNodeType};
use drone_net::network::{
    distinct_ids, Ack, FloodRequest, FloodResponse, Fragment, Nack, NackType, NodeType, Packet, PacketType,
    SourceRoutingHeader,
};
use drone_net::server::{is_server_type_query, WebServer};
use drone_net::testbed;
use drone_net::topology::ServerType;
use std::collections::HashSet;

fn flood(flood_id: u64, initiator: u8, trace: Vec<(u8, NodeType)>) -> FloodRequest {
    FloodRequest { flood_id, initiator_id: initiator, path_trace: trace }
}

fn trace_of(p: &Packet) -> Vec<(u8, NodeType)> {
    match &p.pack_type {
        PacketType::FloodRequest(f) => f.path_trace.clone(),
        PacketType::FloodResponse(r) => r.path_trace.clone(),
        _ => panic!("not a flood packet"),
    }
}

#[test]
fn new_flood_goes_to_all_but_previous_hop() {
    let mut seen = HashSet::new();
    let req = flood(7, 5, vec![(5, NodeType::Client), (1, NodeType::Drone)]);
    let out = handle_flood_request(6, &vec![1, 2, 3], &mut seen, req, 44);
    assert!(seen.contains(&7));
    let targets: Vec<u8> = out.iter().map(|o| o.0).collect();
    assert_eq!(targets, vec![2, 3]);
    for (_, p) in &out {
        assert_eq!(p.session_id, 44);
        assert_eq!(p.routing_header, SourceRoutingHeader { hop_index: 1, hops: vec![] });
        match &p.pack_type {
            PacketType::FloodRequest(f) => {
                assert_eq!(f.flood_id, 7);
                assert_eq!(f.initiator_id, 5);
                assert_eq!(
                    f.path_trace,
                    vec![(5, NodeType::Client), (1, NodeType::Drone), (6, NodeType::Server)]
                );
            },
            _ => panic!("expected a flood request"),
        }
    }
}

#[test]
fn seen_flood_is_answered_back_along_the_trace() {
    let mut seen = HashSet::new();
    seen.insert(7u64);
    let req = flood(7, 5, vec![(5, NodeType::Client), (1, NodeType::Drone), (2, NodeType::Drone)]);
    let out = handle_flood_request(6, &vec![2, 3], &mut seen, req, 9);
    assert_eq!(out.len(), 1);
    assert_eq!(out[0].0, 2);
    let p = &out[0].1;
    assert_eq!(p.routing_header, SourceRoutingHeader { hop_index: 1, hops: vec![6, 2, 1, 5] });
    assert_eq!(p.session_id, 9);
    match &p.pack_type {
        PacketType::FloodResponse(r) => {
            assert_eq!(r.flood_id, 7);
            assert_eq!(trace_of(p).len(), 4);
        },
        _ => panic!("expected a flood response"),
    }
    assert_eq!(seen.len(), 1);
}

#[test]
fn lone_neighbour_answers_and_adds_missing_initiator() {
    let mut seen = HashSet::new();
    // the trace does not start with the initiator 9
    let req = flood(3, 9, vec![(4, NodeType::Drone)]);
    let out = handle_flood_request(6, &vec![4], &mut seen, req, 1);
    assert!(seen.contains(&3));
    assert_eq!(out.len(), 1);
    assert_eq!(out[0].0, 4);
    assert_eq!(out[0].1.routing_header.hops, vec![6, 4, 9]);
}

#[test]
fn second_request_of_a_flood_is_answered() {
    let mut seen = HashSet::new();
    let first = flood(1, 5, vec![(5, NodeType::Client)]);
    let out = handle_flood_request(6, &vec![1, 2], &mut seen, first, 0);
    // the initiator is not a neighbour, so every neighbour gets the flood
    assert_eq!(out.iter().map(|o| o.0).collect::<Vec<u8>>(), vec![1, 2]);
    assert!(matches!(out[0].1.pack_type, PacketType::FloodRequest(_)));
    let again = flood(1, 5, vec![(5, NodeType::Client), (2, NodeType::Drone)]);
    let out = handle_flood_request(6, &vec![1, 2], &mut seen, again, 0);
    assert_eq!(out.len(), 1);
    assert!(matches!(out[0].1.pack_type, PacketType::FloodResponse(_)));
    assert_eq!(out[0].0, 2);
}

#[test]
fn response_header_reverses_the_trace() {
    let trace = vec![(5, NodeType::Client), (1, NodeType::Drone), (6, NodeType::Server)];
    assert_eq!(flood_response_header(&trace, 5), SourceRoutingHeader { hop_index: 1, hops: vec![6, 1, 5] });
    assert_eq!(flood_response_header(&trace, 8), SourceRoutingHeader { hop_index: 1, hops: vec![6, 1, 5, 8] });
}

#[test]
fn response_trace_gets_the_receiver_in_front() {
    let trace = vec![(1, NodeType::Drone), (6, NodeType::Server)];
    assert_eq!(
        response_trace_seen_by(5, &trace),
        vec![(5, NodeType::Client), (1, NodeType::Drone), (6, NodeType::Server)]
    );
    let own = vec![(5, NodeType::Client), (6, NodeType::Server)];
    assert_eq!(response_trace_seen_by(5, &own), own);
}

#[test]
fn flood_response_is_relayed_one_hop_on() {
    let p = Packet::new_flood_response(
        SourceRoutingHeader { hop_index: 1, hops: vec![6, 2, 1, 5] },
        3,
        FloodResponse { flood_id: 1, path_trace: vec![] },
    );
    let (hop, q) = forward_flood_response(p.clone()).unwrap();
    assert_eq!(hop, 1);
    assert_eq!(q.routing_header.hop_index, 2);
    assert_eq!(q.pack_type, p.pack_type);
    let end = Packet::new_flood_response(
        SourceRoutingHeader { hop_index: 3, hops: vec![6, 2, 1, 5] },
        3,
        FloodResponse { flood_id: 1, path_trace: vec![] },
    );
    assert!(forward_flood_response(end).is_none());
}

#[test]
fn distinct_ids_keeps_first_occurrences() {
    assert_eq!(distinct_ids(&vec![3, 1, 3, 2, 1]), vec![3, 1, 2]);
}

fn client_with_topology() -> Client {
    let mut c = Client::new(5, &vec![1, 1, 3], ClientType::WebBrowser);
    c.client_topology.update_topology((5, NodeType::Client), vec![(1, NodeType::Drone), (2, NodeType::Drone), (6, NodeType::Server)]);
    c
}

#[test]
fn client_reacts_to_packets() {
    let mut c = Client::new(5, &vec![1, 3], ClientType::ChatClient);
    let nack = Nack { fragment_index: 2, nack_type: NackType::Dropped };
    let r = c.on_packet(Packet::new_nack(SourceRoutingHeader::empty_route(), 1, nack));
    assert!(matches!(r, Reaction::Nack(n) if n == nack));
    let r = c.on_packet(Packet::new_ack(SourceRoutingHeader::empty_route(), 1, 4));
    assert!(matches!(r, Reaction::Ack(Ack { fragment_index: 4 })));
    let frag = Fragment::from_string(1, 1, "x".to_string());
    let r = c.on_packet(Packet::new_fragment(SourceRoutingHeader::empty_route(), 1, frag));
    assert!(matches!(r, Reaction::Nothing));
    let resp = Packet::new_flood_response(
        SourceRoutingHeader::with_first_hop(vec![6, 1, 5]),
        1,
        FloodResponse { flood_id: 2, path_trace: vec![(1, NodeType::Drone), (6, NodeType::Server)] },
    );
    match c.on_packet(resp) {
        Reaction::FloodTrace(t) => assert_eq!(t[0], (5, NodeType::Client)),
        _ => panic!("expected a trace"),
    }
    let req = Packet::new_flood_request(SourceRoutingHeader::empty_route(), 8, flood(4, 9, vec![(9, NodeType::Client), (1, NodeType::Drone)]));
    match c.on_packet(req) {
        Reaction::Send(out) => {
            assert_eq!(out.len(), 1);
            assert_eq!(out[0].0, 3);
            assert_eq!(trace_of(&out[0].1).last(), Some(&(5, NodeType::Server)));
        },
        _ => panic!("expected packets to send"),
    }
    assert!(c.flood_ids.contains(&4));
}

#[test]
fn client_starts_a_flood_on_every_link() {
    let c = Client::new(5, &vec![1, 3, 1], ClientType::ChatClient);
    assert_eq!(c.neighbors, vec![1, 3]);
    let out = c.flood_request_packets(2, 11);
    assert_eq!(out.iter().map(|o| o.0).collect::<Vec<u8>>(), vec![1, 3]);
    for (_, p) in out {
        assert_eq!(p, Packet::new_flood_request(SourceRoutingHeader::empty_route(), 2, FloodRequest::new(11, 5)));
    }
}

#[test]
fn client_answers_a_flood_on_all_links_but_one() {
    let c = Client::new(5, &vec![1, 3], ClientType::ChatClient);
    let trace = vec![(6, NodeType::Server), (1, NodeType::Drone), (5, NodeType::Client)];
    let out = c.flood_response_packets(2, 11, &trace);
    assert_eq!(out.len(), 1);
    assert_eq!(out[0].0, 3);
    assert_eq!(out[0].1.routing_header, SourceRoutingHeader { hop_index: 1, hops: vec![5, 1, 6] });
}

#[test]
fn client_acknowledges_through_a_neighbour() {
    let c = Client::new(5, &vec![1, 3], ClientType::ChatClient);
    let (hop, p) = c.ack_packet(4, 3, vec![5, 3, 7], 2).unwrap();
    assert_eq!(hop, 3);
    assert_eq!(p, Packet::new_ack(SourceRoutingHeader::with_first_hop(vec![5, 3, 7]), 4, 2));
    assert_eq!(c.ack_packet(4, 2, vec![5, 2], 2), Err("No sender found"));
}

#[test]
fn client_default_request_travels_the_shortest_route() {
    let c = client_with_topology();
    let (hop, packets) = c.default_request_packets(6, 10, DefaultsRequest::REGISTER).unwrap();
    assert_eq!(hop, 1);
    assert_eq!(packets.len(), 2);
    let mut frags = Vec::new();
    for p in &packets {
        assert_eq!(p.routing_header, SourceRoutingHeader { hop_index: 1, hops: vec![5, 1, 2, 6] });
        assert_eq!(p.session_id, 10);
        match p.pack_type {
            PacketType::MsgFragment(f) => frags.push(f),
            _ => panic!("expected fragments"),
        }
    }
    assert_eq!(frags, serialize(vec![4, 1]));
    assert_eq!(<DefaultsRequest as Assembler<DefaultsRequest>>::assemble(&mut frags), Ok(DefaultsRequest::REGISTER));
    assert_eq!(c.default_request_packets(9, 10, DefaultsRequest::LOGIN).err(), Some("Error in source routing"));
}

#[test]
fn client_string_query_is_fragmented() {
    let c = client_with_topology();
    let (hop, packets) = c.string_query_packets(2, 1, "where is it?".to_string()).unwrap();
    assert_eq!(hop, 1);
    let mut frags: Vec<Fragment> = packets
        .iter()
        .map(|p| match p.pack_type {
            PacketType::MsgFragment(f) => f,
            _ => panic!("expected fragments"),
        })
        .collect();
    let expected = serialize(<String as Fragmentation<String>>::fragment("where is it?".to_string()));
    assert_eq!(frags, expected);
    assert_eq!(<String as Assembler<String>>::assemble(&mut frags), Ok("where is it?".to_string()));
}

#[test]
fn client_generic_fragment_needs_itself_as_neighbour() {
    let c = client_with_topology();
    let f = Fragment::from_string(1, 1, "hi".to_string());
    assert_eq!(c.generic_fragment_packet(6, 1, f), Err("Sender not found"));
    assert_eq!(c.generic_fragment_packet(9, 1, f), Err("No path found"));
    let mut looped = Client::new(5, &vec![5, 1], ClientType::ChatClient);
    looped.client_topology.update_topology((5, NodeType::Client), vec![(1, NodeType::Drone), (6, NodeType::Server)]);
    let (hop, p) = looped.generic_fragment_packet(6, 1, f).unwrap();
    assert_eq!(hop, 5);
    assert_eq!(p.routing_header.hops, vec![5, 1, 6]);
}

#[test]
fn commanded_packet_goes_to_its_current_hop() {
    let p = Packet::new_ack(SourceRoutingHeader { hop_index: 2, hops: vec![5, 1, 3] }, 0, 0);
    let (hop, q) = NodeCommand::SendPacket(p.clone()).into_send().unwrap();
    assert_eq!(hop, 3);
    assert_eq!(q, p);
    let past = Packet::new_ack(SourceRoutingHeader { hop_index: 3, hops: vec![5, 1, 3] }, 0, 0);
    assert!(NodeCommand::SendPacket(past).into_send().is_none());
}

#[test]
fn crash_orders_the_neighbours_to_forget_the_drone() {
    let mut ctrl = SimulationController::new();
    ctrl.add_drone(1, vec![2, 3]);
    ctrl.add_drone(2, vec![1]);
    let cmds = ctrl.crash_all(1).unwrap();
    assert_eq!(
        cmds,
        vec![(1, DroneCommand::Crash), (2, DroneCommand::RemoveSender(1)), (3, DroneCommand::RemoveSender(1))]
    );
    assert!(ctrl.crash_all(7).is_none());
}

#[test]
fn testbed_server_stops_on_fragment_and_relays_responses() {
    let mut s = testbed::Server::new(6, &vec![2, 4]);
    let frag = Fragment::from_string(1, 1, "x".to_string());
    let r = s.on_packet(Packet::new_fragment(SourceRoutingHeader::empty_route(), 1, frag));
    assert!(matches!(r, Reaction::Fragment(f) if f == frag));
    let resp = Packet::new_flood_response(
        SourceRoutingHeader { hop_index: 0, hops: vec![6, 2, 5] },
        1,
        FloodResponse { flood_id: 2, path_trace: vec![(5, NodeType::Client), (2, NodeType::Drone), (6, NodeType::Server)] },
    );
    match s.on_packet_relaying(resp) {
        Reaction::Send(out) => {
            assert_eq!(out.len(), 1);
            assert_eq!(out[0].0, 2);
            assert_eq!(out[0].1.routing_header.hop_index, 1);
        },
        _ => panic!("expected the response to be relayed"),
    }
    let mut c = testbed::Client::new(5, &vec![1]);
    let req = Packet::new_flood_request(SourceRoutingHeader::empty_route(), 3, flood(1, 9, vec![(9, NodeType::Client), (1, NodeType::Drone)]));
    match c.on_packet(req) {
        Reaction::Send(out) => {
            assert_eq!(out.len(), 1);
            assert_eq!(out[0].0, 1);
            assert!(matches!(out[0].1.pack_type, PacketType::FloodResponse(_)));
        },
        _ => panic!("expected an answer"),
    }
}

fn drone(id: u8, links: &[u8]) -> DroneConfig {
    DroneConfig { id, connected_node_ids: links.to_vec(), pdr_in_range: true }
}

fn endpoint(id: u8, links: &[u8]) -> EndpointConfig {
    EndpointConfig { id, connected_drone_ids: links.to_vec() }
}

#[test]
fn network_graph_of_a_configuration() {
    let cfg = NetworkConfig {
        drone: vec![drone(1, &[2, 5, 40]), drone(2, &[1, 6])],
        client: vec![endpoint(5, &[1, 1])],
        server: vec![endpoint(6, &[2]), endpoint(2, &[6])],
    };
    let g = construct_network(&cfg);
    assert_eq!(g.len(), 4);
    assert_eq!(g[&1].node_type, NetNodeType::Drone(1));
    assert_eq!(g[&5].node_type, NetNodeType::Client(5));
    assert_eq!(g[&6].node_type, NetNodeType::Server(ServerType::ChatServer, 6));
    // a server entry wins over a drone entry with the same identifier
    assert_eq!(g[&2].node_type, NetNodeType::Server(ServerType::ChatServer, 2));
    // unknown node 40 is left out, repeated links are kept once
    let mut n1 = g[&1].neighbors.clone();
    n1.sort();
    assert_eq!(n1, vec![2, 5]);
    assert_eq!(g[&5].neighbors, vec![1]);
    let mut n2 = g[&2].neighbors.clone();
    n2.sort();
    assert_eq!(n2, vec![1, 6]);
    assert_eq!(g[&6].name, 6);
}

#[test]
fn drone_options_take_the_last_matching_entry() {
    let drones = vec![drone(1, &[2]), drone(2, &[1]), drone(1, &[])];
    assert_eq!(drone_config_index(&drones, 1), Some(2));
    assert_eq!(drone_config_index(&drones, 2), Some(1));
    assert_eq!(drone_config_index(&drones, 3), None);
}

#[test]
fn server_type_query() {
    assert!(is_server_type_query(&"ServerType".to_string()));
    assert!(!is_server_type_query(&"\"FileList\"".to_string()));
    assert_eq!(WebServer::new(), WebServer {});
}
