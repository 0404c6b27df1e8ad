//! Verified core of a drone-network simulation.
//!
//! - `network`: identifiers, packets, routing headers and fragments.
//! - `fragmentation`: tagged messages cut into fragments and rebuilt.
//! - `topology`: the network a node learns from flood traces, and the
//!   shortest routes drawn on it.
//! - `flooding`: how clients and servers answer or pass on floods.
//! - `client`: a client's floods, acknowledgements and routed requests.
//! - `controller`: the simulation controller's commands.
//! - `testbed`: bare clients and servers used to exercise drones.
//! - `initializer`: configuration checks, links, drone kinds.
//! - `netbuild`: the network graph of a configuration.
//! - `server`: the requests servers accept and their responses.

pub mod network;
pub mod fragmentation;
pub mod topology;
pub mod flooding;
pub mod client;
pub mod controller;
pub mod testbed;
pub mod initializer;
pub mod netbuild;
pub mod server;
