//! The requests servers accept and the responses they give.

use vstd::prelude::*;
use crate::network::NodeId;
use crate::topology::ServerType;

verus! {

/// A request or response, with the node and session it belongs to.
#[derive(Debug, Clone)]
pub struct Message<M> {
    pub source_id: NodeId,
    pub session_id: u64,
    pub content: M,
}

/// Requests to a text server.
#[derive(Debug, Clone, Copy, PartialEq, Eq, Structural)]
pub enum TextRequest {
    TextList,
    Text(u64),
}

/// Requests to a media server.
#[derive(Debug, Clone, Copy, PartialEq, Eq, Structural)]
pub enum MediaRequest {
    MediaList,
    Media(u64),
}

/// Requests to a chat server.
#[derive(Debug, Clone, PartialEq, Eq)]
pub enum ChatRequest {
    ClientList,
    Register(NodeId),
    SendMessage { from: NodeId, to: NodeId, message: String },
}

/// Responses of a text server.
#[derive(Debug, Clone, PartialEq, Eq)]
pub enum TextResponse {
    TextList(Vec<u64>),
    Text(String),
    NotFound,
}

/// Responses of a media server.
#[derive(Debug, Clone, PartialEq, Eq)]
pub enum MediaResponse {
    MediaList(Vec<u64>),
    Media(Vec<u8>),
}

/// Responses of a chat server.
#[derive(Debug, Clone, PartialEq, Eq)]
pub enum ChatResponse {
    ClientList(Vec<NodeId>),
    MessageFrom { from: NodeId, message: Vec<u8> },
    MessageSent,
}

/// Requests to a web server.
#[derive(Debug, Clone, PartialEq, Eq)]
pub enum WebServerRequest {
    ServerType,
    FileList,
    File { file_id: u64, media_ids: Vec<u64> },
    Media { media_id: u64 },
}

/// Responses of a web server.
#[derive(Debug, Clone, PartialEq, Eq)]
pub enum WebServerResponse {
    ServerType(ServerType),
    FileList { list_length: usize, file_ids: Vec<u64> },
    File { file_size: usize, file: Vec<u8> },
    Media { media_size: usize, media: Vec<u8> },
    ErrorNoFiles,
    ErrorFileNotFound,
    ErrorNoMedia,
    ErrorMediaNotFound,
}

/// A web server; it keeps no state of its own.
#[derive(Debug, Clone, Copy, PartialEq, Eq, Structural)]
pub struct WebServer {}

impl WebServer {
    pub fn new() -> (res: Self)
        ensures
            res == (WebServer {}),
    {
        WebServer {}
    }
}

/// Whether a raw request asks for the kind of server: such a request is
/// answered before any parsing.
pub fn is_server_type_query(raw_content: &String) -> (res: bool)
    ensures
        res == (raw_content@ == "ServerType"@),
{
    let query = "ServerType".to_owned();
    *raw_content == query
}

} // verus!
