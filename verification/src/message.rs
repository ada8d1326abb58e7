use crate::address::SocketAddress;
use crate::id::{InfoHash, NodeId};
use crate::routing::node::NodeHandle;
use vstd::prelude::*;

verus! {

/// The address families of which a requester wants nodes.
#[derive(Clone, Copy, Debug, PartialEq, Eq, Structural)]
pub enum Want {
    V4,
    V6,
    Both,
}

/// Asks whether a node is alive.
#[derive(Clone, Copy, Debug)]
pub struct PingRequest {
    pub id: NodeId,
}

/// Asks for the nodes nearest to a target.
#[derive(Clone, Copy, Debug)]
pub struct FindNodeRequest {
    pub id: NodeId,
    pub target: NodeId,
    pub want: Option<Want>,
}

/// Asks for the peers of an info-hash.
#[derive(Clone, Copy, Debug)]
pub struct GetPeersRequest {
    pub id: NodeId,
    pub info_hash: InfoHash,
}

/// Announces that the sender is a peer of an info-hash. Where `port` is
/// absent the port of the sender's own address is meant.
#[derive(Debug)]
pub struct AnnouncePeerRequest {
    pub id: NodeId,
    pub info_hash: InfoHash,
    pub token: Vec<u8>,
    pub port: Option<u16>,
}

#[derive(Debug)]
pub enum Request {
    Ping(PingRequest),
    FindNode(FindNodeRequest),
    GetPeers(GetPeersRequest),
    AnnouncePeer(AnnouncePeerRequest),
}

/// The answer to a ping, a find-node or an announce request.
#[derive(Debug)]
pub struct OtherResponse {
    pub id: NodeId,
    pub nodes_v4: Vec<NodeHandle>,
    pub nodes_v6: Vec<NodeHandle>,
}

/// The answer to a get-peers request.
#[derive(Debug)]
pub struct GetPeersResponse {
    pub id: NodeId,
    pub values: Vec<SocketAddress>,
    pub nodes: Vec<NodeHandle>,
    pub token: Option<Vec<u8>>,
}

#[derive(Debug)]
pub enum Response {
    Other(OtherResponse),
    GetPeers(GetPeersResponse),
}

/// The answer to a request that could not be served.
#[derive(Debug)]
pub struct Error {
    pub code: u16,
    pub message: String,
}

#[derive(Debug)]
pub enum MessageBody {
    Request(Request),
    Response(Response),
    Error(Error),
}

/// A message of the protocol, as the codec hands it over and takes it.
#[derive(Debug)]
pub struct Message {
    pub transaction_id: Vec<u8>,
    pub body: MessageBody,
}

impl Message {
    /// Whether the message is a request.
    pub open spec fn is_request(self) -> bool {
        self.body is Request
    }

    /// Whether the message is a ping request from `id` with the tag `tag`.
    pub open spec fn is_ping(self, tag: Seq<u8>, id: NodeId) -> bool {
        &&& self.transaction_id@ == tag
        &&& self.body matches MessageBody::Request(Request::Ping(ping)) && ping.id == id
    }

    /// Whether the message is a find-node request from `id` for `target`
    /// with the tag `tag`, which names no address family.
    pub open spec fn is_find_node(self, tag: Seq<u8>, id: NodeId, target: NodeId) -> bool {
        &&& self.transaction_id@ == tag
        &&& self.body matches MessageBody::Request(Request::FindNode(find)) && find.id == id
            && find.target == target && find.want is None
    }

    /// Whether the message is a get-peers request from `id` for `info_hash` with the tag `tag`.
    pub open spec fn is_get_peers(self, tag: Seq<u8>, id: NodeId, info_hash: InfoHash) -> bool {
        &&& self.transaction_id@ == tag
        &&& self.body matches MessageBody::Request(Request::GetPeers(get)) && get.id == id
            && get.info_hash == info_hash
    }

    /// Whether the message is an announce request from `id` for `info_hash`
    /// with the tag `tag`, the token `token` and the port `port`.
    pub open spec fn is_announce_peer(
        self,
        tag: Seq<u8>,
        id: NodeId,
        info_hash: InfoHash,
        token: Seq<u8>,
        port: Option<u16>,
    ) -> bool {
        &&& self.transaction_id@ == tag
        &&& self.body matches MessageBody::Request(Request::AnnouncePeer(announce)) && announce.id
            == id && announce.info_hash == info_hash && announce.token@ == token && announce.port
            == port
    }

    /// Whether the message is the answer of `id` with the tag `tag` and the
    /// nodes `nodes_v4` and `nodes_v6`.
    pub open spec fn is_other_response(
        self,
        tag: Seq<u8>,
        id: NodeId,
        nodes_v4: Seq<NodeHandle>,
        nodes_v6: Seq<NodeHandle>,
    ) -> bool {
        &&& self.transaction_id@ == tag
        &&& self.body matches MessageBody::Response(Response::Other(other)) && other.id == id
            && other.nodes_v4@ == nodes_v4 && other.nodes_v6@ == nodes_v6
    }

    /// Whether the message is the answer of `id` to a get-peers request
    /// with the tag `tag`, the peers `values`, the nodes `nodes` and the token `token`.
    pub open spec fn is_get_peers_response(
        self,
        tag: Seq<u8>,
        id: NodeId,
        values: Seq<SocketAddress>,
        nodes: Seq<NodeHandle>,
        token: Seq<u8>,
    ) -> bool {
        &&& self.transaction_id@ == tag
        &&& self.body matches MessageBody::Response(Response::GetPeers(get)) && get.id == id
            && get.values@ == values && get.nodes@ == nodes && (get.token matches Some(t) && t@
            == token)
    }

    /// Whether the message is an error with the tag `tag`, the code `code`
    /// and the text `text`.
    pub open spec fn is_error(self, tag: Seq<u8>, code: u16, text: Seq<char>) -> bool {
        &&& self.transaction_id@ == tag
        &&& self.body matches MessageBody::Error(error) && error.code == code && error.message@
            == text
    }
}

} // verus!
