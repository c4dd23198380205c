use vstd::prelude::*;

verus! {

/// A client, identified by the 128 bits of its universally unique id.
#[derive(Clone, Copy, Debug, PartialEq, Eq, Hash, Structural)]
pub struct ClientId(pub u128);

/// A server, identified by the 128 bits of its universally unique id.
#[derive(Clone, Copy, Debug, PartialEq, Eq, Hash, Structural)]
pub struct ServerId(pub u128);

/// The authentication handshake.
#[derive(Clone, Debug)]
pub enum AuthMessage {
    Hello { user: ClientId, nonce: [u8; 8] },
    Nonce { server: ServerId, nonce: [u8; 8] },
    Auth { response: [u8; 16] },
}

/// A message as a client hands it to its server.
#[derive(Clone, Debug)]
pub enum ClientMessage {
    Text { dest: ClientId, content: String },
    MText { dest: Vec<ClientId>, content: String },
}

/// A message on its way between servers, with its source and its
/// destinations, each a client and the server it lives on.
#[derive(Clone, Debug)]
pub struct FullyQualifiedMessage {
    pub src: ClientId,
    pub srcsrv: ServerId,
    pub dsts: Vec<(ClientId, ServerId)>,
    pub content: String,
}

/// What one server tells another. In `Announce` the route holds the
/// destination server first and the next hop last; `clients` maps each
/// client of the destination to its name, so it lists each client once.
/// A list that names a client twice is written as it stands but does not
/// read back as written: decoding keeps the later name, in the earlier place.
#[derive(Clone, Debug)]
pub enum ServerMessage {
    Announce { route: Vec<ServerId>, clients: Vec<(ClientId, String)> },
    Message(FullyQualifiedMessage),
}

/// Why a message from a client was not accepted.
#[derive(Clone, Copy, Debug, PartialEq, Eq, Structural)]
pub enum ClientError {
    UnknownClient,
    BoxFull(ClientId),
    InternalError,
}

/// The answer to one destination of a client message.
#[derive(Clone, Debug)]
pub enum ClientReply {
    Delivered,
    Error(ClientError),
    Delayed,
    Transfer(ServerId, ServerMessage),
}

/// An error reported to a client when it polls.
#[derive(Clone, Copy, Debug, PartialEq, Eq, Structural)]
pub enum DelayedError {
    UnknownRecipient(ClientId),
}

/// The answer to a poll.
#[derive(Clone, Debug)]
pub enum ClientPollReply {
    Message { src: ClientId, content: String },
    DelayedError(DelayedError),
    Nothing,
}

/// A request from a client.
#[derive(Clone, Debug)]
pub enum ClientQuery {
    Register(String),
    Message(ClientMessage),
    Poll,
    ListUsers,
}

/// An envelope that a client numbers: `seqid` must grow from one envelope of
/// `src` to the next.
#[derive(Clone, Debug)]
pub struct Sequence<T> {
    pub seqid: u128,
    pub src: ClientId,
    pub content: T,
}

/// A message to be handed to the server `nexthop`.
#[derive(Clone, Debug)]
pub struct Outgoing {
    pub nexthop: ServerId,
    pub message: FullyQualifiedMessage,
}

/// What a server answers to a message from another server.
#[derive(Clone, Debug)]
pub enum ServerReply {
    Outgoing(Vec<Outgoing>),
    Error(String),
    EmptyRoute,
}

// The mathematical values of the messages: strings as their characters,
// vectors and byte arrays as sequences.

pub enum AuthMessageV {
    Hello { user: ClientId, nonce: Seq<u8> },
    Nonce { server: ServerId, nonce: Seq<u8> },
    Auth { response: Seq<u8> },
}

pub enum ClientMessageV {
    Text { dest: ClientId, content: Seq<char> },
    MText { dest: Seq<ClientId>, content: Seq<char> },
}

pub struct FullyQualifiedMessageV {
    pub src: ClientId,
    pub srcsrv: ServerId,
    pub dsts: Seq<(ClientId, ServerId)>,
    pub content: Seq<char>,
}

pub enum ServerMessageV {
    Announce { route: Seq<ServerId>, clients: Seq<(ClientId, Seq<char>)> },
    Message(FullyQualifiedMessageV),
}

pub enum ClientReplyV {
    Delivered,
    Error(ClientError),
    Delayed,
    Transfer(ServerId, ServerMessageV),
}

pub enum ClientPollReplyV {
    Message { src: ClientId, content: Seq<char> },
    DelayedError(DelayedError),
    Nothing,
}

pub enum ClientQueryV {
    Register(Seq<char>),
    Message(ClientMessageV),
    Poll,
    ListUsers,
}

pub struct OutgoingV {
    pub nexthop: ServerId,
    pub message: FullyQualifiedMessageV,
}

pub enum ServerReplyV {
    Outgoing(Seq<OutgoingV>),
    Error(Seq<char>),
    EmptyRoute,
}

/// A list of clients with their names, as characters.
pub open spec fn names_view(l: Seq<(ClientId, String)>) -> Seq<(ClientId, Seq<char>)> {
    l.map_values(|p: (ClientId, String)| (p.0, p.1@))
}

impl View for AuthMessage {
    type V = AuthMessageV;

    open spec fn view(&self) -> AuthMessageV {
        match self {
            AuthMessage::Hello { user, nonce } => AuthMessageV::Hello { user: *user, nonce: nonce@ },
            AuthMessage::Nonce { server, nonce } => AuthMessageV::Nonce {
                server: *server,
                nonce: nonce@,
            },
            AuthMessage::Auth { response } => AuthMessageV::Auth { response: response@ },
        }
    }
}

impl View for ClientMessage {
    type V = ClientMessageV;

    open spec fn view(&self) -> ClientMessageV {
        match self {
            ClientMessage::Text { dest, content } => ClientMessageV::Text {
                dest: *dest,
                content: content@,
            },
            ClientMessage::MText { dest, content } => ClientMessageV::MText {
                dest: dest@,
                content: content@,
            },
        }
    }
}

impl View for FullyQualifiedMessage {
    type V = FullyQualifiedMessageV;

    open spec fn view(&self) -> FullyQualifiedMessageV {
        FullyQualifiedMessageV {
            src: self.src,
            srcsrv: self.srcsrv,
            dsts: self.dsts@,
            content: self.content@,
        }
    }
}

impl View for ServerMessage {
    type V = ServerMessageV;

    open spec fn view(&self) -> ServerMessageV {
        match self {
            ServerMessage::Announce { route, clients } => ServerMessageV::Announce {
                route: route@,
                clients: names_view(clients@),
            },
            ServerMessage::Message(m) => ServerMessageV::Message(m@),
        }
    }
}

impl View for ClientReply {
    type V = ClientReplyV;

    open spec fn view(&self) -> ClientReplyV {
        match self {
            ClientReply::Delivered => ClientReplyV::Delivered,
            ClientReply::Error(e) => ClientReplyV::Error(*e),
            ClientReply::Delayed => ClientReplyV::Delayed,
            ClientReply::Transfer(s, m) => ClientReplyV::Transfer(*s, m@),
        }
    }
}

impl View for ClientPollReply {
    type V = ClientPollReplyV;

    open spec fn view(&self) -> ClientPollReplyV {
        match self {
            ClientPollReply::Message { src, content } => ClientPollReplyV::Message {
                src: *src,
                content: content@,
            },
            ClientPollReply::DelayedError(e) => ClientPollReplyV::DelayedError(*e),
            ClientPollReply::Nothing => ClientPollReplyV::Nothing,
        }
    }
}

impl View for ClientQuery {
    type V = ClientQueryV;

    open spec fn view(&self) -> ClientQueryV {
        match self {
            ClientQuery::Register(name) => ClientQueryV::Register(name@),
            ClientQuery::Message(m) => ClientQueryV::Message(m@),
            ClientQuery::Poll => ClientQueryV::Poll,
            ClientQuery::ListUsers => ClientQueryV::ListUsers,
        }
    }
}

impl View for Outgoing {
    type V = OutgoingV;

    open spec fn view(&self) -> OutgoingV {
        OutgoingV { nexthop: self.nexthop, message: self.message@ }
    }
}

impl View for ServerReply {
    type V = ServerReplyV;

    open spec fn view(&self) -> ServerReplyV {
        match self {
            ServerReply::Outgoing(v) => ServerReplyV::Outgoing(
                v@.map_values(|o: Outgoing| o@),
            ),
            ServerReply::Error(s) => ServerReplyV::Error(s@),
            ServerReply::EmptyRoute => ServerReplyV::EmptyRoute,
        }
    }
}

/// The replies to a client, each as its value.
pub open spec fn replies_view(v: Seq<ClientReply>) -> Seq<ClientReplyV> {
    v.map_values(|r: ClientReply| r@)
}

} // verus!
