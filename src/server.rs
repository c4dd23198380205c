//! The state machine of one message server: its local clients and their
//! mailboxes, the clients and routes that other servers announced, and the
//! messages held for clients nobody announced yet.
use crate::mailbox::{Mailbox, MAILBOX_SIZE};
use crate::messages::{
    names_view, replies_view, ClientError, ClientId, ClientMessage, ClientPollReply,
    ClientPollReplyV, ClientReply, ClientReplyV, DelayedError, FullyQualifiedMessage,
    FullyQualifiedMessageV, Outgoing, OutgoingV, Sequence, ServerId, ServerMessage,
    ServerMessageV, ServerReply, ServerReplyV,
};
use crate::netproto::wire::unique_keys;
use crate::router::{is_path, mentioned, reachable, routes_view, shortest_path};
use std::collections::HashMap;
use vstd::prelude::*;

verus! {

broadcast use vstd::std_specs::hash::group_hash_axioms;

/// A client registered here: its name, the last number it used, its mailbox.
pub struct LocalClientV {
    pub name: Seq<char>,
    pub seqid: u128,
    pub mailbox: Seq<(ClientId, Seq<char>)>,
}

/// A client of another server: its name and its home server.
pub struct RemoteClientV {
    pub name: Seq<char>,
    pub home: ServerId,
}

/// The state of a server. Maps are keyed by the bits of the client id.
pub struct ServerV {
    pub id: ServerId,
    pub clients: Map<u128, LocalClientV>,
    /// The local clients, in the order they registered.
    pub order: Seq<ClientId>,
    /// The announced routes, each with its destination first and its next hop last.
    pub routes: Seq<Seq<ServerId>>,
    pub remote: Map<u128, RemoteClientV>,
    /// For each client nobody announced yet, the one message held for it:
    /// its sender and its content.
    pub deferred: Map<u128, (ClientId, Seq<char>)>,
}

impl ServerV {
    /// The state's invariant: mailboxes stay within their bound; `order`
    /// lists each local client once; no client is both local and remote, nor
    /// local with a message held for it; every route has a destination.
    pub open spec fn wf(self) -> bool {
        &&& forall|k: u128| #[trigger]
            self.clients.contains_key(k) ==> self.clients[k].mailbox.len() <= MAILBOX_SIZE
        &&& self.order.no_duplicates()
        &&& forall|i: int|
            0 <= i < self.order.len() ==> self.clients.contains_key(#[trigger] self.order[i].0)
        &&& forall|k: u128| #[trigger]
            self.clients.contains_key(k) ==> exists|i: int|
                0 <= i < self.order.len() && #[trigger] self.order[i].0 == k
        &&& forall|k: u128| #[trigger]
            self.clients.contains_key(k) ==> !self.remote.contains_key(k)
                && !self.deferred.contains_key(k)
        &&& forall|i: int| 0 <= i < self.routes.len() ==> (#[trigger] self.routes[i]).len() > 0
    }
}

/// The first route, from index `i` on, whose destination is `h`, or the
/// number of routes where there is none.
pub open spec fn first_route_from(routes: Seq<Seq<ServerId>>, h: ServerId, i: int) -> int
    decreases routes.len() - i,
{
    if i >= routes.len() {
        routes.len() as int
    } else if routes[i].len() > 0 && routes[i][0] == h {
        i
    } else {
        first_route_from(routes, h, i + 1)
    }
}

/// The state with `(src, content)` appended to the mailbox of local client `dest`.
pub open spec fn with_delivery(
    v: ServerV,
    src: ClientId,
    dest: ClientId,
    content: Seq<char>,
) -> ServerV {
    let c = v.clients[dest.0];
    ServerV {
        clients: v.clients.insert(
            dest.0,
            LocalClientV { mailbox: c.mailbox.push((src, content)), ..c },
        ),
        ..v
    }
}

/// What handing `content` from `src` to `dest` does: a local client gets it in
/// its mailbox unless that is full; for a remote client it goes to the next
/// hop of the first route to the client's home, if there is one; for an
/// unknown client it is held, in place of any message held before.
pub open spec fn deliver_one(
    v: ServerV,
    src: ClientId,
    dest: ClientId,
    content: Seq<char>,
) -> (ServerV, ClientReplyV) {
    if v.clients.contains_key(dest.0) {
        if v.clients[dest.0].mailbox.len() >= MAILBOX_SIZE {
            (v, ClientReplyV::Error(ClientError::BoxFull(dest)))
        } else {
            (with_delivery(v, src, dest, content), ClientReplyV::Delivered)
        }
    } else if v.remote.contains_key(dest.0) {
        let h = v.remote[dest.0].home;
        let i = first_route_from(v.routes, h, 0);
        if i < v.routes.len() {
            (
                v,
                ClientReplyV::Transfer(
                    v.routes[i].last(),
                    ServerMessageV::Message(
                        FullyQualifiedMessageV {
                            src,
                            srcsrv: v.id,
                            dsts: seq![(dest, h)],
                            content,
                        },
                    ),
                ),
            )
        } else {
            (v, ClientReplyV::Error(ClientError::UnknownClient))
        }
    } else {
        (ServerV { deferred: v.deferred.insert(dest.0, (src, content)), ..v }, ClientReplyV::Delayed)
    }
}

/// Handing `content` to each of `dests` in turn, with the replies in that order.
pub open spec fn deliver_all(
    v: ServerV,
    src: ClientId,
    dests: Seq<ClientId>,
    content: Seq<char>,
) -> (ServerV, Seq<ClientReplyV>)
    decreases dests.len(),
{
    if dests.len() == 0 {
        (v, seq![])
    } else {
        let (v1, rs) = deliver_all(v, src, dests.drop_last(), content);
        let (v2, r) = deliver_one(v1, src, dests.last(), content);
        (v2, rs.push(r))
    }
}

/// What a poll by `c` does: the oldest delivery leaves its mailbox.
pub open spec fn poll(v: ServerV, c: ClientId) -> (ServerV, ClientPollReplyV) {
    if !v.clients.contains_key(c.0) {
        (v, ClientPollReplyV::DelayedError(DelayedError::UnknownRecipient(c)))
    } else {
        let lc = v.clients[c.0];
        if lc.mailbox.len() == 0 {
            (v, ClientPollReplyV::Nothing)
        } else {
            (
                ServerV {
                    clients: v.clients.insert(
                        c.0,
                        LocalClientV { mailbox: lc.mailbox.drop_first(), ..lc },
                    ),
                    ..v
                },
                ClientPollReplyV::Message { src: lc.mailbox[0].0, content: lc.mailbox[0].1 },
            )
        }
    }
}

/// What an envelope numbered `seqid` from `src` does: accepted, it becomes the
/// last number of `src`; the error says why it is not.
pub open spec fn accept(v: ServerV, src: ClientId, seqid: u128) -> (ServerV, Option<ClientError>) {
    if !v.clients.contains_key(src.0) {
        (v, Some(ClientError::UnknownClient))
    } else if seqid <= v.clients[src.0].seqid {
        (v, Some(ClientError::InternalError))
    } else {
        let c = v.clients[src.0];
        (ServerV { clients: v.clients.insert(src.0, LocalClientV { seqid, ..c }), ..v }, None)
    }
}

/// What registering `id` does: it is taken when both spam checks came back
/// and said no, and `id` is not known yet.
pub open spec fn register(
    v: ServerV,
    id: ClientId,
    name: Seq<char>,
    ip_spam: Option<bool>,
    user_spam: Option<bool>,
) -> (ServerV, Option<ClientId>) {
    if ip_spam == Some(false) && user_spam == Some(false) && !v.clients.contains_key(id.0)
        && !v.remote.contains_key(id.0) && !v.deferred.contains_key(id.0) {
        (
            ServerV {
                clients: v.clients.insert(id.0, LocalClientV { name, seqid: 0, mailbox: seq![] }),
                order: v.order.push(id),
                ..v
            },
            Some(id),
        )
    } else {
        (v, None)
    }
}

/// What announcing client `cid`, reached by `route`, does: unless it is local,
/// it becomes a remote client at home on the route's destination, and the
/// message held for it, if any, leaves towards the route's next hop.
pub open spec fn announce_one(
    v: ServerV,
    route: Seq<ServerId>,
    cid: ClientId,
    name: Seq<char>,
) -> (ServerV, Option<OutgoingV>) {
    if v.clients.contains_key(cid.0) {
        (v, None)
    } else {
        let v1 = ServerV {
            remote: v.remote.insert(cid.0, RemoteClientV { name, home: route[0] }),
            ..v
        };
        if v.deferred.contains_key(cid.0) {
            let held = v.deferred[cid.0];
            (
                ServerV { deferred: v.deferred.remove(cid.0), ..v1 },
                Some(
                    OutgoingV {
                        nexthop: route.last(),
                        message: FullyQualifiedMessageV {
                            src: held.0,
                            srcsrv: v.id,
                            dsts: seq![(cid, route[0])],
                            content: held.1,
                        },
                    },
                ),
            )
        } else {
            (v1, None)
        }
    }
}

/// Announcing each of `clients` in turn, with the messages that leave.
pub open spec fn announce_all(
    v: ServerV,
    route: Seq<ServerId>,
    clients: Seq<(ClientId, Seq<char>)>,
) -> (ServerV, Seq<OutgoingV>)
    decreases clients.len(),
{
    if clients.len() == 0 {
        (v, seq![])
    } else {
        let (v1, out) = announce_all(v, route, clients.drop_last());
        let (v2, o) = announce_one(v1, route, clients.last().0, clients.last().1);
        (
            v2,
            match o {
                Some(x) => out.push(x),
                None => out,
            },
        )
    }
}

/// Announcing clients leaves the routes and the identity as they were.
pub proof fn lemma_announce_all_keeps_routes(
    v: ServerV,
    route: Seq<ServerId>,
    clients: Seq<(ClientId, Seq<char>)>,
)
    ensures
        announce_all(v, route, clients).0.routes == v.routes,
        announce_all(v, route, clients).0.id == v.id,
    decreases clients.len(),
{
    if clients.len() > 0 {
        lemma_announce_all_keeps_routes(v, route, clients.drop_last());
    }
}

/// The state with a message from another server dropped into the mailbox of
/// local client `dest`, where there is room; otherwise unchanged.
pub open spec fn drop_in(v: ServerV, src: ClientId, dest: ClientId, content: Seq<char>) -> ServerV {
    if v.clients.contains_key(dest.0) && v.clients[dest.0].mailbox.len() < MAILBOX_SIZE {
        with_delivery(v, src, dest, content)
    } else {
        v
    }
}

/// What a message from another server does to the state, before its reply:
/// an announce records its route and its clients; a message is dropped into
/// the mailbox of its first destination when that client is local.
pub open spec fn on_server_message(v: ServerV, m: ServerMessageV) -> ServerV {
    match m {
        ServerMessageV::Announce { route, clients } => if route.len() == 0 {
            v
        } else {
            ServerV { routes: v.routes.push(route), ..announce_all(v, route, clients).0 }
        },
        ServerMessageV::Message(f) => if f.dsts.len() == 0 {
            v
        } else {
            drop_in(v, f.src, f.dsts[0].0, f.content)
        },
    }
}

/// The reply to a message from another server: the messages that leave
/// after an announce, or the message itself towards the server of its first
/// destination where a walk reaches that server.
pub open spec fn server_reply(v: ServerV, m: ServerMessageV) -> ServerReplyV {
    match m {
        ServerMessageV::Announce { route, clients } => if route.len() == 0 {
            ServerReplyV::EmptyRoute
        } else {
            ServerReplyV::Outgoing(announce_all(v, route, clients).1)
        },
        ServerMessageV::Message(f) => if f.dsts.len() == 0 {
            ServerReplyV::Error("No destination found for the message"@)
        } else if reachable(v.routes, v.id, f.dsts[0].1) {
            ServerReplyV::Outgoing(seq![OutgoingV { nexthop: f.dsts[0].1, message: f }])
        } else {
            ServerReplyV::Error("Route for the client not found"@)
        },
    }
}

struct LocalClient {
    src_ip: String,
    name: String,
    seqid: u128,
    mailbox: Mailbox,
}

struct RemoteClient {
    name: String,
    srcsrv: ServerId,
}

struct StoredMessage {
    src: ClientId,
    content: String,
}

spec fn local_view(c: LocalClient) -> LocalClientV {
    LocalClientV { name: c.name@, seqid: c.seqid, mailbox: c.mailbox@ }
}

spec fn remote_view(c: RemoteClient) -> RemoteClientV {
    RemoteClientV { name: c.name@, home: c.srcsrv }
}

spec fn stored_view(m: StoredMessage) -> (ClientId, Seq<char>) {
    (m.src, m.content@)
}

/// A message server. Its clients and messages live in maps keyed by the bits
/// of the client id.
pub struct Server {
    id: ServerId,
    clients: HashMap<u128, LocalClient>,
    order: Vec<ClientId>,
    routes: Vec<Vec<ServerId>>,
    remote_clients: HashMap<u128, RemoteClient>,
    stored_messages: HashMap<u128, StoredMessage>,
}

impl View for Server {
    type V = ServerV;

    closed spec fn view(&self) -> ServerV {
        ServerV {
            id: self.id,
            clients: self.clients@.map_values(|c: LocalClient| local_view(c)),
            order: self.order@,
            routes: routes_view(self.routes@),
            remote: self.remote_clients@.map_values(|c: RemoteClient| remote_view(c)),
            deferred: self.stored_messages@.map_values(|m: StoredMessage| stored_view(m)),
        }
    }
}

impl Server {
    /// A server with the given identity, and no clients, routes or messages.
    pub fn new(id: ServerId) -> (r: Server)
        ensures
            r@ == (ServerV {
                id,
                clients: Map::empty(),
                order: seq![],
                routes: seq![],
                remote: Map::empty(),
                deferred: Map::empty(),
            }),
            r@.wf(),
    {
        let r = Server {
            id,
            clients: HashMap::new(),
            order: Vec::new(),
            routes: Vec::new(),
            remote_clients: HashMap::new(),
            stored_messages: HashMap::new(),
        };
        assert(r@.clients =~= Map::empty());
        assert(r@.routes =~= seq![]);
        assert(r@.remote =~= Map::empty());
        assert(r@.deferred =~= Map::empty());
        r
    }

    /// This server's identity.
    pub fn id(&self) -> (r: ServerId)
        ensures
            r == self@.id,
    {
        self.id
    }

    /// Registers client `id` from `src_ip` under `name`, given what the two
    /// spam checks answered (`None` where one did not answer in time).
    pub fn register_local_client(
        &mut self,
        id: ClientId,
        src_ip: String,
        name: String,
        ip_spam: Option<bool>,
        user_spam: Option<bool>,
    ) -> (r: Option<ClientId>)
        requires
            old(self)@.wf(),
        ensures
            (final(self)@, r) == register(old(self)@, id, name@, ip_spam, user_spam),
            final(self)@.wf(),
    {
        let fresh = !self.clients.contains_key(&id.0) && !self.remote_clients.contains_key(&id.0)
            && !self.stored_messages.contains_key(&id.0);
        if ip_spam == Some(false) && user_spam == Some(false) && fresh {
            let c = LocalClient { src_ip, name, seqid: 0, mailbox: Mailbox::new() };
            self.clients.insert(id.0, c);
            self.order.push(id);
            proof {
                let v = register(old(self)@, id, name@, ip_spam, user_spam).0;
                assert(self@.clients =~= v.clients);
                assert(self@.order =~= v.order);
                assert(self@ == v);
                let o = old(self)@;
                assert forall|k: u128| #[trigger] v.clients.contains_key(k) implies exists|i: int|
                    0 <= i < v.order.len() && #[trigger] v.order[i].0 == k by {
                    if k == id.0 {
                        assert(v.order[o.order.len() as int].0 == k);
                    } else {
                        let i = choose|i: int| 0 <= i < o.order.len() && o.order[i].0 == k;
                        assert(v.order[i].0 == k);
                    }
                }
                assert(v.order.no_duplicates()) by {
                    assert forall|i: int| 0 <= i < o.order.len() implies o.order[i] != id by {
                        assert(o.clients.contains_key(o.order[i].0));
                    }
                }
            }
            Some(id)
        } else {
            None
        }
    }

    /// Checks that `sequence` is numbered above the last envelope of its
    /// source and, if so, records its number and hands back its content.
    pub fn handle_sequenced_message<A>(&mut self, sequence: Sequence<A>) -> (r: Result<
        A,
        ClientError,
    >)
        requires
            old(self)@.wf(),
        ensures
            ({
                let (v, e) = accept(old(self)@, sequence.src, sequence.seqid);
                &&& final(self)@ == v
                &&& match e {
                    None => r == Ok::<A, ClientError>(sequence.content),
                    Some(err) => r == Err::<A, ClientError>(err),
                }
            }),
            final(self)@.wf(),
    {
        let k = sequence.src.0;
        match self.clients.remove(&k) {
            Some(mut c) => {
                if c.seqid < sequence.seqid {
                    c.seqid = sequence.seqid;
                    self.clients.insert(k, c);
                    proof {
                        let v = accept(old(self)@, sequence.src, sequence.seqid).0;
                        assert(self@.clients =~= v.clients);
                    }
                    Ok(sequence.content)
                } else {
                    self.clients.insert(k, c);
                    proof {
                        assert(self@.clients =~= old(self)@.clients);
                    }
                    Err(ClientError::InternalError)
                }
            },
            None => {
                proof {
                    assert(self@.clients =~= old(self)@.clients);
                }
                Err(ClientError::UnknownClient)
            },
        }
    }

    /// Hands back the oldest delivery waiting for `client`.
    pub fn client_poll(&mut self, client: ClientId) -> (r: ClientPollReply)
        requires
            old(self)@.wf(),
        ensures
            (final(self)@, r@) == poll(old(self)@, client),
            final(self)@.wf(),
    {
        let k = client.0;
        match self.clients.remove(&k) {
            Some(mut c) => {
                let e = c.mailbox.pop();
                self.clients.insert(k, c);
                proof {
                    let v = poll(old(self)@, client).0;
                    assert(self@.clients =~= v.clients);
                }
                match e {
                    Some((src, content)) => ClientPollReply::Message { src, content },
                    None => ClientPollReply::Nothing,
                }
            },
            None => {
                proof {
                    assert(self@.clients =~= old(self)@.clients);
                }
                ClientPollReply::DelayedError(DelayedError::UnknownRecipient(client))
            },
        }
    }

    /// The index of the first route whose destination is `h`, if there is one.
    fn find_route(&self, h: ServerId) -> (r: Option<usize>)
        requires
            self@.wf(),
        ensures
            match r {
                Some(i) => i == first_route_from(self@.routes, h, 0) && i < self@.routes.len(),
                None => first_route_from(self@.routes, h, 0) == self@.routes.len(),
            },
    {
        let ghost rs = self@.routes;
        let mut i: usize = 0;
        while i < self.routes.len()
            invariant
                rs == self@.routes,
                self@.wf(),
                i <= rs.len(),
                first_route_from(rs, h, 0) == first_route_from(rs, h, i as int),
            decreases rs.len() - i,
        {
            assert(rs[i as int] == self.routes@[i as int]@);
            assert(rs[i as int].len() > 0);
            if self.get_srv_dist(self.routes[i].as_slice()) == h {
                return Some(i);
            }
            i = i + 1;
        }
        None
    }

    /// Hands `content` from `src` to `dest`: into its mailbox, towards its
    /// home server, or held until `dest` is announced.
    pub fn client_message(&mut self, src: ClientId, dest: ClientId, content: String) -> (r:
        ClientReply)
        requires
            old(self)@.wf(),
        ensures
            (final(self)@, r@) == deliver_one(old(self)@, src, dest, content@),
            final(self)@.wf(),
    {
        let k = dest.0;
        match self.clients.remove(&k) {
            Some(mut c) => {
                let accepted = c.mailbox.push(src, content);
                self.clients.insert(k, c);
                proof {
                    if accepted {
                        let v = deliver_one(old(self)@, src, dest, content@).0;
                        assert(self@.clients =~= v.clients);
                    } else {
                        assert(self@.clients =~= old(self)@.clients);
                    }
                }
                if accepted {
                    ClientReply::Delivered
                } else {
                    ClientReply::Error(ClientError::BoxFull(dest))
                }
            },
            None => {
                proof {
                    assert(self@.clients =~= old(self)@.clients);
                }
                let home = match self.remote_clients.get(&k) {
                    Some(rc) => Some(rc.srcsrv),
                    None => None,
                };
                match home {
                    Some(h) => match self.find_route(h) {
                        Some(i) => {
                            assert(self@.routes[i as int] == self.routes@[i as int]@);
                            let nexthop = self.get_nexthop(self.routes[i].as_slice());
                            let message = FullyQualifiedMessage {
                                src,
                                srcsrv: self.id,
                                dsts: vec![(dest, h)],
                                content,
                            };
                            proof {
                                assert(message@.dsts =~= seq![(dest, h)]);
                            }
                            ClientReply::Transfer(nexthop, ServerMessage::Message(message))
                        },
                        None => ClientReply::Error(ClientError::UnknownClient),
                    },
                    None => {
                        self.stored_messages.insert(k, StoredMessage { src, content });
                        proof {
                            let v = deliver_one(old(self)@, src, dest, content@).0;
                            assert(self@.deferred =~= v.deferred);
                        }
                        ClientReply::Delayed
                    },
                }
            },
        }
    }

    /// Handles a message from local client `src`: one reply for each
    /// destination, in order.
    pub fn handle_client_message(&mut self, src: ClientId, msg: ClientMessage) -> (r: Vec<
        ClientReply,
    >)
        requires
            old(self)@.wf(),
        ensures
            ({
                let (dests, content) = match msg@ {
                    crate::messages::ClientMessageV::Text { dest, content } => (seq![dest], content),
                    crate::messages::ClientMessageV::MText { dest, content } => (dest, content),
                };
                (final(self)@, replies_view(r@)) == deliver_all(old(self)@, src, dests, content)
            }),
            final(self)@.wf(),
    {
        let mut resp: Vec<ClientReply> = Vec::new();
        match msg {
            ClientMessage::Text { dest, content } => {
                let ghost c = content@;
                let r = self.client_message(src, dest, content);
                resp.push(r);
                proof {
                    let d = seq![dest];
                    assert(d.drop_last() =~= seq![]);
                    assert(replies_view(resp@) =~= seq![r@]);
                    assert(deliver_all(old(self)@, src, d.drop_last(), c) == (
                        old(self)@,
                        Seq::<ClientReplyV>::empty(),
                    ));
                }
            },
            ClientMessage::MText { dest, content } => {
                let mut i: usize = 0;
                while i < dest.len()
                    invariant
                        i <= dest@.len(),
                        self@.wf(),
                        (self@, replies_view(resp@)) == deliver_all(
                            old(self)@,
                            src,
                            dest@.take(i as int),
                            content@,
                        ),
                    decreases dest@.len() - i,
                {
                    let r = self.client_message(src, dest[i], content.clone());
                    resp.push(r);
                    proof {
                        assert(dest@.take(i + 1).drop_last() =~= dest@.take(i as int));
                        assert(replies_view(resp@) =~= replies_view(resp@.drop_last()).push(r@));
                    }
                    i = i + 1;
                }
                proof {
                    assert(dest@.take(i as int) =~= dest@);
                }
            },
        }
        resp
    }

    /// Records that client `cid`, named `name`, is reached by `route`, and
    /// sends on the message held for it, if any.
    fn announce_client(
        &mut self,
        route: &Vec<ServerId>,
        cid: ClientId,
        name: String,
        out: &mut Vec<Outgoing>,
    )
        requires
            old(self)@.wf(),
            route@.len() > 0,
        ensures
            ({
                let (v, o) = announce_one(old(self)@, route@, cid, name@);
                &&& final(self)@ == v
                &&& final(out)@.map_values(|x: Outgoing| x@) == match o {
                    Some(x) => old(out)@.map_values(|x: Outgoing| x@).push(x),
                    None => old(out)@.map_values(|x: Outgoing| x@),
                }
            }),
            final(self)@.wf(),
    {
        if self.clients.contains_key(&cid.0) {
            return;
        }
        let h = self.get_srv_dist(route.as_slice());
        let nexthop = self.get_nexthop(route.as_slice());
        self.remote_clients.insert(cid.0, RemoteClient { name, srcsrv: h });
        let ghost mid = self@;
        proof {
            let v1 = ServerV {
                remote: old(self)@.remote.insert(cid.0, RemoteClientV { name: name@, home: route@[0] }),
                ..old(self)@
            };
            assert(self@.remote =~= v1.remote);
        }
        match self.stored_messages.remove(&cid.0) {
            Some(m) => {
                let message = FullyQualifiedMessage {
                    src: m.src,
                    srcsrv: self.id,
                    dsts: vec![(cid, h)],
                    content: m.content,
                };
                let ghost before = out@;
                out.push(Outgoing { nexthop, message });
                proof {
                    assert(message@.dsts =~= seq![(cid, route@[0])]);
                    assert(self@.deferred =~= old(self)@.deferred.remove(cid.0));
                    assert(out@.map_values(|x: Outgoing| x@) =~= before.map_values(
                        |x: Outgoing| x@,
                    ).push(out@.last()@));
                }
            },
            None => {
                proof {
                    assert(self@.deferred =~= old(self)@.deferred);
                }
            },
        }
    }

    /// Handles a message from another server. An announce with an empty
    /// route is refused; otherwise its route is stored, its clients become
    /// remote clients, and the messages held for them leave. A message is
    /// dropped into the mailbox of its first destination when that client is
    /// local and has room, and leaves towards the destination's server when a
    /// walk reaches that server.
    pub fn handle_server_message(&mut self, msg: ServerMessage) -> (r: ServerReply)
        requires
            old(self)@.wf(),
        ensures
            final(self)@ == on_server_message(old(self)@, msg@),
            final(self)@.wf(),
            r@ == server_reply(old(self)@, msg@),
    {
        match msg {
            ServerMessage::Announce { route, clients } => {
                if route.len() == 0 {
                    return ServerReply::EmptyRoute;
                }
                let ghost cs = names_view(clients@);
                let mut out: Vec<Outgoing> = Vec::new();
                let mut i: usize = 0;
                while i < clients.len()
                    invariant
                        i <= clients@.len(),
                        route@.len() > 0,
                        cs == names_view(clients@),
                        self@.wf(),
                        (self@, out@.map_values(|x: Outgoing| x@)) == announce_all(
                            old(self)@,
                            route@,
                            cs.take(i as int),
                        ),
                    decreases clients@.len() - i,
                {
                    let cid = clients[i].0;
                    let name = clients[i].1.clone();
                    self.announce_client(&route, cid, name, &mut out);
                    proof {
                        assert(cs.take(i + 1).drop_last() =~= cs.take(i as int));
                        assert(cs.take(i + 1).last() == cs[i as int]);
                    }
                    i = i + 1;
                }
                proof {
                    assert(cs.take(i as int) =~= cs);
                }
                let ghost before = self@;
                self.routes.push(route);
                proof {
                    lemma_announce_all_keeps_routes(old(self)@, route@, cs);
                    assert(self@.routes =~= before.routes.push(route@));
                }
                ServerReply::Outgoing(out)
            },
            ServerMessage::Message(f) => {
                if f.dsts.len() == 0 {
                    return ServerReply::Error("No destination found for the message".to_string());
                }
                let (cid, srv) = f.dsts[0];
                match self.clients.remove(&cid.0) {
                    Some(mut c) => {
                        let _ = c.mailbox.push(f.src, f.content.clone());
                        self.clients.insert(cid.0, c);
                        proof {
                            let v = on_server_message(old(self)@, ServerMessageV::Message(f@));
                            assert(self@.clients =~= v.clients);
                        }
                    },
                    None => {
                        proof {
                            assert(self@.clients =~= old(self)@.clients);
                        }
                    },
                }
                match self.route_to(srv) {
                    Some(path) => {
                        let nexthop = self.get_nexthop(path.as_slice());
                        let out = vec![Outgoing { nexthop, message: f }];
                        proof {
                            assert(out@.map_values(|x: Outgoing| x@) =~= seq![
                                OutgoingV { nexthop: srv, message: f@ },
                            ]);
                        }
                        ServerReply::Outgoing(out)
                    },
                    None => ServerReply::Error("Route for the client not found".to_string()),
                }
            },
        }
    }

    /// The local clients with their names, in the order they registered.
    pub fn list_users(&self) -> (r: Vec<(ClientId, String)>)
        requires
            self@.wf(),
        ensures
            names_view(r@) == self@.order.map_values(|c: ClientId| (c, self@.clients[c.0].name)),
            unique_keys(names_view(r@)),
    {
        let ghost want = self@.order.map_values(|c: ClientId| (c, self@.clients[c.0].name));
        let mut out: Vec<(ClientId, String)> = Vec::new();
        let mut i: usize = 0;
        while i < self.order.len()
            invariant
                i <= self@.order.len(),
                self@.wf(),
                want == self@.order.map_values(|c: ClientId| (c, self@.clients[c.0].name)),
                names_view(out@) == want.take(i as int),
            decreases self@.order.len() - i,
        {
            let c = self.order[i];
            assert(self@.clients.contains_key(self@.order[i as int].0));
            match self.clients.get(&c.0) {
                Some(lc) => {
                    let name = lc.name.clone();
                    proof {
                        assert(self.clients@[c.0] == *lc);
                        assert(self@.clients[c.0] == local_view(*lc));
                        assert(name@ == self@.clients[c.0].name);
                    }
                    let ghost before = out@;
                    out.push((c, name));
                    proof {
                        assert(want[i as int] == (c, name@));
                        assert(names_view(out@) =~= names_view(before).push((c, name@)));
                        assert(want.take(i + 1) =~= want.take(i as int).push(want[i as int]));
                        assert(names_view(out@) =~= want.take(i + 1));
                    }
                },
                None => {},
            }
            i = i + 1;
        }
        proof {
            assert(want.take(i as int) =~= want);
            assert forall|a: int, b: int| 0 <= a < b < want.len() implies want[a].0 != want[b].0 by {
                assert(want[a].0 == self@.order[a]);
                assert(want[b].0 == self@.order[b]);
            }
        }
        out
    }

    /// A shortest walk from this server to `destination` in the graph of the
    /// known routes, or `None` where none reaches it.
    pub fn route_to(&self, destination: ServerId) -> (r: Option<Vec<ServerId>>)
        ensures
            destination == self@.id ==> (r matches Some(p) && p@ == seq![self@.id]),
            r matches Some(p) ==> is_path(self@.routes, self@.id, p@) && p@.last() == destination,
            r matches Some(p) ==> forall|q: Seq<ServerId>|
                is_path(self@.routes, self@.id, q) && q.last() == destination ==> p@.len()
                    <= q.len(),
            r is None <==> !reachable(self@.routes, self@.id, destination),
            destination != self@.id && !mentioned(self@.routes, destination) ==> r is None,
    {
        shortest_path(&self.routes, self.id, destination)
    }

    /// The destination of a route: its first server.
    fn get_srv_dist(&self, route: &[ServerId]) -> (r: ServerId)
        requires
            route@.len() > 0,
        ensures
            r == route@[0],
    {
        route[0]
    }

    /// The next hop of a route: its last server.
    fn get_nexthop(&self, route: &[ServerId]) -> (r: ServerId)
        requires
            route@.len() > 0,
        ensures
            r == route@.last(),
    {
        route[route.len() - 1]
    }
}

// ------------------------------------------------------------------- laws

/// Something that happens at one local client's mailbox.
pub enum MailboxEvent {
    /// A delivery from `src` of `content`.
    Deliver { src: ClientId, content: Seq<char> },
    /// A poll by the client.
    Poll,
}

/// The state after the events at client `c`, with the replies to the
/// deliveries and to the polls, each in order.
pub open spec fn run_mailbox(v: ServerV, c: ClientId, evs: Seq<MailboxEvent>) -> (
    ServerV,
    Seq<ClientReplyV>,
    Seq<ClientPollReplyV>,
)
    decreases evs.len(),
{
    if evs.len() == 0 {
        (v, seq![], seq![])
    } else {
        let (v1, drs, prs) = run_mailbox(v, c, evs.drop_last());
        match evs.last() {
            MailboxEvent::Deliver { src, content } => {
                let (v2, r) = deliver_one(v1, src, c, content);
                (v2, drs.push(r), prs)
            },
            MailboxEvent::Poll => {
                let (v2, p) = poll(v1, c);
                (v2, drs, prs.push(p))
            },
        }
    }
}

/// The deliveries among the events, as sender and content, in order.
pub open spec fn deliveries(evs: Seq<MailboxEvent>) -> Seq<(ClientId, Seq<char>)>
    decreases evs.len(),
{
    if evs.len() == 0 {
        seq![]
    } else {
        match evs.last() {
            MailboxEvent::Deliver { src, content } => deliveries(evs.drop_last()).push((src, content)),
            MailboxEvent::Poll => deliveries(evs.drop_last()),
        }
    }
}

/// A mailbox is first in, first out: starting empty, after deliveries that
/// were all accepted and polls that all found a message, the mailbox holds
/// the deliveries not polled yet, in the order they came, and the polls
/// handed out the others, in that same order.
pub proof fn lemma_mailbox_fifo(v: ServerV, c: ClientId, evs: Seq<MailboxEvent>)
    requires
        v.clients.contains_key(c.0),
        v.clients[c.0].mailbox == Seq::<(ClientId, Seq<char>)>::empty(),
        forall|i: int|
            0 <= i < run_mailbox(v, c, evs).1.len() ==> #[trigger] run_mailbox(v, c, evs).1[i]
                == ClientReplyV::Delivered,
        forall|i: int|
            0 <= i < run_mailbox(v, c, evs).2.len() ==> (#[trigger] run_mailbox(
                v,
                c,
                evs,
            ).2[i]) is Message,
    ensures
        ({
            let (w, _, prs) = run_mailbox(v, c, evs);
            let d = deliveries(evs);
            &&& w.clients.contains_key(c.0)
            &&& prs.len() <= d.len()
            &&& w.clients[c.0].mailbox == d.skip(prs.len() as int)
            &&& forall|i: int|
                0 <= i < prs.len() ==> #[trigger] prs[i] == ClientPollReplyV::Message {
                    src: d[i].0,
                    content: d[i].1,
                }
        }),
    decreases evs.len(),
{
    if evs.len() == 0 {
        assert(deliveries(evs).skip(0) =~= Seq::<(ClientId, Seq<char>)>::empty());
    } else {
        let init = evs.drop_last();
        let (v1, drs, prs) = run_mailbox(v, c, init);
        let run = run_mailbox(v, c, evs);
        assert forall|i: int| 0 <= i < drs.len() implies #[trigger] drs[i]
            == ClientReplyV::Delivered by {
            assert(run.1[i] == drs[i]);
        }
        assert forall|i: int| 0 <= i < prs.len() implies (#[trigger] prs[i]) is Message by {
            assert(run.2[i] == prs[i]);
        }
        lemma_mailbox_fifo(v, c, init);
        let d0 = deliveries(init);
        match evs.last() {
            MailboxEvent::Deliver { src, content } => {
                assert(run.1[drs.len() as int] == ClientReplyV::Delivered);
                assert(deliveries(evs) == d0.push((src, content)));
                assert(d0.push((src, content)).skip(prs.len() as int) =~= d0.skip(
                    prs.len() as int,
                ).push((src, content)));
            },
            MailboxEvent::Poll => {
                assert(run.2[prs.len() as int] is Message);
                let mb = v1.clients[c.0].mailbox;
                assert(mb.len() > 0);
                assert(mb[0] == d0[prs.len() as int]);
                assert(d0.skip(prs.len() + 1 as int) =~= mb.drop_first());
            },
        }
    }
}

/// A delivery to a full mailbox is refused with the recipient's id, and
/// changes nothing.
pub proof fn lemma_full_mailbox_refuses(
    v: ServerV,
    src: ClientId,
    dest: ClientId,
    content: Seq<char>,
)
    requires
        v.clients.contains_key(dest.0),
        v.clients[dest.0].mailbox.len() == MAILBOX_SIZE,
    ensures
        deliver_one(v, src, dest, content) == (v, ClientReplyV::Error(ClientError::BoxFull(dest))),
{
}

/// The state after envelopes numbered `ids`, all from `src`, with what each
/// got: `None` where it was accepted.
pub open spec fn run_sequence(v: ServerV, src: ClientId, ids: Seq<u128>) -> (
    ServerV,
    Seq<Option<ClientError>>,
)
    decreases ids.len(),
{
    if ids.len() == 0 {
        (v, seq![])
    } else {
        let (v1, rs) = run_sequence(v, src, ids.drop_last());
        let (v2, r) = accept(v1, src, ids.last());
        (v2, rs.push(r))
    }
}

proof fn lemma_sequence_last(v: ServerV, src: ClientId, ids: Seq<u128>)
    requires
        v.clients.contains_key(src.0),
    ensures
        ({
            let (w, rs) = run_sequence(v, src, ids);
            &&& rs.len() == ids.len()
            &&& w.clients.contains_key(src.0)
            &&& w.clients[src.0].seqid >= v.clients[src.0].seqid
            &&& forall|i: int|
                0 <= i < ids.len() && #[trigger] rs[i] is None ==> ids[i]
                    <= w.clients[src.0].seqid
            &&& forall|i: int|
                0 <= i < ids.len() && #[trigger] rs[i] is None ==> ids[i] > v.clients[src.0].seqid
            &&& w.clients[src.0].seqid == v.clients[src.0].seqid || exists|j: int|
                0 <= j < ids.len() && #[trigger] rs[j] is None && ids[j] == w.clients[src.0].seqid
        }),
    decreases ids.len(),
{
    if ids.len() > 0 {
        lemma_sequence_last(v, src, ids.drop_last());
        let (v1, rs1) = run_sequence(v, src, ids.drop_last());
        let (w, rs) = run_sequence(v, src, ids);
        let n = ids.len() - 1;
        if rs[n] is None {
            assert(ids[n] == w.clients[src.0].seqid);
        } else if v1.clients[src.0].seqid != v.clients[src.0].seqid {
            let j = choose|j: int|
                0 <= j < n && #[trigger] rs1[j] is None && ids.drop_last()[j]
                    == v1.clients[src.0].seqid;
            assert(rs[j] == rs1[j]);
            assert(ids[j] == ids.drop_last()[j]);
        }
        assert forall|i: int| 0 <= i < ids.len() && #[trigger] rs[i] is None implies ids[i]
            <= w.clients[src.0].seqid && ids[i] > v.clients[src.0].seqid by {
            if i < ids.len() - 1 {
                assert(rs[i] == rs1[i]);
                assert(ids.drop_last()[i] == ids[i]);
            }
        }
    }
}

/// The numbers accepted from one client grow strictly: of two envelopes
/// that were both accepted, the later one has the larger number.
pub proof fn lemma_accepted_increase(v: ServerV, src: ClientId, ids: Seq<u128>)
    requires
        v.clients.contains_key(src.0),
    ensures
        ({
            let rs = run_sequence(v, src, ids).1;
            forall|i: int, j: int|
                0 <= i < j < ids.len() && #[trigger] rs[i] is None && #[trigger] rs[j] is None
                    ==> ids[i] < ids[j]
        }),
    decreases ids.len(),
{
    if ids.len() > 0 {
        let init = ids.drop_last();
        lemma_accepted_increase(v, src, init);
        lemma_sequence_last(v, src, init);
        let (v1, rs1) = run_sequence(v, src, init);
        let rs = run_sequence(v, src, ids).1;
        assert forall|i: int, j: int|
            0 <= i < j < ids.len() && #[trigger] rs[i] is None && #[trigger] rs[j]
                is None implies ids[i] < ids[j] by {
            assert(rs[i] == rs1[i]);
            assert(init[i] == ids[i]);
            if j < ids.len() - 1 {
                assert(rs[j] == rs1[j]);
                assert(init[j] == ids[j]);
            }
        }
    }
}

/// An envelope is accepted exactly when its number is above the client's
/// last number before the run and above every number accepted before it.
pub proof fn lemma_accepted_exactly(v: ServerV, src: ClientId, ids: Seq<u128>)
    requires
        v.clients.contains_key(src.0),
    ensures
        ({
            let rs = run_sequence(v, src, ids).1;
            &&& rs.len() == ids.len()
            &&& forall|i: int|
                0 <= i < ids.len() ==> ((#[trigger] rs[i]) is None <==> (ids[i]
                    > v.clients[src.0].seqid && forall|j: int|
                    0 <= j < i && rs[j] is None ==> ids[j] < ids[i]))
        }),
    decreases ids.len(),
{
    lemma_sequence_last(v, src, ids);
    if ids.len() > 0 {
        let init = ids.drop_last();
        lemma_accepted_exactly(v, src, init);
        lemma_sequence_last(v, src, init);
        let (v1, rs1) = run_sequence(v, src, init);
        let rs = run_sequence(v, src, ids).1;
        let n = ids.len() - 1;
        assert forall|i: int| 0 <= i < ids.len() implies ((#[trigger] rs[i]) is None <==> (ids[i]
            > v.clients[src.0].seqid && forall|j: int|
            0 <= j < i && rs[j] is None ==> ids[j] < ids[i])) by {
            assert forall|j: int| 0 <= j < n implies rs[j] == rs1[j] && ids[j] == init[j] by {}
            if i < n {
                assert(rs[i] == rs1[i]);
                assert(ids[i] == init[i]);
            } else {
                let last = v1.clients[src.0].seqid;
                if rs[i] is None {
                    assert(ids[i] > last);
                } else {
                    assert(ids[i] <= last);
                    if last != v.clients[src.0].seqid {
                        let j = choose|j: int|
                            0 <= j < n && #[trigger] rs1[j] is None && init[j] == last;
                        assert(rs[j] is None && ids[j] == last);
                    }
                }
            }
        }
    }
}

/// Client `c` is named in `clients`.
pub open spec fn names_client(clients: Seq<(ClientId, Seq<char>)>, c: ClientId) -> bool {
    exists|i: int| 0 <= i < clients.len() && (#[trigger] clients[i]).0 == c
}

/// The message that leaves for client `c`, reached by `route`, when `held`
/// was held for it.
pub open spec fn released(
    v: ServerV,
    route: Seq<ServerId>,
    c: ClientId,
    held: (ClientId, Seq<char>),
) -> OutgoingV {
    OutgoingV {
        nexthop: route.last(),
        message: FullyQualifiedMessageV {
            src: held.0,
            srcsrv: v.id,
            dsts: seq![(c, route[0])],
            content: held.1,
        },
    }
}

proof fn lemma_announce_all_for(
    v: ServerV,
    route: Seq<ServerId>,
    clients: Seq<(ClientId, Seq<char>)>,
    c: ClientId,
)
    requires
        route.len() > 0,
        !v.clients.contains_key(c.0),
        crate::netproto::wire::unique_keys(clients),
    ensures
        ({
            let (w, outs) = announce_all(v, route, clients);
            &&& w.clients == v.clients
            &&& w.id == v.id
            &&& !names_client(clients, c) ==> {
                &&& w.deferred.contains_key(c.0) == v.deferred.contains_key(c.0)
                &&& w.deferred[c.0] == v.deferred[c.0]
                &&& forall|j: int|
                    0 <= j < outs.len() ==> (#[trigger] outs[j]).message.dsts != seq![
                        (c, route[0]),
                    ]
            }
            &&& names_client(clients, c) ==> {
                &&& !w.deferred.contains_key(c.0)
                &&& v.deferred.contains_key(c.0) ==> exists|i: int|
                    0 <= i < outs.len() && outs[i] == released(v, route, c, v.deferred[c.0])
                        && forall|j: int|
                        0 <= j < outs.len() && (#[trigger] outs[j]).message.dsts == seq![
                            (c, route[0]),
                        ] ==> j == i
                &&& !v.deferred.contains_key(c.0) ==> forall|j: int|
                    0 <= j < outs.len() ==> (#[trigger] outs[j]).message.dsts != seq![
                        (c, route[0]),
                    ]
            }
        }),
    decreases clients.len(),
{
    if clients.len() > 0 {
        let init = clients.drop_last();
        let last = clients.last();
        assert(crate::netproto::wire::unique_keys(init));
        lemma_announce_all_for(v, route, init, c);
        let (v1, out1) = announce_all(v, route, init);
        let (w, outs) = announce_all(v, route, clients);
        let o = announce_one(v1, route, last.0, last.1).1;
        if let Some(x) = o {
            assert(x.message.dsts == seq![(last.0, route[0])]);
            if last.0 != c {
                assert(seq![(last.0, route[0])][0] != seq![(c, route[0])][0]);
            }
        }
        if last.0 == c {
            assert(!names_client(init, c)) by {
                if names_client(init, c) {
                    let i = choose|i: int| 0 <= i < init.len() && (#[trigger] init[i]).0 == c;
                    assert(clients[i].0 == clients[clients.len() - 1].0);
                }
            }
        } else {
            assert(names_client(clients, c) == names_client(init, c)) by {
                if names_client(clients, c) {
                    let i = choose|i: int| 0 <= i < clients.len() && (#[trigger] clients[i]).0 == c;
                    assert(init[i].0 == c);
                }
                if names_client(init, c) {
                    let i = choose|i: int| 0 <= i < init.len() && (#[trigger] init[i]).0 == c;
                    assert(clients[i].0 == c);
                }
            }
        }
        if names_client(clients, c) && v.deferred.contains_key(c.0) && last.0 != c {
            let i = choose|i: int|
                0 <= i < out1.len() && out1[i] == released(v, route, c, v.deferred[c.0])
                    && forall|j: int|
                    0 <= j < out1.len() && (#[trigger] out1[j]).message.dsts == seq![
                        (c, route[0]),
                    ] ==> j == i;
            assert(outs[i] == out1[i]);
        }
        if last.0 == c && v.deferred.contains_key(c.0) {
            assert(names_client(clients, c)) by {
                assert(clients[clients.len() - 1].0 == c);
            }
            assert(outs[out1.len() as int] == released(v, route, c, v.deferred[c.0]));
        }
        if last.0 == c {
            assert(names_client(clients, c)) by {
                assert(clients[clients.len() - 1].0 == c);
            }
        }
    }
}

/// An announce that names a client with a message held for it sends that
/// message on exactly once, towards the route's next hop and the client's
/// home, and holds it no more.
pub proof fn lemma_announce_releases(
    v: ServerV,
    route: Seq<ServerId>,
    clients: Seq<(ClientId, Seq<char>)>,
    c: ClientId,
)
    requires
        v.wf(),
        route.len() > 0,
        crate::netproto::wire::unique_keys(clients),
        names_client(clients, c),
        v.deferred.contains_key(c.0),
    ensures
        ({
            let (w, outs) = announce_all(v, route, clients);
            &&& exists|i: int|
                0 <= i < outs.len() && outs[i] == released(v, route, c, v.deferred[c.0])
                    && forall|j: int|
                    0 <= j < outs.len() && (#[trigger] outs[j]).message.dsts == seq![
                        (c, route[0]),
                    ] ==> j == i
            &&& !w.deferred.contains_key(c.0)
        }),
{
    lemma_announce_all_for(v, route, clients, c);
}

} // verus!
