use chatproto::mailbox::MAILBOX_SIZE;
use chatproto::messages::{
    ClientError, ClientId, ClientMessage, ClientPollReply, ClientReply, DelayedError,
    FullyQualifiedMessage, Sequence, ServerId, ServerMessage, ServerReply,
};
use chatproto::server::Server;

const ME: ServerId = ServerId(1000);

fn register(s: &mut Server, id: u128, name: &str) -> ClientId {
    s.register_local_client(
        ClientId(id),
        "127.0.0.1".to_string(),
        name.to_string(),
        Some(false),
        Some(false),
    )
    .unwrap()
}

fn text(dest: ClientId, content: &str) -> ClientMessage {
    ClientMessage::Text { dest, content: content.to_string() }
}

fn announce(route: Vec<ServerId>, clients: Vec<(ClientId, String)>) -> ServerMessage {
    ServerMessage::Announce { route, clients }
}

fn scenario(s: &mut Server) {
    let a = register(s, 1, "a");
    let b = register(s, 2, "b");
    let r = s.handle_client_message(a, text(b, "x"));
    assert!(matches!(r.as_slice(), [ClientReply::Delivered]));
    match s.client_poll(b) {
        ClientPollReply::Message { src, content } => {
            assert_eq!(src, a);
            assert_eq!(content, "x");
        }
        other => panic!("unexpected {:?}", other),
    }
    assert!(matches!(s.client_poll(b), ClientPollReply::Nothing));
    let z = ClientId(99);
    let r = s.handle_client_message(a, text(z, "m"));
    assert!(matches!(r.as_slice(), [ClientReply::Delayed]));
    let h = ServerId(7);
    match s.handle_server_message(announce(vec![h], vec![(z, "z".to_string())])) {
        ServerReply::Outgoing(out) => {
            assert_eq!(out.len(), 1);
            assert_eq!(out[0].nexthop, h);
            assert_eq!(out[0].message.content, "m");
            assert_eq!(out[0].message.dsts, vec![(z, h)]);
            assert_eq!(out[0].message.src, a);
            assert_eq!(out[0].message.srcsrv, ME);
        }
        other => panic!("unexpected {:?}", other),
    }
    let r = s.handle_client_message(a, text(z, "again"));
    match r.as_slice() {
        [ClientReply::Transfer(hop, ServerMessage::Message(m))] => {
            assert_eq!(*hop, h);
            assert_eq!(m.dsts, vec![(z, h)]);
            assert_eq!(m.content, "again");
        }
        other => panic!("unexpected {:?}", other),
    }
}

#[allow(non_snake_case)]
#[test]
fn Descamps_Femery_tester() {
    let mut s = Server::new(ME);
    scenario(&mut s);
}

#[test]
fn descamps_femery_tester() {
    let mut s = Server::new(ME);
    scenario(&mut s);
    assert_eq!(s.list_users().len(), 2);
}

#[test]
fn register_needs_both_checks() {
    let mut s = Server::new(ME);
    let ip = "10.0.0.1".to_string();
    assert_eq!(s.register_local_client(ClientId(1), ip.clone(), "a".into(), Some(true), Some(false)), None);
    assert_eq!(s.register_local_client(ClientId(1), ip.clone(), "a".into(), Some(false), Some(true)), None);
    assert_eq!(s.register_local_client(ClientId(1), ip.clone(), "a".into(), None, Some(false)), None);
    assert_eq!(s.register_local_client(ClientId(1), ip.clone(), "a".into(), Some(false), None), None);
    assert_eq!(
        s.register_local_client(ClientId(1), ip.clone(), "a".into(), Some(false), Some(false)),
        Some(ClientId(1))
    );
    // An id already in use is not taken again.
    assert_eq!(s.register_local_client(ClientId(1), ip, "b".into(), Some(false), Some(false)), None);
    assert_eq!(s.list_users(), vec![(ClientId(1), "a".to_string())]);
}

#[test]
fn list_users_in_registration_order() {
    let mut s = Server::new(ME);
    register(&mut s, 5, "five");
    register(&mut s, 3, "three");
    register(&mut s, 9, "nine");
    assert_eq!(
        s.list_users(),
        vec![
            (ClientId(5), "five".to_string()),
            (ClientId(3), "three".to_string()),
            (ClientId(9), "nine".to_string())
        ]
    );
}

#[test]
fn full_mailbox_refuses() {
    let mut s = Server::new(ME);
    let a = register(&mut s, 1, "a");
    let b = register(&mut s, 2, "b");
    for i in 0..MAILBOX_SIZE {
        let r = s.client_message(a, b, format!("m{}", i));
        assert!(matches!(r, ClientReply::Delivered));
    }
    let r = s.handle_client_message(a, text(b, "one more"));
    assert!(matches!(r.as_slice(), [ClientReply::Error(ClientError::BoxFull(x))] if *x == b));
    // The mailbox is as it was: the first delivery comes out first.
    match s.client_poll(b) {
        ClientPollReply::Message { content, .. } => assert_eq!(content, "m0"),
        other => panic!("unexpected {:?}", other),
    }
    let mut n = 1;
    while let ClientPollReply::Message { content, .. } = s.client_poll(b) {
        assert_eq!(content, format!("m{}", n));
        n += 1;
    }
    assert_eq!(n, MAILBOX_SIZE);
}

#[test]
fn mailbox_is_fifo() {
    let mut s = Server::new(ME);
    let a = register(&mut s, 1, "a");
    let c = register(&mut s, 3, "c");
    for i in 0..5 {
        s.client_message(a, c, format!("{}", i));
    }
    for i in 0..2 {
        match s.client_poll(c) {
            ClientPollReply::Message { content, .. } => assert_eq!(content, format!("{}", i)),
            other => panic!("unexpected {:?}", other),
        }
    }
    s.client_message(a, c, "5".to_string());
    let mut rest = Vec::new();
    while let ClientPollReply::Message { content, .. } = s.client_poll(c) {
        rest.push(content);
    }
    assert_eq!(rest, vec!["2", "3", "4", "5"]);
}

#[test]
fn poll_unknown_client() {
    let mut s = Server::new(ME);
    let r = s.client_poll(ClientId(77));
    assert!(matches!(r, ClientPollReply::DelayedError(DelayedError::UnknownRecipient(ClientId(77)))));
}

#[test]
fn sequence_numbers_must_grow() {
    let mut s = Server::new(ME);
    let a = register(&mut s, 1, "a");
    let seq = |n: u128| Sequence { seqid: n, src: a, content: n };
    assert_eq!(s.handle_sequenced_message(seq(5)), Ok(5));
    assert_eq!(s.handle_sequenced_message(seq(5)), Err(ClientError::InternalError));
    assert_eq!(s.handle_sequenced_message(seq(3)), Err(ClientError::InternalError));
    assert_eq!(s.handle_sequenced_message(seq(6)), Ok(6));
    let unknown = Sequence { seqid: 1, src: ClientId(50), content: () };
    assert_eq!(s.handle_sequenced_message(unknown), Err(ClientError::UnknownClient));
    let zero = Sequence { seqid: 0, src: register(&mut s, 2, "b"), content: () };
    assert_eq!(s.handle_sequenced_message(zero), Err(ClientError::InternalError));
}

#[test]
fn multi_text_replies_in_order() {
    let mut s = Server::new(ME);
    let a = register(&mut s, 1, "a");
    let b = register(&mut s, 2, "b");
    let m = ClientMessage::MText { dest: vec![b, ClientId(40), b], content: "hey".to_string() };
    let r = s.handle_client_message(a, m);
    assert!(matches!(r.as_slice(), [ClientReply::Delivered, ClientReply::Delayed, ClientReply::Delivered]));
}

#[test]
fn deferred_message_is_overwritten() {
    let mut s = Server::new(ME);
    let a = register(&mut s, 1, "a");
    let z = ClientId(9);
    s.handle_client_message(a, text(z, "first"));
    s.handle_client_message(a, text(z, "second"));
    match s.handle_server_message(announce(vec![ServerId(3), ServerId(4)], vec![(z, "z".into())])) {
        ServerReply::Outgoing(out) => {
            assert_eq!(out.len(), 1);
            assert_eq!(out[0].message.content, "second");
            assert_eq!(out[0].nexthop, ServerId(4));
            assert_eq!(out[0].message.dsts, vec![(z, ServerId(3))]);
        }
        other => panic!("unexpected {:?}", other),
    }
    // Released once only.
    match s.handle_server_message(announce(vec![ServerId(3)], vec![(z, "z".into())])) {
        ServerReply::Outgoing(out) => assert!(out.is_empty()),
        other => panic!("unexpected {:?}", other),
    }
}

#[test]
fn empty_route_refused() {
    let mut s = Server::new(ME);
    assert!(matches!(s.handle_server_message(announce(vec![], vec![])), ServerReply::EmptyRoute));
}

#[test]
fn remote_client_gets_transfer() {
    let mut s = Server::new(ME);
    let a = register(&mut s, 1, "a");
    s.handle_server_message(announce(vec![ServerId(3)], vec![(ClientId(8), "r".into())]));
    let r = s.handle_client_message(a, text(ClientId(8), "hi"));
    assert!(matches!(r.as_slice(), [ClientReply::Transfer(h, _)] if *h == ServerId(3)));
}

#[test]
fn route_to_self_and_unknown() {
    let mut s = Server::new(ME);
    assert_eq!(s.route_to(ME), Some(vec![ME]));
    assert_eq!(s.route_to(ServerId(5)), None);
    s.handle_server_message(announce(vec![ServerId(3), ServerId(2)], vec![]));
    assert_eq!(s.route_to(ServerId(5)), None);
    assert_eq!(s.route_to(ME), Some(vec![ME]));
}

#[test]
fn route_to_is_shortest() {
    let mut s = Server::new(ME);
    // A long way round: ME - 2 - 3 - 4 - 5, and a short one: ME - 6 - 5.
    s.handle_server_message(announce(vec![ServerId(5), ServerId(4), ServerId(3), ServerId(2)], vec![]));
    assert_eq!(s.route_to(ServerId(5)), Some(vec![ME, ServerId(2), ServerId(3), ServerId(4), ServerId(5)]));
    s.handle_server_message(announce(vec![ServerId(5), ServerId(6)], vec![]));
    assert_eq!(s.route_to(ServerId(5)), Some(vec![ME, ServerId(6), ServerId(5)]));
    assert_eq!(s.route_to(ServerId(3)).map(|p| p.len()), Some(3));
}

#[test]
fn message_from_server_is_delivered_and_routed() {
    let mut s = Server::new(ME);
    let b = register(&mut s, 2, "b");
    let f = FullyQualifiedMessage {
        src: ClientId(50),
        srcsrv: ServerId(9),
        dsts: vec![(b, ME)],
        content: "over the wire".to_string(),
    };
    match s.handle_server_message(ServerMessage::Message(f)) {
        ServerReply::Outgoing(out) => {
            assert_eq!(out.len(), 1);
            assert_eq!(out[0].nexthop, ME);
        }
        other => panic!("unexpected {:?}", other),
    }
    match s.client_poll(b) {
        ClientPollReply::Message { src, content } => {
            assert_eq!(src, ClientId(50));
            assert_eq!(content, "over the wire");
        }
        other => panic!("unexpected {:?}", other),
    }
    let lost = FullyQualifiedMessage {
        src: ClientId(50),
        srcsrv: ServerId(9),
        dsts: vec![(ClientId(60), ServerId(61))],
        content: "?".to_string(),
    };
    match s.handle_server_message(ServerMessage::Message(lost)) {
        ServerReply::Error(e) => assert_eq!(e, "Route for the client not found"),
        other => panic!("unexpected {:?}", other),
    }
    let none = FullyQualifiedMessage { src: ClientId(50), srcsrv: ServerId(9), dsts: vec![], content: "".into() };
    match s.handle_server_message(ServerMessage::Message(none)) {
        ServerReply::Error(e) => assert_eq!(e, "No destination found for the message"),
        other => panic!("unexpected {:?}", other),
    }
}

#[test]
fn message_from_server_routed_to_remote() {
    let mut s = Server::new(ME);
    s.handle_server_message(announce(vec![ServerId(8), ServerId(7)], vec![]));
    let f = FullyQualifiedMessage {
        src: ClientId(50),
        srcsrv: ServerId(9),
        dsts: vec![(ClientId(3), ServerId(8))],
        content: "fwd".to_string(),
    };
    match s.handle_server_message(ServerMessage::Message(f)) {
        ServerReply::Outgoing(out) => {
            assert_eq!(out[0].nexthop, ServerId(8));
            assert_eq!(out[0].message.content, "fwd");
        }
        other => panic!("unexpected {:?}", other),
    }
}

#[test]
fn announce_releases_once_among_many() {
    let mut s = Server::new(ME);
    let a = register(&mut s, 1, "a");
    let z = ClientId(9);
    s.handle_client_message(a, text(z, "held"));
    let route = vec![ServerId(3), ServerId(5), ServerId(4)];
    let clients = vec![(ClientId(7), "x".to_string()), (z, "z".to_string()), (ClientId(8), "y".to_string())];
    match s.handle_server_message(announce(route.clone(), clients.clone())) {
        ServerReply::Outgoing(out) => {
            assert_eq!(out.len(), 1);
            assert_eq!(out[0].nexthop, ServerId(4));
            assert_eq!(out[0].message.dsts, vec![(z, ServerId(3))]);
            assert_eq!(out[0].message.content, "held");
        }
        other => panic!("unexpected {:?}", other),
    }
    match s.handle_server_message(announce(route, clients)) {
        ServerReply::Outgoing(out) => assert!(out.is_empty()),
        other => panic!("unexpected {:?}", other),
    }
}

#[test]
fn accepted_numbers_grow_over_a_run() {
    let mut s = Server::new(ME);
    let a = register(&mut s, 1, "a");
    let mut accepted = Vec::new();
    for n in [3u128, 1, 4, 4, 2, 9, 7, 10] {
        if s.handle_sequenced_message(Sequence { seqid: n, src: a, content: () }).is_ok() {
            accepted.push(n);
        }
    }
    assert_eq!(accepted, vec![3, 4, 9, 10]);
}
