use chatproto::messages::{
    AuthMessage, ClientError, ClientId, ClientMessage, ClientPollReply, ClientQuery, ClientReply,
    DelayedError, FullyQualifiedMessage, Sequence, ServerId, ServerMessage,
};
use chatproto::netproto::decode;
use chatproto::netproto::encode;
use chatproto::netproto::reader::Reader;
use chatproto::netproto::wire::DecodeError;

fn vu(m: u128) -> Vec<u8> {
    let mut w = Vec::new();
    encode::u128(&mut w, m);
    w
}

fn read_vu(bytes: Vec<u8>) -> Result<u128, DecodeError> {
    let mut rd = Reader::new(bytes);
    decode::u128(&mut rd)
}

#[test]
fn vu128_boundaries() {
    assert_eq!(vu(0), vec![0]);
    assert_eq!(vu(250), vec![250]);
    assert_eq!(vu(251), vec![251, 251, 0]);
    assert_eq!(vu(65535), vec![251, 255, 255]);
    assert_eq!(vu(65536), vec![252, 0, 0, 1, 0]);
    assert_eq!(vu(1 << 32), vec![253, 0, 0, 0, 0, 1, 0, 0, 0]);
    let mut big = vec![254];
    big.extend_from_slice(&(1u128 << 64).to_le_bytes());
    assert_eq!(vu(1 << 64), big);
    let mut max = vec![254];
    max.extend_from_slice(&[255; 16]);
    assert_eq!(vu(u128::MAX), max);
}

#[test]
fn vu128_round_trip() {
    for m in [0u128, 1, 250, 251, 300, 65535, 65536, 1 << 32, (1 << 64) - 1, 1 << 64, u128::MAX] {
        let bytes = vu(m);
        let mut rd = Reader::new(bytes);
        assert_eq!(decode::u128(&mut rd), Ok(m));
        assert_eq!(rd.remaining(), 0);
    }
}

#[test]
fn vu128_reencoding_is_minimal() {
    // 5 written in three bytes reads back as 5, which is written in one.
    assert_eq!(read_vu(vec![251, 5, 0]), Ok(5));
    assert_eq!(vu(5).len(), 1);
    assert_eq!(read_vu(vec![253, 0, 0, 1, 0, 0, 0, 0, 0]), Ok(65536));
    assert_eq!(vu(65536).len(), 5);
}

#[test]
fn vu128_reserved_prefix() {
    assert_eq!(read_vu(vec![255]), Err(DecodeError::InvalidPrefix));
    assert_eq!(read_vu(vec![255, 1, 2, 3]), Err(DecodeError::InvalidPrefix));
    let mut rd = Reader::new(vec![255, 0]);
    assert_eq!(decode::string(&mut rd), Err(DecodeError::InvalidPrefix));
}

#[test]
fn vu128_truncated() {
    assert_eq!(read_vu(vec![]), Err(DecodeError::UnexpectedEof));
    assert_eq!(read_vu(vec![251, 1]), Err(DecodeError::UnexpectedEof));
    assert_eq!(read_vu(vec![254, 1, 2, 3]), Err(DecodeError::UnexpectedEof));
}

#[test]
fn uuid_is_seventeen_bytes() {
    let mut w = Vec::new();
    encode::clientid(&mut w, &ClientId(0x0102030405060708090a0b0c0d0e0f10));
    assert_eq!(w, vec![16, 1, 2, 3, 4, 5, 6, 7, 8, 9, 10, 11, 12, 13, 14, 15, 16]);
    let mut w = Vec::new();
    encode::serverid(&mut w, &ServerId(0));
    assert_eq!(w.len(), 17);
    let mut w = Vec::new();
    encode::serverid(&mut w, &ServerId(u128::MAX));
    assert_eq!(w.len(), 17);
    let mut rd = Reader::new(vec![16, 1, 2, 3, 4, 5, 6, 7, 8, 9, 10, 11, 12, 13, 14, 15, 16]);
    assert_eq!(decode::clientid(&mut rd), Ok(ClientId(0x0102030405060708090a0b0c0d0e0f10)));
}

#[test]
fn uuid_marker_checked() {
    let mut rd = Reader::new(vec![15; 17]);
    assert_eq!(decode::clientid(&mut rd), Err(DecodeError::InvalidUuidMarker));
    let mut rd = Reader::new(vec![16, 0, 0]);
    assert_eq!(decode::serverid(&mut rd), Err(DecodeError::UnexpectedEof));
}

#[test]
fn text_message_bytes() {
    let m = ClientMessage::Text { dest: ClientId(0), content: "hi".to_string() };
    let mut w = Vec::new();
    encode::client(&mut w, &m);
    let mut want = vec![0, 16];
    want.extend_from_slice(&[0; 16]);
    want.extend_from_slice(&[2, b'h', b'i']);
    assert_eq!(w, want);
    let mut rd = Reader::new(w);
    match decode::client(&mut rd) {
        Ok(ClientMessage::Text { dest, content }) => {
            assert_eq!(dest, ClientId(0));
            assert_eq!(content, "hi");
        }
        other => panic!("unexpected {:?}", other),
    }
}

#[test]
fn string_round_trip_and_errors() {
    let mut w = Vec::new();
    encode::string(&mut w, "héllo");
    assert_eq!(w[0], 6);
    let mut rd = Reader::new(w);
    assert_eq!(decode::string(&mut rd), Ok("héllo".to_string()));
    let mut rd = Reader::new(vec![5, b'a', b'b']);
    assert_eq!(decode::string(&mut rd), Err(DecodeError::LengthOverflow));
    let mut rd = Reader::new(vec![2, 0xff, 0xfe]);
    assert_eq!(decode::string(&mut rd), Err(DecodeError::InvalidUtf8));
    let mut rd = Reader::new(vec![254, 0, 0, 0, 0, 0, 0, 0, 0, 0, 0, 0, 0, 0, 0, 0, 1]);
    assert_eq!(decode::string(&mut rd), Err(DecodeError::LengthOverflow));
}

fn round_trip_auth(m: AuthMessage) {
    let mut w = Vec::new();
    encode::auth(&mut w, &m);
    let mut rd = Reader::new(w);
    let back = decode::auth(&mut rd).unwrap();
    assert_eq!(format!("{:?}", back), format!("{:?}", m));
    assert_eq!(rd.remaining(), 0);
}

#[test]
fn auth_round_trip() {
    round_trip_auth(AuthMessage::Hello { user: ClientId(7), nonce: [1, 2, 3, 4, 5, 6, 7, 8] });
    round_trip_auth(AuthMessage::Nonce { server: ServerId(9), nonce: [8; 8] });
    round_trip_auth(AuthMessage::Auth { response: [3; 16] });
    let mut w = Vec::new();
    encode::auth(&mut w, &AuthMessage::Auth { response: [3; 16] });
    assert_eq!(w.len(), 17);
    assert_eq!(w[0], 2);
    let mut rd = Reader::new(vec![3]);
    assert_eq!(decode::auth(&mut rd).unwrap_err(), DecodeError::UnknownTag);
    let mut rd = Reader::new(vec![2, 1, 2]);
    assert_eq!(decode::auth(&mut rd).unwrap_err(), DecodeError::UnexpectedEof);
}

fn sample_server_messages() -> Vec<ServerMessage> {
    vec![
        ServerMessage::Announce {
            route: vec![ServerId(1), ServerId(2), ServerId(3)],
            clients: vec![(ClientId(10), "ten".to_string()), (ClientId(11), "eleven".to_string())],
        },
        ServerMessage::Announce { route: vec![], clients: vec![] },
        ServerMessage::Message(FullyQualifiedMessage {
            src: ClientId(1),
            srcsrv: ServerId(2),
            dsts: vec![(ClientId(3), ServerId(4)), (ClientId(5), ServerId(6))],
            content: "payload".to_string(),
        }),
    ]
}

#[test]
fn server_message_round_trip() {
    for m in sample_server_messages() {
        let mut w = Vec::new();
        encode::server(&mut w, &m);
        let mut rd = Reader::new(w);
        let back = decode::server(&mut rd).unwrap();
        assert_eq!(format!("{:?}", back), format!("{:?}", m));
        assert_eq!(rd.remaining(), 0);
    }
    let mut rd = Reader::new(vec![2]);
    assert_eq!(decode::server(&mut rd).unwrap_err(), DecodeError::UnknownTag);
}

#[test]
fn client_message_round_trip() {
    let m = ClientMessage::MText {
        dest: vec![ClientId(1), ClientId(u128::MAX)],
        content: "to all".to_string(),
    };
    let mut w = Vec::new();
    encode::client(&mut w, &m);
    assert_eq!(w[0], 1);
    assert_eq!(w[1], 2);
    let mut rd = Reader::new(w);
    let back = decode::client(&mut rd).unwrap();
    assert_eq!(format!("{:?}", back), format!("{:?}", m));
}

#[test]
fn client_replies_round_trip() {
    let mut replies = vec![
        ClientReply::Delivered,
        ClientReply::Error(ClientError::UnknownClient),
        ClientReply::Error(ClientError::BoxFull(ClientId(4))),
        ClientReply::Error(ClientError::InternalError),
        ClientReply::Delayed,
    ];
    for m in sample_server_messages() {
        replies.push(ClientReply::Transfer(ServerId(8), m));
    }
    let mut w = Vec::new();
    encode::client_replies(&mut w, &replies);
    assert_eq!(w[0] as usize, replies.len());
    let mut rd = Reader::new(w);
    let back = decode::client_replies(&mut rd).unwrap();
    assert_eq!(format!("{:?}", back), format!("{:?}", replies));
    assert_eq!(rd.remaining(), 0);
    let mut w = Vec::new();
    encode::client_replies(&mut w, &[]);
    assert_eq!(w, vec![0]);
}

#[test]
fn client_poll_reply_round_trip() {
    for m in [
        ClientPollReply::Message { src: ClientId(3), content: "x".to_string() },
        ClientPollReply::DelayedError(DelayedError::UnknownRecipient(ClientId(4))),
        ClientPollReply::Nothing,
    ] {
        let mut w = Vec::new();
        encode::client_poll_reply(&mut w, &m);
        let mut rd = Reader::new(w);
        let back = decode::client_poll_reply(&mut rd).unwrap();
        assert_eq!(format!("{:?}", back), format!("{:?}", m));
    }
    let mut w = Vec::new();
    encode::client_poll_reply(&mut w, &ClientPollReply::Nothing);
    assert_eq!(w, vec![2]);
}

#[test]
fn delayed_error_has_its_own_tag() {
    let m = ClientPollReply::DelayedError(DelayedError::UnknownRecipient(ClientId(0x0102)));
    let mut w = Vec::new();
    encode::client_poll_reply(&mut w, &m);
    let mut want = vec![1, 0, 16];
    want.extend_from_slice(&[0; 14]);
    want.extend_from_slice(&[1, 2]);
    assert_eq!(w.len(), 19);
    assert_eq!(w, want);
    let mut rd = Reader::new(want);
    match decode::client_poll_reply(&mut rd) {
        Ok(ClientPollReply::DelayedError(DelayedError::UnknownRecipient(c))) => {
            assert_eq!(c, ClientId(0x0102))
        }
        other => panic!("unexpected {:?}", other),
    }
    assert_eq!(rd.remaining(), 0);
    let mut bad = vec![1, 1, 16];
    bad.extend_from_slice(&[0; 16]);
    let mut rd = Reader::new(bad);
    assert_eq!(decode::client_poll_reply(&mut rd).unwrap_err(), DecodeError::UnknownTag);
}

#[test]
fn userlist_round_trip_and_duplicates() {
    let users = vec![(ClientId(1), "a".to_string()), (ClientId(2), "b".to_string())];
    let mut w = Vec::new();
    encode::userlist(&mut w, &users);
    let mut rd = Reader::new(w);
    assert_eq!(decode::userlist(&mut rd).unwrap(), users);
    // A client listed twice keeps its later name, in its first place.
    let dup = vec![
        (ClientId(1), "a".to_string()),
        (ClientId(2), "b".to_string()),
        (ClientId(1), "c".to_string()),
    ];
    let mut w = Vec::new();
    encode::userlist(&mut w, &dup);
    let mut rd = Reader::new(w);
    assert_eq!(
        decode::userlist(&mut rd).unwrap(),
        vec![(ClientId(1), "c".to_string()), (ClientId(2), "b".to_string())]
    );
}

#[test]
fn client_query_round_trip() {
    for q in [
        ClientQuery::Register("me".to_string()),
        ClientQuery::Message(ClientMessage::Text { dest: ClientId(5), content: "yo".to_string() }),
        ClientQuery::Poll,
        ClientQuery::ListUsers,
    ] {
        let mut w = Vec::new();
        encode::client_query(&mut w, &q);
        let mut rd = Reader::new(w);
        let back = decode::client_query(&mut rd).unwrap();
        assert_eq!(format!("{:?}", back), format!("{:?}", q));
    }
    let mut rd = Reader::new(vec![4]);
    assert_eq!(decode::client_query(&mut rd).unwrap_err(), DecodeError::UnknownTag);
}

#[test]
fn sequence_round_trip() {
    let s = Sequence { seqid: 300, src: ClientId(42), content: ClientQuery::Poll };
    let mut w = Vec::new();
    encode::sequence(&mut w, &s, |q: &ClientQuery| {
        let mut b = Vec::new();
        encode::client_query(&mut b, q);
        b
    });
    assert_eq!(&w[..3], &[251, 44, 1]);
    let mut rd = Reader::new(w);
    let back = decode::sequence(&mut rd, |b: &[u8]| {
        let mut r = Reader::new(b.to_vec());
        let q = decode::client_query(&mut r)?;
        Ok((q, b.len() - r.remaining()))
    })
    .unwrap();
    assert_eq!(back.seqid, 300);
    assert_eq!(back.src, ClientId(42));
    assert!(matches!(back.content, ClientQuery::Poll));
    assert_eq!(rd.remaining(), 0);
}

#[test]
fn sequence_content_overrun() {
    let mut w = Vec::new();
    encode::u128(&mut w, 1);
    encode::clientid(&mut w, &ClientId(1));
    let mut rd = Reader::new(w);
    let r = decode::sequence(&mut rd, |b: &[u8]| Ok(((), b.len() + 1)));
    assert_eq!(r.unwrap_err(), DecodeError::LengthOverflow);
}
