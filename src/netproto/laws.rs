//! What the encodings guarantee: each value reads back as itself, and the
//! variable-length integers are minimal.
use super::bytes::{
    lemma_be_round_trip, lemma_le_bytes_len, lemma_le_round_trip, lemma_le_value_bound,
    lemma_pow256_widths,
};
use super::wire::{
    DecodeError, ParseResult, after_items, assoc_from, assoc_insert, client_id_enc,
    client_id_parser, client_reply_enc, client_reply_parser, dst_enc, dst_parser, enc_auth,
    enc_client, enc_client_error, enc_client_id, enc_client_poll_reply, enc_client_query,
    enc_client_replies, enc_client_reply, enc_fqm, enc_many, enc_seq, enc_sequence_header,
    enc_server, enc_server_id, enc_string, enc_userlist, enc_uuid, enc_vu128, name_enc,
    name_parser, parse_auth, parse_client, parse_client_error, parse_client_id,
    parse_client_poll_reply, parse_client_query, parse_client_replies, parse_client_reply,
    parse_fqm, parse_many, parse_names, parse_seq, parse_sequence_header, parse_server,
    parse_server_id, parse_string, parse_userlist, parse_uuid, parse_vu128, server_id_enc,
    server_id_parser, unique_keys, vu128_len, vu128_payload_len,
};
use crate::messages::{
    AuthMessageV, ClientError, ClientId, ClientMessageV, ClientPollReplyV, ClientQueryV,
    ClientReplyV, DelayedError, FullyQualifiedMessageV, ServerId, ServerMessageV,
};
use vstd::prelude::*;
use vstd::utf8::*;

verus! {

broadcast use vstd::utf8::group_utf8_lib;

/// Every `u128`.
pub open spec fn fits_u128(n: nat) -> bool {
    n < 0x1_0000_0000_0000_0000_0000_0000_0000_0000
}

/// A string whose byte count can be written.
pub open spec fn valid_string(s: Seq<char>) -> bool {
    fits_u128(encode_utf8(s).len())
}

/// `p` reads back what `e` writes, whatever follows it.
pub open spec fn reads_back<T>(
    x: T,
    e: spec_fn(T) -> Seq<u8>,
    p: spec_fn(Seq<u8>) -> ParseResult<T>,
) -> bool {
    forall|rest: Seq<u8>| #[trigger] p(e(x) + rest) == Ok::<(T, nat), DecodeError>((x, e(x).len()))
}

proof fn lemma_vu128_width(m: u128, k: nat, tag: u8, rest: Seq<u8>)
    requires
        1 <= k <= 16,
        m < crate::netproto::bytes::pow256(k),
        tag == 251 || tag == 252 || tag == 253 || tag == 254,
        vu128_payload_len(tag) == k,
    ensures
        ({
            let s = seq![tag] + crate::netproto::bytes::le_bytes(m as nat, k) + rest;
            parse_vu128(s) == Ok::<(u128, nat), DecodeError>((m, 1 + k))
        }),
{
    let b = crate::netproto::bytes::le_bytes(m as nat, k);
    let s = seq![tag] + b + rest;
    lemma_le_bytes_len(m as nat, k);
    lemma_le_round_trip(m as nat, k);
    assert(s.subrange(1, 1 + k as int) =~= b);
}

/// A variable-length integer reads back as itself, and takes the number of
/// bytes that the boundary rule picks.
pub proof fn lemma_vu128_round_trip(m: u128, rest: Seq<u8>)
    ensures
        enc_vu128(m).len() == vu128_len(m),
        parse_vu128(enc_vu128(m) + rest) == Ok::<(u128, nat), DecodeError>((m, vu128_len(m))),
{
    lemma_pow256_widths();
    let s = enc_vu128(m) + rest;
    if m <= 250 {
        assert(s[0] == m);
    } else if m < 0x1_0000 {
        lemma_le_bytes_len(m as nat, 2);
        lemma_vu128_width(m, 2, 251, rest);
    } else if m < 0x1_0000_0000 {
        lemma_le_bytes_len(m as nat, 4);
        lemma_vu128_width(m, 4, 252, rest);
    } else if m < 0x1_0000_0000_0000_0000 {
        lemma_le_bytes_len(m as nat, 8);
        lemma_vu128_width(m, 8, 253, rest);
    } else {
        lemma_le_bytes_len(m as nat, 16);
        lemma_vu128_width(m, 16, 254, rest);
    }
}

/// Re-encoding a decoded integer takes the length that the boundary rule
/// picks for it, and never more bytes than were read.
pub proof fn lemma_vu128_minimal(s: Seq<u8>)
    ensures
        parse_vu128(s) matches Ok((m, n)) ==> enc_vu128(m).len() == vu128_len(m) && vu128_len(m)
            <= n && parse_vu128(enc_vu128(m)) == Ok::<(u128, nat), DecodeError>((m, vu128_len(m))),
{
    if let Ok((m, n)) = parse_vu128(s) {
        lemma_vu128_round_trip(m, seq![]);
        assert(enc_vu128(m) + seq![] =~= enc_vu128(m));
        lemma_pow256_widths();
        if s[0] > 250 {
            let w = vu128_payload_len(s[0]);
            lemma_le_value_bound(s.subrange(1, 1 + w as int));
            if s[0] == 251 {
                assert(m < 0x1_0000);
            } else if s[0] == 252 {
                assert(m < 0x1_0000_0000);
            } else if s[0] == 253 {
                assert(m < 0x1_0000_0000_0000_0000);
            }
        }
    }
}

/// A leading `255` where a variable-length integer is read is an error.
pub proof fn lemma_vu128_reserved(s: Seq<u8>)
    requires
        s.len() > 0,
        s[0] == 255,
    ensures
        parse_vu128(s) == Err::<(u128, nat), DecodeError>(DecodeError::InvalidPrefix),
{
}

/// A universally unique id takes seventeen bytes and reads back as itself.
pub proof fn lemma_uuid_round_trip(id: u128, rest: Seq<u8>)
    ensures
        enc_uuid(id).len() == 17,
        parse_uuid(enc_uuid(id) + rest) == Ok::<(u128, nat), DecodeError>((id, 17)),
{
    lemma_be_round_trip(id);
    let s = enc_uuid(id) + rest;
    assert(s.subrange(1, 17) =~= crate::netproto::bytes::be_bytes(id as nat, 16));
}

/// A string reads back as itself.
pub proof fn lemma_string_round_trip(s: Seq<char>, rest: Seq<u8>)
    requires
        valid_string(s),
    ensures
        parse_string(enc_string(s) + rest) == Ok::<(Seq<char>, nat), DecodeError>(
            (s, enc_string(s).len()),
        ),
{
    let b = encode_utf8(s);
    let n = b.len() as u128;
    let all = enc_string(s) + rest;
    lemma_vu128_round_trip(n, b + rest);
    assert(all =~= enc_vu128(n) + (b + rest));
    let k = vu128_len(n);
    assert(all.skip(k as int) =~= b + rest);
    assert(all.skip(k as int).take(n as int) =~= b);
}

/// Items that each read back as themselves read back as a whole.
pub proof fn lemma_many_round_trip<T>(
    items: Seq<T>,
    e: spec_fn(T) -> Seq<u8>,
    p: spec_fn(Seq<u8>) -> ParseResult<T>,
    rest: Seq<u8>,
)
    requires
        forall|i: int| 0 <= i < items.len() ==> reads_back(#[trigger] items[i], e, p),
    ensures
        parse_many(enc_many(items, e) + rest, items.len(), p) == Ok::<(Seq<T>, nat), DecodeError>(
            (items, enc_many(items, e).len()),
        ),
    decreases items.len(),
{
    if items.len() > 0 {
        let x = items[0];
        let tail = items.drop_first();
        let all = enc_many(items, e) + rest;
        assert(reads_back(items[0], e, p));
        assert(all =~= e(x) + (enc_many(tail, e) + rest));
        assert(p(e(x) + (enc_many(tail, e) + rest)) == Ok::<(T, nat), DecodeError>(
            (x, e(x).len()),
        ));
        assert(all.skip(e(x).len() as int) =~= enc_many(tail, e) + rest);
        assert forall|i: int| 0 <= i < tail.len() implies reads_back(#[trigger] tail[i], e, p) by {
            assert(tail[i] == items[i + 1]);
            assert(reads_back(items[i + 1], e, p));
        }
        lemma_many_round_trip(tail, e, p, rest);
        assert(seq![x] + tail =~= items);
    } else {
        assert(items =~= seq![]);
        assert(enc_many(items, e) + rest =~= rest);
    }
}

/// A counted sequence of items that each read back as themselves reads back.
pub proof fn lemma_seq_round_trip<T>(
    items: Seq<T>,
    e: spec_fn(T) -> Seq<u8>,
    p: spec_fn(Seq<u8>) -> ParseResult<T>,
    rest: Seq<u8>,
)
    requires
        fits_u128(items.len()),
        forall|i: int| 0 <= i < items.len() ==> reads_back(#[trigger] items[i], e, p),
    ensures
        parse_seq(enc_seq(items, e) + rest, p) == Ok::<(Seq<T>, nat), DecodeError>(
            (items, enc_seq(items, e).len()),
        ),
{
    let n = items.len() as u128;
    let body = enc_many(items, e);
    let all = enc_seq(items, e) + rest;
    lemma_vu128_round_trip(n, body + rest);
    assert(all =~= enc_vu128(n) + (body + rest));
    assert(all.skip(vu128_len(n) as int) =~= body + rest);
    lemma_many_round_trip(items, e, p, rest);
}

// ------------------------------------------------------- protocol values

pub proof fn lemma_client_id_round_trip(c: ClientId, rest: Seq<u8>)
    ensures
        enc_client_id(c).len() == 17,
        parse_client_id(enc_client_id(c) + rest) == Ok::<(ClientId, nat), DecodeError>((c, 17)),
{
    lemma_uuid_round_trip(c.0, rest);
}

pub proof fn lemma_server_id_round_trip(v: ServerId, rest: Seq<u8>)
    ensures
        enc_server_id(v).len() == 17,
        parse_server_id(enc_server_id(v) + rest) == Ok::<(ServerId, nat), DecodeError>((v, 17)),
{
    lemma_uuid_round_trip(v.0, rest);
}

proof fn lemma_client_ids_read_back(items: Seq<ClientId>)
    ensures
        forall|i: int|
            0 <= i < items.len() ==> reads_back(#[trigger] items[i], client_id_enc(), client_id_parser()),
{
    assert forall|i: int| 0 <= i < items.len() implies reads_back(
        #[trigger] items[i],
        client_id_enc(),
        client_id_parser(),
    ) by {
        assert forall|rest: Seq<u8>| #[trigger]
            client_id_parser()(client_id_enc()(items[i]) + rest) == Ok::<(ClientId, nat), DecodeError>(
                (items[i], client_id_enc()(items[i]).len()),
            ) by {
            lemma_client_id_round_trip(items[i], rest);
        }
    }
}

proof fn lemma_server_ids_read_back(items: Seq<ServerId>)
    ensures
        forall|i: int|
            0 <= i < items.len() ==> reads_back(#[trigger] items[i], server_id_enc(), server_id_parser()),
{
    assert forall|i: int| 0 <= i < items.len() implies reads_back(
        #[trigger] items[i],
        server_id_enc(),
        server_id_parser(),
    ) by {
        assert forall|rest: Seq<u8>| #[trigger]
            server_id_parser()(server_id_enc()(items[i]) + rest) == Ok::<(ServerId, nat), DecodeError>(
                (items[i], server_id_enc()(items[i]).len()),
            ) by {
            lemma_server_id_round_trip(items[i], rest);
        }
    }
}

proof fn lemma_dsts_read_back(items: Seq<(ClientId, ServerId)>)
    ensures
        forall|i: int| 0 <= i < items.len() ==> reads_back(#[trigger] items[i], dst_enc(), dst_parser()),
{
    assert forall|i: int| 0 <= i < items.len() implies reads_back(
        #[trigger] items[i],
        dst_enc(),
        dst_parser(),
    ) by {
        let d = items[i];
        assert forall|rest: Seq<u8>| #[trigger]
            dst_parser()(dst_enc()(d) + rest) == Ok::<((ClientId, ServerId), nat), DecodeError>(
                (d, dst_enc()(d).len()),
            ) by {
            let a = enc_client_id(d.0);
            let b = enc_server_id(d.1);
            lemma_client_id_round_trip(d.0, b + rest);
            lemma_server_id_round_trip(d.1, rest);
            assert(dst_enc()(d) + rest =~= a + (b + rest));
            assert((a + (b + rest)).skip(17) =~= b + rest);
        }
    }
}

/// Every name in the list can be written.
pub open spec fn valid_names(l: Seq<(ClientId, Seq<char>)>) -> bool {
    &&& fits_u128(l.len())
    &&& unique_keys(l)
    &&& forall|i: int| 0 <= i < l.len() ==> valid_string(#[trigger] l[i].1)
}

proof fn lemma_names_read_back(items: Seq<(ClientId, Seq<char>)>)
    requires
        forall|i: int| 0 <= i < items.len() ==> valid_string(#[trigger] items[i].1),
    ensures
        forall|i: int| 0 <= i < items.len() ==> reads_back(#[trigger] items[i], name_enc(), name_parser()),
{
    assert forall|i: int| 0 <= i < items.len() implies reads_back(
        #[trigger] items[i],
        name_enc(),
        name_parser(),
    ) by {
        let d = items[i];
        assert(valid_string(items[i].1));
        assert forall|rest: Seq<u8>| #[trigger]
            name_parser()(name_enc()(d) + rest) == Ok::<((ClientId, Seq<char>), nat), DecodeError>(
                (d, name_enc()(d).len()),
            ) by {
            let a = enc_client_id(d.0);
            let b = enc_string(d.1);
            lemma_client_id_round_trip(d.0, b + rest);
            lemma_string_round_trip(d.1, rest);
            assert(name_enc()(d) + rest =~= a + (b + rest));
            assert((a + (b + rest)).skip(17) =~= b + rest);
        }
    }
}

/// Inserting a client that is not listed yet appends it.
pub proof fn lemma_assoc_insert_new<V>(l: Seq<(ClientId, V)>, k: ClientId, v: V)
    requires
        forall|i: int| 0 <= i < l.len() ==> l[i].0 != k,
    ensures
        assoc_insert(l, k, v) == l.push((k, v)),
{
}

/// Inserting keeps every client listed once.
pub proof fn lemma_assoc_insert_unique<V>(l: Seq<(ClientId, V)>, k: ClientId, v: V)
    requires
        unique_keys(l),
    ensures
        unique_keys(assoc_insert(l, k, v)),
{
}

/// A list that holds each client once is the mapping it builds.
pub proof fn lemma_assoc_from_unique<V>(l: Seq<(ClientId, V)>)
    requires
        unique_keys(l),
    ensures
        assoc_from(l) == l,
    decreases l.len(),
{
    if l.len() > 0 {
        let init = l.drop_last();
        assert(unique_keys(init));
        lemma_assoc_from_unique(init);
        lemma_assoc_insert_new(init, l.last().0, l.last().1);
        assert(init.push(l.last()) =~= l);
    } else {
        assert(l =~= seq![]);
    }
}

pub proof fn lemma_names_round_trip(l: Seq<(ClientId, Seq<char>)>, rest: Seq<u8>)
    requires
        valid_names(l),
    ensures
        parse_names(enc_seq(l, name_enc()) + rest) == Ok::<(Seq<(ClientId, Seq<char>)>, nat), DecodeError>(
            (l, enc_seq(l, name_enc()).len()),
        ),
{
    lemma_names_read_back(l);
    lemma_seq_round_trip(l, name_enc(), name_parser(), rest);
    lemma_assoc_from_unique(l);
}

pub open spec fn valid_auth(m: AuthMessageV) -> bool {
    match m {
        AuthMessageV::Hello { nonce, .. } => nonce.len() == 8,
        AuthMessageV::Nonce { nonce, .. } => nonce.len() == 8,
        AuthMessageV::Auth { response } => response.len() == 16,
    }
}

pub open spec fn valid_fqm(f: FullyQualifiedMessageV) -> bool {
    fits_u128(f.dsts.len()) && valid_string(f.content)
}

pub open spec fn valid_server(m: ServerMessageV) -> bool {
    match m {
        ServerMessageV::Announce { route, clients } => fits_u128(route.len()) && valid_names(
            clients,
        ),
        ServerMessageV::Message(f) => valid_fqm(f),
    }
}

pub open spec fn valid_client(m: ClientMessageV) -> bool {
    match m {
        ClientMessageV::Text { content, .. } => valid_string(content),
        ClientMessageV::MText { dest, content } => fits_u128(dest.len()) && valid_string(content),
    }
}

pub open spec fn valid_client_reply(r: ClientReplyV) -> bool {
    match r {
        ClientReplyV::Transfer(_, m) => valid_server(m),
        _ => true,
    }
}

pub open spec fn valid_client_replies(rs: Seq<ClientReplyV>) -> bool {
    &&& fits_u128(rs.len())
    &&& forall|i: int| 0 <= i < rs.len() ==> valid_client_reply(#[trigger] rs[i])
}

pub open spec fn valid_client_poll_reply(r: ClientPollReplyV) -> bool {
    match r {
        ClientPollReplyV::Message { content, .. } => valid_string(content),
        _ => true,
    }
}

pub open spec fn valid_client_query(q: ClientQueryV) -> bool {
    match q {
        ClientQueryV::Register(name) => valid_string(name),
        ClientQueryV::Message(m) => valid_client(m),
        _ => true,
    }
}

/// An authentication message reads back as itself.
pub proof fn lemma_auth_round_trip(m: AuthMessageV, rest: Seq<u8>)
    requires
        valid_auth(m),
    ensures
        parse_auth(enc_auth(m) + rest) == Ok::<(AuthMessageV, nat), DecodeError>(
            (m, enc_auth(m).len()),
        ),
{
    let all = enc_auth(m) + rest;
    match m {
        AuthMessageV::Hello { user, nonce } => {
            let a = enc_client_id(user);
            lemma_client_id_round_trip(user, nonce + rest);
            assert(all.skip(1) =~= a + (nonce + rest));
            assert(all.skip(1).skip(17) =~= nonce + rest);
            assert((nonce + rest).take(8) =~= nonce);
        },
        AuthMessageV::Nonce { server, nonce } => {
            let a = enc_server_id(server);
            lemma_server_id_round_trip(server, nonce + rest);
            assert(all.skip(1) =~= a + (nonce + rest));
            assert(all.skip(1).skip(17) =~= nonce + rest);
            assert((nonce + rest).take(8) =~= nonce);
        },
        AuthMessageV::Auth { response } => {
            assert(all.skip(1) =~= response + rest);
            assert((response + rest).take(16) =~= response);
        },
    }
}

/// A message between servers, with its destinations, reads back as itself.
pub proof fn lemma_fqm_round_trip(f: FullyQualifiedMessageV, rest: Seq<u8>)
    requires
        valid_fqm(f),
    ensures
        parse_fqm(enc_fqm(f) + rest) == Ok::<(FullyQualifiedMessageV, nat), DecodeError>(
            (f, enc_fqm(f).len()),
        ),
{
    let a = enc_client_id(f.src);
    let b = enc_server_id(f.srcsrv);
    let c = enc_seq(f.dsts, dst_enc());
    let d = enc_string(f.content);
    let all = enc_fqm(f) + rest;
    assert(all =~= a + (b + (c + (d + rest))));
    lemma_client_id_round_trip(f.src, b + (c + (d + rest)));
    assert(all.skip(17) =~= b + (c + (d + rest)));
    lemma_server_id_round_trip(f.srcsrv, c + (d + rest));
    assert(all.skip(17).skip(17) =~= c + (d + rest));
    lemma_dsts_read_back(f.dsts);
    lemma_seq_round_trip(f.dsts, dst_enc(), dst_parser(), d + rest);
    assert((c + (d + rest)).skip(c.len() as int) =~= d + rest);
    lemma_string_round_trip(f.content, rest);
    assert(FullyQualifiedMessageV { src: f.src, srcsrv: f.srcsrv, dsts: f.dsts, content: f.content } == f);
}

proof fn lemma_announce_round_trip(
    route: Seq<ServerId>,
    clients: Seq<(ClientId, Seq<char>)>,
    rest: Seq<u8>,
)
    requires
        fits_u128(route.len()),
        valid_names(clients),
    ensures
        ({
            let a = enc_seq(route, server_id_enc());
            let b = enc_seq(clients, name_enc());
            &&& parse_seq(a + (b + rest), server_id_parser()) == Ok::<(Seq<ServerId>, nat), DecodeError>(
                (route, a.len()),
            )
            &&& (a + (b + rest)).skip(a.len() as int) == b + rest
            &&& parse_names(b + rest) == Ok::<(Seq<(ClientId, Seq<char>)>, nat), DecodeError>(
                (clients, b.len()),
            )
        }),
{
    let a = enc_seq(route, server_id_enc());
    let b = enc_seq(clients, name_enc());
    lemma_server_ids_read_back(route);
    lemma_seq_round_trip(route, server_id_enc(), server_id_parser(), b + rest);
    assert((a + (b + rest)).skip(a.len() as int) =~= b + rest);
    lemma_names_round_trip(clients, rest);
}

proof fn lemma_server_announce_round_trip(
    route: Seq<ServerId>,
    clients: Seq<(ClientId, Seq<char>)>,
    rest: Seq<u8>,
)
    requires
        fits_u128(route.len()),
        valid_names(clients),
    ensures
        ({
            let m = ServerMessageV::Announce { route, clients };
            parse_server(enc_server(m) + rest) == Ok::<(ServerMessageV, nat), DecodeError>(
                (m, enc_server(m).len()),
            )
        }),
{
    reveal(parse_server);
    let m = ServerMessageV::Announce { route, clients };
    let all = enc_server(m) + rest;
    let a = enc_seq(route, server_id_enc());
    let b = enc_seq(clients, name_enc());
    assert(all.skip(1) =~= a + (b + rest));
    lemma_announce_round_trip(route, clients, rest);
}

proof fn lemma_server_fqm_round_trip(f: FullyQualifiedMessageV, rest: Seq<u8>)
    requires
        valid_fqm(f),
    ensures
        ({
            let m = ServerMessageV::Message(f);
            parse_server(enc_server(m) + rest) == Ok::<(ServerMessageV, nat), DecodeError>(
                (m, enc_server(m).len()),
            )
        }),
{
    reveal(parse_server);
    let m = ServerMessageV::Message(f);
    let all = enc_server(m) + rest;
    assert(all.skip(1) =~= enc_fqm(f) + rest);
    lemma_fqm_round_trip(f, rest);
}

/// A message between servers reads back as itself.
pub proof fn lemma_server_round_trip(m: ServerMessageV, rest: Seq<u8>)
    requires
        valid_server(m),
    ensures
        parse_server(enc_server(m) + rest) == Ok::<(ServerMessageV, nat), DecodeError>(
            (m, enc_server(m).len()),
        ),
{
    match m {
        ServerMessageV::Announce { route, clients } => {
            lemma_server_announce_round_trip(route, clients, rest);
        },
        ServerMessageV::Message(f) => {
            lemma_server_fqm_round_trip(f, rest);
        },
    }
}

/// A message from a client reads back as itself.
pub proof fn lemma_client_round_trip(m: ClientMessageV, rest: Seq<u8>)
    requires
        valid_client(m),
    ensures
        parse_client(enc_client(m) + rest) == Ok::<(ClientMessageV, nat), DecodeError>(
            (m, enc_client(m).len()),
        ),
{
    let all = enc_client(m) + rest;
    match m {
        ClientMessageV::Text { dest, content } => {
            let a = enc_client_id(dest);
            let b = enc_string(content);
            assert(all.skip(1) =~= a + (b + rest));
            lemma_client_id_round_trip(dest, b + rest);
            assert((a + (b + rest)).skip(17) =~= b + rest);
            lemma_string_round_trip(content, rest);
        },
        ClientMessageV::MText { dest, content } => {
            let a = enc_seq(dest, client_id_enc());
            let b = enc_string(content);
            assert(all.skip(1) =~= a + (b + rest));
            lemma_client_ids_read_back(dest);
            lemma_seq_round_trip(dest, client_id_enc(), client_id_parser(), b + rest);
            assert((a + (b + rest)).skip(a.len() as int) =~= b + rest);
            lemma_string_round_trip(content, rest);
        },
    }
}

pub proof fn lemma_client_error_round_trip(e: ClientError, rest: Seq<u8>)
    ensures
        parse_client_error(enc_client_error(e) + rest) == Ok::<(ClientError, nat), DecodeError>(
            (e, enc_client_error(e).len()),
        ),
{
    let all = enc_client_error(e) + rest;
    if let ClientError::BoxFull(c) = e {
        assert(all.skip(1) =~= enc_client_id(c) + rest);
        lemma_client_id_round_trip(c, rest);
    }
}

/// A reply to a client reads back as itself.
#[verifier::rlimit(30)]
pub proof fn lemma_client_reply_round_trip(r: ClientReplyV, rest: Seq<u8>)
    requires
        valid_client_reply(r),
    ensures
        parse_client_reply(enc_client_reply(r) + rest) == Ok::<(ClientReplyV, nat), DecodeError>(
            (r, enc_client_reply(r).len()),
        ),
{
    let all = enc_client_reply(r) + rest;
    match r {
        ClientReplyV::Error(e) => {
            assert(all.skip(1) =~= enc_client_error(e) + rest);
            lemma_client_error_round_trip(e, rest);
        },
        ClientReplyV::Transfer(v, m) => {
            let a = enc_server_id(v);
            let b = enc_server(m);
            assert(all.skip(1) =~= a + (b + rest));
            lemma_server_id_round_trip(v, b + rest);
            assert((a + (b + rest)).skip(17) =~= b + rest);
            lemma_server_round_trip(m, rest);
        },
        _ => {},
    }
}

/// A list of replies to a client reads back as itself.
pub proof fn lemma_client_replies_round_trip(rs: Seq<ClientReplyV>, rest: Seq<u8>)
    requires
        valid_client_replies(rs),
    ensures
        parse_client_replies(enc_client_replies(rs) + rest) == Ok::<
            (Seq<ClientReplyV>, nat),
            DecodeError,
        >((rs, enc_client_replies(rs).len())),
{
    assert forall|i: int| 0 <= i < rs.len() implies reads_back(
        #[trigger] rs[i],
        client_reply_enc(),
        client_reply_parser(),
    ) by {
        assert(valid_client_reply(rs[i]));
        assert forall|rest2: Seq<u8>| #[trigger]
            client_reply_parser()(client_reply_enc()(rs[i]) + rest2) == Ok::<
                (ClientReplyV, nat),
                DecodeError,
            >((rs[i], client_reply_enc()(rs[i]).len())) by {
            lemma_client_reply_round_trip(rs[i], rest2);
        }
    }
    lemma_seq_round_trip(rs, client_reply_enc(), client_reply_parser(), rest);
}

/// The answer to a poll reads back as itself.
pub proof fn lemma_client_poll_reply_round_trip(r: ClientPollReplyV, rest: Seq<u8>)
    requires
        valid_client_poll_reply(r),
    ensures
        parse_client_poll_reply(enc_client_poll_reply(r) + rest) == Ok::<
            (ClientPollReplyV, nat),
            DecodeError,
        >((r, enc_client_poll_reply(r).len())),
{
    let all = enc_client_poll_reply(r) + rest;
    match r {
        ClientPollReplyV::Message { src, content } => {
            let a = enc_client_id(src);
            let b = enc_string(content);
            assert(all.skip(1) =~= a + (b + rest));
            lemma_client_id_round_trip(src, b + rest);
            assert((a + (b + rest)).skip(17) =~= b + rest);
            lemma_string_round_trip(content, rest);
        },
        ClientPollReplyV::DelayedError(DelayedError::UnknownRecipient(c)) => {
            let r = all.skip(1);
            assert(r =~= seq![0u8] + (enc_client_id(c) + rest));
            assert(r.skip(1) =~= enc_client_id(c) + rest);
            lemma_client_id_round_trip(c, rest);
        },
        _ => {},
    }
}

/// A list of users reads back as itself.
pub proof fn lemma_userlist_round_trip(l: Seq<(ClientId, Seq<char>)>, rest: Seq<u8>)
    requires
        valid_names(l),
    ensures
        parse_userlist(enc_userlist(l) + rest) == Ok::<(Seq<(ClientId, Seq<char>)>, nat), DecodeError>(
            (l, enc_userlist(l).len()),
        ),
{
    lemma_names_round_trip(l, rest);
}

/// A request from a client reads back as itself.
pub proof fn lemma_client_query_round_trip(q: ClientQueryV, rest: Seq<u8>)
    requires
        valid_client_query(q),
    ensures
        parse_client_query(enc_client_query(q) + rest) == Ok::<(ClientQueryV, nat), DecodeError>(
            (q, enc_client_query(q).len()),
        ),
{
    let all = enc_client_query(q) + rest;
    match q {
        ClientQueryV::Register(name) => {
            assert(all.skip(1) =~= enc_string(name) + rest);
            lemma_string_round_trip(name, rest);
        },
        ClientQueryV::Message(m) => {
            assert(all.skip(1) =~= enc_client(m) + rest);
            lemma_client_round_trip(m, rest);
        },
        _ => {},
    }
}

/// The header of a numbered envelope reads back as itself.
pub proof fn lemma_sequence_header_round_trip(seqid: u128, src: ClientId, rest: Seq<u8>)
    ensures
        parse_sequence_header(enc_sequence_header(seqid, src) + rest) == Ok::<
            ((u128, ClientId), nat),
            DecodeError,
        >(((seqid, src), enc_sequence_header(seqid, src).len())),
{
    let a = enc_vu128(seqid);
    let b = enc_client_id(src);
    assert(enc_sequence_header(seqid, src) + rest =~= a + (b + rest));
    lemma_vu128_round_trip(seqid, b + rest);
    assert((a + (b + rest)).skip(a.len() as int) =~= b + rest);
    lemma_client_id_round_trip(src, rest);
}

/// Writing one more item appends its encoding.
pub proof fn lemma_enc_many_push<T>(items: Seq<T>, x: T, e: spec_fn(T) -> Seq<u8>)
    ensures
        enc_many(items.push(x), e) == enc_many(items, e) + e(x),
    decreases items.len(),
{
    if items.len() == 0 {
        let t = items.push(x).drop_first();
        assert(t =~= seq![]);
        assert(enc_many(t, e) == Seq::<u8>::empty());
        assert(items.push(x)[0] == x);
        assert(enc_many(items.push(x), e) =~= e(x));
        assert(enc_many(items, e) + e(x) =~= e(x));
    } else {
        lemma_enc_many_push(items.drop_first(), x, e);
        assert(items.push(x).drop_first() =~= items.drop_first().push(x));
        assert(enc_many(items.push(x), e) =~= enc_many(items, e) + e(x));
    }
}

/// Reading one more item of a run of items.
pub proof fn lemma_parse_many_step<T>(
    s: Seq<u8>,
    count: nat,
    p: spec_fn(Seq<u8>) -> ParseResult<T>,
    acc: Seq<T>,
    c: nat,
)
    requires
        count > 0,
        p(s) is Ok,
    ensures
        after_items(acc, c, parse_many(s, count, p)) == after_items(
            acc.push(p(s)->Ok_0.0),
            c + p(s)->Ok_0.1,
            parse_many(s.skip(p(s)->Ok_0.1 as int), (count - 1) as nat, p),
        ),
{
    let v = p(s)->Ok_0.0;
    let rest = parse_many(s.skip(p(s)->Ok_0.1 as int), (count - 1) as nat, p);
    if let Ok((vs, m)) = rest {
        assert(acc + (seq![v] + vs) =~= acc.push(v) + vs);
    }
}

/// A run of no items.
pub proof fn lemma_parse_many_done<T>(
    s: Seq<u8>,
    p: spec_fn(Seq<u8>) -> ParseResult<T>,
    acc: Seq<T>,
    c: nat,
)
    ensures
        after_items(acc, c, parse_many(s, 0, p)) == Ok::<(Seq<T>, nat), DecodeError>((acc, c)),
{
    assert(acc + seq![] =~= acc);
}

} // verus!
