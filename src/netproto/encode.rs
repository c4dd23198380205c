//! Writing protocol values: each function appends the encoding of its value
//! to the buffer.
use super::bytes::{
    be_u128_bytes, le_uint_bytes, lemma_pow256_widths,
};
use super::laws::lemma_enc_many_push;
use super::wire::{
    client_id_enc, client_reply_enc, dst_enc, enc_auth, enc_client, enc_client_id,
    enc_client_error, enc_client_poll_reply, enc_client_query, enc_client_replies,
    enc_client_reply, enc_fqm, enc_many, enc_seq, enc_sequence_header, enc_server,
    enc_server_id, enc_string, enc_userlist, enc_uuid, enc_vu128, name_enc, server_id_enc,
    UUID_MARKER,
};
use crate::messages::{
    names_view, replies_view, AuthMessage, ClientError, ClientId, ClientMessage, ClientPollReply,
    ClientQuery, ClientReply, DelayedError, Sequence, ServerId, ServerMessage,
};
use vstd::prelude::*;

verus! {

/// Appends the bytes.
fn put_bytes(w: &mut Vec<u8>, b: &[u8])
    ensures
        final(w)@ == old(w)@ + b@,
{
    let ghost start = w@;
    let mut i: usize = 0;
    while i < b.len()
        invariant
            i <= b@.len(),
            w@ == start + b@.take(i as int),
        decreases b@.len() - i,
    {
        w.push(b[i]);
        i = i + 1;
        assert(w@ =~= start + b@.take(i as int));
    }
    assert(b@.take(i as int) =~= b@);
}

/// Appends a variable-length unsigned integer, as short as the boundary rule allows.
pub fn u128(w: &mut Vec<u8>, m: u128)
    ensures
        final(w)@ == old(w)@ + enc_vu128(m),
{
    proof {
        lemma_pow256_widths();
    }
    if m <= 250 {
        w.push(m as u8);
        assert(w@ =~= old(w)@ + enc_vu128(m));
    } else {
        let (tag, k): (u8, usize) = if m < 0x1_0000 {
            (251, 2)
        } else if m < 0x1_0000_0000 {
            (252, 4)
        } else if m < 0x1_0000_0000_0000_0000 {
            (253, 8)
        } else {
            (254, 16)
        };
        w.push(tag);
        let b = le_uint_bytes(m, k);
        put_bytes(w, b.as_slice());
        assert(w@ =~= old(w)@ + enc_vu128(m));
    }
}

/// Appends a universally unique id: its marker, then its bytes.
fn uuid(w: &mut Vec<u8>, id: u128)
    ensures
        final(w)@ == old(w)@ + enc_uuid(id),
{
    w.push(UUID_MARKER);
    let b = be_u128_bytes(id);
    put_bytes(w, b.as_slice());
    assert(w@ =~= old(w)@ + enc_uuid(id));
}

pub fn clientid(w: &mut Vec<u8>, m: &ClientId)
    ensures
        final(w)@ == old(w)@ + enc_client_id(*m),
{
    uuid(w, m.0)
}

pub fn serverid(w: &mut Vec<u8>, m: &ServerId)
    ensures
        final(w)@ == old(w)@ + enc_server_id(*m),
{
    uuid(w, m.0)
}

/// Appends a string: the count of its UTF-8 bytes, then those bytes.
pub fn string(w: &mut Vec<u8>, m: &str)
    ensures
        final(w)@ == old(w)@ + enc_string(m@),
{
    let bytes = m.as_bytes();
    u128(w, bytes.len() as u128);
    put_bytes(w, bytes);
    assert(w@ =~= old(w)@ + enc_string(m@));
}

pub fn auth(w: &mut Vec<u8>, m: &AuthMessage)
    ensures
        final(w)@ == old(w)@ + enc_auth(m@),
{
    match m {
        AuthMessage::Hello { user, nonce } => {
            w.push(0);
            clientid(w, user);
            put_bytes(w, nonce.as_slice());
        },
        AuthMessage::Nonce { server, nonce } => {
            w.push(1);
            serverid(w, server);
            put_bytes(w, nonce.as_slice());
        },
        AuthMessage::Auth { response } => {
            w.push(2);
            put_bytes(w, response.as_slice());
        },
    }
    assert(w@ =~= old(w)@ + enc_auth(m@));
}

/// Appends a count, then the ids.
fn server_ids(w: &mut Vec<u8>, items: &[ServerId])
    ensures
        final(w)@ == old(w)@ + enc_seq(items@, server_id_enc()),
{
    let ghost start = w@;
    u128(w, items.len() as u128);
    let ghost mid = w@;
    let mut i: usize = 0;
    while i < items.len()
        invariant
            i <= items@.len(),
            mid == start + enc_vu128(items@.len() as u128),
            w@ == mid + enc_many(items@.take(i as int), server_id_enc()),
        decreases items@.len() - i,
    {
        let ghost before = w@;
        serverid(w, &items[i]);
        proof {
            let done = items@.take(i as int);
            lemma_enc_many_push(done, items@[i as int], server_id_enc());
            assert(items@.take(i + 1) =~= done.push(items@[i as int]));
        }
        i = i + 1;
    }
    assert(items@.take(i as int) =~= items@);
    assert(w@ =~= start + enc_seq(items@, server_id_enc()));
}

/// Appends a count, then the ids.
fn client_ids(w: &mut Vec<u8>, items: &[ClientId])
    ensures
        final(w)@ == old(w)@ + enc_seq(items@, client_id_enc()),
{
    let ghost start = w@;
    u128(w, items.len() as u128);
    let ghost mid = w@;
    let mut i: usize = 0;
    while i < items.len()
        invariant
            i <= items@.len(),
            mid == start + enc_vu128(items@.len() as u128),
            w@ == mid + enc_many(items@.take(i as int), client_id_enc()),
        decreases items@.len() - i,
    {
        let ghost before = w@;
        clientid(w, &items[i]);
        proof {
            let done = items@.take(i as int);
            lemma_enc_many_push(done, items@[i as int], client_id_enc());
            assert(items@.take(i + 1) =~= done.push(items@[i as int]));
        }
        i = i + 1;
    }
    assert(items@.take(i as int) =~= items@);
    assert(w@ =~= start + enc_seq(items@, client_id_enc()));
}

/// Appends a count, then each destination: a client and its server.
fn dsts(w: &mut Vec<u8>, items: &[(ClientId, ServerId)])
    ensures
        final(w)@ == old(w)@ + enc_seq(items@, dst_enc()),
{
    let ghost start = w@;
    u128(w, items.len() as u128);
    let ghost mid = w@;
    let mut i: usize = 0;
    while i < items.len()
        invariant
            i <= items@.len(),
            mid == start + enc_vu128(items@.len() as u128),
            w@ == mid + enc_many(items@.take(i as int), dst_enc()),
        decreases items@.len() - i,
    {
        let ghost before = w@;
        clientid(w, &items[i].0);
        serverid(w, &items[i].1);
        assert(w@ =~= before + dst_enc()(items@[i as int]));
        proof {
            let done = items@.take(i as int);
            lemma_enc_many_push(done, items@[i as int], dst_enc());
            assert(items@.take(i + 1) =~= done.push(items@[i as int]));
        }
        i = i + 1;
    }
    assert(items@.take(i as int) =~= items@);
    assert(w@ =~= start + enc_seq(items@, dst_enc()));
}

/// Appends a count, then each client with its name.
fn names(w: &mut Vec<u8>, items: &[(ClientId, String)])
    ensures
        final(w)@ == old(w)@ + enc_seq(names_view(items@), name_enc()),
{
    let ghost start = w@;
    u128(w, items.len() as u128);
    let ghost mid = w@;
    let mut i: usize = 0;
    while i < items.len()
        invariant
            i <= items@.len(),
            mid == start + enc_vu128(items@.len() as u128),
            w@ == mid + enc_many(names_view(items@).take(i as int), name_enc()),
        decreases items@.len() - i,
    {
        let ghost before = w@;
        clientid(w, &items[i].0);
        string(w, items[i].1.as_str());
        assert(w@ =~= before + name_enc()(names_view(items@)[i as int]));
        proof {
            let done = names_view(items@).take(i as int);
            lemma_enc_many_push(done, names_view(items@)[i as int], name_enc());
            assert(names_view(items@).take(i + 1) =~= done.push(names_view(items@)[i as int]));
        }
        i = i + 1;
    }
    assert(names_view(items@).take(i as int) =~= names_view(items@));
    assert(w@ =~= start + enc_seq(names_view(items@), name_enc()));
}

/// Appends a count, then the replies.
fn replies(w: &mut Vec<u8>, items: &[ClientReply])
    ensures
        final(w)@ == old(w)@ + enc_seq(replies_view(items@), client_reply_enc()),
{
    let ghost start = w@;
    u128(w, items.len() as u128);
    let ghost mid = w@;
    let mut i: usize = 0;
    while i < items.len()
        invariant
            i <= items@.len(),
            mid == start + enc_vu128(items@.len() as u128),
            w@ == mid + enc_many(replies_view(items@).take(i as int), client_reply_enc()),
        decreases items@.len() - i,
    {
        let ghost before = w@;
        client_reply(w, &items[i]);
        assert(w@ =~= before + client_reply_enc()(replies_view(items@)[i as int]));
        proof {
            let done = replies_view(items@).take(i as int);
            lemma_enc_many_push(done, replies_view(items@)[i as int], client_reply_enc());
            assert(replies_view(items@).take(i + 1) =~= done.push(replies_view(items@)[i as int]));
        }
        i = i + 1;
    }
    assert(replies_view(items@).take(i as int) =~= replies_view(items@));
    assert(w@ =~= start + enc_seq(replies_view(items@), client_reply_enc()));
}

pub fn server(w: &mut Vec<u8>, m: &ServerMessage)
    ensures
        final(w)@ == old(w)@ + enc_server(m@),
{
    match m {
        ServerMessage::Announce { route, clients } => {
            w.push(0);
            server_ids(w, route.as_slice());
            names(w, clients.as_slice());
        },
        ServerMessage::Message(f) => {
            w.push(1);
            clientid(w, &f.src);
            serverid(w, &f.srcsrv);
            dsts(w, f.dsts.as_slice());
            string(w, f.content.as_str());
            assert(w@ =~= old(w)@ + seq![1u8] + enc_fqm(f@));
        },
    }
    assert(w@ =~= old(w)@ + enc_server(m@));
}

pub fn client(w: &mut Vec<u8>, m: &ClientMessage)
    ensures
        final(w)@ == old(w)@ + enc_client(m@),
{
    match m {
        ClientMessage::Text { dest, content } => {
            w.push(0);
            clientid(w, dest);
            string(w, content.as_str());
        },
        ClientMessage::MText { dest, content } => {
            w.push(1);
            client_ids(w, dest.as_slice());
            string(w, content.as_str());
        },
    }
    assert(w@ =~= old(w)@ + enc_client(m@));
}

fn client_error(w: &mut Vec<u8>, e: &ClientError)
    ensures
        final(w)@ == old(w)@ + enc_client_error(*e),
{
    match e {
        ClientError::UnknownClient => w.push(0),
        ClientError::BoxFull(c) => {
            w.push(1);
            clientid(w, c);
        },
        ClientError::InternalError => w.push(2),
    }
    assert(w@ =~= old(w)@ + enc_client_error(*e));
}

fn client_reply(w: &mut Vec<u8>, r: &ClientReply)
    ensures
        final(w)@ == old(w)@ + enc_client_reply(r@),
{
    match r {
        ClientReply::Delivered => w.push(0),
        ClientReply::Error(e) => {
            w.push(1);
            client_error(w, e);
        },
        ClientReply::Delayed => w.push(2),
        ClientReply::Transfer(v, m) => {
            w.push(3);
            serverid(w, v);
            server(w, m);
        },
    }
    assert(w@ =~= old(w)@ + enc_client_reply(r@));
}

/// Appends the replies to a client: their count, then each reply.
pub fn client_replies(w: &mut Vec<u8>, m: &[ClientReply])
    ensures
        final(w)@ == old(w)@ + enc_client_replies(replies_view(m@)),
{
    replies(w, m)
}

pub fn client_poll_reply(w: &mut Vec<u8>, m: &ClientPollReply)
    ensures
        final(w)@ == old(w)@ + enc_client_poll_reply(m@),
{
    match m {
        ClientPollReply::Message { src, content } => {
            w.push(0);
            clientid(w, src);
            string(w, content.as_str());
        },
        ClientPollReply::DelayedError(DelayedError::UnknownRecipient(c)) => {
            w.push(1);
            w.push(0);
            clientid(w, c);
        },
        ClientPollReply::Nothing => w.push(2),
    }
    assert(w@ =~= old(w)@ + enc_client_poll_reply(m@));
}

/// Appends a list of users: their count, then each client with its name.
/// The list reads back as written when it names each client once.
pub fn userlist(w: &mut Vec<u8>, m: &[(ClientId, String)])
    ensures
        final(w)@ == old(w)@ + enc_userlist(names_view(m@)),
{
    names(w, m)
}

pub fn client_query(w: &mut Vec<u8>, m: &ClientQuery)
    ensures
        final(w)@ == old(w)@ + enc_client_query(m@),
{
    match m {
        ClientQuery::Register(name) => {
            w.push(0);
            string(w, name.as_str());
        },
        ClientQuery::Message(c) => {
            w.push(1);
            client(w, c);
        },
        ClientQuery::Poll => w.push(2),
        ClientQuery::ListUsers => w.push(3),
    }
    assert(w@ =~= old(w)@ + enc_client_query(m@));
}

/// Appends a numbered envelope: its number and source, then the bytes that
/// `f` gives for its content.
pub fn sequence<X, F: FnOnce(&X) -> Vec<u8>>(w: &mut Vec<u8>, m: &Sequence<X>, f: F)
    requires
        f.requires((&m.content,)),
    ensures
        exists|b: Vec<u8>|
            {
                &&& f.ensures((&m.content,), b)
                &&& final(w)@ == old(w)@ + enc_sequence_header(m.seqid, m.src) + b@
            },
{
    u128(w, m.seqid);
    clientid(w, &m.src);
    let b = f(&m.content);
    put_bytes(w, b.as_slice());
    assert(w@ =~= old(w)@ + enc_sequence_header(m.seqid, m.src) + b@);
}

} // verus!
