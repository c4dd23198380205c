//! Reading protocol values back from a frame: each decoder takes its value
//! from the reader, or says why the bytes hold none.
use super::laws::{
    lemma_assoc_insert_unique, lemma_parse_many_done, lemma_parse_many_step,
};
use super::reader::{decoded, Reader};
use super::wire::{
    after_items, assoc_from, assoc_insert, client_id_parser, client_reply_parser, dst_parser,
    name_parser, parse_auth, parse_client, parse_client_error, parse_client_id,
    parse_client_poll_reply, parse_client_query, parse_client_replies, parse_client_reply,
    parse_delayed_error,
    parse_dst, parse_fqm, parse_many, parse_name, parse_names, parse_seq, parse_sequence_header,
    parse_server, parse_server_id, parse_string, parse_userlist, parse_uuid, parse_vu128,
    server_id_parser, unique_keys, vu128_payload_len, DecodeError, UUID_MARKER,
};
use crate::messages::{
    names_view, replies_view, AuthMessage, ClientError, ClientId, ClientMessage, ClientPollReply,
    ClientQuery, ClientReply, ClientReplyV, DelayedError, FullyQualifiedMessage, Sequence,
    ServerId, ServerMessage,
};
use vstd::prelude::*;

verus! {

/// Reads a variable-length unsigned integer.
pub fn u128(rd: &mut Reader) -> (r: Result<u128, DecodeError>)
    ensures
        decoded(parse_vu128(old(rd)@), r, |v: u128| v, old(rd)@, final(rd)@),
{
    let p = match rd.byte() {
        Ok(p) => p,
        Err(e) => return Err(e),
    };
    if p <= 250 {
        Ok(p as u128)
    } else if p == 255 {
        Err(DecodeError::InvalidPrefix)
    } else {
        let k: usize = if p == 251 {
            2
        } else if p == 252 {
            4
        } else if p == 253 {
            8
        } else {
            16
        };
        let ghost s = old(rd)@;
        let r = rd.le_uint(k);
        proof {
            assert(k == vu128_payload_len(p));
            if r is Ok {
                assert(s.skip(1).take(k as int) =~= s.subrange(1, 1 + k));
                assert(final(rd)@ =~= s.skip(1 + k));
            }
        }
        r
    }
}

/// Reads a universally unique id: its marker, then its sixteen bytes.
fn uuid(rd: &mut Reader) -> (r: Result<u128, DecodeError>)
    ensures
        decoded(parse_uuid(old(rd)@), r, |v: u128| v, old(rd)@, final(rd)@),
{
    let ghost s = old(rd)@;
    let m = match rd.byte() {
        Ok(m) => m,
        Err(e) => return Err(e),
    };
    if m != UUID_MARKER {
        return Err(DecodeError::InvalidUuidMarker);
    }
    let r = rd.be_u128();
    proof {
        if r is Ok {
            assert(s.skip(1).take(16) =~= s.subrange(1, 17));
            assert(final(rd)@ =~= s.skip(17));
        }
    }
    r
}

pub fn clientid(rd: &mut Reader) -> (r: Result<ClientId, DecodeError>)
    ensures
        decoded(parse_client_id(old(rd)@), r, |c: ClientId| c, old(rd)@, final(rd)@),
{
    match uuid(rd) {
        Ok(v) => Ok(ClientId(v)),
        Err(e) => Err(e),
    }
}

pub fn serverid(rd: &mut Reader) -> (r: Result<ServerId, DecodeError>)
    ensures
        decoded(parse_server_id(old(rd)@), r, |c: ServerId| c, old(rd)@, final(rd)@),
{
    match uuid(rd) {
        Ok(v) => Ok(ServerId(v)),
        Err(e) => Err(e),
    }
}

/// Reads a string: a byte count, then that many bytes of UTF-8.
pub fn string(rd: &mut Reader) -> (r: Result<String, DecodeError>)
    ensures
        decoded(parse_string(old(rd)@), r, |s: String| s@, old(rd)@, final(rd)@),
{
    let ghost s = old(rd)@;
    let n = match u128(rd) {
        Ok(n) => n,
        Err(e) => return Err(e),
    };
    let ghost mid = rd@;
    let r = rd.utf8(n);
    proof {
        if r is Ok {
            assert(final(rd)@ =~= s.skip(s.len() - final(rd)@.len()));
        }
    }
    r
}

fn dst(rd: &mut Reader) -> (r: Result<(ClientId, ServerId), DecodeError>)
    ensures
        decoded(parse_dst(old(rd)@), r, |d: (ClientId, ServerId)| d, old(rd)@, final(rd)@),
{
    let ghost s = old(rd)@;
    let c = match clientid(rd) {
        Ok(c) => c,
        Err(e) => return Err(e),
    };
    let v = match serverid(rd) {
        Ok(v) => v,
        Err(e) => return Err(e),
    };
    proof {
        assert(final(rd)@ =~= s.skip(s.len() - final(rd)@.len()));
    }
    Ok((c, v))
}

fn name(rd: &mut Reader) -> (r: Result<(ClientId, String), DecodeError>)
    ensures
        decoded(
            parse_name(old(rd)@),
            r,
            |d: (ClientId, String)| (d.0, d.1@),
            old(rd)@,
            final(rd)@,
        ),
{
    let ghost s = old(rd)@;
    let c = match clientid(rd) {
        Ok(c) => c,
        Err(e) => return Err(e),
    };
    let v = match string(rd) {
        Ok(v) => v,
        Err(e) => return Err(e),
    };
    proof {
        assert(final(rd)@ =~= s.skip(s.len() - final(rd)@.len()));
    }
    Ok((c, v))
}

/// Reads a count, then that many server ids.
fn server_ids(rd: &mut Reader) -> (r: Result<Vec<ServerId>, DecodeError>)
    ensures
        decoded(parse_seq(old(rd)@, server_id_parser()), r, |v: Vec<ServerId>| v@, old(rd)@, final(rd)@),
{
    let ghost s = rd@;
    let n = match u128(rd) {
        Ok(n) => n,
        Err(e) => return Err(e),
    };
    let ghost s0 = rd@;
    let mut out: Vec<ServerId> = Vec::new();
    let mut i: u128 = 0;
    while i < n
        invariant
            i <= n,
            s == old(rd)@,
            s0 == s.skip(parse_vu128(s)->Ok_0.1 as int),
            parse_vu128(s) == Ok::<(u128, nat), DecodeError>((n, parse_vu128(s)->Ok_0.1)),
            parse_vu128(s)->Ok_0.1 <= s.len(),
            rd@.len() <= s0.len(),
            rd@ == s0.skip(s0.len() - rd@.len()),
            parse_many(s0, n as nat, server_id_parser()) == after_items(
                out@,
                (s0.len() - rd@.len()) as nat,
                parse_many(rd@, (n - i) as nat, server_id_parser()),
            ),
        decreases n - i,
    {
        let ghost cur = rd@;
        let ghost acc = out@;
        match serverid(rd) {
            Ok(x) => {
                proof {
                    lemma_parse_many_step(
                        cur,
                        (n - i) as nat,
                        server_id_parser(),
                        acc,
                        (s0.len() - cur.len()) as nat,
                    );
                    assert(rd@ =~= s0.skip(s0.len() - rd@.len()));
                }
                out.push(x);
                proof {
                    assert(out@ =~= acc.push(server_id_parser()(cur)->Ok_0.0));
                }
            },
            Err(e) => {
                proof {
                    assert(parse_many(cur, (n - i) as nat, server_id_parser()) == Err::<(Seq<ServerId>, nat), DecodeError>(e));
                    assert(parse_many(s0, n as nat, server_id_parser()) == Err::<(Seq<ServerId>, nat), DecodeError>(e));
                    assert(parse_seq(s, server_id_parser()) == Err::<(Seq<ServerId>, nat), DecodeError>(e));
                }
                return Err(e);
            },
        }
        i = i + 1;
    }
    proof {
        lemma_parse_many_done(rd@, server_id_parser(), out@, (s0.len() - rd@.len()) as nat);
        assert(rd@ =~= s.skip(s.len() - rd@.len()));
    }
    Ok(out)
}

/// Reads a count, then that many client ids.
fn client_ids(rd: &mut Reader) -> (r: Result<Vec<ClientId>, DecodeError>)
    ensures
        decoded(parse_seq(old(rd)@, client_id_parser()), r, |v: Vec<ClientId>| v@, old(rd)@, final(rd)@),
{
    let ghost s = rd@;
    let n = match u128(rd) {
        Ok(n) => n,
        Err(e) => return Err(e),
    };
    let ghost s0 = rd@;
    let mut out: Vec<ClientId> = Vec::new();
    let mut i: u128 = 0;
    while i < n
        invariant
            i <= n,
            s == old(rd)@,
            s0 == s.skip(parse_vu128(s)->Ok_0.1 as int),
            parse_vu128(s) == Ok::<(u128, nat), DecodeError>((n, parse_vu128(s)->Ok_0.1)),
            parse_vu128(s)->Ok_0.1 <= s.len(),
            rd@.len() <= s0.len(),
            rd@ == s0.skip(s0.len() - rd@.len()),
            parse_many(s0, n as nat, client_id_parser()) == after_items(
                out@,
                (s0.len() - rd@.len()) as nat,
                parse_many(rd@, (n - i) as nat, client_id_parser()),
            ),
        decreases n - i,
    {
        let ghost cur = rd@;
        let ghost acc = out@;
        match clientid(rd) {
            Ok(x) => {
                proof {
                    lemma_parse_many_step(
                        cur,
                        (n - i) as nat,
                        client_id_parser(),
                        acc,
                        (s0.len() - cur.len()) as nat,
                    );
                    assert(rd@ =~= s0.skip(s0.len() - rd@.len()));
                }
                out.push(x);
                proof {
                    assert(out@ =~= acc.push(client_id_parser()(cur)->Ok_0.0));
                }
            },
            Err(e) => {
                proof {
                    assert(parse_many(cur, (n - i) as nat, client_id_parser()) == Err::<(Seq<ClientId>, nat), DecodeError>(e));
                    assert(parse_many(s0, n as nat, client_id_parser()) == Err::<(Seq<ClientId>, nat), DecodeError>(e));
                    assert(parse_seq(s, client_id_parser()) == Err::<(Seq<ClientId>, nat), DecodeError>(e));
                }
                return Err(e);
            },
        }
        i = i + 1;
    }
    proof {
        lemma_parse_many_done(rd@, client_id_parser(), out@, (s0.len() - rd@.len()) as nat);
        assert(rd@ =~= s.skip(s.len() - rd@.len()));
    }
    Ok(out)
}

/// Reads a count, then that many destinations.
fn dsts(rd: &mut Reader) -> (r: Result<Vec<(ClientId, ServerId)>, DecodeError>)
    ensures
        decoded(parse_seq(old(rd)@, dst_parser()), r, |v: Vec<(ClientId, ServerId)>| v@, old(rd)@, final(rd)@),
{
    let ghost s = rd@;
    let n = match u128(rd) {
        Ok(n) => n,
        Err(e) => return Err(e),
    };
    let ghost s0 = rd@;
    let mut out: Vec<(ClientId, ServerId)> = Vec::new();
    let mut i: u128 = 0;
    while i < n
        invariant
            i <= n,
            s == old(rd)@,
            s0 == s.skip(parse_vu128(s)->Ok_0.1 as int),
            parse_vu128(s) == Ok::<(u128, nat), DecodeError>((n, parse_vu128(s)->Ok_0.1)),
            parse_vu128(s)->Ok_0.1 <= s.len(),
            rd@.len() <= s0.len(),
            rd@ == s0.skip(s0.len() - rd@.len()),
            parse_many(s0, n as nat, dst_parser()) == after_items(
                out@,
                (s0.len() - rd@.len()) as nat,
                parse_many(rd@, (n - i) as nat, dst_parser()),
            ),
        decreases n - i,
    {
        let ghost cur = rd@;
        let ghost acc = out@;
        match dst(rd) {
            Ok(x) => {
                proof {
                    lemma_parse_many_step(
                        cur,
                        (n - i) as nat,
                        dst_parser(),
                        acc,
                        (s0.len() - cur.len()) as nat,
                    );
                    assert(rd@ =~= s0.skip(s0.len() - rd@.len()));
                }
                out.push(x);
                proof {
                    assert(out@ =~= acc.push(dst_parser()(cur)->Ok_0.0));
                }
            },
            Err(e) => {
                proof {
                    assert(parse_many(cur, (n - i) as nat, dst_parser()) == Err::<(Seq<(ClientId, ServerId)>, nat), DecodeError>(e));
                    assert(parse_many(s0, n as nat, dst_parser()) == Err::<(Seq<(ClientId, ServerId)>, nat), DecodeError>(e));
                    assert(parse_seq(s, dst_parser()) == Err::<(Seq<(ClientId, ServerId)>, nat), DecodeError>(e));
                }
                return Err(e);
            },
        }
        i = i + 1;
    }
    proof {
        lemma_parse_many_done(rd@, dst_parser(), out@, (s0.len() - rd@.len()) as nat);
        assert(rd@ =~= s.skip(s.len() - rd@.len()));
    }
    Ok(out)
}

/// Reads a count, then that many replies.
fn replies(rd: &mut Reader) -> (r: Result<Vec<ClientReply>, DecodeError>)
    ensures
        decoded(parse_seq(old(rd)@, client_reply_parser()), r, |v: Vec<ClientReply>| replies_view(v@), old(rd)@, final(rd)@),
{
    let ghost s = rd@;
    let n = match u128(rd) {
        Ok(n) => n,
        Err(e) => return Err(e),
    };
    let ghost s0 = rd@;
    let mut out: Vec<ClientReply> = Vec::new();
    let mut i: u128 = 0;
    while i < n
        invariant
            i <= n,
            s == old(rd)@,
            s0 == s.skip(parse_vu128(s)->Ok_0.1 as int),
            parse_vu128(s) == Ok::<(u128, nat), DecodeError>((n, parse_vu128(s)->Ok_0.1)),
            parse_vu128(s)->Ok_0.1 <= s.len(),
            rd@.len() <= s0.len(),
            rd@ == s0.skip(s0.len() - rd@.len()),
            parse_many(s0, n as nat, client_reply_parser()) == after_items(
                replies_view(out@),
                (s0.len() - rd@.len()) as nat,
                parse_many(rd@, (n - i) as nat, client_reply_parser()),
            ),
        decreases n - i,
    {
        let ghost cur = rd@;
        let ghost acc = replies_view(out@);
        match client_reply(rd) {
            Ok(x) => {
                proof {
                    lemma_parse_many_step(
                        cur,
                        (n - i) as nat,
                        client_reply_parser(),
                        acc,
                        (s0.len() - cur.len()) as nat,
                    );
                    assert(rd@ =~= s0.skip(s0.len() - rd@.len()));
                }
                out.push(x);
                proof {
                    assert(replies_view(out@) =~= acc.push(client_reply_parser()(cur)->Ok_0.0));
                }
            },
            Err(e) => {
                proof {
                    assert(parse_many(cur, (n - i) as nat, client_reply_parser()) == Err::<(Seq<ClientReplyV>, nat), DecodeError>(e));
                    assert(parse_many(s0, n as nat, client_reply_parser()) == Err::<(Seq<ClientReplyV>, nat), DecodeError>(e));
                    assert(parse_seq(s, client_reply_parser()) == Err::<(Seq<ClientReplyV>, nat), DecodeError>(e));
                }
                return Err(e);
            },
        }
        i = i + 1;
    }
    proof {
        lemma_parse_many_done(rd@, client_reply_parser(), replies_view(out@), (s0.len() - rd@.len()) as nat);
        assert(rd@ =~= s.skip(s.len() - rd@.len()));
    }
    Ok(out)
}

/// Reads a count, then that many clients with their names.
fn name_pairs(rd: &mut Reader) -> (r: Result<Vec<(ClientId, String)>, DecodeError>)
    ensures
        decoded(parse_seq(old(rd)@, name_parser()), r, |v: Vec<(ClientId, String)>| names_view(v@), old(rd)@, final(rd)@),
{
    let ghost s = rd@;
    let n = match u128(rd) {
        Ok(n) => n,
        Err(e) => return Err(e),
    };
    let ghost s0 = rd@;
    let mut out: Vec<(ClientId, String)> = Vec::new();
    let mut i: u128 = 0;
    while i < n
        invariant
            i <= n,
            s == old(rd)@,
            s0 == s.skip(parse_vu128(s)->Ok_0.1 as int),
            parse_vu128(s) == Ok::<(u128, nat), DecodeError>((n, parse_vu128(s)->Ok_0.1)),
            parse_vu128(s)->Ok_0.1 <= s.len(),
            rd@.len() <= s0.len(),
            rd@ == s0.skip(s0.len() - rd@.len()),
            parse_many(s0, n as nat, name_parser()) == after_items(
                names_view(out@),
                (s0.len() - rd@.len()) as nat,
                parse_many(rd@, (n - i) as nat, name_parser()),
            ),
        decreases n - i,
    {
        let ghost cur = rd@;
        let ghost acc = names_view(out@);
        match name(rd) {
            Ok(x) => {
                proof {
                    lemma_parse_many_step(
                        cur,
                        (n - i) as nat,
                        name_parser(),
                        acc,
                        (s0.len() - cur.len()) as nat,
                    );
                    assert(rd@ =~= s0.skip(s0.len() - rd@.len()));
                }
                out.push(x);
                proof {
                    assert(names_view(out@) =~= acc.push(name_parser()(cur)->Ok_0.0));
                }
            },
            Err(e) => {
                proof {
                    assert(parse_many(cur, (n - i) as nat, name_parser()) == Err::<(Seq<(ClientId, Seq<char>)>, nat), DecodeError>(e));
                    assert(parse_many(s0, n as nat, name_parser()) == Err::<(Seq<(ClientId, Seq<char>)>, nat), DecodeError>(e));
                    assert(parse_seq(s, name_parser()) == Err::<(Seq<(ClientId, Seq<char>)>, nat), DecodeError>(e));
                }
                return Err(e);
            },
        }
        i = i + 1;
    }
    proof {
        lemma_parse_many_done(rd@, name_parser(), names_view(out@), (s0.len() - rd@.len()) as nat);
        assert(rd@ =~= s.skip(s.len() - rd@.len()));
    }
    Ok(out)
}

/// The index of the pair for client `k`, if there is one.
fn find_client(l: &Vec<(ClientId, String)>, k: ClientId) -> (r: Option<usize>)
    ensures
        match r {
            Some(j) => j < l@.len() && l@[j as int].0 == k,
            None => forall|i: int| 0 <= i < l@.len() ==> l@[i].0 != k,
        },
{
    let mut j: usize = 0;
    while j < l.len()
        invariant
            j <= l@.len(),
            forall|i: int| 0 <= i < j ==> l@[i].0 != k,
        decreases l@.len() - j,
    {
        if l[j].0 == k {
            return Some(j);
        }
        j = j + 1;
    }
    None
}

/// Binds client `k` to `v` in a list that holds each client once.
fn insert_name(l: &mut Vec<(ClientId, String)>, k: ClientId, v: String)
    requires
        unique_keys(names_view(old(l)@)),
    ensures
        names_view(final(l)@) == assoc_insert(names_view(old(l)@), k, v@),
        unique_keys(names_view(final(l)@)),
{
    let ghost before = names_view(l@);
    proof {
        lemma_assoc_insert_unique(before, k, v@);
    }
    match find_client(l, k) {
        Some(j) => {
            l.set(j, (k, v));
            proof {
                assert(before[j as int].0 == k);
                let i = choose|i: int| 0 <= i < before.len() && before[i].0 == k;
                assert(i == j);
                assert(names_view(l@) =~= before.update(j as int, (k, v@)));
            }
        },
        None => {
            l.push((k, v));
            proof {
                assert(names_view(l@) =~= before.push((k, v@)));
            }
        },
    }
}

/// Reads a mapping from clients to names: a count, then each client with its
/// name; a client read twice keeps the later name.
fn names(rd: &mut Reader) -> (r: Result<Vec<(ClientId, String)>, DecodeError>)
    ensures
        decoded(
            parse_names(old(rd)@),
            r,
            |v: Vec<(ClientId, String)>| names_view(v@),
            old(rd)@,
            final(rd)@,
        ),
        r is Ok ==> unique_keys(names_view(r->Ok_0@)),
{
    let pairs = match name_pairs(rd) {
        Ok(p) => p,
        Err(e) => return Err(e),
    };
    let ghost pv = names_view(pairs@);
    let mut out: Vec<(ClientId, String)> = Vec::new();
    let mut i: usize = 0;
    while i < pairs.len()
        invariant
            i <= pairs@.len(),
            pv == names_view(pairs@),
            names_view(out@) == assoc_from(pv.take(i as int)),
            unique_keys(names_view(out@)),
        decreases pairs@.len() - i,
    {
        let k = pairs[i].0;
        let v = pairs[i].1.clone();
        insert_name(&mut out, k, v);
        proof {
            assert(pv.take(i + 1).drop_last() =~= pv.take(i as int));
        }
        i = i + 1;
    }
    proof {
        assert(pv.take(i as int) =~= pv);
        assert(names_view(out@) =~= assoc_from(pv));
    }
    Ok(out)
}

pub fn auth(rd: &mut Reader) -> (r: Result<AuthMessage, DecodeError>)
    ensures
        decoded(parse_auth(old(rd)@), r, |m: AuthMessage| m@, old(rd)@, final(rd)@),
{
    let ghost s = old(rd)@;
    let tag = match rd.byte() {
        Ok(t) => t,
        Err(e) => return Err(e),
    };
    let r = if tag == 0 {
        let user = match clientid(rd) {
            Ok(u) => u,
            Err(e) => return Err(e),
        };
        match rd.array::<8>() {
            Ok(nonce) => Ok(AuthMessage::Hello { user, nonce }),
            Err(e) => return Err(e),
        }
    } else if tag == 1 {
        let server = match serverid(rd) {
            Ok(u) => u,
            Err(e) => return Err(e),
        };
        match rd.array::<8>() {
            Ok(nonce) => Ok(AuthMessage::Nonce { server, nonce }),
            Err(e) => return Err(e),
        }
    } else if tag == 2 {
        match rd.array::<16>() {
            Ok(response) => Ok(AuthMessage::Auth { response }),
            Err(e) => return Err(e),
        }
    } else {
        return Err(DecodeError::UnknownTag);
    };
    proof {
        assert(final(rd)@ =~= s.skip(s.len() - final(rd)@.len()));
    }
    r
}

fn fqm(rd: &mut Reader) -> (r: Result<FullyQualifiedMessage, DecodeError>)
    ensures
        decoded(parse_fqm(old(rd)@), r, |m: FullyQualifiedMessage| m@, old(rd)@, final(rd)@),
{
    let ghost s = old(rd)@;
    let src = match clientid(rd) {
        Ok(x) => x,
        Err(e) => return Err(e),
    };
    let srcsrv = match serverid(rd) {
        Ok(x) => x,
        Err(e) => return Err(e),
    };
    let dsts = match dsts(rd) {
        Ok(x) => x,
        Err(e) => return Err(e),
    };
    let content = match string(rd) {
        Ok(x) => x,
        Err(e) => return Err(e),
    };
    proof {
        assert(final(rd)@ =~= s.skip(s.len() - final(rd)@.len()));
    }
    Ok(FullyQualifiedMessage { src, srcsrv, dsts, content })
}

pub fn server(rd: &mut Reader) -> (r: Result<ServerMessage, DecodeError>)
    ensures
        decoded(parse_server(old(rd)@), r, |m: ServerMessage| m@, old(rd)@, final(rd)@),
{
    reveal(parse_server);
    let ghost s = old(rd)@;
    let tag = match rd.byte() {
        Ok(t) => t,
        Err(e) => return Err(e),
    };
    let r = if tag == 0 {
        let route = match server_ids(rd) {
            Ok(x) => x,
            Err(e) => return Err(e),
        };
        let clients = match names(rd) {
            Ok(x) => x,
            Err(e) => return Err(e),
        };
        ServerMessage::Announce { route, clients }
    } else if tag == 1 {
        match fqm(rd) {
            Ok(f) => ServerMessage::Message(f),
            Err(e) => return Err(e),
        }
    } else {
        return Err(DecodeError::UnknownTag);
    };
    proof {
        assert(final(rd)@ =~= s.skip(s.len() - final(rd)@.len()));
    }
    Ok(r)
}

pub fn client(rd: &mut Reader) -> (r: Result<ClientMessage, DecodeError>)
    ensures
        decoded(parse_client(old(rd)@), r, |m: ClientMessage| m@, old(rd)@, final(rd)@),
{
    let ghost s = old(rd)@;
    let tag = match rd.byte() {
        Ok(t) => t,
        Err(e) => return Err(e),
    };
    let r = if tag == 0 {
        let dest = match clientid(rd) {
            Ok(x) => x,
            Err(e) => return Err(e),
        };
        let content = match string(rd) {
            Ok(x) => x,
            Err(e) => return Err(e),
        };
        ClientMessage::Text { dest, content }
    } else if tag == 1 {
        let dest = match client_ids(rd) {
            Ok(x) => x,
            Err(e) => return Err(e),
        };
        let content = match string(rd) {
            Ok(x) => x,
            Err(e) => return Err(e),
        };
        ClientMessage::MText { dest, content }
    } else {
        return Err(DecodeError::UnknownTag);
    };
    proof {
        assert(final(rd)@ =~= s.skip(s.len() - final(rd)@.len()));
    }
    Ok(r)
}

fn client_error(rd: &mut Reader) -> (r: Result<ClientError, DecodeError>)
    ensures
        decoded(parse_client_error(old(rd)@), r, |e: ClientError| e, old(rd)@, final(rd)@),
{
    let ghost s = old(rd)@;
    let tag = match rd.byte() {
        Ok(t) => t,
        Err(e) => return Err(e),
    };
    let r = if tag == 0 {
        ClientError::UnknownClient
    } else if tag == 1 {
        match clientid(rd) {
            Ok(c) => ClientError::BoxFull(c),
            Err(e) => return Err(e),
        }
    } else if tag == 2 {
        ClientError::InternalError
    } else {
        return Err(DecodeError::UnknownTag);
    };
    proof {
        assert(final(rd)@ =~= s.skip(s.len() - final(rd)@.len()));
    }
    Ok(r)
}

fn delayed_error(rd: &mut Reader) -> (r: Result<DelayedError, DecodeError>)
    ensures
        decoded(parse_delayed_error(old(rd)@), r, |e: DelayedError| e, old(rd)@, final(rd)@),
{
    let ghost s = old(rd)@;
    let tag = match rd.byte() {
        Ok(t) => t,
        Err(e) => return Err(e),
    };
    if tag != 0 {
        return Err(DecodeError::UnknownTag);
    }
    let r = match clientid(rd) {
        Ok(c) => DelayedError::UnknownRecipient(c),
        Err(e) => return Err(e),
    };
    proof {
        assert(final(rd)@ =~= s.skip(s.len() - final(rd)@.len()));
    }
    Ok(r)
}

fn client_reply(rd: &mut Reader) -> (r: Result<ClientReply, DecodeError>)
    ensures
        decoded(parse_client_reply(old(rd)@), r, |m: ClientReply| m@, old(rd)@, final(rd)@),
{
    let ghost s = old(rd)@;
    let tag = match rd.byte() {
        Ok(t) => t,
        Err(e) => return Err(e),
    };
    let r = if tag == 0 {
        ClientReply::Delivered
    } else if tag == 1 {
        match client_error(rd) {
            Ok(e) => ClientReply::Error(e),
            Err(e) => return Err(e),
        }
    } else if tag == 2 {
        ClientReply::Delayed
    } else if tag == 3 {
        let v = match serverid(rd) {
            Ok(x) => x,
            Err(e) => return Err(e),
        };
        match server(rd) {
            Ok(m) => ClientReply::Transfer(v, m),
            Err(e) => return Err(e),
        }
    } else {
        return Err(DecodeError::UnknownTag);
    };
    proof {
        assert(final(rd)@ =~= s.skip(s.len() - final(rd)@.len()));
    }
    Ok(r)
}

/// Reads the replies to a client: their count, then each reply.
pub fn client_replies(rd: &mut Reader) -> (r: Result<Vec<ClientReply>, DecodeError>)
    ensures
        decoded(
            parse_client_replies(old(rd)@),
            r,
            |v: Vec<ClientReply>| replies_view(v@),
            old(rd)@,
            final(rd)@,
        ),
{
    replies(rd)
}

pub fn client_poll_reply(rd: &mut Reader) -> (r: Result<ClientPollReply, DecodeError>)
    ensures
        decoded(
            parse_client_poll_reply(old(rd)@),
            r,
            |m: ClientPollReply| m@,
            old(rd)@,
            final(rd)@,
        ),
{
    let ghost s = old(rd)@;
    let tag = match rd.byte() {
        Ok(t) => t,
        Err(e) => return Err(e),
    };
    let r = if tag == 0 {
        let src = match clientid(rd) {
            Ok(x) => x,
            Err(e) => return Err(e),
        };
        let content = match string(rd) {
            Ok(x) => x,
            Err(e) => return Err(e),
        };
        ClientPollReply::Message { src, content }
    } else if tag == 1 {
        match delayed_error(rd) {
            Ok(e) => ClientPollReply::DelayedError(e),
            Err(e) => return Err(e),
        }
    } else if tag == 2 {
        ClientPollReply::Nothing
    } else {
        return Err(DecodeError::UnknownTag);
    };
    proof {
        assert(final(rd)@ =~= s.skip(s.len() - final(rd)@.len()));
    }
    Ok(r)
}

/// Reads a list of users: a count, then each client with its name; a client
/// read twice keeps the later name.
pub fn userlist(rd: &mut Reader) -> (r: Result<Vec<(ClientId, String)>, DecodeError>)
    ensures
        decoded(
            parse_userlist(old(rd)@),
            r,
            |v: Vec<(ClientId, String)>| names_view(v@),
            old(rd)@,
            final(rd)@,
        ),
        r is Ok ==> unique_keys(names_view(r->Ok_0@)),
{
    names(rd)
}

pub fn client_query(rd: &mut Reader) -> (r: Result<ClientQuery, DecodeError>)
    ensures
        decoded(parse_client_query(old(rd)@), r, |m: ClientQuery| m@, old(rd)@, final(rd)@),
{
    let ghost s = old(rd)@;
    let tag = match rd.byte() {
        Ok(t) => t,
        Err(e) => return Err(e),
    };
    let r = if tag == 0 {
        match string(rd) {
            Ok(x) => ClientQuery::Register(x),
            Err(e) => return Err(e),
        }
    } else if tag == 1 {
        match client(rd) {
            Ok(m) => ClientQuery::Message(m),
            Err(e) => return Err(e),
        }
    } else if tag == 2 {
        ClientQuery::Poll
    } else if tag == 3 {
        ClientQuery::ListUsers
    } else {
        return Err(DecodeError::UnknownTag);
    };
    proof {
        assert(final(rd)@ =~= s.skip(s.len() - final(rd)@.len()));
    }
    Ok(r)
}

/// Reads a numbered envelope: its number and source, then its content, which
/// `d` decodes from the bytes that follow and reports with the count of bytes
/// it used.
pub fn sequence<X, F: FnOnce(&[u8]) -> Result<(X, usize), DecodeError>>(
    rd: &mut Reader,
    d: F,
) -> (r: Result<Sequence<X>, DecodeError>)
    requires
        forall|b: &[u8]| d.requires((b,)),
    ensures
        match parse_sequence_header(old(rd)@) {
            Err(e) => r == Err::<Sequence<X>, DecodeError>(e),
            Ok(((seqid, src), n)) => exists|b: &[u8], out: Result<(X, usize), DecodeError>|
                {
                    &&& b@ == old(rd)@.skip(n as int)
                    &&& d.ensures((b,), out)
                    &&& match out {
                        Ok((x, k)) => if k <= b@.len() {
                            &&& r == Ok::<Sequence<X>, DecodeError>(
                                Sequence { seqid, src, content: x },
                            )
                            &&& final(rd)@ == b@.skip(k as int)
                        } else {
                            r == Err::<Sequence<X>, DecodeError>(DecodeError::LengthOverflow)
                        },
                        Err(e) => r == Err::<Sequence<X>, DecodeError>(e),
                    }
                },
        },
{
    let ghost s = old(rd)@;
    let seqid = match u128(rd) {
        Ok(x) => x,
        Err(e) => return Err(e),
    };
    let src = match clientid(rd) {
        Ok(x) => x,
        Err(e) => return Err(e),
    };
    proof {
        assert(rd@ =~= s.skip(parse_sequence_header(s)->Ok_0.1 as int));
    }
    let b = rd.rest();
    let out = d(b);
    match out {
        Ok((x, k)) => match rd.skip(k) {
            Ok(()) => Ok(Sequence { seqid, src, content: x }),
            Err(e) => Err(e),
        },
        Err(e) => Err(e),
    }
}

} // verus!
