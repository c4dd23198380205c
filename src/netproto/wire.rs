//! What each protocol value is on the wire, and how a byte string is read
//! back: every encoder and decoder of the library is held to these.
use super::bytes::{be_bytes, be_value, le_bytes, le_value};
use crate::messages::{
    AuthMessageV, ClientError, ClientId, ClientMessageV, ClientPollReplyV, ClientQueryV,
    ClientReplyV, DelayedError, FullyQualifiedMessageV, ServerId, ServerMessageV,
};
use vstd::prelude::*;
use vstd::utf8::*;

verus! {

/// Why a byte string could not be decoded.
#[derive(Clone, Copy, Debug, PartialEq, Eq, Structural)]
pub enum DecodeError {
    /// The input ended inside a value.
    UnexpectedEof,
    /// A byte count exceeds what is left of the input.
    LengthOverflow,
    /// The bytes of a string are not UTF-8.
    InvalidUtf8,
    /// A universally unique id does not start with its marker byte `16`.
    InvalidUuidMarker,
    /// A variant tag names no variant.
    UnknownTag,
    /// A variable-length integer starts with the reserved byte `255`.
    InvalidPrefix,
}

/// A decoded value and the number of bytes it took, or why decoding failed.
pub type ParseResult<T> = Result<(T, nat), DecodeError>;

/// The marker byte in front of a universally unique id.
pub const UUID_MARKER: u8 = 16;

// ---------------------------------------------------------------- encodings

/// Number of payload bytes after the prefix byte `p` of a variable-length integer.
pub open spec fn vu128_payload_len(p: u8) -> nat {
    if p == 251 {
        2
    } else if p == 252 {
        4
    } else if p == 253 {
        8
    } else {
        16
    }
}

/// The length of the encoding of `m`, as the boundary rule picks it.
pub open spec fn vu128_len(m: u128) -> nat {
    if m <= 250 {
        1
    } else if m < 0x1_0000 {
        3
    } else if m < 0x1_0000_0000 {
        5
    } else if m < 0x1_0000_0000_0000_0000 {
        9
    } else {
        17
    }
}

/// A variable-length unsigned integer: one byte up to 250, else a prefix
/// byte and the value in 2, 4, 8 or 16 bytes, least significant first.
pub open spec fn enc_vu128(m: u128) -> Seq<u8> {
    if m <= 250 {
        seq![m as u8]
    } else if m < 0x1_0000 {
        seq![251u8] + le_bytes(m as nat, 2)
    } else if m < 0x1_0000_0000 {
        seq![252u8] + le_bytes(m as nat, 4)
    } else if m < 0x1_0000_0000_0000_0000 {
        seq![253u8] + le_bytes(m as nat, 8)
    } else {
        seq![254u8] + le_bytes(m as nat, 16)
    }
}

/// A universally unique id: the marker, then its sixteen bytes, most significant first.
pub open spec fn enc_uuid(id: u128) -> Seq<u8> {
    seq![UUID_MARKER] + be_bytes(id as nat, 16)
}

pub open spec fn enc_client_id(c: ClientId) -> Seq<u8> {
    enc_uuid(c.0)
}

pub open spec fn enc_server_id(s: ServerId) -> Seq<u8> {
    enc_uuid(s.0)
}

/// A string: the length of its UTF-8 bytes, then those bytes.
pub open spec fn enc_string(s: Seq<char>) -> Seq<u8> {
    enc_vu128(encode_utf8(s).len() as u128) + encode_utf8(s)
}

/// The encodings of the items, one after the other.
pub open spec fn enc_many<T>(items: Seq<T>, e: spec_fn(T) -> Seq<u8>) -> Seq<u8>
    decreases items.len(),
{
    if items.len() == 0 {
        seq![]
    } else {
        e(items[0]) + enc_many(items.drop_first(), e)
    }
}

/// A sequence: its length, then its items.
pub open spec fn enc_seq<T>(items: Seq<T>, e: spec_fn(T) -> Seq<u8>) -> Seq<u8> {
    enc_vu128(items.len() as u128) + enc_many(items, e)
}

pub open spec fn client_id_enc() -> spec_fn(ClientId) -> Seq<u8> {
    |c: ClientId| enc_client_id(c)
}

pub open spec fn server_id_enc() -> spec_fn(ServerId) -> Seq<u8> {
    |s: ServerId| enc_server_id(s)
}

pub open spec fn dst_enc() -> spec_fn((ClientId, ServerId)) -> Seq<u8> {
    |d: (ClientId, ServerId)| enc_client_id(d.0) + enc_server_id(d.1)
}

pub open spec fn name_enc() -> spec_fn((ClientId, Seq<char>)) -> Seq<u8> {
    |p: (ClientId, Seq<char>)| enc_client_id(p.0) + enc_string(p.1)
}

pub open spec fn enc_auth(m: AuthMessageV) -> Seq<u8> {
    match m {
        AuthMessageV::Hello { user, nonce } => seq![0u8] + enc_client_id(user) + nonce,
        AuthMessageV::Nonce { server, nonce } => seq![1u8] + enc_server_id(server) + nonce,
        AuthMessageV::Auth { response } => seq![2u8] + response,
    }
}

pub open spec fn enc_fqm(m: FullyQualifiedMessageV) -> Seq<u8> {
    enc_client_id(m.src) + enc_server_id(m.srcsrv) + enc_seq(m.dsts, dst_enc()) + enc_string(
        m.content,
    )
}

pub open spec fn enc_server(m: ServerMessageV) -> Seq<u8> {
    match m {
        ServerMessageV::Announce { route, clients } => seq![0u8] + enc_seq(route, server_id_enc())
            + enc_seq(clients, name_enc()),
        ServerMessageV::Message(f) => seq![1u8] + enc_fqm(f),
    }
}

pub open spec fn enc_client(m: ClientMessageV) -> Seq<u8> {
    match m {
        ClientMessageV::Text { dest, content } => seq![0u8] + enc_client_id(dest) + enc_string(
            content,
        ),
        ClientMessageV::MText { dest, content } => seq![1u8] + enc_seq(dest, client_id_enc())
            + enc_string(content),
    }
}

pub open spec fn enc_client_error(e: ClientError) -> Seq<u8> {
    match e {
        ClientError::UnknownClient => seq![0u8],
        ClientError::BoxFull(c) => seq![1u8] + enc_client_id(c),
        ClientError::InternalError => seq![2u8],
    }
}

pub open spec fn enc_client_reply(r: ClientReplyV) -> Seq<u8> {
    match r {
        ClientReplyV::Delivered => seq![0u8],
        ClientReplyV::Error(e) => seq![1u8] + enc_client_error(e),
        ClientReplyV::Delayed => seq![2u8],
        ClientReplyV::Transfer(s, m) => seq![3u8] + enc_server_id(s) + enc_server(m),
    }
}

pub open spec fn client_reply_enc() -> spec_fn(ClientReplyV) -> Seq<u8> {
    |r: ClientReplyV| enc_client_reply(r)
}

pub open spec fn enc_client_replies(rs: Seq<ClientReplyV>) -> Seq<u8> {
    enc_seq(rs, client_reply_enc())
}

pub open spec fn enc_delayed_error(e: DelayedError) -> Seq<u8> {
    match e {
        DelayedError::UnknownRecipient(c) => seq![0u8] + enc_client_id(c),
    }
}

pub open spec fn enc_client_poll_reply(r: ClientPollReplyV) -> Seq<u8> {
    match r {
        ClientPollReplyV::Message { src, content } => seq![0u8] + enc_client_id(src) + enc_string(
            content,
        ),
        ClientPollReplyV::DelayedError(e) => seq![1u8] + enc_delayed_error(e),
        ClientPollReplyV::Nothing => seq![2u8],
    }
}

pub open spec fn enc_userlist(l: Seq<(ClientId, Seq<char>)>) -> Seq<u8> {
    enc_seq(l, name_enc())
}

pub open spec fn enc_client_query(q: ClientQueryV) -> Seq<u8> {
    match q {
        ClientQueryV::Register(name) => seq![0u8] + enc_string(name),
        ClientQueryV::Message(m) => seq![1u8] + enc_client(m),
        ClientQueryV::Poll => seq![2u8],
        ClientQueryV::ListUsers => seq![3u8],
    }
}

/// The header of a numbered envelope; the encoding of its content follows it.
pub open spec fn enc_sequence_header(seqid: u128, src: ClientId) -> Seq<u8> {
    enc_vu128(seqid) + enc_client_id(src)
}

// ------------------------------------------------------------------ parsing

pub open spec fn parse_u8(s: Seq<u8>) -> ParseResult<u8> {
    if s.len() == 0 {
        Err(DecodeError::UnexpectedEof)
    } else {
        Ok((s[0], 1))
    }
}

/// Reads a variable-length unsigned integer.
pub open spec fn parse_vu128(s: Seq<u8>) -> ParseResult<u128> {
    if s.len() == 0 {
        Err(DecodeError::UnexpectedEof)
    } else if s[0] <= 250 {
        Ok((s[0] as u128, 1))
    } else if s[0] == 255 {
        Err(DecodeError::InvalidPrefix)
    } else {
        let w = vu128_payload_len(s[0]);
        if s.len() < 1 + w {
            Err(DecodeError::UnexpectedEof)
        } else {
            Ok((le_value(s.subrange(1, 1 + w as int)) as u128, 1 + w))
        }
    }
}

/// Reads a universally unique id, marker first.
pub open spec fn parse_uuid(s: Seq<u8>) -> ParseResult<u128> {
    if s.len() == 0 {
        Err(DecodeError::UnexpectedEof)
    } else if s[0] != UUID_MARKER {
        Err(DecodeError::InvalidUuidMarker)
    } else if s.len() < 17 {
        Err(DecodeError::UnexpectedEof)
    } else {
        Ok((be_value(s.subrange(1, 17)) as u128, 17))
    }
}

pub open spec fn parse_client_id(s: Seq<u8>) -> ParseResult<ClientId> {
    match parse_uuid(s) {
        Ok((v, n)) => Ok((ClientId(v), n)),
        Err(e) => Err(e),
    }
}

pub open spec fn parse_server_id(s: Seq<u8>) -> ParseResult<ServerId> {
    match parse_uuid(s) {
        Ok((v, n)) => Ok((ServerId(v), n)),
        Err(e) => Err(e),
    }
}

/// Reads `k` raw bytes.
pub open spec fn parse_fixed(s: Seq<u8>, k: nat) -> ParseResult<Seq<u8>> {
    if s.len() < k {
        Err(DecodeError::UnexpectedEof)
    } else {
        Ok((s.take(k as int), k))
    }
}

/// Reads a byte count, then that many bytes of UTF-8.
pub open spec fn parse_string(s: Seq<u8>) -> ParseResult<Seq<char>> {
    match parse_vu128(s) {
        Err(e) => Err(e),
        Ok((n, k)) => {
            let rest = s.skip(k as int);
            if n > rest.len() {
                Err(DecodeError::LengthOverflow)
            } else if !valid_utf8(rest.take(n as int)) {
                Err(DecodeError::InvalidUtf8)
            } else {
                Ok((decode_utf8(rest.take(n as int)), k + n as nat))
            }
        },
    }
}

/// Reads `count` items with `p`, one after the other.
pub open spec fn parse_many<T>(
    s: Seq<u8>,
    count: nat,
    p: spec_fn(Seq<u8>) -> ParseResult<T>,
) -> ParseResult<Seq<T>>
    decreases count,
{
    if count == 0 {
        Ok((seq![], 0))
    } else {
        match p(s) {
            Err(e) => Err(e),
            Ok((v, n)) => match parse_many(s.skip(n as int), (count - 1) as nat, p) {
                Err(e) => Err(e),
                Ok((vs, m)) => Ok((seq![v] + vs, n + m)),
            },
        }
    }
}

/// Reads an item count, then the items.
pub open spec fn parse_seq<T>(s: Seq<u8>, p: spec_fn(Seq<u8>) -> ParseResult<T>) -> ParseResult<
    Seq<T>,
> {
    match parse_vu128(s) {
        Err(e) => Err(e),
        Ok((n, k)) => match parse_many(s.skip(k as int), n as nat, p) {
            Err(e) => Err(e),
            Ok((vs, m)) => Ok((vs, k + m)),
        },
    }
}

pub open spec fn parse_dst(s: Seq<u8>) -> ParseResult<(ClientId, ServerId)> {
    match parse_client_id(s) {
        Err(e) => Err(e),
        Ok((c, n)) => match parse_server_id(s.skip(n as int)) {
            Err(e) => Err(e),
            Ok((v, m)) => Ok(((c, v), n + m)),
        },
    }
}

pub open spec fn parse_name(s: Seq<u8>) -> ParseResult<(ClientId, Seq<char>)> {
    match parse_client_id(s) {
        Err(e) => Err(e),
        Ok((c, n)) => match parse_string(s.skip(n as int)) {
            Err(e) => Err(e),
            Ok((v, m)) => Ok(((c, v), n + m)),
        },
    }
}

pub open spec fn client_id_parser() -> spec_fn(Seq<u8>) -> ParseResult<ClientId> {
    |s: Seq<u8>| parse_client_id(s)
}

pub open spec fn server_id_parser() -> spec_fn(Seq<u8>) -> ParseResult<ServerId> {
    |s: Seq<u8>| parse_server_id(s)
}

pub open spec fn dst_parser() -> spec_fn(Seq<u8>) -> ParseResult<(ClientId, ServerId)> {
    |s: Seq<u8>| parse_dst(s)
}

pub open spec fn name_parser() -> spec_fn(Seq<u8>) -> ParseResult<(ClientId, Seq<char>)> {
    |s: Seq<u8>| parse_name(s)
}

/// No client appears twice in the list.
pub open spec fn unique_keys<V>(l: Seq<(ClientId, V)>) -> bool {
    forall|i: int, j: int| 0 <= i < j < l.len() ==> l[i].0 != l[j].0
}

/// The list with `k` bound to `v`: in place where `k` is listed, at the end otherwise.
pub open spec fn assoc_insert<V>(l: Seq<(ClientId, V)>, k: ClientId, v: V) -> Seq<(ClientId, V)> {
    if exists|i: int| 0 <= i < l.len() && l[i].0 == k {
        let i = choose|i: int| 0 <= i < l.len() && l[i].0 == k;
        l.update(i, (k, v))
    } else {
        l.push((k, v))
    }
}

/// The mapping that the pairs build when each is inserted in turn, a later
/// binding of a client replacing an earlier one.
pub open spec fn assoc_from<V>(pairs: Seq<(ClientId, V)>) -> Seq<(ClientId, V)>
    decreases pairs.len(),
{
    if pairs.len() == 0 {
        seq![]
    } else {
        let last = pairs.last();
        assoc_insert(assoc_from(pairs.drop_last()), last.0, last.1)
    }
}

/// Reads a mapping from clients to names.
pub open spec fn parse_names(s: Seq<u8>) -> ParseResult<Seq<(ClientId, Seq<char>)>> {
    match parse_seq(s, name_parser()) {
        Err(e) => Err(e),
        Ok((pairs, n)) => Ok((assoc_from(pairs), n)),
    }
}

pub open spec fn parse_auth(s: Seq<u8>) -> ParseResult<AuthMessageV> {
    if s.len() == 0 {
        Err(DecodeError::UnexpectedEof)
    } else {
        let r = s.skip(1);
        if s[0] == 0 {
            match parse_client_id(r) {
                Err(e) => Err(e),
                Ok((user, n)) => match parse_fixed(r.skip(n as int), 8) {
                    Err(e) => Err(e),
                    Ok((nonce, m)) => Ok((AuthMessageV::Hello { user, nonce }, 1 + n + m)),
                },
            }
        } else if s[0] == 1 {
            match parse_server_id(r) {
                Err(e) => Err(e),
                Ok((server, n)) => match parse_fixed(r.skip(n as int), 8) {
                    Err(e) => Err(e),
                    Ok((nonce, m)) => Ok((AuthMessageV::Nonce { server, nonce }, 1 + n + m)),
                },
            }
        } else if s[0] == 2 {
            match parse_fixed(r, 16) {
                Err(e) => Err(e),
                Ok((response, m)) => Ok((AuthMessageV::Auth { response }, 1 + m)),
            }
        } else {
            Err(DecodeError::UnknownTag)
        }
    }
}

pub open spec fn parse_fqm(s: Seq<u8>) -> ParseResult<FullyQualifiedMessageV> {
    match parse_client_id(s) {
        Err(e) => Err(e),
        Ok((src, n1)) => {
            let s1 = s.skip(n1 as int);
            match parse_server_id(s1) {
                Err(e) => Err(e),
                Ok((srcsrv, n2)) => {
                    let s2 = s1.skip(n2 as int);
                    match parse_seq(s2, dst_parser()) {
                        Err(e) => Err(e),
                        Ok((dsts, n3)) => match parse_string(s2.skip(n3 as int)) {
                            Err(e) => Err(e),
                            Ok((content, n4)) => Ok(
                                (
                                    FullyQualifiedMessageV { src, srcsrv, dsts, content },
                                    n1 + n2 + n3 + n4,
                                ),
                            ),
                        },
                    }
                },
            }
        },
    }
}

#[verifier::opaque]
pub open spec fn parse_server(s: Seq<u8>) -> ParseResult<ServerMessageV> {
    if s.len() == 0 {
        Err(DecodeError::UnexpectedEof)
    } else {
        let r = s.skip(1);
        if s[0] == 0 {
            match parse_seq(r, server_id_parser()) {
                Err(e) => Err(e),
                Ok((route, n)) => match parse_names(r.skip(n as int)) {
                    Err(e) => Err(e),
                    Ok((clients, m)) => Ok(
                        (ServerMessageV::Announce { route, clients }, 1 + n + m),
                    ),
                },
            }
        } else if s[0] == 1 {
            match parse_fqm(r) {
                Err(e) => Err(e),
                Ok((f, n)) => Ok((ServerMessageV::Message(f), 1 + n)),
            }
        } else {
            Err(DecodeError::UnknownTag)
        }
    }
}

pub open spec fn parse_client(s: Seq<u8>) -> ParseResult<ClientMessageV> {
    if s.len() == 0 {
        Err(DecodeError::UnexpectedEof)
    } else {
        let r = s.skip(1);
        if s[0] == 0 {
            match parse_client_id(r) {
                Err(e) => Err(e),
                Ok((dest, n)) => match parse_string(r.skip(n as int)) {
                    Err(e) => Err(e),
                    Ok((content, m)) => Ok((ClientMessageV::Text { dest, content }, 1 + n + m)),
                },
            }
        } else if s[0] == 1 {
            match parse_seq(r, client_id_parser()) {
                Err(e) => Err(e),
                Ok((dest, n)) => match parse_string(r.skip(n as int)) {
                    Err(e) => Err(e),
                    Ok((content, m)) => Ok((ClientMessageV::MText { dest, content }, 1 + n + m)),
                },
            }
        } else {
            Err(DecodeError::UnknownTag)
        }
    }
}

pub open spec fn parse_client_error(s: Seq<u8>) -> ParseResult<ClientError> {
    if s.len() == 0 {
        Err(DecodeError::UnexpectedEof)
    } else if s[0] == 0 {
        Ok((ClientError::UnknownClient, 1))
    } else if s[0] == 1 {
        match parse_client_id(s.skip(1)) {
            Err(e) => Err(e),
            Ok((c, n)) => Ok((ClientError::BoxFull(c), 1 + n)),
        }
    } else if s[0] == 2 {
        Ok((ClientError::InternalError, 1))
    } else {
        Err(DecodeError::UnknownTag)
    }
}

pub open spec fn parse_client_reply(s: Seq<u8>) -> ParseResult<ClientReplyV> {
    if s.len() == 0 {
        Err(DecodeError::UnexpectedEof)
    } else {
        let r = s.skip(1);
        if s[0] == 0 {
            Ok((ClientReplyV::Delivered, 1))
        } else if s[0] == 1 {
            match parse_client_error(r) {
                Err(e) => Err(e),
                Ok((e, n)) => Ok((ClientReplyV::Error(e), 1 + n)),
            }
        } else if s[0] == 2 {
            Ok((ClientReplyV::Delayed, 1))
        } else if s[0] == 3 {
            match parse_server_id(r) {
                Err(e) => Err(e),
                Ok((v, n)) => match parse_server(r.skip(n as int)) {
                    Err(e) => Err(e),
                    Ok((m, k)) => Ok((ClientReplyV::Transfer(v, m), 1 + n + k)),
                },
            }
        } else {
            Err(DecodeError::UnknownTag)
        }
    }
}

pub open spec fn client_reply_parser() -> spec_fn(Seq<u8>) -> ParseResult<ClientReplyV> {
    |s: Seq<u8>| parse_client_reply(s)
}

pub open spec fn parse_client_replies(s: Seq<u8>) -> ParseResult<Seq<ClientReplyV>> {
    parse_seq(s, client_reply_parser())
}

pub open spec fn parse_delayed_error(s: Seq<u8>) -> ParseResult<DelayedError> {
    if s.len() == 0 {
        Err(DecodeError::UnexpectedEof)
    } else if s[0] == 0 {
        match parse_client_id(s.skip(1)) {
            Err(e) => Err(e),
            Ok((c, n)) => Ok((DelayedError::UnknownRecipient(c), 1 + n)),
        }
    } else {
        Err(DecodeError::UnknownTag)
    }
}

pub open spec fn parse_client_poll_reply(s: Seq<u8>) -> ParseResult<ClientPollReplyV> {
    if s.len() == 0 {
        Err(DecodeError::UnexpectedEof)
    } else {
        let r = s.skip(1);
        if s[0] == 0 {
            match parse_client_id(r) {
                Err(e) => Err(e),
                Ok((src, n)) => match parse_string(r.skip(n as int)) {
                    Err(e) => Err(e),
                    Ok((content, m)) => Ok(
                        (ClientPollReplyV::Message { src, content }, 1 + n + m),
                    ),
                },
            }
        } else if s[0] == 1 {
            match parse_delayed_error(r) {
                Err(e) => Err(e),
                Ok((e, n)) => Ok((ClientPollReplyV::DelayedError(e), 1 + n)),
            }
        } else if s[0] == 2 {
            Ok((ClientPollReplyV::Nothing, 1))
        } else {
            Err(DecodeError::UnknownTag)
        }
    }
}

pub open spec fn parse_userlist(s: Seq<u8>) -> ParseResult<Seq<(ClientId, Seq<char>)>> {
    parse_names(s)
}

pub open spec fn parse_client_query(s: Seq<u8>) -> ParseResult<ClientQueryV> {
    if s.len() == 0 {
        Err(DecodeError::UnexpectedEof)
    } else {
        let r = s.skip(1);
        if s[0] == 0 {
            match parse_string(r) {
                Err(e) => Err(e),
                Ok((name, n)) => Ok((ClientQueryV::Register(name), 1 + n)),
            }
        } else if s[0] == 1 {
            match parse_client(r) {
                Err(e) => Err(e),
                Ok((m, n)) => Ok((ClientQueryV::Message(m), 1 + n)),
            }
        } else if s[0] == 2 {
            Ok((ClientQueryV::Poll, 1))
        } else if s[0] == 3 {
            Ok((ClientQueryV::ListUsers, 1))
        } else {
            Err(DecodeError::UnknownTag)
        }
    }
}

/// Reads the header of a numbered envelope: its number, then its source.
pub open spec fn parse_sequence_header(s: Seq<u8>) -> ParseResult<(u128, ClientId)> {
    match parse_vu128(s) {
        Err(e) => Err(e),
        Ok((seqid, n)) => match parse_client_id(s.skip(n as int)) {
            Err(e) => Err(e),
            Ok((src, m)) => Ok(((seqid, src), n + m)),
        },
    }
}

/// The items `acc`, read from `c` bytes, followed by what `r` reads after them.
pub open spec fn after_items<T>(acc: Seq<T>, c: nat, r: ParseResult<Seq<T>>) -> ParseResult<
    Seq<T>,
> {
    match r {
        Err(e) => Err(e),
        Ok((vs, m)) => Ok((acc + vs, c + m)),
    }
}

} // verus!
