use byteorder::{BigEndian, ByteOrder, LittleEndian};
use vstd::prelude::*;
use vstd::utf8::{decode_utf8, valid_utf8};

verus! {

/// `256` raised to the power `k`.
pub open spec fn pow256(k: nat) -> nat
    decreases k,
{
    if k == 0 {
        1
    } else {
        256 * pow256((k - 1) as nat)
    }
}

/// The `k` low bytes of `n`, least significant first.
pub open spec fn le_bytes(n: nat, k: nat) -> Seq<u8>
    decreases k,
{
    if k == 0 {
        seq![]
    } else {
        seq![(n % 256) as u8] + le_bytes(n / 256, (k - 1) as nat)
    }
}

/// The number whose bytes, least significant first, are `b`.
pub open spec fn le_value(b: Seq<u8>) -> nat
    decreases b.len(),
{
    if b.len() == 0 {
        0
    } else {
        b[0] as nat + 256 * le_value(b.drop_first())
    }
}

/// The `k` low bytes of `n`, most significant first.
pub open spec fn be_bytes(n: nat, k: nat) -> Seq<u8> {
    le_bytes(n, k).reverse()
}

/// The number whose bytes, most significant first, are `b`.
pub open spec fn be_value(b: Seq<u8>) -> nat {
    le_value(b.reverse())
}

/// Relies on byteorder's `LittleEndian::write_uint128`: it writes the `nbytes`
/// low bytes of `n`, least significant first, and panics unless `n` fits in
/// them and `1 <= nbytes <= 16`.
#[verifier::external_body]
pub(crate) fn le_uint_bytes(n: u128, nbytes: usize) -> (r: Vec<u8>)
    requires
        1 <= nbytes <= 16,
        n < pow256(nbytes as nat),
    ensures
        r@ == le_bytes(n as nat, nbytes as nat),
{
    let mut buf = vec![0u8; nbytes];
    LittleEndian::write_uint128(&mut buf, n, nbytes);
    buf
}

/// Relies on byteorder's `LittleEndian::read_uint128`: it reads the `nbytes`
/// bytes at the start of its buffer, least significant first, and panics
/// unless `1 <= nbytes <= 16` and the buffer holds them.
#[verifier::external_body]
pub(crate) fn le_uint_value(buf: &[u8], start: usize, nbytes: usize) -> (r: u128)
    requires
        1 <= nbytes <= 16,
        start + nbytes <= buf@.len(),
    ensures
        r as nat == le_value(buf@.subrange(start as int, start + nbytes)),
{
    LittleEndian::read_uint128(&buf[start..], nbytes)
}

/// Relies on byteorder's `BigEndian::write_u128`: the sixteen bytes of `n`,
/// most significant first.
#[verifier::external_body]
pub(crate) fn be_u128_bytes(n: u128) -> (r: Vec<u8>)
    ensures
        r@ == be_bytes(n as nat, 16),
{
    let mut buf = vec![0u8; 16];
    BigEndian::write_u128(&mut buf, n);
    buf
}

/// Relies on byteorder's `BigEndian::read_u128`: the sixteen bytes at the start
/// of its buffer, most significant first; it panics on a shorter buffer.
#[verifier::external_body]
pub(crate) fn be_u128_value(buf: &[u8], start: usize) -> (r: u128)
    requires
        start + 16 <= buf@.len(),
    ensures
        r as nat == be_value(buf@.subrange(start as int, start + 16)),
{
    BigEndian::read_u128(&buf[start..])
}

} // verus!

verus! {

/// `256^k` for the widths the wire format uses.
pub proof fn lemma_pow256_widths()
    ensures
        pow256(0) == 1,
        pow256(1) == 0x100,
        pow256(2) == 0x1_0000,
        pow256(4) == 0x1_0000_0000,
        pow256(8) == 0x1_0000_0000_0000_0000,
        pow256(16) == 0x1_0000_0000_0000_0000_0000_0000_0000_0000,
{
    reveal_with_fuel(pow256, 17);
}

pub proof fn lemma_le_bytes_len(n: nat, k: nat)
    ensures
        le_bytes(n, k).len() == k,
    decreases k,
{
    if k > 0 {
        lemma_le_bytes_len(n / 256, (k - 1) as nat);
    }
}

/// Reading back the `k` low bytes of `n` gives `n` when it fits in them.
pub proof fn lemma_le_round_trip(n: nat, k: nat)
    requires
        n < pow256(k),
    ensures
        le_value(le_bytes(n, k)) == n,
    decreases k,
{
    if k > 0 {
        let b = le_bytes(n, k);
        let m = (k - 1) as nat;
        assert(n / 256 < pow256(m)) by (nonlinear_arith)
            requires
                n < 256 * pow256(m),
        ;
        lemma_le_round_trip(n / 256, m);
        assert(b.drop_first() =~= le_bytes(n / 256, m));
        assert(b[0] == n % 256);
    }
}

/// A value read from `b.len()` bytes fits in them.
pub proof fn lemma_le_value_bound(b: Seq<u8>)
    ensures
        le_value(b) < pow256(b.len()),
    decreases b.len(),
{
    if b.len() > 0 {
        lemma_le_value_bound(b.drop_first());
        let r = le_value(b.drop_first());
        let p = pow256((b.len() - 1) as nat);
        assert(b[0] + 256 * r < 256 * p) by (nonlinear_arith)
            requires
                b[0] < 256,
                r < p,
        ;
    }
}

/// Reading back the sixteen bytes of `n`, most significant first, gives `n`.
pub proof fn lemma_be_round_trip(n: u128)
    ensures
        be_bytes(n as nat, 16).len() == 16,
        be_value(be_bytes(n as nat, 16)) == n,
{
    lemma_pow256_widths();
    lemma_le_bytes_len(n as nat, 16);
    lemma_le_round_trip(n as nat, 16);
    assert(be_bytes(n as nat, 16).reverse() =~= le_bytes(n as nat, 16));
}

/// A value read from sixteen bytes, most significant first, fits in a `u128`.
pub proof fn lemma_be_value_bound(b: Seq<u8>)
    requires
        b.len() == 16,
    ensures
        be_value(b) < 0x1_0000_0000_0000_0000_0000_0000_0000_0000,
{
    lemma_pow256_widths();
    lemma_le_value_bound(b.reverse());
}

} // verus!

verus! {

/// Relies on `String::from_utf8`: it accepts exactly the byte strings that are
/// well-formed UTF-8, and then holds the characters they encode.
#[verifier::external_body]
pub(crate) fn utf8_string(buf: &[u8], start: usize, end: usize) -> (r: Option<String>)
    requires
        start <= end <= buf@.len(),
    ensures
        match r {
            Some(s) => valid_utf8(buf@.subrange(start as int, end as int)) && s@ == decode_utf8(
                buf@.subrange(start as int, end as int),
            ),
            None => !valid_utf8(buf@.subrange(start as int, end as int)),
        },
{
    match String::from_utf8(buf[start..end].to_vec()) {
        Ok(s) => Some(s),
        Err(_) => None,
    }
}

} // verus!
