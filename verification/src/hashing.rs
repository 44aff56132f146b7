//! How identifiers are derived: the bytes that go into the hash, and the
//! hash itself.
//!
//! Every new token, trade pair, order and trade is named by the Blake2b-256
//! digest of a run of bytes that holds the host's randomness seed, the fields
//! of the new item and a nonce. Integers go in little-endian, as the SCALE
//! codec writes them; identifiers go in as their 32 bytes, most significant
//! first; an enum goes in as the index of its variant.

use vstd::prelude::*;
use sp_core::Hasher;
use parity_scale_codec::Encode;
use crate::types::{BlockNumber, Order, OrderOpt, OrderType, H256};

verus! {

/// The Blake2b-256 digest of a run of bytes.
pub uninterp spec fn blake2_256_digest(data: Seq<u8>) -> Seq<u8>;

/// The Blake2b-256 digest of `data`, by `sp_core::Blake2Hasher::hash`. The
/// digest is a function of the bytes alone; its 32 bytes are handed on as
/// they come.
#[verifier::external_body]
pub(crate) fn blake2_256(data: &Vec<u8>) -> (digest: [u8; 32])
    ensures
        digest@ == blake2_256_digest(data@),
{
    sp_core::Blake2Hasher::hash(data.as_slice()).0
}

/// The 16 bytes of a 128-bit number, least significant first.
pub open spec fn le_bytes_u128(x: u128) -> Seq<u8> {
    Seq::new(16, |i: int| ((x >> ((8 * i) as u128)) & 0xff) as u8)
}

/// The 8 bytes of a 64-bit number, least significant first.
pub open spec fn le_bytes_u64(x: u64) -> Seq<u8> {
    Seq::new(8, |i: int| ((x >> ((8 * i) as u64)) & 0xff) as u8)
}

/// The SCALE encoding of a 128-bit number, by `parity_scale_codec::Encode::encode`:
/// its 16 bytes in little-endian order.
#[verifier::external_body]
pub(crate) fn scale_u128(x: u128) -> (bytes: Vec<u8>)
    ensures
        bytes@ == le_bytes_u128(x),
{
    x.encode()
}

/// The SCALE encoding of a 64-bit number, by `parity_scale_codec::Encode::encode`:
/// its 8 bytes in little-endian order.
#[verifier::external_body]
pub(crate) fn scale_u64(x: u64) -> (bytes: Vec<u8>)
    ensures
        bytes@ == le_bytes_u64(x),
{
    x.encode()
}

/// The number that a run of bytes spells, most significant byte first (the
/// run is read modulo 2^128).
pub open spec fn be_fold(s: Seq<u8>) -> u128
    decreases s.len(),
{
    if s.len() == 0 {
        0
    } else {
        (be_fold(s.drop_last()) << 8) | (s.last() as u128)
    }
}

/// The identifier that 32 bytes spell: the first 16 make the high half, the
/// last 16 the low half.
pub open spec fn h256_of_bytes(s: Seq<u8>) -> H256 {
    H256 { hi: be_fold(s.subrange(0, 16)), lo: be_fold(s.subrange(16, 32)) }
}

/// The 16 bytes of a 128-bit number, most significant first.
pub open spec fn be_bytes_u128(x: u128) -> Seq<u8> {
    Seq::new(16, |i: int| ((x >> ((8 * (15 - i)) as u128)) & 0xff) as u8)
}

/// The 32 bytes of an identifier, most significant first.
pub open spec fn h256_bytes(h: H256) -> Seq<u8> {
    be_bytes_u128(h.hi) + be_bytes_u128(h.lo)
}

/// The identifier derived from a run of bytes.
pub open spec fn hash_of(data: Seq<u8>) -> H256 {
    h256_of_bytes(blake2_256_digest(data))
}

fn fold_bytes(d: &[u8; 32], from: usize) -> (r: u128)
    requires
        from + 16 <= 32,
    ensures
        r == be_fold(d@.subrange(from as int, from + 16)),
{
    let mut acc: u128 = 0;
    let mut i: usize = 0;
    while i < 16
        invariant
            i <= 16,
            from + 16 <= 32,
            acc == be_fold(d@.subrange(from as int, from + i)),
        decreases 16 - i,
    {
        let b: u8 = d[from + i];
        proof {
            let s = d@.subrange(from as int, from + i + 1);
            assert(s.drop_last() =~= d@.subrange(from as int, from + i));
            assert(s.last() == b);
        }
        acc = (acc << 8) | (b as u128);
        i = i + 1;
    }
    acc
}

/// Hashes a run of bytes into an identifier.
pub fn hash_bytes(data: &Vec<u8>) -> (h: H256)
    ensures
        h == hash_of(data@),
{
    let d = blake2_256(data);
    let hi = fold_bytes(&d, 0);
    let lo = fold_bytes(&d, 16);
    H256 { hi, lo }
}

fn push_all(out: &mut Vec<u8>, bytes: &Vec<u8>)
    ensures
        final(out)@ == old(out)@ + bytes@,
{
    let mut i: usize = 0;
    while i < bytes.len()
        invariant
            i <= bytes@.len(),
            out@ == old(out)@ + bytes@.take(i as int),
        decreases bytes@.len() - i,
    {
        out.push(bytes[i]);
        assert(bytes@.take(i as int + 1) =~= bytes@.take(i as int).push(bytes@[i as int]));
        assert(out@ =~= old(out)@ + bytes@.take(i as int + 1));
        i = i + 1;
    }
    assert(bytes@.take(bytes@.len() as int) =~= bytes@);
}

fn push_be_u128(out: &mut Vec<u8>, x: u128)
    ensures
        final(out)@ == old(out)@ + be_bytes_u128(x),
{
    let mut i: usize = 0;
    while i < 16
        invariant
            i <= 16,
            out@ == old(out)@ + be_bytes_u128(x).take(i as int),
        decreases 16 - i,
    {
        let sh: u128 = (8 * (15 - i)) as u128;
        let b: u8 = ((x >> sh) & 0xff) as u8;
        out.push(b);
        assert(be_bytes_u128(x).take(i as int + 1) =~= be_bytes_u128(x).take(i as int).push(b));
        assert(out@ =~= old(out)@ + be_bytes_u128(x).take(i as int + 1));
        i = i + 1;
    }
    assert(be_bytes_u128(x).take(16) =~= be_bytes_u128(x));
}

fn push_h256(out: &mut Vec<u8>, h: &H256)
    ensures
        final(out)@ == old(out)@ + h256_bytes(*h),
{
    push_be_u128(out, h.hi);
    push_be_u128(out, h.lo);
    assert(out@ =~= old(out)@ + h256_bytes(*h));
}

fn push_u128(out: &mut Vec<u8>, x: u128)
    ensures
        final(out)@ == old(out)@ + le_bytes_u128(x),
{
    let bytes = scale_u128(x);
    push_all(out, &bytes);
}

fn push_u64(out: &mut Vec<u8>, x: u64)
    ensures
        final(out)@ == old(out)@ + le_bytes_u64(x),
{
    let bytes = scale_u64(x);
    push_all(out, &bytes);
}

/// The byte that stands for the pricing of an order.
pub open spec fn oopt_byte(o: OrderOpt) -> u8 {
    match o {
        OrderOpt::Limit => 0,
        OrderOpt::Market => 1,
    }
}

/// The byte that stands for the side of an order.
pub open spec fn otype_byte(o: OrderType) -> u8 {
    match o {
        OrderType::Buy => 0,
        OrderType::Sell => 1,
    }
}

/// The bytes hashed into the identifier of a token: the randomness drawn for
/// its symbol, the issuer and the ledger's nonce.
pub open spec fn token_preimage(random: H256, sender: H256, nonce: u64) -> Seq<u8> {
    h256_bytes(random) + h256_bytes(sender) + le_bytes_u64(nonce)
}

/// The bytes hashed into the identifier of a trade pair.
pub open spec fn trade_pair_preimage(
    seed: H256,
    block_number: BlockNumber,
    sender: H256,
    base: H256,
    quote: H256,
    nonce: u128,
) -> Seq<u8> {
    h256_bytes(seed) + le_bytes_u64(block_number) + h256_bytes(sender) + h256_bytes(base)
        + h256_bytes(quote) + le_bytes_u128(nonce)
}

/// The bytes hashed into the identifier of an order; the order's own `hash`
/// field and its status and open amounts take no part.
pub open spec fn order_preimage(seed: H256, o: Order, nonce: u128, block_number: BlockNumber)
    -> Seq<u8> {
    h256_bytes(seed) + h256_bytes(o.base) + h256_bytes(o.quote) + h256_bytes(o.owner)
        + le_bytes_u128(o.price) + le_bytes_u128(o.sell_amount) + le_bytes_u128(o.buy_amount)
        + seq![oopt_byte(o.oopt)] + seq![otype_byte(o.otype)] + le_bytes_u128(nonce)
        + le_bytes_u64(block_number)
}

/// The bytes hashed into the identifier of a trade, from the two orders as
/// they stand after the fill.
pub open spec fn trade_preimage(
    seed: H256,
    block_number: BlockNumber,
    nonce: u128,
    maker: Order,
    taker: Order,
) -> Seq<u8> {
    h256_bytes(seed) + le_bytes_u64(block_number) + le_bytes_u128(nonce) + h256_bytes(maker.hash)
        + le_bytes_u128(maker.remained_sell_amount) + h256_bytes(maker.owner) + h256_bytes(
        taker.hash,
    ) + le_bytes_u128(taker.remained_sell_amount) + h256_bytes(taker.owner)
}

/// Derives the identifier of a new token.
pub fn token_hash(random: &H256, sender: &H256, nonce: u64) -> (h: H256)
    ensures
        h == hash_of(token_preimage(*random, *sender, nonce)),
{
    let mut out: Vec<u8> = Vec::new();
    push_h256(&mut out, random);
    push_h256(&mut out, sender);
    push_u64(&mut out, nonce);
    assert(out@ =~= token_preimage(*random, *sender, nonce));
    hash_bytes(&out)
}

/// Derives the identifier of a new trade pair.
pub fn trade_pair_hash(
    seed: &H256,
    block_number: BlockNumber,
    sender: &H256,
    base: &H256,
    quote: &H256,
    nonce: u128,
) -> (h: H256)
    ensures
        h == hash_of(trade_pair_preimage(*seed, block_number, *sender, *base, *quote, nonce)),
{
    let mut out: Vec<u8> = Vec::new();
    push_h256(&mut out, seed);
    push_u64(&mut out, block_number);
    push_h256(&mut out, sender);
    push_h256(&mut out, base);
    push_h256(&mut out, quote);
    push_u128(&mut out, nonce);
    assert(out@ =~= trade_pair_preimage(*seed, block_number, *sender, *base, *quote, nonce));
    hash_bytes(&out)
}

/// Derives the identifier of a new order.
pub fn order_hash(seed: &H256, o: &Order, nonce: u128, block_number: BlockNumber) -> (h: H256)
    ensures
        h == hash_of(order_preimage(*seed, *o, nonce, block_number)),
{
    let mut out: Vec<u8> = Vec::new();
    push_h256(&mut out, seed);
    push_h256(&mut out, &o.base);
    push_h256(&mut out, &o.quote);
    push_h256(&mut out, &o.owner);
    push_u128(&mut out, o.price);
    push_u128(&mut out, o.sell_amount);
    push_u128(&mut out, o.buy_amount);
    out.push(
        match o.oopt {
            OrderOpt::Limit => 0,
            OrderOpt::Market => 1,
        },
    );
    out.push(
        match o.otype {
            OrderType::Buy => 0,
            OrderType::Sell => 1,
        },
    );
    push_u128(&mut out, nonce);
    push_u64(&mut out, block_number);
    assert(out@ =~= order_preimage(*seed, *o, nonce, block_number));
    hash_bytes(&out)
}

/// Derives the identifier of a new trade.
pub fn trade_hash(
    seed: &H256,
    block_number: BlockNumber,
    nonce: u128,
    maker: &Order,
    taker: &Order,
) -> (h: H256)
    ensures
        h == hash_of(trade_preimage(*seed, block_number, nonce, *maker, *taker)),
{
    let mut out: Vec<u8> = Vec::new();
    push_h256(&mut out, seed);
    push_u64(&mut out, block_number);
    push_u128(&mut out, nonce);
    push_h256(&mut out, &maker.hash);
    push_u128(&mut out, maker.remained_sell_amount);
    push_h256(&mut out, &maker.owner);
    push_h256(&mut out, &taker.hash);
    push_u128(&mut out, taker.remained_sell_amount);
    push_h256(&mut out, &taker.owner);
    assert(out@ =~= trade_preimage(*seed, block_number, nonce, *maker, *taker));
    hash_bytes(&out)
}

} // verus!
