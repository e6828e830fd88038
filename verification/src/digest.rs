//! The 32-byte cryptographic digest that filter hash chains are built from.

use vstd::prelude::*;

verus! {

/// What BLAKE2b-256 returns for a given personalization and input: a fixed
/// function of the two byte strings alone.
pub uninterp spec fn blake2b_digest(personal: Seq<u8>, data: Seq<u8>) -> Seq<u8>;

/// Relies on `blake2b_ref::Blake2bBuilder` and `blake2b_ref::Blake2b`: the
/// 32-byte BLAKE2b digest of `data` under a personalization of at most 16
/// bytes, a deterministic function of the two arguments.
#[verifier::external_body]
fn blake2b256_raw(personal: &[u8], data: &[u8]) -> (r: Vec<u8>)
    requires
        personal@.len() <= 16,
    ensures
        r@ == blake2b_digest(personal@, data@),
        r@.len() == 32,
{
    let mut out = [0u8; 32];
    let mut state = blake2b_ref::Blake2bBuilder::new(32).personal(personal).build();
    state.update(data);
    state.finalize(&mut out);
    out.to_vec()
}

/// The 16-byte personalization under which the node takes every digest
/// (the ASCII bytes of `ckb-default-hash`).
pub open spec fn node_personal() -> Seq<u8> {
    seq![
        0x63u8,
        0x6bu8,
        0x62u8,
        0x2du8,
        0x64u8,
        0x65u8,
        0x66u8,
        0x61u8,
        0x75u8,
        0x6cu8,
        0x74u8,
        0x2du8,
        0x68u8,
        0x61u8,
        0x73u8,
        0x68u8,
    ]
}

/// The digest the node uses everywhere: BLAKE2b-256 under its personalization.
pub open spec fn node_blake2b(data: Seq<u8>) -> Seq<u8> {
    blake2b_digest(node_personal(), data)
}

/// The node's 32-byte digest of `data`.
pub fn node_hash(data: &Vec<u8>) -> (r: Vec<u8>)
    ensures
        r@ == node_blake2b(data@),
        r@.len() == 32,
{
    let mut personal: Vec<u8> = Vec::new();
    personal.push(0x63);
    personal.push(0x6b);
    personal.push(0x62);
    personal.push(0x2d);
    personal.push(0x64);
    personal.push(0x65);
    personal.push(0x66);
    personal.push(0x61);
    personal.push(0x75);
    personal.push(0x6c);
    personal.push(0x74);
    personal.push(0x2d);
    personal.push(0x68);
    personal.push(0x61);
    personal.push(0x73);
    personal.push(0x68);
    proof {
        assert(personal@ =~= node_personal());
    }
    blake2b256_raw(personal.as_slice(), data.as_slice())
}

} // verus!
