//! Calls into the hashing, address and signature crates, with what this library
//! relies on of each.
use parity_multiaddr::multihash::Multihash;
use parity_multiaddr::{Multiaddr, Protocol};
use sp_core::crypto::Pair as CryptoPair;
use sp_core::sr25519;
use std::convert::TryFrom;
use vstd::prelude::*;

verus! {

#[verifier::external_type_specification]
#[verifier::external_body]
pub struct ExSr25519Pair(sr25519::Pair);

/// DHT key under which the record of the authority with raw public key `id` is stored.
pub uninterp spec fn dht_key_of(id: Seq<u8>) -> Seq<u8>;

/// Bytes of the network address written as text `s`, where it is one.
pub uninterp spec fn address_from_str(s: Seq<char>) -> Option<Seq<u8>>;

/// Whether `b` is the byte form of a network address.
pub uninterp spec fn is_address(b: Seq<u8>) -> bool;

/// Address `addr` with a peer identity component for `peer` appended, where both are well formed.
pub uninterp spec fn with_peer_id(addr: Seq<u8>, peer: Seq<u8>) -> Option<Seq<u8>>;

/// Whether `sig` is a valid sr25519 signature of `msg` by the public key `public`.
pub uninterp spec fn signature_valid(sig: Seq<u8>, msg: Seq<u8>, public: Seq<u8>) -> bool;

/// Relies on parity_multihash::encode with SHA2-256, whose bytes serve as the DHT key;
/// that encoder fails only for the identity hash, so the error arm is never taken.
#[verifier::external_body]
pub(crate) fn hash_authority_id(id: &Vec<u8>) -> (r: Vec<u8>)
    ensures
        r@ == dht_key_of(id@),
{
    match parity_multihash::encode(parity_multihash::Hash::SHA2256, id) {
        Ok(h) => h.into_bytes(),
        Err(_) => Vec::new(),
    }
}

/// Relies on `Multiaddr`'s `FromStr` and `to_vec`: the byte form of the parsed address.
#[verifier::external_body]
pub(crate) fn parse_address(s: &String) -> (r: Option<Vec<u8>>)
    ensures
        match address_from_str(s@) {
            Some(b) => r matches Some(v) && v@ == b,
            None => r is None,
        },
{
    match s.parse::<Multiaddr>() {
        Ok(a) => Some(a.to_vec()),
        Err(_) => None,
    }
}

/// Relies on `Multiaddr`'s `TryFrom<Vec<u8>>`, which reads every protocol component of the bytes.
#[verifier::external_body]
pub(crate) fn check_address(b: &Vec<u8>) -> (r: bool)
    ensures
        r == is_address(b@),
{
    Multiaddr::try_from(b.clone()).is_ok()
}

/// Relies on `Multiaddr::with` and `Protocol::P2p`: the address bytes are kept and the
/// peer identity component is written after them. `peer` is the multihash of the peer
/// identity; `None` where `Multiaddr::try_from` refuses the address or
/// `Multihash::from_bytes` the peer identity.
#[verifier::external_body]
pub(crate) fn append_peer_id(addr: &Vec<u8>, peer: &Vec<u8>) -> (r: Option<Vec<u8>>)
    ensures
        match with_peer_id(addr@, peer@) {
            Some(b) => r matches Some(v) && v@ == b,
            None => r is None,
        },
        r matches Some(v) ==> addr@.len() < v@.len() && v@.subrange(0, addr@.len() as int) == addr@,
{
    match (Multiaddr::try_from(addr.clone()), Multihash::from_bytes(peer)) {
        (Ok(a), Ok(p)) => Some(a.with(Protocol::P2p(p)).to_vec()),
        _ => None,
    }
}

/// Relies on sp_core's sr25519 `Pair::verify`. Keys of other than 32 bytes and signatures
/// of other than 64 bytes are refused by their `TryFrom<&[u8]>` and never verify.
#[verifier::external_body]
pub(crate) fn verify_signature(sig: &Vec<u8>, msg: &Vec<u8>, public: &Vec<u8>) -> (r: bool)
    ensures
        r == signature_valid(sig@, msg@, public@),
        r ==> sig@.len() == 64 && public@.len() == 32,
{
    match (sr25519::Signature::try_from(&sig[..]), sr25519::Public::try_from(&public[..])) {
        (Ok(s), Ok(p)) => sr25519::Pair::verify(&s, msg, &p),
        _ => false,
    }
}

/// Relies on sp_core's sr25519 `Pair::sign`: a 64-byte signature of `msg`. Signing draws
/// fresh randomness, so nothing more is stated of the bytes.
#[verifier::external_body]
pub(crate) fn sign(pair: &sr25519::Pair, msg: &Vec<u8>) -> (r: Vec<u8>)
    ensures
        r@.len() == 64,
{
    AsRef::<[u8]>::as_ref(&pair.sign(msg)).to_vec()
}

/// Relies on sp_core's sr25519 `Pair::public`: the 32 raw bytes of the public key.
#[verifier::external_body]
pub(crate) fn public_key(pair: &sr25519::Pair) -> (r: Vec<u8>)
    ensures
        r@.len() == 32,
{
    AsRef::<[u8]>::as_ref(&pair.public()).to_vec()
}

} // verus!
