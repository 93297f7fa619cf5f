//! Bitcoin segwit addresses: a verified Bech32 / Bech32m codec, witness
//! program validation against network rules, and generation of fresh
//! Taproot addresses from a key drawn by the secp256k1 library.
use vstd::prelude::*;
use vstd::string::StringSliceAdditionalSpecFns;
use bitcoin::util::schnorr::TapTweak;

pub mod address;
pub mod charset;
pub mod checksum;
pub mod codec;
pub mod regroup;

use crate::address::{
    encode_address, is_valid_for_network, lemma_construct_parse_roundtrip, spec_address_bytes,
    spec_valid_for, witness_ok, Address, Network,
};
use crate::codec::lemma_encode_ascii;

verus! {

/// The network a testnet flag selects: testnet only on `Some(true)`,
/// mainnet on `Some(false)` and on no flag at all.
pub open spec fn spec_network(is_testnet: Option<bool>) -> Network {
    if is_testnet == Some(true) {
        Network::Testnet
    } else {
        Network::Mainnet
    }
}

/// A byte sequence read as characters, one per byte.
pub open spec fn ascii_chars_of(bytes: Seq<u8>) -> Seq<char> {
    bytes.map_values(|b: u8| b as char)
}

/// Tests whether the given string is a valid bitcoin address for the
/// selected network.
pub fn is_valid(address: &str, is_testnet: Option<bool>) -> (r: bool)
    ensures
        r == spec_valid_for(address.spec_bytes(), spec_network(is_testnet)),
{
    let network: Network = match is_testnet {
        Some(true) => Network::Testnet,
        _ => Network::Mainnet,
    };
    is_valid_for_network(address.as_bytes(), network)
}

/// Relies on the bitcoin crate's secp256k1 bindings for the key material
/// of a fresh Taproot output: `KeyPair::new` draws a key pair from the
/// thread's cryptographic generator, `XOnlyPublicKey::from_keypair` takes
/// its x-only public key, `tap_tweak` applies the Taproot output tweak
/// with no script tree, and `TweakedPublicKey::serialize` writes the
/// 32-byte result. Nothing can be said of which bytes come back, only
/// that there are 32 of them.
#[verifier::external_body]
fn fresh_taproot_output_key() -> (r: Vec<u8>)
    ensures
        r@.len() == 32,
{
    let secp = bitcoin::secp256k1::Secp256k1::new();
    let key_pair = bitcoin::secp256k1::KeyPair::new(
        &secp,
        &mut bitcoin::secp256k1::rand::thread_rng(),
    );
    let (internal, _parity) = bitcoin::XOnlyPublicKey::from_keypair(&key_pair);
    let (output, _parity) = internal.tap_tweak(&secp, None);
    output.serialize().to_vec()
}

/// Relies on String::from_utf8: bytes below 128 are ASCII, which UTF-8
/// decodes one character per byte, each to the same code point.
#[verifier::external_body]
fn ascii_string(bytes: Vec<u8>) -> (r: String)
    requires
        forall|i: int| 0 <= i < bytes@.len() ==> bytes@[i] < 128,
    ensures
        r@ == ascii_chars_of(bytes@),
{
    match String::from_utf8(bytes) {
        Ok(s) => s,
        Err(_) => String::new(),
    }
}

/// Generates a random taproot address for the selected network: a witness
/// version 1 address whose program is a fresh 32-byte x-only output key.
pub fn random(is_testnet: Option<bool>) -> (r: String)
    ensures
        exists|key: Seq<u8>|
            key.len() == 32 && r@ == ascii_chars_of(
                #[trigger] spec_address_bytes(spec_network(is_testnet), 1, key),
            ),
{
    let network: Network = match is_testnet {
        Some(true) => Network::Testnet,
        _ => Network::Mainnet,
    };
    let key: Vec<u8> = fresh_taproot_output_key();
    let ghost gkey: Seq<u8> = key@;
    let addr: Address = match crate::address::construct(network, 1, key) {
        Ok(a) => a,
        Err(_) => vstd::pervasive::unreached(),
    };
    let bytes: Vec<u8> = encode_address(&addr);
    proof {
        lemma_encode_ascii(
            crate::address::hrp_of(network),
            seq![1u8] + crate::regroup::u5_of_bytes(gkey),
            crate::address::variant_for(1),
        );
    }
    let s: String = ascii_string(bytes);
    proof {
        assert(gkey.len() == 32 && s@ == ascii_chars_of(
            spec_address_bytes(spec_network(is_testnet), 1, gkey),
        ));
    }
    s
}

/// Round trip at the top: any address this library writes for a network
/// is, by its contracts, one that `is_valid` accepts for that network.
pub proof fn lemma_written_addresses_are_valid(network: Network, version: u8, program: Seq<u8>)
    requires
        witness_ok(version, program.len() as int),
    ensures
        spec_valid_for(spec_address_bytes(network, version, program), network),
{
    lemma_construct_parse_roundtrip(network, version, program);
}

} // verus!
