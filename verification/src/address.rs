//! Segwit addresses on top of the codec: the network prefixes, the
//! witness version and program rules, parsing, construction, and the
//! guarantees that tie them together.
use vstd::prelude::*;
use crate::charset::{lemma_charset, value_of};
use crate::checksum::{
    checksum_verifies, hrp_expand, lemma_polymod_single_change, polymod, BECH32M_CONST,
    BECH32_CONST,
};
use crate::codec::{
    codec_hrp, codec_ok, codec_payload, codec_sep, codec_variant, codec_vals, decode, encode,
    is_upper, last_sep_pos, lemma_encode_decodes, lemma_last_sep_found, lemma_last_sep_props,
    lower_seq, mixed_case, spec_encode, to_lower_byte, Bech32Variant, Decoded, SEP,
};
use crate::regroup::{
    bytes_of_u5, bytes_of_u5_ok, lemma_regroup_roundtrip, lemma_u5_of_bytes_range, to_eight_bit,
    to_five_bit, u5_len, u5_of_bytes,
};

verus! {

/// The two networks an address can name, each by its own prefix.
#[derive(Clone, Copy, PartialEq, Eq, Structural, Debug)]
pub enum Network {
    Mainnet,
    Testnet,
}

/// Why a string is no address: it does not decode, its prefix names no
/// known network, or its witness version and program break the rules.
#[derive(Clone, Copy, PartialEq, Eq, Structural, Debug)]
pub enum AddressError {
    MalformedAddress,
    UnsupportedNetwork,
    InvalidWitnessProgram,
}

/// A parsed or constructed address: a network, a witness version, and the
/// witness program bytes.
#[derive(Clone, PartialEq, Eq, Debug)]
pub struct Address {
    pub network: Network,
    pub version: u8,
    pub program: Vec<u8>,
}

/// The human-readable prefix of a network.
pub open spec fn hrp_of(n: Network) -> Seq<u8> {
    match n {
        Network::Mainnet => seq![98u8, 99u8],
        Network::Testnet => seq![116u8, 98u8],
    }
}

/// The network a lowercase prefix names, if any.
pub open spec fn network_of_hrp(h: Seq<u8>) -> Option<Network> {
    if h == seq![98u8, 99u8] {
        Some(Network::Mainnet)
    } else if h == seq![116u8, 98u8] {
        Some(Network::Testnet)
    } else {
        None
    }
}

/// The witness rules: version at most 16, program of 2 to 40 bytes,
/// version 0 with 20 or 32 bytes, version 1 with exactly 32.
pub open spec fn witness_ok(version: u8, plen: int) -> bool {
    &&& version <= 16
    &&& 2 <= plen <= 40
    &&& (version == 0 ==> plen == 20 || plen == 32)
    &&& (version == 1 ==> plen == 32)
}

/// The checksum variant a witness version must be written under.
pub open spec fn variant_for(version: u8) -> Bech32Variant {
    if version == 0 {
        Bech32Variant::Bech32
    } else {
        Bech32Variant::Bech32m
    }
}

/// What parsing a byte string yields: the address parts, or the exact
/// error, each tied to the first rule the string breaks.
pub open spec fn spec_parse(s: Seq<u8>) -> Result<(Network, u8, Seq<u8>), AddressError> {
    if !codec_ok(s) {
        Err(AddressError::MalformedAddress)
    } else {
        let payload = codec_payload(s);
        if payload.len() < 1 {
            Err(AddressError::MalformedAddress)
        } else if network_of_hrp(codec_hrp(s)) is None {
            Err(AddressError::UnsupportedNetwork)
        } else {
            let version = payload[0];
            let rest = payload.skip(1);
            if version > 16 {
                Err(AddressError::InvalidWitnessProgram)
            } else if codec_variant(s) != variant_for(version) {
                Err(AddressError::MalformedAddress)
            } else if !bytes_of_u5_ok(rest) {
                Err(AddressError::MalformedAddress)
            } else {
                let program = bytes_of_u5(rest);
                if !witness_ok(version, program.len() as int) {
                    Err(AddressError::InvalidWitnessProgram)
                } else {
                    Ok((network_of_hrp(codec_hrp(s)).unwrap(), version, program))
                }
            }
        }
    }
}

/// A string is valid for a network exactly where it parses and names that
/// network.
pub open spec fn spec_valid_for(s: Seq<u8>, n: Network) -> bool {
    &&& spec_parse(s) is Ok
    &&& spec_parse(s).unwrap().0 == n
}

/// The byte string of an address built from its parts.
pub open spec fn spec_address_bytes(n: Network, version: u8, program: Seq<u8>) -> Seq<u8> {
    spec_encode(hrp_of(n), seq![version] + u5_of_bytes(program), variant_for(version))
}

/// Parses an address string given as bytes.
pub fn parse(s: &[u8]) -> (r: Result<Address, AddressError>)
    ensures
        match r {
            Ok(a) => spec_parse(s@) == Ok::<(Network, u8, Seq<u8>), AddressError>(
                (a.network, a.version, a.program@),
            ),
            Err(e) => spec_parse(s@) == Err::<(Network, u8, Seq<u8>), AddressError>(e),
        },
{
    let d: Decoded = match decode(s) {
        Some(d) => d,
        None => {
            return Err(AddressError::MalformedAddress);
        },
    };
    if d.payload.len() < 1 {
        return Err(AddressError::MalformedAddress);
    }
    let network: Network;
    if d.hrp.len() == 2 && d.hrp[0] == 98 && d.hrp[1] == 99 {
        proof {
            assert(d.hrp@ =~= seq![98u8, 99u8]);
        }
        network = Network::Mainnet;
    } else if d.hrp.len() == 2 && d.hrp[0] == 116 && d.hrp[1] == 98 {
        proof {
            assert(d.hrp@ =~= seq![116u8, 98u8]);
        }
        network = Network::Testnet;
    } else {
        proof {
            assert(d.hrp@ != seq![98u8, 99u8] && d.hrp@ != seq![116u8, 98u8]) by {
                if d.hrp@ == seq![98u8, 99u8] {
                    assert(d.hrp@.len() == 2 && d.hrp@[0] == 98 && d.hrp@[1] == 99);
                }
                if d.hrp@ == seq![116u8, 98u8] {
                    assert(d.hrp@.len() == 2 && d.hrp@[0] == 116 && d.hrp@[1] == 98);
                }
            }
        }
        return Err(AddressError::UnsupportedNetwork);
    }
    let version: u8 = d.payload[0];
    if version > 16 {
        return Err(AddressError::InvalidWitnessProgram);
    }
    let expected: Bech32Variant = if version == 0 {
        Bech32Variant::Bech32
    } else {
        Bech32Variant::Bech32m
    };
    if !(d.variant == expected) {
        return Err(AddressError::MalformedAddress);
    }
    let mut rest: Vec<u8> = Vec::new();
    let pl: usize = d.payload.len();
    let mut i: usize = 1;
    while i < pl
        invariant
            pl == d.payload@.len(),
            1 <= i <= pl,
            rest@.len() == i - 1,
            forall|j: int| 0 <= j < i - 1 ==> rest@[j] == d.payload@[1 + j],
        decreases pl - i,
    {
        rest.push(d.payload[i]);
        i = i + 1;
    }
    proof {
        assert(rest@ =~= d.payload@.skip(1));
        assert(rest@.len() * 5 <= usize::MAX);
    }
    let program: Vec<u8> = match to_eight_bit(rest.as_slice()) {
        Some(p) => p,
        None => {
            return Err(AddressError::MalformedAddress);
        },
    };
    let plen: usize = program.len();
    if plen < 2 || plen > 40 || (version == 0 && !(plen == 20 || plen == 32)) || (version == 1
        && plen != 32) {
        return Err(AddressError::InvalidWitnessProgram);
    }
    Ok(Address { network, version, program })
}

/// Builds an address from its parts, refusing parts that break the
/// witness rules.
pub fn construct(network: Network, version: u8, program: Vec<u8>) -> (r: Result<
    Address,
    AddressError,
>)
    ensures
        witness_ok(version, program@.len() as int) ==> (r matches Ok(a) && a.network == network
            && a.version == version && a.program@ == program@),
        !witness_ok(version, program@.len() as int) ==> r == Err::<Address, AddressError>(
            AddressError::InvalidWitnessProgram,
        ),
{
    let plen: usize = program.len();
    if version > 16 || plen < 2 || plen > 40 || (version == 0 && !(plen == 20 || plen == 32)) || (
    version == 1 && plen != 32) {
        return Err(AddressError::InvalidWitnessProgram);
    }
    Ok(Address { network, version, program })
}

/// The prefix bytes of a network.
pub fn network_hrp(network: Network) -> (r: Vec<u8>)
    ensures
        r@ == hrp_of(network),
{
    let mut r: Vec<u8> = Vec::new();
    match network {
        Network::Mainnet => {
            r.push(98);
            r.push(99);
            proof {
                assert(r@ =~= hrp_of(network));
            }
        },
        Network::Testnet => {
            r.push(116);
            r.push(98);
            proof {
                assert(r@ =~= hrp_of(network));
            }
        },
    }
    r
}

/// Writes an address out as its canonical lowercase byte string.
pub fn encode_address(a: &Address) -> (r: Vec<u8>)
    requires
        witness_ok(a.version, a.program@.len() as int),
    ensures
        r@ == spec_address_bytes(a.network, a.version, a.program@),
{
    let hrp: Vec<u8> = network_hrp(a.network);
    let groups: Vec<u8> = to_five_bit(a.program.as_slice());
    let mut payload: Vec<u8> = Vec::new();
    payload.push(a.version);
    let gn: usize = groups.len();
    let mut i: usize = 0;
    while i < gn
        invariant
            gn == groups@.len(),
            0 <= i <= gn,
            payload@.len() == 1 + i,
            payload@[0] == a.version,
            forall|j: int| 0 <= j < i ==> payload@[1 + j] == groups@[j],
        decreases gn - i,
    {
        payload.push(groups[i]);
        i = i + 1;
    }
    proof {
        assert(payload@ =~= seq![a.version] + u5_of_bytes(a.program@));
        vstd::arithmetic::div_mod::lemma_div_is_ordered(
            8 * a.program@.len() as int + 4,
            324,
            5,
        );
        assert(u5_len(a.program@.len() as int) <= 64);
        lemma_u5_of_bytes_range(a.program@);
        assert(match a.network {
            Network::Mainnet => hrp@ == seq![98u8, 99u8],
            Network::Testnet => hrp@ == seq![116u8, 98u8],
        });
        assert(forall|j: int| 0 <= j < hrp@.len() ==> 33 <= #[trigger] hrp@[j] <= 126 && !is_upper(
            hrp@[j],
        ));
    }
    let variant: Bech32Variant = if a.version == 0 {
        Bech32Variant::Bech32
    } else {
        Bech32Variant::Bech32m
    };
    encode(hrp.as_slice(), payload.as_slice(), variant)
}

/// Tests whether a byte string is a valid address for a network: every
/// parse failure and every other network's address answers `false`.
pub fn is_valid_for_network(s: &[u8], network: Network) -> (r: bool)
    ensures
        r == spec_valid_for(s@, network),
{
    match parse(s) {
        Ok(a) => a.network == network,
        Err(_) => false,
    }
}

/// Round trip: an address built from any parts the witness rules allow
/// parses back, from its own string, to exactly those parts.
pub proof fn lemma_construct_parse_roundtrip(network: Network, version: u8, program: Seq<u8>)
    requires
        witness_ok(version, program.len() as int),
    ensures
        spec_parse(spec_address_bytes(network, version, program)) == Ok::<
            (Network, u8, Seq<u8>),
            AddressError,
        >((network, version, program)),
{
    let hrp = hrp_of(network);
    let payload = seq![version] + u5_of_bytes(program);
    let variant = variant_for(version);
    let e = spec_address_bytes(network, version, program);
    vstd::arithmetic::div_mod::lemma_div_is_ordered(8 * program.len() as int + 4, 324, 5);
    assert(u5_len(program.len() as int) <= 64);
    lemma_u5_of_bytes_range(program);
    assert(match network {
        Network::Mainnet => hrp == seq![98u8, 99u8],
        Network::Testnet => hrp == seq![116u8, 98u8],
    });
    assert(forall|j: int| 0 <= j < hrp.len() ==> 33 <= #[trigger] hrp[j] <= 126 && !is_upper(
        hrp[j],
    ));
    assert forall|j: int| 0 <= j < payload.len() implies payload[j] < 32 by {
        if j == 0 {
            assert(payload[j] == version);
        } else {
            assert(payload[j] == u5_of_bytes(program)[j - 1]);
        }
    }
    lemma_encode_decodes(hrp, payload, variant);
    assert(network_of_hrp(codec_hrp(e)) == Some(network));
    assert(codec_payload(e)[0] == version);
    assert(codec_payload(e).skip(1) =~= u5_of_bytes(program));
    lemma_regroup_roundtrip(program);
    assert(spec_parse(e) == Ok::<(Network, u8, Seq<u8>), AddressError>(
        (network, version, program),
    ));
}

/// Checksum sensitivity: changing any single character of a valid
/// address string strictly after the version symbol — to anything whose
/// lowercase form differs and is not the separator — makes parsing fail.
/// (A change of letter case alone is no change of symbol, and a change at
/// the version symbol itself is outside this statement.)
pub proof fn lemma_single_symbol_error_detected(s: Seq<u8>, t: Seq<u8>, k: int)
    requires
        spec_parse(s) is Ok,
        t.len() == s.len(),
        codec_sep(s) + 2 <= k < s.len(),
        forall|j: int| 0 <= j < s.len() && j != k ==> s[j] == t[j],
        to_lower_byte(t[k]) != to_lower_byte(s[k]),
        t[k] != SEP,
    ensures
        spec_parse(t) is Err,
{
    assert(codec_ok(s));
    let ls = lower_seq(s);
    let lt = lower_seq(t);
    let p = last_sep_pos(ls);
    lemma_last_sep_props(ls);
    assert forall|j: int| 0 <= j < s.len() && j != k implies ls[j] == lt[j] by {
        assert(ls[j] == to_lower_byte(s[j]));
        assert(lt[j] == to_lower_byte(t[j]));
    }
    assert(ls[k] == to_lower_byte(s[k]) && lt[k] == to_lower_byte(t[k]));
    assert(ls[k] != lt[k]);
    if mixed_case(t) {
        assert(!codec_ok(t));
    } else if !codec_ok(t) {
    } else {
        lemma_charset(0, ls[k]);
        assert(lt[k] != SEP);
        assert(lt[p] == SEP);
        assert forall|j: int| p < j < lt.len() implies lt[j] != SEP by {
            if j != k {
                assert(lt[j] == ls[j]);
                lemma_charset(0, ls[j]);
            }
        }
        lemma_last_sep_found(lt, p);
        assert(codec_sep(t) == p);
        assert(codec_hrp(t) =~= codec_hrp(s));
        let vs = codec_vals(s);
        let vt = codec_vals(t);
        let ki = k - (p + 1);
        assert(vs.len() == vt.len());
        assert forall|j: int| 0 <= j < vs.len() && j != ki implies vs[j] == vt[j] by {
            assert(ls[p + 1 + j] == lt[p + 1 + j]);
        }
        assert(vs[ki] != vt[ki]) by {
            lemma_charset(0, ls[k]);
            lemma_charset(0, lt[k]);
            assert(vs[ki] == value_of(ls[p + 1 + ki]) as u8);
            assert(vt[ki] == value_of(lt[p + 1 + ki]) as u8);
            assert(p + 1 + ki == k);
            if vs[ki] == vt[ki] {
                assert(value_of(ls[k]) == value_of(lt[k]));
                assert(ls[k] == lt[k]);
            }
        }
        let hx = hrp_expand(codec_hrp(s));
        let fs = hx + vs;
        let ft = hrp_expand(codec_hrp(t)) + vt;
        let pos = hx.len() + ki;
        assert(ft == hx + vt);
        assert(ft.len() == fs.len());
        assert forall|j: int| 0 <= j < fs.len() && j != pos implies fs[j] == ft[j] by {
            if j < hx.len() {
                assert(fs[j] == hx[j] && ft[j] == hx[j]);
            } else {
                assert(fs[j] == vs[j - hx.len()] && ft[j] == vt[j - hx.len()]);
            }
        }
        assert(fs[pos] == vs[ki] && ft[pos] == vt[ki]);
        lemma_polymod_single_change(fs, ft, pos);
        let pls = codec_payload(s);
        let plt = codec_payload(t);
        assert(pls.len() >= 1);
        assert(ki >= 1);
        assert(plt.len() == pls.len());
        assert(plt[0] == vt[0] && pls[0] == vs[0]);
        let version = pls[0];
        assert(plt[0] == version);
        assert(codec_variant(t) != variant_for(version)) by {
            assert(codec_variant(s) == variant_for(version));
            assert(checksum_verifies(codec_hrp(s), vs, BECH32_CONST) || checksum_verifies(
                codec_hrp(s),
                vs,
                BECH32M_CONST,
            ));
            assert(checksum_verifies(codec_hrp(t), vt, BECH32_CONST) || checksum_verifies(
                codec_hrp(t),
                vt,
                BECH32M_CONST,
            ));
            assert(polymod(fs) != polymod(ft));
        }
        assert(spec_parse(t) is Err);
    }
}

/// A string that does not parse is valid for no network at all.
pub proof fn lemma_parse_failure_never_valid(s: Seq<u8>, network: Network)
    requires
        spec_parse(s) is Err,
    ensures
        !spec_valid_for(s, network),
{
}

/// A string that mixes letter cases never parses, however sound its
/// characters are one by one, and so is valid for no network.
pub proof fn lemma_mixed_case_rejected(s: Seq<u8>, network: Network)
    requires
        mixed_case(s),
    ensures
        spec_parse(s) is Err,
        !spec_valid_for(s, network),
{
    assert(!codec_ok(s));
}

} // verus!
