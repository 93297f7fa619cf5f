use btcrs::address::{construct, encode_address, parse, Address, AddressError, Network};
use btcrs::codec::{encode, Bech32Variant};
use btcrs::regroup::to_five_bit;
use btcrs::{is_valid, random};

#[test]
fn test_is_valid() {
    //
    // Mainnet
    {
        let some_address = "bc1qv8zhcjzpjw4m4tdyc5zn3dmax0z6rr6l78fevg";
        assert_eq!(is_valid(some_address, Some(false)), true);
        assert_eq!(is_valid(some_address, Some(true)), false);
    }
    {
        let some_address = "bc1pzwu7ucw9ra9pdcu6h522zcaunz95csa6fl80uq4mun2g27r8zfcqkvnm6w";
        assert_eq!(is_valid(some_address, Some(false)), true);
        assert_eq!(is_valid(some_address, Some(true)), false);
    }
    {
        let some_address = "bc1pm7lptsa40t6wml9s98erc30kla66z0p25hqppjdgu2h3ghr5nnjqfw9j6s";
        assert_eq!(is_valid(some_address, Some(false)), true);
        assert_eq!(is_valid(some_address, Some(true)), false);
    }
    {
        let some_address = "bc1paf6hud8ae2e9uqxsfl6t2yf7g869vveqf9ln0scj224pd00cy2ssy8r899";
        assert_eq!(is_valid(some_address, Some(false)), true);
        assert_eq!(is_valid(some_address, Some(true)), false);
    }
    //
    // Testnet
    {
        let some_address = "tb1pcmpjvdd254j7jf94wu2pk5mxqpsqry524u9q2d9eaza7fx42el2seur6hn";
        assert_eq!(is_valid(some_address, Some(false)), false);
        assert_eq!(is_valid(some_address, Some(true)), true);
    }
    //
    // Bad
    {
        let bad_address = "bc1p55";
        assert_eq!(is_valid(bad_address, Some(false)), false);
        assert_eq!(is_valid(bad_address, Some(true)), false);
    }
}

#[test]
fn test_random() {
    let address = random(None);
    assert!(address.starts_with("bc1p"));
    assert!(is_valid(&address, None));

    let address = random(Some(true));
    assert!(address.starts_with("tb1p"));
    assert!(is_valid(&address, Some(true)));
}

#[test]
fn test_construct_parse_round_trip() {
    let mut key: Vec<u8> = Vec::new();
    for i in 0..32u32 {
        key.push((7 * i + 3) as u8);
    }
    let addr = construct(Network::Mainnet, 1, key.clone()).unwrap();
    let bytes = encode_address(&addr);
    let back: Address = parse(&bytes).unwrap();
    assert_eq!(back.network, Network::Mainnet);
    assert_eq!(back.version, 1);
    assert_eq!(back.program, key);

    let mut short_key: Vec<u8> = Vec::new();
    for i in 0..20u32 {
        short_key.push((11 * i + 1) as u8);
    }
    let v0 = construct(Network::Testnet, 0, short_key.clone()).unwrap();
    let v0_bytes = encode_address(&v0);
    let v0_back = parse(&v0_bytes).unwrap();
    assert_eq!(v0_back.network, Network::Testnet);
    assert_eq!(v0_back.version, 0);
    assert_eq!(v0_back.program, short_key);
}

#[test]
fn test_parse_reencodes_to_same_string() {
    let s = "bc1pzwu7ucw9ra9pdcu6h522zcaunz95csa6fl80uq4mun2g27r8zfcqkvnm6w";
    let addr = parse(s.as_bytes()).unwrap();
    let bytes = encode_address(&addr);
    assert_eq!(bytes, s.as_bytes().to_vec());

    let v0 = "bc1qv8zhcjzpjw4m4tdyc5zn3dmax0z6rr6l78fevg";
    let v0_addr = parse(v0.as_bytes()).unwrap();
    assert_eq!(v0_addr.version, 0);
    assert_eq!(v0_addr.program.len(), 20);
    assert_eq!(encode_address(&v0_addr), v0.as_bytes().to_vec());
}

#[test]
fn test_parse_failure_is_invalid_for_every_network() {
    for bad in ["bc1p55", "", "bc1", "xx1qqqqq", "bc1pzwu7ucw9ra9pdcu6h522zcaunz95csa6fl80uq4mun2g27r8zfcqkvnm6"] {
        assert!(parse(bad.as_bytes()).is_err());
        assert_eq!(is_valid(bad, Some(false)), false);
        assert_eq!(is_valid(bad, Some(true)), false);
    }
}

#[test]
fn test_single_character_flip_is_rejected() {
    let s = "bc1pzwu7ucw9ra9pdcu6h522zcaunz95csa6fl80uq4mun2g27r8zfcqkvnm6w";
    assert!(is_valid(s, Some(false)));
    let bytes = s.as_bytes();
    // every position after the version symbol, each other alphabet character
    let charset = "qpzry9x8gf2tvdw0s3jn54khce6mua7l".as_bytes();
    for k in 4..bytes.len() {
        for &c in charset {
            if c != bytes[k] {
                let mut flipped = bytes.to_vec();
                flipped[k] = c;
                assert!(parse(&flipped).is_err());
            }
        }
    }
}

#[test]
fn test_case_handling() {
    // mixed case is rejected even though each character is sound alone
    let mixed = "bc1Qv8zhcjzpjw4m4tdyc5zn3dmax0z6rr6l78fevg";
    assert_eq!(is_valid(mixed, Some(false)), false);
    assert_eq!(is_valid(mixed, Some(true)), false);
    // a string in uppercase throughout is accepted
    let upper = "BC1QV8ZHCJZPJW4M4TDYC5ZN3DMAX0Z6RR6L78FEVG";
    assert_eq!(is_valid(upper, Some(false)), true);
}

#[test]
fn test_error_kinds() {
    // codec-level failure
    assert_eq!(parse(b"bc1p55"), Err(AddressError::MalformedAddress));
    // decodes, but the prefix names no known network
    let mut key: Vec<u8> = Vec::new();
    for i in 0..32u32 {
        key.push(i as u8);
    }
    let mut payload: Vec<u8> = vec![1];
    payload.extend(to_five_bit(&key));
    let foreign = encode(b"xy", &payload, Bech32Variant::Bech32m);
    assert_eq!(parse(&foreign), Err(AddressError::UnsupportedNetwork));
    // decodes, but a version-1 program must hold exactly 32 bytes
    let mut short: Vec<u8> = Vec::new();
    for i in 0..20u32 {
        short.push(i as u8);
    }
    let mut short_payload: Vec<u8> = vec![1];
    short_payload.extend(to_five_bit(&short));
    let bad_program = encode(b"bc", &short_payload, Bech32Variant::Bech32m);
    assert_eq!(parse(&bad_program), Err(AddressError::InvalidWitnessProgram));
    // a version-1 payload under the old checksum constant is malformed
    let wrong_variant = encode(b"bc", &payload, Bech32Variant::Bech32);
    assert_eq!(parse(&wrong_variant), Err(AddressError::MalformedAddress));
    // construction refuses the same witness rules
    assert_eq!(
        construct(Network::Mainnet, 1, short),
        Err(AddressError::InvalidWitnessProgram)
    );
    assert_eq!(
        construct(Network::Mainnet, 17, key),
        Err(AddressError::InvalidWitnessProgram)
    );
}
