use cryptoconditions::internal::{self, encode_asn, AsnBlock};
use cryptoconditions::{Condition, PublicKey};
use num_bigint::BigInt;
use num_traits::cast::FromPrimitive;
use rustc_hex::{FromHex, ToHex};
use std::collections::HashSet;

#[test]
fn test_pack_cost() {
    let cost = BigInt::from_u32(1010101010).unwrap();
    let asn = AsnBlock::Unknown {
        constructed: false,
        tag: 0,
        content: cost.to_signed_bytes_be(),
    };
    let encoded = encode_asn(&asn);
    assert_eq!(encoded.to_hex::<String>(), "80043c34eb12");
}

#[test]
fn test_pack_bit_array() {
    assert_eq!(
        internal::pack_set(vec![1, 2, 3].into_iter().collect::<HashSet<u8>>()).to_hex::<String>(),
        "0470"
    );
    assert_eq!(
        internal::pack_set(vec![1, 2, 3, 4, 5, 6, 7, 8, 9].into_iter().collect::<HashSet<u8>>())
            .to_hex::<String>(),
        "067fc0"
    );
    assert_eq!(
        internal::pack_set(vec![15].into_iter().collect::<HashSet<u8>>()).to_hex::<String>(),
        "000001"
    );
}

#[test]
fn test_encode_complex() {
    let pk = "03682b255c40d0cde8faee381a1a50bbb89980ff24539cb8518e294d3a63cefe12"
        .from_hex::<Vec<u8>>()
        .unwrap();
    let cond = Condition::Threshold {
        threshold: 2,
        subconditions: vec![
            Condition::Threshold {
                threshold: 1,
                subconditions: vec![Condition::Secp256k1 {
                    pubkey: PublicKey::parse_slice(&pk).unwrap(),
                    signature: None,
                }],
            },
            Condition::Eval { code: vec![228] },
        ],
    };

    assert_eq!(cond.encode_condition(), cond.to_anon().encode_condition());
}
