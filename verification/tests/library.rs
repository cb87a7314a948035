use cryptoconditions::internal::{
    asn_choice, asn_data, asn_sequence, asn_unknown, encode_asn, hash_asn, pack_set, sha256,
    unpack_set, AsnBlock,
};
use cryptoconditions::{Condition, ConditionType, Message, PublicKey, SecpError, SecretKey, Signature};
use rustc_hex::{FromHex, ToHex};
use std::collections::HashSet;

fn hex(s: &str) -> Vec<u8> {
    s.from_hex::<Vec<u8>>().unwrap()
}

fn set(items: &[u8]) -> HashSet<u8> {
    items.iter().cloned().collect()
}

const GENERATOR: &str = "0279be667ef9dcbbac55a06295ce870b07029bfcdb2dce28d959f2815b16f81798";

fn secret_one() -> SecretKey {
    let mut bytes = vec![0u8; 32];
    bytes[31] = 1;
    SecretKey::parse_slice(&bytes).unwrap()
}

#[test]
fn type_names_ids_and_subtypes() {
    assert_eq!(ConditionType::PreimageType.name(), "preimage-sha-256");
    assert_eq!(ConditionType::ThresholdType.name(), "threshold-sha-256");
    assert_eq!(ConditionType::Secp256k1Type.name(), "secp256k1-sha-256");
    assert_eq!(ConditionType::EvalType.name(), "eval-sha-256");
    assert_eq!(ConditionType::PreimageType.id(), 0);
    assert_eq!(ConditionType::ThresholdType.id(), 2);
    assert_eq!(ConditionType::Secp256k1Type.id(), 5);
    assert_eq!(ConditionType::EvalType.id(), 15);
    assert!(ConditionType::ThresholdType.has_subtypes());
    assert!(!ConditionType::PreimageType.has_subtypes());
    assert!(!ConditionType::Secp256k1Type.has_subtypes());
    assert!(!ConditionType::EvalType.has_subtypes());
}

#[test]
fn empty_preimage_condition_and_fulfillment() {
    let cond = Condition::Preimage { preimage: vec![] };
    assert_eq!(cond.cost(), 0);
    assert_eq!(
        cond.encode_condition().to_hex::<String>(),
        "a0258020e3b0c44298fc1c149afbf4c8996fb92427ae41e4649b934ca495991b7852b855810100"
    );
    assert_eq!(cond.encode_fulfillment().unwrap().to_hex::<String>(), "a0028000");
}

#[test]
fn preimage_fingerprint_is_sha256() {
    let cond = Condition::Preimage { preimage: b"abc".to_vec() };
    assert_eq!(
        cond.fingerprint().to_hex::<String>(),
        "ba7816bf8f01cfea414140de5dae2223b00361a396177a9cb410ff61f20015ad"
    );
    assert_eq!(cond.cost(), 3);
    assert_eq!(
        cond.encode_condition().to_hex::<String>(),
        "a0258020ba7816bf8f01cfea414140de5dae2223b00361a396177a9cb410ff61f20015ad810103"
    );
    assert_eq!(cond.get_type(), ConditionType::PreimageType);
}

#[test]
fn eval_condition_and_fulfillment() {
    let cond = Condition::Eval { code: vec![228] };
    assert_eq!(cond.cost(), 1048576);
    assert_eq!(cond.encode_fulfillment().unwrap().to_hex::<String>(), "af038001e4");
    assert_eq!(
        cond.encode_condition().to_hex::<String>(),
        "af2780205e1effe9b7bab73dce628ccd9f0cbbb16c1e6efc6c4f311e59992a467bc119fd8103100000"
    );
}

#[test]
fn threshold_cost_takes_most_expensive() {
    let pk = PublicKey::parse_slice(&hex(GENERATOR)).unwrap();
    let subs = vec![
        Condition::Preimage { preimage: vec![1; 10] },
        Condition::Eval { code: vec![1] },
        Condition::Secp256k1 { pubkey: pk, signature: None },
    ];
    let two = Condition::Threshold { threshold: 2, subconditions: subs };
    assert_eq!(two.cost(), 1048576 + 131072 + 3 * 1024);
    let none = Condition::Threshold {
        threshold: 0,
        subconditions: vec![Condition::Preimage { preimage: vec![1; 10] }],
    };
    assert_eq!(none.cost(), 1024);
    let more = Condition::Threshold {
        threshold: 5,
        subconditions: vec![Condition::Preimage { preimage: vec![1; 10] }],
    };
    assert_eq!(more.cost(), 10 + 1024);
}

#[test]
fn threshold_fulfillment_orders_and_fails() {
    let one = Condition::Threshold {
        threshold: 1,
        subconditions: vec![Condition::Preimage { preimage: b"abc".to_vec() }],
    };
    assert_eq!(
        one.encode_fulfillment().unwrap().to_hex::<String>(),
        "a20ba007a0058003616263a100"
    );
    let mixed = Condition::Threshold {
        threshold: 1,
        subconditions: vec![
            Condition::Eval { code: vec![228] },
            Condition::Preimage { preimage: b"abc".to_vec() },
        ],
    };
    assert_eq!(
        mixed.encode_fulfillment().unwrap().to_hex::<String>(),
        "a234a007a0058003616263a129af2780205e1effe9b7bab73dce628ccd9f0cbbb16c1e6efc6c4f311e59992a467bc119fd8103100000"
    );
    let anon = Condition::Preimage { preimage: b"abc".to_vec() }.to_anon();
    let unmet = Condition::Threshold {
        threshold: 2,
        subconditions: vec![Condition::Preimage { preimage: b"abc".to_vec() }, anon],
    };
    assert_eq!(unmet.encode_fulfillment(), Err("Threshold is unfulfilled".to_string()));
}

#[test]
fn anonymous_and_unsigned_have_no_fulfillment() {
    let anon = Condition::Eval { code: vec![1, 2] }.to_anon();
    assert_eq!(anon.encode_fulfillment(), Err("Cannot encode fulfillment".to_string()));
    let pk = PublicKey::parse_slice(&hex(GENERATOR)).unwrap();
    let unsigned = Condition::Secp256k1 { pubkey: pk, signature: None };
    assert_eq!(unsigned.encode_fulfillment(), Err("Cannot encode fulfillment".to_string()));
}

#[test]
fn to_anon_keeps_type_fingerprint_cost_and_subtypes() {
    let pk = PublicKey::parse_slice(&hex(GENERATOR)).unwrap();
    let cond = Condition::Threshold {
        threshold: 1,
        subconditions: vec![
            Condition::Eval { code: vec![7] },
            Condition::Secp256k1 { pubkey: pk, signature: None },
            Condition::Threshold { threshold: 1, subconditions: vec![Condition::Preimage { preimage: vec![] }] },
        ],
    };
    let anon = cond.to_anon();
    match &anon {
        Condition::Anon { cond_type, fingerprint, cost, subtypes } => {
            assert_eq!(*cond_type, ConditionType::ThresholdType);
            assert_eq!(*fingerprint, cond.fingerprint());
            assert_eq!(*cost, cond.cost());
            assert_eq!(*subtypes, set(&[0, 5, 15]));
        }
        _ => panic!("not anonymous"),
    }
    assert_eq!(anon.encode_condition(), cond.encode_condition());
    assert_eq!(anon.fingerprint(), cond.fingerprint());
    assert_eq!(cond.encode_condition()[0], 0xa2);
}

#[test]
fn threshold_fingerprint_ignores_subcondition_order() {
    let a = Condition::Threshold {
        threshold: 1,
        subconditions: vec![Condition::Eval { code: vec![7] }, Condition::Preimage { preimage: vec![1, 2, 3] }],
    };
    let b = Condition::Threshold {
        threshold: 1,
        subconditions: vec![Condition::Preimage { preimage: vec![1, 2, 3] }, Condition::Eval { code: vec![7] }],
    };
    assert_eq!(a.fingerprint(), b.fingerprint());
    assert_eq!(a.cost(), b.cost());
    assert_eq!(a.encode_condition(), b.encode_condition());
}

#[test]
fn pack_and_unpack_sets() {
    assert_eq!(pack_set(set(&[])).to_hex::<String>(), "0700");
    assert_eq!(pack_set(set(&[5, 15])).to_hex::<String>(), "000401");
    assert_eq!(pack_set(set(&[31])).to_hex::<String>(), "0000000001");
    assert_eq!(unpack_set(hex("0470")), set(&[1, 2, 3]));
    assert_eq!(unpack_set(vec![]), set(&[]));
    assert_eq!(unpack_set(vec![7]), set(&[]));
    for s in [set(&[]), set(&[0]), set(&[1, 2, 3]), set(&[0, 5, 15, 31]), set(&[7, 8, 9, 30])] {
        assert_eq!(unpack_set(pack_set(s.clone())), s);
    }
    for b in ["0470", "05a0", "000401", "0000000001", "0780", "03c0f8"] {
        assert_eq!(pack_set(unpack_set(hex(b))).to_hex::<String>(), b);
    }
    let mut wide = vec![0u8; 34];
    wide[33] = 0x80;
    assert_eq!(unpack_set(wide), set(&[0]));
}

#[test]
fn der_blocks() {
    assert_eq!(encode_asn(&asn_unknown(false, 0, vec![])).to_hex::<String>(), "8000");
    assert_eq!(encode_asn(&asn_unknown(true, 3, vec![1])).to_hex::<String>(), "a30101");
    assert_eq!(encode_asn(&asn_unknown(false, 31, vec![])).to_hex::<String>(), "9f1f00");
    assert_eq!(encode_asn(&asn_unknown(false, 200, vec![])).to_hex::<String>(), "9f814800");
    let long = encode_asn(&asn_unknown(false, 1, vec![9; 200]));
    assert_eq!(long[..3].to_hex::<String>(), "8181c8");
    assert_eq!(long.len(), 203);
    let data = asn_data(&vec![vec![1], vec![2, 3]]);
    assert_eq!(encode_asn(&asn_choice(4, &data)).to_hex::<String>(), "a407800101810202 03".replace(' ', ""));
    let seq = asn_sequence(asn_data(&vec![vec![5]]));
    assert_eq!(encode_asn(&seq).to_hex::<String>(), "3003800105");
    assert_eq!(hash_asn(&seq), sha256(hex("3003800105")));
    match seq {
        AsnBlock::Sequence { items } => assert_eq!(items.len(), 1),
        _ => panic!("not a sequence"),
    }
}

#[test]
fn sha256_digest() {
    assert_eq!(
        sha256(b"abc".to_vec()).to_hex::<String>(),
        "ba7816bf8f01cfea414140de5dae2223b00361a396177a9cb410ff61f20015ad"
    );
}

#[test]
fn keys_parse_and_derive() {
    assert_eq!(secret_one().public_key().serialize_compressed().to_hex::<String>(), GENERATOR);
    let full = hex("0479be667ef9dcbbac55a06295ce870b07029bfcdb2dce28d959f2815b16f81798483ada7726a3c4655da4fbfc0e1108a8fd17b448a68554199c47d08ffb10d4b8");
    let pk = PublicKey::parse_slice(&full).unwrap();
    assert_eq!(pk.serialize_compressed().to_hex::<String>(), GENERATOR);
    assert_eq!(PublicKey::parse_slice(&[2u8; 10]), Err(SecpError::InvalidInputLength));
    let mut bad = hex(GENERATOR);
    bad[0] = 0x05;
    assert_eq!(PublicKey::parse_slice(&bad), Err(SecpError::InvalidPublicKey));
    assert_eq!(SecretKey::parse_slice(&[0u8; 32]), Err(SecpError::InvalidSecretKey));
    assert_eq!(SecretKey::parse_slice(&[0xffu8; 32]), Err(SecpError::InvalidSecretKey));
    assert_eq!(SecretKey::parse_slice(&[1u8; 31]), Err(SecpError::InvalidInputLength));
    assert_eq!(Message::parse_slice(&[1u8; 31]), Err(SecpError::InvalidInputLength));
    assert!(Message::parse_slice(&[1u8; 32]).is_ok());
}

#[test]
fn signatures_parse_reduced() {
    assert_eq!(Signature::parse_slice(&[1u8; 63]), Err(SecpError::InvalidInputLength));
    let sig = Signature::parse_slice(&[0xffu8; 64]).unwrap();
    let half = "000000000000000000000000000000014551231950b75fc4402da1732fc9bebe";
    assert_eq!(sig.serialize().to_hex::<String>(), format!("{}{}", half, half));
    let plain = Signature::parse_slice(&[3u8; 64]).unwrap();
    assert_eq!(plain.serialize(), vec![3u8; 64]);
}

#[test]
fn signing_fulfills_matching_keys_only() {
    let secret = secret_one();
    let message = Message::parse_slice(&[7u8; 32]).unwrap();
    let mine = PublicKey::parse_slice(&hex(GENERATOR)).unwrap();
    let other = PublicKey::parse_slice(
        &hex("03682b255c40d0cde8faee381a1a50bbb89980ff24539cb8518e294d3a63cefe12"),
    )
    .unwrap();
    let mut cond = Condition::Threshold {
        threshold: 1,
        subconditions: vec![
            Condition::Secp256k1 { pubkey: other, signature: None },
            Condition::Threshold {
                threshold: 1,
                subconditions: vec![Condition::Secp256k1 { pubkey: mine, signature: None }],
            },
        ],
    };
    let before = cond.encode_condition();
    assert!(cond.encode_fulfillment().is_err());
    assert_eq!(cond.sign_secp256k1(&secret, &message), Ok(()));
    assert_eq!(cond.encode_condition(), before);
    assert!(cond.encode_fulfillment().is_ok());
    match &cond {
        Condition::Threshold { subconditions, .. } => {
            match &subconditions[0] {
                Condition::Secp256k1 { signature, .. } => assert!(signature.is_none()),
                _ => panic!("changed variant"),
            }
            match &subconditions[1] {
                Condition::Threshold { subconditions: inner, .. } => match &inner[0] {
                    Condition::Secp256k1 { signature: Some(sig), .. } => {
                        let bytes = sig.serialize();
                        assert_eq!(bytes.len(), 64);
                        let expected = message.sign(&secret);
                        assert_eq!(bytes, expected.serialize());
                        let sig = secp256k1::Signature::parse_slice(&bytes).unwrap();
                        let msg = secp256k1::Message::parse_slice(&[7u8; 32]).unwrap();
                        let pk = secp256k1::PublicKey::parse_slice(&hex(GENERATOR), None).unwrap();
                        assert!(secp256k1::verify(&msg, &sig, &pk));
                    }
                    _ => panic!("not signed"),
                },
                _ => panic!("changed variant"),
            }
        }
        _ => panic!("changed variant"),
    }
}

#[test]
fn threshold_fulfilled_when_enough_subconditions_are() {
    let subs = || {
        vec![
            Condition::Preimage { preimage: b"abc".to_vec() },
            Condition::Eval { code: vec![1] }.to_anon(),
            Condition::Eval { code: vec![2] },
        ]
    };
    let two = Condition::Threshold { threshold: 2, subconditions: subs() };
    assert!(two.encode_fulfillment().is_ok());
    let three = Condition::Threshold { threshold: 3, subconditions: subs() };
    assert_eq!(three.encode_fulfillment(), Err("Threshold is unfulfilled".to_string()));
    let four = Condition::Threshold { threshold: 4, subconditions: subs() };
    assert!(four.encode_fulfillment().is_err());
}

#[test]
fn single_subcondition_needs_no_cost() {
    let inner = Condition::Threshold {
        threshold: 1,
        subconditions: vec![
            Condition::Eval { code: vec![] },
            Condition::Anon {
                cond_type: ConditionType::EvalType,
                fingerprint: vec![],
                cost: u64::MAX,
                subtypes: set(&[]),
            },
        ],
    };
    assert_eq!(inner.checked_cost(), None);
    let outer = Condition::Threshold { threshold: 1, subconditions: vec![inner] };
    assert!(outer.is_fulfillment_ready());
    assert!(outer.encode_fulfillment().is_ok());
}

#[test]
fn fulfillment_readiness() {
    let zero = Condition::Threshold { threshold: 0, subconditions: vec![] };
    assert!(!zero.is_fulfillment_ready());
    let heavy = Condition::Threshold {
        threshold: 1,
        subconditions: vec![
            Condition::Eval { code: vec![] },
            Condition::Anon {
                cond_type: ConditionType::EvalType,
                fingerprint: vec![],
                cost: u64::MAX,
                subtypes: set(&[]),
            },
        ],
    };
    let pair = Condition::Threshold {
        threshold: 1,
        subconditions: vec![heavy, Condition::Eval { code: vec![1] }],
    };
    assert!(!pair.is_fulfillment_ready());
    let wide_anon = Condition::Anon {
        cond_type: ConditionType::ThresholdType,
        fingerprint: vec![0; 32],
        cost: 5,
        subtypes: set(&[40]),
    };
    assert!(!wide_anon.is_encodable());
    let lone = Condition::Threshold { threshold: 1, subconditions: vec![wide_anon] };
    assert!(lone.is_fulfillment_ready());
    assert_eq!(lone.encode_fulfillment(), Err("Threshold is unfulfilled".to_string()));
    assert!(Condition::Eval { code: vec![1] }.is_fulfillment_ready());
}

#[test]
fn clones_are_equal() {
    let pk = PublicKey::parse_slice(&hex(GENERATOR)).unwrap();
    let cond = Condition::Threshold {
        threshold: 2,
        subconditions: vec![
            Condition::Preimage { preimage: b"abc".to_vec() },
            Condition::Secp256k1 { pubkey: pk, signature: None },
            Condition::Eval { code: vec![1, 2] }.to_anon(),
        ],
    };
    let copy = cond.clone();
    assert_eq!(copy, cond);
    assert_eq!(copy.fingerprint(), cond.fingerprint());
}

#[test]
fn fingerprints_are_32_bytes() {
    assert_eq!(Condition::Eval { code: vec![] }.fingerprint().len(), 32);
    let t = Condition::Threshold { threshold: 1, subconditions: vec![Condition::Eval { code: vec![] }] };
    assert_eq!(t.fingerprint().len(), 32);
}
