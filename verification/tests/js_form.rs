use cryptoconditions::js_form::{describe, is_describable, Description, ReadError};
use cryptoconditions::{Condition, ConditionType, Message, PublicKey, SecpError, SecretKey};
use rustc_hex::FromHex;
use std::collections::HashSet;

const GENERATOR: &str = "0279be667ef9dcbbac55a06295ce870b07029bfcdb2dce28d959f2815b16f81798";

fn anon_threshold(subtypes: &[u8]) -> Condition {
    Condition::Anon {
        cond_type: ConditionType::ThresholdType,
        fingerprint: (1..33).collect(),
        cost: 4096,
        subtypes: subtypes.iter().cloned().collect::<HashSet<u8>>(),
    }
}

#[test]
fn type_from_name() {
    assert_eq!(ConditionType::from_name(&"threshold-sha-256".to_string()), Some(ConditionType::ThresholdType));
    assert_eq!(ConditionType::from_name(&"eval-sha-256".to_string()), Some(ConditionType::EvalType));
    assert_eq!(ConditionType::from_name(&"secp256k1-sha-256".to_string()), Some(ConditionType::Secp256k1Type));
    assert_eq!(ConditionType::from_name(&"preimage-sha-256".to_string()), None);
    assert_eq!(ConditionType::from_name(&"unknown".to_string()), None);
    for t in [ConditionType::ThresholdType, ConditionType::EvalType, ConditionType::Secp256k1Type] {
        assert_eq!(ConditionType::from_name(&t.name()), Some(t));
    }
}

#[test]
fn eval_from_base64_decodes() {
    let cond = Condition::eval_from_base64(&"5A==".to_string()).unwrap();
    assert_eq!(cond, Condition::Eval { code: vec![228] });
    assert_eq!(Condition::eval_from_base64(&"!!".to_string()), Err(ReadError::InvalidBase64));
}

#[test]
fn secp256k1_from_hex_reads_keys_and_signatures() {
    let cond = Condition::secp256k1_from_hex(&GENERATOR.to_string(), None).unwrap();
    match &cond {
        Condition::Secp256k1 { pubkey, signature } => {
            assert_eq!(pubkey.serialize_compressed(), GENERATOR.from_hex::<Vec<u8>>().unwrap());
            assert!(signature.is_none());
        }
        _ => panic!("wrong variant"),
    }
    let sig = "11".repeat(64);
    match Condition::secp256k1_from_hex(&GENERATOR.to_uppercase(), Some(&sig)).unwrap() {
        Condition::Secp256k1 { signature: Some(s), .. } => assert_eq!(s.serialize(), vec![0x11; 64]),
        _ => panic!("no signature"),
    }
    assert_eq!(Condition::secp256k1_from_hex(&"zz".to_string(), None), Err(ReadError::InvalidHex));
    assert_eq!(Condition::secp256k1_from_hex(&"123".to_string(), None), Err(ReadError::InvalidHex));
    assert_eq!(
        Condition::secp256k1_from_hex(&format!("05{}", "02".repeat(32)), None),
        Err(ReadError::InvalidKey(SecpError::InvalidPublicKey))
    );
    assert_eq!(
        Condition::secp256k1_from_hex(&GENERATOR.to_string(), Some(&"11".repeat(10))),
        Err(ReadError::InvalidKey(SecpError::InvalidInputLength))
    );
    assert_eq!(
        Condition::secp256k1_from_hex(&GENERATOR.to_string(), Some(&"1g".to_string())),
        Err(ReadError::InvalidHex)
    );
}

#[test]
fn describe_conditions() {
    let eval = describe(&Condition::Eval { code: vec![228] }).unwrap();
    assert_eq!(eval.kind, "eval-sha-256");
    assert_eq!(eval.code, Some("5A==".to_string()));
    assert_eq!(eval.public_key, None);

    let pk = PublicKey::parse_slice(&GENERATOR.from_hex::<Vec<u8>>().unwrap()).unwrap();
    let secp = describe(&Condition::Secp256k1 { pubkey: pk, signature: None }).unwrap();
    assert_eq!(secp.kind, "secp256k1-sha-256");
    assert_eq!(secp.public_key, Some(GENERATOR.to_string()));
    assert_eq!(secp.signature, None);

    let pre = describe(&Condition::Preimage { preimage: vec![1] }).unwrap();
    assert_eq!(pre.kind, "preimage-sha-256");
    assert_eq!(pre.code, None);

    let thr = describe(&Condition::Threshold {
        threshold: 12,
        subconditions: vec![Condition::Eval { code: vec![228] }],
    })
    .unwrap();
    assert_eq!(thr.kind, "threshold-sha-256");
    assert_eq!(thr.threshold, Some("12".to_string()));
    let subs = thr.subfulfillments.unwrap();
    assert_eq!(subs.len(), 1);
    assert_eq!(subs[0].code, Some("5A==".to_string()));

    let anon = describe(&anon_threshold(&[5, 15])).unwrap();
    assert_eq!(anon.kind, "(anon)");
    assert_eq!(anon.fingerprint, Some("AQIDBAUGBwgJCgsMDQ4PEBESExQVFhcYGRobHB0eHyA=".to_string()));
    assert_eq!(anon.cost, Some("4096".to_string()));
    assert_eq!(anon.subtypes, Some("262400".to_string()));

    let other = describe(&Condition::Anon {
        cond_type: ConditionType::EvalType,
        fingerprint: vec![],
        cost: 0,
        subtypes: HashSet::new(),
    })
    .unwrap();
    assert_eq!(other.subtypes, None);
    assert_eq!(other.cost, Some("0".to_string()));
}

#[test]
fn describe_rejects_wide_subtypes() {
    let wide = Condition::Threshold { threshold: 1, subconditions: vec![anon_threshold(&[31])] };
    assert!(is_describable(&wide));
    assert_eq!(describe(&wide), Err("Internal error: expected subtypes as Vec of 4".to_string()));
    assert!(!is_describable(&anon_threshold(&[32])));
}

#[test]
fn encodability_checks() {
    let cheap = Condition::Threshold { threshold: 1, subconditions: vec![Condition::Eval { code: vec![] }] };
    assert_eq!(cheap.checked_cost(), Some(1048576 + 1024));
    assert!(cheap.is_encodable());
    assert!(cheap.has_positive_thresholds());
    let huge = Condition::Threshold {
        threshold: 1,
        subconditions: vec![Condition::Anon {
            cond_type: ConditionType::EvalType,
            fingerprint: vec![],
            cost: u64::MAX,
            subtypes: HashSet::new(),
        }],
    };
    assert_eq!(huge.checked_cost(), None);
    assert!(!huge.is_encodable());
    assert!(!anon_threshold(&[40]).is_encodable());
    assert!(anon_threshold(&[5]).is_encodable());
    let zero = Condition::Threshold { threshold: 1, subconditions: vec![Condition::Threshold { threshold: 0, subconditions: vec![] }] };
    assert!(!zero.has_positive_thresholds());
}

fn bare(kind: &str) -> Description {
    Description {
        kind: kind.to_string(),
        public_key: None,
        signature: None,
        code: None,
        threshold: None,
        subfulfillments: None,
        fingerprint: None,
        cost: None,
        subtypes: None,
    }
}

#[test]
fn read_back_what_was_described() {
    let secret = {
        let mut bytes = vec![0u8; 32];
        bytes[31] = 7;
        SecretKey::parse_slice(&bytes).unwrap()
    };
    let msg = Message::parse_slice(&[9u8; 32]).unwrap();
    let pk = PublicKey::parse_slice(&GENERATOR.from_hex::<Vec<u8>>().unwrap()).unwrap();
    let cond = Condition::Threshold {
        threshold: 300,
        subconditions: vec![
            Condition::Eval { code: vec![228, 1, 2] },
            Condition::Secp256k1 { pubkey: pk, signature: None },
            Condition::Secp256k1 { pubkey: secret.public_key(), signature: Some(msg.sign(&secret)) },
            Condition::Threshold { threshold: 0, subconditions: vec![] },
        ],
    };
    let d = describe(&cond).unwrap();
    assert_eq!(Condition::from_description(&d), Ok(cond));
}

#[test]
fn read_errors() {
    assert_eq!(Condition::from_description(&bare("preimage-sha-256")), Err(ReadError::UnknownType));
    assert_eq!(Condition::from_description(&bare("(anon)")), Err(ReadError::UnknownType));
    assert_eq!(Condition::from_description(&bare("threshold-sha-256")), Err(ReadError::MissingThreshold));
    let mut t = bare("threshold-sha-256");
    t.threshold = Some("x".to_string());
    assert_eq!(Condition::from_description(&t), Err(ReadError::MissingSubfulfillments));
    t.subfulfillments = Some(vec![]);
    assert_eq!(Condition::from_description(&t), Err(ReadError::InvalidNumber));
    t.subfulfillments = Some(vec![bare("eval-sha-256"), bare("secp256k1-sha-256")]);
    assert_eq!(Condition::from_description(&t), Err(ReadError::MissingCode));
    t.subfulfillments = Some(vec![bare("secp256k1-sha-256"), bare("eval-sha-256")]);
    assert_eq!(Condition::from_description(&t), Err(ReadError::MissingPublicKey));
    let mut e = bare("eval-sha-256");
    e.code = Some("!!".to_string());
    assert_eq!(Condition::from_description(&e), Err(ReadError::InvalidBase64));
    let mut k = bare("secp256k1-sha-256");
    k.public_key = Some("zz".to_string());
    assert_eq!(Condition::from_description(&k), Err(ReadError::InvalidHex));
    t.threshold = Some("+7".to_string());
    t.subfulfillments = Some(vec![]);
    assert_eq!(
        Condition::from_description(&t),
        Ok(Condition::Threshold { threshold: 7, subconditions: vec![] })
    );
    t.threshold = Some("65536".to_string());
    assert_eq!(Condition::from_description(&t), Err(ReadError::InvalidNumber));
}
