//! Conditions in the form the JavaScript bindings exchange them: a type
//! name and textual fields (hex keys and signatures, base64 code and
//! fingerprints, decimal numbers).

use vstd::prelude::*;
use std::collections::HashSet;
use crate::condition::{Condition, ConditionType, same_condition, union_into};
use crate::internal::{pack_set, packed_set};
use crate::secp::{
    PublicKey, Signature, SecpError, be_value, curve_order, key_valid, lemma_signature_reparse,
    parsed_public_key, signature_valid,
};

verus! {

/// The decimal digits of `n`.
pub open spec fn decimal(n: nat) -> Seq<char>
    decreases n,
{
    if n < 10 {
        seq![(48 + n) as char]
    } else {
        decimal(n / 10).push((48 + n % 10) as char)
    }
}

/// The lowercase hex digit of a value below 16.
pub open spec fn hex_char(v: int) -> char {
    if v < 10 {
        (48 + v) as char
    } else {
        (87 + v) as char
    }
}

/// Lowercase hex, two digits per byte.
pub open spec fn hex_encoded(bytes: Seq<u8>) -> Seq<char>
    decreases bytes.len(),
{
    if bytes.len() == 0 {
        Seq::empty()
    } else {
        hex_encoded(bytes.drop_last()) + seq![hex_char(bytes.last() as int / 16), hex_char(bytes.last() as int % 16)]
    }
}

/// The value of a hex digit of either case, or -1.
pub open spec fn hex_value(c: char) -> int {
    if '0' <= c <= '9' {
        c as int - 48
    } else if 'a' <= c <= 'f' {
        c as int - 87
    } else if 'A' <= c <= 'F' {
        c as int - 55
    } else {
        -1
    }
}

/// The bytes a hex string of either case stands for: two digits per byte.
pub open spec fn hex_decoded(text: Seq<char>) -> Option<Seq<u8>> {
    if text.len() % 2 == 0 && forall|i: int| 0 <= i < text.len() ==> #[trigger] hex_value(text[i]) >= 0 {
        Some(Seq::new(text.len() / 2, |i: int| (hex_value(text[2 * i]) * 16 + hex_value(text[2 * i + 1])) as u8))
    } else {
        None
    }
}

proof fn lemma_hex_digit(v: int)
    requires
        0 <= v < 16,
    ensures
        hex_value(hex_char(v)) == v,
{
    if v < 10 {
        assert((48 + v) as char as int == 48 + v);
    } else {
        assert((87 + v) as char as int == 87 + v);
    }
}

proof fn lemma_hex_encoded_digits(b: Seq<u8>)
    ensures
        hex_encoded(b).len() == 2 * b.len(),
        forall|i: int|
            0 <= i < b.len() ==> hex_encoded(b)[2 * i] == hex_char(#[trigger] b[i] as int / 16)
                && hex_encoded(b)[2 * i + 1] == hex_char(b[i] as int % 16),
    decreases b.len(),
{
    if b.len() > 0 {
        let p = b.drop_last();
        lemma_hex_encoded_digits(p);
        assert forall|i: int| 0 <= i < b.len() implies hex_encoded(b)[2 * i] == hex_char(
            #[trigger] b[i] as int / 16,
        ) && hex_encoded(b)[2 * i + 1] == hex_char(b[i] as int % 16) by {
            if i < b.len() - 1 {
                assert(b[i] == p[i]);
            }
        }
    }
}

/// Hex decoding gives back the bytes that were encoded.
pub proof fn lemma_hex_round_trip(b: Seq<u8>)
    ensures
        hex_decoded(hex_encoded(b)) == Some(b),
{
    let t = hex_encoded(b);
    lemma_hex_encoded_digits(b);
    assert forall|i: int| 0 <= i < t.len() implies #[trigger] hex_value(t[i]) >= 0 by {
        let j = i / 2;
        assert(b[j] == b[j]);
        lemma_hex_digit(b[j] as int / 16);
        lemma_hex_digit(b[j] as int % 16);
        if i % 2 == 0 {
            assert(i == 2 * j);
        } else {
            assert(i == 2 * j + 1);
        }
    }
    let d = hex_decoded(t)->0;
    assert forall|j: int| 0 <= j < b.len() implies d[j] == b[j] by {
        assert(b[j] == b[j]);
        lemma_hex_digit(b[j] as int / 16);
        lemma_hex_digit(b[j] as int % 16);
    }
    assert(d =~= b);
}

/// The character of a six-bit value in the standard base64 alphabet.
pub open spec fn base64_char(v: int) -> char {
    if v < 26 {
        (65 + v) as char
    } else if v < 52 {
        (71 + v) as char
    } else if v < 62 {
        (v - 4) as char
    } else if v == 62 {
        '+'
    } else {
        '/'
    }
}

/// Standard base64 with `=` padding.
pub open spec fn base64_encoded(b: Seq<u8>) -> Seq<char>
    decreases b.len(),
{
    if b.len() == 0 {
        Seq::empty()
    } else if b.len() == 1 {
        seq![base64_char((b[0] as int) / 4), base64_char(((b[0] as int) % 4) * 16), '=', '=']
    } else if b.len() == 2 {
        seq![
            base64_char((b[0] as int) / 4),
            base64_char(((b[0] as int) % 4) * 16 + (b[1] as int) / 16),
            base64_char(((b[1] as int) % 16) * 4),
            '=',
        ]
    } else {
        seq![
            base64_char((b[0] as int) / 4),
            base64_char(((b[0] as int) % 4) * 16 + (b[1] as int) / 16),
            base64_char(((b[1] as int) % 16) * 4 + (b[2] as int) / 64),
            base64_char((b[2] as int) % 64),
        ] + base64_encoded(b.skip(3))
    }
}

/// The bytes the `base64` crate decodes from a text, where it accepts it.
pub uninterp spec fn base64_decoded(text: Seq<char>) -> Option<Seq<u8>>;

/// `base64::decode` with the standard configuration. What it accepts is
/// named; the padded encoding of some bytes decodes back to those bytes.
#[verifier::external_body]
fn decode_base64(text: &String) -> (r: Option<Vec<u8>>)
    ensures
        r is Some <==> base64_decoded(text@) is Some,
        r matches Some(v) ==> v@ == base64_decoded(text@)->0,
        r is None ==> forall|b: Seq<u8>| #[trigger] base64_encoded(b) != text@,
        r matches Some(v) ==> forall|b: Seq<u8>| #[trigger] base64_encoded(b) == text@ ==> v@ == b,
{
    base64::decode(text).ok()
}

/// `base64::encode` with the standard configuration: the alphabet
/// `A-Z a-z 0-9 + /`, three bytes to four characters, `=` padding.
#[verifier::external_body]
fn encode_base64(bytes: &Vec<u8>) -> (r: String)
    ensures
        r@ == base64_encoded(bytes@),
{
    base64::encode(bytes)
}

/// `hex::decode`: an even number of hex digits of either case, or an error.
#[verifier::external_body]
fn decode_hex(text: &String) -> (r: Option<Vec<u8>>)
    ensures
        r is Some <==> hex_decoded(text@) is Some,
        r matches Some(v) ==> v@ == hex_decoded(text@)->0,
{
    hex::decode(text).ok()
}

/// `hex::encode`: two lowercase hex digits per byte.
#[verifier::external_body]
fn encode_hex(bytes: &Vec<u8>) -> (r: String)
    ensures
        r@ == hex_encoded(bytes@),
{
    hex::encode(bytes)
}

/// Whether a character is a decimal digit.
pub open spec fn is_digit(c: char) -> bool {
    '0' <= c <= '9'
}

/// The value of a string of decimal digits.
pub open spec fn digits_value(t: Seq<char>) -> nat
    decreases t.len(),
{
    if t.len() == 0 {
        0
    } else {
        digits_value(t.drop_last()) * 10 + (t.last() as nat - 48) as nat
    }
}

/// A text without its leading `+`, if it has one.
pub open spec fn unsigned_digits(t: Seq<char>) -> Seq<char> {
    if t.len() > 0 && t[0] == '+' {
        t.drop_first()
    } else {
        t
    }
}

/// What `str::parse::<u16>` accepts: an optional `+`, then one or more
/// decimal digits whose value fits in a `u16`.
pub open spec fn u16_parsed(t: Seq<char>) -> Option<u16> {
    let d = unsigned_digits(t);
    if d.len() > 0 && (forall|i: int| 0 <= i < d.len() ==> is_digit(#[trigger] d[i])) && digits_value(d)
        <= u16::MAX {
        Some(digits_value(d) as u16)
    } else {
        None
    }
}

/// `str::parse::<u16>`: as its documentation gives it, an optional `+` and
/// decimal digits whose value fits, and nothing else, no whitespace either.
#[verifier::external_body]
fn parse_u16(text: &String) -> (r: Option<u16>)
    ensures
        r == u16_parsed(text@),
{
    text.parse::<u16>().ok()
}

proof fn lemma_decimal_digits(n: nat)
    ensures
        decimal(n).len() > 0,
        forall|i: int| 0 <= i < decimal(n).len() ==> is_digit(#[trigger] decimal(n)[i]),
        digits_value(decimal(n)) == n,
    decreases n,
{
    if n < 10 {
        assert(((48 + n) as char) as int == 48 + n);
        assert(decimal(n).drop_last() =~= Seq::<char>::empty());
        assert(digits_value(decimal(n)) == digits_value(Seq::<char>::empty()) * 10 + n);
    } else {
        lemma_decimal_digits(n / 10);
        let d = (48 + n % 10) as char;
        assert(d as int == 48 + n % 10);
        assert(decimal(n).drop_last() =~= decimal(n / 10));
        assert(decimal(n).last() == d);
        assert(digits_value(decimal(n)) == (n / 10) * 10 + n % 10);
        assert forall|i: int| 0 <= i < decimal(n).len() implies is_digit(#[trigger] decimal(n)[i]) by {
            if i < decimal(n).len() - 1 {
                assert(decimal(n)[i] == decimal(n / 10)[i]);
            }
        }
    }
}

/// A `u16` written in decimal parses back to itself.
pub proof fn lemma_u16_round_trip(n: u16)
    ensures
        u16_parsed(decimal(n as nat)) == Some(n),
{
    lemma_decimal_digits(n as nat);
    assert(is_digit(decimal(n as nat)[0]));
}

/// `u64::to_string`: the decimal digits.
#[verifier::external_body]
fn decimal_string(n: u64) -> (r: String)
    ensures
        r@ == decimal(n as nat),
{
    n.to_string()
}

/// Why a condition could not be read from its textual fields.
#[derive(Clone, Copy, PartialEq, Eq, Debug, Structural)]
pub enum ReadError {
    UnknownType,
    MissingThreshold,
    MissingSubfulfillments,
    MissingCode,
    MissingPublicKey,
    InvalidNumber,
    InvalidHex,
    InvalidBase64,
    InvalidKey(SecpError),
}

impl ConditionType {
    /// The type with this name, among those the bindings read.
    pub fn from_name(name: &String) -> (r: Option<ConditionType>)
        ensures
            r matches Some(t) ==> t.spec_name() == name@ && t != ConditionType::PreimageType,
            r is None ==> forall|t: ConditionType|
                t != ConditionType::PreimageType ==> t.spec_name() != name@,
    {
        if *name == ConditionType::ThresholdType.name() {
            Some(ConditionType::ThresholdType)
        } else if *name == ConditionType::EvalType.name() {
            Some(ConditionType::EvalType)
        } else if *name == ConditionType::Secp256k1Type.name() {
            Some(ConditionType::Secp256k1Type)
        } else {
            None
        }
    }
}

impl Condition {
    /// An eval condition whose code is given in base64.
    pub fn eval_from_base64(code: &String) -> (r: Result<Condition, ReadError>)
        ensures
            r is Ok <==> base64_decoded(code@) is Some,
            r matches Ok(c) ==> c matches Condition::Eval { code: b } && b@ == base64_decoded(code@)->0,
            r matches Err(e) ==> e == ReadError::InvalidBase64,
            forall|b: Seq<u8>|
                #[trigger] base64_encoded(b) == code@ ==> (r matches Ok(c) && c matches Condition::Eval {
                    code: x,
                } && x@ == b),
    {
        match decode_base64(code) {
            Some(bytes) => Ok(Condition::Eval { code: bytes }),
            None => Err(ReadError::InvalidBase64),
        }
    }

    /// A secp256k1 condition from a hex public key and, if there is one, a hex signature.
    pub fn secp256k1_from_hex(public_key: &String, signature: Option<&String>) -> (r: Result<Condition, ReadError>)
        ensures
            r is Ok <==> {
                &&& hex_decoded(public_key@) matches Some(pk) && parsed_public_key(pk) is Some
                &&& signature matches Some(s) ==> hex_decoded(s@) matches Some(sig) && sig.len() == 64
            },
            r matches Ok(c) ==> {
                &&& c matches Condition::Secp256k1 { pubkey, signature: sig }
                &&& Some(pubkey@) == parsed_public_key(hex_decoded(public_key@)->0)
                &&& (sig is Some <==> signature is Some)
                &&& sig matches Some(x) ==> {
                    let b = hex_decoded(signature->0@)->0;
                    &&& x@.len() == 64
                    &&& be_value(x@.subrange(0, 32)) == be_value(b.subrange(0, 32)) % curve_order()
                    &&& be_value(x@.subrange(32, 64)) == be_value(b.subrange(32, 64)) % curve_order()
                }
            },
            r matches Err(e) ==> e == if hex_decoded(public_key@) is None {
                ReadError::InvalidHex
            } else if signature matches Some(s) && hex_decoded(s@) is None {
                ReadError::InvalidHex
            } else if signature matches Some(s) && hex_decoded(s@)->0.len() != 64 {
                ReadError::InvalidKey(SecpError::InvalidInputLength)
            } else {
                let n = hex_decoded(public_key@)->0.len();
                ReadError::InvalidKey(
                    if n == 33 || n == 64 || n == 65 {
                        SecpError::InvalidPublicKey
                    } else {
                        SecpError::InvalidInputLength
                    },
                )
            },
    {
        let pk = match decode_hex(public_key) {
            Some(bytes) => bytes,
            None => return Err(ReadError::InvalidHex),
        };
        let sig = match signature {
            Some(text) => match decode_hex(text) {
                Some(bytes) => match Signature::parse_slice(&bytes) {
                    Ok(s) => Some(s),
                    Err(e) => return Err(ReadError::InvalidKey(e)),
                },
                None => return Err(ReadError::InvalidHex),
            },
            None => None,
        };
        match PublicKey::parse_slice(&pk) {
            Ok(pubkey) => Ok(Condition::Secp256k1 { pubkey, signature: sig }),
            Err(e) => Err(ReadError::InvalidKey(e)),
        }
    }
}


/// A condition's fields as the bindings set them on a JavaScript object.
#[derive(PartialEq, Debug)]
pub struct Description {
    pub kind: String,
    pub public_key: Option<String>,
    pub signature: Option<String>,
    pub code: Option<String>,
    pub threshold: Option<String>,
    pub subfulfillments: Option<Vec<Description>>,
    pub fingerprint: Option<String>,
    pub cost: Option<String>,
    pub subtypes: Option<String>,
}

/// The text of an optional string.
pub open spec fn text_of(o: Option<String>) -> Option<Seq<char>> {
    match o {
        Some(s) => Some(s@),
        None => None,
    }
}

/// The packed bytes followed by zeros up to four bytes.
pub open spec fn padded4(p: Seq<u8>) -> Seq<u8> {
    p + Seq::new((4 - p.len()) as nat, |i: int| 0u8)
}

/// The subtypes of an anonymous threshold as the bindings give them: the
/// packed set read as a big-endian 32-bit number, in decimal.
pub open spec fn subtypes_text(s: Set<u8>) -> Seq<char> {
    decimal(be_value(padded4(packed_set(s))))
}

/// Every anonymous threshold below carries only ids below 32.
pub open spec fn describable(c: Condition) -> bool
    decreases c,
{
    match c {
        Condition::Anon { cond_type, subtypes, .. } => cond_type == ConditionType::ThresholdType
            ==> forall|x: u8| subtypes@.contains(x) ==> x < 32,
        Condition::Threshold { subconditions, .. } => forall|i: int|
            0 <= i < subconditions@.len() ==> describable(#[trigger] subconditions@[i]),
        _ => true,
    }
}

/// Describing fails where an anonymous threshold's packed subtypes take
/// more than four bytes.
pub open spec fn describe_fails(c: Condition) -> bool
    decreases c,
{
    match c {
        Condition::Anon { cond_type, subtypes, .. } => cond_type == ConditionType::ThresholdType
            && packed_set(subtypes@).len() > 4,
        Condition::Threshold { subconditions, .. } => exists|i: int|
            0 <= i < subconditions@.len() && describe_fails(#[trigger] subconditions@[i]),
        _ => false,
    }
}

/// `d` describes `c`.
pub open spec fn describes(d: Description, c: Condition) -> bool
    decreases c,
{
    match c {
        Condition::Secp256k1 { pubkey, signature } => {
            &&& d.kind@ == "secp256k1-sha-256"@
            &&& text_of(d.public_key) == Some(hex_encoded(pubkey@))
            &&& text_of(d.signature) == match signature {
                Some(s) => Some(hex_encoded(s@)),
                None => None,
            }
            &&& d.code is None && d.threshold is None && d.subfulfillments is None
            &&& d.fingerprint is None && d.cost is None && d.subtypes is None
        },
        Condition::Eval { code } => {
            &&& d.kind@ == "eval-sha-256"@
            &&& text_of(d.code) == Some(base64_encoded(code@))
            &&& d.public_key is None && d.signature is None && d.threshold is None
            &&& d.subfulfillments is None && d.fingerprint is None && d.cost is None
            &&& d.subtypes is None
        },
        Condition::Preimage { .. } => {
            &&& d.kind@ == "preimage-sha-256"@
            &&& d.public_key is None && d.signature is None && d.code is None
            &&& d.threshold is None && d.subfulfillments is None && d.fingerprint is None
            &&& d.cost is None && d.subtypes is None
        },
        Condition::Threshold { threshold, subconditions } => {
            &&& d.kind@ == "threshold-sha-256"@
            &&& text_of(d.threshold) == Some(decimal(threshold as nat))
            &&& d.subfulfillments matches Some(v) && v@.len() == subconditions@.len()
                && forall|i: int| 0 <= i < v@.len() ==> describes(v@[i], #[trigger] subconditions@[i])
            &&& d.public_key is None && d.signature is None && d.code is None
            &&& d.fingerprint is None && d.cost is None && d.subtypes is None
        },
        Condition::Anon { cond_type, fingerprint, cost, subtypes } => {
            &&& d.kind@ == "(anon)"@
            &&& text_of(d.fingerprint) == Some(base64_encoded(fingerprint@))
            &&& text_of(d.cost) == Some(decimal(cost as nat))
            &&& text_of(d.subtypes) == if cond_type == ConditionType::ThresholdType {
                Some(subtypes_text(subtypes@))
            } else {
                None
            }
            &&& d.public_key is None && d.signature is None && d.code is None
            &&& d.threshold is None && d.subfulfillments is None
        },
    }
}

/// The conditions the bindings read back, at any depth: thresholds, evals
/// and secp256k1 conditions, holding keys and signatures as their types
/// keep them.
pub open spec fn readable(c: Condition) -> bool
    decreases c,
{
    match c {
        Condition::Threshold { subconditions, .. } => forall|i: int|
            0 <= i < subconditions@.len() ==> readable(#[trigger] subconditions@[i]),
        Condition::Eval { .. } => true,
        Condition::Secp256k1 { pubkey, signature } => key_valid(pubkey@) && (signature matches Some(
            sig,
        ) ==> signature_valid(sig@)),
        _ => false,
    }
}

/// Why a hex public key and optional hex signature do not make a
/// secp256k1 condition, or `None` where they do.
pub open spec fn hex_key_error(public_key: Seq<char>, signature: Option<Seq<char>>) -> Option<ReadError> {
    if hex_decoded(public_key) is None {
        Some(ReadError::InvalidHex)
    } else if signature matches Some(t) && hex_decoded(t) is None {
        Some(ReadError::InvalidHex)
    } else if signature matches Some(t) && hex_decoded(t)->0.len() != 64 {
        Some(ReadError::InvalidKey(SecpError::InvalidInputLength))
    } else if parsed_public_key(hex_decoded(public_key)->0) is None {
        let n = hex_decoded(public_key)->0.len();
        Some(
            ReadError::InvalidKey(
                if n == 33 || n == 64 || n == 65 {
                    SecpError::InvalidPublicKey
                } else {
                    SecpError::InvalidInputLength
                },
            ),
        )
    } else {
        None
    }
}

/// The error of the first description in `v` that cannot be read back, if any.
pub open spec fn first_read_error(v: Seq<Description>) -> Option<ReadError>
    decreases v,
{
    if v.len() == 0 {
        None
    } else if read_error(v[0]) is Some {
        read_error(v[0])
    } else {
        first_read_error(v.subrange(1, v.len() as int))
    }
}

/// The type names in descriptions differ from one another.
proof fn lemma_kind_names()
    ensures
        "threshold-sha-256"@ != "eval-sha-256"@,
        "threshold-sha-256"@ != "secp256k1-sha-256"@,
        "threshold-sha-256"@ != "preimage-sha-256"@,
        "threshold-sha-256"@ != "(anon)"@,
        "eval-sha-256"@ != "secp256k1-sha-256"@,
        "eval-sha-256"@ != "preimage-sha-256"@,
        "eval-sha-256"@ != "(anon)"@,
        "secp256k1-sha-256"@ != "preimage-sha-256"@,
        "secp256k1-sha-256"@ != "(anon)"@,
        "preimage-sha-256"@ != "(anon)"@,
{
    reveal_strlit("threshold-sha-256");
    reveal_strlit("eval-sha-256");
    reveal_strlit("secp256k1-sha-256");
    reveal_strlit("preimage-sha-256");
    reveal_strlit("(anon)");
    assert("threshold-sha-256"@[0] != "eval-sha-256"@[0]);
    assert("threshold-sha-256"@[0] != "secp256k1-sha-256"@[0]);
    assert("threshold-sha-256"@[0] != "preimage-sha-256"@[0]);
    assert("threshold-sha-256"@[0] != "(anon)"@[0]);
    assert("eval-sha-256"@[0] != "secp256k1-sha-256"@[0]);
    assert("eval-sha-256"@[0] != "preimage-sha-256"@[0]);
    assert("eval-sha-256"@[0] != "(anon)"@[0]);
    assert("secp256k1-sha-256"@[0] != "preimage-sha-256"@[0]);
    assert("secp256k1-sha-256"@[0] != "(anon)"@[0]);
    assert("preimage-sha-256"@[0] != "(anon)"@[0]);
}

proof fn lemma_first_read_error(v: Seq<Description>, i: int)
    requires
        0 <= i <= v.len(),
        forall|j: int| 0 <= j < i ==> (#[trigger] read_error(v[j])) is None,
    ensures
        first_read_error(v) == first_read_error(v.subrange(i, v.len() as int)),
    decreases i,
{
    if i > 0 {
        let w = v.subrange(1, v.len() as int);
        assert(read_error(v[0]) is None);
        assert forall|j: int| 0 <= j < i - 1 implies (#[trigger] read_error(w[j])) is None by {
            assert(w[j] == v[j + 1]);
        }
        lemma_first_read_error(w, i - 1);
        assert(w.subrange(i - 1, w.len() as int) =~= v.subrange(i, v.len() as int));
    } else {
        assert(v.subrange(0, v.len() as int) =~= v);
    }
}

/// Why a description cannot be read back into a condition, or `None` where
/// it can. A threshold reports the error of its first unreadable
/// subfulfillment before a threshold text that is not a `u16`.
pub open spec fn read_error(d: Description) -> Option<ReadError>
    decreases d,
{
    if d.kind@ == ConditionType::ThresholdType.spec_name() {
        if d.threshold is None {
            Some(ReadError::MissingThreshold)
        } else if d.subfulfillments is None {
            Some(ReadError::MissingSubfulfillments)
        } else if first_read_error(d.subfulfillments->0@) is Some {
            first_read_error(d.subfulfillments->0@)
        } else if u16_parsed(d.threshold->0@) is None {
            Some(ReadError::InvalidNumber)
        } else {
            None
        }
    } else if d.kind@ == ConditionType::EvalType.spec_name() {
        if d.code is None {
            Some(ReadError::MissingCode)
        } else if base64_decoded(d.code->0@) is None {
            Some(ReadError::InvalidBase64)
        } else {
            None
        }
    } else if d.kind@ == ConditionType::Secp256k1Type.spec_name() {
        if d.public_key is None {
            Some(ReadError::MissingPublicKey)
        } else {
            hex_key_error(d.public_key->0@, text_of(d.signature))
        }
    } else {
        Some(ReadError::UnknownType)
    }
}

/// `c` is what `d` reads back as.
pub open spec fn reads(d: Description, c: Condition) -> bool
    decreases c,
{
    match c {
        Condition::Threshold { threshold, subconditions } => {
            &&& d.kind@ == ConditionType::ThresholdType.spec_name()
            &&& d.threshold matches Some(t) && u16_parsed(t@) == Some(threshold)
            &&& d.subfulfillments matches Some(v) && v@.len() == subconditions@.len() && forall|i: int|
                0 <= i < v@.len() ==> reads(v@[i], #[trigger] subconditions@[i])
        },
        Condition::Eval { code } => {
            &&& d.kind@ == ConditionType::EvalType.spec_name()
            &&& d.code matches Some(t) && base64_decoded(t@) == Some(code@)
        },
        Condition::Secp256k1 { pubkey, signature } => {
            &&& d.kind@ == ConditionType::Secp256k1Type.spec_name()
            &&& d.public_key matches Some(pk) && hex_decoded(pk@) matches Some(b) && parsed_public_key(b)
                == Some(pubkey@)
            &&& (signature is Some <==> d.signature is Some)
            &&& signature matches Some(x) ==> {
                let b = hex_decoded(d.signature->0@)->0;
                &&& hex_decoded(d.signature->0@) is Some
                &&& x@.len() == 64
                &&& be_value(x@.subrange(0, 32)) == be_value(b.subrange(0, 32)) % curve_order()
                &&& be_value(x@.subrange(32, 64)) == be_value(b.subrange(32, 64)) % curve_order()
            }
        },
        _ => false,
    }
}

impl Condition {
    /// Reads a condition back from its description, as the bindings read a
    /// JavaScript object: thresholds, evals and secp256k1 conditions. What
    /// `describe` wrote of such a condition reads back as the same condition.
    pub fn from_description(d: &Description) -> (r: Result<Condition, ReadError>)
        ensures
            r is Ok <==> read_error(*d) is None,
            r matches Ok(c) ==> reads(*d, c),
            r matches Err(e) ==> read_error(*d) == Some(e),
            forall|c: Condition|
                #[trigger] describes(*d, c) && readable(c) ==> (r matches Ok(c2) && same_condition(
                    c,
                    c2,
                )),
        decreases d,
    {
        proof {
            lemma_kind_names();
        }
        match ConditionType::from_name(&d.kind) {
            Some(ConditionType::ThresholdType) => {
                let text = match &d.threshold {
                    Some(t) => t,
                    None => return Err(ReadError::MissingThreshold),
                };
                let subs = match &d.subfulfillments {
                    Some(v) => v,
                    None => return Err(ReadError::MissingSubfulfillments),
                };
                let ghost v = subs@;
                let mut subconditions: Vec<Condition> = Vec::new();
                for i in 0..subs.len()
                    invariant
                        v == subs@,
                        d.kind@ == ConditionType::ThresholdType.spec_name(),
                        d.threshold == Some(*text),
                        d.subfulfillments == Some(*subs),
                        subconditions@.len() == i,
                        forall|j: int| 0 <= j < i ==> (#[trigger] read_error(v[j])) is None,
                        forall|j: int| 0 <= j < i ==> reads(v[j], #[trigger] subconditions@[j]),
                        forall|c: Condition|
                            #[trigger] describes(*d, c) && readable(c) ==> (c matches Condition::Threshold {
                                subconditions: cs,
                                ..
                            } && forall|j: int|
                                0 <= j < i ==> same_condition(#[trigger] cs@[j], subconditions@[j])),
                {
                    assert(decreases_to!(*d => d.subfulfillments));
                    assert(decreases_to!(d.subfulfillments => d.subfulfillments->0));
                    assert(decreases_to!(*subs => subs@));
                    assert(decreases_to!(subs@ => subs@[i as int]));
                    let sub = Condition::from_description(&subs[i]);
                    match sub {
                        Ok(c) => {
                            let ghost before = subconditions@;
                            subconditions.push(c);
                            proof {
                                assert forall|c0: Condition| #[trigger] describes(*d, c0) && readable(c0) implies (c0 matches Condition::Threshold {
                                    subconditions: cs,
                                    ..
                                } && forall|j: int|
                                    0 <= j < i + 1 ==> same_condition(#[trigger] cs@[j], subconditions@[j])) by {
                                    let cs = c0->subconditions;
                                    assert(describes(v[i as int], cs@[i as int]));
                                    assert(readable(cs@[i as int]));
                                    assert forall|j: int| 0 <= j < i + 1 implies same_condition(#[trigger] cs@[j], subconditions@[j]) by {
                                        if j < i {
                                            assert(subconditions@[j] == before[j]);
                                        }
                                    }
                                }
                            }
                        },
                        Err(e) => {
                            proof {
                                lemma_first_read_error(v, i as int);
                                assert(v.subrange(i as int, v.len() as int)[0] == v[i as int]);
                                assert forall|c: Condition| #[trigger] describes(*d, c) implies !readable(c) by {
                                    if readable(c) {
                                        let cs = c->subconditions;
                                        assert(describes(v[i as int], cs@[i as int]));
                                        assert(readable(cs@[i as int]));
                                    }
                                }
                            }
                            return Err(e);
                        },
                    }
                }
                proof {
                    lemma_first_read_error(v, v.len() as int);
                }
                match parse_u16(text) {
                    Some(t) => {
                        let c = Condition::Threshold { threshold: t, subconditions };
                        proof {
                            assert forall|c0: Condition| #[trigger] describes(*d, c0) && readable(c0) implies same_condition(c0, c) by {
                                let t0 = c0->threshold;
                                lemma_u16_round_trip(t0);
                            }
                        }
                        Ok(c)
                    },
                    None => {
                        proof {
                            assert forall|c0: Condition| #[trigger] describes(*d, c0) implies !readable(c0) by {
                                lemma_u16_round_trip(c0->threshold);
                            }
                        }
                        Err(ReadError::InvalidNumber)
                    },
                }
            },
            Some(ConditionType::EvalType) => match &d.code {
                Some(code) => Condition::eval_from_base64(code),
                None => Err(ReadError::MissingCode),
            },
            Some(ConditionType::Secp256k1Type) => match &d.public_key {
                Some(pk) => {
                    let sig = match &d.signature {
                        Some(t) => Some(t),
                        None => None,
                    };
                    let r = Condition::secp256k1_from_hex(pk, sig);
                    proof {
                        assert forall|c0: Condition| #[trigger] describes(*d, c0) && readable(c0) implies (r matches Ok(c2) && same_condition(c0, c2)) by {
                            let k = c0->pubkey;
                            lemma_hex_round_trip(k@);
                            if let Some(x) = c0->signature {
                                lemma_hex_round_trip(x@);
                                if let Ok(Condition::Secp256k1 { signature: Some(y), .. }) = r {
                                    lemma_signature_reparse(x@, y@);
                                }
                            }
                        }
                    }
                    r
                },
                None => Err(ReadError::MissingPublicKey),
            },
            _ => Err(ReadError::UnknownType),
        }
    }
}

/// A description with only a type name.
fn bare(kind: String) -> (r: Description)
    ensures
        r.kind == kind,
        r.public_key is None && r.signature is None && r.code is None,
        r.threshold is None && r.subfulfillments is None && r.fingerprint is None,
        r.cost is None && r.subtypes is None,
{
    Description {
        kind,
        public_key: None,
        signature: None,
        code: None,
        threshold: None,
        subfulfillments: None,
        fingerprint: None,
        cost: None,
        subtypes: None,
    }
}

/// The big-endian value of the packed bytes padded with zeros to four bytes.
fn padded_value(p: &Vec<u8>) -> (r: u64)
    requires
        p@.len() <= 4,
    ensures
        r == be_value(padded4(p@)),
{
    let ghost full = padded4(p@);
    let mut value: u64 = 0;
    assert(full.take(0) =~= Seq::<u8>::empty());
    for i in 0..4usize
        invariant
            p@.len() <= 4,
            full == padded4(p@),
            full.len() == 4,
            value == be_value(full.take(i as int)),
            i == 0 ==> value < 1,
            i == 1 ==> value < 256,
            i == 2 ==> value < 65536,
            i == 3 ==> value < 16777216,
            i == 4 ==> value < 4294967296,
    {
        let byte: u8 = if i < p.len() {
            p[i]
        } else {
            0
        };
        assert(byte == full[i as int]);
        assert(full.take(i + 1).drop_last() =~= full.take(i as int));
        value = value * 256 + byte as u64;
    }
    assert(full.take(4) =~= full);
    value
}

/// The fields the bindings set on a JavaScript object for the condition.
pub fn describe(cond: &Condition) -> (r: Result<Description, String>)
    requires
        describable(*cond),
    ensures
        match r {
            Ok(d) => !describe_fails(*cond) && describes(d, *cond),
            Err(e) => describe_fails(*cond) && e@ == "Internal error: expected subtypes as Vec of 4"@,
        },
    decreases cond,
{
    match cond {
        Condition::Secp256k1 { pubkey, signature } => {
            let mut d = bare("secp256k1-sha-256".to_string());
            d.public_key = Some(encode_hex(&pubkey.serialize_compressed()));
            d.signature = match signature {
                Some(s) => Some(encode_hex(&s.serialize())),
                None => None,
            };
            Ok(d)
        },
        Condition::Eval { code } => {
            let mut d = bare("eval-sha-256".to_string());
            d.code = Some(encode_base64(code));
            Ok(d)
        },
        Condition::Preimage { .. } => Ok(bare("preimage-sha-256".to_string())),
        Condition::Threshold { threshold, subconditions } => {
            let mut subs: Vec<Description> = Vec::new();
            for i in 0..subconditions.len()
                invariant
                    *cond == (Condition::Threshold {
                        threshold: *threshold,
                        subconditions: *subconditions,
                    }),
                    describable(*cond),
                    subs@.len() == i,
                    forall|j: int|
                        0 <= j < i ==> !describe_fails(#[trigger] subconditions@[j]) && describes(
                            subs@[j],
                            subconditions@[j],
                        ),
            {
                assert(decreases_to!(*cond => (*cond)->subconditions));
                assert(decreases_to!(*subconditions => subconditions@));
                assert(decreases_to!(subconditions@ => subconditions@[i as int]));
                assert(describable(subconditions@[i as int]));
                let d = describe(&subconditions[i])?;
                subs.push(d);
            }
            let mut d = bare("threshold-sha-256".to_string());
            d.threshold = Some(decimal_string(*threshold as u64));
            d.subfulfillments = Some(subs);
            Ok(d)
        },
        Condition::Anon { cond_type, fingerprint, cost, subtypes } => {
            let mut d = bare("(anon)".to_string());
            d.fingerprint = Some(encode_base64(fingerprint));
            d.cost = Some(decimal_string(*cost));
            if cond_type.has_subtypes() {
                let mut items: HashSet<u8> = HashSet::new();
                union_into(&mut items, subtypes);
                assert(items@ =~= subtypes@);
                let packed = pack_set(items);
                proof {
                    crate::internal::lemma_packed_set_unique(packed@, subtypes@);
                }
                if packed.len() > 4 {
                    return Err("Internal error: expected subtypes as Vec of 4".to_string());
                }
                d.subtypes = Some(decimal_string(padded_value(&packed)));
            }
            Ok(d)
        },
    }
}


/// Whether the condition can be described: every anonymous threshold below
/// carries only ids below 32.
pub fn is_describable(cond: &Condition) -> (r: bool)
    ensures
        r == describable(*cond),
    decreases cond,
{
    match cond {
        Condition::Anon { cond_type, subtypes, .. } => {
            if !cond_type.has_subtypes() {
                return true;
            }
            let mut all_small = true;
            for x in it: subtypes.iter()
                invariant
                    it.seq().unref().to_set() == subtypes@,
                    all_small <==> forall|j: int| 0 <= j < it.index() ==> it.seq().unref()[j] < 32,
                    it.index() == it.seq().len() ==> (all_small <==> forall|y: u8|
                        subtypes@.contains(y) ==> y < 32),
            {
                if *x >= 32 {
                    all_small = false;
                }
                assert(it.index() + 1 == it.seq().len() ==> (all_small <==> forall|y: u8|
                    subtypes@.contains(y) ==> y < 32)) by {
                    if it.index() + 1 == it.seq().len() {
                        if !all_small {
                            let j = choose|j: int| 0 <= j < it.index() + 1 && it.seq().unref()[j] >= 32;
                            assert(it.seq().unref().to_set().contains(it.seq().unref()[j]));
                        } else {
                            assert forall|y: u8| subtypes@.contains(y) implies y < 32 by {
                                assert(it.seq().unref().contains(y));
                            }
                        }
                    }
                }
            }
            all_small
        },
        Condition::Threshold { threshold, subconditions } => {
            for i in 0..subconditions.len()
                invariant
                    forall|j: int| 0 <= j < i ==> describable(#[trigger] subconditions@[j]),
                    *cond == (Condition::Threshold {
                        threshold: *threshold,
                        subconditions: *subconditions,
                    }),
            {
                assert(decreases_to!(*cond => (*cond)->subconditions));
                assert(decreases_to!(*subconditions => subconditions@));
                assert(decreases_to!(subconditions@ => subconditions@[i as int]));
                if !is_describable(&subconditions[i]) {
                    return false;
                }
            }
            true
        },
        _ => true,
    }
}

} // verus!
