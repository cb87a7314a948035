//! The secp256k1 values a condition holds, modelled by their byte
//! serializations, and the curve operations the library needs from
//! the `secp256k1` crate.

use vstd::prelude::*;

verus! {

/// Errors reported when bytes do not make a key, message or signature.
#[derive(Clone, Copy, Debug, PartialEq, Eq, Structural)]
pub enum SecpError {
    InvalidPublicKey,
    InvalidSecretKey,
    InvalidInputLength,
}

/// Big-endian value of a byte string.
pub open spec fn be_value(s: Seq<u8>) -> nat
    decreases s.len(),
{
    if s.len() == 0 {
        0
    } else {
        be_value(s.drop_last()) * 256 + s.last() as nat
    }
}

/// The order of the secp256k1 group.
pub open spec fn curve_order() -> nat {
    0xFFFFFFFFFFFFFFFFFFFFFFFFFFFFFFFEBAAEDCE6AF48A03BBFD25E8CD0364141nat
}

/// Byte strings of one length with the same big-endian value are equal.
pub proof fn lemma_be_value_injective(a: Seq<u8>, b: Seq<u8>)
    requires
        a.len() == b.len(),
        be_value(a) == be_value(b),
    ensures
        a == b,
    decreases a.len(),
{
    if a.len() > 0 {
        let x = be_value(a.drop_last()) as int;
        let y = be_value(b.drop_last()) as int;
        let u = a.last() as int;
        let v = b.last() as int;
        assert(u == v && x == y) by (nonlinear_arith)
            requires
                x * 256 + u == y * 256 + v,
                0 <= u < 256,
                0 <= v < 256,
                x >= 0,
                y >= 0,
        ;
        lemma_be_value_injective(a.drop_last(), b.drop_last());
        assert forall|i: int| 0 <= i < a.len() implies a[i] == b[i] by {
            if i < a.len() - 1 {
                assert(a[i] == a.drop_last()[i]);
                assert(b[i] == b.drop_last()[i]);
            }
        }
    }
    assert(a =~= b);
}

/// What a public key holds: 33 bytes of a compressed serialization that
/// parses back to itself.
pub open spec fn key_valid(k: Seq<u8>) -> bool {
    k.len() == 33 && parsed_public_key(k) == Some(k)
}

/// What a signature holds: 64 bytes whose two halves are scalars below the
/// group order.
pub open spec fn signature_valid(s: Seq<u8>) -> bool {
    &&& s.len() == 64
    &&& be_value(s.subrange(0, 32)) < curve_order()
    &&& be_value(s.subrange(32, 64)) < curve_order()
}

/// Parsing a signature whose halves are already reduced gives it back.
pub proof fn lemma_signature_reparse(x: Seq<u8>, y: Seq<u8>)
    requires
        signature_valid(x),
        y.len() == 64,
        be_value(y.subrange(0, 32)) == be_value(x.subrange(0, 32)) % curve_order(),
        be_value(y.subrange(32, 64)) == be_value(x.subrange(32, 64)) % curve_order(),
    ensures
        y == x,
{
    lemma_be_value_injective(y.subrange(0, 32), x.subrange(0, 32));
    lemma_be_value_injective(y.subrange(32, 64), x.subrange(32, 64));
    assert forall|i: int| 0 <= i < 64 implies y[i] == x[i] by {
        if i < 32 {
            assert(y[i] == y.subrange(0, 32)[i]);
            assert(x[i] == x.subrange(0, 32)[i]);
        } else {
            assert(y[i] == y.subrange(32, 64)[i - 32]);
            assert(x[i] == x.subrange(32, 64)[i - 32]);
        }
    }
    assert(y =~= x);
}

/// A secret key is 32 big-endian bytes of a non-zero scalar below the group order.
pub open spec fn secret_key_valid(bytes: Seq<u8>) -> bool {
    bytes.len() == 32 && 0 < be_value(bytes) < curve_order()
}

/// The compressed (33-byte) serialization of the key that the `secp256k1`
/// crate parses from `bytes`, or `None` where it rejects them.
pub uninterp spec fn parsed_public_key(bytes: Seq<u8>) -> Option<Seq<u8>>;

/// The compressed serialization of the public key of a secret key.
pub uninterp spec fn public_key_of_secret(secret: Seq<u8>) -> Seq<u8>;

/// The 64-byte `r || s` serialization of the signature the `secp256k1`
/// crate makes of a 32-byte message with a secret key.
pub uninterp spec fn signature_of(message: Seq<u8>, secret: Seq<u8>) -> Seq<u8>;

/// A public key, held as its 33-byte compressed serialization.
#[derive(PartialEq, Eq, Debug)]
pub struct PublicKey {
    bytes: Vec<u8>,
}

/// A signature, held as its 64-byte `r || s` serialization.
#[derive(PartialEq, Eq, Debug)]
pub struct Signature {
    bytes: Vec<u8>,
}

/// A secret key, held as its 32 bytes.
#[derive(PartialEq, Eq, Debug)]
pub struct SecretKey {
    bytes: Vec<u8>,
}

/// A 32-byte message digest to be signed.
#[derive(PartialEq, Eq, Debug)]
pub struct Message {
    bytes: Vec<u8>,
}

impl View for PublicKey {
    type V = Seq<u8>;

    closed spec fn view(&self) -> Seq<u8> {
        self.bytes@
    }
}

impl View for Signature {
    type V = Seq<u8>;

    closed spec fn view(&self) -> Seq<u8> {
        self.bytes@
    }
}

impl Clone for PublicKey {
    /// A key with the same serialization.
    fn clone(&self) -> (r: PublicKey)
        ensures
            r@ == self@,
    {
        proof {
            use_type_invariant(self);
        }
        let bytes = self.bytes.clone();
        assert(bytes@ =~= self.bytes@);
        PublicKey { bytes }
    }
}

impl Clone for Signature {
    /// A signature with the same serialization.
    fn clone(&self) -> (r: Signature)
        ensures
            r@ == self@,
    {
        proof {
            use_type_invariant(self);
        }
        let bytes = self.bytes.clone();
        assert(bytes@ =~= self.bytes@);
        Signature { bytes }
    }
}

impl View for SecretKey {
    type V = Seq<u8>;

    closed spec fn view(&self) -> Seq<u8> {
        self.bytes@
    }
}

impl View for Message {
    type V = Seq<u8>;

    closed spec fn view(&self) -> Seq<u8> {
        self.bytes@
    }
}

/// `secp256k1::PublicKey::parse_slice(bytes, None)` followed by
/// `serialize_compressed`. The crate rejects every length but 33, 64 and 65
/// before looking at the bytes; what it accepts otherwise is named. The
/// compressed form of an accepted key (its x coordinate below the field
/// prime, and the parity of y) parses back to the same point, so to itself.
#[verifier::external_body]
fn parse_public_key(bytes: &[u8]) -> (r: Option<Vec<u8>>)
    ensures
        r matches Some(k) ==> k@ == parsed_public_key(bytes@)->0 && k@.len() == 33,
        r matches Some(k) ==> parsed_public_key(k@) == Some(k@),
        r is None <==> parsed_public_key(bytes@) is None,
        !(bytes@.len() == 33 || bytes@.len() == 64 || bytes@.len() == 65) ==> r is None,
{
    match secp256k1::PublicKey::parse_slice(bytes, None) {
        Ok(k) => Some(k.serialize_compressed().to_vec()),
        Err(_) => None,
    }
}

/// Whether `secp256k1::SecretKey::parse_slice` accepts the bytes: it wants
/// 32 bytes whose big-endian value is neither zero nor at least the group order.
#[verifier::external_body]
fn secret_key_accepted(bytes: &[u8]) -> (r: bool)
    ensures
        r == secret_key_valid(bytes@),
{
    secp256k1::SecretKey::parse_slice(bytes).is_ok()
}

/// `secp256k1::Signature::parse_slice` followed by `serialize`: 64 bytes are
/// read as two scalars, each reduced modulo the group order.
#[verifier::external_body]
fn parse_signature(bytes: &[u8]) -> (r: Option<Vec<u8>>)
    ensures
        r is Some <==> bytes@.len() == 64,
        r matches Some(s) ==> {
            &&& s@.len() == 64
            &&& be_value(s@.subrange(0, 32)) == be_value(bytes@.subrange(0, 32)) % curve_order()
            &&& be_value(s@.subrange(32, 64)) == be_value(bytes@.subrange(32, 64)) % curve_order()
        },
{
    match secp256k1::Signature::parse_slice(bytes) {
        Ok(s) => Some(s.serialize().to_vec()),
        Err(_) => None,
    }
}

/// `secp256k1::PublicKey::from_secret_key` followed by `serialize_compressed`.
/// The secret's bytes always parse, by its invariant. The key is a point of
/// the curve other than infinity, so its compressed form parses to itself.
#[verifier::external_body]
fn derive_public_key(secret: &SecretKey) -> (r: PublicKey)
    ensures
        r@ == public_key_of_secret(secret@),
        r@.len() == 33,
        parsed_public_key(r@) == Some(r@),
{
    let sk = secp256k1::SecretKey::parse_slice(&secret.bytes).unwrap();
    PublicKey { bytes: secp256k1::PublicKey::from_secret_key(&sk).serialize_compressed().to_vec() }
}

/// `secp256k1::sign` followed by `serialize` of the signature. Its nonce is
/// drawn from an HMAC-DRBG seeded with the key and the message alone, so the
/// signature is a function of the two. Both always parse, by their
/// invariants. Its two halves are scalars, which the crate keeps reduced
/// below the group order.
#[verifier::external_body]
fn sign_message(message: &Message, secret: &SecretKey) -> (r: Signature)
    ensures
        r@ == signature_of(message@, secret@),
        r@.len() == 64,
        be_value(r@.subrange(0, 32)) < curve_order(),
        be_value(r@.subrange(32, 64)) < curve_order(),
{
    let m = secp256k1::Message::parse_slice(&message.bytes).unwrap();
    let sk = secp256k1::SecretKey::parse_slice(&secret.bytes).unwrap();
    Signature { bytes: secp256k1::sign(&m, &sk).0.serialize().to_vec() }
}

/// A vector holding the bytes of the slice.
fn copy_bytes(p: &[u8]) -> (r: Vec<u8>)
    ensures
        r@ == p@,
{
    let mut r: Vec<u8> = Vec::new();
    for i in 0..p.len()
        invariant
            r@ == p@.subrange(0, i as int),
    {
        r.push(p[i]);
        assert(r@ =~= p@.subrange(0, i + 1));
    }
    assert(r@ =~= p@);
    r
}

impl PublicKey {
    #[verifier::type_invariant]
    spec fn inv(self) -> bool {
        key_valid(self.bytes@)
    }

    /// Parses a public key in compressed (33), raw (64) or full (65 bytes) form.
    pub fn parse_slice(p: &[u8]) -> (r: Result<PublicKey, SecpError>)
        ensures
            r matches Ok(k) ==> parsed_public_key(p@) == Some(k@),
            r is Ok <==> parsed_public_key(p@) is Some,
            r matches Err(e) ==> e == (if p@.len() == 33 || p@.len() == 64 || p@.len() == 65 {
                SecpError::InvalidPublicKey
            } else {
                SecpError::InvalidInputLength
            }),
    {
        match parse_public_key(p) {
            Some(bytes) => Ok(PublicKey { bytes }),
            None => {
                if p.len() == 33 || p.len() == 64 || p.len() == 65 {
                    Err(SecpError::InvalidPublicKey)
                } else {
                    Err(SecpError::InvalidInputLength)
                }
            },
        }
    }

    /// The 33-byte compressed serialization, which parses back to this key.
    pub fn serialize_compressed(&self) -> (r: Vec<u8>)
        ensures
            r@ == self@,
            key_valid(r@),
    {
        proof {
            use_type_invariant(self);
        }
        self.bytes.clone()
    }

    /// Whether two keys are the same point.
    pub fn same_key(&self, other: &PublicKey) -> (r: bool)
        ensures
            r == (self@ == other@),
    {
        let r = self.bytes == other.bytes;
        proof {
            if r {
                assert(self.bytes@ =~= other.bytes@);
            }
        }
        r
    }
}

impl Signature {
    #[verifier::type_invariant]
    spec fn inv(self) -> bool {
        signature_valid(self.bytes@)
    }

    /// Parses a 64-byte `r || s` signature; each half is taken modulo the group order.
    pub fn parse_slice(p: &[u8]) -> (r: Result<Signature, SecpError>)
        ensures
            r is Ok <==> p@.len() == 64,
            r matches Ok(s) ==> {
                &&& s@.len() == 64
                &&& be_value(s@.subrange(0, 32)) == be_value(p@.subrange(0, 32)) % curve_order()
                &&& be_value(s@.subrange(32, 64)) == be_value(p@.subrange(32, 64)) % curve_order()
            },
            r matches Err(e) ==> e == SecpError::InvalidInputLength,
    {
        match parse_signature(p) {
            Some(bytes) => Ok(Signature { bytes }),
            None => Err(SecpError::InvalidInputLength),
        }
    }

    /// The 64-byte `r || s` serialization; both halves are below the group order.
    pub fn serialize(&self) -> (r: Vec<u8>)
        ensures
            r@ == self@,
            signature_valid(r@),
    {
        proof {
            use_type_invariant(self);
        }
        self.bytes.clone()
    }
}

impl SecretKey {
    #[verifier::type_invariant]
    spec fn inv(self) -> bool {
        secret_key_valid(self.bytes@)
    }

    /// Parses a 32-byte secret key.
    pub fn parse_slice(p: &[u8]) -> (r: Result<SecretKey, SecpError>)
        ensures
            r is Ok <==> secret_key_valid(p@),
            r matches Ok(k) ==> k@ == p@,
            r matches Err(e) ==> e == (if p@.len() == 32 {
                SecpError::InvalidSecretKey
            } else {
                SecpError::InvalidInputLength
            }),
    {
        if p.len() != 32 {
            Err(SecpError::InvalidInputLength)
        } else if secret_key_accepted(p) {
            let bytes = copy_bytes(p);
            Ok(SecretKey { bytes })
        } else {
            Err(SecpError::InvalidSecretKey)
        }
    }

    /// The public key of this secret key.
    pub fn public_key(&self) -> (r: PublicKey)
        ensures
            r@ == public_key_of_secret(self@),
    {
        derive_public_key(self)
    }
}

impl Message {
    #[verifier::type_invariant]
    spec fn inv(self) -> bool {
        self.bytes@.len() == 32
    }

    /// Takes a 32-byte message digest.
    pub fn parse_slice(p: &[u8]) -> (r: Result<Message, SecpError>)
        ensures
            r is Ok <==> p@.len() == 32,
            r matches Ok(m) ==> m@ == p@,
            r matches Err(e) ==> e == SecpError::InvalidInputLength,
    {
        if p.len() == 32 {
            let bytes = copy_bytes(p);
            Ok(Message { bytes })
        } else {
            Err(SecpError::InvalidInputLength)
        }
    }

    /// Signs this message with a secret key.
    pub fn sign(&self, secret: &SecretKey) -> (r: Signature)
        ensures
            r@ == signature_of(self@, secret@),
    {
        sign_message(self, secret)
    }
}

} // verus!
