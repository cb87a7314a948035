//! DER encoding of the two block shapes conditions are made of, hashing,
//! and the compact bit-array form of type-id sets.

use vstd::prelude::*;
use num_bigint::{BigInt, BigUint};
use num_traits::cast::FromPrimitive;
use sha2::Digest;
use simple_asn1::{to_der, ASN1Block, ASN1Class};
use std::collections::HashSet;

verus! {

/// An ASN.1 block as this library builds it: either an element of
/// context-specific class holding raw content octets, or a SEQUENCE.
pub enum AsnBlock {
    Unknown { constructed: bool, tag: usize, content: Vec<u8> },
    Sequence { items: Vec<AsnBlock> },
}

/// Minimal big-endian bytes of `n` (empty for zero).
pub open spec fn be_bytes(n: nat) -> Seq<u8>
    decreases n,
{
    if n == 0 {
        Seq::empty()
    } else {
        be_bytes(n / 256).push((n % 256) as u8)
    }
}

/// DER length octets: short form below 128, long form otherwise.
pub open spec fn der_length(n: nat) -> Seq<u8> {
    if n < 128 {
        seq![n as u8]
    } else {
        seq![(0x80 + be_bytes(n).len()) as u8] + be_bytes(n)
    }
}

/// Base-128 digits of `n`, most significant first, each with the high bit set.
pub open spec fn base128_leading(n: nat) -> Seq<u8>
    decreases n,
{
    if n == 0 {
        Seq::empty()
    } else {
        base128_leading(n / 128).push((n % 128 + 128) as u8)
    }
}

/// Base-128 encoding of a high tag number: the last digit has the high bit clear.
pub open spec fn base128(n: nat) -> Seq<u8> {
    base128_leading(n / 128).push((n % 128) as u8)
}

/// Identifier octets of a context-specific element.
pub open spec fn der_context_tag(constructed: bool, tag: nat) -> Seq<u8> {
    let form: int = if constructed { 0x20 } else { 0 };
    if tag < 31 {
        seq![(0x80 + form + tag) as u8]
    } else {
        seq![(0x80 + form + 0x1f) as u8] + base128(tag)
    }
}

/// DER encoding of a context-specific element with the given content.
pub open spec fn der_context(constructed: bool, tag: nat, content: Seq<u8>) -> Seq<u8> {
    der_context_tag(constructed, tag) + der_length(content.len()) + content
}

/// DER encoding of a block.
pub open spec fn der_block(b: AsnBlock) -> Seq<u8>
    decreases b,
{
    match b {
        AsnBlock::Unknown { constructed, tag, content } => der_context(
            constructed,
            tag as nat,
            content@,
        ),
        AsnBlock::Sequence { items } => {
            let body = der_concat(items@);
            seq![0x30u8] + der_length(body.len()) + body
        },
    }
}

/// Concatenation of the DER encodings of a sequence of blocks.
pub open spec fn der_concat(items: Seq<AsnBlock>) -> Seq<u8>
    decreases items,
{
    if items.len() == 0 {
        Seq::empty()
    } else {
        der_concat(items.subrange(0, items.len() - 1)) + der_block(items[items.len() - 1])
    }
}

/// Magnitude bytes of a non-negative integer: minimal big-endian, `[0]` for zero.
pub open spec fn magnitude_be(n: nat) -> Seq<u8> {
    if n == 0 {
        seq![0u8]
    } else {
        be_bytes(n)
    }
}

/// Two's-complement big-endian bytes of a non-negative integer.
pub open spec fn signed_be_bytes(n: nat) -> Seq<u8> {
    let m = magnitude_be(n);
    if m[0] >= 0x80 {
        seq![0u8] + m
    } else {
        m
    }
}

/// The SHA-256 digest of a byte string.
pub uninterp spec fn sha256_digest(data: Seq<u8>) -> Seq<u8>;

#[verifier::external_type_specification]
#[verifier::external_body]
pub struct ExASN1Block(ASN1Block);

/// Builds the `simple_asn1` block that `block` stands for, variant for
/// variant: `Unknown` in context-specific class at offset 0, and `Sequence`
/// at offset 0 with each item converted the same way.
#[verifier::external_body]
fn asn1_block_of(block: &AsnBlock) -> ASN1Block {
    match block {
        AsnBlock::Unknown { constructed, tag, content } => ASN1Block::Unknown(
            ASN1Class::ContextSpecific,
            *constructed,
            0,
            BigUint::from_usize(*tag).unwrap(),
            content.clone(),
        ),
        AsnBlock::Sequence { items } => ASN1Block::Sequence(0, items.iter().map(asn1_block_of).collect()),
    }
}

/// `simple_asn1::to_der`: the DER encoding of the block. For these two
/// variants `to_der` never fails; its source writes identifier, length and
/// content octets exactly as `der_block` states.
#[verifier::external_body]
pub fn encode_asn(asn: &AsnBlock) -> (r: Vec<u8>)
    ensures
        r@ == der_block(*asn),
{
    to_der(&asn1_block_of(asn)).expect("ASN encoding broke")
}

/// `BigInt::from_u64(n).to_signed_bytes_be()` of `num_bigint`: the
/// two's-complement big-endian form of `n`, as its source computes it.
#[verifier::external_body]
pub(crate) fn signed_bytes_be(n: u64) -> (r: Vec<u8>)
    ensures
        r@ == signed_be_bytes(n as nat),
{
    BigInt::from_u64(n).unwrap().to_signed_bytes_be()
}

/// SHA-256 of `buf` through `sha2::Sha256`: the digest is named, and is 32 bytes long.
#[verifier::external_body]
pub fn sha256(buf: Vec<u8>) -> (r: Vec<u8>)
    ensures
        r@ == sha256_digest(buf@),
        r@.len() == 32,
{
    let mut hasher = sha2::Sha256::new();
    hasher.input(buf);
    (*hasher.result()).to_vec()
}


/// Whether bit `i` of a bit string is set, bit 0 being the most significant
/// bit of the first byte.
pub open spec fn bit_set(bits: Seq<u8>, i: int) -> bool {
    bits[i / 8] & (1u8 << ((7 - i % 8) as u8)) != 0
}

/// The largest element of `s` below `n`, or 0 if there is none.
pub open spec fn max_below(s: Set<u8>, n: nat) -> u8
    decreases n,
{
    if n == 0 {
        0
    } else if s.contains((n - 1) as u8) {
        (n - 1) as u8
    } else {
        max_below(s, (n - 1) as nat)
    }
}

/// The largest element of a set of bytes, 0 for the empty set.
pub open spec fn set_max(s: Set<u8>) -> u8 {
    max_below(s, 256)
}

/// `r` is the packed form of `s`: a first byte counting the unused bits of
/// the last byte, then the bits of ids `0 ..= max` in as few bytes as hold them.
pub open spec fn is_packed_set(r: Seq<u8>, s: Set<u8>) -> bool {
    let m = set_max(s);
    &&& r.len() == 2 + m / 8
    &&& r[0] == 7 - m % 8
    &&& forall|i: int| 0 <= i < 8 * (r.len() - 1) ==> (bit_set(r.drop_first(), i) <==> s.contains(i as u8))
}

/// The set a packed bit array stands for: every position `i` whose bit is
/// set after the first byte, taken as a byte (`i` modulo 256).
pub open spec fn unpacked_set(buf: Seq<u8>) -> Set<u8> {
    Set::new(
        |x: u8|
            exists|i: int|
                0 <= i < 8 * (buf.len() - 1) && i % 256 == x && #[trigger] bit_set(buf.drop_first(), i),
    )
}

proof fn lemma_max_below(s: Set<u8>, m: u8, n: nat)
    requires
        s.contains(m),
        m < n <= 256,
        forall|x: u8| s.contains(x) ==> x <= m,
    ensures
        max_below(s, n) == m,
    decreases n,
{
    if n - 1 != m {
        assert(!s.contains((n - 1) as u8));
        lemma_max_below(s, m, (n - 1) as nat);
    }
}

proof fn lemma_max_below_empty(s: Set<u8>, n: nat)
    requires
        n <= 256,
        forall|x: u8| !s.contains(x),
    ensures
        max_below(s, n) == 0,
    decreases n,
{
    if n > 0 {
        lemma_max_below_empty(s, (n - 1) as nat);
    }
}

proof fn lemma_or_bit(b: u8, k: u8, k2: u8)
    requires
        k < 8,
        k2 < 8,
    ensures
        ((b | (1u8 << (7 - k) as u8)) & (1u8 << (7 - k2) as u8) != 0) <==> ((b & (1u8 << (7 - k2) as u8) != 0) || k == k2),
{
    assert(k < 8 && k2 < 8 ==> (((b | (1u8 << (7 - k) as u8)) & (1u8 << (7 - k2) as u8) != 0) <==> ((b & (1u8 << (7 - k2) as u8) != 0) || k == k2))) by (bit_vector);
}

proof fn lemma_zero_bits(k: u8)
    requires
        k < 8,
    ensures
        (0u8 & (1u8 << (7 - k) as u8)) == 0,
{
    assert(k < 8 ==> (0u8 & (1u8 << (7 - k) as u8)) == 0) by (bit_vector);
}

/// Packs a set of type ids into a bit array: a leading byte with the number
/// of unused bits in the last byte, then one bit per id up to the largest.
pub fn pack_set(items: HashSet<u8>) -> (r: Vec<u8>)
    requires
        forall|i: u8| items@.contains(i) ==> i < 32,
    ensures
        is_packed_set(r@, items@),
{
    let mut buf: Vec<u8> = vec![0, 0, 0, 0];
    let mut max_id: u8 = 0;
    proof {
        assert forall|p: int| 0 <= p < 32 implies !bit_set(buf@, p) by {
            lemma_zero_bits((p % 8) as u8);
        }
    }
    let ghost mut seen: Set<u8> = Set::empty();
    for i in it: items.iter()
        invariant
            forall|i: u8| items@.contains(i) ==> i < 32,
            it.seq().unref().to_set() == items@,
            seen == it.seq().unref().take(it.index()).to_set(),
            it.index() == it.seq().len() ==> seen == items@,
            buf@.len() == 4,
            forall|p: int| 0 <= p < 32 ==> (bit_set(buf@, p) <==> seen.contains(p as u8)),
            seen.len() == 0 ==> max_id == 0,
            seen.len() > 0 ==> seen.contains(max_id),
            forall|x: u8| seen.contains(x) ==> x <= max_id,
            seen.finite(),
    {
        let ghost prefix = it.seq().unref().take(it.index());
        let ghost prefix2 = it.seq().unref().take(it.index() + 1);
        let id: u8 = *i;
        assert(prefix2 =~= prefix.push(id));
        assert(prefix2.to_set() =~= seen.insert(id)) by {
            prefix.lemma_push_to_set_commute(id);
        }
        assert(it.seq().unref().to_set().contains(id)) by {
            assert(it.seq().unref()[it.index()] == id);
        }
        assert(id < 32);
        if id > max_id {
            max_id = id;
        }
        let idx: usize = (id >> 3) as usize;
        assert(idx == id / 8) by (bit_vector)
            requires
                idx == (id >> 3) as usize,
        ;
        let old_byte: u8 = buf[idx];
        let ghost old_buf = buf@;
        buf.set(idx, old_byte | (1u8 << (7 - id % 8)));
        proof {
            let new_seen = seen.insert(id);
            assert forall|p: int| 0 <= p < 32 implies (bit_set(buf@, p) <==> new_seen.contains(
                p as u8,
            )) by {
                assert(bit_set(old_buf, p) <==> seen.contains(p as u8));
                if p / 8 == idx {
                    let k2: u8 = (p % 8) as u8;
                    lemma_or_bit(old_byte, id % 8, k2);
                    assert(buf@[p / 8] == old_byte | (1u8 << (7 - id % 8) as u8));
                    assert(bit_set(buf@, p) <==> (bit_set(old_buf, p) || id % 8 == p % 8));
                    assert((id % 8 == p % 8) <==> (id == p));
                } else {
                    assert(buf@[p / 8] == old_buf[p / 8]);
                    assert(id != p);
                }
            }
            seen = new_seen;
        }
        assert(it.index() + 1 == it.seq().len() ==> prefix2 =~= it.seq().unref());
    }
    assert(seen == items@);
    proof {
        if items@.len() == 0 {
            lemma_max_below_empty(items@, 256);
        } else {
            lemma_max_below(items@, max_id, 256);
        }
    }
    let ghost full = buf@;
    buf.truncate(1 + (max_id >> 3) as usize);
    buf.insert(0, 7 - max_id % 8);
    proof {
        assert((max_id >> 3) == max_id / 8) by (bit_vector);
        assert(buf@.drop_first() =~= full.take(1 + max_id / 8));
        assert forall|i: int| 0 <= i < 8 * (buf@.len() - 1) implies (bit_set(buf@.drop_first(), i) <==> items@.contains(i as u8)) by {
            assert(i < 32);
            assert(buf@.drop_first()[i / 8] == full[i / 8]);
            assert(bit_set(full, i) <==> seen.contains(i as u8));
        }
    }
    buf
}


/// Reads a packed bit array back into a set: every set bit after the first
/// byte names its position, taken as a byte.
pub fn unpack_set(buf_: Vec<u8>) -> (r: HashSet<u8>)
    requires
        buf_@.len() == 0 || (buf_@.len() - 1) * 8 <= usize::MAX,
    ensures
        r@ == unpacked_set(buf_@),
{
    let mut set: HashSet<u8> = HashSet::new();
    let n: usize = if buf_.len() == 0 {
        0
    } else {
        buf_.len() - 1
    };
    let ghost bits = buf_@.drop_first();
    for i in 0..(n * 8)
        invariant
            n * 8 <= usize::MAX,
            n == buf_@.len() - 1 || (n == 0 && buf_@.len() == 0),
            bits == buf_@.drop_first(),
            set@ == Set::new(
                |x: u8| exists|j: int| 0 <= j < i && j % 256 == x && #[trigger] bit_set(bits, j),
            ),
    {
        let ghost before = set@;
        assert((i >> 3) == i / 8) by (bit_vector);
        let byte: u8 = buf_[1 + (i >> 3)];
        let k: u8 = (i % 8) as u8;
        assert(byte == bits[(i / 8) as int]);
        let hit = byte & (1u8 << (7 - k)) != 0;
        assert(hit == bit_set(bits, i as int));
        if hit {
            let x: u8 = #[verifier::truncate] (i as u8);
            assert(x == i % 256) by (bit_vector)
                requires
                    x == i as u8,
            ;
            set.insert(x);
        }
        proof {
            let next = Set::new(
                |x: u8| exists|j: int| 0 <= j < i + 1 && j % 256 == x && #[trigger] bit_set(bits, j),
            );
            assert forall|x: u8| next.contains(x) implies set@.contains(x) by {
                let j = choose|j: int| 0 <= j < i + 1 && j % 256 == x && #[trigger] bit_set(bits, j);
                if j < i {
                    assert(before.contains(x));
                }
            }
            assert forall|x: u8| set@.contains(x) implies next.contains(x) by {
                if before.contains(x) {
                    let j = choose|j: int| 0 <= j < i && j % 256 == x && #[trigger] bit_set(bits, j);
                    assert(0 <= j < i + 1 && j % 256 == x && bit_set(bits, j));
                } else {
                    assert(bit_set(bits, i as int));
                }
            }
            assert(set@ =~= next);
        }
    }
    assert(set@ =~= unpacked_set(buf_@));
    set
}

proof fn lemma_bit_of_byte(x: u8, k: u8)
    requires
        k < 8,
    ensures
        (x & (1u8 << k) != 0) <==> ((x >> k) & 1u8 == 1u8),
{
    assert(k < 8 ==> ((x & (1u8 << k) != 0) <==> ((x >> k) & 1u8 == 1u8))) by (bit_vector);
}

/// The set a short bit string unpacks to holds exactly the positions of its
/// set bits.
proof fn lemma_unpacked_short(b: Seq<u8>)
    requires
        1 <= b.len() <= 5,
    ensures
        forall|i: int|
            0 <= i < 8 * (b.len() - 1) ==> (bit_set(b.drop_first(), i) <==> #[trigger] unpacked_set(
                b,
            ).contains(i as u8)),
        forall|y: u8|
            #[trigger] unpacked_set(b).contains(y) ==> y < 8 * (b.len() - 1) && bit_set(b.drop_first(), y as int),
{
    let bits = b.drop_first();
    let s = unpacked_set(b);
    let n = 8 * (b.len() - 1);
    assert forall|y: u8| #[trigger] s.contains(y) implies y < n && bit_set(bits, y as int) by {
        let j = choose|j: int| 0 <= j < n && j % 256 == y && #[trigger] bit_set(bits, j);
        assert(j < 256);
        assert(j % 256 == j);
    }
    assert forall|i: int| 0 <= i < n && #[trigger] bit_set(bits, i) implies s.contains(i as u8) by {
        assert(i < 256);
        assert(i % 256 == i);
        assert(i % 256 == i as u8);
    }
}

/// In a packed set the id `i` is bit `7 - i % 8` (counting from the least
/// significant) of byte `1 + i / 8`: ids run from the most significant bit of
/// the second byte on.
pub proof fn lemma_packed_bit_positions(r: Seq<u8>, s: Set<u8>)
    requires
        is_packed_set(r, s),
    ensures
        forall|i: u8|
            i < 8 * (r.len() - 1) ==> (#[trigger] s.contains(i) <==> (r[1 + i / 8] >> ((7 - i % 8) as u8))
                & 1u8 == 1u8),
{
    assert forall|i: u8| i < 8 * (r.len() - 1) implies (#[trigger] s.contains(i) <==> (r[1 + i / 8] >> ((7
        - i % 8) as u8)) & 1u8 == 1u8) by {
        assert(bit_set(r.drop_first(), i as int) <==> s.contains(i as int as u8));
        assert(r.drop_first()[i as int / 8] == r[1 + i / 8]);
        lemma_bit_of_byte(r[1 + i / 8], (7 - i % 8) as u8);
    }
}

/// A minimal bit string (two to five bytes, a last byte that is not zero,
/// and a first byte that counts the last byte's trailing zero bits, which
/// are its unused bits) unpacks to ids below 32 and is the packed form of
/// the set they make: packing what it unpacks to gives it back.
pub proof fn lemma_unpack_then_pack(b: Seq<u8>)
    requires
        2 <= b.len() <= 5,
        b[b.len() - 1] != 0,
        b[0] as u32 == b[b.len() - 1].trailing_zeros(),
    ensures
        forall|y: u8| unpacked_set(b).contains(y) ==> y < 32,
        is_packed_set(b, unpacked_set(b)),
        packed_set(unpacked_set(b)) == b,
{
    let len = b.len() as int;
    let bits = b.drop_first();
    let x = b[len - 1];
    let t = b[0];
    let s = unpacked_set(b);
    lemma_unpacked_short(b);
    assert(t < 8) by {
        vstd::std_specs::bits::axiom_u8_trailing_zeros(x);
    }
    let m: int = 8 * (len - 2) + 7 - t;
    assert(s.contains(m as u8)) by {
        vstd::std_specs::bits::axiom_u8_trailing_zeros(x);
        assert(m / 8 == len - 2);
        assert(m % 8 == 7 - t);
        assert(bits[m / 8] == x);
        lemma_bit_of_byte(x, t);
        assert(bit_set(bits, m));
    }
    assert forall|y: u8| s.contains(y) implies y <= m by {
        if y > m {
            vstd::std_specs::bits::axiom_u8_trailing_zeros(x);
            let k = (7 - y % 8) as u8;
            assert(y / 8 == len - 2);
            assert(bits[y as int / 8] == x);
            assert(k < t);
            lemma_bit_of_byte(x, k);
            assert((x >> k) & 1u8 == 0u8);
        }
    }
    lemma_max_below(s, m as u8, 256);
    assert(m / 8 == len - 2 && m % 8 == 7 - t);
    lemma_packed_set_unique(b, s);
}

proof fn lemma_max_below_bound(s: Set<u8>, x: u8, n: nat)
    requires
        s.contains(x),
        x < n <= 256,
    ensures
        x <= max_below(s, n),
    decreases n,
{
    if n - 1 != x && !s.contains((n - 1) as u8) {
        lemma_max_below_bound(s, x, (n - 1) as nat);
    }
}

proof fn lemma_max_below_member(s: Set<u8>, n: nat)
    requires
        n <= 256,
    ensures
        max_below(s, n) == 0 || s.contains(max_below(s, n)),
    decreases n,
{
    if n > 0 {
        lemma_max_below_member(s, (n - 1) as nat);
    }
}

/// Unpacking a packed set of ids below 32 gives the set back.
pub proof fn lemma_unpack_pack(s: Set<u8>, r: Seq<u8>)
    requires
        forall|x: u8| s.contains(x) ==> x < 32,
        is_packed_set(r, s),
    ensures
        unpacked_set(r) == s,
{
    let m = set_max(s);
    assert(m < 32) by {
        lemma_max_below_member(s, 256);
    }
    assert forall|x: u8| unpacked_set(r).contains(x) implies s.contains(x) by {
        let i = choose|i: int|
            0 <= i < 8 * (r.len() - 1) && i % 256 == x && #[trigger] bit_set(r.drop_first(), i);
        assert(i < 256);
    }
    assert forall|x: u8| s.contains(x) implies unpacked_set(r).contains(x) by {
        lemma_max_below_bound(s, x, 256);
        assert(bit_set(r.drop_first(), x as int));
    }
    assert(unpacked_set(r) =~= s);
}


/// `b` is a context-specific element with these fields.
pub open spec fn is_element(b: AsnBlock, constructed: bool, tag: int, content: Seq<u8>) -> bool {
    &&& b matches AsnBlock::Unknown { constructed: c, tag: t, content: v }
    &&& c == constructed
    &&& t == tag
    &&& v@ == content
}

/// Appending a block appends its encoding.
pub proof fn lemma_der_concat_push(s: Seq<AsnBlock>, b: AsnBlock)
    ensures
        der_concat(s.push(b)) == der_concat(s) + der_block(b),
{
    assert(s.push(b).subrange(0, s.len() as int) =~= s);
}

/// The encoding of a one-block sequence is the block's encoding.
pub proof fn lemma_der_concat_one(b: AsnBlock)
    ensures
        der_concat(seq![b]) == der_block(b),
{
    lemma_der_concat_push(Seq::empty(), b);
    assert(Seq::<AsnBlock>::empty().push(b) =~= seq![b]);
    assert(der_concat(Seq::<AsnBlock>::empty()) =~= Seq::<u8>::empty());
    assert(Seq::<u8>::empty() + der_block(b) =~= der_block(b));
}

/// A primitive or constructed context-specific element with the given content.
pub fn asn_unknown(construct: bool, tag: usize, vec: Vec<u8>) -> (r: AsnBlock)
    ensures
        r == (AsnBlock::Unknown { constructed: construct, tag, content: vec }),
{
    AsnBlock::Unknown { constructed: construct, tag, content: vec }
}

/// Each byte string as a primitive element tagged with its position.
pub fn asn_data(vecs: &Vec<Vec<u8>>) -> (r: Vec<AsnBlock>)
    ensures
        r@.len() == vecs@.len(),
        forall|i: int| 0 <= i < r@.len() ==> is_element(#[trigger] r@[i], false, i, vecs@[i]@),
{
    let mut out: Vec<AsnBlock> = Vec::new();
    for i in 0..vecs.len()
        invariant
            out@.len() == i,
            forall|j: int| 0 <= j < i ==> is_element(#[trigger] out@[j], false, j, vecs@[j]@),
    {
        let v: Vec<u8> = vecs[i].clone();
        assert(v@ =~= vecs@[i as int]@);
        out.push(asn_unknown(false, i, v));
    }
    out
}

/// The encodings of the blocks, one after the other.
fn asns_to_vec(asns: &Vec<AsnBlock>) -> (r: Vec<u8>)
    ensures
        r@ == der_concat(asns@),
{
    let mut body: Vec<u8> = Vec::new();
    for i in 0..asns.len()
        invariant
            body@ == der_concat(asns@.subrange(0, i as int)),
    {
        let mut bytes = encode_asn(&asns[i]);
        proof {
            lemma_der_concat_push(asns@.subrange(0, i as int), asns@[i as int]);
            assert(asns@.subrange(0, i as int).push(asns@[i as int]) =~= asns@.subrange(
                0,
                i + 1,
            ));
        }
        body.append(&mut bytes);
    }
    assert(asns@.subrange(0, asns@.len() as int) =~= asns@);
    body
}

/// A constructed element tagged `type_id` whose content is the encodings of `children`.
pub fn asn_choice(type_id: u8, children: &Vec<AsnBlock>) -> (r: AsnBlock)
    ensures
        is_element(r, true, type_id as int, der_concat(children@)),
{
    asn_unknown(true, type_id as usize, asns_to_vec(children))
}

/// A SEQUENCE of the given blocks.
pub fn asn_sequence(children: Vec<AsnBlock>) -> (r: AsnBlock)
    ensures
        r == (AsnBlock::Sequence { items: children }),
{
    AsnBlock::Sequence { items: children }
}

/// The SHA-256 digest of the block's encoding.
pub fn hash_asn(asn: &AsnBlock) -> (r: Vec<u8>)
    ensures
        r@ == sha256_digest(der_block(*asn)),
        r@.len() == 32,
{
    sha256(encode_asn(asn))
}


/// The packed form of a set of ids.
pub open spec fn packed_set(s: Set<u8>) -> Seq<u8> {
    choose|r: Seq<u8>| is_packed_set(r, s)
}

proof fn lemma_byte_from_bits(a: u8, b: u8)
    requires
        (a & (1u8 << 7u8) != 0) == (b & (1u8 << 7u8) != 0),
        (a & (1u8 << 6u8) != 0) == (b & (1u8 << 6u8) != 0),
        (a & (1u8 << 5u8) != 0) == (b & (1u8 << 5u8) != 0),
        (a & (1u8 << 4u8) != 0) == (b & (1u8 << 4u8) != 0),
        (a & (1u8 << 3u8) != 0) == (b & (1u8 << 3u8) != 0),
        (a & (1u8 << 2u8) != 0) == (b & (1u8 << 2u8) != 0),
        (a & (1u8 << 1u8) != 0) == (b & (1u8 << 1u8) != 0),
        (a & (1u8 << 0u8) != 0) == (b & (1u8 << 0u8) != 0),
    ensures
        a == b,
{
    assert(a == b) by (bit_vector)
        requires
            (a & (1u8 << 7u8) != 0) == (b & (1u8 << 7u8) != 0),
            (a & (1u8 << 6u8) != 0) == (b & (1u8 << 6u8) != 0),
            (a & (1u8 << 5u8) != 0) == (b & (1u8 << 5u8) != 0),
            (a & (1u8 << 4u8) != 0) == (b & (1u8 << 4u8) != 0),
            (a & (1u8 << 3u8) != 0) == (b & (1u8 << 3u8) != 0),
            (a & (1u8 << 2u8) != 0) == (b & (1u8 << 2u8) != 0),
            (a & (1u8 << 1u8) != 0) == (b & (1u8 << 1u8) != 0),
            (a & (1u8 << 0u8) != 0) == (b & (1u8 << 0u8) != 0),
    ;
}

/// A set has exactly one packed form.
pub proof fn lemma_packed_set_unique(r: Seq<u8>, s: Set<u8>)
    requires
        is_packed_set(r, s),
    ensures
        packed_set(s) == r,
{
    let q = packed_set(s);
    assert(is_packed_set(q, s));
    assert forall|j: int| 0 <= j < r.len() implies q[j] == r[j] by {
        if j > 0 {
            let a = q.drop_first()[j - 1];
            let b = r.drop_first()[j - 1];
            assert(bit_set(q.drop_first(), 8 * (j - 1) + 0) == bit_set(r.drop_first(), 8 * (j - 1) + 0));
            assert(bit_set(q.drop_first(), 8 * (j - 1) + 1) == bit_set(r.drop_first(), 8 * (j - 1) + 1));
            assert(bit_set(q.drop_first(), 8 * (j - 1) + 2) == bit_set(r.drop_first(), 8 * (j - 1) + 2));
            assert(bit_set(q.drop_first(), 8 * (j - 1) + 3) == bit_set(r.drop_first(), 8 * (j - 1) + 3));
            assert(bit_set(q.drop_first(), 8 * (j - 1) + 4) == bit_set(r.drop_first(), 8 * (j - 1) + 4));
            assert(bit_set(q.drop_first(), 8 * (j - 1) + 5) == bit_set(r.drop_first(), 8 * (j - 1) + 5));
            assert(bit_set(q.drop_first(), 8 * (j - 1) + 6) == bit_set(r.drop_first(), 8 * (j - 1) + 6));
            assert(bit_set(q.drop_first(), 8 * (j - 1) + 7) == bit_set(r.drop_first(), 8 * (j - 1) + 7));
            lemma_byte_from_bits(a, b);
        }
    }
    assert(q =~= r);
}

/// Concatenation of byte strings.
pub open spec fn concat_all(s: Seq<Seq<u8>>) -> Seq<u8>
    decreases s.len(),
{
    if s.len() == 0 {
        Seq::empty()
    } else {
        concat_all(s.drop_last()) + s.last()
    }
}

/// The encodings of the blocks.
pub open spec fn encodings(s: Seq<AsnBlock>) -> Seq<Seq<u8>> {
    s.map_values(|b: AsnBlock| der_block(b))
}

/// Encoding blocks one after the other is concatenating their encodings.
pub proof fn lemma_der_concat_is_concat(s: Seq<AsnBlock>)
    ensures
        der_concat(s) == concat_all(encodings(s)),
    decreases s.len(),
{
    if s.len() > 0 {
        lemma_der_concat_is_concat(s.subrange(0, s.len() - 1));
        assert(encodings(s).drop_last() =~= encodings(s.subrange(0, s.len() - 1)));
    }
}

/// Primitive elements tagged by position, encoded one after the other.
pub open spec fn data_concat(parts: Seq<Seq<u8>>) -> Seq<u8>
    decreases parts.len(),
{
    if parts.len() == 0 {
        Seq::empty()
    } else {
        data_concat(parts.drop_last()) + der_context(false, (parts.len() - 1) as nat, parts.last())
    }
}

/// One primitive element tagged 0.
pub proof fn lemma_data_concat_one(a: Seq<u8>)
    ensures
        data_concat(seq![a]) == der_context(false, 0, a),
{
    assert(seq![a].drop_last() =~= Seq::<Seq<u8>>::empty());
    assert(data_concat(Seq::<Seq<u8>>::empty()) =~= Seq::<u8>::empty());
    assert(Seq::<u8>::empty() + der_context(false, 0, a) =~= der_context(false, 0, a));
}

/// What `asn_data` returns encodes as `data_concat`.
pub proof fn lemma_der_concat_data(blocks: Seq<AsnBlock>, parts: Seq<Seq<u8>>)
    requires
        blocks.len() == parts.len(),
        forall|i: int| 0 <= i < blocks.len() ==> is_element(#[trigger] blocks[i], false, i, parts[i]),
    ensures
        der_concat(blocks) == data_concat(parts),
    decreases blocks.len(),
{
    if blocks.len() > 0 {
        let n = blocks.len() - 1;
        assert forall|i: int| 0 <= i < n implies is_element(
            #[trigger] blocks.subrange(0, n)[i],
            false,
            i,
            parts.drop_last()[i],
        ) by {
            assert(is_element(blocks[i], false, i, parts[i]));
        }
        lemma_der_concat_data(blocks.subrange(0, n), parts.drop_last());
        assert(is_element(blocks[n], false, n, parts[n]));
        assert(der_block(blocks[n]) == der_context(false, n as nat, parts[n]));
        assert(der_concat(blocks) == der_concat(blocks.subrange(0, n)) + der_block(blocks[n]));
        assert(data_concat(parts) == data_concat(parts.drop_last()) + der_context(false, n as nat, parts.last()));
    } else {
        assert(der_concat(blocks) == Seq::<u8>::empty());
        assert(data_concat(parts) == Seq::<u8>::empty());
    }
}

/// DER encoding of a SEQUENCE with the given content octets.
pub open spec fn der_sequence_of(body: Seq<u8>) -> Seq<u8> {
    seq![0x30u8] + der_length(body.len()) + body
}


/// A copy of a block, encoding to the same bytes.
pub fn copy_block(b: &AsnBlock) -> (r: AsnBlock)
    ensures
        der_block(r) == der_block(*b),
    decreases b,
{
    match b {
        AsnBlock::Unknown { constructed, tag, content } => {
            let c = content.clone();
            assert(c@ =~= content@);
            AsnBlock::Unknown { constructed: *constructed, tag: *tag, content: c }
        },
        AsnBlock::Sequence { items } => {
            let mut out: Vec<AsnBlock> = Vec::new();
            for i in 0..items.len()
                invariant
                    *b == (AsnBlock::Sequence { items: *items }),
                    out@.len() == i,
                    forall|j: int| 0 <= j < i ==> der_block(#[trigger] out@[j]) == der_block(items@[j]),
            {
                assert(decreases_to!(*b => (*b)->items));
                assert(decreases_to!(*items => items@));
                assert(decreases_to!(items@ => items@[i as int]));
                out.push(copy_block(&items[i]));
            }
            proof {
                lemma_der_concat_is_concat(out@);
                lemma_der_concat_is_concat(items@);
                assert(encodings(out@) =~= encodings(items@));
            }
            AsnBlock::Sequence { items: out }
        },
    }
}

} // verus!
