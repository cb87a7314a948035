//! Conditions, their types, costs, subtype sets, fingerprints and DER
//! encodings as condition and as fulfillment.

use vstd::prelude::*;
use std::collections::HashSet;
use crate::internal::{
    AsnBlock, asn_choice, asn_data, concat_all, copy_block, data_concat, der_block, der_concat,
    der_context, der_sequence_of, encode_asn, encodings, hash_asn, pack_set, packed_set, sha256,
    sha256_digest, signed_be_bytes, signed_bytes_be, lemma_data_concat_one, lemma_der_concat_data,
    lemma_der_concat_is_concat, lemma_der_concat_one, lemma_der_concat_push, lemma_packed_set_unique,
};
use crate::order::{
    descending, ints, sort_descending, sort_triples, triple_order, triples, x690_before, x690_order,
    lemma_insert_sorted, lemma_is_sort_by, lemma_triple_total_ordering, lemma_x690_total_ordering,
};
use vstd::relations::{sorted_by, total_ordering};
use crate::secp::{PublicKey, Signature, SecretKey, Message, SecpError, public_key_of_secret, signature_of};

verus! {

/// The kinds of condition.
#[derive(Clone, Copy, PartialEq, Eq, Debug, Structural)]
pub enum ConditionType {
    PreimageType,
    ThresholdType,
    Secp256k1Type,
    EvalType,
}

impl ConditionType {
    /// The type's number in encodings.
    pub open spec fn spec_id(self) -> u8 {
        match self {
            ConditionType::PreimageType => 0,
            ConditionType::ThresholdType => 2,
            ConditionType::Secp256k1Type => 5,
            ConditionType::EvalType => 15,
        }
    }

    /// The type's name.
    pub open spec fn spec_name(self) -> Seq<char> {
        match self {
            ConditionType::PreimageType => "preimage-sha-256"@,
            ConditionType::ThresholdType => "threshold-sha-256"@,
            ConditionType::Secp256k1Type => "secp256k1-sha-256"@,
            ConditionType::EvalType => "eval-sha-256"@,
        }
    }

    /// The type's number in encodings.
    pub fn id(&self) -> (r: u8)
        ensures
            r == self.spec_id(),
    {
        match self {
            ConditionType::PreimageType => 0,
            ConditionType::ThresholdType => 2,
            ConditionType::Secp256k1Type => 5,
            ConditionType::EvalType => 15,
        }
    }

    /// The type's name.
    pub fn name(&self) -> (r: String)
        ensures
            r@ == self.spec_name(),
    {
        match self {
            ConditionType::PreimageType => "preimage-sha-256".to_string(),
            ConditionType::ThresholdType => "threshold-sha-256".to_string(),
            ConditionType::Secp256k1Type => "secp256k1-sha-256".to_string(),
            ConditionType::EvalType => "eval-sha-256".to_string(),
        }
    }

    /// Only threshold conditions carry a set of subtypes.
    pub fn has_subtypes(&self) -> (r: bool)
        ensures
            r == (*self == ConditionType::ThresholdType),
    {
        *self == ConditionType::ThresholdType
    }
}

/// A crypto-condition.
#[derive(PartialEq, Debug)]
pub enum Condition {
    /// Fulfilled when `threshold` of the subconditions are.
    Threshold { threshold: u16, subconditions: Vec<Condition> },
    /// Fulfilled by the preimage of the fingerprint under SHA-256.
    Preimage { preimage: Vec<u8> },
    /// Fulfilled by a signature with the key.
    Secp256k1 { pubkey: PublicKey, signature: Option<Signature> },
    /// Fulfilled by the evaluation of code.
    Eval { code: Vec<u8> },
    /// A condition known only by its type, fingerprint, cost and subtypes.
    Anon { cond_type: ConditionType, fingerprint: Vec<u8>, cost: u64, subtypes: HashSet<u8> },
}

/// The type of a condition.
pub open spec fn spec_type(c: Condition) -> ConditionType {
    match c {
        Condition::Preimage { .. } => ConditionType::PreimageType,
        Condition::Threshold { .. } => ConditionType::ThresholdType,
        Condition::Secp256k1 { .. } => ConditionType::Secp256k1Type,
        Condition::Eval { .. } => ConditionType::EvalType,
        Condition::Anon { cond_type, .. } => cond_type,
    }
}

/// Whether a condition's encoding carries its subtypes.
pub open spec fn spec_has_subtypes(c: Condition) -> bool {
    spec_type(c) == ConditionType::ThresholdType
}

/// The types used below a condition, its own excluded for a threshold.
pub open spec fn spec_subtypes(c: Condition) -> Set<u8>
    decreases c,
{
    match c {
        Condition::Threshold { subconditions, .. } => subtypes_of_all(subconditions@).remove(
            ConditionType::ThresholdType.spec_id(),
        ),
        Condition::Anon { subtypes, .. } => subtypes@,
        _ => Set::empty(),
    }
}

/// The types of the conditions and those used below them.
pub open spec fn subtypes_of_all(s: Seq<Condition>) -> Set<u8>
    decreases s,
{
    if s.len() == 0 {
        Set::empty()
    } else {
        let last = s[s.len() - 1];
        subtypes_of_all(s.subrange(0, s.len() - 1)).insert(spec_type(last).spec_id()).union(
            spec_subtypes(last),
        )
    }
}

/// Sum of a sequence.
pub open spec fn sum_of(s: Seq<int>) -> int
    decreases s.len(),
{
    if s.len() == 0 {
        0
    } else {
        sum_of(s.drop_last()) + s.last()
    }
}

/// The sum of the `k` largest values (of all, where there are fewer).
pub open spec fn top_sum(costs: Seq<int>, k: int) -> int {
    let n = if k < costs.len() {
        k
    } else {
        costs.len() as int
    };
    sum_of(costs.sort_by(descending()).take(n))
}

/// The cost of a condition.
pub open spec fn spec_cost(c: Condition) -> int
    decreases c,
{
    match c {
        Condition::Preimage { preimage } => preimage@.len() as int,
        Condition::Secp256k1 { .. } => 131072,
        Condition::Eval { .. } => 1048576,
        Condition::Anon { cost, .. } => cost as int,
        Condition::Threshold { threshold, subconditions } => top_sum(
            costs_of(subconditions@),
            threshold as int,
        ) + 1024 * subconditions@.len(),
    }
}

/// The costs of the conditions.
pub open spec fn costs_of(s: Seq<Condition>) -> Seq<int>
    decreases s,
{
    if s.len() == 0 {
        Seq::empty()
    } else {
        costs_of(s.subrange(0, s.len() - 1)).push(spec_cost(s[s.len() - 1]))
    }
}

/// Every cost computed for the condition, its own and those below it, fits in a `u64`.
pub open spec fn cost_in_range(c: Condition) -> bool
    decreases c,
{
    &&& spec_cost(c) <= u64::MAX
    &&& c matches Condition::Threshold { subconditions, .. } ==> forall|i: int|
        0 <= i < subconditions@.len() ==> cost_in_range(#[trigger] subconditions@[i])
}



/// The fingerprint of a condition: a SHA-256 digest of its defining
/// content, or the stored fingerprint of an anonymous condition.
pub open spec fn spec_fingerprint(c: Condition) -> Seq<u8>
    decreases c, 1int,
{
    match c {
        Condition::Secp256k1 { pubkey, .. } => sha256_digest(
            der_sequence_of(der_context(false, 0, pubkey@)),
        ),
        Condition::Eval { code } => sha256_digest(code@),
        Condition::Preimage { preimage } => sha256_digest(preimage@),
        Condition::Threshold { threshold, subconditions } => sha256_digest(
            der_sequence_of(
                der_context(false, 0, signed_be_bytes(threshold as nat)) + der_context(
                    true,
                    1,
                    concat_all(condition_encodings(subconditions@).sort_by(x690_order())),
                ),
            ),
        ),
        Condition::Anon { fingerprint, .. } => fingerprint@,
    }
}

/// The condition encodings of the conditions.
pub open spec fn condition_encodings(s: Seq<Condition>) -> Seq<Seq<u8>>
    decreases s, 0int,
{
    if s.len() == 0 {
        Seq::empty()
    } else {
        condition_encodings(s.subrange(0, s.len() - 1)).push(spec_encoding(s[s.len() - 1]))
    }
}

/// The content of a condition's encoding: fingerprint, cost and, where the
/// type carries them, the packed subtypes.
pub open spec fn condition_parts(fingerprint: Seq<u8>, cost: int, subtypes: Option<Set<u8>>) -> Seq<Seq<u8>> {
    match subtypes {
        Some(s) => seq![fingerprint, signed_be_bytes(cost as nat), packed_set(s)],
        None => seq![fingerprint, signed_be_bytes(cost as nat)],
    }
}

/// The DER encoding of a condition: an element tagged with its type id.
pub open spec fn spec_encoding(c: Condition) -> Seq<u8>
    decreases c, 2int,
{
    der_context(
        true,
        spec_type(c).spec_id() as nat,
        data_concat(
            condition_parts(
                spec_fingerprint(c),
                spec_cost(c),
                if spec_has_subtypes(c) {
                    Some(spec_subtypes(c))
                } else {
                    None
                },
            ),
        ),
    )
}

/// The subconditions of a threshold can all be encoded.
pub open spec fn fingerprint_ready(c: Condition) -> bool
    decreases c, 0int,
{
    c matches Condition::Threshold { subconditions, .. } ==> forall|i: int|
        0 <= i < subconditions@.len() ==> encodable(#[trigger] subconditions@[i])
}

/// A condition can be encoded: its costs fit in a `u64`, the subtypes it
/// carries are ids below 32, and so for the subconditions of a threshold.
pub open spec fn encodable(c: Condition) -> bool
    decreases c, 1int,
{
    &&& cost_in_range(c)
    &&& spec_has_subtypes(c) ==> forall|x: u8| spec_subtypes(c).contains(x) ==> x < 32
    &&& fingerprint_ready(c)
}


/// The sort key of a threshold's subcondition when its fulfillment is
/// encoded: fulfilled ones first and cheapest first, then the others, each
/// group in the subconditions' own order.
pub open spec fn fulfillment_key(ful: Option<Seq<u8>>, cost: int, i: int) -> (int, int, int) {
    if ful is Some {
        (0, cost, i)
    } else {
        (1, 0, i)
    }
}

/// The keys of the subconditions, sorted: their last components give the
/// order in which a threshold fulfillment takes the subconditions.
pub open spec fn fulfillment_order(s: Seq<Condition>, fuls: Seq<Option<Seq<u8>>>) -> Seq<(int, int, int)> {
    Seq::new(s.len(), |i: int| fulfillment_key(fuls[i], spec_cost(s[i]), i)).sort_by(triple_order())
}

/// The fulfillment of a threshold, given those of its subconditions: the
/// first `t` subconditions in fulfillment order must be fulfilled; their
/// fulfillments are given, and the conditions of the others.
pub open spec fn threshold_fulfillment_of(t: int, s: Seq<Condition>, fuls: Seq<Option<Seq<u8>>>) -> Option<Seq<u8>> {
    let n = s.len() as int;
    let order = fulfillment_order(s, fuls);
    if n >= t && t >= 1 && fuls[order[t - 1].2] is Some {
        Some(
            der_context(
                true,
                2,
                der_context(true, 0, concat_all(Seq::new(t as nat, |k: int| fuls[order[k].2]->0)))
                    + der_context(
                    true,
                    1,
                    concat_all(Seq::new((n - t) as nat, |k: int| spec_encoding(s[order[t + k].2]))),
                ),
            ),
        )
    } else {
        None
    }
}

/// The DER encoding of a condition's fulfillment, where it has one.
pub open spec fn spec_fulfillment(c: Condition) -> Option<Seq<u8>>
    decreases c, 1int,
{
    match c {
        Condition::Preimage { preimage } => Some(der_context(true, 0, data_concat(seq![preimage@]))),
        Condition::Secp256k1 { pubkey, signature } => match signature {
            Some(sig) => Some(der_context(true, 5, data_concat(seq![pubkey@, sig@]))),
            None => None,
        },
        Condition::Eval { code } => Some(der_context(true, 15, data_concat(seq![code@]))),
        Condition::Threshold { threshold, subconditions } => threshold_fulfillment_of(
            threshold as int,
            subconditions@,
            fulfillments_of(subconditions@),
        ),
        Condition::Anon { .. } => None,
    }
}

/// The fulfillments of the conditions.
pub open spec fn fulfillments_of(s: Seq<Condition>) -> Seq<Option<Seq<u8>>>
    decreases s, 0int,
{
    if s.len() == 0 {
        Seq::empty()
    } else {
        fulfillments_of(s.subrange(0, s.len() - 1)).push(spec_fulfillment(s[s.len() - 1]))
    }
}

/// The message of a failed fulfillment encoding.
pub open spec fn fulfillment_error(c: Condition) -> Seq<char> {
    if c is Threshold {
        "Threshold is unfulfilled"@
    } else {
        "Cannot encode fulfillment"@
    }
}

/// Every threshold below has a threshold of at least one; where a threshold
/// has two or more subconditions, so that their order has to be decided, the
/// costs of the fulfilled ones fit in a `u64`; and where a threshold is
/// fulfilled the subconditions it gives as conditions can be encoded.
pub open spec fn fulfillment_ready(c: Condition) -> bool
    decreases c,
{
    c matches Condition::Threshold { threshold, subconditions } ==> {
        let s = subconditions@;
        let fuls = fulfillments_of(s);
        let order = fulfillment_order(s, fuls);
        &&& threshold >= 1
        &&& forall|i: int| 0 <= i < s.len() ==> fulfillment_ready(#[trigger] s[i])
        &&& forall|i: int|
            0 <= i < s.len() && s.len() >= 2 && (#[trigger] fuls[i]) is Some ==> cost_in_range(s[i])
        &&& threshold_fulfillment_of(threshold as int, s, fuls) is Some ==> forall|k: int|
            threshold <= k < s.len() ==> encodable(#[trigger] s[order[k].2])
    }
}


pub(crate) proof fn lemma_fulfillments_of(s: Seq<Condition>)
    ensures
        fulfillments_of(s).len() == s.len(),
        forall|i: int| 0 <= i < s.len() ==> #[trigger] fulfillments_of(s)[i] == spec_fulfillment(s[i]),
    decreases s.len(),
{
    if s.len() > 0 {
        lemma_fulfillments_of(s.subrange(0, s.len() - 1));
    }
}

pub(crate) proof fn lemma_sorted_keys(keys: Seq<(int, int, int)>)
    ensures
        keys.sort_by(triple_order()).len() == keys.len(),
        forall|k: int|
            0 <= k < keys.len() ==> keys.contains(#[trigger] keys.sort_by(triple_order())[k]),
        vstd::relations::sorted_by(keys.sort_by(triple_order()), triple_order()),
{
    lemma_triple_total_ordering();
    keys.lemma_sort_by_ensures(triple_order());
    let sorted = keys.sort_by(triple_order());
    vstd::seq_lib::to_multiset_len(sorted);
    vstd::seq_lib::to_multiset_len(keys);
    assert forall|k: int| 0 <= k < keys.len() implies keys.contains(#[trigger] sorted[k]) by {
        vstd::seq_lib::to_multiset_contains(sorted, sorted[k]);
        vstd::seq_lib::to_multiset_contains(keys, sorted[k]);
    }
}


/// `a` and `b` hold the same values, field by field, at any depth.
pub open spec fn same_condition(a: Condition, b: Condition) -> bool
    decreases a,
{
    match a {
        Condition::Preimage { preimage } => b matches Condition::Preimage { preimage: p2 } && p2@
            == preimage@,
        Condition::Secp256k1 { pubkey, signature } => {
            &&& b matches Condition::Secp256k1 { pubkey: k2, signature: s2 }
            &&& k2@ == pubkey@
            &&& match signature {
                Some(sig) => s2 matches Some(x) && x@ == sig@,
                None => s2 is None,
            }
        },
        Condition::Eval { code } => b matches Condition::Eval { code: c2 } && c2@ == code@,
        Condition::Threshold { threshold, subconditions } => {
            &&& b matches Condition::Threshold { threshold: t2, subconditions: s2 }
            &&& t2 == threshold
            &&& s2@.len() == subconditions@.len()
            &&& forall|i: int|
                0 <= i < subconditions@.len() ==> same_condition(#[trigger] subconditions@[i], s2@[i])
        },
        Condition::Anon { cond_type, fingerprint, cost, subtypes } => {
            &&& b matches Condition::Anon { cond_type: t2, fingerprint: f2, cost: c2, subtypes: u2 }
            &&& t2 == cond_type
            &&& f2@ == fingerprint@
            &&& c2 == cost
            &&& u2@ == subtypes@
        },
    }
}

/// `a` is the anonymous form of `c`: same type, fingerprint, cost and subtypes.
pub open spec fn is_anon_of(a: Condition, c: Condition) -> bool {
    &&& a matches Condition::Anon { cond_type, fingerprint, cost, subtypes }
    &&& cond_type == spec_type(c)
    &&& fingerprint@ == spec_fingerprint(c)
    &&& cost == spec_cost(c)
    &&& subtypes@ == spec_subtypes(c)
}

/// `new` is `old` with the signature `sig` set on every secp256k1 condition
/// whose key is `pk`, at any depth below thresholds; nothing else differs.
pub open spec fn signed_with(old: Condition, new: Condition, pk: Seq<u8>, sig: Seq<u8>) -> bool
    decreases old,
{
    match old {
        Condition::Secp256k1 { pubkey, signature } => {
            &&& new matches Condition::Secp256k1 { pubkey: p2, signature: s2 }
            &&& p2 == pubkey
            &&& if pubkey@ == pk {
                s2 matches Some(x) && x@ == sig
            } else {
                s2 == signature
            }
        },
        Condition::Threshold { threshold, subconditions } => {
            &&& new matches Condition::Threshold { threshold: t2, subconditions: s2 }
            &&& t2 == threshold
            &&& s2@.len() == subconditions@.len()
            &&& forall|i: int|
                0 <= i < subconditions@.len() ==> signed_with(
                    #[trigger] subconditions@[i],
                    s2@[i],
                    pk,
                    sig,
                )
        },
        _ => new == old,
    }
}


/// Every threshold in the condition, at any depth, has a threshold of at least one.
pub open spec fn thresholds_positive(c: Condition) -> bool
    decreases c,
{
    c matches Condition::Threshold { threshold, subconditions } ==> {
        &&& threshold >= 1
        &&& forall|i: int|
            0 <= i < subconditions@.len() ==> thresholds_positive(#[trigger] subconditions@[i])
    }
}

/// An encodable condition whose thresholds are all at least one can have
/// its fulfillment encoded.
pub proof fn lemma_ready_for_fulfillment(c: Condition)
    requires
        encodable(c),
        thresholds_positive(c),
    ensures
        fulfillment_ready(c),
    decreases c,
{
    if let Condition::Threshold { threshold, subconditions } = c {
        assert forall|i: int| 0 <= i < subconditions@.len() implies fulfillment_ready(
            #[trigger] subconditions@[i],
        ) by {
            lemma_ready_for_fulfillment(subconditions@[i]);
        }
        let s = subconditions@;
        let fuls = fulfillments_of(s);
        let order = fulfillment_order(s, fuls);
        if threshold_fulfillment_of(threshold as int, s, fuls) is Some {
            assert forall|k: int| threshold <= k < s.len() implies encodable(#[trigger] s[order[k].2]) by {
                let keys = Seq::new(s.len(), |i: int| fulfillment_key(fuls[i], spec_cost(s[i]), i));
                lemma_sorted_keys(keys);
                assert(keys.contains(order[k]));
                let i = choose|i: int| 0 <= i < keys.len() && keys[i] == order[k];
                assert(keys[i] == fulfillment_key(fuls[i], spec_cost(s[i]), i));
            }
        }
    }
}

proof fn lemma_costs_of_len(s: Seq<Condition>)
    ensures
        costs_of(s).len() == s.len(),
    decreases s.len(),
{
    if s.len() > 0 {
        lemma_costs_of_len(s.subrange(0, s.len() - 1));
    }
}

proof fn lemma_sum_take_step(s: Seq<int>, j: int)
    requires
        0 <= j < s.len(),
    ensures
        sum_of(s.take(j + 1)) == sum_of(s.take(j)) + s[j],
{
    assert(s.take(j + 1).drop_last() =~= s.take(j));
}

proof fn lemma_sum_take_mono(s: Seq<int>, j: int, k: int)
    requires
        0 <= j <= k <= s.len(),
        forall|i: int| 0 <= i < s.len() ==> s[i] >= 0,
    ensures
        0 <= sum_of(s.take(j)) <= sum_of(s.take(k)),
    decreases k,
{
    if k > j {
        lemma_sum_take_step(s, k - 1);
        lemma_sum_take_mono(s, j, k - 1);
    } else if k == 0 {
        assert(s.take(0) =~= Seq::<int>::empty());
    } else {
        lemma_sum_take_step(s, k - 1);
        lemma_sum_take_mono(s, k - 1, k - 1);
    }
}

/// Adds the elements of `other` to `set`.
pub(crate) fn union_into(set: &mut HashSet<u8>, other: &HashSet<u8>)
    ensures
        final(set)@ == old(set)@.union(other@),
{
    let ghost start = set@;
    for x in it: other.iter()
        invariant
            it.seq().unref().to_set() == other@,
            set@ == start.union(it.seq().unref().take(it.index()).to_set()),
            it.index() == it.seq().len() ==> set@ == start.union(other@),
    {
        let ghost prefix = it.seq().unref().take(it.index());
        let ghost prefix2 = it.seq().unref().take(it.index() + 1);
        assert(prefix2 =~= prefix.push(*x));
        proof {
            prefix.lemma_push_to_set_commute(*x);
        }
        set.insert(*x);
        assert(set@ =~= start.union(prefix2.to_set()));
        assert(it.index() + 1 == it.seq().len() ==> prefix2 =~= it.seq().unref());
    }
}


/// Sorts blocks into the order of a threshold's subcondition set: longest
/// encoding first, encodings of equal length in lexicographic order.
fn x690sort(asns: &mut Vec<AsnBlock>)
    ensures
        encodings(final(asns)@) == encodings(old(asns)@).sort_by(x690_order()),
{
    let ghost orig = encodings(asns@);
    let n = asns.len();
    let mut out: Vec<AsnBlock> = Vec::new();
    proof {
        lemma_x690_total_ordering();
        assert(encodings(asns@) =~= orig.subrange(0, n as int));
        assert(encodings(out@) =~= orig.take(0));
    }
    let mut j: usize = 0;
    while asns.len() > 0
        invariant
            total_ordering(x690_order()),
            j + asns@.len() == n,
            orig.len() == n,
            encodings(asns@) == orig.subrange(j as int, n as int),
            sorted_by(encodings(out@), x690_order()),
            encodings(out@).to_multiset() == orig.take(j as int).to_multiset(),
        decreases asns@.len(),
    {
        let ghost old_asns = asns@;
        let x = asns.remove(0);
        let e = encode_asn(&x);
        proof {
            assert(encodings(old_asns)[0] == orig[j as int]);
            assert(encodings(asns@) =~= encodings(old_asns).subrange(1, old_asns.len() as int));
        }
        let mut p: usize = 0;
        loop
            invariant
                p <= out@.len(),
                e@ == der_block(x),
                forall|k: int| 0 <= k < p ==> #[trigger] x690_order()(encodings(out@)[k], e@),
            ensures
                p <= out@.len(),
                forall|k: int| 0 <= k < p ==> #[trigger] x690_order()(encodings(out@)[k], e@),
                p < out@.len() ==> !x690_order()(encodings(out@)[p as int], e@),
            decreases out@.len() - p,
        {
            if p == out.len() {
                break;
            }
            let ek = encode_asn(&out[p]);
            if !x690_before(&ek, &e) {
                break;
            }
            p = p + 1;
        }
        let ghost before = encodings(out@);
        proof {
            assert forall|k: int| p <= k < before.len() implies !#[trigger] x690_order()(
                before[k],
                e@,
            ) by {
                if k > p && x690_order()(before[k], e@) {
                    assert(x690_order()(before[p as int], before[k]));
                }
            }
            lemma_insert_sorted(before, p as int, e@, x690_order());
            assert(orig[j as int] == e@);
        }
        out.insert(p, x);
        proof {
            assert(encodings(out@) =~= before.insert(p as int, e@));
            assert(orig.take(j + 1) =~= orig.take(j as int).push(e@));
            vstd::seq_lib::to_multiset_insert(before, p as int, e@);
            vstd::seq_lib::to_multiset_build(orig.take(j as int), e@);
            assert(encodings(asns@) =~= orig.subrange(j + 1, n as int));
        }
        j = j + 1;
    }
    proof {
        assert(orig.take(n as int) =~= orig);
        lemma_is_sort_by(encodings(out@), orig, x690_order());
    }
    *asns = out;
}


/// Sorting the keys that a threshold builds for its subconditions gives the
/// fulfillment order, up to the costs, which are left at zero where a single
/// subcondition needs no ordering.
proof fn lemma_fulfillment_keys(s: Seq<Condition>, fs: Seq<Option<Seq<u8>>>, keys: Seq<(int, int, int)>)
    requires
        fs.len() == s.len(),
        keys == Seq::new(
            s.len(),
            |i: int| fulfillment_key(fs[i], if s.len() >= 2 { spec_cost(s[i]) } else { 0 }, i),
        ),
    ensures
        ({
            let ord = keys.sort_by(triple_order());
            let sord = fulfillment_order(s, fs);
            &&& ord.len() == s.len()
            &&& sord.len() == s.len()
            &&& vstd::relations::sorted_by(ord, triple_order())
            &&& forall|k: int|
                0 <= k < s.len() ==> #[trigger] ord[k].2 < s.len() && ord[k].2 >= 0 && (ord[k].0 == 0
                    <==> fs[ord[k].2] is Some) && ord[k].0 == sord[k].0 && ord[k].2 == sord[k].2
        }),
{
    let n = s.len();
    let ord = keys.sort_by(triple_order());
    let sord = fulfillment_order(s, fs);
    lemma_sorted_keys(keys);
    let full_keys = Seq::new(n, |i: int| fulfillment_key(fs[i], spec_cost(s[i]), i));
    lemma_sorted_keys(full_keys);
    if n >= 2 {
        assert(keys =~= full_keys);
    } else if n == 1 {
        assert(keys.contains(ord[0]));
        assert(full_keys.contains(sord[0]));
    }
    assert forall|k: int| 0 <= k < n implies #[trigger] ord[k].2 < n && ord[k].2 >= 0 && (ord[k].0 == 0
        <==> fs[ord[k].2] is Some) && ord[k].0 == sord[k].0 && ord[k].2 == sord[k].2 by {
        assert(keys.contains(ord[k]));
        let i = choose|i: int| 0 <= i < keys.len() && keys[i] == ord[k];
        assert(keys[i] == fulfillment_key(fs[i], if n >= 2 { spec_cost(s[i]) } else { 0 }, i));
        if n == 1 {
            assert(k == 0);
        }
    }
}

/// The fulfillments of the subconditions, each as an ASN.1 element or the
/// reason it has none.
fn sub_fulfillments(subconditions: &Vec<Condition>) -> (fuls: Vec<Result<AsnBlock, String>>)
    requires
        forall|j: int| 0 <= j < subconditions@.len() ==> fulfillment_ready(#[trigger] subconditions@[j]),
    ensures
        fuls@.len() == subconditions@.len(),
        forall|j: int|
            0 <= j < subconditions@.len() ==> match #[trigger] fuls@[j] {
                Ok(b) => fulfillments_of(subconditions@)[j] == Some(der_block(b)),
                Err(_) => fulfillments_of(subconditions@)[j] is None,
            },
    decreases *subconditions, 0int,
{
    let ghost s = subconditions@;
    let ghost fs = fulfillments_of(s);
    proof {
        lemma_fulfillments_of(s);
    }
    let n = subconditions.len();
    let mut fuls: Vec<Result<AsnBlock, String>> = Vec::new();
    for i in 0..n
        invariant
            n == s.len(),
            s == subconditions@,
            fs == fulfillments_of(s),
            fs.len() == n,
            forall|j: int| 0 <= j < n ==> #[trigger] fs[j] == spec_fulfillment(s[j]),
            forall|j: int| 0 <= j < n ==> fulfillment_ready(#[trigger] s[j]),
            fuls@.len() == i,
            forall|j: int|
                0 <= j < i ==> match #[trigger] fuls@[j] {
                    Ok(b) => fs[j] == Some(der_block(b)),
                    Err(_) => fs[j] is None,
                },
    {
        assert(decreases_to!(*subconditions => subconditions@));
        assert(decreases_to!(subconditions@ => subconditions@[i as int]));
        let f = subconditions[i].encode_fulfillment_asn();
        fuls.push(f);
    }
    fuls
}

/// The order in which a threshold takes its subconditions, as sorted keys
/// whose last components are the subconditions' indices: fulfilled ones
/// first and cheapest first, then the others, each group in the
/// subconditions' own order.
fn fulfillment_sort(subconditions: &Vec<Condition>, fuls: &Vec<Result<AsnBlock, String>>) -> (order: Vec<(u8, u64, usize)>)
    requires
        fuls@.len() == subconditions@.len(),
        forall|j: int|
            0 <= j < subconditions@.len() ==> match #[trigger] fuls@[j] {
                Ok(b) => fulfillments_of(subconditions@)[j] == Some(der_block(b)),
                Err(_) => fulfillments_of(subconditions@)[j] is None,
            },
        forall|j: int|
            0 <= j < subconditions@.len() && subconditions@.len() >= 2 && (
            #[trigger] fulfillments_of(subconditions@)[j]) is Some ==> cost_in_range(subconditions@[j]),
    ensures
        ({
            let n = subconditions@.len();
            let fs = fulfillments_of(subconditions@);
            let ord = triples(order@);
            let sord = fulfillment_order(subconditions@, fs);
            &&& order@.len() == n
            &&& vstd::relations::sorted_by(ord, triple_order())
            &&& forall|k: int|
                0 <= k < n ==> #[trigger] ord[k].2 < n && ord[k].2 >= 0 && (ord[k].0 == 0
                    <==> fs[ord[k].2] is Some) && ord[k].0 == sord[k].0 && ord[k].2 == sord[k].2
        }),
{
    let ghost s = subconditions@;
    let ghost fs = fulfillments_of(s);
    proof {
        lemma_fulfillments_of(s);
    }
    let n = subconditions.len();
    // A single subcondition needs no ordering, so its cost is not asked for.
    let mut keys: Vec<(u8, u64, usize)> = Vec::new();
    let ghost spec_keys = Seq::new(
        n as nat,
        |i: int| fulfillment_key(fs[i], if n >= 2 { spec_cost(s[i]) } else { 0 }, i),
    );
    for i in 0..n
        invariant
            n == s.len(),
            s == subconditions@,
            fs == fulfillments_of(s),
            fs.len() == n,
            fuls@.len() == n,
            spec_keys == Seq::new(
                n as nat,
                |i: int| fulfillment_key(fs[i], if n >= 2 { spec_cost(s[i]) } else { 0 }, i),
            ),
            forall|j: int| 0 <= j < n && n >= 2 && (#[trigger] fs[j]) is Some ==> cost_in_range(s[j]),
            forall|j: int|
                0 <= j < n ==> match #[trigger] fuls@[j] {
                    Ok(b) => fs[j] == Some(der_block(b)),
                    Err(_) => fs[j] is None,
                },
            triples(keys@) == spec_keys.take(i as int),
            keys@.len() == i,
    {
        let ghost fi = fuls@[i as int];
        let ghost old_keys = keys@;
        if fuls[i].is_ok() {
            assert(fs[i as int] is Some);
            let c = if n >= 2 {
                subconditions[i].cost()
            } else {
                0
            };
            keys.push((0, c, i));
            assert(spec_keys[i as int] == (0int, c as int, i as int));
        } else {
            assert(fs[i as int] is None);
            keys.push((1, 0, i));
            assert(spec_keys[i as int] == (1int, 0int, i as int));
        }
        assert(triples(keys@).len() == i + 1);
        assert(triples(keys@)[i as int] == spec_keys[i as int]);
        assert forall|j: int| 0 <= j < i implies triples(keys@)[j] == spec_keys.take(i + 1)[j] by {
            assert(keys@[j] == old_keys[j]);
            assert(triples(old_keys)[j] == spec_keys.take(i as int)[j]);
        }
        assert(triples(keys@) =~= spec_keys.take(i + 1));
    }
    assert(spec_keys.take(n as int) =~= spec_keys);
    let order = sort_triples(&keys);
    proof {
        lemma_fulfillment_keys(s, fs, spec_keys);
        assert(triples(order@).len() == order@.len());
    }
    order
}

/// The fulfillment of a threshold: the subconditions are ordered fulfilled
/// first and cheapest first; the first `threshold` of them must be
/// fulfilled and are given by their fulfillments, the rest by their conditions.
fn threshold_fulfillment_asn(threshold: u16, subconditions: &Vec<Condition>) -> (r: Result<AsnBlock, String>)
    requires
        fulfillment_ready(Condition::Threshold { threshold, subconditions: *subconditions }),
    ensures
        match r {
            Ok(b) => threshold_fulfillment_of(
                threshold as int,
                subconditions@,
                fulfillments_of(subconditions@),
            ) == Some(der_block(b)),
            Err(e) => threshold_fulfillment_of(
                threshold as int,
                subconditions@,
                fulfillments_of(subconditions@),
            ) is None && e@ == "Threshold is unfulfilled"@,
        },
    decreases *subconditions, 1int,
{
    let ghost s = subconditions@;
    let ghost fs = fulfillments_of(s);
    proof {
        lemma_fulfillments_of(s);
    }
    let n = subconditions.len();
    let fuls = sub_fulfillments(subconditions);
    let order = fulfillment_sort(subconditions, &fuls);
    let ghost ord = triples(order@);
    let ghost sord = fulfillment_order(s, fs);
    let tt = threshold as usize;
    proof {
        if n >= tt {
            assert(ord[tt - 1].2 == order@[tt - 1].2 as int);
        }
    }
    if n >= tt && fuls[order[tt - 1].2].is_ok() {
        proof {
            assert(ord[tt - 1].2 == sord[tt - 1].2);
            assert(threshold_fulfillment_of(threshold as int, s, fs) is Some);
            assert forall|m: int| tt <= m < n implies encodable(#[trigger] s[ord[m].2]) by {
                assert(ord[m].2 == sord[m].2);
            }
        }
        let mut taken: Vec<AsnBlock> = Vec::new();
        for k in 0..tt
            invariant
                tt <= n,
                tt >= 1,
                n == s.len(),
                fuls@.len() == n,
                order@.len() == n,
                ord == triples(order@),
                vstd::relations::sorted_by(ord, triple_order()),
                ord[tt - 1].0 == 0,
                forall|k: int| 0 <= k < n ==> #[trigger] ord[k].2 < n && ord[k].2 >= 0 && (ord[k].0 == 0 <==> fs[ord[k].2] is Some),
                forall|j: int|
                    0 <= j < n ==> match #[trigger] fuls@[j] {
                        Ok(b) => fs[j] == Some(der_block(b)),
                        Err(_) => fs[j] is None,
                    },
                encodings(taken@) == Seq::new(k as nat, |m: int| fs[ord[m].2]->0),
                taken@.len() == k,
        {
            let ghost old_taken = taken@;
            assert(triple_order()(ord[k as int], ord[tt - 1]) || k == tt - 1);
            let idx = order[k].2;
            assert(ord[k as int].2 == idx as int);
            let ghost fidx = fuls@[idx as int];
            match &fuls[idx] {
                Ok(b) => {
                    assert(fs[idx as int] == Some(der_block(*b)));
                    let cb = copy_block(b);
                    taken.push(cb);
                    assert(taken@ == old_taken.push(cb));
                    assert(encodings(taken@)[k as int] == der_block(cb));
                },
                Err(_) => {
                    assert(false);
                },
            }
            assert(encodings(taken@)[k as int] == fs[ord[k as int].2]->0);
            assert forall|m: int| 0 <= m < k implies encodings(taken@)[m] == fs[ord[m].2]->0 by {
                assert(taken@[m] == old_taken[m]);
                assert(encodings(old_taken)[m] == fs[ord[m].2]->0);
            }
            assert(encodings(taken@) =~= Seq::new((k + 1) as nat, |m: int| fs[ord[m].2]->0));
        }
        let mut skipped: Vec<AsnBlock> = Vec::new();
        for k in tt..n
            invariant
                tt <= n,
                n == s.len(),
                s == subconditions@,
                order@.len() == n,
                ord == triples(order@),
                forall|k: int| 0 <= k < n ==> #[trigger] ord[k].2 < n && ord[k].2 >= 0,
                forall|m: int| tt <= m < n ==> encodable(#[trigger] s[ord[m].2]),
                encodings(skipped@) == Seq::new((k - tt) as nat, |m: int| spec_encoding(s[ord[tt + m].2])),
                skipped@.len() == k - tt,
        {
            let idx = order[k].2;
            assert(ord[k as int].2 == idx as int);
            assert(encodable(s[ord[k as int].2]));
            let ghost old_skipped = skipped@;
            let e = subconditions[idx].encode_condition_asn();
            assert(der_block(e) == spec_encoding(s[ord[tt + (k - tt)].2]));
            skipped.push(e);
            assert forall|m: int| 0 <= m < k - tt implies encodings(skipped@)[m] == spec_encoding(s[ord[tt + m].2]) by {
                assert(skipped@[m] == old_skipped[m]);
                assert(encodings(old_skipped)[m] == spec_encoding(s[ord[tt + m].2]));
            }
            assert(encodings(skipped@)[k - tt] == der_block(e));
            assert(encodings(skipped@) =~= Seq::new((k + 1 - tt) as nat, |m: int| spec_encoding(s[ord[tt + m].2])));
        }
        let a = asn_choice(0, &taken);
        let b = asn_choice(1, &skipped);
        let parts = vec![a, b];
        proof {
            assert(Seq::new(tt as nat, |m: int| fs[ord[m].2]->0) =~= Seq::new(
                tt as nat,
                |m: int| fs[sord[m].2]->0,
            ));
            assert(Seq::new((n - tt) as nat, |m: int| spec_encoding(s[ord[tt + m].2])) =~= Seq::new(
                (n - tt) as nat,
                |m: int| spec_encoding(s[sord[tt + m].2]),
            ));
            lemma_der_concat_is_concat(taken@);
            lemma_der_concat_is_concat(skipped@);
            assert(parts@ =~= seq![a, b]);
            lemma_der_concat_one(a);
            lemma_der_concat_push(seq![a], b);
            assert(seq![a].push(b) =~= parts@);
        }
        Ok(asn_choice(2, &parts))
    } else {
        proof {
            if n >= tt {
                assert(ord[tt - 1].2 == sord[tt - 1].2);
            }
        }
        Err("Threshold is unfulfilled".to_string())
    }
}

impl Clone for Condition {
    /// A copy of the condition, holding the same values at any depth.
    fn clone(&self) -> (r: Condition)
        ensures
            same_condition(*self, r),
        decreases self,
    {
        match self {
            Condition::Preimage { preimage } => Condition::Preimage { preimage: preimage.clone() },
            Condition::Secp256k1 { pubkey, signature } => Condition::Secp256k1 {
                pubkey: pubkey.clone(),
                signature: match signature {
                    Some(sig) => Some(sig.clone()),
                    None => None,
                },
            },
            Condition::Eval { code } => Condition::Eval { code: code.clone() },
            Condition::Threshold { threshold, subconditions } => {
                let mut copies: Vec<Condition> = Vec::new();
                for i in 0..subconditions.len()
                    invariant
                        *self == (Condition::Threshold {
                            threshold: *threshold,
                            subconditions: *subconditions,
                        }),
                        copies@.len() == i,
                        forall|j: int|
                            0 <= j < i ==> same_condition(#[trigger] subconditions@[j], copies@[j]),
                {
                    assert(decreases_to!(*self => (*self)->subconditions));
                    assert(decreases_to!(*subconditions => subconditions@));
                    assert(decreases_to!(subconditions@ => subconditions@[i as int]));
                    let c = subconditions[i].clone();
                    copies.push(c);
                }
                Condition::Threshold { threshold: *threshold, subconditions: copies }
            },
            Condition::Anon { cond_type, fingerprint, cost, subtypes } => {
                let mut set: HashSet<u8> = HashSet::new();
                union_into(&mut set, subtypes);
                assert(set@ =~= subtypes@);
                Condition::Anon {
                    cond_type: *cond_type,
                    fingerprint: fingerprint.clone(),
                    cost: *cost,
                    subtypes: set,
                }
            },
        }
    }
}

impl Condition {
    /// The type of the condition.
    pub fn get_type(&self) -> (r: ConditionType)
        ensures
            r == spec_type(*self),
    {
        match self {
            Condition::Preimage { .. } => ConditionType::PreimageType,
            Condition::Threshold { .. } => ConditionType::ThresholdType,
            Condition::Secp256k1 { .. } => ConditionType::Secp256k1Type,
            Condition::Eval { .. } => ConditionType::EvalType,
            Condition::Anon { cond_type, .. } => *cond_type,
        }
    }

    fn has_subtypes(&self) -> (r: bool)
        ensures
            r == spec_has_subtypes(*self),
    {
        self.get_type().has_subtypes()
    }


    /// The condition as an ASN.1 element: its type id as tag, around its
    /// fingerprint, its cost and, for thresholds, its packed subtypes.
    fn encode_condition_asn(&self) -> (r: AsnBlock)
        requires
            encodable(*self),
        ensures
            der_block(r) == spec_encoding(*self),
        decreases self, 2int,
    {
        let fingerprint = self.fingerprint();
        let cost = signed_bytes_be(self.cost());
        let mut parts: Vec<Vec<u8>> = vec![fingerprint, cost];
        if self.has_subtypes() {
            let packed = pack_set(self.get_subtypes());
            proof {
                lemma_packed_set_unique(packed@, spec_subtypes(*self));
            }
            parts.push(packed);
        }
        let data = asn_data(&parts);
        let ghost views = parts@.map_values(|v: Vec<u8>| v@);
        proof {
            let subs = if spec_has_subtypes(*self) {
                Some(spec_subtypes(*self))
            } else {
                None
            };
            assert(views =~= condition_parts(spec_fingerprint(*self), spec_cost(*self), subs));
            lemma_der_concat_data(data@, views);
        }
        asn_choice(self.get_type().id(), &data)
    }



    /// The anonymous form of the condition: its type, fingerprint, cost and subtypes.
    pub fn to_anon(&self) -> (r: Condition)
        requires
            fingerprint_ready(*self),
            cost_in_range(*self),
        ensures
            is_anon_of(r, *self),
    {
        Condition::Anon {
            cond_type: self.get_type(),
            fingerprint: self.fingerprint(),
            cost: self.cost(),
            subtypes: self.get_subtypes(),
        }
    }

    /// Signs `message` with `secret` in every secp256k1 condition, at any
    /// depth below thresholds, whose public key is the secret's.
    pub fn sign_secp256k1(&mut self, secret: &SecretKey, message: &Message) -> (r: Result<(), SecpError>)
        ensures
            r is Ok,
            signed_with(
                *old(self),
                *final(self),
                public_key_of_secret(secret@),
                signature_of(message@, secret@),
            ),
        decreases *old(self),
    {
        match self {
            Condition::Secp256k1 { pubkey, signature } => {
                if pubkey.same_key(&secret.public_key()) {
                    *signature = Some(message.sign(secret));
                }
            },
            Condition::Threshold { subconditions, .. } => {
                let ghost orig = subconditions@;
                assert(orig == (*old(self))->subconditions@);
                let n = subconditions.len();
                for i in 0..n
                    invariant
                        n == orig.len(),
                        orig == (*old(self))->subconditions@,
                        *old(self) is Threshold,
                        subconditions@.len() == n,
                        forall|j: int|
                            i <= j < n ==> #[trigger] subconditions@[j] == orig[j],
                        forall|j: int|
                            0 <= j < i ==> signed_with(
                                orig[j],
                                #[trigger] subconditions@[j],
                                public_key_of_secret(secret@),
                                signature_of(message@, secret@),
                            ),
                {
                    let mut c = subconditions.remove(i);
                    proof {
                        assert(c == orig[i as int]);
                        assert(decreases_to!(*old(self) => (*old(self))->subconditions));
                        assert(decreases_to!((*old(self))->subconditions => orig));
                        assert(decreases_to!(orig => orig[i as int]));
                    }
                    let _ = c.sign_secp256k1(secret, message);
                    subconditions.insert(i, c);
                }
            },
            _ => {},
        }
        Ok(())
    }

    /// The condition's fulfillment as an ASN.1 element, where it has one.
    fn encode_fulfillment_asn(&self) -> (r: Result<AsnBlock, String>)
        requires
            fulfillment_ready(*self),
        ensures
            match r {
                Ok(b) => spec_fulfillment(*self) == Some(der_block(b)),
                Err(e) => spec_fulfillment(*self) is None && e@ == fulfillment_error(*self),
            },
        decreases self, 2int,
    {
        match self {
            Condition::Preimage { preimage } => {
                let data = asn_data(&vec![preimage.clone()]);
                proof {
                    lemma_der_concat_data(data@, seq![preimage@]);
                }
                Ok(asn_choice(self.get_type().id(), &data))
            },
            Condition::Secp256k1 { pubkey, signature: Some(signature) } => {
                let body = vec![pubkey.serialize_compressed(), signature.serialize()];
                let data = asn_data(&body);
                proof {
                    assert(body@.map_values(|v: Vec<u8>| v@) =~= seq![pubkey@, signature@]);
                    lemma_der_concat_data(data@, seq![pubkey@, signature@]);
                }
                Ok(asn_choice(self.get_type().id(), &data))
            },
            Condition::Eval { code } => {
                let data = asn_data(&vec![code.clone()]);
                proof {
                    lemma_der_concat_data(data@, seq![code@]);
                }
                Ok(asn_choice(self.get_type().id(), &data))
            },
            Condition::Threshold { threshold, subconditions } => {
                assert(decreases_to!(*self => (*self)->subconditions));
                threshold_fulfillment_asn(*threshold, subconditions)
            },
            _ => Err("Cannot encode fulfillment".to_string()),
        }
    }

    /// The DER encoding of the condition's fulfillment, or why it has none.
    pub fn encode_fulfillment(&self) -> (r: Result<Vec<u8>, String>)
        requires
            fulfillment_ready(*self),
        ensures
            match r {
                Ok(bytes) => spec_fulfillment(*self) == Some(bytes@),
                Err(e) => spec_fulfillment(*self) is None && e@ == fulfillment_error(*self),
            },
    {
        let asn = self.encode_fulfillment_asn()?;
        Ok(encode_asn(&asn))
    }

    /// The DER encoding of the condition.
    pub fn encode_condition(&self) -> (r: Vec<u8>)
        requires
            encodable(*self),
        ensures
            r@ == spec_encoding(*self),
    {
        encode_asn(&self.encode_condition_asn())
    }

    /// The fingerprint: SHA-256 of the preimage or code, of the DER SEQUENCE
    /// holding the public key, or of the DER SEQUENCE holding the threshold
    /// and the set of subcondition encodings in X.690 order.
    pub fn fingerprint(&self) -> (r: Vec<u8>)
        requires
            fingerprint_ready(*self),
        ensures
            r@ == spec_fingerprint(*self),
            !(*self is Anon) ==> r@.len() == 32,
        decreases self, 1int,
    {
        match self {
            Condition::Secp256k1 { pubkey, .. } => {
                let data = asn_data(&vec![pubkey.serialize_compressed()]);
                let items = AsnBlock::Sequence { items: data };
                proof {
                    let views = seq![pubkey@];
                    lemma_der_concat_data(data@, views);
                    lemma_data_concat_one(pubkey@);
                }
                hash_asn(&items)
            },
            Condition::Eval { code } => sha256(code.clone()),
            Condition::Preimage { preimage } => sha256(preimage.clone()),
            Condition::Threshold { threshold, subconditions } => {
                let mut asns: Vec<AsnBlock> = Vec::new();
                proof {
                    assert(subconditions@.take(0) =~= Seq::<Condition>::empty());
                    assert(encodings(asns@) =~= Seq::<Seq<u8>>::empty());
                }
                for i in 0..subconditions.len()
                    invariant
                        fingerprint_ready(*self),
                        *self == (Condition::Threshold {
                            threshold: *threshold,
                            subconditions: *subconditions,
                        }),
                        encodings(asns@) == condition_encodings(subconditions@.take(i as int)),
                {
                    assert(decreases_to!(*self => (*self)->subconditions));
                    assert(decreases_to!(*subconditions => subconditions@));
                    assert(decreases_to!(subconditions@ => subconditions@[i as int]));
                    let a = subconditions[i].encode_condition_asn();
                    asns.push(a);
                    proof {
                        assert(subconditions@.take(i + 1).subrange(0, i as int) =~= subconditions@.take(
                            i as int,
                        ));
                        assert(encodings(asns@) =~= condition_encodings(subconditions@.take(i + 1)));
                    }
                }
                proof {
                    assert(subconditions@.take(subconditions@.len() as int) =~= subconditions@);
                }
                x690sort(&mut asns);
                let t = signed_bytes_be(*threshold as u64);
                let mut elems = asn_data(&vec![t]);
                let set = asn_choice(1, &asns);
                let ghost first = elems@[0];
                elems.push(set);
                let items = AsnBlock::Sequence { items: elems };
                proof {
                    lemma_der_concat_is_concat(asns@);
                    assert(elems@ =~= seq![first, set]);
                    assert(der_concat(elems@) == der_block(first) + der_block(set)) by {
                        assert(elems@.subrange(0, 1) =~= seq![first]);
                        lemma_der_concat_one(first);
                    }
                }
                hash_asn(&items)
            },
            Condition::Anon { fingerprint, .. } => fingerprint.clone(),
        }
    }

    /// The cost of the condition: a preimage's length, fixed costs for
    /// signatures and evaluations, and for a threshold the sum of its
    /// `threshold` most expensive subconditions plus 1024 per subcondition.
    pub fn cost(&self) -> (r: u64)
        requires
            cost_in_range(*self),
        ensures
            r == spec_cost(*self),
        decreases self,
    {
        match self {
            Condition::Preimage { preimage } => preimage.len() as u64,
            Condition::Secp256k1 { .. } => 131072,
            Condition::Eval { .. } => 1048576,
            Condition::Anon { cost, .. } => *cost,
            Condition::Threshold { threshold, subconditions } => {
                let mut costs: Vec<u64> = Vec::new();
                proof {
                    assert(subconditions@.take(0) =~= Seq::<Condition>::empty());
                    assert(ints(costs@) =~= Seq::<int>::empty());
                }
                for i in 0..subconditions.len()
                    invariant
                        forall|j: int|
                            0 <= j < subconditions@.len() ==> cost_in_range(
                                #[trigger] subconditions@[j],
                            ),
                        ints(costs@) == costs_of(subconditions@.take(i as int)),
                        *self == (Condition::Threshold {
                            threshold: *threshold,
                            subconditions: *subconditions,
                        }),
                {
                    assert(decreases_to!(*self => (*self)->subconditions));
                    assert(decreases_to!(*subconditions => subconditions@));
                    assert(decreases_to!(subconditions@ => subconditions@[i as int]));
                    assert(decreases_to!(*self => subconditions@[i as int]));
                    let c = subconditions[i].cost();
                    costs.push(c);
                    proof {
                        assert(subconditions@.take(i + 1).subrange(0, i as int) =~= subconditions@.take(
                            i as int,
                        ));
                        assert(ints(costs@) =~= costs_of(subconditions@.take(i + 1)));
                    }
                }
                let n = subconditions.len();
                proof {
                    assert(subconditions@.take(n as int) =~= subconditions@);
                }
                let sorted = sort_descending(&costs);
                let k: usize = if (*threshold as usize) < n {
                    *threshold as usize
                } else {
                    n
                };
                let ghost s = ints(sorted@);
                proof {
                    assert(s.len() == n) by {
                        costs_of(subconditions@).lemma_sort_by_ensures(descending());
                        vstd::seq_lib::to_multiset_len(s);
                        vstd::seq_lib::to_multiset_len(costs_of(subconditions@));
                        lemma_costs_of_len(subconditions@);
                    }
                    lemma_costs_of_len(subconditions@);
                    assert(ints(costs@) == costs_of(subconditions@));
                    assert(s == costs_of(subconditions@).sort_by(descending()));
                    assert(top_sum(costs_of(subconditions@), *threshold as int) == sum_of(s.take(k as int)));
                    assert(spec_cost(*self) == sum_of(s.take(k as int)) + 1024 * n);
                    lemma_sum_take_mono(s, 0, k as int);
                }
                let mut expensive: u64 = 0;
                proof {
                    assert(s.take(0) =~= Seq::<int>::empty());
                }
                for j in 0..k
                    invariant
                        k <= s.len(),
                        s == ints(sorted@),
                        expensive == sum_of(s.take(j as int)),
                        sum_of(s.take(k as int)) + 1024 * n <= u64::MAX,
                        forall|i: int| 0 <= i < s.len() ==> s[i] >= 0,
                {
                    proof {
                        lemma_sum_take_step(s, j as int);
                        lemma_sum_take_mono(s, j + 1, k as int);
                    }
                    expensive = expensive + sorted[j];
                }
                expensive + 1024 * n as u64
            },
        }
    }


    /// The cost, where every cost computed for the condition fits in a `u64`.
    pub fn checked_cost(&self) -> (r: Option<u64>)
        ensures
            match r {
                Some(v) => cost_in_range(*self) && v == spec_cost(*self),
                None => !cost_in_range(*self),
            },
        decreases self,
    {
        match self {
            Condition::Threshold { threshold, subconditions } => {
                let mut costs: Vec<u64> = Vec::new();
                proof {
                    assert(subconditions@.take(0) =~= Seq::<Condition>::empty());
                    assert(ints(costs@) =~= Seq::<int>::empty());
                }
                for i in 0..subconditions.len()
                    invariant
                        forall|j: int| 0 <= j < i ==> cost_in_range(#[trigger] subconditions@[j]),
                        ints(costs@) == costs_of(subconditions@.take(i as int)),
                        *self == (Condition::Threshold {
                            threshold: *threshold,
                            subconditions: *subconditions,
                        }),
                {
                    assert(decreases_to!(*self => (*self)->subconditions));
                    assert(decreases_to!(*subconditions => subconditions@));
                    assert(decreases_to!(subconditions@ => subconditions@[i as int]));
                    match subconditions[i].checked_cost() {
                        Some(c) => {
                            costs.push(c);
                        },
                        None => {
                            return None;
                        },
                    }
                    proof {
                        assert(subconditions@.take(i + 1).subrange(0, i as int) =~= subconditions@.take(
                            i as int,
                        ));
                        assert(ints(costs@) =~= costs_of(subconditions@.take(i + 1)));
                    }
                }
                let n = subconditions.len();
                proof {
                    assert(subconditions@.take(n as int) =~= subconditions@);
                    lemma_costs_of_len(subconditions@);
                }
                let sorted = sort_descending(&costs);
                let k: usize = if (*threshold as usize) < n {
                    *threshold as usize
                } else {
                    n
                };
                let ghost s = ints(sorted@);
                proof {
                    assert(s.len() == n) by {
                        costs_of(subconditions@).lemma_sort_by_ensures(descending());
                        vstd::seq_lib::to_multiset_len(s);
                        vstd::seq_lib::to_multiset_len(costs_of(subconditions@));
                    }
                    assert(spec_cost(*self) == sum_of(s.take(k as int)) + 1024 * n);
                }
                let mut expensive: u64 = 0;
                proof {
                    assert(s.take(0) =~= Seq::<int>::empty());
                }
                for j in 0..k
                    invariant
                        k <= s.len(),
                        s == ints(sorted@),
                        expensive == sum_of(s.take(j as int)),
                        spec_cost(*self) == sum_of(s.take(k as int)) + 1024 * n,
                        forall|i: int| 0 <= i < s.len() ==> s[i] >= 0,
                        forall|i: int|
                            0 <= i < subconditions@.len() ==> cost_in_range(#[trigger] subconditions@[i]),
                        *self == (Condition::Threshold {
                            threshold: *threshold,
                            subconditions: *subconditions,
                        }),
                {
                    proof {
                        lemma_sum_take_step(s, j as int);
                        lemma_sum_take_mono(s, j + 1, k as int);
                    }
                    match expensive.checked_add(sorted[j]) {
                        Some(v) => {
                            expensive = v;
                        },
                        None => {
                            return None;
                        },
                    }
                }
                if n as u64 > 18014398509481983u64 {
                    return None;
                }
                expensive.checked_add(1024 * n as u64)
            },
            Condition::Preimage { preimage } => Some(preimage.len() as u64),
            _ => Some(self.cost()),
        }
    }

    /// Whether the condition can be encoded.
    pub fn is_encodable(&self) -> (r: bool)
        ensures
            r == encodable(*self),
        decreases self,
    {
        if self.checked_cost().is_none() {
            return false;
        }
        if self.has_subtypes() {
            let subtypes = self.get_subtypes();
            let mut all_small = true;
            for x in it: subtypes.iter()
                invariant
                    it.seq().unref().to_set() == subtypes@,
                    all_small <==> forall|j: int| 0 <= j < it.index() ==> it.seq().unref()[j] < 32,
                    it.index() == it.seq().len() ==> (all_small <==> forall|y: u8|
                        subtypes@.contains(y) ==> y < 32),
            {
                if *x >= 32 {
                    all_small = false;
                }
                assert(it.index() + 1 == it.seq().len() ==> (all_small <==> forall|y: u8|
                    subtypes@.contains(y) ==> y < 32)) by {
                    if it.index() + 1 == it.seq().len() {
                        if !all_small {
                            let j = choose|j: int| 0 <= j < it.index() + 1 && it.seq().unref()[j] >= 32;
                            assert(it.seq().unref().to_set().contains(it.seq().unref()[j]));
                        } else {
                            assert forall|y: u8| subtypes@.contains(y) implies y < 32 by {
                                assert(it.seq().unref().contains(y));
                            }
                        }
                    }
                }
            }
            if !all_small {
                return false;
            }
        }
        match self {
            Condition::Threshold { threshold, subconditions } => {
                for i in 0..subconditions.len()
                    invariant
                        forall|j: int| 0 <= j < i ==> encodable(#[trigger] subconditions@[j]),
                        *self == (Condition::Threshold {
                            threshold: *threshold,
                            subconditions: *subconditions,
                        }),
                {
                    assert(decreases_to!(*self => (*self)->subconditions));
                    assert(decreases_to!(*subconditions => subconditions@));
                    assert(decreases_to!(subconditions@ => subconditions@[i as int]));
                    if !subconditions[i].is_encodable() {
                        return false;
                    }
                }
                true
            },
            _ => true,
        }
    }

    /// Whether the condition's fulfillment can be encoded without a fault:
    /// every threshold in it is at least one; where a threshold has two or
    /// more subconditions, the costs of its fulfilled ones fit in a `u64`;
    /// and where a threshold is fulfilled, the subconditions it gives as
    /// conditions can be encoded.
    pub fn is_fulfillment_ready(&self) -> (r: bool)
        ensures
            r == fulfillment_ready(*self),
        decreases self,
    {
        match self {
            Condition::Threshold { threshold, subconditions } => {
                let ghost s = subconditions@;
                if *threshold == 0 {
                    return false;
                }
                let n = subconditions.len();
                for i in 0..n
                    invariant
                        s == subconditions@,
                        n == s.len(),
                        *self == (Condition::Threshold {
                            threshold: *threshold,
                            subconditions: *subconditions,
                        }),
                        forall|j: int| 0 <= j < i ==> fulfillment_ready(#[trigger] s[j]),
                {
                    assert(decreases_to!(*self => (*self)->subconditions));
                    assert(decreases_to!(*subconditions => subconditions@));
                    assert(decreases_to!(subconditions@ => subconditions@[i as int]));
                    if !subconditions[i].is_fulfillment_ready() {
                        return false;
                    }
                }
                let ghost fs = fulfillments_of(s);
                proof {
                    lemma_fulfillments_of(s);
                }
                let fuls = sub_fulfillments(subconditions);
                if n >= 2 {
                    for i in 0..n
                        invariant
                            s == subconditions@,
                            n == s.len(),
                            n >= 2,
                            *self == (Condition::Threshold {
                                threshold: *threshold,
                                subconditions: *subconditions,
                            }),
                            fs == fulfillments_of(s),
                            fs.len() == n,
                            fuls@.len() == n,
                            forall|j: int|
                                0 <= j < n ==> match #[trigger] fuls@[j] {
                                    Ok(b) => fs[j] == Some(der_block(b)),
                                    Err(_) => fs[j] is None,
                                },
                            forall|j: int| 0 <= j < i && (#[trigger] fs[j]) is Some ==> cost_in_range(s[j]),
                    {
                        let ghost fi = fuls@[i as int];
                        if fuls[i].is_ok() && subconditions[i].checked_cost().is_none() {
                            assert(fs[i as int] is Some);
                            return false;
                        }
                    }
                }
                let order = fulfillment_sort(subconditions, &fuls);
                let ghost ord = triples(order@);
                let ghost sord = fulfillment_order(s, fs);
                let tt = *threshold as usize;
                proof {
                    if n >= tt {
                        assert(ord[tt - 1].2 == order@[tt - 1].2 as int);
                    }
                }
                if n >= tt && fuls[order[tt - 1].2].is_ok() {
                    proof {
                        assert(ord[tt - 1].2 == sord[tt - 1].2);
                        assert(threshold_fulfillment_of(*threshold as int, s, fs) is Some);
                    }
                    for k in tt..n
                        invariant
                            s == subconditions@,
                            n == s.len(),
                            order@.len() == n,
                            ord == triples(order@),
                            *self == (Condition::Threshold {
                                threshold: *threshold,
                                subconditions: *subconditions,
                            }),
                            tt == *threshold,
                            fs == fulfillments_of(s),
                            sord == fulfillment_order(s, fs),
                            threshold_fulfillment_of(*threshold as int, s, fs) is Some,
                            forall|m: int|
                                0 <= m < n ==> #[trigger] ord[m].2 < n && ord[m].2 >= 0 && ord[m].2
                                    == sord[m].2,
                            forall|m: int| tt <= m < k ==> encodable(#[trigger] s[sord[m].2]),
                    {
                        let idx = order[k].2;
                        assert(ord[k as int].2 == idx as int);
                        if !subconditions[idx].is_encodable() {
                            return false;
                        }
                    }
                } else {
                    proof {
                        if n >= tt {
                            assert(ord[tt - 1].2 == sord[tt - 1].2);
                        }
                    }
                }
                true
            },
            _ => true,
        }
    }

    /// Whether every threshold in the condition has a threshold of at least one.
    pub fn has_positive_thresholds(&self) -> (r: bool)
        ensures
            r == thresholds_positive(*self),
        decreases self,
    {
        match self {
            Condition::Threshold { threshold, subconditions } => {
                if *threshold == 0 {
                    return false;
                }
                for i in 0..subconditions.len()
                    invariant
                        forall|j: int| 0 <= j < i ==> thresholds_positive(#[trigger] subconditions@[j]),
                        *self == (Condition::Threshold {
                            threshold: *threshold,
                            subconditions: *subconditions,
                        }),
                {
                    assert(decreases_to!(*self => (*self)->subconditions));
                    assert(decreases_to!(*subconditions => subconditions@));
                    assert(decreases_to!(subconditions@ => subconditions@[i as int]));
                    if !subconditions[i].has_positive_thresholds() {
                        return false;
                    }
                }
                true
            },
            _ => true,
        }
    }

    /// The types used below the condition: for a threshold the types of its
    /// subconditions and their own subtypes, less the threshold type itself.
    fn get_subtypes(&self) -> (r: HashSet<u8>)
        ensures
            r@ == spec_subtypes(*self),
        decreases self,
    {
        match self {
            Condition::Threshold { threshold, subconditions } => {
                let mut set: HashSet<u8> = HashSet::new();
                proof {
                    assert(subconditions@.take(0) =~= Seq::<Condition>::empty());
                }
                for i in 0..subconditions.len()
                    invariant
                        set@ == subtypes_of_all(subconditions@.take(i as int)),
                        *self == (Condition::Threshold {
                            threshold: *threshold,
                            subconditions: *subconditions,
                        }),
                {
                    assert(decreases_to!(*self => (*self)->subconditions));
                    assert(decreases_to!(*subconditions => subconditions@));
                    assert(decreases_to!(subconditions@ => subconditions@[i as int]));
                    assert(decreases_to!(*self => subconditions@[i as int]));
                    let cond = &subconditions[i];
                    set.insert(cond.get_type().id());
                    let sub = cond.get_subtypes();
                    union_into(&mut set, &sub);
                    proof {
                        assert(subconditions@.take(i + 1).subrange(0, i as int) =~= subconditions@.take(
                            i as int,
                        ));
                        assert(set@ =~= subtypes_of_all(subconditions@.take(i + 1)));
                    }
                }
                proof {
                    assert(subconditions@.take(subconditions@.len() as int) =~= subconditions@);
                }
                set.remove(&self.get_type().id());
                assert(set@ =~= spec_subtypes(*self));
                set
            },
            Condition::Anon { subtypes, .. } => {
                let mut set: HashSet<u8> = HashSet::new();
                union_into(&mut set, subtypes);
                assert(set@ =~= subtypes@);
                set
            },
            _ => {
                let set: HashSet<u8> = HashSet::new();
                set
            },
        }
    }
}

} // verus!
