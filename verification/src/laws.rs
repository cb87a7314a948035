//! Properties that relate the library's operations to one another.

use vstd::prelude::*;
use crate::order::{descending, triple_order, x690_order, lemma_descending_total_ordering, lemma_x690_total_ordering};
use crate::condition::{
    Condition, ConditionType, condition_encodings, cost_in_range, costs_of, encodable,
    is_anon_of, signed_with, spec_cost, spec_encoding, spec_fingerprint,
    spec_fulfillment, spec_subtypes, spec_type, subtypes_of_all, fulfillments_of,
    fulfillment_key, fulfillment_order, lemma_sorted_keys, spec_has_subtypes,
};
use crate::internal::{der_context, packed_set, sha256_digest, signed_be_bytes};
use crate::secp::{PublicKey, Signature};

verus! {

/// The anonymous form of a condition has the condition's type, fingerprint,
/// cost and subtypes, encodes to the same bytes, and can be encoded whenever
/// the condition can.
pub proof fn lemma_anon_encodes_alike(c: Condition, a: Condition)
    requires
        is_anon_of(a, c),
    ensures
        spec_type(a) == spec_type(c),
        spec_fingerprint(a) == spec_fingerprint(c),
        spec_cost(a) == spec_cost(c),
        spec_subtypes(a) == spec_subtypes(c),
        spec_encoding(a) == spec_encoding(c),
        encodable(c) ==> encodable(a),
{
}

/// A threshold condition never lists the threshold type among its subtypes.
pub proof fn lemma_threshold_subtypes_exclude_own_type(c: Condition)
    requires
        c is Threshold,
    ensures
        !spec_subtypes(c).contains(ConditionType::ThresholdType.spec_id()),
{
}

/// The encoding of a condition begins with the constructed context-specific
/// tag of its type.
pub proof fn lemma_encoding_starts_with_type(c: Condition)
    ensures
        spec_encoding(c)[0] == 0xa0 + spec_type(c).spec_id(),
{
}

/// Signing leaves a condition's type, fingerprint, cost, subtypes and
/// condition encoding unchanged, and keeps it encodable.
pub proof fn lemma_signing_keeps_condition(old: Condition, new: Condition, pk: Seq<u8>, sig: Seq<u8>)
    requires
        signed_with(old, new, pk, sig),
    ensures
        spec_type(new) == spec_type(old),
        spec_fingerprint(new) == spec_fingerprint(old),
        spec_cost(new) == spec_cost(old),
        spec_subtypes(new) == spec_subtypes(old),
        spec_encoding(new) == spec_encoding(old),
        cost_in_range(old) ==> cost_in_range(new),
        encodable(old) ==> encodable(new),
    decreases old,
{
    match old {
        Condition::Threshold { threshold, subconditions } => {
            let s2 = new->subconditions;
            assert forall|i: int| 0 <= i < subconditions@.len() implies {
                &&& spec_cost(#[trigger] s2@[i]) == spec_cost(subconditions@[i])
                &&& (cost_in_range(subconditions@[i]) ==> cost_in_range(s2@[i]))
                &&& (encodable(subconditions@[i]) ==> encodable(s2@[i]))
            } by {
                lemma_signing_keeps_condition(subconditions@[i], s2@[i], pk, sig);
            }
            lemma_signing_keeps_sequence(subconditions@, s2@, pk, sig);
            assert(subconditions@.len() == s2@.len());
        },
        _ => {},
    }
}

/// Signing each of a sequence of conditions leaves their costs, subtypes
/// and encodings unchanged.
pub proof fn lemma_signing_keeps_sequence(a: Seq<Condition>, b: Seq<Condition>, pk: Seq<u8>, sig: Seq<u8>)
    requires
        a.len() == b.len(),
        forall|i: int| 0 <= i < a.len() ==> signed_with(#[trigger] a[i], b[i], pk, sig),
    ensures
        costs_of(a) == costs_of(b),
        subtypes_of_all(a) == subtypes_of_all(b),
        condition_encodings(a) == condition_encodings(b),
    decreases a,
{
    if a.len() > 0 {
        let n = a.len() - 1;
        lemma_signing_keeps_condition(a[n], b[n], pk, sig);
        lemma_signing_keeps_sequence(a.subrange(0, n), b.subrange(0, n), pk, sig);
    }
}

/// After signing, a secp256k1 condition with the signing key has a fulfillment.
pub proof fn lemma_signed_key_is_fulfilled(old: Condition, new: Condition, pk: Seq<u8>, sig: Seq<u8>)
    requires
        signed_with(old, new, pk, sig),
        old matches Condition::Secp256k1 { pubkey, .. } && pubkey@ == pk,
    ensures
        spec_fulfillment(new) is Some,
{
}


/// Mapping two sequences with the same elements gives sequences with the same elements.
pub proof fn lemma_map_same_elements<A, B>(s1: Seq<A>, s2: Seq<A>, f: spec_fn(A) -> B)
    requires
        s1.to_multiset() == s2.to_multiset(),
    ensures
        s1.map_values(f).to_multiset() == s2.map_values(f).to_multiset(),
    decreases s1.len(),
{
    broadcast use vstd::multiset::group_multiset_axioms;
    if s1.len() == 0 {
        vstd::seq_lib::to_multiset_len(s1);
        vstd::seq_lib::to_multiset_len(s2);
        assert(s1.map_values(f) =~= Seq::<B>::empty());
        assert(s2.map_values(f) =~= Seq::<B>::empty());
    } else {
        let x = s1.last();
        let rest = s1.drop_last();
        assert(rest.push(x) =~= s1);
        vstd::seq_lib::to_multiset_build(rest, x);
        vstd::seq_lib::to_multiset_contains(s2, x);
        assert(s2.to_multiset().count(x) > 0);
        let j = choose|j: int| 0 <= j < s2.len() && s2[j] == x;
        vstd::seq_lib::to_multiset_remove(s2, j);
        assert(s2.remove(j).to_multiset() =~= rest.to_multiset());
        lemma_map_same_elements(rest, s2.remove(j), f);
        let m1 = s1.map_values(f);
        let m2 = s2.map_values(f);
        assert(rest.map_values(f).push(f(x)) =~= m1);
        vstd::seq_lib::to_multiset_build(rest.map_values(f), f(x));
        assert(s2.remove(j).map_values(f) =~= m2.remove(j));
        vstd::seq_lib::to_multiset_remove(m2, j);
        vstd::seq_lib::to_multiset_contains(m2, f(x));
        assert(m2.contains(f(x))) by {
            assert(m2[j] == f(x));
        }
        assert(m1.to_multiset() =~= m2.to_multiset());
    }
}

proof fn lemma_condition_encodings_map(s: Seq<Condition>)
    ensures
        condition_encodings(s) == s.map_values(|c: Condition| spec_encoding(c)),
    decreases s.len(),
{
    if s.len() > 0 {
        lemma_condition_encodings_map(s.subrange(0, s.len() - 1));
        assert(s.subrange(0, s.len() - 1).map_values(|c: Condition| spec_encoding(c)).push(
            spec_encoding(s[s.len() - 1]),
        ) =~= s.map_values(|c: Condition| spec_encoding(c)));
    } else {
        assert(s.map_values(|c: Condition| spec_encoding(c)) =~= Seq::<Seq<u8>>::empty());
    }
}

proof fn lemma_costs_of_map(s: Seq<Condition>)
    ensures
        costs_of(s) == s.map_values(|c: Condition| spec_cost(c)),
    decreases s.len(),
{
    if s.len() > 0 {
        lemma_costs_of_map(s.subrange(0, s.len() - 1));
        assert(s.subrange(0, s.len() - 1).map_values(|c: Condition| spec_cost(c)).push(
            spec_cost(s[s.len() - 1]),
        ) =~= s.map_values(|c: Condition| spec_cost(c)));
    } else {
        assert(s.map_values(|c: Condition| spec_cost(c)) =~= Seq::<int>::empty());
    }
}

proof fn lemma_subtypes_of_all_members(s: Seq<Condition>, x: u8)
    ensures
        subtypes_of_all(s).contains(x) <==> exists|i: int|
            0 <= i < s.len() && (spec_type(#[trigger] s[i]).spec_id() == x || spec_subtypes(
                s[i],
            ).contains(x)),
    decreases s.len(),
{
    if s.len() > 0 {
        let n = s.len() - 1;
        lemma_subtypes_of_all_members(s.subrange(0, n), x);
        if subtypes_of_all(s).contains(x) {
            if subtypes_of_all(s.subrange(0, n)).contains(x) {
                let i = choose|i: int|
                    0 <= i < n && (spec_type(#[trigger] s.subrange(0, n)[i]).spec_id() == x
                        || spec_subtypes(s.subrange(0, n)[i]).contains(x));
                assert(s.subrange(0, n)[i] == s[i]);
            } else {
                assert(spec_type(s[n]).spec_id() == x || spec_subtypes(s[n]).contains(x));
            }
        }
        if exists|i: int|
            0 <= i < s.len() && (spec_type(#[trigger] s[i]).spec_id() == x || spec_subtypes(
                s[i],
            ).contains(x)) {
            let i = choose|i: int|
                0 <= i < s.len() && (spec_type(#[trigger] s[i]).spec_id() == x || spec_subtypes(
                    s[i],
                ).contains(x));
            if i < n {
                assert(s.subrange(0, n)[i] == s[i]);
            }
        }
    }
}

/// A threshold's fingerprint, cost, subtypes and condition encoding do not
/// depend on the order of its subconditions.
pub proof fn lemma_threshold_order_irrelevant(t: u16, a: Vec<Condition>, b: Vec<Condition>)
    requires
        a@.to_multiset() == b@.to_multiset(),
    ensures
        spec_fingerprint(Condition::Threshold { threshold: t, subconditions: a })
            == spec_fingerprint(Condition::Threshold { threshold: t, subconditions: b }),
        spec_cost(Condition::Threshold { threshold: t, subconditions: a }) == spec_cost(
            Condition::Threshold { threshold: t, subconditions: b },
        ),
        spec_subtypes(Condition::Threshold { threshold: t, subconditions: a }) == spec_subtypes(
            Condition::Threshold { threshold: t, subconditions: b },
        ),
        spec_encoding(Condition::Threshold { threshold: t, subconditions: a }) == spec_encoding(
            Condition::Threshold { threshold: t, subconditions: b },
        ),
{
    let ca = Condition::Threshold { threshold: t, subconditions: a };
    let cb = Condition::Threshold { threshold: t, subconditions: b };
    vstd::seq_lib::to_multiset_len(a@);
    vstd::seq_lib::to_multiset_len(b@);
    lemma_condition_encodings_map(a@);
    lemma_condition_encodings_map(b@);
    lemma_map_same_elements(a@, b@, |c: Condition| spec_encoding(c));
    lemma_x690_total_ordering();
    let ea = condition_encodings(a@);
    let eb = condition_encodings(b@);
    ea.lemma_sort_by_ensures(x690_order());
    eb.lemma_sort_by_ensures(x690_order());
    vstd::seq_lib::lemma_sorted_unique(ea.sort_by(x690_order()), eb.sort_by(x690_order()), x690_order());
    assert(spec_fingerprint(ca) == spec_fingerprint(cb));
    lemma_costs_of_map(a@);
    lemma_costs_of_map(b@);
    lemma_map_same_elements(a@, b@, |c: Condition| spec_cost(c));
    lemma_descending_total_ordering();
    let ka = costs_of(a@);
    let kb = costs_of(b@);
    ka.lemma_sort_by_ensures(descending());
    kb.lemma_sort_by_ensures(descending());
    vstd::seq_lib::lemma_sorted_unique(ka.sort_by(descending()), kb.sort_by(descending()), descending());
    assert(ka.len() == kb.len());
    assert(spec_cost(ca) == spec_cost(cb));
    assert forall|x: u8| subtypes_of_all(a@).contains(x) == subtypes_of_all(b@).contains(x) by {
        lemma_subtypes_of_all_members(a@, x);
        lemma_subtypes_of_all_members(b@, x);
        assert forall|c: Condition| a@.contains(c) == b@.contains(c) by {
            vstd::seq_lib::to_multiset_contains(a@, c);
            vstd::seq_lib::to_multiset_contains(b@, c);
        }
        if subtypes_of_all(a@).contains(x) {
            let i = choose|i: int|
                0 <= i < a@.len() && (spec_type(#[trigger] a@[i]).spec_id() == x || spec_subtypes(
                    a@[i],
                ).contains(x));
            assert(a@.contains(a@[i]));
            let j = choose|j: int| 0 <= j < b@.len() && b@[j] == a@[i];
            assert(spec_type(b@[j]).spec_id() == x || spec_subtypes(b@[j]).contains(x));
        }
        if subtypes_of_all(b@).contains(x) {
            let i = choose|i: int|
                0 <= i < b@.len() && (spec_type(#[trigger] b@[i]).spec_id() == x || spec_subtypes(
                    b@[i],
                ).contains(x));
            assert(b@.contains(b@[i]));
            let j = choose|j: int| 0 <= j < a@.len() && a@[j] == b@[i];
            assert(spec_type(a@[j]).spec_id() == x || spec_subtypes(a@[j]).contains(x));
        }
    }
    assert(subtypes_of_all(a@) =~= subtypes_of_all(b@));
    assert(spec_subtypes(ca) == spec_subtypes(cb));
}


/// The number of subconditions that have a fulfillment.
pub open spec fn fulfilled_count(fuls: Seq<Option<Seq<u8>>>) -> nat
    decreases fuls.len(),
{
    if fuls.len() == 0 {
        0
    } else {
        fulfilled_count(fuls.drop_last()) + if fuls.last() is Some {
            1nat
        } else {
            0nat
        }
    }
}

/// The number of keys marking a fulfilled subcondition.
spec fn zero_flags(s: Seq<(int, int, int)>) -> nat
    decreases s.len(),
{
    if s.len() == 0 {
        0
    } else {
        zero_flags(s.drop_last()) + if s.last().0 == 0 {
            1nat
        } else {
            0nat
        }
    }
}

proof fn lemma_zero_flags_remove(s: Seq<(int, int, int)>, j: int)
    requires
        0 <= j < s.len(),
    ensures
        zero_flags(s) == zero_flags(s.remove(j)) + if s[j].0 == 0 {
            1nat
        } else {
            0nat
        },
    decreases s.len(),
{
    if j < s.len() - 1 {
        lemma_zero_flags_remove(s.drop_last(), j);
        assert(s.remove(j).drop_last() =~= s.drop_last().remove(j));
    } else {
        assert(s.remove(j) =~= s.drop_last());
    }
}

proof fn lemma_zero_flags_permutation(a: Seq<(int, int, int)>, b: Seq<(int, int, int)>)
    requires
        a.to_multiset() == b.to_multiset(),
    ensures
        zero_flags(a) == zero_flags(b),
    decreases a.len(),
{
    broadcast use vstd::multiset::group_multiset_axioms;
    if a.len() == 0 {
        vstd::seq_lib::to_multiset_len(a);
        vstd::seq_lib::to_multiset_len(b);
    } else {
        let x = a.last();
        let rest = a.drop_last();
        assert(rest.push(x) =~= a);
        vstd::seq_lib::to_multiset_build(rest, x);
        vstd::seq_lib::to_multiset_contains(b, x);
        let j = choose|j: int| 0 <= j < b.len() && b[j] == x;
        vstd::seq_lib::to_multiset_remove(b, j);
        assert(b.remove(j).to_multiset() =~= rest.to_multiset());
        lemma_zero_flags_permutation(rest, b.remove(j));
        lemma_zero_flags_remove(b, j);
    }
}

proof fn lemma_zero_flags_split(s: Seq<(int, int, int)>, k: int)
    requires
        0 <= k <= s.len(),
    ensures
        zero_flags(s) == zero_flags(s.take(k)) + zero_flags(s.skip(k)),
        zero_flags(s.take(k)) <= k,
        (forall|i: int| 0 <= i < k ==> s[i].0 == 0) ==> zero_flags(s.take(k)) == k,
        (forall|i: int| k <= i < s.len() ==> s[i].0 != 0) ==> zero_flags(s.skip(k)) == 0,
    decreases s.len(),
{
    if s.len() == k {
        assert(s.take(k) =~= s);
        assert(s.skip(k) =~= Seq::<(int, int, int)>::empty());
        lemma_zero_flags_prefix(s, k);
    } else {
        lemma_zero_flags_split(s.drop_last(), k);
        assert(s.drop_last().take(k) =~= s.take(k));
        assert(s.skip(k).drop_last() =~= s.drop_last().skip(k));
        assert(s.skip(k).last() == s.last());
    }
}

proof fn lemma_zero_flags_prefix(s: Seq<(int, int, int)>, k: int)
    requires
        0 <= k <= s.len(),
    ensures
        zero_flags(s.take(k)) <= k,
        (forall|i: int| 0 <= i < k ==> s[i].0 == 0) ==> zero_flags(s.take(k)) == k,
    decreases k,
{
    if k > 0 {
        lemma_zero_flags_prefix(s, k - 1);
        assert(s.take(k).drop_last() =~= s.take(k - 1));
    } else {
        assert(s.take(0) =~= Seq::<(int, int, int)>::empty());
    }
}

proof fn lemma_fulfilled_count_keys(s: Seq<Condition>, fuls: Seq<Option<Seq<u8>>>, m: int)
    requires
        fuls.len() == s.len(),
        0 <= m <= s.len(),
    ensures
        zero_flags(Seq::new(s.len(), |i: int| fulfillment_key(fuls[i], spec_cost(s[i]), i)).take(m))
            == fulfilled_count(fuls.take(m)),
    decreases m,
{
    let keys = Seq::new(s.len(), |i: int| fulfillment_key(fuls[i], spec_cost(s[i]), i));
    if m > 0 {
        lemma_fulfilled_count_keys(s, fuls, m - 1);
        assert(keys.take(m).drop_last() =~= keys.take(m - 1));
        assert(fuls.take(m).drop_last() =~= fuls.take(m - 1));
    } else {
        assert(keys.take(0) =~= Seq::<(int, int, int)>::empty());
        assert(fuls.take(0) =~= Seq::<Option<Seq<u8>>>::empty());
    }
}

/// A threshold has a fulfillment exactly when at least `threshold` of its
/// subconditions have one.
pub proof fn lemma_threshold_fulfilled_iff(threshold: u16, subconditions: Vec<Condition>)
    requires
        threshold >= 1,
    ensures
        spec_fulfillment(Condition::Threshold { threshold, subconditions }) is Some
            <==> fulfilled_count(fulfillments_of(subconditions@)) >= threshold,
{
    let s = subconditions@;
    let fuls = fulfillments_of(s);
    crate::condition::lemma_fulfillments_of(s);
    let n = s.len() as int;
    let t = threshold as int;
    let keys = Seq::new(s.len(), |i: int| fulfillment_key(fuls[i], spec_cost(s[i]), i));
    let order = fulfillment_order(s, fuls);
    lemma_sorted_keys(keys);
    keys.lemma_sort_by_ensures(triple_order());
    lemma_zero_flags_permutation(order, keys);
    lemma_fulfilled_count_keys(s, fuls, n);
    assert(keys.take(n) =~= keys);
    assert(fuls.take(n) =~= fuls);
    assert forall|k: int| 0 <= k < n implies #[trigger] order[k].2 < n && order[k].2 >= 0 && (
    order[k].0 == 0 <==> fuls[order[k].2] is Some) && (order[k].0 == 0 || order[k].0 == 1) by {
        assert(keys.contains(order[k]));
        let i = choose|i: int| 0 <= i < keys.len() && keys[i] == order[k];
        assert(keys[i] == fulfillment_key(fuls[i], spec_cost(s[i]), i));
    }
    if n >= t {
        lemma_zero_flags_split(order, t - 1);
        lemma_zero_flags_split(order, t);
        if order[t - 1].0 == 0 {
            assert forall|i: int| 0 <= i < t implies order[i].0 == 0 by {
                if i < t - 1 {
                    assert(triple_order()(order[i], order[t - 1]));
                }
            }
        } else {
            assert forall|i: int| t - 1 <= i < n implies order[i].0 != 0 by {
                if i > t - 1 {
                    assert(triple_order()(order[t - 1], order[i]));
                }
            }
        }
    } else {
        lemma_zero_flags_prefix(order, n);
        assert(order.take(n) =~= order);
    }
}

/// In a threshold's set of subcondition encodings, a longer encoding comes
/// before every strictly shorter one and never after it.
pub proof fn lemma_longer_encodings_first(a: Seq<u8>, b: Seq<u8>)
    requires
        a.len() > b.len(),
    ensures
        x690_order()(a, b),
        !x690_order()(b, a),
{
}

/// The subcondition encodings a threshold's fingerprint hashes come longest
/// first: no encoding is followed by a longer one.
pub proof fn lemma_fingerprint_encodings_longest_first(subconditions: Seq<Condition>)
    ensures
        ({
            let sorted = condition_encodings(subconditions).sort_by(x690_order());
            forall|i: int, j: int| 0 <= i < j < sorted.len() ==> #[trigger] sorted[i].len() >= #[trigger] sorted[j].len()
        }),
{
    let sorted = condition_encodings(subconditions).sort_by(x690_order());
    lemma_x690_total_ordering();
    condition_encodings(subconditions).lemma_sort_by_ensures(x690_order());
    assert forall|i: int, j: int| 0 <= i < j < sorted.len() implies #[trigger] sorted[i].len() >= #[trigger] sorted[j].len() by {
        assert(x690_order()(sorted[i], sorted[j]));
    }
}

/// The fingerprint of a secp256k1 condition is the SHA-256 digest of the DER
/// SEQUENCE whose one element, tagged [0], is the 33-byte compressed key:
/// `30 23 80 21` followed by the key, not the key alone.
pub proof fn lemma_secp256k1_fingerprint(pubkey: PublicKey, signature: Option<Signature>)
    requires
        pubkey@.len() == 33,
    ensures
        spec_fingerprint(Condition::Secp256k1 { pubkey, signature }) == sha256_digest(
            seq![0x30u8, 0x23u8, 0x80u8, 0x21u8] + pubkey@,
        ),
{
    let k = pubkey@;
    let inner = der_context(false, 0, k);
    assert(inner =~= seq![0x80u8, 0x21u8] + k);
    assert(seq![0x30u8] + crate::internal::der_length(inner.len()) + inner =~= seq![0x30u8, 0x23u8, 0x80u8, 0x21u8] + k);
}

/// The fulfillment of a signed secp256k1 condition is the element tagged 5
/// holding the 33-byte public key as element [0] and the 64-byte signature
/// as element [1]: `a5 65 80 21 <key> 81 40 <signature>`.
pub proof fn lemma_secp256k1_fulfillment(pubkey: PublicKey, sig: Signature)
    requires
        pubkey@.len() == 33,
        sig@.len() == 64,
    ensures
        spec_fulfillment(Condition::Secp256k1 { pubkey, signature: Some(sig) }) == Some(
            seq![0xa5u8, 0x65u8, 0x80u8, 0x21u8] + pubkey@ + seq![0x81u8, 0x40u8] + sig@,
        ),
{
    let k = pubkey@;
    let g = sig@;
    crate::internal::lemma_data_concat_one(k);
    assert(seq![k, g].drop_last() =~= seq![k]);
    let body = der_context(false, 0, k) + der_context(false, 1, g);
    assert(der_context(false, 0, k) =~= seq![0x80u8, 0x21u8] + k);
    assert(der_context(false, 1, g) =~= seq![0x81u8, 0x40u8] + g);
    assert(body.len() == 101);
    assert(der_context(true, 5, body) =~= seq![0xa5u8, 0x65u8, 0x80u8, 0x21u8] + k + seq![0x81u8, 0x40u8] + g);
}

/// The condition encoding of every condition is the element tagged with its
/// type id holding the fingerprint as element [0], the cost (as a signed
/// big-endian integer) as element [1] and, for types that carry subtypes,
/// the packed subtypes as element [2].
pub proof fn lemma_encoding_layout(c: Condition)
    ensures
        spec_encoding(c) == der_context(
            true,
            spec_type(c).spec_id() as nat,
            der_context(false, 0, spec_fingerprint(c)) + der_context(
                false,
                1,
                signed_be_bytes(spec_cost(c) as nat),
            ) + if spec_has_subtypes(c) {
                der_context(false, 2, packed_set(spec_subtypes(c)))
            } else {
                Seq::empty()
            },
        ),
{
    let f = spec_fingerprint(c);
    let k = signed_be_bytes(spec_cost(c) as nat);
    crate::internal::lemma_data_concat_one(f);
    assert(seq![f, k].drop_last() =~= seq![f]);
    assert(crate::internal::data_concat(seq![f, k]) == der_context(false, 0, f) + der_context(false, 1, k));
    if spec_has_subtypes(c) {
        let p = packed_set(spec_subtypes(c));
        assert(seq![f, k, p].drop_last() =~= seq![f, k]);
        assert(crate::internal::data_concat(seq![f, k, p]) == crate::internal::data_concat(seq![f, k])
            + der_context(false, 2, p));
    } else {
        assert(der_context(false, 0, f) + der_context(false, 1, k) + Seq::<u8>::empty() =~= der_context(
            false,
            0,
            f,
        ) + der_context(false, 1, k));
    }
}

/// Every secp256k1 condition in `c`, at any depth below thresholds, whose key
/// is `pk` carries exactly the signature `sig`.
pub open spec fn carries_signature(c: Condition, pk: Seq<u8>, sig: Seq<u8>) -> bool
    decreases c,
{
    match c {
        Condition::Secp256k1 { pubkey, signature } => pubkey@ == pk ==> (signature matches Some(x)
            && x@ == sig),
        Condition::Threshold { subconditions, .. } => forall|i: int|
            0 <= i < subconditions@.len() ==> carries_signature(#[trigger] subconditions@[i], pk, sig),
        _ => true,
    }
}

/// After signing with a key whose public key is `pk`, every secp256k1
/// condition with that key carries the new signature, whatever it carried
/// before, signed or not.
pub proof fn lemma_signing_sets_signature(old: Condition, new: Condition, pk: Seq<u8>, sig: Seq<u8>)
    requires
        signed_with(old, new, pk, sig),
    ensures
        carries_signature(new, pk, sig),
    decreases old,
{
    if let Condition::Threshold { subconditions, .. } = old {
        let s2 = new->subconditions;
        assert forall|i: int| 0 <= i < s2@.len() implies carries_signature(#[trigger] s2@[i], pk, sig) by {
            lemma_signing_sets_signature(subconditions@[i], s2@[i], pk, sig);
        }
    }
}

/// The fulfillments of preimage and eval conditions hold their bytes as
/// element [0] of the element tagged with the type id (0 and 15), and their
/// fingerprints are the SHA-256 digests of those bytes.
pub proof fn lemma_preimage_and_eval_layout(bytes: Vec<u8>)
    ensures
        spec_fulfillment(Condition::Preimage { preimage: bytes }) == Some(
            der_context(true, 0, der_context(false, 0, bytes@)),
        ),
        spec_fulfillment(Condition::Eval { code: bytes }) == Some(
            der_context(true, 15, der_context(false, 0, bytes@)),
        ),
        spec_fingerprint(Condition::Preimage { preimage: bytes }) == sha256_digest(bytes@),
        spec_fingerprint(Condition::Eval { code: bytes }) == sha256_digest(bytes@),
{
    crate::internal::lemma_data_concat_one(bytes@);
}

/// The subtypes of a threshold are exactly the type ids of its
/// subconditions and the subtypes they carry, the threshold's own id aside.
pub proof fn lemma_threshold_subtypes(threshold: u16, subconditions: Vec<Condition>, x: u8)
    ensures
        spec_subtypes(Condition::Threshold { threshold, subconditions }).contains(x) <==> (x
            != ConditionType::ThresholdType.spec_id() && exists|i: int|
            0 <= i < subconditions@.len() && (spec_type(#[trigger] subconditions@[i]).spec_id() == x
                || spec_subtypes(subconditions@[i]).contains(x))),
{
    lemma_subtypes_of_all_members(subconditions@, x);
}

/// The costs of the conditions without subconditions: a preimage costs its
/// length, a secp256k1 condition 131072, an eval condition 1048576 and an
/// anonymous condition the cost it stores.
pub proof fn lemma_leaf_costs(bytes: Vec<u8>, pubkey: PublicKey, signature: Option<Signature>, a: Condition)
    requires
        a is Anon,
    ensures
        spec_cost(Condition::Preimage { preimage: bytes }) == bytes@.len(),
        spec_cost(Condition::Secp256k1 { pubkey, signature }) == 131072,
        spec_cost(Condition::Eval { code: bytes }) == 1048576,
        spec_cost(a) == a->cost,
{
}

/// A threshold of one costs what its dearest subcondition costs, plus 1024
/// for each subcondition.
pub proof fn lemma_threshold_of_one_cost(subconditions: Vec<Condition>)
    requires
        subconditions@.len() > 0,
    ensures
        ({
            let n = subconditions@.len();
            let m = spec_cost(Condition::Threshold { threshold: 1, subconditions }) - 1024 * n;
            &&& exists|i: int| 0 <= i < n && m == spec_cost(#[trigger] subconditions@[i])
            &&& forall|i: int| 0 <= i < n ==> spec_cost(#[trigger] subconditions@[i]) <= m
        }),
{
    let s = subconditions@;
    let n = s.len();
    let costs = costs_of(s);
    lemma_costs_of_map(s);
    lemma_descending_total_ordering();
    costs.lemma_sort_by_ensures(descending());
    let sorted = costs.sort_by(descending());
    vstd::seq_lib::to_multiset_len(sorted);
    vstd::seq_lib::to_multiset_len(costs);
    assert(costs.len() == n);
    assert(sorted.len() == n);
    let first = sorted.take(1);
    assert(first.len() == 1);
    assert(first.drop_last() =~= Seq::<int>::empty());
    assert(crate::condition::sum_of(first.drop_last()) == 0);
    assert(first.last() == sorted[0]);
    assert(crate::condition::sum_of(first) == sorted[0]);
    let m = spec_cost(Condition::Threshold { threshold: 1, subconditions }) - 1024 * n;
    assert(m == sorted[0]);
    vstd::seq_lib::to_multiset_contains(sorted, sorted[0]);
    vstd::seq_lib::to_multiset_contains(costs, sorted[0]);
    let k = choose|k: int| 0 <= k < costs.len() && costs[k] == sorted[0];
    assert(m == spec_cost(s[k]));
    assert forall|i: int| 0 <= i < n implies spec_cost(#[trigger] s[i]) <= m by {
        assert(costs[i] == spec_cost(s[i]));
        vstd::seq_lib::to_multiset_contains(costs, costs[i]);
        vstd::seq_lib::to_multiset_contains(sorted, costs[i]);
        let j = choose|j: int| 0 <= j < sorted.len() && sorted[j] == costs[i];
        if j > 0 {
            assert(descending()(sorted[0], sorted[j]));
        }
    }
}

/// The fingerprint of a threshold is the SHA-256 digest of a DER SEQUENCE
/// holding the threshold as element [0] (a signed big-endian integer) and,
/// as the constructed element [1], the condition encodings of its
/// subconditions in X.690 set order.
pub proof fn lemma_threshold_fingerprint_layout(threshold: u16, subconditions: Vec<Condition>)
    ensures
        ({
            let set = crate::internal::concat_all(condition_encodings(subconditions@).sort_by(x690_order()));
            let body = der_context(false, 0, signed_be_bytes(threshold as nat)) + seq![0xa1u8]
                + crate::internal::der_length(set.len()) + set;
            spec_fingerprint(Condition::Threshold { threshold, subconditions }) == sha256_digest(
                seq![0x30u8] + crate::internal::der_length(body.len()) + body,
            )
        }),
{
    let set = crate::internal::concat_all(condition_encodings(subconditions@).sort_by(x690_order()));
    let a = der_context(false, 0, signed_be_bytes(threshold as nat));
    assert(der_context(true, 1, set) =~= seq![0xa1u8] + crate::internal::der_length(set.len()) + set);
    assert(a + der_context(true, 1, set) =~= a + seq![0xa1u8] + crate::internal::der_length(set.len()) + set);
}

/// The order in which a threshold's fulfillment takes its subconditions
/// (the first `threshold` as fulfillments, the rest as conditions): every
/// position names a subcondition; fulfilled ones come before unfulfilled
/// ones; fulfilled ones come cheapest first, equal costs in their own order;
/// unfulfilled ones come in their own order.
pub proof fn lemma_fulfillment_order_cheapest_first(s: Seq<Condition>)
    ensures
        ({
            let n = s.len() as int;
            let fuls = fulfillments_of(s);
            let order = fulfillment_order(s, fuls);
            &&& order.len() == n
            &&& forall|k: int| 0 <= k < n ==> 0 <= #[trigger] order[k].2 < n
            &&& forall|k: int, l: int|
                0 <= k < l < n && (fuls[#[trigger] order[l].2] is Some) ==> (fuls[#[trigger] order[k].2] is Some)
            &&& forall|k: int, l: int|
                0 <= k < l < n && (fuls[#[trigger] order[k].2] is Some) && (fuls[#[trigger] order[l].2] is Some)
                    ==> spec_cost(s[order[k].2]) < spec_cost(s[order[l].2]) || (spec_cost(s[order[k].2])
                    == spec_cost(s[order[l].2]) && order[k].2 <= order[l].2)
            &&& forall|k: int, l: int|
                0 <= k < l < n && (fuls[#[trigger] order[k].2] is None) && (fuls[#[trigger] order[l].2] is None)
                    ==> order[k].2 <= order[l].2
        }),
{
    let n = s.len() as int;
    let fuls = fulfillments_of(s);
    crate::condition::lemma_fulfillments_of(s);
    let keys = Seq::new(s.len(), |i: int| fulfillment_key(fuls[i], spec_cost(s[i]), i));
    let order = fulfillment_order(s, fuls);
    lemma_sorted_keys(keys);
    assert forall|k: int| 0 <= k < n implies #[trigger] order[k] == keys[order[k].2] && 0 <= order[k].2 < n by {
        assert(keys.contains(order[k]));
        let i = choose|i: int| 0 <= i < keys.len() && keys[i] == order[k];
        assert(keys[i] == fulfillment_key(fuls[i], spec_cost(s[i]), i));
    }
    assert forall|k: int, l: int| 0 <= k < l < n implies triple_order()(#[trigger] order[k], #[trigger] order[l]) by {
    }
}

/// A fulfilled threshold's fulfillment is the constructed element tagged 2
/// holding, as constructed element [0], the fulfillments of the first
/// `threshold` subconditions in fulfillment order and, as constructed element
/// [1], the condition encodings of the others in that order.
pub proof fn lemma_threshold_fulfillment_layout(threshold: u16, subconditions: Vec<Condition>)
    requires
        spec_fulfillment(Condition::Threshold { threshold, subconditions }) is Some,
    ensures
        ({
            let s = subconditions@;
            let n = s.len() as int;
            let t = threshold as int;
            let fuls = fulfillments_of(s);
            let order = fulfillment_order(s, fuls);
            let f = crate::internal::concat_all(Seq::new(t as nat, |k: int| fuls[order[k].2]->0));
            let c = crate::internal::concat_all(
                Seq::new((n - t) as nat, |k: int| spec_encoding(s[order[t + k].2])),
            );
            let x = seq![0xa0u8] + crate::internal::der_length(f.len()) + f + seq![0xa1u8]
                + crate::internal::der_length(c.len()) + c;
            &&& 1 <= t <= n
            &&& spec_fulfillment(Condition::Threshold { threshold, subconditions }) == Some(
                seq![0xa2u8] + crate::internal::der_length(x.len()) + x,
            )
        }),
{
    let s = subconditions@;
    let n = s.len() as int;
    let t = threshold as int;
    let fuls = fulfillments_of(s);
    let order = fulfillment_order(s, fuls);
    let f = crate::internal::concat_all(Seq::new(t as nat, |k: int| fuls[order[k].2]->0));
    let c = crate::internal::concat_all(Seq::new((n - t) as nat, |k: int| spec_encoding(s[order[t + k].2])));
    assert(der_context(true, 0, f) =~= seq![0xa0u8] + crate::internal::der_length(f.len()) + f);
    assert(der_context(true, 1, c) =~= seq![0xa1u8] + crate::internal::der_length(c.len()) + c);
    let x = der_context(true, 0, f) + der_context(true, 1, c);
    assert(x =~= seq![0xa0u8] + crate::internal::der_length(f.len()) + f + seq![0xa1u8]
        + crate::internal::der_length(c.len()) + c);
    assert(der_context(true, 2, x) =~= seq![0xa2u8] + crate::internal::der_length(x.len()) + x);
}

} // verus!
