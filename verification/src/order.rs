//! The orders the library sorts by, and sorting by insertion.

use vstd::prelude::*;
use vstd::relations::{sorted_by, total_ordering};

verus! {

/// Lexicographic order on byte strings, a proper prefix coming first.
pub open spec fn lex_le(a: Seq<u8>, b: Seq<u8>) -> bool
    decreases a.len(),
{
    if a.len() == 0 {
        true
    } else if b.len() == 0 {
        false
    } else if a[0] != b[0] {
        a[0] < b[0]
    } else {
        lex_le(a.drop_first(), b.drop_first())
    }
}

/// The order of encodings inside a threshold's subcondition set: longer
/// encodings first, equal lengths lexicographically.
pub open spec fn x690_le(a: Seq<u8>, b: Seq<u8>) -> bool {
    a.len() > b.len() || (a.len() == b.len() && lex_le(a, b))
}

pub open spec fn x690_order() -> spec_fn(Seq<u8>, Seq<u8>) -> bool {
    |a: Seq<u8>, b: Seq<u8>| x690_le(a, b)
}

/// Largest first.
pub open spec fn descending() -> spec_fn(int, int) -> bool {
    |a: int, b: int| a >= b
}

/// Lexicographic order on triples.
pub open spec fn triple_le(a: (int, int, int), b: (int, int, int)) -> bool {
    a.0 < b.0 || (a.0 == b.0 && (a.1 < b.1 || (a.1 == b.1 && a.2 <= b.2)))
}

pub open spec fn triple_order() -> spec_fn((int, int, int), (int, int, int)) -> bool {
    |a: (int, int, int), b: (int, int, int)| triple_le(a, b)
}

proof fn lemma_lex_reflexive(a: Seq<u8>)
    ensures
        lex_le(a, a),
    decreases a.len(),
{
    if a.len() > 0 {
        lemma_lex_reflexive(a.drop_first());
    }
}

proof fn lemma_lex_antisymmetric(a: Seq<u8>, b: Seq<u8>)
    requires
        lex_le(a, b),
        lex_le(b, a),
    ensures
        a == b,
    decreases a.len(),
{
    if a.len() > 0 && b.len() > 0 {
        lemma_lex_antisymmetric(a.drop_first(), b.drop_first());
        assert(a =~= seq![a[0]] + a.drop_first());
        assert(b =~= seq![b[0]] + b.drop_first());
    }
    assert(a =~= b);
}

proof fn lemma_lex_transitive(a: Seq<u8>, b: Seq<u8>, c: Seq<u8>)
    requires
        lex_le(a, b),
        lex_le(b, c),
    ensures
        lex_le(a, c),
    decreases a.len(),
{
    if a.len() > 0 && b.len() > 0 && c.len() > 0 && a[0] == b[0] && b[0] == c[0] {
        lemma_lex_transitive(a.drop_first(), b.drop_first(), c.drop_first());
    }
}

proof fn lemma_lex_total(a: Seq<u8>, b: Seq<u8>)
    ensures
        lex_le(a, b) || lex_le(b, a),
    decreases a.len(),
{
    if a.len() > 0 && b.len() > 0 && a[0] == b[0] {
        lemma_lex_total(a.drop_first(), b.drop_first());
    }
}

/// The subcondition order is a total order.
pub proof fn lemma_x690_total_ordering()
    ensures
        total_ordering(x690_order()),
{
    assert forall|a: Seq<u8>| #[trigger] x690_order()(a, a) by {
        lemma_lex_reflexive(a);
    }
    assert forall|a: Seq<u8>, b: Seq<u8>|
        #[trigger] x690_order()(a, b) && #[trigger] x690_order()(b, a) implies a == b by {
        lemma_lex_antisymmetric(a, b);
    }
    assert forall|a: Seq<u8>, b: Seq<u8>, c: Seq<u8>|
        #[trigger] x690_order()(a, b) && #[trigger] x690_order()(b, c) implies x690_order()(
        a,
        c,
    ) by {
        if a.len() == b.len() && b.len() == c.len() {
            lemma_lex_transitive(a, b, c);
        }
    }
    assert forall|a: Seq<u8>, b: Seq<u8>|
        #[trigger] x690_order()(a, b) || #[trigger] x690_order()(b, a) by {
        lemma_lex_total(a, b);
    }
}

/// Largest-first is a total order.
pub proof fn lemma_descending_total_ordering()
    ensures
        total_ordering(descending()),
{
}

/// The triple order is a total order.
pub proof fn lemma_triple_total_ordering()
    ensures
        total_ordering(triple_order()),
{
}

/// Inserting an element after exactly those it does not precede keeps a sequence sorted.
pub proof fn lemma_insert_sorted<A>(s: Seq<A>, p: int, x: A, leq: spec_fn(A, A) -> bool)
    requires
        total_ordering(leq),
        sorted_by(s, leq),
        0 <= p <= s.len(),
        forall|k: int| 0 <= k < p ==> #[trigger] leq(s[k], x),
        forall|k: int| p <= k < s.len() ==> !#[trigger] leq(s[k], x),
    ensures
        sorted_by(s.insert(p, x), leq),
{
    let r = s.insert(p, x);
    assert forall|i: int, j: int| 0 <= i < j < r.len() implies #[trigger] leq(r[i], r[j]) by {
        if j < p {
            assert(leq(s[i], s[j]));
        } else if j == p {
            assert(leq(s[i], x));
        } else if i == p {
            assert(!leq(s[j - 1], x));
        } else if i < p {
            assert(leq(s[i], s[j - 1]));
        } else {
            assert(leq(s[i - 1], s[j - 1]));
        }
    }
}

/// A sorted permutation of `s` is `s.sort_by(leq)`.
pub proof fn lemma_is_sort_by<A>(r: Seq<A>, s: Seq<A>, leq: spec_fn(A, A) -> bool)
    requires
        total_ordering(leq),
        sorted_by(r, leq),
        r.to_multiset() == s.to_multiset(),
    ensures
        r == s.sort_by(leq),
{
    s.lemma_sort_by_ensures(leq);
    vstd::seq_lib::lemma_sorted_unique(r, s.sort_by(leq), leq);
}

/// Whether `a` comes no later than `b` among a threshold's subcondition encodings.
pub fn x690_before(a: &Vec<u8>, b: &Vec<u8>) -> (r: bool)
    ensures
        r == x690_le(a@, b@),
{
    if a.len() != b.len() {
        return a.len() > b.len();
    }
    let mut i: usize = 0;
    assert(a@.skip(0) =~= a@);
    assert(b@.skip(0) =~= b@);
    while i < a.len()
        invariant
            a@.len() == b@.len(),
            i <= a@.len(),
            lex_le(a@, b@) == lex_le(a@.skip(i as int), b@.skip(i as int)),
        decreases a@.len() - i,
    {
        assert(a@.skip(i as int).drop_first() =~= a@.skip(i + 1));
        assert(b@.skip(i as int).drop_first() =~= b@.skip(i + 1));
        if a[i] != b[i] {
            return a[i] < b[i];
        }
        i = i + 1;
    }
    true
}

/// The values as mathematical integers.
pub open spec fn ints(s: Seq<u64>) -> Seq<int> {
    s.map_values(|x: u64| x as int)
}

/// Sorts largest first.
pub fn sort_descending(v: &Vec<u64>) -> (r: Vec<u64>)
    ensures
        ints(r@) == ints(v@).sort_by(descending()),
{
    let mut out: Vec<u64> = Vec::new();
    proof {
        lemma_descending_total_ordering();
        assert(ints(out@) =~= ints(v@).take(0));
    }
    for i in 0..v.len()
        invariant
            total_ordering(descending()),
            sorted_by(ints(out@), descending()),
            ints(out@).to_multiset() == ints(v@).take(i as int).to_multiset(),
    {
        let x = v[i];
        let mut p: usize = 0;
        while p < out.len() && out[p] >= x
            invariant
                p <= out@.len(),
                forall|k: int| 0 <= k < p ==> out@[k] >= x,
            decreases out@.len() - p,
        {
            p = p + 1;
        }
        let ghost before = ints(out@);
        proof {
            assert forall|k: int| p <= k < before.len() implies !#[trigger] descending()(
                before[k],
                x as int,
            ) by {
                assert(descending()(before[p as int], before[k]) || k == p);
            }
            lemma_insert_sorted(before, p as int, x as int, descending());
        }
        out.insert(p, x);
        proof {
            assert(ints(out@) =~= before.insert(p as int, x as int));
            assert(ints(v@).take(i + 1) =~= ints(v@).take(i as int).push(x as int));
            vstd::seq_lib::to_multiset_insert(before, p as int, x as int);
            vstd::seq_lib::to_multiset_build(ints(v@).take(i as int), x as int);
        }
    }
    proof {
        assert(ints(v@).take(v@.len() as int) =~= ints(v@));
        lemma_is_sort_by(ints(out@), ints(v@), descending());
    }
    out
}


/// Triples as mathematical integers.
pub open spec fn triples(s: Seq<(u8, u64, usize)>) -> Seq<(int, int, int)> {
    s.map_values(|t: (u8, u64, usize)| (t.0 as int, t.1 as int, t.2 as int))
}

/// Whether triple `a` comes no later than `b` in lexicographic order.
pub fn triple_before(a: (u8, u64, usize), b: (u8, u64, usize)) -> (r: bool)
    ensures
        r == triple_le((a.0 as int, a.1 as int, a.2 as int), (b.0 as int, b.1 as int, b.2 as int)),
{
    a.0 < b.0 || (a.0 == b.0 && (a.1 < b.1 || (a.1 == b.1 && a.2 <= b.2)))
}

/// Sorts triples in lexicographic order.
pub fn sort_triples(v: &Vec<(u8, u64, usize)>) -> (r: Vec<(u8, u64, usize)>)
    ensures
        triples(r@) == triples(v@).sort_by(triple_order()),
{
    let mut out: Vec<(u8, u64, usize)> = Vec::new();
    proof {
        lemma_triple_total_ordering();
        assert(triples(out@) =~= triples(v@).take(0));
    }
    for i in 0..v.len()
        invariant
            total_ordering(triple_order()),
            sorted_by(triples(out@), triple_order()),
            triples(out@).to_multiset() == triples(v@).take(i as int).to_multiset(),
    {
        let x = v[i];
        let ghost xi = (x.0 as int, x.1 as int, x.2 as int);
        let mut p: usize = 0;
        while p < out.len() && triple_before(out[p], x)
            invariant
                p <= out@.len(),
                xi == (x.0 as int, x.1 as int, x.2 as int),
                forall|k: int| 0 <= k < p ==> #[trigger] triple_order()(triples(out@)[k], xi),
            decreases out@.len() - p,
        {
            p = p + 1;
        }
        let ghost before = triples(out@);
        proof {
            assert forall|k: int| p <= k < before.len() implies !#[trigger] triple_order()(
                before[k],
                xi,
            ) by {
                if k > p && triple_order()(before[k], xi) {
                    assert(triple_order()(before[p as int], before[k]));
                }
            }
            lemma_insert_sorted(before, p as int, xi, triple_order());
        }
        out.insert(p, x);
        proof {
            assert(triples(out@) =~= before.insert(p as int, xi));
            assert(triples(v@).take(i + 1) =~= triples(v@).take(i as int).push(xi));
            vstd::seq_lib::to_multiset_insert(before, p as int, xi);
            vstd::seq_lib::to_multiset_build(triples(v@).take(i as int), xi);
        }
    }
    proof {
        assert(triples(v@).take(v@.len() as int) =~= triples(v@));
        lemma_is_sort_by(triples(out@), triples(v@), triple_order());
    }
    out
}

} // verus!
