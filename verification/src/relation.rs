//! Sorted triple relations, and the datafrog operations the reasoner builds on.
use vstd::prelude::*;
use datafrog::Relation;

verus! {

/// An interned term identifier.
pub type URI = u32;

/// A triple of interned identifiers, keyed by its subject: `(s, (p, o))`.
pub type KeyedTriple = (URI, (URI, URI));

/// Lexicographic order on triples (the order of Rust tuples).
pub open spec fn triple_lt(a: KeyedTriple, b: KeyedTriple) -> bool {
    a.0 < b.0 || (a.0 == b.0 && (a.1.0 < b.1.0 || (a.1.0 == b.1.0 && a.1.1 < b.1.1)))
}

/// Strictly ascending: sorted and without duplicates.
pub open spec fn sorted_strict(s: Seq<KeyedTriple>) -> bool {
    forall|i: int, j: int| 0 <= i < j < s.len() ==> triple_lt(#[trigger] s[i], #[trigger] s[j])
}

/// Ascending, duplicates allowed.
pub open spec fn sorted(s: Seq<KeyedTriple>) -> bool {
    forall|i: int, j: int| 0 <= i < j < s.len() ==> !triple_lt(#[trigger] s[j], #[trigger] s[i])
}

/// Exec form of `triple_lt`.
pub fn lt(a: KeyedTriple, b: KeyedTriple) -> (r: bool)
    ensures
        r == triple_lt(a, b),
{
    a.0 < b.0 || (a.0 == b.0 && (a.1.0 < b.1.0 || (a.1.0 == b.1.0 && a.1.1 < b.1.1)))
}

/// Exec equality of triples.
pub fn triple_eq(a: KeyedTriple, b: KeyedTriple) -> (r: bool)
    ensures
        r == (a == b),
{
    a.0 == b.0 && a.1.0 == b.1.0 && a.1.1 == b.1.1
}

/// Builds a datafrog `Relation` from the triples (`Relation::from_vec`, which
/// sorts and deduplicates) and hands back its elements: a strictly ascending
/// sequence holding exactly the triples of `v`, no longer than `v`.
#[verifier::external_body]
pub(crate) fn relation_of(v: Vec<KeyedTriple>) -> (r: Vec<KeyedTriple>)
    ensures
        sorted_strict(r@),
        forall|t: KeyedTriple| #[trigger] r@.contains(t) <==> v@.contains(t),
        r@.len() <= v@.len(),
{
    Relation::from_vec(v).elements
}

/// The union of two relations (datafrog `Relation::merge`): a strictly
/// ascending sequence holding the triples of both.
#[verifier::external_body]
pub(crate) fn merge(a: Vec<KeyedTriple>, b: Vec<KeyedTriple>) -> (r: Vec<KeyedTriple>)
    requires
        sorted_strict(a@),
        sorted_strict(b@),
    ensures
        sorted_strict(r@),
        forall|t: KeyedTriple| #[trigger] r@.contains(t) <==> (a@.contains(t) || b@.contains(t)),
{
    Relation { elements: a }.merge(Relation { elements: b }).elements
}

/// The join of two keyed relations (datafrog `Relation::from_join`): every
/// `(k, v1, v2)` with `(k, v1)` in `a` and `(k, v2)` in `b`, each once.
#[verifier::external_body]
pub(crate) fn join(a: &Vec<KeyedTriple>, b: &Vec<KeyedTriple>) -> (r: Vec<(URI, (URI, URI), (URI, URI))>)
    ensures
        forall|k: URI, v1: (URI, URI), v2: (URI, URI)|
            #![trigger r@.contains((k, v1, v2))]
            #![trigger a@.contains((k, v1)), b@.contains((k, v2))]
            r@.contains((k, v1, v2)) <==> (a@.contains((k, v1)) && b@.contains((k, v2))),
{
    let ra = Relation::from_vec(a.clone());
    let rb = Relation::from_vec(b.clone());
    Relation::from_join(&ra, &rb, |k: &URI, x: &(URI, URI), y: &(URI, URI)| (*k, *x, *y)).elements
}

/// Sorts the triples in place (`slice::sort_unstable`): a permutation of the
/// old contents, in ascending order.
#[verifier::external_body]
pub(crate) fn sort_triples(v: &mut Vec<KeyedTriple>)
    ensures
        final(v)@.to_multiset() == old(v)@.to_multiset(),
        sorted(final(v)@),
{
    v.sort_unstable()
}

/// Whether a strictly ascending sequence holds `t` (binary search).
pub fn contains_sorted(s: &Vec<KeyedTriple>, t: KeyedTriple) -> (r: bool)
    requires
        sorted_strict(s@),
    ensures
        r == s@.contains(t),
{
    let mut lo: usize = 0;
    let mut hi: usize = s.len();
    while lo < hi
        invariant
            sorted_strict(s@),
            0 <= lo <= hi <= s@.len(),
            forall|i: int| 0 <= i < lo ==> triple_lt(#[trigger] s@[i], t),
            forall|i: int| hi <= i < s@.len() ==> triple_lt(t, #[trigger] s@[i]),
        decreases hi - lo,
    {
        let mid = lo + (hi - lo) / 2;
        let m = s[mid];
        if lt(m, t) {
            lo = mid + 1;
        } else if lt(t, m) {
            hi = mid;
        } else {
            assert(s@[mid as int] == t);
            return true;
        }
    }
    assert forall|i: int| 0 <= i < s@.len() implies s@[i] != t by {
        if i < lo {
            assert(triple_lt(s@[i], t));
        } else {
            assert(triple_lt(t, s@[i]));
        }
    }
    false
}

/// Removes from `rv` the triples that occur in `src`, by a linear merge of the
/// two ascending sequences; the triples that stay keep their order.
pub fn get_unique(src: &[KeyedTriple], rv: &mut Vec<KeyedTriple>)
    requires
        sorted(src@),
        sorted(old(rv)@),
    ensures
        final(rv)@ == old(rv)@.filter(|t: KeyedTriple| !src@.contains(t)),
{
    let ghost pred = |t: KeyedTriple| !src@.contains(t);
    let n = src.len();
    let m = rv.len();
    if n == 0 || m == 0 {
        proof {
            if n == 0 {
                lemma_filter_all(old(rv)@, pred);
            } else {
                assert(old(rv)@ =~= Seq::<KeyedTriple>::empty());
                reveal_with_fuel(Seq::<_>::filter, 1);
            }
        }
        return;
    }
    let mut i: usize = 0;
    let mut j: usize = 0;
    let mut out: Vec<KeyedTriple> = Vec::with_capacity(m);
    while j < m
        invariant
            n == src@.len(),
            m == rv@.len(),
            rv@ == old(rv)@,
            sorted(src@),
            sorted(rv@),
            0 <= i <= n,
            0 <= j <= m,
            out@ == rv@.take(j as int).filter(pred),
            pred == (|t: KeyedTriple| !src@.contains(t)),
            j < m ==> forall|k: int| 0 <= k < i ==> triple_lt(#[trigger] src@[k], rv@[j as int]),
        decreases m - j,
    {
        let b = rv[j];
        while i < n && lt(src[i], b)
            invariant
                n == src@.len(),
                sorted(src@),
                0 <= i <= n,
                j < m,
                b == rv@[j as int],
                forall|k: int| 0 <= k < i ==> triple_lt(#[trigger] src@[k], b),
            decreases n - i,
        {
            i += 1;
        }
        let present = i < n && triple_eq(src[i], b);
        proof {
            if present {
                assert(src@[i as int] == b);
                assert(src@.contains(b));
            } else {
                assert forall|k: int| 0 <= k < n implies src@[k] != b by {
                    if k < i {
                        assert(triple_lt(src@[k], b));
                    } else {
                        assert(!triple_lt(src@[k], src@[i as int]) || k == i);
                    }
                }
                assert(!src@.contains(b));
            }
            assert(pred(b) == !present);
        }
        if !present {
            out.push(b);
        }
        proof {
            let t1 = rv@.take(j + 1);
            assert(t1.drop_last() =~= rv@.take(j as int));
            assert(t1.last() == b);
            reveal_with_fuel(Seq::<_>::filter, 1);
            assert(out@ == t1.filter(pred));
        }
        j += 1;
        proof {
            if j < m {
                assert forall|k: int| 0 <= k < i implies triple_lt(#[trigger] src@[k], rv@[j as int]) by {
                    assert(!triple_lt(rv@[j as int], rv@[j - 1]));
                }
            }
        }
    }
    proof {
        assert(rv@.take(m as int) =~= rv@);
    }
    *rv = out;
}

/// Filtering an ascending sequence leaves it ascending.
pub proof fn lemma_sorted_filter(s: Seq<KeyedTriple>, pred: spec_fn(KeyedTriple) -> bool)
    requires
        sorted(s),
    ensures
        sorted(s.filter(pred)),
    decreases s.len(),
{
    reveal_with_fuel(Seq::<_>::filter, 1);
    if s.len() > 0 {
        let s0 = s.drop_last();
        assert(sorted(s0)) by {
            assert forall|i: int, j: int| 0 <= i < j < s0.len() implies !triple_lt(#[trigger] s0[j], #[trigger] s0[i]) by {
                assert(s0[i] == s[i] && s0[j] == s[j]);
            }
        }
        lemma_sorted_filter(s0, pred);
        let f0 = s0.filter(pred);
        if pred(s.last()) {
            let f = f0.push(s.last());
            assert(s.filter(pred) == f);
            assert forall|i: int, j: int| 0 <= i < j < f.len() implies !triple_lt(#[trigger] f[j], #[trigger] f[i]) by {
                if j == f.len() - 1 {
                    assert(f0.contains(f[i]));
                    s0.lemma_filter_contains_rev(pred, f[i]);
                    let k = choose|k: int| 0 <= k < s0.len() && s0[k] == f[i];
                    assert(s[k] == f[i]);
                    assert(s[s.len() - 1] == f[j]);
                } else {
                    assert(f[i] == f0[i] && f[j] == f0[j]);
                }
            }
        } else {
            assert(s.filter(pred) == f0);
        }
    }
}

/// Filtering by a predicate that holds of every element keeps the sequence.
proof fn lemma_filter_all(s: Seq<KeyedTriple>, pred: spec_fn(KeyedTriple) -> bool)
    requires
        forall|i: int| 0 <= i < s.len() ==> pred(#[trigger] s[i]),
    ensures
        s.filter(pred) == s,
    decreases s.len(),
{
    reveal_with_fuel(Seq::<_>::filter, 1);
    if s.len() > 0 {
        lemma_filter_all(s.drop_last(), pred);
        assert(s.drop_last().push(s.last()) =~= s);
    }
}

} // verus!
