//! Instances of class complements, and the materialization that alternates
//! saturation with them.
use vstd::prelude::*;
use crate::relation::{KeyedTriple, URI, sorted_strict, contains_sorted};
use crate::rules::{Vocab, Lists, has, closed, derives};
use crate::engine::{select, append_all};
use crate::rdf_lists::DisjointSets;
use crate::closure::{
    lists_of, saturate, least_closed, ids_below, not_in, lemma_derives_bounded,
    lemma_strict_grows, lemma_len_bound,
};

verus! {

broadcast use vstd::seq_lib::lemma_seq_contains_after_push;

/// `c1` and `c2` are complements of each other in `S`.
pub open spec fn complementary(v: Vocab, S: Set<KeyedTriple>, c1: URI, c2: URI) -> bool {
    has(S, c1, v.owl_complementof, c2) || has(S, c2, v.owl_complementof, c1)
}

/// The complement rule: an instance `x` (typed with some class `c`) that is
/// not typed with `c1` is typed with its complement `c2`.
pub open spec fn complement_instance(
    v: Vocab,
    S: Set<KeyedTriple>,
    t: KeyedTriple,
    c1: URI,
    c2: URI,
    x: URI,
    c: URI,
) -> bool {
    &&& complementary(v, S, c1, c2)
    &&& has(S, x, v.rdf_type, c)
    &&& !S.contains((x, (v.rdf_type, c1)))
    &&& t == (x, (v.rdf_type, c2))
}

pub open spec fn derives_complement(v: Vocab, S: Set<KeyedTriple>, t: KeyedTriple) -> bool {
    exists|c1: URI, c2: URI, x: URI, c: URI| #[trigger] complement_instance(v, S, t, c1, c2, x, c)
}

/// `S` holds every triple that the complement rule derives from it.
pub open spec fn complement_closed(v: Vocab, S: Set<KeyedTriple>) -> bool {
    forall|t: KeyedTriple| #[trigger] derives_complement(v, S, t) ==> S.contains(t)
}

/// `t` types an instance of `S` with a class that has a complement in `S`:
/// the shape of what the complement rule adds, whatever was typed since.
pub open spec fn complement_shaped(v: Vocab, S: Set<KeyedTriple>, t: KeyedTriple) -> bool {
    exists|c1: URI, c2: URI, c: URI|
        #![trigger complementary(v, S, c1, c2), has(S, t.0, v.rdf_type, c)]
        complementary(v, S, c1, c2) && has(S, t.0, v.rdf_type, c) && t == (t.0, (v.rdf_type, c2))
}

/// `t` types with `c2` an instance of `S` that is not typed with `c1`.
pub open spec fn typed_outside(v: Vocab, S: Set<KeyedTriple>, c1: URI, c2: URI, t: KeyedTriple) -> bool {
    exists|x: URI, c: URI|
        #[trigger] has(S, x, v.rdf_type, c) && !S.contains((x, (v.rdf_type, c1))) && t == (x, (v.rdf_type, c2))
}

/// For the complementary classes `c1` and `c2`, each instance of `s` not
/// typed with `c1`, typed with `c2`.
fn complement_for(v: &Vocab, c1: URI, c2: URI, s: &Vec<KeyedTriple>, out: &mut Vec<KeyedTriple>)
    requires
        sorted_strict(s@),
    ensures
        old(out)@.is_prefix_of(final(out)@),
        forall|i: int|
            old(out)@.len() <= i < final(out)@.len() ==> typed_outside(*v, s@.to_set(), c1, c2, #[trigger] final(out)@[i]),
        forall|x: URI, c: URI|
            #[trigger] has(s@.to_set(), x, v.rdf_type, c) && !s@.to_set().contains((x, (v.rdf_type, c1)))
                ==> final(out)@.contains((x, (v.rdf_type, c2))),
{
    let ghost S = s@.to_set();
    let ghost start = out@;
    let mut i: usize = 0;
    while i < s.len()
        invariant
            sorted_strict(s@),
            S == s@.to_set(),
            start == old(out)@,
            0 <= i <= s@.len(),
            start.is_prefix_of(out@),
            forall|k: int| start.len() <= k < out@.len() ==> typed_outside(*v, S, c1, c2, #[trigger] out@[k]),
            forall|j: int|
                0 <= j < i && (#[trigger] s@[j]).1.0 == v.rdf_type && !s@.contains((s@[j].0, (v.rdf_type, c1)))
                    ==> out@.contains((s@[j].0, (v.rdf_type, c2))),
        decreases s@.len() - i,
    {
        let (x, (p, o)) = s[i];
        if p == v.rdf_type && !contains_sorted(s, (x, (v.rdf_type, c1))) {
            let ghost before = out@;
            out.push((x, (v.rdf_type, c2)));
            proof {
                assert(s@[i as int] == (x, (p, o)));
                assert(s@.contains(s@[i as int]));
                assert(has(S, x, v.rdf_type, o));
                assert forall|k: int| start.len() <= k < out@.len() implies typed_outside(*v, S, c1, c2, #[trigger] out@[k]) by {
                    if k < before.len() {
                        assert(out@[k] == before[k]);
                    } else {
                        assert(out@[k] == (x, (v.rdf_type, c2)));
                    }
                }
                assert forall|k: int| 0 <= k < start.len() implies #[trigger] out@[k] == start[k] by {
                    assert(before[k] == start[k]);
                }
            }
        }
        i += 1;
    }
    proof {
        assert forall|x: URI, c: URI|
            #[trigger] has(S, x, v.rdf_type, c) && !S.contains((x, (v.rdf_type, c1))) implies out@.contains(
                (x, (v.rdf_type, c2)),
            ) by {
            let j = choose|j: int| 0 <= j < s@.len() && s@[j] == (x, (v.rdf_type, c));
            assert(s@[j].1.0 == v.rdf_type);
        }
    }
}

/// Every triple that the complement rule derives from `s`, and nothing else.
pub fn complements(v: &Vocab, s: &Vec<KeyedTriple>) -> (out: Vec<KeyedTriple>)
    requires
        sorted_strict(s@),
    ensures
        forall|i: int| 0 <= i < out@.len() ==> derives_complement(*v, s@.to_set(), #[trigger] out@[i]),
        forall|t: KeyedTriple| derives_complement(*v, s@.to_set(), t) ==> #[trigger] out@.contains(t),
{
    let ghost S = s@.to_set();
    let mut pairs = select(s, v.owl_complementof, false);
    let flipped = select(s, v.owl_complementof, true);
    let ghost p1 = pairs@;
    append_all(&mut pairs, flipped);
    proof {
        assert forall|a: URI, b: URI| #[trigger] pairs@.contains((a, (b, 0u32))) <==> complementary(*v, S, a, b) by {
            if pairs@.contains((a, (b, 0u32))) {
                let j = choose|j: int| 0 <= j < pairs@.len() && pairs@[j] == (a, (b, 0u32));
                if j < p1.len() {
                    assert(p1.contains((a, (b, 0u32))));
                } else {
                    assert(flipped@[j - p1.len()] == (a, (b, 0u32)));
                    assert(flipped@.contains((a, (b, 0u32))));
                }
            }
            if has(S, a, v.owl_complementof, b) {
                assert(p1.contains((a, (b, 0u32))));
                let j = choose|j: int| 0 <= j < p1.len() && p1[j] == (a, (b, 0u32));
                assert(pairs@[j] == (a, (b, 0u32)));
            } else if has(S, b, v.owl_complementof, a) {
                assert(flipped@.contains((a, (b, 0u32))));
                let j = choose|j: int| 0 <= j < flipped@.len() && flipped@[j] == (a, (b, 0u32));
                assert(pairs@[p1.len() + j] == (a, (b, 0u32)));
            }
        }
        assert forall|j: int| 0 <= j < pairs@.len() implies (#[trigger] pairs@[j]).1.1 == 0 by {
            let e = pairs@[j];
            if j < p1.len() {
                assert(p1[j] == e);
                assert(p1.contains((e.0, (e.1.0, e.1.1))));
            } else {
                assert(flipped@[j - p1.len()] == e);
                assert(flipped@.contains((e.0, (e.1.0, e.1.1))));
            }
        }
    }
    let mut out: Vec<KeyedTriple> = Vec::new();
    let mut i: usize = 0;
    while i < pairs.len()
        invariant
            sorted_strict(s@),
            S == s@.to_set(),
            0 <= i <= pairs@.len(),
            forall|a: URI, b: URI| #[trigger] pairs@.contains((a, (b, 0u32))) <==> complementary(*v, S, a, b),
            forall|j: int| 0 <= j < pairs@.len() ==> (#[trigger] pairs@[j]).1.1 == 0,
            forall|k: int| 0 <= k < out@.len() ==> derives_complement(*v, S, #[trigger] out@[k]),
            forall|j: int, x: URI, c: URI|
                0 <= j < i && #[trigger] has(S, x, v.rdf_type, c) && !S.contains((x, (v.rdf_type, (#[trigger] pairs@[j]).0)))
                    ==> out@.contains((x, (v.rdf_type, pairs@[j].1.0))),
        decreases pairs@.len() - i,
    {
        let (c1, (c2, _z)) = pairs[i];
        proof {
            assert(pairs@[i as int] == (c1, (c2, 0u32)));
            assert(pairs@.contains((c1, (c2, 0u32))));
        }
        let ghost before = out@;
        complement_for(v, c1, c2, s, &mut out);
        proof {
            assert forall|k: int| 0 <= k < out@.len() implies derives_complement(*v, S, #[trigger] out@[k]) by {
                if k < before.len() {
                    assert(out@[k] == before[k]);
                } else {
                    assert(typed_outside(*v, S, c1, c2, out@[k]));
                    let (x, c) = choose|x: URI, c: URI|
                        #[trigger] has(S, x, v.rdf_type, c) && !S.contains((x, (v.rdf_type, c1))) && out@[k] == (x, (v.rdf_type, c2));
                    assert(complement_instance(*v, S, out@[k], c1, c2, x, c));
                }
            }
            assert forall|j: int, x: URI, c: URI|
                0 <= j < i + 1 && #[trigger] has(S, x, v.rdf_type, c) && !S.contains((x, (v.rdf_type, (#[trigger] pairs@[j]).0)))
                    implies out@.contains((x, (v.rdf_type, pairs@[j].1.0))) by {
                if j < i {
                    let w = (x, (v.rdf_type, pairs@[j].1.0));
                    let q = choose|q: int| 0 <= q < before.len() && before[q] == w;
                    assert(out@[q] == w);
                }
            }
        }
        i += 1;
    }
    proof {
        assert forall|t: KeyedTriple| derives_complement(*v, S, t) implies #[trigger] out@.contains(t) by {
            let (c1, c2, x, c) = choose|c1: URI, c2: URI, x: URI, c: URI| #[trigger] complement_instance(*v, S, t, c1, c2, x, c);
            assert(pairs@.contains((c1, (c2, 0u32))));
            let j = choose|j: int| 0 <= j < pairs@.len() && pairs@[j] == (c1, (c2, 0u32));
            assert(has(S, x, v.rdf_type, c) && !S.contains((x, (v.rdf_type, pairs@[j].0))));
        }
    }
    out
}

} // verus!

verus! {

/// The triples with identifiers below `m` form a set closed under the rules,
/// so the least closed set over such triples has identifiers below `m`.
proof fn lemma_least_bounded(v: Vocab, L: Lists, base: Seq<KeyedTriple>, r: Set<KeyedTriple>, m: int)
    requires
        least_closed(v, L, base, r),
        ids_below(base.to_set(), m),
        v.rdf_type < m,
        v.owl_thing < m,
        v.owl_sameas < m,
        forall|l: URI, w: URI| #[trigger] L(l).contains(w) ==> w < m,
    ensures
        ids_below(r, m),
{
    let U = Set::new(|t: KeyedTriple| t.0 < m && t.1.0 < m && t.1.1 < m);
    assert forall|t: KeyedTriple| #[trigger] derives(v, L, U, t) implies U.contains(t) by {
        lemma_derives_bounded(v, L, U, t, m);
    }
    assert forall|t: KeyedTriple| #[trigger] base.contains(t) implies U.contains(t) by {
        assert(base.to_set().contains(t));
    }
    assert(closed(v, L, U));
    assert(r.subset_of(U));
}

/// The least set that holds `B` and is closed under the rules: what every
/// such set holds.
pub open spec fn least_over(v: Vocab, L: Lists, B: Set<KeyedTriple>) -> Set<KeyedTriple> {
    Set::new(
        |t: KeyedTriple|
            forall|T: Set<KeyedTriple>| #[trigger] closed(v, L, T) && B.subset_of(T) ==> T.contains(t),
    )
}

/// The complement instances of `S`.
pub open spec fn complement_instances(v: Vocab, S: Set<KeyedTriple>) -> Set<KeyedTriple> {
    Set::new(|t: KeyedTriple| derives_complement(v, S, t))
}

/// Stage `k` of materialization over `B`: stage 0 is the least set closed
/// under the rules over `B`; stage `k + 1` is the least such set over stage
/// `k` and the complement instances of stage `k`.
pub open spec fn stage(v: Vocab, L: Lists, B: Set<KeyedTriple>, k: nat) -> Set<KeyedTriple>
    decreases k,
{
    if k == 0 {
        least_over(v, L, B)
    } else {
        let S = stage(v, L, B, (k - 1) as nat);
        least_over(v, L, S.union(complement_instances(v, S)))
    }
}

/// Stage `k` is the first stage to which the complement rule adds nothing.
pub open spec fn first_fixed_stage(v: Vocab, L: Lists, B: Set<KeyedTriple>, k: nat) -> bool {
    &&& complement_closed(v, stage(v, L, B, k))
    &&& forall|j: nat| j < k ==> !complement_closed(v, #[trigger] stage(v, L, B, j))
}

/// The least closed set over `base`, when it is closed and holds `base`, is
/// `least_over` of `base`.
pub proof fn lemma_least_over(v: Vocab, L: Lists, base: Seq<KeyedTriple>, r: Set<KeyedTriple>)
    requires
        least_closed(v, L, base, r),
        closed(v, L, r),
        forall|t: KeyedTriple| #[trigger] base.contains(t) ==> r.contains(t),
    ensures
        r == least_over(v, L, base.to_set()),
{
    let B = base.to_set();
    assert forall|t: KeyedTriple| r.contains(t) <==> #[trigger] least_over(v, L, B).contains(t) by {
        if r.contains(t) {
            assert forall|T: Set<KeyedTriple>| #[trigger] closed(v, L, T) && B.subset_of(T) implies T.contains(t) by {
                assert forall|u: KeyedTriple| #[trigger] base.contains(u) implies T.contains(u) by {
                    assert(B.contains(u));
                }
            }
        }
        if least_over(v, L, B).contains(t) {
            assert(B.subset_of(r)) by {
                assert forall|u: KeyedTriple| #[trigger] B.contains(u) implies r.contains(u) by {
                    assert(base.contains(u));
                }
            }
            assert(closed(v, L, r) && B.subset_of(r));
        }
    }
    assert(r =~= least_over(v, L, B));
}

/// `r` is contained in every set that holds `base` and the complement
/// instances of `r`, and is closed under the rules.
pub open spec fn least_with_complements(v: Vocab, L: Lists, base: Seq<KeyedTriple>, r: Set<KeyedTriple>) -> bool {
    forall|T: Set<KeyedTriple>|
        (forall|t: KeyedTriple| #[trigger] base.contains(t) ==> T.contains(t)) && (forall|t: KeyedTriple|
            r.contains(t) && #[trigger] complement_shaped(v, r, t) ==> T.contains(t)) && #[trigger] closed(v, L, T)
            ==> r.subset_of(T)
}

/// Saturates `input`, then adds the complement instances of the result and
/// saturates again, until the complement rule adds nothing.
pub fn materialize(v: &Vocab, ds: &DisjointSets, input: Vec<KeyedTriple>, bound: u64) -> (r: Vec<KeyedTriple>)
    requires
        ds.wf(),
        bound > 0,
        ids_below(input@.to_set(), bound as int),
        v.rdf_type < bound && v.owl_thing < bound && v.owl_sameas < bound,
        forall|k: URI|
            #[trigger] ds.first_of().contains_key(k) ==> input@.contains((k, (v.rdf_first, ds.first_of()[k]))),
    ensures
        sorted_strict(r@),
        forall|t: KeyedTriple| #[trigger] input@.contains(t) ==> r@.contains(t),
        closed(*v, lists_of(*ds), r@.to_set()),
        forall|t: KeyedTriple| #[trigger] derives_complement(*v, r@.to_set(), t) ==> r@.contains(t),
        least_with_complements(*v, lists_of(*ds), input@, r@.to_set()),
        ids_below(r@.to_set(), bound as int),
        closed(*v, lists_of(*ds), input@.to_set()) && complement_closed(*v, input@.to_set()) ==> r@.to_set()
            == input@.to_set(),
        exists|k: nat|
            #[trigger] first_fixed_stage(*v, lists_of(*ds), input@.to_set(), k) && r@.to_set() == stage(
                *v,
                lists_of(*ds),
                input@.to_set(),
                k,
            ),
{
    let ghost L = lists_of(*ds);
    let ghost base = input@;
    let m = bound;
    proof {
        assert forall|l: URI, w: URI| #[trigger] L(l).contains(w) implies w < m by {
            assert(ds.members(l).contains(w));
            let k = choose|k: URI|
                #![trigger ds.first_of()[k], crate::rdf_lists::connected(ds.links(), l, k)]
                ds.first_of().contains_key(k) && ds.first_of()[k] == w && crate::rdf_lists::connected(ds.links(), l, k);
            assert(base.contains((k, (v.rdf_first, w))));
            assert(base.to_set().contains((k, (v.rdf_first, w))));
        }
    }
    let ghost fixed = closed(*v, L, base.to_set()) && complement_closed(*v, base.to_set());
    let mut s = saturate(v, ds, input);
    let ghost mut added: Set<KeyedTriple> = Set::empty();
    let ghost B = base.to_set();
    let ghost mut k: nat = 0;
    proof {
        lemma_least_over(*v, L, base, s@.to_set());
        if fixed {
            assert(s@.to_set().subset_of(base.to_set())) by {
                assert(least_closed(*v, L, base, s@.to_set()));
                assert forall|t: KeyedTriple| #[trigger] base.contains(t) implies base.to_set().contains(t) by {}
            }
            assert(s@.to_set() =~= base.to_set());
        }
        lemma_least_bounded(*v, L, base, s@.to_set(), m as int);
        lemma_len_bound(s@, m as int);
        assert forall|T: Set<KeyedTriple>|
            (forall|t: KeyedTriple| #[trigger] base.contains(t) ==> T.contains(t)) && added.subset_of(T)
                && #[trigger] closed(*v, L, T) implies s@.to_set().subset_of(T) by {
            assert(least_closed(*v, L, base, s@.to_set()));
        }
    }
    let mut done = false;
    while !done
        invariant
            ds.wf(),
            L == lists_of(*ds),
            m > 0,
            forall|k: URI|
                #[trigger] ds.first_of().contains_key(k) ==> base.contains((k, (v.rdf_first, ds.first_of()[k]))),
            sorted_strict(s@),
            forall|t: KeyedTriple| #[trigger] base.contains(t) ==> s@.contains(t),
            closed(*v, L, s@.to_set()),
            ids_below(s@.to_set(), m as int),
            v.rdf_type < m && v.owl_thing < m && v.owl_sameas < m,
            forall|l: URI, w: URI| #[trigger] L(l).contains(w) ==> w < m,
            s@.len() <= m * m * m,
            added.subset_of(s@.to_set()),
            forall|t: KeyedTriple| #[trigger] added.contains(t) ==> complement_shaped(*v, s@.to_set(), t),
            forall|T: Set<KeyedTriple>|
                (forall|t: KeyedTriple| #[trigger] base.contains(t) ==> T.contains(t)) && added.subset_of(T)
                    && #[trigger] closed(*v, L, T) ==> s@.to_set().subset_of(T),
            done ==> forall|t: KeyedTriple| #[trigger] derives_complement(*v, s@.to_set(), t) ==> s@.contains(t),
            fixed == (closed(*v, L, base.to_set()) && complement_closed(*v, base.to_set())),
            fixed ==> s@.to_set() == base.to_set(),
            B == base.to_set(),
            stage(*v, L, B, k) == s@.to_set(),
            forall|j: nat| j < k ==> !complement_closed(*v, #[trigger] stage(*v, L, B, j)),
        decreases m * m * m - s@.len() + (if done { 0int } else { 1int }),
    {
        let ghost S = s@.to_set();
        let comp = complements(v, &s);
        let fresh = not_in(&comp, &s);
        if fresh.len() == 0 {
            proof {
                assert forall|t: KeyedTriple| #[trigger] derives_complement(*v, S, t) implies s@.contains(t) by {
                    assert(comp@.contains(t));
                    if !s@.contains(t) {
                        assert(fresh@.contains(t));
                    }
                }
            }
            done = true;
        } else {
            let ghost old_s = s@;
            let ghost f0 = fresh@[0];
            let ghost fr = fresh@;
            proof {
                assert(fresh@.contains(f0));
                if fixed {
                    assert(comp@.contains(f0));
                    let i = choose|i: int| 0 <= i < comp@.len() && comp@[i] == f0;
                    assert(derives_complement(*v, S, f0));
                    assert(base.to_set().contains(f0));
                    assert(S.contains(f0));
                    assert(false);
                }
                assert forall|t: KeyedTriple| #[trigger] fr.contains(t) implies derives_complement(*v, S, t) by {
                    assert(comp@.contains(t));
                    let i = choose|i: int| 0 <= i < comp@.len() && comp@[i] == t;
                }
            }
            let mut next = s;
            append_all(&mut next, fresh);
            let ghost nx = next@;
            proof {
                assert forall|t: KeyedTriple| #[trigger] nx.contains(t) <==> (old_s.contains(t) || fr.contains(t)) by {
                    if nx.contains(t) {
                        let i = choose|i: int| 0 <= i < nx.len() && nx[i] == t;
                        if i < old_s.len() {
                            assert(old_s[i] == t);
                        } else {
                            assert(fr[i - old_s.len()] == t);
                        }
                    }
                    if old_s.contains(t) {
                        let i = choose|i: int| 0 <= i < old_s.len() && old_s[i] == t;
                        assert(nx[i] == t);
                    }
                    if fr.contains(t) {
                        let i = choose|i: int| 0 <= i < fr.len() && fr[i] == t;
                        assert(nx[old_s.len() + i] == t);
                    }
                }
                assert forall|k: URI| #[trigger] ds.first_of().contains_key(k) implies nx.contains(
                    (k, (v.rdf_first, ds.first_of()[k])),
                ) by {
                    assert(old_s.contains((k, (v.rdf_first, ds.first_of()[k]))));
                }
                assert forall|t: KeyedTriple| #[trigger] nx.to_set().contains(t) implies t.0 < m && t.1.0 < m && t.1.1 < m by {
                    if old_s.contains(t) {
                        assert(S.contains(t));
                    } else {
                        assert(fr.contains(t));
                        assert(derives_complement(*v, S, t));
                        let (c1, c2, x, c) = choose|c1: URI, c2: URI, x: URI, c: URI| #[trigger] complement_instance(*v, S, t, c1, c2, x, c);
                        assert(S.contains((x, (v.rdf_type, c))));
                        if S.contains((c1, (v.owl_complementof, c2))) {
                        } else {
                            assert(S.contains((c2, (v.owl_complementof, c1))));
                        }
                    }
                }
            }
            s = saturate(v, ds, next);
            proof {
                let S2 = s@.to_set();
                lemma_least_bounded(*v, L, nx, S2, m as int);
                assert forall|u: KeyedTriple| #[trigger] old_s.contains(u) implies s@.contains(u) by {
                    assert(nx.contains(u));
                }
                assert(nx.contains(f0));
                assert(!old_s.contains(f0));
                lemma_strict_grows(old_s, s@, f0);
                lemma_len_bound(s@, m as int);
                let added2 = added.union(fr.to_set());
                assert forall|t: KeyedTriple| #[trigger] added2.contains(t) implies complement_shaped(*v, S2, t) by {
                    if added.contains(t) {
                        assert(complement_shaped(*v, S, t));
                        let (c1, c2, c) = choose|c1: URI, c2: URI, c: URI|
                            #![trigger complementary(*v, S, c1, c2), has(S, t.0, v.rdf_type, c)]
                            complementary(*v, S, c1, c2) && has(S, t.0, v.rdf_type, c) && t == (t.0, (v.rdf_type, c2));
                        assert(S.contains((t.0, (v.rdf_type, c))));
                        assert(S2.contains((t.0, (v.rdf_type, c))));
                        if S.contains((c1, (v.owl_complementof, c2))) {
                            assert(S2.contains((c1, (v.owl_complementof, c2))));
                        } else {
                            assert(S.contains((c2, (v.owl_complementof, c1))));
                            assert(S2.contains((c2, (v.owl_complementof, c1))));
                        }
                        assert(complementary(*v, S2, c1, c2) && has(S2, t.0, v.rdf_type, c));
                    } else {
                        assert(fr.contains(t));
                        assert(derives_complement(*v, S, t));
                        let (c1, c2, x, c) = choose|c1: URI, c2: URI, x: URI, c: URI| #[trigger] complement_instance(*v, S, t, c1, c2, x, c);
                        assert(S.contains((x, (v.rdf_type, c))));
                        assert(S2.contains((x, (v.rdf_type, c))));
                        if S.contains((c1, (v.owl_complementof, c2))) {
                            assert(S2.contains((c1, (v.owl_complementof, c2))));
                        } else {
                            assert(S.contains((c2, (v.owl_complementof, c1))));
                            assert(S2.contains((c2, (v.owl_complementof, c1))));
                        }
                        assert(complementary(*v, S2, c1, c2) && has(S2, t.0, v.rdf_type, c));
                    }
                }
                assert forall|t: KeyedTriple| #[trigger] added2.contains(t) implies S2.contains(t) by {
                    if added.contains(t) {
                        assert(S.contains(t));
                    } else {
                        assert(fr.contains(t));
                        assert(nx.contains(t));
                    }
                }
                assert forall|T: Set<KeyedTriple>|
                    (forall|t: KeyedTriple| #[trigger] base.contains(t) ==> T.contains(t)) && added2.subset_of(T)
                        && #[trigger] closed(*v, L, T) implies S2.subset_of(T) by {
                    assert(added.subset_of(T));
                    assert(S.subset_of(T));
                    assert forall|t: KeyedTriple| #[trigger] nx.contains(t) implies T.contains(t) by {
                        if old_s.contains(t) {
                            assert(S.contains(t));
                        } else {
                            assert(fr.contains(t));
                            assert(added2.contains(t));
                        }
                    }
                    assert(least_closed(*v, L, nx, S2));
                }
                added = added2;
                assert(nx.to_set() =~= S.union(complement_instances(*v, S))) by {
                    assert forall|t: KeyedTriple| #[trigger] nx.to_set().contains(t) <==> S.union(complement_instances(*v, S)).contains(t) by {
                        if derives_complement(*v, S, t) && !S.contains(t) {
                            assert(comp@.contains(t));
                            assert(fr.contains(t));
                        }
                        if fr.contains(t) {
                            assert(derives_complement(*v, S, t));
                        }
                    }
                }
                lemma_least_over(*v, L, nx, S2);
                assert(!complement_closed(*v, S)) by {
                    assert(derives_complement(*v, S, f0));
                }
                assert(stage(*v, L, B, k + 1) == S2);
                assert forall|j: nat| j < k + 1 implies !complement_closed(*v, #[trigger] stage(*v, L, B, j)) by {
                    if j == k {
                        assert(stage(*v, L, B, j) == S);
                    }
                }
                k = k + 1;
            }
        }
    }
    proof {
        assert(complement_closed(*v, stage(*v, L, B, k)));
        assert(first_fixed_stage(*v, L, B, k));
        let R = s@.to_set();
        assert forall|T: Set<KeyedTriple>|
            (forall|t: KeyedTriple| #[trigger] base.contains(t) ==> T.contains(t)) && (forall|t: KeyedTriple|
                R.contains(t) && #[trigger] complement_shaped(*v, R, t) ==> T.contains(t)) && #[trigger] closed(*v, L, T)
                implies R.subset_of(T) by {
            assert forall|t: KeyedTriple| #[trigger] added.contains(t) implies T.contains(t) by {
                assert(complement_shaped(*v, R, t));
                assert(R.contains(t));
            }
        }
    }
    s
}

} // verus!
