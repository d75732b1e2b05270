//! The rules whose conclusion is `false`: the violations they find in a set
//! of triples.
use vstd::prelude::*;
use crate::relation::{KeyedTriple, URI, sorted_strict, contains_sorted};
use crate::rules::{Vocab, has};
use crate::engine::select;

verus! {

broadcast use vstd::seq_lib::lemma_seq_contains_after_push;

/// cax-dw: `(c1 owl:disjointWith c2)`, `(x rdf:type c1)`, `(x rdf:type c2)`,
/// reported as `(x, (c1, c2))`.
pub open spec fn cax_dw(v: Vocab, S: Set<KeyedTriple>, x: URI, c1: URI, c2: URI) -> bool {
    &&& has(S, c1, v.owl_disjointwith, c2)
    &&& has(S, x, v.rdf_type, c1)
    &&& has(S, x, v.rdf_type, c2)
    &&& x > 0
}

/// prp-irp: `(p rdf:type owl:IrreflexiveProperty)`, `(x p x)`.
pub open spec fn prp_irp(v: Vocab, S: Set<KeyedTriple>, p: URI, x: URI) -> bool {
    &&& has(S, p, v.rdf_type, v.owl_irreflexive)
    &&& has(S, x, p, x)
    &&& x > 0
}

/// prp-asyp: `(p rdf:type owl:AsymmetricProperty)`, `(x p y)`, `(y p x)`.
pub open spec fn prp_asyp(v: Vocab, S: Set<KeyedTriple>, p: URI, x: URI, y: URI) -> bool {
    &&& has(S, p, v.rdf_type, v.owl_asymmetric)
    &&& has(S, x, p, y)
    &&& has(S, y, p, x)
    &&& x > 0 && y > 0 && p > 0
}

/// prp-pdw: `(p1 owl:propertyDisjointWith p2)`, `(x p1 y)`, `(x p2 y)`.
pub open spec fn prp_pdw(v: Vocab, S: Set<KeyedTriple>, x: URI, y: URI, p1: URI, p2: URI) -> bool {
    &&& has(S, p1, v.owl_pdw, p2)
    &&& has(S, x, p1, y)
    &&& has(S, x, p2, y)
    &&& x > 0 && y > 0 && p1 > 0 && p2 > 0
}

/// cls-nothing2: `(x rdf:type owl:Nothing)`.
pub open spec fn cls_nothing2(v: Vocab, S: Set<KeyedTriple>, x: URI) -> bool {
    has(S, x, v.rdf_type, v.owl_nothing) && x > 0
}

/// The cax-dw violations of `s`, as `(x, (c1, c2))`.
pub fn find_cax_dw(v: &Vocab, s: &Vec<KeyedTriple>) -> (r: Vec<KeyedTriple>)
    requires
        sorted_strict(s@),
    ensures
        forall|x: URI, c1: URI, c2: URI|
            #[trigger] r@.contains((x, (c1, c2))) <==> cax_dw(*v, s@.to_set(), x, c1, c2),
{
    let ghost S = s@.to_set();
    let pairs = select(s, v.owl_disjointwith, false);
    let mut r: Vec<KeyedTriple> = Vec::new();
    let mut i: usize = 0;
    while i < pairs.len()
        invariant
            sorted_strict(s@),
            S == s@.to_set(),
            0 <= i <= pairs@.len(),
            forall|a: URI, b: URI, c: URI|
                #![trigger pairs@.contains((a, (b, c)))]
                pairs@.contains((a, (b, c))) <==> (c == 0 && s@.contains((a, (v.owl_disjointwith, b)))),
            forall|x: URI, c1: URI, c2: URI| #[trigger] r@.contains((x, (c1, c2))) ==> cax_dw(*v, S, x, c1, c2),
            forall|j: int, x: URI|
                0 <= j < i && #[trigger] cax_dw(*v, S, x, (#[trigger] pairs@[j]).0, pairs@[j].1.0)
                    ==> r@.contains((x, (pairs@[j].0, pairs@[j].1.0))),
        decreases pairs@.len() - i,
    {
        let (c1, (c2, _z)) = pairs[i];
        proof {
            assert(pairs@[i as int] == (c1, (c2, _z)));
            assert(pairs@.contains((c1, (c2, _z))));
        }
        let ghost before = r@;
        let mut k: usize = 0;
        while k < s.len()
            invariant
                sorted_strict(s@),
                S == s@.to_set(),
                0 <= k <= s@.len(),
                has(S, c1, v.owl_disjointwith, c2),
                before.is_prefix_of(r@),
                forall|x: URI, d1: URI, d2: URI| #[trigger] r@.contains((x, (d1, d2))) ==> cax_dw(*v, S, x, d1, d2),
                forall|j: int|
                    0 <= j < k && (#[trigger] s@[j]).1 == (v.rdf_type, c1) && cax_dw(*v, S, s@[j].0, c1, c2)
                        ==> r@.contains((s@[j].0, (c1, c2))),
            decreases s@.len() - k,
        {
            let (x, (p, o)) = s[k];
            if p == v.rdf_type && o == c1 && x > 0 && contains_sorted(s, (x, (v.rdf_type, c2))) {
                let ghost prev = r@;
                r.push((x, (c1, c2)));
                proof {
                    assert(s@[k as int] == (x, (p, o)));
                    assert(s@.contains(s@[k as int]));
                    assert(cax_dw(*v, S, x, c1, c2));
                    assert forall|y: URI, d1: URI, d2: URI| #[trigger] r@.contains((y, (d1, d2))) implies cax_dw(*v, S, y, d1, d2) by {
                        if (y, (d1, d2)) != (x, (c1, c2)) {
                            let q = choose|q: int| 0 <= q < r@.len() && r@[q] == (y, (d1, d2));
                            assert(prev[q] == (y, (d1, d2)));
                            assert(prev.contains((y, (d1, d2))));
                        }
                    }
                    assert forall|q: int| 0 <= q < before.len() implies #[trigger] r@[q] == before[q] by {
                        assert(prev[q] == before[q]);
                    }
                }
            }
            k += 1;
        }
        proof {
            assert forall|j: int, x: URI|
                0 <= j < i + 1 && #[trigger] cax_dw(*v, S, x, (#[trigger] pairs@[j]).0, pairs@[j].1.0)
                    implies r@.contains((x, (pairs@[j].0, pairs@[j].1.0))) by {
                if j < i {
                    let w = (x, (pairs@[j].0, pairs@[j].1.0));
                    let q = choose|q: int| 0 <= q < before.len() && before[q] == w;
                    assert(r@[q] == w);
                } else {
                    let m = choose|m: int| 0 <= m < s@.len() && s@[m] == (x, (v.rdf_type, c1));
                    assert(s@[m].1 == (v.rdf_type, c1));
                }
            }
        }
        i += 1;
    }
    proof {
        assert forall|x: URI, c1: URI, c2: URI| #[trigger] cax_dw(*v, S, x, c1, c2) implies r@.contains((x, (c1, c2))) by {
            assert(pairs@.contains((c1, (c2, 0u32))));
            let j = choose|j: int| 0 <= j < pairs@.len() && pairs@[j] == (c1, (c2, 0u32));
            assert(cax_dw(*v, S, x, pairs@[j].0, pairs@[j].1.0));
        }
    }
    r
}

/// The prp-irp violations of `s`, as `(p, x)`.
pub fn find_prp_irp(v: &Vocab, s: &Vec<KeyedTriple>) -> (r: Vec<(URI, URI)>)
    requires
        sorted_strict(s@),
    ensures
        forall|p: URI, x: URI| #[trigger] r@.contains((p, x)) <==> prp_irp(*v, s@.to_set(), p, x),
{
    let ghost S = s@.to_set();
    let mut r: Vec<(URI, URI)> = Vec::new();
    let mut i: usize = 0;
    while i < s.len()
        invariant
            sorted_strict(s@),
            S == s@.to_set(),
            0 <= i <= s@.len(),
            forall|p: URI, x: URI| #[trigger] r@.contains((p, x)) ==> prp_irp(*v, S, p, x),
            forall|j: int|
                0 <= j < i && prp_irp(*v, S, (#[trigger] s@[j]).1.0, s@[j].0) && s@[j].0 == s@[j].1.1
                    ==> r@.contains((s@[j].1.0, s@[j].0)),
        decreases s@.len() - i,
    {
        let (x, (p, y)) = s[i];
        if x == y && x > 0 && contains_sorted(s, (p, (v.rdf_type, v.owl_irreflexive))) {
            let ghost prev = r@;
            r.push((p, x));
            proof {
                assert(s@[i as int] == (x, (p, y)));
                assert(s@.contains(s@[i as int]));
                assert forall|q: URI, z: URI| #[trigger] r@.contains((q, z)) implies prp_irp(*v, S, q, z) by {
                    if (q, z) != (p, x) {
                        let m = choose|m: int| 0 <= m < r@.len() && r@[m] == (q, z);
                        assert(prev[m] == (q, z));
                        assert(prev.contains((q, z)));
                    }
                }
            }
        }
        i += 1;
    }
    proof {
        assert forall|p: URI, x: URI| #[trigger] prp_irp(*v, S, p, x) implies r@.contains((p, x)) by {
            let j = choose|j: int| 0 <= j < s@.len() && s@[j] == (x, (p, x));
            assert(s@[j].1.0 == p && s@[j].0 == x && s@[j].1.1 == x);
        }
    }
    r
}

/// The prp-asyp violations of `s`, as `(p, (x, y))`.
pub fn find_prp_asyp(v: &Vocab, s: &Vec<KeyedTriple>) -> (r: Vec<KeyedTriple>)
    requires
        sorted_strict(s@),
    ensures
        forall|p: URI, x: URI, y: URI| #[trigger] r@.contains((p, (x, y))) <==> prp_asyp(*v, s@.to_set(), p, x, y),
{
    let ghost S = s@.to_set();
    let mut r: Vec<KeyedTriple> = Vec::new();
    let mut i: usize = 0;
    while i < s.len()
        invariant
            sorted_strict(s@),
            S == s@.to_set(),
            0 <= i <= s@.len(),
            forall|p: URI, x: URI, y: URI| #[trigger] r@.contains((p, (x, y))) ==> prp_asyp(*v, S, p, x, y),
            forall|j: int|
                0 <= j < i && prp_asyp(*v, S, (#[trigger] s@[j]).1.0, s@[j].0, s@[j].1.1)
                    ==> r@.contains((s@[j].1.0, (s@[j].0, s@[j].1.1))),
        decreases s@.len() - i,
    {
        let (x, (p, y)) = s[i];
        if x > 0 && y > 0 && p > 0 && contains_sorted(s, (p, (v.rdf_type, v.owl_asymmetric)))
            && contains_sorted(s, (y, (p, x))) {
            let ghost prev = r@;
            r.push((p, (x, y)));
            proof {
                assert(s@[i as int] == (x, (p, y)));
                assert(s@.contains(s@[i as int]));
                assert forall|q: URI, a: URI, b: URI| #[trigger] r@.contains((q, (a, b))) implies prp_asyp(*v, S, q, a, b) by {
                    if (q, (a, b)) != (p, (x, y)) {
                        let m = choose|m: int| 0 <= m < r@.len() && r@[m] == (q, (a, b));
                        assert(prev[m] == (q, (a, b)));
                        assert(prev.contains((q, (a, b))));
                    }
                }
            }
        }
        i += 1;
    }
    proof {
        assert forall|p: URI, x: URI, y: URI| #[trigger] prp_asyp(*v, S, p, x, y) implies r@.contains((p, (x, y))) by {
            let j = choose|j: int| 0 <= j < s@.len() && s@[j] == (x, (p, y));
            assert(s@[j].1.0 == p && s@[j].0 == x && s@[j].1.1 == y);
        }
    }
    r
}

/// The prp-pdw violations of `s`, as `((x, y), (p1, p2))`.
pub fn find_prp_pdw(v: &Vocab, s: &Vec<KeyedTriple>) -> (r: Vec<((URI, URI), (URI, URI))>)
    requires
        sorted_strict(s@),
    ensures
        forall|x: URI, y: URI, p1: URI, p2: URI|
            #[trigger] r@.contains(((x, y), (p1, p2))) <==> prp_pdw(*v, s@.to_set(), x, y, p1, p2),
{
    let ghost S = s@.to_set();
    let pairs = select(s, v.owl_pdw, false);
    let mut r: Vec<((URI, URI), (URI, URI))> = Vec::new();
    let mut i: usize = 0;
    while i < pairs.len()
        invariant
            sorted_strict(s@),
            S == s@.to_set(),
            0 <= i <= pairs@.len(),
            forall|a: URI, b: URI, c: URI|
                #![trigger pairs@.contains((a, (b, c)))]
                pairs@.contains((a, (b, c))) <==> (c == 0 && s@.contains((a, (v.owl_pdw, b)))),
            forall|x: URI, y: URI, p1: URI, p2: URI|
                #[trigger] r@.contains(((x, y), (p1, p2))) ==> prp_pdw(*v, S, x, y, p1, p2),
            forall|j: int, x: URI, y: URI|
                0 <= j < i && #[trigger] prp_pdw(*v, S, x, y, (#[trigger] pairs@[j]).0, pairs@[j].1.0)
                    ==> r@.contains(((x, y), (pairs@[j].0, pairs@[j].1.0))),
        decreases pairs@.len() - i,
    {
        let (p1, (p2, _z)) = pairs[i];
        proof {
            assert(pairs@[i as int] == (p1, (p2, _z)));
            assert(pairs@.contains((p1, (p2, _z))));
        }
        let ghost before = r@;
        let mut k: usize = 0;
        while k < s.len()
            invariant
                sorted_strict(s@),
                S == s@.to_set(),
                0 <= k <= s@.len(),
                has(S, p1, v.owl_pdw, p2),
                before.is_prefix_of(r@),
                forall|x: URI, y: URI, q1: URI, q2: URI|
                    #[trigger] r@.contains(((x, y), (q1, q2))) ==> prp_pdw(*v, S, x, y, q1, q2),
                forall|j: int|
                    0 <= j < k && (#[trigger] s@[j]).1.0 == p1 && prp_pdw(*v, S, s@[j].0, s@[j].1.1, p1, p2)
                        ==> r@.contains(((s@[j].0, s@[j].1.1), (p1, p2))),
            decreases s@.len() - k,
        {
            let (x, (p, y)) = s[k];
            if p == p1 && x > 0 && y > 0 && p1 > 0 && p2 > 0 && contains_sorted(s, (x, (p2, y))) {
                let ghost prev = r@;
                r.push(((x, y), (p1, p2)));
                proof {
                    assert(s@[k as int] == (x, (p, y)));
                    assert(s@.contains(s@[k as int]));
                    assert(prp_pdw(*v, S, x, y, p1, p2));
                    assert forall|a: URI, b: URI, q1: URI, q2: URI| #[trigger] r@.contains(((a, b), (q1, q2))) implies prp_pdw(*v, S, a, b, q1, q2) by {
                        if ((a, b), (q1, q2)) != ((x, y), (p1, p2)) {
                            let q = choose|q: int| 0 <= q < r@.len() && r@[q] == ((a, b), (q1, q2));
                            assert(prev[q] == ((a, b), (q1, q2)));
                            assert(prev.contains(((a, b), (q1, q2))));
                        }
                    }
                    assert forall|q: int| 0 <= q < before.len() implies #[trigger] r@[q] == before[q] by {
                        assert(prev[q] == before[q]);
                    }
                }
            }
            k += 1;
        }
        proof {
            assert forall|j: int, x: URI, y: URI|
                0 <= j < i + 1 && #[trigger] prp_pdw(*v, S, x, y, (#[trigger] pairs@[j]).0, pairs@[j].1.0)
                    implies r@.contains(((x, y), (pairs@[j].0, pairs@[j].1.0))) by {
                if j < i {
                    let w = ((x, y), (pairs@[j].0, pairs@[j].1.0));
                    let q = choose|q: int| 0 <= q < before.len() && before[q] == w;
                    assert(r@[q] == w);
                } else {
                    let m = choose|m: int| 0 <= m < s@.len() && s@[m] == (x, (p1, y));
                    assert(s@[m].1.0 == p1 && s@[m].0 == x && s@[m].1.1 == y);
                }
            }
        }
        i += 1;
    }
    proof {
        assert forall|x: URI, y: URI, p1: URI, p2: URI| #[trigger] prp_pdw(*v, S, x, y, p1, p2) implies r@.contains(
            ((x, y), (p1, p2)),
        ) by {
            assert(pairs@.contains((p1, (p2, 0u32))));
            let j = choose|j: int| 0 <= j < pairs@.len() && pairs@[j] == (p1, (p2, 0u32));
            assert(prp_pdw(*v, S, x, y, pairs@[j].0, pairs@[j].1.0));
        }
    }
    r
}

/// The cls-nothing2 violations of `s`.
pub fn find_cls_nothing2(v: &Vocab, s: &Vec<KeyedTriple>) -> (r: Vec<URI>)
    ensures
        forall|x: URI| #[trigger] r@.contains(x) <==> cls_nothing2(*v, s@.to_set(), x),
{
    let ghost S = s@.to_set();
    let mut r: Vec<URI> = Vec::new();
    let mut i: usize = 0;
    while i < s.len()
        invariant
            S == s@.to_set(),
            0 <= i <= s@.len(),
            forall|x: URI| #[trigger] r@.contains(x) ==> cls_nothing2(*v, S, x),
            forall|j: int|
                0 <= j < i && (#[trigger] s@[j]).1 == (v.rdf_type, v.owl_nothing) && s@[j].0 > 0 ==> r@.contains(s@[j].0),
        decreases s@.len() - i,
    {
        let (x, (p, o)) = s[i];
        if p == v.rdf_type && o == v.owl_nothing && x > 0 {
            let ghost prev = r@;
            r.push(x);
            proof {
                assert(s@[i as int] == (x, (p, o)));
                assert(s@.contains(s@[i as int]));
                assert forall|y: URI| #[trigger] r@.contains(y) implies cls_nothing2(*v, S, y) by {
                    if y != x {
                        let m = choose|m: int| 0 <= m < r@.len() && r@[m] == y;
                        assert(prev[m] == y);
                        assert(prev.contains(y));
                    }
                }
            }
        }
        i += 1;
    }
    proof {
        assert forall|x: URI| #[trigger] cls_nothing2(*v, S, x) implies r@.contains(x) by {
            let j = choose|j: int| 0 <= j < s@.len() && s@[j] == (x, (v.rdf_type, v.owl_nothing));
            assert(s@[j].1 == (v.rdf_type, v.owl_nothing));
        }
    }
    r
}

} // verus!
