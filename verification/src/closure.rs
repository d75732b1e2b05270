//! The rules over RDF lists, one round of all rules, and saturation.
use vstd::prelude::*;
use crate::relation::{KeyedTriple, URI, sorted_strict, triple_lt, contains_sorted, relation_of, merge};
use vstd::set_lib::{lemma_len_subset, lemma_map_size, lemma_int_range, set_int_range};
use vstd::seq_lib::seq_to_set_is_finite;
use vstd::relations::injective_on;
use crate::rules::{
    Vocab, Lists, derives, PropRule, ClassRule, derives_prop, derives_class, derives_thing,
    derives_eq_sym, derives_eq_trans, derives_eq_rep_s, derives_eq_rep_o, derives_prp_symp,
    derives_prp_trp, derives_prp_fp, derives_prp_ifp, derives_cls_hv1, derives_cls_hv2,
    derives_cls_avf, derives_cls_svf1, derives_cls_svf2, prop_instance, prop_rule_pred,
    prop_rule_flipped, class_instance, class_rule_pred, thing_instance, eq_sym_instance,
    eq_trans_instance, eq_rep_s_instance, eq_rep_o_instance, prp_symp_instance, prp_trp_instance,
    prp_fp_instance, prp_ifp_instance, cls_hv1_instance, cls_hv2_instance, cls_avf_instance,
    cls_svf1_instance, cls_svf2_instance, closed, derives_cls_int1, cls_int1_instance, derives_cls_int2, cls_int2_instance,
    derives_cls_uni, cls_uni_instance,
};
use crate::engine::{
    extends, covers, select, Indexes, Perm, unpermute_spec, apply_prop_rule, apply_class_rule,
    apply_thing_and_sym, apply_eq_trans, apply_eq_rep, apply_prp_symp, apply_prp_trp, apply_prp_fp_ifp,
    apply_has_value, apply_all_values, apply_some_values,
};
use crate::rdf_lists::{DisjointSets, connected};

verus! {

broadcast use vstd::seq_lib::lemma_seq_contains_after_push;

/// The lists of a graph, as the rules see them.
pub open spec fn lists_of(ds: DisjointSets) -> Lists {
    |l: URI| ds.members(l)
}

/// Whether `vals` holds `w`.
fn holds_uri(vals: &Vec<URI>, w: URI) -> (r: bool)
    ensures
        r == vals@.contains(w),
{
    let mut i: usize = 0;
    while i < vals.len()
        invariant
            0 <= i <= vals@.len(),
            forall|j: int| 0 <= j < i ==> vals@[j] != w,
        decreases vals@.len() - i,
    {
        if vals[i] == w {
            assert(vals@[i as int] == w);
            return true;
        }
        i += 1;
    }
    false
}

/// Whether `y` is typed with every class of `vals` in `s`.
fn typed_all(v: &Vocab, y: URI, vals: &Vec<URI>, s: &Vec<KeyedTriple>) -> (r: bool)
    requires
        sorted_strict(s@),
    ensures
        r == forall|ci: URI| #[trigger] vals@.contains(ci) ==> s@.contains((y, (v.rdf_type, ci))),
{
    let mut i: usize = 0;
    while i < vals.len()
        invariant
            sorted_strict(s@),
            0 <= i <= vals@.len(),
            forall|j: int| 0 <= j < i ==> s@.contains((y, (v.rdf_type, #[trigger] vals@[j]))),
        decreases vals@.len() - i,
    {
        if !contains_sorted(s, (y, (v.rdf_type, vals[i]))) {
            assert(vals@.contains(vals@[i as int]));
            return false;
        }
        i += 1;
    }
    proof {
        assert forall|ci: URI| #[trigger] vals@.contains(ci) implies s@.contains((y, (v.rdf_type, ci))) by {
            let j = choose|j: int| 0 <= j < vals@.len() && vals@[j] == ci;
        }
    }
    true
}

/// What cls-int1 concludes for the class `c` and the list `vals`: `t` types
/// with `c` an instance of every class of `vals`.
pub open spec fn int1_concl(v: Vocab, c: URI, vals: Seq<URI>, s: Seq<KeyedTriple>, t: KeyedTriple) -> bool {
    &&& t.1 == (v.rdf_type, c)
    &&& s.contains((t.0, (v.rdf_type, vals[0])))
    &&& forall|ci: URI| #[trigger] vals.contains(ci) ==> s.contains((t.0, (v.rdf_type, ci)))
}

/// cls-int1 for one intersection: the instances of the first class that
/// are instances of all the others, typed with `c`.
fn apply_int1_for(v: &Vocab, c: URI, vals: &Vec<URI>, s: &Vec<KeyedTriple>, out: &mut Vec<KeyedTriple>)
    requires
        sorted_strict(s@),
        vals@.len() > 0,
    ensures
        extends(old(out)@, final(out)@, |t: KeyedTriple| int1_concl(*v, c, vals@, s@, t)),
        covers(final(out)@, |t: KeyedTriple| int1_concl(*v, c, vals@, s@, t)),
{
    let ghost start = out@;
    let c0 = vals[0];
    let mut i: usize = 0;
    while i < s.len()
        invariant
            sorted_strict(s@),
            vals@.len() > 0,
            c0 == vals@[0],
            start == old(out)@,
            0 <= i <= s@.len(),
            extends(start, out@, |t: KeyedTriple| int1_concl(*v, c, vals@, s@, t)),
            forall|j: int|
                0 <= j < i && (#[trigger] s@[j]).1 == (v.rdf_type, c0) && (forall|ci: URI|
                    #[trigger] vals@.contains(ci) ==> s@.contains((s@[j].0, (v.rdf_type, ci))))
                    ==> out@.contains((s@[j].0, (v.rdf_type, c))),
        decreases s@.len() - i,
    {
        let (y, (p, o)) = s[i];
        if p == v.rdf_type && o == c0 && typed_all(v, y, vals, s) {
            let ghost before = out@;
            out.push((y, (v.rdf_type, c)));
            proof {
                assert(s@[i as int] == (y, (p, o)));
                assert(s@.contains(s@[i as int]));
                assert(int1_concl(*v, c, vals@, s@, (y, (v.rdf_type, c))));
                assert forall|m: int| start.len() <= m < out@.len() implies int1_concl(
                    *v,
                    c,
                    vals@,
                    s@,
                    #[trigger] out@[m],
                ) by {
                    if m < before.len() {
                        assert(out@[m] == before[m]);
                    }
                }
                assert forall|m: int| 0 <= m < start.len() implies #[trigger] out@[m] == start[m] by {
                    assert(before[m] == start[m]);
                }
            }
        }
        i += 1;
    }
    proof {
        assert forall|t: KeyedTriple| int1_concl(*v, c, vals@, s@, t) implies #[trigger] out@.contains(t) by {
            let j = choose|j: int| 0 <= j < s@.len() && s@[j] == (t.0, (v.rdf_type, vals@[0]));
            assert(s@[j].1 == (v.rdf_type, c0));
            assert(s@[j].0 == t.0);
        }
    }
}

/// What cls-int2 concludes for the class `c` and the list `vals`.
pub open spec fn int2_concl(v: Vocab, c: URI, vals: Seq<URI>, s: Seq<KeyedTriple>, t: KeyedTriple) -> bool {
    &&& t.1.0 == v.rdf_type
    &&& vals.contains(t.1.1)
    &&& s.contains((t.0, (v.rdf_type, c)))
}

/// cls-int2 for one intersection: each instance of `c` typed with every
/// class of `vals`.
fn apply_int2_for(v: &Vocab, c: URI, vals: &Vec<URI>, s: &Vec<KeyedTriple>, out: &mut Vec<KeyedTriple>)
    ensures
        extends(old(out)@, final(out)@, |t: KeyedTriple| int2_concl(*v, c, vals@, s@, t)),
        covers(final(out)@, |t: KeyedTriple| int2_concl(*v, c, vals@, s@, t)),
{
    let ghost start = out@;
    let mut i: usize = 0;
    while i < s.len()
        invariant
            start == old(out)@,
            0 <= i <= s@.len(),
            extends(start, out@, |t: KeyedTriple| int2_concl(*v, c, vals@, s@, t)),
            forall|j: int, k: int|
                0 <= j < i && (#[trigger] s@[j]).1 == (v.rdf_type, c) && 0 <= k < vals@.len()
                    ==> out@.contains((s@[j].0, (v.rdf_type, #[trigger] vals@[k]))),
        decreases s@.len() - i,
    {
        let (y, (p, o)) = s[i];
        if p == v.rdf_type && o == c {
            proof {
                assert(s@[i as int] == (y, (p, o)));
                assert(s@.contains(s@[i as int]));
            }
            let ghost mid = out@;
            let mut k: usize = 0;
            while k < vals.len()
                invariant
                    start == old(out)@,
                    0 <= i < s@.len(),
                    s@[i as int] == (y, (v.rdf_type, c)),
                    s@.contains((y, (v.rdf_type, c))),
                    0 <= k <= vals@.len(),
                    extends(start, out@, |t: KeyedTriple| int2_concl(*v, c, vals@, s@, t)),
                    mid.is_prefix_of(out@),
                    forall|j: int, m: int|
                        0 <= j < i && (#[trigger] s@[j]).1 == (v.rdf_type, c) && 0 <= m < vals@.len()
                            ==> mid.contains((s@[j].0, (v.rdf_type, #[trigger] vals@[m]))),
                    forall|m: int| 0 <= m < k ==> out@.contains((y, (v.rdf_type, #[trigger] vals@[m]))),
                decreases vals@.len() - k,
            {
                let ghost before = out@;
                out.push((y, (v.rdf_type, vals[k])));
                proof {
                    assert(vals@.contains(vals@[k as int]));
                    assert(int2_concl(*v, c, vals@, s@, (y, (v.rdf_type, vals@[k as int]))));
                    assert forall|m: int| start.len() <= m < out@.len() implies int2_concl(
                        *v,
                        c,
                        vals@,
                        s@,
                        #[trigger] out@[m],
                    ) by {
                        if m < before.len() {
                            assert(out@[m] == before[m]);
                        }
                    }
                    assert forall|m: int| 0 <= m < start.len() implies #[trigger] out@[m] == start[m] by {
                        assert(before[m] == start[m]);
                    }
                    assert forall|m: int| 0 <= m < mid.len() implies #[trigger] out@[m] == mid[m] by {
                        assert(before[m] == mid[m]);
                    }
                }
                k += 1;
            }
            proof {
                assert forall|j: int, m: int|
                    0 <= j < i + 1 && (#[trigger] s@[j]).1 == (v.rdf_type, c) && 0 <= m < vals@.len()
                        implies out@.contains((s@[j].0, (v.rdf_type, #[trigger] vals@[m]))) by {
                    if j < i {
                        let w = (s@[j].0, (v.rdf_type, vals@[m]));
                        assert(mid.contains(w));
                        let q = choose|q: int| 0 <= q < mid.len() && mid[q] == w;
                        assert(out@[q] == w);
                    }
                }
            }
        }
        i += 1;
    }
    proof {
        assert forall|t: KeyedTriple| int2_concl(*v, c, vals@, s@, t) implies #[trigger] out@.contains(t) by {
            let j = choose|j: int| 0 <= j < s@.len() && s@[j] == (t.0, (v.rdf_type, c));
            let k = choose|k: int| 0 <= k < vals@.len() && vals@[k] == t.1.1;
            assert(s@[j].1 == (v.rdf_type, c));
            assert(out@.contains((s@[j].0, (v.rdf_type, vals@[k]))));
        }
    }
}

/// What cls-uni concludes for the class `c` and the list `vals`.
pub open spec fn uni_concl(v: Vocab, c: URI, vals: Seq<URI>, s: Seq<KeyedTriple>, t: KeyedTriple) -> bool {
    &&& t.1 == (v.rdf_type, c)
    &&& exists|ci: URI| #[trigger] vals.contains(ci) && s.contains((t.0, (v.rdf_type, ci)))
}

/// cls-uni for one union: each instance of a class of `vals` typed with `c`.
fn apply_uni_for(v: &Vocab, c: URI, vals: &Vec<URI>, s: &Vec<KeyedTriple>, out: &mut Vec<KeyedTriple>)
    ensures
        extends(old(out)@, final(out)@, |t: KeyedTriple| uni_concl(*v, c, vals@, s@, t)),
        covers(final(out)@, |t: KeyedTriple| uni_concl(*v, c, vals@, s@, t)),
{
    let ghost start = out@;
    let mut i: usize = 0;
    while i < s.len()
        invariant
            start == old(out)@,
            0 <= i <= s@.len(),
            extends(start, out@, |t: KeyedTriple| uni_concl(*v, c, vals@, s@, t)),
            forall|j: int|
                0 <= j < i && (#[trigger] s@[j]).1.0 == v.rdf_type && vals@.contains(s@[j].1.1)
                    ==> out@.contains((s@[j].0, (v.rdf_type, c))),
        decreases s@.len() - i,
    {
        let (y, (p, o)) = s[i];
        if p == v.rdf_type && holds_uri(vals, o) {
            let ghost before = out@;
            out.push((y, (v.rdf_type, c)));
            proof {
                assert(s@[i as int] == (y, (p, o)));
                assert(s@.contains(s@[i as int]));
                assert(uni_concl(*v, c, vals@, s@, (y, (v.rdf_type, c))));
                assert forall|m: int| start.len() <= m < out@.len() implies uni_concl(
                    *v,
                    c,
                    vals@,
                    s@,
                    #[trigger] out@[m],
                ) by {
                    if m < before.len() {
                        assert(out@[m] == before[m]);
                    }
                }
                assert forall|m: int| 0 <= m < start.len() implies #[trigger] out@[m] == start[m] by {
                    assert(before[m] == start[m]);
                }
            }
        }
        i += 1;
    }
    proof {
        assert forall|t: KeyedTriple| uni_concl(*v, c, vals@, s@, t) implies #[trigger] out@.contains(t) by {
            let ci = choose|ci: URI| #[trigger] vals@.contains(ci) && s@.contains((t.0, (v.rdf_type, ci)));
            let j = choose|j: int| 0 <= j < s@.len() && s@[j] == (t.0, (v.rdf_type, ci));
            assert(s@[j].1.0 == v.rdf_type);
        }
    }
}

} // verus!

verus! {

/// The instances of cls-int1 and cls-int2 for the intersection `(c, l)`.
pub open spec fn int_pair(v: Vocab, L: Lists, S: Set<KeyedTriple>, c: URI, l: URI, t: KeyedTriple) -> bool {
    ||| exists|y: URI, c0: URI| #[trigger] cls_int1_instance(v, L, S, t, c, l, y, c0)
    ||| exists|y: URI, ci: URI| #[trigger] cls_int2_instance(v, L, S, t, c, l, y, ci)
}

/// The instances of cls-uni for the union `(c, l)`.
pub open spec fn uni_pair(v: Vocab, L: Lists, S: Set<KeyedTriple>, c: URI, l: URI, t: KeyedTriple) -> bool {
    exists|y: URI, ci: URI| #[trigger] cls_uni_instance(v, L, S, t, c, l, y, ci)
}

/// The triples that cls-int1 and cls-int2 derive from `s`, appended to `out`.
pub fn apply_intersections(v: &Vocab, ds: &DisjointSets, s: &Vec<KeyedTriple>, out: &mut Vec<KeyedTriple>)
    requires
        ds.wf(),
        sorted_strict(s@),
    ensures
        extends(
            old(out)@,
            final(out)@,
            |t: KeyedTriple|
                derives_cls_int1(*v, lists_of(*ds), s@.to_set(), t) || derives_cls_int2(
                    *v,
                    lists_of(*ds),
                    s@.to_set(),
                    t,
                ),
        ),
        covers(final(out)@, |t: KeyedTriple| derives_cls_int1(*v, lists_of(*ds), s@.to_set(), t)),
        covers(final(out)@, |t: KeyedTriple| derives_cls_int2(*v, lists_of(*ds), s@.to_set(), t)),
{
    let ghost S = s@.to_set();
    let ghost L = lists_of(*ds);
    let ghost R = |t: KeyedTriple| derives_cls_int1(*v, L, S, t) || derives_cls_int2(*v, L, S, t);
    let ghost start = out@;
    let pairs = select(s, v.owl_intersection, false);
    let mut i: usize = 0;
    while i < pairs.len()
        invariant
            ds.wf(),
            sorted_strict(s@),
            S == s@.to_set(),
            L == lists_of(*ds),
            R == (|t: KeyedTriple| derives_cls_int1(*v, L, S, t) || derives_cls_int2(*v, L, S, t)),
            start == old(out)@,
            0 <= i <= pairs@.len(),
            forall|a: URI, b: URI, c: URI|
                #![trigger pairs@.contains((a, (b, c)))]
                pairs@.contains((a, (b, c))) <==> (c == 0 && s@.contains((a, (v.owl_intersection, b)))),
            extends(start, out@, R),
            forall|j: int, t: KeyedTriple|
                0 <= j < i && #[trigger] int_pair(*v, L, S, pairs@[j].0, pairs@[j].1.0, t) ==> out@.contains(t),
        decreases pairs@.len() - i,
    {
        let (c, (l, _z)) = pairs[i];
        proof {
            assert(pairs@.contains(pairs@[i as int]));
            assert(s@.contains((c, (v.owl_intersection, l))));
        }
        let ghost before = out@;
        match ds.get_list_values(l) {
            Some(vals) => {
                apply_int1_for(v, c, &vals, s, out);
                let ghost mid = out@;
                apply_int2_for(v, c, &vals, s, out);
                proof {
                    assert forall|m: int| start.len() <= m < out@.len() implies R(#[trigger] out@[m]) by {
                        let t = out@[m];
                        if m < before.len() {
                            assert(out@[m] == before[m]);
                        } else if m < mid.len() {
                            assert(mid[m] == t);
                            assert(int1_concl(*v, c, vals@, s@, t));
                            assert(vals@.contains(vals@[0]));
                            assert(ds.members(l).contains(vals@[0]));
                            assert(L(l).contains(vals@[0]));
                            assert(S.contains((c, (v.owl_intersection, l))));
                            assert(S.contains((t.0, (v.rdf_type, vals@[0]))));
                            assert forall|ci: URI| #[trigger] L(l).contains(ci) implies S.contains((t.0, (v.rdf_type, ci))) by {
                                assert(ds.members(l).contains(ci));
                                assert(vals@.contains(ci));
                            }
                            assert(t == (t.0, (v.rdf_type, c)));
                            assert(cls_int1_instance(*v, L, S, t, c, l, t.0, vals@[0]));
                        } else {
                            assert(int2_concl(*v, c, vals@, s@, t));
                            assert(cls_int2_instance(*v, L, S, t, c, l, t.0, t.1.1));
                        }
                    }
                    assert forall|m: int| 0 <= m < start.len() implies #[trigger] out@[m] == start[m] by {
                        assert(before[m] == start[m]);
                        assert(mid[m] == before[m]);
                    }
                    assert forall|j: int, t: KeyedTriple|
                        0 <= j < i + 1 && #[trigger] int_pair(*v, L, S, pairs@[j].0, pairs@[j].1.0, t)
                            implies out@.contains(t) by {
                        if j < i {
                            let q = choose|q: int| 0 <= q < before.len() && before[q] == t;
                            assert(mid[q] == t);
                            assert(out@[q] == t);
                        } else {
                            assert(pairs@[j] == (c, (l, _z)));
                            if exists|y: URI, c0: URI| #[trigger] cls_int1_instance(*v, L, S, t, c, l, y, c0) {
                                let (y, c0) = choose|y: URI, c0: URI| #[trigger] cls_int1_instance(*v, L, S, t, c, l, y, c0);
                                assert(vals@.contains(vals@[0]));
                                assert(int1_concl(*v, c, vals@, s@, t));
                                assert(mid.contains(t));
                                let q = choose|q: int| 0 <= q < mid.len() && mid[q] == t;
                                assert(out@[q] == t);
                            } else {
                                let (y, ci) = choose|y: URI, ci: URI| #[trigger] cls_int2_instance(*v, L, S, t, c, l, y, ci);
                                assert(int2_concl(*v, c, vals@, s@, t));
                            }
                        }
                    }
                }
            },
            None => {
                proof {
                    assert forall|j: int, t: KeyedTriple|
                        0 <= j < i + 1 && #[trigger] int_pair(*v, L, S, pairs@[j].0, pairs@[j].1.0, t)
                            implies out@.contains(t) by {
                        if j == i {
                            assert(pairs@[j] == (c, (l, _z)));
                            if exists|y: URI, c0: URI| #[trigger] cls_int1_instance(*v, L, S, t, c, l, y, c0) {
                                let (y, c0) = choose|y: URI, c0: URI| #[trigger] cls_int1_instance(*v, L, S, t, c, l, y, c0);
                                assert(ds.members(l).contains(c0));
                            } else {
                                let (y, ci) = choose|y: URI, ci: URI| #[trigger] cls_int2_instance(*v, L, S, t, c, l, y, ci);
                                assert(ds.members(l).contains(ci));
                            }
                        }
                    }
                }
            },
        }
        i += 1;
    }
    proof {
        assert forall|t: KeyedTriple| derives_cls_int1(*v, L, S, t) implies #[trigger] out@.contains(t) by {
            let (c, l, y, c0) = choose|c: URI, l: URI, y: URI, c0: URI| #[trigger] cls_int1_instance(*v, L, S, t, c, l, y, c0);
            assert(pairs@.contains((c, (l, 0u32))));
            let j = choose|j: int| 0 <= j < pairs@.len() && pairs@[j] == (c, (l, 0u32));
            assert(int_pair(*v, L, S, pairs@[j].0, pairs@[j].1.0, t));
        }
        assert forall|t: KeyedTriple| derives_cls_int2(*v, L, S, t) implies #[trigger] out@.contains(t) by {
            let (c, l, y, ci) = choose|c: URI, l: URI, y: URI, ci: URI| #[trigger] cls_int2_instance(*v, L, S, t, c, l, y, ci);
            assert(pairs@.contains((c, (l, 0u32))));
            let j = choose|j: int| 0 <= j < pairs@.len() && pairs@[j] == (c, (l, 0u32));
            assert(int_pair(*v, L, S, pairs@[j].0, pairs@[j].1.0, t));
        }
    }
}

/// The triples that cls-uni derives from `s`, appended to `out`.
pub fn apply_unions(v: &Vocab, ds: &DisjointSets, s: &Vec<KeyedTriple>, out: &mut Vec<KeyedTriple>)
    requires
        ds.wf(),
    ensures
        extends(old(out)@, final(out)@, |t: KeyedTriple| derives_cls_uni(*v, lists_of(*ds), s@.to_set(), t)),
        covers(final(out)@, |t: KeyedTriple| derives_cls_uni(*v, lists_of(*ds), s@.to_set(), t)),
{
    let ghost S = s@.to_set();
    let ghost L = lists_of(*ds);
    let ghost R = |t: KeyedTriple| derives_cls_uni(*v, L, S, t);
    let ghost start = out@;
    let pairs = select(s, v.owl_union, false);
    let mut i: usize = 0;
    while i < pairs.len()
        invariant
            ds.wf(),
            S == s@.to_set(),
            L == lists_of(*ds),
            R == (|t: KeyedTriple| derives_cls_uni(*v, L, S, t)),
            start == old(out)@,
            0 <= i <= pairs@.len(),
            forall|a: URI, b: URI, c: URI|
                #![trigger pairs@.contains((a, (b, c)))]
                pairs@.contains((a, (b, c))) <==> (c == 0 && s@.contains((a, (v.owl_union, b)))),
            extends(start, out@, R),
            forall|j: int, t: KeyedTriple|
                0 <= j < i && #[trigger] uni_pair(*v, L, S, pairs@[j].0, pairs@[j].1.0, t) ==> out@.contains(t),
        decreases pairs@.len() - i,
    {
        let (c, (l, _z)) = pairs[i];
        proof {
            assert(pairs@.contains(pairs@[i as int]));
            assert(s@.contains((c, (v.owl_union, l))));
        }
        let ghost before = out@;
        match ds.get_list_values(l) {
            Some(vals) => {
                apply_uni_for(v, c, &vals, s, out);
                proof {
                    assert forall|m: int| start.len() <= m < out@.len() implies R(#[trigger] out@[m]) by {
                        let t = out@[m];
                        if m < before.len() {
                            assert(out@[m] == before[m]);
                        } else {
                            assert(uni_concl(*v, c, vals@, s@, t));
                            let ci = choose|ci: URI| #[trigger] vals@.contains(ci) && s@.contains((t.0, (v.rdf_type, ci)));
                            assert(cls_uni_instance(*v, L, S, t, c, l, t.0, ci));
                        }
                    }
                    assert forall|m: int| 0 <= m < start.len() implies #[trigger] out@[m] == start[m] by {
                        assert(before[m] == start[m]);
                    }
                    assert forall|j: int, t: KeyedTriple|
                        0 <= j < i + 1 && #[trigger] uni_pair(*v, L, S, pairs@[j].0, pairs@[j].1.0, t)
                            implies out@.contains(t) by {
                        if j < i {
                            let q = choose|q: int| 0 <= q < before.len() && before[q] == t;
                            assert(out@[q] == t);
                        } else {
                            assert(pairs@[j] == (c, (l, _z)));
                            let (y, ci) = choose|y: URI, ci: URI| #[trigger] cls_uni_instance(*v, L, S, t, c, l, y, ci);
                            assert(vals@.contains(ci));
                            assert(uni_concl(*v, c, vals@, s@, t));
                        }
                    }
                }
            },
            None => {
                proof {
                    assert forall|j: int, t: KeyedTriple|
                        0 <= j < i + 1 && #[trigger] uni_pair(*v, L, S, pairs@[j].0, pairs@[j].1.0, t)
                            implies out@.contains(t) by {
                        if j == i {
                            assert(pairs@[j] == (c, (l, _z)));
                            let (y, ci) = choose|y: URI, ci: URI| #[trigger] cls_uni_instance(*v, L, S, t, c, l, y, ci);
                            assert(ds.members(l).contains(ci));
                        }
                    }
                }
            },
        }
        i += 1;
    }
    proof {
        assert forall|t: KeyedTriple| derives_cls_uni(*v, L, S, t) implies #[trigger] out@.contains(t) by {
            let (c, l, y, ci) = choose|c: URI, l: URI, y: URI, ci: URI| #[trigger] cls_uni_instance(*v, L, S, t, c, l, y, ci);
            assert(pairs@.contains((c, (l, 0u32))));
            let j = choose|j: int| 0 <= j < pairs@.len() && pairs@[j] == (c, (l, 0u32));
            assert(uni_pair(*v, L, S, pairs@[j].0, pairs@[j].1.0, t));
        }
    }
}

} // verus!

verus! {

/// The number of rule groups that one round applies.
pub open spec fn n_groups() -> nat {
    22
}

/// The triples that rule group `k` derives from `S`.
pub open spec fn group_derives(v: Vocab, L: Lists, S: Set<KeyedTriple>, k: int, t: KeyedTriple) -> bool {
    if k == 0 {
        derives_prop(v, PropRule::PrpDom, S, t)
    } else if k == 1 {
        derives_prop(v, PropRule::PrpRng, S, t)
    } else if k == 2 {
        derives_prop(v, PropRule::PrpSpo1, S, t)
    } else if k == 3 {
        derives_prop(v, PropRule::PrpInv1, S, t)
    } else if k == 4 {
        derives_prop(v, PropRule::PrpInv2, S, t)
    } else if k == 5 {
        derives_prop(v, PropRule::PrpEqp1, S, t)
    } else if k == 6 {
        derives_prop(v, PropRule::PrpEqp2, S, t)
    } else if k == 7 {
        derives_prop(v, PropRule::EqRepP, S, t)
    } else if k == 8 {
        derives_class(v, ClassRule::CaxSco, S, t)
    } else if k == 9 {
        derives_class(v, ClassRule::CaxEqc1, S, t)
    } else if k == 10 {
        derives_class(v, ClassRule::CaxEqc2, S, t)
    } else if k == 11 {
        derives_thing(v, S, t) || derives_eq_sym(v, S, t)
    } else if k == 12 {
        derives_eq_trans(v, S, t)
    } else if k == 13 {
        derives_eq_rep_s(v, S, t) || derives_eq_rep_o(v, S, t)
    } else if k == 14 {
        derives_prp_symp(v, S, t)
    } else if k == 15 {
        derives_prp_trp(v, S, t)
    } else if k == 16 {
        derives_prp_fp(v, S, t) || derives_prp_ifp(v, S, t)
    } else if k == 17 {
        derives_cls_hv1(v, S, t) || derives_cls_hv2(v, S, t)
    } else if k == 18 {
        derives_cls_avf(v, S, t)
    } else if k == 19 {
        derives_cls_svf1(v, S, t) || derives_cls_svf2(v, S, t)
    } else if k == 20 {
        derives_cls_int1(v, L, S, t) || derives_cls_int2(v, L, S, t)
    } else {
        derives_cls_uni(v, L, S, t)
    }
}

/// A triple derived by some group is derived, and every derived triple is
/// derived by some group.
proof fn lemma_groups(v: Vocab, L: Lists, S: Set<KeyedTriple>, t: KeyedTriple)
    ensures
        derives(v, L, S, t) <==> exists|k: int| 0 <= k < n_groups() && #[trigger] group_derives(v, L, S, k, t),
{
    if derives(v, L, S, t) {
        if exists|r: PropRule| derives_prop(v, r, S, t) {
            let r = choose|r: PropRule| derives_prop(v, r, S, t);
            match r {
                PropRule::PrpDom => assert(group_derives(v, L, S, 0, t)),
                PropRule::PrpRng => assert(group_derives(v, L, S, 1, t)),
                PropRule::PrpSpo1 => assert(group_derives(v, L, S, 2, t)),
                PropRule::PrpInv1 => assert(group_derives(v, L, S, 3, t)),
                PropRule::PrpInv2 => assert(group_derives(v, L, S, 4, t)),
                PropRule::PrpEqp1 => assert(group_derives(v, L, S, 5, t)),
                PropRule::PrpEqp2 => assert(group_derives(v, L, S, 6, t)),
                PropRule::EqRepP => assert(group_derives(v, L, S, 7, t)),
            }
        } else if exists|r: ClassRule| derives_class(v, r, S, t) {
            let r = choose|r: ClassRule| derives_class(v, r, S, t);
            match r {
                ClassRule::CaxSco => assert(group_derives(v, L, S, 8, t)),
                ClassRule::CaxEqc1 => assert(group_derives(v, L, S, 9, t)),
                ClassRule::CaxEqc2 => assert(group_derives(v, L, S, 10, t)),
            }
        } else if derives_thing(v, S, t) || derives_eq_sym(v, S, t) {
            assert(group_derives(v, L, S, 11, t));
        } else if derives_eq_trans(v, S, t) {
            assert(group_derives(v, L, S, 12, t));
        } else if derives_eq_rep_s(v, S, t) || derives_eq_rep_o(v, S, t) {
            assert(group_derives(v, L, S, 13, t));
        } else if derives_prp_symp(v, S, t) {
            assert(group_derives(v, L, S, 14, t));
        } else if derives_prp_trp(v, S, t) {
            assert(group_derives(v, L, S, 15, t));
        } else if derives_prp_fp(v, S, t) || derives_prp_ifp(v, S, t) {
            assert(group_derives(v, L, S, 16, t));
        } else if derives_cls_hv1(v, S, t) || derives_cls_hv2(v, S, t) {
            assert(group_derives(v, L, S, 17, t));
        } else if derives_cls_avf(v, S, t) {
            assert(group_derives(v, L, S, 18, t));
        } else if derives_cls_svf1(v, S, t) || derives_cls_svf2(v, S, t) {
            assert(group_derives(v, L, S, 19, t));
        } else if derives_cls_int1(v, L, S, t) || derives_cls_int2(v, L, S, t) {
            assert(group_derives(v, L, S, 20, t));
        } else {
            assert(group_derives(v, L, S, 21, t));
        }
    }
    if exists|k: int| 0 <= k < n_groups() && #[trigger] group_derives(v, L, S, k, t) {
        let k = choose|k: int| 0 <= k < n_groups() && #[trigger] group_derives(v, L, S, k, t);
        if k == 0 {
            assert(derives_prop(v, PropRule::PrpDom, S, t));
        } else if k == 1 {
            assert(derives_prop(v, PropRule::PrpRng, S, t));
        } else if k == 2 {
            assert(derives_prop(v, PropRule::PrpSpo1, S, t));
        } else if k == 3 {
            assert(derives_prop(v, PropRule::PrpInv1, S, t));
        } else if k == 4 {
            assert(derives_prop(v, PropRule::PrpInv2, S, t));
        } else if k == 5 {
            assert(derives_prop(v, PropRule::PrpEqp1, S, t));
        } else if k == 6 {
            assert(derives_prop(v, PropRule::PrpEqp2, S, t));
        } else if k == 7 {
            assert(derives_prop(v, PropRule::EqRepP, S, t));
        } else if k == 8 {
            assert(derives_class(v, ClassRule::CaxSco, S, t));
        } else if k == 9 {
            assert(derives_class(v, ClassRule::CaxEqc1, S, t));
        } else if k == 10 {
            assert(derives_class(v, ClassRule::CaxEqc2, S, t));
        }
    }
}

} // verus!

verus! {

fn prop_rule_at(k: usize) -> (r: PropRule)
    requires
        k < 8,
    ensures
        group_derives_prop_index(k as int, r),
{
    if k == 0 {
        PropRule::PrpDom
    } else if k == 1 {
        PropRule::PrpRng
    } else if k == 2 {
        PropRule::PrpSpo1
    } else if k == 3 {
        PropRule::PrpInv1
    } else if k == 4 {
        PropRule::PrpInv2
    } else if k == 5 {
        PropRule::PrpEqp1
    } else if k == 6 {
        PropRule::PrpEqp2
    } else {
        PropRule::EqRepP
    }
}

/// Group `k` (below 8) is the property rule `r`.
pub open spec fn group_derives_prop_index(k: int, r: PropRule) -> bool {
    ||| k == 0 && r == PropRule::PrpDom
    ||| k == 1 && r == PropRule::PrpRng
    ||| k == 2 && r == PropRule::PrpSpo1
    ||| k == 3 && r == PropRule::PrpInv1
    ||| k == 4 && r == PropRule::PrpInv2
    ||| k == 5 && r == PropRule::PrpEqp1
    ||| k == 6 && r == PropRule::PrpEqp2
    ||| k == 7 && r == PropRule::EqRepP
}

/// Appends to `out` the triples that rule group `k` derives from `s`.
fn apply_group(
    v: &Vocab,
    ds: &DisjointSets,
    s: &Vec<KeyedTriple>,
    ix: &Indexes,
    k: usize,
    out: &mut Vec<KeyedTriple>,
)
    requires
        ds.wf(),
        sorted_strict(s@),
        ix.of(*v, s@),
        k < n_groups(),
    ensures
        extends(old(out)@, final(out)@, |t: KeyedTriple| group_derives(*v, lists_of(*ds), s@.to_set(), k as int, t)),
        covers(final(out)@, |t: KeyedTriple| group_derives(*v, lists_of(*ds), s@.to_set(), k as int, t)),
{
    let ghost S = s@.to_set();
    let ghost L = lists_of(*ds);
    if k < 8 {
        let r = prop_rule_at(k);
        proof {
            assert forall|p: URI, x: URI, y: URI|
                #![trigger ix.pso@.contains((p, (x, y)))]
                #![trigger s@.contains((x, (p, y)))]
                ix.pso@.contains((p, (x, y))) <==> s@.contains((x, (p, y))) by {
                assert(unpermute_spec(Perm::Swap01, (p, (x, y))) == (x, (p, y)));
            }
        }
        apply_prop_rule(v, r, s, &ix.pso, out);
    } else if k < 11 {
        let r = if k == 8 {
            ClassRule::CaxSco
        } else if k == 9 {
            ClassRule::CaxEqc1
        } else {
            ClassRule::CaxEqc2
        };
        apply_class_rule(v, r, s, ix, out);
    } else if k == 11 {
        apply_thing_and_sym(v, s, out);
    } else if k == 12 {
        apply_eq_trans(v, s, ix, out);
    } else if k == 13 {
        apply_eq_rep(v, s, ix, out);
    } else if k == 14 {
        apply_prp_symp(v, s, ix, out);
    } else if k == 15 {
        apply_prp_trp(v, s, ix, out);
    } else if k == 16 {
        apply_prp_fp_ifp(v, s, ix, out);
    } else if k == 17 {
        apply_has_value(v, s, ix, out);
    } else if k == 18 {
        apply_all_values(v, s, ix, out);
    } else if k == 19 {
        apply_some_values(v, s, ix, out);
    } else if k == 20 {
        apply_intersections(v, ds, s, out);
    } else {
        apply_unions(v, ds, s, out);
    }
}

/// One round: every triple that one application of a rule derives from `s`,
/// and nothing else.
pub fn round(v: &Vocab, ds: &DisjointSets, s: &Vec<KeyedTriple>) -> (out: Vec<KeyedTriple>)
    requires
        ds.wf(),
        sorted_strict(s@),
    ensures
        forall|i: int| 0 <= i < out@.len() ==> derives(*v, lists_of(*ds), s@.to_set(), #[trigger] out@[i]),
        forall|t: KeyedTriple| derives(*v, lists_of(*ds), s@.to_set(), t) ==> #[trigger] out@.contains(t),
{
    let ghost S = s@.to_set();
    let ghost L = lists_of(*ds);
    let ix = Indexes::build(v, s);
    let mut out: Vec<KeyedTriple> = Vec::new();
    let mut k: usize = 0;
    while k < 22
        invariant
            ds.wf(),
            sorted_strict(s@),
            ix.of(*v, s@),
            S == s@.to_set(),
            L == lists_of(*ds),
            n_groups() == 22,
            0 <= k <= 22,
            forall|i: int| 0 <= i < out@.len() ==> derives(*v, L, S, #[trigger] out@[i]),
            forall|j: int, t: KeyedTriple| 0 <= j < k && #[trigger] group_derives(*v, L, S, j, t) ==> out@.contains(t),
        decreases 22 - k,
    {
        let ghost before = out@;
        apply_group(v, ds, s, &ix, k, &mut out);
        proof {
            assert forall|i: int| 0 <= i < out@.len() implies derives(*v, L, S, #[trigger] out@[i]) by {
                if i < before.len() {
                    assert(out@[i] == before[i]);
                } else {
                    assert(group_derives(*v, L, S, k as int, out@[i]));
                    lemma_groups(*v, L, S, out@[i]);
                }
            }
            assert forall|j: int, t: KeyedTriple| 0 <= j < k + 1 && #[trigger] group_derives(*v, L, S, j, t) implies out@.contains(t) by {
                if j < k {
                    let q = choose|q: int| 0 <= q < before.len() && before[q] == t;
                    assert(out@[q] == t);
                }
            }
        }
        k += 1;
    }
    proof {
        assert forall|t: KeyedTriple| derives(*v, L, S, t) implies #[trigger] out@.contains(t) by {
            lemma_groups(*v, L, S, t);
            let j = choose|j: int| 0 <= j < n_groups() && #[trigger] group_derives(*v, L, S, j, t);
        }
    }
    out
}

} // verus!

verus! {

/// Every identifier in the triples of `S` is below `m`.
pub open spec fn ids_below(S: Set<KeyedTriple>, m: int) -> bool {
    forall|t: KeyedTriple| #[trigger] S.contains(t) ==> t.0 < m && t.1.0 < m && t.1.1 < m
}

/// The rules derive from `S` only triples whose identifiers occur in `S`,
/// in the lists, or among the vocabulary terms they introduce.
pub(crate) proof fn lemma_derives_bounded(v: Vocab, L: Lists, S: Set<KeyedTriple>, t: KeyedTriple, m: int)
    requires
        ids_below(S, m),
        v.rdf_type < m,
        v.owl_thing < m,
        v.owl_sameas < m,
        forall|l: URI, w: URI| #[trigger] L(l).contains(w) ==> w < m,
        derives(v, L, S, t),
    ensures
        t.0 < m && t.1.0 < m && t.1.1 < m,
{
    if exists|r: PropRule| derives_prop(v, r, S, t) {
        let r = choose|r: PropRule| derives_prop(v, r, S, t);
        let (a, b, x, y) = choose|a: URI, b: URI, x: URI, y: URI| #[trigger] prop_instance(v, r, S, t, a, b, x, y);
        assert(S.contains((a, (prop_rule_pred(v, r), b))));
        if prop_rule_flipped(r) {
            assert(S.contains((x, (b, y))));
        } else {
            assert(S.contains((x, (a, y))));
        }
    } else if exists|r: ClassRule| derives_class(v, r, S, t) {
        let r = choose|r: ClassRule| derives_class(v, r, S, t);
        let (c1, c2, x) = choose|c1: URI, c2: URI, x: URI| #[trigger] class_instance(v, r, S, t, c1, c2, x);
        assert(S.contains((c1, (class_rule_pred(v, r), c2))));
    } else if derives_cls_int1(v, L, S, t) {
        let (c, l, y, c0) = choose|c: URI, l: URI, y: URI, c0: URI| #[trigger] cls_int1_instance(v, L, S, t, c, l, y, c0);
        assert(S.contains((c, (v.owl_intersection, l))));
        assert(S.contains((y, (v.rdf_type, c0))));
    } else if derives_cls_int2(v, L, S, t) {
        let (c, l, y, ci) = choose|c: URI, l: URI, y: URI, ci: URI| #[trigger] cls_int2_instance(v, L, S, t, c, l, y, ci);
        assert(S.contains((y, (v.rdf_type, c))));
    } else if derives_cls_uni(v, L, S, t) {
        let (c, l, y, ci) = choose|c: URI, l: URI, y: URI, ci: URI| #[trigger] cls_uni_instance(v, L, S, t, c, l, y, ci);
        assert(S.contains((c, (v.owl_union, l))));
        assert(S.contains((y, (v.rdf_type, ci))));
    }
}

} // verus!

verus! {

/// The rules are monotone: what they derive from a set they derive from
/// every larger set.
pub proof fn lemma_derives_mono(v: Vocab, L: Lists, S: Set<KeyedTriple>, T: Set<KeyedTriple>, t: KeyedTriple)
    requires
        S.subset_of(T),
        derives(v, L, S, t),
    ensures
        derives(v, L, T, t),
{
    if exists|r: PropRule| derives_prop(v, r, S, t) {
        let r = choose|r: PropRule| derives_prop(v, r, S, t);
        let (a, b, x, y) = choose|a: URI, b: URI, x: URI, y: URI| #[trigger] prop_instance(v, r, S, t, a, b, x, y);
        assert(prop_instance(v, r, T, t, a, b, x, y));
        assert(derives_prop(v, r, T, t));
    } else if exists|r: ClassRule| derives_class(v, r, S, t) {
        let r = choose|r: ClassRule| derives_class(v, r, S, t);
        let (c1, c2, x) = choose|c1: URI, c2: URI, x: URI| #[trigger] class_instance(v, r, S, t, c1, c2, x);
        assert(class_instance(v, r, T, t, c1, c2, x));
        assert(derives_class(v, r, T, t));
    } else if derives_thing(v, S, t) {
        let (a, b, c) = choose|a: URI, b: URI, c: URI| #[trigger] thing_instance(v, S, t, a, b, c);
        assert(thing_instance(v, T, t, a, b, c));
    } else if derives_eq_sym(v, S, t) {
        let (a, b) = choose|a: URI, b: URI| #[trigger] eq_sym_instance(v, S, t, a, b);
        assert(eq_sym_instance(v, T, t, a, b));
    } else if derives_eq_trans(v, S, t) {
        let (a, b, c) = choose|a: URI, b: URI, c: URI| #[trigger] eq_trans_instance(v, S, t, a, b, c);
        assert(eq_trans_instance(v, T, t, a, b, c));
    } else if derives_eq_rep_s(v, S, t) {
        let (a, b, c, d) = choose|a: URI, b: URI, c: URI, d: URI| #[trigger] eq_rep_s_instance(v, S, t, a, b, c, d);
        assert(eq_rep_s_instance(v, T, t, a, b, c, d));
    } else if derives_eq_rep_o(v, S, t) {
        let (a, b, c, d) = choose|a: URI, b: URI, c: URI, d: URI| #[trigger] eq_rep_o_instance(v, S, t, a, b, c, d);
        assert(eq_rep_o_instance(v, T, t, a, b, c, d));
    } else if derives_prp_symp(v, S, t) {
        let (a, b, c) = choose|a: URI, b: URI, c: URI| #[trigger] prp_symp_instance(v, S, t, a, b, c);
        assert(prp_symp_instance(v, T, t, a, b, c));
    } else if derives_prp_trp(v, S, t) {
        let (a, b, c, d) = choose|a: URI, b: URI, c: URI, d: URI| #[trigger] prp_trp_instance(v, S, t, a, b, c, d);
        assert(prp_trp_instance(v, T, t, a, b, c, d));
    } else if derives_prp_fp(v, S, t) {
        let (a, b, c, d) = choose|a: URI, b: URI, c: URI, d: URI| #[trigger] prp_fp_instance(v, S, t, a, b, c, d);
        assert(prp_fp_instance(v, T, t, a, b, c, d));
    } else if derives_prp_ifp(v, S, t) {
        let (a, b, c, d) = choose|a: URI, b: URI, c: URI, d: URI| #[trigger] prp_ifp_instance(v, S, t, a, b, c, d);
        assert(prp_ifp_instance(v, T, t, a, b, c, d));
    } else if derives_cls_hv1(v, S, t) {
        let (a, b, c, d) = choose|a: URI, b: URI, c: URI, d: URI| #[trigger] cls_hv1_instance(v, S, t, a, b, c, d);
        assert(cls_hv1_instance(v, T, t, a, b, c, d));
    } else if derives_cls_hv2(v, S, t) {
        let (a, b, c, d) = choose|a: URI, b: URI, c: URI, d: URI| #[trigger] cls_hv2_instance(v, S, t, a, b, c, d);
        assert(cls_hv2_instance(v, T, t, a, b, c, d));
    } else if derives_cls_avf(v, S, t) {
        let (a, b, c, d, e) = choose|a: URI, b: URI, c: URI, d: URI, e: URI| #[trigger] cls_avf_instance(v, S, t, a, b, c, d, e);
        assert(cls_avf_instance(v, T, t, a, b, c, d, e));
    } else if derives_cls_svf1(v, S, t) {
        let (a, b, c, d, e) = choose|a: URI, b: URI, c: URI, d: URI, e: URI| #[trigger] cls_svf1_instance(v, S, t, a, b, c, d, e);
        assert(cls_svf1_instance(v, T, t, a, b, c, d, e));
    } else if derives_cls_svf2(v, S, t) {
        let (a, b, c, d) = choose|a: URI, b: URI, c: URI, d: URI| #[trigger] cls_svf2_instance(v, S, t, a, b, c, d);
        assert(cls_svf2_instance(v, T, t, a, b, c, d));
    } else if derives_cls_int1(v, L, S, t) {
        let (a, b, c, d) = choose|a: URI, b: URI, c: URI, d: URI| #[trigger] cls_int1_instance(v, L, S, t, a, b, c, d);
        assert(cls_int1_instance(v, L, T, t, a, b, c, d));
    } else if derives_cls_int2(v, L, S, t) {
        let (a, b, c, d) = choose|a: URI, b: URI, c: URI, d: URI| #[trigger] cls_int2_instance(v, L, S, t, a, b, c, d);
        assert(cls_int2_instance(v, L, T, t, a, b, c, d));
    } else {
        let (a, b, c, d) = choose|a: URI, b: URI, c: URI, d: URI| #[trigger] cls_uni_instance(v, L, S, t, a, b, c, d);
        assert(cls_uni_instance(v, L, T, t, a, b, c, d));
    }
}

} // verus!

verus! {

/// A strictly ascending sequence has no duplicates, and as many elements as
/// its set.
proof fn lemma_strict_len(s: Seq<KeyedTriple>)
    requires
        sorted_strict(s),
    ensures
        s.no_duplicates(),
        s.to_set().len() == s.len(),
        s.to_set().finite(),
{
    assert forall|i: int, j: int| 0 <= i < s.len() && 0 <= j < s.len() && i != j implies s[i] != s[j] by {
        if i < j {
            assert(triple_lt(s[i], s[j]));
        } else {
            assert(triple_lt(s[j], s[i]));
        }
    }
    s.unique_seq_to_set();
    seq_to_set_is_finite(s);
}

/// A strictly ascending sequence that holds every triple of another, and one
/// triple more, is longer.
pub(crate) proof fn lemma_strict_grows(a: Seq<KeyedTriple>, b: Seq<KeyedTriple>, t: KeyedTriple)
    requires
        sorted_strict(a),
        sorted_strict(b),
        forall|u: KeyedTriple| #[trigger] a.contains(u) ==> b.contains(u),
        b.contains(t),
        !a.contains(t),
    ensures
        a.len() < b.len(),
{
    lemma_strict_len(a);
    lemma_strict_len(b);
    let A = a.to_set();
    let B = b.to_set();
    assert(A.subset_of(B.remove(t)));
    lemma_len_subset(A, B.remove(t));
}

/// The digits `x` and `y` below `m` are read back from `x * m + y`.
proof fn lemma_digits(x1: int, y1: int, x2: int, y2: int, m: int)
    requires
        0 <= y1 < m,
        0 <= y2 < m,
        0 <= x1,
        0 <= x2,
        x1 * m + y1 == x2 * m + y2,
    ensures
        x1 == x2,
        y1 == y2,
{
    if x1 < x2 {
        assert(x1 * m + y1 < x2 * m + y2) by (nonlinear_arith)
            requires
                x1 < x2,
                0 <= y1 < m,
                0 <= y2,
        ;
    } else if x2 < x1 {
        assert(x2 * m + y2 < x1 * m + y1) by (nonlinear_arith)
            requires
                x2 < x1,
                0 <= y2 < m,
                0 <= y1,
        ;
    }
}

/// The number of `t` in base `m`.
pub open spec fn code(m: int, t: KeyedTriple) -> int {
    (t.0 * m + t.1.0) * m + t.1.1
}

/// A strictly ascending sequence of triples over identifiers below `m` holds
/// at most `m * m * m` triples.
pub(crate) proof fn lemma_len_bound(s: Seq<KeyedTriple>, m: int)
    requires
        sorted_strict(s),
        ids_below(s.to_set(), m),
        m > 0,
    ensures
        s.len() <= m * m * m,
{
    lemma_strict_len(s);
    let X = s.to_set();
    let f = |t: KeyedTriple| code(m, t);
    let Y = X.map(f);
    assert forall|a: KeyedTriple, b: KeyedTriple| X.contains(a) && X.contains(b) && #[trigger] f(a) == #[trigger] f(b) implies a == b by {
        assert(a.0 * m + a.1.0 >= 0) by (nonlinear_arith)
            requires
                a.0 >= 0,
                a.1.0 >= 0,
                m > 0,
        ;
        assert(b.0 * m + b.1.0 >= 0) by (nonlinear_arith)
            requires
                b.0 >= 0,
                b.1.0 >= 0,
                m > 0,
        ;
        lemma_digits(a.0 * m + a.1.0, a.1.1 as int, b.0 * m + b.1.0, b.1.1 as int, m);
        lemma_digits(a.0 as int, a.1.0 as int, b.0 as int, b.1.0 as int, m);
    }
    assert(injective_on(f, X));
    lemma_map_size(X, Y, f);
    assert forall|c: int| #[trigger] Y.contains(c) implies set_int_range(0, m * m * m).contains(c) by {
        let t = choose|t: KeyedTriple| X.contains(t) && f(t) == c;
        assert(0 <= code(m, t) < m * m * m) by (nonlinear_arith)
            requires
                0 <= t.0 < m,
                0 <= t.1.0 < m,
                0 <= t.1.1 < m,
        {
            assert(t.0 * m + t.1.0 <= (m - 1) * m + (m - 1));
            assert(t.0 * m + t.1.0 < m * m);
            assert((t.0 * m + t.1.0) * m <= (m * m - 1) * m);
        }
    }
    assert(m * m * m >= 0) by (nonlinear_arith)
        requires
            m > 0,
    ;
    lemma_int_range(0, m * m * m);
    lemma_len_subset(Y, set_int_range(0, m * m * m));
}

} // verus!

verus! {

/// The triples of `cand` that are not in `s`.
pub(crate) fn not_in(cand: &Vec<KeyedTriple>, s: &Vec<KeyedTriple>) -> (r: Vec<KeyedTriple>)
    requires
        sorted_strict(s@),
    ensures
        forall|t: KeyedTriple| #[trigger] r@.contains(t) <==> (cand@.contains(t) && !s@.contains(t)),
{
    let mut r: Vec<KeyedTriple> = Vec::new();
    let mut i: usize = 0;
    while i < cand.len()
        invariant
            sorted_strict(s@),
            0 <= i <= cand@.len(),
            forall|j: int| 0 <= j < i && !s@.contains(#[trigger] cand@[j]) ==> r@.contains(cand@[j]),
            forall|j: int| 0 <= j < r@.len() ==> cand@.contains(#[trigger] r@[j]) && !s@.contains(r@[j]),
        decreases cand@.len() - i,
    {
        let t = cand[i];
        if !contains_sorted(s, t) {
            r.push(t);
            proof {
                assert(r@[r@.len() - 1] == t);
                assert(cand@.contains(cand@[i as int]));
            }
        }
        i += 1;
    }
    proof {
        assert forall|t: KeyedTriple| cand@.contains(t) && !s@.contains(t) implies #[trigger] r@.contains(t) by {
            let j = choose|j: int| 0 <= j < cand@.len() && cand@[j] == t;
        }
        assert forall|t: KeyedTriple| #[trigger] r@.contains(t) implies cand@.contains(t) && !s@.contains(t) by {
            let j = choose|j: int| 0 <= j < r@.len() && r@[j] == t;
        }
    }
    r
}

/// One more than the greatest identifier in the triples and in the
/// vocabulary terms that the rules introduce.
pub(crate) fn id_bound(v: &Vocab, s: &Vec<KeyedTriple>) -> (m: u64)
    ensures
        m > 0,
        ids_below(s@.to_set(), m as int),
        v.rdf_type < m,
        v.owl_thing < m,
        v.owl_sameas < m,
{
    let mut top: u32 = v.rdf_type;
    if v.owl_thing > top {
        top = v.owl_thing;
    }
    if v.owl_sameas > top {
        top = v.owl_sameas;
    }
    let mut i: usize = 0;
    while i < s.len()
        invariant
            0 <= i <= s@.len(),
            v.rdf_type <= top && v.owl_thing <= top && v.owl_sameas <= top,
            forall|j: int|
                0 <= j < i ==> (#[trigger] s@[j]).0 <= top && s@[j].1.0 <= top && s@[j].1.1 <= top,
        decreases s@.len() - i,
    {
        let (a, (b, c)) = s[i];
        if a > top {
            top = a;
        }
        if b > top {
            top = b;
        }
        if c > top {
            top = c;
        }
        proof {
            assert(s@[i as int] == (a, (b, c)));
        }
        i += 1;
    }
    proof {
        assert forall|t: KeyedTriple| #[trigger] s@.to_set().contains(t) implies t.0 < top as u64 + 1 && t.1.0
            < top as u64 + 1 && t.1.1 < top as u64 + 1 by {
            let j = choose|j: int| 0 <= j < s@.len() && s@[j] == t;
        }
    }
    top as u64 + 1
}

/// `r` is contained in every set that holds `base` and is closed under the
/// rules.
pub open spec fn least_closed(v: Vocab, L: Lists, base: Seq<KeyedTriple>, r: Set<KeyedTriple>) -> bool {
    forall|T: Set<KeyedTriple>|
        (forall|t: KeyedTriple| #[trigger] base.contains(t) ==> T.contains(t)) && #[trigger] closed(v, L, T)
            ==> r.subset_of(T)
}

/// Saturates `input` under the rules: applies every rule to the triples so
/// far and adds what is new, until nothing is. The result is the least set
/// that holds `input` and is closed under the rules, strictly ascending.
pub fn saturate(v: &Vocab, ds: &DisjointSets, input: Vec<KeyedTriple>) -> (r: Vec<KeyedTriple>)
    requires
        ds.wf(),
        forall|k: URI|
            #[trigger] ds.first_of().contains_key(k) ==> input@.contains((k, (v.rdf_first, ds.first_of()[k]))),
    ensures
        sorted_strict(r@),
        forall|t: KeyedTriple| #[trigger] input@.contains(t) ==> r@.contains(t),
        closed(*v, lists_of(*ds), r@.to_set()),
        least_closed(*v, lists_of(*ds), input@, r@.to_set()),
{
    let ghost L = lists_of(*ds);
    let ghost base = input@;
    let m = id_bound(v, &input);
    proof {
        assert forall|l: URI, w: URI| #[trigger] L(l).contains(w) implies w < m by {
            assert(ds.members(l).contains(w));
            let k = choose|k: URI|
                #![trigger ds.first_of()[k], connected(ds.links(), l, k)]
                ds.first_of().contains_key(k) && ds.first_of()[k] == w && connected(ds.links(), l, k);
            assert(base.contains((k, (v.rdf_first, w))));
            assert(base.to_set().contains((k, (v.rdf_first, w))));
        }
    }
    let mut s = relation_of(input);
    proof {
        assert forall|t: KeyedTriple| #[trigger] s@.to_set().contains(t) implies t.0 < m && t.1.0 < m && t.1.1 < m by {
            assert(base.to_set().contains(t));
        }
        lemma_len_bound(s@, m as int);
        assert forall|T: Set<KeyedTriple>|
            (forall|t: KeyedTriple| #[trigger] base.contains(t) ==> T.contains(t)) && #[trigger] closed(*v, L, T)
                implies s@.to_set().subset_of(T) by {
            assert forall|t: KeyedTriple| #[trigger] s@.to_set().contains(t) implies T.contains(t) by {
                assert(base.contains(t));
            }
        }
    }
    let mut done = false;
    while !done
        invariant
            ds.wf(),
            L == lists_of(*ds),
            m > 0,
            sorted_strict(s@),
            forall|t: KeyedTriple| #[trigger] base.contains(t) ==> s@.contains(t),
            ids_below(s@.to_set(), m as int),
            v.rdf_type < m && v.owl_thing < m && v.owl_sameas < m,
            forall|l: URI, w: URI| #[trigger] L(l).contains(w) ==> w < m,
            s@.len() <= m * m * m,
            done ==> closed(*v, L, s@.to_set()),
            least_closed(*v, L, base, s@.to_set()),
        decreases m * m * m - s@.len() + (if done { 0int } else { 1int }),
    {
        let ghost S = s@.to_set();
        let cand = round(v, ds, &s);
        let fresh = not_in(&cand, &s);
        if fresh.len() == 0 {
            proof {
                assert forall|t: KeyedTriple| #[trigger] derives(*v, L, S, t) implies S.contains(t) by {
                    assert(cand@.contains(t));
                    if !s@.contains(t) {
                        assert(fresh@.contains(t));
                        assert(false);
                    }
                }
            }
            done = true;
        } else {
            let ghost old_s = s@;
            let ghost f0 = fresh@[0];
            let add = relation_of(fresh);
            proof {
                assert(fresh@.contains(f0));
                assert(add@.contains(f0));
            }
            s = merge(s, add);
            proof {
                assert forall|t: KeyedTriple| #[trigger] add@.contains(t) implies derives(*v, L, S, t) by {
                    assert(fresh@.contains(t));
                    assert(cand@.contains(t));
                    let i = choose|i: int| 0 <= i < cand@.len() && cand@[i] == t;
                }
                assert forall|t: KeyedTriple| #[trigger] s@.to_set().contains(t) implies t.0 < m && t.1.0 < m && t.1.1 < m by {
                    if old_s.contains(t) {
                        assert(S.contains(t));
                    } else {
                        assert(add@.contains(t));
                        lemma_derives_bounded(*v, L, S, t, m as int);
                    }
                }
                assert forall|u: KeyedTriple| #[trigger] old_s.contains(u) implies s@.contains(u) by {}
                lemma_strict_grows(old_s, s@, f0);
                lemma_len_bound(s@, m as int);
                assert forall|T: Set<KeyedTriple>|
                    (forall|t: KeyedTriple| #[trigger] base.contains(t) ==> T.contains(t)) && #[trigger] closed(*v, L, T)
                        implies s@.to_set().subset_of(T) by {
                    assert(S.subset_of(T));
                    assert forall|t: KeyedTriple| #[trigger] s@.to_set().contains(t) implies T.contains(t) by {
                        if old_s.contains(t) {
                            assert(S.contains(t));
                        } else {
                            assert(add@.contains(t));
                            lemma_derives_mono(*v, L, S, T, t);
                        }
                    }
                }
            }
        }
    }
    s
}

} // verus!
