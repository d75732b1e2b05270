//! The OWL 2 RL rules, stated over sets of interned triples.
//!
//! Each rule is given by the triples it derives from a set `S`; a set is
//! closed under a rule when it already holds everything the rule derives
//! from it.
use vstd::prelude::*;
use crate::relation::{KeyedTriple, URI};

verus! {

/// The identifiers of the vocabulary terms that the rules mention.
#[derive(Clone, Copy, Debug)]
pub struct Vocab {
    pub rdf_type: URI,
    pub rdf_first: URI,
    pub rdf_rest: URI,
    pub rdf_nil: URI,
    pub rdfs_domain: URI,
    pub rdfs_range: URI,
    pub rdfs_subprop: URI,
    pub rdfs_subclass: URI,
    pub owl_thing: URI,
    pub owl_nothing: URI,
    pub owl_class: URI,
    pub owl_sameas: URI,
    pub owl_inverseof: URI,
    pub owl_symmetric: URI,
    pub owl_irreflexive: URI,
    pub owl_asymmetric: URI,
    pub owl_transitive: URI,
    pub owl_equivprop: URI,
    pub owl_equivclass: URI,
    pub owl_functional: URI,
    pub owl_invfunctional: URI,
    pub owl_intersection: URI,
    pub owl_union: URI,
    pub owl_hasvalue: URI,
    pub owl_allvalues: URI,
    pub owl_somevalues: URI,
    pub owl_disjointwith: URI,
    pub owl_onproperty: URI,
    pub owl_complementof: URI,
    pub owl_pdw: URI,
}

/// The triple `(s, p, o)` is in `S`.
pub open spec fn has(S: Set<KeyedTriple>, s: URI, p: URI, o: URI) -> bool {
    S.contains((s, (p, o)))
}

/// The members of the RDF list whose head is `l`, for each head.
pub type Lists = spec_fn(URI) -> Set<URI>;

/// Rules with premises `(a P b)` and a data triple whose predicate is one of
/// `a` or `b`.
#[derive(Clone, Copy, Debug, PartialEq, Eq, Structural)]
pub enum PropRule {
    /// prp-dom: `(p rdfs:domain c), (x p y) => (x rdf:type c)`
    PrpDom,
    /// prp-rng: `(p rdfs:range c), (x p y) => (y rdf:type c)`
    PrpRng,
    /// prp-spo1: `(p1 rdfs:subPropertyOf p2), (x p1 y) => (x p2 y)`
    PrpSpo1,
    /// prp-inv1: `(p1 owl:inverseOf p2), (x p1 y) => (y p2 x)`
    PrpInv1,
    /// prp-inv2: `(p1 owl:inverseOf p2), (x p2 y) => (y p1 x)`
    PrpInv2,
    /// prp-eqp1: `(p1 owl:equivalentProperty p2), (x p1 y) => (x p2 y)`
    PrpEqp1,
    /// prp-eqp2: `(p1 owl:equivalentProperty p2), (x p2 y) => (x p1 y)`
    PrpEqp2,
    /// eq-rep-p: `(p1 owl:sameAs p2), (x p1 y) => (x p2 y)`
    EqRepP,
}

/// The schema predicate `P` of a property rule.
pub open spec fn prop_rule_pred(v: Vocab, r: PropRule) -> URI {
    match r {
        PropRule::PrpDom => v.rdfs_domain,
        PropRule::PrpRng => v.rdfs_range,
        PropRule::PrpSpo1 => v.rdfs_subprop,
        PropRule::PrpInv1 => v.owl_inverseof,
        PropRule::PrpInv2 => v.owl_inverseof,
        PropRule::PrpEqp1 => v.owl_equivprop,
        PropRule::PrpEqp2 => v.owl_equivprop,
        PropRule::EqRepP => v.owl_sameas,
    }
}

/// Whether the data triple uses the object `b` of `(a P b)` (and the
/// conclusion `a`), rather than the other way round.
pub open spec fn prop_rule_flipped(r: PropRule) -> bool {
    r == PropRule::PrpInv2 || r == PropRule::PrpEqp2
}

/// The conclusion of a property rule, from the other end `q` of `(a P b)` and
/// the data triple `(x _ y)`.
pub open spec fn prop_rule_concl(v: Vocab, r: PropRule, q: URI, x: URI, y: URI) -> KeyedTriple {
    match r {
        PropRule::PrpDom => (x, (v.rdf_type, q)),
        PropRule::PrpRng => (y, (v.rdf_type, q)),
        PropRule::PrpSpo1 => (x, (q, y)),
        PropRule::PrpInv1 => (y, (q, x)),
        PropRule::PrpInv2 => (y, (q, x)),
        PropRule::PrpEqp1 => (x, (q, y)),
        PropRule::PrpEqp2 => (x, (q, y)),
        PropRule::EqRepP => (x, (q, y)),
    }
}

/// The instance of a property rule with schema triple `(a P b)` and data
/// triple `(x _ y)` derives `t`.
pub open spec fn prop_instance(
    v: Vocab,
    r: PropRule,
    S: Set<KeyedTriple>,
    t: KeyedTriple,
    a: URI,
    b: URI,
    x: URI,
    y: URI,
) -> bool {
    has(S, a, prop_rule_pred(v, r), b) && if prop_rule_flipped(r) {
        has(S, x, b, y) && t == prop_rule_concl(v, r, a, x, y)
    } else {
        has(S, x, a, y) && t == prop_rule_concl(v, r, b, x, y)
    }
}

pub open spec fn derives_prop(v: Vocab, r: PropRule, S: Set<KeyedTriple>, t: KeyedTriple) -> bool {
    exists|a: URI, b: URI, x: URI, y: URI| #[trigger] prop_instance(v, r, S, t, a, b, x, y)
}

/// Rules with premises `(c1 P c2)` and a typing of an instance.
#[derive(Clone, Copy, Debug, PartialEq, Eq, Structural)]
pub enum ClassRule {
    /// cax-sco: `(c1 rdfs:subClassOf c2), (x rdf:type c1) => (x rdf:type c2)`
    CaxSco,
    /// cax-eqc1: `(c1 owl:equivalentClass c2), (x rdf:type c1) => (x rdf:type c2)`
    CaxEqc1,
    /// cax-eqc2: `(c1 owl:equivalentClass c2), (x rdf:type c2) => (x rdf:type c1)`
    CaxEqc2,
}

pub open spec fn class_rule_pred(v: Vocab, r: ClassRule) -> URI {
    match r {
        ClassRule::CaxSco => v.rdfs_subclass,
        _ => v.owl_equivclass,
    }
}

/// The instance of a class rule with schema triple `(c1 P c2)` and instance
/// `x` derives `t`.
pub open spec fn class_instance(
    v: Vocab,
    r: ClassRule,
    S: Set<KeyedTriple>,
    t: KeyedTriple,
    c1: URI,
    c2: URI,
    x: URI,
) -> bool {
    has(S, c1, class_rule_pred(v, r), c2) && if r == ClassRule::CaxEqc2 {
        has(S, x, v.rdf_type, c2) && t == (x, (v.rdf_type, c1))
    } else {
        has(S, x, v.rdf_type, c1) && t == (x, (v.rdf_type, c2))
    }
}

pub open spec fn derives_class(v: Vocab, r: ClassRule, S: Set<KeyedTriple>, t: KeyedTriple) -> bool {
    exists|c1: URI, c2: URI, x: URI| #[trigger] class_instance(v, r, S, t, c1, c2, x)
}

/// Every subject is an `owl:Thing`: `(s p o) => (s rdf:type owl:Thing)`.
pub open spec fn thing_instance(
    v: Vocab,
    S: Set<KeyedTriple>,
    t: KeyedTriple,
    s: URI,
    p: URI,
    o: URI,
) -> bool {
    has(S, s, p, o) && t == (s, (v.rdf_type, v.owl_thing))
}

pub open spec fn derives_thing(v: Vocab, S: Set<KeyedTriple>, t: KeyedTriple) -> bool {
    exists|s: URI, p: URI, o: URI| #[trigger] thing_instance(v, S, t, s, p, o)
}

/// eq-sym: `(x owl:sameAs y) => (y owl:sameAs x)`
pub open spec fn eq_sym_instance(
    v: Vocab,
    S: Set<KeyedTriple>,
    t: KeyedTriple,
    x: URI,
    y: URI,
) -> bool {
    has(S, x, v.owl_sameas, y) && t == (y, (v.owl_sameas, x))
}

pub open spec fn derives_eq_sym(v: Vocab, S: Set<KeyedTriple>, t: KeyedTriple) -> bool {
    exists|x: URI, y: URI| #[trigger] eq_sym_instance(v, S, t, x, y)
}

/// eq-trans: `(x owl:sameAs y), (y owl:sameAs z) => (x owl:sameAs z)`
pub open spec fn eq_trans_instance(
    v: Vocab,
    S: Set<KeyedTriple>,
    t: KeyedTriple,
    x: URI,
    y: URI,
    z: URI,
) -> bool {
    has(S, x, v.owl_sameas, y) && has(S, y, v.owl_sameas, z) && t == (
            x,
            (v.owl_sameas, z),
        )
}

pub open spec fn derives_eq_trans(v: Vocab, S: Set<KeyedTriple>, t: KeyedTriple) -> bool {
    exists|x: URI, y: URI, z: URI| #[trigger] eq_trans_instance(v, S, t, x, y, z)
}

/// eq-rep-s: `(s1 owl:sameAs s2), (s1 p o) => (s2 p o)`
pub open spec fn eq_rep_s_instance(
    v: Vocab,
    S: Set<KeyedTriple>,
    t: KeyedTriple,
    s1: URI,
    s2: URI,
    p: URI,
    o: URI,
) -> bool {
    has(S, s1, v.owl_sameas, s2) && has(S, s1, p, o) && t == (s2, (p, o))
}

pub open spec fn derives_eq_rep_s(v: Vocab, S: Set<KeyedTriple>, t: KeyedTriple) -> bool {
    exists|s1: URI, s2: URI, p: URI, o: URI| #[trigger] eq_rep_s_instance(v, S, t, s1, s2, p, o)
}

/// eq-rep-o: `(o1 owl:sameAs o2), (s p o1) => (s p o2)`
pub open spec fn eq_rep_o_instance(
    v: Vocab,
    S: Set<KeyedTriple>,
    t: KeyedTriple,
    o1: URI,
    o2: URI,
    s: URI,
    p: URI,
) -> bool {
    has(S, o1, v.owl_sameas, o2) && has(S, s, p, o1) && t == (s, (p, o2))
}

pub open spec fn derives_eq_rep_o(v: Vocab, S: Set<KeyedTriple>, t: KeyedTriple) -> bool {
    exists|o1: URI, o2: URI, s: URI, p: URI| #[trigger] eq_rep_o_instance(v, S, t, o1, o2, s, p)
}

/// prp-symp: `(p rdf:type owl:SymmetricProperty), (x p y) => (y p x)`
pub open spec fn prp_symp_instance(
    v: Vocab,
    S: Set<KeyedTriple>,
    t: KeyedTriple,
    p: URI,
    x: URI,
    y: URI,
) -> bool {
    has(S, p, v.rdf_type, v.owl_symmetric) && has(S, x, p, y) && t == (
            y,
            (p, x),
        )
}

pub open spec fn derives_prp_symp(v: Vocab, S: Set<KeyedTriple>, t: KeyedTriple) -> bool {
    exists|p: URI, x: URI, y: URI| #[trigger] prp_symp_instance(v, S, t, p, x, y)
}

/// prp-trp: `(p rdf:type owl:TransitiveProperty), (x p y), (y p z) => (x p z)`
pub open spec fn prp_trp_instance(
    v: Vocab,
    S: Set<KeyedTriple>,
    t: KeyedTriple,
    p: URI,
    x: URI,
    y: URI,
    z: URI,
) -> bool {
    has(S, p, v.rdf_type, v.owl_transitive) && has(S, x, p, y)
            && has(S, y, p, z) && t == (x, (p, z))
}

pub open spec fn derives_prp_trp(v: Vocab, S: Set<KeyedTriple>, t: KeyedTriple) -> bool {
    exists|p: URI, x: URI, y: URI, z: URI| #[trigger] prp_trp_instance(v, S, t, p, x, y, z)
}

/// prp-fp: `(p rdf:type owl:FunctionalProperty), (x p y1), (x p y2) => (y1 owl:sameAs y2)`
pub open spec fn prp_fp_instance(
    v: Vocab,
    S: Set<KeyedTriple>,
    t: KeyedTriple,
    p: URI,
    x: URI,
    y1: URI,
    y2: URI,
) -> bool {
    has(S, p, v.rdf_type, v.owl_functional) && has(S, x, p, y1)
            && has(S, x, p, y2) && t == (y1, (v.owl_sameas, y2))
}

pub open spec fn derives_prp_fp(v: Vocab, S: Set<KeyedTriple>, t: KeyedTriple) -> bool {
    exists|p: URI, x: URI, y1: URI, y2: URI| #[trigger] prp_fp_instance(v, S, t, p, x, y1, y2)
}

/// prp-ifp: `(p rdf:type owl:InverseFunctionalProperty), (x1 p y), (x2 p y) => (x1 owl:sameAs x2)`
pub open spec fn prp_ifp_instance(
    v: Vocab,
    S: Set<KeyedTriple>,
    t: KeyedTriple,
    p: URI,
    x1: URI,
    x2: URI,
    y: URI,
) -> bool {
    has(S, p, v.rdf_type, v.owl_invfunctional) && has(S, x1, p, y)
            && has(S, x2, p, y) && t == (x1, (v.owl_sameas, x2))
}

pub open spec fn derives_prp_ifp(v: Vocab, S: Set<KeyedTriple>, t: KeyedTriple) -> bool {
    exists|p: URI, x1: URI, x2: URI, y: URI| #[trigger] prp_ifp_instance(v, S, t, p, x1, x2, y)
}

/// cls-hv1: `(x owl:hasValue y), (x owl:onProperty p), (u rdf:type x) => (u p y)`
pub open spec fn cls_hv1_instance(
    v: Vocab,
    S: Set<KeyedTriple>,
    t: KeyedTriple,
    x: URI,
    y: URI,
    p: URI,
    u: URI,
) -> bool {
    has(S, x, v.owl_hasvalue, y) && has(S, x, v.owl_onproperty, p)
            && has(S, u, v.rdf_type, x) && t == (u, (p, y))
}

pub open spec fn derives_cls_hv1(v: Vocab, S: Set<KeyedTriple>, t: KeyedTriple) -> bool {
    exists|x: URI, y: URI, p: URI, u: URI| #[trigger] cls_hv1_instance(v, S, t, x, y, p, u)
}

/// cls-hv2: `(x owl:hasValue y), (x owl:onProperty p), (u p y) => (u rdf:type x)`
pub open spec fn cls_hv2_instance(
    v: Vocab,
    S: Set<KeyedTriple>,
    t: KeyedTriple,
    x: URI,
    y: URI,
    p: URI,
    u: URI,
) -> bool {
    has(S, x, v.owl_hasvalue, y) && has(S, x, v.owl_onproperty, p)
            && has(S, u, p, y) && t == (u, (v.rdf_type, x))
}

pub open spec fn derives_cls_hv2(v: Vocab, S: Set<KeyedTriple>, t: KeyedTriple) -> bool {
    exists|x: URI, y: URI, p: URI, u: URI| #[trigger] cls_hv2_instance(v, S, t, x, y, p, u)
}

/// cls-avf: `(x owl:allValuesFrom y), (x owl:onProperty p), (u rdf:type x), (u p w) => (w rdf:type y)`
pub open spec fn cls_avf_instance(
    v: Vocab,
    S: Set<KeyedTriple>,
    t: KeyedTriple,
    x: URI,
    y: URI,
    p: URI,
    u: URI,
    w: URI,
) -> bool {
    has(S, x, v.owl_allvalues, y) && has(S, x, v.owl_onproperty, p)
            && has(S, u, v.rdf_type, x) && has(S, u, p, w) && t == (
            w,
            (v.rdf_type, y),
        )
}

pub open spec fn derives_cls_avf(v: Vocab, S: Set<KeyedTriple>, t: KeyedTriple) -> bool {
    exists|x: URI, y: URI, p: URI, u: URI, w: URI| #[trigger] cls_avf_instance(v, S, t, x, y, p, u, w)
}

/// cls-svf1: `(x owl:someValuesFrom y), (x owl:onProperty p), (u p w), (w rdf:type y) => (u rdf:type x)`
pub open spec fn cls_svf1_instance(
    v: Vocab,
    S: Set<KeyedTriple>,
    t: KeyedTriple,
    x: URI,
    y: URI,
    p: URI,
    u: URI,
    w: URI,
) -> bool {
    has(S, x, v.owl_somevalues, y) && has(S, x, v.owl_onproperty, p)
            && has(S, u, p, w) && has(S, w, v.rdf_type, y) && t == (
            u,
            (v.rdf_type, x),
        )
}

pub open spec fn derives_cls_svf1(v: Vocab, S: Set<KeyedTriple>, t: KeyedTriple) -> bool {
    exists|x: URI, y: URI, p: URI, u: URI, w: URI| #[trigger] cls_svf1_instance(v, S, t, x, y, p, u, w)
}

/// cls-svf2: `(x owl:someValuesFrom owl:Thing), (x owl:onProperty p), (u p w) => (u rdf:type x)`
pub open spec fn cls_svf2_instance(
    v: Vocab,
    S: Set<KeyedTriple>,
    t: KeyedTriple,
    x: URI,
    p: URI,
    u: URI,
    w: URI,
) -> bool {
    has(S, x, v.owl_somevalues, v.owl_thing) && has(
            S,
            x,
            v.owl_onproperty,
            p,
        ) && has(S, u, p, w) && t == (u, (v.rdf_type, x))
}

pub open spec fn derives_cls_svf2(v: Vocab, S: Set<KeyedTriple>, t: KeyedTriple) -> bool {
    exists|x: URI, p: URI, u: URI, w: URI| #[trigger] cls_svf2_instance(v, S, t, x, p, u, w)
}

/// cls-int1: `(c owl:intersectionOf l), LIST[l] = c1 .. cn` (n >= 1),
/// `(y rdf:type ci)` for every `i` `=> (y rdf:type c)`
pub open spec fn cls_int1_instance(
    v: Vocab,
    L: Lists,
    S: Set<KeyedTriple>,
    t: KeyedTriple,
    c: URI,
    l: URI,
    y: URI,
    c0: URI,
) -> bool {
    has(S, c, v.owl_intersection, l) && L(l).contains(c0) && has(S, y, v.rdf_type, c0)
            && (forall|ci: URI| #[trigger] L(l).contains(ci) ==> has(S, y, v.rdf_type, ci))
            && t == (y, (v.rdf_type, c))
}

pub open spec fn derives_cls_int1(v: Vocab, L: Lists, S: Set<KeyedTriple>, t: KeyedTriple) -> bool {
    exists|c: URI, l: URI, y: URI, c0: URI| #[trigger] cls_int1_instance(v, L, S, t, c, l, y, c0)
}

/// cls-int2: `(c owl:intersectionOf l), ci in LIST[l], (y rdf:type c) => (y rdf:type ci)`
pub open spec fn cls_int2_instance(
    v: Vocab,
    L: Lists,
    S: Set<KeyedTriple>,
    t: KeyedTriple,
    c: URI,
    l: URI,
    y: URI,
    ci: URI,
) -> bool {
    has(S, c, v.owl_intersection, l) && L(l).contains(ci)
            && has(S, y, v.rdf_type, c) && t == (y, (v.rdf_type, ci))
}

pub open spec fn derives_cls_int2(v: Vocab, L: Lists, S: Set<KeyedTriple>, t: KeyedTriple) -> bool {
    exists|c: URI, l: URI, y: URI, ci: URI| #[trigger] cls_int2_instance(v, L, S, t, c, l, y, ci)
}

/// cls-uni: `(c owl:unionOf l), ci in LIST[l], (y rdf:type ci) => (y rdf:type c)`
pub open spec fn cls_uni_instance(
    v: Vocab,
    L: Lists,
    S: Set<KeyedTriple>,
    t: KeyedTriple,
    c: URI,
    l: URI,
    y: URI,
    ci: URI,
) -> bool {
    has(S, c, v.owl_union, l) && L(l).contains(ci)
            && has(S, y, v.rdf_type, ci) && t == (y, (v.rdf_type, c))
}

pub open spec fn derives_cls_uni(v: Vocab, L: Lists, S: Set<KeyedTriple>, t: KeyedTriple) -> bool {
    exists|c: URI, l: URI, y: URI, ci: URI| #[trigger] cls_uni_instance(v, L, S, t, c, l, y, ci)
}

/// The triples that one application of any rule derives from `S`.
pub open spec fn derives(v: Vocab, L: Lists, S: Set<KeyedTriple>, t: KeyedTriple) -> bool {
    ||| (exists|r: PropRule| derives_prop(v, r, S, t))
    ||| (exists|r: ClassRule| derives_class(v, r, S, t))
    ||| derives_thing(v, S, t)
    ||| derives_eq_sym(v, S, t)
    ||| derives_eq_trans(v, S, t)
    ||| derives_eq_rep_s(v, S, t)
    ||| derives_eq_rep_o(v, S, t)
    ||| derives_prp_symp(v, S, t)
    ||| derives_prp_trp(v, S, t)
    ||| derives_prp_fp(v, S, t)
    ||| derives_prp_ifp(v, S, t)
    ||| derives_cls_hv1(v, S, t)
    ||| derives_cls_hv2(v, S, t)
    ||| derives_cls_avf(v, S, t)
    ||| derives_cls_svf1(v, S, t)
    ||| derives_cls_svf2(v, S, t)
    ||| derives_cls_int1(v, L, S, t)
    ||| derives_cls_int2(v, L, S, t)
    ||| derives_cls_uni(v, L, S, t)
}

/// `S` holds every triple that the rules derive from it.
pub open spec fn closed(v: Vocab, L: Lists, S: Set<KeyedTriple>) -> bool {
    forall|t: KeyedTriple| #[trigger] derives(v, L, S, t) ==> S.contains(t)
}

} // verus!
