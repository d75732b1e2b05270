//! Saturation of a set of interned triples under the OWL 2 RL rules.
use vstd::prelude::*;
use crate::relation::{KeyedTriple, URI, join, sorted_strict, contains_sorted};
use crate::rules::{
    Vocab, has, PropRule, prop_rule_pred, prop_rule_flipped, prop_rule_concl, derives_prop, prop_instance,
    ClassRule, class_rule_pred, derives_class, class_instance, derives_thing, thing_instance,
    derives_eq_sym, eq_sym_instance, derives_eq_trans, eq_trans_instance, derives_eq_rep_s,
    eq_rep_s_instance, derives_eq_rep_o, eq_rep_o_instance, derives_prp_symp, prp_symp_instance,
    derives_prp_trp, prp_trp_instance, derives_prp_fp, prp_fp_instance, derives_prp_ifp,
    prp_ifp_instance, derives_cls_hv1, cls_hv1_instance, derives_cls_hv2, cls_hv2_instance,
    derives_cls_avf, cls_avf_instance, derives_cls_svf1, cls_svf1_instance, derives_cls_svf2,
    cls_svf2_instance,
};

verus! {

broadcast use vstd::seq_lib::lemma_seq_contains_after_push;

/// A joined tuple: a key and the values from both sides.
pub type Joined = (URI, (URI, URI), (URI, URI));

/// `(o, (x, p))` for each triple `(x p o)` of `s`.
pub fn by_object(s: &Vec<KeyedTriple>) -> (r: Vec<KeyedTriple>)
    ensures
        forall|o: URI, x: URI, p: URI|
            #![trigger r@.contains((o, (x, p)))]
            #![trigger s@.contains((x, (p, o)))]
            r@.contains((o, (x, p))) <==> s@.contains((x, (p, o))),
{
    let mut r: Vec<KeyedTriple> = Vec::with_capacity(s.len());
    let mut i: usize = 0;
    while i < s.len()
        invariant
            0 <= i <= s@.len(),
            forall|j: int| 0 <= j < i ==> r@.contains((#[trigger] s@[j].1.1, (s@[j].0, s@[j].1.0))),
            forall|j: int|
                0 <= j < r@.len() ==> s@.contains((#[trigger] r@[j].1.0, (r@[j].1.1, r@[j].0))),
        decreases s@.len() - i,
    {
        let (x, (p, o)) = s[i];
        r.push((o, (x, p)));
        proof {
            assert(r@[r@.len() - 1] == (o, (x, p)));
            assert(s@[i as int] == (x, (p, o)));
        }
        i += 1;
    }
    proof {
        assert forall|o: URI, x: URI, p: URI| s@.contains((x, (p, o))) implies r@.contains((o, (x, p))) by {
            let j = choose|j: int| 0 <= j < s@.len() && s@[j] == (x, (p, o));
            assert(s@[j].1.1 == o);
        }
        assert forall|o: URI, x: URI, p: URI| r@.contains((o, (x, p))) implies s@.contains((x, (p, o))) by {
            let j = choose|j: int| 0 <= j < r@.len() && r@[j] == (o, (x, p));
            assert(r@[j].1.0 == x);
        }
    }
    r
}

/// `(a, (b, 0))` for each triple `(a q b)` of `s`; with `flip`, `(b, (a, 0))`.
pub fn select(s: &Vec<KeyedTriple>, q: URI, flip: bool) -> (r: Vec<KeyedTriple>)
    ensures
        forall|a: URI, b: URI, c: URI|
            #![trigger r@.contains((a, (b, c)))]
            r@.contains((a, (b, c))) <==> (c == 0 && if flip {
                s@.contains((b, (q, a)))
            } else {
                s@.contains((a, (q, b)))
            }),
{
    let mut r: Vec<KeyedTriple> = Vec::new();
    let mut i: usize = 0;
    while i < s.len()
        invariant
            0 <= i <= s@.len(),
            forall|j: int|
                0 <= j < i && (#[trigger] s@[j]).1.0 == q ==> r@.contains(
                    if flip {
                        (s@[j].1.1, (s@[j].0, 0u32))
                    } else {
                        (s@[j].0, (s@[j].1.1, 0u32))
                    },
                ),
            forall|j: int|
                0 <= j < r@.len() ==> (#[trigger] r@[j]).1.1 == 0 && s@.contains(
                    if flip {
                        (r@[j].1.0, (q, r@[j].0))
                    } else {
                        (r@[j].0, (q, r@[j].1.0))
                    },
                ),
        decreases s@.len() - i,
    {
        let (x, (p, y)) = s[i];
        if p == q {
            if flip {
                r.push((y, (x, 0)));
            } else {
                r.push((x, (y, 0)));
            }
            proof {
                assert(s@[i as int] == (x, (p, y)));
                assert(r@[r@.len() - 1] == (if flip { (y, (x, 0u32)) } else { (x, (y, 0u32)) }));
            }
        }
        i += 1;
    }
    proof {
        assert forall|a: URI, b: URI, c: URI|
            (c == 0 && if flip {
                s@.contains((b, (q, a)))
            } else {
                s@.contains((a, (q, b)))
            }) implies #[trigger] r@.contains((a, (b, c))) by {
            if c == 0 {
                if flip && s@.contains((b, (q, a))) {
                    let j = choose|j: int| 0 <= j < s@.len() && s@[j] == (b, (q, a));
                    assert(s@[j].1.0 == q);
                }
                if !flip && s@.contains((a, (q, b))) {
                    let j = choose|j: int| 0 <= j < s@.len() && s@[j] == (a, (q, b));
                    assert(s@[j].1.0 == q);
                }
            }
        }
        assert forall|a: URI, b: URI, c: URI| r@.contains((a, (b, c))) implies (c == 0 && if flip {
            s@.contains((b, (q, a)))
        } else {
            s@.contains((a, (q, b)))
        }) by {
            let j = choose|j: int| 0 <= j < r@.len() && r@[j] == (a, (b, c));
            assert(r@[j].1.1 == 0);
        }
    }
    r
}

/// A reordering of the three places of a triple.
#[derive(Clone, Copy, Debug, PartialEq, Eq, Structural)]
pub enum Perm {
    /// `(a, (b, c)) -> (b, (a, c))`
    Swap01,
    /// `(a, (b, c)) -> (c, (a, b))`
    Rotate,
    /// `(a, (b, c)) -> (c, (b, a))`
    Swap02,
    /// `(a, (b, c)) -> (b, (c, a))`
    RotateBack,
}

pub open spec fn permute_spec(m: Perm, t: KeyedTriple) -> KeyedTriple {
    let (a, (b, c)) = t;
    match m {
        Perm::Swap01 => (b, (a, c)),
        Perm::Rotate => (c, (a, b)),
        Perm::Swap02 => (c, (b, a)),
        Perm::RotateBack => (b, (c, a)),
    }
}

/// The inverse reordering.
pub open spec fn unpermute_spec(m: Perm, t: KeyedTriple) -> KeyedTriple {
    let (a, (b, c)) = t;
    match m {
        Perm::Swap01 => (b, (a, c)),
        Perm::Rotate => (b, (c, a)),
        Perm::Swap02 => (c, (b, a)),
        Perm::RotateBack => (c, (a, b)),
    }
}

fn permute_one(m: Perm, t: KeyedTriple) -> (r: KeyedTriple)
    ensures
        r == permute_spec(m, t),
        unpermute_spec(m, r) == t,
{
    let (a, (b, c)) = t;
    match m {
        Perm::Swap01 => (b, (a, c)),
        Perm::Rotate => (c, (a, b)),
        Perm::Swap02 => (c, (b, a)),
        Perm::RotateBack => (b, (c, a)),
    }
}

/// The triples of `r`, each reordered by `m`.
pub fn permute(r: &Vec<KeyedTriple>, m: Perm) -> (out: Vec<KeyedTriple>)
    ensures
        forall|t: KeyedTriple| #[trigger] out@.contains(t) <==> r@.contains(unpermute_spec(m, t)),
{
    let mut out: Vec<KeyedTriple> = Vec::with_capacity(r.len());
    let mut i: usize = 0;
    while i < r.len()
        invariant
            0 <= i <= r@.len(),
            forall|j: int| 0 <= j < i ==> out@.contains(permute_spec(m, #[trigger] r@[j])),
            forall|j: int| 0 <= j < out@.len() ==> r@.contains(unpermute_spec(m, #[trigger] out@[j])),
        decreases r@.len() - i,
    {
        let t = permute_one(m, r[i]);
        out.push(t);
        proof {
            assert(out@[out@.len() - 1] == t);
            assert(r@.contains(r@[i as int]));
        }
        i += 1;
    }
    proof {
        assert forall|t: KeyedTriple| r@.contains(unpermute_spec(m, t)) implies out@.contains(t) by {
            let j = choose|j: int| 0 <= j < r@.len() && r@[j] == unpermute_spec(m, t);
            assert(permute_spec(m, r@[j]) == t);
        }
        assert forall|t: KeyedTriple| out@.contains(t) implies r@.contains(unpermute_spec(m, t)) by {
            let j = choose|j: int| 0 <= j < out@.len() && out@[j] == t;
        }
    }
    out
}

/// `(x, (0, 0))` for each triple `(x p o)` of `s`.
pub fn subjects_with(s: &Vec<KeyedTriple>, p: URI, o: URI) -> (r: Vec<KeyedTriple>)
    ensures
        forall|x: URI, a: URI, b: URI|
            #![trigger r@.contains((x, (a, b)))]
            r@.contains((x, (a, b))) <==> (a == 0 && b == 0 && s@.contains((x, (p, o)))),
{
    let mut r: Vec<KeyedTriple> = Vec::new();
    let mut i: usize = 0;
    while i < s.len()
        invariant
            0 <= i <= s@.len(),
            forall|j: int|
                0 <= j < i && (#[trigger] s@[j]).1 == (p, o) ==> r@.contains((s@[j].0, (0u32, 0u32))),
            forall|j: int|
                0 <= j < r@.len() ==> (#[trigger] r@[j]).1 == (0u32, 0u32) && s@.contains(
                    (r@[j].0, (p, o)),
                ),
        decreases s@.len() - i,
    {
        let (x, (q, w)) = s[i];
        if q == p && w == o {
            r.push((x, (0, 0)));
            proof {
                assert(s@[i as int] == (x, (p, o)));
                assert(r@[r@.len() - 1] == (x, (0u32, 0u32)));
            }
        }
        i += 1;
    }
    proof {
        assert forall|x: URI, a: URI, b: URI|
            (a == 0 && b == 0 && s@.contains((x, (p, o)))) implies r@.contains((x, (a, b))) by {
            let j = choose|j: int| 0 <= j < s@.len() && s@[j] == (x, (p, o));
            assert(s@[j].1 == (p, o));
        }
        assert forall|x: URI, a: URI, b: URI| r@.contains((x, (a, b))) implies (a == 0 && b == 0
            && s@.contains((x, (p, o)))) by {
            let j = choose|j: int| 0 <= j < r@.len() && r@[j] == (x, (a, b));
            assert(r@[j].1 == (0u32, 0u32));
        }
    }
    r
}

/// How two joined relations are combined into one keyed relation.
#[derive(Clone, Copy, Debug, PartialEq, Eq, Structural)]
pub enum Combine {
    /// `(k, (a, _), (b, _)) -> (k, (a, b))`
    Firsts,
    /// `(k, _, w) -> (k, w)`
    Right,
}

pub open spec fn combine_spec(m: Combine, j: Joined) -> KeyedTriple {
    match m {
        Combine::Firsts => (j.0, (j.1.0, j.2.0)),
        Combine::Right => (j.0, j.2),
    }
}

/// `t` combines a tuple of `a` and a tuple of `b` with the same key.
pub open spec fn combined_from(a: Seq<KeyedTriple>, b: Seq<KeyedTriple>, m: Combine, t: KeyedTriple) -> bool {
    exists|v1: (URI, URI), v2: (URI, URI)|
        #[trigger] a.contains((t.0, v1)) && #[trigger] b.contains((t.0, v2)) && combine_spec(
            m,
            (t.0, v1, v2),
        ) == t
}

/// The join of `a` and `b`, each joined tuple combined by `m`.
pub fn join_combine(a: &Vec<KeyedTriple>, b: &Vec<KeyedTriple>, m: Combine) -> (out: Vec<KeyedTriple>)
    ensures
        forall|t: KeyedTriple| #[trigger] out@.contains(t) <==> combined_from(a@, b@, m, t),
{
    let joined = join(a, b);
    let mut out: Vec<KeyedTriple> = Vec::with_capacity(joined.len());
    let mut i: usize = 0;
    while i < joined.len()
        invariant
            0 <= i <= joined@.len(),
            forall|k: URI, v1: (URI, URI), v2: (URI, URI)|
                #![trigger joined@.contains((k, v1, v2))]
                #![trigger a@.contains((k, v1)), b@.contains((k, v2))]
                joined@.contains((k, v1, v2)) <==> (a@.contains((k, v1)) && b@.contains((k, v2))),
            forall|j: int| 0 <= j < i ==> out@.contains(combine_spec(m, #[trigger] joined@[j])),
            forall|j: int| 0 <= j < out@.len() ==> combined_from(a@, b@, m, #[trigger] out@[j]),
        decreases joined@.len() - i,
    {
        let (k, v1, v2) = joined[i];
        let t = match m {
            Combine::Firsts => (k, (v1.0, v2.0)),
            Combine::Right => (k, v2),
        };
        proof {
            assert(joined@.contains(joined@[i as int]));
            assert(a@.contains((k, v1)) && b@.contains((k, v2)));
            assert(combine_spec(m, (k, v1, v2)) == t);
            assert(t.0 == k);
            assert(a@.contains((t.0, v1)) && b@.contains((t.0, v2)));
            assert(combined_from(a@, b@, m, t));
        }
        let ghost before = out@;
        out.push(t);
        proof {
            assert(out@[out@.len() - 1] == t);
            assert forall|j: int| 0 <= j < out@.len() implies combined_from(a@, b@, m, #[trigger] out@[j]) by {
                if j < out@.len() - 1 {
                    assert(out@[j] == before[j]);
                }
            }
        }
        i += 1;
    }
    proof {
        assert forall|t: KeyedTriple| combined_from(a@, b@, m, t) implies out@.contains(t) by {
            let (v1, v2) = choose|v1: (URI, URI), v2: (URI, URI)|
                #[trigger] a@.contains((t.0, v1)) && #[trigger] b@.contains((t.0, v2))
                    && combine_spec(m, (t.0, v1, v2)) == t;
            assert(joined@.contains((t.0, v1, v2)));
            let j = choose|j: int| 0 <= j < joined@.len() && joined@[j] == (t.0, v1, v2);
        }
        assert forall|t: KeyedTriple| out@.contains(t) implies combined_from(a@, b@, m, t) by {
            let j = choose|j: int| 0 <= j < out@.len() && out@[j] == t;
        }
    }
    out
}

/// `new` is `old` followed by triples that satisfy `R`.
pub open spec fn extends(old: Seq<KeyedTriple>, new: Seq<KeyedTriple>, R: spec_fn(KeyedTriple) -> bool) -> bool {
    &&& old.is_prefix_of(new)
    &&& forall|i: int| old.len() <= i < new.len() ==> R(#[trigger] new[i])
}

/// `new` holds every triple that satisfies `R`.
pub open spec fn covers(new: Seq<KeyedTriple>, R: spec_fn(KeyedTriple) -> bool) -> bool {
    forall|t: KeyedTriple| R(t) ==> #[trigger] new.contains(t)
}

/// How a rule turns a joined tuple into a conclusion, if it fires on it.
#[derive(Clone, Copy, Debug, PartialEq, Eq, Structural)]
pub enum Emit {
    /// `(_, (q, _), (x, _)) -> (x rdf:type q)`
    Typed,
    /// `(_, (s2, _), (p, o)) -> (s2 p o)`
    RepSubject,
    /// `(_, (o2, _), (s, p)) -> (s p o2)`
    RepObject,
    /// `(_, (x, _), (z, _)) -> (x owl:sameAs z)`
    SameAsChain,
    /// `(_, (p, x), (p, z)) -> (x p z)`
    PropChain,
    /// `(_, (p, a), (p, b)) -> (a owl:sameAs b)`
    PropSameAs,
    /// `(_, (u, _), (y, p)) -> (u p y)`
    ValueOf,
    /// `(_, (y, x), (u, y)) -> (u rdf:type x)`
    HasValue,
    /// `(_, (p, y), (p, w)) -> (w rdf:type y)`
    AllValues,
    /// `(_, (x, y), (u, w))`, `(w rdf:type y)` in `s` `-> (u rdf:type x)`
    SomeValues,
    /// `(_, (x, owl:Thing), (u, _)) -> (u rdf:type x)`
    SomeThing,
}

pub open spec fn emit_spec(v: Vocab, k: Emit, s: Seq<KeyedTriple>, j: Joined) -> Option<KeyedTriple> {
    let (_key, v1, v2) = j;
    match k {
        Emit::Typed => Some((v2.0, (v.rdf_type, v1.0))),
        Emit::RepSubject => Some((v1.0, (v2.0, v2.1))),
        Emit::RepObject => Some((v2.0, (v2.1, v1.0))),
        Emit::SameAsChain => Some((v1.0, (v.owl_sameas, v2.0))),
        Emit::PropChain => if v1.0 == v2.0 {
            Some((v1.1, (v1.0, v2.1)))
        } else {
            None
        },
        Emit::PropSameAs => if v1.0 == v2.0 {
            Some((v1.1, (v.owl_sameas, v2.1)))
        } else {
            None
        },
        Emit::ValueOf => Some((v1.0, (v2.1, v2.0))),
        Emit::HasValue => if v2.1 == v1.0 {
            Some((v2.0, (v.rdf_type, v1.1)))
        } else {
            None
        },
        Emit::AllValues => if v1.0 == v2.0 {
            Some((v2.1, (v.rdf_type, v1.1)))
        } else {
            None
        },
        Emit::SomeValues => if s.contains((v2.1, (v.rdf_type, v1.1))) {
            Some((v2.0, (v.rdf_type, v1.0)))
        } else {
            None
        },
        Emit::SomeThing => if v1.1 == v.owl_thing {
            Some((v2.0, (v.rdf_type, v1.0)))
        } else {
            None
        },
    }
}

/// `t` is what the rule makes of some tuple of `joined`.
pub open spec fn emitted_from(v: Vocab, k: Emit, s: Seq<KeyedTriple>, joined: Seq<Joined>, t: KeyedTriple) -> bool {
    exists|j: int| 0 <= j < joined.len() && emit_spec(v, k, s, #[trigger] joined[j]) == Some(t)
}

fn emit_one(v: &Vocab, k: Emit, s: &Vec<KeyedTriple>, j: Joined) -> (r: Option<KeyedTriple>)
    requires
        sorted_strict(s@),
    ensures
        r == emit_spec(*v, k, s@, j),
{
    let (_key, v1, v2) = j;
    match k {
        Emit::Typed => Some((v2.0, (v.rdf_type, v1.0))),
        Emit::RepSubject => Some((v1.0, (v2.0, v2.1))),
        Emit::RepObject => Some((v2.0, (v2.1, v1.0))),
        Emit::SameAsChain => Some((v1.0, (v.owl_sameas, v2.0))),
        Emit::PropChain => if v1.0 == v2.0 {
            Some((v1.1, (v1.0, v2.1)))
        } else {
            None
        },
        Emit::PropSameAs => if v1.0 == v2.0 {
            Some((v1.1, (v.owl_sameas, v2.1)))
        } else {
            None
        },
        Emit::ValueOf => Some((v1.0, (v2.1, v2.0))),
        Emit::HasValue => if v2.1 == v1.0 {
            Some((v2.0, (v.rdf_type, v1.1)))
        } else {
            None
        },
        Emit::AllValues => if v1.0 == v2.0 {
            Some((v2.1, (v.rdf_type, v1.1)))
        } else {
            None
        },
        Emit::SomeValues => if contains_sorted(s, (v2.1, (v.rdf_type, v1.1))) {
            Some((v2.0, (v.rdf_type, v1.0)))
        } else {
            None
        },
        Emit::SomeThing => if v1.1 == v.owl_thing {
            Some((v2.0, (v.rdf_type, v1.0)))
        } else {
            None
        },
    }
}

/// Appends to `out` what the rule makes of each tuple of `joined`.
pub fn emit(v: &Vocab, k: Emit, s: &Vec<KeyedTriple>, joined: &Vec<Joined>, out: &mut Vec<KeyedTriple>)
    requires
        sorted_strict(s@),
    ensures
        extends(old(out)@, final(out)@, |t: KeyedTriple| emitted_from(*v, k, s@, joined@, t)),
        forall|j: int|
            0 <= j < joined@.len() && (#[trigger] emit_spec(*v, k, s@, joined@[j])) is Some
                ==> final(out)@.contains(emit_spec(*v, k, s@, joined@[j])->0),
{
    let ghost start = out@;
    let mut i: usize = 0;
    while i < joined.len()
        invariant
            sorted_strict(s@),
            0 <= i <= joined@.len(),
            extends(start, out@, |t: KeyedTriple| emitted_from(*v, k, s@, joined@, t)),
            start == old(out)@,
            forall|j: int|
                0 <= j < i && (#[trigger] emit_spec(*v, k, s@, joined@[j])) is Some
                    ==> out@.contains(emit_spec(*v, k, s@, joined@[j])->0),
        decreases joined@.len() - i,
    {
        let r = emit_one(v, k, s, joined[i]);
        match r {
            Some(t) => {
                let ghost before = out@;
                out.push(t);
                proof {
                    assert(out@[out@.len() - 1] == t);
                    assert(emitted_from(*v, k, s@, joined@, t));
                    assert forall|m: int| start.len() <= m < out@.len() implies emitted_from(
                        *v,
                        k,
                        s@,
                        joined@,
                        #[trigger] out@[m],
                    ) by {
                        if m < out@.len() - 1 {
                            assert(out@[m] == before[m]);
                        }
                    }
                    assert forall|m: int| 0 <= m < start.len() implies #[trigger] out@[m] == start[m] by {
                        assert(before[m] == start[m]);
                    }
                }
            },
            None => {},
        }
        i += 1;
    }
}

/// Exec form of `prop_rule_concl`.
fn prop_concl(v: &Vocab, r: PropRule, q: URI, x: URI, y: URI) -> (t: KeyedTriple)
    ensures
        t == prop_rule_concl(*v, r, q, x, y),
{
    match r {
        PropRule::PrpDom => (x, (v.rdf_type, q)),
        PropRule::PrpRng => (y, (v.rdf_type, q)),
        PropRule::PrpSpo1 => (x, (q, y)),
        PropRule::PrpInv1 => (y, (q, x)),
        PropRule::PrpInv2 => (y, (q, x)),
        PropRule::PrpEqp1 => (x, (q, y)),
        PropRule::PrpEqp2 => (x, (q, y)),
        PropRule::EqRepP => (x, (q, y)),
    }
}

fn prop_pred(v: &Vocab, r: PropRule) -> (p: URI)
    ensures
        p == prop_rule_pred(*v, r),
{
    match r {
        PropRule::PrpDom => v.rdfs_domain,
        PropRule::PrpRng => v.rdfs_range,
        PropRule::PrpSpo1 => v.rdfs_subprop,
        PropRule::PrpInv1 => v.owl_inverseof,
        PropRule::PrpInv2 => v.owl_inverseof,
        PropRule::PrpEqp1 => v.owl_equivprop,
        PropRule::PrpEqp2 => v.owl_equivprop,
        PropRule::EqRepP => v.owl_sameas,
    }
}

/// The triples that a property rule derives from `s`, appended to `out`.
#[verifier::loop_isolation(false)]
pub fn apply_prop_rule(
    v: &Vocab,
    r: PropRule,
    s: &Vec<KeyedTriple>,
    pso: &Vec<KeyedTriple>,
    out: &mut Vec<KeyedTriple>,
)
    requires
        forall|p: URI, x: URI, y: URI|
            #![trigger pso@.contains((p, (x, y)))]
            #![trigger s@.contains((x, (p, y)))]
            pso@.contains((p, (x, y))) <==> s@.contains((x, (p, y))),
    ensures
        old(out)@.is_prefix_of(final(out)@),
        forall|t: KeyedTriple| derives_prop(*v, r, s@.to_set(), t) ==> final(out)@.contains(t),
        forall|i: int|
            old(out)@.len() <= i < final(out)@.len() ==> derives_prop(
                *v,
                r,
                s@.to_set(),
                #[trigger] final(out)@[i],
            ),
{
    let ghost S = s@.to_set();
    let flip = r == PropRule::PrpInv2 || r == PropRule::PrpEqp2;
    let schema = select(s, prop_pred(v, r), flip);
    let joined = join(&schema, pso);
    let ghost start = out@.len();
    let mut i: usize = 0;
    while i < joined.len()
        invariant
            flip == prop_rule_flipped(r),
            S == s@.to_set(),
            start <= out@.len(),
            old(out)@.is_prefix_of(out@),
            start == old(out)@.len(),
            0 <= i <= joined@.len(),
            forall|j: int|
                #![trigger joined@[j]]
                0 <= j < i ==> out@.contains(
                    prop_rule_concl(*v, r, joined@[j].1.0, joined@[j].2.0, joined@[j].2.1),
                ),
            forall|j: int|
                start <= j < out@.len() ==> derives_prop(*v, r, S, #[trigger] out@[j]),
        decreases joined@.len() - i,
    {
        let (k, (q, _z), (x, y)) = joined[i];
        let t = prop_concl(v, r, q, x, y);
        proof {
            assert(joined@.contains(joined@[i as int]));
            assert(schema@.contains((k, (q, _z))));
            assert(pso@.contains((k, (x, y))));
            assert(s@.contains((x, (k, y))));
            if flip {
                assert(s@.contains((q, (prop_rule_pred(*v, r), k))));
                assert(prop_instance(*v, r, S, t, q, k, x, y));
            } else {
                assert(s@.contains((k, (prop_rule_pred(*v, r), q))));
                assert(prop_instance(*v, r, S, t, k, q, x, y));
            }
        }
        let ghost before = out@;
        out.push(t);
        proof {
            assert(out@[out@.len() - 1] == t);
            assert forall|j: int| 0 <= j < i + 1 implies #[trigger] out@.contains(
                prop_rule_concl(*v, r, joined@[j].1.0, joined@[j].2.0, joined@[j].2.1),
            ) by {
                if j < i {
                    let w = prop_rule_concl(*v, r, joined@[j].1.0, joined@[j].2.0, joined@[j].2.1);
                    let m = choose|m: int| 0 <= m < before.len() && before[m] == w;
                    assert(out@[m] == w);
                }
            }
            assert forall|j: int| start <= j < out@.len() implies derives_prop(*v, r, S, #[trigger] out@[j]) by {
                if j < out@.len() - 1 {
                    assert(out@[j] == before[j]);
                }
            }
            assert(old(out)@.is_prefix_of(out@)) by {
                assert(forall|j: int| 0 <= j < old(out)@.len() ==> before[j] == out@[j]);
            }
        }
        i += 1;
    }
    proof {
        lemma_prop_rule_complete(*v, r, s@, schema@, pso@, joined@, out@);
    }
}

proof fn lemma_prop_rule_complete(
    v: Vocab,
    r: PropRule,
    s: Seq<KeyedTriple>,
    schema: Seq<KeyedTriple>,
    pso: Seq<KeyedTriple>,
    joined: Seq<Joined>,
    out: Seq<KeyedTriple>,
)
    requires
        forall|p: URI, x: URI, y: URI|
            #![trigger pso.contains((p, (x, y)))]
            #![trigger s.contains((x, (p, y)))]
            pso.contains((p, (x, y))) <==> s.contains((x, (p, y))),
        forall|a: URI, b: URI, c: URI|
            #![trigger schema.contains((a, (b, c)))]
            schema.contains((a, (b, c))) <==> (c == 0 && if prop_rule_flipped(r) {
                s.contains((b, (prop_rule_pred(v, r), a)))
            } else {
                s.contains((a, (prop_rule_pred(v, r), b)))
            }),
        forall|k: URI, v1: (URI, URI), v2: (URI, URI)|
            #![trigger joined.contains((k, v1, v2))]
            #![trigger schema.contains((k, v1)), pso.contains((k, v2))]
            joined.contains((k, v1, v2)) <==> (schema.contains((k, v1)) && pso.contains((k, v2))),
        forall|j: int|
            #![trigger joined[j]]
            0 <= j < joined.len() ==> out.contains(
                prop_rule_concl(v, r, joined[j].1.0, joined[j].2.0, joined[j].2.1),
            ),
    ensures
        forall|t: KeyedTriple| derives_prop(v, r, s.to_set(), t) ==> out.contains(t),
{
    let S = s.to_set();
    assert forall|t: KeyedTriple| derives_prop(v, r, S, t) implies out.contains(t) by {
        let (a, b, x, y) = choose|a: URI, b: URI, x: URI, y: URI| #[trigger] prop_instance(v, r, S, t, a, b, x, y);
        assert(s.contains((a, (prop_rule_pred(v, r), b))));
        if prop_rule_flipped(r) {
            assert(s.contains((x, (b, y))));
            assert(schema.contains((b, (a, 0u32))));
            assert(pso.contains((b, (x, y))));
            assert(joined.contains((b, (a, 0u32), (x, y))));
            let j = choose|j: int| 0 <= j < joined.len() && joined[j] == (b, (a, 0u32), (x, y));
            assert(out.contains(prop_rule_concl(v, r, joined[j].1.0, joined[j].2.0, joined[j].2.1)));
        } else {
            assert(s.contains((x, (a, y))));
            assert(schema.contains((a, (b, 0u32))));
            assert(pso.contains((a, (x, y))));
            assert(joined.contains((a, (b, 0u32), (x, y))));
            let j = choose|j: int| 0 <= j < joined.len() && joined[j] == (a, (b, 0u32), (x, y));
            assert(out.contains(prop_rule_concl(v, r, joined[j].1.0, joined[j].2.0, joined[j].2.1)));
        }
    }
}

} // verus!

verus! {

/// The relations of a triple set that the rules join on.
pub struct Indexes {
    /// `(p, (x, y))` for each `(x p y)`.
    pub pso: Vec<KeyedTriple>,
    /// `(y, (x, p))` for each `(x p y)`.
    pub osp: Vec<KeyedTriple>,
    /// `(c, (x, 0))` for each `(x rdf:type c)`.
    pub type_inv: Vec<KeyedTriple>,
    /// `(x, (y, 0))` for each `(x owl:sameAs y)`.
    pub sameas: Vec<KeyedTriple>,
    /// `(y, (x, 0))` for each `(x owl:sameAs y)`.
    pub sameas_inv: Vec<KeyedTriple>,
}

impl Indexes {
    pub open spec fn of(&self, v: Vocab, s: Seq<KeyedTriple>) -> bool {
        &&& forall|t: KeyedTriple| #[trigger] self.pso@.contains(t) <==> s.contains(unpermute_spec(Perm::Swap01, t))
        &&& forall|t: KeyedTriple| #[trigger] self.osp@.contains(t) <==> s.contains(unpermute_spec(Perm::Rotate, t))
        &&& forall|a: URI, b: URI, c: URI|
            #![trigger self.type_inv@.contains((a, (b, c)))]
            self.type_inv@.contains((a, (b, c))) <==> (c == 0 && s.contains((b, (v.rdf_type, a))))
        &&& forall|a: URI, b: URI, c: URI|
            #![trigger self.sameas@.contains((a, (b, c)))]
            self.sameas@.contains((a, (b, c))) <==> (c == 0 && s.contains((a, (v.owl_sameas, b))))
        &&& forall|a: URI, b: URI, c: URI|
            #![trigger self.sameas_inv@.contains((a, (b, c)))]
            self.sameas_inv@.contains((a, (b, c))) <==> (c == 0 && s.contains((b, (v.owl_sameas, a))))
    }

    pub fn build(v: &Vocab, s: &Vec<KeyedTriple>) -> (r: Indexes)
        ensures
            r.of(*v, s@),
    {
        Indexes {
            pso: permute(s, Perm::Swap01),
            osp: permute(s, Perm::Rotate),
            type_inv: select(s, v.rdf_type, true),
            sameas: select(s, v.owl_sameas, false),
            sameas_inv: select(s, v.owl_sameas, true),
        }
    }
}

fn class_pred(v: &Vocab, r: ClassRule) -> (p: URI)
    ensures
        p == class_rule_pred(*v, r),
{
    match r {
        ClassRule::CaxSco => v.rdfs_subclass,
        _ => v.owl_equivclass,
    }
}

/// The triples that a class rule derives from `s`, appended to `out`.
pub fn apply_class_rule(v: &Vocab, r: ClassRule, s: &Vec<KeyedTriple>, ix: &Indexes, out: &mut Vec<KeyedTriple>)
    requires
        sorted_strict(s@),
        ix.of(*v, s@),
    ensures
        extends(old(out)@, final(out)@, |t: KeyedTriple| derives_class(*v, r, s@.to_set(), t)),
        covers(final(out)@, |t: KeyedTriple| derives_class(*v, r, s@.to_set(), t)),
{
    let ghost S = s@.to_set();
    let flip = r == ClassRule::CaxEqc2;
    let schema = select(s, class_pred(v, r), flip);
    let joined = join(&schema, &ix.type_inv);
    emit(v, Emit::Typed, s, &joined, out);
    proof {
        assert forall|i: int| old(out)@.len() <= i < out@.len() implies derives_class(*v, r, S, #[trigger] out@[i]) by {
            let t = out@[i];
            assert(emitted_from(*v, Emit::Typed, s@, joined@, t));
            let j = choose|j: int| 0 <= j < joined@.len() && emit_spec(*v, Emit::Typed, s@, #[trigger] joined@[j]) == Some(t);
            let (k, v1, v2) = joined@[j];
            assert(joined@.contains((k, v1, v2)));
            assert(schema@.contains((k, v1)));
            assert(ix.type_inv@.contains((k, v2)));
            if flip {
                assert(class_instance(*v, r, S, t, v1.0, k, v2.0));
            } else {
                assert(class_instance(*v, r, S, t, k, v1.0, v2.0));
            }
        }
        assert forall|t: KeyedTriple| derives_class(*v, r, S, t) implies #[trigger] out@.contains(t) by {
            let (c1, c2, x) = choose|c1: URI, c2: URI, x: URI| #[trigger] class_instance(*v, r, S, t, c1, c2, x);
            let tup = if flip { (c2, (c1, 0u32), (x, 0u32)) } else { (c1, (c2, 0u32), (x, 0u32)) };
            assert(schema@.contains((tup.0, tup.1)));
            assert(ix.type_inv@.contains((tup.0, tup.2)));
            assert(joined@.contains(tup));
            let j = choose|j: int| 0 <= j < joined@.len() && joined@[j] == tup;
            assert(emit_spec(*v, Emit::Typed, s@, joined@[j]) == Some(t));
        }
    }
}

} // verus!

verus! {

/// The triples that cls-thing (every subject is an `owl:Thing`) and eq-sym
/// derive from `s`, appended to `out`.
pub fn apply_thing_and_sym(v: &Vocab, s: &Vec<KeyedTriple>, out: &mut Vec<KeyedTriple>)
    ensures
        extends(
            old(out)@,
            final(out)@,
            |t: KeyedTriple| derives_thing(*v, s@.to_set(), t) || derives_eq_sym(*v, s@.to_set(), t),
        ),
        covers(final(out)@, |t: KeyedTriple| derives_thing(*v, s@.to_set(), t)),
        covers(final(out)@, |t: KeyedTriple| derives_eq_sym(*v, s@.to_set(), t)),
{
    let ghost S = s@.to_set();
    let ghost start = out@;
    let mut i: usize = 0;
    while i < s.len()
        invariant
            S == s@.to_set(),
            start == old(out)@,
            0 <= i <= s@.len(),
            extends(start, out@, |t: KeyedTriple| derives_thing(*v, S, t) || derives_eq_sym(*v, S, t)),
            forall|j: int| 0 <= j < i ==> out@.contains((#[trigger] s@[j].0, (v.rdf_type, v.owl_thing))),
            forall|j: int|
                0 <= j < i && (#[trigger] s@[j]).1.0 == v.owl_sameas ==> out@.contains(
                    (s@[j].1.1, (v.owl_sameas, s@[j].0)),
                ),
        decreases s@.len() - i,
    {
        let (x, (p, y)) = s[i];
        proof {
            assert(s@.contains(s@[i as int]));
            assert(thing_instance(*v, S, (x, (v.rdf_type, v.owl_thing)), x, p, y));
        }
        let ghost before = out@;
        out.push((x, (v.rdf_type, v.owl_thing)));
        if p == v.owl_sameas {
            proof {
                assert(eq_sym_instance(*v, S, (y, (v.owl_sameas, x)), x, y));
            }
            out.push((y, (v.owl_sameas, x)));
        }
        proof {
            assert forall|m: int| start.len() <= m < out@.len() implies (derives_thing(*v, S, #[trigger] out@[m])
                || derives_eq_sym(*v, S, out@[m])) by {
                if m < before.len() {
                    assert(out@[m] == before[m]);
                }
            }
            assert forall|m: int| 0 <= m < start.len() implies #[trigger] out@[m] == start[m] by {
                assert(before[m] == start[m]);
            }
        }
        i += 1;
    }
    proof {
        assert forall|t: KeyedTriple| derives_thing(*v, S, t) implies #[trigger] out@.contains(t) by {
            let (a, b, c) = choose|a: URI, b: URI, c: URI| #[trigger] thing_instance(*v, S, t, a, b, c);
            let j = choose|j: int| 0 <= j < s@.len() && s@[j] == (a, (b, c));
            assert(s@[j].0 == a);
        }
        assert forall|t: KeyedTriple| derives_eq_sym(*v, S, t) implies #[trigger] out@.contains(t) by {
            let (a, b) = choose|a: URI, b: URI| #[trigger] eq_sym_instance(*v, S, t, a, b);
            let j = choose|j: int| 0 <= j < s@.len() && s@[j] == (a, (v.owl_sameas, b));
            assert(s@[j].1.0 == v.owl_sameas);
        }
    }
}

/// The triples that eq-trans derives from `s`, appended to `out`.
pub fn apply_eq_trans(v: &Vocab, s: &Vec<KeyedTriple>, ix: &Indexes, out: &mut Vec<KeyedTriple>)
    requires
        sorted_strict(s@),
        ix.of(*v, s@),
    ensures
        extends(old(out)@, final(out)@, |t: KeyedTriple| derives_eq_trans(*v, s@.to_set(), t)),
        covers(final(out)@, |t: KeyedTriple| derives_eq_trans(*v, s@.to_set(), t)),
{
    let ghost S = s@.to_set();
    let joined = join(&ix.sameas_inv, &ix.sameas);
    emit(v, Emit::SameAsChain, s, &joined, out);
    proof {
        assert forall|i: int| old(out)@.len() <= i < out@.len() implies derives_eq_trans(*v, S, #[trigger] out@[i]) by {
            let t = out@[i];
            assert(emitted_from(*v, Emit::SameAsChain, s@, joined@, t));
            let j = choose|j: int| 0 <= j < joined@.len() && emit_spec(*v, Emit::SameAsChain, s@, #[trigger] joined@[j]) == Some(t);
            let (k, v1, v2) = joined@[j];
            assert(joined@.contains((k, v1, v2)));
            assert(ix.sameas_inv@.contains((k, v1)));
            assert(ix.sameas@.contains((k, v2)));
            assert(eq_trans_instance(*v, S, t, v1.0, k, v2.0));
        }
        assert forall|t: KeyedTriple| derives_eq_trans(*v, S, t) implies #[trigger] out@.contains(t) by {
            let (x, y, z) = choose|x: URI, y: URI, z: URI| #[trigger] eq_trans_instance(*v, S, t, x, y, z);
            let tup = (y, (x, 0u32), (z, 0u32));
            assert(ix.sameas_inv@.contains((tup.0, tup.1)));
            assert(ix.sameas@.contains((tup.0, tup.2)));
            assert(joined@.contains(tup));
            let j = choose|j: int| 0 <= j < joined@.len() && joined@[j] == tup;
            assert(emit_spec(*v, Emit::SameAsChain, s@, joined@[j]) == Some(t));
        }
    }
}

/// The triples that eq-rep-s and eq-rep-o derive from `s`, appended to `out`.
pub fn apply_eq_rep(v: &Vocab, s: &Vec<KeyedTriple>, ix: &Indexes, out: &mut Vec<KeyedTriple>)
    requires
        sorted_strict(s@),
        ix.of(*v, s@),
    ensures
        extends(
            old(out)@,
            final(out)@,
            |t: KeyedTriple| derives_eq_rep_s(*v, s@.to_set(), t) || derives_eq_rep_o(*v, s@.to_set(), t),
        ),
        covers(final(out)@, |t: KeyedTriple| derives_eq_rep_s(*v, s@.to_set(), t)),
        covers(final(out)@, |t: KeyedTriple| derives_eq_rep_o(*v, s@.to_set(), t)),
{
    let ghost S = s@.to_set();
    let ghost start = out@;
    let js = join(&ix.sameas, s);
    emit(v, Emit::RepSubject, s, &js, out);
    let ghost mid = out@;
    let jo = join(&ix.sameas, &ix.osp);
    emit(v, Emit::RepObject, s, &jo, out);
    proof {
        assert forall|i: int| start.len() <= i < out@.len() implies (derives_eq_rep_s(*v, S, #[trigger] out@[i])
            || derives_eq_rep_o(*v, S, out@[i])) by {
            let t = out@[i];
            if i < mid.len() {
                assert(mid[i] == t);
                assert(emitted_from(*v, Emit::RepSubject, s@, js@, t));
                let j = choose|j: int| 0 <= j < js@.len() && emit_spec(*v, Emit::RepSubject, s@, #[trigger] js@[j]) == Some(t);
                let (k, v1, v2) = js@[j];
                assert(js@.contains((k, v1, v2)));
                assert(ix.sameas@.contains((k, v1)));
                assert(s@.contains((k, v2)));
                assert(eq_rep_s_instance(*v, S, t, k, v1.0, v2.0, v2.1));
            } else {
                assert(emitted_from(*v, Emit::RepObject, s@, jo@, t));
                let j = choose|j: int| 0 <= j < jo@.len() && emit_spec(*v, Emit::RepObject, s@, #[trigger] jo@[j]) == Some(t);
                let (k, v1, v2) = jo@[j];
                assert(jo@.contains((k, v1, v2)));
                assert(ix.sameas@.contains((k, v1)));
                assert(ix.osp@.contains((k, v2)));
                assert(s@.contains((v2.0, (v2.1, k))));
                assert(eq_rep_o_instance(*v, S, t, k, v1.0, v2.0, v2.1));
            }
        }
        assert forall|m: int| 0 <= m < start.len() implies #[trigger] out@[m] == start[m] by {
            assert(mid[m] == start[m]);
        }
        assert forall|t: KeyedTriple| derives_eq_rep_s(*v, S, t) implies #[trigger] out@.contains(t) by {
            let (s1, s2, p, o) = choose|s1: URI, s2: URI, p: URI, o: URI| #[trigger] eq_rep_s_instance(*v, S, t, s1, s2, p, o);
            let tup = (s1, (s2, 0u32), (p, o));
            assert(ix.sameas@.contains((tup.0, tup.1)));
            assert(s@.contains((tup.0, tup.2)));
            assert(js@.contains(tup));
            let j = choose|j: int| 0 <= j < js@.len() && js@[j] == tup;
            assert(emit_spec(*v, Emit::RepSubject, s@, js@[j]) == Some(t));
            assert(mid.contains(t));
            let m = choose|m: int| 0 <= m < mid.len() && mid[m] == t;
            assert(out@[m] == t);
        }
        assert forall|t: KeyedTriple| derives_eq_rep_o(*v, S, t) implies #[trigger] out@.contains(t) by {
            let (o1, o2, x, p) = choose|o1: URI, o2: URI, x: URI, p: URI| #[trigger] eq_rep_o_instance(*v, S, t, o1, o2, x, p);
            let tup = (o1, (o2, 0u32), (x, p));
            assert(ix.sameas@.contains((tup.0, tup.1)));
            assert(unpermute_spec(Perm::Rotate, (o1, (x, p))) == (x, (p, o1)));
            assert(ix.osp@.contains((tup.0, tup.2)));
            assert(jo@.contains(tup));
            let j = choose|j: int| 0 <= j < jo@.len() && jo@[j] == tup;
            assert(emit_spec(*v, Emit::RepObject, s@, jo@[j]) == Some(t));
        }
    }
}

} // verus!

verus! {

/// `(p, (x, y))` for each triple `(x p y)` of `s` whose predicate `p` is
/// typed `k` in `s`.
pub fn typed_triples(v: &Vocab, s: &Vec<KeyedTriple>, ix: &Indexes, k: URI) -> (r: Vec<KeyedTriple>)
    requires
        ix.of(*v, s@),
    ensures
        forall|p: URI, x: URI, y: URI|
            #![trigger r@.contains((p, (x, y)))]
            r@.contains((p, (x, y))) <==> (s@.contains((p, (v.rdf_type, k))) && s@.contains((x, (p, y)))),
{
    let props = subjects_with(s, v.rdf_type, k);
    let r = join_combine(&props, &ix.pso, Combine::Right);
    proof {
        assert forall|p: URI, x: URI, y: URI|
            r@.contains((p, (x, y))) <==> (s@.contains((p, (v.rdf_type, k))) && s@.contains((x, (p, y)))) by {
            if r@.contains((p, (x, y))) {
                assert(combined_from(props@, ix.pso@, Combine::Right, (p, (x, y))));
                let (v1, v2) = choose|v1: (URI, URI), v2: (URI, URI)|
                    #[trigger] props@.contains((p, v1)) && #[trigger] ix.pso@.contains((p, v2))
                        && combine_spec(Combine::Right, (p, v1, v2)) == (p, (x, y));
                assert(props@.contains((p, (v1.0, v1.1))));
                assert(ix.pso@.contains((p, (x, y))));
            }
            if s@.contains((p, (v.rdf_type, k))) && s@.contains((x, (p, y))) {
                assert(props@.contains((p, (0u32, 0u32))));
                assert(ix.pso@.contains((p, (x, y))));
                assert(combine_spec(Combine::Right, (p, (0u32, 0u32), (x, y))) == (p, (x, y)));
                assert(combined_from(props@, ix.pso@, Combine::Right, (p, (x, y))));
            }
        }
    }
    r
}

/// Appends the triples of `r` to `out`.
pub fn append_all(out: &mut Vec<KeyedTriple>, r: Vec<KeyedTriple>)
    ensures
        final(out)@ == old(out)@ + r@,
{
    let mut r = r;
    out.append(&mut r);
}

/// The triples that prp-symp derives from `s`, appended to `out`.
pub fn apply_prp_symp(v: &Vocab, s: &Vec<KeyedTriple>, ix: &Indexes, out: &mut Vec<KeyedTriple>)
    requires
        ix.of(*v, s@),
    ensures
        extends(old(out)@, final(out)@, |t: KeyedTriple| derives_prp_symp(*v, s@.to_set(), t)),
        covers(final(out)@, |t: KeyedTriple| derives_prp_symp(*v, s@.to_set(), t)),
{
    let ghost S = s@.to_set();
    let tt = typed_triples(v, s, ix, v.owl_symmetric);
    let r = permute(&tt, Perm::Rotate);
    let ghost start = out@;
    append_all(out, r);
    proof {
        assert forall|i: int| start.len() <= i < out@.len() implies derives_prp_symp(*v, S, #[trigger] out@[i]) by {
            let t = out@[i];
            assert(r@[i - start.len()] == t);
            assert(r@.contains(t));
            let (y, (p, x)) = t;
            assert(tt@.contains((p, (x, y))));
            assert(prp_symp_instance(*v, S, t, p, x, y));
        }
        assert forall|m: int| 0 <= m < start.len() implies #[trigger] out@[m] == start[m] by {}
        assert forall|t: KeyedTriple| derives_prp_symp(*v, S, t) implies #[trigger] out@.contains(t) by {
            let (p, x, y) = choose|p: URI, x: URI, y: URI| #[trigger] prp_symp_instance(*v, S, t, p, x, y);
            assert(tt@.contains((p, (x, y))));
            assert(r@.contains(t));
            let j = choose|j: int| 0 <= j < r@.len() && r@[j] == t;
            assert(out@[start.len() + j] == t);
        }
    }
}

/// The triples that prp-trp derives from `s`, appended to `out`.
pub fn apply_prp_trp(v: &Vocab, s: &Vec<KeyedTriple>, ix: &Indexes, out: &mut Vec<KeyedTriple>)
    requires
        sorted_strict(s@),
        ix.of(*v, s@),
    ensures
        extends(old(out)@, final(out)@, |t: KeyedTriple| derives_prp_trp(*v, s@.to_set(), t)),
        covers(final(out)@, |t: KeyedTriple| derives_prp_trp(*v, s@.to_set(), t)),
{
    let ghost S = s@.to_set();
    let tt = typed_triples(v, s, ix, v.owl_transitive);
    let left = permute(&tt, Perm::Rotate);
    let right = permute(&tt, Perm::Swap01);
    let joined = join(&left, &right);
    emit(v, Emit::PropChain, s, &joined, out);
    proof {
        assert forall|i: int| old(out)@.len() <= i < out@.len() implies derives_prp_trp(*v, S, #[trigger] out@[i]) by {
            let t = out@[i];
            assert(emitted_from(*v, Emit::PropChain, s@, joined@, t));
            let j = choose|j: int| 0 <= j < joined@.len() && emit_spec(*v, Emit::PropChain, s@, #[trigger] joined@[j]) == Some(t);
            let (y, (p, x), (p2, z)) = joined@[j];
            assert(joined@.contains((y, (p, x), (p2, z))));
            assert(left@.contains((y, (p, x))));
            assert(right@.contains((y, (p2, z))));
            assert(tt@.contains((p, (x, y))));
            assert(tt@.contains((p2, (y, z))));
            assert(prp_trp_instance(*v, S, t, p, x, y, z));
        }
        assert forall|t: KeyedTriple| derives_prp_trp(*v, S, t) implies #[trigger] out@.contains(t) by {
            let (p, x, y, z) = choose|p: URI, x: URI, y: URI, z: URI| #[trigger] prp_trp_instance(*v, S, t, p, x, y, z);
            assert(tt@.contains((p, (x, y))));
            assert(tt@.contains((p, (y, z))));
            let tup = (y, (p, x), (p, z));
            assert(left@.contains((tup.0, tup.1)));
            assert(right@.contains((tup.0, tup.2)));
            assert(joined@.contains(tup));
            let j = choose|j: int| 0 <= j < joined@.len() && joined@[j] == tup;
            assert(emit_spec(*v, Emit::PropChain, s@, joined@[j]) == Some(t));
        }
    }
}

/// The triples that prp-fp and prp-ifp derive from `s`, appended to `out`.
pub fn apply_prp_fp_ifp(v: &Vocab, s: &Vec<KeyedTriple>, ix: &Indexes, out: &mut Vec<KeyedTriple>)
    requires
        sorted_strict(s@),
        ix.of(*v, s@),
    ensures
        extends(
            old(out)@,
            final(out)@,
            |t: KeyedTriple| derives_prp_fp(*v, s@.to_set(), t) || derives_prp_ifp(*v, s@.to_set(), t),
        ),
        covers(final(out)@, |t: KeyedTriple| derives_prp_fp(*v, s@.to_set(), t)),
        covers(final(out)@, |t: KeyedTriple| derives_prp_ifp(*v, s@.to_set(), t)),
{
    let ghost S = s@.to_set();
    let ghost start = out@;
    let fp = typed_triples(v, s, ix, v.owl_functional);
    let by_subject = permute(&fp, Perm::Swap01);
    let jf = join(&by_subject, &by_subject);
    emit(v, Emit::PropSameAs, s, &jf, out);
    let ghost mid = out@;
    let ifp = typed_triples(v, s, ix, v.owl_invfunctional);
    let by_object = permute(&ifp, Perm::Rotate);
    let ji = join(&by_object, &by_object);
    emit(v, Emit::PropSameAs, s, &ji, out);
    proof {
        assert forall|i: int| start.len() <= i < out@.len() implies (derives_prp_fp(*v, S, #[trigger] out@[i])
            || derives_prp_ifp(*v, S, out@[i])) by {
            let t = out@[i];
            if i < mid.len() {
                assert(mid[i] == t);
                assert(emitted_from(*v, Emit::PropSameAs, s@, jf@, t));
                let j = choose|j: int| 0 <= j < jf@.len() && emit_spec(*v, Emit::PropSameAs, s@, #[trigger] jf@[j]) == Some(t);
                let (x, (p, y1), (p2, y2)) = jf@[j];
                assert(jf@.contains((x, (p, y1), (p2, y2))));
                assert(by_subject@.contains((x, (p, y1))));
                assert(by_subject@.contains((x, (p2, y2))));
                assert(fp@.contains((p, (x, y1))));
                assert(fp@.contains((p2, (x, y2))));
                assert(prp_fp_instance(*v, S, t, p, x, y1, y2));
            } else {
                assert(emitted_from(*v, Emit::PropSameAs, s@, ji@, t));
                let j = choose|j: int| 0 <= j < ji@.len() && emit_spec(*v, Emit::PropSameAs, s@, #[trigger] ji@[j]) == Some(t);
                let (y, (p, x1), (p2, x2)) = ji@[j];
                assert(ji@.contains((y, (p, x1), (p2, x2))));
                assert(by_object@.contains((y, (p, x1))));
                assert(by_object@.contains((y, (p2, x2))));
                assert(ifp@.contains((p, (x1, y))));
                assert(ifp@.contains((p2, (x2, y))));
                assert(prp_ifp_instance(*v, S, t, p, x1, x2, y));
            }
        }
        assert forall|m: int| 0 <= m < start.len() implies #[trigger] out@[m] == start[m] by {
            assert(mid[m] == start[m]);
        }
        assert forall|t: KeyedTriple| derives_prp_fp(*v, S, t) implies #[trigger] out@.contains(t) by {
            let (p, x, y1, y2) = choose|p: URI, x: URI, y1: URI, y2: URI| #[trigger] prp_fp_instance(*v, S, t, p, x, y1, y2);
            assert(fp@.contains((p, (x, y1))));
            assert(fp@.contains((p, (x, y2))));
            let tup = (x, (p, y1), (p, y2));
            assert(by_subject@.contains((tup.0, tup.1)));
            assert(by_subject@.contains((tup.0, tup.2)));
            assert(jf@.contains(tup));
            let j = choose|j: int| 0 <= j < jf@.len() && jf@[j] == tup;
            assert(emit_spec(*v, Emit::PropSameAs, s@, jf@[j]) == Some(t));
            assert(mid.contains(t));
            let m = choose|m: int| 0 <= m < mid.len() && mid[m] == t;
            assert(out@[m] == t);
        }
        assert forall|t: KeyedTriple| derives_prp_ifp(*v, S, t) implies #[trigger] out@.contains(t) by {
            let (p, x1, x2, y) = choose|p: URI, x1: URI, x2: URI, y: URI| #[trigger] prp_ifp_instance(*v, S, t, p, x1, x2, y);
            assert(ifp@.contains((p, (x1, y))));
            assert(ifp@.contains((p, (x2, y))));
            let tup = (y, (p, x1), (p, x2));
            assert(by_object@.contains((tup.0, tup.1)));
            assert(by_object@.contains((tup.0, tup.2)));
            assert(ji@.contains(tup));
            let j = choose|j: int| 0 <= j < ji@.len() && ji@[j] == tup;
            assert(emit_spec(*v, Emit::PropSameAs, s@, ji@[j]) == Some(t));
        }
    }
}

} // verus!

verus! {

/// `(x, (a, b))` for each `x` with `(x p1 a)` and `(x p2 b)` in `s`.
pub fn schema_pairs(s: &Vec<KeyedTriple>, p1: URI, p2: URI) -> (r: Vec<KeyedTriple>)
    ensures
        forall|x: URI, a: URI, b: URI|
            #![trigger r@.contains((x, (a, b)))]
            r@.contains((x, (a, b))) <==> (s@.contains((x, (p1, a))) && s@.contains((x, (p2, b)))),
{
    let first = select(s, p1, false);
    let second = select(s, p2, false);
    let r = join_combine(&first, &second, Combine::Firsts);
    proof {
        assert forall|x: URI, a: URI, b: URI|
            r@.contains((x, (a, b))) <==> (s@.contains((x, (p1, a))) && s@.contains((x, (p2, b)))) by {
            if r@.contains((x, (a, b))) {
                assert(combined_from(first@, second@, Combine::Firsts, (x, (a, b))));
                let (v1, v2) = choose|v1: (URI, URI), v2: (URI, URI)|
                    #[trigger] first@.contains((x, v1)) && #[trigger] second@.contains((x, v2))
                        && combine_spec(Combine::Firsts, (x, v1, v2)) == (x, (a, b));
                assert(first@.contains((x, (v1.0, v1.1))));
                assert(second@.contains((x, (v2.0, v2.1))));
            }
            if s@.contains((x, (p1, a))) && s@.contains((x, (p2, b))) {
                let t: KeyedTriple = (x, (a, b));
                assert(first@.contains((t.0, (a, 0u32))));
                assert(second@.contains((t.0, (b, 0u32))));
                assert(combine_spec(Combine::Firsts, (t.0, (a, 0u32), (b, 0u32))) == t);
                assert(combined_from(first@, second@, Combine::Firsts, t));
            }
        }
    }
    r
}

/// The triples that cls-hv1 and cls-hv2 derive from `s`, appended to `out`.
pub fn apply_has_value(v: &Vocab, s: &Vec<KeyedTriple>, ix: &Indexes, out: &mut Vec<KeyedTriple>)
    requires
        sorted_strict(s@),
        ix.of(*v, s@),
    ensures
        extends(
            old(out)@,
            final(out)@,
            |t: KeyedTriple| derives_cls_hv1(*v, s@.to_set(), t) || derives_cls_hv2(*v, s@.to_set(), t),
        ),
        covers(final(out)@, |t: KeyedTriple| derives_cls_hv1(*v, s@.to_set(), t)),
        covers(final(out)@, |t: KeyedTriple| derives_cls_hv2(*v, s@.to_set(), t)),
{
    let ghost S = s@.to_set();
    let ghost start = out@;
    // (x, (y, p)) for (x owl:hasValue y), (x owl:onProperty p)
    let hv = schema_pairs(s, v.owl_hasvalue, v.owl_onproperty);
    let j1 = join(&ix.type_inv, &hv);
    emit(v, Emit::ValueOf, s, &j1, out);
    let ghost mid = out@;
    // (p, (y, x))
    let by_prop = permute(&hv, Perm::Swap02);
    let j2 = join(&by_prop, &ix.pso);
    emit(v, Emit::HasValue, s, &j2, out);
    proof {
        assert forall|i: int| start.len() <= i < out@.len() implies (derives_cls_hv1(*v, S, #[trigger] out@[i])
            || derives_cls_hv2(*v, S, out@[i])) by {
            let t = out@[i];
            if i < mid.len() {
                assert(mid[i] == t);
                assert(emitted_from(*v, Emit::ValueOf, s@, j1@, t));
                let j = choose|j: int| 0 <= j < j1@.len() && emit_spec(*v, Emit::ValueOf, s@, #[trigger] j1@[j]) == Some(t);
                let (x, (u, z), (y, p)) = j1@[j];
                assert(j1@.contains((x, (u, z), (y, p))));
                assert(ix.type_inv@.contains((x, (u, z))));
                assert(hv@.contains((x, (y, p))));
                assert(cls_hv1_instance(*v, S, t, x, y, p, u));
            } else {
                assert(emitted_from(*v, Emit::HasValue, s@, j2@, t));
                let j = choose|j: int| 0 <= j < j2@.len() && emit_spec(*v, Emit::HasValue, s@, #[trigger] j2@[j]) == Some(t);
                let (p, (y, x), (u, w)) = j2@[j];
                assert(j2@.contains((p, (y, x), (u, w))));
                assert(by_prop@.contains((p, (y, x))));
                assert(hv@.contains((x, (y, p))));
                assert(ix.pso@.contains((p, (u, w))));
                assert(cls_hv2_instance(*v, S, t, x, y, p, u));
            }
        }
        assert forall|m: int| 0 <= m < start.len() implies #[trigger] out@[m] == start[m] by {
            assert(mid[m] == start[m]);
        }
        assert forall|t: KeyedTriple| derives_cls_hv1(*v, S, t) implies #[trigger] out@.contains(t) by {
            let (x, y, p, u) = choose|x: URI, y: URI, p: URI, u: URI| #[trigger] cls_hv1_instance(*v, S, t, x, y, p, u);
            let tup = (x, (u, 0u32), (y, p));
            assert(ix.type_inv@.contains((tup.0, tup.1)));
            assert(hv@.contains((tup.0, tup.2)));
            assert(j1@.contains(tup));
            let j = choose|j: int| 0 <= j < j1@.len() && j1@[j] == tup;
            assert(emit_spec(*v, Emit::ValueOf, s@, j1@[j]) == Some(t));
            assert(mid.contains(t));
            let m = choose|m: int| 0 <= m < mid.len() && mid[m] == t;
            assert(out@[m] == t);
        }
        assert forall|t: KeyedTriple| derives_cls_hv2(*v, S, t) implies #[trigger] out@.contains(t) by {
            let (x, y, p, u) = choose|x: URI, y: URI, p: URI, u: URI| #[trigger] cls_hv2_instance(*v, S, t, x, y, p, u);
            let tup = (p, (y, x), (u, y));
            assert(hv@.contains((x, (y, p))));
            assert(by_prop@.contains((tup.0, tup.1)));
            assert(ix.pso@.contains((tup.0, tup.2)));
            assert(j2@.contains(tup));
            let j = choose|j: int| 0 <= j < j2@.len() && j2@[j] == tup;
            assert(emit_spec(*v, Emit::HasValue, s@, j2@[j]) == Some(t));
        }
    }
}

/// The triples that cls-avf derives from `s`, appended to `out`.
pub fn apply_all_values(v: &Vocab, s: &Vec<KeyedTriple>, ix: &Indexes, out: &mut Vec<KeyedTriple>)
    requires
        sorted_strict(s@),
        ix.of(*v, s@),
    ensures
        extends(old(out)@, final(out)@, |t: KeyedTriple| derives_cls_avf(*v, s@.to_set(), t)),
        covers(final(out)@, |t: KeyedTriple| derives_cls_avf(*v, s@.to_set(), t)),
{
    let ghost S = s@.to_set();
    // (x, (y, p)) for (x owl:allValuesFrom y), (x owl:onProperty p)
    let av = schema_pairs(s, v.owl_allvalues, v.owl_onproperty);
    let j1 = join(&ix.type_inv, &av);
    // (u, (p, y)) for each instance u of such an x
    let mut w: Vec<KeyedTriple> = Vec::new();
    emit(v, Emit::ValueOf, s, &j1, &mut w);
    let j2 = join(&w, s);
    emit(v, Emit::AllValues, s, &j2, out);
    proof {
        assert forall|i: int| old(out)@.len() <= i < out@.len() implies derives_cls_avf(*v, S, #[trigger] out@[i]) by {
            let t = out@[i];
            assert(emitted_from(*v, Emit::AllValues, s@, j2@, t));
            let j = choose|j: int| 0 <= j < j2@.len() && emit_spec(*v, Emit::AllValues, s@, #[trigger] j2@[j]) == Some(t);
            let (u, (p, y), (p2, z)) = j2@[j];
            assert(j2@.contains((u, (p, y), (p2, z))));
            assert(w@.contains((u, (p, y))));
            assert(s@.contains((u, (p2, z))));
            let m = choose|m: int| 0 <= m < w@.len() && w@[m] == (u, (p, y));
            assert(emitted_from(*v, Emit::ValueOf, s@, j1@, w@[m]));
            let k = choose|k: int| 0 <= k < j1@.len() && emit_spec(*v, Emit::ValueOf, s@, #[trigger] j1@[k]) == Some(w@[m]);
            let (x, (u2, c), (y2, p3)) = j1@[k];
            assert(j1@.contains((x, (u2, c), (y2, p3))));
            assert(ix.type_inv@.contains((x, (u2, c))));
            assert(av@.contains((x, (y2, p3))));
            assert(cls_avf_instance(*v, S, t, x, y, p, u, z));
        }
        assert forall|t: KeyedTriple| derives_cls_avf(*v, S, t) implies #[trigger] out@.contains(t) by {
            let (x, y, p, u, z) = choose|x: URI, y: URI, p: URI, u: URI, z: URI| #[trigger] cls_avf_instance(*v, S, t, x, y, p, u, z);
            let tup1 = (x, (u, 0u32), (y, p));
            assert(ix.type_inv@.contains((tup1.0, tup1.1)));
            assert(av@.contains((tup1.0, tup1.2)));
            assert(j1@.contains(tup1));
            let k = choose|k: int| 0 <= k < j1@.len() && j1@[k] == tup1;
            assert(emit_spec(*v, Emit::ValueOf, s@, j1@[k]) == Some((u, (p, y))));
            assert(w@.contains((u, (p, y))));
            let tup2 = (u, (p, y), (p, z));
            assert(s@.contains((tup2.0, tup2.2)));
            assert(j2@.contains(tup2));
            let j = choose|j: int| 0 <= j < j2@.len() && j2@[j] == tup2;
            assert(emit_spec(*v, Emit::AllValues, s@, j2@[j]) == Some(t));
        }
    }
}

/// The triples that cls-svf1 and cls-svf2 derive from `s`, appended to `out`.
pub fn apply_some_values(v: &Vocab, s: &Vec<KeyedTriple>, ix: &Indexes, out: &mut Vec<KeyedTriple>)
    requires
        sorted_strict(s@),
        ix.of(*v, s@),
    ensures
        extends(
            old(out)@,
            final(out)@,
            |t: KeyedTriple| derives_cls_svf1(*v, s@.to_set(), t) || derives_cls_svf2(*v, s@.to_set(), t),
        ),
        covers(final(out)@, |t: KeyedTriple| derives_cls_svf1(*v, s@.to_set(), t)),
        covers(final(out)@, |t: KeyedTriple| derives_cls_svf2(*v, s@.to_set(), t)),
{
    let ghost S = s@.to_set();
    let ghost start = out@;
    // (x, (y, p)) for (x owl:someValuesFrom y), (x owl:onProperty p)
    let sv = schema_pairs(s, v.owl_somevalues, v.owl_onproperty);
    // (p, (x, y))
    let by_prop = permute(&sv, Perm::Rotate);
    let joined = join(&by_prop, &ix.pso);
    emit(v, Emit::SomeValues, s, &joined, out);
    let ghost mid = out@;
    emit(v, Emit::SomeThing, s, &joined, out);
    proof {
        assert forall|i: int| start.len() <= i < out@.len() implies (derives_cls_svf1(*v, S, #[trigger] out@[i])
            || derives_cls_svf2(*v, S, out@[i])) by {
            let t = out@[i];
            if i < mid.len() {
                assert(mid[i] == t);
                assert(emitted_from(*v, Emit::SomeValues, s@, joined@, t));
                let j = choose|j: int| 0 <= j < joined@.len() && emit_spec(*v, Emit::SomeValues, s@, #[trigger] joined@[j]) == Some(t);
                let (p, (x, y), (u, w)) = joined@[j];
                assert(joined@.contains((p, (x, y), (u, w))));
                assert(by_prop@.contains((p, (x, y))));
                assert(sv@.contains((x, (y, p))));
                assert(ix.pso@.contains((p, (u, w))));
                assert(cls_svf1_instance(*v, S, t, x, y, p, u, w));
            } else {
                assert(emitted_from(*v, Emit::SomeThing, s@, joined@, t));
                let j = choose|j: int| 0 <= j < joined@.len() && emit_spec(*v, Emit::SomeThing, s@, #[trigger] joined@[j]) == Some(t);
                let (p, (x, y), (u, w)) = joined@[j];
                assert(joined@.contains((p, (x, y), (u, w))));
                assert(by_prop@.contains((p, (x, y))));
                assert(sv@.contains((x, (y, p))));
                assert(ix.pso@.contains((p, (u, w))));
                assert(cls_svf2_instance(*v, S, t, x, p, u, w));
            }
        }
        assert forall|m: int| 0 <= m < start.len() implies #[trigger] out@[m] == start[m] by {
            assert(mid[m] == start[m]);
        }
        assert forall|t: KeyedTriple| derives_cls_svf1(*v, S, t) implies #[trigger] out@.contains(t) by {
            let (x, y, p, u, w) = choose|x: URI, y: URI, p: URI, u: URI, w: URI| #[trigger] cls_svf1_instance(*v, S, t, x, y, p, u, w);
            let tup = (p, (x, y), (u, w));
            assert(sv@.contains((x, (y, p))));
            assert(by_prop@.contains((tup.0, tup.1)));
            assert(ix.pso@.contains((tup.0, tup.2)));
            assert(joined@.contains(tup));
            let j = choose|j: int| 0 <= j < joined@.len() && joined@[j] == tup;
            assert(emit_spec(*v, Emit::SomeValues, s@, joined@[j]) == Some(t));
            assert(mid.contains(t));
            let m = choose|m: int| 0 <= m < mid.len() && mid[m] == t;
            assert(out@[m] == t);
        }
        assert forall|t: KeyedTriple| derives_cls_svf2(*v, S, t) implies #[trigger] out@.contains(t) by {
            let (x, p, u, w) = choose|x: URI, p: URI, u: URI, w: URI| #[trigger] cls_svf2_instance(*v, S, t, x, p, u, w);
            let tup = (p, (x, v.owl_thing), (u, w));
            assert(sv@.contains((x, (v.owl_thing, p))));
            assert(by_prop@.contains((tup.0, tup.1)));
            assert(ix.pso@.contains((tup.0, tup.2)));
            assert(joined@.contains(tup));
            let j = choose|j: int| 0 <= j < joined@.len() && joined@[j] == tup;
            assert(emit_spec(*v, Emit::SomeThing, s@, joined@[j]) == Some(t));
        }
    }
}

} // verus!
